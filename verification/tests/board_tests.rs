use builtinai::board::{BBoard, BoardSize};
use builtinai::nodes::{Node, Nodes};
use builtinai::search::AI;
use builtinai::side::Color;

fn six_center() -> Vec<u8> {
    // 6x6 opening: the four standard center discs
    let mut b = vec![b'+'; 36];
    b[14] = b'O';
    b[15] = b'X';
    b[20] = b'X';
    b[21] = b'O';
    b
}

#[test]
fn decode_reports_each_occupant() {
    let b = six_center();
    let bd = BBoard::new(&b, BoardSize::Six);
    for i in 0..36 {
        let expect = match b[i] {
            b'X' => Color::Black,
            b'O' => Color::White,
            _ => Color::Empty,
        };
        assert_eq!(bd.at(i as i32), expect);
    }
}

#[test]
fn reverse_swaps_the_two_sides() {
    assert_eq!(Color::Black.reverse(), Color::White);
    assert_eq!(Color::White.reverse(), Color::Black);
}

#[test]
fn opening_legal_moves_are_the_four_standard_cells() {
    let bd = BBoard::new(&six_center(), BoardSize::Six);
    let expected: u64 = (1 << 8) | (1 << 13) | (1 << 22) | (1 << 27);
    assert_eq!(bd.all_valid_loc(Color::Black), expected);
    assert_eq!(bd.mobility(Color::Black), 4);
    for loc in 0..36 {
        let legal = expected & (1u64 << loc) != 0;
        assert_eq!(bd.is_valid_loc(loc, Color::Black), legal);
    }
}

#[test]
fn opening_move_flips_exactly_one_disc() {
    let expected: [i32; 4] = [8, 13, 22, 27];
    for &loc in expected.iter() {
        let mut bd = BBoard::new(&six_center(), BoardSize::Six);
        assert!(bd.put_and_check(loc, Color::Black));
        // one disc placed, one flipped: occupancy rose by exactly one
        assert_eq!(bd.count(Color::Black), 4);
        assert_eq!(bd.count(Color::White), 1);
        assert_eq!(bd.empty_count(), 31);
        assert_eq!(bd.at(loc), Color::Black);
    }
}

#[test]
fn legal_moves_only_target_empty_cells() {
    let bd = BBoard::new(&six_center(), BoardSize::Six);
    for cl in [Color::Black, Color::White] {
        let legal = bd.all_valid_loc(cl);
        for loc in 0..36i32 {
            if legal & (1u64 << loc) != 0 {
                assert_eq!(bd.at(loc), Color::Empty);
            }
        }
    }
}

#[test]
fn put_and_check_rejects_bad_cells() {
    let mut bd = BBoard::new(&six_center(), BoardSize::Six);
    assert!(!bd.put_and_check(-1, Color::Black));
    assert!(!bd.put_and_check(36, Color::Black));
    assert!(!bd.put_and_check(14, Color::Black)); // occupied
    assert!(!bd.put_and_check(0, Color::Black)); // empty but illegal
    // the board is unchanged
    assert_eq!(bd.count(Color::Black), 2);
    assert_eq!(bd.count(Color::White), 2);
    assert_eq!(bd.all_valid_loc(Color::Black), (1 << 8) | (1 << 13) | (1 << 22) | (1 << 27));
}

#[test]
fn empty_board_is_over_and_full_board_is_over() {
    let empty = vec![b'+'; 36];
    let bd = BBoard::new(&empty, BoardSize::Six);
    assert_eq!(bd.all_valid_loc(Color::Black), 0);
    assert_eq!(bd.all_valid_loc(Color::White), 0);
    assert!(bd.is_over());
    let full = vec![b'X'; 36];
    let bd2 = BBoard::new(&full, BoardSize::Six);
    assert!(bd2.is_over());
    assert_eq!(bd2.count(Color::Black), 36);
    assert_eq!(bd2.empty_count(), 0);
}

#[test]
fn terminal_means_no_moves_for_either_side() {
    let bd = BBoard::new(&six_center(), BoardSize::Six);
    let over = bd.all_valid_loc(Color::Black) == 0 && bd.all_valid_loc(Color::White) == 0;
    assert_eq!(bd.is_over(), over);
    assert!(!bd.is_over());
}

#[test]
fn corner_weight_of_the_small_grid_is_100() {
    let mut b = vec![b'+'; 36];
    b[0] = b'X';
    let bd = BBoard::new(&b, BoardSize::Six);
    assert_eq!(bd.eval(Color::Black), 100);
    assert_eq!(bd.eval(Color::White), -100);
}

#[test]
fn corner_weight_of_the_large_grid_is_800() {
    let mut b = vec![b'+'; 64];
    b[0] = b'X';
    let bd = BBoard::new(&b, BoardSize::Eight);
    assert_eq!(bd.eval(Color::Black), 800);
    assert_eq!(bd.eval(Color::White), -800);
}

#[test]
fn adjacent_to_corner_weight_of_the_small_grid() {
    let mut b = vec![b'+'; 36];
    b[1] = b'X'; // edge cell next to the corner, class weight -36
    let bd = BBoard::new(&b, BoardSize::Six);
    assert_eq!(bd.eval(Color::Black), -36);
}

#[test]
fn node_to_string_encodes_row_then_column() {
    assert_eq!(Node::new(0, 0).to_string(BoardSize::Six), "Aa");
    assert_eq!(Node::new(35, 0).to_string(BoardSize::Six), "Ff");
    assert_eq!(Node::new(7, 0).to_string(BoardSize::Six), "Bb");
    assert_eq!(Node::new(0, 0).to_string(BoardSize::Eight), "Aa");
    assert_eq!(Node::new(63, 0).to_string(BoardSize::Eight), "Hh");
    assert_eq!(Node::new(9, 0).to_string(BoardSize::Eight), "Bb");
}

#[test]
fn sort_desc_orders_scores_high_to_low() {
    let mut ns = Nodes::new();
    ns.push(Node::new(0, 3));
    ns.push(Node::new(1, 7));
    ns.push(Node::new(2, 5));
    ns.push(Node::new(3, 7));
    ns.sort_desc();
    assert_eq!(ns.size(), 4);
    let vals: Vec<i32> = (0..4).map(|i| ns.get(i).value).collect();
    assert_eq!(vals, vec![7, 7, 5, 3]);
}

#[test]
fn sort_asc_orders_scores_low_to_high() {
    let mut ns = Nodes::new();
    ns.push(Node::new(0, 3));
    ns.push(Node::new(1, 7));
    ns.push(Node::new(2, 5));
    ns.push(Node::new(3, 1));
    ns.sort_asc();
    let vals: Vec<i32> = (0..4).map(|i| ns.get(i).value).collect();
    assert_eq!(vals, vec![1, 3, 5, 7]);
}

#[test]
fn sort_desc_is_stable_for_equal_scores() {
    let mut ns = Nodes::new();
    ns.push(Node::new(0, 5));
    ns.push(Node::new(1, 5));
    ns.push(Node::new(2, 7));
    ns.sort_desc();
    let locs: Vec<i32> = (0..3).map(|i| ns.get(i).loc).collect();
    assert_eq!(locs, vec![2, 0, 1]);
}

#[test]
fn sort_asc_is_stable_for_equal_scores() {
    let mut ns = Nodes::new();
    ns.push(Node::new(0, 5));
    ns.push(Node::new(1, 5));
    ns.push(Node::new(2, 3));
    ns.sort_asc();
    let locs: Vec<i32> = (0..3).map(|i| ns.get(i).loc).collect();
    assert_eq!(locs, vec![2, 0, 1]);
}

#[test]
fn candidate_list_has_one_entry_per_legal_move() {
    let bd = BBoard::new(&six_center(), BoardSize::Six);
    let ai = AI::new(Color::Black, BoardSize::Six);
    let ns = ai.sorted_valid_nodes(&bd, Color::Black);
    assert_eq!(ns.size() as i32, bd.mobility(Color::Black));
    // strategic phase: scored by the mover's positional outcome, best first
    for i in 0..ns.size() {
        let n = ns.get(i);
        let mut tmp = bd.copy();
        assert!(tmp.put_and_check(n.loc, Color::Black));
        assert_eq!(n.value, tmp.eval(Color::Black));
        if i > 0 {
            assert!(ns.get(i - 1).value >= n.value);
        }
    }
}
