use builtinai::board::{BBoard, BoardSize};
use builtinai::search::AI;
use builtinai::side::Color;

fn six_center() -> Vec<u8> {
    let mut b = vec![b'+'; 36];
    b[14] = b'O';
    b[15] = b'X';
    b[20] = b'X';
    b[21] = b'O';
    b
}

#[test]
fn depth_one_search_equals_exhaustive_enumeration() {
    // pruned search against a plain enumeration of all depth-one outcomes
    let bd = BBoard::new(&six_center(), BoardSize::Six);
    let ai = AI::new(Color::Black, BoardSize::Six);
    let best = ai.alpha_beta_helper(&bd, 1);
    let mut expect = i32::MIN;
    for loc in [8, 13, 22, 27] {
        let mut tmp = bd.copy();
        assert!(tmp.put_and_check(loc, Color::Black));
        let v = tmp.eval(Color::Black);
        if v > expect {
            expect = v;
        }
    }
    assert_eq!(best.value, expect);
    assert!([8, 13, 22, 27].contains(&best.loc));
}

#[test]
fn blocked_side_passes_without_losing_depth() {
    // black to move has no legal move, white has exactly one; at depth one
    // the pass must hand the turn to white without consuming the budget,
    // so a real move (not the horizon sentinel) comes back
    let mut b = vec![b'+'; 36];
    b[0] = b'O';
    b[1] = b'O';
    b[2] = b'X';
    let bd = BBoard::new(&b, BoardSize::Six);
    assert_eq!(bd.all_valid_loc(Color::Black), 0);
    assert_eq!(bd.all_valid_loc(Color::White), 1 << 3);
    let ai = AI::new(Color::Black, BoardSize::Six);
    let best = ai.alpha_beta_helper(&bd, 1);
    assert_eq!(best.loc, 3);
    // the value is the heuristic of the position after white's reply
    let mut after = bd.copy();
    assert!(after.put_and_check(3, Color::White));
    assert_eq!(best.value, after.eval(Color::Black));
}

#[test]
fn endgame_next_move_takes_the_last_cell_small_grid() {
    let mut b = vec![b'X'; 36];
    b[30] = b'O';
    b[35] = b'+';
    let mut ai = AI::new(Color::White, BoardSize::Six);
    assert_eq!(ai.next_move(&b), "Ff");
}

#[test]
fn endgame_next_move_takes_the_last_cell_large_grid() {
    let mut b = vec![b'X'; 64];
    b[56] = b'O';
    b[63] = b'+';
    let mut ai = AI::new(Color::White, BoardSize::Eight);
    assert_eq!(ai.next_move(&b), "Hh");
}

#[test]
fn engine_tracks_phase_and_depth() {
    let mut ai = AI::new(Color::Black, BoardSize::Six);
    // opening position: 32 empty cells, strategic phase
    let bd = BBoard::new(&six_center(), BoardSize::Six);
    assert_eq!(bd.empty_count(), 32);
    // endgame position: a nearly full board
    let mut b = vec![b'X'; 36];
    b[30] = b'O';
    b[35] = b'+';
    let mv = ai.next_move(&b);
    assert_eq!(mv.len(), 2);
}

#[test]
fn heuristic_is_disc_difference_in_the_endgame() {
    let mut b = vec![b'+'; 36];
    b[0] = b'X';
    b[1] = b'X';
    b[2] = b'O';
    let bd = BBoard::new(&b, BoardSize::Six);
    assert_eq!(bd.count(Color::Black) - bd.count(Color::White), 1);
}
