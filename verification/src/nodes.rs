use vstd::prelude::*;
use vstd::string::StringExecFns;
use crate::board::{BoardSize, lemma_cells_le};

verus! {

/// A candidate move: a cell index paired with its ordering score.
#[derive(Clone, Copy, Debug)]
pub struct Node {
    pub loc: i32,
    pub value: i32,
}

/// Upper-case letter naming a grid row.
pub open spec fn row_char(y: int) -> char {
    if y == 0 {
        'A'
    } else if y == 1 {
        'B'
    } else if y == 2 {
        'C'
    } else if y == 3 {
        'D'
    } else if y == 4 {
        'E'
    } else if y == 5 {
        'F'
    } else if y == 6 {
        'G'
    } else {
        'H'
    }
}

/// Lower-case letter naming a grid column.
pub open spec fn col_char(x: int) -> char {
    if x == 0 {
        'a'
    } else if x == 1 {
        'b'
    } else if x == 2 {
        'c'
    } else if x == 3 {
        'd'
    } else if x == 4 {
        'e'
    } else if x == 5 {
        'f'
    } else if x == 6 {
        'g'
    } else {
        'h'
    }
}

/// Two-character encoding of a cell index on an `n`-wide grid: row letter,
/// then column letter.
pub open spec fn move_chars(loc: int, n: int) -> Seq<char> {
    seq![row_char(loc / n), col_char(loc % n)]
}

impl Node {
    pub fn new(loc: i32, value: i32) -> (r: Node)
        ensures
            r.loc == loc,
            r.value == value,
    {
        Node { loc, value }
    }

    /// Encode the move's cell; row 0, column 0 is `Aa`.
    pub fn to_string(&self, size: BoardSize) -> (r: String)
        requires
            0 <= self.loc < size.cells_spec(),
        ensures
            r@ == move_chars(self.loc as int, size.nv() as int),
    {
        proof {
            lemma_cells_le(size);
        }
        let n: i32 = size.extent() as i32;
        let y: i32 = self.loc / n;
        let x: i32 = self.loc % n;
        assert(0 <= y < n && 0 <= x < n) by (nonlinear_arith)
            requires
                0 <= self.loc < n * n,
                6 <= n <= 8,
                y == self.loc / n,
                x == self.loc % n,
        ;
        let rs: &str = if y == 0 {
            "A"
        } else if y == 1 {
            "B"
        } else if y == 2 {
            "C"
        } else if y == 3 {
            "D"
        } else if y == 4 {
            "E"
        } else if y == 5 {
            "F"
        } else if y == 6 {
            "G"
        } else {
            "H"
        };
        let cs: &str = if x == 0 {
            "a"
        } else if x == 1 {
            "b"
        } else if x == 2 {
            "c"
        } else if x == 3 {
            "d"
        } else if x == 4 {
            "e"
        } else if x == 5 {
            "f"
        } else if x == 6 {
            "g"
        } else {
            "h"
        };
        proof {
            reveal_strlit("A");
            reveal_strlit("B");
            reveal_strlit("C");
            reveal_strlit("D");
            reveal_strlit("E");
            reveal_strlit("F");
            reveal_strlit("G");
            reveal_strlit("H");
            reveal_strlit("a");
            reveal_strlit("b");
            reveal_strlit("c");
            reveal_strlit("d");
            reveal_strlit("e");
            reveal_strlit("f");
            reveal_strlit("g");
            reveal_strlit("h");
        }
        let out = String::from_str(rs).concat(cs);
        proof {
            assert(out@ =~= move_chars(self.loc as int, size.nv() as int));
        }
        out
    }
}

/// An append-only, sortable sequence of move candidates.
#[derive(Debug)]
pub struct Nodes {
    nodes: Vec<Node>,
}

impl Nodes {
    /// The candidate sequence.
    pub closed spec fn items(&self) -> Seq<Node> {
        self.nodes@
    }

    pub fn new() -> (r: Nodes)
        ensures
            r.items() =~= Seq::<Node>::empty(),
    {
        Nodes { nodes: Vec::new() }
    }

    fn less(&self, i: usize, j: usize) -> (r: bool)
        requires
            i < self.items().len(),
            j < self.items().len(),
        ensures
            r == (self.items()[i as int].value < self.items()[j as int].value),
    {
        self.nodes[i].value < self.nodes[j].value
    }

    fn large(&self, i: usize, j: usize) -> (r: bool)
        requires
            i < self.items().len(),
            j < self.items().len(),
        ensures
            r == (self.items()[i as int].value > self.items()[j as int].value),
    {
        self.nodes[i].value > self.nodes[j].value
    }

    fn swap(&mut self, i: usize, j: usize)
        requires
            i < old(self).items().len(),
            j < old(self).items().len(),
        ensures
            final(self).items() == old(self).items().update(
                i as int,
                old(self).items()[j as int],
            ).update(j as int, old(self).items()[i as int]),
            final(self).items().to_multiset() == old(self).items().to_multiset(),
            final(self).items().len() == old(self).items().len(),
    {
        let tmp = self.nodes[i];
        self.nodes[i] = self.nodes[j];
        self.nodes[j] = tmp;
        proof {
            lemma_swap_multiset(old(self).items(), i as int, j as int);
        }
    }

    pub fn size(&self) -> (r: usize)
        ensures
            r == self.items().len(),
    {
        self.nodes.len()
    }

    pub fn push(&mut self, n: Node)
        ensures
            final(self).items() == old(self).items().push(n),
    {
        self.nodes.push(n);
    }

    /// The candidate at position `i`.
    pub fn get(&self, i: usize) -> (r: Node)
        requires
            i < self.items().len(),
        ensures
            r == self.items()[i as int],
    {
        self.nodes[i]
    }

    /// Insertion sort, highest score first. Reorders the candidates and
    /// changes nothing else.
    pub fn sort_desc(&mut self)
        ensures
            final(self).items().len() == old(self).items().len(),
            final(self).items().to_multiset() == old(self).items().to_multiset(),
            forall|a: int, b: int|
                0 <= a < b < final(self).items().len() ==> final(self).items()[a].value
                    >= final(self).items()[b].value,
            forall|v: int| #[trigger] with_score(final(self).items(), v) == with_score(
                old(self).items(),
                v,
            ),
    {
        let len: usize = self.nodes.len();
        if len > 1 {
            let mut i: usize = 1;
            while i < len
                invariant
                    1 <= i <= len,
                    len == self.items().len(),
                    self.items().to_multiset() == old(self).items().to_multiset(),
                    forall|v: int| #[trigger] with_score(self.items(), v) == with_score(
                        old(self).items(),
                        v,
                    ),
                    forall|a: int, b: int|
                        0 <= a < b < i ==> self.items()[a].value >= self.items()[b].value,
                decreases len - i,
            {
                let mut j: usize = i;
                while j > 0 && self.large(j, j - 1)
                    invariant
                        j <= i < len,
                        len == self.items().len(),
                        self.items().to_multiset() == old(self).items().to_multiset(),
                        forall|v: int| #[trigger] with_score(self.items(), v) == with_score(
                            old(self).items(),
                            v,
                        ),
                        forall|a: int, b: int|
                            0 <= a < b <= i && b != j ==> self.items()[a].value
                                >= self.items()[b].value,
                    decreases j,
                {
                    let ghost pre = self.items();
                    self.swap(j, j - 1);
                    proof {
                        assert(self.items() =~= pre.update(j - 1, pre[j as int]).update(
                            j as int,
                            pre[j - 1],
                        ));
                        assert forall|v: int| #[trigger] with_score(self.items(), v) == with_score(
                            pre,
                            v,
                        ) by {
                            lemma_adjacent_swap_stable(pre, j as int, v);
                        }
                    }
                    j -= 1;
                }
                i += 1;
            }
        }
    }

    /// Insertion sort, lowest score first. Reorders the candidates and
    /// changes nothing else.
    pub fn sort_asc(&mut self)
        ensures
            final(self).items().len() == old(self).items().len(),
            final(self).items().to_multiset() == old(self).items().to_multiset(),
            forall|a: int, b: int|
                0 <= a < b < final(self).items().len() ==> final(self).items()[a].value
                    <= final(self).items()[b].value,
            forall|v: int| #[trigger] with_score(final(self).items(), v) == with_score(
                old(self).items(),
                v,
            ),
    {
        let len: usize = self.nodes.len();
        if len > 1 {
            let mut i: usize = 1;
            while i < len
                invariant
                    1 <= i <= len,
                    len == self.items().len(),
                    self.items().to_multiset() == old(self).items().to_multiset(),
                    forall|v: int| #[trigger] with_score(self.items(), v) == with_score(
                        old(self).items(),
                        v,
                    ),
                    forall|a: int, b: int|
                        0 <= a < b < i ==> self.items()[a].value <= self.items()[b].value,
                decreases len - i,
            {
                let mut j: usize = i;
                while j > 0 && self.less(j, j - 1)
                    invariant
                        j <= i < len,
                        len == self.items().len(),
                        self.items().to_multiset() == old(self).items().to_multiset(),
                        forall|v: int| #[trigger] with_score(self.items(), v) == with_score(
                            old(self).items(),
                            v,
                        ),
                        forall|a: int, b: int|
                            0 <= a < b <= i && b != j ==> self.items()[a].value
                                <= self.items()[b].value,
                    decreases j,
                {
                    let ghost pre = self.items();
                    self.swap(j, j - 1);
                    proof {
                        assert(self.items() =~= pre.update(j - 1, pre[j as int]).update(
                            j as int,
                            pre[j - 1],
                        ));
                        assert forall|v: int| #[trigger] with_score(self.items(), v) == with_score(
                            pre,
                            v,
                        ) by {
                            lemma_adjacent_swap_stable(pre, j as int, v);
                        }
                    }
                    j -= 1;
                }
                i += 1;
            }
        }
    }
}

/// Exchanging two positions of a sequence does not change its multiset.
pub proof fn lemma_swap_multiset(s: Seq<Node>, i: int, j: int)
    requires
        0 <= i < s.len(),
        0 <= j < s.len(),
    ensures
        s.update(i, s[j]).update(j, s[i]).to_multiset() == s.to_multiset(),
{
    broadcast use vstd::seq_lib::group_to_multiset_ensures;

    let s1 = s.update(i, s[j]);
    vstd::seq_lib::to_multiset_update(s, i, s[j]);
    vstd::seq_lib::to_multiset_update(s1, j, s[i]);
    if i == j {
        assert(s.update(i, s[j]).update(j, s[i]) =~= s);
    } else {
        assert(s1[j] == s[j]);
        assert(s.to_multiset().contains(s[i]));
        assert(s.to_multiset().contains(s[j]));
        assert(s1.update(j, s[i]).to_multiset() =~= s.to_multiset());
    }
}


/// The subsequence of `s` whose candidates carry score `v`, in order.
pub open spec fn with_score(s: Seq<Node>, v: int) -> Seq<Node>
    decreases s.len(),
{
    if s.len() == 0 {
        Seq::empty()
    } else {
        let rest = with_score(s.drop_last(), v);
        if s.last().value == v {
            rest.push(s.last())
        } else {
            rest
        }
    }
}

/// Selecting a score distributes over concatenation.
pub proof fn lemma_with_score_add(a: Seq<Node>, b: Seq<Node>, v: int)
    ensures
        with_score(a + b, v) == with_score(a, v) + with_score(b, v),
    decreases b.len(),
{
    if b.len() == 0 {
        assert(a + b =~= a);
        assert(with_score(a, v) + with_score(b, v) =~= with_score(a, v));
    } else {
        Seq::drop_last_distributes_over_add(a, b);
        lemma_with_score_add(a, b.drop_last(), v);
        assert((a + b).last() == b.last());
        if b.last().value == v {
            Seq::push_distributes_over_add(with_score(a, v), with_score(b.drop_last(), v), b.last());
        }
    }
}

/// Selecting a score from a two-candidate sequence.
proof fn lemma_with_score_pair(x: Node, y: Node, v: int)
    ensures
        with_score(seq![x, y], v) == if x.value == v && y.value == v {
            seq![x, y]
        } else if x.value == v {
            seq![x]
        } else if y.value == v {
            seq![y]
        } else {
            Seq::<Node>::empty()
        },
{
    let e = Seq::<Node>::empty();
    let sx = seq![x];
    assert(sx.drop_last() =~= e);
    assert(with_score(e, v) =~= e);
    assert(with_score(sx, v) == if x.value == v {
        with_score(e, v).push(x)
    } else {
        with_score(e, v)
    });
    let sxy = seq![x, y];
    assert(sxy.drop_last() =~= sx);
    assert(sxy.last() == y);
    assert(with_score(sxy, v) == if y.value == v {
        with_score(sx, v).push(y)
    } else {
        with_score(sx, v)
    });
    if x.value == v && y.value == v {
        assert(with_score(sxy, v) =~= seq![x, y]);
    } else if x.value == v {
        assert(with_score(sxy, v) =~= seq![x]);
    } else if y.value == v {
        assert(with_score(sxy, v) =~= seq![y]);
    } else {
        assert(with_score(sxy, v) =~= e);
    }
}

/// Law: exchanging two adjacent candidates whose scores differ leaves the
/// subsequence of any given score unchanged, so a sort that only makes such
/// exchanges is stable.
pub proof fn lemma_adjacent_swap_stable(s: Seq<Node>, j: int, v: int)
    requires
        1 <= j < s.len(),
        s[j].value != s[j - 1].value,
    ensures
        with_score(s.update(j - 1, s[j]).update(j, s[j - 1]), v) == with_score(s, v),
{
    let s2 = s.update(j - 1, s[j]).update(j, s[j - 1]);
    let a = s.subrange(0, j - 1);
    let m1 = seq![s[j - 1], s[j]];
    let m2 = seq![s[j], s[j - 1]];
    let b = s.subrange(j + 1, s.len() as int);
    assert(s =~= a + m1 + b);
    assert(s2 =~= a + m2 + b);
    lemma_with_score_add(a + m1, b, v);
    lemma_with_score_add(a, m1, v);
    lemma_with_score_add(a + m2, b, v);
    lemma_with_score_add(a, m2, v);
    lemma_with_score_pair(s[j - 1], s[j], v);
    lemma_with_score_pair(s[j], s[j - 1], v);
    assert(with_score(m1, v) == with_score(m2, v));
    assert(with_score(s2, v) == with_score(a, v) + with_score(m2, v) + with_score(b, v));
    assert(with_score(s, v) == with_score(a, v) + with_score(m1, v) + with_score(b, v));
}


} // verus!
