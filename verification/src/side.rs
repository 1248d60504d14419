use vstd::prelude::*;

verus! {

/// Occupant of a cell. `Empty` marks an unoccupied cell at the decode
/// boundary; the search itself only ever works with the two disc colors.
#[derive(Clone, Copy, PartialEq, Eq, Structural, Debug)]
pub enum Color {
    Black,
    White,
    Empty,
}

/// The opposing disc color; the empty marker has no opponent.
pub open spec fn opposite(c: Color) -> Color {
    match c {
        Color::Black => Color::White,
        Color::White => Color::Black,
        Color::Empty => Color::Empty,
    }
}

/// `c` is one of the two disc colors.
pub open spec fn two_sided(c: Color) -> bool {
    c is Black || c is White
}

impl Color {
    /// The opposing disc color. The empty marker has no reverse, so it is
    /// excluded by precondition rather than handled at run time.
    pub fn reverse(&self) -> (r: Color)
        requires
            two_sided(*self),
        ensures
            r == opposite(*self),
            two_sided(r),
    {
        match self {
            Color::Black => Color::White,
            Color::White => Color::Black,
            Color::Empty => Color::Black,
        }
    }
}

} // verus!
