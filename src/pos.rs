use vstd::prelude::*;

verus! {

/// A cell of the board: `(column, row)`.
#[derive(Clone, Copy, Debug, PartialEq, Eq, Structural, Hash, PartialOrd, Ord)]
pub struct Pos(pub usize, pub usize);

/// Two cells are neighbours when they share an edge: they differ by exactly one
/// in exactly one coordinate.
pub open spec fn adjacent(a: Pos, b: Pos) -> bool {
    ||| a.0 == b.0 && (a.1 + 1 == b.1 || b.1 + 1 == a.1)
    ||| a.1 == b.1 && (a.0 + 1 == b.0 || b.0 + 1 == a.0)
}

/// `a` and `b` differ by exactly one.
fn one_apart(a: usize, b: usize) -> (r: bool)
    ensures
        r == (a + 1 == b || b + 1 == a),
{
    if a < b {
        b - a == 1
    } else {
        a - b == 1
    }
}

impl Pos {
    /// Whether `other` shares an edge with this cell.
    pub fn adjacent(&self, other: Pos) -> (r: bool)
        ensures
            r == adjacent(*self, other),
    {
        let Pos(s1, s2) = *self;
        let Pos(o1, o2) = other;
        s1 == o1 && one_apart(s2, o2) || s2 == o2 && one_apart(s1, o1)
    }
}

} // verus!
