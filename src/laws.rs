use vstd::prelude::*;

use crate::grid::{occupants, road_cells, Player, Slot};
use crate::path::{is_longest_road, is_route, lemma_longest_road_is, longest_road};
use crate::pos::{adjacent, Pos};

verus! {

/// A player that occupies no cell of the board has no road cell, so the
/// longest path of its roads is `None`.
pub proof fn absent_player_has_no_road(board: Map<Pos, Slot>, player: Player)
    requires
        !occupants(board).contains(player),
    ensures
        road_cells(board, player) == Set::<Pos>::empty(),
{
    assert forall|q: Pos| !road_cells(board, player).contains(q) by {
        if road_cells(board, player).contains(q) {
            assert(board.contains_key(q) && crate::grid::owner(board[q]) == Some(player));
        }
    }
    assert(road_cells(board, player) == Set::<Pos>::empty());
}

/// A road of one cell has a longest route of exactly one cell.
pub proof fn single_cell_road(cell: Pos)
    ensures
        is_longest_road(set![cell], 1),
        longest_road(set![cell]) == 1,
{
    let cells = set![cell];
    assert(is_route(cells, seq![cell]));
    assert forall|s: Seq<Pos>| is_route(cells, s) implies s.len() <= 1 by {
        if s.len() > 1 {
            assert(cells.contains(s[0]) && cells.contains(s[1]));
            assert(s[0] == s[1]);
        }
    }
    lemma_longest_road_is(cells, 1);
}

/// The `n` cells of a straight line from `start`, downwards when `vertical`,
/// else to the right.
pub open spec fn line(start: Pos, n: nat, vertical: bool) -> Seq<Pos> {
    Seq::new(
        n,
        |i: int|
            if vertical {
                Pos(start.0, (start.1 + i) as usize)
            } else {
                Pos((start.0 + i) as usize, start.1)
            },
    )
}

/// A road that is a straight line of `n` cells, with no branch, has a longest
/// route of exactly `n` cells.
pub proof fn straight_road(start: Pos, n: nat, vertical: bool)
    requires
        vertical ==> start.1 + n <= usize::MAX + 1,
        !vertical ==> start.0 + n <= usize::MAX + 1,
    ensures
        is_longest_road(line(start, n, vertical).to_set(), n),
        longest_road(line(start, n, vertical).to_set()) == n,
{
    let cells = line(start, n, vertical);
    assert(is_route(cells.to_set(), cells)) by {
        assert forall|i: int| 0 <= i < cells.len() implies cells.to_set().contains(#[trigger] cells[i]) by {
            assert(cells.contains(cells[i]));
        }
    }
    assert forall|s: Seq<Pos>| is_route(cells.to_set(), s) implies s.len() <= n by {
        assert forall|i: int| 0 <= i < s.len() implies cells.contains(#[trigger] s[i]) by {
            assert(cells.to_set().contains(s[i]));
        }
        crate::path::lemma_route_len(cells, s);
    }
    lemma_longest_road_is(cells.to_set(), n);
}

/// The cells of a road made of the junction `(x, y)` and straight arms of `l`
/// cells to its left, `r` to its right, `d` below and `u` above. With one arm
/// empty it is a "T" in any of its four turns; with all four, a "+".
pub open spec fn cross(x: usize, y: usize, l: nat, r: nat, d: nat, u: nat) -> Set<Pos> {
    Set::new(
        |q: Pos|
            q == Pos(x, y) || (q.1 == y && x - l <= q.0 < x) || (q.1 == y && x < q.0 <= x + r) || (
            q.0 == x && y < q.1 <= y + d) || (q.0 == x && y - u <= q.1 < y),
    )
}

/// The larger of two lengths.
pub open spec fn larger(a: nat, b: nat) -> nat {
    if a >= b {
        a
    } else {
        b
    }
}

/// The largest sum of the lengths of two different arms.
pub open spec fn two_longest(l: nat, r: nat, d: nat, u: nat) -> nat {
    larger(larger(larger(l + r, l + d), larger(l + u, r + d)), larger(r + u, d + u))
}

/// Which part of a cross a cell of it lies in: 0 for the junction, then the
/// left, right, lower and upper arm.
spec fn arm_of(x: usize, y: usize, q: Pos) -> int {
    if q.1 == y && q.0 < x {
        1
    } else if q.1 == y && q.0 > x {
        2
    } else if q.0 == x && q.1 > y {
        3
    } else if q.0 == x && q.1 < y {
        4
    } else {
        0
    }
}

spec fn arm_len(l: nat, r: nat, d: nat, u: nat, arm: int) -> nat {
    if arm == 1 {
        l
    } else if arm == 2 {
        r
    } else if arm == 3 {
        d
    } else {
        u
    }
}

/// The cell `i` steps from the junction along an arm.
spec fn arm_cell(x: usize, y: usize, arm: int, i: int) -> Pos {
    if arm == 1 {
        Pos((x - i) as usize, y)
    } else if arm == 2 {
        Pos((x + i) as usize, y)
    } else if arm == 3 {
        Pos(x, (y + i) as usize)
    } else {
        Pos(x, (y - i) as usize)
    }
}

/// The lengths of the arms fit the coordinates of the board.
pub open spec fn cross_fits(x: usize, y: usize, l: nat, r: nat, d: nat, u: nat) -> bool {
    &&& l <= x
    &&& x + r <= usize::MAX
    &&& y + d <= usize::MAX
    &&& u <= y
}

/// Within a route through a cross that avoids the junction between `lo` and
/// `i`, every cell lies in the arm of the cell at `lo`.
proof fn lemma_one_arm(
    x: usize,
    y: usize,
    l: nat,
    r: nat,
    d: nat,
    u: nat,
    s: Seq<Pos>,
    lo: int,
    i: int,
)
    requires
        is_route(cross(x, y, l, r, d, u), s),
        0 <= lo <= i < s.len(),
        forall|k: int| lo <= k <= i ==> s[k] != Pos(x, y),
    ensures
        arm_of(x, y, s[i]) == arm_of(x, y, s[lo]),
        arm_of(x, y, s[i]) != 0,
    decreases i - lo,
{
    assert(cross(x, y, l, r, d, u).contains(s[i]));
    if i > lo {
        lemma_one_arm(x, y, l, r, d, u, s, lo, i - 1);
        assert(cross(x, y, l, r, d, u).contains(s[i - 1]));
        assert(adjacent(s[i - 1], s[i]));
    }
}

/// Every cell of a route through a cross between `lo` and `hi` lies in one arm,
/// where none of them is the junction.
proof fn lemma_one_arm_all(
    x: usize,
    y: usize,
    l: nat,
    r: nat,
    d: nat,
    u: nat,
    s: Seq<Pos>,
    lo: int,
    hi: int,
)
    requires
        is_route(cross(x, y, l, r, d, u), s),
        0 <= lo < hi <= s.len(),
        forall|k: int| lo <= k < hi ==> s[k] != Pos(x, y),
    ensures
        forall|i: int|
            lo <= i < hi ==> arm_of(x, y, #[trigger] s[i]) == arm_of(x, y, s[lo]) && arm_of(x, y, s[i])
                != 0,
{
    assert forall|i: int| lo <= i < hi implies arm_of(x, y, #[trigger] s[i]) == arm_of(x, y, s[lo])
        && arm_of(x, y, s[i]) != 0 by {
        lemma_one_arm(x, y, l, r, d, u, s, lo, i);
    }
}

/// Distinct cells of one arm are no more than the arm's length.
proof fn lemma_arm_count(
    x: usize,
    y: usize,
    l: nat,
    r: nat,
    d: nat,
    u: nat,
    v: Seq<Pos>,
    arm: int,
)
    requires
        cross_fits(x, y, l, r, d, u),
        1 <= arm <= 4,
        v.no_duplicates(),
        forall|i: int|
            0 <= i < v.len() ==> cross(x, y, l, r, d, u).contains(#[trigger] v[i]) && arm_of(x, y, v[i])
                == arm,
    ensures
        v.len() <= arm_len(l, r, d, u, arm),
{
    let cells = Seq::new(arm_len(l, r, d, u, arm), |i: int| arm_cell(x, y, arm, i + 1));
    assert forall|i: int| 0 <= i < v.len() implies cells.contains(#[trigger] v[i]) by {
        let q = v[i];
        assert(cross(x, y, l, r, d, u).contains(q));
        if arm == 1 {
            assert(cells[x - q.0 - 1] == q);
        } else if arm == 2 {
            assert(cells[q.0 - x - 1] == q);
        } else if arm == 3 {
            assert(cells[q.1 - y - 1] == q);
        } else {
            assert(cells[y - q.1 - 1] == q);
        }
    }
    crate::path::lemma_route_len(cells, v);
}

/// The cells of `s` from `lo` up to `hi`, all in one arm, are no more than
/// that arm holds.
proof fn lemma_piece_count(
    x: usize,
    y: usize,
    l: nat,
    r: nat,
    d: nat,
    u: nat,
    s: Seq<Pos>,
    lo: int,
    hi: int,
)
    requires
        cross_fits(x, y, l, r, d, u),
        is_route(cross(x, y, l, r, d, u), s),
        0 <= lo < hi <= s.len(),
        forall|k: int| lo <= k < hi ==> s[k] != Pos(x, y),
    ensures
        1 <= arm_of(x, y, s[lo]) <= 4,
        hi - lo <= arm_len(l, r, d, u, arm_of(x, y, s[lo])),
{
    lemma_one_arm_all(x, y, l, r, d, u, s, lo, hi);
    let piece = s.subrange(lo, hi);
    assert forall|i: int| 0 <= i < piece.len() implies cross(x, y, l, r, d, u).contains(
        #[trigger] piece[i],
    ) && arm_of(x, y, piece[i]) == arm_of(x, y, s[lo]) by {
        assert(piece[i] == s[lo + i]);
    }
    assert(piece.no_duplicates()) by {
        assert forall|i: int, j: int|
            0 <= i < piece.len() && 0 <= j < piece.len() && i != j implies piece[i] != piece[j] by {
            assert(piece[i] == s[lo + i] && piece[j] == s[lo + j]);
        }
    }
    lemma_arm_count(x, y, l, r, d, u, piece, arm_of(x, y, s[lo]));
}

/// No route through a cross holds more than the junction and two of its arms.
proof fn lemma_cross_bound(x: usize, y: usize, l: nat, r: nat, d: nat, u: nat, s: Seq<Pos>)
    requires
        cross_fits(x, y, l, r, d, u),
        is_route(cross(x, y, l, r, d, u), s),
    ensures
        s.len() <= 1 + two_longest(l, r, d, u),
{
    let cells = cross(x, y, l, r, d, u);
    if s.len() > 0 {
        if !s.contains(Pos(x, y)) {
            lemma_piece_count(x, y, l, r, d, u, s, 0, s.len() as int);
        } else {
            let k = choose|k: int| 0 <= k < s.len() && s[k] == Pos(x, y);
            assert forall|j: int| 0 <= j < s.len() && j != k implies s[j] != Pos(x, y) by {}
            if k > 0 {
                lemma_piece_count(x, y, l, r, d, u, s, 0, k);
            }
            if k + 1 < s.len() {
                lemma_piece_count(x, y, l, r, d, u, s, k + 1, s.len() as int);
            }
            if k > 0 && k + 1 < s.len() && arm_of(x, y, s[0]) == arm_of(x, y, s[k + 1]) {
                let arm = arm_of(x, y, s[0]);
                lemma_one_arm_all(x, y, l, r, d, u, s, 0, k);
                lemma_one_arm_all(x, y, l, r, d, u, s, k + 1, s.len() as int);
                let v = s.remove(k);
                assert(v.no_duplicates()) by {
                    assert forall|i: int, j: int|
                        0 <= i < v.len() && 0 <= j < v.len() && i != j implies v[i] != v[j] by {
                        let si = if i < k {
                            i
                        } else {
                            i + 1
                        };
                        let sj = if j < k {
                            j
                        } else {
                            j + 1
                        };
                        assert(v[i] == s[si] && v[j] == s[sj]);
                    }
                }
                assert forall|i: int| 0 <= i < v.len() implies cells.contains(#[trigger] v[i])
                    && arm_of(x, y, v[i]) == arm by {
                    let si = if i < k {
                        i
                    } else {
                        i + 1
                    };
                    assert(v[i] == s[si]);
                }
                lemma_arm_count(x, y, l, r, d, u, v, arm);
            }
        }
    }
}

/// The route along arm `a`, in towards the junction, through it, and out along
/// arm `b`.
#[verifier::rlimit(40)]
proof fn lemma_cross_route(
    x: usize,
    y: usize,
    l: nat,
    r: nat,
    d: nat,
    u: nat,
    a: int,
    b: int,
) -> (w: Seq<Pos>)
    requires
        cross_fits(x, y, l, r, d, u),
        1 <= a <= 4,
        1 <= b <= 4,
        a != b,
    ensures
        is_route(cross(x, y, l, r, d, u), w),
        w.len() == 1 + arm_len(l, r, d, u, a) + arm_len(l, r, d, u, b),
{
    let la = arm_len(l, r, d, u, a) as int;
    let lb = arm_len(l, r, d, u, b) as int;
    let w = Seq::new(
        (la + lb + 1) as nat,
        |i: int|
            if i < la {
                arm_cell(x, y, a, la - i)
            } else if i == la {
                Pos(x, y)
            } else {
                arm_cell(x, y, b, i - la)
            },
    );
    let cells = cross(x, y, l, r, d, u);
    assert forall|i: int| 0 <= i < w.len() implies cells.contains(#[trigger] w[i]) && (i != la ==> (
    arm_of(x, y, w[i]) == if i < la {
        a
    } else {
        b
    })) by {}
    assert forall|i: int| 0 < i < w.len() implies adjacent(w[i - 1], #[trigger] w[i]) by {}
    assert forall|i: int, j: int| 0 <= i < w.len() && 0 <= j < w.len() && i != j implies w[i] != w[j] by {
        if i != la && j != la && (i < la) == (j < la) {
            assert(cells.contains(w[i]) && cells.contains(w[j]));
        } else if i != la && j != la {
            assert(arm_of(x, y, w[i]) != arm_of(x, y, w[j]));
        }
    }
    w
}

/// A road made of a junction and straight arms, such as a "T" or a "+", has a
/// longest route that runs through the junction and along its two longest
/// arms: one cell more than those two arms hold.
pub proof fn branching_road(x: usize, y: usize, l: nat, r: nat, d: nat, u: nat)
    requires
        cross_fits(x, y, l, r, d, u),
    ensures
        is_longest_road(cross(x, y, l, r, d, u), 1 + two_longest(l, r, d, u)),
        longest_road(cross(x, y, l, r, d, u)) == 1 + two_longest(l, r, d, u),
{
    let cells = cross(x, y, l, r, d, u);
    let best = two_longest(l, r, d, u);
    if best == l + r {
        lemma_cross_route(x, y, l, r, d, u, 1, 2);
    } else if best == l + d {
        lemma_cross_route(x, y, l, r, d, u, 1, 3);
    } else if best == l + u {
        lemma_cross_route(x, y, l, r, d, u, 1, 4);
    } else if best == r + d {
        lemma_cross_route(x, y, l, r, d, u, 2, 3);
    } else if best == r + u {
        lemma_cross_route(x, y, l, r, d, u, 2, 4);
    } else {
        lemma_cross_route(x, y, l, r, d, u, 3, 4);
    }
    assert forall|s: Seq<Pos>| is_route(cells, s) implies s.len() <= 1 + best by {
        lemma_cross_bound(x, y, l, r, d, u, s);
    }
    lemma_longest_road_is(cells, 1 + best);
}

/// `s` walks from cell to neighbouring cell and never visits a cell twice.
pub open spec fn walks(s: Seq<Pos>) -> bool {
    &&& s.no_duplicates()
    &&& forall|i: int| 0 < i < s.len() ==> adjacent(s[i - 1], #[trigger] s[i])
}

/// No cell of `a` is a cell of `b` or next to one.
pub open spec fn apart(a: Seq<Pos>, b: Seq<Pos>) -> bool {
    forall|p: Pos, q: Pos|
        #![trigger a.contains(p), b.contains(q)]
        a.contains(p) && b.contains(q) ==> p != q && !adjacent(p, q)
}

/// The cells of a road made of the junction `j` and the arms `a`, `b` and `c`.
pub open spec fn three_arms(j: Pos, a: Seq<Pos>, b: Seq<Pos>, c: Seq<Pos>) -> Set<Pos> {
    Set::new(|q: Pos| q == j || a.contains(q) || b.contains(q) || c.contains(q))
}

/// Three arms leave the junction `j`, a "T" or a "Y" whose arms may bend: each
/// arm walks away from a neighbour of `j`, and the arms keep apart from each
/// other and from `j`.
pub open spec fn is_three_way(j: Pos, a: Seq<Pos>, b: Seq<Pos>, c: Seq<Pos>) -> bool {
    &&& a.len() > 0 && b.len() > 0 && c.len() > 0
    &&& walks(a) && walks(b) && walks(c)
    &&& adjacent(j, a[0]) && adjacent(j, b[0]) && adjacent(j, c[0])
    &&& !a.contains(j) && !b.contains(j) && !c.contains(j)
    &&& apart(a, b) && apart(a, c) && apart(b, c)
}

/// The largest sum of the lengths of two of three arms.
pub open spec fn two_of_three(a: nat, b: nat, c: nat) -> nat {
    larger(larger(a + b, a + c), b + c)
}

/// Which arm a cell lies in: 0, 1 or 2 for `a`, `b` or `c`, and 3 for none.
spec fn arm_index(a: Seq<Pos>, b: Seq<Pos>, c: Seq<Pos>, q: Pos) -> int {
    if a.contains(q) {
        0
    } else if b.contains(q) {
        1
    } else if c.contains(q) {
        2
    } else {
        3
    }
}

spec fn arm_seq(a: Seq<Pos>, b: Seq<Pos>, c: Seq<Pos>, k: int) -> Seq<Pos> {
    if k == 0 {
        a
    } else if k == 1 {
        b
    } else {
        c
    }
}

/// Within a route that avoids the junction between `lo` and `i`, every cell lies
/// in the arm of the cell at `lo`.
proof fn lemma_same_arm(
    j: Pos,
    a: Seq<Pos>,
    b: Seq<Pos>,
    c: Seq<Pos>,
    s: Seq<Pos>,
    lo: int,
    i: int,
)
    requires
        is_three_way(j, a, b, c),
        is_route(three_arms(j, a, b, c), s),
        0 <= lo <= i < s.len(),
        forall|k: int| lo <= k <= i ==> s[k] != j,
    ensures
        arm_index(a, b, c, s[i]) == arm_index(a, b, c, s[lo]),
        arm_index(a, b, c, s[i]) < 3,
    decreases i - lo,
{
    assert(three_arms(j, a, b, c).contains(s[i]));
    if i > lo {
        lemma_same_arm(j, a, b, c, s, lo, i - 1);
        assert(three_arms(j, a, b, c).contains(s[i - 1]));
        assert(adjacent(s[i - 1], s[i]));
        assert(adjacent(s[i], s[i - 1]));
    }
}

/// The cells of `s` from `lo` up to `hi`, none of them the junction, are no more
/// than one arm holds.
proof fn lemma_arm_piece(
    j: Pos,
    a: Seq<Pos>,
    b: Seq<Pos>,
    c: Seq<Pos>,
    s: Seq<Pos>,
    lo: int,
    hi: int,
)
    requires
        is_three_way(j, a, b, c),
        is_route(three_arms(j, a, b, c), s),
        0 <= lo < hi <= s.len(),
        forall|k: int| lo <= k < hi ==> s[k] != j,
    ensures
        0 <= arm_index(a, b, c, s[lo]) < 3,
        forall|i: int| lo <= i < hi ==> arm_index(a, b, c, #[trigger] s[i]) == arm_index(a, b, c, s[lo]),
        hi - lo <= arm_seq(a, b, c, arm_index(a, b, c, s[lo])).len(),
{
    let k = arm_index(a, b, c, s[lo]);
    assert forall|i: int| lo <= i < hi implies arm_index(a, b, c, #[trigger] s[i]) == k by {
        lemma_same_arm(j, a, b, c, s, lo, i);
    }
    lemma_same_arm(j, a, b, c, s, lo, lo);
    let piece = s.subrange(lo, hi);
    assert forall|i: int| 0 <= i < piece.len() implies arm_seq(a, b, c, k).contains(#[trigger] piece[i]) by {
        assert(piece[i] == s[lo + i]);
        assert(arm_index(a, b, c, s[lo + i]) == k);
    }
    assert(piece.no_duplicates()) by {
        assert forall|x: int, y: int|
            0 <= x < piece.len() && 0 <= y < piece.len() && x != y implies piece[x] != piece[y] by {
            assert(piece[x] == s[lo + x] && piece[y] == s[lo + y]);
        }
    }
    crate::path::lemma_route_len(arm_seq(a, b, c, k), piece);
}

/// No route through three arms holds more than the junction and two arms.
proof fn lemma_three_way_bound(j: Pos, a: Seq<Pos>, b: Seq<Pos>, c: Seq<Pos>, s: Seq<Pos>)
    requires
        is_three_way(j, a, b, c),
        is_route(three_arms(j, a, b, c), s),
    ensures
        s.len() <= 1 + two_of_three(a.len(), b.len(), c.len()),
{
    if s.len() > 0 {
        if !s.contains(j) {
            lemma_arm_piece(j, a, b, c, s, 0, s.len() as int);
        } else {
            let k = choose|k: int| 0 <= k < s.len() && s[k] == j;
            assert forall|x: int| 0 <= x < s.len() && x != k implies s[x] != j by {}
            if k > 0 {
                lemma_arm_piece(j, a, b, c, s, 0, k);
            }
            if k + 1 < s.len() {
                lemma_arm_piece(j, a, b, c, s, k + 1, s.len() as int);
            }
            if k > 0 && k + 1 < s.len() && arm_index(a, b, c, s[0]) == arm_index(a, b, c, s[k + 1]) {
                let arm = arm_seq(a, b, c, arm_index(a, b, c, s[0]));
                assert forall|x: int| 0 <= x < s.len() && x != k implies arm.contains(#[trigger] s[x]) by {
                    if x < k {
                        assert(arm_index(a, b, c, s[x]) == arm_index(a, b, c, s[0]));
                    } else {
                        assert(arm_index(a, b, c, s[x]) == arm_index(a, b, c, s[k + 1]));
                    }
                }
                lemma_all_but_one(arm, s, k);
            }
        }
    }
}

/// A route whose cells, but the one at `k`, all lie in `arm` is at most one cell
/// longer than `arm`.
proof fn lemma_all_but_one(arm: Seq<Pos>, s: Seq<Pos>, k: int)
    requires
        s.no_duplicates(),
        0 <= k < s.len(),
        forall|x: int| 0 <= x < s.len() && x != k ==> arm.contains(#[trigger] s[x]),
    ensures
        s.len() <= arm.len() + 1,
{
    let v = s.remove(k);
    assert(v.no_duplicates()) by {
        assert forall|x: int, y: int| 0 <= x < v.len() && 0 <= y < v.len() && x != y implies v[x]
            != v[y] by {
            let sx = if x < k {
                x
            } else {
                x + 1
            };
            let sy = if y < k {
                y
            } else {
                y + 1
            };
            assert(v[x] == s[sx] && v[y] == s[sy]);
        }
    }
    assert forall|x: int| 0 <= x < v.len() implies arm.contains(#[trigger] v[x]) by {
        let sx = if x < k {
            x
        } else {
            x + 1
        };
        assert(v[x] == s[sx]);
    }
    crate::path::lemma_route_len(arm, v);
}

/// The walk along arm `p` in towards the junction `j`, through it, and out
/// along arm `q`.
spec fn two_arm_walk(j: Pos, p: Seq<Pos>, q: Seq<Pos>) -> Seq<Pos> {
    Seq::new(
        (p.len() + q.len() + 1) as nat,
        |i: int|
            if i < p.len() {
                p[p.len() - 1 - i]
            } else if i == p.len() {
                j
            } else {
                q[i - p.len() - 1]
            },
    )
}

proof fn lemma_two_arm_cells(cells: Set<Pos>, j: Pos, p: Seq<Pos>, q: Seq<Pos>)
    requires
        cells.contains(j),
        forall|x: Pos| p.contains(x) ==> cells.contains(x),
        forall|x: Pos| q.contains(x) ==> cells.contains(x),
    ensures
        forall|i: int|
            0 <= i < two_arm_walk(j, p, q).len() ==> cells.contains(#[trigger] two_arm_walk(j, p, q)[i]),
{
    let w = two_arm_walk(j, p, q);
    let lp = p.len() as int;
    assert forall|i: int| 0 <= i < w.len() implies cells.contains(#[trigger] w[i]) by {
        if i < lp {
            assert(p.contains(p[lp - 1 - i]));
        } else if i > lp {
            assert(q.contains(q[i - lp - 1]));
        }
    }
}

proof fn lemma_two_arm_steps(j: Pos, p: Seq<Pos>, q: Seq<Pos>)
    requires
        p.len() > 0,
        q.len() > 0,
        walks(p),
        walks(q),
        adjacent(j, p[0]),
        adjacent(j, q[0]),
    ensures
        forall|i: int|
            0 < i < two_arm_walk(j, p, q).len() ==> adjacent(
                two_arm_walk(j, p, q)[i - 1],
                #[trigger] two_arm_walk(j, p, q)[i],
            ),
{
    let w = two_arm_walk(j, p, q);
    let lp = p.len() as int;
    assert forall|i: int| 0 < i < w.len() implies adjacent(w[i - 1], #[trigger] w[i]) by {
        if i < lp {
            assert(w[i - 1] == p[lp - i] && w[i] == p[lp - 1 - i]);
            assert(adjacent(p[lp - 1 - i], p[lp - i]));
        } else if i == lp {
            assert(w[i - 1] == p[0] && w[i] == j);
        } else if i == lp + 1 {
            assert(w[i - 1] == j && w[i] == q[0]);
        } else {
            assert(w[i - 1] == q[i - lp - 2] && w[i] == q[i - lp - 1]);
            assert(adjacent(q[i - lp - 2], q[i - lp - 1]));
        }
    }
}

proof fn lemma_two_arm_distinct(j: Pos, p: Seq<Pos>, q: Seq<Pos>)
    requires
        p.no_duplicates(),
        q.no_duplicates(),
        !p.contains(j),
        !q.contains(j),
        forall|x: Pos| p.contains(x) ==> !q.contains(x),
    ensures
        two_arm_walk(j, p, q).no_duplicates(),
{
    let w = two_arm_walk(j, p, q);
    let lp = p.len() as int;
    assert forall|x: int, y: int| 0 <= x < w.len() && 0 <= y < w.len() && x != y implies w[x]
        != w[y] by {
        if x < lp && y < lp {
            assert(w[x] == p[lp - 1 - x] && w[y] == p[lp - 1 - y]);
        } else if x > lp && y > lp {
            assert(w[x] == q[x - lp - 1] && w[y] == q[y - lp - 1]);
        } else if x == lp {
            if y < lp {
                assert(p.contains(p[lp - 1 - y]));
            } else {
                assert(q.contains(q[y - lp - 1]));
            }
        } else if y == lp {
            if x < lp {
                assert(p.contains(p[lp - 1 - x]));
            } else {
                assert(q.contains(q[x - lp - 1]));
            }
        } else if x < lp {
            assert(p.contains(p[lp - 1 - x]));
        } else {
            assert(p.contains(p[lp - 1 - y]));
        }
    }
}

/// The walk along two arms through the junction is a route of the road.
proof fn lemma_two_arm_route(cells: Set<Pos>, j: Pos, p: Seq<Pos>, q: Seq<Pos>)
    requires
        p.len() > 0,
        q.len() > 0,
        walks(p),
        walks(q),
        adjacent(j, p[0]),
        adjacent(j, q[0]),
        !p.contains(j),
        !q.contains(j),
        apart(p, q),
        cells.contains(j),
        forall|x: Pos| p.contains(x) ==> cells.contains(x),
        forall|x: Pos| q.contains(x) ==> cells.contains(x),
    ensures
        is_route(cells, two_arm_walk(j, p, q)),
        two_arm_walk(j, p, q).len() == 1 + p.len() + q.len(),
{
    lemma_two_arm_cells(cells, j, p, q);
    lemma_two_arm_steps(j, p, q);
    assert forall|x: Pos| p.contains(x) implies !q.contains(x) by {
        if q.contains(x) {
            assert(p.contains(x) && q.contains(x));
        }
    }
    lemma_two_arm_distinct(j, p, q);
}

/// A road of a junction with three arms that leave it and keep apart, a "T" or
/// a "Y" whose arms may bend, has a longest route that runs through the
/// junction and along its two longest arms: one cell more than those two arms
/// hold, which is more than any single arm gives.
pub proof fn three_way_road(j: Pos, a: Seq<Pos>, b: Seq<Pos>, c: Seq<Pos>)
    requires
        is_three_way(j, a, b, c),
    ensures
        is_longest_road(three_arms(j, a, b, c), 1 + two_of_three(a.len(), b.len(), c.len())),
        longest_road(three_arms(j, a, b, c)) == 1 + two_of_three(a.len(), b.len(), c.len()),
{
    let cells = three_arms(j, a, b, c);
    let best = two_of_three(a.len(), b.len(), c.len());
    if best == a.len() + b.len() {
        lemma_two_arm_route(cells, j, a, b);
        assert(is_route(cells, two_arm_walk(j, a, b)));
    } else if best == a.len() + c.len() {
        lemma_two_arm_route(cells, j, a, c);
        assert(is_route(cells, two_arm_walk(j, a, c)));
    } else {
        lemma_two_arm_route(cells, j, b, c);
        assert(is_route(cells, two_arm_walk(j, b, c)));
    }
    assert forall|s: Seq<Pos>| is_route(cells, s) implies s.len() <= 1 + best by {
        lemma_three_way_bound(j, a, b, c, s);
    }
    lemma_longest_road_is(cells, 1 + best);
}

} // verus!
