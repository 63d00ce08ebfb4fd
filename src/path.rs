use vstd::prelude::*;

use crate::pos::{adjacent, Pos};

verus! {

/// `s` walks through `cells` one grid step at a time and never visits a cell twice.
pub open spec fn is_route(cells: Set<Pos>, s: Seq<Pos>) -> bool {
    &&& s.no_duplicates()
    &&& forall|i: int| 0 <= i < s.len() ==> cells.contains(#[trigger] s[i])
    &&& forall|i: int| 0 < i < s.len() ==> adjacent(s[i - 1], #[trigger] s[i])
}

/// `pos` may carry the route `s` one step further through `cells`.
pub open spec fn can_extend(cells: Set<Pos>, s: Seq<Pos>, pos: Pos) -> bool {
    &&& cells.contains(pos)
    &&& !s.contains(pos)
    &&& (s.len() == 0 || adjacent(s.last(), pos))
}

/// A route of at least one cell that no cell of `cells` can carry further at its end.
pub open spec fn is_complete_route(cells: Set<Pos>, s: Seq<Pos>) -> bool {
    &&& is_route(cells, s)
    &&& s.len() > 0
    &&& forall|q: Pos| !can_extend(cells, s, q)
}

/// `s` begins with `prefix`.
pub open spec fn starts_with(s: Seq<Pos>, prefix: Seq<Pos>) -> bool {
    &&& prefix.len() <= s.len()
    &&& forall|i: int| 0 <= i < prefix.len() ==> s[i] == prefix[i]
}

/// `n` is the number of cells of a longest route through `cells`.
pub open spec fn is_longest_road(cells: Set<Pos>, n: nat) -> bool {
    &&& exists|s: Seq<Pos>| is_route(cells, s) && s.len() == n
    &&& forall|s: Seq<Pos>| is_route(cells, s) ==> s.len() <= n
}

/// The number of cells of a longest route through `cells`.
pub open spec fn longest_road(cells: Set<Pos>) -> nat {
    choose|n: nat| is_longest_road(cells, n)
}

/// The cells of `cells` next to `pos` that `exclude` does not hold.
pub open spec fn neighbors(cells: Set<Pos>, pos: Pos, exclude: Seq<Pos>) -> Set<Pos> {
    Set::new(|q: Pos| cells.contains(q) && adjacent(q, pos) && !exclude.contains(q))
}

/// Whether `q` is a neighbour of `pos` outside `exclude`.
pub open spec fn open_neighbor(pos: Pos, exclude: Seq<Pos>) -> spec_fn(Pos) -> bool {
    |q: Pos| adjacent(q, pos) && !exclude.contains(q)
}

/// The cells of `cells` that `exclude` does not hold.
pub open spec fn without(cells: Set<Pos>, exclude: Seq<Pos>) -> Set<Pos> {
    cells.filter(|q: Pos| !exclude.contains(q))
}

/// `ps` holds every complete route from `pos` through the cells of `cells` that
/// `exclude` does not hold, and nothing else.
pub open spec fn lists_branches(cells: Set<Pos>, exclude: Seq<Pos>, pos: Pos, ps: Seq<Path>) -> bool {
    &&& forall|i: int|
        0 <= i < ps.len() ==> is_complete_route(without(cells, exclude), #[trigger] ps[i]@)
            && ps[i]@[0] == pos
    &&& forall|t: Seq<Pos>|
        is_complete_route(without(cells, exclude), t) && t[0] == pos ==> exists|i: int|
            0 <= i < ps.len() && #[trigger] ps[i]@ == t
}

/// `ps` holds every complete route through `cells` that starts with `chain`, and
/// nothing else.
pub open spec fn lists_completions(cells: Set<Pos>, chain: Seq<Pos>, ps: Seq<Path>) -> bool {
    &&& forall|i: int|
        0 <= i < ps.len() ==> is_complete_route(cells, #[trigger] ps[i]@) && starts_with(
            ps[i]@,
            chain,
        )
    &&& forall|t: Seq<Pos>|
        is_complete_route(cells, t) && starts_with(t, chain) ==> exists|i: int|
            0 <= i < ps.len() && #[trigger] ps[i]@ == t
}

/// The length of a longest route is fixed by the cells alone: two longest routes
/// through the same cells, such as the results of two calls of
/// `Path::get_longest_path` on one path, have the same length.
pub proof fn lemma_longest_road_unique(cells: Set<Pos>, m: nat, n: nat)
    requires
        is_longest_road(cells, m),
        is_longest_road(cells, n),
    ensures
        m == n,
{
    let s = choose|s: Seq<Pos>| is_route(cells, s) && s.len() == m;
    let t = choose|t: Seq<Pos>| is_route(cells, t) && t.len() == n;
}

/// `longest_road` names the length that `is_longest_road` describes.
pub proof fn lemma_longest_road_is(cells: Set<Pos>, n: nat)
    requires
        is_longest_road(cells, n),
    ensures
        longest_road(cells) == n,
{
    lemma_longest_road_unique(cells, longest_road(cells), n);
}

/// Without cells the only route is the empty one.
pub proof fn lemma_no_cells(cells: Set<Pos>)
    requires
        forall|q: Pos| !cells.contains(q),
    ensures
        is_longest_road(cells, 0),
        longest_road(cells) == 0,
{
    assert(is_route(cells, Seq::<Pos>::empty()));
    assert forall|s: Seq<Pos>| is_route(cells, s) implies s.len() <= 0 by {
        if s.len() > 0 {
            assert(cells.contains(s[0]));
        }
    }
    lemma_longest_road_is(cells, 0);
}

/// A sequence of distinct cells, each taken from `cells`, is no longer than `cells`.
pub proof fn lemma_route_len(cells: Seq<Pos>, s: Seq<Pos>)
    requires
        s.no_duplicates(),
        forall|i: int| 0 <= i < s.len() ==> cells.contains(#[trigger] s[i]),
    ensures
        s.len() <= cells.len(),
{
    broadcast use vstd::seq_lib::seq_to_set_is_finite;

    s.unique_seq_to_set();
    cells.lemma_cardinality_of_set();
    assert(s.to_set().subset_of(cells.to_set())) by {
        assert forall|q: Pos| s.to_set().contains(q) implies cells.to_set().contains(q) by {
            let i = choose|i: int| 0 <= i < s.len() && s[i] == q;
            assert(cells.contains(s[i]));
        }
    }
    vstd::set_lib::lemma_len_subset(s.to_set(), cells.to_set());
}

/// Routes through the cells of `cells` outside `exclude` hold cells of `cells`
/// only.
proof fn lemma_routes_within(cells: Set<Pos>, exclude: Seq<Pos>, ps: Seq<Path>)
    requires
        forall|i: int| 0 <= i < ps.len() ==> is_route(without(cells, exclude), #[trigger] ps[i]@),
    ensures
        forall|i: int| 0 <= i < ps.len() ==> (#[trigger] ps[i]).cells().subset_of(cells),
{
    assert forall|i: int| 0 <= i < ps.len() implies (#[trigger] ps[i]).cells().subset_of(cells) by {
        assert forall|q: Pos| ps[i].cells().contains(q) implies cells.contains(q) by {
            let x = choose|x: int| 0 <= x < ps[i]@.len() && ps[i]@[x] == q;
            assert(without(cells, exclude).contains(ps[i]@[x]));
        }
    }
}

/// Adds to `paths`, for each path of `ps`, `pos` followed by the cells of that
/// path.
fn push_behind(pos: Pos, ps: &Vec<Path>, paths: &mut Vec<Path>)
    requires
        forall|j: int| 0 <= j < ps@.len() ==> !(#[trigger] ps@[j])@.contains(pos),
    ensures
        final(paths)@.len() == old(paths)@.len() + ps@.len(),
        forall|i: int| 0 <= i < old(paths)@.len() ==> final(paths)@[i] == old(paths)@[i],
        forall|j: int|
            0 <= j < ps@.len() ==> (#[trigger] final(paths)@[old(paths)@.len() + j])@ == seq![pos]
                + ps@[j]@,
{
    let ghost start = paths@;
    let mut j: usize = 0;
    while j < ps.len()
        invariant
            j <= ps@.len(),
            forall|x: int| 0 <= x < ps@.len() ==> !(#[trigger] ps@[x])@.contains(pos),
            paths@.len() == start.len() + j,
            forall|i: int| 0 <= i < start.len() ==> paths@[i] == start[i],
            forall|x: int|
                0 <= x < j ==> (#[trigger] paths@[start.len() + x])@ == seq![pos] + ps@[x]@,
        decreases ps@.len() - j,
    {
        let p = ps[j].with_first(pos);
        paths.push(p);
        j += 1;
    }
}

/// A cell is on `s` with `x` added when it is on `s` or is `x`.
proof fn lemma_push_contains(s: Seq<Pos>, x: Pos)
    ensures
        forall|q: Pos| #[trigger] s.push(x).contains(q) <==> s.contains(q) || q == x,
{
    assert forall|q: Pos| #[trigger] s.push(x).contains(q) <==> s.contains(q) || q == x by {
        if s.contains(q) {
            let j = choose|j: int| 0 <= j < s.len() && s[j] == q;
            assert(s.push(x)[j] == q);
        }
        if s.push(x).contains(q) && q != x {
            let j = choose|j: int| 0 <= j < s.len() + 1 && s.push(x)[j] == q;
            assert(s[j] == q);
        }
        assert(s.push(x)[s.len() as int] == x);
    }
}

/// A cell put in front of a complete route through the other cells, next to its
/// first cell, gives a complete route.
proof fn lemma_prepend(avail: Set<Pos>, pos: Pos, t: Seq<Pos>)
    requires
        avail.contains(pos),
        is_complete_route(avail.remove(pos), t),
        adjacent(pos, t[0]),
    ensures
        is_complete_route(avail, seq![pos] + t),
{
    let u = seq![pos] + t;
    assert forall|i: int| 0 <= i < u.len() implies avail.contains(#[trigger] u[i]) by {
        if i > 0 {
            assert(u[i] == t[i - 1]);
            assert(avail.remove(pos).contains(t[i - 1]));
        }
    }
    assert forall|i: int| 0 < i < u.len() implies adjacent(u[i - 1], #[trigger] u[i]) by {
        if i > 1 {
            assert(u[i - 1] == t[i - 2] && u[i] == t[i - 1]);
        }
    }
    assert forall|i: int, j: int| 0 <= i < u.len() && 0 <= j < u.len() && i != j implies u[i] != u[j] by {
        if i > 0 {
            assert(avail.remove(pos).contains(t[i - 1]));
        }
        if j > 0 {
            assert(avail.remove(pos).contains(t[j - 1]));
        }
    }
    assert forall|q: Pos| !can_extend(avail, u, q) by {
        if can_extend(avail, u, q) {
            assert(u.last() == t.last());
            assert(q != pos) by {
                assert(u[0] == pos);
            }
            assert(!t.contains(q)) by {
                if t.contains(q) {
                    let j = choose|j: int| 0 <= j < t.len() && t[j] == q;
                    assert(u[j + 1] == q);
                }
            }
            assert(can_extend(avail.remove(pos), t, q));
        }
    }
}

/// A complete route of two cells or more, without its first cell, is a complete
/// route through the other cells.
proof fn lemma_drop_first(avail: Set<Pos>, t: Seq<Pos>)
    requires
        is_complete_route(avail, t),
        t.len() > 1,
    ensures
        is_complete_route(avail.remove(t[0]), t.drop_first()),
        adjacent(t[0], t[1]),
{
    let u = t.drop_first();
    assert(adjacent(t[0], t[1]));
    assert forall|i: int| 0 <= i < u.len() implies avail.remove(t[0]).contains(#[trigger] u[i]) by {
        assert(u[i] == t[i + 1]);
    }
    assert forall|i: int| 0 < i < u.len() implies adjacent(u[i - 1], #[trigger] u[i]) by {
        assert(u[i - 1] == t[i] && u[i] == t[i + 1]);
    }
    assert forall|q: Pos| !can_extend(avail.remove(t[0]), u, q) by {
        if can_extend(avail.remove(t[0]), u, q) {
            assert(u.last() == t.last());
            assert(!t.contains(q)) by {
                if t.contains(q) {
                    let j = choose|j: int| 0 <= j < t.len() && t[j] == q;
                    if j > 0 {
                        assert(u[j - 1] == q);
                    }
                }
            }
            assert(can_extend(avail, t, q));
        }
    }
}

/// Every route of at least one cell through the cells of `cells` can be carried on
/// to a complete one.
proof fn lemma_extend_to_complete(cells: Seq<Pos>, s: Seq<Pos>)
    requires
        is_route(cells.to_set(), s),
        s.len() > 0,
    ensures
        exists|t: Seq<Pos>| is_complete_route(cells.to_set(), t) && starts_with(t, s),
    decreases cells.len() - s.len(),
{
    let set = cells.to_set();
    if is_complete_route(set, s) {
        assert(starts_with(s, s));
    } else {
        let q = choose|q: Pos| can_extend(set, s, q);
        let s2 = s.push(q);
        assert(is_route(set, s2)) by {
            assert forall|i: int| 0 < i < s2.len() implies adjacent(s2[i - 1], #[trigger] s2[i]) by {
                if i < s.len() {
                    assert(s2[i - 1] == s[i - 1] && s2[i] == s[i]);
                }
            }
        }
        lemma_route_len(cells, s2);
        lemma_extend_to_complete(cells, s2);
        let t = choose|t: Seq<Pos>| is_complete_route(set, t) && starts_with(t, s2);
        assert(starts_with(t, s)) by {
            assert forall|i: int| 0 <= i < s.len() implies t[i] == s[i] by {
                assert(s2[i] == s[i]);
            }
        }
    }
}

/// A set of cells, each held once. The order in which the cells were added is
/// kept: for a path found by the solver it is the order of the walk.
#[derive(Debug)]
pub struct Path {
    data: Vec<Pos>,
}

impl View for Path {
    type V = Seq<Pos>;

    closed spec fn view(&self) -> Seq<Pos> {
        self.data@
    }
}

/// What following the routes from a position gives.
#[derive(Debug)]
pub enum PathResult {
    /// The position lies outside the path or is excluded; nothing was collected.
    Partial(Path, Pos),
    /// Every completed path from the position, each after the excluded cells.
    Complete(Vec<Path>),
}

impl Clone for Path {
    fn clone(&self) -> (r: Path)
        ensures
            r@ == self@,
    {
        proof { use_type_invariant(self); }
        let mut data: Vec<Pos> = Vec::new();
        let mut i: usize = 0;
        while i < self.data.len()
            invariant
                i <= self.data@.len(),
                self.data@.no_duplicates(),
                data@ == self.data@.subrange(0, i as int),
            decreases self.data@.len() - i,
        {
            data.push(self.data[i]);
            i += 1;
        }
        assert(data@ == self.data@);
        Path { data }
    }
}

impl Path {
    #[verifier::type_invariant]
    spec fn distinct(&self) -> bool {
        self.data@.no_duplicates()
    }

    /// The cells as a set.
    pub open spec fn cells(&self) -> Set<Pos> {
        self@.to_set()
    }

    /// An empty path.
    pub fn new() -> (r: Path)
        ensures
            r@ == Seq::<Pos>::empty(),
    {
        Path { data: Vec::new() }
    }

    /// The number of cells.
    pub fn len(&self) -> (r: usize)
        ensures
            r == self@.len(),
            self@.no_duplicates(),
            r == self.cells().len(),
    {
        proof {
            use_type_invariant(self);
            self@.unique_seq_to_set();
        }
        self.data.len()
    }

    /// Whether the path holds no cell.
    pub fn is_empty(&self) -> (r: bool)
        ensures
            r == (self@.len() == 0),
    {
        self.data.len() == 0
    }

    /// The cells, in the order in which they were added.
    pub fn positions(&self) -> (r: Vec<Pos>)
        ensures
            r@ == self@,
    {
        self.clone().data
    }

    /// Whether `pos` is one of the cells.
    pub fn contains(&self, pos: &Pos) -> (r: bool)
        ensures
            r == self@.contains(*pos),
    {
        let mut i: usize = 0;
        while i < self.data.len()
            invariant
                i <= self.data@.len(),
                forall|j: int| 0 <= j < i ==> self.data@[j] != *pos,
            decreases self.data@.len() - i,
        {
            if self.data[i] == *pos {
                return true;
            }
            i += 1;
        }
        false
    }

    /// Adds `pos` at the end unless it is already held; returns whether it was added.
    pub fn insert(&mut self, pos: Pos) -> (r: bool)
        ensures
            r == !old(self)@.contains(pos),
            final(self)@ == if r { old(self)@.push(pos) } else { old(self)@ },
    {
        proof { use_type_invariant(&*self); }
        if self.contains(&pos) {
            false
        } else {
            let mut data = Vec::new();
            std::mem::swap(&mut self.data, &mut data);
            data.push(pos);
            self.data = data;
            true
        }
    }


    /// A path holding the cells of `data`, each once. Where `data` repeats no
    /// cell, their order is kept.
    pub fn new_with_data(data: Vec<Pos>) -> (r: Path)
        ensures
            r.cells() == data@.to_set(),
            r@.no_duplicates(),
            data@.no_duplicates() ==> r@ == data@,
    {
        let mut r = Path::new();
        let mut i: usize = 0;
        while i < data.len()
            invariant
                i <= data@.len(),
                r.cells() == data@.subrange(0, i as int).to_set(),
                data@.no_duplicates() ==> r@ == data@.subrange(0, i as int),
            decreases data@.len() - i,
        {
            let ghost before = r@;
            r.insert(data[i]);
            proof {
                let prefix = data@.subrange(0, i as int);
                assert(data@.subrange(0, i + 1) == prefix.push(data@[i as int]));
                prefix.lemma_push_to_set_commute(data@[i as int]);
                before.lemma_push_to_set_commute(data@[i as int]);
                assert(r.cells() == data@.subrange(0, i + 1).to_set());
                if data@.no_duplicates() {
                    assert(!prefix.contains(data@[i as int]));
                }
            }
            i += 1;
        }
        assert(data@.subrange(0, data@.len() as int) == data@);
        proof { use_type_invariant(&r); }
        r
    }

    /// Moves the cells of `other` that this path lacks to its end, leaving `other`
    /// empty.
    pub fn append(&mut self, other: &mut Path)
        ensures
            final(self).cells() == old(self).cells() + old(other).cells(),
            starts_with(final(self)@, old(self)@),
            final(other)@.len() == 0,
    {
        let mut i: usize = 0;
        while i < other.data.len()
            invariant
                i <= other.data@.len(),
                self.cells() == old(self).cells() + other@.subrange(0, i as int).to_set(),
                starts_with(self@, old(self)@),
            decreases other.data@.len() - i,
        {
            let ghost before = self@;
            self.insert(other.data[i]);
            proof {
                let prefix = other@.subrange(0, i as int);
                assert(other@.subrange(0, i + 1) == prefix.push(other@[i as int]));
                prefix.lemma_push_to_set_commute(other@[i as int]);
                before.lemma_push_to_set_commute(other@[i as int]);
            }
            i += 1;
        }
        assert(other@.subrange(0, other@.len() as int) == other@);
        other.data = Vec::new();
    }

    /// The cells of this path next to `pos` that `exclude` does not hold.
    pub fn get_adjacent(&self, pos: Pos, exclude: &Path) -> (r: Path)
        ensures
            r@ == self@.filter(open_neighbor(pos, exclude@)),
            forall|q: Pos|
                #![trigger r@.contains(q)]
                r@.contains(q) <==> self@.contains(q) && adjacent(q, pos) && !exclude@.contains(q),
            r@.no_duplicates(),
            r@.len() <= 4,
    {
        proof { use_type_invariant(self); }
        let ghost pred = open_neighbor(pos, exclude@);
        let mut data: Vec<Pos> = Vec::new();
        let mut i: usize = 0;
        while i < self.data.len()
            invariant
                i <= self.data@.len(),
                self.data@.no_duplicates(),
                pred == open_neighbor(pos, exclude@),
                data@ == self.data@.subrange(0, i as int).filter(pred),
                data@.no_duplicates(),
                forall|q: Pos|
                    #![trigger data@.contains(q)]
                    data@.contains(q) <==> self.data@.subrange(0, i as int).contains(q) && adjacent(
                        q,
                        pos,
                    ) && !exclude@.contains(q),
            decreases self.data@.len() - i,
        {
            let p = self.data[i];
            let keep = p.adjacent(pos) && !exclude.contains(&p);
            let ghost prefix = self.data@.subrange(0, i as int);
            proof {
                assert(self.data@.subrange(0, i + 1).drop_last() == prefix);
                reveal(Seq::filter);
                assert(!prefix.contains(p));
                assert(!data@.contains(p));
            }
            let ghost kept = data@;
            if keep {
                data.push(p);
            }
            proof {
                assert(self.data@.subrange(0, i + 1) == prefix.push(p));
                assert forall|q: Pos|
                    data@.contains(q) <==> prefix.push(p).contains(q) && adjacent(q, pos)
                        && !exclude@.contains(q) by {
                    if prefix.push(p).contains(q) && q != p {
                        let j = choose|j: int| 0 <= j < prefix.len() + 1 && prefix.push(p)[j] == q;
                        assert(prefix[j] == q);
                    }
                    if prefix.contains(q) {
                        let j = choose|j: int| 0 <= j < prefix.len() && prefix[j] == q;
                        assert(prefix.push(p)[j] == q);
                    }
                    if keep && data@.contains(q) && q != p {
                        let j = choose|j: int| 0 <= j < data@.len() && data@[j] == q;
                        assert(kept[j] == q);
                    }
                    if keep && kept.contains(q) {
                        let j = choose|j: int| 0 <= j < kept.len() && kept[j] == q;
                        assert(data@[j] == q);
                    }
                    if keep {
                        assert(data@[kept.len() as int] == p);
                    }
                    assert(prefix.push(p)[prefix.len() as int] == p);
                }
            }
            i += 1;
        }
        assert(self.data@.subrange(0, self.data@.len() as int) == self.data@);
        proof {
            let around = seq![
                Pos((pos.0 - 1) as usize, pos.1),
                Pos((pos.0 + 1) as usize, pos.1),
                Pos(pos.0, (pos.1 - 1) as usize),
                Pos(pos.0, (pos.1 + 1) as usize),
            ];
            assert forall|i: int| 0 <= i < data@.len() implies around.contains(#[trigger] data@[i]) by {
                let q = data@[i];
                assert(data@.contains(q));
                if q.0 + 1 == pos.0 {
                    assert(around[0] == q);
                } else if q.0 == pos.0 + 1 {
                    assert(around[1] == q);
                } else if q.1 + 1 == pos.1 {
                    assert(around[2] == q);
                } else {
                    assert(around[3] == q);
                }
            }
            lemma_route_len(around, data@);
        }
        Path { data }
    }

    /// How many cells of this path lie next to `pos` outside `exclude`.
    pub fn num_paths_from(&self, pos: Pos, exclude: &Path) -> (r: usize)
        ensures
            r == self@.filter(open_neighbor(pos, exclude@)).len(),
            r == neighbors(self.cells(), pos, exclude@).len(),
            r <= 4,
    {
        let next = self.get_adjacent(pos, exclude);
        proof {
            assert(next.cells() == neighbors(self.cells(), pos, exclude@));
        }
        next.len()
    }

    /// Whether some cell of this path lies next to `pos` outside `exclude`.
    pub fn has_adjacent(&self, pos: Pos, exclude: &Path) -> (r: bool)
        ensures
            r == exists|q: Pos| self@.contains(q) && adjacent(q, pos) && !exclude@.contains(q),
    {
        let next = self.get_adjacent(pos, exclude);
        proof {
            if next@.len() != 0 {
                assert(next@.contains(next@[0]));
            } else {
                assert forall|q: Pos| !(self@.contains(q) && adjacent(q, pos) && !exclude@.contains(q)) by {
                    if self@.contains(q) && adjacent(q, pos) && !exclude@.contains(q) {
                        assert(next@.contains(q));
                    }
                }
            }
        }
        !next.is_empty()
    }

    /// This path with `pos` put in front of its cells.
    fn with_first(&self, pos: Pos) -> (r: Path)
        requires
            !self@.contains(pos),
        ensures
            r@ == seq![pos] + self@,
    {
        proof { use_type_invariant(self); }
        let mut data: Vec<Pos> = Vec::new();
        data.push(pos);
        let mut i: usize = 0;
        while i < self.data.len()
            invariant
                i <= self.data@.len(),
                self.data@.no_duplicates(),
                !self.data@.contains(pos),
                data@ == seq![pos] + self.data@.subrange(0, i as int),
            decreases self.data@.len() - i,
        {
            data.push(self.data[i]);
            proof {
                assert(self.data@.subrange(0, i + 1) == self.data@.subrange(0, i as int).push(
                    self.data@[i as int],
                ));
            }
            i += 1;
        }
        assert(self.data@.subrange(0, self.data@.len() as int) == self.data@);
        proof {
            assert forall|a: int, b: int|
                0 <= a < data@.len() && 0 <= b < data@.len() && a != b implies data@[a]
                != data@[b] by {
                if a > 0 && b > 0 {
                    assert(data@[a] == self.data@[a - 1] && data@[b] == self.data@[b - 1]);
                } else if a > 0 {
                    assert(self.data@.contains(data@[a]));
                } else if b > 0 {
                    assert(self.data@.contains(data@[b]));
                }
            }
        }
        Path { data }
    }

    /// Follows every route from `pos` through the cells of this path that
    /// `exclude` does not hold, exploring each branch.
    ///
    /// Where `pos` lies outside this path or in `exclude` the result is `Partial`
    /// with an empty path and `pos`. Otherwise it is `Complete` with every route
    /// from `pos` through the cells outside `exclude` that cannot be carried
    /// further, and nothing else; each holds cells of this path only.
    pub fn follow_path(&self, pos: Pos, exclude: &Path) -> (r: PathResult)
        ensures
            !(self@.contains(pos) && !exclude@.contains(pos)) ==> (r matches PathResult::Partial(
                p,
                q,
            ) && p@.len() == 0 && q == pos),
            self@.contains(pos) && !exclude@.contains(pos) ==> (r matches PathResult::Complete(ps)
                && lists_branches(self.cells(), exclude@, pos, ps@) && forall|i: int|
                0 <= i < ps@.len() ==> (#[trigger] ps@[i]).cells().subset_of(self.cells())),
        decreases without(self.cells(), exclude@).len(),
    {
        proof {
            use_type_invariant(self);
            use_type_invariant(exclude);
        }
        let ghost cells = self.cells();
        let ghost avail = without(cells, exclude@);
        if !self.contains(&pos) || exclude.contains(&pos) {
            return PathResult::Partial(Path::new(), pos);
        }
        let mut chain = exclude.clone();
        chain.insert(pos);
        let ghost rest = without(cells, chain@);
        proof {
            lemma_push_contains(exclude@, pos);
            assert(rest == avail.remove(pos));
            assert(avail.contains(pos));
            assert(avail.finite()) by {
                vstd::seq_lib::seq_to_set_is_finite(self@);
            }
        }
        let next = self.get_adjacent(pos, &chain);
        let mut paths: Vec<Path> = Vec::new();
        if next.is_empty() {
            let mut alone = Path::new();
            alone.insert(pos);
            proof {
                let u = seq![pos];
                assert(alone@ == u);
                assert(is_complete_route(avail, u)) by {
                    assert forall|q: Pos| !can_extend(avail, u, q) by {
                        if can_extend(avail, u, q) {
                            assert(u.last() == pos);
                            assert(next@.contains(q));
                        }
                    }
                }
                assert forall|t: Seq<Pos>|
                    is_complete_route(avail, t) && t[0] == pos implies exists|i: int|
                    0 <= i < 1 && #[trigger] seq![alone][i]@ == t by {
                    if t.len() > 1 {
                        lemma_drop_first(avail, t);
                        assert(avail.contains(t[1]));
                        assert(next@.contains(t[1]));
                    }
                    assert(t == u);
                    assert(seq![alone][0] == alone);
                }
            }
            paths.push(alone);
            proof {
                assert(paths@ == seq![paths@[0]]);
                lemma_routes_within(cells, exclude@, paths@);
            }
            return PathResult::Complete(paths);
        }
        let mut k: usize = 0;
        while k < next.data.len()
            invariant
                k <= next@.len(),
                cells == self.cells(),
                avail == without(cells, exclude@),
                rest == without(cells, chain@),
                rest == avail.remove(pos),
                avail.finite(),
                avail.contains(pos),
                chain@ == exclude@.push(pos),
                forall|q: Pos|
                    #![trigger next@.contains(q)]
                    next@.contains(q) <==> self@.contains(q) && adjacent(q, pos) && !chain@.contains(q),
                forall|i: int|
                    0 <= i < paths@.len() ==> is_complete_route(avail, #[trigger] paths@[i]@)
                        && paths@[i]@[0] == pos,
                forall|t: Seq<Pos>|
                    is_complete_route(avail, t) && t[0] == pos && t.len() > 1 && (exists|j: int|
                        0 <= j < k && next@[j] == t[1]) ==> exists|i: int|
                        0 <= i < paths@.len() && #[trigger] paths@[i]@ == t,
            decreases next@.len() - k,
        {
            let n = next.data[k];
            proof {
                assert(next@.contains(n));
                lemma_push_contains(exclude@, pos);
            }
            let ghost old_paths = paths@;
            match self.follow_path(n, &chain) {
                PathResult::Complete(ps) => {
                    let ghost found = ps@;
                    proof {
                        assert forall|j: int| 0 <= j < found.len() implies !(
                        #[trigger] found[j])@.contains(pos) by {
                            if found[j]@.contains(pos) {
                                let x = choose|x: int| 0 <= x < found[j]@.len() && found[j]@[x] == pos;
                                assert(rest.contains(found[j]@[x]));
                            }
                        }
                    }
                    push_behind(pos, &ps, &mut paths);
                    proof {
                        assert forall|i: int|
                            0 <= i < paths@.len() implies is_complete_route(
                                avail,
                                #[trigger] paths@[i]@,
                            ) && paths@[i]@[0] == pos by {
                            if i >= old_paths.len() {
                                let j = i - old_paths.len();
                                let tail = found[j]@;
                                assert(paths@[old_paths.len() + j]@ == seq![pos] + tail);
                                lemma_prepend(avail, pos, tail);
                            } else {
                                assert(paths@[i] == old_paths[i]);
                            }
                        }
                        assert forall|t: Seq<Pos>|
                            is_complete_route(avail, t) && t[0] == pos && t.len() > 1 && (exists|
                                j: int,
                            | 0 <= j < k + 1 && next@[j] == t[1]) implies exists|i: int|
                            0 <= i < paths@.len() && #[trigger] paths@[i]@ == t by {
                            let j = choose|j: int| 0 <= j < k + 1 && next@[j] == t[1];
                            if j < k {
                                let i = choose|i: int|
                                    0 <= i < old_paths.len() && #[trigger] old_paths[i]@ == t;
                                assert(paths@[i] == old_paths[i]);
                            } else {
                                lemma_drop_first(avail, t);
                                let tail = t.drop_first();
                                assert(tail[0] == n);
                                let i = choose|i: int|
                                    0 <= i < found.len() && #[trigger] found[i]@ == tail;
                                assert(paths@[old_paths.len() + i]@ == seq![pos] + tail);
                                assert(seq![pos] + tail == t);
                            }
                        }
                    }
                },
                PathResult::Partial(_, _) => {},
            }
            k += 1;
        }
        proof {
            assert forall|t: Seq<Pos>|
                is_complete_route(avail, t) && t[0] == pos implies exists|i: int|
                0 <= i < paths@.len() && #[trigger] paths@[i]@ == t by {
                assert(next@.contains(next@[0]));
                if t.len() == 1 {
                    assert(t.last() == pos);
                    assert(can_extend(avail, t, next@[0]));
                }
                lemma_drop_first(avail, t);
                assert(avail.contains(t[1]));
                assert(next@.contains(t[1]));
                let j = choose|j: int| 0 <= j < next@.len() && next@[j] == t[1];
            }
            lemma_routes_within(cells, exclude@, paths@);
        }
        PathResult::Complete(paths)
    }

    /// Every route through this path that cannot be carried further at its end,
    /// found by following a chain from each of its cells in turn.
    pub fn get_adjacent_paths(&self) -> (r: Vec<Path>)
        ensures
            lists_completions(self.cells(), Seq::empty(), r@),
    {
        proof { use_type_invariant(self); }
        let ghost cells = self.cells();
        let start = Path::new();
        let mut paths: Vec<Path> = Vec::new();
        let mut k: usize = 0;
        while k < self.data.len()
            invariant
                k <= self@.len(),
                cells == self.cells(),
                start@ == Seq::<Pos>::empty(),
                forall|i: int|
                    0 <= i < paths@.len() ==> is_complete_route(cells, #[trigger] paths@[i]@),
                forall|t: Seq<Pos>|
                    is_complete_route(cells, t) && (exists|j: int| 0 <= j < k && self@[j] == t[0])
                        ==> exists|i: int| 0 <= i < paths@.len() && #[trigger] paths@[i]@ == t,
            decreases self@.len() - k,
        {
            let pos = self.data[k];
            proof {
                assert(self@.contains(pos));
                assert(without(cells, start@) == cells);
            }
            let ghost old_paths = paths@;
            match self.follow_path(pos, &start) {
                PathResult::Complete(mut ps) => {
                    let ghost found = ps@;
                    paths.append(&mut ps);
                    proof {
                        assert forall|i: int|
                            0 <= i < paths@.len() implies is_complete_route(
                                cells,
                                #[trigger] paths@[i]@,
                            ) by {
                            if i >= old_paths.len() {
                                assert(paths@[i] == found[i - old_paths.len()]);
                            } else {
                                assert(paths@[i] == old_paths[i]);
                            }
                        }
                        assert forall|t: Seq<Pos>|
                            is_complete_route(cells, t) && (exists|j: int|
                                0 <= j < k + 1 && self@[j] == t[0]) implies exists|i: int|
                            0 <= i < paths@.len() && #[trigger] paths@[i]@ == t by {
                            let j = choose|j: int| 0 <= j < k + 1 && self@[j] == t[0];
                            if j < k {
                                let i = choose|i: int|
                                    0 <= i < old_paths.len() && #[trigger] old_paths[i]@ == t;
                                assert(paths@[i] == old_paths[i]);
                            } else {
                                let i = choose|i: int| 0 <= i < found.len() && #[trigger] found[i]@ == t;
                                assert(paths@[old_paths.len() + i] == found[i]);
                            }
                        }
                    }
                },
                PathResult::Partial(_, _) => {},
            }
            k += 1;
        }
        proof {
            assert forall|t: Seq<Pos>|
                is_complete_route(cells, t) && starts_with(t, Seq::empty()) implies exists|i: int|
                0 <= i < paths@.len() && #[trigger] paths@[i]@ == t by {
                assert(cells.contains(t[0]));
                let j = choose|j: int| 0 <= j < self@.len() && self@[j] == t[0];
            }
        }
        paths
    }

    /// A longest route through this path, or `None` when the path is empty.
    /// Among routes of equal length the first one found is kept.
    pub fn get_longest_path(&self) -> (r: Option<Path>)
        ensures
            r is None <==> self.cells() == Set::<Pos>::empty(),
            r matches Some(p) ==> is_route(self.cells(), p@) && is_longest_road(
                self.cells(),
                p@.len(),
            ),
    {
        let ghost cells = self.cells();
        let mut paths = self.get_adjacent_paths();
        if paths.len() == 0 {
            proof {
                if self@.len() > 0 {
                    let s = seq![self@[0]];
                    assert(self@.contains(self@[0]));
                    assert(is_route(cells, s));
                    lemma_extend_to_complete(self@, s);
                    let t = choose|t: Seq<Pos>| is_complete_route(cells, t) && starts_with(t, s);
                    assert(starts_with(t, Seq::empty()));
                }
            }
            assert(self.cells() == Set::<Pos>::empty());
            return None;
        }
        let mut best: usize = 0;
        let mut i: usize = 1;
        while i < paths.len()
            invariant
                best < i <= paths@.len(),
                forall|j: int| 0 <= j < i ==> paths@[j]@.len() <= paths@[best as int]@.len(),
            decreases paths@.len() - i,
        {
            if paths[i].len() > paths[best].len() {
                best = i;
            }
            i += 1;
        }
        let ghost all = paths@;
        let longest = paths.swap_remove(best);
        proof {
            assert(is_complete_route(cells, all[best as int]@));
            assert(self@.contains(all[0]@[0]));
            assert(self.cells().contains(all[0]@[0]));
            assert forall|s: Seq<Pos>| is_route(cells, s) implies s.len() <= longest@.len() by {
                if s.len() > 0 {
                    lemma_extend_to_complete(self@, s);
                    let t = choose|t: Seq<Pos>| is_complete_route(cells, t) && starts_with(t, s);
                    assert(starts_with(t, Seq::empty()));
                    let j = choose|j: int| 0 <= j < all.len() && #[trigger] all[j]@ == t;
                }
            }
        }
        Some(longest)
    }
}

} // verus!
