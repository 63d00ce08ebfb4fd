use vstd::prelude::*;

use vstd::string::StrSliceExecFns;

use crate::path::Path;
use crate::pos::Pos;

verus! {

/// A player: the symbol of its road cells and the symbol of its base cells.
#[derive(Clone, Copy, Debug, PartialEq, Eq, Structural, Hash, PartialOrd, Ord)]
pub struct Player(pub char, pub char);

/// What occupies a cell of the board.
#[derive(Clone, Copy, Debug, PartialEq, Eq, Structural, Hash, PartialOrd, Ord)]
pub enum Slot {
    /// A road cell of the player.
    Path(Player),
    /// A base of the player; it is no part of the player's roads.
    Base(Player),
    /// An empty cell.
    Open,
}

/// The player that owns a symbol: a lower-case letter is its road, the
/// upper-case letter its base.
pub open spec fn slot_of(c: char) -> Slot {
    let code = c as u32;
    if 97 <= code <= 122 {
        Slot::Path(Player(c, (code - 32) as char))
    } else if 65 <= code <= 90 {
        Slot::Base(Player((code + 32) as char, c))
    } else {
        Slot::Open
    }
}

/// The player that occupies a slot, if any.
pub open spec fn owner(s: Slot) -> Option<Player> {
    match s {
        Slot::Path(p) => Some(p),
        Slot::Base(p) => Some(p),
        Slot::Open => None,
    }
}

impl Slot {
    /// The slot that a symbol of the board stands for.
    pub fn new(val: char) -> (r: Slot)
        ensures
            r == slot_of(val),
    {
        let code = val as u32;
        if 97 <= code && code <= 122 {
            Slot::Path(Player(val, ((code - 32) as u8) as char))
        } else if 65 <= code && code <= 90 {
            Slot::Base(Player(((code + 32) as u8) as char, val))
        } else {
            Slot::Open
        }
    }
}

/// The cells that hold a road of `player`.
pub open spec fn road_cells(board: Map<Pos, Slot>, player: Player) -> Set<Pos> {
    Set::new(|q: Pos| board.contains_key(q) && board[q] == Slot::Path(player))
}

/// The players that occupy some cell, with a road or a base.
pub open spec fn occupants(board: Map<Pos, Slot>) -> Set<Player> {
    Set::new(|p: Player| exists|q: Pos| board.contains_key(q) && owner(board[q]) == Some(p))
}

/// `h` is one more than the largest row that holds a cell, or 0 for an empty board.
pub open spec fn is_height(board: Map<Pos, Slot>, h: nat) -> bool {
    &&& forall|q: Pos| board.contains_key(q) ==> q.1 < h
    &&& h == 0 || exists|q: Pos| board.contains_key(q) && q.1 + 1 == h
}

/// `w` is one more than the largest column that holds a cell, or 0 for an empty board.
pub open spec fn is_width(board: Map<Pos, Slot>, w: nat) -> bool {
    &&& forall|q: Pos| board.contains_key(q) ==> q.0 < w
    &&& w == 0 || exists|q: Pos| board.contains_key(q) && q.0 + 1 == w
}

/// The height of the board.
pub open spec fn height_of(board: Map<Pos, Slot>) -> nat {
    choose|h: nat| is_height(board, h)
}

/// The board with the symbols of `line` written into row `row`, from column 0 on.
pub open spec fn with_row(board: Map<Pos, Slot>, row: nat, line: Seq<char>) -> Map<Pos, Slot> {
    Map::new(
        |q: Pos| board.contains_key(q) || (q.1 == row && q.0 < line.len()),
        |q: Pos|
            if q.1 == row && q.0 < line.len() {
                slot_of(line[q.0 as int])
            } else {
                board[q]
            },
    )
}

/// No two entries are for the same cell.
pub open spec fn unique_keys(s: Seq<(Pos, Slot)>) -> bool {
    forall|i: int, j: int| 0 <= i < s.len() && 0 <= j < s.len() && i != j ==> s[i].0 != s[j].0
}

/// The board that a list of entries with distinct cells describes.
pub open spec fn entries_map(s: Seq<(Pos, Slot)>) -> Map<Pos, Slot> {
    Map::new(
        |q: Pos| exists|i: int| 0 <= i < s.len() && s[i].0 == q,
        |q: Pos| s[choose|i: int| 0 <= i < s.len() && s[i].0 == q].1,
    )
}

/// The players of the entries, each once, in the order of their first entry.
pub open spec fn first_seen(s: Seq<(Pos, Slot)>) -> Seq<Player>
    decreases s.len(),
{
    if s.len() == 0 {
        Seq::empty()
    } else {
        with_player(first_seen(s.drop_last()), s.last().1)
    }
}

/// `order` with the player of `slot` added at its end, unless it is there
/// already or the slot is empty.
pub open spec fn with_player(order: Seq<Player>, slot: Slot) -> Seq<Player> {
    match owner(slot) {
        Some(p) => if order.contains(p) {
            order
        } else {
            order.push(p)
        },
        None => order,
    }
}

/// `order` with the players of the symbols of `line` added, in turn, as
/// `with_player` adds them.
pub open spec fn with_line_players(order: Seq<Player>, line: Seq<char>) -> Seq<Player>
    decreases line.len(),
{
    if line.len() == 0 {
        order
    } else {
        with_player(with_line_players(order, line.drop_last()), slot_of(line.last()))
    }
}

proof fn lemma_entry(s: Seq<(Pos, Slot)>, i: int)
    requires
        unique_keys(s),
        0 <= i < s.len(),
    ensures
        entries_map(s).contains_key(s[i].0),
        entries_map(s)[s[i].0] == s[i].1,
{
    let q = s[i].0;
    assert(entries_map(s).dom().contains(q));
    let j = choose|j: int| 0 <= j < s.len() && s[j].0 == q;
    assert(j == i);
}

/// The height of a board is determined by its cells.
pub proof fn lemma_height_unique(board: Map<Pos, Slot>, h: nat)
    requires
        is_height(board, h),
    ensures
        height_of(board) == h,
{
    let k = height_of(board);
    assert(is_height(board, k));
    if k < h {
        let q = choose|q: Pos| board.contains_key(q) && q.1 + 1 == h;
    } else if h < k {
        let q = choose|q: Pos| board.contains_key(q) && q.1 + 1 == k;
    }
}

proof fn lemma_first_seen(s: Seq<(Pos, Slot)>)
    ensures
        first_seen(s).no_duplicates(),
        forall|p: Player|
            #![trigger first_seen(s).contains(p)]
            first_seen(s).contains(p) <==> exists|j: int| 0 <= j < s.len() && owner(s[j].1) == Some(p),
    decreases s.len(),
{
    if s.len() > 0 {
        let rest = s.drop_last();
        lemma_first_seen(rest);
        let before = first_seen(rest);
        let last = owner(s[s.len() - 1].1);
        let all = first_seen(s);
        assert forall|p: Player| all.contains(p) <==> before.contains(p) || last == Some(p) by {
            if last is Some && !before.contains(last->0) {
                let x = last->0;
                assert(all == before.push(x));
                if all.contains(p) {
                    let k = choose|k: int| 0 <= k < all.len() && all[k] == p;
                    if k < before.len() {
                        assert(before[k] == p);
                    }
                }
                if before.contains(p) {
                    let k = choose|k: int| 0 <= k < before.len() && before[k] == p;
                    assert(all[k] == p);
                }
                assert(all[before.len() as int] == x);
            }
        }
        assert forall|p: Player|
            (exists|j: int| 0 <= j < s.len() && owner(s[j].1) == Some(p)) <==> (exists|j: int|
                0 <= j < rest.len() && owner(rest[j].1) == Some(p)) || last == Some(p) by {
            if exists|j: int| 0 <= j < s.len() && owner(s[j].1) == Some(p) {
                let j = choose|j: int| 0 <= j < s.len() && owner(s[j].1) == Some(p);
                if j < rest.len() {
                    assert(rest[j] == s[j]);
                }
            }
            if exists|j: int| 0 <= j < rest.len() && owner(rest[j].1) == Some(p) {
                let j = choose|j: int| 0 <= j < rest.len() && owner(rest[j].1) == Some(p);
                assert(rest[j] == s[j]);
            }
        }
        if last is Some && !before.contains(last->0) {
            assert(all == before.push(last->0));
            assert forall|a: int, b: int| 0 <= a < all.len() && 0 <= b < all.len() && a != b implies all[a] != all[b] by {
                if a < before.len() && b < before.len() {
                } else if a < before.len() {
                    assert(before.contains(all[a]));
                } else {
                    assert(before.contains(all[b]));
                }
            }
        }
    }
}

/// Whether `p` is one of `players`.
fn has_player(players: &Vec<Player>, p: Player) -> (r: bool)
    ensures
        r == players@.contains(p),
{
    let mut i: usize = 0;
    while i < players.len()
        invariant
            i <= players@.len(),
            forall|j: int| 0 <= j < i ==> players@[j] != p,
        decreases players@.len() - i,
    {
        if players[i] == p {
            return true;
        }
        i += 1;
    }
    false
}

/// The board: what occupies each cell that was written. A cell never written is
/// empty.
#[derive(Debug)]
pub struct Grid {
    data: Vec<(Pos, Slot)>,
}

impl View for Grid {
    type V = Map<Pos, Slot>;

    closed spec fn view(&self) -> Map<Pos, Slot> {
        entries_map(self.data@)
    }
}

impl Clone for Grid {
    fn clone(&self) -> (r: Grid)
        ensures
            r@ == self@,
    {
        proof { use_type_invariant(self); }
        let mut data: Vec<(Pos, Slot)> = Vec::new();
        let mut i: usize = 0;
        while i < self.data.len()
            invariant
                i <= self.data@.len(),
                data@ == self.data@.subrange(0, i as int),
            decreases self.data@.len() - i,
        {
            data.push(self.data[i]);
            i += 1;
        }
        assert(data@ == self.data@);
        Grid { data }
    }
}

impl Grid {
    #[verifier::type_invariant]
    spec fn well_formed(&self) -> bool {
        &&& unique_keys(self.data@)
        &&& forall|i: int|
            0 <= i < self.data@.len() ==> (#[trigger] self.data@[i]).0.0 < usize::MAX
                && self.data@[i].0.1 < usize::MAX
    }

    /// The players on the board, each once, in the order in which the cells that
    /// hold them were first written.
    pub closed spec fn player_order(&self) -> Seq<Player> {
        first_seen(self.data@)
    }

    /// An empty board.
    pub fn new() -> (r: Grid)
        ensures
            r@ == Map::<Pos, Slot>::empty(),
            r.player_order() == Seq::<Player>::empty(),
    {
        let r = Grid { data: Vec::new() };
        assert(r@ == Map::<Pos, Slot>::empty());
        r
    }

    /// What occupies `pos`; a cell never written is empty.
    pub fn get(&self, pos: Pos) -> (r: Slot)
        ensures
            r == if self@.contains_key(pos) {
                self@[pos]
            } else {
                Slot::Open
            },
    {
        proof { use_type_invariant(self); }
        let mut i: usize = 0;
        while i < self.data.len()
            invariant
                i <= self.data@.len(),
                unique_keys(self.data@),
                forall|j: int| 0 <= j < i ==> self.data@[j].0 != pos,
            decreases self.data@.len() - i,
        {
            if self.data[i].0 == pos {
                proof { lemma_entry(self.data@, i as int); }
                return self.data[i].1;
            }
            i += 1;
        }
        Slot::Open
    }

    /// Records `slot` at `pos`, replacing what was there. The largest index is
    /// left free in both coordinates, so that the height and width fit in a
    /// `usize`.
    pub fn insert(&mut self, pos: Pos, slot: Slot)
        requires
            pos.0 < usize::MAX,
            pos.1 < usize::MAX,
        ensures
            final(self)@ == old(self)@.insert(pos, slot),
            !old(self)@.contains_key(pos) ==> final(self).player_order() == with_player(
                old(self).player_order(),
                slot,
            ),
    {
        proof { use_type_invariant(&*self); }
        let ghost s = self.data@;
        let mut data = Vec::new();
        std::mem::swap(&mut self.data, &mut data);
        let mut i: usize = 0;
        while i < data.len()
            invariant
                s == data@,
                i <= s.len(),
                forall|j: int| 0 <= j < i ==> s[j].0 != pos,
            ensures
                i <= s.len(),
                i < s.len() ==> s[i as int].0 == pos,
                forall|j: int| 0 <= j < i ==> s[j].0 != pos,
            decreases s.len() - i,
        {
            if data[i].0 == pos {
                break;
            }
            i += 1;
        }
        if i < data.len() {
            data.set(i, (pos, slot));
            proof {
                lemma_entry(s, i as int);
                let t = s.update(i as int, (pos, slot));
                assert(data@ == t);
                assert(unique_keys(t)) by {
                    assert forall|a: int, b: int| 0 <= a < t.len() && 0 <= b < t.len() && a != b implies t[a].0 != t[b].0 by {
                        assert(t[a].0 == s[a].0 && t[b].0 == s[b].0);
                    }
                }
                assert forall|q: Pos| #[trigger] entries_map(t).contains_key(q) <==> entries_map(s).insert(pos, slot).contains_key(q) by {
                    if entries_map(s).contains_key(q) {
                        let j = choose|j: int| 0 <= j < s.len() && s[j].0 == q;
                        if j != i { assert(t[j].0 == q); }
                    }
                    if entries_map(t).contains_key(q) {
                        let j = choose|j: int| 0 <= j < t.len() && t[j].0 == q;
                        if j != i { assert(s[j].0 == q); }
                    }
                    if q == pos {
                        assert(t[i as int].0 == q && s[i as int].0 == q);
                    }
                }
                assert forall|q: Pos| #[trigger] entries_map(t).contains_key(q) implies entries_map(t)[q] == entries_map(s).insert(pos, slot)[q] by {
                    let j = choose|j: int| 0 <= j < t.len() && t[j].0 == q;
                    lemma_entry(t, j);
                    if j != i {
                        lemma_entry(s, j);
                    }
                }
                assert(entries_map(t) == entries_map(s).insert(pos, slot));
            }
        } else {
            data.push((pos, slot));
            proof {
                let t = s.push((pos, slot));
                assert(data@ == t);
                assert(t.drop_last() == s);
                assert(unique_keys(t)) by {
                    assert forall|a: int, b: int| 0 <= a < t.len() && 0 <= b < t.len() && a != b implies t[a].0 != t[b].0 by {
                        if a < s.len() && b < s.len() {
                            assert(t[a] == s[a] && t[b] == s[b]);
                        } else if a < s.len() {
                            assert(t[a] == s[a]);
                        } else if b < s.len() {
                            assert(t[b] == s[b]);
                        }
                    }
                }
                assert forall|q: Pos| #[trigger] entries_map(t).contains_key(q) <==> entries_map(s).insert(pos, slot).contains_key(q) by {
                    if entries_map(s).contains_key(q) {
                        let j = choose|j: int| 0 <= j < s.len() && s[j].0 == q;
                        assert(t[j].0 == q);
                    }
                    if entries_map(t).contains_key(q) {
                        let j = choose|j: int| 0 <= j < t.len() && t[j].0 == q;
                        if j < s.len() { assert(s[j].0 == q); }
                    }
                    if q == pos {
                        assert(t[s.len() as int].0 == q);
                    }
                }
                assert forall|q: Pos| #[trigger] entries_map(t).contains_key(q) implies entries_map(t)[q] == entries_map(s).insert(pos, slot)[q] by {
                    let j = choose|j: int| 0 <= j < t.len() && t[j].0 == q;
                    lemma_entry(t, j);
                    if j < s.len() {
                        assert(t[j] == s[j]);
                        lemma_entry(s, j);
                    }
                }
                assert(entries_map(t) == entries_map(s).insert(pos, slot));
            }
        }
        self.data = data;
    }

    /// The number of rows: one more than the largest row index that holds a
    /// cell, or 0 for an empty board.
    pub fn height(&self) -> (r: usize)
        ensures
            is_height(self@, r as nat),
            r == height_of(self@),
    {
        proof { use_type_invariant(self); }
        let ghost s = self.data@;
        let mut h: usize = 0;
        let mut i: usize = 0;
        while i < self.data.len()
            invariant
                s == self.data@,
                unique_keys(s),
                forall|j: int| 0 <= j < s.len() ==> (#[trigger] s[j]).0.1 < usize::MAX,
                i <= s.len(),
                forall|j: int| 0 <= j < i ==> s[j].0.1 < h,
                h == 0 || exists|j: int| 0 <= j < i && s[j].0.1 + 1 == h,
            decreases s.len() - i,
        {
            let row = self.data[i].0.1;
            if row + 1 > h {
                h = row + 1;
            }
            i += 1;
        }
        proof {
            assert forall|q: Pos| self@.contains_key(q) implies q.1 < h by {
                let j = choose|j: int| 0 <= j < s.len() && s[j].0 == q;
            }
            if h > 0 {
                let j = choose|j: int| 0 <= j < i && s[j].0.1 + 1 == h;
                lemma_entry(s, j);
            }
            lemma_height_unique(self@, h as nat);
        }
        h
    }

    /// The number of columns: one more than the largest column index that holds
    /// a cell, or 0 for an empty board.
    pub fn width(&self) -> (r: usize)
        ensures
            is_width(self@, r as nat),
    {
        proof { use_type_invariant(self); }
        let ghost s = self.data@;
        let mut w: usize = 0;
        let mut i: usize = 0;
        while i < self.data.len()
            invariant
                s == self.data@,
                unique_keys(s),
                forall|j: int| 0 <= j < s.len() ==> (#[trigger] s[j]).0.0 < usize::MAX,
                i <= s.len(),
                forall|j: int| 0 <= j < i ==> s[j].0.0 < w,
                w == 0 || exists|j: int| 0 <= j < i && s[j].0.0 + 1 == w,
            decreases s.len() - i,
        {
            let col = self.data[i].0.0;
            if col + 1 > w {
                w = col + 1;
            }
            i += 1;
        }
        proof {
            assert forall|q: Pos| self@.contains_key(q) implies q.0 < w by {
                let j = choose|j: int| 0 <= j < s.len() && s[j].0 == q;
            }
            if w > 0 {
                let j = choose|j: int| 0 <= j < i && s[j].0.0 + 1 == w;
                lemma_entry(s, j);
            }
        }
        w
    }

    /// The players on the board, each once, in the order of `player_order`: the
    /// order in which the cells that hold them were first written.
    pub fn players(&self) -> (r: Vec<Player>)
        ensures
            r@ == self.player_order(),
            r@.no_duplicates(),
            r@.to_set() == occupants(self@),
    {
        proof { use_type_invariant(self); }
        let ghost s = self.data@;
        let mut players: Vec<Player> = Vec::new();
        let mut i: usize = 0;
        while i < self.data.len()
            invariant
                s == self.data@,
                i <= s.len(),
                players@ == first_seen(s.subrange(0, i as int)),
            decreases s.len() - i,
        {
            proof {
                assert(s.subrange(0, i + 1).drop_last() == s.subrange(0, i as int));
                assert(s.subrange(0, i + 1).last() == s[i as int]);
            }
            match self.data[i].1 {
                Slot::Path(p) | Slot::Base(p) => {
                    if !has_player(&players, p) {
                        players.push(p);
                    }
                },
                Slot::Open => {},
            }
            i += 1;
        }
        proof {
            assert(s.subrange(0, s.len() as int) == s);
            lemma_first_seen(s);
            assert forall|p: Player| players@.to_set().contains(p) <==> occupants(self@).contains(p) by {
                if players@.contains(p) {
                    let j = choose|j: int| 0 <= j < s.len() && owner(s[j].1) == Some(p);
                    lemma_entry(s, j);
                }
                if occupants(self@).contains(p) {
                    let q = choose|q: Pos| self@.contains_key(q) && owner(self@[q]) == Some(p);
                    let j = choose|j: int| 0 <= j < s.len() && s[j].0 == q;
                    lemma_entry(s, j);
                }
            }
            assert(players@.to_set() == occupants(self@));
        }
        players
    }

    /// The cells that hold a road of `player`: the subgraph that its roads form.
    pub fn roads_for_player(&self, player: Player) -> (r: Path)
        ensures
            r.cells() == road_cells(self@, player),
            r@.no_duplicates(),
    {
        proof { use_type_invariant(self); }
        let ghost s = self.data@;
        let mut v: Vec<Pos> = Vec::new();
        let mut i: usize = 0;
        while i < self.data.len()
            invariant
                s == self.data@,
                i <= s.len(),
                forall|q: Pos|
                    #![trigger v@.contains(q)]
                    v@.contains(q) <==> exists|j: int|
                        0 <= j < i && s[j].0 == q && s[j].1 == Slot::Path(player),
            decreases s.len() - i,
        {
            let (pos, slot) = self.data[i];
            let ghost before = v@;
            if slot == Slot::Path(player) {
                v.push(pos);
            }
            proof {
                assert forall|q: Pos|
                    v@.contains(q) <==> exists|j: int|
                        0 <= j < i + 1 && s[j].0 == q && s[j].1 == Slot::Path(player) by {
                    if v@.contains(q) {
                        let k = choose|k: int| 0 <= k < v@.len() && v@[k] == q;
                        if k < before.len() {
                            assert(before[k] == q);
                            assert(before.contains(q));
                            let j = choose|j: int|
                                0 <= j < i && s[j].0 == q && s[j].1 == Slot::Path(player);
                            assert(0 <= j < i + 1 && s[j].0 == q && s[j].1 == Slot::Path(player));
                        } else {
                            assert(s[i as int].0 == q && s[i as int].1 == Slot::Path(player));
                        }
                    }
                    if exists|j: int| 0 <= j < i + 1 && s[j].0 == q && s[j].1 == Slot::Path(player) {
                        let j = choose|j: int|
                            0 <= j < i + 1 && s[j].0 == q && s[j].1 == Slot::Path(player);
                        if j < i {
                            assert(before.contains(q));
                            let k = choose|k: int| 0 <= k < before.len() && before[k] == q;
                            assert(v@[k] == q);
                        } else {
                            assert(v@[before.len() as int] == q);
                        }
                    }
                }
            }
            i += 1;
        }
        let r = Path::new_with_data(v);
        proof {
            assert forall|q: Pos| r.cells().contains(q) <==> road_cells(self@, player).contains(q) by {
                if v@.contains(q) {
                    let j = choose|j: int| 0 <= j < s.len() && s[j].0 == q && s[j].1 == Slot::Path(player);
                    lemma_entry(s, j);
                }
                if road_cells(self@, player).contains(q) {
                    let j = choose|j: int| 0 <= j < s.len() && s[j].0 == q;
                    lemma_entry(s, j);
                    assert(v@.contains(q));
                }
            }
            assert(r.cells() == road_cells(self@, player));
        }
        r
    }

    /// Writes the symbols of `val` into a new row below the board, from column 0
    /// on.
    pub fn push_str(&mut self, val: &str)
        requires
            height_of(old(self)@) < usize::MAX,
        ensures
            final(self)@ == with_row(old(self)@, height_of(old(self)@), val@),
            final(self).player_order() == with_line_players(old(self).player_order(), val@),
    {
        let ghost board = self@;
        let ghost order = self.player_order();
        let h = self.height();
        proof { lemma_height_unique(board, h as nat); }
        let n = val.unicode_len();
        let mut i: usize = 0;
        while i < n
            invariant
                n == val@.len(),
                i <= n,
                h == height_of(board),
                h < usize::MAX,
                self@ == with_row(board, h as nat, val@.subrange(0, i as int)),
                is_height(board, h as nat),
                self.player_order() == with_line_players(order, val@.subrange(0, i as int)),
            decreases n - i,
        {
            let slot = Slot::new(val.get_char(i));
            proof {
                assert(!self@.contains_key(Pos(i, h)));
                let line = val@.subrange(0, i + 1);
                assert(line.drop_last() == val@.subrange(0, i as int));
                assert(line.last() == val@[i as int]);
            }
            self.insert(Pos(i, h), slot);
            proof {
                let line = val@.subrange(0, i + 1);
                assert forall|q: Pos|
                    #[trigger] self@.contains_key(q) <==> with_row(
                        board,
                        h as nat,
                        line,
                    ).contains_key(q) by {}
                assert forall|q: Pos| #[trigger]
                    self@.contains_key(q) implies self@[q] == with_row(board, h as nat, line)[q] by {
                    if q.1 == h && q.0 < i {
                        assert(line[q.0 as int] == val@.subrange(0, i as int)[q.0 as int]);
                    }
                }
                assert(self@ == with_row(board, h as nat, line));
            }
            i += 1;
        }
        assert(val@.subrange(0, n as int) == val@);
    }

    /// A board of one row, row 0, holding the symbols of `val`.
    pub fn new_from(val: &str) -> (r: Grid)
        ensures
            r@ == with_row(Map::empty(), 0, val@),
            r.player_order() == with_line_players(Seq::empty(), val@),
    {
        let mut r = Grid::new();
        proof { lemma_height_unique(Map::empty(), 0); }
        r.push_str(val);
        r
    }
}

} // verus!
