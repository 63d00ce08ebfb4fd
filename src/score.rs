use vstd::prelude::*;

use crate::grid::{occupants, road_cells, Grid, Player, Slot};
use crate::path::{lemma_longest_road_is, lemma_no_cells, longest_road};
use crate::pos::Pos;

verus! {

/// The length of the longest road of `player` on `board`.
pub open spec fn road_length(board: Map<Pos, Slot>, player: Player) -> nat {
    longest_road(road_cells(board, player))
}

/// The player with the longest road and its length.
///
/// The players are taken in the order of `Grid::players`; one replaces the
/// current winner only with a strictly longer road, so among equal lengths the
/// first stays, and a player whose road length is 0 never wins. `None` when no
/// player has a road.
pub fn winner(grid: &Grid) -> (r: Option<(Player, usize)>)
    ensures
        r is None <==> forall|p: Player| occupants(grid@).contains(p) ==> road_length(grid@, p) == 0,
        r matches Some((p, n)) ==> {
            &&& occupants(grid@).contains(p)
            &&& n > 0
            &&& road_length(grid@, p) == n
            &&& forall|q: Player| occupants(grid@).contains(q) ==> road_length(grid@, q) <= n
            &&& exists|i: int|
                0 <= i < grid.player_order().len() && grid.player_order()[i] == p && forall|j: int|
                    0 <= j < i ==> road_length(grid@, #[trigger] grid.player_order()[j]) < n
        },
{
    let players = grid.players();
    let ghost order = players@;
    let mut best: Option<(Player, usize)> = None;
    let mut longest: usize = 0;
    let ghost mut at: int = 0;
    let mut i: usize = 0;
    while i < players.len()
        invariant
            order == players@,
            order == grid.player_order(),
            i <= order.len(),
            forall|j: int| 0 <= j < i ==> road_length(grid@, #[trigger] order[j]) <= longest,
            best is None ==> longest == 0,
            best matches Some((p, n)) ==> {
                &&& n == longest
                &&& n > 0
                &&& 0 <= at < i
                &&& order[at] == p
                &&& road_length(grid@, p) == n
                &&& forall|j: int| 0 <= j < at ==> road_length(grid@, #[trigger] order[j]) < n
            },
        decreases order.len() - i,
    {
        let player = players[i];
        let roads = grid.roads_for_player(player);
        let length = match roads.get_longest_path() {
            Some(p) => {
                proof { lemma_longest_road_is(roads.cells(), p@.len()); }
                p.len()
            },
            None => {
                proof { lemma_no_cells(roads.cells()); }
                0
            },
        };
        if length > longest {
            longest = length;
            best = Some((player, length));
            proof { at = i as int; }
        }
        i += 1;
    }
    proof {
        assert forall|q: Player| occupants(grid@).contains(q) implies road_length(grid@, q) <= longest by {
            assert(order.to_set().contains(q));
            let j = choose|j: int| 0 <= j < order.len() && order[j] == q;
        }
        if best is Some {
            assert(order.contains(order[at]));
            assert(order.to_set().contains(order[at]));
        }
    }
    best
}

} // verus!
