use longest_road::grid::{Grid, Player};
use longest_road::score::winner;

fn grid_of(rows: &[&str]) -> Grid {
    let mut g = Grid::new();
    for row in rows {
        g.push_str(row);
    }
    g
}

#[test]
fn two_rows_give_the_road_of_two() {
    let g = grid_of(&["aA", "a."]);
    assert_eq!(winner(&g), Some((Player('a', 'A'), 2)));
}

#[test]
fn equal_roads_keep_the_first_player() {
    let g = grid_of(&["ab"]);
    assert_eq!(winner(&g), Some((Player('a', 'A'), 1)));
}

#[test]
fn equal_roads_keep_the_first_player_whichever_letter() {
    let g = grid_of(&["b.a"]);
    assert_eq!(winner(&g), Some((Player('b', 'B'), 1)));
}

#[test]
fn empty_input_has_no_winner() {
    let g = Grid::new();
    assert!(g.players().is_empty());
    assert_eq!(winner(&g), None);
}

#[test]
fn bases_alone_never_win() {
    let g = grid_of(&["AB", "BA"]);
    assert_eq!(g.players().len(), 2);
    assert_eq!(winner(&g), None);
}

#[test]
fn open_cells_alone_have_no_winner() {
    let g = grid_of(&["...", " ?!"]);
    assert_eq!(winner(&g), None);
}

#[test]
fn longer_road_wins_over_earlier_player() {
    let g = grid_of(&["aA.bbb", "a..B.b"]);
    assert_eq!(winner(&g), Some((Player('b', 'B'), 4)));
}

#[test]
fn branching_road_wins_with_two_arms() {
    let g = grid_of(&[
        "ccc.....",
        ".c..dddd",
        ".c......",
        "CcC.D...",
    ]);
    assert_eq!(winner(&g), Some((Player('c', 'C'), 5)));
}
