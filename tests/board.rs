use longest_road::grid::{Grid, Player, Slot};
use longest_road::pos::Pos;

fn grid_of(rows: &[&str]) -> Grid {
    let mut g = Grid::new();
    for row in rows {
        g.push_str(row);
    }
    g
}

#[test]
fn adjacent_cells_share_an_edge() {
    assert!(Pos(0, 0).adjacent(Pos(0, 1)));
    assert!(Pos(0, 1).adjacent(Pos(0, 0)));
    assert!(Pos(2, 3).adjacent(Pos(3, 3)));
    assert!(Pos(3, 3).adjacent(Pos(2, 3)));
}

#[test]
fn diagonal_and_equal_cells_are_not_adjacent() {
    assert!(!Pos(0, 0).adjacent(Pos(1, 1)));
    assert!(!Pos(2, 2).adjacent(Pos(2, 2)));
    assert!(!Pos(0, 0).adjacent(Pos(0, 2)));
}

#[test]
fn no_wraparound_at_the_edges() {
    assert!(!Pos(0, 0).adjacent(Pos(usize::MAX, 0)));
    assert!(!Pos(0, 0).adjacent(Pos(0, usize::MAX)));
    assert!(Pos(usize::MAX, 5).adjacent(Pos(usize::MAX - 1, 5)));
}

#[test]
fn lower_case_letters_are_roads() {
    assert_eq!(Slot::new('a'), Slot::Path(Player('a', 'A')));
    assert_eq!(Slot::new('m'), Slot::Path(Player('m', 'M')));
    assert_eq!(Slot::new('z'), Slot::Path(Player('z', 'Z')));
}

#[test]
fn upper_case_letters_are_bases() {
    assert_eq!(Slot::new('A'), Slot::Base(Player('a', 'A')));
    assert_eq!(Slot::new('Q'), Slot::Base(Player('q', 'Q')));
    assert_eq!(Slot::new('Z'), Slot::Base(Player('z', 'Z')));
}

#[test]
fn other_symbols_are_open() {
    assert_eq!(Slot::new('.'), Slot::Open);
    assert_eq!(Slot::new(' '), Slot::Open);
    assert_eq!(Slot::new('1'), Slot::Open);
    assert_eq!(Slot::new('@'), Slot::Open);
    assert_eq!(Slot::new('['), Slot::Open);
    assert_eq!(Slot::new('`'), Slot::Open);
    assert_eq!(Slot::new('{'), Slot::Open);
    assert_eq!(Slot::new('é'), Slot::Open);
}

#[test]
fn empty_board_has_no_size_and_no_players() {
    let g = Grid::new();
    assert_eq!(g.height(), 0);
    assert_eq!(g.width(), 0);
    assert!(g.players().is_empty());
    assert_eq!(g.get(Pos(0, 0)), Slot::Open);
}

#[test]
fn rows_are_written_one_below_the_other() {
    let g = grid_of(&["aA", "b."]);
    assert_eq!(g.get(Pos(0, 0)), Slot::Path(Player('a', 'A')));
    assert_eq!(g.get(Pos(1, 0)), Slot::Base(Player('a', 'A')));
    assert_eq!(g.get(Pos(0, 1)), Slot::Path(Player('b', 'B')));
    assert_eq!(g.get(Pos(1, 1)), Slot::Open);
    assert_eq!(g.get(Pos(2, 1)), Slot::Open);
    assert_eq!(g.height(), 2);
    assert_eq!(g.width(), 2);
}

#[test]
fn width_is_the_longest_row() {
    let g = grid_of(&["a", "bbbb", "cc"]);
    assert_eq!(g.width(), 4);
    assert_eq!(g.height(), 3);
}

#[test]
fn an_empty_row_adds_no_height() {
    let g = grid_of(&["", "a"]);
    assert_eq!(g.height(), 1);
    assert_eq!(g.get(Pos(0, 0)), Slot::Path(Player('a', 'A')));
}

#[test]
fn new_from_writes_row_zero() {
    let g = Grid::new_from("x.X");
    assert_eq!(g.height(), 1);
    assert_eq!(g.width(), 3);
    assert_eq!(g.get(Pos(0, 0)), Slot::Path(Player('x', 'X')));
    assert_eq!(g.get(Pos(1, 0)), Slot::Open);
    assert_eq!(g.get(Pos(2, 0)), Slot::Base(Player('x', 'X')));
}

#[test]
fn insert_overwrites_a_cell() {
    let mut g = Grid::new();
    g.insert(Pos(4, 2), Slot::Path(Player('c', 'C')));
    g.insert(Pos(4, 2), Slot::Base(Player('d', 'D')));
    assert_eq!(g.get(Pos(4, 2)), Slot::Base(Player('d', 'D')));
    assert_eq!(g.height(), 3);
    assert_eq!(g.width(), 5);
    assert_eq!(g.players(), vec![Player('d', 'D')]);
}

#[test]
fn players_are_listed_once_in_order_of_first_cell() {
    let g = grid_of(&["bBa", "aAb", "..C"]);
    assert_eq!(
        g.players(),
        vec![Player('b', 'B'), Player('a', 'A'), Player('c', 'C')]
    );
}

#[test]
fn roads_leave_out_bases_and_other_players() {
    let g = grid_of(&["aAb", "a.a"]);
    let roads = g.roads_for_player(Player('a', 'A'));
    assert_eq!(roads.len(), 3);
    assert!(roads.contains(&Pos(0, 0)));
    assert!(roads.contains(&Pos(0, 1)));
    assert!(roads.contains(&Pos(2, 1)));
    assert!(!roads.contains(&Pos(1, 0)));
    assert!(!roads.contains(&Pos(2, 0)));
}

#[test]
fn absent_player_has_no_roads() {
    let g = grid_of(&["aA", "bB"]);
    let roads = g.roads_for_player(Player('c', 'C'));
    assert!(roads.is_empty());
    assert!(roads.get_longest_path().is_none());
}

#[test]
fn a_cloned_board_is_independent() {
    let mut g = Grid::new_from("ab");
    let h = g.clone();
    g.insert(Pos(0, 0), Slot::Open);
    assert_eq!(h.get(Pos(0, 0)), Slot::Path(Player('a', 'A')));
    assert_eq!(g.get(Pos(0, 0)), Slot::Open);
    assert_eq!(h.players(), vec![Player('a', 'A'), Player('b', 'B')]);
}
