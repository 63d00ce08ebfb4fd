use longest_road::grid::{Grid, Player};
use longest_road::path::{Path, PathResult};
use longest_road::pos::Pos;

fn path_of(cells: &[(usize, usize)]) -> Path {
    Path::new_with_data(cells.iter().map(|&(c, r)| Pos(c, r)).collect())
}

fn longest_len(p: &Path) -> usize {
    match p.get_longest_path() {
        Some(route) => route.len(),
        None => 0,
    }
}

/// Checks that `route` walks through cells of `graph` one grid step at a time
/// without visiting a cell twice.
fn is_route(graph: &Path, route: &Path) -> bool {
    let cells = route.positions();
    for (i, c) in cells.iter().enumerate() {
        if !graph.contains(c) {
            return false;
        }
        if cells[..i].contains(c) {
            return false;
        }
        if i > 0 && !cells[i - 1].adjacent(*c) {
            return false;
        }
    }
    true
}

#[test]
fn new_with_data_keeps_each_cell_once() {
    let p = path_of(&[(0, 0), (1, 0), (0, 0), (2, 0), (1, 0)]);
    assert_eq!(p.len(), 3);
    assert_eq!(p.positions(), vec![Pos(0, 0), Pos(1, 0), Pos(2, 0)]);
}

#[test]
fn insert_adds_only_new_cells() {
    let mut p = Path::new();
    assert!(p.is_empty());
    assert!(p.insert(Pos(1, 1)));
    assert!(!p.insert(Pos(1, 1)));
    assert!(p.insert(Pos(2, 1)));
    assert_eq!(p.positions(), vec![Pos(1, 1), Pos(2, 1)]);
}

#[test]
fn append_moves_missing_cells_and_empties_the_other() {
    let mut p = path_of(&[(0, 0), (1, 0)]);
    let mut q = path_of(&[(1, 0), (2, 0), (3, 0)]);
    p.append(&mut q);
    assert!(q.is_empty());
    assert_eq!(p.positions(), vec![Pos(0, 0), Pos(1, 0), Pos(2, 0), Pos(3, 0)]);
}

#[test]
fn clone_keeps_the_cells_in_order() {
    let p = path_of(&[(5, 5), (5, 6), (4, 6)]);
    assert_eq!(p.clone().positions(), p.positions());
}

#[test]
fn adjacent_cells_outside_the_exclusion() {
    let g = path_of(&[(1, 1), (0, 1), (2, 1), (1, 0), (1, 2), (2, 2)]);
    let none = Path::new();
    let all = g.get_adjacent(Pos(1, 1), &none);
    assert_eq!(all.positions(), vec![Pos(0, 1), Pos(2, 1), Pos(1, 0), Pos(1, 2)]);
    assert_eq!(g.num_paths_from(Pos(1, 1), &none), 4);
    let excl = path_of(&[(0, 1), (1, 0)]);
    let some = g.get_adjacent(Pos(1, 1), &excl);
    assert_eq!(some.positions(), vec![Pos(2, 1), Pos(1, 2)]);
    assert_eq!(g.num_paths_from(Pos(1, 1), &excl), 2);
    assert!(g.has_adjacent(Pos(1, 1), &excl));
    let every = path_of(&[(0, 1), (1, 0), (2, 1), (1, 2)]);
    assert!(!g.has_adjacent(Pos(1, 1), &every));
    assert_eq!(g.num_paths_from(Pos(1, 1), &every), 0);
}

#[test]
fn adjacent_cells_of_a_cell_outside_the_path() {
    let g = path_of(&[(0, 0), (0, 1)]);
    let none = Path::new();
    assert_eq!(g.get_adjacent(Pos(1, 1), &none).positions(), vec![Pos(0, 1)]);
    assert!(!g.has_adjacent(Pos(5, 5), &none));
}

#[test]
fn follow_path_stops_at_a_cell_outside_the_path() {
    let g = path_of(&[(0, 0), (0, 1)]);
    match g.follow_path(Pos(3, 3), &Path::new()) {
        PathResult::Partial(p, pos) => {
            assert!(p.is_empty());
            assert_eq!(pos, Pos(3, 3));
        }
        PathResult::Complete(_) => panic!("a cell outside the path cannot be followed"),
    }
}

#[test]
fn follow_path_stops_at_an_excluded_cell() {
    let g = path_of(&[(0, 0), (0, 1), (0, 2)]);
    let chain = path_of(&[(0, 0), (0, 1)]);
    assert!(matches!(
        g.follow_path(Pos(0, 0), &chain),
        PathResult::Partial(_, Pos(0, 0))
    ));
}

#[test]
fn follow_path_explores_from_a_cell_away_from_the_exclusion() {
    let g = path_of(&[(0, 0), (5, 5), (5, 6)]);
    let excl = path_of(&[(0, 0)]);
    match g.follow_path(Pos(5, 5), &excl) {
        PathResult::Complete(paths) => {
            assert_eq!(paths.len(), 1);
            assert_eq!(paths[0].positions(), vec![Pos(5, 5), Pos(5, 6)]);
        }
        PathResult::Partial(_, _) => panic!("(5, 5) is in the path and not excluded"),
    }
}

#[test]
fn follow_path_skips_excluded_cells_on_the_way() {
    // a line of four; the exclusion cuts it after the second cell
    let g = path_of(&[(0, 0), (1, 0), (2, 0), (3, 0)]);
    let excl = path_of(&[(2, 0)]);
    match g.follow_path(Pos(0, 0), &excl) {
        PathResult::Complete(paths) => {
            assert_eq!(paths.len(), 1);
            assert_eq!(paths[0].positions(), vec![Pos(0, 0), Pos(1, 0)]);
        }
        PathResult::Partial(_, _) => panic!("(0, 0) can be followed"),
    }
}

#[test]
fn follow_path_reports_no_excluded_cell_outside_the_path() {
    let g = path_of(&[(0, 0)]);
    let excl = path_of(&[(5, 5)]);
    match g.follow_path(Pos(0, 0), &excl) {
        PathResult::Complete(paths) => {
            assert_eq!(paths.len(), 1);
            assert_eq!(paths[0].positions(), vec![Pos(0, 0)]);
        }
        PathResult::Partial(_, _) => panic!("(0, 0) is in the path and not excluded"),
    }
}

#[test]
fn follow_path_lists_every_branch() {
    // a "T": junction (1, 0), arms (0, 0), (2, 0) and (1, 1)
    let g = path_of(&[(0, 0), (1, 0), (2, 0), (1, 1)]);
    match g.follow_path(Pos(1, 0), &Path::new()) {
        PathResult::Complete(paths) => {
            let mut found: Vec<Vec<Pos>> = paths.iter().map(|p| p.positions()).collect();
            found.sort();
            assert_eq!(
                found,
                vec![
                    vec![Pos(1, 0), Pos(0, 0)],
                    vec![Pos(1, 0), Pos(1, 1)],
                    vec![Pos(1, 0), Pos(2, 0)],
                ]
            );
        }
        PathResult::Partial(_, _) => panic!("the junction can be followed"),
    }
}

#[test]
fn follow_path_of_an_isolated_cell_is_that_cell() {
    let g = path_of(&[(4, 4)]);
    match g.follow_path(Pos(4, 4), &Path::new()) {
        PathResult::Complete(paths) => {
            assert_eq!(paths.len(), 1);
            assert_eq!(paths[0].positions(), vec![Pos(4, 4)]);
        }
        PathResult::Partial(_, _) => panic!("the cell can be followed"),
    }
}

#[test]
fn all_complete_routes_of_a_line_of_three() {
    let g = path_of(&[(0, 0), (0, 1), (0, 2)]);
    let mut found: Vec<Vec<Pos>> = g.get_adjacent_paths().iter().map(|p| p.positions()).collect();
    found.sort();
    assert_eq!(
        found,
        vec![
            vec![Pos(0, 0), Pos(0, 1), Pos(0, 2)],
            vec![Pos(0, 1), Pos(0, 0)],
            vec![Pos(0, 1), Pos(0, 2)],
            vec![Pos(0, 2), Pos(0, 1), Pos(0, 0)],
        ]
    );
}

#[test]
fn empty_subgraph_has_no_longest_path() {
    let g = Path::new();
    assert!(g.get_longest_path().is_none());
    assert!(g.get_adjacent_paths().is_empty());
}

#[test]
fn single_cell_has_longest_path_one() {
    let g = path_of(&[(7, 3)]);
    let route = g.get_longest_path().unwrap();
    assert_eq!(route.len(), 1);
    assert_eq!(route.positions(), vec![Pos(7, 3)]);
}

#[test]
fn straight_lines_have_their_own_length() {
    for n in 1..8 {
        let across: Vec<(usize, usize)> = (0..n).map(|i| (i + 2, 5)).collect();
        assert_eq!(longest_len(&path_of(&across)), n);
        let down: Vec<(usize, usize)> = (0..n).map(|i| (0, n - 1 - i)).collect();
        assert_eq!(longest_len(&path_of(&down)), n);
    }
}

#[test]
fn t_junction_joins_the_two_longest_arms() {
    // junction (3, 0); left arm 3, right arm 1, lower arm 2
    let g = path_of(&[(3, 0), (3, 1), (2, 0), (4, 0), (1, 0), (3, 2), (0, 0)]);
    let route = g.get_longest_path().unwrap();
    assert_eq!(route.len(), 6);
    assert!(is_route(&g, &route));
}

#[test]
fn t_junction_found_from_any_starting_cell() {
    // a search from the first cell listed alone finds a shorter route: from
    // the junction, or from the end of the shortest arm
    let g = path_of(&[(2, 1), (2, 0), (1, 1), (0, 1), (3, 1), (4, 1), (5, 1)]);
    assert_eq!(longest_len(&g), 6);
    let h = path_of(&[(2, 0), (2, 1), (1, 1), (0, 1), (3, 1), (4, 1), (5, 1)]);
    assert_eq!(longest_len(&h), 6);
}

#[test]
fn plus_shape_uses_two_arms_only() {
    let g = path_of(&[(2, 2), (1, 2), (0, 2), (3, 2), (2, 1), (2, 0), (2, 3)]);
    let route = g.get_longest_path().unwrap();
    assert_eq!(route.len(), 5);
    assert!(is_route(&g, &route));
}

#[test]
fn a_square_is_walked_round() {
    let g = path_of(&[(0, 0), (1, 0), (1, 1), (0, 1)]);
    assert_eq!(longest_len(&g), 4);
}

#[test]
fn two_separate_roads_count_the_longer_one() {
    let g = path_of(&[(0, 0), (0, 1), (5, 5), (6, 5), (7, 5)]);
    assert_eq!(longest_len(&g), 3);
}

#[test]
fn a_full_block_is_walked_as_a_snake() {
    let mut cells = vec![];
    for r in 0..3 {
        for c in 0..3 {
            cells.push((c, r));
        }
    }
    let g = path_of(&cells);
    let route = g.get_longest_path().unwrap();
    assert_eq!(route.len(), 9);
    assert!(is_route(&g, &route));
}

#[test]
fn longest_path_twice_gives_equal_lengths() {
    let g = path_of(&[(1, 1), (0, 1), (2, 1), (1, 0), (1, 2), (2, 2), (3, 2)]);
    let first = g.get_longest_path().unwrap();
    let second = g.get_longest_path().unwrap();
    assert_eq!(first.len(), second.len());
    assert_eq!(first.len(), 5);
}

#[test]
fn roads_of_a_board_feed_the_solver() {
    let mut grid = Grid::new();
    grid.push_str("aaa.");
    grid.push_str(".a..");
    grid.push_str(".aA.");
    let roads = grid.roads_for_player(Player('a', 'A'));
    assert_eq!(roads.len(), 5);
    assert_eq!(longest_len(&roads), 4);
}

#[test]
fn t_junction_pointing_up_joins_the_two_longest_arms() {
    // junction (2, 3); left arm 2, right arm 1, upper arm 3
    let g = path_of(&[(2, 3), (1, 3), (0, 3), (3, 3), (2, 2), (2, 1), (2, 0)]);
    let route = g.get_longest_path().unwrap();
    assert_eq!(route.len(), 6);
    assert!(is_route(&g, &route));
}

#[test]
fn a_cell_has_at_most_four_neighbours() {
    let g = path_of(&[(1, 1), (0, 1), (2, 1), (1, 0), (1, 2), (0, 0), (2, 2)]);
    assert_eq!(g.num_paths_from(Pos(1, 1), &Path::new()), 4);
    assert_eq!(g.num_paths_from(Pos(0, 0), &Path::new()), 2);
}

#[test]
fn y_junction_with_bent_arms_joins_the_two_longest() {
    // junction (2, 2); arms of 4 (bending up), 2 (straight) and 5 (bending right)
    let g = path_of(&[
        (2, 2),
        (1, 2),
        (0, 2),
        (0, 1),
        (0, 0),
        (3, 2),
        (4, 2),
        (2, 3),
        (2, 4),
        (3, 4),
        (4, 4),
        (5, 4),
    ]);
    let route = g.get_longest_path().unwrap();
    assert_eq!(route.len(), 10);
    assert!(is_route(&g, &route));
}
