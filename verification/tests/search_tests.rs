use learn_wgpu::grid::MazeTest;
use learn_wgpu::maze::{Maze, Room};
use learn_wgpu::search::{Direction, StepSearch, BFS, DOWN, LEFT, RIGHT, UP};

/// A maze `w` wide built from rows given top row (y = 0) first.
fn maze_from(rows: &[&str]) -> MazeTest {
    let w = rows[0].len();
    let mut rooms = Vec::new();
    let mut home = (0, 0);
    let mut goal = (0, 0);
    for (y, row) in rows.iter().enumerate() {
        for (x, c) in row.chars().enumerate() {
            rooms.push(match c {
                '#' => Room::Wall,
                'H' => {
                    home = (x, y);
                    Room::Home(0)
                }
                'G' => {
                    goal = (x, y);
                    Room::Goal(0)
                }
                _ => Room::Empty,
            });
        }
    }
    MazeTest { rooms, w, home, goal }
}

#[test]
fn direction_accepts_the_four_unit_steps() {
    for v in [UP, DOWN, RIGHT, LEFT] {
        let d = Direction::try_from(v).unwrap();
        assert_eq!((d.x(), d.y()), v);
    }
    assert_eq!(Direction::up().x(), 0);
    assert_eq!(Direction::up().y(), 1);
    assert_eq!((Direction::down().x(), Direction::down().y()), (0, -1));
    assert_eq!((Direction::right().x(), Direction::right().y()), (1, 0));
    assert_eq!((Direction::left().x(), Direction::left().y()), (-1, 0));
}

#[test]
fn direction_rejects_other_pairs() {
    for v in [(0, 0), (1, 1), (-1, -1), (2, 0), (0, -2), (127, -128)] {
        let e = Direction::try_from(v).unwrap_err();
        assert_eq!(
            e,
            format!("provided value {v:?} does not represent one of the four possible directions")
        );
    }
}

#[test]
fn new_search_waits_on_home() {
    let b = BFS::new((3, 4));
    assert_eq!(b.home(), (3, 4));
    assert_eq!(b.current(), (0, 0));
    assert_eq!(b.frontier_len(), 1);
    assert_eq!(b.parent_of((3, 4)), None);
    assert!(b.goal_step_ready());
    assert!(!b.home_step_ready());
    assert!(b.debug().is_empty());
}

#[test]
fn step_goal_records_empty_neighbours_in_order() {
    // y grows downwards in these pictures: row index is y.
    let m = maze_from(&["#####", "#...#", "#.H.#", "#...#", "#####"]);
    let mut b = BFS::new(m.home);
    assert_eq!(b.step_goal(&m), Some((2, 2)));
    // UP = (0, 1), DOWN = (0, -1), RIGHT = (1, 0), LEFT = (-1, 0)
    assert_eq!(b.parent_of((2, 3)), Some((2, 2)));
    assert_eq!(b.parent_of((2, 1)), Some((2, 2)));
    assert_eq!(b.parent_of((3, 2)), Some((2, 2)));
    assert_eq!(b.parent_of((1, 2)), Some((2, 2)));
    assert_eq!(b.frontier_len(), 4);
    assert_eq!(b.current(), (0, 0));
    // the next expansion takes the oldest waiting cell, (2, 3)
    assert_eq!(b.step_goal(&m), Some((2, 3)));
    assert_eq!(b.parent_of((3, 3)), Some((2, 3)));
    assert_eq!(b.parent_of((1, 3)), Some((2, 3)));
    // the home cell is never recorded as reached
    assert_eq!(b.parent_of((2, 2)), None);
}

#[test]
fn goal_next_to_expanded_cell_stops_the_search() {
    let m = maze_from(&["#####", "#H.G#", "#####"]);
    let mut b = BFS::new(m.home);
    assert_eq!(b.step_goal(&m), Some((1, 1)));
    assert_eq!(b.parent_of((2, 1)), Some((1, 1)));
    assert_eq!(b.step_goal(&m), None);
    assert_eq!(b.current(), (2, 1));
    // the way back: the parent of (2, 1) is home, so we are done at once
    assert!(b.home_step_ready());
    assert_eq!(b.step_home(), None);
    assert_eq!(b.current(), (2, 1));
}

#[test]
fn way_back_follows_parents_to_home() {
    let m = maze_from(&["#######", "#H...G#", "#######"]);
    let mut b = BFS::new(m.home);
    let mut expanded = Vec::new();
    loop {
        assert!(b.goal_step_ready());
        match b.step_goal(&m) {
            Some(v) => expanded.push(v),
            None => break,
        }
    }
    assert_eq!(expanded, vec![(1, 1), (2, 1), (3, 1)]);
    assert_eq!(b.current(), (4, 1));
    let mut back = Vec::new();
    while let Some(v) = b.step_home() {
        back.push(v);
    }
    assert_eq!(back, vec![(3, 1), (2, 1)]);
    assert_eq!(b.current(), (2, 1));
}

#[test]
fn walled_in_home_runs_out_of_cells() {
    let m = maze_from(&["###", "#H#", "###"]);
    let mut b = BFS::new(m.home);
    assert_eq!(b.step_goal(&m), Some((1, 1)));
    assert_eq!(b.frontier_len(), 0);
    assert!(!b.goal_step_ready());
}

#[test]
fn searched_cells_are_expanded_once() {
    let m = maze_from(&["....", ".H..", "....", "...G"]);
    let mut b = BFS::new(m.home);
    let mut seen = std::collections::HashSet::new();
    while let Some(v) = b.step_goal(&m) {
        assert!(seen.insert(v), "cell {v:?} expanded twice");
    }
    assert!(seen.len() <= 16);
}

#[test]
fn debug_lists_the_parents() {
    let m = maze_from(&["#####", "#...#", "#.H.#", "#...#", "#####"]);
    let mut b = BFS::new(m.home);
    b.step_goal(&m);
    let tiles = b.debug();
    assert_eq!(tiles.len(), 4);
    assert!(tiles.iter().all(|t| *t == (2, 2)));
    b.step_goal(&m);
    let mut tiles = b.debug();
    tiles.sort();
    tiles.dedup();
    assert_eq!(tiles, vec![(2, 2), (2, 3)]);
}

#[test]
fn negative_neighbours_wrap_to_large_cells() {
    // home on the left edge of an open maze: the maze answers wall there,
    // so nothing at x = -1 is recorded.
    let m = maze_from(&["...", "H..", "..G"]);
    let mut b = BFS::new(m.home);
    assert_eq!(b.step_goal(&m), Some((0, 1)));
    assert_eq!(b.parent_of((usize::MAX, 1)), None);
    assert_eq!(m.get(-1, 1), Room::Wall);
}

#[test]
fn cells_at_the_edge_of_isize_are_not_ready() {
    let b = BFS::new((isize::MAX as usize, 0));
    assert!(!b.goal_step_ready());
    let b = BFS::new((0, isize::MIN as usize));
    assert!(!b.goal_step_ready());
    let b = BFS::new((isize::MAX as usize - 1, 5));
    assert!(b.goal_step_ready());
}

#[test]
fn cells_are_expanded_in_order_of_distance() {
    // open room: the distance of a cell from home is its Manhattan distance
    let m = maze_from(&[
        "#########",
        "#.......#",
        "#.......#",
        "#...H...#",
        "#.......#",
        "#.......#",
        "#######G#",
    ]);
    let mut b = BFS::new(m.home);
    let mut last = 0;
    while let Some(v) = b.step_goal(&m) {
        let d = v.0.abs_diff(m.home.0) + v.1.abs_diff(m.home.1);
        assert!(d >= last, "cell {v:?} at distance {d} came after distance {last}");
        assert!(d <= last + 1);
        last = d;
    }
    // the goal sits below (7, 5); the search reached it from there
    assert_eq!(b.current(), (7, 5));
    let mut steps = 1;
    while b.step_home().is_some() {
        steps += 1;
    }
    // (7, 5) is 5 links from home at (4, 3)
    assert_eq!(steps, 5);
}

#[test]
fn search_does_not_wrap_past_the_right_edge() {
    // home in the last column: stepping right leaves the grid
    let m = maze_from(&["..H", "...", "G.."]);
    let mut b = BFS::new(m.home);
    assert_eq!(b.step_goal(&m), Some((2, 0)));
    assert_eq!(m.get(3, 0), Room::Wall);
    assert_eq!(b.parent_of((3, 0)), None);
    assert_eq!(b.parent_of((2, 1)), Some((2, 0)));
    assert_eq!(b.parent_of((1, 0)), Some((2, 0)));
    assert_eq!(b.frontier_len(), 2);
}

#[test]
fn run_without_goal_expands_every_reachable_cell_once() {
    // four empty rooms reachable from home; the goal is walled off
    let m = maze_from(&["#####", "#H..#", "#.#.#", "#####", "##G##"]);
    let mut b = BFS::new(m.home);
    let mut expanded = Vec::new();
    while b.goal_step_ready() {
        match b.step_goal(&m) {
            Some(v) => expanded.push(v),
            None => panic!("the goal cannot be reached"),
        }
    }
    assert_eq!(expanded.len(), 4 + 1);
    assert_eq!(expanded[0], m.home);
    let mut distinct = expanded.clone();
    distinct.sort();
    distinct.dedup();
    assert_eq!(distinct.len(), expanded.len());
    assert_eq!(b.frontier_len(), 0);
}

#[test]
fn reached_cells_are_empty_and_lead_home() {
    let m = maze_from(&["#######", "#H.#..#", "#..#.##", "#.....#", "####.G#"]);
    let mut b = BFS::new(m.home);
    while let Some(_) = b.step_goal(&m) {}
    let h = m.rooms.len() / m.w;
    for y in 0..h {
        for x in 0..m.w {
            let Some(mut p) = b.parent_of((x, y)) else {
                continue;
            };
            assert_eq!(m.get(x as isize, y as isize), Room::Empty);
            assert_ne!((x, y), m.home);
            let mut c = (x, y);
            let mut links = 0;
            loop {
                assert_eq!(c.0.abs_diff(p.0) + c.1.abs_diff(p.1), 1);
                links += 1;
                if p == m.home {
                    break;
                }
                c = p;
                p = b.parent_of(c).expect("every parent is reached or home");
                assert!(links < m.rooms.len());
            }
        }
    }
}

#[test]
fn goal_found_then_walked_back_along_a_shortest_way() {
    // the goal at (5, 4) sits below (5, 3); the shortest walk from home at
    // (1, 1) to (5, 3) has 6 moves
    let m = maze_from(&["#######", "#H....#", "#.##..#", "#.....#", "#####G#"]);
    let mut b = BFS::new(m.home);
    while let Some(_) = b.step_goal(&m) {}
    let c0 = b.current();
    assert_eq!(c0, (5, 3));
    let mut back = Vec::new();
    while let Some(v) = b.step_home() {
        back.push(v);
    }
    // 6 links: 5 cells strictly between the cursor and home, then None
    assert_eq!(back.len(), 5);
    let mut prev = c0;
    for v in &back {
        assert_ne!(*v, m.home);
        assert_eq!(prev.0.abs_diff(v.0) + prev.1.abs_diff(v.1), 1);
        prev = *v;
    }
    assert_eq!(prev.0.abs_diff(m.home.0) + prev.1.abs_diff(m.home.1), 1);
    assert_eq!(b.step_home(), None);
}
