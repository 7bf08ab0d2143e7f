use learn_wgpu::frame::{
    frame_step, input_action, maze_tiles, render_failure_action, tile_index, ColorName,
    FrameAction, LoopAction, PaintCell, RenderFailure, WindowInput,
};
use learn_wgpu::grid::MazeTest;
use learn_wgpu::maze::{Maze, Room};
use learn_wgpu::search::BFS;
use learn_wgpu::text::formatted;

fn small() -> MazeTest {
    MazeTest {
        rooms: vec![Room::Empty, Room::Wall, Room::Goal(7), Room::Home(3)],
        w: 2,
        home: (1, 1),
        goal: (0, 1),
    }
}

#[test]
fn get_reads_row_major_storage() {
    let m = small();
    assert_eq!(m.get(0, 0), Room::Empty);
    assert_eq!(m.get(1, 0), Room::Wall);
    assert_eq!(m.get(0, 1), Room::Goal(7));
    assert_eq!(m.get(1, 1), Room::Home(3));
    // an x past the row width is outside the grid
    assert_eq!(m.get(2, 0), Room::Wall);
    assert_eq!(m.get(2, 1), Room::Wall);
}

#[test]
fn get_is_wall_out_of_bounds() {
    let m = small();
    assert_eq!(m.get(-1, 0), Room::Wall);
    assert_eq!(m.get(0, -1), Room::Wall);
    assert_eq!(m.get(0, 2), Room::Wall);
    assert_eq!(m.get(4, 0), Room::Wall);
    assert_eq!(m.get(isize::MAX, isize::MAX), Room::Wall);
    assert_eq!(m.get(isize::MIN, 0), Room::Wall);
}

#[test]
fn set_writes_one_cell() {
    let mut m = small();
    m.set(1, 0, Room::Empty);
    assert_eq!(m.rooms, vec![Room::Empty, Room::Empty, Room::Goal(7), Room::Home(3)]);
    m.set(0, 1, Room::Wall);
    assert_eq!(m.get(0, 1), Room::Wall);
}

#[test]
fn rows_past_the_last_whole_row_are_walls() {
    // five rooms in rows of two: the fifth is not part of a whole row
    let m = MazeTest {
        rooms: vec![Room::Empty, Room::Empty, Room::Empty, Room::Empty, Room::Goal(1)],
        w: 2,
        home: (0, 0),
        goal: (0, 2),
    };
    assert_eq!(m.get(1, 1), Room::Empty);
    assert_eq!(m.get(0, 2), Room::Wall);
}

#[test]
fn place_walls_fills_drawn_empty_rooms() {
    let mut m = small();
    m.place_walls(&vec![0, 3, 0, 2]);
    assert_eq!(m.rooms, vec![Room::Wall, Room::Wall, Room::Goal(7), Room::Home(3)]);
    let mut e = MazeTest { rooms: vec![Room::Empty; 6], w: 3, home: (0, 0), goal: (2, 1) };
    e.place_walls(&vec![]);
    assert_eq!(e.rooms, vec![Room::Empty; 6]);
    e.place_walls(&vec![5, 1, 5]);
    assert_eq!(
        e.rooms,
        vec![Room::Empty, Room::Wall, Room::Empty, Room::Empty, Room::Empty, Room::Wall]
    );
}

#[test]
fn default_maze_keeps_home_and_goal() {
    for _ in 0..5 {
        let m = MazeTest::default();
        assert_eq!(m.w, 128);
        assert_eq!(m.rooms.len(), 128 * 128);
        assert_eq!(m.home, (2, 12));
        assert_eq!(m.goal, (10, 12));
        assert_eq!(m.get(10, 12), Room::Goal(0));
        assert_eq!(m.get(2, 12), Room::Home(0));
        let walls = m.rooms.iter().filter(|r| **r == Room::Wall).count();
        let empty = m.rooms.iter().filter(|r| **r == Room::Empty).count();
        assert_eq!(walls + empty, 128 * 128 - 2);
        assert!(walls <= 5000);
        assert!(walls > 0);
    }
}

#[test]
fn maze_tiles_paint_every_non_empty_room() {
    let m = small();
    let tiles = maze_tiles(&m);
    assert_eq!(
        tiles,
        vec![
            PaintCell { x: 1, y: 0, color: ColorName::Blue },
            PaintCell { x: 0, y: 1, color: ColorName::Green },
            PaintCell { x: 1, y: 1, color: ColorName::Red },
        ]
    );
}

#[test]
fn frame_step_searches_then_walks_back() {
    // a corridor: home at x = 1, goal at x = 5, row y = 1
    let mut rooms = vec![Room::Wall; 7 * 3];
    for x in 2..5 {
        rooms[7 + x] = Room::Empty;
    }
    rooms[7 + 1] = Room::Home(0);
    rooms[7 + 5] = Room::Goal(0);
    let m = MazeTest { rooms, w: 7, home: (1, 1), goal: (5, 1) };
    let mut b = BFS::new(m.home);
    let mut found = false;
    let mut marks = Vec::new();
    for _ in 0..7 {
        let (f, mark) = frame_step(&mut b, &m, found);
        found = f;
        marks.push((found, mark));
    }
    assert_eq!(
        marks,
        vec![
            (false, Some((1, 1))),
            (false, Some((2, 1))),
            (false, Some((3, 1))),
            (true, None),
            (true, Some((3, 3))),
            (true, Some((2, 2))),
            (false, None),
        ]
    );
}

#[test]
fn render_failures_map_to_actions() {
    assert_eq!(render_failure_action(RenderFailure::Lost), FrameAction::Resize);
    assert_eq!(render_failure_action(RenderFailure::OutOfMemory), FrameAction::Exit);
    assert_eq!(render_failure_action(RenderFailure::Timeout), FrameAction::Report);
    assert_eq!(render_failure_action(RenderFailure::Outdated), FrameAction::Report);
}

#[test]
fn tile_index_is_row_major() {
    assert_eq!(tile_index(128, 128, 0, 0), 0);
    assert_eq!(tile_index(128, 128, 3, 2), 259);
    assert_eq!(tile_index(128, 128, 127, 127), 128 * 128 - 1);
}

#[test]
fn formatted_wraps_the_type_in_colour() {
    assert_eq!(formatted("warning", "\x1b[33m", "hi"), "\x1b[33mwarning: \x1b[0mhi");
    assert_eq!(formatted("", "", ""), ": \x1b[0m");
}

#[test]
fn window_inputs_map_to_loop_actions() {
    assert_eq!(input_action(WindowInput::Resized), LoopAction::Resize);
    assert_eq!(input_action(WindowInput::CloseRequested), LoopAction::Exit);
    assert_eq!(input_action(WindowInput::EscapeKey), LoopAction::Exit);
    assert_eq!(input_action(WindowInput::FrameDue), LoopAction::Frame);
    assert_eq!(input_action(WindowInput::Other), LoopAction::Ignore);
}
