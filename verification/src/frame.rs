use crate::grid::MazeTest;
use crate::maze::{Maze, Room};
use crate::search::{goal_step, goal_step_outcome, home_step, home_step_outcome, StepSearch, BFS};
use vstd::prelude::*;

verus! {

/// The fixed colours that tiles are painted in.
#[derive(Copy, Clone, Debug, PartialEq, Eq, Structural)]
pub enum ColorName {
    Red,
    Green,
    Blue,
    White,
}

/// A tile to paint at the start: its position and colour.
#[derive(Copy, Clone, Debug, PartialEq, Eq, Structural)]
pub struct PaintCell {
    pub x: u32,
    pub y: u32,
    pub color: ColorName,
}

/// The colour a room is shown in; empty rooms are not painted.
pub open spec fn room_color(room: Room) -> Option<ColorName> {
    match room {
        Room::Home(_) => Some(ColorName::Red),
        Room::Goal(_) => Some(ColorName::Green),
        Room::Wall => Some(ColorName::Blue),
        Room::Empty => None,
    }
}

/// The tiles painted for the first `n` rooms of a row-major grid `w` wide,
/// in storage order.
pub open spec fn paint_plan(rooms: Seq<Room>, w: int, n: int) -> Seq<PaintCell>
    decreases n,
{
    if n <= 0 {
        seq![]
    } else {
        let prev = paint_plan(rooms, w, n - 1);
        match room_color(rooms[n - 1]) {
            Some(c) => prev.push(PaintCell { x: ((n - 1) % w) as u32, y: ((n - 1) / w) as u32, color: c }),
            None => prev,
        }
    }
}

/// Whether `t` is the tile that shows the room at storage position `i` of
/// a row-major grid `w` wide: it stands at `(i % w, i / w)`, in red for
/// home, green for a goal and blue for a wall. An empty room has no tile.
pub open spec fn shows_room(rooms: Seq<Room>, w: int, i: int, t: PaintCell) -> bool {
    &&& rooms[i] != Room::Empty
    &&& t.x == (i % w) as u32
    &&& t.y == (i / w) as u32
    &&& t.color == match rooms[i] {
        Room::Home(_) => ColorName::Red,
        Room::Goal(_) => ColorName::Green,
        _ => ColorName::Blue,
    }
}

/// The storage positions, in order, of the rooms among the first `n` that
/// are not empty.
spec fn plan_positions(rooms: Seq<Room>, n: int) -> Seq<int>
    decreases n,
{
    if n <= 0 {
        seq![]
    } else {
        let prev = plan_positions(rooms, n - 1);
        if rooms[n - 1] == Room::Empty {
            prev
        } else {
            prev.push(n - 1)
        }
    }
}

/// The plan of tiles for the first `n` rooms shows exactly the rooms that
/// are not empty, one tile each, in storage order: tile `k` shows the room
/// at `plan_positions(rooms, n)[k]`.
proof fn lemma_paint_plan_shows(rooms: Seq<Room>, w: int, n: int)
    requires
        0 <= n <= rooms.len(),
    ensures
        paint_plan(rooms, w, n).len() == plan_positions(rooms, n).len(),
        forall|k: int|
            0 <= k < plan_positions(rooms, n).len() ==> 0 <= #[trigger] plan_positions(rooms, n)[k]
                < n && shows_room(rooms, w, plan_positions(rooms, n)[k], paint_plan(rooms, w, n)[k]),
        forall|k1: int, k2: int|
            0 <= k1 < k2 < plan_positions(rooms, n).len() ==> #[trigger] plan_positions(rooms, n)[k1]
                < #[trigger] plan_positions(rooms, n)[k2],
        forall|i: int|
            0 <= i < n && rooms[i] != Room::Empty ==> exists|k: int|
                0 <= k < plan_positions(rooms, n).len() && #[trigger] plan_positions(rooms, n)[k] == i,
    decreases n,
{
    if n > 0 {
        lemma_paint_plan_shows(rooms, w, n - 1);
        let prev = plan_positions(rooms, n - 1);
        let at = plan_positions(rooms, n);
        assert forall|i: int| 0 <= i < n && rooms[i] != Room::Empty implies exists|k: int|
            0 <= k < at.len() && #[trigger] at[k] == i by {
            if i < n - 1 {
                let k = choose|k: int| 0 <= k < prev.len() && #[trigger] prev[k] == i;
                assert(at[k] == i);
            } else {
                assert(at[prev.len() as int] == i);
            }
        }
    }
}

/// The tiles to paint for a maze before the search starts: every room that
/// is not empty, at `(i % w, i / w)` for its storage position `i`.
pub fn maze_tiles(maze: &MazeTest) -> (tiles: Vec<PaintCell>)
    requires
        maze.w > 0,
    ensures
        tiles@ == paint_plan(maze.rooms@, maze.w as int, maze.rooms@.len() as int),
        exists|at: Seq<int>|
            #![trigger at.len()]
            at.len() == tiles@.len() && (forall|k: int|
                0 <= k < at.len() ==> 0 <= #[trigger] at[k] < maze.rooms@.len() && shows_room(
                    maze.rooms@,
                    maze.w as int,
                    at[k],
                    tiles@[k],
                )) && (forall|k1: int, k2: int|
                0 <= k1 < k2 < at.len() ==> #[trigger] at[k1] < #[trigger] at[k2]) && (forall|i: int|
                0 <= i < maze.rooms@.len() && maze.rooms@[i] != Room::Empty ==> exists|k: int|
                    0 <= k < at.len() && #[trigger] at[k] == i),
{
    let mut tiles: Vec<PaintCell> = Vec::new();
    let n = maze.rooms.len();
    let w = maze.w;
    let mut i: usize = 0;
    while i < n
        invariant
            i <= n,
            n == maze.rooms@.len(),
            w == maze.w,
            w > 0,
            tiles@ == paint_plan(maze.rooms@, w as int, i as int),
        decreases n - i,
    {
        let color = match maze.rooms[i] {
            Room::Home(_) => Some(ColorName::Red),
            Room::Goal(_) => Some(ColorName::Green),
            Room::Wall => Some(ColorName::Blue),
            Room::Empty => None,
        };
        match color {
            Some(c) => tiles.push(PaintCell { x: (i % w) as u32, y: (i / w) as u32, color: c }),
            None => {},
        }
        i += 1;
    }
    proof {
        let len = maze.rooms@.len() as int;
        lemma_paint_plan_shows(maze.rooms@, w as int, len);
        let at = plan_positions(maze.rooms@, len);
        assert(at.len() == tiles@.len());
    }
    tiles
}

/// The result of one frame of the animation when the goal was not found
/// yet and `step_goal` gave `s`: the new `found` flag and the tile to mark.
pub open spec fn goal_frame(s: Option<(usize, usize)>) -> (bool, Option<(u32, u32)>) {
    match s {
        Some(v) => (false, Some((v.0 as u32, v.1 as u32))),
        None => (true, None),
    }
}

/// The result of one frame of the animation on the way back when
/// `step_home` gave `s`. The mark uses the x coordinate for both axes.
pub open spec fn home_frame(s: Option<(usize, usize)>) -> (bool, Option<(u32, u32)>) {
    match s {
        Some(v) => (true, Some((v.0 as u32, v.0 as u32))),
        None => (false, None),
    }
}

/// One frame of the animation: until the goal is found, expand one cell
/// and mark it; afterwards walk back one cell towards home and mark it.
/// Returns the new `found` flag and the tile to mark, if any; walking back
/// all the way home starts the search outwards again.
pub fn frame_step<T: Maze>(bfs: &mut BFS, maze: &T, found: bool) -> (r: (bool, Option<(u32, u32)>))
    requires
        found ==> old(bfs).can_step_home(),
        !found ==> old(bfs).can_step_goal(),
    ensures
        final(bfs).wf(),
        !found ==> goal_step(*old(bfs), *final(bfs), *maze, goal_step_outcome(*old(bfs), *maze))
            && r == goal_frame(goal_step_outcome(*old(bfs), *maze)),
        found ==> home_step(*old(bfs), *final(bfs), home_step_outcome(*old(bfs)))
            && r == home_frame(home_step_outcome(*old(bfs))),
{
    if !found {
        match bfs.step_goal(maze) {
            Some(v) => (false, Some((v.0 as u32, v.1 as u32))),
            None => (true, None),
        }
    } else {
        match bfs.step_home() {
            Some(v) => (true, Some((v.0 as u32, v.0 as u32))),
            None => (false, None),
        }
    }
}

/// The ways presenting a frame can fail.
#[derive(Copy, Clone, Debug, PartialEq, Eq, Structural)]
pub enum RenderFailure {
    Timeout,
    Outdated,
    Lost,
    OutOfMemory,
}

/// What the frame loop does about a failed frame.
#[derive(Copy, Clone, Debug, PartialEq, Eq, Structural)]
pub enum FrameAction {
    /// Configure the surface again at the current size.
    Resize,
    /// Leave the loop.
    Exit,
    /// Report the failure and go on.
    Report,
}

/// A lost surface is configured again, running out of memory ends the
/// loop, anything else is reported.
pub fn render_failure_action(f: RenderFailure) -> (a: FrameAction)
    ensures
        a == (match f {
            RenderFailure::Lost => FrameAction::Resize,
            RenderFailure::OutOfMemory => FrameAction::Exit,
            _ => FrameAction::Report,
        }),
{
    match f {
        RenderFailure::Lost => FrameAction::Resize,
        RenderFailure::OutOfMemory => FrameAction::Exit,
        _ => FrameAction::Report,
    }
}

/// What the window reports to the frame loop.
#[derive(Copy, Clone, Debug, PartialEq, Eq, Structural)]
pub enum WindowInput {
    /// The window changed size.
    Resized,
    /// The window was asked to close.
    CloseRequested,
    /// The Escape key went down or up.
    EscapeKey,
    /// Everything pending was handled: time for the next frame.
    FrameDue,
    /// Anything else.
    Other,
}

/// What the frame loop does on an input from the window.
#[derive(Copy, Clone, Debug, PartialEq, Eq, Structural)]
pub enum LoopAction {
    /// Configure the surface again at the new size.
    Resize,
    /// Leave the loop.
    Exit,
    /// Take one step of the search and draw a frame.
    Frame,
    /// Nothing.
    Ignore,
}

/// A close request or the Escape key ends the loop, a new size reconfigures
/// the surface, and a new frame is drawn once all pending input is handled.
pub fn input_action(i: WindowInput) -> (a: LoopAction)
    ensures
        a == (match i {
            WindowInput::Resized => LoopAction::Resize,
            WindowInput::CloseRequested => LoopAction::Exit,
            WindowInput::EscapeKey => LoopAction::Exit,
            WindowInput::FrameDue => LoopAction::Frame,
            WindowInput::Other => LoopAction::Ignore,
        }),
{
    match i {
        WindowInput::Resized => LoopAction::Resize,
        WindowInput::CloseRequested | WindowInput::EscapeKey => LoopAction::Exit,
        WindowInput::FrameDue => LoopAction::Frame,
        WindowInput::Other => LoopAction::Ignore,
    }
}

/// The position of tile `(x, y)` among the tiles of a grid `w` wide and
/// `h` high, stored row by row.
pub fn tile_index(w: u32, h: u32, x: u32, y: u32) -> (i: usize)
    requires
        x < w,
        y < h,
        x + y * w <= u32::MAX,
    ensures
        i == x + y * w,
{
    (x + y * w) as usize
}

} // verus!
