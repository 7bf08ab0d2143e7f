use crate::maze::{Maze, Room};
use crate::random::{gen_index, thread_rng};
use vstd::prelude::*;

verus! {

/// A maze stored row by row: the room at `(x, y)` is `rooms[y * w + x]`,
/// for `x < w` and `y` below the number of whole rows.
pub struct MazeTest {
    pub rooms: Vec<Room>,
    pub w: usize,
    pub home: (usize, usize),
    pub goal: (usize, usize),
}

/// The position in row-major storage of `(x, y)` in rows of width `w`.
pub open spec fn grid_index(w: int, x: int, y: int) -> int {
    y * w + x
}

/// Whether `(x, y)` is a cell of a grid `w` wide stored in `len` rooms:
/// `x` lies in a row and `y` below the number of whole rows.
pub open spec fn in_grid(w: int, len: int, x: int, y: int) -> bool {
    0 <= x < w && 0 <= y < len / w
}

proof fn lemma_in_grid_index(w: int, len: int, x: int, y: int)
    requires
        in_grid(w, len, x, y),
        len >= 0,
    ensures
        0 <= grid_index(w, x, y) < len,
{
    let q = len / w;
    assert(q * w <= len) by (nonlinear_arith)
        requires
            q == len / w,
            w > 0,
            len >= 0,
    ;
    assert(y * w + x < q * w) by (nonlinear_arith)
        requires
            0 <= y < q,
            0 <= x < w,
    ;
    assert(0 <= y * w) by (nonlinear_arith)
        requires
            0 <= y,
            0 <= w,
    ;
}

proof fn lemma_grid_index_injective(w: int, x1: int, y1: int, x2: int, y2: int)
    requires
        0 <= x1 < w,
        0 <= x2 < w,
        0 <= y1,
        0 <= y2,
        grid_index(w, x1, y1) == grid_index(w, x2, y2),
    ensures
        x1 == x2 && y1 == y2,
{
    assert(x1 == x2 && y1 == y2) by (nonlinear_arith)
        requires
            0 <= x1 < w,
            0 <= x2 < w,
            0 <= y1,
            0 <= y2,
            y1 * w + x1 == y2 * w + x2,
    ;
}

/// The width and height of the maze that `MazeTest::default` builds.
pub const MAZE_SIDE: usize = 128;

/// How many random cells `MazeTest::default` tries to turn into walls.
pub const WALL_TRIES: usize = 5000;

/// How many of `rooms` are walls.
pub open spec fn wall_count(rooms: Seq<Room>) -> nat
    decreases rooms.len(),
{
    if rooms.len() == 0 {
        0
    } else {
        wall_count(rooms.drop_last()) + if rooms.last() == Room::Wall {
            1nat
        } else {
            0nat
        }
    }
}

proof fn lemma_wall_count_update(rooms: Seq<Room>, i: int, v: Room)
    requires
        0 <= i < rooms.len(),
    ensures
        wall_count(rooms.update(i, v)) + (if rooms[i] == Room::Wall { 1int } else { 0int })
            == wall_count(rooms) + (if v == Room::Wall { 1int } else { 0int }),
    decreases rooms.len(),
{
    let u = rooms.update(i, v);
    if i == rooms.len() - 1 {
        assert(u.drop_last() =~= rooms.drop_last());
    } else {
        assert(u.drop_last() =~= rooms.drop_last().update(i, v));
        lemma_wall_count_update(rooms.drop_last(), i, v);
    }
}

proof fn lemma_wall_count_none(rooms: Seq<Room>)
    requires
        forall|i: int| 0 <= i < rooms.len() ==> rooms[i] != Room::Wall,
    ensures
        wall_count(rooms) == 0,
    decreases rooms.len(),
{
    if rooms.len() > 0 {
        lemma_wall_count_none(rooms.drop_last());
    }
}

impl MazeTest {
    /// Stores `value` at `(x, y)`, which must be a cell of the grid.
    pub fn set(&mut self, x: usize, y: usize, value: Room)
        requires
            in_grid(old(self).w as int, old(self).rooms.len() as int, x as int, y as int),
        ensures
            final(self).rooms@ == old(self).rooms@.update(
                grid_index(old(self).w as int, x as int, y as int),
                value,
            ),
            final(self).w == old(self).w,
            final(self).home == old(self).home,
            final(self).goal == old(self).goal,
    {
        proof {
            lemma_in_grid_index(self.w as int, self.rooms.len() as int, x as int, y as int);
        }
        let i = y * self.w + x;
        self.rooms.set(i, value);
    }

    /// Turns into a wall every room among `draws` that is empty; every
    /// other room stays as it is.
    pub fn place_walls(&mut self, draws: &Vec<usize>)
        requires
            forall|i: int| 0 <= i < draws@.len() ==> #[trigger] draws@[i] < old(self).rooms@.len(),
        ensures
            final(self).rooms@ == with_walls(old(self).rooms@, draws@),
            final(self).rooms@.len() == old(self).rooms@.len(),
            forall|i: int|
                0 <= i < draws@.len() && old(self).rooms@[draws@[i] as int] == Room::Empty
                    ==> #[trigger] final(self).rooms@[draws@[i] as int] == Room::Wall,
            forall|j: int|
                0 <= j < old(self).rooms@.len() && (old(self).rooms@[j] != Room::Empty || forall|i: int|
                    0 <= i < draws@.len() ==> #[trigger] draws@[i] != j)
                    ==> #[trigger] final(self).rooms@[j] == old(self).rooms@[j],
            wall_count(final(self).rooms@) <= wall_count(old(self).rooms@) + draws@.len(),
            final(self).w == old(self).w,
            final(self).home == old(self).home,
            final(self).goal == old(self).goal,
    {
        let ghost start = self.rooms@;
        let room_count = self.rooms.len();
        let mut n: usize = 0;
        while n < draws.len()
            invariant
                n <= draws@.len(),
                forall|i: int| 0 <= i < draws@.len() ==> #[trigger] draws@[i] < start.len(),
                self.rooms@ == with_walls(start, draws@.take(n as int)),
                wall_count(self.rooms@) <= wall_count(start) + n,
                self.w == old(self).w,
                self.home == old(self).home,
                self.goal == old(self).goal,
                start == old(self).rooms@,
                start.len() == room_count,
                self.rooms@.len() == start.len(),
            decreases draws@.len() - n,
        {
            let r = draws[n];
            let ghost before = self.rooms@;
            match self.rooms[r] {
                Room::Empty => {
                    self.rooms.set(r, Room::Wall);
                    proof {
                        lemma_wall_count_update(before, r as int, Room::Wall);
                    }
                },
                _ => {},
            }
            proof {
                let taken = draws@.take(n as int);
                let next = draws@.take(n + 1);
                assert(next =~= taken.push(r));
                assert forall|j: int| 0 <= j < start.len() implies #[trigger] with_walls(start, next)[j]
                    == self.rooms@[j] by {
                    let u = j as usize;
                    assert(u as int == j);
                    if next.contains(u) {
                        let t = choose|t: int| 0 <= t < next.len() && next[t] == u;
                        if t < taken.len() {
                            assert(taken[t] == u);
                        }
                    }
                    if taken.contains(u) {
                        let t = choose|t: int| 0 <= t < taken.len() && taken[t] == u;
                        assert(next[t] == u);
                    }
                    if u == r {
                        assert(next[n as int] == u);
                    }
                }
                assert(self.rooms@ =~= with_walls(start, next));
            }
            n += 1;
        }
        proof {
            assert(draws@.take(draws@.len() as int) =~= draws@);
            assert forall|i: int|
                0 <= i < draws@.len() && start[draws@[i] as int] == Room::Empty implies #[trigger] self.rooms@[draws@[i] as int]
                == Room::Wall by {
                assert(draws@.contains(draws@[i]));
                assert((draws@[i] as int) as usize == draws@[i]);
            }
            assert forall|j: int|
                0 <= j < start.len() && (start[j] != Room::Empty || forall|i: int|
                    0 <= i < draws@.len() ==> #[trigger] draws@[i] != j) implies #[trigger] self.rooms@[j]
                == start[j] by {
                if start[j] == Room::Empty && draws@.contains(j as usize) {
                    let t = choose|t: int| 0 <= t < draws@.len() && draws@[t] == j as usize;
                    assert(draws@[t] != j);
                }
            }
        }
    }
}

/// `rooms` with every empty room whose position is among `draws` made a
/// wall.
pub open spec fn with_walls(rooms: Seq<Room>, draws: Seq<usize>) -> Seq<Room> {
    Seq::new(
        rooms.len(),
        |j: int|
            if rooms[j] == Room::Empty && draws.contains(j as usize) {
                Room::Wall
            } else {
                rooms[j]
            },
    )
}

impl Maze for MazeTest {
    /// The room at a cell of the grid; anything outside the grid (negative,
    /// at or past the row width, at or past the last whole row) is a wall.
    open spec fn room_at(&self, x: isize, y: isize) -> Room {
        if in_grid(self.w as int, self.rooms@.len() as int, x as int, y as int) {
            self.rooms@[grid_index(self.w as int, x as int, y as int)]
        } else {
            Room::Wall
        }
    }

    fn get(&self, x: isize, y: isize) -> (r: Room) {
        if x < 0 || y < 0 {
            return Room::Wall;
        }
        let (ux, uy) = (x as usize, y as usize);
        assert(ux as int == x as int && uy as int == y as int);
        if ux >= self.w {
            return Room::Wall;
        }
        let rows = self.rooms.len() / self.w;
        if uy >= rows {
            return Room::Wall;
        }
        proof {
            lemma_in_grid_index(self.w as int, self.rooms.len() as int, x as int, y as int);
        }
        self.rooms[uy * self.w + ux]
    }
}

/// A read gives back what a write wrote: after `set(x, y, v)` the maze
/// reports `v` at `(x, y)`, and every other coordinate reports what it did
/// before.
pub proof fn lemma_get_after_set(before: MazeTest, after: MazeTest, x: usize, y: usize, v: Room)
    requires
        in_grid(before.w as int, before.rooms.len() as int, x as int, y as int),
        after.rooms@ == before.rooms@.update(grid_index(before.w as int, x as int, y as int), v),
        after.w == before.w,
        x <= isize::MAX,
        y <= isize::MAX,
    ensures
        after.room_at(x as isize, y as isize) == v,
        forall|x2: isize, y2: isize|
            (x2 as int, y2 as int) != (x as int, y as int) ==> #[trigger] after.room_at(x2, y2)
                == before.room_at(x2, y2),
{
    lemma_in_grid_index(before.w as int, before.rooms.len() as int, x as int, y as int);
    assert forall|x2: isize, y2: isize|
        (x2 as int, y2 as int) != (x as int, y as int) implies #[trigger] after.room_at(x2, y2)
        == before.room_at(x2, y2) by {
        if in_grid(before.w as int, before.rooms.len() as int, x2 as int, y2 as int) {
            lemma_in_grid_index(before.w as int, before.rooms.len() as int, x2 as int, y2 as int);
            if grid_index(before.w as int, x2 as int, y2 as int) == grid_index(
                before.w as int,
                x as int,
                y as int,
            ) {
                lemma_grid_index_injective(before.w as int, x2 as int, y2 as int, x as int, y as int);
            }
        }
    }
}

/// The rooms of the maze that `MazeTest::default` starts from: all empty
/// but the goal at `(10, 12)` and home at `(2, 12)`.
pub open spec fn default_base() -> Seq<Room> {
    Seq::new(
        (MAZE_SIDE * MAZE_SIDE) as nat,
        |j: int|
            if j == grid_index(MAZE_SIDE as int, 10, 12) {
                Room::Goal(0)
            } else if j == grid_index(MAZE_SIDE as int, 2, 12) {
                Room::Home(0)
            } else {
                Room::Empty
            },
    )
}

/// Draws a position in `0..bound` from the thread's random number
/// generator.
pub fn draw_index(bound: usize) -> (r: usize)
    requires
        bound > 0,
    ensures
        r < bound,
{
    let mut rng = thread_rng();
    gen_index(&mut rng, bound)
}

impl MazeTest {
    /// A 128 by 128 maze with home at `(2, 12)`, the goal at `(10, 12)`, and
    /// walls on the empty cells among 5000 positions, each what `draw`
    /// gives when asked for a position among all 128 * 128 cells; every
    /// other cell is empty.
    pub fn with_drawn_walls<F: Fn(usize) -> usize>(draw: F) -> (maze: Self)
        requires
            forall|b: usize| b > 0 ==> #[trigger] call_requires(draw, (b,)),
            forall|b: usize, r: usize| #[trigger] call_ensures(draw, (b,), r) ==> r < b,
        ensures
            maze.w == MAZE_SIDE,
            maze.home == (2usize, 12usize),
            maze.goal == (10usize, 12usize),
            maze.rooms@.len() == MAZE_SIDE * MAZE_SIDE,
            exists|draws: Seq<usize>|
                #![trigger with_walls(default_base(), draws)]
                draws.len() == WALL_TRIES && (forall|i: int|
                    0 <= i < draws.len() ==> call_ensures(
                        draw,
                        ((MAZE_SIDE * MAZE_SIDE) as usize,),
                        #[trigger] draws[i],
                    )) && maze.rooms@ == with_walls(default_base(), draws) && (forall|i: int|
                    0 <= i < draws.len() && draws[i] != grid_index(MAZE_SIDE as int, 2, 12)
                        && draws[i] != grid_index(MAZE_SIDE as int, 10, 12)
                        ==> maze.rooms@[#[trigger] draws[i] as int] == Room::Wall) && (forall|j: int|
                    0 <= j < MAZE_SIDE * MAZE_SIDE && j != grid_index(MAZE_SIDE as int, 2, 12) && j
                        != grid_index(MAZE_SIDE as int, 10, 12) && (forall|i: int|
                        0 <= i < draws.len() ==> #[trigger] draws[i] != j) ==> #[trigger] maze.rooms@[j]
                        == Room::Empty),
            maze.rooms@[grid_index(MAZE_SIDE as int, 2, 12)] == Room::Home(0),
            maze.rooms@[grid_index(MAZE_SIDE as int, 10, 12)] == Room::Goal(0),
            wall_count(maze.rooms@) <= WALL_TRIES,
    {
        let w = MAZE_SIDE;
        let mut maze = Self {
            rooms: vec![Room::Empty; w * MAZE_SIDE],
            w,
            home: (2, 12),
            goal: (10, 12),
        };
        maze.set(maze.goal.0, maze.goal.1, Room::Goal(0));
        maze.set(maze.home.0, maze.home.1, Room::Home(0));
        proof {
            assert(maze.rooms@ =~= default_base());
            lemma_wall_count_none(maze.rooms@);
        }
        let mut draws: Vec<usize> = Vec::new();
        let len = maze.rooms.len();
        let mut n: usize = 0;
        while n < WALL_TRIES
            invariant
                n <= WALL_TRIES,
                len == MAZE_SIDE * MAZE_SIDE,
                draws@.len() == n,
                forall|b: usize| b > 0 ==> #[trigger] call_requires(draw, (b,)),
                forall|b: usize, r: usize| #[trigger] call_ensures(draw, (b,), r) ==> r < b,
                forall|i: int|
                    0 <= i < draws@.len() ==> call_ensures(draw, (len,), #[trigger] draws@[i]),
                forall|i: int| 0 <= i < draws@.len() ==> #[trigger] draws@[i] < len,
            decreases WALL_TRIES - n,
        {
            let r = draw(len);
            draws.push(r);
            proof {
                assert(draws@[n as int] == r);
            }
            n += 1;
        }
        let ghost base = maze.rooms@;
        maze.place_walls(&draws);
        proof {
            let ds = draws@;
            assert(base == default_base());
            assert forall|i: int|
                0 <= i < ds.len() && ds[i] != grid_index(MAZE_SIDE as int, 2, 12) && ds[i]
                    != grid_index(MAZE_SIDE as int, 10, 12) implies maze.rooms@[#[trigger] ds[i] as int]
                == Room::Wall by {
                assert(base[ds[i] as int] == Room::Empty);
            }
            assert forall|j: int|
                0 <= j < MAZE_SIDE * MAZE_SIDE && j != grid_index(MAZE_SIDE as int, 2, 12) && j
                    != grid_index(MAZE_SIDE as int, 10, 12) && (forall|i: int|
                    0 <= i < ds.len() ==> #[trigger] ds[i] != j) implies #[trigger] maze.rooms@[j]
                == Room::Empty by {
                assert(base[j] == Room::Empty);
            }
            assert(maze.rooms@[grid_index(MAZE_SIDE as int, 2, 12)] == base[grid_index(MAZE_SIDE as int, 2, 12)]);
            assert(maze.rooms@[grid_index(MAZE_SIDE as int, 10, 12)] == base[grid_index(MAZE_SIDE as int, 10, 12)]);
            assert(maze.rooms@ == with_walls(default_base(), ds));
        }
        maze
    }
}

impl Default for MazeTest {
    /// A 128 by 128 maze with home at `(2, 12)`, the goal at `(10, 12)`, and
    /// walls on the empty cells among 5000 positions drawn at random over
    /// the whole grid; every other cell is empty. Which positions are drawn
    /// is left to chance: each is what `draw_index` gives for the range of
    /// all 128 * 128 cells.
    fn default() -> (maze: Self)
        ensures
            maze.w == MAZE_SIDE,
            maze.home == (2usize, 12usize),
            maze.goal == (10usize, 12usize),
            maze.rooms@.len() == MAZE_SIDE * MAZE_SIDE,
            exists|draws: Seq<usize>|
                #![trigger with_walls(default_base(), draws)]
                draws.len() == WALL_TRIES && (forall|i: int|
                    0 <= i < draws.len() ==> #[trigger] draws[i] < MAZE_SIDE * MAZE_SIDE
                        && call_ensures(draw_index, ((MAZE_SIDE * MAZE_SIDE) as usize,), draws[i]))
                    && maze.rooms@ == with_walls(default_base(), draws) && (forall|i: int|
                    0 <= i < draws.len() && draws[i] != grid_index(MAZE_SIDE as int, 2, 12)
                        && draws[i] != grid_index(MAZE_SIDE as int, 10, 12)
                        ==> maze.rooms@[#[trigger] draws[i] as int] == Room::Wall) && (forall|j: int|
                    0 <= j < MAZE_SIDE * MAZE_SIDE && j != grid_index(MAZE_SIDE as int, 2, 12) && j
                        != grid_index(MAZE_SIDE as int, 10, 12) && (forall|i: int|
                        0 <= i < draws.len() ==> #[trigger] draws[i] != j) ==> #[trigger] maze.rooms@[j]
                        == Room::Empty),
            maze.rooms@[grid_index(MAZE_SIDE as int, 2, 12)] == Room::Home(0),
            maze.rooms@[grid_index(MAZE_SIDE as int, 10, 12)] == Room::Goal(0),
            wall_count(maze.rooms@) <= WALL_TRIES,
    {
        Self::with_drawn_walls(draw_index)
    }
}

} // verus!
