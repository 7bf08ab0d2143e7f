use crate::maze::{Maze, Room};
use std::collections::HashMap;
use std::collections::VecDeque;
use vstd::prelude::*;
use vstd::std_specs::hash::spec_hash_map_iter;
use vstd::std_specs::iter::IteratorSpec;

verus! {

/// A cell of the grid, as `(x, y)`.
pub type Cell = (usize, usize);

pub const UP: (i8, i8) = (0, 1);

pub const DOWN: (i8, i8) = (0, -1);

pub const RIGHT: (i8, i8) = (1, 0);

pub const LEFT: (i8, i8) = (-1, 0);

/// One of the four unit steps `UP`, `DOWN`, `RIGHT`, `LEFT`. The fields
/// are private, so no other value can be built.
#[derive(Copy, Clone, Debug, PartialEq)]
pub struct Direction {
    x: i8,
    y: i8,
}

impl View for Direction {
    type V = (i8, i8);

    /// The step as `(x, y)`.
    closed spec fn view(&self) -> (i8, i8) {
        (self.x, self.y)
    }
}

/// Whether `value` is one of the four unit steps.
pub open spec fn is_unit_step(value: (i8, i8)) -> bool {
    value == UP || value == DOWN || value == RIGHT || value == LEFT
}

/// The character of the decimal digit `d`.
pub open spec fn digit_char(d: int) -> char {
    if d == 0 {
        '0'
    } else if d == 1 {
        '1'
    } else if d == 2 {
        '2'
    } else if d == 3 {
        '3'
    } else if d == 4 {
        '4'
    } else if d == 5 {
        '5'
    } else if d == 6 {
        '6'
    } else if d == 7 {
        '7'
    } else if d == 8 {
        '8'
    } else {
        '9'
    }
}

/// The decimal digits of `n`, most significant first.
pub open spec fn decimal_digits(n: nat) -> Seq<char>
    decreases n,
{
    if n < 10 {
        seq![digit_char(n as int)]
    } else {
        decimal_digits(n / 10) + seq![digit_char((n % 10) as int)]
    }
}

/// `v` written in decimal, with a leading `-` when it is negative.
pub open spec fn decimal(v: int) -> Seq<char> {
    if v < 0 {
        seq!['-'] + decimal_digits((-v) as nat)
    } else {
        decimal_digits(v as nat)
    }
}

/// The message that `value` is no unit step, with the pair written as
/// `(x, y)` in decimal.
pub open spec fn direction_error_text(value: (i8, i8)) -> Seq<char> {
    "provided value ("@ + decimal(value.0 as int) + ", "@ + decimal(value.1 as int)
        + ") does not represent one of the four possible directions"@
}

/// Appends the decimal digit `d`.
fn push_digit(s: &mut String, d: u8)
    requires
        d < 10,
    ensures
        final(s)@ == old(s)@ + seq![digit_char(d as int)],
{
    let digits = "0123456789";
    proof {
        reveal_strlit("0123456789");
    }
    let piece = digits.substring_char(d as usize, d as usize + 1);
    assert(piece@ =~= seq![digit_char(d as int)]);
    s.append(piece);
}

/// Appends `v` in decimal.
fn push_decimal(s: &mut String, v: i8)
    ensures
        final(s)@ == old(s)@ + decimal(v as int),
{
    let ghost start = s@;
    let n: u8 = if v < 0 {
        s.append("-");
        proof {
            reveal_strlit("-");
        }
        (0 - (v as i16)) as u8
    } else {
        v as u8
    };
    let ghost sign = s@;
    assert(sign == start + (if v < 0 { seq!['-'] } else { Seq::<char>::empty() }));
    if n >= 100 {
        push_digit(s, n / 100);
    }
    if n >= 10 {
        push_digit(s, (n / 10) % 10);
    }
    push_digit(s, n % 10);
    proof {
        let m = n as nat;
        if m >= 100 {
            assert(decimal_digits(m / 100) == seq![digit_char((n / 100) as int)]);
            assert((m / 10) / 10 == m / 100);
            assert(decimal_digits(m / 10) == decimal_digits(m / 100) + seq![
                digit_char(((m / 10) % 10) as int),
            ]);
        } else if m >= 10 {
            assert(decimal_digits(m / 10) == seq![digit_char((m / 10) as int)]);
            assert((m / 10) % 10 == m / 10);
        }
        assert(decimal_digits(m) == if m >= 10 {
            decimal_digits(m / 10) + seq![digit_char((m % 10) as int)]
        } else {
            seq![digit_char(m as int)]
        });
        assert(s@ =~= sign + decimal_digits(m));
        assert(s@ =~= start + decimal(v as int));
    }
}

/// The message that `value` is no unit step.
fn direction_error(value: (i8, i8)) -> (s: String)
    ensures
        s@ == direction_error_text(value),
{
    let mut s = String::from_str("provided value (");
    push_decimal(&mut s, value.0);
    s.append(", ");
    push_decimal(&mut s, value.1);
    s.append(") does not represent one of the four possible directions");
    s
}

impl Direction {
    #[verifier::type_invariant]
    spec fn is_unit(self) -> bool {
        is_unit_step((self.x, self.y))
    }

    /// The step along x.
    pub fn x(&self) -> (r: i8)
        ensures
            r == self@.0,
            is_unit_step(self@),
    {
        proof {
            use_type_invariant(self);
        }
        self.x
    }

    /// The step along y.
    pub fn y(&self) -> (r: i8)
        ensures
            r == self@.1,
            is_unit_step(self@),
    {
        proof {
            use_type_invariant(self);
        }
        self.y
    }

    /// The step `UP`.
    pub fn up() -> (d: Direction)
        ensures
            d@ == UP,
    {
        Direction { x: UP.0, y: UP.1 }
    }

    /// The step `DOWN`.
    pub fn down() -> (d: Direction)
        ensures
            d@ == DOWN,
    {
        Direction { x: DOWN.0, y: DOWN.1 }
    }

    /// The step `RIGHT`.
    pub fn right() -> (d: Direction)
        ensures
            d@ == RIGHT,
    {
        Direction { x: RIGHT.0, y: RIGHT.1 }
    }

    /// The step `LEFT`.
    pub fn left() -> (d: Direction)
        ensures
            d@ == LEFT,
    {
        Direction { x: LEFT.0, y: LEFT.1 }
    }

    /// Accepts exactly the four unit steps; anything else is an error.
    pub fn try_from(value: (i8, i8)) -> (r: Result<Direction, String>)
        ensures
            is_unit_step(value) <==> r is Ok,
            r matches Ok(d) ==> d@ == value,
            r matches Err(e) ==> e@ == direction_error_text(value),
    {
        if (value.0 == UP.0 && value.1 == UP.1) || (value.0 == DOWN.0 && value.1 == DOWN.1) || (
        value.0 == RIGHT.0 && value.1 == RIGHT.1) || (value.0 == LEFT.0 && value.1 == LEFT.1) {
            Ok(Direction { x: value.0, y: value.1 })
        } else {
            Err(direction_error(value))
        }
    }
}

/// The number of distinct values of a `usize` half of a key: keys pack
/// `(x, y)` as `x * key_base() + y`.
pub open spec fn key_base() -> int {
    0x1_0000_0000_0000_0000
}

/// The hash-map key under which a cell is stored.
pub open spec fn key_of(c: Cell) -> u128 {
    (c.0 as int * key_base() + c.1 as int) as u128
}

/// The cell that a key packs.
pub open spec fn cell_of_key(k: u128) -> Cell {
    ((k as int / key_base()) as usize, (k as int % key_base()) as usize)
}

/// The parent map that a map of packed keys stands for.
pub open spec fn unpack(m: Map<u128, Cell>) -> Map<Cell, Cell> {
    Map::new(|c: Cell| m.contains_key(key_of(c)), |c: Cell| m[key_of(c)])
}

proof fn lemma_key_of_value(c: Cell)
    ensures
        key_of(c) as int == c.0 as int * key_base() + c.1 as int,
        cell_of_key(key_of(c)) == c,
{
    assert(c.0 < key_base());
    assert(c.1 < key_base());
    assert(c.0 as int * key_base() + c.1 as int <= (key_base() - 1) * key_base() + key_base() - 1);
    assert((key_base() - 1) * key_base() + key_base() - 1 == 0xffff_ffff_ffff_ffff_ffff_ffff_ffff_ffff);
    let v = c.0 as int * key_base() + c.1 as int;
    assert(v / key_base() == c.0 as int && v % key_base() == c.1 as int) by (nonlinear_arith)
        requires
            v == c.0 as int * key_base() + c.1 as int,
            0 <= c.1 < key_base(),
            0 <= c.0,
    ;
}

proof fn lemma_key_of_injective(a: Cell, b: Cell)
    ensures
        key_of(a) == key_of(b) <==> a == b,
{
    lemma_key_of_value(a);
    lemma_key_of_value(b);
}

proof fn lemma_unpack_insert(m: Map<u128, Cell>, c: Cell, v: Cell)
    ensures
        unpack(m.insert(key_of(c), v)) =~= unpack(m).insert(c, v),
{
    assert forall|d: Cell| #[trigger] unpack(m.insert(key_of(c), v)).contains_key(d) <==> unpack(
        m,
    ).insert(c, v).contains_key(d) by {
        lemma_key_of_injective(c, d);
    }
    assert forall|d: Cell| #[trigger] unpack(m.insert(key_of(c), v)).contains_key(d) implies unpack(
        m.insert(key_of(c), v),
    )[d] == unpack(m).insert(c, v)[d] by {
        lemma_key_of_injective(c, d);
    }
}

/// The key under which `c` is stored.
fn cell_key(c: Cell) -> (k: u128)
    ensures
        k == key_of(c),
{
    proof {
        lemma_key_of_value(c);
    }
    c.0 as u128 * 0x1_0000_0000_0000_0000u128 + c.1 as u128
}

/// A search that advances one step at a time: first outwards until the goal
/// is seen, then back along the way it came.
pub trait StepSearch: Sized {
    /// Whether `step_goal` may be called in this state.
    spec fn can_step_goal(&self) -> bool;

    /// Whether `step_home` may be called in this state.
    spec fn can_step_home(&self) -> bool;

    /// Expands one cell. `None` once the goal has been seen next to it,
    /// else the cell that was expanded.
    fn step_goal<T: Maze>(&mut self, maze: &T) -> (r: Option<(usize, usize)>)
        requires
            old(self).can_step_goal(),
    ;

    /// Steps back one cell towards home. `None` once home is next.
    fn step_home(&mut self) -> (r: Option<(usize, usize)>)
        requires
            old(self).can_step_home(),
    ;
}

/// Breadth-first search from a home cell.
pub struct BFS {
    /// For each cell reached so far (by its packed key), the cell it was
    /// reached from.
    searched: HashMap<u128, (usize, usize)>,
    /// The cells waiting to be expanded, oldest first.
    edges: VecDeque<(usize, usize)>,
    current: (usize, usize),
    home: (usize, usize),
    /// For each reached cell, how many steps its chain of parents is long.
    rank: Ghost<Map<Cell, nat>>,
}

impl BFS {
    /// The cells reached so far, each mapped to the cell it was reached from.
    pub closed spec fn parents(&self) -> Map<Cell, Cell> {
        unpack(self.searched@)
    }

    /// The cells waiting to be expanded, oldest first.
    pub closed spec fn frontier(&self) -> Seq<Cell> {
        self.edges@
    }

    /// The cell where the way back currently stands.
    pub closed spec fn cursor(&self) -> Cell {
        self.current
    }

    /// The cell the search started from.
    pub closed spec fn origin(&self) -> Cell {
        self.home
    }

    /// For a reached cell, how many parent links lead from it to the first
    /// arrival at home; 0 for a cell not reached.
    pub closed spec fn links_home(&self, c: Cell) -> nat {
        if self.parents().contains_key(c) {
            self.rank@[c]
        } else {
            0
        }
    }

    /// How many parent links lead from the cursor back home.
    pub open spec fn home_distance(&self) -> nat {
        self.links_home(self.cursor())
    }

    /// Whether the waiting cells are in order of `links_home`, none more
    /// than one link further from home than another.
    pub open spec fn frontier_ordered(&self) -> bool {
        forall|i: int, j: int|
            0 <= i <= j < self.frontier().len() ==> self.links_home(#[trigger] self.frontier()[i])
                <= self.links_home(#[trigger] self.frontier()[j]) <= self.links_home(
                self.frontier()[i],
            ) + 1
    }

    /// The state's invariant: keys are packed cells; every reached cell has
    /// a parent that is home or reached, and one link more to home than that
    /// parent; every waiting cell is home or has been reached, none waits
    /// twice, and home waits unreached only while it is all that waits; and,
    /// as long as home itself has not been reached from a neighbour, the
    /// waiting cells are in breadth-first order.
    #[verifier::type_invariant]
    pub closed spec fn wf(&self) -> bool {
        &&& forall|k: u128| #[trigger]
            self.searched@.contains_key(k) ==> key_of(cell_of_key(k)) == k
        &&& forall|c: Cell| #[trigger]
            self.parents().contains_key(c) ==> {
                &&& self.parents()[c] == self.home || self.parents().contains_key(self.parents()[c])
                &&& self.rank@[c] == (if self.parents()[c] == self.home {
                    0
                } else {
                    self.rank@[self.parents()[c]]
                }) + 1
            }
        &&& forall|i: int| #![trigger self.edges@[i]]
            0 <= i < self.edges@.len() ==> (self.edges@[i] == self.home
                || self.parents().contains_key(self.edges@[i]))
        &&& !self.parents().contains_key(self.home) ==> self.frontier_ordered()
        &&& self.edges@.no_duplicates()
        &&& forall|i: int| #![trigger self.edges@[i]]
            0 <= i < self.edges@.len() && self.edges@[i] == self.home && !self.parents().contains_key(
                self.home,
            ) ==> self.edges@.len() == 1
    }

    /// A search that has reached nothing yet and waits to expand `home`.
    pub fn new(home: (usize, usize)) -> (s: Self)
        ensures
            s.wf(),
            s.parents() == Map::<Cell, Cell>::empty(),
            s.frontier() == seq![home],
            s.cursor() == (0usize, 0usize),
            s.origin() == home,
    {
        let mut edges = VecDeque::new();
        edges.push_back(home);
        let s = Self {
            current: (0, 0),
            searched: HashMap::new(),
            edges,
            home,
            rank: Ghost(Map::empty()),
        };
        assert(s.parents() =~= Map::<Cell, Cell>::empty());
        s
    }
}

/// What `step_home` does: move to the parent of the cursor, or stay and
/// report `None` when that parent is home.
pub open spec fn home_step(pre: BFS, post: BFS, r: Option<Cell>) -> bool {
    let child = pre.parents()[pre.cursor()];
    &&& post.parents() == pre.parents()
    &&& post.frontier() == pre.frontier()
    &&& post.origin() == pre.origin()
    &&& if child == pre.origin() {
        r == None::<Cell> && post.cursor() == pre.cursor()
    } else {
        r == Some(child) && post.cursor() == child
    }
}

impl StepSearch for BFS {
    open spec fn can_step_goal(&self) -> bool {
        &&& self.frontier().len() > 0
        &&& expandable(self.frontier()[0])
    }

    open spec fn can_step_home(&self) -> bool {
        &&& self.parents().contains_key(self.cursor())
    }

    fn step_goal<T: Maze>(&mut self, maze: &T) -> (r: Option<(usize, usize)>)
        ensures
            goal_step(*old(self), *final(self), *maze, r),
            final(self).wf(),
    {
        proof {
            use_type_invariant(&*self);
        }
        let ghost pre = *self;
        // The state is taken apart while the cell is expanded and put back
        // together afterwards, so that it is whole at every point.
        let mut edges: VecDeque<(usize, usize)> = VecDeque::new();
        std::mem::swap(&mut edges, &mut self.edges);
        let mut searched: HashMap<u128, (usize, usize)> = HashMap::new();
        std::mem::swap(&mut searched, &mut self.searched);
        let home = self.home;
        let current = self.current;
        let ghost mut rank = pre.rank@;
        assert(BFS::assembled(searched, edges, current, home, rank) == pre);
        let e = edges.pop_front().unwrap();
        assert(edges@ =~= pre.frontier().drop_first());
        let ghost d = pre.links_home(e);
        proof {
            assert forall|j: int| 0 <= j < edges@.len() implies #[trigger] edges@[j]
                == pre.edges@[j + 1] by {}
            assert forall|j: int| 0 <= j < edges@.len() implies unpack(searched@).contains_key(
                #[trigger] edges@[j],
            ) by {
                assert(pre.edges@[j + 1] == edges@[j]);
            }
            assert(edges@.no_duplicates());
            if !pre.parents().contains_key(home) {
                assert forall|j: int| 0 <= j < edges@.len() implies d <= pre.links_home(
                    #[trigger] edges@[j],
                ) <= d + 1 by {
                    assert(pre.frontier()[0] == e && pre.frontier()[j + 1] == edges@[j]);
                }
            }
        }
        let ghost full = expand(*maze, e, 0, pre.parents(), pre.frontier().drop_first());
        let mut i: usize = 0;
        while i < 4
            invariant
                i <= 4,
                pre == *old(self),
                pre.frontier().len() > 0,
                e == pre.frontier()[0],
                expandable(e),
                home == pre.home,
                current == pre.current,
                e == home || unpack(searched@).contains_key(e),
                BFS::assembled(searched, edges, current, home, rank).wf(),
                forall|j: int| 0 <= j < edges@.len() ==> unpack(searched@).contains_key(
                    #[trigger] edges@[j],
                ),
                !unpack(searched@).contains_key(home) ==> d == BFS::assembled(
                    searched,
                    edges,
                    current,
                    home,
                    rank,
                ).links_home(e) && forall|j: int|
                    0 <= j < edges@.len() ==> d <= BFS::assembled(
                        searched,
                        edges,
                        current,
                        home,
                        rank,
                    ).links_home(#[trigger] edges@[j]) <= d + 1,
                full == expand(*maze, e, 0, pre.parents(), pre.frontier().drop_first()),
                full == expand(*maze, e, i as int, unpack(searched@), edges@),
            decreases 4 - i,
        {
            let step = direction(i);
            let nx: isize = e.0 as isize + step.0 as isize;
            let ny: isize = e.1 as isize + step.1 as isize;
            let k: (usize, usize) = (nx as usize, ny as usize);
            let key = cell_key(k);
            assert(k == cell_at(neighbor(e, direction_at(i as int))));
            if !searched.contains_key(&key) {
                match maze.get(nx, ny) {
                    Room::Empty => {
                        let ghost old_state = BFS::assembled(searched, edges, current, home, rank);
                        searched.insert(key, e);
                        edges.push_back(k);
                        proof {
                            lemma_unpack_insert(old_state.searched@, k, e);
                            let r = if e == home {
                                0
                            } else {
                                rank[e]
                            };
                            rank = rank.insert(k, r + 1);
                            BFS::assembled(searched, edges, current, home, rank).lemma_wf_after_insert(
                                old_state,
                                k,
                                e,
                                d,
                            );
                        }
                    },
                    Room::Goal(_) => {
                        assert(!unpack(searched@).contains_key(k));
                        assert(full == (unpack(searched@), edges@, true));
                        proof {
                            BFS::assembled(searched, edges, e, home, rank).lemma_wf_same_search(
                                BFS::assembled(searched, edges, current, home, rank),
                            );
                        }
                        *self = BFS { searched, edges, current: e, home, rank: Ghost(rank) };
                        return None;
                    },
                    _ => {},
                }
            }
            i += 1;
        }
        *self = BFS { searched, edges, current, home, rank: Ghost(rank) };
        Some(e)
    }

    fn step_home(&mut self) -> (r: Option<(usize, usize)>)
        ensures
            home_step(*old(self), *final(self), r),
            final(self).wf(),
            r is Some ==> final(self).can_step_home(),
            r is Some ==> final(self).home_distance() + 1 == old(self).home_distance(),
            r is None <==> old(self).home_distance() == 1,
    {
        proof {
            use_type_invariant(&*self);
        }
        let key = cell_key(self.current);
        let child = match self.searched.get(&key) {
            Some(v) => *v,
            None => {
                // unreachable: the cursor has been reached, so its key is stored
                proof {
                    assert(self.searched@.contains_key(key));
                }
                return None;
            },
        };
        if child.0 == self.home.0 && child.1 == self.home.1 {
            return None;
        }
        proof {
            BFS::assembled(self.searched, self.edges, child, self.home, self.rank@).lemma_wf_same_search(*self);
        }
        self.current = child;
        Some(self.current)
    }
}

/// The `i`th of the four steps, in the order the search tries them.
pub open spec fn direction_at(i: int) -> (i8, i8) {
    if i == 0 {
        UP
    } else if i == 1 {
        DOWN
    } else if i == 2 {
        RIGHT
    } else {
        LEFT
    }
}

/// Whether a coordinate, read as an `isize`, can move one step either way.
pub open spec fn steppable(v: usize) -> bool {
    isize::MIN < (v as isize) && (v as isize) < isize::MAX
}

/// Whether a cell can be expanded without leaving the range of `isize`.
pub open spec fn expandable(c: Cell) -> bool {
    steppable(c.0) && steppable(c.1)
}

/// The coordinate one step `d` away from `e`, each half read as an `isize`.
pub open spec fn neighbor(e: Cell, d: (i8, i8)) -> (isize, isize) {
    (((e.0 as isize) + d.0) as isize, ((e.1 as isize) + d.1) as isize)
}

/// The cell under which a coordinate is recorded.
pub open spec fn cell_at(n: (isize, isize)) -> Cell {
    (n.0 as usize, n.1 as usize)
}

/// Expanding `e` from its `i`th neighbour on: each neighbour not yet
/// reached is recorded with parent `e` and queued when the maze has it
/// empty; the scan stops with `true` at the first unreached neighbour that
/// is the goal.
pub open spec fn expand<T: Maze>(
    maze: T,
    e: Cell,
    i: int,
    parents: Map<Cell, Cell>,
    frontier: Seq<Cell>,
) -> (Map<Cell, Cell>, Seq<Cell>, bool)
    decreases 4 - i,
{
    if i < 0 || i >= 4 {
        (parents, frontier, false)
    } else {
        let n = neighbor(e, direction_at(i));
        let k = cell_at(n);
        if parents.contains_key(k) {
            expand(maze, e, i + 1, parents, frontier)
        } else {
            match maze.room_at(n.0, n.1) {
                Room::Empty => expand(maze, e, i + 1, parents.insert(k, e), frontier.push(k)),
                Room::Goal(_) => (parents, frontier, true),
                _ => expand(maze, e, i + 1, parents, frontier),
            }
        }
    }
}

/// What `step_goal` does: take the oldest waiting cell `e` and expand it.
/// When the goal is seen the cursor moves to `e` and the result is `None`;
/// otherwise the result is `e`.
pub open spec fn goal_step<T: Maze>(pre: BFS, post: BFS, maze: T, r: Option<Cell>) -> bool {
    let e = pre.frontier()[0];
    let x = expand(maze, e, 0, pre.parents(), pre.frontier().drop_first());
    &&& post.parents() == x.0
    &&& post.frontier() == x.1
    &&& post.origin() == pre.origin()
    &&& if x.2 {
        r == None::<Cell> && post.cursor() == e
    } else {
        r == Some(e) && post.cursor() == pre.cursor()
    }
}

fn direction(i: usize) -> (d: (i8, i8))
    requires
        i < 4,
    ensures
        d == direction_at(i as int),
{
    if i == 0 {
        UP
    } else if i == 1 {
        DOWN
    } else if i == 2 {
        RIGHT
    } else {
        LEFT
    }
}

impl BFS {
    /// The state made of the given parts.
    spec fn assembled(
        searched: HashMap<u128, Cell>,
        edges: VecDeque<Cell>,
        current: Cell,
        home: Cell,
        rank: Map<Cell, nat>,
    ) -> BFS {
        BFS { searched, edges, current, home, rank: Ghost(rank) }
    }

    proof fn lemma_wf_same_search(&self, other: BFS)
        requires
            other.wf(),
            self.searched@ == other.searched@,
            self.edges@ == other.edges@,
            self.home == other.home,
            self.rank@ == other.rank@,
        ensures
            self.wf(),
    {
        assert(self.parents() == other.parents());
        assert forall|c: Cell| #[trigger] self.links_home(c) == other.links_home(c) by {}
        if !self.parents().contains_key(self.home) {
            assert forall|i: int, j: int|
                0 <= i <= j < self.frontier().len() implies self.links_home(
                #[trigger] self.frontier()[i],
            ) <= self.links_home(#[trigger] self.frontier()[j]) <= self.links_home(
                self.frontier()[i],
            ) + 1 by {
                assert(other.links_home(other.frontier()[i]) <= other.links_home(other.frontier()[j]));
            }
        }
    }

    proof fn lemma_wf_after_insert(&self, pre: BFS, k: Cell, e: Cell, d: nat)
        requires
            pre.wf(),
            !pre.parents().contains_key(k),
            e == pre.home || pre.parents().contains_key(e),
            self.searched@ == pre.searched@.insert(key_of(k), e),
            self.parents() == pre.parents().insert(k, e),
            self.edges@ == pre.edges@.push(k),
            self.home == pre.home,
            self.rank@ == pre.rank@.insert(
                k,
                (if e == pre.home { 0 } else { pre.rank@[e] }) + 1,
            ),
            !pre.parents().contains_key(pre.home) ==> d == pre.links_home(e) && forall|j: int|
                0 <= j < pre.edges@.len() ==> d <= pre.links_home(#[trigger] pre.edges@[j]) <= d
                    + 1,
            forall|j: int| 0 <= j < pre.edges@.len() ==> pre.parents().contains_key(
                #[trigger] pre.edges@[j],
            ),
        ensures
            self.wf(),
            forall|j: int| 0 <= j < self.edges@.len() ==> self.parents().contains_key(
                #[trigger] self.edges@[j],
            ),
            !self.parents().contains_key(self.home) ==> d == self.links_home(e) && forall|j: int|
                0 <= j < self.edges@.len() ==> d <= self.links_home(#[trigger] self.edges@[j]) <= d
                    + 1,
    {
        lemma_key_of_value(k);
        assert forall|c: Cell| #[trigger] self.parents().contains_key(c) implies {
            &&& self.parents()[c] == self.home || self.parents().contains_key(self.parents()[c])
            &&& self.rank@[c] == (if self.parents()[c] == self.home {
                0
            } else {
                self.rank@[self.parents()[c]]
            }) + 1
        } by {
            if c != k {
                assert(pre.parents().contains_key(c));
                let p = pre.parents()[c];
                if p != pre.home {
                    assert(p != k);
                }
            }
        }
        assert forall|i: int| #![trigger self.edges@[i]]
            0 <= i < self.edges@.len() implies (self.edges@[i] == self.home
            || self.parents().contains_key(self.edges@[i])) by {
            if i < pre.edges@.len() {
                assert(self.edges@[i] == pre.edges@[i]);
            }
        }
        assert forall|j: int| 0 <= j < self.edges@.len() implies self.parents().contains_key(
            #[trigger] self.edges@[j],
        ) by {
            if j < pre.edges@.len() {
                assert(self.edges@[j] == pre.edges@[j]);
            }
        }
        assert(!pre.edges@.contains(k));
        assert(self.edges@.no_duplicates()) by {
            assert forall|i: int, j: int| 0 <= i < j < self.edges@.len() implies self.edges@[i]
                != self.edges@[j] by {
                if j < pre.edges@.len() {
                    assert(self.edges@[i] == pre.edges@[i]);
                    assert(self.edges@[j] == pre.edges@[j]);
                } else {
                    assert(self.edges@[i] == pre.edges@[i]);
                }
            }
        }
        if !self.parents().contains_key(self.home) {
            assert(k != self.home);
            assert forall|c: Cell| c != k implies self.links_home(c) == pre.links_home(c) by {}
            assert(self.links_home(k) == d + 1);
            assert forall|j: int| 0 <= j < self.edges@.len() implies d <= self.links_home(
                #[trigger] self.edges@[j],
            ) <= d + 1 by {
                if j < pre.edges@.len() {
                    assert(self.edges@[j] == pre.edges@[j]);
                }
            }
            assert forall|i: int, j: int|
                0 <= i <= j < self.frontier().len() implies self.links_home(
                #[trigger] self.frontier()[i],
            ) <= self.links_home(#[trigger] self.frontier()[j]) <= self.links_home(
                self.frontier()[i],
            ) + 1 by {
                if j < pre.edges@.len() {
                    assert(self.frontier()[i] == pre.frontier()[i]);
                    assert(self.frontier()[j] == pre.frontier()[j]);
                } else if i < pre.edges@.len() {
                    assert(self.frontier()[i] == pre.edges@[i]);
                }
            }
        }
    }
}

/// The cell reached from `c` by following `n` parent links.
pub open spec fn follow(parents: Map<Cell, Cell>, c: Cell, n: nat) -> Cell
    decreases n,
{
    if n == 0 {
        c
    } else {
        follow(parents, parents[c], (n - 1) as nat)
    }
}

/// A reached cell is one link further from home than its parent, whose
/// count is 0 when the parent is home.
pub proof fn lemma_links_of_parent(s: &BFS, c: Cell)
    requires
        s.wf(),
        s.parents().contains_key(c),
    ensures
        s.parents()[c] == s.origin() || s.parents().contains_key(s.parents()[c]),
        s.links_home(c) == (if s.parents()[c] == s.origin() {
            0
        } else {
            s.links_home(s.parents()[c])
        }) + 1,
{
}

/// Every cell the search has reached has a way back home of exactly
/// `links_home` links: following parent links from it passes through
/// reached cells other than home and arrives at home. So the walk back that
/// `step_home` performs ends.
pub proof fn lemma_way_home(s: &BFS, c: Cell)
    requires
        s.wf(),
        s.parents().contains_key(c),
    ensures
        s.links_home(c) > 0,
        follow(s.parents(), c, s.links_home(c)) == s.origin(),
        forall|i: nat|
            i < s.links_home(c) ==> s.parents().contains_key(#[trigger] follow(s.parents(), c, i)),
        forall|i: nat|
            0 < i < s.links_home(c) ==> #[trigger] follow(s.parents(), c, i) != s.origin(),
    decreases s.links_home(c),
{
    let p = s.parents()[c];
    let n = s.links_home(c);
    if p == s.origin() {
        assert(n == 1);
        assert(follow(s.parents(), c, 1) == follow(s.parents(), p, 0));
        assert forall|i: nat| i < n implies s.parents().contains_key(
            #[trigger] follow(s.parents(), c, i),
        ) by {
            assert(follow(s.parents(), c, i) == c);
        }
    } else {
        lemma_way_home(s, p);
        assert(n == s.links_home(p) + 1);
        assert(follow(s.parents(), c, n) == follow(s.parents(), p, (n - 1) as nat));
        assert forall|i: nat| i < n implies s.parents().contains_key(
            #[trigger] follow(s.parents(), c, i),
        ) by {
            if i > 0 {
                assert(follow(s.parents(), c, i) == follow(s.parents(), p, (i - 1) as nat));
            }
        }
        assert forall|i: nat| 0 < i < n implies #[trigger] follow(s.parents(), c, i) != s.origin() by {
            assert(follow(s.parents(), c, i) == follow(s.parents(), p, (i - 1) as nat));
            if i == 1 {
                assert(follow(s.parents(), p, 0) == p);
            }
        }
    }
}

/// The search is breadth-first: as long as home itself has not been reached
/// from a neighbour, the waiting cells are in order of their distance home
/// in links, and none is more than one link further than another. So cells
/// are expanded in order of that distance.
pub proof fn lemma_breadth_first(s: &BFS)
    requires
        s.wf(),
        !s.parents().contains_key(s.origin()),
    ensures
        s.frontier_ordered(),
{
}

/// What the invariant says of the queue and of cells not reached: every
/// waiting cell is home or has been reached, home waits unreached only
/// while it is all that waits, and a cell not reached counts 0 links.
pub proof fn lemma_wf_facts(s: &BFS)
    requires
        s.wf(),
    ensures
        forall|i: int|
            0 <= i < s.frontier().len() ==> #[trigger] s.frontier()[i] == s.origin()
                || s.parents().contains_key(s.frontier()[i]),
        forall|i: int|
            0 <= i < s.frontier().len() && #[trigger] s.frontier()[i] == s.origin()
                && !s.parents().contains_key(s.origin()) ==> s.frontier().len() == 1,
        forall|c: Cell| !s.parents().contains_key(c) ==> #[trigger] s.links_home(c) == 0,
{
}

/// No cell waits twice in the queue.
pub proof fn lemma_frontier_distinct(s: &BFS)
    requires
        s.wf(),
    ensures
        s.frontier().no_duplicates(),
{
}

/// Whether every reached cell is a neighbour, one unit step away, of the
/// cell it was reached from, and `maze` has an empty room there.
pub open spec fn explored_in<T: Maze>(s: BFS, maze: T) -> bool {
    forall|c: Cell| #[trigger]
        s.parents().contains_key(c) ==> exists|j: int|
            #![trigger neighbor(s.parents()[c], direction_at(j))]
            0 <= j < 4 && cell_at(neighbor(s.parents()[c], direction_at(j))) == c && maze.room_at(
                neighbor(s.parents()[c], direction_at(j)).0,
                neighbor(s.parents()[c], direction_at(j)).1,
            ) == Room::Empty
}

/// Searching one maze throughout, every reached cell stays an empty room
/// next to the cell it was reached from: a new search has reached nothing,
/// and each `step_goal` with that maze keeps it so.
pub proof fn lemma_explored_step<T: Maze>(pre: BFS, post: BFS, maze: T, r: Option<Cell>)
    requires
        pre.can_step_goal(),
        goal_step(pre, post, maze, r),
        explored_in(pre, maze),
    ensures
        explored_in(post, maze),
{
    let e = pre.frontier()[0];
    lemma_expand_facts(maze, e, 0, pre.parents(), pre.frontier().drop_first());
    assert forall|c: Cell| #[trigger] post.parents().contains_key(c) implies exists|j: int|
        #![trigger neighbor(post.parents()[c], direction_at(j))]
        0 <= j < 4 && cell_at(neighbor(post.parents()[c], direction_at(j))) == c && maze.room_at(
            neighbor(post.parents()[c], direction_at(j)).0,
            neighbor(post.parents()[c], direction_at(j)).1,
        ) == Room::Empty by {
        if pre.parents().contains_key(c) {
            assert(post.parents()[c] == pre.parents()[c]);
        }
    }
}

/// Reading an `isize` as a `usize` and back gives it unchanged.
pub proof fn lemma_cast_round_trip(a: isize)
    ensures
        (a as usize) as isize == a,
{
    assert((a as usize) as isize == a) by (bit_vector);
}

/// When the maze does not report home as an empty room, home is never
/// reached from a neighbour, so `lemma_breadth_first` keeps applying.
pub proof fn lemma_home_not_reached<T: Maze>(pre: BFS, post: BFS, maze: T, r: Option<Cell>)
    requires
        pre.can_step_goal(),
        goal_step(pre, post, maze, r),
        !pre.parents().contains_key(pre.origin()),
        maze.room_at(pre.origin().0 as isize, pre.origin().1 as isize) != Room::Empty,
    ensures
        !post.parents().contains_key(post.origin()),
{
    let e = pre.frontier()[0];
    let h = pre.origin();
    lemma_expand_facts(maze, e, 0, pre.parents(), pre.frontier().drop_first());
    if post.parents().contains_key(h) {
        let j = choose|j: int|
            #![trigger neighbor(e, direction_at(j))]
            0 <= j < 4 && h == cell_at(neighbor(e, direction_at(j))) && maze.room_at(
                neighbor(e, direction_at(j)).0,
                neighbor(e, direction_at(j)).1,
            ) == Room::Empty;
        let n = neighbor(e, direction_at(j));
        lemma_cast_round_trip(n.0);
        lemma_cast_round_trip(n.1);
        assert(n == (h.0 as isize, h.1 as isize));
    }
}

/// Expanding a cell only adds: cells already reached keep their parents,
/// waiting cells stay queued in order, every newly reached cell is an empty
/// neighbour of the expanded cell and has it as parent, and the goal is
/// reported only when it is a neighbour.
pub proof fn lemma_expand_facts<T: Maze>(
    maze: T,
    e: Cell,
    i: int,
    parents: Map<Cell, Cell>,
    frontier: Seq<Cell>,
)
    requires
        0 <= i <= 4,
    ensures
        ({
            let x = expand(maze, e, i, parents, frontier);
            &&& parents.submap_of(x.0)
            &&& frontier.is_prefix_of(x.1)
            &&& forall|k: Cell| #[trigger]
                x.0.contains_key(k) && !parents.contains_key(k) ==> {
                    &&& x.0[k] == e
                    &&& exists|j: int| #![trigger neighbor(e, direction_at(j))]
                        i <= j < 4 && k == cell_at(neighbor(e, direction_at(j))) && maze.room_at(
                            neighbor(e, direction_at(j)).0,
                            neighbor(e, direction_at(j)).1,
                        ) == Room::Empty
                }
            &&& forall|j: int| #![trigger x.1[j]]
                frontier.len() <= j < x.1.len() ==> x.0.contains_key(x.1[j]) && !parents.contains_key(
                    x.1[j],
                )
            &&& x.2 ==> exists|j: int| #![trigger neighbor(e, direction_at(j))]
                i <= j < 4 && (maze.room_at(
                    neighbor(e, direction_at(j)).0,
                    neighbor(e, direction_at(j)).1,
                ) matches Room::Goal(_))
        }),
    decreases 4 - i,
{
    if i == 4 {
        assert(frontier.is_prefix_of(frontier));
        assert(parents.submap_of(parents));
    } else {
        let n = neighbor(e, direction_at(i));
        let k = cell_at(n);
        if parents.contains_key(k) {
            lemma_expand_facts(maze, e, i + 1, parents, frontier);
        } else {
            match maze.room_at(n.0, n.1) {
                Room::Empty => {
                    let p2 = parents.insert(k, e);
                    let f2 = frontier.push(k);
                    lemma_expand_facts(maze, e, i + 1, p2, f2);
                    let x = expand(maze, e, i + 1, p2, f2);
                    assert(frontier.is_prefix_of(f2));
                    assert forall|c: Cell| #[trigger] parents.contains_key(c) implies x.0.contains_key(c)
                        && parents[c] == x.0[c] by {
                        assert(c != k);
                        assert(p2.contains_key(c) && p2[c] == parents[c]);
                        assert(p2.submap_of(x.0));
                    }
                    assert forall|c: Cell| #[trigger]
                        x.0.contains_key(c) && !parents.contains_key(c) implies {
                        &&& x.0[c] == e
                        &&& exists|j: int| #![trigger neighbor(e, direction_at(j))]
                            i <= j < 4 && c == cell_at(neighbor(e, direction_at(j)))
                                && maze.room_at(
                                neighbor(e, direction_at(j)).0,
                                neighbor(e, direction_at(j)).1,
                            ) == Room::Empty
                    } by {
                        if c == k {
                            assert(p2.submap_of(x.0));
                            assert(p2.contains_key(c));
                        }
                    }
                    assert forall|j: int| #![trigger x.1[j]]
                        frontier.len() <= j < x.1.len() implies x.0.contains_key(x.1[j])
                        && !parents.contains_key(x.1[j]) by {
                        assert(f2.is_prefix_of(x.1));
                        assert(p2.submap_of(x.0));
                        if j == frontier.len() {
                            assert(x.1[j] == f2[j]);
                            assert(f2[j] == k);
                            assert(p2.contains_key(k));
                        } else {
                            assert(f2.len() <= j < x.1.len());
                            assert(x.0.contains_key(x.1[j]) && !p2.contains_key(x.1[j]));
                        }
                    }
                },
                Room::Goal(_) => {
                    assert(frontier.is_prefix_of(frontier));
                    assert(parents.submap_of(parents));
                    assert(neighbor(e, direction_at(i)) == n);
                },
                _ => {
                    lemma_expand_facts(maze, e, i + 1, parents, frontier);
                },
            }
        }
    }
}

/// Whether `tiles` lists the parent of each reached cell once: `cells`
/// holds every reached cell exactly once, and `tiles[i]` is the parent of
/// `cells[i]`.
pub open spec fn lists_parents(parents: Map<Cell, Cell>, tiles: Seq<Cell>, cells: Seq<Cell>) -> bool {
    &&& cells.len() == tiles.len()
    &&& cells.no_duplicates()
    &&& cells.to_set() == parents.dom()
    &&& forall|i: int| 0 <= i < cells.len() ==> #[trigger] tiles[i] == parents[cells[i]]
}

impl BFS {
    /// The cells to mark when showing the search's progress: the parent of
    /// each reached cell, once per reached cell, in the order the map is
    /// walked (which varies).
    pub fn debug(&self) -> (tiles: Vec<(usize, usize)>)
        ensures
            exists|cells: Seq<Cell>| #[trigger] lists_parents(self.parents(), tiles@, cells),
    {
        proof {
            use_type_invariant(self);
        }
        let mut tiles: Vec<(usize, usize)> = Vec::new();
        let ghost all = spec_hash_map_iter(&self.searched).remaining();
        for kv in it: self.searched.iter()
            invariant
                it.seq() == all,
                tiles@.len() == it.index(),
                forall|i: int| 0 <= i < it.index() ==> tiles@[i] == *all[i].1,
        {
            tiles.push(*kv.1);
        }
        proof {
            let m = self.searched@;
            let cells = Seq::new(all.len(), |i: int| cell_of_key(*all[i].0));
            assert(all.len() == m.dom().len());
            assert forall|i: int| 0 <= i < all.len() implies #[trigger] m.contains_key(*all[i].0)
                && m[*all[i].0] == *all[i].1 by {}
            assert forall|i: int| 0 <= i < cells.len() implies #[trigger] tiles@[i] == self.parents()[cells[i]] by {
                assert(m.contains_key(*all[i].0));
                assert(key_of(cell_of_key(*all[i].0)) == *all[i].0);
            }
            assert forall|i: int, j: int| 0 <= i < cells.len() && 0 <= j < cells.len() && i != j
                implies #[trigger] cells[i] != #[trigger] cells[j] by {
                assert(m.contains_key(*all[i].0) && m.contains_key(*all[j].0));
                assert(key_of(cell_of_key(*all[i].0)) == *all[i].0);
                assert(key_of(cell_of_key(*all[j].0)) == *all[j].0);
                if cells[i] == cells[j] {
                    assert(*all[i].0 == *all[j].0);
                    assert(all[i] == all[j]);
                }
            }
            assert forall|c: Cell| cells.to_set().contains(c) <==> self.parents().contains_key(c) by {
                if cells.to_set().contains(c) {
                    let i = choose|i: int| 0 <= i < cells.len() && cells[i] == c;
                    assert(m.contains_key(*all[i].0));
                    assert(key_of(cell_of_key(*all[i].0)) == *all[i].0);
                }
                if self.parents().contains_key(c) {
                    let k = key_of(c);
                    assert(m.contains_key(k));
                    assert(all.contains((&k, &m[k])));
                    let i = choose|i: int| 0 <= i < all.len() && all[i] == (&k, &m[k]);
                    lemma_key_of_value(c);
                    assert(cells[i] == c);
                }
            }
            assert(cells.to_set() =~= self.parents().dom());
            assert(lists_parents(self.parents(), tiles@, cells));
        }
        tiles
    }
}

/// What `step_goal` returns from `pre`.
pub open spec fn goal_step_outcome<T: Maze>(pre: BFS, maze: T) -> Option<Cell> {
    let e = pre.frontier()[0];
    if expand(maze, e, 0, pre.parents(), pre.frontier().drop_first()).2 {
        None
    } else {
        Some(e)
    }
}

/// What `step_home` returns from `pre`.
pub open spec fn home_step_outcome(pre: BFS) -> Option<Cell> {
    let child = pre.parents()[pre.cursor()];
    if child == pre.origin() {
        None
    } else {
        Some(child)
    }
}

impl BFS {
    /// The cell the search started from.
    pub fn home(&self) -> (h: (usize, usize))
        ensures
            h == self.origin(),
    {
        self.home
    }

    /// The cell where the way back currently stands.
    pub fn current(&self) -> (c: (usize, usize))
        ensures
            c == self.cursor(),
    {
        self.current
    }

    /// The cell that `c` was reached from, if it has been reached.
    pub fn parent_of(&self, c: (usize, usize)) -> (p: Option<(usize, usize)>)
        ensures
            p == (if self.parents().contains_key(c) {
                Some(self.parents()[c])
            } else {
                None
            }),
    {
        match self.searched.get(&cell_key(c)) {
            Some(v) => Some(*v),
            None => None,
        }
    }

    /// How many cells wait to be expanded.
    pub fn frontier_len(&self) -> (n: usize)
        ensures
            n == self.frontier().len(),
    {
        self.edges.len()
    }

    /// Whether `step_goal` may be called now: some cell waits, and the
    /// oldest one can be expanded without leaving the range of `isize`.
    pub fn goal_step_ready(&self) -> (r: bool)
        ensures
            r == self.can_step_goal(),
    {
        if self.edges.len() == 0 {
            return false;
        }
        let e = self.edges[0];
        let (x, y) = (e.0 as isize, e.1 as isize);
        isize::MIN < x && x < isize::MAX && isize::MIN < y && y < isize::MAX
    }

    /// Whether `step_home` may be called now: the cursor stands on a
    /// reached cell.
    pub fn home_step_ready(&self) -> (r: bool)
        ensures
            r == self.can_step_home(),
    {
        self.searched.contains_key(&cell_key(self.current))
    }
}


/// When expanding a cell does not stop at the goal, every neighbour that the
/// maze has empty ends up reached, every neighbour that holds a goal had been
/// reached already, and every newly reached cell is queued.
pub proof fn lemma_expand_complete<T: Maze>(
    maze: T,
    e: Cell,
    i: int,
    parents: Map<Cell, Cell>,
    frontier: Seq<Cell>,
)
    requires
        0 <= i <= 4,
    ensures
        ({
            let x = expand(maze, e, i, parents, frontier);
            &&& !x.2 ==> forall|j: int| #![trigger neighbor(e, direction_at(j))]
                i <= j < 4 && maze.room_at(
                    neighbor(e, direction_at(j)).0,
                    neighbor(e, direction_at(j)).1,
                ) == Room::Empty ==> x.0.contains_key(cell_at(neighbor(e, direction_at(j))))
            &&& !x.2 ==> forall|j: int| #![trigger neighbor(e, direction_at(j))]
                i <= j < 4 && (maze.room_at(
                    neighbor(e, direction_at(j)).0,
                    neighbor(e, direction_at(j)).1,
                ) matches Room::Goal(_)) ==> x.0.contains_key(cell_at(neighbor(e, direction_at(j))))
            &&& forall|k: Cell| #[trigger]
                x.0.contains_key(k) && !parents.contains_key(k) ==> x.1.contains(k)
        }),
    decreases 4 - i,
{
    if i < 4 {
        let n = neighbor(e, direction_at(i));
        let k = cell_at(n);
        if parents.contains_key(k) {
            lemma_expand_complete(maze, e, i + 1, parents, frontier);
            lemma_expand_facts(maze, e, i + 1, parents, frontier);
        } else {
            match maze.room_at(n.0, n.1) {
                Room::Empty => {
                    let p2 = parents.insert(k, e);
                    let f2 = frontier.push(k);
                    lemma_expand_complete(maze, e, i + 1, p2, f2);
                    lemma_expand_facts(maze, e, i + 1, p2, f2);
                    assert(p2.contains_key(k));
                    let x = expand(maze, e, i + 1, p2, f2);
                    assert(f2[f2.len() - 1] == k);
                    assert(x.1[f2.len() - 1] == k);
                },
                Room::Goal(_) => {},
                _ => {
                    lemma_expand_complete(maze, e, i + 1, parents, frontier);
                },
            }
        }
    }
}

impl BFS {
    proof fn lemma_links_stable_at(&self, post: BFS, c: Cell)
        requires
            self.wf(),
            post.wf(),
            self.origin() == post.origin(),
            self.parents().submap_of(post.parents()),
            self.parents().contains_key(c),
        ensures
            post.links_home(c) == self.links_home(c),
        decreases self.rank@[c],
    {
        let p = self.parents()[c];
        assert(post.parents()[c] == p);
        if p != self.home {
            self.lemma_links_stable_at(post, p);
        }
    }
}

/// Reached cells keep their distance home in links when the search goes on:
/// growing the parent map leaves the count of every cell reached before as
/// it was.
pub proof fn lemma_links_stable(pre: BFS, post: BFS)
    requires
        pre.wf(),
        post.wf(),
        pre.origin() == post.origin(),
        pre.parents().submap_of(post.parents()),
    ensures
        forall|c: Cell| #[trigger]
            pre.parents().contains_key(c) ==> post.links_home(c) == pre.links_home(c),
{
    assert forall|c: Cell| #[trigger] pre.parents().contains_key(c) implies post.links_home(c)
        == pre.links_home(c) by {
        pre.lemma_links_stable_at(post, c);
    }
}

} // verus!
