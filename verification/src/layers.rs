use crate::maze::{Maze, Room};
use crate::search::{
    explored_in, cell_at, direction_at, expand, goal_step, lemma_breadth_first, lemma_cast_round_trip, lemma_expand_complete, lemma_explored_step,
    lemma_expand_facts, lemma_frontier_distinct, lemma_home_not_reached, lemma_links_of_parent,
    lemma_links_stable, lemma_wf_facts, neighbor, Cell, StepSearch, BFS,
};
use vstd::prelude::*;

verus! {

/// Whether one unit step leads from `a` to `b` onto a room that `maze` has
/// empty.
pub open spec fn maze_step<T: Maze>(maze: T, a: Cell, b: Cell) -> bool {
    exists|j: int|
        #![trigger neighbor(a, direction_at(j))]
        0 <= j < 4 && cell_at(neighbor(a, direction_at(j))) == b && maze.room_at(
            neighbor(a, direction_at(j)).0,
            neighbor(a, direction_at(j)).1,
        ) == Room::Empty
}

/// Whether the `i`th move of `path` is a step onto an empty room.
pub open spec fn walk_step<T: Maze>(maze: T, path: Seq<Cell>, i: int) -> bool {
    maze_step(maze, path[i], path[i + 1])
}

/// Whether `path` walks through `maze`, each move a unit step onto an empty
/// room; it has `path.len() - 1` moves.
pub open spec fn is_walk<T: Maze>(maze: T, path: Seq<Cell>) -> bool {
    &&& path.len() >= 1
    &&& forall|i: int| 0 <= i < path.len() - 1 ==> #[trigger] walk_step(maze, path, i)
}

/// The state of a search run with one maze, every step so far having
/// expanded its cell completely: `done` holds the cells expanded, each at
/// most `d` links from home; every reached cell is at most `d + 1` links
/// away and is done or waiting, an empty room next to its parent; waiting
/// cells are not done and at least `d` links away; every empty neighbour of
/// a done cell is reached, at most one link further from home; and no done
/// cell has a goal next to it.
pub open spec fn bfs_layers<T: Maze>(s: BFS, maze: T, done: Set<Cell>, d: nat) -> bool {
    let h = s.origin();
    &&& s.wf()
    &&& explored_in(s, maze)
    &&& !s.parents().contains_key(h)
    &&& maze.room_at(h.0 as isize, h.1 as isize) != Room::Empty
    &&& done.is_empty() ==> s.frontier() == seq![h]
    &&& !done.is_empty() ==> done.contains(h)
    &&& forall|x: Cell| #[trigger]
        done.contains(x) ==> (x == h || s.parents().contains_key(x)) && s.links_home(x) <= d
    &&& forall|c: Cell| #[trigger]
        s.parents().contains_key(c) ==> s.links_home(c) <= d + 1 && (done.contains(c)
            || s.frontier().contains(c))
    &&& forall|i: int|
        0 <= i < s.frontier().len() ==> !done.contains(#[trigger] s.frontier()[i]) && d
            <= s.links_home(s.frontier()[i])
    &&& forall|x: Cell, j: int|
        #![trigger done.contains(x), neighbor(x, direction_at(j))]
        done.contains(x) && 0 <= j < 4 && maze.room_at(
            neighbor(x, direction_at(j)).0,
            neighbor(x, direction_at(j)).1,
        ) == Room::Empty ==> s.parents().contains_key(cell_at(neighbor(x, direction_at(j))))
            && s.links_home(cell_at(neighbor(x, direction_at(j)))) <= s.links_home(x) + 1
    &&& forall|x: Cell, j: int|
        #![trigger done.contains(x), neighbor(x, direction_at(j))]
        done.contains(x) && 0 <= j < 4 ==> !(maze.room_at(
            neighbor(x, direction_at(j)).0,
            neighbor(x, direction_at(j)).1,
        ) matches Room::Goal(_))
}

/// Whether `maze` has a goal one unit step from `c`.
pub open spec fn next_to_goal<T: Maze>(maze: T, c: Cell) -> bool {
    exists|j: int|
        #![trigger neighbor(c, direction_at(j))]
        0 <= j < 4 && (maze.room_at(
            neighbor(c, direction_at(j)).0,
            neighbor(c, direction_at(j)).1,
        ) matches Room::Goal(_))
}

/// A new search in a maze that does not have its home empty starts in
/// layers, with nothing done.
pub proof fn lemma_layers_start<T: Maze>(s: BFS, maze: T)
    requires
        s.wf(),
        s.parents() == Map::<Cell, Cell>::empty(),
        s.frontier() == seq![s.origin()],
        maze.room_at(s.origin().0 as isize, s.origin().1 as isize) != Room::Empty,
    ensures
        bfs_layers(s, maze, Set::empty(), 0),
{
}

/// A step that expands its cell completely, with the same maze, keeps the
/// search in layers: the expanded cell joins the done cells, and the layer
/// reached so far becomes its distance home, which never decreases.
pub proof fn lemma_layers_step<T: Maze>(
    pre: BFS,
    post: BFS,
    maze: T,
    r: Option<Cell>,
    done: Set<Cell>,
    d: nat,
)
    requires
        pre.can_step_goal(),
        goal_step(pre, post, maze, r),
        post.wf(),
        r is Some,
        bfs_layers(pre, maze, done, d),
    ensures
        d <= pre.links_home(pre.frontier()[0]),
        bfs_layers(post, maze, done.insert(pre.frontier()[0]), pre.links_home(pre.frontier()[0])),
{
    let h = pre.origin();
    let e = pre.frontier()[0];
    let rest = pre.frontier().drop_first();
    let x = expand(maze, e, 0, pre.parents(), rest);
    lemma_expand_facts(maze, e, 0, pre.parents(), rest);
    lemma_expand_complete(maze, e, 0, pre.parents(), rest);
    lemma_home_not_reached(pre, post, maze, r);
    lemma_links_stable(pre, post);
    lemma_wf_facts(&pre);
    lemma_wf_facts(&post);
    lemma_frontier_distinct(&pre);
    lemma_breadth_first(&pre);
    lemma_explored_step(pre, post, maze, r);
    let d2 = pre.links_home(e);
    let done2 = done.insert(e);
    assert(!x.2);
    assert(post.parents() == x.0 && post.frontier() == x.1);
    // e keeps its count
    assert(post.links_home(e) == d2);
    // cells reached in this step are one link further than e
    assert forall|c: Cell| #[trigger]
        post.parents().contains_key(c) && !pre.parents().contains_key(c) implies post.links_home(c)
        == d2 + 1 && c != h && post.frontier().contains(c) by {
        lemma_links_of_parent(&post, c);
    }
    assert forall|xx: Cell| #[trigger]
        done2.contains(xx) implies (xx == h || post.parents().contains_key(xx))
        && post.links_home(xx) <= d2 by {
        if xx != e {
            assert(done.contains(xx));
        }
    }
    assert forall|c: Cell| #[trigger]
        post.parents().contains_key(c) implies post.links_home(c) <= d2 + 1 && (done2.contains(c)
        || post.frontier().contains(c)) by {
        if pre.parents().contains_key(c) {
            if !done.contains(c) && c != e {
                assert(pre.frontier().contains(c));
                let t = choose|t: int| 0 <= t < pre.frontier().len() && pre.frontier()[t] == c;
                assert(t != 0);
                assert(rest[t - 1] == c);
                assert(rest.is_prefix_of(x.1));
                assert(x.1[t - 1] == c);
            }
        }
    }
    assert forall|i: int| 0 <= i < post.frontier().len() implies !done2.contains(
        #[trigger] post.frontier()[i],
    ) && d2 <= post.links_home(post.frontier()[i]) by {
        let c = post.frontier()[i];
        if i < rest.len() {
            assert(rest.is_prefix_of(x.1));
            assert(x.1[i] == rest[i]);
            assert(rest[i] == pre.frontier()[i + 1]);
            assert(pre.frontier()[0] != pre.frontier()[i + 1]);
            assert(pre.links_home(pre.frontier()[0]) <= pre.links_home(pre.frontier()[i + 1]));
            assert(pre.parents().contains_key(c));
        } else {
            assert(post.parents().contains_key(c) && !pre.parents().contains_key(c));
            if done2.contains(c) {
                assert(c == e || done.contains(c));
            }
        }
    }
    assert forall|xx: Cell, j: int|
        #![trigger done2.contains(xx), neighbor(xx, direction_at(j))]
        done2.contains(xx) && 0 <= j < 4 && maze.room_at(
            neighbor(xx, direction_at(j)).0,
            neighbor(xx, direction_at(j)).1,
        ) == Room::Empty implies post.parents().contains_key(cell_at(neighbor(xx, direction_at(j))))
        && post.links_home(cell_at(neighbor(xx, direction_at(j)))) <= post.links_home(xx) + 1 by {
        let k = cell_at(neighbor(xx, direction_at(j)));
        if xx == e {
            assert(post.parents().contains_key(k));
        } else {
            assert(done.contains(xx));
            assert(pre.parents().contains_key(k));
        }
    }
    assert forall|xx: Cell, j: int|
        #![trigger done2.contains(xx), neighbor(xx, direction_at(j))]
        done2.contains(xx) && 0 <= j < 4 implies !(maze.room_at(
        neighbor(xx, direction_at(j)).0,
        neighbor(xx, direction_at(j)).1,
    ) matches Room::Goal(_)) by {
        if xx == e {
            let n = neighbor(e, direction_at(j));
            if maze.room_at(n.0, n.1) matches Room::Goal(_) {
                let k = cell_at(n);
                assert(post.parents().contains_key(k));
                lemma_no_goal_reached(post, maze, n);
            }
        } else {
            assert(done.contains(xx));
        }
    }
}

/// A cell that a goal room stands on is never reached: only empty rooms are.
proof fn lemma_no_goal_reached<T: Maze>(s: BFS, maze: T, n: (isize, isize))
    requires
        explored_in(s, maze),
        maze.room_at(n.0, n.1) matches Room::Goal(_),
    ensures
        !s.parents().contains_key(cell_at(n)),
{
    let c = cell_at(n);
    if s.parents().contains_key(c) {
        let p = s.parents()[c];
        let j = choose|j: int|
            #![trigger neighbor(p, direction_at(j))]
            0 <= j < 4 && cell_at(neighbor(p, direction_at(j))) == c && maze.room_at(
                neighbor(p, direction_at(j)).0,
                neighbor(p, direction_at(j)).1,
            ) == Room::Empty;
        let m = neighbor(p, direction_at(j));
        lemma_cast_round_trip(n.0);
        lemma_cast_round_trip(n.1);
        lemma_cast_round_trip(m.0);
        lemma_cast_round_trip(m.1);
        assert(m == n);
    }
}

proof fn lemma_walk_from<T: Maze>(
    s: BFS,
    maze: T,
    done: Set<Cell>,
    d: nat,
    path: Seq<Cell>,
    k: int,
)
    requires
        bfs_layers(s, maze, done, d),
        !done.is_empty(),
        is_walk(maze, path),
        path[0] == s.origin(),
        s.parents().contains_key(path.last()),
        0 <= k < path.len(),
        k == 0 || s.parents().contains_key(path[k]),
        s.links_home(path[k]) <= k,
    ensures
        s.links_home(path.last()) <= path.len() - 1,
    decreases path.len() - k,
{
    let last = path.len() - 1;
    if k < last {
        if done.contains(path[k]) {
            assert(walk_step(maze, path, k));
            let j = choose|j: int|
                #![trigger neighbor(path[k], direction_at(j))]
                0 <= j < 4 && cell_at(neighbor(path[k], direction_at(j))) == path[k + 1]
                    && maze.room_at(
                    neighbor(path[k], direction_at(j)).0,
                    neighbor(path[k], direction_at(j)).1,
                ) == Room::Empty;
            lemma_walk_from(s, maze, done, d, path, k + 1);
        } else {
            assert(k != 0);
            assert(s.frontier().contains(path[k]));
            let t = choose|t: int| 0 <= t < s.frontier().len() && s.frontier()[t] == path[k];
            assert(d <= s.links_home(s.frontier()[t]));
        }
    }
}

/// Breadth-first search finds shortest ways: in a search kept in layers,
/// no walk from home through the maze reaches a reached cell in fewer moves
/// than that cell's distance home in links. With `lemma_way_home` and
/// `lemma_explored_step`, the chain of parents that `step_home` walks back
/// along is a shortest walk.
pub proof fn lemma_shortest_walk<T: Maze>(
    s: BFS,
    maze: T,
    done: Set<Cell>,
    d: nat,
    path: Seq<Cell>,
)
    requires
        bfs_layers(s, maze, done, d),
        is_walk(maze, path),
        path[0] == s.origin(),
        s.parents().contains_key(path.last()),
    ensures
        s.links_home(path.last()) <= path.len() - 1,
{
    lemma_wf_facts(&s);
    if done.is_empty() {
        assert(s.frontier().contains(path.last()));
        assert(s.frontier()[0] == s.origin());
    } else {
        lemma_walk_from(s, maze, done, d, path, 0);
    }
}


/// The chain of parents, read from home outwards, is a walk through the
/// maze: when every reached cell is an empty room next to its parent, each
/// reached cell `c` is the end of a walk from home of `links_home(c)` moves.
pub proof fn lemma_chain_is_walk<T: Maze>(s: BFS, maze: T, c: Cell) -> (path: Seq<Cell>)
    requires
        s.wf(),
        explored_in(s, maze),
        s.parents().contains_key(c),
    ensures
        is_walk(maze, path),
        path[0] == s.origin(),
        path.last() == c,
        path.len() == s.links_home(c) + 1,
    decreases s.links_home(c),
{
    let p = s.parents()[c];
    lemma_links_of_parent(&s, c);
    let prefix = if p == s.origin() {
        seq![p]
    } else {
        lemma_chain_is_walk(s, maze, p)
    };
    let path = prefix.push(c);
    assert(maze_step(maze, p, c));
    assert forall|i: int| 0 <= i < path.len() - 1 implies #[trigger] walk_step(maze, path, i) by {
        if i < prefix.len() - 1 {
            assert(walk_step(maze, prefix, i));
            assert(path[i] == prefix[i] && path[i + 1] == prefix[i + 1]);
        } else {
            assert(path[i] == p && path[i + 1] == c);
        }
    }
    path
}

/// In a search kept in layers, the distance home in links of every reached
/// cell is the fewest moves of any walk from home to it, and the chain of
/// parents is such a shortest walk.
pub proof fn lemma_links_are_distances<T: Maze>(
    s: BFS,
    maze: T,
    done: Set<Cell>,
    d: nat,
    c: Cell,
)
    requires
        bfs_layers(s, maze, done, d),
        explored_in(s, maze),
        s.parents().contains_key(c),
    ensures
        exists|path: Seq<Cell>|
            #[trigger] is_walk(maze, path) && path[0] == s.origin() && path.last() == c && path.len()
                == s.links_home(c) + 1,
        forall|path: Seq<Cell>|
            #[trigger] is_walk(maze, path) && path[0] == s.origin() && path.last() == c
                ==> s.links_home(c) <= path.len() - 1,
{
    let w = lemma_chain_is_walk(s, maze, c);
    assert forall|path: Seq<Cell>|
        #[trigger] is_walk(maze, path) && path[0] == s.origin() && path.last() == c implies s.links_home(
        c,
    ) <= path.len() - 1 by {
        lemma_shortest_walk(s, maze, done, d, path);
    }
}


proof fn lemma_goal_walk_from<T: Maze>(
    s: BFS,
    maze: T,
    done: Set<Cell>,
    d: nat,
    path: Seq<Cell>,
    k: int,
)
    requires
        bfs_layers(s, maze, done, d),
        !done.is_empty(),
        s.frontier().len() > 0,
        is_walk(maze, path),
        path[0] == s.origin(),
        next_to_goal(maze, path.last()),
        0 <= k < path.len(),
        k == 0 || s.parents().contains_key(path[k]),
        s.links_home(path[k]) <= k,
    ensures
        s.links_home(s.frontier()[0]) <= path.len() - 1,
    decreases path.len() - k,
{
    lemma_breadth_first(&s);
    let last = path.len() - 1;
    if done.contains(path[k]) {
        if k == last {
            let j = choose|j: int|
                #![trigger neighbor(path[k], direction_at(j))]
                0 <= j < 4 && (maze.room_at(
                    neighbor(path[k], direction_at(j)).0,
                    neighbor(path[k], direction_at(j)).1,
                ) matches Room::Goal(_));
            assert(false);
        } else {
            assert(walk_step(maze, path, k));
            let j = choose|j: int|
                #![trigger neighbor(path[k], direction_at(j))]
                0 <= j < 4 && cell_at(neighbor(path[k], direction_at(j))) == path[k + 1]
                    && maze.room_at(
                    neighbor(path[k], direction_at(j)).0,
                    neighbor(path[k], direction_at(j)).1,
                ) == Room::Empty;
            lemma_goal_walk_from(s, maze, done, d, path, k + 1);
        }
    } else {
        assert(k != 0);
        assert(s.frontier().contains(path[k]));
        let t = choose|t: int| 0 <= t < s.frontier().len() && s.frontier()[t] == path[k];
        assert(s.links_home(s.frontier()[0]) <= s.links_home(s.frontier()[t]));
    }
}

/// The goal is found along a shortest way: when a step from a search kept
/// in layers stops at the goal, the cursor it leaves is no more links from
/// home than the last cell of any walk from home that ends next to a goal.
/// So walking back with `step_home` from there follows a shortest way from
/// home to a goal.
pub proof fn lemma_goal_found_shortest<T: Maze>(
    pre: BFS,
    post: BFS,
    maze: T,
    done: Set<Cell>,
    d: nat,
    path: Seq<Cell>,
)
    requires
        pre.can_step_goal(),
        goal_step(pre, post, maze, None),
        post.wf(),
        bfs_layers(pre, maze, done, d),
        is_walk(maze, path),
        path[0] == pre.origin(),
        next_to_goal(maze, path.last()),
    ensures
        post.home_distance() <= path.len() - 1,
{
    let e = pre.frontier()[0];
    let rest = pre.frontier().drop_first();
    lemma_expand_facts(maze, e, 0, pre.parents(), rest);
    lemma_links_stable(pre, post);
    lemma_wf_facts(&pre);
    lemma_wf_facts(&post);
    lemma_home_not_reached(pre, post, maze, None);
    assert(post.cursor() == e);
    assert(post.links_home(e) == pre.links_home(e));
    if done.is_empty() {
        assert(e == pre.origin());
    } else {
        lemma_goal_walk_from(pre, maze, done, d, path, 0);
    }
}

/// When the goal cannot be reached the queue empties: if a search kept in
/// layers has nothing left to expand, no walk from home through the maze
/// ends next to a goal.
pub proof fn lemma_no_way_to_goal<T: Maze>(
    s: BFS,
    maze: T,
    done: Set<Cell>,
    d: nat,
    path: Seq<Cell>,
)
    requires
        bfs_layers(s, maze, done, d),
        s.frontier().len() == 0,
        is_walk(maze, path),
        path[0] == s.origin(),
    ensures
        !next_to_goal(maze, path.last()),
{
    assert(!done.is_empty());
    assert forall|k: int| 0 <= k < path.len() implies #[trigger] done.contains(path[k]) by {
        lemma_walk_done(s, maze, done, d, path, k);
    }
    let last = path.last();
    assert(done.contains(path[path.len() - 1]));
    if next_to_goal(maze, last) {
        let j = choose|j: int|
            #![trigger neighbor(last, direction_at(j))]
            0 <= j < 4 && (maze.room_at(
                neighbor(last, direction_at(j)).0,
                neighbor(last, direction_at(j)).1,
            ) matches Room::Goal(_));
        assert(done.contains(last));
    }
}

/// A search kept in layers that has nothing left to expand has expanded
/// every cell that a walk from home through the maze ends at.
pub proof fn lemma_exhausted_covers_walks<T: Maze>(
    s: BFS,
    maze: T,
    done: Set<Cell>,
    d: nat,
    path: Seq<Cell>,
)
    requires
        bfs_layers(s, maze, done, d),
        s.frontier().len() == 0,
        is_walk(maze, path),
        path[0] == s.origin(),
    ensures
        done.contains(path.last()),
{
    assert(!done.is_empty());
    lemma_walk_done(s, maze, done, d, path, path.len() - 1);
}

proof fn lemma_walk_done<T: Maze>(
    s: BFS,
    maze: T,
    done: Set<Cell>,
    d: nat,
    path: Seq<Cell>,
    k: int,
)
    requires
        bfs_layers(s, maze, done, d),
        s.frontier().len() == 0,
        !done.is_empty(),
        is_walk(maze, path),
        path[0] == s.origin(),
        0 <= k < path.len(),
    ensures
        done.contains(path[k]),
    decreases k,
{
    if k > 0 {
        lemma_walk_done(s, maze, done, d, path, k - 1);
        assert(walk_step(maze, path, k - 1));
        let j = choose|j: int|
            #![trigger neighbor(path[k - 1], direction_at(j))]
            0 <= j < 4 && cell_at(neighbor(path[k - 1], direction_at(j))) == path[k]
                && maze.room_at(
                neighbor(path[k - 1], direction_at(j)).0,
                neighbor(path[k - 1], direction_at(j)).1,
            ) == Room::Empty;
        assert(s.parents().contains_key(path[k]));
        assert(!s.frontier().contains(path[k]));
    }
}

} // verus!
