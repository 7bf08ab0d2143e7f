use crate::layers::{
    bfs_layers, is_walk, lemma_chain_is_walk, lemma_goal_found_shortest, lemma_layers_start,
    lemma_exhausted_covers_walks, lemma_layers_step, lemma_links_are_distances, lemma_no_way_to_goal,
    next_to_goal,
};
use crate::maze::{Maze, Room};
use crate::search::{
    cell_at, direction_at, explored_in, follow, goal_step, home_step, lemma_cast_round_trip,
    lemma_expand_facts, lemma_links_stable, lemma_way_home, lemma_wf_facts, lemma_frontier_distinct,
    lemma_explored_step, lemma_home_not_reached, neighbor, Cell, StepSearch, BFS,
};
use vstd::prelude::*;

verus! {

/// Whether `states` is a run of `step_goal` with one maze: the first state
/// is a new search, which has reached nothing and waits to expand its home,
/// a cell that the maze does not have empty; and the `i`th call took
/// `states[i]` to `states[i + 1]` and returned `Some(expanded[i])`.
pub open spec fn expanding_run<T: Maze>(maze: T, states: Seq<BFS>, expanded: Seq<Cell>) -> bool {
    let h = states[0].origin();
    &&& states.len() == expanded.len() + 1
    &&& states[0].parents() == Map::<Cell, Cell>::empty()
    &&& states[0].frontier() == seq![h]
    &&& maze.room_at(h.0 as isize, h.1 as isize) != Room::Empty
    &&& forall|i: int| 0 <= i < states.len() ==> #[trigger] states[i].wf()
    &&& forall|i: int|
        #![trigger expanded[i]]
        0 <= i < expanded.len() ==> states[i].can_step_goal() && goal_step(
            states[i],
            states[i + 1],
            maze,
            Some(expanded[i]),
        )
}

/// Whether `n` is the fewest moves of any walk through `maze` from `a` to
/// `b`, each move a unit step onto an empty room.
pub open spec fn walk_distance<T: Maze>(maze: T, a: Cell, b: Cell, n: nat) -> bool {
    &&& exists|path: Seq<Cell>|
        #[trigger] is_walk(maze, path) && path[0] == a && path.last() == b && path.len() == n + 1
    &&& forall|path: Seq<Cell>|
        #[trigger] is_walk(maze, path) && path[0] == a && path.last() == b ==> n <= path.len() - 1
}

/// The distance home in links of the cell expanded last; 0 before any.
spec fn run_depth(states: Seq<BFS>, expanded: Seq<Cell>, n: int) -> nat {
    if n == 0 {
        0
    } else {
        states[n].links_home(expanded[n - 1])
    }
}

/// What a search in layers has done so far when `p` lists the cells its
/// calls returned, in order, and the last of them is `d` links from home.
#[verifier::opaque]
spec fn expanded_so_far<T: Maze>(s: BFS, maze: T, p: Seq<Cell>, d: nat) -> bool {
    &&& bfs_layers(s, maze, p.to_set(), d)
    &&& p.no_duplicates()
    &&& p.len() > 0 ==> p[0] == s.origin()
    &&& forall|i: int|
        0 <= i < p.len() ==> #[trigger] p[i] == s.origin() || s.parents().contains_key(p[i])
    &&& forall|i: int, j: int|
        0 <= i <= j < p.len() ==> s.links_home(#[trigger] p[i]) <= s.links_home(#[trigger] p[j])
    &&& forall|i: int| 0 <= i < p.len() ==> s.links_home(#[trigger] p[i]) <= d
}

/// One more call that returns a cell keeps `expanded_so_far`, with that
/// cell appended.
proof fn lemma_extend<T: Maze>(maze: T, pre: BFS, post: BFS, p: Seq<Cell>, e: Cell, d: nat)
    requires
        pre.can_step_goal(),
        goal_step(pre, post, maze, Some(e)),
        post.wf(),
        expanded_so_far(pre, maze, p, d),
    ensures
        e == pre.frontier()[0],
        post.origin() == pre.origin(),
        pre.parents().submap_of(post.parents()),
        expanded_so_far(post, maze, p.push(e), post.links_home(e)),
{
    reveal(expanded_so_far);
    let h = pre.origin();
    let done = p.to_set();
    let q = p.push(e);
    lemma_layers_step(pre, post, maze, Some(e), done, d);
    lemma_expand_facts(maze, pre.frontier()[0], 0, pre.parents(), pre.frontier().drop_first());
    assert(e == pre.frontier()[0]);
    p.lemma_push_to_set_commute(e);
    assert(q.to_set() == done.insert(e));
    lemma_links_stable(pre, post);
    lemma_wf_facts(&pre);
    lemma_wf_facts(&post);
    assert(!post.parents().contains_key(h));
    assert forall|c: Cell|
        c == h || pre.parents().contains_key(c) implies #[trigger] post.links_home(c)
        == pre.links_home(c) by {}
    assert(e == h || pre.parents().contains_key(e));
    assert(!done.contains(e));
    assert(q.no_duplicates()) by {
        assert forall|i: int, j: int| 0 <= i < j < q.len() implies q[i] != q[j] by {
            if j == p.len() {
                assert(p.contains(q[i]));
            }
        }
    }
    if p.len() == 0 {
        assert(pre.frontier()[0] == h);
    }
    assert forall|i: int| 0 <= i < q.len() implies #[trigger] q[i] == h
        || post.parents().contains_key(q[i]) by {
        if i < p.len() {
            assert(p[i] == h || pre.parents().contains_key(p[i]));
        }
    }
    assert forall|i: int, j: int|
        0 <= i <= j < q.len() implies post.links_home(#[trigger] q[i]) <= post.links_home(
            #[trigger] q[j],
        ) by {
        if i < p.len() {
            assert(p[i] == h || pre.parents().contains_key(p[i]));
            assert(pre.links_home(p[i]) <= d);
        }
        if j < p.len() {
            assert(p[j] == h || pre.parents().contains_key(p[j]));
            assert(pre.links_home(p[i]) <= pre.links_home(p[j]));
        }
    }
    assert forall|i: int| 0 <= i < q.len() implies post.links_home(#[trigger] q[i])
        <= post.links_home(e) by {
        if i < p.len() {
            assert(p[i] == h || pre.parents().contains_key(p[i]));
            assert(pre.links_home(p[i]) <= d);
        }
    }
}

/// What holds after the first `n` calls of a run, proved by induction on `n`.
proof fn lemma_run_prefix<T: Maze>(maze: T, states: Seq<BFS>, expanded: Seq<Cell>, n: int)
    requires
        expanding_run(maze, states, expanded),
        0 <= n < states.len(),
    ensures
        states[n].origin() == states[0].origin(),
        expanded_so_far(states[n], maze, expanded.take(n), run_depth(states, expanded, n)),
        forall|m: int|
            0 <= m <= n ==> #[trigger] states[m].parents().submap_of(states[n].parents()),
    decreases n,
{
    assert(states[0].wf());
    if n == 0 {
        reveal(expanded_so_far);
        assert(expanded.take(0).to_set() =~= Set::<Cell>::empty());
        lemma_layers_start(states[0], maze);
        assert(states[0].parents().submap_of(states[0].parents()));
    } else {
        let m = n - 1;
        lemma_run_prefix(maze, states, expanded, m);
        let pre = states[m];
        let post = states[n];
        let e = expanded[m];
        assert(post.wf());
        assert(pre.can_step_goal() && goal_step(pre, post, maze, Some(e)));
        lemma_extend(maze, pre, post, expanded.take(m), e, run_depth(states, expanded, m));
        assert(expanded.take(n) =~= expanded.take(m).push(e));
        assert forall|k: int| 0 <= k <= n implies #[trigger] states[k].parents().submap_of(
            post.parents(),
        ) by {
            if k < n {
                assert(states[k].parents().submap_of(pre.parents()));
                assert forall|c: Cell| #[trigger]
                    states[k].parents().contains_key(c) implies post.parents().contains_key(c)
                    && post.parents()[c] == states[k].parents()[c] by {
                    assert(pre.parents().contains_key(c));
                }
            } else {
                assert(post.parents().submap_of(post.parents()));
            }
        }
    }
}

/// What every state of a run keeps: home is never reached from a
/// neighbour; every reached cell is an empty room one unit step from the
/// cell it was reached from, and following parent links from it arrives at
/// home after `links_home` of them; no cell waits twice, every waiting cell
/// is home or reached, and no cell that a call has returned waits again.
pub proof fn lemma_run_invariant<T: Maze>(maze: T, states: Seq<BFS>, expanded: Seq<Cell>, n: int)
    requires
        expanding_run(maze, states, expanded),
        0 <= n < states.len(),
    ensures
        states[n].origin() == states[0].origin(),
        !states[n].parents().contains_key(states[0].origin()),
        explored_in(states[n], maze),
        forall|c: Cell| #[trigger]
            states[n].parents().contains_key(c) ==> maze.room_at(c.0 as isize, c.1 as isize)
                == Room::Empty && states[n].links_home(c) > 0 && follow(
                states[n].parents(),
                c,
                states[n].links_home(c),
            ) == states[0].origin(),
        states[n].frontier().no_duplicates(),
        forall|k: int|
            0 <= k < states[n].frontier().len() ==> #[trigger] states[n].frontier()[k]
                == states[0].origin() || states[n].parents().contains_key(states[n].frontier()[k]),
        forall|i: int, k: int|
            0 <= i < n && 0 <= k < states[n].frontier().len() ==> #[trigger] states[n].frontier()[k]
                != #[trigger] expanded[i],
{
    lemma_run_prefix(maze, states, expanded, n);
    reveal(expanded_so_far);
    let s = states[n];
    assert(s.wf());
    lemma_wf_facts(&s);
    lemma_frontier_distinct(&s);
    assert forall|c: Cell| #[trigger] s.parents().contains_key(c) implies maze.room_at(
        c.0 as isize,
        c.1 as isize,
    ) == Room::Empty && s.links_home(c) > 0 && follow(s.parents(), c, s.links_home(c))
        == states[0].origin() by {
        lemma_way_home(&s, c);
        let p = s.parents()[c];
        let j = choose|j: int|
            #![trigger neighbor(p, direction_at(j))]
            0 <= j < 4 && cell_at(neighbor(p, direction_at(j))) == c && maze.room_at(
                neighbor(p, direction_at(j)).0,
                neighbor(p, direction_at(j)).1,
            ) == Room::Empty;
        let nb = neighbor(p, direction_at(j));
        lemma_cast_round_trip(nb.0);
        lemma_cast_round_trip(nb.1);
    }
    assert forall|i: int, k: int|
        0 <= i < n && 0 <= k < s.frontier().len() implies #[trigger] s.frontier()[k]
        != #[trigger] expanded[i] by {
        assert(expanded.take(n)[i] == expanded[i]);
        assert(expanded.take(n).to_set().contains(expanded[i]));
    }
}

/// Cells are expanded in breadth-first order: the first call returns home;
/// no cell is returned twice; every returned cell is home or a reached
/// cell, whose distance home in links is the fewest moves of any walk from
/// home to it through empty rooms; and those distances never decrease from
/// one returned cell to the next.
pub proof fn lemma_run_breadth_first<T: Maze>(maze: T, states: Seq<BFS>, expanded: Seq<Cell>)
    requires
        expanding_run(maze, states, expanded),
        expanded.len() > 0,
    ensures
        expanded[0] == states[0].origin(),
        expanded.no_duplicates(),
        forall|i: int|
            0 <= i < expanded.len() ==> #[trigger] expanded[i] == states[0].origin() || states.last().parents().contains_key(
                expanded[i],
            ),
        forall|i: int|
            0 <= i < expanded.len() ==> walk_distance(
                maze,
                states[0].origin(),
                #[trigger] expanded[i],
                states.last().links_home(expanded[i]),
            ),
        forall|i: int, j: int|
            0 <= i <= j < expanded.len() ==> states.last().links_home(#[trigger] expanded[i])
                <= states.last().links_home(#[trigger] expanded[j]),
{
    let n = expanded.len() as int;
    let h = states[0].origin();
    lemma_run_prefix(maze, states, expanded, n);
    reveal(expanded_so_far);
    assert(expanded.take(n) =~= expanded);
    let s = states[n];
    assert(s.wf());
    lemma_wf_facts(&s);
    assert forall|i: int| 0 <= i < n implies walk_distance(
        maze,
        h,
        #[trigger] expanded[i],
        s.links_home(expanded[i]),
    ) by {
        let c = expanded[i];
        if c == h {
            let w = seq![h];
            assert(is_walk(maze, w));
            assert(s.links_home(h) == 0);
        } else {
            lemma_links_are_distances(
                s,
                maze,
                expanded.take(n).to_set(),
                run_depth(states, expanded, n),
                c,
            );
        }
    }
}

/// Whether some walk from `h` through `maze` ends next to a goal.
pub open spec fn goal_reachable<T: Maze>(maze: T, h: Cell) -> bool {
    exists|path: Seq<Cell>|
        #[trigger] is_walk(maze, path) && path[0] == h && next_to_goal(maze, path.last())
}

/// When the call after a run stops at the goal, it has found the goal along
/// a shortest way: every reached cell is still an empty room next to its
/// parent; the cursor it leaves is home or a reached cell next to a goal; its distance home in links is the fewest moves of any walk from
/// home to it, and no walk from home that ends next to a goal is shorter;
/// following parent links from the cursor passes through reached cells and
/// arrives at home after exactly that many links.
pub proof fn lemma_run_finds_goal<T: Maze>(
    maze: T,
    states: Seq<BFS>,
    expanded: Seq<Cell>,
    post: BFS,
)
    requires
        expanding_run(maze, states, expanded),
        states.last().can_step_goal(),
        goal_step(states.last(), post, maze, None),
        post.wf(),
    ensures
        post.origin() == states[0].origin(),
        explored_in(post, maze),
        next_to_goal(maze, post.cursor()),
        post.cursor() == states[0].origin() || post.parents().contains_key(post.cursor()),
        walk_distance(maze, states[0].origin(), post.cursor(), post.home_distance()),
        forall|path: Seq<Cell>|
            #[trigger] is_walk(maze, path) && path[0] == states[0].origin() && next_to_goal(
                maze,
                path.last(),
            ) ==> post.home_distance() <= path.len() - 1,
        follow(post.parents(), post.cursor(), post.home_distance()) == states[0].origin(),
        forall|i: nat|
            0 < i < post.home_distance() ==> post.parents().contains_key(
                #[trigger] follow(post.parents(), post.cursor(), i),
            ) && follow(post.parents(), post.cursor(), i) != states[0].origin(),
{
    let n = expanded.len() as int;
    let h = states[0].origin();
    lemma_run_prefix(maze, states, expanded, n);
    reveal(expanded_so_far);
    let pre = states[n];
    assert(pre.wf());
    let done = expanded.take(n).to_set();
    let d = run_depth(states, expanded, n);
    let e = pre.frontier()[0];
    lemma_expand_facts(maze, e, 0, pre.parents(), pre.frontier().drop_first());
    lemma_links_stable(pre, post);
    lemma_explored_step(pre, post, maze, None);
    lemma_wf_facts(&pre);
    lemma_wf_facts(&post);
    assert(post.cursor() == e);
    assert(e == h || pre.parents().contains_key(e));
    assert forall|path: Seq<Cell>|
        #[trigger] is_walk(maze, path) && path[0] == h && next_to_goal(
            maze,
            path.last(),
        ) implies post.home_distance() <= path.len() - 1 by {
        lemma_goal_found_shortest(pre, post, maze, done, d, path);
    }
    if e == h {
        let w = seq![h];
        assert(is_walk(maze, w));
        assert(pre.links_home(h) == 0);
        lemma_home_not_reached(pre, post, maze, None);
        assert(post.home_distance() == 0);
    } else {
        lemma_links_are_distances(pre, maze, done, d, e);
        assert(post.home_distance() == pre.links_home(e));
        lemma_way_home(&post, e);
    }
}

/// A run is bounded by what can be reached: when every walk from home
/// through the maze ends at home or in the finite set `reach`, at most
/// `reach.len() + 1` calls return a cell, and after that many the queue is
/// empty. When some walk from home ends next to a goal, the queue never
/// empties and at most `reach.len()` calls return a cell, so a later call
/// stops at the goal.
pub proof fn lemma_run_bounded<T: Maze>(
    maze: T,
    states: Seq<BFS>,
    expanded: Seq<Cell>,
    reach: Set<Cell>,
)
    requires
        expanding_run(maze, states, expanded),
        reach.finite(),
        forall|path: Seq<Cell>|
            #[trigger] is_walk(maze, path) && path[0] == states[0].origin() ==> path.last()
                == states[0].origin() || reach.contains(path.last()),
    ensures
        expanded.len() <= reach.len() + 1,
        expanded.len() == reach.len() + 1 ==> states.last().frontier().len() == 0,
        goal_reachable(maze, states[0].origin()) ==> expanded.len() <= reach.len()
            && states.last().frontier().len() > 0,
{
    let n = expanded.len() as int;
    let h = states[0].origin();
    lemma_run_prefix(maze, states, expanded, n);
    reveal(expanded_so_far);
    assert(expanded.take(n) =~= expanded);
    let s = states[n];
    assert(s.wf());
    lemma_wf_facts(&s);
    let done = expanded.to_set();
    let d = run_depth(states, expanded, n);
    let all = reach.insert(h);
    assert forall|c: Cell| s.parents().contains_key(c) implies #[trigger] all.contains(c) by {
        let w = lemma_chain_is_walk(s, maze, c);
    }
    assert forall|c: Cell| #[trigger] done.contains(c) implies all.contains(c) by {
        let i = choose|i: int| 0 <= i < n && expanded[i] == c;
        assert(expanded[i] == h || s.parents().contains_key(expanded[i]));
    }
    assert(done.subset_of(all));
    expanded.unique_seq_to_set();
    vstd::set_lib::lemma_len_subset(done, all);
    assert(all.len() <= reach.len() + 1);
    if expanded.len() == reach.len() + 1 && s.frontier().len() > 0 {
        let c = s.frontier()[0];
        assert(!done.contains(c));
        assert(done.contains(h));
        assert(c != h);
        assert(s.parents().contains_key(c));
        vstd::set_lib::lemma_len_subset(done.insert(c), all);
    }
    if goal_reachable(maze, h) {
        let path = choose|path: Seq<Cell>|
            #[trigger] is_walk(maze, path) && path[0] == h && next_to_goal(maze, path.last());
        if s.frontier().len() == 0 {
            lemma_no_way_to_goal(s, maze, done, d, path);
        }
    }
}

/// A run that has emptied the queue has expanded exactly home and every
/// cell that a walk from home reaches: when `reach` holds exactly the cells
/// other than home at which walks from home through the maze end, the queue
/// is empty after a run if and only if `reach.len() + 1` calls returned a
/// cell.
pub proof fn lemma_run_exhausted<T: Maze>(
    maze: T,
    states: Seq<BFS>,
    expanded: Seq<Cell>,
    reach: Set<Cell>,
)
    requires
        expanding_run(maze, states, expanded),
        reach.finite(),
        !reach.contains(states[0].origin()),
        forall|c: Cell|
            #[trigger] reach.contains(c) ==> exists|path: Seq<Cell>|
                #[trigger] is_walk(maze, path) && path[0] == states[0].origin() && path.last() == c,
        forall|path: Seq<Cell>|
            #[trigger] is_walk(maze, path) && path[0] == states[0].origin() ==> path.last()
                == states[0].origin() || reach.contains(path.last()),
    ensures
        states.last().frontier().len() == 0 <==> expanded.len() == reach.len() + 1,
{
    let n = expanded.len() as int;
    let h = states[0].origin();
    lemma_run_bounded(maze, states, expanded, reach);
    lemma_run_prefix(maze, states, expanded, n);
    reveal(expanded_so_far);
    assert(expanded.take(n) =~= expanded);
    let s = states[n];
    let done = expanded.to_set();
    let d = run_depth(states, expanded, n);
    if s.frontier().len() == 0 {
        assert(s.frontier() != seq![h]);
        assert(!done.is_empty());
        let all = reach.insert(h);
        assert forall|c: Cell| #[trigger] all.contains(c) implies done.contains(c) by {
            if c != h {
                let path = choose|path: Seq<Cell>|
                    #[trigger] is_walk(maze, path) && path[0] == h && path.last() == c;
                lemma_exhausted_covers_walks(s, maze, done, d, path);
            }
        }
        expanded.unique_seq_to_set();
        vstd::set_lib::lemma_len_subset(all, done);
    }
}

/// Walking back after the goal is found: from a state whose cursor is a
/// reached cell `c0` that is `n` links from home, successive calls of
/// `step_home` return the cells that parent links lead to from `c0`, one
/// link further each call and none of them home, for the first `n - 1`
/// calls, and `None` from then on, the cursor staying where it is. Every
/// call is allowed and leaves the parent links as they were.
pub proof fn lemma_walk_back(states: Seq<BFS>, outs: Seq<Option<Cell>>)
    requires
        states.len() == outs.len() + 1,
        states[0].wf(),
        states[0].can_step_home(),
        forall|i: int|
            #![trigger outs[i]]
            0 <= i < outs.len() ==> home_step(states[i], states[i + 1], outs[i]),
    ensures
        forall|i: int|
            0 <= i < states.len() ==> #[trigger] states[i].can_step_home() && states[i].parents()
                == states[0].parents() && states[i].origin() == states[0].origin(),
        forall|i: int|
            #![trigger outs[i]]
            0 <= i < outs.len() ==> outs[i] == if i + 1 < states[0].home_distance() {
                Some(follow(states[0].parents(), states[0].cursor(), (i + 1) as nat))
            } else {
                None::<Cell>
            },
        forall|i: int|
            #![trigger outs[i]]
            0 <= i < outs.len() && i + 1 < states[0].home_distance() ==> follow(
                states[0].parents(),
                states[0].cursor(),
                (i + 1) as nat,
            ) != states[0].origin(),
{
    let s0 = states[0];
    let p = s0.parents();
    let c0 = s0.cursor();
    let n = s0.home_distance();
    let h = s0.origin();
    lemma_way_home(&s0, c0);
    lemma_walk_back_from(states, outs, states.len() - 1);
    assert forall|i: int| 0 <= i < states.len() implies #[trigger] states[i].can_step_home()
        && states[i].parents() == p && states[i].origin() == h by {
        assert(walked_back(s0, states[i], i));
    }
    assert forall|i: int| 0 <= i < outs.len() implies #[trigger] outs[i] == if i + 1 < n {
        Some(follow(p, c0, (i + 1) as nat))
    } else {
        None::<Cell>
    } by {
        lemma_walk_back_from(states, outs, i + 1);
    }
}

/// How many links the cursor has moved after `i` calls of `step_home`,
/// starting `n` links from home.
spec fn back_steps(i: int, n: nat) -> nat {
    if i < n - 1 {
        i as nat
    } else {
        (n - 1) as nat
    }
}

/// Whether `s` is where `i` calls of `step_home` lead from `s0`.
spec fn walked_back(s0: BFS, s: BFS, i: int) -> bool {
    &&& s.can_step_home()
    &&& s.parents() == s0.parents()
    &&& s.origin() == s0.origin()
    &&& s.cursor() == follow(s0.parents(), s0.cursor(), back_steps(i, s0.home_distance()))
}

/// The cursor after `m` calls of `step_home`: `min(m, n - 1)` links from
/// where it started, `n` being its distance home in links.
#[verifier::spinoff_prover]
proof fn lemma_walk_back_from(states: Seq<BFS>, outs: Seq<Option<Cell>>, m: int)
    requires
        states.len() == outs.len() + 1,
        states[0].wf(),
        states[0].can_step_home(),
        forall|i: int|
            #![trigger outs[i]]
            0 <= i < outs.len() ==> home_step(states[i], states[i + 1], outs[i]),
        0 <= m < states.len(),
    ensures
        forall|i: int| 0 <= i <= m ==> #[trigger] walked_back(states[0], states[i], i),
        m > 0 ==> outs[m - 1] == if m < states[0].home_distance() {
            Some(follow(states[0].parents(), states[0].cursor(), m as nat))
        } else {
            None::<Cell>
        },
    decreases m,
{
    let s0 = states[0];
    let p = s0.parents();
    let c0 = s0.cursor();
    let n = s0.home_distance();
    let h = s0.origin();
    lemma_way_home(&s0, c0);
    if m > 0 {
        lemma_walk_back_from(states, outs, m - 1);
        let k = back_steps(m - 1, n);
        let pre = states[m - 1];
        let post = states[m];
        assert(walked_back(s0, pre, m - 1));
        assert(home_step(pre, post, outs[m - 1]));
        assert(pre.cursor() == follow(p, c0, k));
        lemma_follow_next(p, c0, k);
        assert(p.contains_key(follow(p, c0, k)));
        assert(pre.parents()[pre.cursor()] == follow(p, c0, k + 1));
        if k + 1 < n {
            assert(follow(p, c0, k + 1) != h);
            assert(k == m - 1);
            assert(back_steps(m, n) == k + 1);
            assert(outs[m - 1] == Some(follow(p, c0, k + 1)));
            assert(post.cursor() == follow(p, c0, k + 1));
        } else {
            assert(follow(p, c0, n) == h);
            assert(back_steps(m, n) == k);
            assert(post.cursor() == pre.cursor());
        }
        assert(p.contains_key(follow(p, c0, back_steps(m, n))));
        assert(walked_back(s0, post, m));
        assert forall|i: int| 0 <= i <= m implies #[trigger] walked_back(s0, states[i], i) by {
            if i < m {
                assert(walked_back(s0, states[i], i));
            }
        }
    } else {
        assert(follow(p, c0, 0) == c0);
        assert(walked_back(s0, s0, 0));
    }
}

/// One more link: following `i + 1` links from `c` is the parent of the
/// cell that `i` links lead to.
proof fn lemma_follow_next(parents: Map<Cell, Cell>, c: Cell, i: nat)
    ensures
        follow(parents, c, i + 1) == parents[follow(parents, c, i)],
    decreases i,
{
    assert(follow(parents, c, i + 1) == follow(parents, parents[c], i));
    if i > 0 {
        lemma_follow_next(parents, parents[c], (i - 1) as nat);
        assert(follow(parents, c, i) == follow(parents, parents[c], (i - 1) as nat));
    } else {
        assert(follow(parents, parents[c], 0) == parents[c]);
    }
}

} // verus!
