//! Islands: the parts of the network that are connected in themselves.

use vstd::prelude::*;
use std::collections::{HashSet, VecDeque};

verus! {

/// The neighbours of every node, by position.
pub type AGraph = Vec<Vec<usize>>;

/// The rows of an adjacency list as sequences.
pub open spec fn rows(agraph: Seq<Vec<usize>>) -> Seq<Seq<usize>> {
    Seq::new(agraph.len(), |i: int| agraph[i]@)
}

/// Every neighbour is a position of the adjacency list.
pub open spec fn adjacency_in_range(adjacency: Seq<Seq<usize>>) -> bool {
    forall|i: int, j: int|
        0 <= i < adjacency.len() && 0 <= j < adjacency[i].len() ==> (#[trigger] adjacency[i][j])
            < adjacency.len()
}

/// Tells whether an adjacency list has one row for each of `count` nodes and
/// names positions of the list only.
pub fn adjacency_fits(agraph: &AGraph, count: usize) -> (fits: bool)
    ensures
        fits == (agraph@.len() == count && adjacency_in_range(rows(agraph@))),
{
    if agraph.len() != count {
        return false;
    }
    let ghost adjacency = rows(agraph@);
    let mut i: usize = 0;
    while i < agraph.len()
        invariant
            0 <= i <= agraph.len(),
            adjacency == rows(agraph@),
            forall|a: int, b: int|
                0 <= a < i && 0 <= b < adjacency[a].len() ==> (#[trigger] adjacency[a][b])
                    < adjacency.len(),
        decreases agraph.len() - i,
    {
        let row = &agraph[i];
        assert(row@ == adjacency[i as int]);
        let mut j: usize = 0;
        while j < row.len()
            invariant
                0 <= j <= row.len(),
                i < agraph.len(),
                adjacency == rows(agraph@),
                row@ == adjacency[i as int],
                forall|b: int| 0 <= b < j ==> (#[trigger] adjacency[i as int][b]) < adjacency.len(),
            decreases row.len() - j,
        {
            if row[j] >= agraph.len() {
                assert(adjacency[i as int][j as int] >= adjacency.len());
                return false;
            }
            j += 1;
        }
        i += 1;
    }
    true
}

/// Whoever is a neighbour of a node has that node as a neighbour.
pub open spec fn adjacency_symmetric(adjacency: Seq<Seq<usize>>) -> bool {
    forall|u: usize, v: usize|
        u < adjacency.len() && v < adjacency.len() && (#[trigger] adjacency[u as int].contains(v))
            ==> adjacency[v as int].contains(u)
}

/// The islands as sets of positions.
pub open spec fn island_sets(islands: Seq<HashSet<usize>>) -> Seq<Set<usize>> {
    Seq::new(islands.len(), |k: int| islands[k]@)
}

/// `path` leads from neighbour to neighbour and stays within `within`.
pub open spec fn is_path(adjacency: Seq<Seq<usize>>, path: Seq<usize>, within: Set<usize>) -> bool {
    &&& path.len() > 0
    &&& forall|k: int|
        0 <= k < path.len() ==> within.contains(#[trigger] path[k]) && path[k] < adjacency.len()
    &&& forall|k: int|
        0 <= k < path.len() - 1 ==> adjacency[(#[trigger] path[k]) as int].contains(path[k + 1])
}

/// A path within `within` leads from `from` to `to`.
pub open spec fn linked_within(
    adjacency: Seq<Seq<usize>>,
    within: Set<usize>,
    from: usize,
    to: usize,
) -> bool {
    exists|path: Seq<usize>|
        #[trigger] is_path(adjacency, path, within) && path[0] == from && path[path.len() - 1]
            == to
}

/// `seed` is the first position of the island, and a path within the island
/// leads from it to every position of the island.
pub open spec fn is_seed(adjacency: Seq<Seq<usize>>, island: Set<usize>, seed: usize) -> bool {
    &&& island.contains(seed)
    &&& forall|v: usize| #[trigger]
        island.contains(v) ==> seed <= v && linked_within(adjacency, island, seed, v)
}

/// The island has a first position that leads to all of it.
pub open spec fn has_seed(adjacency: Seq<Seq<usize>>, island: Set<usize>) -> bool {
    exists|seed: usize| is_seed(adjacency, island, seed)
}

/// One of the first `bound` islands holds `v`.
pub open spec fn found_below(islands: Seq<Set<usize>>, bound: int, v: usize) -> bool {
    exists|l: int| 0 <= l < bound && l < islands.len() && (#[trigger] islands[l]).contains(v)
}

/// `islands` divides the positions of the adjacency list into islands: every
/// position is in one island and one only; each island is what can be reached
/// from its first position without entering an island before it; and the
/// islands stand in the order of their first positions.
pub open spec fn are_islands(adjacency: Seq<Seq<usize>>, islands: Seq<Set<usize>>) -> bool {
    &&& forall|v: usize| v < adjacency.len()
        ==> #[trigger] found_below(islands, islands.len() as int, v)
    &&& forall|k: int, v: usize|
        0 <= k < islands.len() && #[trigger] islands[k].contains(v) ==> v < adjacency.len()
    &&& forall|k: int, l: int, v: usize|
        0 <= k < l < islands.len() && #[trigger] islands[k].contains(v) ==> !(
        #[trigger] islands[l].contains(v))
    &&& forall|k: int| 0 <= k < islands.len() ==> has_seed(adjacency, #[trigger] islands[k])
    &&& forall|k: int, l: int, a: usize, b: usize|
        0 <= k < l < islands.len() && #[trigger] is_seed(adjacency, islands[k], a)
            && #[trigger] is_seed(adjacency, islands[l], b) ==> a < b
    &&& forall|k: int, u: usize, j: int|
        0 <= k < islands.len() && #[trigger] islands[k].contains(u) && u < adjacency.len() && 0 <= j
            < adjacency[u as int].len() ==> found_below(
            islands,
            k + 1,
            #[trigger] adjacency[u as int][j],
        )
}

/// Where neighbours are mutual, no island has a neighbour outside itself.
pub proof fn lemma_islands_closed(adjacency: Seq<Seq<usize>>, islands: Seq<Set<usize>>)
    requires
        adjacency_in_range(adjacency),
        adjacency_symmetric(adjacency),
        are_islands(adjacency, islands),
    ensures
        forall|k: int, u: usize, j: int|
            0 <= k < islands.len() && #[trigger] islands[k].contains(u) && u < adjacency.len()
                && 0 <= j
                < adjacency[u as int].len() ==> islands[k].contains(
                #[trigger] adjacency[u as int][j],
            ),
{
    assert forall|k: int, u: usize, j: int|
        0 <= k < islands.len() && #[trigger] islands[k].contains(u) && u < adjacency.len() && 0 <= j
            < adjacency[u as int].len() implies islands[k].contains(
        #[trigger] adjacency[u as int][j],
    ) by {
        let v = adjacency[u as int][j];
        assert(found_below(islands, k + 1, v));
        let l = choose|l: int| 0 <= l < k + 1 && l < islands.len()
            && (#[trigger] islands[l]).contains(v);
        if l < k {
            assert(adjacency[u as int].contains(v));
            assert(adjacency[v as int].contains(u));
            let back = choose|back: int|
                0 <= back < adjacency[v as int].len() && adjacency[v as int][back] == u;
            assert(found_below(islands, l + 1, adjacency[v as int][back]));
            let m = choose|m: int|
                0 <= m < l + 1 && m < islands.len() && (#[trigger] islands[m]).contains(u);
            assert(islands[m].contains(u) && islands[k].contains(u));
        }
    }
}

/// A path that starts in the island at `m` of one division and stays in the
/// island at `m` of another stays in the first island too, where the two
/// divisions agree on the islands before.
proof fn lemma_path_kept(
    adjacency: Seq<Seq<usize>>,
    a: Seq<Set<usize>>,
    b: Seq<Set<usize>>,
    m: int,
    path: Seq<usize>,
    i: int,
)
    requires
        are_islands(adjacency, a),
        are_islands(adjacency, b),
        0 <= m < a.len(),
        m < b.len(),
        forall|l: int| 0 <= l < m ==> a[l] == b[l],
        is_path(adjacency, path, a[m]),
        b[m].contains(path[0]),
        0 <= i < path.len(),
    ensures
        b[m].contains(path[i]),
    decreases i,
{
    if i > 0 {
        lemma_path_kept(adjacency, a, b, m, path, i - 1);
        let u = path[i - 1];
        let v = path[i];
        assert(adjacency[u as int].contains(v));
        let j = choose|j: int| 0 <= j < adjacency[u as int].len() && adjacency[u as int][j] == v;
        assert(found_below(b, m + 1, adjacency[u as int][j]));
        let l = choose|l: int| 0 <= l < m + 1 && l < b.len() && (#[trigger] b[l]).contains(v);
        if l < m {
            assert(a[l].contains(v) && a[m].contains(v));
        }
    }
}

/// The island at `m` of one division lies in the island at `m` of another
/// that agrees with it on the islands before.
proof fn lemma_island_within(
    adjacency: Seq<Seq<usize>>,
    a: Seq<Set<usize>>,
    b: Seq<Set<usize>>,
    m: int,
)
    requires
        are_islands(adjacency, a),
        are_islands(adjacency, b),
        0 <= m < a.len(),
        forall|l: int| 0 <= l < m ==> l < b.len() && a[l] == b[l],
    ensures
        m < b.len(),
        a[m].subset_of(b[m]),
{
    assert(has_seed(adjacency, a[m]));
    let s = choose|s: usize| is_seed(adjacency, a[m], s);
    assert(a[m].contains(s));
    assert(found_below(b, b.len() as int, s));
    let at = choose|at: int| 0 <= at < b.len() && at < b.len() && (#[trigger] b[at]).contains(s);
    if at < m {
        assert(a[at].contains(s));
    }
    assert(has_seed(adjacency, b[m]));
    let t = choose|t: usize| is_seed(adjacency, b[m], t);
    assert(b[m].contains(t));
    assert(s <= t) by {
        assert(found_below(a, a.len() as int, t));
        let i = choose|i: int| 0 <= i < a.len() && i < a.len() && (#[trigger] a[i]).contains(t);
        if i < m {
            assert(b[i].contains(t));
        } else if i > m {
            assert(has_seed(adjacency, a[i]));
            let first = choose|first: usize| is_seed(adjacency, a[i], first);
            assert(a[i].contains(t));
        }
    }
    assert(t <= s) by {
        if at > m {
            assert(has_seed(adjacency, b[at]));
            let first = choose|first: usize| is_seed(adjacency, b[at], first);
            assert(b[at].contains(s));
        }
    }
    assert forall|v: usize| a[m].contains(v) implies b[m].contains(v) by {
        assert(linked_within(adjacency, a[m], s, v));
        let path = choose|path: Seq<usize>|
            #[trigger] is_path(adjacency, path, a[m]) && path[0] == s && path[path.len() - 1] == v;
        lemma_path_kept(adjacency, a, b, m, path, path.len() - 1);
    }
}

proof fn lemma_same_islands_below(
    adjacency: Seq<Seq<usize>>,
    a: Seq<Set<usize>>,
    b: Seq<Set<usize>>,
    bound: int,
)
    requires
        are_islands(adjacency, a),
        are_islands(adjacency, b),
        0 <= bound <= a.len(),
    ensures
        bound <= b.len(),
        forall|l: int| 0 <= l < bound ==> a[l] == b[l],
    decreases bound,
{
    if bound > 0 {
        let m = bound - 1;
        lemma_same_islands_below(adjacency, a, b, m);
        lemma_island_within(adjacency, a, b, m);
        lemma_island_within(adjacency, b, a, m);
        assert(a[m] =~= b[m]);
    }
}

/// The adjacency list decides its islands: two divisions of it into islands
/// are the same.
pub proof fn lemma_islands_unique(
    adjacency: Seq<Seq<usize>>,
    a: Seq<Set<usize>>,
    b: Seq<Set<usize>>,
)
    requires
        are_islands(adjacency, a),
        are_islands(adjacency, b),
    ensures
        a == b,
{
    lemma_same_islands_below(adjacency, a, b, a.len() as int);
    lemma_same_islands_below(adjacency, b, a, b.len() as int);
    assert(a =~= b);
}

/// A list of no positions has no islands.
pub proof fn lemma_no_islands(islands: Seq<Set<usize>>)
    requires
        are_islands(Seq::<Seq<usize>>::empty(), islands),
    ensures
        islands.len() == 0,
{
    if islands.len() > 0 {
        let seed = choose|seed: usize| is_seed(Seq::<Seq<usize>>::empty(), islands[0], seed);
        assert(islands[0].contains(seed));
    }
}

/// A node is marked as visited.
spec fn marked(visited: Seq<bool>, y: usize) -> bool {
    y < visited.len() && visited[y as int]
}

/// Some position of the island has `q` as a neighbour.
spec fn reached_from(adjacency: Seq<Seq<usize>>, island: Set<usize>, q: usize) -> bool {
    exists|u: usize|
        #[trigger] island.contains(u) && u < adjacency.len() && adjacency[u as int].contains(q)
}

/// What holds of the islands found before the search reaches `bound`.
spec fn islands_so_far(
    adjacency: Seq<Seq<usize>>,
    islands: Seq<Set<usize>>,
    seeds: Seq<usize>,
    done: Set<usize>,
    bound: int,
) -> bool {
    &&& seeds.len() == islands.len()
    &&& forall|k: int|
        0 <= k < islands.len() ==> is_seed(adjacency, #[trigger] islands[k], seeds[k]) && seeds[k]
            < bound
    &&& forall|k: int, l: int| 0 <= k < l < seeds.len() ==> seeds[k] < seeds[l]
    &&& forall|k: int, v: usize|
        0 <= k < islands.len() && #[trigger] islands[k].contains(v) ==> done.contains(v)
    &&& forall|v: usize| #[trigger]
        done.contains(v) ==> v < adjacency.len() && found_below(islands, islands.len() as int, v)
    &&& forall|k: int, l: int, v: usize|
        0 <= k < l < islands.len() && #[trigger] islands[k].contains(v) ==> !(
        #[trigger] islands[l].contains(v))
    &&& forall|k: int, u: usize, j: int|
        0 <= k < islands.len() && #[trigger] islands[k].contains(u) && u < adjacency.len() && 0 <= j
            < adjacency[u as int].len() ==> found_below(
            islands,
            k + 1,
            #[trigger] adjacency[u as int][j],
        )
}

proof fn lemma_path_stays(
    adjacency: Seq<Seq<usize>>,
    path: Seq<usize>,
    within: Set<usize>,
    wider: Set<usize>,
)
    requires
        is_path(adjacency, path, within),
        within.subset_of(wider),
    ensures
        is_path(adjacency, path, wider),
{
}

proof fn lemma_path_grows(
    adjacency: Seq<Seq<usize>>,
    path: Seq<usize>,
    within: Set<usize>,
    next: usize,
)
    requires
        is_path(adjacency, path, within),
        next < adjacency.len(),
        adjacency[path[path.len() - 1] as int].contains(next),
    ensures
        is_path(adjacency, path.push(next), within.insert(next)),
{
    let longer = path.push(next);
    assert forall|k: int| 0 <= k < longer.len() - 1 implies adjacency[(
    #[trigger] longer[k]) as int].contains(longer[k + 1]) by {
        if k < path.len() - 1 {
            assert(longer[k] == path[k]);
            assert(longer[k + 1] == path[k + 1]);
        }
    }
    assert forall|k: int| 0 <= k < longer.len() implies within.insert(next).contains(
        #[trigger] longer[k],
    ) && longer[k] < adjacency.len() by {
        if k < path.len() {
            assert(longer[k] == path[k]);
        }
    }
}

/// How many nodes are not marked as visited.
spec fn unmarked(visited: Seq<bool>) -> nat
    decreases visited.len(),
{
    if visited.len() == 0 {
        0
    } else {
        unmarked(visited.drop_last()) + if visited.last() {
            0nat
        } else {
            1nat
        }
    }
}

proof fn lemma_mark(visited: Seq<bool>, y: int)
    requires
        0 <= y < visited.len(),
        !visited[y],
    ensures
        unmarked(visited.update(y, true)) == unmarked(visited) - 1,
    decreases visited.len(),
{
    let after = visited.update(y, true);
    if y == visited.len() - 1 {
        assert(after.drop_last() =~= visited.drop_last());
    } else {
        lemma_mark(visited.drop_last(), y);
        assert(after.drop_last() =~= visited.drop_last().update(y, true));
    }
}

/// Collects the island of `seed`: what can be reached from it over nodes
/// that no island holds yet.
fn explore(
    agraph: &Vec<Vec<usize>>,
    visited: &mut Vec<bool>,
    seed: usize,
    Ghost(done): Ghost<Set<usize>>,
) -> (island: HashSet<usize>)
    requires
        adjacency_in_range(rows(agraph@)),
        old(visited).len() == agraph.len(),
        seed < agraph.len(),
        !old(visited)@[seed as int],
        forall|y: usize| #[trigger] done.contains(y) <==> marked(old(visited)@, y),
        forall|y: usize| y < seed ==> marked(old(visited)@, y),
    ensures
        final(visited).len() == agraph.len(),
        forall|y: usize| #[trigger]
            marked(final(visited)@, y) <==> done.contains(y) || island@.contains(y),
        forall|y: usize| #[trigger] island@.contains(y) ==> y < agraph.len() && !done.contains(y),
        is_seed(rows(agraph@), island@, seed),
        forall|u: usize, j: int|
            #[trigger] island@.contains(u) && u < agraph@.len()
                && 0 <= j < rows(agraph@)[u as int].len() ==> marked(
                final(visited)@,
                #[trigger] rows(agraph@)[u as int][j],
            ),
{
    let ghost adj = rows(agraph@);
    let n = agraph.len();
    let mut island: HashSet<usize> = HashSet::new();
    let mut queue: VecDeque<usize> = VecDeque::new();
    queue.push_back(seed);
    let ghost mut routes: Map<usize, Seq<usize>> = Map::empty();
    while queue.len() > 0
        invariant
            adj == rows(agraph@),
            n == agraph.len(),
            adjacency_in_range(adj),
            visited.len() == n,
            seed < n,
            forall|y: usize| #[trigger] marked(visited@, y) <==> done.contains(y)
                || island@.contains(y),
            forall|y: usize| #[trigger] island@.contains(y) ==> y < n && !done.contains(y)
                && seed <= y,
            forall|q: int| 0 <= q < queue@.len() ==> (#[trigger] queue@[q]) < n,
            forall|q: int|
                0 <= q < queue@.len() ==> (#[trigger] queue@[q]) == seed || reached_from(
                    adj,
                    island@,
                    queue@[q],
                ),
            !done.contains(seed),
            !island@.contains(seed) ==> island@ =~= Set::<usize>::empty() && queue@ =~= seq![seed],
            forall|y: usize| #[trigger]
                island@.contains(y) ==> routes.contains_key(y) && is_path(adj, routes[y], island@)
                    && routes[y][0] == seed && routes[y][routes[y].len() - 1] == y,
            forall|u: usize, j: int|
                #[trigger] island@.contains(u) && u < adj.len() && 0 <= j < adj[u as int].len()
                    ==> marked(
                    visited@,
                    #[trigger] adj[u as int][j],
                ) || queue@.contains(adj[u as int][j]),
            forall|y: usize| y < seed ==> marked(visited@, y),
        decreases unmarked(visited@), queue@.len(),
    {
        let ghost waiting = queue@;
        let ghost before = island@;
        let ghost marks = visited@;
        let node_idx = queue.pop_front().unwrap();
        assert(node_idx == waiting[0]);
        assert(!before.contains(seed) ==> node_idx == seed && !marked(marks, seed));
        assert(forall|x: usize|
            waiting.contains(x) ==> x == node_idx || #[trigger] queue@.contains(x)) by {
            assert forall|x: usize| waiting.contains(x) implies x == node_idx
                || #[trigger] queue@.contains(x) by {
                let q = choose|q: int| 0 <= q < waiting.len() && waiting[q] == x;
                if q > 0 {
                    assert(queue@[q - 1] == x);
                }
            }
        }
        assert forall|q: int| 0 <= q < queue@.len() implies (#[trigger] queue@[q]) < n && (queue@[q]
            == seed || reached_from(adj, before, queue@[q])) by {
            assert(queue@[q] == waiting[q + 1]);
        }
        if !visited[node_idx] {
            proof {
                assert(!marked(marks, node_idx));
                assert(!before.contains(node_idx) && !done.contains(node_idx));
                assert(seed <= node_idx) by {
                    if node_idx < seed {
                        assert(marked(marks, node_idx));
                    }
                }
            }
            island.insert(node_idx);
            visited.set(node_idx, true);
            proof {
                lemma_mark(marks, node_idx as int);
                assert(island@ == before.insert(node_idx));
                assert(visited@ == marks.update(node_idx as int, true));
                assert forall|y: usize| #[trigger]
                    marked(visited@, y) <==> done.contains(y) || island@.contains(y) by {
                    if y != node_idx {
                        assert(marked(visited@, y) == marked(marks, y));
                    }
                }
                assert forall|y: usize| y < seed implies marked(visited@, y) by {
                    assert(marked(marks, y));
                }
                let route = if node_idx == seed {
                    seq![seed]
                } else {
                    let u = choose|u: usize|
                        #[trigger] before.contains(u) && u < adj.len() && adj[u as int].contains(
                            node_idx,
                        );
                    routes[u].push(node_idx)
                };
                if node_idx == seed {
                    assert(is_path(adj, route, island@));
                } else {
                    assert(reached_from(adj, before, node_idx));
                    let u = choose|u: usize|
                        #[trigger] before.contains(u) && u < adj.len() && adj[u as int].contains(
                            node_idx,
                        );
                    lemma_path_grows(adj, routes[u], before, node_idx);
                }
                routes = routes.insert(node_idx, route);
                assert forall|y: usize| #[trigger] island@.contains(y)
                    implies routes.contains_key(y)
                    && is_path(adj, routes[y], island@) && routes[y][0] == seed
                    && routes[y][routes[y].len() - 1] == y by {
                    if y != node_idx {
                        assert(before.contains(y));
                        lemma_path_stays(adj, routes[y], before, island@);
                    }
                }
                assert forall|q: int| 0 <= q < queue@.len() implies (#[trigger] queue@[q]) == seed
                    || reached_from(adj, island@, queue@[q]) by {
                    if queue@[q] != seed {
                        let u = choose|u: usize|
                            #[trigger] before.contains(u) && u < adj.len()
                                && adj[u as int].contains(queue@[q]);
                        assert(island@.contains(u));
                    }
                }
            }
            let neighbours = &agraph[node_idx];
            assert(neighbours@ == adj[node_idx as int]);
            let mut j: usize = 0;
            while j < neighbours.len()
                invariant
                    adj == rows(agraph@),
                    n == agraph.len(),
                    adjacency_in_range(adj),
                    visited.len() == n,
                    node_idx < n,
                    neighbours@ == adj[node_idx as int],
                    0 <= j <= neighbours.len(),
                    island@.contains(node_idx),
                    forall|q: int| 0 <= q < queue@.len() ==> (#[trigger] queue@[q]) < n,
                    forall|q: int|
                        0 <= q < queue@.len() ==> (#[trigger] queue@[q]) == seed || reached_from(
                            adj,
                            island@,
                            queue@[q],
                        ),
                    forall|u: usize, jj: int|
                        #[trigger] island@.contains(u) && u < adj.len()
                            && 0 <= jj < adj[u as int].len() && (u
                            != node_idx || jj < j) ==> marked(
                            visited@,
                            #[trigger] adj[u as int][jj],
                        ) || queue@.contains(adj[u as int][jj]),
                decreases neighbours.len() - j,
            {
                let next = neighbours[j];
                assert(next == adj[node_idx as int][j as int]);
                assert(adj[node_idx as int].contains(next));
                let ghost lined = queue@;
                if !visited[next] {
                    queue.push_back(next);
                    proof {
                        assert(queue@[queue@.len() - 1] == next);
                        assert(reached_from(adj, island@, next));
                        assert forall|q: int| 0 <= q < queue@.len() implies (#[trigger] queue@[q])
                            < n && (queue@[q] == seed || reached_from(adj, island@, queue@[q])) by {
                            if q < lined.len() {
                                assert(queue@[q] == lined[q]);
                            }
                        }
                        assert forall|x: usize| lined.contains(x) implies queue@.contains(x) by {
                            let q = choose|q: int| 0 <= q < lined.len() && lined[q] == x;
                            assert(queue@[q] == x);
                        }
                    }
                }
                j += 1;
            }
        }
    }
    proof {
        assert forall|v: usize| #[trigger] island@.contains(v) implies seed <= v && linked_within(
            adj,
            island@,
            seed,
            v,
        ) by {
            assert(is_path(adj, routes[v], island@));
        }
    }
    island
}

/// Finds the islands of the network: starting from each node that no island
/// holds yet, in the order of the list, all that can be reached from it is
/// collected into one island.
pub fn detect_islands(agraph: &Vec<Vec<usize>>) -> (islands: Vec<HashSet<usize>>)
    requires
        adjacency_in_range(rows(agraph@)),
    ensures
        are_islands(rows(agraph@), island_sets(islands@)),
{
    let ghost adj = rows(agraph@);
    let n = agraph.len();
    let mut islands: Vec<HashSet<usize>> = Vec::new();
    let mut visited: Vec<bool> = Vec::new();
    let mut x: usize = 0;
    while x < n
        invariant
            0 <= x <= n,
            visited.len() == x,
            forall|y: int| 0 <= y < x ==> !visited@[y],
        decreases n - x,
    {
        visited.push(false);
        x += 1;
    }
    let ghost mut done: Set<usize> = Set::empty();
    let ghost mut seeds: Seq<usize> = Seq::empty();
    let mut i: usize = 0;
    while i < n
        invariant
            0 <= i <= n,
            n == agraph.len(),
            adj == rows(agraph@),
            adjacency_in_range(adj),
            visited.len() == n,
            forall|y: usize| #[trigger] done.contains(y) <==> marked(visited@, y),
            forall|y: usize| y < i ==> marked(visited@, y),
            islands_so_far(adj, island_sets(islands@), seeds, done, i as int),
        decreases n - i,
    {
        if !visited[i] {
            let ghost found = island_sets(islands@);
            let island = explore(agraph, &mut visited, i, Ghost(done));
            let ghost fresh = island@;
            islands.push(island);
            proof {
                let all = island_sets(islands@);
                let count = found.len() as int;
                assert(all =~= found.push(fresh));
                let earlier = done;
                done = done.union(fresh);
                let firsts = seeds;
                seeds = seeds.push(i);
                assert forall|k: int, l: int| 0 <= k < l < seeds.len() implies seeds[k]
                    < seeds[l] by {
                    assert(is_seed(adj, found[k], firsts[k]) && firsts[k] < i);
                }
                assert forall|k: int| 0 <= k < all.len() implies is_seed(
                    adj,
                    #[trigger] all[k],
                    seeds[k],
                ) && seeds[k] < i + 1 by {
                    if k < count {
                        assert(all[k] == found[k]);
                    }
                }
                assert forall|k: int, v: usize|
                    0 <= k < all.len() && #[trigger] all[k].contains(v)
                        implies done.contains(v) by {
                    if k < count {
                        assert(found[k].contains(v));
                    }
                }
                assert forall|v: usize| #[trigger] done.contains(v) implies v < adj.len()
                    && found_below(all, all.len() as int, v) by {
                    if earlier.contains(v) {
                        let l = choose|l: int|
                            0 <= l < count && l < found.len() && (#[trigger] found[l]).contains(v);
                        assert(all[l].contains(v));
                    } else {
                        assert(all[count].contains(v));
                    }
                }
                assert forall|k: int, l: int, v: usize|
                    0 <= k < l < all.len() && #[trigger] all[k].contains(v) implies !(
                #[trigger] all[l].contains(v)) by {
                    assert(found[k].contains(v));
                    if l < count {
                        assert(all[l] == found[l]);
                    }
                }
                assert forall|k: int, u: usize, j: int|
                    0 <= k < all.len() && #[trigger] all[k].contains(u) && u < adj.len() && 0 <= j
                        < adj[u as int].len() implies found_below(
                    all,
                    k + 1,
                    #[trigger] adj[u as int][j],
                ) by {
                    let v = adj[u as int][j];
                    if k < count {
                        assert(found[k].contains(u));
                        assert(found_below(found, k + 1, v));
                        let l = choose|l: int|
                            0 <= l < k + 1 && l < found.len() && (#[trigger] found[l]).contains(v);
                        assert(all[l].contains(v));
                    } else {
                        assert(fresh.contains(u));
                        assert(marked(visited@, v));
                        if earlier.contains(v) {
                            let l = choose|l: int|
                                0 <= l < count && l < found.len() && (#[trigger] found[l]).contains(
                                    v,
                                );
                            assert(all[l].contains(v));
                        } else {
                            assert(all[count].contains(v));
                        }
                    }
                }
                assert(islands_so_far(adj, all, seeds, done, i + 1));
            }
        }
        i += 1;
    }
    proof {
        let all = island_sets(islands@);
        assert forall|k: int, l: int, a: usize, b: usize|
            0 <= k < l < all.len() && #[trigger] is_seed(adj, all[k], a) && #[trigger] is_seed(
                adj,
                all[l],
                b,
            ) implies a < b by {
            assert(is_seed(adj, all[k], seeds[k]));
            assert(is_seed(adj, all[l], seeds[l]));
            assert(all[k].contains(a) && all[k].contains(seeds[k]));
            assert(all[l].contains(b) && all[l].contains(seeds[l]));
        }
        assert forall|v: usize| v < adj.len() implies #[trigger] found_below(
            all,
            all.len() as int,
            v,
        ) by {
            assert(marked(visited@, v));
            assert(done.contains(v));
        }
        assert forall|k: int| 0 <= k < all.len() implies has_seed(adj, #[trigger] all[k]) by {
            assert(is_seed(adj, all[k], seeds[k]));
        }
    }
    islands
}

} // verus!
