//! The compile order of a resolved graph: every package behind all the
//! packages it depends on.
//!
//! Packages are numbered in the order in which resolution first met them,
//! and `edges[k]` lists the packages that package `k` depends on. Among
//! the packages that may come next the one met first always goes first,
//! which makes the order a function of the graph.
use vstd::prelude::*;

verus! {

/// The dependencies of every package, as sequences.
pub open spec fn adjacency(edges: Seq<Vec<usize>>) -> Seq<Seq<usize>> {
    Seq::new(edges.len(), |k: int| edges[k]@)
}

/// Every edge leads to a package of the graph.
pub open spec fn edges_in_range(adj: Seq<Seq<usize>>) -> bool {
    forall|k: int, i: int|
        0 <= k < adj.len() && 0 <= i < adj[k].len() ==> (#[trigger] adj[k][i]) < adj.len()
}

/// Package `k` may come next behind `done`: it has not been placed, and
/// all that it depends on has.
pub open spec fn ready(adj: Seq<Seq<usize>>, done: Seq<usize>, k: usize) -> bool {
    &&& k < adj.len()
    &&& !done.contains(k)
    &&& forall|i: int| 0 <= i < adj[k as int].len() ==> done.contains(#[trigger] adj[k as int][i])
}

/// At every place of `order` stands the first-met package among those that
/// may come next.
pub open spec fn greedy(adj: Seq<Seq<usize>>, order: Seq<usize>) -> bool {
    forall|p: int|
        0 <= p < order.len() ==> {
            &&& ready(adj, order.take(p), #[trigger] order[p])
            &&& forall|k: usize| k < order[p] ==> !ready(adj, order.take(p), k)
        }
}

/// Package `e` stands in `order` before place `p`.
pub open spec fn placed_before(order: Seq<usize>, p: int, e: usize) -> bool {
    exists|q: int| 0 <= q < p && q < order.len() && order[q] == e
}

/// Every package of `order` stands behind all that it depends on.
pub open spec fn dependencies_first(adj: Seq<Seq<usize>>, order: Seq<usize>) -> bool {
    forall|p: int, i: int|
        0 <= p < order.len() && order[p] < adj.len() && 0 <= i < adj[order[p] as int].len()
            ==> #[trigger] placed_before(order, p, adj[order[p] as int][i])
}

/// `order` holds every package of the graph exactly once.
pub open spec fn holds_each_once(adj: Seq<Seq<usize>>, order: Seq<usize>) -> bool {
    &&& order.len() == adj.len()
    &&& order.no_duplicates()
    &&& forall|k: usize| k < adj.len() ==> order.contains(k)
}

/// The package that follows place `i` on the round trip `cycle`.
pub open spec fn successor(cycle: Seq<usize>, i: int) -> usize {
    if i + 1 < cycle.len() {
        cycle[i + 1]
    } else {
        cycle[0]
    }
}

/// Each package of `cycle` depends on the one behind it, and the last on
/// the first.
pub open spec fn is_cycle(adj: Seq<Seq<usize>>, cycle: Seq<usize>) -> bool {
    &&& cycle.len() >= 1
    &&& forall|i: int|
        0 <= i < cycle.len() ==> (#[trigger] cycle[i]) < adj.len() && adj[cycle[i] as int].contains(
            successor(cycle, i),
        )
}

/// Distinct numbers below `n` are at most `n` many, and `n` of them are
/// all the numbers below `n`.
pub proof fn lemma_distinct_below(s: Seq<usize>, n: nat)
    requires
        s.no_duplicates(),
        forall|i: int| 0 <= i < s.len() ==> s[i] < n,
    ensures
        s.len() <= n,
        s.len() == n ==> forall|k: usize| k < n ==> s.contains(k),
    decreases n,
{
    if n == 0 {
        if s.len() > 0 {
            assert(s[0] < 0);
        }
    } else {
        let top = (n - 1) as usize;
        if s.contains(top) {
            let j = choose|j: int| 0 <= j < s.len() && s[j] == top;
            let rest = s.remove(j);
            assert forall|i: int| 0 <= i < rest.len() implies rest[i] < n - 1 by {
                if i < j {
                    assert(rest[i] == s[i]);
                } else {
                    assert(rest[i] == s[i + 1]);
                }
            }
            assert(rest.no_duplicates()) by {
                assert forall|a: int, b: int|
                    0 <= a < rest.len() && 0 <= b < rest.len() && a != b implies rest[a]
                    != rest[b] by {
                    let a2 = if a < j { a } else { a + 1 };
                    let b2 = if b < j { b } else { b + 1 };
                    assert(rest[a] == s[a2] && rest[b] == s[b2]);
                }
            }
            lemma_distinct_below(rest, (n - 1) as nat);
            if s.len() == n {
                assert forall|k: usize| k < n implies s.contains(k) by {
                    if k == top {
                    } else {
                        assert(rest.contains(k));
                        let i = choose|i: int| 0 <= i < rest.len() && rest[i] == k;
                        let i2 = if i < j { i } else { i + 1 };
                        assert(s[i2] == k);
                    }
                }
            }
        } else {
            assert forall|i: int| 0 <= i < s.len() implies s[i] < n - 1 by {
                assert(s.contains(s[i]));
            }
            lemma_distinct_below(s, (n - 1) as nat);
        }
    }
}

/// A full greedy order holds every package once, behind its dependencies.
pub proof fn lemma_greedy_is_order(adj: Seq<Seq<usize>>, order: Seq<usize>)
    requires
        greedy(adj, order),
        order.len() == adj.len(),
    ensures
        holds_each_once(adj, order),
        dependencies_first(adj, order),
{
    assert forall|a: int, b: int|
        0 <= a < order.len() && 0 <= b < order.len() && a != b implies order[a] != order[b] by {
        let lo = if a < b { a } else { b };
        let hi = if a < b { b } else { a };
        assert(ready(adj, order.take(hi), order[hi]));
        assert(order.take(hi)[lo] == order[lo]);
    }
    assert forall|i: int| 0 <= i < order.len() implies order[i] < adj.len() by {
        assert(ready(adj, order.take(i), order[i]));
    }
    lemma_distinct_below(order, adj.len());
    assert forall|p: int, i: int|
        0 <= p < order.len() && order[p] < adj.len() && 0 <= i < adj[order[p] as int].len()
        implies #[trigger] placed_before(order, p, adj[order[p] as int][i]) by {
        assert(ready(adj, order.take(p), order[p]));
        let e = adj[order[p] as int][i];
        assert(order.take(p).contains(e));
        let q = choose|q: int| 0 <= q < order.take(p).len() && order.take(p)[q] == e;
        assert(order[q] == e);
    }
}

/// The place of the package at place `i` of a cycle, in an order that puts
/// dependencies first: it falls by at least one with every step.
proof fn lemma_cycle_descends(adj: Seq<Seq<usize>>, order: Seq<usize>, cycle: Seq<usize>, i: int)
    -> (p: int)
    requires
        dependencies_first(adj, order),
        forall|k: usize| k < adj.len() ==> order.contains(k),
        is_cycle(adj, cycle),
        0 <= i < cycle.len(),
    ensures
        0 <= p < order.len(),
        order[p] == cycle[i],
        forall|p0: int| 0 <= p0 < order.len() && order[p0] == cycle[0] ==> p <= p0 - i,
    decreases i,
{
    if i == 0 {
        assert(order.contains(cycle[0]));
        // the first place of the package in the order
        lemma_first_place(order, cycle[0])
    } else {
        let before = lemma_cycle_descends(adj, order, cycle, i - 1);
        let from = cycle[i - 1];
        assert(successor(cycle, i - 1) == cycle[i]);
        assert(adj[from as int].contains(cycle[i]));
        let e = choose|e: int| 0 <= e < adj[from as int].len() && adj[from as int][e] == cycle[i];
        assert(placed_before(order, before, adj[order[before] as int][e]));
        let q = choose|q: int| 0 <= q < before && q < order.len() && order[q] == cycle[i];
        q
    }
}

/// The first place at which `order` holds `k`.
proof fn lemma_first_place(order: Seq<usize>, k: usize) -> (p: int)
    requires
        order.contains(k),
    ensures
        0 <= p < order.len(),
        order[p] == k,
        forall|q: int| 0 <= q < order.len() && order[q] == k ==> p <= q,
    decreases order.len(),
{
    let any = choose|i: int| 0 <= i < order.len() && order[i] == k;
    if order.drop_last().contains(k) {
        let p = lemma_first_place(order.drop_last(), k);
        assert(order.drop_last()[p] == order[p]);
        assert forall|q: int| 0 <= q < order.len() && order[q] == k implies p <= q by {
            if q < order.len() - 1 {
                assert(order.drop_last()[q] == order[q]);
            }
        }
        p
    } else {
        assert forall|q: int| 0 <= q < order.len() && order[q] == k implies order.len() - 1
            <= q by {
            if q < order.len() - 1 {
                assert(order.drop_last()[q] == k);
            }
        }
        order.len() - 1
    }
}

/// A graph with a cycle has no order that holds every package behind its
/// dependencies: where such an order exists, nothing is a cycle.
pub proof fn law_order_excludes_cycle(adj: Seq<Seq<usize>>, order: Seq<usize>, cycle: Seq<usize>)
    requires
        dependencies_first(adj, order),
        forall|k: usize| k < adj.len() ==> order.contains(k),
    ensures
        !is_cycle(adj, cycle),
{
    if is_cycle(adj, cycle) {
        let last = cycle.len() - 1;
        let first_place = lemma_cycle_descends(adj, order, cycle, 0);
        let last_place = lemma_cycle_descends(adj, order, cycle, last);
        assert(last_place <= first_place - last);
        assert(successor(cycle, last) == cycle[0]);
        let from = cycle[last];
        assert(adj[from as int].contains(cycle[0]));
        let e = choose|e: int| 0 <= e < adj[from as int].len() && adj[from as int][e] == cycle[0];
        assert(placed_before(order, last_place, adj[order[last_place] as int][e]));
        let q = choose|q: int| 0 <= q < last_place && q < order.len() && order[q] == cycle[0];
        assert(last_place <= q - last);
        assert(false);
    }
}

/// The marks say which packages `placed` holds.
pub open spec fn marks_agree(marks: Seq<bool>, placed: Seq<usize>) -> bool {
    forall|k: usize| k < marks.len() ==> marks[k as int] == placed.contains(k)
}

/// The place in `deps` of the first package that is not marked.
fn first_missing(deps: &Vec<usize>, marks: &Vec<bool>) -> (r: Option<usize>)
    requires
        forall|i: int| 0 <= i < deps.len() ==> deps[i] < marks.len(),
    ensures
        match r {
            Some(i) => i < deps.len() && !marks[deps[i as int] as int] && forall|j: int|
                0 <= j < i ==> marks[deps[j] as int],
            None => forall|j: int| 0 <= j < deps.len() ==> marks[deps[j] as int],
        },
{
    let mut i: usize = 0;
    while i < deps.len()
        invariant
            i <= deps.len(),
            forall|i: int| 0 <= i < deps.len() ==> deps[i] < marks.len(),
            forall|j: int| 0 <= j < i ==> marks[deps[j] as int],
        decreases deps.len() - i,
    {
        if !marks[deps[i]] {
            return Some(i);
        }
        i += 1;
    }
    None
}

/// The first-met package that may come next, if any may.
fn first_ready(edges: &Vec<Vec<usize>>, marks: &Vec<bool>, Ghost(placed): Ghost<Seq<usize>>) -> (r:
    Option<usize>)
    requires
        edges_in_range(adjacency(edges@)),
        marks.len() == edges.len(),
        marks_agree(marks@, placed),
    ensures
        match r {
            Some(k) => ready(adjacency(edges@), placed, k) && forall|j: usize|
                j < k ==> !ready(adjacency(edges@), placed, j),
            None => forall|j: usize| j < edges.len() ==> !ready(adjacency(edges@), placed, j),
        },
{
    let ghost adj = adjacency(edges@);
    let mut k: usize = 0;
    while k < edges.len()
        invariant
            k <= edges.len(),
            adj == adjacency(edges@),
            edges_in_range(adj),
            marks.len() == edges.len(),
            marks_agree(marks@, placed),
            forall|j: usize| j < k ==> !ready(adj, placed, j),
        decreases edges.len() - k,
    {
        if !marks[k] {
            assert forall|i: int| 0 <= i < edges[k as int].len() implies edges[k as int][i]
                < marks.len() by {
                assert(adj[k as int][i] < adj.len());
            }
            match first_missing(&edges[k], marks) {
                None => {
                    assert forall|i: int| 0 <= i < adj[k as int].len() implies placed.contains(
                        #[trigger] adj[k as int][i],
                    ) by {
                        assert(marks[edges[k as int][i] as int]);
                    }
                    return Some(k);
                },
                Some(i) => {
                    assert(!placed.contains(adj[k as int][i as int]));
                },
            }
        }
        k += 1;
    }
    None
}

/// A cycle among the packages that are not placed, none of which may
/// come next: from any of them, following the first dependency that is
/// not placed leads back onto the walk.
fn find_cycle(edges: &Vec<Vec<usize>>, marks: &Vec<bool>, Ghost(placed): Ghost<Seq<usize>>) -> (r:
    Vec<usize>)
    requires
        edges_in_range(adjacency(edges@)),
        marks.len() == edges.len(),
        marks_agree(marks@, placed),
        forall|j: usize| j < edges.len() ==> !ready(adjacency(edges@), placed, j),
        exists|j: usize| j < edges.len() && !marks[j as int],
    ensures
        is_cycle(adjacency(edges@), r@),
{
    let ghost adj = adjacency(edges@);
    let n = edges.len();
    let mut start: usize = 0;
    while start < n && marks[start]
        invariant
            start <= n,
            n == marks.len(),
            forall|j: int| 0 <= j < start ==> marks[j],
        decreases n - start,
    {
        start += 1;
    }
    assert(start < n) by {
        let j = choose|j: usize| j < edges.len() && !marks[j as int];
        assert(!marks[j as int]);
    }
    let mut seen: Vec<usize> = Vec::new();
    let mut filled: usize = 0;
    while filled < n
        invariant
            filled <= n,
            seen.len() == filled,
            forall|x: int| 0 <= x < filled ==> seen[x] == n,
        decreases n - filled,
    {
        seen.push(n);
        filled += 1;
    }
    let mut path: Vec<usize> = Vec::new();
    let mut cur: usize = start;
    loop
        invariant
            n == edges.len(),
            adj == adjacency(edges@),
            edges_in_range(adj),
            marks.len() == n,
            marks_agree(marks@, placed),
            forall|j: usize| j < n ==> !ready(adj, placed, j),
            seen.len() == n,
            cur < n,
            !marks[cur as int],
            path.len() <= n,
            forall|i: int|
                0 <= i < path.len() ==> (#[trigger] path[i]) < n && !marks[path[i] as int]
                    && seen[path[i] as int] == i,
            forall|x: int|
                0 <= x < n && (#[trigger] seen[x]) != n ==> seen[x] < path.len()
                    && path[seen[x] as int] == x,
            forall|i: int|
                0 <= i < path.len() - 1 ==> adj[(#[trigger] path[i]) as int].contains(
                    path[i + 1],
                ),
            path.len() > 0 ==> adj[path[path.len() - 1] as int].contains(cur),
        decreases n - path.len(),
    {
        if seen[cur] != n {
            let from = seen[cur];
            let mut cycle: Vec<usize> = Vec::new();
            let mut i: usize = from;
            while i < path.len()
                invariant
                    from <= i <= path.len(),
                    cycle.len() == i - from,
                    forall|c: int| 0 <= c < cycle.len() ==> cycle[c] == path[from + c],
                decreases path.len() - i,
            {
                cycle.push(path[i]);
                i += 1;
            }
            assert forall|c: int| 0 <= c < cycle.len() implies (#[trigger] cycle[c]) < adj.len()
                && adj[cycle[c] as int].contains(successor(cycle@, c)) by {
                assert(cycle[c] == path[from + c]);
                if c + 1 < cycle.len() {
                    assert(cycle[c + 1] == path[from + c + 1]);
                } else {
                    assert(cycle[0] == path[from + 0]);
                }
            }
            return cycle;
        }
        proof {
            let longer = path@.push(cur);
            assert forall|a: int, b: int|
                0 <= a < longer.len() && 0 <= b < longer.len() && a != b implies longer[a]
                != longer[b] by {
                if a < path.len() && b < path.len() {
                    assert(seen[path[a] as int] == a && seen[path[b] as int] == b);
                } else if a < path.len() {
                    assert(seen[path[a] as int] == a);
                } else {
                    assert(seen[path[b] as int] == b);
                }
            }
            lemma_distinct_below(longer, n as nat);
        }
        let ghost before = path@;
        seen.set(cur, path.len());
        path.push(cur);
        assert forall|i: int| 0 <= i < edges[cur as int].len() implies edges[cur as int][i]
            < marks.len() by {
            assert(adj[cur as int][i] < adj.len());
        }
        match first_missing(&edges[cur], marks) {
            Some(i) => {
                let next = edges[cur][i];
                assert(adj[cur as int][i as int] == next);
                assert(adj[cur as int].contains(next));
                assert forall|k: int| 0 <= k < path.len() - 1 implies adj[(#[trigger] path[k])
                    as int].contains(path[k + 1]) by {
                    if k + 1 < before.len() {
                        assert(path[k] == before[k] && path[k + 1] == before[k + 1]);
                    }
                }
                cur = next;
            },
            None => {
                proof {
                    assert(!placed.contains(cur));
                    assert forall|i: int| 0 <= i < adj[cur as int].len() implies placed.contains(
                        #[trigger] adj[cur as int][i],
                    ) by {
                        assert(marks[edges[cur as int][i] as int]);
                    }
                    assert(ready(adj, placed, cur));
                }
                return path;
            },
        }
    }
}

/// Orders the packages of a graph for compilation. Returns every package
/// once, each behind all that it depends on, and at every place the
/// first-met package among those that may stand there; or, where the
/// graph has a cycle and therefore no such order, the packages of one
/// cycle, each depending on the one behind it and the last on the first.
pub fn order_indices(edges: &Vec<Vec<usize>>) -> (r: Result<Vec<usize>, Vec<usize>>)
    requires
        edges_in_range(adjacency(edges@)),
    ensures
        match r {
            Ok(order) => {
                &&& greedy(adjacency(edges@), order@)
                &&& holds_each_once(adjacency(edges@), order@)
                &&& dependencies_first(adjacency(edges@), order@)
            },
            Err(cycle) => is_cycle(adjacency(edges@), cycle@),
        },
{
    let ghost adj = adjacency(edges@);
    let n = edges.len();
    let mut marks: Vec<bool> = Vec::new();
    let mut filled: usize = 0;
    while filled < n
        invariant
            filled <= n,
            marks.len() == filled,
            forall|x: int| 0 <= x < filled ==> !marks[x],
        decreases n - filled,
    {
        marks.push(false);
        filled += 1;
    }
    let mut order: Vec<usize> = Vec::new();
    while order.len() < n
        invariant
            n == edges.len(),
            adj == adjacency(edges@),
            edges_in_range(adj),
            marks.len() == n,
            marks_agree(marks@, order@),
            greedy(adj, order@),
            order.len() <= n,
        decreases n - order.len(),
    {
        match first_ready(edges, &marks, Ghost(order@)) {
            Some(k) => {
                let ghost before = order@;
                marks.set(k, true);
                order.push(k);
                proof {
                    assert forall|x: usize| x < marks.len() implies marks[x as int]
                        == order@.contains(x) by {
                        if x == k {
                            assert(order@[before.len() as int] == k);
                        } else if before.contains(x) {
                            let i = choose|i: int| 0 <= i < before.len() && before[i] == x;
                            assert(order@[i] == x);
                        } else if order@.contains(x) {
                            let i = choose|i: int| 0 <= i < order@.len() && order@[i] == x;
                            assert(before[i] == x);
                        }
                    }
                    assert forall|p: int| 0 <= p < order@.len() implies {
                        &&& ready(adj, order@.take(p), #[trigger] order@[p])
                        &&& forall|j: usize| j < order@[p] ==> !ready(adj, order@.take(p), j)
                    } by {
                        if p < before.len() {
                            assert(order@.take(p) =~= before.take(p));
                            assert(order@[p] == before[p]);
                        } else {
                            assert(order@.take(p) =~= before);
                        }
                    }
                }
            },
            None => {
                proof {
                    if forall|j: usize| j < n ==> marks[j as int] {
                        assert forall|a: int, b: int|
                            0 <= a < order@.len() && 0 <= b < order@.len() && a
                            != b implies order@[a] != order@[b] by {
                            let lo = if a < b { a } else { b };
                            let hi = if a < b { b } else { a };
                            assert(ready(adj, order@.take(hi), order@[hi]));
                            assert(order@.take(hi)[lo] == order@[lo]);
                        }
                        assert forall|i: int| 0 <= i < order@.len() implies order@[i] < n by {
                            assert(ready(adj, order@.take(i), order@[i]));
                        }
                        lemma_all_placed(order@, n as nat);
                    }
                }
                return Err(find_cycle(edges, &marks, Ghost(order@)));
            },
        }
    }
    proof {
        lemma_greedy_is_order(adj, order@);
    }
    Ok(order)
}

/// Distinct numbers below `n` that include every number below `n` are at
/// least `n` many.
proof fn lemma_all_placed(s: Seq<usize>, n: nat)
    requires
        n <= usize::MAX,
        forall|k: usize| k < n ==> s.contains(k),
    ensures
        s.len() >= n,
    decreases n,
{
    if n > 0 {
        let top = (n - 1) as usize;
        assert(s.contains(top));
        let j = choose|j: int| 0 <= j < s.len() && s[j] == top;
        let rest = s.remove(j);
        assert forall|k: usize| k < n - 1 implies rest.contains(k) by {
            assert(s.contains(k));
            let i = choose|i: int| 0 <= i < s.len() && s[i] == k;
            let i2 = if i < j { i } else { i - 1 };
            assert(rest[i2] == k);
        }
        lemma_all_placed(rest, (n - 1) as nat);
    }
}

} // verus!
