//! Breadth-first shortest path in an unweighted graph given as adjacency
//! lists. The result is the least number of edges from one node to
//! another, or `None` when no walk connects them.

use vstd::prelude::*;

verus! {

/// Every listed neighbor is a node of the graph.
pub open spec fn wf_graph(g: Seq<Vec<usize>>) -> bool {
    forall|u: int, j: int|
        0 <= u < g.len() && 0 <= j < g[u]@.len() ==> (#[trigger] g[u]@[j]) < g.len()
}

/// There is an edge from `u` to `v`.
pub open spec fn edge(g: Seq<Vec<usize>>, u: usize, v: usize) -> bool {
    u < g.len() && exists|j: int| 0 <= j < g[u as int]@.len() && g[u as int]@[j] == v
}

/// The nodes with an edge from somewhere in `s`.
pub open spec fn nbrs_set(g: Seq<Vec<usize>>, s: Set<usize>) -> Set<usize> {
    Set::new(|v: usize| exists|u: usize| s.contains(u) && edge(g, u, v))
}

/// The nodes reachable from `from` in at most `k` steps.
pub open spec fn reach(g: Seq<Vec<usize>>, from: usize, k: nat) -> Set<usize>
    decreases k,
{
    if k == 0 {
        Set::empty().insert(from)
    } else {
        let prev = reach(g, from, (k - 1) as nat);
        prev.union(nbrs_set(g, prev))
    }
}

/// Reachability only grows with the step bound.
proof fn lemma_reach_mono(g: Seq<Vec<usize>>, from: usize, k1: nat, k2: nat)
    requires
        k1 <= k2,
    ensures
        forall|x: usize| reach(g, from, k1).contains(x) ==> reach(g, from, k2).contains(x),
    decreases k2,
{
    if k1 < k2 {
        lemma_reach_mono(g, from, k1, (k2 - 1) as nat);
    }
}

/// Once one more step adds nothing, no number of steps ever will.
proof fn lemma_reach_fixed(g: Seq<Vec<usize>>, from: usize, k: nat, m: nat)
    requires
        reach(g, from, k) == reach(g, from, k + 1),
        k <= m,
    ensures
        reach(g, from, m) == reach(g, from, k),
    decreases m,
{
    if k < m {
        lemma_reach_fixed(g, from, k, (m - 1) as nat);
        assert(reach(g, from, m) =~= reach(g, from, k));
    }
}

/// The number of `true` entries.
pub open spec fn count_trues(v: Seq<bool>) -> nat
    decreases v.len(),
{
    if v.len() == 0 {
        0
    } else {
        count_trues(v.drop_last()) + if v.last() {
            1nat
        } else {
            0nat
        }
    }
}

proof fn lemma_count_trues_le(v: Seq<bool>)
    ensures
        count_trues(v) <= v.len(),
    decreases v.len(),
{
    if v.len() > 0 {
        lemma_count_trues_le(v.drop_last());
    }
}

proof fn lemma_count_trues_update(v: Seq<bool>, i: int)
    requires
        0 <= i < v.len(),
        !v[i],
    ensures
        count_trues(v.update(i, true)) == count_trues(v) + 1,
    decreases v.len(),
{
    let u = v.update(i, true);
    if i == v.len() - 1 {
        assert(u.drop_last() =~= v.drop_last());
    } else {
        assert(u.drop_last() =~= v.drop_last().update(i, true));
        lemma_count_trues_update(v.drop_last(), i);
    }
}

/// Returns the least number of edges on a walk from `from` to `to`, or
/// `None` when `to` cannot be reached: `Some(d)` means `to` is reachable
/// in `d` steps and in no fewer.
#[verifier::loop_isolation(false)]
pub fn shortest_path(graph: Vec<Vec<usize>>, from: usize, to: usize) -> (r: Option<usize>)
    requires
        from == to || (wf_graph(graph@) && from < graph@.len()),
    ensures
        r matches Some(d) ==> reach(graph@, from, d as nat).contains(to) && (forall|k: nat|
            k < d ==> !reach(graph@, from, k).contains(to)),
        r is None ==> forall|k: nat| !reach(graph@, from, k).contains(to),
{
    if from == to {
        return Some(0);
    }
    let n = graph.len();
    let mut visitor: Vec<bool> = Vec::new();
    let mut filled: usize = 0;
    while filled < n
        invariant
            filled <= n,
            visitor@.len() == filled,
            forall|i: int| 0 <= i < filled ==> !(#[trigger] visitor@[i]),
            count_trues(visitor@) == 0,
        decreases n - filled,
    {
        let ghost pre = visitor@;
        visitor.push(false);
        proof {
            assert(visitor@.drop_last() =~= pre);
        }
        filled += 1;
    }
    let mut queue: Vec<usize> = Vec::new();
    let mut level: usize = 0;
    let mut visited_count: usize = 1;
    let ghost unmarked = visitor@;
    visitor[from] = true;
    queue.push(from);
    proof {
        lemma_count_trues_update(unmarked, from as int);
        assert(count_trues(visitor@) == 1);
        assert forall|x: usize| reach(graph@, from, 0).contains(x) == (x < n && visitor@[x as int])
            by {}
        assert(queue@[0] == from);
        assert forall|x: usize| reach(graph@, from, 0).contains(x) implies queue@.contains(x) by {
            assert(x == from);
            assert(queue@[0] == x);
        }
    }
    while queue.len() > 0
        invariant
            visitor@.len() == n,
            visited_count == count_trues(visitor@),
            queue@.len() > 0 ==> level + 1 <= visited_count,
            visited_count <= n,
            forall|x: usize|
                #[trigger] reach(graph@, from, level as nat).contains(x) == (x < n
                    && visitor@[x as int]),
            forall|i: int, j: int| 0 <= i < j < queue@.len() ==> queue@[i] != queue@[j],
            forall|i: int|
                0 <= i < queue@.len() ==> (#[trigger] queue@[i]) < n && reach(
                    graph@,
                    from,
                    level as nat,
                ).contains(queue@[i]) && (level > 0 ==> !reach(
                    graph@,
                    from,
                    (level - 1) as nat,
                ).contains(queue@[i])),
            forall|x: usize|
                #[trigger] reach(graph@, from, level as nat).contains(x) && (level == 0 || !reach(
                    graph@,
                    from,
                    (level - 1) as nat,
                ).contains(x)) ==> queue@.contains(x),
            reach(graph@, from, level as nat).contains(to) ==> queue@.contains(to),
            level > 0 ==> !reach(graph@, from, (level - 1) as nat).contains(to),
        decreases n - visited_count, queue@.len(),
    {
        let ghost q0 = queue@;
        let ghost level0 = level as nat;
        let ghost vc0 = visited_count;
        let mut new_queue: Vec<usize> = Vec::new();
        let mut i: usize = 0;
        while i < queue.len()
            invariant
                i <= queue@.len(),
                queue@ == q0,
                level == level0,
                visitor@.len() == n,
                visited_count == count_trues(visitor@),
                visited_count == vc0 + new_queue@.len(),
                forall|i2: int| 0 <= i2 < i ==> (#[trigger] q0[i2]) != to,
                forall|x: usize|
                    (x < n && #[trigger] visitor@[x as int]) == (reach(
                        graph@,
                        from,
                        level0,
                    ).contains(x) || new_queue@.contains(x)),
                forall|i2: int, j2: int|
                    0 <= i2 < j2 < new_queue@.len() ==> new_queue@[i2] != new_queue@[j2],
                forall|i2: int|
                    0 <= i2 < new_queue@.len() ==> (#[trigger] new_queue@[i2]) < n && nbrs_set(
                        graph@,
                        reach(graph@, from, level0),
                    ).contains(new_queue@[i2]) && !reach(graph@, from, level0).contains(
                        new_queue@[i2],
                    ),
                forall|u: usize, v: usize|
                    (exists|i2: int| 0 <= i2 < i && q0[i2] == u) && #[trigger] edge(graph@, u, v)
                        ==> reach(graph@, from, level0).contains(v) || new_queue@.contains(v),
            decreases queue@.len() - i,
        {
            let cur = queue[i];
            if cur == to {
                proof {
                    if level > 0 {
                        assert forall|k: nat| k < level implies !reach(graph@, from, k).contains(
                            to,
                        ) by {
                            lemma_reach_mono(graph@, from, k, (level - 1) as nat);
                        }
                    }
                }
                return Some(level);
            }
            let neighbors = &graph[cur];
            let mut j: usize = 0;
            while j < neighbors.len()
                invariant
                    j <= neighbors@.len(),
                    neighbors@ == graph@[cur as int]@,
                    cur == q0[i as int],
                    cur < n,
                    i < queue@.len(),
                    queue@ == q0,
                    level == level0,
                    visitor@.len() == n,
                    visited_count == count_trues(visitor@),
                    visited_count == vc0 + new_queue@.len(),
                    forall|x: usize|
                        (x < n && #[trigger] visitor@[x as int]) == (reach(
                            graph@,
                            from,
                            level0,
                        ).contains(x) || new_queue@.contains(x)),
                    forall|i2: int, j2: int|
                        0 <= i2 < j2 < new_queue@.len() ==> new_queue@[i2] != new_queue@[j2],
                    forall|i2: int|
                        0 <= i2 < new_queue@.len() ==> (#[trigger] new_queue@[i2]) < n && nbrs_set(
                            graph@,
                            reach(graph@, from, level0),
                        ).contains(new_queue@[i2]) && !reach(graph@, from, level0).contains(
                            new_queue@[i2],
                        ),
                    forall|u: usize, v: usize|
                        (exists|i2: int| 0 <= i2 < i && q0[i2] == u) && #[trigger] edge(
                            graph@,
                            u,
                            v,
                        ) ==> reach(graph@, from, level0).contains(v) || new_queue@.contains(v),
                    forall|j2: int|
                        0 <= j2 < j ==> reach(graph@, from, level0).contains(
                            #[trigger] neighbors@[j2],
                        ) || new_queue@.contains(neighbors@[j2]),
                decreases neighbors@.len() - j,
            {
                let v = neighbors[j];
                proof {
                    assert(graph@[cur as int]@[j as int] == v);
                    assert(v < n);
                }
                let ghost nq0 = new_queue@;
                if !visitor[v] {
                    let ghost nq_pre = new_queue@;
                    let ghost marks_pre = visitor@;
                    new_queue.push(v);
                    visitor[v] = true;
                    proof {
                        lemma_count_trues_update(marks_pre, v as int);
                        lemma_count_trues_le(visitor@);
                    }
                    visited_count += 1;
                    proof {
                        assert(edge(graph@, cur, v));
                        assert(reach(graph@, from, level0).contains(cur));
                        assert(nbrs_set(graph@, reach(graph@, from, level0)).contains(v));
                        assert forall|x: usize|
                            (x < n && #[trigger] visitor@[x as int]) == (reach(
                                graph@,
                                from,
                                level0,
                            ).contains(x) || new_queue@.contains(x)) by {
                            if x == v {
                                assert(new_queue@[new_queue@.len() - 1] == v);
                                assert(new_queue@.contains(v));
                            } else {
                                if x < n {
                                    assert(visitor@[x as int] == marks_pre[x as int]);
                                }
                                if new_queue@.contains(x) {
                                    let i2 = choose|i2: int|
                                        0 <= i2 < new_queue@.len() && new_queue@[i2] == x;
                                    assert(i2 < nq_pre.len());
                                    assert(nq_pre[i2] == x);
                                    assert(nq_pre.contains(x));
                                }
                                if nq_pre.contains(x) {
                                    let i2 = choose|i2: int|
                                        0 <= i2 < nq_pre.len() && nq_pre[i2] == x;
                                    assert(new_queue@[i2] == x);
                                    assert(new_queue@.contains(x));
                                }
                            }
                        }
                    }
                }
                j += 1;
                proof {
                    assert forall|j2: int|
                        0 <= j2 < j implies reach(graph@, from, level0).contains(
                        #[trigger] neighbors@[j2],
                    ) || new_queue@.contains(neighbors@[j2]) by {
                        let w = neighbors@[j2];
                        if !reach(graph@, from, level0).contains(w) {
                            if j2 == j - 1 {
                                assert(w == v);
                                assert(w < n && visitor@[w as int]);
                                assert(new_queue@.contains(w));
                            } else {
                                assert(nq0.contains(w));
                                let i2 = choose|i2: int| 0 <= i2 < nq0.len() && nq0[i2] == w;
                                assert(new_queue@[i2] == w);
                                assert(new_queue@.contains(w));
                            }
                        }
                    }
                    assert forall|u: usize, w: usize|
                        (exists|i2: int| 0 <= i2 < i && q0[i2] == u) && #[trigger] edge(
                            graph@,
                            u,
                            w,
                        ) implies reach(graph@, from, level0).contains(w) || new_queue@.contains(
                        w,
                    ) by {
                        if !reach(graph@, from, level0).contains(w) {
                            assert(nq0.contains(w));
                            let i2 = choose|i2: int| 0 <= i2 < nq0.len() && nq0[i2] == w;
                            assert(new_queue@[i2] == w);
                            assert(new_queue@.contains(w));
                        }
                    }
                }
            }
            i += 1;
            proof {
                assert forall|u: usize, w: usize|
                    (exists|i2: int| 0 <= i2 < i && q0[i2] == u) && #[trigger] edge(
                        graph@,
                        u,
                        w,
                    ) implies reach(graph@, from, level0).contains(w) || new_queue@.contains(
                    w,
                ) by {
                    let i2 = choose|i2: int| 0 <= i2 < i && q0[i2] == u;
                    if i2 == i - 1 {
                        assert(u == cur);
                        let j2 = choose|j2: int|
                            0 <= j2 < graph@[u as int]@.len() && graph@[u as int]@[j2] == w;
                        assert(neighbors@[j2] == w);
                    }
                }
            }
        }
        // The whole frontier was scanned: what is marked now is exactly
        // what is reachable in one more step, and the fresh marks form
        // the next frontier.
        proof {
            let lvl1 = (level0 + 1) as nat;
            assert forall|x: usize|
                #[trigger] reach(graph@, from, lvl1).contains(x) == (x < n && visitor@[x as int])
                by {
                if reach(graph@, from, lvl1).contains(x) {
                    if reach(graph@, from, level0).contains(x) {
                        assert(x < n && visitor@[x as int]);
                    } else {
                        let u = choose|u: usize|
                            reach(graph@, from, level0).contains(u) && edge(graph@, u, x);
                        if level0 == 0 || !reach(graph@, from, (level0 - 1) as nat).contains(u) {
                            assert(q0.contains(u));
                            let i2 = choose|i2: int| 0 <= i2 < q0.len() && q0[i2] == u;
                            assert(x < n && visitor@[x as int]);
                        } else {
                            assert(reach(graph@, from, level0).contains(x));
                        }
                    }
                }
                if x < n && visitor@[x as int] {
                    if reach(graph@, from, level0).contains(x) {
                        lemma_reach_mono(graph@, from, level0, lvl1);
                    } else {
                        assert(new_queue@.contains(x));
                        assert(nbrs_set(graph@, reach(graph@, from, level0)).contains(x));
                    }
                }
            }
            assert(!q0.contains(to));
            assert(!reach(graph@, from, level0).contains(to));
        }
        queue = new_queue;
        level += 1;
        proof {
            lemma_count_trues_le(visitor@);
            assert forall|x: usize|
                #[trigger] reach(graph@, from, level as nat).contains(x) && (!reach(
                    graph@,
                    from,
                    (level - 1) as nat,
                ).contains(x)) implies queue@.contains(x) by {
                assert(x < n && visitor@[x as int]);
            }
            if reach(graph@, from, level as nat).contains(to) {
                assert(queue@.contains(to));
            }
        }
    }
    // The frontier is empty: reachability has saturated without meeting
    // `to`, so no step bound reaches it.
    proof {
        assert(level > 0);
        let prev = reach(graph@, from, (level - 1) as nat);
        let curr = reach(graph@, from, level as nat);
        assert forall|x: usize| curr.contains(x) implies prev.contains(x) by {
            if !prev.contains(x) {
                assert(queue@.contains(x));
            }
        }
        lemma_reach_mono(graph@, from, (level - 1) as nat, level as nat);
        assert(prev =~= curr);
        assert forall|k: nat| !reach(graph@, from, k).contains(to) by {
            if k <= level - 1 {
                lemma_reach_mono(graph@, from, k, (level - 1) as nat);
            } else {
                lemma_reach_fixed(graph@, from, (level - 1) as nat, k);
            }
        }
    }
    None
}

} // verus!
