//! Reachability over an index graph: the least set of nodes that contains the
//! start nodes and is closed under the edges.
use vstd::prelude::*;

use super::dfs::{usizes, usize_lists, graph_wf, unseen, lemma_unseen_mark, UNSEEN, VISITED};

verus! {

/// `s` holds every edge target of each of its nodes.
pub open spec fn closed_idx(edges: Seq<Seq<int>>, s: Set<int>) -> bool {
    forall|i: int, k: int|
        s.contains(i) && 0 <= i < edges.len() && 0 <= k < edges[i].len() ==> s.contains(
            #[trigger] edges[i][k],
        )
}

/// `v` lies in every edge-closed set that holds the start nodes.
pub open spec fn idx_reach(edges: Seq<Seq<int>>, init: Set<int>, v: int) -> bool {
    forall|s: Set<int>| #[trigger] closed_idx(edges, s) && init.subset_of(s) ==> s.contains(v)
}

/// One edge step keeps reachability.
pub proof fn lemma_reach_step(edges: Seq<Seq<int>>, init: Set<int>, i: int, k: int)
    requires
        idx_reach(edges, init, i),
        0 <= i < edges.len(),
        0 <= k < edges[i].len(),
    ensures
        idx_reach(edges, init, edges[i][k]),
{
    assert forall|s: Set<int>| #[trigger] closed_idx(edges, s) && init.subset_of(s) implies s.contains(
        edges[i][k],
    ) by {
        assert(s.contains(i));
    }
}

/// The nodes reachable from `init` along `edges`: `seen[v]` exactly when `v` is.
pub fn mark_closure(edges: &Vec<Vec<usize>>, init: &Vec<usize>) -> (seen: Vec<bool>)
    requires
        graph_wf(usize_lists(edges@)),
        forall|i: int| 0 <= i < init.len() ==> #[trigger] init[i] < edges.len(),
    ensures
        seen.len() == edges.len(),
        forall|v: int|
            0 <= v < edges.len() ==> (#[trigger] seen[v] <==> idx_reach(
                usize_lists(edges@),
                usizes(init@).to_set(),
                v,
            )),
{
    let ghost g = usize_lists(edges@);
    let ghost st = usizes(init@).to_set();
    let n = edges.len();
    let mut marks: Vec<u8> = Vec::new();
    let mut i: usize = 0;
    while i < n
        invariant
            i <= n,
            marks.len() == i,
            forall|v: int| 0 <= v < i ==> #[trigger] marks[v] == UNSEEN(),
        decreases n - i,
    {
        marks.push(0);
        i = i + 1;
    }
    let mut stack: Vec<usize> = Vec::new();
    let mut i: usize = 0;
    while i < init.len()
        invariant
            n == edges.len(),
            g == usize_lists(edges@),
            st == usizes(init@).to_set(),
            forall|i: int| 0 <= i < init.len() ==> #[trigger] init[i] < edges.len(),
            i <= init.len(),
            marks.len() == n,
            forall|v: int| 0 <= v < n ==> #[trigger] marks[v] == UNSEEN() || marks[v] == VISITED(),
            forall|v: int| 0 <= v < n && #[trigger] marks[v] == VISITED() ==> idx_reach(g, st, v),
            forall|q: int| 0 <= q < i ==> #[trigger] marks[init[q] as int] == VISITED(),
            forall|v: int|
                0 <= v < n && #[trigger] marks[v] == VISITED() ==> stack@.contains(v as usize),
            forall|q: int| 0 <= q < stack.len() ==> #[trigger] stack[q] < n && marks[stack[q] as int] == VISITED(),
        decreases init.len() - i,
    {
        let v = init[i];
        proof {
            assert(usizes(init@)[i as int] == v as int);
            assert(st.contains(v as int));
            assert forall|s: Set<int>| #[trigger] closed_idx(g, s) && st.subset_of(s) implies s.contains(v as int) by {}
        }
        if marks[v] == 0 {
            let ghost sb = stack@;
            marks.set(v, 2);
            stack.push(v);
            proof {
                assert forall|x: int| 0 <= x < n && #[trigger] marks[x] == VISITED() implies stack@.contains(x as usize) by {
                    if x == v as int {
                        assert(stack@[stack.len() - 1] == v);
                    } else {
                        let p = sb.index_of(x as usize);
                        assert(stack@[p] == x as usize);
                    }
                }
            }
        }
        i = i + 1;
    }
    while stack.len() > 0
        invariant
            n == edges.len(),
            g == usize_lists(edges@),
            graph_wf(g),
            st == usizes(init@).to_set(),
            forall|i: int| 0 <= i < init.len() ==> #[trigger] init[i] < edges.len(),
            marks.len() == n,
            forall|v: int| 0 <= v < n ==> #[trigger] marks[v] == UNSEEN() || marks[v] == VISITED(),
            forall|v: int| 0 <= v < n && #[trigger] marks[v] == VISITED() ==> idx_reach(g, st, v),
            forall|q: int| 0 <= q < init.len() ==> #[trigger] marks[init[q] as int] == VISITED(),
            forall|q: int| 0 <= q < stack.len() ==> #[trigger] stack[q] < n && marks[stack[q] as int] == VISITED(),
            forall|v: int, k: int|
                0 <= v < n && marks[v] == VISITED() && !stack@.contains(v as usize) && 0 <= k
                    < g[v].len() ==> #[trigger] marks[g[v][k]] == VISITED(),
        decreases unseen(marks@), stack.len(),
    {
        let ghost old_stack = stack@;
        let ghost before = marks@;
        proof {
            assert forall|v: int, k: int|
                0 <= v < n && before[v] == VISITED() && !old_stack.contains(v as usize) && 0 <= k
                    < g[v].len() implies #[trigger] before[g[v][k]] == VISITED() by {
                assert(marks[v] == VISITED());
            }
            assert forall|q: int| 0 <= q < init.len() implies #[trigger] before[init[q] as int] == VISITED() by {
                assert(marks[init[q] as int] == VISITED());
            }
        }
        let u = stack.pop().unwrap();
        let ghost popped = stack@;
        assert(old_stack =~= popped.push(u));
        let row = &edges[u];
        let mut k: usize = 0;
        while k < row.len()
            invariant
                n == edges.len(),
                g == usize_lists(edges@),
                graph_wf(g),
                st == usizes(init@).to_set(),
                u < n,
                *row == edges@[u as int],
                k <= row.len(),
                marks.len() == n,
                marks[u as int] == VISITED(),
                idx_reach(g, st, u as int),
                unseen(marks@) <= unseen(before),
                stack.len() >= popped.len(),
                stack@.subrange(0, popped.len() as int) == popped,
                unseen(marks@) < unseen(before) || stack.len() == popped.len(),
                forall|v: int| 0 <= v < n ==> #[trigger] marks[v] == UNSEEN() || marks[v] == VISITED(),
                forall|v: int| 0 <= v < n && before[v] == VISITED() ==> #[trigger] marks[v] == VISITED(),
                forall|v: int| 0 <= v < n && #[trigger] marks[v] == VISITED() ==> idx_reach(g, st, v),
                forall|q: int| 0 <= q < stack.len() ==> #[trigger] stack[q] < n && marks[stack[q] as int] == VISITED(),
                forall|v: int|
                    0 <= v < n && #[trigger] marks[v] == VISITED() && before[v] != VISITED()
                        ==> stack@.contains(v as usize),
                forall|q: int| 0 <= q < k ==> #[trigger] marks[g[u as int][q]] == VISITED(),
            decreases row.len() - k,
        {
            let w = row[k];
            proof {
                assert(g[u as int][k as int] == w as int);
                lemma_reach_step(g, st, u as int, k as int);
            }
            if marks[w] == 0 {
                proof {
                    lemma_unseen_mark(marks@, w as int, VISITED());
                }
                let ghost sb = stack@;
                marks.set(w, 2);
                stack.push(w);
                proof {
                    assert(stack@.subrange(0, popped.len() as int) =~= sb.subrange(0, popped.len() as int));
                    assert(stack@[stack.len() - 1] == w);
                    assert forall|x: int|
                        0 <= x < n && #[trigger] marks[x] == VISITED() && before[x] != VISITED()
                            implies stack@.contains(x as usize) by {
                        if x != w as int {
                            let p = sb.index_of(x as usize);
                            assert(stack@[p] == x as usize);
                        }
                    }
                }
            }
            k = k + 1;
        }
        proof {
            assert forall|v: int, q: int|
                0 <= v < n && marks[v] == VISITED() && !stack@.contains(v as usize) && 0 <= q
                    < g[v].len() implies #[trigger] marks[g[v][q]] == VISITED() by {
                if v != u {
                    if before[v] == VISITED() {
                        if popped.contains(v as usize) {
                            let p = popped.index_of(v as usize);
                            assert(stack@.subrange(0, popped.len() as int)[p] == v as usize);
                            assert(stack@[p] == v as usize);
                        }
                        if old_stack.contains(v as usize) {
                            let p = old_stack.index_of(v as usize);
                            if p < popped.len() {
                                assert(popped[p] == v as usize);
                            }
                        }
                        assert(before[g[v][q]] == VISITED());
                    }
                }
            }
            assert forall|q: int| 0 <= q < init.len() implies #[trigger] marks[init[q] as int] == VISITED() by {
                assert(before[init[q] as int] == VISITED());
            }
        }
    }
    let mut seen: Vec<bool> = Vec::new();
    let mut i: usize = 0;
    while i < n
        invariant
            i <= n,
            marks.len() == n,
            seen.len() == i,
            forall|v: int| 0 <= v < i ==> #[trigger] seen[v] == (marks[v] == VISITED()),
        decreases n - i,
    {
        seen.push(marks[i] == 2);
        i = i + 1;
    }
    proof {
        let s = Set::new(|v: int| 0 <= v < n && marks[v] == VISITED());
        assert(closed_idx(g, s)) by {
            assert forall|i: int, k: int|
                s.contains(i) && 0 <= i < g.len() && 0 <= k < g[i].len() implies s.contains(
                #[trigger] g[i][k],
            ) by {
                assert(marks[g[i][k]] == VISITED());
            }
        }
        assert(st.subset_of(s)) by {
            assert forall|v: int| st.contains(v) implies s.contains(v) by {
                let q = usizes(init@).index_of(v);
                assert(init[q] as int == v);
            }
        }
        assert forall|v: int| 0 <= v < n implies (#[trigger] seen[v] <==> idx_reach(g, st, v)) by {
            if idx_reach(g, st, v) {
                assert(s.contains(v));
            }
        }
    }
    seen
}

} // verus!
