//! Depth-first search over an indexed dependency graph: one pass yields the
//! post-order (dependencies first) or the first dependency cycle met.
use vstd::prelude::*;

verus! {

/// Node marks: not yet seen, on the current DFS path, or fully explored.
pub open spec fn UNSEEN() -> u8 {
    0
}

pub open spec fn VISITING() -> u8 {
    1
}

pub open spec fn VISITED() -> u8 {
    2
}

/// Successor lists of a graph on nodes `0..succ.len()`.
pub open spec fn graph_wf(succ: Seq<Seq<int>>) -> bool {
    forall|v: int, k: int|
        0 <= v < succ.len() && 0 <= k < succ[v].len() ==> 0 <= #[trigger] succ[v][k] < succ.len()
}

/// Number of unseen nodes.
pub open spec fn unseen(m: Seq<u8>) -> nat
    decreases m.len(),
{
    if m.len() == 0 {
        0
    } else {
        unseen(m.drop_last()) + if m.last() == UNSEEN() {
            1nat
        } else {
            0nat
        }
    }
}

/// Marking an unseen node lowers the count by one.
pub proof fn lemma_unseen_mark(m: Seq<u8>, v: int, x: u8)
    requires
        0 <= v < m.len(),
        x != UNSEEN(),
    ensures
        m[v] == UNSEEN() ==> unseen(m.update(v, x)) + 1 == unseen(m),
        m[v] != UNSEEN() ==> unseen(m.update(v, x)) == unseen(m),
    decreases m.len(),
{
    if v < m.len() - 1 {
        lemma_unseen_mark(m.drop_last(), v, x);
        assert(m.update(v, x).drop_last() =~= m.drop_last().update(v, x));
    } else {
        assert(m.update(v, x).drop_last() =~= m.drop_last());
    }
}

/// Where a revisited node first appears on the path (0 if absent), and the cycle
/// from there back to it.
pub open spec fn cycle_at(path: Seq<int>, v: int) -> Seq<int> {
    path.subrange(first_pos(path, v), path.len() as int).push(v)
}

/// Whether `i` is the first position of `v` in `p`.
pub open spec fn is_first_pos(p: Seq<int>, v: int, i: int) -> bool {
    0 <= i < p.len() && p[i] == v && forall|j: int| 0 <= j < i ==> p[j] != v
}

/// The first position of `v` in `p`, or 0 when absent.
pub open spec fn first_pos(p: Seq<int>, v: int) -> int {
    if exists|i: int| is_first_pos(p, v, i) {
        choose|i: int| is_first_pos(p, v, i)
    } else {
        0
    }
}

/// The outcome of a traversal step: the marks and post-order so far, or a cycle.
pub type Step = Result<(Seq<u8>, Seq<int>), Seq<int>>;

/// Visits `v` below `path`: a visited node is skipped, a node on the path closes a
/// cycle, anything else is explored (successors in list order) and appended.
pub open spec fn visit(succ: Seq<Seq<int>>, v: int, m: Seq<u8>, o: Seq<int>, path: Seq<int>) -> Step
    decreases unseen(m), 1int, 0int,
{
    if !(0 <= v < m.len()) {
        Ok((m, o))
    } else if m[v] == VISITING() {
        Err(cycle_at(path, v))
    } else if m[v] != UNSEEN() {
        Ok((m, o))
    } else {
        proof {
            lemma_unseen_mark(m, v, VISITING());
        }
        match visit_list(
            succ,
            if 0 <= v < succ.len() {
                succ[v]
            } else {
                Seq::empty()
            },
            0,
            m.update(v, VISITING()),
            o,
            path.push(v),
        ) {
            Err(c) => Err(c),
            Ok((m2, o2)) => if 0 <= v < m2.len() {
                Ok((m2.update(v, VISITED()), o2.push(v)))
            } else {
                Ok((m2, o2))
            },
        }
    }
}

/// Visits `list[k..]` in order below `path`, stopping at the first cycle.
pub open spec fn visit_list(
    succ: Seq<Seq<int>>,
    list: Seq<int>,
    k: int,
    m: Seq<u8>,
    o: Seq<int>,
    path: Seq<int>,
) -> Step
    decreases unseen(m), 2int, list.len() - k,
{
    if k < 0 || k >= list.len() {
        Ok((m, o))
    } else {
        match visit(succ, list[k], m, o, path) {
            Err(c) => Err(c),
            Ok((m2, o2)) => if unseen(m2) <= unseen(m) {
                visit_list(succ, list, k + 1, m2, o2, path)
            } else {
                Ok((m2, o2))
            },
        }
    }
}

/// All-unseen marks for `n` nodes.
pub open spec fn fresh_marks(n: nat) -> Seq<u8> {
    Seq::new(n, |i: int| UNSEEN())
}

/// The whole traversal: every root in order, each from an empty path.
pub open spec fn dfs(succ: Seq<Seq<int>>, roots: Seq<int>) -> Step {
    visit_list(succ, roots, 0, fresh_marks(succ.len()), Seq::empty(), Seq::empty())
}

/// Marks only move forward (unseen -> visiting -> visited) and keep their length.
pub open spec fn marks_advance(m: Seq<u8>, m2: Seq<u8>) -> bool {
    &&& m2.len() == m.len()
    &&& forall|i: int|
        0 <= i < m.len() ==> (#[trigger] m[i] == VISITED() ==> m2[i] == VISITED()) && (m[i]
            != UNSEEN() ==> m2[i] != UNSEEN())
}

proof fn lemma_advance_unseen(m: Seq<u8>, m2: Seq<u8>)
    requires
        marks_advance(m, m2),
    ensures
        unseen(m2) <= unseen(m),
    decreases m.len(),
{
    if m.len() > 0 {
        assert(marks_advance(m.drop_last(), m2.drop_last())) by {
            assert forall|i: int| 0 <= i < m.drop_last().len() implies (#[trigger] m.drop_last()[i]
                == VISITED() ==> m2.drop_last()[i] == VISITED()) && (m.drop_last()[i] != UNSEEN()
                ==> m2.drop_last()[i] != UNSEEN()) by {
                assert(m.drop_last()[i] == m[i]);
                assert(m2.drop_last()[i] == m2[i]);
            }
        }
        lemma_advance_unseen(m.drop_last(), m2.drop_last());
        assert(m.last() == m[m.len() - 1]);
    }
}

/// Successful steps advance the marks; a visited or explored node ends visited,
/// and the post-order only grows.
pub proof fn lemma_visit_advance(
    succ: Seq<Seq<int>>,
    v: int,
    m: Seq<u8>,
    o: Seq<int>,
    path: Seq<int>,
)
    ensures
        visit(succ, v, m, o, path) matches Ok((m2, o2)) ==> marks_advance(m, m2) && (0 <= v
            < m.len() && (m[v] == UNSEEN() || m[v] == VISITED()) ==> m2[v] == VISITED()) && o2.len() >= o.len()
            && o2.subrange(0, o.len() as int) == o,
    decreases unseen(m), 1int, 0int,
{
    if !(0 <= v < m.len()) || (m[v] != VISITING() && m[v] != UNSEEN()) {
        assert(o.subrange(0, o.len() as int) =~= o);
    } else if m[v] == VISITING() {
    } else {
        lemma_unseen_mark(m, v, VISITING());
        let l = if 0 <= v < succ.len() {
            succ[v]
        } else {
            Seq::empty()
        };
        let m1 = m.update(v, VISITING());
        lemma_visit_list_advance(succ, l, 0, m1, o, path.push(v));
        match visit_list(succ, l, 0, m1, o, path.push(v)) {
            Err(c) => {},
            Ok((m2, o2)) => {
                assert(m2.len() == m1.len());
                let m3 = m2.update(v, VISITED());
                assert(o2.push(v).subrange(0, o.len() as int) =~= o2.subrange(0, o.len() as int));
                assert forall|i: int| 0 <= i < m.len() implies (#[trigger] m[i] == VISITED()
                    ==> m3[i] == VISITED()) && (m[i] != UNSEEN() ==> m3[i] != UNSEEN()) by {
                    if i != v {
                        assert(m1[i] == m[i]);
                    }
                }
            },
        }
    }
}

/// List traversal advances the marks and grows the post-order.
pub proof fn lemma_visit_list_advance(
    succ: Seq<Seq<int>>,
    list: Seq<int>,
    k: int,
    m: Seq<u8>,
    o: Seq<int>,
    path: Seq<int>,
)
    ensures
        visit_list(succ, list, k, m, o, path) matches Ok((m2, o2)) ==> marks_advance(m, m2)
            && o2.len() >= o.len() && o2.subrange(0, o.len() as int) == o,
    decreases unseen(m), 2int, list.len() - k,
{
    if k < 0 || k >= list.len() {
        assert(o.subrange(0, o.len() as int) =~= o);
    } else {
        lemma_visit_advance(succ, list[k], m, o, path);
        match visit(succ, list[k], m, o, path) {
            Err(c) => {},
            Ok((m2, o2)) => {
                lemma_advance_unseen(m, m2);
                lemma_visit_list_advance(succ, list, k + 1, m2, o2, path);
                match visit_list(succ, list, k + 1, m2, o2, path) {
                    Err(c) => {},
                    Ok((m3, o3)) => {
                        assert(o3.subrange(0, o.len() as int) =~= o2.subrange(0, o2.len() as int).subrange(0, o.len() as int));
                        assert(o2.subrange(0, o2.len() as int) =~= o2);
                    },
                }
            },
        }
    }
}

/// Executable traversal state: marks, post-order, and the current path.
pub struct DfsRun {
    pub marks: Vec<u8>,
    pub order: Vec<usize>,
    pub path: Vec<usize>,
}

pub open spec fn usizes(v: Seq<usize>) -> Seq<int> {
    v.map_values(|x: usize| x as int)
}

pub open spec fn usize_lists(v: Seq<Vec<usize>>) -> Seq<Seq<int>> {
    v.map_values(|l: Vec<usize>| usizes(l@))
}

/// The cycle closed by revisiting `v` on `path`.
fn cycle_from(path: &Vec<usize>, v: usize) -> (c: Vec<usize>)
    ensures
        usizes(c@) == cycle_at(usizes(path@), v as int),
{
    let ghost p = usizes(path@);
    let mut start: usize = 0;
    let mut found = false;
    let mut i: usize = 0;
    while i < path.len()
        invariant
            i <= path.len(),
            p == usizes(path@),
            start <= path.len(),
            !found ==> start == 0 && forall|j: int| 0 <= j < i ==> p[j] != v as int,
            found ==> start < path.len() && p[start as int] == v as int && forall|j: int|
                0 <= j < start ==> p[j] != v as int,
        decreases path.len() - i,
    {
        if !found && path[i] == v {
            start = i;
            found = true;
        }
        i = i + 1;
    }
    proof {
        if found {
            assert(is_first_pos(p, v as int, start as int));
            let j = first_pos(p, v as int);
            assert(is_first_pos(p, v as int, j));
            if j < start {
                assert(p[j] != v as int);
            } else if j > start {
                assert(p[start as int] != v as int);
            }
        } else {
            assert(!exists|i: int| is_first_pos(p, v as int, i));
        }
        assert(first_pos(p, v as int) == start);
    }
    let mut c: Vec<usize> = Vec::new();
    let mut j = start;
    while j < path.len()
        invariant
            start <= j <= path.len(),
            p == usizes(path@),
            usizes(c@) == p.subrange(start as int, j as int),
        decreases path.len() - j,
    {
        let ghost before = c@;
        c.push(path[j]);
        assert(c@ == before.push(path[j as int]));
        assert(usizes(c@) =~= usizes(before).push(path[j as int] as int));
        j = j + 1;
        assert(usizes(c@) =~= p.subrange(start as int, j as int));
    }
    let ghost before = c@;
    c.push(v);
    assert(usizes(c@) =~= usizes(before).push(v as int));
    assert(usizes(c@) =~= p.subrange(start as int, p.len() as int).push(v as int));
    c
}

/// Explores `v` (see [`visit`]), updating `run` in place.
pub fn visit_exec(succ: &Vec<Vec<usize>>, v: usize, run: &mut DfsRun) -> (r: Result<(), Vec<usize>>)
    requires
        graph_wf(usize_lists(succ@)),
        old(run).marks.len() == succ.len(),
        v < succ.len(),
    ensures
        final(run).marks.len() == succ.len(),
        final(run).path@ == old(run).path@,
        match visit(
            usize_lists(succ@),
            v as int,
            old(run).marks@,
            usizes(old(run).order@),
            usizes(old(run).path@),
        ) {
            Ok((m, o)) => r is Ok && final(run).marks@ == m && usizes(final(run).order@) == o,
            Err(c) => r matches Err(cv) && usizes(cv@) == c,
        },
    decreases unseen(old(run).marks@), 1int, 0int,
{
    let ghost g = usize_lists(succ@);
    let ghost m0 = run.marks@;
    let ghost o0 = usizes(run.order@);
    let ghost p0 = usizes(run.path@);
    if run.marks[v] == 1 {
        return Err(cycle_from(&run.path, v));
    }
    if run.marks[v] != 0 {
        return Ok(());
    }
    proof {
        lemma_unseen_mark(m0, v as int, VISITING());
    }
    run.marks.set(v, 1);
    run.path.push(v);
    let ghost m1 = run.marks@;
    let ghost l = g[v as int];
    assert(usizes(run.path@) =~= p0.push(v as int));
    assert(l == usizes(succ[v as int]@));
    let n = succ[v].len();
    let mut k: usize = 0;
    while k < n
        invariant
            g == usize_lists(succ@),
            graph_wf(g),
            v < succ.len(),
            n == succ[v as int].len(),
            l == g[v as int],
            l == usizes(succ[v as int]@),
            k <= n,
            run.marks.len() == succ.len(),
            m1.len() == succ.len(),
            m0 == old(run).marks@,
            m0.len() == succ.len(),
            o0 == usizes(old(run).order@),
            p0 == usizes(old(run).path@),
            m0[v as int] == UNSEEN(),
            m1 == m0.update(v as int, VISITING()),
            usizes(run.path@) == p0.push(v as int),
            run.path@.len() == p0.len() + 1,
            run.path@.subrange(0, p0.len() as int) == old(run).path@,
            unseen(run.marks@) < unseen(m0),
            visit_list(g, l, 0, m1, o0, p0.push(v as int)) == visit_list(
                g,
                l,
                k as int,
                run.marks@,
                usizes(run.order@),
                p0.push(v as int),
            ),
        decreases n - k,
    {
        let w = succ[v][k];
        assert(0 <= l[k as int] < g.len());
        let ghost mb = run.marks@;
        let ghost ob = usizes(run.order@);
        let r = visit_exec(succ, w, run);
        match r {
            Err(c) => {
                assert(visit(g, w as int, mb, ob, p0.push(v as int)) == Step::Err(usizes(c@)));
                assert(visit_list(g, l, k as int, mb, ob, p0.push(v as int)) == Step::Err(usizes(c@)));
                assert(visit_list(g, l, 0, m1, o0, p0.push(v as int)) == Step::Err(usizes(c@)));
                assert(m0.len() == g.len());
                assert(g[v as int] == l);
                assert(visit(g, v as int, m0, o0, p0) == Step::Err(usizes(c@)));
                let ghost pv = run.path@;
                run.path.pop();
                assert(run.path@ =~= pv.subrange(0, pv.len() - 1));
                assert(run.path@ =~= old(run).path@);
                return Err(c);
            },
            Ok(()) => {
                proof {
                    lemma_visit_advance(g, w as int, mb, ob, p0.push(v as int));
                    lemma_advance_unseen(mb, run.marks@);
                }
            },
        }
        k = k + 1;
    }
    let ghost pv = run.path@;
    run.path.pop();
    assert(run.path@ =~= pv.subrange(0, pv.len() - 1));
    assert(run.path@ =~= old(run).path@);
    run.marks.set(v, 2);
    run.order.push(v);
    assert(usizes(run.order@) =~= usizes(run.order@.drop_last()).push(v as int));
    Ok(())
}

/// Runs the whole traversal over `roots` (see [`dfs`]).
pub fn dfs_exec(succ: &Vec<Vec<usize>>, roots: &Vec<usize>) -> (r: Result<Vec<usize>, Vec<usize>>)
    requires
        graph_wf(usize_lists(succ@)),
        forall|i: int| 0 <= i < roots.len() ==> #[trigger] roots[i] < succ.len(),
    ensures
        match dfs(usize_lists(succ@), usizes(roots@)) {
            Ok((m, o)) => r matches Ok(ov) && usizes(ov@) == o,
            Err(c) => r matches Err(cv) && usizes(cv@) == c,
        },
{
    let ghost g = usize_lists(succ@);
    let ghost rs = usizes(roots@);
    let mut marks: Vec<u8> = Vec::new();
    let mut i: usize = 0;
    while i < succ.len()
        invariant
            i <= succ.len(),
            marks@ == fresh_marks(i as nat),
        decreases succ.len() - i,
    {
        marks.push(0);
        i = i + 1;
        assert(marks@ =~= fresh_marks(i as nat));
    }
    let mut run = DfsRun { marks, order: Vec::new(), path: Vec::new() };
    assert(usizes(run.order@) =~= Seq::<int>::empty());
    assert(usizes(run.path@) =~= Seq::<int>::empty());
    let mut k: usize = 0;
    while k < roots.len()
        invariant
            g == usize_lists(succ@),
            rs == usizes(roots@),
            graph_wf(g),
            forall|i: int| 0 <= i < roots.len() ==> #[trigger] roots[i] < succ.len(),
            k <= roots.len(),
            run.marks.len() == succ.len(),
            run.path@ == Seq::<usize>::empty(),
            dfs(g, rs) == visit_list(
                g,
                rs,
                k as int,
                run.marks@,
                usizes(run.order@),
                Seq::empty(),
            ),
        decreases roots.len() - k,
    {
        let ghost mb = run.marks@;
        let ghost ob = usizes(run.order@);
        assert(usizes(run.path@) =~= Seq::<int>::empty());
        let r = visit_exec(succ, roots[k], &mut run);
        match r {
            Err(c) => {
                return Err(c);
            },
            Ok(()) => {
                proof {
                    lemma_visit_advance(g, rs[k as int], mb, ob, Seq::empty());
                    lemma_advance_unseen(mb, run.marks@);
                }
            },
        }
        k = k + 1;
    }
    Ok(run.order)
}


/// Every mark is one of the three states.
pub open spec fn marks_valid(m: Seq<u8>) -> bool {
    forall|i: int| 0 <= i < m.len() ==> #[trigger] m[i] <= VISITED()
}

/// The DFS path: in range, exactly the visiting nodes, and a chain of edges.
pub open spec fn path_ok(succ: Seq<Seq<int>>, m: Seq<u8>, path: Seq<int>) -> bool {
    &&& forall|i: int| 0 <= i < path.len() ==> 0 <= #[trigger] path[i] < m.len()
    &&& forall|x: int| 0 <= x < m.len() ==> (#[trigger] m[x] == VISITING() <==> path.contains(x))
    &&& forall|i: int|
        0 <= i < path.len() - 1 ==> #[trigger] succ[path[i]].contains(path[i + 1])
    &&& path.no_duplicates()
}

/// A cycle that passes through each node once before it closes.
pub open spec fn is_simple_cycle(succ: Seq<Seq<int>>, c: Seq<int>) -> bool {
    is_cycle(succ, c) && c.drop_last().no_duplicates()
}

/// `v` is entered from the end of the path along an edge (or from the top).
pub open spec fn call_ok(succ: Seq<Seq<int>>, path: Seq<int>, v: int) -> bool {
    path.len() == 0 || succ[path.last()].contains(v)
}

/// `c` is a closed walk: at least one edge, ending where it starts.
pub open spec fn is_cycle(succ: Seq<Seq<int>>, c: Seq<int>) -> bool {
    &&& c.len() >= 2
    &&& c[0] == c.last()
    &&& forall|i: int| 0 <= i < c.len() ==> 0 <= #[trigger] c[i] < succ.len()
    &&& forall|i: int| 0 <= i < c.len() - 1 ==> #[trigger] succ[c[i]].contains(c[i + 1])
}

/// The post-order so far: duplicate-free, exactly the visited nodes, and every
/// successor of an entry appears before it.
pub open spec fn topo_ok(succ: Seq<Seq<int>>, m: Seq<u8>, o: Seq<int>) -> bool {
    &&& o.no_duplicates()
    &&& forall|i: int| 0 <= i < o.len() ==> 0 <= #[trigger] o[i] < m.len() && m[o[i]] == VISITED()
    &&& forall|i: int, k: int|
        0 <= i < o.len() && 0 <= k < succ[o[i]].len() ==> #[trigger] dep_before(succ, o, i, k)
    &&& forall|x: int| 0 <= x < m.len() && #[trigger] m[x] == VISITED() ==> o.contains(x)
}

/// The `k`-th successor of `o[i]` appears before position `i`.
pub open spec fn dep_before(succ: Seq<Seq<int>>, o: Seq<int>, i: int, k: int) -> bool {
    exists|j: int| 0 <= j < i && o[j] == succ[o[i]][k]
}

/// Same set of visiting nodes.
pub open spec fn same_visiting(m: Seq<u8>, m2: Seq<u8>) -> bool {
    m2.len() == m.len() && forall|x: int|
        0 <= x < m.len() ==> (#[trigger] m[x] == VISITING() <==> m2[x] == VISITING())
}

proof fn lemma_topo_extend(succ: Seq<Seq<int>>, m2: Seq<u8>, o2: Seq<int>, v: int)
    requires
        graph_wf(succ),
        m2.len() == succ.len(),
        0 <= v < m2.len(),
        m2[v] == VISITING(),
        topo_ok(succ, m2, o2),
        forall|k: int| 0 <= k < succ[v].len() ==> m2[#[trigger] succ[v][k]] == VISITED(),
    ensures
        topo_ok(succ, m2.update(v, VISITED()), o2.push(v)),
{
    let m3 = m2.update(v, VISITED());
    let o3 = o2.push(v);
    assert(!o2.contains(v)) by {
        if o2.contains(v) {
            let i = o2.index_of(v);
            assert(m2[o2[i]] == VISITED());
        }
    }
    assert forall|i: int, k: int|
        0 <= i < o3.len() && 0 <= k < succ[o3[i]].len() implies #[trigger] dep_before(succ, o3, i, k) by {
        if i < o2.len() {
            assert(o3[i] == o2[i]);
            assert(dep_before(succ, o2, i, k));
            let j = choose|j: int| 0 <= j < i && o2[j] == succ[o2[i]][k];
            assert(o3[j] == o2[j]);
        } else {
            let w = succ[v][k];
            assert(m2[w] == VISITED());
            assert(o2.contains(w));
            let j = o2.index_of(w);
            assert(o3[j] == w);
        }
    }
    assert forall|x: int| 0 <= x < m3.len() && #[trigger] m3[x] == VISITED() implies o3.contains(x) by {
        if x == v {
            assert(o3[o2.len() as int] == v);
        } else {
            assert(m2[x] == VISITED());
            let j = o2.index_of(x);
            assert(o3[j] == x);
        }
    }
    assert forall|i: int| 0 <= i < o3.len() implies 0 <= #[trigger] o3[i] < m3.len() && m3[o3[i]]
        == VISITED() by {
        if i < o2.len() {
            assert(o3[i] == o2[i]);
            assert(o2[i] != v);
        }
    }
    assert(o3.no_duplicates()) by {
        assert forall|a: int, b: int| 0 <= a < o3.len() && 0 <= b < o3.len() && a != b implies o3[a]
            != o3[b] by {
            if a < o2.len() && b < o2.len() {
                assert(o3[a] == o2[a]);
                assert(o3[b] == o2[b]);
            } else if a < o2.len() {
                assert(o3[a] == o2[a]);
                assert(o2.contains(o3[a]));
            } else if b < o2.len() {
                assert(o3[b] == o2[b]);
                assert(o2.contains(o3[b]));
            }
        }
    }
    assert(o3.no_duplicates());
    assert(forall|i: int| 0 <= i < o3.len() ==> 0 <= #[trigger] o3[i] < m3.len() && m3[o3[i]] == VISITED());
    assert(forall|x: int| 0 <= x < m3.len() && #[trigger] m3[x] == VISITED() ==> o3.contains(x));
    assert(topo_ok(succ, m3, o3));
}

/// One visit keeps the traversal invariants: a reported cycle is a real cycle,
/// and a successful visit leaves `v` visited, the visiting set unchanged and
/// the post-order topological.
pub proof fn lemma_visit_sound(
    succ: Seq<Seq<int>>,
    v: int,
    m: Seq<u8>,
    o: Seq<int>,
    path: Seq<int>,
)
    requires
        graph_wf(succ),
        m.len() == succ.len(),
        0 <= v < m.len(),
        marks_valid(m),
        path_ok(succ, m, path),
        call_ok(succ, path, v),
        topo_ok(succ, m, o),
    ensures
        match visit(succ, v, m, o, path) {
            Err(c) => is_simple_cycle(succ, c),
            Ok((m2, o2)) => marks_valid(m2) && same_visiting(m, m2) && topo_ok(succ, m2, o2) && (
            m[v] != VISITING() ==> m2[v] == VISITED()),
        },
    decreases unseen(m), 1int, 0int,
{
    if m[v] == VISITING() {
        let p = path;
        assert(p.contains(v));
        let s = p.index_of(v);
        assert(is_first_pos(p, v, s) || exists|i: int| is_first_pos(p, v, i)) by {
            // The smallest index holding v is a first position.
            lemma_first_pos_exists(p, v, s);
        }
        let st = first_pos(p, v);
        assert(is_first_pos(p, v, st)) by {
            lemma_first_pos_exists(p, v, s);
        }
        let c = cycle_at(p, v);
        assert(c.len() >= 2);
        assert(c[0] == v);
        assert forall|i: int| 0 <= i < c.len() - 1 implies #[trigger] succ[c[i]].contains(c[i + 1]) by {
            if i < c.len() - 2 {
                assert(c[i] == p[st + i]);
                assert(c[i + 1] == p[st + i + 1]);
            } else {
                assert(c[i] == p.last());
            }
        }
        assert forall|i: int| 0 <= i < c.len() implies 0 <= #[trigger] c[i] < succ.len() by {
            if i < c.len() - 1 {
                assert(c[i] == p[st + i]);
            }
        }
        assert(c.drop_last() =~= p.subrange(st, p.len() as int));
        assert forall|i: int, j: int| 0 <= i < c.drop_last().len() && 0 <= j < c.drop_last().len() && i != j implies
            c.drop_last()[i] != c.drop_last()[j] by {
            assert(c.drop_last()[i] == p[st + i]);
            assert(c.drop_last()[j] == p[st + j]);
        }
    } else if m[v] != UNSEEN() {
        assert(m[v] == VISITED());
    } else {
        lemma_unseen_mark(m, v, VISITING());
        let l = succ[v];
        let m1 = m.update(v, VISITING());
        let p1 = path.push(v);
        assert(path_ok(succ, m1, p1)) by {
            assert forall|x: int| 0 <= x < m1.len() implies (#[trigger] m1[x] == VISITING()
                <==> p1.contains(x)) by {
                if x != v {
                    if p1.contains(x) {
                        let j = p1.index_of(x);
                        assert(j < path.len());
                        assert(path.contains(x));
                    }
                    if path.contains(x) {
                        let j = path.index_of(x);
                        assert(p1[j] == x);
                    }
                } else {
                    assert(p1[path.len() as int] == v);
                }
            }
            assert(!path.contains(v));
            assert forall|i: int, j: int| 0 <= i < p1.len() && 0 <= j < p1.len() && i != j implies p1[i]
                != p1[j] by {
                if i < path.len() && j < path.len() {
                    assert(p1[i] == path[i] && p1[j] == path[j]);
                } else if i < path.len() {
                    assert(p1[i] == path[i]);
                    assert(path.contains(path[i]));
                } else if j < path.len() {
                    assert(p1[j] == path[j]);
                    assert(path.contains(path[j]));
                }
            }
            assert forall|i: int| 0 <= i < p1.len() - 1 implies #[trigger] succ[p1[i]].contains(
                p1[i + 1],
            ) by {
                if i < path.len() - 1 {
                    assert(p1[i] == path[i]);
                    assert(p1[i + 1] == path[i + 1]);
                } else {
                    assert(p1[i] == path.last());
                }
            }
        }
        assert(topo_ok(succ, m1, o)) by {
            assert(o.no_duplicates());
            assert forall|i: int| 0 <= i < o.len() implies 0 <= #[trigger] o[i] < m1.len() && m1[o[i]]
                == VISITED() by {
                assert(m[o[i]] == VISITED());
                assert(o[i] != v);
            }
            assert forall|x: int| 0 <= x < m1.len() && #[trigger] m1[x] == VISITED() implies o.contains(
                x,
            ) by {
                assert(m[x] == VISITED());
            }
        }
        assert forall|k: int| 0 <= k < l.len() implies call_ok(succ, p1, #[trigger] l[k]) by {
            assert(p1.last() == v);
            assert(l.contains(l[k]));
        }
        lemma_visit_list_sound(succ, l, 0, m1, o, p1);
        match visit_list(succ, l, 0, m1, o, p1) {
            Err(c) => {},
            Ok((m2, o2)) => {
                assert(m1[v] == VISITING());
                assert(m2[v] == VISITING());
                lemma_topo_extend(succ, m2, o2, v);
                let m3 = m2.update(v, VISITED());
                assert forall|x: int| 0 <= x < m.len() implies (#[trigger] m[x] == VISITING()
                    <==> m3[x] == VISITING()) by {
                    if x != v {
                        assert(m1[x] == m[x]);
                    }
                }
            },
        }
    }
}

proof fn lemma_first_pos_exists(p: Seq<int>, v: int, s: int)
    requires
        0 <= s < p.len(),
        p[s] == v,
    ensures
        exists|i: int| is_first_pos(p, v, i),
    decreases s,
{
    if exists|j: int| 0 <= j < s && p[j] == v {
        let j = choose|j: int| 0 <= j < s && p[j] == v;
        lemma_first_pos_exists(p, v, j);
    } else {
        assert(is_first_pos(p, v, s));
    }
}

/// List traversal keeps the traversal invariants, and on success every listed
/// node from `k` on ends visited.
pub proof fn lemma_visit_list_sound(
    succ: Seq<Seq<int>>,
    list: Seq<int>,
    k: int,
    m: Seq<u8>,
    o: Seq<int>,
    path: Seq<int>,
)
    requires
        graph_wf(succ),
        m.len() == succ.len(),
        forall|i: int| 0 <= i < list.len() ==> 0 <= #[trigger] list[i] < m.len(),
        forall|i: int| 0 <= i < list.len() ==> call_ok(succ, path, #[trigger] list[i]),
        marks_valid(m),
        path_ok(succ, m, path),
        topo_ok(succ, m, o),
        0 <= k,
    ensures
        match visit_list(succ, list, k, m, o, path) {
            Err(c) => is_simple_cycle(succ, c),
            Ok((m2, o2)) => marks_valid(m2) && same_visiting(m, m2) && topo_ok(succ, m2, o2)
                && forall|i: int| k <= i < list.len() ==> m2[#[trigger] list[i]] == VISITED(),
        },
    decreases unseen(m), 2int, list.len() - k,
{
    if k >= list.len() {
    } else {
        let v = list[k];
        lemma_visit_sound(succ, v, m, o, path);
        lemma_visit_advance(succ, v, m, o, path);
        match visit(succ, v, m, o, path) {
            Err(c) => {},
            Ok((m2, o2)) => {
                lemma_advance_unseen(m, m2);
                // A visiting node would have closed a cycle, so v is now visited.
                assert(m2[v] == VISITED());
                assert(path_ok(succ, m2, path)) by {
                    assert forall|x: int| 0 <= x < m2.len() implies (#[trigger] m2[x] == VISITING()
                        <==> path.contains(x)) by {
                        assert(m[x] == VISITING() <==> m2[x] == VISITING());
                    }
                }
                lemma_visit_list_sound(succ, list, k + 1, m2, o2, path);
                lemma_visit_list_advance(succ, list, k + 1, m2, o2, path);
                match visit_list(succ, list, k + 1, m2, o2, path) {
                    Err(c) => {},
                    Ok((m3, o3)) => {
                        assert forall|i: int| k <= i < list.len() implies m3[#[trigger] list[i]]
                            == VISITED() by {
                            if i == k {
                                assert(m2[list[k]] == VISITED());
                            }
                        }
                        assert forall|x: int| 0 <= x < m.len() implies (#[trigger] m[x]
                            == VISITING() <==> m3[x] == VISITING()) by {
                            assert(m[x] == VISITING() <==> m2[x] == VISITING());
                        }
                    },
                }
            },
        }
    }
}


/// The traversal over all roots either reports a real cycle, or yields a
/// duplicate-free post-order holding every root, each node after its successors.
pub proof fn lemma_dfs_sound(succ: Seq<Seq<int>>, roots: Seq<int>)
    requires
        graph_wf(succ),
        forall|i: int| 0 <= i < roots.len() ==> 0 <= #[trigger] roots[i] < succ.len(),
    ensures
        match dfs(succ, roots) {
            Err(c) => is_simple_cycle(succ, c),
            Ok((m, o)) => topo_ok(succ, m, o) && m.len() == succ.len() && forall|i: int|
                0 <= i < roots.len() ==> o.contains(#[trigger] roots[i]),
        },
{
    let m = fresh_marks(succ.len());
    let e = Seq::<int>::empty();
    assert(marks_valid(m));
    assert(path_ok(succ, m, e));
    assert(topo_ok(succ, m, e));
    assert forall|i: int| 0 <= i < roots.len() implies call_ok(succ, e, #[trigger] roots[i]) by {}
    lemma_visit_list_sound(succ, roots, 0, m, e, e);
    match dfs(succ, roots) {
        Err(c) => {},
        Ok((m2, o2)) => {
            assert forall|i: int| 0 <= i < roots.len() implies o2.contains(#[trigger] roots[i]) by {
                assert(m2[roots[i]] == VISITED());
            }
        },
    }
}

/// Along a walk through a topological order, positions strictly decrease.
proof fn lemma_walk_descends(succ: Seq<Seq<int>>, m: Seq<u8>, o: Seq<int>, c: Seq<int>, i: int)
    requires
        topo_ok(succ, m, o),
        1 <= i < c.len(),
        o.contains(c[0]),
        forall|j: int| 0 <= j < c.len() - 1 ==> #[trigger] succ[c[j]].contains(c[j + 1]),
        forall|j: int| 0 <= j < c.len() - 1 ==> o.contains(#[trigger] c[j]),
    ensures
        o.contains(c[i]),
        o.index_of(c[i]) < o.index_of(c[0]),
    decreases i,
{
    let x = c[i - 1];
    assert(o.contains(x));
    let px = o.index_of(x);
    let im = i - 1;
    assert(succ[c[im]].contains(c[im + 1]));
    assert(im + 1 == i);
    assert(succ[x].contains(c[i]));
    let k = succ[x].index_of(c[i]);
    assert(dep_before(succ, o, px, k));
    let j = choose|j: int| 0 <= j < px && o[j] == succ[o[px]][k];
    assert(o[j] == c[i]);
    assert(o.contains(c[i]));
    let pj = o.index_of(c[i]);
    assert(pj == j) by {
        assert(o[pj] == o[j]);
    }
    if i > 1 {
        lemma_walk_descends(succ, m, o, c, i - 1);
    }
}

/// A successful traversal that covers every node with successors rules out any
/// cycle in the graph.
pub proof fn lemma_dfs_ok_acyclic(succ: Seq<Seq<int>>, roots: Seq<int>, c: Seq<int>)
    requires
        graph_wf(succ),
        forall|i: int| 0 <= i < roots.len() ==> 0 <= #[trigger] roots[i] < succ.len(),
        forall|v: int| 0 <= v < succ.len() && #[trigger] succ[v].len() > 0 ==> roots.contains(v),
        dfs(succ, roots) is Ok,
    ensures
        !is_cycle(succ, c),
{
    lemma_dfs_sound(succ, roots);
    if is_cycle(succ, c) {
        let (m, o) = dfs(succ, roots)->Ok_0;
        assert forall|j: int| 0 <= j < c.len() - 1 implies o.contains(#[trigger] c[j]) by {
            assert(succ[c[j]].contains(c[j + 1]));
            assert(succ[c[j]].len() > 0);
            assert(roots.contains(c[j]));
            let r = roots.index_of(c[j]);
            assert(o.contains(roots[r]));
        }
        lemma_walk_descends(succ, m, o, c, c.len() - 1);
    }
}

} // verus!
