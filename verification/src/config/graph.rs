//! Dependency-graph traversal shared by validation, start ordering, and
//! filtering: one DFS yields a deterministic topological order and detects
//! cycles; [`reachable`] collects transitive dependencies and [`dependents`]
//! their reverse. All operate over a `name -> depends_on` adjacency map.
use vstd::prelude::*;

use super::reach::{closed_idx, idx_reach, lemma_reach_step, mark_closure};
use super::dfs::{dfs, usizes, usize_lists, graph_wf, Step, dfs_exec, is_cycle, topo_ok, dep_before, lemma_dfs_sound, lemma_dfs_ok_acyclic};
use crate::strmap::{StrMap, sorted_keys, lemma_sorted_unique};
use crate::text::{str_eq, seq_lt, lemma_seq_lt_asymmetric, lemma_seq_lt_irreflexive};

verus! {

/// A `name -> depends_on` adjacency map, iterated in name order.
pub type Adjacency = StrMap<Vec<String>>;

/// The character view of a list of strings.
pub open spec fn strs(v: Seq<String>) -> Seq<Seq<char>> {
    v.map_values(|s: String| s@)
}

/// The dependencies of `n` (none for a name without an entry).
pub open spec fn deps_of(adj: &Adjacency, n: Seq<char>) -> Seq<Seq<char>> {
    if adj@.contains_key(n) {
        strs(adj@[n]@)
    } else {
        Seq::empty()
    }
}

/// Every name the graph mentions: its keys and every dependency.
pub open spec fn node_set(adj: &Adjacency) -> Set<Seq<char>> {
    Set::new(
        |d: Seq<char>|
            adj@.contains_key(d) || exists|k: Seq<char>|
                adj@.contains_key(k) && #[trigger] deps_of(adj, k).contains(d),
    )
}

/// A set of names in code-point order.
pub open spec fn sorted_names(ns: Set<Seq<char>>) -> Seq<Seq<char>> {
    choose|s: Seq<Seq<char>>| sorted_keys(s) && s.to_set() == ns
}

/// The graph's names in code-point order.
pub open spec fn node_names(adj: &Adjacency) -> Seq<Seq<char>> {
    sorted_names(node_set(adj))
}

/// Inserts `x` after every element not above it.
pub open spec fn ins(s: Seq<int>, x: int) -> Seq<int>
    decreases s.len(),
{
    if s.len() == 0 {
        seq![x]
    } else if x < s[0] {
        seq![x] + s
    } else {
        seq![s[0]] + ins(s.drop_first(), x)
    }
}

/// Insertion sort, ascending.
pub open spec fn isort(s: Seq<int>) -> Seq<int>
    decreases s.len(),
{
    if s.len() == 0 {
        s
    } else {
        ins(isort(s.drop_last()), s.last())
    }
}

/// Node indices of a list of names.
pub open spec fn ids_of(names: Seq<Seq<char>>, ds: Seq<Seq<char>>) -> Seq<int> {
    ds.map_values(|d: Seq<char>| names.index_of(d))
}

/// Successor lists: each node's dependencies as ascending (= name-ordered) indices.
pub open spec fn succ_of(adj: &Adjacency, names: Seq<Seq<char>>) -> Seq<Seq<int>> {
    Seq::new(names.len(), |i: int| isort(ids_of(names, deps_of(adj, names[i]))))
}

/// The indices of the keys among the first `n` names, ascending.
pub open spec fn key_ids(adj: &Adjacency, names: Seq<Seq<char>>, n: int) -> Seq<int>
    decreases n,
{
    if n <= 0 {
        Seq::empty()
    } else if adj@.contains_key(names[n - 1]) {
        key_ids(adj, names, n - 1).push(n - 1)
    } else {
        key_ids(adj, names, n - 1)
    }
}

/// The traversal over the whole graph: every key in name order.
pub open spec fn graph_dfs(adj: &Adjacency) -> Step {
    let names = node_names(adj);
    dfs(succ_of(adj, names), key_ids(adj, names, names.len() as int))
}

/// Names for a list of node indices.
pub open spec fn names_at(names: Seq<Seq<char>>, ids: Seq<int>) -> Seq<Seq<char>> {
    ids.map_values(|i: int| names[i])
}

/// The topological order of `adj` (dependencies first, ties in name order), or
/// its keys when a cycle leaves no such order.
pub open spec fn spec_topo_order(adj: &Adjacency) -> Seq<Seq<char>> {
    match graph_dfs(adj) {
        Ok((m, o)) => names_at(node_names(adj), o),
        Err(c) => adj.keys(),
    }
}

/// The first dependency cycle the traversal meets, if any.
pub open spec fn spec_detect_cycle(adj: &Adjacency) -> Option<Seq<Seq<char>>> {
    match graph_dfs(adj) {
        Ok(_) => None,
        Err(c) => Some(names_at(node_names(adj), c)),
    }
}

/// `c` is a dependency cycle: it ends where it starts and each name depends on
/// the next.
pub open spec fn is_name_cycle(adj: &Adjacency, c: Seq<Seq<char>>) -> bool {
    &&& c.len() >= 2
    &&& c[0] == c.last()
    &&& forall|i: int| 0 <= i < c.len() - 1 ==> #[trigger] deps_of(adj, c[i]).contains(c[i + 1])
}

/// `order` lists each key once and places every dependency of a key before it.
pub open spec fn is_topo_order(adj: &Adjacency, order: Seq<Seq<char>>) -> bool {
    &&& order.no_duplicates()
    &&& forall|k: Seq<char>| #[trigger] adj@.contains_key(k) ==> order.contains(k)
    &&& forall|i: int, d: Seq<char>|
        0 <= i < order.len() && #[trigger] deps_of(adj, order[i]).contains(d) ==> exists|j: int|
            0 <= j < i && #[trigger] order[j] == d
}

/// Two strictly sorted sequences with the same elements are equal.
pub proof fn lemma_sorted_set_unique(a: Seq<Seq<char>>, b: Seq<Seq<char>>)
    requires
        sorted_keys(a),
        sorted_keys(b),
        a.to_set() == b.to_set(),
    ensures
        a == b,
    decreases a.len(),
{
    if a.len() == 0 {
        if b.len() > 0 {
            assert(b.to_set().contains(b[0]));
        }
        assert(a =~= b);
    } else {
        assert(a.to_set().contains(a[0]));
        assert(b.len() > 0);
        assert(b.to_set().contains(a[0]));
        assert(a.to_set().contains(b[0]));
        if a[0] != b[0] {
            let i = a.index_of(b[0]);
            let j = b.index_of(a[0]);
            assert(i > 0);
            assert(j > 0);
            assert(seq_lt(a[0], a[i]));
            assert(seq_lt(b[0], b[j]));
            lemma_seq_lt_asymmetric(a[0], b[0]);
        }
        let a1 = a.drop_first();
        let b1 = b.drop_first();
        assert(sorted_keys(a1));
        assert(sorted_keys(b1));
        assert(a1.to_set() =~= b1.to_set()) by {
            assert forall|x: Seq<char>| a1.to_set().contains(x) implies b1.to_set().contains(x) by {
                let i = a1.index_of(x);
                assert(a[i + 1] == x);
                assert(x != a[0]) by {
                    lemma_seq_lt_irreflexive(a[0]);
                }
                assert(b.to_set().contains(x));
                let j = b.index_of(x);
                assert(j != 0);
                assert(b1[j - 1] == x);
            }
            assert forall|x: Seq<char>| b1.to_set().contains(x) implies a1.to_set().contains(x) by {
                let j = b1.index_of(x);
                assert(b[j + 1] == x);
                assert(x != b[0]) by {
                    lemma_seq_lt_irreflexive(b[0]);
                }
                assert(a.to_set().contains(x));
                let i = a.index_of(x);
                assert(i != 0);
                assert(a1[i - 1] == x);
            }
        }
        lemma_sorted_set_unique(a1, b1);
        assert(a =~= seq![a[0]] + a1);
        assert(b =~= seq![b[0]] + b1);
    }
}

proof fn lemma_ins_props(s: Seq<int>, x: int)
    ensures
        ins(s, x).len() == s.len() + 1,
        forall|y: int| #[trigger] ins(s, x).contains(y) <==> (s.contains(y) || y == x),
    decreases s.len(),
{
    if s.len() == 0 {
        assert(ins(s, x) =~= seq![x]);
        assert forall|y: int| #[trigger] ins(s, x).contains(y) <==> (s.contains(y) || y == x) by {
            if y == x {
                assert(ins(s, x)[0] == x);
            }
        }
    } else if x < s[0] {
        assert(ins(s, x) == seq![x] + s);
        assert forall|y: int| #[trigger] ins(s, x).contains(y) <==> (s.contains(y) || y == x) by {
            if y == x {
                assert(ins(s, x)[0] == x);
            }
            if s.contains(y) {
                let i = s.index_of(y);
                assert(ins(s, x)[i + 1] == y);
            }
            if ins(s, x).contains(y) && y != x {
                let i = ins(s, x).index_of(y);
                assert(s[i - 1] == y);
            }
        }
    } else {
        lemma_ins_props(s.drop_first(), x);
        let t = ins(s.drop_first(), x);
        assert forall|y: int| #[trigger] ins(s, x).contains(y) <==> (s.contains(y) || y == x) by {
            if s.contains(y) {
                let i = s.index_of(y);
                if i == 0 {
                    assert(ins(s, x)[0] == y);
                } else {
                    assert(s.drop_first()[i - 1] == y);
                    assert(t.contains(y));
                    let j = t.index_of(y);
                    assert(ins(s, x)[j + 1] == y);
                }
            }
            if y == x {
                assert(t.contains(x));
                let j = t.index_of(x);
                assert(ins(s, x)[j + 1] == x);
            }
            if ins(s, x).contains(y) {
                let i = ins(s, x).index_of(y);
                if i == 0 {
                    assert(s[0] == y);
                } else {
                    assert(t[i - 1] == y);
                    assert(t.contains(y));
                    if y != x {
                        assert(s.drop_first().contains(y));
                        let j = s.drop_first().index_of(y);
                        assert(s[j + 1] == y);
                    }
                }
            }
        }
    }
}

/// Sorting keeps exactly the same elements.
pub proof fn lemma_isort_contains(s: Seq<int>)
    ensures
        isort(s).len() == s.len(),
        forall|y: int| #[trigger] isort(s).contains(y) <==> s.contains(y),
    decreases s.len(),
{
    if s.len() > 0 {
        lemma_isort_contains(s.drop_last());
        lemma_ins_props(isort(s.drop_last()), s.last());
        assert forall|y: int| #[trigger] isort(s).contains(y) <==> s.contains(y) by {
            if s.drop_last().contains(y) {
                let i = s.drop_last().index_of(y);
                assert(s[i] == y);
            }
            if s.contains(y) && y != s.last() {
                let i = s.index_of(y);
                assert(i < s.len() - 1);
                assert(s.drop_last()[i] == y);
            }
            if y == s.last() {
                assert(s[s.len() - 1] == y);
            }
        }
    }
}

pub proof fn lemma_ins_split(s: Seq<int>, x: int, p: int)
    requires
        0 <= p <= s.len(),
        forall|j: int| 0 <= j < p ==> !(x < #[trigger] s[j]),
        p == s.len() || x < s[p],
    ensures
        ins(s, x) == s.take(p).push(x) + s.skip(p),
    decreases s.len(),
{
    if s.len() == 0 {
        assert(ins(s, x) =~= s.take(p).push(x) + s.skip(p));
    } else if p == 0 {
        assert(ins(s, x) =~= s.take(p).push(x) + s.skip(p));
    } else {
        let t = s.drop_first();
        assert forall|j: int| 0 <= j < p - 1 implies !(x < #[trigger] t[j]) by {
            assert(t[j] == s[j + 1]);
        }
        lemma_ins_split(t, x, p - 1);
        assert(ins(s, x) =~= s.take(p).push(x) + s.skip(p));
    }
}

/// Sorts node indices ascending (see [`isort`]).
fn sort_ids(ids: &Vec<usize>) -> (out: Vec<usize>)
    ensures
        usizes(out@) == isort(usizes(ids@)),
{
    let mut out: Vec<usize> = Vec::new();
    let mut j: usize = 0;
    while j < ids.len()
        invariant
            j <= ids.len(),
            usizes(out@) == isort(usizes(ids@).take(j as int)),
        decreases ids.len() - j,
    {
        let x = ids[j];
        let mut p: usize = 0;
        while p < out.len() && out[p] <= x
            invariant
                p <= out.len(),
                forall|q: int| 0 <= q < p ==> out@[q] <= x,
            decreases out.len() - p,
        {
            p = p + 1;
        }
        let ghost before = usizes(out@);
        proof {
            assert forall|q: int| 0 <= q < p implies !((x as int) < #[trigger] before[q]) by {}
            lemma_ins_split(before, x as int, p as int);
            let tj = usizes(ids@).take(j + 1);
            assert(tj.drop_last() =~= usizes(ids@).take(j as int));
            assert(tj.last() == x as int);
        }
        out.insert(p, x);
        assert(usizes(out@) =~= before.take(p as int).push(x as int) + before.skip(p as int));
        j = j + 1;
    }
    assert(usizes(ids@).take(ids.len() as int) =~= usizes(ids@));
    out
}

/// The indexed form of an adjacency map.
pub struct IdxGraph {
    pub names: Vec<String>,
    pub succ: Vec<Vec<usize>>,
    pub roots: Vec<usize>,
}

impl IdxGraph {
    pub open spec fn matches(&self, adj: &Adjacency) -> bool {
        &&& strs(self.names@) == node_names(adj)
        &&& sorted_keys(strs(self.names@))
        &&& strs(self.names@).to_set() == node_set(adj)
        &&& usize_lists(self.succ@) == succ_of(adj, node_names(adj))
        &&& usizes(self.roots@) == key_ids(adj, node_names(adj), node_names(adj).len() as int)
        &&& graph_wf(usize_lists(self.succ@))
        &&& self.succ.len() == self.names.len()
        &&& forall|i: int| 0 <= i < self.roots.len() ==> #[trigger] self.roots[i] < self.succ.len()
    }
}

/// Facts about the node names: sorted, exactly the graph's names.
pub proof fn lemma_node_names(adj: &Adjacency, witness: Seq<Seq<char>>)
    requires
        sorted_keys(witness),
        witness.to_set() == node_set(adj),
    ensures
        node_names(adj) == witness,
{
    let s = node_names(adj);
    assert(sorted_keys(s) && s.to_set() == node_set(adj));
    lemma_sorted_set_unique(s, witness);
}

/// Builds the indexed graph of `adj`.
pub fn build_graph(adj: &Adjacency) -> (g: IdxGraph)
    ensures
        g.matches(adj),
{
    proof {
        use_type_invariant(adj);
        adj.lemma_view();
    }
    // Collect every name: the keys, then each dependency.
    let mut nodes: StrMap<()> = StrMap::new();
    let mut i: usize = 0;
    let n = adj.len();
    while i < n
        invariant
            adj.wf(),
            n == adj.keys().len(),
            i <= n,
            forall|x: Seq<char>| #[trigger] nodes@.contains_key(x) <==> exists|j: int|
                0 <= j < i && adj.keys()[j] == x,
        decreases n - i,
    {
        nodes.insert(adj.key_at(i).clone(), ());
        proof {
            assert forall|x: Seq<char>| #[trigger] nodes@.contains_key(x) <==> exists|j: int|
                0 <= j < i + 1 && adj.keys()[j] == x by {
                if x == adj.keys()[i as int] {
                    assert(adj.keys()[i as int] == x);
                }
            }
        }
        i = i + 1;
    }
    let mut i: usize = 0;
    while i < n
        invariant
            adj.wf(),
            n == adj.keys().len(),
            adj.keys().len() == adj.vals().len(),
            i <= n,
            forall|x: Seq<char>| #[trigger] nodes@.contains_key(x) <==> (adj@.contains_key(x) || exists|j: int, k: int|
                0 <= j < i && 0 <= k < adj.vals()[j].len() && #[trigger] adj.vals()[j]@[k]@ == x),
        decreases n - i,
    {
        let deps = adj.value_at(i);
        let mut k: usize = 0;
        while k < deps.len()
            invariant
                adj.wf(),
                n == adj.keys().len(),
                adj.keys().len() == adj.vals().len(),
                i < n,
                *deps == adj.vals()[i as int],
                k <= deps.len(),
                    forall|x: Seq<char>| #[trigger] nodes@.contains_key(x) <==> (adj@.contains_key(x) || exists|j: int, q: int|
                    0 <= j < i && 0 <= q < adj.vals()[j].len() && #[trigger] adj.vals()[j]@[q]@ == x) || exists|q: int|
                    0 <= q < k && deps@[q]@ == x,
            decreases deps.len() - k,
        {
            nodes.insert(deps[k].clone(), ());
            proof {
                assert forall|x: Seq<char>| #[trigger] nodes@.contains_key(x) <==> (adj@.contains_key(x) || exists|j: int, q: int|
                    0 <= j < i && 0 <= q < adj.vals()[j].len() && #[trigger] adj.vals()[j]@[q]@ == x) || exists|q: int|
                    0 <= q < k + 1 && deps@[q]@ == x by {
                    if x == deps@[k as int]@ {
                        assert(deps@[k as int]@ == x);
                    }
                }
            }
            k = k + 1;
        }
        proof {
            assert forall|x: Seq<char>| #[trigger] nodes@.contains_key(x) <==> (adj@.contains_key(x) || exists|j: int, q: int|
                0 <= j < i + 1 && 0 <= q < adj.vals()[j].len() && #[trigger] adj.vals()[j]@[q]@ == x) by {
                if exists|q: int| 0 <= q < k && deps@[q]@ == x {
                    let q = choose|q: int| 0 <= q < k && deps@[q]@ == x;
                    assert(adj.vals()[i as int]@[q]@ == x);
                }
                if exists|j: int, q: int|
                    0 <= j < i + 1 && 0 <= q < adj.vals()[j].len() && #[trigger] adj.vals()[j]@[q]@ == x {
                    let (j, q) = choose|j: int, q: int|
                        0 <= j < i + 1 && 0 <= q < adj.vals()[j].len() && #[trigger] adj.vals()[j]@[q]@ == x;
                    if j == i {
                        assert(deps@[q]@ == x);
                    }
                }
            }
        }
        i = i + 1;
    }
    // The node names, in order.
    let mut names: Vec<String> = Vec::new();
    let nn = nodes.len();
    let mut i: usize = 0;
    while i < nn
        invariant
            nn == nodes.keys().len(),
            i <= nn,
            strs(names@) == nodes.keys().take(i as int),
        decreases nn - i,
    {
        let ghost before = names@;
        let kc = nodes.key_at(i).clone();
        names.push(kc);
        assert(strs(names@) =~= strs(before).push(kc@));
        i = i + 1;
        assert(strs(names@) =~= nodes.keys().take(i as int));
    }
    assert(nodes.keys().take(nn as int) =~= nodes.keys());
    let ghost nm = strs(names@);
    proof {
        use_type_invariant(&nodes);
        nodes.lemma_view();
        assert(nm.to_set() =~= node_set(adj)) by {
            assert forall|x: Seq<char>| nm.to_set().contains(x) <==> node_set(adj).contains(x) by {
                if nm.contains(x) {
                    assert(nodes@.contains_key(x));
                    if !adj@.contains_key(x) {
                        let (j, q) = choose|j: int, q: int|
                            0 <= j < n && 0 <= q < adj.vals()[j].len() && #[trigger] adj.vals()[j]@[q]@ == x;
                        let kk = adj.keys()[j];
                        assert(adj@.contains_key(kk));
                        assert(adj@[kk] == adj.vals()[j]);
                        assert(deps_of(adj, kk)[q] == x);
                        assert(deps_of(adj, kk).contains(x));
                    }
                }
                if node_set(adj).contains(x) {
                    if !adj@.contains_key(x) {
                        let kk = choose|kk: Seq<char>| adj@.contains_key(kk) && #[trigger] deps_of(adj, kk).contains(x);
                        let j = adj.keys().index_of(kk);
                        assert(adj.keys()[j] == kk);
                        assert(adj@[kk] == adj.vals()[j]);
                        let q = deps_of(adj, kk).index_of(x);
                        assert(adj.vals()[j]@[q]@ == x);
                    }
                    assert(nodes@.contains_key(x));
                }
            }
        }
        lemma_node_names(adj, nm);
    }
    // Successor lists.
    let mut succ: Vec<Vec<usize>> = Vec::new();
    let mut i: usize = 0;
    while i < nn
        invariant
            nn == names.len(),
            nm == strs(names@),
            nm == node_names(adj),
            nm.to_set() == node_set(adj),
            sorted_keys(nm),
            nodes.keys() == nm,
            adj.wf(),
            i <= nn,
            succ.len() == i,
            forall|j: int| 0 <= j < i ==> #[trigger] usize_lists(succ@)[j] == succ_of(adj, nm)[j],
            forall|j: int, q: int| 0 <= j < i && 0 <= q < succ@[j].len() ==> #[trigger] succ@[j]@[q] < nn,
        decreases nn - i,
    {
        let mut ids: Vec<usize> = Vec::new();
        proof {
            use_type_invariant(adj);
            adj.lemma_view();
        }
        match adj.get(names[i].as_str()) {
            Some(deps) => {
                let mut k: usize = 0;
                while k < deps.len()
                    invariant
                        nn == names.len(),
                        nm == strs(names@),
                        nm == node_names(adj),
                        nm.to_set() == node_set(adj),
                        sorted_keys(nm),
                                    nodes.keys() == nm,
                        adj.wf(),
                        i < nn,
                        adj@.contains_key(nm[i as int]),
                        *deps == adj@[nm[i as int]],
                        k <= deps.len(),
                        usizes(ids@) == ids_of(nm, deps_of(adj, nm[i as int])).take(k as int),
                        forall|q: int| 0 <= q < k ==> #[trigger] ids@[q] < nn,
                    decreases deps.len() - k,
                {
                    let d = &deps[k];
                    let pos = nodes.find(d.as_str());
                    proof {
                        // every dependency is a node
                        assert(deps_of(adj, nm[i as int])[k as int] == d@);
                        assert(deps_of(adj, nm[i as int]).contains(d@));
                        assert(node_set(adj).contains(d@));
                        assert(nm.to_set().contains(d@));
                    }
                    match pos {
                        Some(p) => {
                            proof {
                                let q = nm.index_of(d@);
                                assert(nm[q] == d@);
                                lemma_sorted_unique(nm, q, p as int);
                            }
                            let ghost before = ids@;
                            ids.push(p);
                            assert(usizes(ids@) =~= usizes(before).push(p as int));
                            assert(ids_of(nm, deps_of(adj, nm[i as int]))[k as int] == nm.index_of(d@));
                            assert(usizes(ids@) =~= ids_of(nm, deps_of(adj, nm[i as int])).take(k + 1));
                        },
                        None => {
                            assert(nm.contains(d@));
                        },
                    }
                    k = k + 1;
                }
                assert(ids_of(nm, deps_of(adj, nm[i as int])).take(deps.len() as int) =~= ids_of(nm, deps_of(adj, nm[i as int])));
            },
            None => {
                assert(usizes(ids@) =~= ids_of(nm, deps_of(adj, nm[i as int])));
            },
        }
        let sorted = sort_ids(&ids);
        proof {
            lemma_isort_contains(usizes(ids@));
            assert forall|q: int| 0 <= q < sorted@.len() implies #[trigger] sorted@[q] < nn by {
                assert(usizes(sorted@)[q] == sorted@[q] as int);
                assert(usizes(sorted@).contains(sorted@[q] as int));
                assert(usizes(ids@).contains(sorted@[q] as int));
                let r = usizes(ids@).index_of(sorted@[q] as int);
                assert(ids@[r] < nn);
            }
        }
        let ghost old_succ = succ@;
        succ.push(sorted);
        proof {
            assert(usize_lists(succ@) =~= usize_lists(old_succ).push(usizes(sorted@)));
            assert forall|j: int| 0 <= j < i + 1 implies #[trigger] usize_lists(succ@)[j] == succ_of(adj, nm)[j] by {
                if j < i {
                    assert(usize_lists(succ@)[j] == usize_lists(old_succ)[j]);
                }
            }
        }
        i = i + 1;
    }
    assert(usize_lists(succ@) =~= succ_of(adj, nm));
    // Roots: the keys, in name order.
    let mut roots: Vec<usize> = Vec::new();
    let mut i: usize = 0;
    while i < nn
        invariant
            nn == names.len(),
            nm == strs(names@),
            adj.wf(),
            i <= nn,
            usizes(roots@) == key_ids(adj, nm, i as int),
            forall|q: int| 0 <= q < roots.len() ==> #[trigger] roots@[q] < i,
        decreases nn - i,
    {
        if adj.contains_key(names[i].as_str()) {
            roots.push(i);
            assert(usizes(roots@) =~= key_ids(adj, nm, i as int).push(i as int));
        }
        i = i + 1;
    }
    IdxGraph { names, succ, roots }
}


/// The node names are sorted and hold exactly the graph's names.
pub proof fn lemma_node_names_facts(adj: &Adjacency, g: &IdxGraph)
    requires
        g.matches(adj),
    ensures
        sorted_keys(node_names(adj)),
        node_names(adj).to_set() == node_set(adj),
        node_names(adj).no_duplicates(),
{
    let nm = node_names(adj);
    assert forall|i: int, j: int| 0 <= i < nm.len() && 0 <= j < nm.len() && i != j implies nm[i]
        != nm[j] by {
        if nm[i] == nm[j] {
            lemma_sorted_unique(nm, i, j);
        }
    }
}

/// Key positions among the node names.
proof fn lemma_key_ids(adj: &Adjacency, names: Seq<Seq<char>>, n: int)
    requires
        0 <= n <= names.len(),
    ensures
        forall|i: int| #[trigger] key_ids(adj, names, n).contains(i) <==> (0 <= i < n
            && adj@.contains_key(names[i])),
        forall|i: int| 0 <= i < key_ids(adj, names, n).len() ==> 0 <= #[trigger] key_ids(adj, names, n)[i] < n,
    decreases n,
{
    if n > 0 {
        lemma_key_ids(adj, names, n - 1);
        let prev = key_ids(adj, names, n - 1);
        if adj@.contains_key(names[n - 1]) {
            assert forall|i: int| #[trigger] key_ids(adj, names, n).contains(i) <==> (0 <= i < n
                && adj@.contains_key(names[i])) by {
                if prev.contains(i) {
                    let q = prev.index_of(i);
                    assert(prev.push(n - 1)[q] == i);
                }
                if i == n - 1 {
                    assert(prev.push(n - 1)[prev.len() as int] == i);
                }
                if prev.push(n - 1).contains(i) && i != n - 1 {
                    let q = prev.push(n - 1).index_of(i);
                    assert(prev[q] == i);
                }
            }
        }
    }
}

/// Edges of the indexed graph are exactly the dependencies.
proof fn lemma_succ_edges(adj: &Adjacency, g: &IdxGraph, i: int, j: int)
    requires
        g.matches(adj),
        0 <= i < g.names.len(),
        0 <= j < g.names.len(),
    ensures
        succ_of(adj, node_names(adj))[i].contains(j) <==> deps_of(adj, node_names(adj)[i]).contains(
            node_names(adj)[j],
        ),
{
    lemma_node_names_facts(adj, g);
    let nm = node_names(adj);
    let ds = deps_of(adj, nm[i]);
    let ids = ids_of(nm, ds);
    lemma_isort_contains(ids);
    assert(succ_of(adj, nm)[i] == isort(ids));
    if ids.contains(j) {
        let q = ids.index_of(j);
        assert(nm.index_of(ds[q]) == j);
        // ds[q] is a node, so its position holds it.
        assert(node_set(adj).contains(ds[q])) by {
            assert(ds.contains(ds[q]));
            if !adj@.contains_key(ds[q]) {
                assert(adj@.contains_key(nm[i]));
            }
        }
        assert(nm.to_set().contains(ds[q]));
        assert(nm[nm.index_of(ds[q])] == ds[q]);
        assert(ds.contains(nm[j]));
    }
    if ds.contains(nm[j]) {
        let q = ds.index_of(nm[j]);
        assert(nm.contains(nm[j]));
        let r = nm.index_of(nm[j]);
        lemma_sorted_unique(nm, r, j);
        assert(ids[q] == j);
        assert(ids.contains(j));
    }
}

/// The names of a list of node indices.
fn names_for(names: &Vec<String>, ids: &Vec<usize>) -> (out: Vec<String>)
    requires
        forall|i: int| 0 <= i < ids.len() ==> #[trigger] ids[i] < names.len(),
    ensures
        strs(out@) == names_at(strs(names@), usizes(ids@)),
{
    let mut out: Vec<String> = Vec::new();
    let mut i: usize = 0;
    while i < ids.len()
        invariant
            i <= ids.len(),
            forall|i: int| 0 <= i < ids.len() ==> #[trigger] ids[i] < names.len(),
            strs(out@) == names_at(strs(names@), usizes(ids@)).take(i as int),
        decreases ids.len() - i,
    {
        let ghost before = out@;
        let s = names[ids[i]].clone();
        out.push(s);
        assert(strs(out@) =~= strs(before).push(s@));
        i = i + 1;
        assert(strs(out@) =~= names_at(strs(names@), usizes(ids@)).take(i as int));
    }
    assert(names_at(strs(names@), usizes(ids@)).take(ids.len() as int) =~= names_at(strs(names@), usizes(ids@)));
    out
}

/// A cycle reported by the traversal is a dependency cycle.
pub proof fn lemma_reported_cycle_is_real(adj: &Adjacency, g: &IdxGraph)
    requires
        g.matches(adj),
    ensures
        spec_detect_cycle(adj) matches Some(c) ==> is_name_cycle(adj, c) && c.drop_last().no_duplicates(),
{
    let nm = node_names(adj);
    let succ = succ_of(adj, nm);
    let roots = key_ids(adj, nm, nm.len() as int);
    lemma_dfs_sound(succ, roots);
    lemma_node_names_facts(adj, g);
    if let Err(c) = graph_dfs(adj) {
        assert(is_cycle(succ, c));
        let nc = names_at(nm, c);
        assert forall|i: int, j: int| 0 <= i < nc.len() - 1 && 0 <= j < nc.len() - 1 && i != j implies
            nc.drop_last()[i] != nc.drop_last()[j] by {
            assert(c.drop_last()[i] == c[i] && c.drop_last()[j] == c[j]);
            assert(c[i] != c[j]);
            assert(0 <= c[i] < nm.len() && 0 <= c[j] < nm.len());
        }
        assert forall|i: int| 0 <= i < nc.len() - 1 implies #[trigger] deps_of(adj, nc[i]).contains(nc[i + 1]) by {
            assert(succ[c[i]].contains(c[i + 1]));
            lemma_succ_edges(adj, g, c[i], c[i + 1]);
        }
    }
}

/// With no cycle reported, the order is topological: each key once, every
/// dependency before its dependent.
pub proof fn lemma_order_is_topological(adj: &Adjacency, g: &IdxGraph)
    requires
        g.matches(adj),
    ensures
        spec_detect_cycle(adj) is None ==> is_topo_order(adj, spec_topo_order(adj)),
{
    let nm = node_names(adj);
    let succ = succ_of(adj, nm);
    let roots = key_ids(adj, nm, nm.len() as int);
    lemma_dfs_sound(succ, roots);
    lemma_node_names_facts(adj, g);
    lemma_key_ids(adj, nm, nm.len() as int);
    if let Ok((m, o)) = graph_dfs(adj) {
        let order = names_at(nm, o);
        assert(order.no_duplicates()) by {
            assert forall|a: int, b: int| 0 <= a < order.len() && 0 <= b < order.len() && a != b implies order[a] != order[b] by {
                assert(o[a] != o[b]);
                if order[a] == order[b] {
                    lemma_sorted_unique(nm, o[a], o[b]);
                }
            }
        }
        assert forall|k: Seq<char>| #[trigger] adj@.contains_key(k) implies order.contains(k) by {
            assert(node_set(adj).contains(k));
            assert(nm.to_set().contains(k));
            let i = nm.index_of(k);
            assert(roots.contains(i));
            let r = roots.index_of(i);
            assert(o.contains(roots[r]));
            let p = o.index_of(i);
            assert(order[p] == k);
        }
        assert forall|p: int, d: Seq<char>|
            0 <= p < order.len() && #[trigger] deps_of(adj, order[p]).contains(d) implies exists|j: int|
            0 <= j < p && #[trigger] order[j] == d by {
            let x = o[p];
            assert(node_set(adj).contains(d)) by {
                if !adj@.contains_key(d) {
                    assert(adj@.contains_key(order[p]));
                }
            }
            assert(nm.to_set().contains(d));
            let jd = nm.index_of(d);
            lemma_succ_edges(adj, g, x, jd);
            assert(succ[x].contains(jd));
            let k = succ[x].index_of(jd);
            assert(dep_before(succ, o, p, k));
            let j = choose|j: int| 0 <= j < p && o[j] == succ[o[p]][k];
            assert(order[j] == d);
        }
    }
}

/// With no cycle reported, the graph has no dependency cycle at all.
pub proof fn lemma_none_means_acyclic(adj: &Adjacency, g: &IdxGraph, c: Seq<Seq<char>>)
    requires
        g.matches(adj),
        spec_detect_cycle(adj) is None,
    ensures
        !is_name_cycle(adj, c),
{
    let nm = node_names(adj);
    let succ = succ_of(adj, nm);
    let roots = key_ids(adj, nm, nm.len() as int);
    lemma_node_names_facts(adj, g);
    lemma_key_ids(adj, nm, nm.len() as int);
    if is_name_cycle(adj, c) {
        // Each name on the cycle is a node.
        assert forall|i: int| 0 <= i < c.len() implies #[trigger] nm.to_set().contains(c[i]) by {
            if i < c.len() - 1 {
                assert(deps_of(adj, c[i]).contains(c[i + 1]));
                assert(adj@.contains_key(c[i]));
                assert(node_set(adj).contains(c[i]));
            } else {
                assert(c[i] == c[0]);
                assert(deps_of(adj, c[0]).contains(c[1int]));
                assert(adj@.contains_key(c[0]));
                assert(node_set(adj).contains(c[0]));
            }
        }
        let ci = c.map_values(|x: Seq<char>| nm.index_of(x));
        assert forall|i: int| 0 <= i < ci.len() implies 0 <= #[trigger] ci[i] < succ.len() && nm[ci[i]] == c[i] by {
            assert(nm.to_set().contains(c[i]));
        }
        assert forall|i: int| 0 <= i < ci.len() - 1 implies #[trigger] succ[ci[i]].contains(ci[i + 1]) by {
            assert(nm[ci[i]] == c[i]);
            assert(nm[ci[i + 1]] == c[i + 1]);
            assert(deps_of(adj, c[i]).contains(c[i + 1]));
            lemma_succ_edges(adj, g, ci[i], ci[i + 1]);
        }
        assert(ci[0] == ci.last()) by {
            assert(nm[ci[0]] == c[0]);
        }
        assert(is_cycle(succ, ci));
        assert forall|v: int| 0 <= v < succ.len() && #[trigger] succ[v].len() > 0 implies roots.contains(v) by {
            lemma_isort_contains(ids_of(nm, deps_of(adj, nm[v])));
            assert(deps_of(adj, nm[v]).len() > 0);
            assert(adj@.contains_key(nm[v]));
        }
        assert forall|i: int| 0 <= i < roots.len() implies 0 <= #[trigger] roots[i] < succ.len() by {}
        lemma_dfs_ok_acyclic(succ, roots, ci);
    }
}

/// Returns the names forming a dependency cycle, if any.
pub fn detect_cycle(adj: &Adjacency) -> (r: Option<Vec<String>>)
    ensures
        match r {
            None => spec_detect_cycle(adj) is None,
            Some(c) => spec_detect_cycle(adj) == Some(strs(c@)),
        },
        r matches Some(c) ==> is_name_cycle(adj, strs(c@)) && strs(c@).drop_last().no_duplicates(),
        r is None ==> forall|c: Seq<Seq<char>>| !#[trigger] is_name_cycle(adj, c),
{
    let g = build_graph(adj);
    proof {
        lemma_reported_cycle_is_real(adj, &g);
        assert forall|c: Seq<Seq<char>>| spec_detect_cycle(adj) is None implies !#[trigger] is_name_cycle(adj, c) by {
            lemma_none_means_acyclic(adj, &g, c);
        }
        lemma_dfs_sound(usize_lists(g.succ@), usizes(g.roots@));
    }
    match dfs_exec(&g.succ, &g.roots) {
        Ok(_) => None,
        Err(c) => {
            proof {
                assert forall|i: int| 0 <= i < c.len() implies #[trigger] c@[i] < g.names.len() by {
                    assert(usizes(c@)[i] == c@[i] as int);
                }
            }
            Some(names_for(&g.names, &c))
        },
    }
}

/// Every dependency of every key is itself a key.
pub open spec fn deps_are_keys(adj: &Adjacency) -> bool {
    forall|k: Seq<char>, d: Seq<char>| adj@.contains_key(k) && #[trigger] deps_of(adj, k).contains(d) ==> adj@.contains_key(d)
}

/// Returns process names in topological order (deps first, ties alphabetical).
/// Validation rejects cycles; if one slips through, the keys return instead.
/// When every dependency is a key, only keys are listed.
pub fn topo_order(adj: &Adjacency) -> (r: Vec<String>)
    ensures
        strs(r@) == spec_topo_order(adj),
        spec_detect_cycle(adj) is None ==> is_topo_order(adj, strs(r@)),
        deps_are_keys(adj) ==> forall|i: int| 0 <= i < r@.len() ==> adj@.contains_key(#[trigger] strs(r@)[i]),
{
    let g = build_graph(adj);
    proof {
        lemma_order_is_topological(adj, &g);
        lemma_dfs_sound(usize_lists(g.succ@), usizes(g.roots@));
        use_type_invariant(adj);
        adj.lemma_view();
    }
    match dfs_exec(&g.succ, &g.roots) {
        Ok(o) => {
            proof {
                assert forall|i: int| 0 <= i < o.len() implies #[trigger] o@[i] < g.names.len() by {
                    assert(usizes(o@)[i] == o@[i] as int);
                }
            }
            let r = names_for(&g.names, &o);
            proof {
                let nm = strs(g.names@);
                assert forall|i: int| deps_are_keys(adj) && 0 <= i < r@.len() implies adj@.contains_key(
                    #[trigger] strs(r@)[i],
                ) by {
                    assert(usizes(o@)[i] == o@[i] as int);
                    let n = nm[o@[i] as int];
                    assert(strs(r@)[i] == n);
                    assert(nm.to_set().contains(n));
                    assert(node_set(adj).contains(n));
                    if !adj@.contains_key(n) {
                        let k = choose|k: Seq<char>| adj@.contains_key(k) && #[trigger] deps_of(adj, k).contains(n);
                        assert(adj@.contains_key(k) && deps_of(adj, k).contains(n));
                    }
                }
            }
            r
        },
        Err(_) => {
            let mut out: Vec<String> = Vec::new();
            let mut i: usize = 0;
            let n = adj.len();
            while i < n
                invariant
                    i <= n,
                    n == adj.keys().len(),
                    strs(out@) == adj.keys().take(i as int),
                decreases n - i,
            {
                let ghost before = out@;
                let k = adj.key_at(i).clone();
                out.push(k);
                assert(strs(out@) =~= strs(before).push(k@));
                i = i + 1;
                assert(strs(out@) =~= adj.keys().take(i as int));
            }
            assert(adj.keys().take(n as int) =~= adj.keys());
            out
        },
    }
}


/// `s` holds every dependency of each of its names.
pub open spec fn deps_closed(adj: &Adjacency, s: Set<Seq<char>>) -> bool {
    forall|x: Seq<char>, d: Seq<char>|
        s.contains(x) && #[trigger] deps_of(adj, x).contains(d) ==> s.contains(d)
}

/// `x` is one of `start` or, transitively, a dependency of one: it lies in every
/// dependency-closed set that holds `start`.
pub open spec fn is_reachable(adj: &Adjacency, start: Seq<Seq<char>>, x: Seq<char>) -> bool {
    forall|s: Set<Seq<char>>| #[trigger] deps_closed(adj, s) && start.to_set().subset_of(s) ==> s.contains(x)
}

/// `s` holds every name that depends on one of `roots` or on a member of `s`.
pub open spec fn dependents_closed(adj: &Adjacency, roots: Set<Seq<char>>, s: Set<Seq<char>>) -> bool {
    forall|k: Seq<char>, d: Seq<char>|
        #[trigger] deps_of(adj, k).contains(d) && (roots.contains(d) || s.contains(d)) ==> s.contains(k)
}

/// `x` depends, directly or transitively, on one of `roots`.
pub open spec fn depends_on_any(adj: &Adjacency, roots: Seq<Seq<char>>, x: Seq<char>) -> bool {
    forall|s: Set<Seq<char>>| #[trigger] dependents_closed(adj, roots.to_set(), s) ==> s.contains(x)
}

/// `c` is a chain of direct dependencies: each name depends on the next.
pub open spec fn is_dep_chain(adj: &Adjacency, c: Seq<Seq<char>>) -> bool {
    &&& c.len() >= 2
    &&& forall|i: int| #![trigger deps_of(adj, c[i])] 0 <= i < c.len() - 1 ==> deps_of(adj, c[i]).contains(c[i + 1])
}

/// Some chain of direct dependencies leads from `x` to one of `roots`.
pub open spec fn chain_to(adj: &Adjacency, roots: Seq<Seq<char>>, x: Seq<char>) -> bool {
    exists|c: Seq<Seq<char>>| #[trigger] is_dep_chain(adj, c) && c[0] == x && roots.contains(c.last())
}

proof fn lemma_chain_in_closed(adj: &Adjacency, roots: Seq<Seq<char>>, s: Set<Seq<char>>, c: Seq<Seq<char>>)
    requires
        dependents_closed(adj, roots.to_set(), s),
        is_dep_chain(adj, c),
        roots.contains(c.last()),
    ensures
        s.contains(c[0]),
    decreases c.len(),
{
    assert(deps_of(adj, c[0]).contains(c[1]));
    if c.len() == 2 {
        assert(roots.to_set().contains(c[1]));
    } else {
        let t = c.drop_first();
        assert forall|i: int| #![trigger deps_of(adj, t[i])] 0 <= i < t.len() - 1 implies deps_of(adj, t[i]).contains(t[i + 1]) by {
            assert(t[i] == c[i + 1] && t[i + 1] == c[i + 2]);
            assert(deps_of(adj, c[i + 1]).contains(c[i + 2]));
        }
        assert(t.last() == c.last());
        lemma_chain_in_closed(adj, roots, s, t);
    }
}

/// A name depends, directly or transitively, on one of `roots` exactly when a
/// chain of direct dependencies leads from it to one of them.
pub proof fn lemma_depends_on_any_chain(adj: &Adjacency, roots: Seq<Seq<char>>, x: Seq<char>)
    ensures
        depends_on_any(adj, roots, x) <==> chain_to(adj, roots, x),
{
    if chain_to(adj, roots, x) {
        let c = choose|c: Seq<Seq<char>>| #[trigger] is_dep_chain(adj, c) && c[0] == x && roots.contains(c.last());
        assert forall|s: Set<Seq<char>>| #[trigger] dependents_closed(adj, roots.to_set(), s) implies s.contains(x) by {
            lemma_chain_in_closed(adj, roots, s, c);
        }
    }
    if depends_on_any(adj, roots, x) {
        let e = Set::new(|k: Seq<char>| chain_to(adj, roots, k));
        assert(dependents_closed(adj, roots.to_set(), e)) by {
            assert forall|k: Seq<char>, d: Seq<char>|
                #[trigger] deps_of(adj, k).contains(d) && (roots.to_set().contains(d) || e.contains(d)) implies e.contains(k) by {
                if roots.to_set().contains(d) {
                    let c = seq![k, d];
                    assert(deps_of(adj, c[0]).contains(c[1]));
                    assert(is_dep_chain(adj, c));
                    assert(c.last() == d);
                } else {
                    let c = choose|c: Seq<Seq<char>>| #[trigger] is_dep_chain(adj, c) && c[0] == d && roots.contains(c.last());
                    let c2 = seq![k] + c;
                    assert forall|i: int| #![trigger deps_of(adj, c2[i])] 0 <= i < c2.len() - 1 implies deps_of(adj, c2[i]).contains(c2[i + 1]) by {
                        if i > 0 {
                            assert(c2[i] == c[i - 1] && c2[i + 1] == c[i]);
                            assert(deps_of(adj, c[i - 1]).contains(c[i]));
                        } else {
                            assert(c2[0] == k && c2[1] == c[0]);
                        }
                    }
                    assert(is_dep_chain(adj, c2));
                    assert(c2.last() == c.last());
                    assert(c2[0] == k);
                }
            }
        }
        assert(e.contains(x));
    }
}

/// `dependents` in chain form: a name is listed exactly when it is not a root
/// and a chain of direct dependencies leads from it to a root; such a name has
/// dependencies, so it is a key.
pub proof fn lemma_dependents_chain(adj: &Adjacency, roots: Seq<Seq<char>>, x: Seq<char>)
    ensures
        (depends_on_any(adj, roots, x) && !roots.contains(x)) <==> (chain_to(adj, roots, x) && !roots.contains(x)),
        chain_to(adj, roots, x) ==> adj@.contains_key(x),
{
    lemma_depends_on_any_chain(adj, roots, x);
    if chain_to(adj, roots, x) {
        let c = choose|c: Seq<Seq<char>>| #[trigger] is_dep_chain(adj, c) && c[0] == x && roots.contains(c.last());
        assert(deps_of(adj, c[0]).contains(c[1]));
    }
}

/// The keys of a map, in order.
fn keys_of<V>(m: &StrMap<V>) -> (out: Vec<String>)
    ensures
        strs(out@) == m.keys(),
{
    let mut out: Vec<String> = Vec::new();
    let n = m.len();
    let mut i: usize = 0;
    while i < n
        invariant
            i <= n,
            n == m.keys().len(),
            strs(out@) == m.keys().take(i as int),
        decreases n - i,
    {
        let ghost before = out@;
        let k = m.key_at(i).clone();
        out.push(k);
        assert(strs(out@) =~= strs(before).push(k@));
        i = i + 1;
        assert(strs(out@) =~= m.keys().take(i as int));
    }
    assert(m.keys().take(n as int) =~= m.keys());
    out
}

/// The position of `s` among `names`, if present.
pub(crate) fn index_in(names: &Vec<String>, s: &str) -> (r: Option<usize>)
    ensures
        match r {
            Some(i) => i < names.len() && names[i as int]@ == s@,
            None => !strs(names@).contains(s@),
        },
{
    let mut i: usize = 0;
    while i < names.len()
        invariant
            i <= names.len(),
            forall|j: int| 0 <= j < i ==> names[j]@ != s@,
        decreases names.len() - i,
    {
        if str_eq(names[i].as_str(), s) {
            return Some(i);
        }
        i = i + 1;
    }
    proof {
        if strs(names@).contains(s@) {
            let j = strs(names@).index_of(s@);
            assert(names[j]@ == s@);
        }
    }
    None
}

/// Node indices of the `names` that are graph nodes.
fn node_ids(g: &IdxGraph, names: &Vec<String>) -> (ids: Vec<usize>)
    requires
        sorted_keys(strs(g.names@)),
    ensures
        forall|i: int| 0 <= i < ids.len() ==> #[trigger] ids[i] < g.names.len(),
        forall|v: int| #[trigger] usizes(ids@).contains(v) <==> (0 <= v < g.names.len() && strs(
            names@,
        ).contains(g.names[v]@)),
{
    let mut ids: Vec<usize> = Vec::new();
    let mut i: usize = 0;
    while i < names.len()
        invariant
            i <= names.len(),
            sorted_keys(strs(g.names@)),
            forall|q: int| 0 <= q < ids.len() ==> #[trigger] ids[q] < g.names.len(),
            forall|v: int| #[trigger] usizes(ids@).contains(v) <==> (0 <= v < g.names.len()
                && strs(names@).take(i as int).contains(g.names[v]@)),
        decreases names.len() - i,
    {
        let ghost before = ids@;
        match index_in(&g.names, names[i].as_str()) {
            Some(v) => {
                ids.push(v);
                proof {
                    assert(usizes(ids@) =~= usizes(before).push(v as int));
                }
            },
            None => {},
        }
        proof {
            let t0 = strs(names@).take(i as int);
            let t1 = strs(names@).take(i + 1);
            assert(t1 =~= t0.push(names[i as int]@));
            assert forall|v: int| #[trigger] usizes(ids@).contains(v) <==> (0 <= v < g.names.len()
                && t1.contains(g.names[v]@)) by {
                if 0 <= v < g.names.len() && t1.contains(g.names[v]@) && !t0.contains(g.names[v]@) {
                    assert(g.names[v]@ == names[i as int]@);
                    assert(strs(g.names@)[v] == g.names[v]@);
                    assert(strs(g.names@).contains(names[i as int]@));
                    let w = ids@.last();
                    assert(usizes(ids@).last() == w as int);
                    assert(g.names[w as int]@ == names[i as int]@);
                    if w as int != v {
                        // names are sorted, hence distinct
                        assert(strs(g.names@)[w as int] == strs(g.names@)[v]);
                        lemma_sorted_unique(strs(g.names@), w as int, v);
                    }
                    assert(usizes(ids@)[usizes(ids@).len() - 1] == v);
                }
                if usizes(ids@).contains(v) && !usizes(before).contains(v) {
                    assert(usizes(ids@).last() == v);
                    assert(t1[i as int] == g.names[v]@);
                }
                if usizes(before).contains(v) {
                    let q = usizes(before).index_of(v);
                    assert(usizes(ids@)[q] == v);
                }
                if usizes(ids@).contains(v) && usizes(before).contains(v) {
                    let q = t0.index_of(g.names[v]@);
                    assert(t1[q] == g.names[v]@);
                }
                if t0.contains(g.names[v]@) && 0 <= v < g.names.len() {
                    assert(usizes(before).contains(v));
                }
            }
        }
        i = i + 1;
    }
    assert(strs(names@).take(names.len() as int) =~= strs(names@));
    ids
}


/// Reaching an index from a start set, read back in names: the start names
/// plus the names of every index reached are exactly the reachable names.
proof fn lemma_reach_names(adj: &Adjacency, g: &IdxGraph, start: Seq<Seq<char>>, init: Set<int>, x: Seq<char>)
    requires
        g.matches(adj),
        forall|v: int| #[trigger] init.contains(v) <==> (0 <= v < g.names.len() && start.contains(node_names(adj)[v])),
    ensures
        (start.contains(x) || exists|w: int|
            0 <= w < g.names.len() && #[trigger] idx_reach(succ_of(adj, node_names(adj)), init, w)
                && node_names(adj)[w] == x) <==> is_reachable(adj, start, x),
{
    let nm = node_names(adj);
    let succ = succ_of(adj, nm);
    let n = g.names.len() as int;
    lemma_node_names_facts(adj, g);
    if start.contains(x) {
        assert forall|s: Set<Seq<char>>| #[trigger] deps_closed(adj, s) && start.to_set().subset_of(s) implies s.contains(x) by {
            assert(start.to_set().contains(x));
        }
    }
    if exists|w: int| 0 <= w < n && #[trigger] idx_reach(succ, init, w) && nm[w] == x {
        let w = choose|w: int| 0 <= w < n && #[trigger] idx_reach(succ, init, w) && nm[w] == x;
        assert forall|s: Set<Seq<char>>| #[trigger] deps_closed(adj, s) && start.to_set().subset_of(s) implies s.contains(x) by {
            let si = Set::new(|i: int| 0 <= i < n && s.contains(nm[i]));
            assert forall|i: int, k: int| si.contains(i) && 0 <= i < succ.len() && 0 <= k < succ[i].len() implies si.contains(
                #[trigger] succ[i][k],
            ) by {
                let j = succ[i][k];
                assert(0 <= j < n);
                assert(succ[i].contains(j));
                lemma_succ_edges(adj, g, i, j);
            }
            assert(closed_idx(succ, si));
            assert forall|v: int| init.contains(v) implies si.contains(v) by {
                assert(start.to_set().contains(nm[v]));
            }
            assert(si.contains(w));
        }
    }
    if is_reachable(adj, start, x) {
        let o = Set::new(|y: Seq<char>| start.contains(y) || exists|w: int|
            0 <= w < n && #[trigger] idx_reach(succ, init, w) && nm[w] == y);
        assert forall|y: Seq<char>, d: Seq<char>| o.contains(y) && #[trigger] deps_of(adj, y).contains(d) implies o.contains(d) by {
            assert(adj@.contains_key(y));
            assert(node_set(adj).contains(y));
            assert(nm.to_set().contains(y));
            let a = nm.index_of(y);
            assert(node_set(adj).contains(d));
            assert(nm.to_set().contains(d));
            let b = nm.index_of(d);
            lemma_succ_edges(adj, g, a, b);
            let k = succ[a].index_of(b);
            assert(idx_reach(succ, init, a)) by {
                if start.contains(y) {
                    assert(init.contains(a));
                    assert forall|s: Set<int>| #[trigger] closed_idx(succ, s) && init.subset_of(s) implies s.contains(a) by {}
                } else {
                    let w = choose|w: int| 0 <= w < n && #[trigger] idx_reach(succ, init, w) && nm[w] == y;
                    lemma_sorted_unique(nm, w, a);
                }
            }
            lemma_reach_step(succ, init, a, k);
            assert(idx_reach(succ, init, b));
        }
        assert(deps_closed(adj, o));
        assert(start.to_set().subset_of(o));
    }
}

/// Collects `start` and everything transitively reachable via `depends_on`,
/// each once and in name order. Unknown names are kept but contribute no edges.
pub fn reachable(start: &Vec<String>, adj: &Adjacency) -> (r: Vec<String>)
    ensures
        sorted_keys(strs(r@)),
        forall|x: Seq<char>| #[trigger] strs(r@).contains(x) <==> is_reachable(adj, strs(start@), x),
{
    let g = build_graph(adj);
    proof {
        lemma_node_names_facts(adj, &g);
    }
    let init = node_ids(&g, start);
    let seen = mark_closure(&g.succ, &init);
    let ghost nm = node_names(adj);
    let ghost succ = succ_of(adj, nm);
    let ghost ini = usizes(init@).to_set();
    let mut out: StrMap<()> = StrMap::new();
    let mut i: usize = 0;
    while i < start.len()
        invariant
            i <= start.len(),
            forall|x: Seq<char>| #[trigger] out@.contains_key(x) <==> strs(start@).take(i as int).contains(x),
        decreases start.len() - i,
    {
        out.insert(start[i].clone(), ());
        proof {
            let t0 = strs(start@).take(i as int);
            let t1 = strs(start@).take(i + 1);
            assert(t1 =~= t0.push(start[i as int]@));
            assert forall|x: Seq<char>| #[trigger] out@.contains_key(x) <==> t1.contains(x) by {
                if t0.contains(x) {
                    let q = t0.index_of(x);
                    assert(t1[q] == x);
                }
                if x == start[i as int]@ {
                    assert(t1[i as int] == x);
                }
                if t1.contains(x) && x != start[i as int]@ {
                    let q = t1.index_of(x);
                    assert(t0[q] == x);
                }
            }
        }
        i = i + 1;
    }
    assert(strs(start@).take(start.len() as int) =~= strs(start@));
    let n = g.names.len();
    let mut v: usize = 0;
    while v < n
        invariant
            v <= n,
            n == g.names.len(),
            seen.len() == n,
            forall|x: Seq<char>| #[trigger] out@.contains_key(x) <==> (strs(start@).contains(x) || exists|w: int|
                0 <= w < v && seen[w] && #[trigger] g.names[w]@ == x),
        decreases n - v,
    {
        if seen[v] {
            out.insert(g.names[v].clone(), ());
        }
        proof {
            assert forall|x: Seq<char>| #[trigger] out@.contains_key(x) <==> (strs(start@).contains(x) || exists|w: int|
                0 <= w < v + 1 && seen[w] && #[trigger] g.names[w]@ == x) by {
                if seen[v as int] && x == g.names[v as int]@ {
                    assert(g.names[v as int]@ == x);
                }
            }
        }
        v = v + 1;
    }
    let r = keys_of(&out);
    proof {
        use_type_invariant(&out);
        out.lemma_view();
        assert forall|v: int| #[trigger] ini.contains(v) <==> (0 <= v < g.names.len() && strs(start@).contains(nm[v])) by {
            if 0 <= v < g.names.len() {
                assert(strs(g.names@)[v] == g.names[v]@);
            }
        }
        assert forall|x: Seq<char>| #[trigger] strs(r@).contains(x) <==> is_reachable(adj, strs(start@), x) by {
            lemma_reach_names(adj, &g, strs(start@), ini, x);
            assert(strs(r@).contains(x) <==> out@.contains_key(x));
            if exists|w: int| 0 <= w < n && seen[w] && #[trigger] g.names[w]@ == x {
                let w = choose|w: int| 0 <= w < n && seen[w] && #[trigger] g.names[w]@ == x;
                assert(strs(g.names@)[w] == x);
                assert(idx_reach(succ, ini, w));
            }
            if exists|w: int| 0 <= w < g.names.len() && #[trigger] idx_reach(succ, ini, w) && nm[w] == x {
                let w = choose|w: int| 0 <= w < g.names.len() && #[trigger] idx_reach(succ, ini, w) && nm[w] == x;
                assert(strs(g.names@)[w] == x);
                assert(seen[w]);
                assert(g.names[w]@ == x);
            }
        }
    }
    r
}


/// Whether `x` occurs in `v`.
fn contains_id(v: &Vec<usize>, x: usize) -> (r: bool)
    ensures
        r == usizes(v@).contains(x as int),
{
    let mut i: usize = 0;
    while i < v.len()
        invariant
            i <= v.len(),
            forall|j: int| 0 <= j < i ==> v[j] != x,
        decreases v.len() - i,
    {
        if v[i] == x {
            assert(usizes(v@)[i as int] == x as int);
            return true;
        }
        i = i + 1;
    }
    proof {
        if usizes(v@).contains(x as int) {
            let j = usizes(v@).index_of(x as int);
            assert(v[j] == x);
        }
    }
    false
}

/// The reversed edges: `pred[j]` lists every `i` with an edge `i -> j`.
fn reverse_edges(succ: &Vec<Vec<usize>>) -> (pred: Vec<Vec<usize>>)
    requires
        graph_wf(usize_lists(succ@)),
    ensures
        pred.len() == succ.len(),
        graph_wf(usize_lists(pred@)),
        forall|j: int, i: int|
            0 <= j < succ.len() && 0 <= i < succ.len() ==> (#[trigger] usize_lists(pred@)[j].contains(i)
                <==> #[trigger] usize_lists(succ@)[i].contains(j)),
{
    let n = succ.len();
    let mut pred: Vec<Vec<usize>> = Vec::new();
    let mut j: usize = 0;
    while j < n
        invariant
            n == succ.len(),
            j <= n,
            pred.len() == j,
            forall|a: int, q: int| 0 <= a < j && 0 <= q < pred[a].len() ==> #[trigger] pred[a][q] < n,
            forall|a: int, i: int|
                0 <= a < j && 0 <= i < n ==> (#[trigger] usizes(pred[a]@).contains(i)
                    <==> usizes(succ[i]@).contains(a)),
        decreases n - j,
    {
        let mut row: Vec<usize> = Vec::new();
        let mut i: usize = 0;
        while i < n
            invariant
                n == succ.len(),
                j < n,
                i <= n,
                forall|q: int| 0 <= q < row.len() ==> #[trigger] row[q] < i,
                forall|b: int| 0 <= b < n ==> (#[trigger] usizes(row@).contains(b) <==> (b < i && usizes(
                    succ[b]@,
                ).contains(j as int))),
            decreases n - i,
        {
            let ghost before = row@;
            if contains_id(&succ[i], j) {
                row.push(i);
                assert(usizes(row@) =~= usizes(before).push(i as int));
            }
            proof {
                assert forall|b: int| 0 <= b < n implies (#[trigger] usizes(row@).contains(b) <==> (b < i + 1
                    && usizes(succ[b]@).contains(j as int))) by {
                    if usizes(before).contains(b) {
                        let q = usizes(before).index_of(b);
                        assert(usizes(row@)[q] == b);
                    }
                    if usizes(row@).contains(b) && b != i {
                        let q = usizes(row@).index_of(b);
                        assert(usizes(before)[q] == b);
                    }
                    if b == i && usizes(succ[b]@).contains(j as int) {
                        assert(usizes(row@).last() == b);
                    }
                    if b == i && usizes(row@).contains(b) && !usizes(before).contains(b) {
                        assert(usizes(succ[b]@).contains(j as int));
                    }
                    if usizes(before).contains(b) {
                        let q = usizes(before).index_of(b);
                        assert(before[q] < i);
                    }
                }
            }
            i = i + 1;
        }
        pred.push(row);
        j = j + 1;
    }
    proof {
        assert forall|j: int, i: int|
            0 <= j < succ.len() && 0 <= i < succ.len() implies (#[trigger] usize_lists(pred@)[j].contains(i)
                <==> #[trigger] usize_lists(succ@)[i].contains(j)) by {
            assert(usize_lists(pred@)[j] == usizes(pred[j]@));
            assert(usize_lists(succ@)[i] == usizes(succ[i]@));
        }
        assert forall|v: int, k: int| 0 <= v < usize_lists(pred@).len() && 0 <= k < usize_lists(pred@)[v].len() implies
            0 <= #[trigger] usize_lists(pred@)[v][k] < usize_lists(pred@).len() by {
            assert(usize_lists(pred@)[v][k] == pred[v][k] as int);
        }
    }
    pred
}

/// Reaching an index from the roots along reversed edges, read back in names:
/// outside the roots, exactly the names that depend on a root.
proof fn lemma_dependents_names(
    adj: &Adjacency,
    g: &IdxGraph,
    roots: Seq<Seq<char>>,
    init: Set<int>,
    pred: Seq<Seq<int>>,
    x: Seq<char>,
)
    requires
        g.matches(adj),
        forall|v: int| #[trigger] init.contains(v) <==> (0 <= v < g.names.len() && roots.contains(node_names(adj)[v])),
        pred.len() == g.names.len(),
        graph_wf(pred),
        forall|j: int, i: int|
            0 <= j < g.names.len() && 0 <= i < g.names.len() ==> (#[trigger] pred[j].contains(i)
                <==> #[trigger] succ_of(adj, node_names(adj))[i].contains(j)),
        !roots.contains(x),
    ensures
        (exists|w: int| 0 <= w < g.names.len() && #[trigger] idx_reach(pred, init, w) && node_names(adj)[w] == x)
            <==> depends_on_any(adj, roots, x),
{
    let nm = node_names(adj);
    let succ = succ_of(adj, nm);
    let n = g.names.len() as int;
    lemma_node_names_facts(adj, g);
    if exists|w: int| 0 <= w < n && #[trigger] idx_reach(pred, init, w) && nm[w] == x {
        let w = choose|w: int| 0 <= w < n && #[trigger] idx_reach(pred, init, w) && nm[w] == x;
        assert forall|s: Set<Seq<char>>| #[trigger] dependents_closed(adj, roots.to_set(), s) implies s.contains(x) by {
            let si = Set::new(|i: int| 0 <= i < n && (s.contains(nm[i]) || roots.contains(nm[i])));
            assert forall|i: int, k: int| si.contains(i) && 0 <= i < pred.len() && 0 <= k < pred[i].len() implies si.contains(
                #[trigger] pred[i][k],
            ) by {
                let j = pred[i][k];
                assert(0 <= j < n);
                assert(pred[i].contains(j));
                assert(succ[j].contains(i));
                lemma_succ_edges(adj, g, j, i);
                assert(deps_of(adj, nm[j]).contains(nm[i]));
                if roots.contains(nm[i]) {
                    assert(roots.to_set().contains(nm[i]));
                }
            }
            assert(closed_idx(pred, si));
            assert(si.contains(w));
        }
    }
    if depends_on_any(adj, roots, x) {
        let o = Set::new(|y: Seq<char>| exists|w: int| 0 <= w < n && #[trigger] idx_reach(pred, init, w) && nm[w] == y);
        assert forall|k: Seq<char>, d: Seq<char>|
            #[trigger] deps_of(adj, k).contains(d) && (roots.to_set().contains(d) || o.contains(d)) implies o.contains(k) by {
            assert(adj@.contains_key(k));
            assert(node_set(adj).contains(k));
            assert(nm.to_set().contains(k));
            let a = nm.index_of(k);
            assert(node_set(adj).contains(d));
            assert(nm.to_set().contains(d));
            let b = nm.index_of(d);
            lemma_succ_edges(adj, g, a, b);
            assert(pred[b].contains(a));
            let q = pred[b].index_of(a);
            assert(idx_reach(pred, init, b)) by {
                if roots.to_set().contains(d) {
                    assert(init.contains(b));
                    assert forall|s: Set<int>| #[trigger] closed_idx(pred, s) && init.subset_of(s) implies s.contains(b) by {}
                } else {
                    let w = choose|w: int| 0 <= w < n && #[trigger] idx_reach(pred, init, w) && nm[w] == d;
                    lemma_sorted_unique(nm, w, b);
                }
            }
            lemma_reach_step(pred, init, b, q);
            assert(idx_reach(pred, init, a));
        }
        assert(dependents_closed(adj, roots.to_set(), o));
    }
}

/// Collects everything that transitively depends on any of `roots` (the reverse
/// of [`reachable`]), excluding the roots themselves, each once in name order.
pub fn dependents(roots: &Vec<String>, adj: &Adjacency) -> (r: Vec<String>)
    ensures
        sorted_keys(strs(r@)),
        forall|x: Seq<char>| #[trigger] strs(r@).contains(x) <==> (depends_on_any(adj, strs(roots@), x)
            && !strs(roots@).contains(x)),
{
    let g = build_graph(adj);
    proof {
        lemma_node_names_facts(adj, &g);
    }
    let init = node_ids(&g, roots);
    let pred = reverse_edges(&g.succ);
    let seen = mark_closure(&pred, &init);
    let ghost nm = node_names(adj);
    let ghost ini = usizes(init@).to_set();
    let ghost pg = usize_lists(pred@);
    let mut out: StrMap<()> = StrMap::new();
    let n = g.names.len();
    let mut v: usize = 0;
    while v < n
        invariant
            v <= n,
            n == g.names.len(),
            seen.len() == n,
            forall|x: Seq<char>| #[trigger] out@.contains_key(x) <==> (!strs(roots@).contains(x) && exists|w: int|
                0 <= w < v && seen[w] && #[trigger] g.names[w]@ == x),
        decreases n - v,
    {
        let is_root = index_in(roots, g.names[v].as_str()).is_some();
        if seen[v] && !is_root {
            out.insert(g.names[v].clone(), ());
        }
        proof {
            if is_root {
                let q = choose|q: int| 0 <= q < roots.len() && roots[q]@ == g.names[v as int]@;
                assert(strs(roots@)[q] == g.names[v as int]@);
            }
        }
        proof {
            assert forall|x: Seq<char>| #[trigger] out@.contains_key(x) <==> (!strs(roots@).contains(x) && exists|w: int|
                0 <= w < v + 1 && seen[w] && #[trigger] g.names[w]@ == x) by {
                if seen[v as int] && x == g.names[v as int]@ {
                    assert(g.names[v as int]@ == x);
                }
            }
        }
        v = v + 1;
    }
    let r = keys_of(&out);
    proof {
        use_type_invariant(&out);
        out.lemma_view();
        assert forall|v: int| #[trigger] ini.contains(v) <==> (0 <= v < g.names.len() && strs(roots@).contains(nm[v])) by {
            if 0 <= v < g.names.len() {
                assert(strs(g.names@)[v] == g.names[v]@);
            }
        }
        assert forall|j: int, i: int|
            0 <= j < g.names.len() && 0 <= i < g.names.len() implies (#[trigger] pg[j].contains(i)
                <==> #[trigger] succ_of(adj, nm)[i].contains(j)) by {
            assert(usize_lists(g.succ@)[i] == succ_of(adj, nm)[i]);
        }
        assert forall|x: Seq<char>| #[trigger] strs(r@).contains(x) <==> (depends_on_any(adj, strs(roots@), x)
            && !strs(roots@).contains(x)) by {
            assert(strs(r@).contains(x) <==> out@.contains_key(x));
            if !strs(roots@).contains(x) {
                lemma_dependents_names(adj, &g, strs(roots@), ini, pg, x);
                if exists|w: int| 0 <= w < n && seen[w] && #[trigger] g.names[w]@ == x {
                    let w = choose|w: int| 0 <= w < n && seen[w] && #[trigger] g.names[w]@ == x;
                    assert(strs(g.names@)[w] == x);
                    assert(idx_reach(pg, ini, w));
                }
                if exists|w: int| 0 <= w < g.names.len() && #[trigger] idx_reach(pg, ini, w) && nm[w] == x {
                    let w = choose|w: int| 0 <= w < g.names.len() && #[trigger] idx_reach(pg, ini, w) && nm[w] == x;
                    assert(strs(g.names@)[w] == x);
                    assert(seen[w]);
                    assert(g.names[w]@ == x);
                }
            }
        }
    }
    r
}


/// Two adjacency maps with the same names and dependencies describe one graph:
/// the traversal, and so the cycle and the order it reports, agree.
pub proof fn lemma_same_graph(a: &Adjacency, b: &Adjacency)
    requires
        a@.dom() == b@.dom(),
        forall|k: Seq<char>| #[trigger] a@.contains_key(k) ==> deps_of(a, k) == deps_of(b, k),
    ensures
        node_names(a) == node_names(b),
        graph_dfs(a) == graph_dfs(b),
        spec_detect_cycle(a) == spec_detect_cycle(b),
{
    assert forall|k: Seq<char>| #[trigger] deps_of(a, k) == deps_of(b, k) by {
        if !a@.contains_key(k) {
            assert(!b@.contains_key(k));
        }
    }
    assert(node_set(a) =~= node_set(b)) by {
        assert forall|d: Seq<char>| node_set(a).contains(d) implies node_set(b).contains(d) by {
            if !a@.contains_key(d) {
                let k = choose|k: Seq<char>| a@.contains_key(k) && #[trigger] deps_of(a, k).contains(d);
                assert(deps_of(b, k).contains(d));
            }
        }
        assert forall|d: Seq<char>| node_set(b).contains(d) implies node_set(a).contains(d) by {
            if !b@.contains_key(d) {
                let k = choose|k: Seq<char>| b@.contains_key(k) && #[trigger] deps_of(b, k).contains(d);
                assert(deps_of(a, k).contains(d));
            }
        }
    }
    let nm = node_names(a);
    assert(succ_of(a, nm) =~= succ_of(b, nm));
    lemma_same_key_ids(a, b, nm, nm.len() as int);
}

proof fn lemma_same_key_ids(a: &Adjacency, b: &Adjacency, names: Seq<Seq<char>>, n: int)
    requires
        a@.dom() == b@.dom(),
    ensures
        key_ids(a, names, n) == key_ids(b, names, n),
    decreases n,
{
    if n > 0 {
        lemma_same_key_ids(a, b, names, n - 1);
        assert(a@.contains_key(names[n - 1]) == b@.contains_key(names[n - 1]));
    }
}

} // verus!
