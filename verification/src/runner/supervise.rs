//! The supervisor's shared bookkeeping and the decisions made under its lock:
//! which process groups are live, which services were stopped and how, the
//! run's exit code, the global shutdown, leftover groups awaiting a kill, and
//! the restart batches that relaunch once their whole subtree has exited.
use vstd::prelude::*;

use crate::config::graph::{Adjacency, dependents, depends_on_any, index_in, strs};
use crate::strmap::StrMap;
use crate::text::append_str;

verus! {

/// How a stopped service's live (or late-registering) group is signalled.
#[derive(Clone, Copy, Debug, PartialEq, Eq, Structural)]
pub enum StopKind {
    /// Graceful: SIGTERM now, SIGKILL after the grace period.
    Term,
    /// Forced (a repeat stop): SIGKILL immediately.
    Kill,
}

/// The two signals the supervisor sends a process group.
#[derive(Clone, Copy, Debug, PartialEq, Eq, Structural)]
pub enum GroupSignal {
    Term,
    Kill,
}

/// What registering a freshly spawned group asks for: a signal to send it at
/// once (a stop or shutdown raced the spawn), and whether to schedule its
/// SIGKILL too; with no signal the service is marked running.
#[derive(Clone, Copy, Debug, PartialEq, Eq, Structural)]
pub struct Registered {
    pub signal: Option<GroupSignal>,
    pub escalate: bool,
}

/// The supervisor's state, as values.
pub struct SupervisorView {
    /// Live process groups by service name.
    pub groups: Map<Seq<char>, i32>,
    pub shutting_down: bool,
    /// Whether a SIGKILL sweep ran (late groups are killed too).
    pub killed: bool,
    /// Services stopped by hand (or with a stopped upstream), and how.
    pub stopped: Map<Seq<char>, StopKind>,
    /// Leftover groups of reaped leaders awaiting a SIGKILL, by group id.
    pub strays: Map<i32, Seq<char>>,
    pub exit_code: i32,
    /// Restart batches, each relaunched once none of its members is live.
    pub batches: Seq<Set<Seq<char>>>,
    /// Restarts between their stop and the queueing of their batch.
    pub arming: int,
    /// Whether the run loop has decided to end.
    pub ended: bool,
}

/// Whether no two batches share a member.
pub open spec fn pairwise_disjoint(bs: Seq<Set<Seq<char>>>) -> bool {
    forall|i: int, j: int| 0 <= i < bs.len() && 0 <= j < bs.len() && i != j ==> (#[trigger] bs[i]).disjoint(
        #[trigger] bs[j],
    )
}

/// The members of every batch.
pub open spec fn union_of(bs: Seq<Set<Seq<char>>>) -> Set<Seq<char>>
    decreases bs.len(),
{
    if bs.len() == 0 {
        Set::empty()
    } else {
        union_of(bs.drop_last()).union(bs.last())
    }
}

/// One batch folded into a merge in progress: a batch meeting the merged set
/// joins it, any other is kept apart.
pub open spec fn merge_step(acc: (Seq<Set<Seq<char>>>, Set<Seq<char>>), b: Set<Seq<char>>) -> (
    Seq<Set<Seq<char>>>,
    Set<Seq<char>>,
) {
    if b.disjoint(acc.1) {
        (acc.0.push(b), acc.1)
    } else {
        (acc.0, acc.1.union(b))
    }
}

/// The batches kept apart, and the merged set, after folding in `bs`.
pub open spec fn merge_fold(bs: Seq<Set<Seq<char>>>, t: Set<Seq<char>>) -> (Seq<Set<Seq<char>>>, Set<Seq<char>>)
    decreases bs.len(),
{
    if bs.len() == 0 {
        (Seq::empty(), t)
    } else {
        merge_step(merge_fold(bs.drop_last(), t), bs.last())
    }
}

/// The batches after queueing `t`: every pending batch that overlaps it is
/// folded into one batch with it (so overlapping restarts relaunch together),
/// disjoint ones stay as they were, and the merged batch goes last.
pub open spec fn merge_batches(bs: Seq<Set<Seq<char>>>, t: Set<Seq<char>>) -> Seq<Set<Seq<char>>> {
    let r = merge_fold(bs, t);
    r.0.push(r.1)
}

/// Whether a batch still has a live member.
pub open spec fn has_live(b: Set<Seq<char>>, live: Set<Seq<char>>) -> bool {
    !b.disjoint(live)
}

/// The batches with a live member, in order.
pub open spec fn pending_batches(bs: Seq<Set<Seq<char>>>, live: Set<Seq<char>>) -> Seq<Set<Seq<char>>>
    decreases bs.len(),
{
    if bs.len() == 0 {
        Seq::empty()
    } else if has_live(bs.last(), live) {
        pending_batches(bs.drop_last(), live).push(bs.last())
    } else {
        pending_batches(bs.drop_last(), live)
    }
}

/// The members of the batches none of whose members is live.
pub open spec fn quiet_members(bs: Seq<Set<Seq<char>>>, live: Set<Seq<char>>) -> Set<Seq<char>>
    decreases bs.len(),
{
    if bs.len() == 0 {
        Set::empty()
    } else if has_live(bs.last(), live) {
        quiet_members(bs.drop_last(), live)
    } else {
        quiet_members(bs.drop_last(), live).union(bs.last())
    }
}

/// A name list as a set.
pub open spec fn name_set(v: Seq<String>) -> Set<Seq<char>> {
    strs(v).to_set()
}

/// `ps` lists the entries of `m`: each name once, with its group.
pub open spec fn lists(ps: Seq<(String, i32)>, m: Map<Seq<char>, i32>) -> bool {
    &&& forall|i: int, j: int| 0 <= i < j < ps.len() ==> (#[trigger] ps[i]).0@ != (#[trigger] ps[j]).0@
    &&& forall|i: int| 0 <= i < ps.len() ==> m.contains_key((#[trigger] ps[i]).0@) && m[ps[i].0@] == ps[i].1
    &&& forall|k: Seq<char>| #[trigger] m.contains_key(k) ==> exists|i: int| 0 <= i < ps.len() && ps[i].0@ == k
}

/// `ps` lists the entries of `m` keyed by group id: each id once.
pub open spec fn lists_strays(ps: Seq<(i32, String)>, m: Map<i32, Seq<char>>) -> bool {
    &&& forall|i: int, j: int| 0 <= i < j < ps.len() ==> (#[trigger] ps[i]).0 != (#[trigger] ps[j]).0
    &&& forall|i: int| 0 <= i < ps.len() ==> m.contains_key((#[trigger] ps[i]).0) && m[ps[i].0] == ps[i].1@
    &&& forall|k: i32| #[trigger] m.contains_key(k) ==> exists|i: int| 0 <= i < ps.len() && ps[i].0 == k
}

/// Every name of `names` with a group in `m` is listed in `ps`.
pub open spec fn covers(ps: Seq<(String, i32)>, names: Seq<Seq<char>>, m: Map<Seq<char>, i32>) -> bool {
    forall|k: Seq<char>| names.contains(k) && #[trigger] m.contains_key(k) ==> exists|i: int| 0 <= i < ps.len() && ps[i].0@ == k
}

/// The exit code after reporting `code`: the first non-zero one sticks.
pub open spec fn spec_set_exit_code(current: i32, code: i32) -> i32 {
    if current == 0 {
        code
    } else {
        current
    }
}

/// The first non-zero exit code reported is the one the run ends with.
pub proof fn lemma_first_exit_code_wins(first: i32, later: i32)
    requires
        first != 0,
    ensures
        spec_set_exit_code(spec_set_exit_code(0, first), later) == first,
{
}

/// What registering a group decides: a kill sweep (or a forced stop of this
/// service) kills it, a shutdown in progress terminates it, a graceful stop
/// terminates it and schedules its kill; otherwise it runs.
pub open spec fn spec_register(v: SupervisorView, name: Seq<char>) -> Registered {
    if v.killed || (v.stopped.contains_key(name) && v.stopped[name] == StopKind::Kill) {
        Registered { signal: Some(GroupSignal::Kill), escalate: false }
    } else if v.shutting_down {
        Registered { signal: Some(GroupSignal::Term), escalate: false }
    } else if v.stopped.contains_key(name) {
        Registered { signal: Some(GroupSignal::Term), escalate: true }
    } else {
        Registered { signal: None, escalate: false }
    }
}

/// Restart batches, pairwise disjoint.
pub struct Batches {
    list: Vec<Vec<String>>,
}

impl Batches {
    #[verifier::type_invariant]
    closed spec fn inv(&self) -> bool {
        pairwise_disjoint(self.list@.map_values(|b: Vec<String>| name_set(b@)))
    }

    /// The batches, each as a set of names.
    pub closed spec fn view(&self) -> Seq<Set<Seq<char>>> {
        self.list@.map_values(|b: Vec<String>| name_set(b@))
    }
}

/// The names of `order` that are in `s`, in order.
pub open spec fn keep_in(order: Seq<Seq<char>>, s: Set<Seq<char>>) -> Seq<Seq<char>>
    decreases order.len(),
{
    if order.len() == 0 {
        Seq::empty()
    } else if s.contains(order.last()) {
        keep_in(order.drop_last(), s).push(order.last())
    } else {
        keep_in(order.drop_last(), s)
    }
}

/// Folding the first `n` batches keeps the kept batches pairwise disjoint, each
/// one of the first `n` and apart from the merged set, and loses no member.
proof fn lemma_merge_fold(bs: Seq<Set<Seq<char>>>, t: Set<Seq<char>>, n: int)
    requires
        pairwise_disjoint(bs),
        0 <= n <= bs.len(),
    ensures
        pairwise_disjoint(merge_fold(bs.take(n), t).0),
        forall|a: int| 0 <= a < merge_fold(bs.take(n), t).0.len() ==> exists|j: int|
            0 <= j < n && bs[j] == #[trigger] merge_fold(bs.take(n), t).0[a],
        forall|a: int| 0 <= a < merge_fold(bs.take(n), t).0.len() ==> (#[trigger] merge_fold(bs.take(n), t).0[a]).disjoint(
            merge_fold(bs.take(n), t).1,
        ),
        union_of(merge_fold(bs.take(n), t).0).union(merge_fold(bs.take(n), t).1) == union_of(bs.take(n)).union(t),
    decreases n,
{
    if n == 0 {
        assert(bs.take(0) =~= Seq::<Set<Seq<char>>>::empty());
        assert(union_of(Seq::<Set<Seq<char>>>::empty()).union(t) =~= t);
    } else {
        lemma_merge_fold(bs, t, n - 1);
        assert(bs.take(n).drop_last() =~= bs.take(n - 1));
        assert(bs.take(n).last() == bs[n - 1]);
        let prev = merge_fold(bs.take(n - 1), t);
        let b = bs[n - 1];
        let cur = merge_fold(bs.take(n), t);
        assert(cur == merge_step(prev, b));
        assert(union_of(bs.take(n)) == union_of(bs.take(n - 1)).union(b));
        assert forall|a: int| 0 <= a < prev.0.len() implies (#[trigger] prev.0[a]).disjoint(b) by {
            let j = choose|j: int| 0 <= j < n - 1 && bs[j] == prev.0[a];
            assert(bs[j].disjoint(bs[n - 1]));
        }
        if b.disjoint(prev.1) {
            assert(cur.0 == prev.0.push(b));
            assert forall|a: int| 0 <= a < cur.0.len() implies exists|j: int| 0 <= j < n && bs[j] == #[trigger] cur.0[a] by {
                if a < prev.0.len() {
                    assert(cur.0[a] == prev.0[a]);
                    let j = choose|j: int| 0 <= j < n - 1 && bs[j] == prev.0[a];
                } else {
                    assert(cur.0[a] == bs[n - 1]);
                }
            }
            assert forall|i: int, j: int| 0 <= i < cur.0.len() && 0 <= j < cur.0.len() && i != j implies (
            #[trigger] cur.0[i]).disjoint(#[trigger] cur.0[j]) by {
                if i < prev.0.len() && j < prev.0.len() {
                    assert(cur.0[i] == prev.0[i]);
                    assert(cur.0[j] == prev.0[j]);
                } else if i < prev.0.len() {
                    assert(cur.0[i] == prev.0[i]);
                    assert(cur.0[j] == b);
                } else {
                    assert(cur.0[j] == prev.0[j]);
                    assert(cur.0[i] == b);
                    assert(prev.0[j].disjoint(b));
                }
            }
            assert forall|a: int| 0 <= a < cur.0.len() implies (#[trigger] cur.0[a]).disjoint(cur.1) by {
                if a < prev.0.len() {
                    assert(cur.0[a] == prev.0[a]);
                }
            }
            assert(cur.0.drop_last() =~= prev.0);
            assert(cur.0.last() == b);
            assert(union_of(cur.0) == union_of(prev.0).union(b));
            assert forall|x: Seq<char>| union_of(cur.0).union(cur.1).contains(x) == union_of(bs.take(n)).union(t).contains(x) by {
                assert(union_of(prev.0).union(prev.1).contains(x) == union_of(bs.take(n - 1)).union(t).contains(x));
            }
            assert(union_of(cur.0).union(cur.1) =~= union_of(bs.take(n)).union(t));
        } else {
            assert(cur.0 == prev.0);
            assert(cur.1 == prev.1.union(b));
            assert forall|a: int| 0 <= a < cur.0.len() implies exists|j: int| 0 <= j < n && bs[j] == #[trigger] cur.0[a] by {
                let j = choose|j: int| 0 <= j < n - 1 && bs[j] == prev.0[a];
            }
            assert forall|a: int| 0 <= a < cur.0.len() implies (#[trigger] cur.0[a]).disjoint(cur.1) by {
                assert(prev.0[a].disjoint(prev.1));
                assert(prev.0[a].disjoint(b));
            }
            assert forall|x: Seq<char>| union_of(cur.0).union(cur.1).contains(x) == union_of(bs.take(n)).union(t).contains(x) by {
                assert(union_of(prev.0).union(prev.1).contains(x) == union_of(bs.take(n - 1)).union(t).contains(x));
            }
            assert(union_of(cur.0).union(cur.1) =~= union_of(bs.take(n)).union(t));
        }
    }
}

/// Queueing a restart keeps the batches pairwise disjoint and loses no member:
/// the batches afterwards hold exactly what they held before plus the new
/// targets.
pub proof fn lemma_merge_batches(bs: Seq<Set<Seq<char>>>, t: Set<Seq<char>>)
    requires
        pairwise_disjoint(bs),
    ensures
        pairwise_disjoint(merge_batches(bs, t)),
        union_of(merge_batches(bs, t)) == union_of(bs).union(t),
        merge_batches(bs, t).last().subset_of(union_of(bs).union(t)),
        t.subset_of(merge_batches(bs, t).last()),
{
    lemma_merge_fold(bs, t, bs.len() as int);
    assert(bs.take(bs.len() as int) =~= bs);
    let r = merge_fold(bs, t);
    let m = merge_batches(bs, t);
    assert(m == r.0.push(r.1));
    assert forall|i: int, j: int| 0 <= i < m.len() && 0 <= j < m.len() && i != j implies (#[trigger] m[i]).disjoint(
        #[trigger] m[j],
    ) by {
        if i < r.0.len() && j < r.0.len() {
            assert(m[i] == r.0[i]);
            assert(m[j] == r.0[j]);
        } else if i < r.0.len() {
            assert(m[i] == r.0[i]);
        } else {
            assert(m[j] == r.0[j]);
            assert(r.0[j].disjoint(r.1));
        }
    }
    assert(m.drop_last() =~= r.0);
    lemma_merged_has_targets(bs, t, bs.len() as int);
}

/// The batches that share no member with `t`, in order.
pub open spec fn apart_from(bs: Seq<Set<Seq<char>>>, t: Set<Seq<char>>) -> Seq<Set<Seq<char>>>
    decreases bs.len(),
{
    if bs.len() == 0 {
        Seq::empty()
    } else if bs.last().disjoint(t) {
        apart_from(bs.drop_last(), t).push(bs.last())
    } else {
        apart_from(bs.drop_last(), t)
    }
}

/// The members of the batches that share a member with `t`.
pub open spec fn meeting(bs: Seq<Set<Seq<char>>>, t: Set<Seq<char>>) -> Set<Seq<char>>
    decreases bs.len(),
{
    if bs.len() == 0 {
        Set::empty()
    } else if bs.last().disjoint(t) {
        meeting(bs.drop_last(), t)
    } else {
        meeting(bs.drop_last(), t).union(bs.last())
    }
}

/// A member of the meeting batches lies in one of them.
proof fn lemma_meeting_member(bs: Seq<Set<Seq<char>>>, t: Set<Seq<char>>, x: Seq<char>)
    requires
        meeting(bs, t).contains(x),
    ensures
        exists|i: int| 0 <= i < bs.len() && #[trigger] bs[i].contains(x),
    decreases bs.len(),
{
    let dl = bs.drop_last();
    if meeting(dl, t).contains(x) {
        lemma_meeting_member(dl, t, x);
        let i = choose|i: int| 0 <= i < dl.len() && #[trigger] dl[i].contains(x);
        assert(bs[i] == dl[i]);
    } else {
        assert(bs[bs.len() - 1].contains(x));
    }
}

/// Queueing a restart keeps every batch that shares no member with the
/// targets, in order, and puts last one batch: the targets with every batch
/// that shares a member with them.
pub proof fn lemma_merge_shape(bs: Seq<Set<Seq<char>>>, t: Set<Seq<char>>)
    requires
        pairwise_disjoint(bs),
    ensures
        merge_fold(bs, t) == (apart_from(bs, t), t.union(meeting(bs, t))),
        merge_batches(bs, t) == apart_from(bs, t).push(t.union(meeting(bs, t))),
    decreases bs.len(),
{
    if bs.len() > 0 {
        let dl = bs.drop_last();
        let b = bs.last();
        assert(pairwise_disjoint(dl)) by {
            assert forall|i: int, j: int| 0 <= i < dl.len() && 0 <= j < dl.len() && i != j implies (
            #[trigger] dl[i]).disjoint(#[trigger] dl[j]) by {
                assert(dl[i] == bs[i] && dl[j] == bs[j]);
            }
        }
        lemma_merge_shape(dl, t);
        let m = meeting(dl, t);
        assert(b.disjoint(m)) by {
            assert forall|x: Seq<char>| m.contains(x) implies !b.contains(x) by {
                lemma_meeting_member(dl, t, x);
                let i = choose|i: int| 0 <= i < dl.len() && #[trigger] dl[i].contains(x);
                assert(bs[i].disjoint(bs[bs.len() - 1]));
                assert(bs[i] == dl[i]);
            }
        }
        assert(b.disjoint(t.union(m)) == b.disjoint(t)) by {
            if b.disjoint(t) {
                assert forall|x: Seq<char>| t.union(m).contains(x) implies !b.contains(x) by {}
            } else {
                let x = choose|x: Seq<char>| b.contains(x) && t.contains(x);
                assert(b.contains(x) && t.union(m).contains(x));
            }
        }
        if !b.disjoint(t) {
            assert(t.union(m).union(b) =~= t.union(m.union(b)));
        }
    }
}

/// The merged set always holds the targets.
proof fn lemma_merged_has_targets(bs: Seq<Set<Seq<char>>>, t: Set<Seq<char>>, n: int)
    requires
        0 <= n <= bs.len(),
    ensures
        t.subset_of(merge_fold(bs.take(n), t).1),
    decreases n,
{
    if n > 0 {
        lemma_merged_has_targets(bs, t, n - 1);
        assert(bs.take(n).drop_last() =~= bs.take(n - 1));
    } else {
        assert(bs.take(0) =~= Seq::<Set<Seq<char>>>::empty());
    }
}

/// The batches still waiting on a live member stay pairwise disjoint, and each
/// is one of the batches.
proof fn lemma_pending_disjoint(bs: Seq<Set<Seq<char>>>, live: Set<Seq<char>>)
    requires
        pairwise_disjoint(bs),
    ensures
        pairwise_disjoint(pending_batches(bs, live)),
        forall|a: int| 0 <= a < pending_batches(bs, live).len() ==> exists|j: int|
            0 <= j < bs.len() && bs[j] == #[trigger] pending_batches(bs, live)[a],
    decreases bs.len(),
{
    if bs.len() > 0 {
        let d = bs.drop_last();
        assert(pairwise_disjoint(d)) by {
            assert forall|i: int, j: int| 0 <= i < d.len() && 0 <= j < d.len() && i != j implies (#[trigger] d[i]).disjoint(
                #[trigger] d[j],
            ) by {
                assert(d[i] == bs[i]);
                assert(d[j] == bs[j]);
            }
        }
        lemma_pending_disjoint(d, live);
        let p = pending_batches(d, live);
        let q = pending_batches(bs, live);
        let l = bs.len() - 1;
        assert forall|a: int| 0 <= a < p.len() implies (#[trigger] p[a]).disjoint(bs[l]) by {
            let j = choose|j: int| 0 <= j < d.len() && d[j] == p[a];
            assert(bs[j] == p[a]);
        }
        if has_live(bs.last(), live) {
            assert(q == p.push(bs[l]));
            assert forall|i: int, j: int| 0 <= i < q.len() && 0 <= j < q.len() && i != j implies (#[trigger] q[i]).disjoint(
                #[trigger] q[j],
            ) by {
                if i < p.len() && j < p.len() {
                    assert(q[i] == p[i]);
                    assert(q[j] == p[j]);
                } else if i < p.len() {
                    assert(q[i] == p[i]);
                } else {
                    assert(q[j] == p[j]);
                    assert(p[j].disjoint(bs[l]));
                }
            }
            assert forall|a: int| 0 <= a < q.len() implies exists|j: int| 0 <= j < bs.len() && bs[j] == #[trigger] q[a] by {
                if a < p.len() {
                    let j = choose|j: int| 0 <= j < d.len() && d[j] == p[a];
                    assert(bs[j] == q[a]);
                } else {
                    assert(bs[l] == q[a]);
                }
            }
        } else {
            assert forall|a: int| 0 <= a < q.len() implies exists|j: int| 0 <= j < bs.len() && bs[j] == #[trigger] q[a] by {
                let j = choose|j: int| 0 <= j < d.len() && d[j] == p[a];
                assert(bs[j] == q[a]);
            }
        }
    }
}

/// The members of a sequence with one more are the old members and it.
proof fn lemma_push_set(a: Seq<Seq<char>>, x: Seq<char>)
    ensures
        a.push(x).to_set() == a.to_set().insert(x),
{
    lemma_concat_set(a, seq![x]);
    assert(a.push(x) =~= a + seq![x]);
    assert forall|y: Seq<char>| seq![x].to_set().contains(y) == set![x].contains(y) by {
        if y == x {
            assert(seq![x][0] == x);
        }
    }
    assert(seq![x].to_set() =~= set![x]);
    assert(a.to_set().union(set![x]) =~= a.to_set().insert(x));
}

/// The members of two sequences together are those of each.
proof fn lemma_concat_set(a: Seq<Seq<char>>, b: Seq<Seq<char>>)
    ensures
        (a + b).to_set() == a.to_set().union(b.to_set()),
{
    assert forall|x: Seq<char>| (a + b).to_set().contains(x) == a.to_set().union(b.to_set()).contains(x) by {
        if (a + b).contains(x) {
            let i = (a + b).index_of(x);
            if i < a.len() {
                assert(a[i] == x);
            } else {
                assert(b[i - a.len()] == x);
            }
        }
        if a.contains(x) {
            let i = a.index_of(x);
            assert((a + b)[i] == x);
        }
        if b.contains(x) {
            let i = b.index_of(x);
            assert((a + b)[a.len() + i] == x);
        }
    }
    assert((a + b).to_set() =~= a.to_set().union(b.to_set()));
}

/// Claiming splits the batches without losing a member: what is claimed has
/// no live member, every batch left waiting still has one, and together they
/// hold exactly the members queued before.
pub proof fn lemma_claim_partitions(bs: Seq<Set<Seq<char>>>, live: Set<Seq<char>>)
    ensures
        quiet_members(bs, live).disjoint(live),
        forall|a: int| 0 <= a < pending_batches(bs, live).len() ==> has_live(#[trigger] pending_batches(bs, live)[a], live),
        union_of(pending_batches(bs, live)).union(quiet_members(bs, live)) == union_of(bs),
    decreases bs.len(),
{
    if bs.len() == 0 {
        assert(union_of(pending_batches(bs, live)).union(quiet_members(bs, live)) =~= union_of(bs));
    } else {
        let d = bs.drop_last();
        let b = bs.last();
        lemma_claim_partitions(d, live);
        let p = pending_batches(d, live);
        if has_live(b, live) {
            let q = pending_batches(bs, live);
            assert(q == p.push(b));
            assert(q.drop_last() =~= p);
            assert forall|a: int| 0 <= a < q.len() implies has_live(#[trigger] q[a], live) by {
                if a < p.len() {
                    assert(q[a] == p[a]);
                }
            }
            assert(union_of(q) == union_of(p).union(b));
            assert(union_of(q).union(quiet_members(bs, live)) =~= union_of(bs));
        } else {
            assert(quiet_members(bs, live) == quiet_members(d, live).union(b));
            assert(union_of(pending_batches(bs, live)).union(quiet_members(bs, live)) =~= union_of(bs));
        }
    }
}

/// Whether some name of `b` is in `names`.
fn meets(b: &Vec<String>, names: &Vec<String>) -> (r: bool)
    ensures
        r == !name_set(b@).disjoint(name_set(names@)),
{
    let mut i: usize = 0;
    while i < b.len()
        invariant
            i <= b.len(),
            forall|j: int| 0 <= j < i ==> !strs(names@).contains(#[trigger] strs(b@)[j]),
        decreases b.len() - i,
    {
        match index_in(names, b[i].as_str()) {
            Some(k) => {
                proof {
                    assert(strs(names@)[k as int] == b@[i as int]@);
                    assert(strs(b@)[i as int] == b@[i as int]@);
                    assert(name_set(b@).contains(b@[i as int]@));
                    assert(name_set(names@).contains(b@[i as int]@));
                }
                return true;
            },
            None => {
                assert(strs(b@)[i as int] == b@[i as int]@);
            },
        }
        i = i + 1;
    }
    proof {
        assert forall|x: Seq<char>| name_set(b@).contains(x) implies !name_set(names@).contains(x) by {
            let j = strs(b@).index_of(x);
        }
    }
    false
}

/// `a` followed by `b`.
fn append_names(a: &mut Vec<String>, b: Vec<String>)
    ensures
        strs(final(a)@) == strs(old(a)@) + strs(b@),
{
    let mut i: usize = 0;
    while i < b.len()
        invariant
            i <= b.len(),
            strs(a@) == strs(old(a)@) + strs(b@).take(i as int),
        decreases b.len() - i,
    {
        let ghost before = strs(a@);
        a.push(b[i].clone());
        assert(strs(a@) =~= before.push(b@[i as int]@));
        assert(strs(b@).take(i + 1) =~= strs(b@).take(i as int).push(b@[i as int]@));
        i = i + 1;
        assert(strs(a@) =~= strs(old(a)@) + strs(b@).take(i as int));
    }
    assert(strs(b@).take(b.len() as int) =~= strs(b@));
}

impl Batches {
    /// Queues `targets` as a batch, merging in every pending batch it overlaps.
    fn merge(&mut self, targets: Vec<String>)
        ensures
            final(self)@ == merge_batches(old(self)@, name_set(targets@)),
    {
        let mut cur = Batches { list: Vec::new() };
        assert(pairwise_disjoint(cur@)) by {
            assert(cur@ =~= Seq::<Set<Seq<char>>>::empty());
        }
        std::mem::swap(self, &mut cur);
        proof {
            use_type_invariant(&cur);
        }
        let ghost bs = cur@;
        let ghost t = name_set(targets@);
        let Batches { list } = cur;
        let mut src = list;
        let n = src.len();
        let mut merged = targets;
        let mut kept: Vec<Vec<String>> = Vec::new();
        let mut i: usize = 0;
        while i < n
            invariant
                i <= n,
                n == bs.len(),
                src.len() == n - i,
                src@.map_values(|b: Vec<String>| name_set(b@)) == bs.subrange(i as int, n as int),
                (kept@.map_values(|b: Vec<String>| name_set(b@)), name_set(merged@)) == merge_fold(bs.take(i as int), t),
            decreases n - i,
        {
            let ghost s0 = src@;
            assert(s0.map_values(|b: Vec<String>| name_set(b@))[0] == bs[i as int]);
            let b = src.remove(0);
            assert(b == s0[0]);
            assert(name_set(b@) == bs[i as int]);
            assert(src@ =~= s0.drop_first());
            let ghost prev = merge_fold(bs.take(i as int), t);
            assert(bs.take(i + 1).drop_last() =~= bs.take(i as int));
            assert(bs.take(i + 1).last() == bs[i as int]);
            let overlap = meets(&b, &merged);
            if overlap {
                let ghost m0 = merged@;
                append_names(&mut merged, b);
                proof {
                    assert(!bs[i as int].disjoint(prev.1));
                    lemma_concat_set(strs(m0), strs(b@));
                    assert(name_set(merged@) =~= name_set(m0).union(bs[i as int]));
                }
            } else {
                kept.push(b);
                proof {
                    assert(kept@.map_values(|b: Vec<String>| name_set(b@)) =~= prev.0.push(bs[i as int]));
                }
            }
            proof {
                assert(src@.map_values(|b: Vec<String>| name_set(b@)) =~= s0.map_values(|b: Vec<String>| name_set(b@)).drop_first());
            }
            i = i + 1;
            assert(src@.map_values(|b: Vec<String>| name_set(b@)) =~= bs.subrange(i as int, n as int));
        }
        assert(bs.take(n as int) =~= bs);
        kept.push(merged);
        proof {
            assert(kept@.map_values(|b: Vec<String>| name_set(b@)) =~= merge_batches(bs, t));
            lemma_merge_batches(bs, t);
        }
        *self = Batches { list: kept };
    }

    /// Takes out every batch none of whose members is `live`, returning their
    /// members; the batches with a live member stay, in order.
    fn claim(&mut self, live: &Vec<String>) -> (names: Vec<String>)
        ensures
            final(self)@ == pending_batches(old(self)@, name_set(live@)),
            name_set(names@) == quiet_members(old(self)@, name_set(live@)),
    {
        let mut cur = Batches { list: Vec::new() };
        assert(pairwise_disjoint(cur@)) by {
            assert(cur@ =~= Seq::<Set<Seq<char>>>::empty());
        }
        std::mem::swap(self, &mut cur);
        proof {
            use_type_invariant(&cur);
        }
        let ghost bs = cur@;
        let ghost lv = name_set(live@);
        let Batches { list } = cur;
        let mut src = list;
        let n = src.len();
        let mut pending: Vec<Vec<String>> = Vec::new();
        let mut names: Vec<String> = Vec::new();
        let mut i: usize = 0;
        while i < n
            invariant
                i <= n,
                n == bs.len(),
                src.len() == n - i,
                src@.map_values(|b: Vec<String>| name_set(b@)) == bs.subrange(i as int, n as int),
                pending@.map_values(|b: Vec<String>| name_set(b@)) == pending_batches(bs.take(i as int), lv),
                name_set(names@) == quiet_members(bs.take(i as int), lv),
                lv == name_set(live@),
            decreases n - i,
        {
            let ghost s0 = src@;
            assert(s0.map_values(|b: Vec<String>| name_set(b@))[0] == bs[i as int]);
            let b = src.remove(0);
            assert(b == s0[0]);
            assert(name_set(b@) == bs[i as int]);
            assert(src@ =~= s0.drop_first());
            assert(bs.take(i + 1).drop_last() =~= bs.take(i as int));
            assert(bs.take(i + 1).last() == bs[i as int]);
            let busy = meets(&b, live);
            assert(busy == has_live(bs[i as int], lv));
            if busy {
                let ghost p0 = pending@.map_values(|b: Vec<String>| name_set(b@));
                pending.push(b);
                assert(pending@.map_values(|b: Vec<String>| name_set(b@)) =~= p0.push(bs[i as int]));
                assert(pending_batches(bs.take(i + 1), lv) == pending_batches(bs.take(i as int), lv).push(bs[i as int]));
                assert(quiet_members(bs.take(i + 1), lv) == quiet_members(bs.take(i as int), lv));
            } else {
                let ghost n0 = names@;
                append_names(&mut names, b);
                proof {
                    lemma_concat_set(strs(n0), strs(b@));
                }
                assert(name_set(names@) =~= name_set(n0).union(bs[i as int]));
                assert(pending_batches(bs.take(i + 1), lv) == pending_batches(bs.take(i as int), lv));
                assert(quiet_members(bs.take(i + 1), lv) == quiet_members(bs.take(i as int), lv).union(bs[i as int]));
            }
            proof {
                assert(src@.map_values(|b: Vec<String>| name_set(b@)) =~= s0.map_values(|b: Vec<String>| name_set(b@)).drop_first());
            }
            i = i + 1;
            assert(src@.map_values(|b: Vec<String>| name_set(b@)) =~= bs.subrange(i as int, n as int));
        }
        assert(bs.take(n as int) =~= bs);
        proof {
            lemma_pending_disjoint(bs, lv);
        }
        *self = Batches { list: pending };
        names
    }

    /// Drops every batch.
    fn clear(&mut self)
        ensures
            final(self)@ == Seq::<Set<Seq<char>>>::empty(),
    {
        let empty = Batches { list: Vec::new() };
        assert(empty@ =~= Seq::<Set<Seq<char>>>::empty());
        *self = empty;
    }
}

/// Whether no group id occurs twice in `l`.
pub open spec fn ids_distinct(l: Seq<(i32, String)>) -> bool {
    forall|i: int, j: int| 0 <= i < j < l.len() ==> (#[trigger] l[i]).0 != (#[trigger] l[j]).0
}

/// The leftover groups `l` lists, by group id.
pub open spec fn stray_map(l: Seq<(i32, String)>) -> Map<i32, Seq<char>> {
    Map::new(
        |k: i32| exists|i: int| 0 <= i < l.len() && l[i].0 == k,
        |k: i32| l[choose|i: int| 0 <= i < l.len() && l[i].0 == k].1@,
    )
}

/// With distinct ids, each entry of `l` is what the map holds for its id.
proof fn lemma_stray_at(l: Seq<(i32, String)>, i: int)
    requires
        ids_distinct(l),
        0 <= i < l.len(),
    ensures
        stray_map(l).contains_key(l[i].0),
        stray_map(l)[l[i].0] == l[i].1@,
{
    let k = l[i].0;
    assert(exists|j: int| 0 <= j < l.len() && l[j].0 == k);
    let j = choose|j: int| 0 <= j < l.len() && l[j].0 == k;
    if j < i {
        assert(l[j].0 != l[i].0);
    } else if i < j {
        assert(l[i].0 != l[j].0);
    }
}

/// Leftover groups awaiting a kill, each group id once.
pub struct Strays {
    list: Vec<(i32, String)>,
}

impl Strays {
    #[verifier::type_invariant]
    closed spec fn inv(&self) -> bool {
        ids_distinct(self.list@)
    }

    /// The leftover groups, by group id.
    pub closed spec fn view(&self) -> Map<i32, Seq<char>> {
        stray_map(self.list@)
    }

    /// Records (or re-records) the leftover group `pgid` of `name`.
    fn add(&mut self, pgid: i32, name: String)
        ensures
            final(self)@ == old(self)@.insert(pgid, name@),
    {
        let mut cur = Strays { list: Vec::new() };
        std::mem::swap(self, &mut cur);
        proof {
            use_type_invariant(&cur);
        }
        let ghost l0 = cur.list@;
        let Strays { list } = cur;
        let mut list = list;
        let mut i: usize = 0;
        while i < list.len() && list[i].0 != pgid
            invariant
                i <= list.len(),
                list@ == l0,
                forall|j: int| 0 <= j < i ==> l0[j].0 != pgid,
            decreases list.len() - i,
        {
            i = i + 1;
        }
        if i < list.len() {
            list.set(i, (pgid, name));
            proof {
                let l1 = list@;
                assert(ids_distinct(l1)) by {
                    assert forall|a: int, b: int| 0 <= a < b < l1.len() implies (#[trigger] l1[a]).0 != (#[trigger] l1[b]).0 by {
                        assert(l1[a].0 == l0[a].0);
                        assert(l1[b].0 == l0[b].0);
                    }
                }
                assert forall|k: i32| #[trigger] stray_map(l1).contains_key(k) == stray_map(l0).insert(pgid, name@).contains_key(k) by {
                    if stray_map(l0).contains_key(k) {
                        let j = choose|j: int| 0 <= j < l0.len() && l0[j].0 == k;
                        assert(l1[j].0 == k);
                    }
                    if stray_map(l1).contains_key(k) {
                        let j = choose|j: int| 0 <= j < l1.len() && l1[j].0 == k;
                        assert(l0[j].0 == k);
                    }
                    if k == pgid {
                        assert(l1[i as int].0 == k);
                    }
                }
                assert forall|k: i32| #[trigger] stray_map(l1).contains_key(k) implies stray_map(l1)[k]
                    == stray_map(l0).insert(pgid, name@)[k] by {
                    let j = choose|j: int| 0 <= j < l1.len() && l1[j].0 == k;
                    lemma_stray_at(l1, j);
                    if j != i {
                        lemma_stray_at(l0, j);
                    }
                }
                assert(stray_map(l1) =~= stray_map(l0).insert(pgid, name@));
            }
        } else {
            list.push((pgid, name));
            proof {
                let l1 = list@;
                assert(ids_distinct(l1)) by {
                    assert forall|a: int, b: int| 0 <= a < b < l1.len() implies (#[trigger] l1[a]).0 != (#[trigger] l1[b]).0 by {
                        if b == l0.len() {
                            assert(l1[a] == l0[a]);
                        } else {
                            assert(l1[a] == l0[a]);
                            assert(l1[b] == l0[b]);
                        }
                    }
                }
                assert forall|k: i32| #[trigger] stray_map(l1).contains_key(k) == stray_map(l0).insert(pgid, name@).contains_key(k) by {
                    if stray_map(l0).contains_key(k) {
                        let j = choose|j: int| 0 <= j < l0.len() && l0[j].0 == k;
                        assert(l1[j].0 == k);
                    }
                    if stray_map(l1).contains_key(k) && k != pgid {
                        let j = choose|j: int| 0 <= j < l1.len() && l1[j].0 == k;
                        assert(l0[j].0 == k);
                    }
                    if k == pgid {
                        assert(l1[l0.len() as int].0 == k);
                    }
                }
                assert forall|k: i32| #[trigger] stray_map(l1).contains_key(k) implies stray_map(l1)[k]
                    == stray_map(l0).insert(pgid, name@)[k] by {
                    let j = choose|j: int| 0 <= j < l1.len() && l1[j].0 == k;
                    lemma_stray_at(l1, j);
                    if j < l0.len() {
                        assert(l1[j] == l0[j]);
                        lemma_stray_at(l0, j);
                    }
                }
                assert(stray_map(l1) =~= stray_map(l0).insert(pgid, name@));
            }
        }
        *self = Strays { list };
    }

    /// Takes the leftover group `pgid` out, returning its name if it was there.
    fn take(&mut self, pgid: i32) -> (name: Option<String>)
        ensures
            final(self)@ == old(self)@.remove(pgid),
            match name {
                Some(n) => old(self)@.contains_key(pgid) && old(self)@[pgid] == n@,
                None => !old(self)@.contains_key(pgid),
            },
    {
        let mut cur = Strays { list: Vec::new() };
        std::mem::swap(self, &mut cur);
        proof {
            use_type_invariant(&cur);
        }
        let ghost l0 = cur.list@;
        let Strays { list } = cur;
        let mut list = list;
        let mut i: usize = 0;
        while i < list.len() && list[i].0 != pgid
            invariant
                i <= list.len(),
                list@ == l0,
                forall|j: int| 0 <= j < i ==> l0[j].0 != pgid,
            decreases list.len() - i,
        {
            i = i + 1;
        }
        if i < list.len() {
            let (_, n) = list.remove(i);
            proof {
                lemma_stray_at(l0, i as int);
                let l1 = list@;
                assert(l1 =~= l0.remove(i as int));
                assert(ids_distinct(l1)) by {
                    assert forall|a: int, b: int| 0 <= a < b < l1.len() implies (#[trigger] l1[a]).0 != (#[trigger] l1[b]).0 by {
                        let oa = if a < i { a } else { a + 1 };
                        let ob = if b < i { b } else { b + 1 };
                        assert(l1[a] == l0[oa]);
                        assert(l1[b] == l0[ob]);
                    }
                }
                assert forall|k: i32| #[trigger] stray_map(l1).contains_key(k) == stray_map(l0).remove(pgid).contains_key(k) by {
                    if stray_map(l0).contains_key(k) && k != pgid {
                        let j = choose|j: int| 0 <= j < l0.len() && l0[j].0 == k;
                        assert(j != i);
                        let a = if j < i { j } else { j - 1 };
                        assert(l1[a].0 == k);
                    }
                    if stray_map(l1).contains_key(k) {
                        let a = choose|a: int| 0 <= a < l1.len() && l1[a].0 == k;
                        let j = if a < i { a } else { a + 1 };
                        assert(l0[j].0 == k);
                        if k == pgid {
                            assert(l0[i as int].0 == pgid);
                            assert(j != i);
                        }
                    }
                }
                assert forall|k: i32| #[trigger] stray_map(l1).contains_key(k) implies stray_map(l1)[k]
                    == stray_map(l0).remove(pgid)[k] by {
                    let a = choose|a: int| 0 <= a < l1.len() && l1[a].0 == k;
                    lemma_stray_at(l1, a);
                    let j = if a < i { a } else { a + 1 };
                    assert(l1[a] == l0[j]);
                    lemma_stray_at(l0, j);
                }
                assert(stray_map(l1) =~= stray_map(l0).remove(pgid));
            }
            *self = Strays { list };
            Some(n)
        } else {
            proof {
                assert(!stray_map(l0).contains_key(pgid));
                assert(stray_map(l0) =~= stray_map(l0).remove(pgid));
            }
            *self = Strays { list };
            None
        }
    }

    /// Takes every leftover group out.
    fn take_all(&mut self) -> (all: Vec<(i32, String)>)
        ensures
            lists_strays(all@, old(self)@),
            final(self)@ == Map::<i32, Seq<char>>::empty(),
    {
        let mut cur = Strays { list: Vec::new() };
        std::mem::swap(self, &mut cur);
        proof {
            use_type_invariant(&cur);
            let l = cur.list@;
            assert forall|i: int| 0 <= i < l.len() implies stray_map(l).contains_key((#[trigger] l[i]).0) && stray_map(l)[l[i].0] == l[i].1@ by {
                lemma_stray_at(l, i);
            }
            assert(self@ =~= Map::<i32, Seq<char>>::empty());
        }
        let Strays { list } = cur;
        list
    }
}

/// A shutdown request: only the first one starts the shutdown.
pub open spec fn spec_begin_shutdown(v: SupervisorView) -> (SupervisorView, bool) {
    (SupervisorView { shutting_down: true, ..v }, !v.shutting_down)
}

/// The run loop's end check: the run ends only with no restart in flight.
pub open spec fn spec_end_run(v: SupervisorView) -> (SupervisorView, bool) {
    if v.arming > 0 || v.batches.len() > 0 {
        (v, false)
    } else {
        (SupervisorView { ended: true, ..v }, true)
    }
}

/// A restart's arming: refused during a shutdown or once the run has ended.
pub open spec fn spec_arm_restart(v: SupervisorView) -> (SupervisorView, bool) {
    if v.shutting_down || v.ended {
        (v, false)
    } else {
        (SupervisorView { arming: v.arming + 1, ..v }, true)
    }
}

/// Only the first shutdown request starts the shutdown; a repeat is a no-op.
pub proof fn lemma_shutdown_once(v: SupervisorView)
    ensures
        !spec_begin_shutdown(spec_begin_shutdown(v).0).1,
        spec_begin_shutdown(spec_begin_shutdown(v).0).0 == spec_begin_shutdown(v).0,
{
}

/// A restart and the end of the run cannot both win: once the run has ended a
/// restart is refused, and while a restart is armed the run does not end.
pub proof fn lemma_restart_or_end(v: SupervisorView)
    requires
        v.arming >= 0,
    ensures
        spec_end_run(v).1 ==> !spec_arm_restart(spec_end_run(v).0).1,
        spec_arm_restart(v).1 ==> !spec_end_run(spec_arm_restart(v).0).1,
{
}

/// The groups of `ps` still registered under their name, in order.
pub open spec fn still_live(ps: Seq<(String, i32)>, m: Map<Seq<char>, i32>) -> Seq<(String, i32)>
    decreases ps.len(),
{
    if ps.len() == 0 {
        Seq::empty()
    } else if m.contains_key(ps.last().0@) && m[ps.last().0@] == ps.last().1 {
        still_live(ps.drop_last(), m).push(ps.last())
    } else {
        still_live(ps.drop_last(), m)
    }
}

/// Why a subtree is being stopped: a restart stops exactly like a manual stop;
/// only the wording differs, and the batch relaunches afterwards.
#[derive(Clone, Copy, Debug, PartialEq, Eq, Structural)]
pub enum StopReason {
    Manual,
    Restart,
}

/// The plain and forced verbs of a stop.
pub open spec fn spec_verbs(r: StopReason) -> (Seq<char>, Seq<char>) {
    match r {
        StopReason::Manual => ("stopping"@, "force-stopping"@),
        StopReason::Restart => ("restarting"@, "force-restarting"@),
    }
}

/// The tab note of a stopped service: the named service itself (`root`), or
/// one downstream of it.
pub open spec fn spec_stop_note(r: StopReason, name: Seq<char>, root: bool) -> Seq<char> {
    match (r, root) {
        (StopReason::Manual, true) => "Manually shut down."@,
        (StopReason::Manual, false) => "Upstream service `"@ + name
            + "` was manually shut down. Shutting down dependent process…"@,
        (StopReason::Restart, true) => "Restarting…"@,
        (StopReason::Restart, false) => "Upstream service `"@ + name + "` is restarting; restarting…"@,
    }
}

impl StopReason {
    /// The first-stop announcement, e.g. `stopping web and its dependents...`.
    pub fn announce(self, name: &str) -> (s: String)
        ensures
            s@ == spec_verbs(self).0 + " "@ + name@ + " and its dependents..."@,
    {
        let mut s = String::new();
        match self {
            StopReason::Manual => append_str(&mut s, "stopping"),
            StopReason::Restart => append_str(&mut s, "restarting"),
        }
        append_str(&mut s, " ");
        append_str(&mut s, name);
        append_str(&mut s, " and its dependents...");
        s
    }

    /// The repeat-stop escalation, e.g. `force-stopping web and its dependents (SIGKILL)`.
    pub fn escalate(self, name: &str) -> (s: String)
        ensures
            s@ == spec_verbs(self).1 + " "@ + name@ + " and its dependents (SIGKILL)"@,
    {
        let mut s = String::new();
        match self {
            StopReason::Manual => append_str(&mut s, "force-stopping"),
            StopReason::Restart => append_str(&mut s, "force-restarting"),
        }
        append_str(&mut s, " ");
        append_str(&mut s, name);
        append_str(&mut s, " and its dependents (SIGKILL)");
        s
    }

    /// The note a stopped member's tab gets (see [`spec_stop_note`]).
    pub fn note(self, name: &str, root: bool) -> (s: String)
        ensures
            s@ == spec_stop_note(self, name@, root),
    {
        let mut s = String::new();
        match (self, root) {
            (StopReason::Manual, true) => append_str(&mut s, "Manually shut down."),
            (StopReason::Manual, false) => {
                append_str(&mut s, "Upstream service `");
                append_str(&mut s, name);
                append_str(&mut s, "` was manually shut down. Shutting down dependent process…");
            },
            (StopReason::Restart, true) => append_str(&mut s, "Restarting…"),
            (StopReason::Restart, false) => {
                append_str(&mut s, "Upstream service `");
                append_str(&mut s, name);
                append_str(&mut s, "` is restarting; restarting…");
            },
        }
        s
    }
}

/// `name` and everything that transitively depends on it: the services a stop
/// or restart of `name` takes down (its dependents in name order, then itself).
pub fn subtree(name: &str, adj: &Adjacency) -> (targets: Vec<String>)
    ensures
        targets@.len() >= 1,
        targets@.last()@ == name@,
        forall|x: Seq<char>| #[trigger] strs(targets@.drop_last()).contains(x) <==> (depends_on_any(adj, seq![name@], x)
            && x != name@),
{
    let mut roots: Vec<String> = Vec::new();
    roots.push(name.to_owned());
    assert(strs(roots@) =~= seq![name@]);
    let mut targets = dependents(&roots, adj);
    let ghost d = targets@;
    targets.push(name.to_owned());
    assert(targets@.drop_last() =~= d);
    proof {
        assert forall|x: Seq<char>| seq![name@].contains(x) <==> x == name@ by {
            if x == name@ {
                assert(seq![name@][0] == x);
            }
        }
    }
    targets
}

/// The supervisor's shared state, guarded by one lock in the runtime.
pub struct Supervisor {
    groups: StrMap<i32>,
    shutting_down: bool,
    killed: bool,
    stopped: StrMap<StopKind>,
    strays: Strays,
    exit_code: i32,
    batches: Batches,
    arming: usize,
    ended: bool,
}

impl Supervisor {
    /// The state as values.
    pub closed spec fn view(&self) -> SupervisorView {
        SupervisorView {
            groups: self.groups@,
            shutting_down: self.shutting_down,
            killed: self.killed,
            stopped: self.stopped@,
            strays: self.strays@,
            exit_code: self.exit_code,
            batches: self.batches@,
            arming: self.arming as int,
            ended: self.ended,
        }
    }

    /// A fresh supervisor: nothing live, stopped or queued, exit code 0.
    pub fn new() -> (s: Supervisor)
        ensures
            s.view().groups == Map::<Seq<char>, i32>::empty(),
            !s.view().shutting_down,
            !s.view().killed,
            s.view().stopped == Map::<Seq<char>, StopKind>::empty(),
            s.view().strays == Map::<i32, Seq<char>>::empty(),
            s.view().exit_code == 0,
            s.view().batches == Seq::<Set<Seq<char>>>::empty(),
            s.view().arming == 0,
            !s.view().ended,
    {
        let s = Supervisor {
            groups: StrMap::new(),
            shutting_down: false,
            killed: false,
            stopped: StrMap::new(),
            strays: Strays { list: Vec::new() },
            exit_code: 0,
            batches: Batches { list: Vec::new() },
            arming: 0,
            ended: false,
        };
        assert(s.view().strays =~= Map::<i32, Seq<char>>::empty());
        assert(s.view().batches =~= Seq::<Set<Seq<char>>>::empty());
        s
    }

    /// Whether a restart is in flight: arming, or queued to relaunch.
    pub fn restart_in_flight(&self) -> (b: bool)
        ensures
            b == (self.view().arming > 0 || self.view().batches.len() > 0),
    {
        self.arming > 0 || self.batches.list.len() > 0
    }

    /// Whether anything is still live to stop: a registered group or a restart
    /// in flight.
    pub fn any_live(&self) -> (b: bool)
        ensures
            b == (self.view().groups.dom().len() > 0 || self.view().arming > 0 || self.view().batches.len() > 0),
    {
        proof {
            use_type_invariant(&self.groups);
            self.groups.lemma_view();
        }
        !self.groups.is_empty() || self.restart_in_flight()
    }

    /// Whether a global shutdown is underway.
    pub fn is_shutting_down(&self) -> (b: bool)
        ensures
            b == self.view().shutting_down,
    {
        self.shutting_down
    }

    /// The run's exit code so far.
    pub fn exit_code(&self) -> (c: i32)
        ensures
            c == self.view().exit_code,
    {
        self.exit_code
    }

    /// Whether `name` was stopped (so its exit is no failure).
    pub fn is_stopped(&self, name: &str) -> (b: bool)
        ensures
            b == self.view().stopped.contains_key(name@),
    {
        self.stopped.contains_key(name)
    }

    /// The live group of `name`, if any.
    pub fn group_of(&self, name: &str) -> (g: Option<i32>)
        ensures
            g == (if self.view().groups.contains_key(name@) {
                Some(self.view().groups[name@])
            } else {
                None
            }),
    {
        match self.groups.get(name) {
            Some(p) => Some(*p),
            None => None,
        }
    }

    /// Records `code` as the run's exit code unless a non-zero one was set first.
    pub fn set_exit_code(&mut self, code: i32)
        ensures
            final(self).view() == (SupervisorView {
                exit_code: spec_set_exit_code(old(self).view().exit_code, code),
                ..old(self).view()
            }),
    {
        if self.exit_code == 0 {
            self.exit_code = code;
        }
    }

    /// Starts the global shutdown; only the first call does (returns `true`).
    pub fn begin_shutdown(&mut self) -> (first: bool)
        ensures
            (final(self).view(), first) == spec_begin_shutdown(old(self).view()),
    {
        if self.shutting_down {
            return false;
        }
        self.shutting_down = true;
        true
    }

    /// Records a freshly spawned group for `name` and decides what it gets
    /// (see [`spec_register`]).
    pub fn register_group(&mut self, name: &str, pgid: i32) -> (r: Registered)
        ensures
            r == spec_register(old(self).view(), name@),
            final(self).view() == (SupervisorView {
                groups: old(self).view().groups.insert(name@, pgid),
                ..old(self).view()
            }),
    {
        self.groups.insert(name.to_owned(), pgid);
        let kind = self.stopped.get(name);
        if self.killed || kind == Some(&StopKind::Kill) {
            Registered { signal: Some(GroupSignal::Kill), escalate: false }
        } else if self.shutting_down {
            Registered { signal: Some(GroupSignal::Term), escalate: false }
        } else if kind.is_some() {
            Registered { signal: Some(GroupSignal::Term), escalate: true }
        } else {
            Registered { signal: None, escalate: false }
        }
    }

    /// Drops `name`'s group once its leader is reaped: returns the group (to
    /// sweep what the leader left behind) and whether the exit came from a
    /// shutdown or a stop.
    pub fn deregister_group(&mut self, name: &str) -> (r: (Option<i32>, bool))
        ensures
            r.0 == (if old(self).view().groups.contains_key(name@) {
                Some(old(self).view().groups[name@])
            } else {
                None
            }),
            r.1 == (old(self).view().shutting_down || old(self).view().stopped.contains_key(name@)),
            final(self).view() == (SupervisorView { groups: old(self).view().groups.remove(name@), ..old(self).view() }),
    {
        let g = self.groups.remove(name);
        let stopped = self.shutting_down || self.stopped.contains_key(name);
        (g, stopped)
    }

    /// The live groups to signal with `sig`, every one of them; a kill sweep is
    /// recorded so that groups registering later are killed too.
    pub fn signal_all(&mut self, sig: GroupSignal) -> (targets: Vec<(String, i32)>)
        ensures
            lists(targets@, old(self).view().groups),
            final(self).view() == (SupervisorView {
                killed: old(self).view().killed || sig == GroupSignal::Kill,
                ..old(self).view()
            }),
    {
        if sig == GroupSignal::Kill {
            self.killed = true;
        }
        self.group_list()
    }

    /// Every live group, each name once.
    fn group_list(&self) -> (out: Vec<(String, i32)>)
        ensures
            lists(out@, self.view().groups),
    {
        proof {
            use_type_invariant(&self.groups);
            self.groups.lemma_view();
        }
        let mut out: Vec<(String, i32)> = Vec::new();
        let n = self.groups.len();
        let mut i: usize = 0;
        while i < n
            invariant
                i <= n,
                n == self.groups.keys().len(),
                self.groups.keys().len() == self.groups.vals().len(),
                self.groups.keys().no_duplicates(),
                forall|j: int| 0 <= j < self.groups.keys().len() ==> #[trigger] self.groups@.contains_key(self.groups.keys()[j])
                    && self.groups@[self.groups.keys()[j]] == self.groups.vals()[j],
                out.len() == i,
                forall|j: int| 0 <= j < i ==> (#[trigger] out@[j]).0@ == self.groups.keys()[j] && out@[j].1 == self.groups.vals()[j],
            decreases n - i,
        {
            let k = self.groups.key_at(i).clone();
            let v = *self.groups.value_at(i);
            out.push((k, v));
            i = i + 1;
        }
        proof {
            assert forall|k: Seq<char>| #[trigger] self.groups@.contains_key(k) implies exists|j: int|
                0 <= j < out@.len() && out@[j].0@ == k by {
                let j = self.groups.keys().index_of(k);
                assert(out@[j].0@ == k);
            }
            assert forall|a: int, b: int| 0 <= a < b < out@.len() implies (#[trigger] out@[a]).0@ != (
            #[trigger] out@[b]).0@ by {
                assert(self.groups.keys()[a] != self.groups.keys()[b]);
            }
        }
        out
    }

    /// Ends the run if nothing is left to supervise (no restart in flight);
    /// from then on restarts are refused.
    pub fn end_run_if_idle(&mut self) -> (ended: bool)
        ensures
            (final(self).view(), ended) == spec_end_run(old(self).view()),
    {
        if self.restart_in_flight() {
            return false;
        }
        self.ended = true;
        true
    }

    /// How many restarts are armed: stopped, not yet queued.
    pub fn armed_restarts(&self) -> (n: usize)
        ensures
            n == self.view().arming,
    {
        self.arming
    }

    /// Arms a restart, unless a shutdown or the end of the run is underway
    /// (then it is refused and nothing changes).
    pub fn arm_restart(&mut self) -> (armed: bool)
        requires
            old(self).view().arming < usize::MAX,
        ensures
            (final(self).view(), armed) == spec_arm_restart(old(self).view()),
    {
        if self.shutting_down || self.ended {
            return false;
        }
        self.arming = self.arming + 1;
        true
    }

    /// Marks `targets` stopped — by force when `name` was already stopped (a
    /// repeat stop) — and returns that, with the live groups among `targets`.
    pub fn mark_subtree_stopped(&mut self, name: &str, targets: &Vec<String>) -> (r: (bool, Vec<(String, i32)>))
        ensures
            r.0 == old(self).view().stopped.contains_key(name@),
            final(self).view() == (SupervisorView {
                stopped: old(self).view().stopped.union_prefer_right(
                    Map::new(
                        |k: Seq<char>| strs(targets@).contains(k),
                        |k: Seq<char>| if r.0 {
                            StopKind::Kill
                        } else {
                            StopKind::Term
                        },
                    ),
                ),
                ..old(self).view()
            }),
            r.1@.len() <= targets@.len(),
            forall|i: int| 0 <= i < r.1@.len() ==> strs(targets@).contains((#[trigger] r.1@[i]).0@)
                && old(self).view().groups.contains_key(r.1@[i].0@) && old(self).view().groups[r.1@[i].0@] == r.1@[i].1,
            covers(r.1@, strs(targets@), old(self).view().groups),
    {
        let already = self.stopped.contains_key(name);
        let kind = if already {
            StopKind::Kill
        } else {
            StopKind::Term
        };
        let ghost st0 = self.stopped@;
        let ghost marks = Map::new(|k: Seq<char>| strs(targets@).contains(k), |k: Seq<char>| kind);
        let mut pids: Vec<(String, i32)> = Vec::new();
        let mut i: usize = 0;
        while i < targets.len()
            invariant
                i <= targets.len(),
                self.groups@ == old(self).view().groups,
                self.shutting_down == old(self).view().shutting_down,
                self.killed == old(self).view().killed,
                self.exit_code == old(self).view().exit_code,
                self.batches@ == old(self).view().batches,
                self.strays@ == old(self).view().strays,
                self.arming == old(self).arming,
                self.ended == old(self).ended,
                st0 == old(self).view().stopped,
                self.stopped@ == st0.union_prefer_right(
                    Map::new(|k: Seq<char>| strs(targets@).take(i as int).contains(k), |k: Seq<char>| kind),
                ),
                pids@.len() <= i,
                forall|j: int| 0 <= j < pids@.len() ==> strs(targets@).contains((#[trigger] pids@[j]).0@)
                    && self.groups@.contains_key(pids@[j].0@) && self.groups@[pids@[j].0@] == pids@[j].1,
                forall|k: Seq<char>| strs(targets@).take(i as int).contains(k) && #[trigger] self.groups@.contains_key(k)
                    ==> exists|j: int| 0 <= j < pids@.len() && pids@[j].0@ == k,
            decreases targets.len() - i,
        {
            let t = &targets[i];
            let ghost pids0 = pids@;
            self.stopped.insert(t.clone(), kind);
            let ghost tk = strs(targets@).take(i as int);
            let ghost tk1 = strs(targets@).take(i + 1);
            assert(tk1 =~= tk.push(t@));
            assert(strs(targets@)[i as int] == t@);
            match self.groups.get(t.as_str()) {
                Some(p) => {
                    let pv = *p;
                    pids.push((t.clone(), pv));
                    assert(pids@[pids@.len() - 1].0@ == t@);
                },
                None => {},
            }
            proof {
                assert(self.stopped@ =~= st0.union_prefer_right(
                    Map::new(|k: Seq<char>| tk1.contains(k), |k: Seq<char>| kind),
                )) by {
                    assert forall|k: Seq<char>| tk1.contains(k) <==> (tk.contains(k) || k == t@) by {
                        if tk.contains(k) {
                            let q = tk.index_of(k);
                            assert(tk1[q] == k);
                        }
                        if k == t@ {
                            assert(tk1[i as int] == k);
                        }
                    }
                }
                assert forall|k: Seq<char>| tk1.contains(k) && #[trigger] self.groups@.contains_key(k) implies exists|j: int|
                    0 <= j < pids@.len() && pids@[j].0@ == k by {
                    if k == t@ {
                        assert(pids@[pids@.len() - 1].0@ == k);
                    } else {
                        let q = tk1.index_of(k);
                        assert(q < i);
                        assert(tk[q] == k);
                        let j = choose|j: int| 0 <= j < pids0.len() && pids0[j].0@ == k;
                        assert(pids@[j] == pids0[j]);
                    }
                }
                assert forall|j: int| 0 <= j < pids@.len() implies strs(targets@).contains((#[trigger] pids@[j]).0@) by {
                    if j == pids@.len() - 1 && pids@[j].0@ == t@ {
                        assert(strs(targets@)[i as int] == t@);
                    }
                }
            }
            i = i + 1;
        }
        assert(strs(targets@).take(targets.len() as int) =~= strs(targets@));
        assert(self.stopped@ =~= st0.union_prefer_right(marks));
        assert forall|k: Seq<char>| strs(targets@).contains(k) && #[trigger] old(self).view().groups.contains_key(k) implies exists|j: int|
            0 <= j < pids@.len() && pids@[j].0@ == k by {
            assert(self.groups@.contains_key(k));
        }
        assert(covers(pids@, strs(targets@), old(self).view().groups));
        (already, pids)
    }
    /// Queues a just-stopped subtree as a restart batch, merging in the pending
    /// batches it overlaps, and ends its arming.
    pub fn queue_restart(&mut self, targets: Vec<String>)
        requires
            old(self).view().arming > 0,
        ensures
            final(self).view() == (SupervisorView {
                batches: merge_batches(old(self).view().batches, name_set(targets@)),
                arming: old(self).view().arming - 1,
                ..old(self).view()
            }),
            pairwise_disjoint(final(self).view().batches),
    {
        proof {
            use_type_invariant(&self.batches);
            lemma_merge_batches(self.batches@, name_set(targets@));
        }
        self.batches.merge(targets);
        self.arming = self.arming - 1;
    }

    /// Claims every restart batch none of whose members is `live`: their stop
    /// marks are cleared and their members returned, to relaunch. Batches with
    /// a live member stay queued; a shutdown discards every batch.
    pub fn claim_ready_restarts(&mut self, live: &Vec<String>) -> (names: Vec<String>)
        ensures
            old(self).view().shutting_down ==> names@.len() == 0 && final(self).view() == (SupervisorView {
                batches: Seq::empty(),
                ..old(self).view()
            }),
            !old(self).view().shutting_down ==> name_set(names@) == quiet_members(old(self).view().batches, name_set(live@))
                && final(self).view() == (SupervisorView {
                batches: pending_batches(old(self).view().batches, name_set(live@)),
                stopped: old(self).view().stopped.remove_keys(name_set(names@)),
                ..old(self).view()
            }),
    {
        if self.shutting_down {
            self.batches.clear();
            return Vec::new();
        }
        let names = self.batches.claim(live);
        let ghost st0 = self.stopped@;
        let ghost v1 = self.view();
        let mut i: usize = 0;
        while i < names.len()
            invariant
                i <= names.len(),
                self.view() == (SupervisorView { stopped: self.stopped@, ..v1 }),
                self.stopped@ == st0.remove_keys(strs(names@).take(i as int).to_set()),
            decreases names.len() - i,
        {
            self.stopped.remove(names[i].as_str());
            proof {
                assert(strs(names@).take(i + 1) =~= strs(names@).take(i as int).push(names@[i as int]@));
                lemma_push_set(strs(names@).take(i as int), names@[i as int]@);
                assert(strs(names@).take(i + 1).to_set() =~= strs(names@).take(i as int).to_set().insert(names@[i as int]@));
                assert(self.stopped@ =~= st0.remove_keys(strs(names@).take(i + 1).to_set()));
            }
            i = i + 1;
        }
        assert(strs(names@).take(names.len() as int) =~= strs(names@));
        names
    }

    /// Claims the quiesced restart batches (see [`Supervisor::claim_ready_restarts`])
    /// and returns their members in `start_order`, the order to relaunch them in.
    pub fn take_ready_restarts(&mut self, start_order: &Vec<String>, live: &Vec<String>) -> (ready: Vec<String>)
        ensures
            old(self).view().shutting_down ==> strs(ready@) == keep_in(strs(start_order@), Set::empty())
                && final(self).view() == (SupervisorView { batches: Seq::empty(), ..old(self).view() }),
            !old(self).view().shutting_down ==> strs(ready@) == keep_in(
                strs(start_order@),
                quiet_members(old(self).view().batches, name_set(live@)),
            ) && final(self).view() == (SupervisorView {
                batches: pending_batches(old(self).view().batches, name_set(live@)),
                stopped: old(self).view().stopped.remove_keys(quiet_members(old(self).view().batches, name_set(live@))),
                ..old(self).view()
            }),
    {
        let claimed = self.claim_ready_restarts(live);
        let mut ready: Vec<String> = Vec::new();
        let mut i: usize = 0;
        while i < start_order.len()
            invariant
                i <= start_order.len(),
                strs(ready@) == keep_in(strs(start_order@).take(i as int), name_set(claimed@)),
            decreases start_order.len() - i,
        {
            assert(strs(start_order@).take(i + 1).drop_last() =~= strs(start_order@).take(i as int));
            assert(strs(start_order@).take(i + 1).last() == start_order@[i as int]@);
            match index_in(&claimed, start_order[i].as_str()) {
                Some(k) => {
                    assert(strs(claimed@)[k as int] == start_order@[i as int]@);
                    let ghost r0 = strs(ready@);
                    ready.push(start_order[i].clone());
                    assert(strs(ready@) =~= r0.push(start_order@[i as int]@));
                },
                None => {},
            }
            i = i + 1;
        }
        assert(strs(start_order@).take(start_order.len() as int) =~= strs(start_order@));
        proof {
            if old(self).view().shutting_down {
                assert(name_set(claimed@) =~= Set::<Seq<char>>::empty());
            }
        }
        ready
    }

    /// Records a reaped leader's leftover group, to kill after the grace.
    pub fn add_stray(&mut self, pgid: i32, name: String)
        ensures
            final(self).view() == (SupervisorView { strays: old(self).view().strays.insert(pgid, name@), ..old(self).view() }),
    {
        self.strays.add(pgid, name);
    }

    /// Takes the leftover group `pgid` out (its grace ran out), returning its
    /// service's name if no one took it first.
    pub fn take_stray(&mut self, pgid: i32) -> (name: Option<String>)
        ensures
            final(self).view() == (SupervisorView { strays: old(self).view().strays.remove(pgid), ..old(self).view() }),
            match name {
                Some(n) => old(self).view().strays.contains_key(pgid) && old(self).view().strays[pgid] == n@,
                None => !old(self).view().strays.contains_key(pgid),
            },
    {
        self.strays.take(pgid)
    }

    /// Takes every leftover group out, to kill them now.
    pub fn take_strays(&mut self) -> (all: Vec<(i32, String)>)
        ensures
            lists_strays(all@, old(self).view().strays),
            final(self).view() == (SupervisorView { strays: Map::empty(), ..old(self).view() }),
    {
        self.strays.take_all()
    }

    /// The groups of `pids` still registered under their service's name (a
    /// relaunched service has a fresh group, which is left alone).
    pub fn still_registered(&self, pids: &Vec<(String, i32)>) -> (live: Vec<(String, i32)>)
        ensures
            live@ == still_live(pids@, self.view().groups),
    {
        let mut live: Vec<(String, i32)> = Vec::new();
        let mut i: usize = 0;
        while i < pids.len()
            invariant
                i <= pids.len(),
                live@ == still_live(pids@.take(i as int), self.groups@),
            decreases pids.len() - i,
        {
            assert(pids@.take(i + 1).drop_last() =~= pids@.take(i as int));
            assert(pids@.take(i + 1).last() == pids@[i as int]);
            let (n, p) = (&pids[i].0, pids[i].1);
            let here = match self.groups.get(n.as_str()) {
                Some(q) => *q == p,
                None => false,
            };
            if here {
                live.push((n.clone(), p));
            }
            i = i + 1;
        }
        assert(pids@.take(pids.len() as int) =~= pids@);
        live
    }
}

} // verus!
