//! A string-keyed map kept sorted by key (code-point order), so iteration is
//! alphabetical like a `BTreeMap<String, V>`.
use vstd::prelude::*;

use crate::text::{seq_lt, str_eq, str_less, lemma_seq_lt_irreflexive, lemma_seq_lt_transitive, lemma_seq_lt_total, lemma_seq_lt_asymmetric};

verus! {

/// Sorted, duplicate-free string-keyed map.
#[derive(Debug)]
pub struct StrMap<V> {
    entries: Vec<(String, V)>,
}

/// Whether a key sequence is strictly increasing.
pub open spec fn sorted_keys(ks: Seq<Seq<char>>) -> bool {
    forall|i: int, j: int| 0 <= i < j < ks.len() ==> seq_lt(#[trigger] ks[i], #[trigger] ks[j])
}

/// A strictly increasing key sequence holds no key twice.
pub proof fn lemma_sorted_unique(ks: Seq<Seq<char>>, i: int, j: int)
    requires
        sorted_keys(ks),
        0 <= i < ks.len(),
        0 <= j < ks.len(),
        ks[i] == ks[j],
    ensures
        i == j,
{
    if i < j {
        lemma_seq_lt_irreflexive(ks[i]);
    } else if j < i {
        lemma_seq_lt_irreflexive(ks[i]);
    }
}

impl<V> StrMap<V> {
    /// The keys, in order.
    pub closed spec fn keys(&self) -> Seq<Seq<char>> {
        self.entries@.map_values(|e: (String, V)| e.0@)
    }

    /// The values, in key order.
    pub closed spec fn vals(&self) -> Seq<V> {
        self.entries@.map_values(|e: (String, V)| e.1)
    }

    /// The well-formedness invariant: keys strictly increasing.
    #[verifier::type_invariant]
    pub closed spec fn wf(&self) -> bool {
        sorted_keys(self.keys())
    }

    /// The map from key to value.
    pub open spec fn view(&self) -> Map<Seq<char>, V> {
        Map::new(
            |k: Seq<char>| self.keys().contains(k),
            |k: Seq<char>| self.vals()[self.keys().index_of(k)],
        )
    }

    /// Facts every client needs: the keys and values line up, keys are unique.
    pub proof fn lemma_view(&self)
        requires
            self.wf(),
        ensures
            self.keys().len() == self.vals().len(),
            sorted_keys(self.keys()),
            self.keys().no_duplicates(),
            forall|i: int|
                0 <= i < self.keys().len() ==> #[trigger] self.view().contains_key(self.keys()[i])
                    && self.view()[self.keys()[i]] == self.vals()[i],
            forall|k: Seq<char>| #[trigger]
                self.view().contains_key(k) <==> self.keys().contains(k),
            self.view().dom().finite(),
            self.view().dom().len() == self.keys().len(),
    {
        assert forall|i: int, j: int|
            0 <= i < self.keys().len() && 0 <= j < self.keys().len() && i != j implies self.keys()[i]
            != self.keys()[j] by {
            if self.keys()[i] == self.keys()[j] {
                lemma_sorted_unique(self.keys(), i, j);
            }
        }
        assert forall|i: int|
            0 <= i < self.keys().len() implies #[trigger] self.view().contains_key(self.keys()[i])
            && self.view()[self.keys()[i]] == self.vals()[i] by {
            let k = self.keys()[i];
            assert(self.keys().contains(k));
            let j = self.keys().index_of(k);
            assert(self.keys()[j] == k);
            lemma_sorted_unique(self.keys(), i, j);
        }
        self.keys().unique_seq_to_set();
        assert(self.view().dom() =~= self.keys().to_set());
    }

    /// An empty map.
    pub fn new() -> (m: Self)
        ensures
            m@ == Map::<Seq<char>, V>::empty(),
            m.keys() == Seq::<Seq<char>>::empty(),
    {
        let m = StrMap { entries: Vec::new() };
        assert(m.keys() =~= Seq::<Seq<char>>::empty());
        assert(m@ =~= Map::<Seq<char>, V>::empty());
        m
    }

    /// The entries, in key order.
    pub fn into_entries(self) -> (es: Vec<(String, V)>)
        ensures
            es@.map_values(|e: (String, V)| e.0@) == self.keys(),
            es@.map_values(|e: (String, V)| e.1) == self.vals(),
    {
        self.entries
    }

    /// Number of entries.
    pub fn len(&self) -> (n: usize)
        ensures
            n == self.keys().len(),
    {
        self.entries.len()
    }

    /// Whether the map is empty.
    pub fn is_empty(&self) -> (b: bool)
        ensures
            b == (self.keys().len() == 0),
    {
        self.entries.len() == 0
    }

    /// The `i`-th key in order.
    pub fn key_at(&self, i: usize) -> (k: &String)
        requires
            i < self.keys().len(),
        ensures
            k@ == self.keys()[i as int],
    {
        &self.entries[i].0
    }

    /// The `i`-th value in key order.
    pub fn value_at(&self, i: usize) -> (v: &V)
        requires
            i < self.keys().len(),
        ensures
            *v == self.vals()[i as int],
    {
        &self.entries[i].1
    }

    /// The position of `k`, if present.
    pub fn find(&self, k: &str) -> (r: Option<usize>)
        ensures
            match r {
                Some(i) => i < self.keys().len() && self.keys()[i as int] == k@,
                None => !self.keys().contains(k@),
            },
    {
        let mut i: usize = 0;
        while i < self.entries.len()
            invariant
                i <= self.entries.len(),
                self.keys().len() == self.entries.len(),
                forall|j: int| 0 <= j < i ==> self.keys()[j] != k@,
            decreases self.entries.len() - i,
        {
            if str_eq(self.entries[i].0.as_str(), k) {
                return Some(i);
            }
            i = i + 1;
        }
        None
    }

    /// The value for `k`, if present.
    pub fn get(&self, k: &str) -> (r: Option<&V>)
        ensures
            r == (if self@.contains_key(k@) {
                Some(&self@[k@])
            } else {
                None
            }),
    {
        proof {
            use_type_invariant(self);
            self.lemma_view();
        }
        match self.find(k) {
            Some(i) => Some(&self.entries[i].1),
            None => None,
        }
    }

    /// Whether `k` is a key.
    pub fn contains_key(&self, k: &str) -> (b: bool)
        ensures
            b == self@.contains_key(k@),
    {
        proof {
            use_type_invariant(self);
            self.lemma_view();
        }
        self.find(k).is_some()
    }

    /// Inserts or replaces the value for `k`, returning the previous value.
    pub fn insert(&mut self, k: String, v: V) -> (prev: Option<V>)
        ensures
            final(self)@ == old(self)@.insert(k@, v),
            match prev {
                Some(p) => old(self)@.contains_key(k@) && p == old(self)@[k@],
                None => !old(self)@.contains_key(k@),
            },
    {
        proof {
            use_type_invariant(&*self);
            self.lemma_view();
        }
        let ghost ks = self.keys();
        let ghost ovals = self.vals();
        let mut p: usize = 0;
        while p < self.entries.len() && str_less(self.entries[p].0.as_str(), k.as_str())
            invariant
                p <= self.entries.len(),
                ks == self.keys(),
                ks.len() == self.entries.len(),
                forall|j: int| 0 <= j < p ==> seq_lt(#[trigger] ks[j], k@),
            decreases self.entries.len() - p,
        {
            p = p + 1;
        }
        let mut es: Vec<(String, V)> = Vec::new();
        std::mem::swap(&mut es, &mut self.entries);
        if p < es.len() && str_eq(es[p].0.as_str(), k.as_str()) {
            let (_old_key, old_val) = es.remove(p);
            es.insert(p, (k, v));
            assert(es@.map_values(|e: (String, V)| e.0@) =~= ks);
            self.entries = es;
            proof {
                assert(old_val == ovals[p as int]);
                assert(ks[p as int] == k@);
                assert(ks.contains(k@));
                let j0 = ks.index_of(k@);
                lemma_sorted_unique(ks, j0, p as int);
                assert(old(self)@[k@] == ovals[p as int]);
                assert(self.keys() =~= ks);
                assert(self.vals() =~= old(self).vals().update(p as int, v));
                self.lemma_view();
                assert forall|q: Seq<char>| #[trigger] self@.contains_key(q) == old(self)@.insert(
                    k@,
                    v,
                ).contains_key(q) by {
                    assert(ks[p as int] == k@);
                }
                assert forall|q: Seq<char>| #[trigger] self@.contains_key(q) implies self@[q]
                    == old(self)@.insert(k@, v)[q] by {
                    let j = ks.index_of(q);
                    assert(ks[j] == q);
                    if q == k@ {
                        lemma_sorted_unique(ks, j, p as int);
                    } else {
                        assert(old(self)@[q] == ovals[j]);
                    }
                }
                assert(self@ =~= old(self)@.insert(k@, v));
            }
            Some(old_val)
        } else {
            proof {
                assert(!ks.contains(k@)) by {
                    if ks.contains(k@) {
                        let j = ks.index_of(k@);
                        if j < p {
                            lemma_seq_lt_irreflexive(k@);
                        } else if j > p {
                            // ks[p] > k would contradict ks[j] == k with p < j.
                            lemma_seq_lt_total(ks[p as int], k@);
                            lemma_seq_lt_asymmetric(ks[p as int], ks[j]);
                        }
                    }
                }
            }
            es.insert(p, (k, v));
            proof {
                let nks = es@.map_values(|e: (String, V)| e.0@);
                assert(nks =~= ks.insert(p as int, k@));
                assert forall|i: int, j: int| 0 <= i < j < nks.len() implies seq_lt(
                    #[trigger] nks[i],
                    #[trigger] nks[j],
                ) by {
                    if p < ks.len() {
                        lemma_seq_lt_total(ks[p as int], k@);
                    }
                    if i < p && j == p {
                    } else if i == p && j > p {
                        if j - 1 > p {
                            lemma_seq_lt_transitive(k@, ks[p as int], ks[j - 1]);
                        }
                    } else if i < p && j > p {
                        assert(seq_lt(ks[i], ks[j - 1]));
                    } else if i > p {
                        assert(seq_lt(ks[i - 1], ks[j - 1]));
                    }
                }
            }
            self.entries = es;
            proof {
                let nks = self.keys();
                assert(nks =~= ks.insert(p as int, k@));
                assert forall|i: int, j: int| 0 <= i < j < nks.len() implies seq_lt(
                    #[trigger] nks[i],
                    #[trigger] nks[j],
                ) by {
                    if p < ks.len() {
                        lemma_seq_lt_total(ks[p as int], k@);
                    }
                    if i < p && j == p {
                    } else if i == p && j > p {
                        // k < ks[p] <= ks[j-1]
                        if j - 1 > p {
                            lemma_seq_lt_transitive(k@, ks[p as int], ks[j - 1]);
                        }
                    } else if i < p && j > p {
                        assert(seq_lt(ks[i], ks[j - 1]));
                    } else if i > p {
                        assert(seq_lt(ks[i - 1], ks[j - 1]));
                    }
                }
                assert(self.vals() =~= old(self).vals().insert(p as int, v));
                self.lemma_view();
                assert forall|q: Seq<char>| #[trigger] self@.contains_key(q) == old(self)@.insert(
                    k@,
                    v,
                ).contains_key(q) by {
                    assert(nks[p as int] == k@);
                    if q == k@ {
                        assert(nks.contains(q));
                    }
                    if q != k@ && old(self)@.contains_key(q) {
                        assert(ks.contains(q));
                        let j = ks.index_of(q);
                        if j < p {
                            assert(nks[j] == q);
                        } else {
                            assert(nks[j + 1] == q);
                        }
                        assert(nks.contains(q));
                    }
                    if nks.contains(q) && q != k@ {
                        let j = nks.index_of(q);
                        if j < p {
                            assert(ks[j] == q);
                        } else {
                            assert(ks[j - 1] == q);
                        }
                        assert(ks.contains(q));
                    }
                }
                assert forall|q: Seq<char>| #[trigger] self@.contains_key(q) implies self@[q]
                    == old(self)@.insert(k@, v)[q] by {
                    let j = nks.index_of(q);
                    if j < p {
                        assert(ks[j] == q);
                    } else if j > p {
                        assert(ks[j - 1] == q);
                    }
                }
                assert(self@ =~= old(self)@.insert(k@, v));
            }
            None
        }
    }

    /// Removes `k`, returning its value if it was present.
    pub fn remove(&mut self, k: &str) -> (prev: Option<V>)
        ensures
            final(self)@ == old(self)@.remove(k@),
            prev == (if old(self)@.contains_key(k@) {
                Some(old(self)@[k@])
            } else {
                None
            }),
    {
        proof {
            use_type_invariant(&*self);
            self.lemma_view();
        }
        match self.find(k) {
            None => {
                assert(self@ =~= self@.remove(k@));
                None
            },
            Some(i) => {
                let ghost oks = self.keys();
                let ghost ovs = self.vals();
                let mut es: Vec<(String, V)> = Vec::new();
                std::mem::swap(&mut es, &mut self.entries);
                let ghost ev = es@;
                let (_, v) = es.remove(i);
                proof {
                    let nks = es@.map_values(|e: (String, V)| e.0@);
                    assert(nks =~= oks.remove(i as int));
                    assert forall|a: int, b: int| 0 <= a < b < nks.len() implies seq_lt(
                        #[trigger] nks[a],
                        #[trigger] nks[b],
                    ) by {
                        let oa = if a < i { a } else { a + 1 };
                        let ob = if b < i { b } else { b + 1 };
                        assert(nks[a] == oks[oa]);
                        assert(nks[b] == oks[ob]);
                    }
                }
                self.entries = es;
                proof {
                    self.lemma_view();
                    let nks = self.keys();
                    let nvs = self.vals();
                    assert(nks =~= oks.remove(i as int));
                    assert(nvs =~= ovs.remove(i as int));
                    assert forall|q: Seq<char>| #[trigger] self@.contains_key(q) == old(self)@.remove(k@).contains_key(q) by {
                        if oks.contains(q) && q != k@ {
                            let j = oks.index_of(q);
                            assert(j != i);
                            let a = if j < i { j } else { j - 1 };
                            assert(nks[a] == q);
                        }
                        if nks.contains(q) {
                            let a = nks.index_of(q);
                            let j = if a < i { a } else { a + 1 };
                            assert(oks[j] == q);
                            assert(j != i as int);
                            if q == k@ {
                                lemma_sorted_unique(oks, j, i as int);
                            }
                        }
                    }
                    assert forall|q: Seq<char>| #[trigger] self@.contains_key(q) implies self@[q] == old(self)@.remove(k@)[q] by {
                        let a = nks.index_of(q);
                        let j = if a < i { a } else { a + 1 };
                        assert(oks[j] == q);
                        assert(nvs[a] == ovs[j]);
                    }
                    assert(self@ =~= old(self)@.remove(k@));
                    assert(v == ovs[i as int]);
                }
                Some(v)
            },
        }
    }

    /// Keeps exactly the entries whose flag is set (`flags` parallel to the keys).
    pub fn retain_flagged(&mut self, flags: &Vec<bool>)
        requires
            flags.len() == old(self).keys().len(),
        ensures
            final(self)@ == old(self)@.restrict(
                Set::new(
                    |k: Seq<char>|
                        exists|i: int|
                            0 <= i < flags.len() && flags[i] && old(self).keys()[i] == k,
                ),
            ),
    {
        proof {
            use_type_invariant(&*self);
            self.lemma_view();
        }
        let ghost oks = self.keys();
        let ghost ovs = self.vals();
        let mut kept: Vec<(String, V)> = Vec::new();
        let mut src: Vec<(String, V)> = Vec::new();
        std::mem::swap(&mut src, &mut self.entries);
        let ghost srcv = src@;
        let mut i: usize = 0;
        let n = flags.len();
        let ghost mut idx: Seq<int> = Seq::empty();
        while i < n
            invariant
                n == flags.len(),
                n == srcv.len(),
                i <= n,
                oks == srcv.map_values(|e: (String, V)| e.0@),
                ovs == srcv.map_values(|e: (String, V)| e.1),
                src@ == srcv.subrange(i as int, n as int),
                kept@.len() == idx.len(),
                forall|a: int| 0 <= a < idx.len() ==> 0 <= #[trigger] idx[a] < i && flags[idx[a]],
                forall|a: int, b: int| 0 <= a < b < idx.len() ==> #[trigger] idx[a] < #[trigger] idx[b],
                forall|a: int| 0 <= a < idx.len() ==> #[trigger] kept@[a] == srcv[idx[a]],
                forall|j: int| 0 <= j < i && flags[j] ==> exists|a: int| 0 <= a < idx.len() && #[trigger] idx[a] == j,
            decreases n - i,
        {
            let e = src.remove(0);
            assert(e == srcv[i as int]);
            let ghost old_idx = idx;
            if flags[i] {
                kept.push(e);
                proof {
                    idx = idx.push(i as int);
                    assert(idx[idx.len() - 1] == i);
                }
            }
            proof {
                assert forall|j: int| 0 <= j < i + 1 && flags[j] implies exists|a: int|
                    0 <= a < idx.len() && #[trigger] idx[a] == j by {
                    if j < i {
                        let a = choose|a: int| 0 <= a < old_idx.len() && #[trigger] old_idx[a] == j;
                        assert(idx[a] == j);
                    } else {
                        assert(idx[idx.len() - 1] == j);
                    }
                }
            }
            i = i + 1;
            assert(src@ =~= srcv.subrange(i as int, n as int));
        }
        proof {
            let nks = kept@.map_values(|e: (String, V)| e.0@);
            assert forall|a: int, b: int| 0 <= a < b < nks.len() implies seq_lt(
                #[trigger] nks[a],
                #[trigger] nks[b],
            ) by {
                assert(nks[a] == oks[idx[a]]);
                assert(nks[b] == oks[idx[b]]);
            }
        }
        self.entries = kept;
        proof {
            let nks = self.keys();
            assert forall|a: int, b: int| 0 <= a < b < nks.len() implies seq_lt(
                #[trigger] nks[a],
                #[trigger] nks[b],
            ) by {
                assert(nks[a] == oks[idx[a]]);
                assert(nks[b] == oks[idx[b]]);
            }
            self.lemma_view();
            let keep = Set::new(
                |k: Seq<char>|
                    exists|j: int| 0 <= j < flags.len() && flags[j] && oks[j] == k,
            );
            assert forall|q: Seq<char>| #[trigger] self@.contains_key(q) == old(self)@.restrict(
                keep,
            ).contains_key(q) by {
                if self@.contains_key(q) {
                    let a = nks.index_of(q);
                    assert(nks[a] == oks[idx[a]]);
                    assert(keep.contains(q));
                    assert(oks.contains(q));
                }
                if old(self)@.restrict(keep).contains_key(q) {
                    let j = choose|j: int| 0 <= j < flags.len() && flags[j] && oks[j] == q;
                    let a = choose|a: int| 0 <= a < idx.len() && #[trigger] idx[a] == j;
                    assert(nks[a] == q);
                }
            }
            assert forall|q: Seq<char>| #[trigger] self@.contains_key(q) implies self@[q]
                == old(self)@.restrict(keep)[q] by {
                let a = nks.index_of(q);
                assert(nks[a] == oks[idx[a]]);
                assert(self.vals()[a] == ovs[idx[a]]);
            }
            assert(self@ =~= old(self)@.restrict(keep));
        }
    }
}


impl<V: Clone> Clone for StrMap<V> {
    /// A copy with the same keys, each value cloned.
    fn clone(&self) -> (c: Self)
        ensures
            c.keys() == self.keys(),
            c.vals().len() == self.vals().len(),
            forall|i: int| 0 <= i < self.vals().len() ==> cloned::<V>(self.vals()[i], #[trigger] c.vals()[i]),
    {
        proof {
            use_type_invariant(self);
        }
        let mut es: Vec<(String, V)> = Vec::new();
        let mut i: usize = 0;
        while i < self.entries.len()
            invariant
                i <= self.entries.len(),
                es@.len() == i,
                es@.map_values(|e: (String, V)| e.0@) == self.keys().take(i as int),
                forall|j: int| 0 <= j < i ==> cloned::<V>(self.entries@[j].1, #[trigger] es@[j].1),
            decreases self.entries.len() - i,
        {
            let ghost before = es@;
            let k = self.entries[i].0.clone();
            let v = self.entries[i].1.clone();
            let ghost gk = k;
            assert(gk@ == self.entries@[i as int].0@);
            es.push((k, v));
            proof {
                assert(es@[i as int].0 == gk);
                assert(self.keys()[i as int] == self.entries@[i as int].0@);
                assert(es@[i as int].0@ == self.keys()[i as int]);
                let ek = es@.map_values(|e: (String, V)| e.0@);
                let bk = before.map_values(|e: (String, V)| e.0@);
                assert forall|j: int| 0 <= j < i + 1 implies #[trigger] ek[j] == self.keys().take(i + 1)[j] by {
                    if j < i {
                        assert(es@[j] == before[j]);
                        assert(bk[j] == self.keys().take(i as int)[j]);
                    }
                }
            }
            assert(es@.map_values(|e: (String, V)| e.0@) =~= self.keys().take(i + 1));
            i = i + 1;
        }
        assert(self.keys().take(self.entries.len() as int) =~= self.keys());
        let c = StrMap { entries: es };
        assert forall|i: int| 0 <= i < self.vals().len() implies cloned::<V>(self.vals()[i], #[trigger] c.vals()[i]) by {
            assert(self.vals()[i] == self.entries@[i].1);
            assert(c.vals()[i] == c.entries@[i].1);
        }
        c
    }
}

} // verus!
