//! A map from strings to values that keeps its entries in ascending key
//! order, as the ordered maps of the Kubernetes documents do.
use vstd::prelude::*;
use crate::text::{seq_lt, str_lt, str_eq, lemma_seq_lt_total, lemma_seq_lt_transitive, lemma_seq_lt_irreflexive};

verus! {

/// The value stored under `k`: that of the first entry with that key.
pub open spec fn lookup<W>(s: Seq<(Seq<char>, W)>, k: Seq<char>) -> Option<W>
    decreases s.len(),
{
    if s.len() == 0 {
        None
    } else if s[0].0 == k {
        Some(s[0].1)
    } else {
        lookup(s.drop_first(), k)
    }
}

/// Whether `k` is the key of some entry.
pub open spec fn has_key<W>(s: Seq<(Seq<char>, W)>, k: Seq<char>) -> bool {
    exists|i: int| 0 <= i < s.len() && #[trigger] s[i].0 == k
}

/// Keys strictly ascending, hence each key at most once.
pub open spec fn sorted_keys<W>(s: Seq<(Seq<char>, W)>) -> bool {
    forall|i: int, j: int| 0 <= i < j < s.len() ==> seq_lt(#[trigger] s[i].0, #[trigger] s[j].0)
}

pub proof fn lemma_lookup_has_key<W>(s: Seq<(Seq<char>, W)>, k: Seq<char>)
    ensures
        lookup(s, k) is Some <==> has_key(s, k),
    decreases s.len(),
{
    if s.len() > 0 {
        lemma_lookup_has_key(s.drop_first(), k);
        if has_key(s, k) && s[0].0 != k {
            let i = choose|i: int| 0 <= i < s.len() && #[trigger] s[i].0 == k;
            assert(s.drop_first()[i - 1].0 == k);
        }
        if has_key(s.drop_first(), k) {
            let i = choose|i: int| 0 <= i < s.drop_first().len() && #[trigger] s.drop_first()[i].0 == k;
            assert(s[i + 1].0 == k);
        }
    }
}

/// In a sorted sequence the entry at `i` is the one found under its key.
pub proof fn lemma_lookup_sorted_index<W>(s: Seq<(Seq<char>, W)>, i: int)
    requires
        sorted_keys(s),
        0 <= i < s.len(),
    ensures
        lookup(s, s[i].0) == Some(s[i].1),
    decreases s.len(),
{
    if i > 0 {
        lemma_seq_lt_irreflexive(s[0].0);
        assert(seq_lt(s[0].0, s[i].0));
        assert(sorted_keys(s.drop_first())) by {
            assert forall|a: int, b: int| 0 <= a < b < s.drop_first().len() implies seq_lt(
                #[trigger] s.drop_first()[a].0,
                #[trigger] s.drop_first()[b].0,
            ) by {
                assert(seq_lt(s[a + 1].0, s[b + 1].0));
            }
        }
        lemma_lookup_sorted_index(s.drop_first(), i - 1);
    }
}

/// Two sorted sequences that store the same values under the same keys are equal.
pub proof fn lemma_sorted_extensional<W>(a: Seq<(Seq<char>, W)>, b: Seq<(Seq<char>, W)>)
    requires
        sorted_keys(a),
        sorted_keys(b),
        forall|k: Seq<char>| lookup(a, k) == lookup(b, k),
    ensures
        a == b,
    decreases a.len() + b.len(),
{
    if a.len() == 0 && b.len() == 0 {
        assert(a =~= b);
    } else if a.len() == 0 {
        lemma_lookup_sorted_index(b, 0);
        assert(lookup(a, b[0].0) is None);
    } else if b.len() == 0 {
        lemma_lookup_sorted_index(a, 0);
        assert(lookup(b, a[0].0) is None);
    } else {
        // the smallest keys agree
        lemma_lookup_sorted_index(a, 0);
        lemma_lookup_sorted_index(b, 0);
        lemma_lookup_has_key(a, b[0].0);
        lemma_lookup_has_key(b, a[0].0);
        let ia = choose|i: int| 0 <= i < a.len() && #[trigger] a[i].0 == b[0].0;
        let ib = choose|i: int| 0 <= i < b.len() && #[trigger] b[i].0 == a[0].0;
        if ia > 0 {
            assert(seq_lt(a[0].0, a[ia].0));
            if ib > 0 {
                assert(seq_lt(b[0].0, b[ib].0));
                lemma_seq_lt_total(a[0].0, b[0].0);
            } else {
                lemma_seq_lt_irreflexive(a[0].0);
            }
        } else if ib > 0 {
            assert(seq_lt(b[0].0, b[ib].0));
            lemma_seq_lt_irreflexive(b[0].0);
        }
        assert(a[0].0 == b[0].0);
        assert(a[0].1 == b[0].1);
        let ta = a.drop_first();
        let tb = b.drop_first();
        assert(sorted_keys(ta)) by {
            assert forall|x: int, y: int| 0 <= x < y < ta.len() implies seq_lt(#[trigger] ta[x].0, #[trigger] ta[y].0) by {
                assert(seq_lt(a[x + 1].0, a[y + 1].0));
            }
        }
        assert(sorted_keys(tb)) by {
            assert forall|x: int, y: int| 0 <= x < y < tb.len() implies seq_lt(#[trigger] tb[x].0, #[trigger] tb[y].0) by {
                assert(seq_lt(b[x + 1].0, b[y + 1].0));
            }
        }
        assert forall|k: Seq<char>| lookup(ta, k) == lookup(tb, k) by {
            if k != a[0].0 {
                assert(lookup(a, k) == lookup(ta, k));
                assert(lookup(b, k) == lookup(tb, k));
            } else {
                lemma_lookup_has_key(ta, k);
                lemma_lookup_has_key(tb, k);
                if has_key(ta, k) {
                    let x = choose|x: int| 0 <= x < ta.len() && #[trigger] ta[x].0 == k;
                    assert(seq_lt(a[0].0, a[x + 1].0));
                    lemma_seq_lt_irreflexive(k);
                }
                if has_key(tb, k) {
                    let x = choose|x: int| 0 <= x < tb.len() && #[trigger] tb[x].0 == k;
                    assert(seq_lt(b[0].0, b[x + 1].0));
                    lemma_seq_lt_irreflexive(k);
                }
            }
        }
        lemma_sorted_extensional(ta, tb);
        assert(a =~= seq![a[0]] + ta);
        assert(b =~= seq![b[0]] + tb);
    }
}

proof fn lemma_sorted_update<W>(s: Seq<(Seq<char>, W)>, i: int, e: (Seq<char>, W))
    requires
        0 <= i < s.len(),
        s[i].0 == e.0,
    ensures
        sorted_keys(s) ==> sorted_keys(s.update(i, e)),
{
    if sorted_keys(s) {
        let t = s.update(i, e);
        assert forall|a: int, b: int| 0 <= a < b < t.len() implies seq_lt(#[trigger] t[a].0, #[trigger] t[b].0) by {
            assert(seq_lt(s[a].0, s[b].0));
        }
    }
}

proof fn lemma_sorted_insert<W>(s: Seq<(Seq<char>, W)>, p: int, e: (Seq<char>, W))
    requires
        0 <= p <= s.len(),
        forall|j: int| 0 <= j < p ==> seq_lt(s[j].0, e.0),
        p < s.len() ==> !seq_lt(s[p].0, e.0),
        p < s.len() ==> s[p].0 != e.0,
        p < s.len() ==> (seq_lt(s[p].0, e.0) || seq_lt(e.0, s[p].0)),
    ensures
        sorted_keys(s) ==> sorted_keys(s.insert(p, e)),
{
    if sorted_keys(s) {
        let t = s.insert(p, e);
        assert forall|a: int, b: int| 0 <= a < b < t.len() implies seq_lt(#[trigger] t[a].0, #[trigger] t[b].0) by {
            if b < p {
                assert(seq_lt(s[a].0, s[b].0));
            } else if b == p {
            } else if a < p {
                assert(seq_lt(s[a].0, e.0));
                if p < b - 1 {
                    assert(seq_lt(s[p].0, s[b - 1].0));
                    lemma_seq_lt_transitive(e.0, s[p].0, s[b - 1].0);
                }
                lemma_seq_lt_transitive(s[a].0, e.0, s[b - 1].0);
            } else if a == p {
                if p < b - 1 {
                    assert(seq_lt(s[p].0, s[b - 1].0));
                    lemma_seq_lt_transitive(e.0, s[p].0, s[b - 1].0);
                }
            } else {
                assert(seq_lt(s[a - 1].0, s[b - 1].0));
            }
        }
    }
}

/// A map from strings to values, its entries kept in ascending key order.
pub struct SortedMap<V> {
    entries: Vec<(String, V)>,
}

impl<V: View> View for SortedMap<V> {
    type V = Seq<(Seq<char>, V::V)>;

    closed spec fn view(&self) -> Seq<(Seq<char>, V::V)> {
        self.entries@.map_values(|e: (String, V)| (e.0@, e.1@))
    }
}

impl<V: View> SortedMap<V> {
    /// An empty map.
    pub fn new() -> (m: Self)
        ensures
            m@ == Seq::<(Seq<char>, V::V)>::empty(),
    {
        let m = SortedMap { entries: Vec::new() };
        assert(m@ =~= Seq::<(Seq<char>, V::V)>::empty());
        m
    }

    /// The number of entries.
    pub fn len(&self) -> (n: usize)
        ensures
            n == self@.len(),
    {
        self.entries.len()
    }

    /// Whether the map has no entry.
    pub fn is_empty(&self) -> (b: bool)
        ensures
            b == (self@.len() == 0),
    {
        self.entries.len() == 0
    }

    /// The key of the entry at position `i`.
    pub fn key_at(&self, i: usize) -> (k: &String)
        requires
            i < self@.len(),
        ensures
            k@ == self@[i as int].0,
    {
        &self.entries[i].0
    }

    /// The value of the entry at position `i`.
    pub fn value_at(&self, i: usize) -> (v: &V)
        requires
            i < self@.len(),
        ensures
            v@ == self@[i as int].1,
    {
        &self.entries[i].1
    }

    /// The value stored under `k`, if any.
    pub fn get(&self, k: &str) -> (r: Option<&V>)
        ensures
            match r {
                Some(v) => lookup(self@, k@) == Some(v@),
                None => lookup(self@, k@) is None,
            },
    {
        let mut i: usize = 0;
        assert(self@.skip(0) =~= self@);
        while i < self.entries.len()
            invariant
                i <= self.entries@.len(),
                lookup(self@, k@) == lookup(self@.skip(i as int), k@),
            decreases self.entries@.len() - i,
        {
            assert(self@.skip(i as int)[0] == self@[i as int]);
            if str_eq(self.entries[i].0.as_str(), k) {
                return Some(&self.entries[i].1);
            }
            assert(self@.skip(i as int).drop_first() =~= self@.skip(i + 1));
            i = i + 1;
        }
        None
    }

    /// Whether some entry has key `k`.
    pub fn contains_key(&self, k: &str) -> (b: bool)
        ensures
            b == (lookup(self@, k@) is Some),
    {
        match self.get(k) {
            Some(_) => true,
            None => false,
        }
    }

    /// Stores `v` under `k`, replacing and returning the value that was
    /// there (`BTreeMap::insert`). A new key goes before the first larger key.
    pub fn insert(&mut self, k: String, v: V) -> (old_value: Option<V>)
        ensures
            match old_value {
                Some(w) => lookup(old(self)@, k@) == Some(w@),
                None => lookup(old(self)@, k@) is None,
            },
            lookup(final(self)@, k@) == Some(v@),
            forall|k2: Seq<char>| k2 != k@ ==> lookup(final(self)@, k2) == lookup(old(self)@, k2),
            sorted_keys(old(self)@) ==> sorted_keys(final(self)@),
            final(self)@.len() == old(self)@.len() + (if old_value is None { 1int } else { 0int }),
    {
        let ghost s0 = self@;
        let n = self.entries.len();
        let mut i: usize = 0;
        assert(s0.skip(0) =~= s0);
        // look for the key
        while i < n
            invariant
                n == self.entries@.len(),
                self@ == s0,
                s0 == old(self)@,
                i <= n,
                lookup(s0, k@) == lookup(s0.skip(i as int), k@),
                forall|j: int| 0 <= j < i ==> s0[j].0 != k@,
            decreases n - i,
        {
            assert(s0.skip(i as int)[0] == s0[i as int]);
            if self.entries[i].0 == k {
                let (_, w) = self.entries.remove(i);
                self.entries.insert(i, (k, v));
                assert(w@ == s0[i as int].1);
                proof {
                    assert(self@ =~= s0.update(i as int, (k@, v@)));
                    Self::lemma_lookup_update_rec(s0, i as int, k@, v@);
                    lemma_sorted_update(s0, i as int, (k@, v@));
                }
                return Some(w);
            }
            assert(s0.skip(i as int).drop_first() =~= s0.skip(i + 1));
            i = i + 1;
        }
        proof {
            lemma_lookup_has_key(s0, k@);
        }
        // find the insertion point: before the first larger key
        let mut p: usize = 0;
        while p < n && str_lt(self.entries[p].0.as_str(), k.as_str())
            invariant
                n == self.entries@.len(),
                self@ == s0,
                p <= n,
                forall|j: int| 0 <= j < p ==> seq_lt(s0[j].0, k@),
            decreases n - p,
        {
            p = p + 1;
        }
        self.entries.insert(p, (k, v));
        proof {
            assert(self@ =~= s0.insert(p as int, (k@, v@)));
            Self::lemma_lookup_insert(s0, p as int, k@, v@);
            if p < n {
                lemma_seq_lt_total(s0[p as int].0, k@);
            }
            lemma_sorted_insert(s0, p as int, (k@, v@));
        }
        None
    }

    proof fn lemma_lookup_update_rec(s0: Seq<(Seq<char>, V::V)>, i: int, k: Seq<char>, v: V::V)
        requires
            0 <= i < s0.len(),
            s0[i].0 == k,
            forall|j: int| 0 <= j < i ==> s0[j].0 != k,
        ensures
            lookup(s0.update(i, (k, v)), k) == Some(v),
            lookup(s0, k) == Some(s0[i].1),
            forall|k2: Seq<char>| k2 != k ==> lookup(s0.update(i, (k, v)), k2) == lookup(s0, k2),
        decreases s0.len(),
    {
        let s1 = s0.update(i, (k, v));
        if i > 0 {
            assert(s1.drop_first() =~= s0.drop_first().update(i - 1, (k, v)));
            Self::lemma_lookup_update_rec(s0.drop_first(), i - 1, k, v);
        } else {
            assert(s1.drop_first() =~= s0.drop_first());
        }
        assert forall|k2: Seq<char>| k2 != k implies lookup(s1, k2) == lookup(s0, k2) by {
            if s0[0].0 != k2 {
                assert(s1[0].0 != k2);
                assert(lookup(s1, k2) == lookup(s1.drop_first(), k2));
                assert(lookup(s0, k2) == lookup(s0.drop_first(), k2));
                if i > 0 {
                    assert(lookup(s0.drop_first().update(i - 1, (k, v)), k2) == lookup(s0.drop_first(), k2));
                }
            } else {
                assert(s1[0] == s0[0]);
            }
        }
    }

    proof fn lemma_lookup_insert(s0: Seq<(Seq<char>, V::V)>, p: int, k: Seq<char>, v: V::V)
        requires
            0 <= p <= s0.len(),
            lookup(s0, k) is None,
        ensures
            lookup(s0.insert(p, (k, v)), k) == Some(v),
            forall|k2: Seq<char>| k2 != k ==> lookup(s0.insert(p, (k, v)), k2) == lookup(s0, k2),
        decreases s0.len(),
    {
        let s1 = s0.insert(p, (k, v));
        if p > 0 {
            assert(s1.drop_first() =~= s0.drop_first().insert(p - 1, (k, v)));
            Self::lemma_lookup_insert(s0.drop_first(), p - 1, k, v);
        } else {
            assert(s1.drop_first() =~= s0);
        }
        assert forall|k2: Seq<char>| k2 != k implies lookup(s1, k2) == lookup(s0, k2) by {
            if p > 0 {
                assert(s1[0] == s0[0]);
                if s0[0].0 != k2 {
                    assert(lookup(s1, k2) == lookup(s1.drop_first(), k2));
                    assert(lookup(s0, k2) == lookup(s0.drop_first(), k2));
                    assert(lookup(s0.drop_first().insert(p - 1, (k, v)), k2) == lookup(s0.drop_first(), k2));
                }
            } else {
                assert(s1[0].0 == k);
                assert(lookup(s1, k2) == lookup(s1.drop_first(), k2));
            }
        }
    }
}

} // verus!
