//! A bounded least-recently-used map from byte keys to entries.
//!
//! The map is modelled as a sequence of (key, entry) pairs in recency
//! order: index 0 is the most recently used pair and the last index is the
//! least recently used one, the eviction victim.
use vstd::prelude::*;

use crate::value::{Entry, EntryV};

verus! {

/// The spec-level image of an LRU map: pairs in recency order.
pub type Assoc = Seq<(Seq<u8>, EntryV)>;

/// The entry stored under `k`: the first pair with that key.
pub open spec fn lookup(s: Assoc, k: Seq<u8>) -> Option<EntryV>
    decreases s.len(),
{
    if s.len() == 0 {
        None
    } else if s[0].0 == k {
        Some(s[0].1)
    } else {
        lookup(s.drop_first(), k)
    }
}

/// The sequence with every pair keyed `k` removed, order kept.
pub open spec fn keyless(s: Assoc, k: Seq<u8>) -> Assoc
    decreases s.len(),
{
    if s.len() == 0 {
        Seq::empty()
    } else if s[0].0 == k {
        keyless(s.drop_first(), k)
    } else {
        seq![s[0]] + keyless(s.drop_first(), k)
    }
}

/// No two pairs share a key.
pub open spec fn distinct_keys(s: Assoc) -> bool {
    forall|i: int, j: int| 0 <= i < j < s.len() ==> s[i].0 != s[j].0
}

pub proof fn lemma_lookup_absent(s: Assoc, k: Seq<u8>)
    ensures
        (lookup(s, k) is None) <==> (forall|i: int|
            0 <= i < s.len() ==> (#[trigger] s[i]).0 != k),
    decreases s.len(),
{
    if s.len() > 0 {
        lemma_lookup_absent(s.drop_first(), k);
        assert(forall|i: int|
            0 <= i < s.drop_first().len() ==> #[trigger] s.drop_first()[i] == s[i + 1]);
        if s[0].0 != k && lookup(s.drop_first(), k) is None {
            assert forall|i: int| 0 <= i < s.len() implies (#[trigger] s[i]).0 != k by {
                if i > 0 {
                    assert(s.drop_first()[i - 1] == s[i]);
                }
            }
        }
        if forall|i: int| 0 <= i < s.len() ==> (#[trigger] s[i]).0 != k {
            assert forall|i: int|
                0 <= i < s.drop_first().len() implies (#[trigger] s.drop_first()[i]).0 != k by {
                assert(s[i + 1].0 != k);
            }
        }
    }
}

pub proof fn lemma_lookup_at(s: Assoc, k: Seq<u8>, i: int)
    requires
        distinct_keys(s),
        0 <= i < s.len(),
        s[i].0 == k,
    ensures
        lookup(s, k) == Some(s[i].1),
    decreases s.len(),
{
    if i == 0 {
    } else {
        assert(s[0].0 != k);
        assert(s.drop_first()[i - 1] == s[i]);
        assert(distinct_keys(s.drop_first())) by {
            assert(forall|a: int, b: int|
                0 <= a < b < s.drop_first().len() ==> s.drop_first()[a] == s[a + 1]
                    && s.drop_first()[b] == s[b + 1]);
        }
        lemma_lookup_at(s.drop_first(), k, i - 1);
    }
}

pub proof fn lemma_keyless_absent(s: Assoc, k: Seq<u8>)
    requires
        forall|i: int| 0 <= i < s.len() ==> (#[trigger] s[i]).0 != k,
    ensures
        keyless(s, k) == s,
    decreases s.len(),
{
    if s.len() > 0 {
        assert(forall|i: int|
            0 <= i < s.drop_first().len() ==> #[trigger] s.drop_first()[i] == s[i + 1]);
        lemma_keyless_absent(s.drop_first(), k);
        assert(keyless(s, k) =~= s);
    } else {
        assert(keyless(s, k) =~= s);
    }
}

pub proof fn lemma_keyless_remove_at(s: Assoc, k: Seq<u8>, i: int)
    requires
        distinct_keys(s),
        0 <= i < s.len(),
        s[i].0 == k,
    ensures
        keyless(s, k) == s.subrange(0, i) + s.subrange(i + 1, s.len() as int),
    decreases s.len(),
{
    if i == 0 {
        assert forall|j: int|
            0 <= j < s.drop_first().len() implies (#[trigger] s.drop_first()[j]).0 != k by {
            assert(s.drop_first()[j] == s[j + 1]);
        }
        lemma_keyless_absent(s.drop_first(), k);
        assert(keyless(s, k) =~= s.subrange(0, 0) + s.subrange(1, s.len() as int));
    } else {
        assert(s[0].0 != k);
        assert(forall|a: int|
            0 <= a < s.drop_first().len() ==> #[trigger] s.drop_first()[a] == s[a + 1]);
        assert(distinct_keys(s.drop_first()));
        lemma_keyless_remove_at(s.drop_first(), k, i - 1);
        assert(keyless(s, k) =~= s.subrange(0, i) + s.subrange(i + 1, s.len() as int));
    }
}

/// Removing one key removes it from the lookup domain and leaves every
/// other key's entry unchanged.
pub proof fn lemma_lookup_keyless(s: Assoc, k: Seq<u8>, k2: Seq<u8>)
    ensures
        k2 == k ==> lookup(keyless(s, k), k2) is None,
        k2 != k ==> lookup(keyless(s, k), k2) == lookup(s, k2),
    decreases s.len(),
{
    if s.len() > 0 {
        lemma_lookup_keyless(s.drop_first(), k, k2);
        if s[0].0 != k {
            assert((seq![s[0]] + keyless(s.drop_first(), k)).drop_first() =~= keyless(
                s.drop_first(),
                k,
            ));
        }
    }
}

/// A prepended fresh pair is what lookup finds; other keys are untouched.
pub proof fn lemma_lookup_prepend(s: Assoc, k: Seq<u8>, e: EntryV, k2: Seq<u8>)
    ensures
        k2 == k ==> lookup(seq![(k, e)] + s, k2) == Some(e),
        k2 != k ==> lookup(seq![(k, e)] + s, k2) == lookup(s, k2),
{
    let t = seq![(k, e)] + s;
    assert(t[0] == (k, e));
    assert(t.drop_first() =~= s);
}

/// Every pair of the filtered sequence stands somewhere in the original.
pub proof fn lemma_keyless_membership(s: Assoc, k: Seq<u8>)
    ensures
        keyless(s, k).len() <= s.len(),
        forall|i: int|
            0 <= i < keyless(s, k).len() ==> exists|j: int|
                0 <= j < s.len() && s[j] == #[trigger] keyless(s, k)[i] && s[j].0 != k,
    decreases s.len(),
{
    if s.len() > 0 {
        lemma_keyless_membership(s.drop_first(), k);
        assert(forall|a: int|
            0 <= a < s.drop_first().len() ==> #[trigger] s.drop_first()[a] == s[a + 1]);
        if s[0].0 == k {
            assert forall|i: int| 0 <= i < keyless(s, k).len() implies exists|j: int|
                0 <= j < s.len() && s[j] == #[trigger] keyless(s, k)[i] && s[j].0 != k by {
                let j0 = choose|j: int|
                    0 <= j < s.drop_first().len() && s.drop_first()[j] == keyless(
                        s.drop_first(),
                        k,
                    )[i] && s.drop_first()[j].0 != k;
                assert(s[j0 + 1] == keyless(s, k)[i] && s[j0 + 1].0 != k);
            }
        } else {
            let rest = keyless(s.drop_first(), k);
            assert(keyless(s, k) == seq![s[0]] + rest);
            assert forall|i: int| 0 <= i < keyless(s, k).len() implies exists|j: int|
                0 <= j < s.len() && s[j] == #[trigger] keyless(s, k)[i] && s[j].0 != k by {
                if i == 0 {
                    assert(s[0] == keyless(s, k)[0] && s[0].0 != k);
                } else {
                    assert(keyless(s, k)[i] == rest[i - 1]);
                    let j0 = choose|j: int|
                        0 <= j < s.drop_first().len() && s.drop_first()[j] == rest[i - 1]
                            && s.drop_first()[j].0 != k;
                    assert(s[j0 + 1] == keyless(s, k)[i] && s[j0 + 1].0 != k);
                }
            }
        }
    }
}

/// Filtering a key out keeps the remaining keys distinct.
pub proof fn lemma_keyless_distinct(s: Assoc, k: Seq<u8>)
    requires
        distinct_keys(s),
    ensures
        distinct_keys(keyless(s, k)),
    decreases s.len(),
{
    if s.len() > 0 {
        assert(forall|i: int|
            0 <= i < s.drop_first().len() ==> #[trigger] s.drop_first()[i] == s[i + 1]);
        lemma_keyless_distinct(s.drop_first(), k);
        if s[0].0 != k {
            lemma_keyless_membership(s.drop_first(), k);
            let rest = keyless(s.drop_first(), k);
            let r = seq![s[0]] + rest;
            assert forall|a: int, b: int| 0 <= a < b < r.len() implies r[a].0 != r[b].0 by {
                if a == 0 {
                    let j = choose|j: int|
                        0 <= j < s.drop_first().len() && s.drop_first()[j] == rest[b - 1]
                            && s.drop_first()[j].0 != k;
                    assert(s[j + 1] == rest[b - 1]);
                    assert(s[0].0 != s[j + 1].0);
                } else {
                    assert(rest[a - 1].0 != rest[b - 1].0);
                }
            }
        }
    }
}

/// The view of the backing vector: each pair mapped to its image.
pub open spec fn lru_items_view(v: Seq<(Vec<u8>, Entry)>) -> Assoc {
    v.map_values(|p: (Vec<u8>, Entry)| (p.0@, p.1@))
}

/// A bounded LRU map. `items[0]` is the most recently used pair; the last
/// pair is the eviction victim.
pub struct LruMap {
    pub items: Vec<(Vec<u8>, Entry)>,
    pub cap: usize,
}

impl View for LruMap {
    type V = Assoc;

    open spec fn view(&self) -> Assoc {
        lru_items_view(self.items@)
    }
}

impl LruMap {
    /// Keys are distinct and the size never passes the capacity, which is
    /// at least one.
    pub open spec fn wf(&self) -> bool {
        &&& 1 <= self.cap
        &&& self@.len() <= self.cap
        &&& distinct_keys(self@)
    }

    /// Creates an empty map with the given capacity.
    pub fn new(cap: usize) -> (r: LruMap)
        requires
            cap >= 1,
        ensures
            r.wf(),
            r@ == Seq::<(Seq<u8>, EntryV)>::empty(),
            r.cap == cap,
    {
        let r = LruMap { items: Vec::new(), cap };
        proof {
            assert(r@ =~= Seq::<(Seq<u8>, EntryV)>::empty());
        }
        r
    }

    /// The number of stored pairs.
    pub fn len(&self) -> (r: usize)
        ensures
            r == self@.len(),
    {
        self.items.len()
    }

    /// The position of `k`, if it is stored.
    fn find_idx(&self, k: &Vec<u8>) -> (r: Option<usize>)
        ensures
            match r {
                Some(i) => i < self@.len() && self@[i as int].0 == k@,
                None => forall|j: int| 0 <= j < self@.len() ==> (#[trigger] self@[j]).0 != k@,
            },
    {
        let mut i: usize = 0;
        while i < self.items.len()
            invariant
                i <= self.items.len(),
                forall|j: int| 0 <= j < i ==> (#[trigger] self@[j]).0 != k@,
            decreases self.items.len() - i,
        {
            if crate::value::bytes_eq(&self.items[i].0, k) {
                return Some(i);
            }
            i += 1;
        }
        None
    }

    /// Returns the entry under `k` and marks `k` most recently used;
    /// `None` if `k` is absent.
    pub fn get(&mut self, k: &Vec<u8>) -> (r: Option<&Entry>)
        requires
            old(self).wf(),
        ensures
            final(self).wf(),
            final(self).cap == old(self).cap,
            match r {
                None => final(self)@ == old(self)@ && lookup(old(self)@, k@) is None,
                Some(e) => lookup(old(self)@, k@) == Some(e@) && final(self)@ == seq![(k@, e@)]
                    + keyless(old(self)@, k@),
            },
    {
        let ghost s0 = self@;
        match self.find_idx(k) {
            None => {
                proof {
                    lemma_lookup_absent(s0, k@);
                }
                None
            },
            Some(i) => {
                proof {
                    lemma_lookup_at(s0, k@, i as int);
                    lemma_keyless_remove_at(s0, k@, i as int);
                }
                let pair = self.items.remove(i);
                self.items.insert(0, pair);
                proof {
                    assert(self@ =~= seq![(s0[i as int].0, s0[i as int].1)] + keyless(s0, k@));
                    lemma_keyless_membership(s0, k@);
                    assert forall|a: int, b: int|
                        0 <= a < b < self@.len() implies self@[a].0 != self@[b].0 by {
                        if a == 0 {
                            lemma_lookup_keyless(s0, k@, self@[b].0);
                            if self@[b].0 == k@ {
                                lemma_lookup_absent(keyless(s0, k@), k@);
                            }
                        }
                    }
                }
                Some(&self.items[0].1)
            },
        }
    }

    /// Returns the entry under `k` without touching the recency order.
    pub fn peek(&self, k: &Vec<u8>) -> (r: Option<&Entry>)
        requires
            self.wf(),
        ensures
            match r {
                None => lookup(self@, k@) is None,
                Some(e) => lookup(self@, k@) == Some(e@),
            },
    {
        match self.find_idx(k) {
            None => {
                proof {
                    lemma_lookup_absent(self@, k@);
                }
                None
            },
            Some(i) => {
                proof {
                    lemma_lookup_at(self@, k@, i as int);
                }
                Some(&self.items[i].1)
            },
        }
    }

    /// Inserts `(k, e)` as most recently used, overwriting any pair that
    /// held `k`. When the map is full and `k` is fresh, the least recently
    /// used pair is evicted and returned.
    pub fn put(&mut self, k: Vec<u8>, e: Entry) -> (evicted: Option<(Vec<u8>, Entry)>)
        requires
            old(self).wf(),
        ensures
            final(self).wf(),
            final(self).cap == old(self).cap,
            final(self)@.len() >= 1,
            lookup(old(self)@, k@) is Some ==> final(self)@ == seq![(k@, e@)] + keyless(
                old(self)@,
                k@,
            ) && evicted is None,
            lookup(old(self)@, k@) is None && old(self)@.len() < old(self).cap ==> final(self)@
                == seq![(k@, e@)] + old(self)@ && evicted is None,
            lookup(old(self)@, k@) is None && old(self)@.len() == old(self).cap ==> final(self)@
                == seq![(k@, e@)] + old(self)@.drop_last() && (evicted matches Some(p)
                && (p.0@, p.1@) == old(self)@.last()),
    {
        let ghost s0 = self@;
        let ghost ev = (k@, e@);
        match self.find_idx(&k) {
            Some(i) => {
                proof {
                    lemma_lookup_at(s0, k@, i as int);
                    lemma_keyless_remove_at(s0, k@, i as int);
                }
                let _prev = self.items.remove(i);
                self.items.insert(0, (k, e));
                proof {
                    assert(self@ =~= seq![ev] + keyless(s0, k@));
                    lemma_keyless_membership(s0, k@);
                    assert forall|a: int, b: int|
                        0 <= a < b < self@.len() implies self@[a].0 != self@[b].0 by {
                        if a == 0 {
                            lemma_lookup_keyless(s0, k@, self@[b].0);
                            if self@[b].0 == k@ {
                                lemma_lookup_absent(keyless(s0, k@), k@);
                            }
                        }
                    }
                }
                None
            },
            None => {
                proof {
                    lemma_lookup_absent(s0, k@);
                }
                let evicted = if self.items.len() == self.cap {
                    self.items.pop()
                } else {
                    None
                };
                self.items.insert(0, (k, e));
                proof {
                    if s0.len() == old(self).cap {
                        assert(self@ =~= seq![ev] + s0.drop_last());
                    } else {
                        assert(self@ =~= seq![ev] + s0);
                    }
                }
                evicted
            },
        }
    }

    /// Removes and returns the entry under `k`.
    pub fn pop(&mut self, k: &Vec<u8>) -> (r: Option<Entry>)
        requires
            old(self).wf(),
        ensures
            final(self).wf(),
            final(self).cap == old(self).cap,
            final(self)@ == keyless(old(self)@, k@),
            match r {
                None => lookup(old(self)@, k@) is None && final(self)@ == old(self)@,
                Some(en) => lookup(old(self)@, k@) == Some(en@),
            },
    {
        let ghost s0 = self@;
        match self.find_idx(k) {
            None => {
                proof {
                    lemma_lookup_absent(s0, k@);
                    lemma_keyless_absent(s0, k@);
                }
                None
            },
            Some(i) => {
                proof {
                    lemma_lookup_at(s0, k@, i as int);
                    lemma_keyless_remove_at(s0, k@, i as int);
                }
                let pair = self.items.remove(i);
                proof {
                    assert(self@ =~= keyless(s0, k@));
                    lemma_keyless_membership(s0, k@);
                    assert forall|a: int, b: int|
                        0 <= a < b < self@.len() implies self@[a].0 != self@[b].0 by {
                        let sub = s0.subrange(0, i as int) + s0.subrange(i + 1, s0.len() as int);
                        assert(self@[a] == sub[a] && self@[b] == sub[b]);
                    }
                }
                Some(pair.1)
            },
        }
    }

    /// Drops every pair.
    pub fn clear(&mut self)
        requires
            old(self).wf(),
        ensures
            final(self).wf(),
            final(self).cap == old(self).cap,
            final(self)@ == Seq::<(Seq<u8>, EntryV)>::empty(),
    {
        self.items.clear();
        proof {
            assert(self@ =~= Seq::<(Seq<u8>, EntryV)>::empty());
        }
    }

    /// Sets the capacity to `n`; while the map is over the new capacity,
    /// least recently used pairs are evicted, returned in eviction order.
    pub fn resize(&mut self, n: usize) -> (evicted: Vec<(Vec<u8>, Entry)>)
        requires
            old(self).wf(),
            n >= 1,
        ensures
            final(self).wf(),
            final(self).cap == n,
            old(self)@.len() <= n ==> final(self)@ == old(self)@ && evicted@.len() == 0,
            old(self)@.len() > n ==> final(self)@ == old(self)@.subrange(0, n as int)
                && lru_items_view(evicted@) == old(self)@.subrange(
                n as int,
                old(self)@.len() as int,
            ).reverse(),
    {
        let ghost s0 = self@;
        let mut evicted: Vec<(Vec<u8>, Entry)> = Vec::new();
        while self.items.len() > n
            invariant
                n >= 1,
                distinct_keys(s0),
                self@ == s0.subrange(0, self.items.len() as int),
                self.items.len() <= s0.len(),
                self.items.len() >= n || self.items.len() == s0.len(),
                n < s0.len() ==> lru_items_view(evicted@) == s0.subrange(
                    self.items.len() as int,
                    s0.len() as int,
                ).reverse(),
                n >= s0.len() ==> self@ == s0 && evicted@.len() == 0,
            decreases self.items.len(),
        {
            let ghost m = self.items.len() - 1;
            let ghost ev0 = evicted@;
            let ghost items0 = self.items@;
            let ghost v0 = self@;
            let p = match self.items.pop() {
                Some(p) => p,
                None => {
                    proof {
                        assert(false);
                    }
                    unreached()
                },
            };
            evicted.push(p);
            proof {
                assert(self@ =~= s0.subrange(0, self.items.len() as int));
                assert(p == items0[m as int]);
                assert(v0[m as int] == (p.0@, p.1@));
                assert(v0[m as int] == s0[m as int]);
                assert(evicted@ == ev0.push(p));
                assert(lru_items_view(ev0).len() == ev0.len());
                assert(ev0.len() == s0.len() - m - 1);
                assert forall|i: int|
                    0 <= i < evicted@.len() implies #[trigger] lru_items_view(evicted@)[i] == (
                if i < ev0.len() {
                    lru_items_view(ev0)[i]
                } else {
                    (p.0@, p.1@)
                }) by {
                    if i < ev0.len() {
                        assert(evicted@[i] == ev0[i]);
                    } else {
                        assert(evicted@[i] == p);
                    }
                }
                assert(lru_items_view(evicted@) =~= s0.subrange(
                    self.items.len() as int,
                    s0.len() as int,
                ).reverse());
            }
        }
        self.cap = n;
        proof {
            assert(s0.subrange(0, s0.len() as int) =~= s0);
            assert forall|a: int, b: int|
                0 <= a < b < self@.len() implies self@[a].0 != self@[b].0 by {
                assert(self@[a] == s0[a] && self@[b] == s0[b]);
            }
        }
        evicted
    }
}

} // verus!
