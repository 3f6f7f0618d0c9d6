//! Numeric secondary indexes: per-field ordered maps from a 64-bit
//! integer to the string keys whose JSON document carries that integer at
//! the field, kept as a sorted sequence of (number, key) pairs.
use vstd::prelude::*;

use crate::value::clone_bytes;

verus! {

/// One index: a tracked field name and its sorted (number, key) pairs.
pub struct NumIndex {
    pub field: Vec<u8>,
    pub pairs: Vec<(i64, Vec<u8>)>,
}

/// The spec image of a pair list.
pub open spec fn pview(v: Seq<(i64, Vec<u8>)>) -> Seq<(i64, Seq<u8>)> {
    crate::value::ipairs_view(v)
}

impl View for NumIndex {
    type V = (Seq<u8>, Seq<(i64, Seq<u8>)>);

    open spec fn view(&self) -> (Seq<u8>, Seq<(i64, Seq<u8>)>) {
        (self.field@, pview(self.pairs@))
    }
}

/// The spec image of the index table.
pub open spec fn ixs_view(v: Seq<NumIndex>) -> Seq<(Seq<u8>, Seq<(i64, Seq<u8>)>)> {
    Seq::new(v.len(), |q: int| (v[q].field@, pview(v[q].pairs@)))
}

/// The pairs with every entry keyed `k` dropped.
pub open spec fn pairs_without(m: Seq<(i64, Seq<u8>)>, k: Seq<u8>) -> Seq<(i64, Seq<u8>)>
    decreases m.len(),
{
    if m.len() == 0 {
        Seq::empty()
    } else if m.last().1 == k {
        pairs_without(m.drop_last(), k)
    } else {
        pairs_without(m.drop_last(), k) + seq![m.last()]
    }
}

/// The pairs with `(n, k)` inserted before the first larger number.
pub open spec fn ins_pair(m: Seq<(i64, Seq<u8>)>, n: i64, k: Seq<u8>) -> Seq<(i64, Seq<u8>)>
    decreases m.len(),
{
    if m.len() == 0 {
        seq![(n, k)]
    } else if m[0].0 > n {
        seq![(n, k)] + m
    } else {
        seq![m[0]] + ins_pair(m.drop_first(), n, k)
    }
}

/// Whether the pair `(n, k)` stands in `m`.
pub open spec fn pair_in(m: Seq<(i64, Seq<u8>)>, n: i64, k: Seq<u8>) -> bool {
    exists|i: int| 0 <= i < m.len() && m[i] == (n, k)
}

pub open spec fn pairs_sorted(m: Seq<(i64, Seq<u8>)>) -> bool {
    forall|i: int, j: int| 0 <= i < j < m.len() ==> m[i].0 <= m[j].0
}

pub open spec fn pairs_distinct(m: Seq<(i64, Seq<u8>)>) -> bool {
    forall|i: int, j: int| 0 <= i < j < m.len() ==> m[i] != m[j]
}

pub proof fn lemma_without_mem(m: Seq<(i64, Seq<u8>)>, k: Seq<u8>, n2: i64, k2: Seq<u8>)
    ensures
        pair_in(pairs_without(m, k), n2, k2) <==> (pair_in(m, n2, k2) && k2 != k),
    decreases m.len(),
{
    if m.len() > 0 {
        lemma_without_mem(m.drop_last(), k, n2, k2);
        if pair_in(m, n2, k2) && k2 != k {
            let i = choose|i: int| 0 <= i < m.len() && m[i] == (n2, k2);
            if i < m.len() - 1 {
                assert(m.drop_last()[i] == (n2, k2));
            }
        }
        if m.last().1 != k {
            let w = pairs_without(m.drop_last(), k) + seq![m.last()];
            assert(w[w.len() - 1] == m.last());
            assert(m[m.len() - 1] == m.last());
            if pair_in(w, n2, k2) {
                let i = choose|i: int| 0 <= i < w.len() && w[i] == (n2, k2);
                if i < w.len() - 1 {
                    assert(pair_in(pairs_without(m.drop_last(), k), n2, k2));
                }
            }
            if pair_in(pairs_without(m.drop_last(), k), n2, k2) {
                let i = choose|i: int|
                    0 <= i < pairs_without(m.drop_last(), k).len() && pairs_without(
                        m.drop_last(),
                        k,
                    )[i] == (n2, k2);
                assert(w[i] == (n2, k2));
            }
        }
        if pair_in(m.drop_last(), n2, k2) {
            let i = choose|i: int| 0 <= i < m.drop_last().len() && m.drop_last()[i] == (n2, k2);
            assert(m[i] == (n2, k2));
        }
    }
}

pub proof fn lemma_without_shape(m: Seq<(i64, Seq<u8>)>, k: Seq<u8>)
    requires
        pairs_sorted(m),
        pairs_distinct(m),
    ensures
        pairs_sorted(pairs_without(m, k)),
        pairs_distinct(pairs_without(m, k)),
        pairs_without(m, k).len() <= m.len(),
        forall|i: int|
            0 <= i < pairs_without(m, k).len() ==> exists|j: int|
                0 <= j < m.len() && m[j] == #[trigger] pairs_without(m, k)[i] && m[j].1 != k,
    decreases m.len(),
{
    if m.len() > 0 {
        assert(pairs_sorted(m.drop_last()) && pairs_distinct(m.drop_last())) by {
            assert(forall|i: int|
                0 <= i < m.drop_last().len() ==> #[trigger] m.drop_last()[i] == m[i]);
        }
        lemma_without_shape(m.drop_last(), k);
        if m.last().1 != k {
            let w0 = pairs_without(m.drop_last(), k);
            let w = w0 + seq![m.last()];
            assert forall|i: int| 0 <= i < w.len() implies exists|j: int|
                0 <= j < m.len() && m[j] == #[trigger] w[i] && m[j].1 != k by {
                if i < w0.len() {
                    let j0 = choose|j: int|
                        0 <= j < m.drop_last().len() && m.drop_last()[j] == w0[i]
                            && m.drop_last()[j].1 != k;
                    assert(m[j0] == w[i] && m[j0].1 != k);
                } else {
                    assert(m[m.len() - 1] == w[i] && m[m.len() - 1].1 != k);
                }
            }
            assert forall|i: int, j: int| 0 <= i < j < w.len() implies w[i].0 <= w[j].0 by {
                if j == w.len() - 1 {
                    let j0 = choose|q: int|
                        0 <= q < m.drop_last().len() && m.drop_last()[q] == w0[i]
                            && m.drop_last()[q].1 != k;
                    assert(m[j0].0 <= m[m.len() - 1].0);
                }
            }
            assert forall|i: int, j: int| 0 <= i < j < w.len() implies w[i] != w[j] by {
                if j == w.len() - 1 {
                    let j0 = choose|q: int|
                        0 <= q < m.drop_last().len() && m.drop_last()[q] == w0[i]
                            && m.drop_last()[q].1 != k;
                    assert(w[i] == m[j0] && w[j] == m[m.len() - 1]);
                }
            }
        } else {
            assert forall|i: int| 0 <= i < pairs_without(m, k).len() implies exists|j: int|
                0 <= j < m.len() && m[j] == #[trigger] pairs_without(m, k)[i] && m[j].1 != k by {
                let j0 = choose|j: int|
                    0 <= j < m.drop_last().len() && m.drop_last()[j] == pairs_without(m, k)[i]
                        && m.drop_last()[j].1 != k;
                assert(m[j0] == pairs_without(m, k)[i] && m[j0].1 != k);
            }
        }
    }
}

pub proof fn lemma_ins_mem(m: Seq<(i64, Seq<u8>)>, n: i64, k: Seq<u8>, n2: i64, k2: Seq<u8>)
    ensures
        pair_in(ins_pair(m, n, k), n2, k2) <==> (pair_in(m, n2, k2) || (n2 == n && k2 == k)),
    decreases m.len(),
{
    let r = ins_pair(m, n, k);
    if m.len() == 0 {
        assert(r[0] == (n, k));
        if pair_in(r, n2, k2) {
            let i = choose|i: int| 0 <= i < r.len() && r[i] == (n2, k2);
            assert(r[i] == r[0]);
        }
        assert(pair_in(r, n2, k2) <==> (pair_in(m, n2, k2) || (n2 == n && k2 == k)));
    } else if m[0].0 > n {
        assert(r == seq![(n, k)] + m);
        assert(r[0] == (n, k));
        if pair_in(m, n2, k2) {
            let i = choose|i: int| 0 <= i < m.len() && m[i] == (n2, k2);
            assert(r[i + 1] == (n2, k2));
        }
        if pair_in(r, n2, k2) {
            let i = choose|i: int| 0 <= i < r.len() && r[i] == (n2, k2);
            if i > 0 {
                assert(m[i - 1] == (n2, k2));
            }
        }
        assert(pair_in(r, n2, k2) <==> (pair_in(m, n2, k2) || (n2 == n && k2 == k)));
    } else {
        lemma_ins_mem(m.drop_first(), n, k, n2, k2);
        let rr = ins_pair(m.drop_first(), n, k);
        assert(r == seq![m[0]] + rr);
        if pair_in(r, n2, k2) {
            let i = choose|i: int| 0 <= i < r.len() && r[i] == (n2, k2);
            if i > 0 {
                assert(rr[i - 1] == (n2, k2));
            } else {
                assert(m[0] == (n2, k2));
            }
        }
        if pair_in(m, n2, k2) {
            let i = choose|i: int| 0 <= i < m.len() && m[i] == (n2, k2);
            if i > 0 {
                assert(m.drop_first()[i - 1] == (n2, k2));
                assert(pair_in(m.drop_first(), n2, k2));
            }
        }
        if pair_in(m.drop_first(), n2, k2) {
            let i = choose|i: int| 0 <= i < m.drop_first().len() && m.drop_first()[i] == (n2, k2);
            assert(m[i + 1] == (n2, k2));
        }
        if pair_in(m.drop_first(), n2, k2) || (n2 == n && k2 == k) {
            assert(pair_in(rr, n2, k2));
            let i = choose|i: int| 0 <= i < rr.len() && rr[i] == (n2, k2);
            assert(r[i + 1] == (n2, k2));
        }
        assert(pair_in(r, n2, k2) <==> (pair_in(m, n2, k2) || (n2 == n && k2 == k)));
    }
}

pub proof fn lemma_ins_shape(m: Seq<(i64, Seq<u8>)>, n: i64, k: Seq<u8>)
    requires
        pairs_sorted(m),
        pairs_distinct(m),
        !pair_in(m, n, k),
    ensures
        pairs_sorted(ins_pair(m, n, k)),
        pairs_distinct(ins_pair(m, n, k)),
        ins_pair(m, n, k).len() == m.len() + 1,
        forall|i: int|
            0 <= i < ins_pair(m, n, k).len() ==> (#[trigger] ins_pair(m, n, k)[i] == (n, k)
                || exists|j: int| 0 <= j < m.len() && m[j] == ins_pair(m, n, k)[i]),
    decreases m.len(),
{
    let r = ins_pair(m, n, k);
    if m.len() == 0 {
    } else if m[0].0 > n {
        assert(r == seq![(n, k)] + m);
    } else {
        assert(pairs_sorted(m.drop_first()) && pairs_distinct(m.drop_first())) by {
            assert(forall|i: int|
                0 <= i < m.drop_first().len() ==> #[trigger] m.drop_first()[i] == m[i + 1]);
        }
        assert(!pair_in(m.drop_first(), n, k)) by {
            if pair_in(m.drop_first(), n, k) {
                let i = choose|i: int|
                    0 <= i < m.drop_first().len() && m.drop_first()[i] == (n, k);
                assert(m[i + 1] == (n, k));
            }
        }
        lemma_ins_shape(m.drop_first(), n, k);
        let rr = ins_pair(m.drop_first(), n, k);
        assert(r == seq![m[0]] + rr);
        assert(m[0] != (n, k));
        assert forall|i: int| 0 <= i < r.len() implies (#[trigger] r[i] == (n, k) || exists|j: int|
            0 <= j < m.len() && m[j] == r[i]) by {
            if i > 0 {
                if rr[i - 1] == (n, k) {
                } else {
                    let j0 = choose|j: int|
                        0 <= j < m.drop_first().len() && m.drop_first()[j] == rr[i - 1];
                    assert(m[j0 + 1] == r[i]);
                }
            } else {
                assert(m[0] == r[0]);
            }
        }
        assert forall|i: int, j: int| 0 <= i < j < r.len() implies r[i].0 <= r[j].0 by {
            if i == 0 {
                if r[j] == (n, k) {
                    assert(m[0].0 <= n);
                } else {
                    let j0 = choose|q: int|
                        0 <= q < m.drop_first().len() && m.drop_first()[q] == r[j];
                    assert(m[0].0 <= m[j0 + 1].0);
                }
            }
        }
        assert forall|i: int, j: int| 0 <= i < j < r.len() implies r[i] != r[j] by {
            if i == 0 {
                if r[j] == (n, k) {
                } else {
                    let j0 = choose|q: int|
                        0 <= q < m.drop_first().len() && m.drop_first()[q] == r[j];
                    assert(r[j] == m[j0 + 1]);
                }
            }
        }
    }
}

/// No two pairs share a key; the shape of a sorted-set value, where a
/// member carries one score.
pub open spec fn members_distinct(m: Seq<(i64, Seq<u8>)>) -> bool {
    forall|i: int, j: int| 0 <= i < j < m.len() ==> m[i].1 != m[j].1
}

pub proof fn lemma_without_members(m: Seq<(i64, Seq<u8>)>, k: Seq<u8>)
    requires
        pairs_sorted(m),
        members_distinct(m),
    ensures
        members_distinct(pairs_without(m, k)),
        forall|pi: int| 0 <= pi < pairs_without(m, k).len() ==> (#[trigger] pairs_without(m, k)[pi]).1 != k,
{
    assert(pairs_distinct(m));
    lemma_without_shape(m, k);
    let w = pairs_without(m, k);
    assert forall|pi: int| 0 <= pi < w.len() implies (#[trigger] w[pi]).1 != k by {
        let j = choose|j: int| 0 <= j < m.len() && m[j] == w[pi] && m[j].1 != k;
    }
    assert forall|i: int, j: int| 0 <= i < j < w.len() implies w[i].1 != w[j].1 by {
        let ji = choose|q: int| 0 <= q < m.len() && m[q] == w[i] && m[q].1 != k;
        let jj = choose|q: int| 0 <= q < m.len() && m[q] == w[j] && m[q].1 != k;
        if ji == jj {
            assert(w[i] == w[j]);
            assert(pairs_distinct(w));
        } else if ji < jj {
            assert(m[ji].1 != m[jj].1);
        } else {
            assert(m[jj].1 != m[ji].1);
        }
    }
}

pub proof fn lemma_ins_members(m: Seq<(i64, Seq<u8>)>, n: i64, k: Seq<u8>)
    requires
        pairs_sorted(m),
        members_distinct(m),
        forall|pi: int| 0 <= pi < m.len() ==> (#[trigger] m[pi]).1 != k,
    ensures
        members_distinct(ins_pair(m, n, k)),
    decreases m.len(),
{
    assert(pairs_distinct(m));
    assert(!pair_in(m, n, k)) by {
        if pair_in(m, n, k) {
            let i = choose|i: int| 0 <= i < m.len() && m[i] == (n, k);
        }
    }
    lemma_ins_shape(m, n, k);
    let r = ins_pair(m, n, k);
    assert forall|i: int, j: int| 0 <= i < j < r.len() implies r[i].1 != r[j].1 by {
        if r[i] == (n, k) {
            if r[j] == (n, k) {
                assert(pairs_distinct(r));
                assert(r[i] != r[j]);
            } else {
                let jj = choose|q: int| 0 <= q < m.len() && m[q] == r[j];
                assert(m[jj].1 != k);
            }
        } else {
            let ji = choose|q: int| 0 <= q < m.len() && m[q] == r[i];
            if r[j] == (n, k) {
                assert(m[ji].1 != k);
            } else {
                let jj = choose|q: int| 0 <= q < m.len() && m[q] == r[j];
                if ji == jj {
                    assert(pairs_distinct(r));
                    assert(r[i] != r[j]);
                    assert(r[i] == m[ji] && r[j] == m[jj]);
                } else if ji < jj {
                    assert(m[ji].1 != m[jj].1);
                } else {
                    assert(m[jj].1 != m[ji].1);
                }
            }
        }
    }
}

/// Filtering a key that no pair carries changes nothing.
pub proof fn lemma_without_id(m: Seq<(i64, Seq<u8>)>, k: Seq<u8>)
    requires
        forall|pi: int| 0 <= pi < m.len() ==> (#[trigger] m[pi]).1 != k,
    ensures
        pairs_without(m, k) == m,
    decreases m.len(),
{
    if m.len() > 0 {
        assert(forall|i: int|
            0 <= i < m.drop_last().len() ==> #[trigger] m.drop_last()[i] == m[i]);
        lemma_without_id(m.drop_last(), k);
        assert(pairs_without(m, k) =~= m);
    } else {
        assert(pairs_without(m, k) =~= m);
    }
}

/// Filtering a key that some pair carries shortens the list.
pub proof fn lemma_without_present(m: Seq<(i64, Seq<u8>)>, k: Seq<u8>)
    requires
        exists|pi: int| 0 <= pi < m.len() && (#[trigger] m[pi]).1 == k,
    ensures
        pairs_without(m, k).len() < m.len(),
    decreases m.len(),
{
    let pi = choose|pi: int| 0 <= pi < m.len() && (#[trigger] m[pi]).1 == k;
    assert(forall|i: int| 0 <= i < m.drop_last().len() ==> #[trigger] m.drop_last()[i] == m[i]);
    if m.last().1 == k {
        lemma_without_len(m.drop_last(), k);
    } else {
        assert(m.drop_last()[pi] == m[pi]);
        lemma_without_present(m.drop_last(), k);
    }
}

/// Filtering never grows the list.
pub proof fn lemma_without_len(m: Seq<(i64, Seq<u8>)>, k: Seq<u8>)
    ensures
        pairs_without(m, k).len() <= m.len(),
    decreases m.len(),
{
    if m.len() > 0 {
        lemma_without_len(m.drop_last(), k);
    }
}

/// Rebuilds the pair list without key `k`.
pub fn pairs_without_build(ps: &Vec<(i64, Vec<u8>)>, k: &Vec<u8>) -> (r: Vec<(i64, Vec<u8>)>)
    ensures
        pview(r@) == pairs_without(pview(ps@), k@),
{
    let ghost pv = pview(ps@);
    let mut out: Vec<(i64, Vec<u8>)> = Vec::new();
    let mut i: usize = 0;
    while i < ps.len()
        invariant
            i <= ps.len(),
            pv == pview(ps@),
            pv.len() == ps@.len(),
            forall|q: int|
                0 <= q < pv.len() ==> (#[trigger] pv[q]).0 == ps@[q].0 && pv[q].1 == ps@[q].1@,
            pview(out@) == pairs_without(pv.subrange(0, i as int), k@),
        decreases ps.len() - i,
    {
        let p = &ps[i];
        if !crate::value::bytes_eq(&p.1, k) {
            out.push((p.0, clone_bytes(&p.1)));
        }
        i += 1;
        proof {
            assert(pv.subrange(0, i as int).drop_last() =~= pv.subrange(0, i - 1));
            assert(pv.subrange(0, i as int).last() == pv[i - 1]);
            assert(pview(out@) =~= pairs_without(pv.subrange(0, i as int), k@));
        }
    }
    proof {
        assert(pv.subrange(0, pv.len() as int) =~= pv);
    }
    out
}

/// Inserts `(n, k)` before the first pair with a larger number.
pub fn pairs_insert(ps: &mut Vec<(i64, Vec<u8>)>, n: i64, k: Vec<u8>)
    ensures
        pview(final(ps)@) == ins_pair(pview(old(ps)@), n, k@),
{
    let ghost pv = pview(ps@);
    let mut i: usize = 0;
    proof {
        assert(pv.skip(0) =~= pv);
        assert(pv.subrange(0, 0) + ins_pair(pv.skip(0), n, k@) =~= ins_pair(pv, n, k@));
    }
    while i < ps.len() && ps[i].0 <= n
        invariant
            i <= ps.len(),
            pv == pview(ps@),
            pv.len() == ps@.len(),
            forall|q: int|
                0 <= q < pv.len() ==> (#[trigger] pv[q]).0 == ps@[q].0 && pv[q].1 == ps@[q].1@,
            forall|q: int| 0 <= q < i ==> (#[trigger] pv[q]).0 <= n,
            ins_pair(pv, n, k@) == pv.subrange(0, i as int) + ins_pair(
                pv.skip(i as int),
                n,
                k@,
            ),
        decreases ps.len() - i,
    {
        proof {
            assert(pv.skip(i as int)[0] == pv[i as int]);
            assert(pv.skip(i as int).drop_first() =~= pv.skip(i as int + 1));
            assert(ins_pair(pv.skip(i as int), n, k@) == seq![pv[i as int]] + ins_pair(
                pv.skip(i as int + 1),
                n,
                k@,
            ));
            assert(pv.subrange(0, i as int) + ins_pair(pv.skip(i as int), n, k@) =~= pv.subrange(
                0,
                i as int + 1,
            ) + ins_pair(pv.skip(i as int + 1), n, k@));
        }
        i += 1;
    }
    proof {
        if i < ps@.len() {
            assert(pv.skip(i as int)[0] == pv[i as int]);
            assert(ins_pair(pv.skip(i as int), n, k@) == seq![(n, k@)] + pv.skip(i as int));
        } else {
            assert(pv.skip(i as int) =~= Seq::<(i64, Seq<u8>)>::empty());
        }
    }
    ps.insert(i, (n, k));
    proof {
        assert(pview(ps@) =~= ins_pair(pv, n, k@));
    }
}

} // verus!
