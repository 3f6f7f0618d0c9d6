//! Creating numeric indexes and the find query: `<field> <op> <literal>`
//! answered from the index when one exists, by a full scan otherwise.
use vstd::prelude::*;

use crate::index::{ins_pair, pair_in, NumIndex};
use crate::json::{digits_end, digits_val, json_top_int, ws_len};
use crate::lru::{distinct_keys, lookup, Assoc};
use crate::store::{index_entry_ok, key_maps, Store, StoreV};
use crate::value::{clone_bytes, ValueV};

verus! {

/// A find comparison.
pub enum CmpOp {
    Gt,
    Ge,
    Lt,
    Le,
    Eq,
}

pub open spec fn cmp_ok(n: i64, op: CmpOp, lit: i64) -> bool {
    match op {
        CmpOp::Gt => n > lit,
        CmpOp::Ge => n >= lit,
        CmpOp::Lt => n < lit,
        CmpOp::Le => n <= lit,
        CmpOp::Eq => n == lit,
    }
}

/// The index pairs built from the first `t` stored entries.
pub open spec fn build_pairs_upto(strs: Assoc, f: Seq<u8>, t: int) -> Seq<(i64, Seq<u8>)>
    decreases t,
{
    if t <= 0 {
        Seq::empty()
    } else {
        let rest = build_pairs_upto(strs, f, t - 1);
        match strs[t - 1].1.value {
            ValueV::Bytes(b) => match json_top_int(b, f) {
                Some(n) => ins_pair(rest, n, strs[t - 1].0),
                None => rest,
            },
            _ => rest,
        }
    }
}

/// The pairs of the first index registered under `f`.
pub open spec fn idx_lookup(
    ix: Seq<(Seq<u8>, Seq<(i64, Seq<u8>)>)>,
    f: Seq<u8>,
) -> Option<Seq<(i64, Seq<u8>)>>
    decreases ix.len(),
{
    if ix.len() == 0 {
        None
    } else if ix[0].0 == f {
        Some(ix[0].1)
    } else {
        idx_lookup(ix.drop_first(), f)
    }
}

/// Creating an index registers the field once and scans the string
/// namespace for documents that carry it.
pub open spec fn sv_create_index(s: StoreV, f: Seq<u8>) -> StoreV {
    if idx_lookup(s.indexes, f) is Some {
        s
    } else {
        StoreV {
            indexes: s.indexes.push((f, build_pairs_upto(s.strs, f, s.strs.len() as int))),
            ..s
        }
    }
}

/// The keys of the index pairs matching the comparison, index order.
pub open spec fn sel_pairs(m: Seq<(i64, Seq<u8>)>, op: CmpOp, lit: i64) -> Seq<Seq<u8>>
    decreases m.len(),
{
    if m.len() == 0 {
        Seq::empty()
    } else if cmp_ok(m.last().0, op, lit) {
        sel_pairs(m.drop_last(), op, lit) + seq![m.last().1]
    } else {
        sel_pairs(m.drop_last(), op, lit)
    }
}

/// The matching keys of a full scan, recency order.
pub open spec fn scan_keys(strs: Assoc, f: Seq<u8>, op: CmpOp, lit: i64) -> Seq<Seq<u8>>
    decreases strs.len(),
{
    if strs.len() == 0 {
        Seq::empty()
    } else {
        let rest = scan_keys(strs.drop_last(), f, op, lit);
        match strs.last().1.value {
            ValueV::Bytes(b) => match json_top_int(b, f) {
                Some(n) => if cmp_ok(n, op, lit) {
                    rest + seq![strs.last().0]
                } else {
                    rest
                },
                None => rest,
            },
            _ => rest,
        }
    }
}

/// What a find returns: the index range when the field is indexed, the
/// scan otherwise.
pub open spec fn find_keys(s: StoreV, f: Seq<u8>, op: CmpOp, lit: i64) -> Seq<Seq<u8>> {
    match idx_lookup(s.indexes, f) {
        Some(m) => sel_pairs(m, op, lit),
        None => scan_keys(s.strs, f, op, lit),
    }
}

/// The pairs built from a scan are a consistent index for the field.
pub proof fn lemma_build_ok(strs: Assoc, f: Seq<u8>, t: int)
    requires
        distinct_keys(strs),
        0 <= t <= strs.len(),
    ensures
        crate::index::pairs_sorted(build_pairs_upto(strs, f, t)),
        crate::index::pairs_distinct(build_pairs_upto(strs, f, t)),
        forall|pi: int|
            0 <= pi < build_pairs_upto(strs, f, t).len() ==> exists|ki: int|
                0 <= ki < t && (#[trigger] build_pairs_upto(strs, f, t)[pi]).1 == strs[ki].0,
        forall|pi: int|
            0 <= pi < build_pairs_upto(strs, f, t).len() ==> key_maps(
                strs,
                (#[trigger] build_pairs_upto(strs, f, t)[pi]).1,
                f,
                build_pairs_upto(strs, f, t)[pi].0,
            ),
        forall|ki: int| 0 <= ki < t ==> crate::store::str_indexed(
            strs,
            build_pairs_upto(strs, f, t),
            f,
            ki,
        ),
    decreases t,
{
    if t > 0 {
        lemma_build_ok(strs, f, t - 1);
        let rest = build_pairs_upto(strs, f, t - 1);
        let cur = build_pairs_upto(strs, f, t);
        match strs[t - 1].1.value {
            ValueV::Bytes(b) => {
                match json_top_int(b, f) {
                    Some(n) => {
                        let k = strs[t - 1].0;
                        assert(!pair_in(rest, n, k)) by {
                            if pair_in(rest, n, k) {
                                let pi = choose|pi: int|
                                    0 <= pi < rest.len() && rest[pi] == (n, k);
                                let ki = choose|ki: int|
                                    0 <= ki < t - 1 && (#[trigger] rest[pi]).1 == strs[ki].0;
                            }
                        }
                        crate::index::lemma_ins_shape(rest, n, k);
                        crate::lru::lemma_lookup_at(strs, k, t - 1);
                        assert forall|pi: int|
                            0 <= pi < cur.len() implies (exists|ki: int|
                            0 <= ki < t && (#[trigger] cur[pi]).1 == strs[ki].0) && key_maps(
                            strs,
                            cur[pi].1,
                            f,
                            cur[pi].0,
                        ) by {
                            if cur[pi] == (n, k) {
                                assert(cur[pi].1 == strs[t - 1].0);
                            } else {
                                let j = choose|j: int| 0 <= j < rest.len() && rest[j] == cur[pi];
                                let ki = choose|ki: int|
                                    0 <= ki < t - 1 && (#[trigger] rest[j]).1 == strs[ki].0;
                                assert(cur[pi].1 == strs[ki].0);
                                assert(key_maps(strs, rest[j].1, f, rest[j].0));
                            }
                        }
                        assert forall|ki: int|
                            0 <= ki < t implies crate::store::str_indexed(strs, cur, f, ki) by {
                            if ki == t - 1 {
                                crate::index::lemma_ins_mem(rest, n, k, n, k);
                            } else {
                                match strs[ki].1.value {
                                    ValueV::Bytes(b2) => {
                                        match json_top_int(b2, f) {
                                            Some(n2) => {
                                                assert(crate::store::str_indexed(
                                                    strs,
                                                    rest,
                                                    f,
                                                    ki,
                                                ));
                                                crate::index::lemma_ins_mem(
                                                    rest,
                                                    n,
                                                    k,
                                                    n2,
                                                    strs[ki].0,
                                                );
                                            },
                                            None => {},
                                        }
                                    },
                                    _ => {},
                                }
                            }
                        }
                    },
                    None => {},
                }
            },
            _ => {},
        }
    }
}

impl Store {
    /// Registers a numeric index on a field (once) and fills it from
    /// the stored documents.
    pub fn create_numeric_index(&mut self, field: Vec<u8>)
        requires
            old(self).wf(),
            field@.len() <= 0xffff_ffff,
        ensures
            final(self).wf(),
            final(self)@ == sv_create_index(old(self)@, field@),
    {
        let ghost s0 = self@;
        let mut fi: usize = 0;
        proof {
            assert(s0.indexes.skip(0) =~= s0.indexes);
        }
        while fi < self.indexes.len()
            invariant
                fi <= self.indexes@.len(),
                self@ == s0,
                s0 == old(self)@,
                self.strs.wf(),
                self.bins.wf(),
                self.bins.cap == self.strs.cap,
                crate::store::sv_wf(s0),
                idx_lookup(s0.indexes, field@) == idx_lookup(
                    s0.indexes.skip(fi as int),
                    field@,
                ),
                forall|q: int| 0 <= q < fi ==> (#[trigger] s0.indexes[q]).0 != field@,
            decreases self.indexes.len() - fi,
        {
            proof {
                assert(s0.indexes.skip(fi as int)[0] == s0.indexes[fi as int]);
                assert(s0.indexes.skip(fi as int).drop_first() =~= s0.indexes.skip(
                    fi as int + 1,
                ));
            }
            if crate::value::bytes_eq(&self.indexes[fi].field, &field) {
                proof {
                    assert(self@ =~= sv_create_index(s0, field@));
                }
                return ;
            }
            fi += 1;
        }
        proof {
            assert(s0.indexes.skip(self.indexes@.len() as int) =~= Seq::<
                (Seq<u8>, Seq<(i64, Seq<u8>)>),
            >::empty());
        }
        let mut pairs: Vec<(i64, Vec<u8>)> = Vec::new();
        let mut i: usize = 0;
        proof {
            assert(crate::index::pview(pairs@) =~= build_pairs_upto(s0.strs, field@, 0));
        }
        while i < self.strs.items.len()
            invariant
                i <= self.strs.items@.len(),
                self@ == s0,
                s0 == old(self)@,
                self.strs.wf(),
                self.bins.wf(),
                self.bins.cap == self.strs.cap,
                crate::store::sv_wf(s0),
                s0.strs.len() == self.strs.items@.len(),
                crate::index::pview(pairs@) == build_pairs_upto(s0.strs, field@, i as int),
            decreases self.strs.items.len() - i,
        {
            let item = &self.strs.items[i];
            proof {
                assert(s0.strs[i as int] == (item.0@, item.1@));
            }
            match &item.1.value {
                crate::value::Value::Bytes(b) => {
                    match crate::json_ops::top_int(b, &field) {
                        Some(n) => {
                            let kc = clone_bytes(&item.0);
                            crate::index::pairs_insert(&mut pairs, n, kc);
                        },
                        None => {},
                    }
                },
                _ => {},
            }
            i += 1;
        }
        let ghost built = build_pairs_upto(s0.strs, field@, s0.strs.len() as int);
        proof {
            lemma_build_ok(s0.strs, field@, s0.strs.len() as int);
        }
        self.indexes.push(NumIndex { field, pairs });
        proof {
            assert(crate::index::ixs_view(self.indexes@) =~= s0.indexes.push((field@, built)));
            assert(self@ =~= sv_create_index(s0, field@));
            assert(crate::store::sv_wf(self@)) by {
                assert forall|a: int|
                    0 <= a < self@.indexes.len() implies index_entry_ok(
                    self@.strs,
                    (#[trigger] self@.indexes[a]).0,
                    self@.indexes[a].1,
                ) by {
                    if a < s0.indexes.len() {
                        assert(self@.indexes[a] == s0.indexes[a]);
                        assert(index_entry_ok(s0.strs, s0.indexes[a].0, s0.indexes[a].1));
                    } else {
                        assert(self@.indexes[a] == (field@, built));
                    }
                }
            }
        }
    }
}

/// The end of the non-whitespace token at `i`.
pub open spec fn tok_end(q: Seq<u8>, i: int) -> int
    decreases q.len() - i,
{
    if 0 <= i < q.len() && !crate::json::is_ws(q[i]) {
        tok_end(q, i + 1)
    } else {
        i
    }
}

/// Parses an integer literal spanning exactly `[a, b)`.
pub open spec fn parse_lit(q: Seq<u8>, a: int, b: int) -> Option<i64> {
    let d0 = if q[a] == 0x2d {
        a + 1
    } else {
        a
    };
    if digits_end(q, d0) == b && b > d0 && !(q[d0] == 0x30 && b > d0 + 1) {
        let v = digits_val(q, d0, b);
        if q[a] == 0x2d {
            if -v >= i64::MIN {
                Some((-v) as i64)
            } else {
                None
            }
        } else {
            if v <= i64::MAX {
                Some(v as i64)
            } else {
                None
            }
        }
    } else {
        None
    }
}

/// Parses `<field> <op> <literal>`: the field, the comparison, and the
/// literal when it is an integer. `None` when the shape or the operator
/// is wrong.
pub open spec fn parse_query(q: Seq<u8>) -> Option<(Seq<u8>, CmpOp, Option<i64>)> {
    let t1s = 0 + ws_len(q, 0) as int;
    let t1e = tok_end(q, t1s);
    let t2s = t1e + ws_len(q, t1e) as int;
    let t2e = tok_end(q, t2s);
    let t3s = t2e + ws_len(q, t2e) as int;
    let t3e = tok_end(q, t3s);
    if t1e > t1s && t2e > t2s && t3e > t3s && t3e + ws_len(q, t3e) == q.len() {
        let opb = q.subrange(t2s, t2e);
        let op: Option<CmpOp> = if opb =~= seq![0x3eu8] {
            Some(CmpOp::Gt)
        } else if opb =~= seq![0x3eu8, 0x3du8] {
            Some(CmpOp::Ge)
        } else if opb =~= seq![0x3cu8] {
            Some(CmpOp::Lt)
        } else if opb =~= seq![0x3cu8, 0x3du8] {
            Some(CmpOp::Le)
        } else if opb =~= seq![0x3du8, 0x3du8] {
            Some(CmpOp::Eq)
        } else {
            None
        };
        match op {
            Some(o) => Some((q.subrange(t1s, t1e), o, parse_lit(q, t3s, t3e))),
            None => None,
        }
    } else {
        None
    }
}

/// The end of the token at `i`, executable.
pub(crate) fn scan_tok(q: &Vec<u8>, i: usize) -> (r: usize)
    requires
        i <= q.len(),
    ensures
        r == tok_end(q@, i as int),
        i <= r <= q.len(),
{
    let mut p = i;
    while p < q.len() && !(q[p] == 0x20 || q[p] == 0x09 || q[p] == 0x0a || q[p] == 0x0d)
        invariant
            i <= p <= q.len(),
            tok_end(q@, i as int) == tok_end(q@, p as int),
        decreases q.len() - p,
    {
        p += 1;
    }
    p
}

/// An index holds at most one pair per stored key, so no more pairs
/// than stored entries.
proof fn lemma_pairs_len_bound(strs: Assoc, f: Seq<u8>, m: Seq<(i64, Seq<u8>)>)
    requires
        index_entry_ok(strs, f, m),
        distinct_keys(strs),
    ensures
        m.len() <= strs.len(),
{
    broadcast use vstd::seq_lib::seq_to_set_is_finite;

    let mk = Seq::new(m.len(), |i: int| m[i].1);
    let sk = Seq::new(strs.len(), |i: int| strs[i].0);
    assert(mk.no_duplicates()) by {
        assert forall|i: int, j: int| 0 <= i < j < mk.len() implies mk[i] != mk[j] by {
            if mk[i] == mk[j] {
                assert(key_maps(strs, m[i].1, f, m[i].0));
                assert(key_maps(strs, m[j].1, f, m[j].0));
                assert(m[i].0 == m[j].0);
                assert(m[i] == m[j]);
                assert(crate::index::pairs_distinct(m));
            }
        }
    }
    assert(mk.to_set().subset_of(sk.to_set())) by {
        assert forall|x: Seq<u8>| mk.to_set().contains(x) implies sk.to_set().contains(x) by {
            let i = choose|i: int| 0 <= i < mk.len() && mk[i] == x;
            assert(key_maps(strs, m[i].1, f, m[i].0));
            crate::lru::lemma_lookup_absent(strs, x);
            let ki = choose|ki: int| 0 <= ki < strs.len() && (#[trigger] strs[ki]).0 == x;
            assert(sk[ki] == x);
            assert(sk.contains(x));
        }
    }
    mk.unique_seq_to_set();
    sk.lemma_cardinality_of_set();
    vstd::set_lib::lemma_len_subset(mk.to_set(), sk.to_set());
}

impl Store {
    /// Answers `<field> <op> <literal>`: the keys whose stored JSON
    /// document carries the field as a matching integer, framed. A
    /// malformed query reads as empty; a non-integer literal matches
    /// nothing.
    pub fn find(&self, query: &Vec<u8>) -> (r: Vec<u8>)
        requires
            self.wf(),
        ensures
            ({
                match parse_query(query@) {
                    None => r@ == Seq::<u8>::empty(),
                    Some((f, op, litopt)) => match litopt {
                        None => r@ == crate::frames::items_frame(Seq::empty()),
                        Some(lit) => r@ == crate::frames::items_frame(
                            find_keys(self@, f, op, lit),
                        ),
                    },
                }
            }),
    {
        let t1s = crate::json_ops::skip_ws(query, 0);
        let t1e = scan_tok(query, t1s);
        let t2s = crate::json_ops::skip_ws(query, t1e);
        let t2e = scan_tok(query, t2s);
        let t3s = crate::json_ops::skip_ws(query, t2e);
        let t3e = scan_tok(query, t3s);
        if !(t1e > t1s && t2e > t2s && t3e > t3s && crate::json_ops::skip_ws(query, t3e)
            == query.len()) {
            return Vec::new();
        }
        let op: Option<CmpOp> = if t2e - t2s == 1 && query[t2s] == 0x3e {
            Some(CmpOp::Gt)
        } else if t2e - t2s == 2 && query[t2s] == 0x3e && query[t2s + 1] == 0x3d {
            Some(CmpOp::Ge)
        } else if t2e - t2s == 1 && query[t2s] == 0x3c {
            Some(CmpOp::Lt)
        } else if t2e - t2s == 2 && query[t2s] == 0x3c && query[t2s + 1] == 0x3d {
            Some(CmpOp::Le)
        } else if t2e - t2s == 2 && query[t2s] == 0x3d && query[t2s + 1] == 0x3d {
            Some(CmpOp::Eq)
        } else {
            None
        };
        proof {
            let opb = query@.subrange(t2s as int, t2e as int);
            assert(opb.len() == t2e - t2s);
            if t2e - t2s >= 1 {
                assert(opb[0] == query@[t2s as int]);
            }
            if t2e - t2s >= 2 {
                assert(opb[1] == query@[t2s as int + 1]);
            }
            if t2e - t2s == 1 {
                assert(opb =~= seq![query@[t2s as int]]);
            }
            if t2e - t2s == 2 {
                assert(opb =~= seq![query@[t2s as int], query@[t2s as int + 1]]);
            }
        }
        let op = match op {
            Some(o) => o,
            None => {
                return Vec::new();
            },
        };
        let f = crate::json_ops::sub_bytes(query, t1s, t1e);
        // the literal
        let neg = query[t3s] == 0x2d;
        let d0 = if neg {
            t3s + 1
        } else {
            t3s
        };
        let de = crate::json_ops::scan_digits(query, d0);
        let lit: Option<i64> = if de == t3e && t3e > d0 && !(query[d0] == 0x30 && t3e > d0 + 1) {
            match crate::json_ops::parse_digits_u64(query, d0, t3e) {
                None => None,
                Some(v) => {
                    if neg {
                        if v <= 0x8000000000000000u64 {
                            Some(
                                if v == 0x8000000000000000u64 {
                                    i64::MIN
                                } else {
                                    -(v as i64)
                                },
                            )
                        } else {
                            None
                        }
                    } else {
                        if v <= 0x7fffffffffffffffu64 {
                            Some(v as i64)
                        } else {
                            None
                        }
                    }
                },
            }
        } else {
            None
        };
        let lit = match lit {
            None => {
                let items: Vec<Vec<u8>> = Vec::new();
                proof {
                    assert(crate::value::bytes_seq_view(items@) =~= Seq::<Seq<u8>>::empty());
                }
                return crate::frames::build_items_frame(&items);
            },
            Some(l) => l,
        };
        // the indexed path
        let ghost s0 = self@;
        let mut fi: usize = 0;
        proof {
            assert(s0.indexes.skip(0) =~= s0.indexes);
        }
        while fi < self.indexes.len()
            invariant
                fi <= self.indexes@.len(),
                s0 == self@,
                self.wf(),
                idx_lookup(s0.indexes, f@) == idx_lookup(s0.indexes.skip(fi as int), f@),
                f@ == query@.subrange(t1s as int, t1e as int),
                parse_query(query@) == Some((f@, op, Some(lit))),
            decreases self.indexes.len() - fi,
        {
            proof {
                assert(s0.indexes.skip(fi as int)[0] == s0.indexes[fi as int]);
                assert(s0.indexes.skip(fi as int).drop_first() =~= s0.indexes.skip(
                    fi as int + 1,
                ));
            }
            if crate::value::bytes_eq(&self.indexes[fi].field, &f) {
                let ps = &self.indexes[fi].pairs;
                let ghost m = s0.indexes[fi as int].1;
                proof {
                    assert(index_entry_ok(s0.strs, s0.indexes[fi as int].0, m));
                    lemma_pairs_len_bound(s0.strs, s0.indexes[fi as int].0, m);
                }
                let mut items: Vec<Vec<u8>> = Vec::new();
                let mut j: usize = 0;
                proof {
                    assert(crate::value::bytes_seq_view(items@) =~= sel_pairs(
                        m.subrange(0, 0),
                        op,
                        lit,
                    ));
                }
                while j < ps.len()
                    invariant
                        j <= ps@.len(),
                        s0 == self@,
                        self.wf(),
                        0 <= fi < s0.indexes.len(),
                        m == s0.indexes[fi as int].1,
                        ps == &self.indexes@[fi as int].pairs,
                        m == crate::index::pview(ps@),
                        crate::value::bytes_seq_view(items@) == sel_pairs(
                            m.subrange(0, j as int),
                            op,
                            lit,
                        ),
                        items@.len() <= j,
                        m.len() <= s0.strs.len() <= 0xffff_ffff,
                        parse_query(query@) == Some((f@, op, Some(lit))),
                        idx_lookup(s0.indexes, f@) == Some(m),
                        forall|q: int|
                            0 <= q < items@.len() ==> (#[trigger] items@[q])@.len()
                                <= 0xffff_ffff,
                    decreases ps.len() - j,
                {
                    proof {
                        assert(m.subrange(0, j as int + 1).drop_last() =~= m.subrange(
                            0,
                            j as int,
                        ));
                        assert(m.subrange(0, j as int + 1).last() == m[j as int]);
                        assert(m[j as int] == (ps@[j as int].0, ps@[j as int].1@));
                    }
                    let p = &ps[j];
                    let keep = match op {
                        CmpOp::Gt => p.0 > lit,
                        CmpOp::Ge => p.0 >= lit,
                        CmpOp::Lt => p.0 < lit,
                        CmpOp::Le => p.0 <= lit,
                        CmpOp::Eq => p.0 == lit,
                    };
                    if keep {
                        proof {
                            assert(index_entry_ok(s0.strs, s0.indexes[fi as int].0, m));
                            assert(key_maps(s0.strs, m[j as int].1, s0.indexes[fi as int].0, m[
                                j as int].0));
                            crate::lru::lemma_lookup_absent(s0.strs, m[j as int].1);
                            let ki = choose|ki: int|
                                0 <= ki < s0.strs.len() && (#[trigger] s0.strs[ki]).0 == m[
                                j as int].1;
                            assert(crate::store::entries_wf(s0.strs) && 0 <= ki
                                < s0.strs.len());
                        }
                        let ghost pre = items@;
                        items.push(clone_bytes(&p.1));
                        proof {
                            assert(crate::value::bytes_seq_view(items@)
                                =~= crate::value::bytes_seq_view(pre).push(m[j as int].1));
                        }
                    }
                    j += 1;
                }
                proof {
                    assert(m.subrange(0, m.len() as int) =~= m);
                }
                return crate::frames::build_items_frame(&items);
            }
            fi += 1;
        }
        proof {
            assert(s0.indexes.skip(self.indexes@.len() as int) =~= Seq::<
                (Seq<u8>, Seq<(i64, Seq<u8>)>),
            >::empty());
        }
        // the fallback scan
        let mut items: Vec<Vec<u8>> = Vec::new();
        let mut i: usize = 0;
        proof {
            assert(crate::value::bytes_seq_view(items@) =~= scan_keys(
                s0.strs.subrange(0, 0),
                f@,
                op,
                lit,
            ));
        }
        while i < self.strs.items.len()
            invariant
                i <= self.strs.items@.len(),
                s0 == self@,
                self.wf(),
                s0.strs.len() == self.strs.items@.len(),
                f@ == query@.subrange(t1s as int, t1e as int),
                parse_query(query@) == Some((f@, op, Some(lit))),
                idx_lookup(s0.indexes, f@) is None,
                crate::value::bytes_seq_view(items@) == scan_keys(
                    s0.strs.subrange(0, i as int),
                    f@,
                    op,
                    lit,
                ),
                items@.len() <= i,
                forall|q: int|
                    0 <= q < items@.len() ==> (#[trigger] items@[q])@.len() <= 0xffff_ffff,
            decreases self.strs.items.len() - i,
        {
            proof {
                assert(s0.strs.subrange(0, i as int + 1).drop_last() =~= s0.strs.subrange(
                    0,
                    i as int,
                ));
                assert(s0.strs.subrange(0, i as int + 1).last() == s0.strs[i as int]);
                assert(s0.strs[i as int] == (
                    self.strs.items@[i as int].0@,
                    self.strs.items@[i as int].1@,
                ));
            }
            let item = &self.strs.items[i];
            match &item.1.value {
                crate::value::Value::Bytes(b) => {
                    match crate::json_ops::top_int(b, &f) {
                        Some(n) => {
                            let keep = match op {
                                CmpOp::Gt => n > lit,
                                CmpOp::Ge => n >= lit,
                                CmpOp::Lt => n < lit,
                                CmpOp::Le => n <= lit,
                                CmpOp::Eq => n == lit,
                            };
                            if keep {
                                proof {
                                    assert(crate::store::entries_wf(s0.strs));
                                    assert(0 <= (i as int) && (i as int) < s0.strs.len());
                                }
                                let ghost pre = items@;
                                items.push(clone_bytes(&item.0));
                                proof {
                                    assert(crate::value::bytes_seq_view(items@)
                                        =~= crate::value::bytes_seq_view(pre).push(
                                        s0.strs[i as int].0,
                                    ));
                                }
                            }
                        },
                        None => {},
                    }
                },
                _ => {},
            }
            i += 1;
        }
        proof {
            assert(s0.strs.subrange(0, s0.strs.len() as int) =~= s0.strs);
        }
        crate::frames::build_items_frame(&items)
    }
}

} // verus!
