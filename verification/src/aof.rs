//! The append-only log: one binary record per mutation, `[opcode:u8]`
//! followed by length-prefixed fields, all integers little-endian. A
//! truncated or malformed tail ends replay cleanly.
use vstd::prelude::*;

use crate::frames::{push_le32, push_le64, spec_le32, spec_le64};
use crate::json_ops::push_bytes;

verus! {

/// One log record as owned values. Sorted-set scores travel as their
/// 64-bit order key; stream records carry the entry id.
pub enum RecE {
    SetS(Vec<u8>, Vec<u8>),
    Remove(Vec<u8>),
    Clear,
    Expire(Vec<u8>, u64),
    Hset(Vec<u8>, Vec<u8>, Vec<u8>),
    Lpush(Vec<u8>, Vec<u8>),
    Sadd(Vec<u8>, Vec<u8>),
    Zadd(Vec<u8>, u64, Vec<u8>),
    Xadd(Vec<u8>, u64, Vec<u8>),
    SetB(Vec<u8>, Vec<u8>),
    RemoveB(Vec<u8>),
}

/// The spec image of a record.
#[verifier::ext_equal]
pub enum RecV {
    SetS(Seq<u8>, Seq<u8>),
    Remove(Seq<u8>),
    Clear,
    Expire(Seq<u8>, u64),
    Hset(Seq<u8>, Seq<u8>, Seq<u8>),
    Lpush(Seq<u8>, Seq<u8>),
    Sadd(Seq<u8>, Seq<u8>),
    Zadd(Seq<u8>, u64, Seq<u8>),
    Xadd(Seq<u8>, u64, Seq<u8>),
    SetB(Seq<u8>, Seq<u8>),
    RemoveB(Seq<u8>),
}

pub open spec fn rec_v(r: RecE) -> RecV {
    match r {
        RecE::SetS(k, v) => RecV::SetS(k@, v@),
        RecE::Remove(k) => RecV::Remove(k@),
        RecE::Clear => RecV::Clear,
        RecE::Expire(k, t) => RecV::Expire(k@, t),
        RecE::Hset(k, f, v) => RecV::Hset(k@, f@, v@),
        RecE::Lpush(k, v) => RecV::Lpush(k@, v@),
        RecE::Sadd(k, v) => RecV::Sadd(k@, v@),
        RecE::Zadd(k, s, m) => RecV::Zadd(k@, s, m@),
        RecE::Xadd(k, id, p) => RecV::Xadd(k@, id, p@),
        RecE::SetB(k, v) => RecV::SetB(k@, v@),
        RecE::RemoveB(k) => RecV::RemoveB(k@),
    }
}

/// A length-prefixed field.
pub open spec fn lp(b: Seq<u8>) -> Seq<u8> {
    spec_le32(b.len() as u32) + b
}

/// The encoded bytes of a record.
pub open spec fn enc(r: RecV) -> Seq<u8> {
    match r {
        RecV::SetS(k, v) => seq![1u8] + lp(k) + lp(v),
        RecV::Remove(k) => seq![2u8] + lp(k),
        RecV::Clear => seq![3u8],
        RecV::Expire(k, t) => seq![4u8] + lp(k) + spec_le64(t),
        RecV::Hset(k, f, v) => seq![5u8] + lp(k) + lp(f) + lp(v),
        RecV::Lpush(k, v) => seq![6u8] + lp(k) + lp(v),
        RecV::Sadd(k, v) => seq![7u8] + lp(k) + lp(v),
        RecV::Zadd(k, s, m) => seq![8u8] + lp(k) + spec_le64(s) + lp(m),
        RecV::Xadd(k, id, p) => seq![9u8] + lp(k) + spec_le64(id) + lp(p),
        RecV::SetB(k, v) => seq![10u8] + lp(k) + lp(v),
        RecV::RemoveB(k) => seq![11u8] + lp(k),
    }
}

/// Every field of the record fits its 32-bit length prefix.
pub open spec fn rec_wf(r: RecV) -> bool {
    match r {
        RecV::SetS(k, v) => k.len() <= 0xffff_ffff && v.len() <= 0xffff_ffff,
        RecV::Remove(k) => k.len() <= 0xffff_ffff,
        RecV::Clear => true,
        RecV::Expire(k, _) => k.len() <= 0xffff_ffff,
        RecV::Hset(k, f, v) => k.len() <= 0xffff_ffff && f.len() <= 0xffff_ffff && v.len()
            <= 0xffff_ffff,
        RecV::Lpush(k, v) => k.len() <= 0xffff_ffff && v.len() <= 0xffff_ffff,
        RecV::Sadd(k, v) => k.len() <= 0xffff_ffff && v.len() <= 0xffff_ffff,
        RecV::Zadd(k, _, m) => k.len() <= 0xffff_ffff && m.len() <= 0xffff_ffff,
        RecV::Xadd(k, _, p) => k.len() <= 0xffff_ffff && p.len() <= 0xffff_ffff,
        RecV::SetB(k, v) => k.len() <= 0xffff_ffff && v.len() <= 0xffff_ffff,
        RecV::RemoveB(k) => k.len() <= 0xffff_ffff,
    }
}

/// Appends a length-prefixed field.
fn push_lp(out: &mut Vec<u8>, b: &Vec<u8>)
    requires
        b@.len() <= 0xffff_ffff,
    ensures
        final(out)@ == old(out)@ + lp(b@),
{
    push_le32(out, b.len() as u32);
    push_bytes(out, b);
    proof {
        assert(out@ =~= old(out)@ + lp(b@));
    }
}

/// Appends the encoded bytes of a record.
pub fn encode_into(out: &mut Vec<u8>, r: &RecE)
    requires
        rec_wf(rec_v(*r)),
    ensures
        final(out)@ == old(out)@ + enc(rec_v(*r)),
{
    match r {
        RecE::SetS(k, v) => {
            out.push(1);
            push_lp(out, k);
            push_lp(out, v);
        },
        RecE::Remove(k) => {
            out.push(2);
            push_lp(out, k);
        },
        RecE::Clear => {
            out.push(3);
        },
        RecE::Expire(k, t) => {
            out.push(4);
            push_lp(out, k);
            push_le64(out, *t);
        },
        RecE::Hset(k, f, v) => {
            out.push(5);
            push_lp(out, k);
            push_lp(out, f);
            push_lp(out, v);
        },
        RecE::Lpush(k, v) => {
            out.push(6);
            push_lp(out, k);
            push_lp(out, v);
        },
        RecE::Sadd(k, v) => {
            out.push(7);
            push_lp(out, k);
            push_lp(out, v);
        },
        RecE::Zadd(k, s, m) => {
            out.push(8);
            push_lp(out, k);
            push_le64(out, *s);
            push_lp(out, m);
        },
        RecE::Xadd(k, id, p) => {
            out.push(9);
            push_lp(out, k);
            push_le64(out, *id);
            push_lp(out, p);
        },
        RecE::SetB(k, v) => {
            out.push(10);
            push_lp(out, k);
            push_lp(out, v);
        },
        RecE::RemoveB(k) => {
            out.push(11);
            push_lp(out, k);
        },
    }
    proof {
        assert(out@ =~= old(out)@ + enc(rec_v(*r)));
    }
}

/// The 32-bit value of four little-endian bytes.
pub open spec fn le32_val(b0: u8, b1: u8, b2: u8, b3: u8) -> u32 {
    (b0 as u32) | ((b1 as u32) << 8) | ((b2 as u32) << 16) | ((b3 as u32) << 24)
}

/// The 64-bit value of eight little-endian bytes.
pub open spec fn le64_val(b0: u8, b1: u8, b2: u8, b3: u8, b4: u8, b5: u8, b6: u8, b7: u8) -> u64 {
    (b0 as u64) | ((b1 as u64) << 8) | ((b2 as u64) << 16) | ((b3 as u64) << 24) | ((b4 as u64)
        << 32) | ((b5 as u64) << 40) | ((b6 as u64) << 48) | ((b7 as u64) << 56)
}

/// Reads a 32-bit little-endian integer at `i`.
pub open spec fn rd32(b: Seq<u8>, i: int) -> Option<(u32, int)> {
    if 0 <= i && i + 4 <= b.len() {
        Some((le32_val(b[i], b[i + 1], b[i + 2], b[i + 3]), i + 4))
    } else {
        None
    }
}

/// Reads a 64-bit little-endian integer at `i`.
pub open spec fn rd64(b: Seq<u8>, i: int) -> Option<(u64, int)> {
    if 0 <= i && i + 8 <= b.len() {
        Some(
            (
                le64_val(
                    b[i],
                    b[i + 1],
                    b[i + 2],
                    b[i + 3],
                    b[i + 4],
                    b[i + 5],
                    b[i + 6],
                    b[i + 7],
                ),
                i + 8,
            ),
        )
    } else {
        None
    }
}

/// Reads a length-prefixed field at `i`.
pub open spec fn rd_field(b: Seq<u8>, i: int) -> Option<(Seq<u8>, int)> {
    match rd32(b, i) {
        Some((n, p)) => if p + n <= b.len() {
            Some((b.subrange(p, p + n), p + n))
        } else {
            None
        },
        None => None,
    }
}

/// Decodes one record at `i`: the record and the position after it, or
/// `None` on a truncated or malformed tail.
pub open spec fn dec_at(b: Seq<u8>, i: int) -> Option<(RecV, int)> {
    if !(0 <= i < b.len()) {
        None
    } else {
        let op = b[i];
        if op == 1 || op == 5 || op == 6 || op == 7 || op == 10 {
            match rd_field(b, i + 1) {
                Some((k, p1)) => if op == 5 {
                    match rd_field(b, p1) {
                        Some((f, p2)) => match rd_field(b, p2) {
                            Some((v, p3)) => Some((RecV::Hset(k, f, v), p3)),
                            None => None,
                        },
                        None => None,
                    }
                } else {
                    match rd_field(b, p1) {
                        Some((v, p2)) => Some(
                            (
                                if op == 1 {
                                    RecV::SetS(k, v)
                                } else if op == 6 {
                                    RecV::Lpush(k, v)
                                } else if op == 7 {
                                    RecV::Sadd(k, v)
                                } else {
                                    RecV::SetB(k, v)
                                },
                                p2,
                            ),
                        ),
                        None => None,
                    }
                },
                None => None,
            }
        } else if op == 2 || op == 11 {
            match rd_field(b, i + 1) {
                Some((k, p1)) => Some(
                    (
                        if op == 2 {
                            RecV::Remove(k)
                        } else {
                            RecV::RemoveB(k)
                        },
                        p1,
                    ),
                ),
                None => None,
            }
        } else if op == 3 {
            Some((RecV::Clear, i + 1))
        } else if op == 4 {
            match rd_field(b, i + 1) {
                Some((k, p1)) => match rd64(b, p1) {
                    Some((t, p2)) => Some((RecV::Expire(k, t), p2)),
                    None => None,
                },
                None => None,
            }
        } else if op == 8 || op == 9 {
            match rd_field(b, i + 1) {
                Some((k, p1)) => match rd64(b, p1) {
                    Some((n, p2)) => match rd_field(b, p2) {
                        Some((m, p3)) => Some(
                            (
                                if op == 8 {
                                    RecV::Zadd(k, n, m)
                                } else {
                                    RecV::Xadd(k, n, m)
                                },
                                p3,
                            ),
                        ),
                        None => None,
                    },
                    None => None,
                },
                None => None,
            }
        } else {
            None
        }
    }
}

proof fn lemma_le32_rt(n: u32)
    ensures
        le32_val(
            (n & 0xff) as u8,
            ((n >> 8) & 0xff) as u8,
            ((n >> 16) & 0xff) as u8,
            ((n >> 24) & 0xff) as u8,
        ) == n,
{
    assert((((n & 0xff) as u8) as u32) | ((((n >> 8) & 0xff) as u8) as u32) << 8 | ((((n >> 16)
        & 0xff) as u8) as u32) << 16 | ((((n >> 24) & 0xff) as u8) as u32) << 24 == n)
        by (bit_vector);
}

proof fn lemma_le64_rt(n: u64)
    ensures
        le64_val(
            (n & 0xff) as u8,
            ((n >> 8) & 0xff) as u8,
            ((n >> 16) & 0xff) as u8,
            ((n >> 24) & 0xff) as u8,
            ((n >> 32) & 0xff) as u8,
            ((n >> 40) & 0xff) as u8,
            ((n >> 48) & 0xff) as u8,
            ((n >> 56) & 0xff) as u8,
        ) == n,
{
    assert((((n & 0xff) as u8) as u64) | ((((n >> 8) & 0xff) as u8) as u64) << 8 | ((((n >> 16)
        & 0xff) as u8) as u64) << 16 | ((((n >> 24) & 0xff) as u8) as u64) << 24 | ((((n >> 32)
        & 0xff) as u8) as u64) << 32 | ((((n >> 40) & 0xff) as u8) as u64) << 40 | ((((n >> 48)
        & 0xff) as u8) as u64) << 48 | ((((n >> 56) & 0xff) as u8) as u64) << 56 == n)
        by (bit_vector);
}

proof fn lemma_rd_field_at(b: Seq<u8>, i: int, s: Seq<u8>)
    requires
        0 <= i,
        s.len() <= 0xffff_ffff,
        i + 4 + s.len() <= b.len(),
        b.subrange(i, i + 4 + s.len()) == lp(s),
    ensures
        rd_field(b, i) == Some((s, i + 4 + s.len())),
{
    let n = s.len() as u32;
    assert(b[i] == lp(s)[0] && b[i + 1] == lp(s)[1] && b[i + 2] == lp(s)[2] && b[i + 3] == lp(
        s,
    )[3]) by {
        assert(b.subrange(i, i + 4 + s.len())[0] == b[i]);
        assert(b.subrange(i, i + 4 + s.len())[1] == b[i + 1]);
        assert(b.subrange(i, i + 4 + s.len())[2] == b[i + 2]);
        assert(b.subrange(i, i + 4 + s.len())[3] == b[i + 3]);
    }
    lemma_le32_rt(n);
    assert(rd32(b, i) == Some((n, i + 4)));
    assert(b.subrange(i + 4, i + 4 + n) =~= s) by {
        assert forall|q: int| 0 <= q < s.len() implies b.subrange(i + 4, i + 4 + n)[q] == s[q] by {
            assert(b.subrange(i, i + 4 + s.len())[4 + q] == b[i + 4 + q]);
            assert(lp(s)[4 + q] == s[q]);
        }
    }
}

proof fn lemma_rd64_at(b: Seq<u8>, i: int, n: u64)
    requires
        0 <= i,
        i + 8 <= b.len(),
        b.subrange(i, i + 8) == spec_le64(n),
    ensures
        rd64(b, i) == Some((n, i + 8)),
{
    assert forall|q: int| 0 <= q < 8 implies b[i + q] == spec_le64(n)[q] by {
        assert(b.subrange(i, i + 8)[q] == b[i + q]);
    }
    lemma_le64_rt(n);
}

/// A segment of an equality between byte ranges.
pub(crate) proof fn lemma_sub_seg(b: Seq<u8>, i: int, e: Seq<u8>, off: int, seg: Seq<u8>)
    requires
        0 <= i,
        i + e.len() <= b.len(),
        b.subrange(i, i + e.len()) == e,
        0 <= off,
        off + seg.len() <= e.len(),
        e.subrange(off, off + seg.len()) == seg,
    ensures
        b.subrange(i + off, i + off + seg.len()) == seg,
{
    assert forall|q: int|
        0 <= q < seg.len() implies b.subrange(i + off, i + off + seg.len())[q] == seg[q] by {
        assert(b.subrange(i, i + e.len())[off + q] == b[i + off + q]);
        assert(e.subrange(off, off + seg.len())[q] == e[off + q]);
        assert(b.subrange(i + off, i + off + seg.len())[q] == b[i + off + q]);
    }
    assert(b.subrange(i + off, i + off + seg.len()) =~= seg);
}

/// Decoding at the start of a record's encoded bytes yields the record
/// back, at the position after it.
#[verifier::rlimit(100)]
pub proof fn lemma_dec_enc(b: Seq<u8>, i: int, r: RecV)
    requires
        rec_wf(r),
        0 <= i,
        i + enc(r).len() <= b.len(),
        b.subrange(i, i + enc(r).len()) == enc(r),
    ensures
        dec_at(b, i) == Some((r, i + enc(r).len())),
{
    let l = enc(r).len() as int;
    assert(b[i] == enc(r)[0]) by {
        assert(b.subrange(i, i + l)[0] == b[i]);
    }
    assert forall|q: int| 0 <= q < l implies b[i + q] == enc(r)[q] by {
        assert(b.subrange(i, i + l)[q] == b[i + q]);
    }
    match r {
        RecV::SetS(k, v) => {
            assert(enc(r).subrange(1, 1 + lp(k).len() as int) =~= lp(k));
            lemma_sub_seg(b, i, enc(r), 1, lp(k));
            lemma_rd_field_at(b, i + 1, k);
            let o2 = 1 + lp(k).len() as int;
            assert(enc(r).subrange(o2, o2 + lp(v).len() as int) =~= lp(v));
            lemma_sub_seg(b, i, enc(r), o2, lp(v));
            lemma_rd_field_at(b, i + o2, v);
        },
        RecV::Remove(k) => {
            assert(enc(r).subrange(1, 1 + lp(k).len() as int) =~= lp(k));
            lemma_sub_seg(b, i, enc(r), 1, lp(k));
            lemma_rd_field_at(b, i + 1, k);
        },
        RecV::Clear => {},
        RecV::Expire(k, t) => {
            assert(enc(r).subrange(1, 1 + lp(k).len() as int) =~= lp(k));
            lemma_sub_seg(b, i, enc(r), 1, lp(k));
            lemma_rd_field_at(b, i + 1, k);
            let o2 = 1 + lp(k).len() as int;
            assert(enc(r).subrange(o2, o2 + 8) =~= spec_le64(t));
            lemma_sub_seg(b, i, enc(r), o2, spec_le64(t));
            lemma_rd64_at(b, i + o2, t);
        },
        RecV::Hset(k, f, v) => {
            assert(enc(r).subrange(1, 1 + lp(k).len() as int) =~= lp(k));
            lemma_sub_seg(b, i, enc(r), 1, lp(k));
            lemma_rd_field_at(b, i + 1, k);
            let o2 = 1 + lp(k).len() as int;
            assert(enc(r).subrange(o2, o2 + lp(f).len() as int) =~= lp(f));
            lemma_sub_seg(b, i, enc(r), o2, lp(f));
            lemma_rd_field_at(b, i + o2, f);
            let o3 = o2 + lp(f).len() as int;
            assert(enc(r).subrange(o3, o3 + lp(v).len() as int) =~= lp(v));
            lemma_sub_seg(b, i, enc(r), o3, lp(v));
            lemma_rd_field_at(b, i + o3, v);
        },
        RecV::Lpush(k, v) => {
            assert(enc(r).subrange(1, 1 + lp(k).len() as int) =~= lp(k));
            lemma_sub_seg(b, i, enc(r), 1, lp(k));
            lemma_rd_field_at(b, i + 1, k);
            let o2 = 1 + lp(k).len() as int;
            assert(enc(r).subrange(o2, o2 + lp(v).len() as int) =~= lp(v));
            lemma_sub_seg(b, i, enc(r), o2, lp(v));
            lemma_rd_field_at(b, i + o2, v);
        },
        RecV::Sadd(k, v) => {
            assert(enc(r).subrange(1, 1 + lp(k).len() as int) =~= lp(k));
            lemma_sub_seg(b, i, enc(r), 1, lp(k));
            lemma_rd_field_at(b, i + 1, k);
            let o2 = 1 + lp(k).len() as int;
            assert(enc(r).subrange(o2, o2 + lp(v).len() as int) =~= lp(v));
            lemma_sub_seg(b, i, enc(r), o2, lp(v));
            lemma_rd_field_at(b, i + o2, v);
        },
        RecV::Zadd(k, s, m) => {
            assert(enc(r).subrange(1, 1 + lp(k).len() as int) =~= lp(k));
            lemma_sub_seg(b, i, enc(r), 1, lp(k));
            lemma_rd_field_at(b, i + 1, k);
            let o2 = 1 + lp(k).len() as int;
            assert(enc(r).subrange(o2, o2 + 8) =~= spec_le64(s));
            lemma_sub_seg(b, i, enc(r), o2, spec_le64(s));
            lemma_rd64_at(b, i + o2, s);
            let o3 = o2 + 8;
            assert(enc(r).subrange(o3, o3 + lp(m).len() as int) =~= lp(m));
            lemma_sub_seg(b, i, enc(r), o3, lp(m));
            lemma_rd_field_at(b, i + o3, m);
        },
        RecV::Xadd(k, id, p) => {
            assert(enc(r).subrange(1, 1 + lp(k).len() as int) =~= lp(k));
            lemma_sub_seg(b, i, enc(r), 1, lp(k));
            lemma_rd_field_at(b, i + 1, k);
            let o2 = 1 + lp(k).len() as int;
            assert(enc(r).subrange(o2, o2 + 8) =~= spec_le64(id));
            lemma_sub_seg(b, i, enc(r), o2, spec_le64(id));
            lemma_rd64_at(b, i + o2, id);
            let o3 = o2 + 8;
            assert(enc(r).subrange(o3, o3 + lp(p).len() as int) =~= lp(p));
            lemma_sub_seg(b, i, enc(r), o3, lp(p));
            lemma_rd_field_at(b, i + o3, p);
        },
        RecV::SetB(k, v) => {
            assert(enc(r).subrange(1, 1 + lp(k).len() as int) =~= lp(k));
            lemma_sub_seg(b, i, enc(r), 1, lp(k));
            lemma_rd_field_at(b, i + 1, k);
            let o2 = 1 + lp(k).len() as int;
            assert(enc(r).subrange(o2, o2 + lp(v).len() as int) =~= lp(v));
            lemma_sub_seg(b, i, enc(r), o2, lp(v));
            lemma_rd_field_at(b, i + o2, v);
        },
        RecV::RemoveB(k) => {
            assert(enc(r).subrange(1, 1 + lp(k).len() as int) =~= lp(k));
            lemma_sub_seg(b, i, enc(r), 1, lp(k));
            lemma_rd_field_at(b, i + 1, k);
        },
    }
}

/// Reads a 32-bit little-endian integer at `i`.
fn read32(b: &Vec<u8>, i: usize) -> (r: Option<(u32, usize)>)
    ensures
        match r {
            Some(vp) => rd32(b@, i as int) == Some((vp.0, vp.1 as int)) && i < vp.1 <= b.len(),
            None => rd32(b@, i as int) is None,
        },
{
    if i < b.len() && b.len() - i >= 4 {
        let v = (b[i] as u32) | ((b[i + 1] as u32) << 8) | ((b[i + 2] as u32) << 16) | ((b[i
            + 3] as u32) << 24);
        Some((v, i + 4))
    } else {
        None
    }
}

/// Reads a 64-bit little-endian integer at `i`.
fn read64(b: &Vec<u8>, i: usize) -> (r: Option<(u64, usize)>)
    ensures
        match r {
            Some(vp) => rd64(b@, i as int) == Some((vp.0, vp.1 as int)) && i < vp.1 <= b.len(),
            None => rd64(b@, i as int) is None,
        },
{
    if i < b.len() && b.len() - i >= 8 {
        let v = (b[i] as u64) | ((b[i + 1] as u64) << 8) | ((b[i + 2] as u64) << 16) | ((b[i
            + 3] as u64) << 24) | ((b[i + 4] as u64) << 32) | ((b[i + 5] as u64) << 40) | ((b[i
            + 6] as u64) << 48) | ((b[i + 7] as u64) << 56);
        Some((v, i + 8))
    } else {
        None
    }
}

/// Reads a length-prefixed field at `i`.
fn read_field(b: &Vec<u8>, i: usize) -> (r: Option<(Vec<u8>, usize)>)
    ensures
        match r {
            Some(vp) => rd_field(b@, i as int) == Some((vp.0@, vp.1 as int)) && i < vp.1
                <= b.len(),
            None => rd_field(b@, i as int) is None,
        },
{
    match read32(b, i) {
        Some((n, p)) => {
            if n as usize <= b.len() && p <= b.len() - (n as usize) {
                let f = crate::json_ops::sub_bytes(b, p, p + n as usize);
                Some((f, p + n as usize))
            } else {
                None
            }
        },
        None => None,
    }
}

/// Decodes one record at `i`.
pub fn decode_at(b: &Vec<u8>, i: usize) -> (r: Option<(RecE, usize)>)
    ensures
        match r {
            Some(rp) => dec_at(b@, i as int) == Some((rec_v(rp.0), rp.1 as int)) && i < rp.1
                <= b.len(),
            None => dec_at(b@, i as int) is None,
        },
{
    if i >= b.len() {
        return None;
    }
    let op = b[i];
    if op == 1 || op == 5 || op == 6 || op == 7 || op == 10 {
        match read_field(b, i + 1) {
            Some((k, p1)) => {
                if op == 5 {
                    match read_field(b, p1) {
                        Some((f, p2)) => match read_field(b, p2) {
                            Some((v, p3)) => Some((RecE::Hset(k, f, v), p3)),
                            None => None,
                        },
                        None => None,
                    }
                } else {
                    match read_field(b, p1) {
                        Some((v, p2)) => {
                            let rec = if op == 1 {
                                RecE::SetS(k, v)
                            } else if op == 6 {
                                RecE::Lpush(k, v)
                            } else if op == 7 {
                                RecE::Sadd(k, v)
                            } else {
                                RecE::SetB(k, v)
                            };
                            Some((rec, p2))
                        },
                        None => None,
                    }
                }
            },
            None => None,
        }
    } else if op == 2 || op == 11 {
        match read_field(b, i + 1) {
            Some((k, p1)) => {
                let rec = if op == 2 {
                    RecE::Remove(k)
                } else {
                    RecE::RemoveB(k)
                };
                Some((rec, p1))
            },
            None => None,
        }
    } else if op == 3 {
        Some((RecE::Clear, i + 1))
    } else if op == 4 {
        match read_field(b, i + 1) {
            Some((k, p1)) => match read64(b, p1) {
                Some((t, p2)) => Some((RecE::Expire(k, t), p2)),
                None => None,
            },
            None => None,
        }
    } else if op == 8 || op == 9 {
        match read_field(b, i + 1) {
            Some((k, p1)) => match read64(b, p1) {
                Some((n, p2)) => match read_field(b, p2) {
                    Some((m, p3)) => {
                        let rec = if op == 8 {
                            RecE::Zadd(k, n, m)
                        } else {
                            RecE::Xadd(k, n, m)
                        };
                        Some((rec, p3))
                    },
                    None => None,
                },
                None => None,
            },
            None => None,
        }
    } else {
        None
    }
}

} // verus!
