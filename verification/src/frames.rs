//! Little-endian encodings and the output frames every read operation
//! hands back: key lists, field dumps, stream ranges, notification and
//! pub/sub frames, and the `b:` hex names binary keys carry in
//! notifications.
use vstd::prelude::*;

verus! {

/// Little-endian encoding of a 32-bit count or length.
pub open spec fn spec_le32(n: u32) -> Seq<u8> {
    seq![
        (n & 0xff) as u8,
        ((n >> 8) & 0xff) as u8,
        ((n >> 16) & 0xff) as u8,
        ((n >> 24) & 0xff) as u8,
    ]
}

/// Little-endian encoding of a 64-bit integer.
pub open spec fn spec_le64(n: u64) -> Seq<u8> {
    seq![
        (n & 0xff) as u8,
        ((n >> 8) & 0xff) as u8,
        ((n >> 16) & 0xff) as u8,
        ((n >> 24) & 0xff) as u8,
        ((n >> 32) & 0xff) as u8,
        ((n >> 40) & 0xff) as u8,
        ((n >> 48) & 0xff) as u8,
        ((n >> 56) & 0xff) as u8,
    ]
}

/// Appends the little-endian bytes of `n`.
pub fn push_le32(out: &mut Vec<u8>, n: u32)
    ensures
        final(out)@ == old(out)@ + spec_le32(n),
{
    out.push((n & 0xff) as u8);
    out.push(((n >> 8) & 0xff) as u8);
    out.push(((n >> 16) & 0xff) as u8);
    out.push(((n >> 24) & 0xff) as u8);
    proof {
        assert(out@ =~= old(out)@ + spec_le32(n));
    }
}

/// Appends the little-endian bytes of `n`.
pub fn push_le64(out: &mut Vec<u8>, n: u64)
    ensures
        final(out)@ == old(out)@ + spec_le64(n),
{
    out.push((n & 0xff) as u8);
    out.push(((n >> 8) & 0xff) as u8);
    out.push(((n >> 16) & 0xff) as u8);
    out.push(((n >> 24) & 0xff) as u8);
    out.push(((n >> 32) & 0xff) as u8);
    out.push(((n >> 40) & 0xff) as u8);
    out.push(((n >> 48) & 0xff) as u8);
    out.push(((n >> 56) & 0xff) as u8);
    proof {
        assert(out@ =~= old(out)@ + spec_le64(n));
    }
}

/// One lowercase hex digit.
pub open spec fn hex_digit(n: u8) -> u8 {
    if n < 10 {
        (0x30 + n) as u8
    } else {
        (0x61 + (n - 10)) as u8
    }
}

/// Lowercase hex of a byte string, two digits per byte.
pub open spec fn hex_of(b: Seq<u8>) -> Seq<u8>
    decreases b.len(),
{
    if b.len() == 0 {
        Seq::empty()
    } else {
        hex_of(b.drop_last()) + seq![
            hex_digit(b.last() / 16),
            hex_digit(b.last() % 16),
        ]
    }
}

/// The name a binary-namespace key carries in a notification: `b:`
/// followed by its lowercase hex.
pub open spec fn bkey_name(k: Seq<u8>) -> Seq<u8> {
    seq![0x62u8, 0x3au8] + hex_of(k)
}

/// A hex name is two digits per byte.
pub proof fn lemma_hex_len(b: Seq<u8>)
    ensures
        hex_of(b).len() == 2 * b.len(),
    decreases b.len(),
{
    if b.len() > 0 {
        lemma_hex_len(b.drop_last());
    }
}

/// Builds the notification name of a binary key.
pub fn make_bkey_name(k: &Vec<u8>) -> (r: Vec<u8>)
    ensures
        r@ == bkey_name(k@),
{
    let mut out: Vec<u8> = Vec::new();
    out.push(0x62);
    out.push(0x3a);
    let mut i: usize = 0;
    while i < k.len()
        invariant
            i <= k.len(),
            out@ == seq![0x62u8, 0x3au8] + hex_of(k@.subrange(0, i as int)),
        decreases k.len() - i,
    {
        let b = k[i];
        let hi = b / 16;
        let lo = b % 16;
        out.push(
            if hi < 10 {
                0x30 + hi
            } else {
                0x61 + (hi - 10)
            },
        );
        out.push(
            if lo < 10 {
                0x30 + lo
            } else {
                0x61 + (lo - 10)
            },
        );
        i += 1;
        proof {
            assert(k@.subrange(0, i as int).drop_last() =~= k@.subrange(0, i - 1));
            assert(out@ =~= seq![0x62u8, 0x3au8] + hex_of(k@.subrange(0, i as int)));
        }
    }
    proof {
        assert(k@.subrange(0, k@.len() as int) =~= k@);
    }
    out
}

/// The body of a `[count] (len, bytes)*` frame.
pub open spec fn items_body(items: Seq<Seq<u8>>) -> Seq<u8>
    decreases items.len(),
{
    if items.len() == 0 {
        Seq::empty()
    } else {
        items_body(items.drop_last()) + spec_le32(items.last().len() as u32) + items.last()
    }
}

/// A `[count:u32] (len:u32, bytes)*` frame: the shape of key lists, list
/// and sorted-set ranges, and find results.
pub open spec fn items_frame(items: Seq<Seq<u8>>) -> Seq<u8> {
    spec_le32(items.len() as u32) + items_body(items)
}

/// Builds an items frame.
pub fn build_items_frame(items: &Vec<Vec<u8>>) -> (r: Vec<u8>)
    requires
        items@.len() <= 0xffff_ffff,
        forall|q: int| 0 <= q < items@.len() ==> (#[trigger] items@[q])@.len() <= 0xffff_ffff,
    ensures
        r@ == items_frame(crate::value::bytes_seq_view(items@)),
{
    let ghost iv = crate::value::bytes_seq_view(items@);
    let mut out: Vec<u8> = Vec::new();
    push_le32(&mut out, items.len() as u32);
    let mut i: usize = 0;
    while i < items.len()
        invariant
            i <= items.len(),
            iv == crate::value::bytes_seq_view(items@),
            iv.len() == items@.len(),
            forall|q: int| 0 <= q < iv.len() ==> (#[trigger] iv[q]).len() <= 0xffff_ffff,
            forall|q: int| 0 <= q < iv.len() ==> #[trigger] iv[q] == items@[q]@,
            out@ == spec_le32(items@.len() as u32) + items_body(iv.subrange(0, i as int)),
        decreases items.len() - i,
    {
        let it = &items[i];
        push_le32(&mut out, it.len() as u32);
        crate::json_ops::push_bytes(&mut out, it);
        i += 1;
        proof {
            assert(iv.subrange(0, i as int).drop_last() =~= iv.subrange(0, i - 1));
            assert(iv.subrange(0, i as int).last() == iv[i - 1]);
            assert(out@ =~= spec_le32(items@.len() as u32) + items_body(iv.subrange(0, i as int)));
        }
    }
    proof {
        assert(iv.subrange(0, iv.len() as int) =~= iv);
    }
    out
}

/// The body of a hash dump frame.
pub open spec fn pairs_body(ps: Seq<(Seq<u8>, Seq<u8>)>) -> Seq<u8>
    decreases ps.len(),
{
    if ps.len() == 0 {
        Seq::empty()
    } else {
        pairs_body(ps.drop_last()) + spec_le32(ps.last().0.len() as u32) + ps.last().0 + spec_le32(
            ps.last().1.len() as u32,
        ) + ps.last().1
    }
}

/// A hash dump: `[count:u32] (keylen:u32, key, vallen:u32, val)*`.
pub open spec fn pairs_frame(ps: Seq<(Seq<u8>, Seq<u8>)>) -> Seq<u8> {
    spec_le32(ps.len() as u32) + pairs_body(ps)
}

/// Builds a hash dump frame.
pub fn build_pairs_frame(ps: &Vec<(Vec<u8>, Vec<u8>)>) -> (r: Vec<u8>)
    requires
        ps@.len() <= 0xffff_ffff,
        forall|q: int|
            0 <= q < ps@.len() ==> (#[trigger] ps@[q]).0@.len() <= 0xffff_ffff && ps@[q].1@.len()
                <= 0xffff_ffff,
    ensures
        r@ == pairs_frame(crate::value::pairs_view(ps@)),
{
    let ghost pv = crate::value::pairs_view(ps@);
    let mut out: Vec<u8> = Vec::new();
    push_le32(&mut out, ps.len() as u32);
    let mut i: usize = 0;
    while i < ps.len()
        invariant
            i <= ps.len(),
            pv == crate::value::pairs_view(ps@),
            pv.len() == ps@.len(),
            forall|q: int|
                0 <= q < pv.len() ==> (#[trigger] pv[q]).0 == ps@[q].0@ && pv[q].1 == ps@[q].1@,
            forall|q: int|
                0 <= q < pv.len() ==> (#[trigger] pv[q]).0.len() <= 0xffff_ffff && pv[q].1.len()
                    <= 0xffff_ffff,
            out@ == spec_le32(ps@.len() as u32) + pairs_body(pv.subrange(0, i as int)),
        decreases ps.len() - i,
    {
        let p = &ps[i];
        push_le32(&mut out, p.0.len() as u32);
        crate::json_ops::push_bytes(&mut out, &p.0);
        push_le32(&mut out, p.1.len() as u32);
        crate::json_ops::push_bytes(&mut out, &p.1);
        i += 1;
        proof {
            assert(pv.subrange(0, i as int).drop_last() =~= pv.subrange(0, i - 1));
            assert(pv.subrange(0, i as int).last() == pv[i - 1]);
            assert(out@ =~= spec_le32(ps@.len() as u32) + pairs_body(pv.subrange(0, i as int)));
        }
    }
    proof {
        assert(pv.subrange(0, pv.len() as int) =~= pv);
    }
    out
}

/// The body of a stream range frame.
pub open spec fn stream_body(es: Seq<(u64, Seq<u8>)>) -> Seq<u8>
    decreases es.len(),
{
    if es.len() == 0 {
        Seq::empty()
    } else {
        stream_body(es.drop_last()) + spec_le64(es.last().0) + spec_le32(
            es.last().1.len() as u32,
        ) + es.last().1
    }
}

/// A stream range: `[count:u32] (id:u64, plen:u32, payload)*`.
pub open spec fn stream_frame(es: Seq<(u64, Seq<u8>)>) -> Seq<u8> {
    spec_le32(es.len() as u32) + stream_body(es)
}

/// Builds a stream range frame.
pub fn build_stream_frame(es: &Vec<(u64, Vec<u8>)>) -> (r: Vec<u8>)
    requires
        es@.len() <= 0xffff_ffff,
        forall|q: int| 0 <= q < es@.len() ==> (#[trigger] es@[q]).1@.len() <= 0xffff_ffff,
    ensures
        r@ == stream_frame(crate::value::scored_view(es@)),
{
    let ghost ev = crate::value::scored_view(es@);
    let mut out: Vec<u8> = Vec::new();
    push_le32(&mut out, es.len() as u32);
    let mut i: usize = 0;
    while i < es.len()
        invariant
            i <= es.len(),
            ev == crate::value::scored_view(es@),
            ev.len() == es@.len(),
            forall|q: int|
                0 <= q < ev.len() ==> (#[trigger] ev[q]).0 == es@[q].0 && ev[q].1 == es@[q].1@,
            forall|q: int| 0 <= q < ev.len() ==> (#[trigger] ev[q]).1.len() <= 0xffff_ffff,
            out@ == spec_le32(es@.len() as u32) + stream_body(ev.subrange(0, i as int)),
        decreases es.len() - i,
    {
        let p = &es[i];
        push_le64(&mut out, p.0);
        push_le32(&mut out, p.1.len() as u32);
        crate::json_ops::push_bytes(&mut out, &p.1);
        i += 1;
        proof {
            assert(ev.subrange(0, i as int).drop_last() =~= ev.subrange(0, i - 1));
            assert(ev.subrange(0, i as int).last() == ev[i - 1]);
            assert(out@ =~= spec_le32(es@.len() as u32) + stream_body(ev.subrange(0, i as int)));
        }
    }
    proof {
        assert(ev.subrange(0, ev.len() as int) =~= ev);
    }
    out
}

/// A notification frame: `[kind:u8][keylen:u32][key][at_ms:u64]`.
pub open spec fn notif_frame(kind: u8, key: Seq<u8>, at_ms: u64) -> Seq<u8> {
    seq![kind] + spec_le32(key.len() as u32) + key + spec_le64(at_ms)
}

/// Builds a notification frame.
pub fn build_notif_frame(kind: u8, key: &Vec<u8>, at_ms: u64) -> (r: Vec<u8>)
    requires
        key@.len() <= 0xffff_ffff,
    ensures
        r@ == notif_frame(kind, key@, at_ms),
{
    let mut out: Vec<u8> = Vec::new();
    out.push(kind);
    push_le32(&mut out, key.len() as u32);
    crate::json_ops::push_bytes(&mut out, key);
    push_le64(&mut out, at_ms);
    proof {
        assert(out@ =~= notif_frame(kind, key@, at_ms));
    }
    out
}

/// A pub/sub poll frame: `[chanlen:u32][channel][plen:u32][payload]`.
pub open spec fn pubsub_frame(chan: Seq<u8>, payload: Seq<u8>) -> Seq<u8> {
    spec_le32(chan.len() as u32) + chan + spec_le32(payload.len() as u32) + payload
}

/// Builds a pub/sub poll frame.
pub fn build_pubsub_frame(chan: &Vec<u8>, payload: &Vec<u8>) -> (r: Vec<u8>)
    requires
        chan@.len() <= 0xffff_ffff,
        payload@.len() <= 0xffff_ffff,
    ensures
        r@ == pubsub_frame(chan@, payload@),
{
    let mut out: Vec<u8> = Vec::new();
    push_le32(&mut out, chan.len() as u32);
    crate::json_ops::push_bytes(&mut out, chan);
    push_le32(&mut out, payload.len() as u32);
    crate::json_ops::push_bytes(&mut out, payload);
    proof {
        assert(out@ =~= pubsub_frame(chan@, payload@));
    }
    out
}

} // verus!
