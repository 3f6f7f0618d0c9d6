//! The executable JSON code: documents as owned values, the parser and
//! serializer, and the path read and write operations, each proved equal
//! to its spec-level counterpart.
use vstd::prelude::*;

use crate::json::{
    digits_end, digits_val, field_end, is_digit, is_field_char, is_ws, obj_lookup, obj_set,
    sp_descend, sp_elems, sp_json, sp_json_get, sp_json_set, sp_members, sp_path, sp_path_segs,
    sp_ser, sp_ser_list, sp_ser_members, sp_set_at, sp_value, str_end, ws_len, dec_digits,
    int_bytes, json_top_int, JsonV, SegV,
};
use crate::value::{bytes_eq, clone_bytes};

verus! {

broadcast use vstd::std_specs::vec::axiom_vec_index_decreases;

/// One JSON document as an owned value.
pub enum Json {
    Null,
    Bool(bool),
    Int(i64),
    Str(Vec<u8>),
    Arr(Vec<Json>),
    Obj(Vec<(Vec<u8>, Json)>),
}

/// The spec-level image of an owned document.
pub open spec fn jv(j: Json) -> JsonV
    decreases j,
{
    match j {
        Json::Null => JsonV::Null,
        Json::Bool(b) => JsonV::Bool(b),
        Json::Int(n) => JsonV::Int(n),
        Json::Str(v) => JsonV::Str(v@),
        Json::Arr(a) => JsonV::Arr(
            Seq::new(
                a@.len(),
                |q: int|
                    if 0 <= q < a@.len() {
                        jv(a@[q])
                    } else {
                        JsonV::Null
                    },
            ),
        ),
        Json::Obj(m) => JsonV::Obj(
            Seq::new(
                m@.len(),
                |q: int|
                    (
                        m@[q].0@,
                        if 0 <= q < m@.len() {
                            jv(m@[q].1)
                        } else {
                            JsonV::Null
                        },
                    ),
            ),
        ),
    }
}

/// The images of a list of elements.
pub open spec fn jlist(a: Seq<Json>) -> Seq<JsonV> {
    Seq::new(a.len(), |q: int| jv(a[q]))
}

/// The images of a list of members.
pub open spec fn jmembers(m: Seq<(Vec<u8>, Json)>) -> Seq<(Seq<u8>, JsonV)> {
    Seq::new(m.len(), |q: int| (m[q].0@, jv(m[q].1)))
}

/// Skips whitespace from `i`.
pub(crate) fn skip_ws(s: &Vec<u8>, i: usize) -> (r: usize)
    requires
        i <= s.len(),
    ensures
        r == i + ws_len(s@, i as int),
        i <= r <= s.len(),
{
    let mut p = i;
    while p < s.len() && (s[p] == 0x20 || s[p] == 0x09 || s[p] == 0x0a || s[p] == 0x0d)
        invariant
            i <= p <= s.len(),
            i + ws_len(s@, i as int) == p + ws_len(s@, p as int),
        decreases s.len() - p,
    {
        p += 1;
    }
    p
}

/// The end of the digit run at `i`.
pub(crate) fn scan_digits(s: &Vec<u8>, i: usize) -> (r: usize)
    requires
        i <= s.len(),
    ensures
        r == digits_end(s@, i as int),
        i <= r <= s.len(),
{
    let mut p = i;
    while p < s.len() && 0x30 <= s[p] && s[p] <= 0x39
        invariant
            i <= p <= s.len(),
            digits_end(s@, i as int) == digits_end(s@, p as int),
        decreases s.len() - p,
    {
        p += 1;
    }
    p
}

/// The closing quote of a string body at `i`, when the body is clean.
fn scan_str(s: &Vec<u8>, i: usize) -> (r: Option<usize>)
    requires
        i <= s.len(),
    ensures
        match r {
            Some(e) => str_end(s@, i as int) == e && i <= e < s.len(),
            None => str_end(s@, i as int) == -1,
        },
{
    let mut p = i;
    while p < s.len()
        invariant
            i <= p <= s.len(),
            str_end(s@, i as int) == str_end(s@, p as int),
        decreases s.len() - p,
    {
        let c = s[p];
        if c == 0x22 {
            return Some(p);
        }
        if c == 0x5c || c < 0x20 {
            return None;
        }
        p += 1;
    }
    None
}

/// Copies `s[a..b)`.
pub fn sub_bytes(s: &Vec<u8>, a: usize, b: usize) -> (r: Vec<u8>)
    requires
        a <= b <= s.len(),
    ensures
        r@ == s@.subrange(a as int, b as int),
{
    let mut r: Vec<u8> = Vec::new();
    let mut p = a;
    while p < b
        invariant
            a <= p <= b <= s.len(),
            r@ == s@.subrange(a as int, p as int),
        decreases b - p,
    {
        r.push(s[p]);
        p += 1;
        proof {
            assert(r@ =~= s@.subrange(a as int, p as int));
        }
    }
    r
}

pub open spec fn pow10(n: nat) -> int
    decreases n,
{
    if n == 0 {
        1
    } else {
        10 * pow10((n - 1) as nat)
    }
}

proof fn lemma_digits_end_props(s: Seq<u8>, i: int)
    requires
        0 <= i <= s.len(),
    ensures
        i <= digits_end(s, i) <= s.len(),
        forall|p: int| i <= p < digits_end(s, i) ==> is_digit(s[p]),
    decreases s.len() - i,
{
    if i < s.len() && is_digit(s[i]) {
        lemma_digits_end_props(s, i + 1);
    }
}

proof fn lemma_digits_upper(s: Seq<u8>, i: int, j: int)
    requires
        i <= j,
        forall|p: int| i <= p < j ==> is_digit(#[trigger] s[p]),
    ensures
        0 <= digits_val(s, i, j) < pow10((j - i) as nat),
    decreases j - i,
{
    if i < j {
        lemma_digits_upper(s, i, j - 1);
        assert(0 <= s[j - 1] - 0x30 < 10);
        assert(pow10((j - i) as nat) == 10 * pow10((j - i - 1) as nat));
    }
}

proof fn lemma_digits_lower(s: Seq<u8>, i: int, j: int)
    requires
        i < j,
        forall|p: int| i <= p < j ==> is_digit(#[trigger] s[p]),
        s[i] != 0x30,
    ensures
        digits_val(s, i, j) >= pow10((j - i - 1) as nat),
    decreases j - i,
{
    if j == i + 1 {
    } else {
        lemma_digits_lower(s, i, j - 1);
        assert(digits_val(s, i, j) == digits_val(s, i, j - 1) * 10 + (s[j - 1] - 0x30));
        assert(0 <= s[j - 1] - 0x30);
        assert(pow10((j - i - 1) as nat) == 10 * pow10((j - i - 2) as nat));
    }
}

proof fn lemma_pow10_19()
    ensures
        pow10(19) == 10000000000000000000,
        pow10(18) == 1000000000000000000,
{
    reveal_with_fuel(pow10, 21);
}

/// Parses the digit run `[d0, e)` that the spec number branch sees,
/// returning its value when it fits an unsigned 64-bit integer. The run
/// has no leading zero, so a refused run is too large for a 64-bit
/// signed magnitude either way.
pub(crate) fn parse_digits_u64(s: &Vec<u8>, d0: usize, e: usize) -> (r: Option<u64>)
    requires
        d0 < e <= s.len(),
        e == digits_end(s@, d0 as int),
        s@[d0 as int] != 0x30 || e == d0 + 1,
    ensures
        match r {
            Some(v) => v == digits_val(s@, d0 as int, e as int),
            None => digits_val(s@, d0 as int, e as int) > 0x8000000000000000,
        },
{
    proof {
        lemma_digits_end_props(s@, d0 as int);
        lemma_pow10_19();
    }
    if e - d0 > 19 {
        proof {
            lemma_digits_lower(s@, d0 as int, e as int);
            lemma_pow10_ge(19, (e - d0 - 1) as nat);
        }
        return None;
    }
    let mut acc: u64 = 0;
    let mut p = d0;
    while p < e
        invariant
            d0 <= p <= e <= s.len(),
            e - d0 <= 19,
            e == digits_end(s@, d0 as int),
            acc == digits_val(s@, d0 as int, p as int),
            acc < pow10((p - d0) as nat),
            forall|q: int| d0 <= q < e ==> is_digit(s@[q]),
        decreases e - p,
    {
        proof {
            lemma_pow10_19();
            lemma_pow10_ge((p - d0 + 1) as nat, 19);
        }
        let d = s[p] - 0x30;
        acc = acc * 10 + (d as u64);
        p += 1;
        proof {
            lemma_digits_upper(s@, d0 as int, p as int);
        }
    }
    Some(acc)
}

proof fn lemma_pow10_ge(a: nat, b: nat)
    requires
        a <= b,
    ensures
        pow10(a) <= pow10(b),
        pow10(a) >= 1,
    decreases b,
{
    if a < b {
        lemma_pow10_ge(a, (b - 1) as nat);
        assert(pow10(b) == 10 * pow10((b - 1) as nat));
    } else {
        lemma_pow10_pos(a);
    }
}

proof fn lemma_pow10_pos(a: nat)
    ensures
        pow10(a) >= 1,
    decreases a,
{
    if a > 0 {
        lemma_pow10_pos((a - 1) as nat);
    }
}

/// Parses one JSON value at `i`, returning the value and the position
/// after it.
pub fn parse_value(s: &Vec<u8>, i: usize) -> (r: Option<(Json, usize)>)
    requires
        i <= s.len(),
    ensures
        match r {
            Some(jp) => sp_value(s@, i as int) == (Some(jv(jp.0)), jp.1 as int) && i < jp.1
                <= s.len(),
            None => sp_value(s@, i as int).0 is None,
        },
    decreases s.len() - i, 0int,
{
    let j = skip_ws(s, i);
    if j >= s.len() {
        return None;
    }
    let c = s[j];
    if c == 0x6e {  // 'n'
        if s.len() - j >= 4 && s[j + 1] == 0x75 && s[j + 2] == 0x6c && s[j + 3] == 0x6c {
            Some((Json::Null, j + 4))
        } else {
            None
        }
    } else if c == 0x74 {  // 't'
        if s.len() - j >= 4 && s[j + 1] == 0x72 && s[j + 2] == 0x75 && s[j + 3] == 0x65 {
            Some((Json::Bool(true), j + 4))
        } else {
            None
        }
    } else if c == 0x66 {  // 'f'
        if s.len() - j >= 5 && s[j + 1] == 0x61 && s[j + 2] == 0x6c && s[j + 3] == 0x73 && s[j + 4]
            == 0x65 {
            Some((Json::Bool(false), j + 5))
        } else {
            None
        }
    } else if c == 0x22 {  // '"'
        match scan_str(s, j + 1) {
            Some(e) => {
                let b = sub_bytes(s, j + 1, e);
                Some((Json::Str(b), e + 1))
            },
            None => None,
        }
    } else if c == 0x5b {  // '['
        match parse_elems(s, j + 1) {
            Some((items, p)) => {
                proof {
                    assert(jv(Json::Arr(items)) matches JsonV::Arr(l) && l =~= jlist(items@));
                    assert(jv(Json::Arr(items)) == JsonV::Arr(jlist(items@)));
                }
                Some((Json::Arr(items), p))
            },
            None => None,
        }
    } else if c == 0x7b {  // '{'
        match parse_members(s, j + 1) {
            Some((ms, p)) => {
                proof {
                    assert(jv(Json::Obj(ms)) matches JsonV::Obj(l) && l =~= jmembers(ms@));
                    assert(jv(Json::Obj(ms)) == JsonV::Obj(jmembers(ms@)));
                }
                Some((Json::Obj(ms), p))
            },
            None => None,
        }
    } else if c == 0x2d || (0x30 <= c && c <= 0x39) {  // '-' or digit
        let d0 = if c == 0x2d {
            j + 1
        } else {
            j
        };
        let e = scan_digits(s, d0);
        if e == d0 {
            return None;
        }
        if s[d0] == 0x30 && e > d0 + 1 {
            return None;
        }
        match parse_digits_u64(s, d0, e) {
            None => None,
            Some(v) => {
                if c == 0x2d {
                    if v <= 0x8000000000000000u64 {
                        let n: i64 = if v == 0x8000000000000000u64 {
                            i64::MIN
                        } else {
                            -(v as i64)
                        };
                        Some((Json::Int(n), e))
                    } else {
                        None
                    }
                } else {
                    if v <= 0x7fffffffffffffffu64 {
                        Some((Json::Int(v as i64), e))
                    } else {
                        None
                    }
                }
            },
        }
    } else {
        None
    }
}

/// Parses array elements after `[`, through the closing `]`.
pub fn parse_elems(s: &Vec<u8>, i: usize) -> (r: Option<(Vec<Json>, usize)>)
    requires
        i <= s.len(),
    ensures
        match r {
            Some(ap) => sp_elems(s@, i as int) == (Some(jlist(ap.0@)), ap.1 as int) && i < ap.1
                <= s.len(),
            None => sp_elems(s@, i as int).0 is None,
        },
    decreases s.len() - i, 1int,
{
    let j = skip_ws(s, i);
    if j >= s.len() {
        return None;
    }
    if s[j] == 0x5d {  // ']'
        let items: Vec<Json> = Vec::new();
        proof {
            assert(jlist(items@) =~= Seq::<JsonV>::empty());
        }
        return Some((items, j + 1));
    }
    match parse_value(s, i) {
        None => None,
        Some((val, p)) => {
            let q = skip_ws(s, p);
            if q < s.len() && s[q] == 0x2c {  // ','
                match parse_elems(s, q + 1) {
                    None => None,
                    Some((rest, e)) => {
                        let ghost r0 = rest@;
                        let mut rest = rest;
                        rest.insert(0, val);
                        proof {
                            assert(jlist(rest@) =~= seq![jv(val)] + jlist(r0));
                        }
                        Some((rest, e))
                    },
                }
            } else if q < s.len() && s[q] == 0x5d {
                let mut items: Vec<Json> = Vec::new();
                items.push(val);
                proof {
                    assert(jlist(items@) =~= seq![jv(val)]);
                }
                Some((items, q + 1))
            } else {
                None
            }
        },
    }
}

/// Parses object members after `{`, through the closing `}`.
pub fn parse_members(s: &Vec<u8>, i: usize) -> (r: Option<(Vec<(Vec<u8>, Json)>, usize)>)
    requires
        i <= s.len(),
    ensures
        match r {
            Some(mp) => sp_members(s@, i as int) == (Some(jmembers(mp.0@)), mp.1 as int) && i
                < mp.1 <= s.len(),
            None => sp_members(s@, i as int).0 is None,
        },
    decreases s.len() - i, 1int,
{
    let j = skip_ws(s, i);
    if j >= s.len() {
        return None;
    }
    if s[j] == 0x7d {  // '}'
        let ms: Vec<(Vec<u8>, Json)> = Vec::new();
        proof {
            assert(jmembers(ms@) =~= Seq::<(Seq<u8>, JsonV)>::empty());
        }
        return Some((ms, j + 1));
    }
    if s[j] != 0x22 {
        return None;
    }
    match scan_str(s, j + 1) {
        None => None,
        Some(e) => {
            let f = sub_bytes(s, j + 1, e);
            let c = skip_ws(s, e + 1);
            if !(c < s.len() && s[c] == 0x3a) {  // ':'
                return None;
            }
            match parse_value(s, c + 1) {
                None => None,
                Some((val, p)) => {
                    let q = skip_ws(s, p);
                    if q < s.len() && s[q] == 0x2c {
                        match parse_members(s, q + 1) {
                            None => None,
                            Some((rest, e2)) => {
                                let ghost r0 = rest@;
                                let mut rest = rest;
                                rest.insert(0, (f, val));
                                proof {
                                    assert(jmembers(rest@) =~= seq![
                                        (s@.subrange(j + 1, e as int), jv(val)),
                                    ] + jmembers(r0));
                                }
                                Some((rest, e2))
                            },
                        }
                    } else if q < s.len() && s[q] == 0x7d {
                        let mut ms: Vec<(Vec<u8>, Json)> = Vec::new();
                        ms.push((f, val));
                        proof {
                            assert(jmembers(ms@) =~= seq![
                                (s@.subrange(j + 1, e as int), jv(val)),
                            ]);
                        }
                        Some((ms, q + 1))
                    } else {
                        None
                    }
                },
            }
        },
    }
}

/// Appends the bytes of `b` to `out`.
pub fn push_bytes(out: &mut Vec<u8>, b: &Vec<u8>)
    ensures
        final(out)@ == old(out)@ + b@,
{
    let mut p: usize = 0;
    while p < b.len()
        invariant
            p <= b.len(),
            out@ == old(out)@ + b@.subrange(0, p as int),
        decreases b.len() - p,
    {
        out.push(b[p]);
        p += 1;
        proof {
            assert(out@ =~= old(out)@ + b@.subrange(0, p as int));
        }
    }
    proof {
        assert(out@ =~= old(out)@ + b@);
    }
}

/// Appends the decimal digits of `n`.
fn push_dec(n: u64, out: &mut Vec<u8>)
    ensures
        final(out)@ == old(out)@ + dec_digits(n as int),
    decreases n,
{
    if n == 0 {
        proof {
            assert(out@ =~= old(out)@ + dec_digits(0));
        }
    } else {
        push_dec(n / 10, out);
        out.push(0x30 + (n % 10) as u8);
        proof {
            assert(out@ =~= old(out)@ + dec_digits(n as int));
        }
    }
}

/// Appends the serialized bytes of `*v` to `out`.
pub fn ser_into(v: &Json, out: &mut Vec<u8>)
    ensures
        final(out)@ == old(out)@ + sp_ser(jv(*v)),
    decreases *v, 0int, 0int,
{
    match v {
        Json::Null => {
            out.push(0x6e);
            out.push(0x75);
            out.push(0x6c);
            out.push(0x6c);
            proof {
                assert(out@ =~= old(out)@ + sp_ser(jv(*v)));
            }
        },
        Json::Bool(b) => {
            if *b {
                out.push(0x74);
                out.push(0x72);
                out.push(0x75);
                out.push(0x65);
            } else {
                out.push(0x66);
                out.push(0x61);
                out.push(0x6c);
                out.push(0x73);
                out.push(0x65);
            }
            proof {
                assert(out@ =~= old(out)@ + sp_ser(jv(*v)));
            }
        },
        Json::Int(n) => {
            let n = *n;
            if n == 0 {
                out.push(0x30);
                proof {
                    assert(out@ =~= old(out)@ + int_bytes(0));
                }
            } else if n < 0 {
                out.push(0x2d);
                let mag: u64 = if n == i64::MIN {
                    0x8000000000000000u64
                } else {
                    (-n) as u64
                };
                push_dec(mag, out);
                proof {
                    assert(out@ =~= old(out)@ + int_bytes(n as int));
                }
            } else {
                push_dec(n as u64, out);
                proof {
                    assert(out@ =~= old(out)@ + int_bytes(n as int));
                }
            }
        },
        Json::Str(sv) => {
            out.push(0x22);
            push_bytes(out, sv);
            out.push(0x22);
            proof {
                assert(out@ =~= old(out)@ + sp_ser(jv(*v)));
            }
        },
        Json::Arr(a) => {
            proof {
                assert(jv(*v) matches JsonV::Arr(l) && l =~= jlist(a@));
            }
            out.push(0x5b);
            ser_list_into(a, 0, out);
            out.push(0x5d);
            proof {
                assert(out@ =~= old(out)@ + sp_ser(jv(*v)));
            }
        },
        Json::Obj(m) => {
            proof {
                assert(jv(*v) matches JsonV::Obj(l) && l =~= jmembers(m@));
            }
            out.push(0x7b);
            ser_members_into(m, 0, out);
            out.push(0x7d);
            proof {
                assert(out@ =~= old(out)@ + sp_ser(jv(*v)));
            }
        },
    }
}

/// Appends the serialized elements of `a` from `i` on, comma separated.
fn ser_list_into(a: &Vec<Json>, i: usize, out: &mut Vec<u8>)
    ensures
        final(out)@ == old(out)@ + sp_ser_list(jlist(a@), i as int),
    decreases *a, 1int, a.len() - i,
{
    if i >= a.len() {
        proof {
            assert(out@ =~= old(out)@ + sp_ser_list(jlist(a@), i as int));
        }
    } else {
        ser_into(&a[i], out);
        proof {
            assert(jlist(a@)[i as int] == jv(a@[i as int]));
        }
        if i + 1 < a.len() {
            out.push(0x2c);
            ser_list_into(a, i + 1, out);
        }
        proof {
            assert(out@ =~= old(out)@ + sp_ser_list(jlist(a@), i as int));
        }
    }
}

/// Appends the serialized members of `m` from `i` on.
fn ser_members_into(m: &Vec<(Vec<u8>, Json)>, i: usize, out: &mut Vec<u8>)
    ensures
        final(out)@ == old(out)@ + sp_ser_members(jmembers(m@), i as int),
    decreases *m, 1int, m.len() - i,
{
    if i >= m.len() {
        proof {
            assert(out@ =~= old(out)@ + sp_ser_members(jmembers(m@), i as int));
        }
    } else {
        out.push(0x22);
        push_bytes(out, &m[i].0);
        out.push(0x22);
        out.push(0x3a);
        ser_into(&m[i].1, out);
        proof {
            assert(jmembers(m@)[i as int] == (m@[i as int].0@, jv(m@[i as int].1)));
        }
        if i + 1 < m.len() {
            out.push(0x2c);
            ser_members_into(m, i + 1, out);
        }
        proof {
            assert(out@ =~= old(out)@ + sp_ser_members(jmembers(m@), i as int));
        }
    }
}

/// Serializes a document.
pub fn ser_json(v: &Json) -> (r: Vec<u8>)
    ensures
        r@ == sp_ser(jv(*v)),
{
    let mut out: Vec<u8> = Vec::new();
    ser_into(v, &mut out);
    proof {
        assert(out@ =~= sp_ser(jv(*v)));
    }
    out
}

/// Parses a whole document: one value with nothing but whitespace after
/// it.
pub fn parse_json(s: &Vec<u8>) -> (r: Option<Json>)
    ensures
        match r {
            Some(j) => sp_json(s@) == Some(jv(j)),
            None => sp_json(s@) is None,
        },
{
    match parse_value(s, 0) {
        None => None,
        Some((val, p)) => {
            let q = skip_ws(s, p);
            if q == s.len() {
                Some(val)
            } else {
                None
            }
        },
    }
}

/// One parsed path segment.
pub enum Seg {
    Field(Vec<u8>),
    Index(u32),
}

pub open spec fn seg_v(s: Seg) -> SegV {
    match s {
        Seg::Field(f) => SegV::Field(f@),
        Seg::Index(x) => SegV::Index(x as int),
    }
}

pub open spec fn segs_view(v: Seq<Seg>) -> Seq<SegV> {
    Seq::new(v.len(), |q: int| seg_v(v[q]))
}

/// The end of the field-name run at `i`.
fn scan_field(s: &Vec<u8>, i: usize) -> (r: usize)
    requires
        i <= s.len(),
    ensures
        r == field_end(s@, i as int),
        i <= r <= s.len(),
{
    let mut p = i;
    while p < s.len() && s[p] != 0x2e && s[p] != 0x5b && s[p] != 0x5d
        invariant
            i <= p <= s.len(),
            field_end(s@, i as int) == field_end(s@, p as int),
        decreases s.len() - p,
    {
        p += 1;
    }
    p
}

/// The value of a digit run with leading zeros allowed is the value of
/// its suffix past them.
proof fn lemma_digits_skip_zero(s: Seq<u8>, i: int, j: int)
    requires
        i < j,
        s[i] == 0x30,
    ensures
        digits_val(s, i, j) == digits_val(s, i + 1, j),
    decreases j - i,
{
    if i + 1 < j {
        lemma_digits_skip_zero(s, i, j - 1);
    } else {
        assert(digits_val(s, i, j) == digits_val(s, i, i) * 10 + (s[i] - 0x30));
    }
}

/// An object lookup misses exactly when no member carries the name.
proof fn lemma_obj_lookup_absent(m: Seq<(Seq<u8>, JsonV)>, f: Seq<u8>)
    ensures
        (obj_lookup(m, f) is None) <==> (forall|q: int|
            0 <= q < m.len() ==> (#[trigger] m[q]).0 != f),
    decreases m.len(),
{
    if m.len() > 0 {
        lemma_obj_lookup_absent(m.drop_first(), f);
        assert(forall|q: int|
            0 <= q < m.drop_first().len() ==> #[trigger] m.drop_first()[q] == m[q + 1]);
        if m[0].0 != f && obj_lookup(m.drop_first(), f) is None {
            assert forall|q: int| 0 <= q < m.len() implies (#[trigger] m[q]).0 != f by {
                if q > 0 {
                    assert(m.drop_first()[q - 1] == m[q]);
                }
            }
        }
        if forall|q: int| 0 <= q < m.len() ==> (#[trigger] m[q]).0 != f {
            assert forall|q: int|
                0 <= q < m.drop_first().len() implies (#[trigger] m.drop_first()[q]).0 != f by {
                assert(m[q + 1].0 != f);
            }
        }
    }
}

/// Parses the bracketed index digits `[a, b)`, worth at most the largest
/// frame count.
fn parse_idx_u32(s: &Vec<u8>, a: usize, b: usize) -> (r: Option<u32>)
    requires
        a < b <= s.len(),
        b == digits_end(s@, a as int),
    ensures
        match r {
            Some(x) => x == digits_val(s@, a as int, b as int) && x <= 0xffff_ffff,
            None => digits_val(s@, a as int, b as int) > 0xffff_ffff,
        },
{
    proof {
        lemma_digits_end_props(s@, a as int);
    }
    let mut z = a;
    while z < b - 1 && s[z] == 0x30
        invariant
            a <= z < b <= s.len(),
            digits_val(s@, a as int, b as int) == digits_val(s@, z as int, b as int),
            forall|q: int| a <= q < b ==> is_digit(s@[q]),
        decreases b - z,
    {
        proof {
            lemma_digits_skip_zero(s@, z as int, b as int);
        }
        z += 1;
    }
    if b - z > 10 {
        proof {
            lemma_digits_lower(s@, z as int, b as int);
            lemma_pow10_ge(10, (b - z - 1) as nat);
            assert(pow10(10) == 10000000000) by {
                reveal_with_fuel(pow10, 11);
            }
        }
        return None;
    }
    let mut acc: u64 = 0;
    let mut p = z;
    while p < b
        invariant
            z <= p <= b <= s.len(),
            b - z <= 10,
            acc == digits_val(s@, z as int, p as int),
            acc < pow10((p - z) as nat),
            forall|q: int| z <= q < b ==> is_digit(s@[q]),
        decreases b - p,
    {
        proof {
            lemma_pow10_ge((p - z + 1) as nat, 10);
            assert(pow10(10) == 10000000000) by {
                reveal_with_fuel(pow10, 11);
            }
        }
        let d = s[p] - 0x30;
        acc = acc * 10 + (d as u64);
        p += 1;
        proof {
            lemma_digits_upper(s@, z as int, p as int);
        }
    }
    if acc <= 0xffff_ffffu64 {
        Some(acc as u32)
    } else {
        None
    }
}

/// Parses path segments from `i`.
fn parse_path_segs(s: &Vec<u8>, i: usize, first: bool) -> (r: Option<Vec<Seg>>)
    requires
        i <= s.len(),
    ensures
        match r {
            Some(v) => sp_path_segs(s@, i as int, first) == Some(segs_view(v@)),
            None => sp_path_segs(s@, i as int, first) is None,
        },
    decreases s.len() - i,
{
    if i >= s.len() {
        let v: Vec<Seg> = Vec::new();
        proof {
            assert(segs_view(v@) =~= Seq::<SegV>::empty());
        }
        return Some(v);
    }
    let c = s[i];
    if c == 0x2e {  // '.'
        let j = scan_field(s, i + 1);
        if j > i + 1 {
            let f = sub_bytes(s, i + 1, j);
            match parse_path_segs(s, j, false) {
                Some(rest) => {
                    let ghost r0 = rest@;
                    let mut rest = rest;
                    rest.insert(0, Seg::Field(f));
                    proof {
                        assert(segs_view(rest@) =~= seq![
                            SegV::Field(s@.subrange(i + 1, j as int)),
                        ] + segs_view(r0));
                    }
                    Some(rest)
                },
                None => None,
            }
        } else {
            None
        }
    } else if c == 0x5b {  // '['
        let j = scan_digits(s, i + 1);
        if j > i + 1 && j < s.len() && s[j] == 0x5d {
            match parse_idx_u32(s, i + 1, j) {
                Some(x) => match parse_path_segs(s, j + 1, false) {
                    Some(rest) => {
                        let ghost r0 = rest@;
                        let mut rest = rest;
                        rest.insert(0, Seg::Index(x));
                        proof {
                            assert(segs_view(rest@) =~= seq![SegV::Index(x as int)] + segs_view(
                                r0,
                            ));
                        }
                        Some(rest)
                    },
                    None => None,
                },
                None => None,
            }
        } else {
            None
        }
    } else if first && c != 0x2e && c != 0x5b && c != 0x5d {
        let j = scan_field(s, i);
        if j > i {
            let f = sub_bytes(s, i, j);
            match parse_path_segs(s, j, false) {
                Some(rest) => {
                    let ghost r0 = rest@;
                    let mut rest = rest;
                    rest.insert(0, Seg::Field(f));
                    proof {
                        assert(segs_view(rest@) =~= seq![
                            SegV::Field(s@.subrange(i as int, j as int)),
                        ] + segs_view(r0));
                    }
                    Some(rest)
                },
                None => None,
            }
        } else {
            None
        }
    } else {
        None
    }
}

/// Parses a whole path: an optional `$`, then segments.
pub fn parse_path(s: &Vec<u8>) -> (r: Option<Vec<Seg>>)
    ensures
        match r {
            Some(v) => sp_path(s@) == Some(segs_view(v@)),
            None => sp_path(s@) is None,
        },
{
    if s.len() > 0 && s[0] == 0x24 {  // '$'
        parse_path_segs(s, 1, true)
    } else {
        parse_path_segs(s, 0, true)
    }
}

/// The position of the first member named `f`, with the entry that
/// `obj_lookup` finds there.
fn find_member(m: &Vec<(Vec<u8>, Json)>, f: &Vec<u8>) -> (r: Option<usize>)
    ensures
        match r {
            Some(ix) => ix < m.len() && m@[ix as int].0@ == f@ && obj_lookup(jmembers(m@), f@)
                == Some(jv(m@[ix as int].1)) && (forall|q: int|
                0 <= q < ix ==> (#[trigger] jmembers(m@)[q]).0 != f@),
            None => obj_lookup(jmembers(m@), f@) is None,
        },
{
    let ghost full = jmembers(m@);
    let mut k: usize = 0;
    proof {
        assert(full.skip(0) =~= full);
    }
    while k < m.len()
        invariant
            k <= m.len(),
            full == jmembers(m@),
            obj_lookup(full, f@) == obj_lookup(full.skip(k as int), f@),
            forall|q: int| 0 <= q < k ==> (#[trigger] full[q]).0 != f@,
        decreases m.len() - k,
    {
        if bytes_eq(&m[k].0, f) {
            proof {
                assert(full.skip(k as int)[0] == full[k as int]);
                assert(obj_lookup(full.skip(k as int), f@) == Some(full[k as int].1));
            }
            return Some(k);
        }
        proof {
            assert(full.skip(k as int)[0] == full[k as int]);
            assert(full.skip(k as int).drop_first() =~= full.skip(k as int + 1));
        }
        k += 1;
    }
    proof {
        assert(full.skip(m.len() as int) =~= Seq::<(Seq<u8>, JsonV)>::empty());
    }
    None
}

/// The integer a document node holds, when it is an integer node.
pub fn as_int(j: &Json) -> (r: Option<i64>)
    ensures
        match jv(*j) {
            JsonV::Int(n) => r == Some(n),
            _ => r is None,
        },
{
    match j {
        Json::Int(n) => Some(*n),
        Json::Null => None,
        Json::Bool(_) => None,
        Json::Str(_) => None,
        Json::Arr(_) => None,
        Json::Obj(_) => None,
    }
}

/// The top-level integer field `f` of the document bytes, when the bytes
/// parse as an object holding one.
pub fn top_int(doc: &Vec<u8>, field: &Vec<u8>) -> (r: Option<i64>)
    ensures
        r == json_top_int(doc@, field@),
{
    match parse_json(doc) {
        None => None,
        Some(j) => match &j {
            Json::Obj(m) => {
                proof {
                    assert(jv(j) matches JsonV::Obj(l) && l =~= jmembers(m@));
                }
                match find_member(m, field) {
                    Some(ix) => as_int(&m[ix].1),
                    None => None,
                }
            },
            Json::Null => None,
            Json::Bool(_) => None,
            Json::Int(_) => None,
            Json::Str(_) => None,
            Json::Arr(_) => None,
        },
    }
}

/// Reads the node at `path` inside the document bytes and re-serializes
/// it.
pub fn json_get_bytes(doc: &Vec<u8>, path: &Vec<u8>) -> (r: Option<Vec<u8>>)
    ensures
        match r {
            Some(b) => sp_json_get(doc@, path@) == Some(b@),
            None => sp_json_get(doc@, path@) is None,
        },
{
    let jd = match parse_json(doc) {
        Some(j) => j,
        None => {
            return None;
        },
    };
    let segs = match parse_path(path) {
        Some(p) => p,
        None => {
            return None;
        },
    };
    let ghost sv = segs_view(segs@);
    let mut cur: &Json = &jd;
    let mut k: usize = 0;
    proof {
        assert(sv.skip(0) =~= sv);
    }
    while k < segs.len()
        invariant
            k <= segs.len(),
            sv == segs_view(segs@),
            sp_json(doc@) == Some(jv(jd)),
            sp_path(path@) == Some(sv),
            sp_descend(jv(jd), sv) == sp_descend(jv(*cur), sv.skip(k as int)),
        decreases segs.len() - k,
    {
        proof {
            assert(sv.skip(k as int)[0] == seg_v(segs@[k as int]));
            assert(sv.skip(k as int).drop_first() =~= sv.skip(k as int + 1));
        }
        match &segs[k] {
            Seg::Field(f) => {
                match cur {
                    Json::Obj(m) => {
                        proof {
                            assert(jv(*cur) matches JsonV::Obj(l) && l =~= jmembers(m@));
                        }
                        match find_member(m, f) {
                            Some(ix) => {
                                cur = &m[ix].1;
                            },
                            None => {
                                proof {
                                    assert(sp_descend(jv(*cur), sv.skip(k as int)) is None);
                                }
                                return None;
                            },
                        }
                    },
                    _ => {
                        proof {
                            assert(sp_descend(jv(*cur), sv.skip(k as int)) is None);
                        }
                        return None;
                    },
                }
            },
            Seg::Index(x) => {
                match cur {
                    Json::Arr(a) => {
                        proof {
                            assert(jv(*cur) matches JsonV::Arr(l) && l =~= jlist(a@));
                            assert(jlist(a@).len() == a@.len());
                        }
                        let xi = *x as usize;
                        if xi < a.len() {
                            cur = &a[xi];
                        } else {
                            proof {
                                assert(sp_descend(jv(*cur), sv.skip(k as int)) is None);
                            }
                            return None;
                        }
                    },
                    _ => {
                        proof {
                            assert(sp_descend(jv(*cur), sv.skip(k as int)) is None);
                        }
                        return None;
                    },
                }
            },
        }
        k += 1;
    }
    proof {
        assert(sv.skip(segs.len() as int) =~= Seq::<SegV>::empty());
    }
    Some(ser_json(cur))
}

proof fn lemma_obj_set_found(m: Seq<(Seq<u8>, JsonV)>, f: Seq<u8>, c: JsonV, ix: int)
    requires
        0 <= ix < m.len(),
        m[ix].0 == f,
        forall|q: int| 0 <= q < ix ==> (#[trigger] m[q]).0 != f,
    ensures
        obj_set(m, f, c) == m.update(ix, (f, c)),
    decreases m.len(),
{
    if ix == 0 {
        assert(obj_set(m, f, c) =~= m.update(0, (f, c)));
    } else {
        assert(forall|q: int|
            0 <= q < m.drop_first().len() ==> #[trigger] m.drop_first()[q] == m[q + 1]);
        lemma_obj_set_found(m.drop_first(), f, c, ix - 1);
        assert(obj_set(m, f, c) =~= m.update(ix, (f, c)));
    }
}

proof fn lemma_obj_set_absent(m: Seq<(Seq<u8>, JsonV)>, f: Seq<u8>, c: JsonV)
    requires
        forall|q: int| 0 <= q < m.len() ==> (#[trigger] m[q]).0 != f,
    ensures
        obj_set(m, f, c) == m.push((f, c)),
    decreases m.len(),
{
    if m.len() == 0 {
        assert(obj_set(m, f, c) =~= m.push((f, c)));
    } else {
        assert(forall|q: int|
            0 <= q < m.drop_first().len() ==> #[trigger] m.drop_first()[q] == m[q + 1]);
        lemma_obj_set_absent(m.drop_first(), f, c);
        assert(obj_set(m, f, c) =~= m.push((f, c)));
    }
}

/// Writes `nv` at the path suffix `segs[si..]` inside `cur`, building
/// containers as the path asks.
fn set_at(cur: Json, segs: &Vec<Seg>, si: usize, nv: Json) -> (r: Json)
    requires
        si <= segs.len(),
    ensures
        jv(r) == sp_set_at(jv(cur), segs_view(segs@).skip(si as int), jv(nv)),
    decreases segs.len() - si,
{
    let ghost cv = jv(cur);
    let ghost nvv = jv(nv);
    let ghost tail = segs_view(segs@).skip(si as int);
    if si == segs.len() {
        proof {
            assert(tail =~= Seq::<SegV>::empty());
        }
        return nv;
    }
    proof {
        assert(tail[0] == seg_v(segs@[si as int]));
        assert(tail.drop_first() =~= segs_view(segs@).skip(si as int + 1));
    }
    match &segs[si] {
        Seg::Field(f) => {
            let mut m: Vec<(Vec<u8>, Json)> = match cur {
                Json::Obj(mm) => {
                    proof {
                        assert(cv matches JsonV::Obj(l) && l =~= jmembers(mm@));
                    }
                    mm
                },
                _ => {
                    let e: Vec<(Vec<u8>, Json)> = Vec::new();
                    proof {
                        assert(jmembers(e@) =~= Seq::<(Seq<u8>, JsonV)>::empty());
                    }
                    e
                },
            };
            let ghost m0 = jmembers(m@);
            match find_member(&m, f) {
                Some(ix) => {
                    let ghost mpre = m@;
                    let (fk, child) = m.remove(ix);
                    let nc = set_at(child, segs, si + 1, nv);
                    proof {
                        lemma_obj_set_found(m0, f@, jv(nc), ix as int);
                    }
                    m.insert(ix, (fk, nc));
                    proof {
                        assert(m@ =~= mpre.update(ix as int, (fk, nc)));
                        assert(jmembers(m@) =~= m0.update(ix as int, (f@, jv(nc))));
                        assert(jv(Json::Obj(m)) matches JsonV::Obj(l) && l =~= jmembers(m@));
                        assert(jv(Json::Obj(m)) == JsonV::Obj(obj_set(m0, f@, jv(nc))));
                        assert(sp_set_at(cv, tail, nvv) == JsonV::Obj(
                            obj_set(m0, f@, sp_set_at(jv(child), tail.drop_first(), nvv)),
                        ));
                    }
                    Json::Obj(m)
                },
                None => {
                    let nc = set_at(Json::Null, segs, si + 1, nv);
                    proof {
                        lemma_obj_lookup_absent(m0, f@);
                        lemma_obj_set_absent(m0, f@, jv(nc));
                    }
                    m.push((clone_bytes(f), nc));
                    proof {
                        assert(jmembers(m@) =~= m0.push((f@, jv(nc))));
                        assert(jv(Json::Obj(m)) matches JsonV::Obj(l) && l =~= jmembers(m@));
                        assert(jv(Json::Obj(m)) == JsonV::Obj(obj_set(m0, f@, jv(nc))));
                        assert(sp_set_at(cv, tail, nvv) == JsonV::Obj(
                            obj_set(m0, f@, sp_set_at(JsonV::Null, tail.drop_first(), nvv)),
                        ));
                    }
                    Json::Obj(m)
                },
            }
        },
        Seg::Index(x) => {
            let xi = *x as usize;
            let mut a: Vec<Json> = match cur {
                Json::Arr(aa) => {
                    proof {
                        assert(cv matches JsonV::Arr(l) && l =~= jlist(aa@));
                    }
                    aa
                },
                _ => {
                    let e: Vec<Json> = Vec::new();
                    proof {
                        assert(jlist(e@) =~= Seq::<JsonV>::empty());
                    }
                    e
                },
            };
            let ghost a0 = a@;
            let ghost l0 = jlist(a0);
            let ghost schild: JsonV = if 0 <= xi < l0.len() {
                l0[xi as int]
            } else {
                JsonV::Null
            };
            let ghost spadded: Seq<JsonV> = if xi + 1 > l0.len() {
                l0 + Seq::new((xi + 1 - l0.len()) as nat, |q: int| JsonV::Null)
            } else {
                l0
            };
            while a.len() <= xi
                invariant
                    a0.len() <= a@.len() <= vstd::math::max(a0.len() as int, xi + 1),
                    forall|q: int| 0 <= q < a0.len() ==> a@[q] == a0[q],
                    forall|q: int| a0.len() <= q < a@.len() ==> a@[q] == Json::Null,
                decreases xi + 1 - a.len(),
            {
                a.push(Json::Null);
            }
            proof {
                assert(jlist(a@) =~= spadded);
                assert(a@[xi as int] == if xi < a0.len() {
                    a0[xi as int]
                } else {
                    Json::Null
                });
            }
            let ghost apad = a@;
            let child = a.remove(xi);
            proof {
                assert(jv(child) == schild);
            }
            let nc = set_at(child, segs, si + 1, nv);
            a.insert(xi, nc);
            proof {
                assert(a@ =~= apad.update(xi as int, nc));
                assert(jlist(a@) =~= spadded.update(xi as int, jv(nc)));
                assert(jv(Json::Arr(a)) matches JsonV::Arr(l) && l =~= jlist(a@));
                assert(jv(Json::Arr(a)) == JsonV::Arr(spadded.update(xi as int, jv(nc))));
                assert(sp_set_at(cv, tail, nvv) == JsonV::Arr(
                    spadded.update(xi as int, sp_set_at(schild, tail.drop_first(), nvv)),
                ));
            }
            Json::Arr(a)
        },
    }
}

/// Writes a value at a path over document bytes: an absent document
/// starts from null.
pub fn json_set_bytes(doc: Option<&Vec<u8>>, path: &Vec<u8>, val: &Vec<u8>) -> (r: Option<Vec<u8>>)
    ensures
        ({
            let sd = match doc {
                Some(d) => Some(d@),
                None => None,
            };
            match r {
                Some(b) => sp_json_set(sd, path@, val@) == Some(b@),
                None => sp_json_set(sd, path@, val@) is None,
            }
        }),
{
    let base: Json = match doc {
        Some(d) => match parse_json(d) {
            Some(j) => j,
            None => {
                return None;
            },
        },
        None => Json::Null,
    };
    let segs = match parse_path(path) {
        Some(sg) => sg,
        None => {
            return None;
        },
    };
    let nv = match parse_json(val) {
        Some(j) => j,
        None => {
            return None;
        },
    };
    proof {
        assert(segs_view(segs@).skip(0) =~= segs_view(segs@));
    }
    let res = set_at(base, &segs, 0, nv);
    Some(ser_json(&res))
}

} // verus!
