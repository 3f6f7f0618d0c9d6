//! A small JSON engine: documents with null, boolean, 64-bit integer,
//! string, array and object nodes, a parser and serializer over bytes, and
//! the dotted/indexed path grammar used by the JSON read and write
//! operations.
//!
//! Numbers are 64-bit signed integers: a document whose number does not
//! fit (or carries a fraction or exponent) does not parse, and such an
//! entry is treated as non-JSON by every JSON-driven operation.
use vstd::prelude::*;

verus! {

/// Spec-level image of a JSON document.
#[verifier::ext_equal]
pub enum JsonV {
    Null,
    Bool(bool),
    Int(i64),
    Str(Seq<u8>),
    Arr(Seq<JsonV>),
    Obj(Seq<(Seq<u8>, JsonV)>),
}

/// One JSON path segment: a field name or an array index.
#[verifier::ext_equal]
pub enum SegV {
    Field(Seq<u8>),
    Index(int),
}

pub open spec fn is_ws(c: u8) -> bool {
    c == 0x20 || c == 0x09 || c == 0x0a || c == 0x0d
}

pub open spec fn is_digit(c: u8) -> bool {
    0x30 <= c <= 0x39
}

/// The number of whitespace bytes at position `i`.
pub open spec fn ws_len(s: Seq<u8>, i: int) -> nat
    decreases s.len() - i,
{
    if 0 <= i < s.len() && is_ws(s[i]) {
        (1 + ws_len(s, i + 1)) as nat
    } else {
        0
    }
}

/// The end of the digit run that starts at `i`.
pub open spec fn digits_end(s: Seq<u8>, i: int) -> int
    decreases s.len() - i,
{
    if 0 <= i < s.len() && is_digit(s[i]) {
        digits_end(s, i + 1)
    } else {
        i
    }
}

/// The value of the digit run `s[i..j)`.
pub open spec fn digits_val(s: Seq<u8>, i: int, j: int) -> int
    decreases j - i,
{
    if i < j {
        digits_val(s, i, j - 1) * 10 + (s[j - 1] - 0x30)
    } else {
        0
    }
}

/// The position of the closing quote of a string that starts at `i`, or
/// -1 when none exists before an escape, a control byte or the end.
pub open spec fn str_end(s: Seq<u8>, i: int) -> int
    decreases s.len() - i,
{
    if !(0 <= i < s.len()) {
        -1
    } else if s[i] == 0x22 {
        i
    } else if s[i] == 0x5c || s[i] < 0x20 {
        -1
    } else {
        str_end(s, i + 1)
    }
}

/// Parses one JSON value at position `i` (leading whitespace allowed).
/// Returns the value and the position after it, or `None` and `i` when
/// the input is not JSON.
pub open spec fn sp_value(s: Seq<u8>, i: int) -> (Option<JsonV>, int)
    decreases s.len() - i, 0int,
{
    let j = i + ws_len(s, i);
    if !(0 <= i <= j < s.len()) {
        (None, i)
    } else if s[j] == 0x6e {  // 'n'
        if j + 4 <= s.len() && s[j + 1] == 0x75 && s[j + 2] == 0x6c && s[j + 3] == 0x6c {
            (Some(JsonV::Null), j + 4)
        } else {
            (None, i)
        }
    } else if s[j] == 0x74 {  // 't'
        if j + 4 <= s.len() && s[j + 1] == 0x72 && s[j + 2] == 0x75 && s[j + 3] == 0x65 {
            (Some(JsonV::Bool(true)), j + 4)
        } else {
            (None, i)
        }
    } else if s[j] == 0x66 {  // 'f'
        if j + 5 <= s.len() && s[j + 1] == 0x61 && s[j + 2] == 0x6c && s[j + 3] == 0x73 && s[j + 4]
            == 0x65 {
            (Some(JsonV::Bool(false)), j + 5)
        } else {
            (None, i)
        }
    } else if s[j] == 0x22 {  // '"'
        let e = str_end(s, j + 1);
        if e >= 0 {
            (Some(JsonV::Str(s.subrange(j + 1, e))), e + 1)
        } else {
            (None, i)
        }
    } else if s[j] == 0x5b {  // '['
        let (l, p) = sp_elems(s, j + 1);
        match l {
            Some(es) => (Some(JsonV::Arr(es)), p),
            None => (None, i),
        }
    } else if s[j] == 0x7b {  // '{'
        let (m, p) = sp_members(s, j + 1);
        match m {
            Some(ms) => (Some(JsonV::Obj(ms)), p),
            None => (None, i),
        }
    } else if s[j] == 0x2d || is_digit(s[j]) {  // '-' or digit
        let d0 = if s[j] == 0x2d {
            j + 1
        } else {
            j
        };
        let e = digits_end(s, d0);
        if e == d0 {
            (None, i)
        } else if s[d0] == 0x30 && e > d0 + 1 {  // leading zero
            (None, i)
        } else {
            let v = digits_val(s, d0, e);
            if s[j] == 0x2d {
                if -v >= i64::MIN {
                    (Some(JsonV::Int((-v) as i64)), e)
                } else {
                    (None, i)
                }
            } else {
                if v <= i64::MAX {
                    (Some(JsonV::Int(v as i64)), e)
                } else {
                    (None, i)
                }
            }
        }
    } else {
        (None, i)
    }
}

/// Parses the elements of an array after its `[`, including the closing
/// `]`. Returns the element sequence and the position after `]`.
pub open spec fn sp_elems(s: Seq<u8>, i: int) -> (Option<Seq<JsonV>>, int)
    decreases s.len() - i, 1int,
{
    let j = i + ws_len(s, i);
    if !(0 <= i <= j < s.len()) {
        (None, i)
    } else if s[j] == 0x5d {  // ']'
        (Some(Seq::empty()), j + 1)
    } else {
        let (v, p) = sp_value(s, i);
        match v {
            None => (None, i),
            Some(val) => if p <= i {
                (None, i)
            } else {
                let q = p + ws_len(s, p);
                if q < s.len() && s[q] == 0x2c {  // ','
                    let (rest, e) = sp_elems(s, q + 1);
                    match rest {
                        Some(rs) => (Some(seq![val] + rs), e),
                        None => (None, i),
                    }
                } else if q < s.len() && s[q] == 0x5d {
                    (Some(seq![val]), q + 1)
                } else {
                    (None, i)
                }
            },
        }
    }
}

/// Parses the members of an object after its `{`, including the closing
/// `}`. Returns the member sequence and the position after `}`.
pub open spec fn sp_members(s: Seq<u8>, i: int) -> (Option<Seq<(Seq<u8>, JsonV)>>, int)
    decreases s.len() - i, 1int,
{
    let j = i + ws_len(s, i);
    if !(0 <= i <= j < s.len()) {
        (None, i)
    } else if s[j] == 0x7d {  // '}'
        (Some(Seq::empty()), j + 1)
    } else if s[j] == 0x22 {
        let e = str_end(s, j + 1);
        if e >= 0 {
            let f = s.subrange(j + 1, e);
            let c = e + 1 + ws_len(s, e + 1);
            if c < s.len() && s[c] == 0x3a && c + 1 > i {  // ':'
                let (v, p) = sp_value(s, c + 1);
                match v {
                    None => (None, i),
                    Some(val) => if p <= i {
                        (None, i)
                    } else {
                        let q = p + ws_len(s, p);
                        if q < s.len() && s[q] == 0x2c {
                            let (rest, e2) = sp_members(s, q + 1);
                            match rest {
                                Some(rs) => (Some(seq![(f, val)] + rs), e2),
                                None => (None, i),
                            }
                        } else if q < s.len() && s[q] == 0x7d {
                            (Some(seq![(f, val)]), q + 1)
                        } else {
                            (None, i)
                        }
                    },
                }
            } else {
                (None, i)
            }
        } else {
            (None, i)
        }
    } else {
        (None, i)
    }
}

/// Parses a whole document: one value with nothing but whitespace after
/// it.
pub open spec fn sp_json(s: Seq<u8>) -> Option<JsonV> {
    let (v, p) = sp_value(s, 0);
    match v {
        Some(val) => if p + ws_len(s, p) == s.len() {
            Some(val)
        } else {
            None
        },
        None => None,
    }
}

/// The first member of an object under the given field name.
pub open spec fn obj_lookup(m: Seq<(Seq<u8>, JsonV)>, f: Seq<u8>) -> Option<JsonV>
    decreases m.len(),
{
    if m.len() == 0 {
        None
    } else if m[0].0 == f {
        Some(m[0].1)
    } else {
        obj_lookup(m.drop_first(), f)
    }
}

/// The top-level integer field `f` of the JSON document `b`, when `b`
/// parses as an object that holds one.
pub open spec fn json_top_int(b: Seq<u8>, f: Seq<u8>) -> Option<i64> {
    match sp_json(b) {
        Some(JsonV::Obj(m)) => match obj_lookup(m, f) {
            Some(JsonV::Int(n)) => Some(n),
            _ => None,
        },
        _ => None,
    }
}

/// Bytes allowed inside a path field name: anything but `.`, `[` and
/// `]`.
pub open spec fn is_field_char(c: u8) -> bool {
    c != 0x2e && c != 0x5b && c != 0x5d
}

/// The end of the field-name run that starts at `i`.
pub open spec fn field_end(s: Seq<u8>, i: int) -> int
    decreases s.len() - i,
{
    if 0 <= i < s.len() && is_field_char(s[i]) {
        field_end(s, i + 1)
    } else {
        i
    }
}

/// Parses path segments from position `i`. A segment is `.field`, a bare
/// `field` at the start, or `[idx]`; any other shape fails.
pub open spec fn sp_path_segs(s: Seq<u8>, i: int, first: bool) -> Option<Seq<SegV>>
    decreases s.len() - i,
{
    if i >= s.len() {
        Some(Seq::empty())
    } else if s[i] == 0x2e {  // '.'
        let j = field_end(s, i + 1);
        if i + 1 < j && j <= s.len() {
            match sp_path_segs(s, j, false) {
                Some(rest) => Some(seq![SegV::Field(s.subrange(i + 1, j))] + rest),
                None => None,
            }
        } else {
            None
        }
    } else if s[i] == 0x5b {  // '['
        let j = digits_end(s, i + 1);
        if i + 1 < j && j < s.len() && s[j] == 0x5d {
            let v = digits_val(s, i + 1, j);
            if v <= 0xffff_ffff {
                match sp_path_segs(s, j + 1, false) {
                    Some(rest) => Some(seq![SegV::Index(v)] + rest),
                    None => None,
                }
            } else {
                None
            }
        } else {
            None
        }
    } else if first && is_field_char(s[i]) {
        let j = field_end(s, i);
        if i < j && j <= s.len() {
            match sp_path_segs(s, j, false) {
                Some(rest) => Some(seq![SegV::Field(s.subrange(i, j))] + rest),
                None => None,
            }
        } else {
            None
        }
    } else {
        None
    }
}

/// Parses a whole path: an optional `$`, then segments. The empty path
/// names the whole document.
pub open spec fn sp_path(s: Seq<u8>) -> Option<Seq<SegV>> {
    if s.len() > 0 && s[0] == 0x24 {  // '$'
        sp_path_segs(s, 1, true)
    } else {
        sp_path_segs(s, 0, true)
    }
}

/// Follows the segments down the document: object lookup for a field,
/// array index for an index. A missing step yields `None`.
pub open spec fn sp_descend(v: JsonV, segs: Seq<SegV>) -> Option<JsonV>
    decreases segs.len(),
{
    if segs.len() == 0 {
        Some(v)
    } else {
        match segs[0] {
            SegV::Field(f) => match v {
                JsonV::Obj(m) => match obj_lookup(m, f) {
                    Some(c) => sp_descend(c, segs.drop_first()),
                    None => None,
                },
                _ => None,
            },
            SegV::Index(ix) => match v {
                JsonV::Arr(l) => if 0 <= ix < l.len() {
                    sp_descend(l[ix], segs.drop_first())
                } else {
                    None
                },
                _ => None,
            },
        }
    }
}

/// Reading at a path: parse the document, descend, re-serialize the node.
pub open spec fn sp_json_get(doc: Seq<u8>, path: Seq<u8>) -> Option<Seq<u8>> {
    match sp_json(doc) {
        Some(v) => match sp_path(path) {
            Some(segs) => match sp_descend(v, segs) {
                Some(node) => Some(sp_ser(node)),
                None => None,
            },
            None => None,
        },
        None => None,
    }
}

/// Replaces the first member named `f`, or appends one.
pub open spec fn obj_set(m: Seq<(Seq<u8>, JsonV)>, f: Seq<u8>, c: JsonV) -> Seq<(Seq<u8>, JsonV)>
    decreases m.len(),
{
    if m.len() == 0 {
        seq![(f, c)]
    } else if m[0].0 == f {
        seq![(f, c)] + m.drop_first()
    } else {
        seq![m[0]] + obj_set(m.drop_first(), f, c)
    }
}

/// Writing at a path. An intermediate field segment that lands on a
/// non-object replaces it with an empty object; an index segment on a
/// non-array replaces it with an empty array, extended with nulls up to
/// the needed index.
pub open spec fn sp_set_at(v: JsonV, segs: Seq<SegV>, nv: JsonV) -> JsonV
    decreases segs.len(),
{
    if segs.len() == 0 {
        nv
    } else {
        match segs[0] {
            SegV::Field(f) => {
                let m = match v {
                    JsonV::Obj(m0) => m0,
                    _ => Seq::empty(),
                };
                let child = match obj_lookup(m, f) {
                    Some(c) => c,
                    None => JsonV::Null,
                };
                JsonV::Obj(obj_set(m, f, sp_set_at(child, segs.drop_first(), nv)))
            },
            SegV::Index(ix) => {
                let l = match v {
                    JsonV::Arr(l0) => l0,
                    _ => Seq::empty(),
                };
                let child = if 0 <= ix < l.len() {
                    l[ix]
                } else {
                    JsonV::Null
                };
                let padded = if ix + 1 > l.len() {
                    l + Seq::new((ix + 1 - l.len()) as nat, |q: int| JsonV::Null)
                } else {
                    l
                };
                JsonV::Arr(padded.update(ix, sp_set_at(child, segs.drop_first(), nv)))
            },
        }
    }
}

/// Writing at a path over bytes: parse the stored document (an absent
/// key starts from null), parse the new value, write at the path, and
/// re-serialize.
pub open spec fn sp_json_set(doc: Option<Seq<u8>>, path: Seq<u8>, val: Seq<u8>) -> Option<Seq<u8>> {
    let base = match doc {
        Some(b) => sp_json(b),
        None => Some(JsonV::Null),
    };
    match base {
        Some(bv) => match sp_path(path) {
            Some(segs) => match sp_json(val) {
                Some(nv) => Some(sp_ser(sp_set_at(bv, segs, nv))),
                None => None,
            },
            None => None,
        },
        None => None,
    }
}

/// The decimal digits of `n`.
pub open spec fn dec_digits(n: int) -> Seq<u8>
    decreases n,
{
    if n <= 0 {
        Seq::empty()
    } else {
        dec_digits(n / 10) + seq![(0x30 + n % 10) as u8]
    }
}

/// The serialized bytes of an integer.
pub open spec fn int_bytes(n: int) -> Seq<u8> {
    if n == 0 {
        seq![0x30u8]
    } else if n < 0 {
        seq![0x2du8] + dec_digits(-n)
    } else {
        dec_digits(n)
    }
}

/// Serializes a document, with no whitespace, object members and array
/// elements in stored order.
pub open spec fn sp_ser(v: JsonV) -> Seq<u8>
    decreases v, 0int, 0int,
{
    match v {
        JsonV::Null => seq![0x6eu8, 0x75u8, 0x6cu8, 0x6cu8],
        JsonV::Bool(b) => if b {
            seq![0x74u8, 0x72u8, 0x75u8, 0x65u8]
        } else {
            seq![0x66u8, 0x61u8, 0x6cu8, 0x73u8, 0x65u8]
        },
        JsonV::Int(n) => int_bytes(n as int),
        JsonV::Str(s) => seq![0x22u8] + s + seq![0x22u8],
        JsonV::Arr(l) => seq![0x5bu8] + sp_ser_list(l, 0) + seq![0x5du8],
        JsonV::Obj(m) => seq![0x7bu8] + sp_ser_members(m, 0) + seq![0x7du8],
    }
}

/// Serializes the elements of an array from position `i` on, separated by
/// commas.
pub open spec fn sp_ser_list(l: Seq<JsonV>, i: int) -> Seq<u8>
    decreases l, 1int, l.len() - i,
{
    if !(0 <= i < l.len()) {
        Seq::empty()
    } else {
        let head = sp_ser(l[i]);
        if i + 1 < l.len() {
            head + seq![0x2cu8] + sp_ser_list(l, i + 1)
        } else {
            head
        }
    }
}

/// Serializes the members of an object from position `i` on.
pub open spec fn sp_ser_members(m: Seq<(Seq<u8>, JsonV)>, i: int) -> Seq<u8>
    decreases m, 1int, m.len() - i,
{
    if !(0 <= i < m.len()) {
        Seq::empty()
    } else {
        let head = seq![0x22u8] + m[i].0 + seq![0x22u8, 0x3au8] + sp_ser(m[i].1);
        if i + 1 < m.len() {
            head + seq![0x2cu8] + sp_ser_members(m, i + 1)
        } else {
            head
        }
    }
}

} // verus!
