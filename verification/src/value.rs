//! The typed value model: the six value variants an entry can hold, the
//! optional expiration deadline, and their spec-level images.
use vstd::prelude::*;

verus! {

/// Spec-level image of a stored value.
#[verifier::ext_equal]
pub enum ValueV {
    Bytes(Seq<u8>),
    Hash(Seq<(Seq<u8>, Seq<u8>)>),
    List(Seq<Seq<u8>>),
    SetVal(Seq<Seq<u8>>),
    SortedSet(Seq<(i64, Seq<u8>)>),
    Stream(Seq<(u64, Seq<u8>)>),
}

/// Spec-level image of an entry: a value and an optional absolute
/// deadline in milliseconds since the Unix epoch.
#[verifier::ext_equal]
pub struct EntryV {
    pub value: ValueV,
    pub deadline: Option<u64>,
}

/// One stored value: an opaque byte buffer, a field map, an ordered list
/// (index 0 is the head), a set of members, a score-ordered set, or a
/// stream of (id, payload) entries.
pub enum Value {
    Bytes(Vec<u8>),
    Hash(Vec<(Vec<u8>, Vec<u8>)>),
    List(Vec<Vec<u8>>),
    SetVal(Vec<Vec<u8>>),
    SortedSet(Vec<(i64, Vec<u8>)>),
    Stream(Vec<(u64, Vec<u8>)>),
}

/// One stored entry: a value and an optional absolute deadline.
pub struct Entry {
    pub value: Value,
    pub deadline: Option<u64>,
}

pub open spec fn bytes_seq_view(v: Seq<Vec<u8>>) -> Seq<Seq<u8>> {
    v.map_values(|b: Vec<u8>| b@)
}

pub open spec fn pairs_view(v: Seq<(Vec<u8>, Vec<u8>)>) -> Seq<(Seq<u8>, Seq<u8>)> {
    v.map_values(|p: (Vec<u8>, Vec<u8>)| (p.0@, p.1@))
}

pub open spec fn scored_view(v: Seq<(u64, Vec<u8>)>) -> Seq<(u64, Seq<u8>)> {
    v.map_values(|p: (u64, Vec<u8>)| (p.0, p.1@))
}

pub open spec fn ipairs_view(v: Seq<(i64, Vec<u8>)>) -> Seq<(i64, Seq<u8>)> {
    v.map_values(|p: (i64, Vec<u8>)| (p.0, p.1@))
}

impl View for Value {
    type V = ValueV;

    open spec fn view(&self) -> ValueV {
        match self {
            Value::Bytes(b) => ValueV::Bytes(b@),
            Value::Hash(h) => ValueV::Hash(pairs_view(h@)),
            Value::List(l) => ValueV::List(bytes_seq_view(l@)),
            Value::SetVal(s) => ValueV::SetVal(bytes_seq_view(s@)),
            Value::SortedSet(z) => ValueV::SortedSet(ipairs_view(z@)),
            Value::Stream(x) => ValueV::Stream(scored_view(x@)),
        }
    }
}

impl View for Entry {
    type V = EntryV;

    open spec fn view(&self) -> EntryV {
        EntryV { value: self.value@, deadline: self.deadline }
    }
}

/// Every length that is written into an output frame or a log record is a
/// 32-bit little-endian count, so stored strings and collections are kept
/// no longer than this.
pub open spec fn fits_u32(n: nat) -> bool {
    n <= 0xffff_ffff
}

/// Structural well-formedness of a value: frame lengths fit, hash fields
/// and set members are distinct, sorted sets are ordered by score key,
/// stream ids are strictly increasing.
pub open spec fn value_wf(v: ValueV) -> bool {
    match v {
        ValueV::Bytes(b) => fits_u32(b.len()),
        ValueV::Hash(h) => {
            &&& fits_u32(h.len())
            &&& forall|i: int|
                0 <= i < h.len() ==> fits_u32((#[trigger] h[i]).0.len()) && fits_u32(h[i].1.len())
            &&& forall|i: int, j: int| 0 <= i < j < h.len() ==> h[i].0 != h[j].0
        },
        ValueV::List(l) => {
            &&& fits_u32(l.len())
            &&& forall|i: int| 0 <= i < l.len() ==> fits_u32((#[trigger] l[i]).len())
        },
        ValueV::SetVal(s) => {
            &&& fits_u32(s.len())
            &&& forall|i: int| 0 <= i < s.len() ==> fits_u32((#[trigger] s[i]).len())
            &&& forall|i: int, j: int| 0 <= i < j < s.len() ==> s[i] != s[j]
        },
        ValueV::SortedSet(z) => {
            &&& fits_u32(z.len())
            &&& forall|i: int| 0 <= i < z.len() ==> fits_u32((#[trigger] z[i]).1.len())
            &&& forall|i: int, j: int| 0 <= i < j < z.len() ==> z[i].0 <= z[j].0
            &&& forall|i: int, j: int| 0 <= i < j < z.len() ==> z[i].1 != z[j].1
        },
        ValueV::Stream(x) => {
            &&& fits_u32(x.len())
            &&& forall|i: int| 0 <= i < x.len() ==> fits_u32((#[trigger] x[i]).1.len())
            &&& forall|i: int, j: int| 0 <= i < j < x.len() ==> x[i].0 < x[j].0
        },
    }
}

pub open spec fn entry_wf(e: EntryV) -> bool {
    value_wf(e.value)
}

/// An entry is expired iff its deadline is set and the current time has
/// reached it.
pub open spec fn is_expired(e: EntryV, now: u64) -> bool {
    match e.deadline {
        Some(d) => now >= d,
        None => false,
    }
}

/// Returns a copy of a byte buffer.
pub fn clone_bytes(v: &Vec<u8>) -> (r: Vec<u8>)
    ensures
        r@ == v@,
{
    let mut r: Vec<u8> = Vec::new();
    let mut i: usize = 0;
    while i < v.len()
        invariant
            i <= v.len(),
            r@ == v@.subrange(0, i as int),
        decreases v.len() - i,
    {
        r.push(v[i]);
        i += 1;
        proof {
            assert(r@ =~= v@.subrange(0, i as int));
        }
    }
    proof {
        assert(r@ =~= v@);
    }
    r
}

/// Returns a copy of a list of byte buffers.
pub fn clone_list(v: &Vec<Vec<u8>>) -> (r: Vec<Vec<u8>>)
    ensures
        bytes_seq_view(r@) == bytes_seq_view(v@),
{
    let mut r: Vec<Vec<u8>> = Vec::new();
    let mut i: usize = 0;
    while i < v.len()
        invariant
            i <= v.len(),
            r@.len() == i,
            forall|j: int| 0 <= j < i ==> (#[trigger] r@[j])@ == v@[j]@,
        decreases v.len() - i,
    {
        r.push(clone_bytes(&v[i]));
        i += 1;
    }
    proof {
        assert(bytes_seq_view(r@) =~= bytes_seq_view(v@));
    }
    r
}

/// Returns a copy of a field-to-value pair list.
pub fn clone_pairs(v: &Vec<(Vec<u8>, Vec<u8>)>) -> (r: Vec<(Vec<u8>, Vec<u8>)>)
    ensures
        pairs_view(r@) == pairs_view(v@),
{
    let mut r: Vec<(Vec<u8>, Vec<u8>)> = Vec::new();
    let mut i: usize = 0;
    while i < v.len()
        invariant
            i <= v.len(),
            r@.len() == i,
            forall|j: int|
                0 <= j < i ==> (#[trigger] r@[j]).0@ == v@[j].0@ && r@[j].1@ == v@[j].1@,
        decreases v.len() - i,
    {
        let p = &v[i];
        r.push((clone_bytes(&p.0), clone_bytes(&p.1)));
        i += 1;
    }
    proof {
        assert(pairs_view(r@) =~= pairs_view(v@));
    }
    r
}

/// Returns a copy of a scored-member or stream-entry list.
pub fn clone_scored(v: &Vec<(u64, Vec<u8>)>) -> (r: Vec<(u64, Vec<u8>)>)
    ensures
        scored_view(r@) == scored_view(v@),
{
    let mut r: Vec<(u64, Vec<u8>)> = Vec::new();
    let mut i: usize = 0;
    while i < v.len()
        invariant
            i <= v.len(),
            r@.len() == i,
            forall|j: int|
                0 <= j < i ==> (#[trigger] r@[j]).0 == v@[j].0 && r@[j].1@ == v@[j].1@,
        decreases v.len() - i,
    {
        let p = &v[i];
        r.push((p.0, clone_bytes(&p.1)));
        i += 1;
    }
    proof {
        assert(scored_view(r@) =~= scored_view(v@));
    }
    r
}

/// Returns a copy of a score-keyed member list.
pub fn clone_ipairs(v: &Vec<(i64, Vec<u8>)>) -> (r: Vec<(i64, Vec<u8>)>)
    ensures
        ipairs_view(r@) == ipairs_view(v@),
{
    let mut r: Vec<(i64, Vec<u8>)> = Vec::new();
    let mut i: usize = 0;
    while i < v.len()
        invariant
            i <= v.len(),
            r@.len() == i,
            forall|j: int|
                0 <= j < i ==> (#[trigger] r@[j]).0 == v@[j].0 && r@[j].1@ == v@[j].1@,
        decreases v.len() - i,
    {
        let p = &v[i];
        r.push((p.0, clone_bytes(&p.1)));
        i += 1;
    }
    proof {
        assert(ipairs_view(r@) =~= ipairs_view(v@));
    }
    r
}

impl Value {
    /// Returns a copy of the value.
    pub fn duplicate(&self) -> (r: Value)
        ensures
            r@ == self@,
    {
        match self {
            Value::Bytes(b) => Value::Bytes(clone_bytes(b)),
            Value::Hash(h) => Value::Hash(clone_pairs(h)),
            Value::List(l) => Value::List(clone_list(l)),
            Value::SetVal(s) => Value::SetVal(clone_list(s)),
            Value::SortedSet(z) => Value::SortedSet(clone_ipairs(z)),
            Value::Stream(x) => Value::Stream(clone_scored(x)),
        }
    }
}

impl Entry {
    /// Returns a copy of the entry.
    pub fn duplicate(&self) -> (r: Entry)
        ensures
            r@ == self@,
    {
        Entry { value: self.value.duplicate(), deadline: self.deadline }
    }
}

/// Compares two byte buffers.
pub fn bytes_eq(a: &Vec<u8>, b: &Vec<u8>) -> (r: bool)
    ensures
        r == (a@ == b@),
{
    if a.len() != b.len() {
        return false;
    }
    let mut i: usize = 0;
    while i < a.len()
        invariant
            i <= a.len(),
            a.len() == b.len(),
            forall|j: int| 0 <= j < i ==> a@[j] == b@[j],
        decreases a.len() - i,
    {
        if a[i] != b[i] {
            return false;
        }
        i += 1;
    }
    proof {
        assert(a@ =~= b@);
    }
    true
}

} // verus!
