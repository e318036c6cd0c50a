//! Records and key filters: the payloads a loglet stores and the filter a
//! reader applies to them.

use vstd::prelude::*;

verus! {

/// The keys a record was written under. A record without keys is visible to
/// every reader; a keyed record is visible only to filters that cover one of
/// its keys.
#[derive(Clone, Copy, Debug, PartialEq, Eq, Structural)]
pub enum Keys {
    Nothing,
    Single(u64),
    Pair(u64, u64),
    RangeInclusive(u64, u64),
}

/// The filter of a read: which keys the reader wants delivered.
#[derive(Clone, Copy, Debug, PartialEq, Eq, Structural)]
pub enum KeyFilter {
    Any,
    Include(u64),
    Within(u64, u64),
}

/// Whether a single key passes a filter.
pub open spec fn key_in_filter(k: u64, filter: KeyFilter) -> bool {
    match filter {
        KeyFilter::Any => true,
        KeyFilter::Include(x) => k == x,
        KeyFilter::Within(lo, hi) => lo <= k <= hi,
    }
}

/// Whether a record with the given keys passes a filter. A record without
/// keys passes every filter; otherwise some key of the record must pass.
pub open spec fn keys_pass_filter(keys: Keys, filter: KeyFilter) -> bool {
    match keys {
        Keys::Nothing => true,
        Keys::Single(k) => key_in_filter(k, filter),
        Keys::Pair(a, b) => key_in_filter(a, filter) || key_in_filter(b, filter),
        Keys::RangeInclusive(lo, hi) => match filter {
            KeyFilter::Any => true,
            KeyFilter::Include(x) => lo <= x <= hi,
            KeyFilter::Within(flo, fhi) => lo <= fhi && flo <= hi,
        },
    }
}

/// Executable filter check, equal to [`keys_pass_filter`].
pub fn record_passes_filter(keys: Keys, filter: KeyFilter) -> (r: bool)
    ensures
        r == keys_pass_filter(keys, filter),
{
    match keys {
        Keys::Nothing => true,
        Keys::Single(k) => key_passes(k, filter),
        Keys::Pair(a, b) => key_passes(a, filter) || key_passes(b, filter),
        Keys::RangeInclusive(lo, hi) => match filter {
            KeyFilter::Any => true,
            KeyFilter::Include(x) => lo <= x && x <= hi,
            KeyFilter::Within(flo, fhi) => lo <= fhi && flo <= hi,
        },
    }
}

fn key_passes(k: u64, filter: KeyFilter) -> (r: bool)
    ensures
        r == key_in_filter(k, filter),
{
    match filter {
        KeyFilter::Any => true,
        KeyFilter::Include(x) => k == x,
        KeyFilter::Within(lo, hi) => lo <= k && k <= hi,
    }
}

/// One record of the loglet: its keys and its payload bytes.
#[derive(Debug)]
pub struct Record {
    pub keys: Keys,
    pub payload: Vec<u8>,
}

impl Record {
    /// A record without keys.
    pub fn plain(payload: Vec<u8>) -> (r: Record)
        ensures
            r.keys == Keys::Nothing,
            r.payload@ == payload@,
    {
        Record { keys: Keys::Nothing, payload }
    }

    /// A record under a single key.
    pub fn keyed(key: u64, payload: Vec<u8>) -> (r: Record)
        ensures
            r.keys == Keys::Single(key),
            r.payload@ == payload@,
    {
        Record { keys: Keys::Single(key), payload }
    }

    /// An exact copy of this record.
    pub fn copy(&self) -> (r: Record)
        ensures
            r.keys == self.keys,
            r.payload@ == self.payload@,
    {
        Record { keys: self.keys, payload: copy_bytes(&self.payload) }
    }
}

/// An exact copy of a byte vector.
pub fn copy_bytes(v: &Vec<u8>) -> (r: Vec<u8>)
    ensures
        r@ == v@,
{
    let mut r: Vec<u8> = Vec::new();
    let mut i: usize = 0;
    while i < v.len()
        invariant
            i <= v.len(),
            r@ == v@.take(i as int),
        decreases v.len() - i,
    {
        r.push(v[i]);
        i = i + 1;
        proof {
            assert(r@ =~= v@.take(i as int));
        }
    }
    proof {
        assert(r@ =~= v@);
    }
    r
}

} // verus!
