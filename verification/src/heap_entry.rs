//! The order in which compaction's merge takes entries: by key, then newest
//! source first, then later source first.
use vstd::prelude::*;
use vstd::std_specs::cmp::PartialEqSpecImpl;
use vstd::std_specs::cmp::PartialOrdSpecImpl;
use std::cmp::Ordering;
use crate::order::{lex_lt, bytes_eq, bytes_lt};
use crate::memtable::Value;

verus! {

/// An entry of the merge, with the sequence number and index of its source.
#[derive(Debug)]
pub struct HeapEntry {
    pub key: Vec<u8>,
    pub value: Value,
    /// The source table's sequence number (higher is newer).
    pub seq: u64,
    /// The index of the source.
    pub src: usize,
}

/// `a` is taken before `b`: smaller key, or the same key from a newer source,
/// or the same key and sequence number from a later source.
pub open spec fn heap_before(ak: Seq<u8>, aseq: u64, asrc: int, bk: Seq<u8>, bseq: u64, bsrc: int) -> bool {
    lex_lt(ak, bk) || (ak == bk && (aseq > bseq || (aseq == bseq && asrc > bsrc)))
}

/// `a` is taken before `b`.
pub open spec fn entry_before(a: &HeapEntry, b: &HeapEntry) -> bool {
    heap_before(a.key@, a.seq, a.src as int, b.key@, b.seq, b.src as int)
}

impl HeapEntry {
    /// This entry is taken before `other`.
    pub fn precedes(&self, other: &HeapEntry) -> (r: bool)
        ensures
            r == heap_before(self.key@, self.seq, self.src as int, other.key@, other.seq, other.src as int),
    {
        if bytes_lt(self.key.as_slice(), other.key.as_slice()) {
            true
        } else if bytes_eq(self.key.as_slice(), other.key.as_slice()) {
            self.seq > other.seq || (self.seq == other.seq && self.src > other.src)
        } else {
            false
        }
    }

    /// All four fields agree.
    pub fn same_as(&self, other: &HeapEntry) -> (r: bool)
        ensures
            r == (self.key@ == other.key@ && self.value@ == other.value@ && self.seq == other.seq && self.src == other.src),
    {
        let values_agree = match (&self.value, &other.value) {
            (Value::Data(a), Value::Data(b)) => bytes_eq(a.as_slice(), b.as_slice()),
            (Value::Tombstone, Value::Tombstone) => true,
            _ => false,
        };
        bytes_eq(self.key.as_slice(), other.key.as_slice()) && values_agree && self.seq == other.seq && self.src == other.src
    }
}

impl PartialEq for HeapEntry {
    fn eq(&self, other: &HeapEntry) -> (r: bool) {
        self.same_as(other)
    }
}

impl PartialEqSpecImpl for HeapEntry {
    open spec fn obeys_eq_spec() -> bool {
        true
    }

    open spec fn eq_spec(&self, other: &HeapEntry) -> bool {
        self.key@ == other.key@ && self.value@ == other.value@ && self.seq == other.seq && self.src == other.src
    }
}

impl Eq for HeapEntry {}

impl PartialOrd for HeapEntry {
    fn partial_cmp(&self, other: &HeapEntry) -> (r: Option<Ordering>) {
        if self.precedes(other) {
            Some(Ordering::Less)
        } else if other.precedes(self) {
            Some(Ordering::Greater)
        } else {
            Some(Ordering::Equal)
        }
    }
}

impl PartialOrdSpecImpl for HeapEntry {
    open spec fn obeys_partial_cmp_spec() -> bool {
        true
    }

    open spec fn partial_cmp_spec(&self, other: &HeapEntry) -> Option<Ordering> {
        if entry_before(self, other) {
            Some(Ordering::Less)
        } else if entry_before(other, self) {
            Some(Ordering::Greater)
        } else {
            Some(Ordering::Equal)
        }
    }
}

} // verus!
