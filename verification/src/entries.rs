//! Abstract views of sorted runs of key/value entries, shared by the
//! memtable, the SSTable codec and compaction.
use vstd::prelude::*;
use crate::order::{lex_lt, lemma_lex_order_facts};

verus! {

/// One entry in the abstract: a key and either a live value (`Some`) or a
/// deletion marker (`None`).
pub type Entry = (Seq<u8>, Option<Seq<u8>>);

/// A run is sorted when its keys are strictly increasing.
pub open spec fn keys_sorted(s: Seq<Entry>) -> bool {
    forall|i: int, j: int| 0 <= i < j < s.len() ==> lex_lt(#[trigger] s[i].0, #[trigger] s[j].0)
}

/// The run holds an entry for `k`.
pub open spec fn has_key(s: Seq<Entry>, k: Seq<u8>) -> bool {
    exists|i: int| 0 <= i < s.len() && #[trigger] s[i].0 == k
}

/// The position of an entry for `k` (meaningful when `has_key`).
pub open spec fn key_pos(s: Seq<Entry>, k: Seq<u8>) -> int {
    choose|i: int| 0 <= i < s.len() && #[trigger] s[i].0 == k
}

/// The map from keys to entries that a run denotes.
pub open spec fn entries_map(s: Seq<Entry>) -> Map<Seq<u8>, Option<Seq<u8>>> {
    Map::new(|k: Seq<u8>| has_key(s, k), |k: Seq<u8>| s[key_pos(s, k)].1)
}

/// The keys of a run, in order.
pub open spec fn run_keys(s: Seq<Entry>) -> Seq<Seq<u8>> {
    s.map_values(|e: Entry| e.0)
}

/// In a sorted run, the entry at position `i` is the one the map gives for its key.
pub proof fn lemma_sorted_lookup(s: Seq<Entry>, i: int)
    requires
        keys_sorted(s),
        0 <= i < s.len(),
    ensures
        entries_map(s).contains_key(s[i].0),
        entries_map(s)[s[i].0] == s[i].1,
        key_pos(s, s[i].0) == i,
{
    lemma_lex_order_facts();
    assert(has_key(s, s[i].0));
    let j = key_pos(s, s[i].0);
    if j < i {
        assert(lex_lt(s[j].0, s[i].0));
    } else if j > i {
        assert(lex_lt(s[i].0, s[j].0));
    }
}

} // verus!
