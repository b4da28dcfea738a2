//! Leveled compaction: the merge of sorted runs and the splitting of its
//! output into tables.
use vstd::prelude::*;
use crate::order::{lex_lt, bytes_eq, lemma_lex_order_facts};
use crate::entries::{Entry, keys_sorted, has_key, key_pos, entries_map, run_keys};
use crate::memtable::{Value, entries_view, copy_bytes};
use crate::heap_entry::heap_before;
use crate::error::Error;
use crate::sstable::{SsTableReader, spec_open, scan_all_spec, table_image, bloom_after, words_for, compresses, encode_fails, some_encode_fails, image_sized_by,
    data_block, stored_value, write_sstable, BLOOM_CAPACITY};
use crate::compress::{zstd_frame, spec_zstd_decode};
use crate::table::{Table, table_name, table_file_name};

verus! {

pub const L0_COMPACTION_TRIGGER: usize = 4;
pub const MAX_LEVELS: usize = 7;

/// 10 to the power `n`.
pub open spec fn pow10(n: nat) -> nat
    decreases n,
{
    if n == 0 { 1 } else { 10 * pow10((n - 1) as nat) }
}

/// The size threshold (bytes) of a level: unbounded for level 0 (which is
/// triggered by its table count), 10 MiB for level 1, 10^l MiB beyond.
pub open spec fn spec_level_size_threshold(level: nat) -> nat {
    if level == 0 {
        u64::MAX as nat
    } else if level == 1 {
        10 * 1024 * 1024
    } else {
        pow10(level) * 1024 * 1024
    }
}

/// The size threshold of a level (up to level 13, beyond which it would not
/// fit 64 bits).
pub fn level_size_threshold(level: usize) -> (r: u64)
    requires
        level <= 13,
    ensures
        r == spec_level_size_threshold(level as nat),
{
    if level == 0 {
        u64::MAX
    } else if level == 1 {
        10 * 1024 * 1024
    } else {
        let mut p: u64 = 1;
        let mut i: usize = 0;
        proof {
            reveal_with_fuel(pow10, 14);
            assert(pow10(13) == 10000000000000);
            lemma_pow10_mono(0, 13);
        }
        while i < level
            invariant
                i <= level,
                level <= 13,
                p == pow10(i as nat),
                p <= pow10(13),
                pow10(13) == 10000000000000,
            decreases level - i,
        {
            proof {
                lemma_pow10_mono((i + 1) as nat, 13);
            }
            p = p * 10;
            i = i + 1;
        }
        proof {
            lemma_pow10_mono(level as nat, 13);
            reveal_with_fuel(pow10, 14);
            assert(pow10(13) == 10000000000000);
        }
        p * 1024 * 1024
    }
}

proof fn lemma_pow10_mono(a: nat, b: nat)
    requires
        a <= b,
    ensures
        pow10(a) <= pow10(b),
    decreases b,
{
    if a < b {
        lemma_pow10_mono(a, (b - 1) as nat);
    }
}

// ── The merge ──────────────────────────────────────────────────────────────

/// Source `i` has an entry left at its position.
pub open spec fn has_head(srcs: Seq<Seq<Entry>>, pos: Seq<int>, i: int) -> bool {
    0 <= pos[i] < srcs[i].len()
}

/// The next entry of source `i`.
pub open spec fn head(srcs: Seq<Seq<Entry>>, pos: Seq<int>, i: int) -> Entry {
    srcs[i][pos[i]]
}

/// The next entry of source `i` is taken before that of source `j`.
pub open spec fn head_before(srcs: Seq<Seq<Entry>>, seqs: Seq<u64>, pos: Seq<int>, i: int, j: int) -> bool {
    heap_before(head(srcs, pos, i).0, seqs[i], i, head(srcs, pos, j).0, seqs[j], j)
}

/// Among sources `0..n`, the one whose next entry is taken first (-1 if none
/// has an entry left).
pub open spec fn best_upto(srcs: Seq<Seq<Entry>>, seqs: Seq<u64>, pos: Seq<int>, n: int) -> int
    decreases n,
{
    if n <= 0 {
        -1
    } else {
        let b = best_upto(srcs, seqs, pos, n - 1);
        if has_head(srcs, pos, n - 1) && (b < 0 || head_before(srcs, seqs, pos, n - 1, b)) { n - 1 } else { b }
    }
}

/// The number of entries left in sources `0..n`.
pub open spec fn remaining(srcs: Seq<Seq<Entry>>, pos: Seq<int>, n: int) -> int
    decreases n,
{
    if n <= 0 { 0 } else { remaining(srcs, pos, n - 1) + (srcs[n - 1].len() - pos[n - 1]) }
}

/// The merge from a state: take the first head, drop it if its key was the
/// last key taken (an older version) or if it is a tombstone to be dropped,
/// and go on for `fuel` steps.
pub open spec fn merge_run(
    srcs: Seq<Seq<Entry>>,
    seqs: Seq<u64>,
    drop: bool,
    pos: Seq<int>,
    last: Option<Seq<u8>>,
    fuel: nat,
) -> Seq<Entry>
    decreases fuel,
{
    if fuel == 0 {
        Seq::empty()
    } else {
        let b = best_upto(srcs, seqs, pos, srcs.len() as int);
        if b < 0 {
            Seq::empty()
        } else {
            let e = head(srcs, pos, b);
            let pos2 = pos.update(b, pos[b] + 1);
            if last == Some(e.0) {
                merge_run(srcs, seqs, drop, pos2, last, (fuel - 1) as nat)
            } else if drop && e.1 is None {
                merge_run(srcs, seqs, drop, pos2, Some(e.0), (fuel - 1) as nat)
            } else {
                seq![e] + merge_run(srcs, seqs, drop, pos2, Some(e.0), (fuel - 1) as nat)
            }
        }
    }
}

/// The total number of entries.
pub open spec fn total_len(srcs: Seq<Seq<Entry>>) -> nat
    decreases srcs.len(),
{
    if srcs.len() == 0 { 0 } else { total_len(srcs.drop_last()) + srcs.last().len() }
}

/// What the k-way merge of the sources yields.
pub open spec fn spec_k_way_merge(srcs: Seq<Seq<Entry>>, seqs: Seq<u64>, drop: bool) -> Seq<Entry> {
    merge_run(srcs, seqs, drop, Seq::new(srcs.len(), |i: int| 0int), None, total_len(srcs))
}

/// The abstract view of an optional key.
pub open spec fn opt_bytes(o: Option<Vec<u8>>) -> Option<Seq<u8>> {
    match o {
        Some(k) => Some(k@),
        None => None,
    }
}

/// The abstract runs of concrete sources.
pub open spec fn sources_view(s: Seq<Vec<(Vec<u8>, Value)>>) -> Seq<Seq<Entry>> {
    s.map_values(|v: Vec<(Vec<u8>, Value)>| entries_view(v@))
}

/// The merge picks a source with an entry left exactly when there is one.
pub proof fn lemma_best_upto(srcs: Seq<Seq<Entry>>, seqs: Seq<u64>, pos: Seq<int>, n: int)
    requires
        0 <= n <= srcs.len(),
        pos.len() == srcs.len(),
    ensures
        -1 <= best_upto(srcs, seqs, pos, n) < n,
        best_upto(srcs, seqs, pos, n) >= 0 ==> has_head(srcs, pos, best_upto(srcs, seqs, pos, n)),
        best_upto(srcs, seqs, pos, n) < 0 <==> forall|i: int| 0 <= i < n ==> !has_head(srcs, pos, i),
    decreases n,
{
    if n > 0 {
        lemma_best_upto(srcs, seqs, pos, n - 1);
    }
}

/// The entries left are the sum of what each source has left.
pub proof fn lemma_remaining(srcs: Seq<Seq<Entry>>, pos: Seq<int>, n: int, b: int)
    requires
        0 <= n <= srcs.len(),
        pos.len() == srcs.len(),
        forall|i: int| 0 <= i < srcs.len() ==> 0 <= #[trigger] pos[i] <= srcs[i].len(),
        0 <= b < srcs.len(),
        pos[b] < srcs[b].len(),
    ensures
        remaining(srcs, pos, n) >= 0,
        remaining(srcs, pos.update(b, pos[b] + 1), n) == remaining(srcs, pos, n) - (if b < n { 1int } else { 0 }),
        (forall|i: int| 0 <= i < n ==> !has_head(srcs, pos, i)) ==> remaining(srcs, pos, n) == 0,
        b < n ==> remaining(srcs, pos, n) >= 1,
    decreases n,
{
    if n > 0 {
        lemma_remaining(srcs, pos, n - 1, b);
        assert(0 <= pos[n - 1] <= srcs[n - 1].len());
        if forall|i: int| 0 <= i < n ==> !has_head(srcs, pos, i) {
            assert(!has_head(srcs, pos, n - 1));
            assert(0 <= pos[n - 1] <= srcs[n - 1].len());
        }
    }
}

pub proof fn lemma_remaining_zero(srcs: Seq<Seq<Entry>>, pos: Seq<int>, n: int)
    requires
        0 <= n <= srcs.len(),
        pos.len() == srcs.len(),
        forall|i: int| 0 <= i < srcs.len() ==> 0 <= #[trigger] pos[i] <= srcs[i].len(),
    ensures
        remaining(srcs, pos, n) >= 0,
        (forall|i: int| 0 <= i < n ==> !has_head(srcs, pos, i)) ==> remaining(srcs, pos, n) == 0,
        remaining(srcs, pos, n) == 0 ==> (forall|i: int| 0 <= i < n ==> !has_head(srcs, pos, i)),
    decreases n,
{
    if n > 0 {
        lemma_remaining_zero(srcs, pos, n - 1);
        assert(0 <= pos[n - 1] <= srcs[n - 1].len());
        if forall|i: int| 0 <= i < n ==> !has_head(srcs, pos, i) {
            assert(!has_head(srcs, pos, n - 1));
        }
        if remaining(srcs, pos, n) == 0 {
            assert(remaining(srcs, pos, n - 1) == 0);
            assert forall|i: int| 0 <= i < n implies !has_head(srcs, pos, i) by {
                if i < n - 1 {
                } else {
                    assert(pos[n - 1] == srcs[n - 1].len());
                }
            }
        }
    }
}

pub proof fn lemma_remaining_start(srcs: Seq<Seq<Entry>>, n: int)
    requires
        0 <= n <= srcs.len(),
    ensures
        remaining(srcs, Seq::new(srcs.len(), |i: int| 0int), n) == total_len(srcs.take(n)),
    decreases n,
{
    if n > 0 {
        lemma_remaining_start(srcs, n - 1);
        assert(srcs.take(n).drop_last() =~= srcs.take(n - 1));
    }
}

/// Merge sorted runs of entries into one sorted run, keeping for each key the
/// entry of the newest source (highest sequence number, then highest index),
/// and dropping tombstones when `drop_tombstones` is set.  `seqs[i]` is the
/// sequence number of source `i`.
pub fn k_way_merge(sources: Vec<Vec<(Vec<u8>, Value)>>, seqs: &[u64], drop_tombstones: bool) -> (r: Vec<(Vec<u8>, Value)>)
    requires
        forall|i: int| 0 <= i < sources@.len() && sources@[i]@.len() > 0 ==> i < seqs@.len(),
    ensures
        entries_view(r@) == spec_k_way_merge(sources_view(sources@), seqs@, drop_tombstones),
{
    let ghost srcs = sources_view(sources@);
    let ghost q = seqs@;
    let n = sources.len();
    let mut pos: Vec<usize> = Vec::new();
    let mut i: usize = 0;
    while i < n
        invariant
            i <= n,
            n == sources@.len(),
            pos@.len() == i,
            forall|j: int| 0 <= j < i ==> #[trigger] pos@[j] == 0,
        decreases n - i,
    {
        pos.push(0);
        i = i + 1;
    }
    let ghost zeros = Seq::new(srcs.len(), |j: int| 0int);
    proof {
        assert(pos@.map_values(|x: usize| x as int) =~= zeros);
        lemma_remaining_start(srcs, srcs.len() as int);
        assert(srcs.take(srcs.len() as int) =~= srcs);
    }
    let mut result: Vec<(Vec<u8>, Value)> = Vec::new();
    let mut last: Option<Vec<u8>> = None;
    let ghost total = total_len(srcs);
    loop
        invariant
            n == sources@.len(),
            srcs == sources_view(sources@),
            srcs.len() == n,
            q == seqs@,
            forall|i: int| 0 <= i < sources@.len() && sources@[i]@.len() > 0 ==> i < seqs@.len(),
            pos@.len() == n,
            forall|j: int| 0 <= j < n ==> #[trigger] pos@[j] <= srcs[j].len(),
            spec_k_way_merge(srcs, q, drop_tombstones) == entries_view(result@) + merge_run(srcs, q, drop_tombstones,
                pos@.map_values(|x: usize| x as int), opt_bytes(last),
                remaining(srcs, pos@.map_values(|x: usize| x as int), n as int) as nat),
        ensures
            spec_k_way_merge(srcs, q, drop_tombstones) == entries_view(result@) + merge_run(srcs, q, drop_tombstones,
                pos@.map_values(|x: usize| x as int), opt_bytes(last),
                remaining(srcs, pos@.map_values(|x: usize| x as int), n as int) as nat),
            remaining(srcs, pos@.map_values(|x: usize| x as int), n as int) == 0,
        decreases remaining(srcs, pos@.map_values(|x: usize| x as int), n as int),
    {
        let ghost p = pos@.map_values(|x: usize| x as int);
        // Find the source whose next entry comes first.
        let mut best: Option<usize> = None;
        let mut j: usize = 0;
        while j < n
            invariant
                j <= n,
                n == sources@.len(),
                srcs == sources_view(sources@),
                srcs.len() == n,
                q == seqs@,
                forall|i: int| 0 <= i < sources@.len() && sources@[i]@.len() > 0 ==> i < seqs@.len(),
                pos@.len() == n,
                p == pos@.map_values(|x: usize| x as int),
                forall|t: int| 0 <= t < n ==> #[trigger] pos@[t] <= srcs[t].len(),
                match best {
                    Some(b) => b < j && best_upto(srcs, q, p, j as int) == b,
                    None => best_upto(srcs, q, p, j as int) < 0,
                },
            decreases n - j,
        {
            proof {
                lemma_best_upto(srcs, q, p, j as int);
                assert(srcs[j as int] == entries_view(sources@[j as int]@));
            }
            if pos[j] < sources[j].len() {
                let take = match best {
                    None => true,
                    Some(b) => {
                        proof {
                            assert(srcs[b as int] == entries_view(sources@[b as int]@));
                            assert(has_head(srcs, p, b as int));
                        }
                        let kj = sources[j][pos[j]].0.as_slice();
                        let kb = sources[b][pos[b]].0.as_slice();
                        if crate::order::bytes_lt(kj, kb) {
                            true
                        } else if bytes_eq(kj, kb) {
                            seqs[j] > seqs[b] || (seqs[j] == seqs[b] && j > b)
                        } else {
                            false
                        }
                    },
                };
                if take {
                    best = Some(j);
                }
            }
            j = j + 1;
        }
        proof {
            lemma_best_upto(srcs, q, p, n as int);
        }
        proof {
            assert forall|t: int| 0 <= t < srcs.len() implies 0 <= #[trigger] p[t] <= srcs[t].len() by {
                assert(p[t] == pos@[t] as int);
            }
        }
        let b = match best {
            None => {
                proof {
                    lemma_remaining_zero(srcs, p, n as int);
                    assert(remaining(srcs, p, n as int) == 0);
                }
                break;
            },
            Some(b) => b,
        };
        let ghost lastv: Option<Seq<u8>> = opt_bytes(last);
        let ghost fuel = remaining(srcs, p, n as int);
        proof {
            assert(srcs[b as int] == entries_view(sources@[b as int]@));
            lemma_remaining(srcs, p, n as int, b as int);
            assert(p[b as int] == pos@[b as int] as int);
        }
        let key = copy_bytes(sources[b][pos[b]].0.as_slice());
        let value = sources[b][pos[b]].1.duplicate();
        pos.set(b, pos[b] + 1);
        let ghost p2 = pos@.map_values(|x: usize| x as int);
        proof {
            assert(p2 =~= p.update(b as int, p[b as int] + 1));
            assert(head(srcs, p, b as int) == (key@, value@));
            assert(fuel > 0);
            assert(remaining(srcs, p2, n as int) == fuel - 1);
            assert(forall|t: int| 0 <= t < n ==> #[trigger] pos@[t] <= srcs[t].len()) by {
                assert forall|t: int| 0 <= t < n implies #[trigger] pos@[t] <= srcs[t].len() by {
                    if t != b as int {
                        assert(p2[t] == p[t]);
                    }
                }
            }
        }
        let same = match &last {
            Some(l) => bytes_eq(l.as_slice(), key.as_slice()),
            None => false,
        };
        proof {
            assert(same == (lastv == Some(key@)));
            assert(best_upto(srcs, q, p, srcs.len() as int) == b as int);
        }
        if same {
            proof {
                assert(merge_run(srcs, q, drop_tombstones, p, lastv, fuel as nat)
                    == merge_run(srcs, q, drop_tombstones, p2, lastv, (fuel - 1) as nat));
            }
            continue;
        }
        last = Some(copy_bytes(key.as_slice()));
        if drop_tombstones && value.is_tombstone() {
            proof {
                assert(merge_run(srcs, q, drop_tombstones, p, lastv, fuel as nat)
                    == merge_run(srcs, q, drop_tombstones, p2, Some(key@), (fuel - 1) as nat));
            }
            continue;
        }
        let ghost before = result@;
        result.push((key, value));
        proof {
            let e = head(srcs, p, b as int);
            assert(entries_view(result@) =~= entries_view(before).push(e));
            let rest = merge_run(srcs, q, drop_tombstones, p2, Some(e.0),
                remaining(srcs, p2, n as int) as nat);
            assert(merge_run(srcs, q, drop_tombstones, p, lastv, fuel as nat) == seq![e] + rest);
            assert(entries_view(before) + (seq![e] + rest) =~= entries_view(result@) + rest);
        }
    }
    proof {
        let p = pos@.map_values(|x: usize| x as int);
        assert(entries_view(result@) + Seq::<Entry>::empty() =~= entries_view(result@));
    }
    result
}


// ── Splitting the merged run into tables ───────────────────────────────────

/// The size an entry counts for: its key and value lengths (saturating at
/// the largest `u64`).
pub open spec fn entry_size(e: Entry) -> int {
    sat64((e.0.len() + stored_value(e.1).len()) as int)
}

/// `x`, or the largest `u64` when it is larger.
pub open spec fn sat64(x: int) -> int {
    if x > u64::MAX { u64::MAX as int } else { x }
}

/// Splitting a run in order: a new table starts when adding an entry would
/// take a nonempty table past `max` bytes.  The tables so far, and the size
/// of the last one.
pub open spec fn split_state(s: Seq<Entry>, max: u64) -> (Seq<Seq<Entry>>, int)
    decreases s.len(),
{
    if s.len() == 0 {
        (Seq::empty(), 0)
    } else {
        let (cs, size) = split_state(s.drop_last(), max);
        let e = s.last();
        let es = entry_size(e);
        if cs.len() > 0 && sat64(size + es) > max {
            (cs.push(seq![e]), es)
        } else if cs.len() == 0 {
            (seq![seq![e]], es)
        } else {
            (cs.drop_last().push(cs.last().push(e)), sat64(size + es))
        }
    }
}

/// The key and value bytes of a run's entries (a tombstone has no value bytes).
pub open spec fn kv_bytes(s: Seq<Entry>) -> int
    decreases s.len(),
{
    if s.len() == 0 {
        0
    } else {
        kv_bytes(s.drop_last()) + s.last().0.len() + stored_value(s.last().1).len()
    }
}

/// Saturating a sum of saturated parts saturates the sum.
proof fn lemma_sat_add(a: int, b: int)
    requires
        a >= 0,
        b >= 0,
    ensures
        sat64(sat64(a) + sat64(b)) == sat64(a + b),
{
}

/// Key and value bytes are never negative.
proof fn lemma_kv_nonneg(s: Seq<Entry>)
    ensures
        kv_bytes(s) >= 0,
    decreases s.len(),
{
    if s.len() > 0 {
        lemma_kv_nonneg(s.drop_last());
    }
}

/// How a run is split into tables, by key and value bytes (counted
/// saturating at the largest `u64`, as the split counts them): every table
/// is nonempty and holds at most `max` bytes or a single entry, and a new
/// table starts only where adding the next entry's bytes to the table before
/// would pass `max`.
pub proof fn lemma_split_sizes(s: Seq<Entry>, max: u64)
    ensures
        s.len() > 0 ==> split_chunks(s, max).len() > 0
            && split_state(s, max).1 == sat64(kv_bytes(split_chunks(s, max).last())),
        forall|j: int| 0 <= j < split_chunks(s, max).len() ==> (#[trigger] split_chunks(s, max)[j]).len() > 0
            && (split_chunks(s, max)[j].len() == 1 || sat64(kv_bytes(split_chunks(s, max)[j])) <= max),
        forall|j: int| 0 <= j && j + 1 < split_chunks(s, max).len() ==>
            sat64(kv_bytes(#[trigger] split_chunks(s, max)[j]) + split_chunks(s, max)[j + 1][0].0.len()
                + stored_value(split_chunks(s, max)[j + 1][0].1).len()) > max,
    decreases s.len(),
{
    if s.len() > 0 {
        let d = s.drop_last();
        lemma_split_sizes(d, max);
        let (cs0, size0) = split_state(d, max);
        let e = s.last();
        let ke = e.0.len() + stored_value(e.1).len();
        let es = entry_size(e);
        let cs = split_chunks(s, max);
        assert(kv_bytes(seq![e]) == ke) by {
            assert(seq![e].drop_last() =~= Seq::<Entry>::empty());
            assert(seq![e].last() == e);
            assert(kv_bytes(seq![e].drop_last()) == 0);
        }
        if cs0.len() > 0 {
            lemma_kv_nonneg(cs0.last());
            lemma_sat_add(kv_bytes(cs0.last()), ke as int);
            let l1 = cs0.last().push(e);
            assert(l1.drop_last() =~= cs0.last());
            assert(l1.last() == e);
        }
        if cs0.len() > 0 && sat64(size0 + es) > max {
            assert(cs == cs0.push(seq![e]));
            assert forall|j: int| 0 <= j < cs.len() implies (#[trigger] cs[j]).len() > 0
                && (cs[j].len() == 1 || sat64(kv_bytes(cs[j])) <= max) by {
                if j < cs0.len() {
                    assert(cs[j] == cs0[j]);
                }
            }
            assert forall|j: int| 0 <= j && j + 1 < cs.len() implies
                sat64(kv_bytes(#[trigger] cs[j]) + cs[j + 1][0].0.len() + stored_value(cs[j + 1][0].1).len()) > max by {
                assert(cs[j] == cs0[j]);
                if j + 1 < cs0.len() {
                    assert(cs[j + 1] == cs0[j + 1]);
                } else {
                    assert(cs[j + 1] == seq![e]);
                    assert(cs[j] == cs0.last());
                }
            }
        } else if cs0.len() == 0 {
            assert(cs == seq![seq![e]]);
        } else {
            let l1 = cs0.last().push(e);
            assert(cs == cs0.drop_last().push(l1));
            assert forall|j: int| 0 <= j < cs.len() implies (#[trigger] cs[j]).len() > 0
                && (cs[j].len() == 1 || sat64(kv_bytes(cs[j])) <= max) by {
                if j < cs0.len() - 1 {
                    assert(cs[j] == cs0[j]);
                }
            }
            assert forall|j: int| 0 <= j && j + 1 < cs.len() implies
                sat64(kv_bytes(#[trigger] cs[j]) + cs[j + 1][0].0.len() + stored_value(cs[j + 1][0].1).len()) > max by {
                assert(cs[j] == cs0[j]);
                if j + 1 < cs0.len() - 1 {
                    assert(cs[j + 1] == cs0[j + 1]);
                } else {
                    assert(cs[j + 1] == l1);
                    assert(l1[0] == cs0.last()[0]);
                    assert(cs0[j + 1] == cs0.last());
                }
            }
        }
    }
}

/// The tables a run is split into.
pub open spec fn split_chunks(s: Seq<Entry>, max: u64) -> Seq<Seq<Entry>> {
    split_state(s, max).0
}

/// The runs one after another.
pub open spec fn concat(cs: Seq<Seq<Entry>>) -> Seq<Entry>
    decreases cs.len(),
{
    if cs.len() == 0 { Seq::empty() } else { concat(cs.drop_last()) + cs.last() }
}

/// Splitting keeps every entry, in order, in nonempty tables.
pub proof fn lemma_split_concat(s: Seq<Entry>, max: u64)
    ensures
        concat(split_chunks(s, max)) == s,
        forall|j: int| 0 <= j < split_chunks(s, max).len() ==> (#[trigger] split_chunks(s, max)[j]).len() > 0,
        s.len() == 0 <==> split_chunks(s, max).len() == 0,
        0 <= split_state(s, max).1 <= u64::MAX,
    decreases s.len(),
{
    if s.len() > 0 {
        let d = s.drop_last();
        lemma_split_concat(d, max);
        let cs = split_chunks(d, max);
        let e = s.last();
        let r = split_chunks(s, max);
        if cs.len() > 0 && sat64(split_state(d, max).1 + entry_size(e)) > max {
            assert(r.drop_last() =~= cs);
            assert(concat(r) =~= s);
        } else if cs.len() == 0 {
            assert(seq![seq![e]].drop_last() =~= Seq::<Seq<Entry>>::empty());
            assert(d =~= Seq::<Entry>::empty());
            assert(concat(r) =~= s);
        } else {
            let r2 = cs.drop_last().push(cs.last().push(e));
            assert(r2.drop_last() =~= cs.drop_last());
            assert(r2.last() == cs.last().push(e));
            assert(concat(cs) == concat(cs.drop_last()) + cs.last());
            assert(concat(r2) == concat(r2.drop_last()) + r2.last());
            assert(s =~= d.push(e));
            assert(concat(r) =~= s);
            assert forall|j: int| 0 <= j < r.len() implies (#[trigger] r[j]).len() > 0 by {
                if j < r.len() - 1 {
                    assert(r[j] == cs[j]);
                }
            }
        }
    }
}

/// What a table holds as stored: the entries its data block reads as (none
/// when its bytes do not open).
pub open spec fn stored_run(t: Table) -> Seq<Entry> {
    match spec_open(t.image@) {
        Ok(m) => scan_all_spec(m.data, 0),
        Err(_) => Seq::empty(),
    }
}

/// The bytes of a table as `write_sstable` makes them from its run.
pub open spec fn written_as(t: Table, enabled: bool, level: i32) -> bool {
    let s = t.run@;
    &&& exists|nb: nat, nh: nat, bits: Seq<u64>| {
        &&& 0 < nb <= usize::MAX
        &&& nh <= usize::MAX
        &&& bits.len() == words_for(nb)
        &&& t.image@ == #[trigger] table_image(s, nb as u64, nh as u64,
            bloom_after(bits, run_keys(s), nh, nb), enabled, level)
    }
    &&& compresses(data_block(s), enabled) ==>
        spec_zstd_decode(zstd_frame(data_block(s), level)) == Some(data_block(s))
    &&& data_block(s).len() <= usize::MAX
    &&& t.meta.entry_count == s.len()
    &&& t.meta.file_size == t.image@.len()
    &&& t.meta.min_key@ == (if s.len() > 0 { s[0].0 } else { Seq::empty() })
    &&& t.meta.max_key@ == (if s.len() > 0 { s.last().0 } else { Seq::empty() })
}

/// Read all entries of tables (the input of a compaction), in order; fails
/// with the first table whose bytes do not open.
pub fn read_sstables(tables: &Vec<&Table>) -> (r: Result<Vec<Vec<(Vec<u8>, Value)>>, Error>)
    ensures
        match r {
            Ok(v) => (forall|i: int| 0 <= i < tables@.len() ==> spec_open(#[trigger] tables@[i].image@) is Ok)
                && sources_view(v@) == tables@.map_values(|t: &Table| stored_run(*t)),
            Err(_) => exists|i: int| 0 <= i < tables@.len() && spec_open(#[trigger] tables@[i].image@) is Err,
        },
{
    let mut out: Vec<Vec<(Vec<u8>, Value)>> = Vec::new();
    let mut i: usize = 0;
    while i < tables.len()
        invariant
            i <= tables@.len(),
            forall|j: int| 0 <= j < i ==> spec_open(#[trigger] tables@[j].image@) is Ok,
            sources_view(out@) == tables@.take(i as int).map_values(|t: &Table| stored_run(*t)),
        decreases tables@.len() - i,
    {
        let reader = match SsTableReader::open(tables[i].image.as_slice()) {
            Ok(rd) => rd,
            Err(e) => {
                return Err(e);
            },
        };
        let entries = match reader.scan_all() {
            Ok(v) => v,
            Err(e) => {
                return Err(e);
            },
        };
        let ghost before = out@;
        proof {
            assert(entries_view(entries@) == stored_run(*tables@[i as int]));
        }
        out.push(entries);
        proof {
            assert(sources_view(out@) =~= sources_view(before).push(entries_view(entries@)));
            assert(tables@.take(i + 1).map_values(|t: &Table| stored_run(*t))
                =~= tables@.take(i as int).map_values(|t: &Table| stored_run(*t)).push(stored_run(*tables@[i as int])));
            assert(sources_view(out@) =~= tables@.take(i + 1).map_values(|t: &Table| stored_run(*t)));
        }
        i = i + 1;
    }
    proof {
        assert(tables@.take(tables@.len() as int) =~= tables@);
    }
    Ok(out)
}

/// Write the pending entries as the next table (numbered by incrementing
/// `seq`) and start a new chunk; nothing when there are none.
fn flush_chunk<S: Fn(usize) -> (usize, usize)>(
    chunk: &mut Vec<(Vec<u8>, Value)>,
    seq: &mut u64,
    outputs: &mut Vec<Table>,
    level: usize,
    compression_enabled: bool,
    compression_level: i32,
    sizer: &S,
) -> (r: Result<(), Error>)
    requires
        forall|n: usize| call_requires(*sizer, (n,)),
        level <= u64::MAX,
    ensures
        final(chunk)@.len() == 0,
        old(chunk)@.len() == 0 ==> r is Ok && *final(seq) == *old(seq) && final(outputs)@ == old(outputs)@,
        r is Ok && old(chunk)@.len() > 0 ==> {
            &&& *old(seq) < u64::MAX
            &&& *final(seq) == *old(seq) + 1
            &&& final(outputs)@.len() == old(outputs)@.len() + 1
            &&& final(outputs)@.take(old(outputs)@.len() as int) == old(outputs)@
            &&& final(outputs)@.last().run@ == entries_view(old(chunk)@)
            &&& final(outputs)@.last().meta.sequence == *final(seq)
            &&& final(outputs)@.last().meta.level == level
            &&& final(outputs)@.last().meta.path@ == table_name(level as nat, *final(seq))
            &&& written_as(final(outputs)@.last(), compression_enabled, compression_level)
            &&& image_sized_by(final(outputs)@.last().image@, final(outputs)@.last().run@, compression_enabled,
                compression_level, *sizer)
        },
        r is Err ==> old(chunk)@.len() > 0 && ((*old(seq) == u64::MAX && *final(seq) == u64::MAX)
            || encode_fails(data_block(entries_view(old(chunk)@)), compression_enabled, compression_level)),
{
    if chunk.len() == 0 {
        return Ok(());
    }
    if *seq == u64::MAX {
        chunk.clear();
        return Err(Error::Corruption("sequence numbers exhausted".to_owned()));
    }
    *seq = *seq + 1;
    let name = table_file_name(level, *seq);
    let written = write_sstable(name, chunk.as_slice(), level, *seq, compression_enabled, compression_level, sizer);
    let ghost run = entries_view(chunk@);
    chunk.clear();
    let (meta, image) = match written {
        Ok(x) => x,
        Err(e) => {
            return Err(e);
        },
    };
    let t = Table { meta, image, run: Ghost(run) };
    let ghost o = outputs@;
    outputs.push(t);
    proof {
        assert(outputs@.take(o.len() as int) =~= o);
    }
    Ok(())
}


/// The runs and sequence numbers that a compaction merges.
pub open spec fn input_runs(inputs: Seq<&Table>) -> Seq<Seq<Entry>> {
    inputs.map_values(|t: &Table| stored_run(*t))
}

pub open spec fn input_seqs(inputs: Seq<&Table>) -> Seq<u64> {
    inputs.map_values(|t: &Table| t.meta.sequence)
}

/// The tables a compaction writes: the merged run split by size.
pub open spec fn compaction_chunks(inputs: Seq<&Table>, drop: bool, max: u64) -> Seq<Seq<Entry>> {
    split_chunks(spec_k_way_merge(input_runs(inputs), input_seqs(inputs), drop), max)
}

/// Compact tables into new tables at `target_level`: merge their runs
/// (newest version of each key; tombstones dropped at the bottommost level),
/// and write the result split into tables of about `max_sstable_size` bytes,
/// numbered from `next_seq + 1` on.  Fails when an input does not open, when
/// the encoder gives no frame for a table's data block, or when sequence
/// numbers run out.
#[verifier::rlimit(50)]
pub fn compact<S: Fn(usize) -> (usize, usize)>(
    inputs: &Vec<&Table>,
    target_level: usize,
    next_seq: &mut u64,
    is_bottommost: bool,
    max_sstable_size: u64,
    compression_enabled: bool,
    compression_level: i32,
    sizer: &S,
) -> (r: Result<Vec<Table>, Error>)
    requires
        forall|n: usize| call_requires(*sizer, (n,)),
    ensures
        match r {
            Ok(out) => {
                let cs = compaction_chunks(inputs@, is_bottommost, max_sstable_size);
                &&& forall|i: int| 0 <= i < inputs@.len() ==> spec_open(#[trigger] inputs@[i].image@) is Ok
                &&& out@.len() == cs.len()
                &&& *final(next_seq) == *old(next_seq) + cs.len()
                &&& forall|j: int| 0 <= j < out@.len() ==> {
                    &&& (#[trigger] out@[j]).run@ == cs[j]
                    &&& out@[j].meta.sequence == *old(next_seq) + 1 + j
                    &&& out@[j].meta.level == target_level
                    &&& out@[j].meta.path@ == table_name(target_level as nat, out@[j].meta.sequence)
                    &&& written_as(out@[j], compression_enabled, compression_level)
                    &&& image_sized_by(out@[j].image@, out@[j].run@, compression_enabled, compression_level, *sizer)
                }
                &&& forall|j: int| 0 <= j < out@.len() ==> (#[trigger] out@[j]).run@.len() > 0
                    && (out@[j].run@.len() == 1 || sat64(kv_bytes(out@[j].run@)) <= max_sstable_size)
                &&& forall|j: int| 0 <= j && j + 1 < out@.len() ==> sat64(kv_bytes((#[trigger] out@[j]).run@)
                    + out@[j + 1].run@[0].0.len() + stored_value(out@[j + 1].run@[0].1).len()) > max_sstable_size
            },
            Err(_) => {
                let cs = compaction_chunks(inputs@, is_bottommost, max_sstable_size);
                ||| exists|i: int| 0 <= i < inputs@.len() && spec_open(#[trigger] inputs@[i].image@) is Err
                ||| *old(next_seq) + cs.len() > u64::MAX
                ||| exists|j: int| 0 <= j < cs.len() && encode_fails(data_block(#[trigger] cs[j]), compression_enabled, compression_level)
            },
        },
        r is Err ==> (exists|i: int| 0 <= i < inputs@.len() && spec_open(#[trigger] inputs@[i].image@) is Err)
            || *final(next_seq) == u64::MAX || some_encode_fails(compression_enabled, compression_level),
{
    let ghost seq0 = *next_seq;
    let ghost cs_all = compaction_chunks(inputs@, is_bottommost, max_sstable_size);
    if inputs.len() == 0 {
        proof {
            assert(input_runs(inputs@) =~= Seq::<Seq<Entry>>::empty());
            assert(total_len(input_runs(inputs@)) == 0);
            assert(spec_k_way_merge(input_runs(inputs@), input_seqs(inputs@), is_bottommost) =~= Seq::<Entry>::empty());
            lemma_split_concat(Seq::<Entry>::empty(), max_sstable_size);
        }
        return Ok(Vec::new());
    }
    let all_data = read_sstables(inputs)?;
    let mut seqs: Vec<u64> = Vec::new();
    let mut i: usize = 0;
    while i < inputs.len()
        invariant
            i <= inputs@.len(),
            seqs@ == input_seqs(inputs@).take(i as int),
        decreases inputs@.len() - i,
    {
        seqs.push(inputs[i].meta.sequence);
        proof {
            assert(input_seqs(inputs@).take(i + 1) =~= input_seqs(inputs@).take(i as int).push(inputs@[i as int].meta.sequence));
        }
        i = i + 1;
    }
    proof {
        assert(input_seqs(inputs@).take(inputs@.len() as int) =~= input_seqs(inputs@));
        assert(sources_view(all_data@) == input_runs(inputs@));
        assert forall|j: int| 0 <= j < all_data@.len() && all_data@[j]@.len() > 0 implies j < seqs@.len() by {
            assert(sources_view(all_data@).len() == all_data@.len());
        }
    }
    let merged = k_way_merge(all_data, seqs.as_slice(), is_bottommost);
    let ghost m = entries_view(merged@);
    proof {
        lemma_split_concat(m, max_sstable_size);
    }
    if merged.len() == 0 {
        proof {
            assert(m =~= Seq::<Entry>::empty());
        }
        return Ok(Vec::new());
    }
    let mut outputs: Vec<Table> = Vec::new();
    let mut chunk: Vec<(Vec<u8>, Value)> = Vec::new();
    let mut chunk_size: u64 = 0;
    let mut t: usize = 0;
    proof {
        reveal(chunk_state);
        reveal(outputs_ok);
    }
    while t < merged.len()
        invariant
            t <= merged@.len(),
            m == entries_view(merged@),
            m.len() == merged@.len(),
            cs_all == split_chunks(m, max_sstable_size),
            cs_all == compaction_chunks(inputs@, is_bottommost, max_sstable_size),
            seq0 == *old(next_seq),
            forall|n: usize| call_requires(*sizer, (n,)),
            *next_seq == seq0 + outputs@.len(),
            chunk_state(split_state(m.take(t as int), max_sstable_size), t as int, outputs@, entries_view(chunk@), chunk_size),
            outputs_ok(outputs@, seq0, target_level, compression_enabled, compression_level, *sizer),
        decreases merged@.len() - t,
    {
        let key = copy_bytes(merged[t].0.as_slice());
        let value = merged[t].1.duplicate();
        let vlen: usize = match &value {
            Value::Data(d) => d.len(),
            Value::Tombstone => 0,
        };
        let entry_size: u64 = (key.len() as u64).saturating_add(vlen as u64);
        let ghost e: Entry = (key@, value@);
        let ghost prev = split_state(m.take(t as int), max_sstable_size);
        proof {
            assert(m[t as int] == e);
            assert(entry_size == crate::compaction::entry_size(e));
            lemma_split_step(m, t as int, max_sstable_size);
        }
        let ghost outs0 = outputs@;
        let ghost ch = entries_view(chunk@);
        let ghost size0 = chunk_size;
        let flushed = chunk_size.saturating_add(entry_size) > max_sstable_size && chunk.len() > 0;
        if flushed {
            match flush_chunk(&mut chunk, next_seq, &mut outputs, target_level, compression_enabled,
                compression_level, sizer) {
                Ok(()) => {},
                Err(err) => {
                    proof {
                        reveal(chunk_state);
                        lemma_flush_failed(m, t as int, max_sstable_size, seq0, outs0.len() as int, ch, compression_enabled,
                            compression_level);
                        if seq0 + cs_all.len() <= u64::MAX {
                            let j = choose|j: int| 0 <= j < split_chunks(m, max_sstable_size).len()
                                && encode_fails(data_block(#[trigger] split_chunks(m, max_sstable_size)[j]), compression_enabled,
                                    compression_level);
                            assert(encode_fails(data_block(cs_all[j]), compression_enabled, compression_level));
                        }
                    }
                    return Err(err);
                },
            }
            chunk_size = 0;
            proof {
                lemma_outputs_push(outs0, outputs@, seq0, target_level, compression_enabled, compression_level, *sizer);
            }
        }
        chunk_size = chunk_size.saturating_add(entry_size);
        let ghost c0 = entries_view(chunk@);
        chunk.push((key, value));
        proof {
            assert(entries_view(chunk@) =~= c0.push(e));
            if flushed {
                assert(c0 =~= Seq::<Entry>::empty());
                assert(entries_view(chunk@) =~= seq![e]);
            } else {
                assert(outputs@ == outs0);
            }
            lemma_chunk_state_step(m, t as int, max_sstable_size, outs0, outputs@, ch, entries_view(chunk@), size0,
                chunk_size, flushed);
        }
        t = t + 1;
    }
    proof {
        assert(m.take(m.len() as int) =~= m);
        reveal(chunk_state);
        reveal(outputs_ok);
    }
    let ghost outs0 = outputs@;
    let ghost ch = entries_view(chunk@);
    match flush_chunk(&mut chunk, next_seq, &mut outputs, target_level, compression_enabled, compression_level, sizer) {
        Ok(()) => {},
        Err(err) => {
            proof {
                let cs = split_state(m, max_sstable_size).0;
                assert(cs.drop_last().len() == outs0.len());
                assert(cs_all[cs_all.len() - 1] == ch);
                assert(encode_fails(data_block(cs_all[cs_all.len() - 1]), compression_enabled, compression_level)
                    || seq0 + cs_all.len() > u64::MAX);
            }
            return Err(err);
        },
    }
    proof {
        let cs = split_state(m, max_sstable_size).0;
        assert(outputs@.map_values(|x: Table| x.run@) =~= outs0.map_values(|x: Table| x.run@).push(ch));
        assert(cs =~= cs.drop_last().push(cs.last()));
        assert(outputs@.map_values(|x: Table| x.run@) =~= cs);
        assert forall|j: int| 0 <= j < outputs@.len() implies (#[trigger] outputs@[j]).run@ == cs[j] by {
            assert(outputs@.map_values(|x: Table| x.run@)[j] == outputs@[j].run@);
        }
        lemma_split_sizes(m, max_sstable_size);
        assert forall|j: int| 0 <= j && j + 1 < outputs@.len() implies sat64(kv_bytes((#[trigger] outputs@[j]).run@)
            + outputs@[j + 1].run@[0].0.len() + stored_value(outputs@[j + 1].run@[0].1).len()) > max_sstable_size by {
            assert(outputs@[j].run@ == cs[j]);
            assert(outputs@[j + 1].run@ == cs[j + 1]);
        }
    }
    Ok(outputs)
}

/// The state of splitting after `t` entries: the finished tables are those
/// written, and the last one is the pending chunk with its size.
#[verifier::opaque]
pub open spec fn chunk_state(st: (Seq<Seq<Entry>>, int), t: int, outputs: Seq<Table>, chunk: Seq<Entry>, size: u64) -> bool {
    &&& t == 0 ==> st.0.len() == 0 && chunk.len() == 0 && outputs.len() == 0 && size == 0
    &&& t > 0 ==> st.0.len() > 0 && chunk.len() > 0
        && st.0.drop_last() == outputs.map_values(|x: Table| x.run@)
        && st.0.last() == chunk
        && st.1 == size
}

/// The tables written so far are numbered in order and named by level and
/// number.
#[verifier::opaque]
pub open spec fn outputs_ok<S: Fn(usize) -> (usize, usize)>(outputs: Seq<Table>, seq0: u64, level: usize, enabled: bool,
    clevel: i32, sizer: S) -> bool {
    forall|j: int| 0 <= j < outputs.len() ==> {
        &&& (#[trigger] outputs[j]).meta.sequence == seq0 + 1 + j
        &&& outputs[j].meta.level == level
        &&& outputs[j].meta.path@ == table_name(level as nat, outputs[j].meta.sequence)
        &&& written_as(outputs[j], enabled, clevel)
        &&& image_sized_by(outputs[j].image@, outputs[j].run@, enabled, clevel, sizer)
    }
}

/// One more table written keeps the written tables in order.
proof fn lemma_outputs_push<S: Fn(usize) -> (usize, usize)>(outs0: Seq<Table>, outs1: Seq<Table>, seq0: u64, level: usize,
    enabled: bool, clevel: i32, sizer: S)
    requires
        outputs_ok(outs0, seq0, level, enabled, clevel, sizer),
        outs1.len() == outs0.len() + 1,
        outs1.take(outs0.len() as int) == outs0,
        outs1.last().meta.sequence == seq0 + 1 + outs0.len(),
        outs1.last().meta.level == level,
        outs1.last().meta.path@ == table_name(level as nat, outs1.last().meta.sequence),
        written_as(outs1.last(), enabled, clevel),
        image_sized_by(outs1.last().image@, outs1.last().run@, enabled, clevel, sizer),
    ensures
        outputs_ok(outs1, seq0, level, enabled, clevel, sizer),
{
    reveal(outputs_ok);
    assert forall|j: int| 0 <= j < outs1.len() implies {
        &&& (#[trigger] outs1[j]).meta.sequence == seq0 + 1 + j
        &&& outs1[j].meta.level == level
        &&& outs1[j].meta.path@ == table_name(level as nat, outs1[j].meta.sequence)
        &&& written_as(outs1[j], enabled, clevel)
        &&& image_sized_by(outs1[j].image@, outs1[j].run@, enabled, clevel, sizer)
    } by {
        if j < outs0.len() {
            assert(outs1[j] == outs1.take(outs0.len() as int)[j]);
        }
    }
}

/// The split state after pushing the next entry to the pending chunk (after
/// writing the chunk out when it was full).
proof fn lemma_chunk_state_step(s: Seq<Entry>, t: int, max: u64, outs0: Seq<Table>, outs1: Seq<Table>, ch: Seq<Entry>,
    ch1: Seq<Entry>, size0: u64, size1: u64, flushed: bool)
    requires
        0 <= t < s.len(),
        chunk_state(split_state(s.take(t), max), t, outs0, ch, size0),
        flushed == (sat64(size0 + entry_size(s[t])) > max && ch.len() > 0),
        flushed ==> outs1.len() == outs0.len() + 1 && outs1.take(outs0.len() as int) == outs0 && outs1.last().run@ == ch
            && ch1 == seq![s[t]] && size1 == entry_size(s[t]),
        !flushed ==> outs1 == outs0 && ch1 == ch.push(s[t]) && size1 == sat64(size0 + entry_size(s[t])),
    ensures
        chunk_state(split_state(s.take(t + 1), max), t + 1, outs1, ch1, size1),
{
    reveal(chunk_state);
    lemma_split_step(s, t, max);
    let prev = split_state(s.take(t), max);
    let (cs1, sz1) = split_state(s.take(t + 1), max);
    let e = s[t];
    if flushed {
        assert(t > 0);
        assert(prev.0.len() > 0);
        assert(prev.1 == size0);
        assert(cs1 == prev.0.push(seq![e]));
        assert(outs1 =~= outs0.push(outs1.last()));
        assert(outs1.map_values(|x: Table| x.run@) =~= outs0.map_values(|x: Table| x.run@).push(ch));
        assert(prev.0 =~= prev.0.drop_last().push(prev.0.last()));
        assert(cs1.drop_last() =~= prev.0);
        assert(cs1.last() == ch1);
        assert(sz1 == size1);
    } else if prev.0.len() == 0 {
        assert(t == 0);
        assert(ch =~= Seq::<Entry>::empty());
        assert(cs1.drop_last() =~= Seq::<Seq<Entry>>::empty());
        assert(outs1.map_values(|x: Table| x.run@) =~= Seq::<Seq<Entry>>::empty());
        assert(cs1.last() =~= ch1);
        assert(entry_size(e) <= u64::MAX);
        assert(sz1 == size1);
    } else {
        assert(cs1.drop_last() =~= prev.0.drop_last());
        assert(cs1.last() == ch1);
        assert(sz1 == size1);
    }
}

/// One more entry of the split.
pub proof fn lemma_split_step(s: Seq<Entry>, t: int, max: u64)
    requires
        0 <= t < s.len(),
    ensures
        ({
            let (cs, size) = split_state(s.take(t), max);
            let (cs1, size1) = split_state(s.take(t + 1), max);
            let e = s[t];
            let es = entry_size(e);
            &&& cs.len() > 0 && sat64(size + es) > max ==> cs1 == cs.push(seq![e]) && size1 == es
            &&& cs.len() == 0 ==> cs1 == seq![seq![e]] && size1 == es
            &&& cs.len() > 0 && sat64(size + es) <= max ==> cs1 == cs.drop_last().push(cs.last().push(e))
                && size1 == sat64(size + es)
        }),
{
    assert(s.take(t + 1).drop_last() =~= s.take(t));
    assert(s.take(t + 1).last() == s[t]);
}

/// When writing a chunk that the next entry closes fails, sequence numbers
/// ran out or the encoder gives no frame for that chunk, which is one of the
/// tables of the split of the whole run.
proof fn lemma_flush_failed(s: Seq<Entry>, t: int, max: u64, seq0: u64, nout: int, ch: Seq<Entry>, enabled: bool,
    level: i32)
    requires
        0 <= t < s.len(),
        split_state(s.take(t), max).0.len() > 0,
        sat64(split_state(s.take(t), max).1 + entry_size(s[t])) > max,
        split_state(s.take(t), max).0.drop_last().len() == nout,
        split_state(s.take(t), max).0.last() == ch,
        seq0 + nout == u64::MAX || encode_fails(data_block(ch), enabled, level),
    ensures
        seq0 + split_chunks(s, max).len() > u64::MAX
            || exists|j: int| 0 <= j < split_chunks(s, max).len()
                && encode_fails(data_block(#[trigger] split_chunks(s, max)[j]), enabled, level),
{
    lemma_split_step(s, t, max);
    lemma_chunks_prefix(s, t + 1, max);
    let a = split_state(s.take(t), max).0;
    let b = split_chunks(s.take(t + 1), max);
    let c = split_chunks(s, max);
    assert(b == a.push(seq![s[t]]));
    assert(b.len() == nout + 2);
    assert(b[nout] == ch);
    assert(c[nout] == ch);
}

/// The tables of a prefix of a run are the first tables of the run, the last
/// of them possibly cut short.
pub proof fn lemma_chunks_prefix(s: Seq<Entry>, t: int, max: u64)
    requires
        0 <= t <= s.len(),
    ensures
        split_chunks(s.take(t), max).len() <= split_chunks(s, max).len(),
        split_chunks(s.take(t), max).len() > 0 ==> forall|j: int| 0 <= j < split_chunks(s.take(t), max).len() - 1
            ==> #[trigger] split_chunks(s.take(t), max)[j] == split_chunks(s, max)[j],
        split_chunks(s.take(t), max).len() > 0 ==>
            split_chunks(s.take(t), max).last().len() <= split_chunks(s, max)[split_chunks(s.take(t), max).len() - 1].len(),
        split_chunks(s.take(t), max).len() > 0 ==>
            split_chunks(s, max)[split_chunks(s.take(t), max).len() - 1].take(split_chunks(s.take(t), max).last().len() as int)
                == split_chunks(s.take(t), max).last(),
    decreases s.len() - t,
{
    if t < s.len() {
        lemma_chunks_prefix(s, t + 1, max);
        let a = split_chunks(s.take(t), max);
        let b = split_chunks(s.take(t + 1), max);
        assert(s.take(t + 1).drop_last() =~= s.take(t));
        let c = split_chunks(s, max);
        if a.len() > 0 {
            if b.len() > a.len() {
                assert(b.drop_last() == a);
                assert forall|j: int| 0 <= j < a.len() - 1 implies #[trigger] a[j] == c[j] by {
                    assert(a[j] == b[j]);
                }
                assert(a[a.len() - 1] == b[a.len() - 1]);
                assert(c[a.len() - 1] == b[a.len() - 1]);
                assert(c[a.len() - 1].take(a.last().len() as int) =~= a.last());
            } else {
                assert forall|j: int| 0 <= j < a.len() - 1 implies #[trigger] a[j] == c[j] by {
                    assert(a[j] == b[j]);
                }
                assert(b.last() == a.last().push(s[t]));
                assert(b.last().take(a.last().len() as int) =~= a.last());
                assert(c[a.len() - 1].take(b.last().len() as int) == b.last());
                assert(c[a.len() - 1].take(a.last().len() as int) =~= c[a.len() - 1].take(b.last().len() as int).take(a.last().len() as int));
                assert(c[a.len() - 1].take(a.last().len() as int) =~= a.last());
            }
        }
    } else {
        assert(s.take(t) =~= s);
    }
}


/// A table written from a sorted run that fits the format, and whose data
/// block does not compress to its own length, is sound.
pub proof fn lemma_written_ok(t: Table, enabled: bool, level: i32)
    requires
        written_as(t, enabled, level),
        keys_sorted(t.run@),
        crate::sstable_roundtrip::lengths_fit(t.run@),
        t.run@.len() > 0,
        t.image@.len() <= usize::MAX,
        crate::table::distinct_lengths(t.run@, enabled, level),
    ensures
        crate::table::table_ok(t),
{
    let s = t.run@;
    let (nb, nh, bits) = choose|nb: nat, nh: nat, bits: Seq<u64>| {
        &&& 0 < nb <= usize::MAX
        &&& nh <= usize::MAX
        &&& bits.len() == words_for(nb)
        &&& t.image@ == #[trigger] table_image(s, nb as u64, nh as u64, bloom_after(bits, run_keys(s), nh, nb), enabled, level)
    };
    crate::table::lemma_written_table(s, t.image@, nb, nh, bits, enabled, level);
}

/// What a sound table holds as stored is its run.
pub proof fn lemma_stored_run(t: Table)
    requires
        crate::table::table_ok(t),
    ensures
        stored_run(t) == t.run@,
{
    crate::sstable_roundtrip::lemma_scan_all_roundtrip(t.run@);
}

} // verus!
