//! The levels of tables: what a read finds in them, the order the database
//! keeps them in, and why flushing the memtable and compacting a level leave
//! every read unchanged.
use vstd::prelude::*;
use crate::order::{lex_lt, lex_le, lemma_lex_order_facts};
use crate::entries::{Entry, keys_sorted, has_key, key_pos, entries_map, lemma_sorted_lookup};
use crate::transaction::entry_of;
use crate::table::{Table, table_ok, runs_of, seqs_of, seqs_increasing};
use crate::compaction::MAX_LEVELS;

verus! {

/// The run holds an entry for `k`.
pub open spec fn holds(run: Seq<Entry>, k: Seq<u8>) -> bool {
    entries_map(run).contains_key(k)
}

/// What a level answers for `k`: the entry of its last table that holds
/// `k`, the newest one since a level's tables are kept in increasing
/// sequence order.
pub open spec fn level_entry(runs: Seq<Seq<Entry>>, k: Seq<u8>) -> Option<Option<Seq<u8>>>
    decreases runs.len(),
{
    if runs.len() == 0 {
        None
    } else if holds(runs.last(), k) {
        Some(entries_map(runs.last())[k])
    } else {
        level_entry(runs.drop_last(), k)
    }
}

/// What the levels from `from` on answer for `k`: the answer of the first
/// level that has one.
pub open spec fn levels_entry(lv: Seq<Seq<Seq<Entry>>>, k: Seq<u8>, from: int) -> Option<Option<Seq<u8>>>
    decreases lv.len() - from,
{
    if from < 0 || from >= lv.len() {
        None
    } else {
        match level_entry(lv[from], k) {
            Some(e) => Some(e),
            None => levels_entry(lv, k, from + 1),
        }
    }
}

/// The runs of the tables of each level.
pub open spec fn level_runs(lv: Seq<Seq<Table>>) -> Seq<Seq<Seq<Entry>>> {
    lv.map_values(|ts: Seq<Table>| runs_of(ts))
}

/// A live value, or nothing for a tombstone or no entry.
pub open spec fn live(e: Option<Option<Seq<u8>>>) -> Option<Seq<u8>> {
    match e {
        Some(Some(v)) => Some(v),
        _ => None,
    }
}

/// Two tables' key ranges do not meet.
pub open spec fn disjoint(a: Table, b: Table) -> bool {
    lex_lt(a.meta.max_key@, b.meta.min_key@) || lex_lt(b.meta.max_key@, a.meta.min_key@)
}

/// The order the database keeps its tables in: every table sound and
/// numbered at most `top`; numbers increasing along each level, and every
/// number of a level above every number of the next; from level 1 on, the
/// tables of a level do not overlap.
pub open spec fn levels_sound(lv: Seq<Seq<Table>>, top: u64) -> bool {
    &&& lv.len() == MAX_LEVELS
    &&& forall|i: int, j: int| 0 <= i < lv.len() && 0 <= j < lv[i].len()
        ==> table_ok(#[trigger] lv[i][j]) && lv[i][j].meta.sequence <= top
    &&& forall|i: int| 0 <= i < lv.len() ==> seqs_increasing(#[trigger] lv[i])
    &&& forall|i: int, j: int, a: int, b: int| 0 <= i && j == i + 1 && j < lv.len() && 0 <= a < lv[i].len() && 0 <= b < lv[j].len()
        ==> (#[trigger] lv[i][a]).meta.sequence > (#[trigger] lv[j][b]).meta.sequence
    &&& forall|i: int, a: int, b: int| 1 <= i < lv.len() && 0 <= a < lv[i].len() && 0 <= b < lv[i].len() && a != b
        ==> disjoint(#[trigger] lv[i][a], #[trigger] lv[i][b])
}

/// A level where no table holds `k` answers nothing.
pub proof fn lemma_level_none(runs: Seq<Seq<Entry>>, k: Seq<u8>)
    requires
        forall|j: int| 0 <= j < runs.len() ==> !holds(#[trigger] runs[j], k),
    ensures
        level_entry(runs, k) is None,
    decreases runs.len(),
{
    if runs.len() > 0 {
        let d = runs.drop_last();
        assert(!holds(runs[runs.len() - 1], k));
        assert forall|j: int| 0 <= j < d.len() implies !holds(#[trigger] d[j], k) by {
            assert(d[j] == runs[j]);
        }
        lemma_level_none(d, k);
    }
}

/// A level answers from the last table that holds `k`.
pub proof fn lemma_level_found(runs: Seq<Seq<Entry>>, k: Seq<u8>, j: int)
    requires
        0 <= j < runs.len(),
        holds(runs[j], k),
        forall|i: int| j < i < runs.len() ==> !holds(#[trigger] runs[i], k),
    ensures
        level_entry(runs, k) == Some(entries_map(runs[j])[k]),
    decreases runs.len(),
{
    if j < runs.len() - 1 {
        let d = runs.drop_last();
        assert(!holds(runs[runs.len() - 1], k));
        assert forall|i: int| j < i < d.len() implies !holds(#[trigger] d[i], k) by {
            assert(d[i] == runs[i]);
        }
        assert(d[j] == runs[j]);
        lemma_level_found(d, k, j);
    }
}

/// A level answers from the one table that holds `k`.
pub proof fn lemma_level_unique(runs: Seq<Seq<Entry>>, k: Seq<u8>, j: int)
    requires
        0 <= j < runs.len(),
        holds(runs[j], k),
        forall|i: int| 0 <= i < runs.len() && i != j ==> !holds(#[trigger] runs[i], k),
    ensures
        level_entry(runs, k) == Some(entries_map(runs[j])[k]),
{
    lemma_level_found(runs, k, j);
}

/// A level made of two parts answers from the second part first.
pub proof fn lemma_level_concat(a: Seq<Seq<Entry>>, b: Seq<Seq<Entry>>, k: Seq<u8>)
    ensures
        level_entry(a + b, k) == (if level_entry(b, k) is Some { level_entry(b, k) } else { level_entry(a, k) }),
    decreases b.len(),
{
    if b.len() == 0 {
        assert(a + b =~= a);
    } else {
        assert((a + b).drop_last() =~= a + b.drop_last());
        assert((a + b).last() == b.last());
        lemma_level_concat(a, b.drop_last(), k);
    }
}

/// Levels that agree up to `stop` answer alike up to there: when none of them
/// has an answer, the answers are those from `stop` on.
pub proof fn lemma_levels_prefix(lv: Seq<Seq<Seq<Entry>>>, lv2: Seq<Seq<Seq<Entry>>>, k: Seq<u8>, from: int, stop: int)
    requires
        0 <= from <= stop <= lv.len(),
        lv.len() == lv2.len(),
        forall|i: int| from <= i < stop ==> lv[i] == lv2[i],
        live(levels_entry(lv, k, stop)) == live(levels_entry(lv2, k, stop)),
    ensures
        live(levels_entry(lv, k, from)) == live(levels_entry(lv2, k, from)),
    decreases stop - from,
{
    if from < stop {
        assert(lv[from] == lv2[from]);
        lemma_levels_prefix(lv, lv2, k, from + 1, stop);
    }
}

/// Levels whose runs are equal from `from` on answer alike.
pub proof fn lemma_levels_same(lv: Seq<Seq<Seq<Entry>>>, lv2: Seq<Seq<Seq<Entry>>>, k: Seq<u8>, from: int)
    requires
        0 <= from,
        lv.len() == lv2.len(),
        forall|i: int| from <= i < lv.len() ==> lv[i] == lv2[i],
    ensures
        levels_entry(lv, k, from) == levels_entry(lv2, k, from),
    decreases lv.len() - from,
{
    if from < lv.len() {
        assert(lv[from] == lv2[from]);
        lemma_levels_same(lv, lv2, k, from + 1);
    }
}

/// The runs of the levels after a table is appended to level 0.
pub proof fn lemma_runs_push0(lv: Seq<Seq<Table>>, t: Table)
    requires
        lv.len() > 0,
    ensures
        level_runs(lv.update(0, lv[0].push(t))) == level_runs(lv).update(0, level_runs(lv)[0].push(t.run@)),
{
    let a = level_runs(lv.update(0, lv[0].push(t)));
    let b = level_runs(lv).update(0, level_runs(lv)[0].push(t.run@));
    assert(runs_of(lv[0].push(t)) =~= runs_of(lv[0]).push(t.run@));
    assert(a =~= b);
}

/// Flushing the memtable as a new newest table of level 0 keeps the levels
/// in order, and a read that the table answers is answered by it.
pub proof fn lemma_flush_levels(lv: Seq<Seq<Table>>, top: u64, t: Table, k: Seq<u8>)
    requires
        levels_sound(lv, top),
        table_ok(t),
        top < u64::MAX,
        t.meta.sequence == top + 1,
    ensures
        levels_sound(lv.update(0, lv[0].push(t)), (top + 1) as u64),
        levels_entry(level_runs(lv.update(0, lv[0].push(t))), k, 0)
            == (if holds(t.run@, k) { Some(entries_map(t.run@)[k]) } else { levels_entry(level_runs(lv), k, 0) }),
{
    let lv2 = lv.update(0, lv[0].push(t));
    let top2 = (top + 1) as u64;
    assert forall|i: int, j: int| 0 <= i < lv2.len() && 0 <= j < lv2[i].len()
        implies table_ok(#[trigger] lv2[i][j]) && lv2[i][j].meta.sequence <= top2 by {
        if i == 0 && j == lv[0].len() {
        } else {
            assert(lv2[i][j] == lv[i][j]);
        }
    }
    assert forall|i: int| 0 <= i < lv2.len() implies seqs_increasing(#[trigger] lv2[i]) by {
        if i == 0 {
            assert(seqs_increasing(lv[0]));
            assert forall|a: int, b: int| 0 <= a < b < lv2[0].len()
                implies (#[trigger] lv2[0][a]).meta.sequence < (#[trigger] lv2[0][b]).meta.sequence by {
                assert(lv2[0][a] == lv[0][a]);
                if b < lv[0].len() {
                    assert(lv2[0][b] == lv[0][b]);
                }
            }
        } else {
            assert(lv2[i] == lv[i]);
        }
    }
    assert forall|i: int, j: int, a: int, b: int| 0 <= i && j == i + 1 && j < lv2.len() && 0 <= a < lv2[i].len() && 0 <= b < lv2[j].len()
        implies (#[trigger] lv2[i][a]).meta.sequence > (#[trigger] lv2[j][b]).meta.sequence by {
        assert(lv2[j][b] == lv[j][b]);
        if i == 0 && a == lv[0].len() {
            assert(lv[j][b].meta.sequence <= top);
        } else {
            assert(lv2[i][a] == lv[i][a]);
        }
    }
    assert forall|i: int, a: int, b: int| 1 <= i < lv2.len() && 0 <= a < lv2[i].len() && 0 <= b < lv2[i].len() && a != b
        implies disjoint(#[trigger] lv2[i][a], #[trigger] lv2[i][b]) by {
        assert(lv2[i] == lv[i]);
    }
    lemma_runs_push0(lv, t);
    let r = level_runs(lv);
    let r2 = level_runs(lv2);
    assert(r2[0].drop_last() =~= r[0]);
    if !holds(t.run@, k) {
        lemma_levels_same(r, r2, k, 1);
    }
}

} // verus!
