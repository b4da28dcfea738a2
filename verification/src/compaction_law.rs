//! Why compacting a level into the next one leaves every read unchanged and
//! keeps the levels in order.
use vstd::prelude::*;
use crate::order::{lex_lt, lex_le, lemma_lex_order_facts};
use crate::entries::{Entry, keys_sorted, has_key, key_pos, entries_map, lemma_sorted_lookup};
use crate::transaction::entry_of;
use crate::sstable_roundtrip::lengths_fit;
use crate::table::{Table, table_ok, runs_of, seqs_of, seqs_increasing, lemma_outside_range};
use crate::compaction::{split_chunks, concat, lemma_split_concat, spec_k_way_merge};
use crate::merge_law::{all_sorted, merged_map, in_union, is_winner, winner, winner_value, newer, lemma_k_way_merge_sorted,
    lemma_winner_unique};
use crate::levels::{holds, level_entry, levels_entry, level_runs, live, disjoint, levels_sound, lemma_level_none,
    lemma_level_found, lemma_level_unique, lemma_level_concat, lemma_levels_prefix, lemma_levels_same};

verus! {

// ── Sorted runs cut into pieces ────────────────────────────────────────────

/// Two sorted runs one after the other: each is sorted, every key of the
/// first comes before every key of the second, and the map of the whole is
/// the maps of the parts.
pub proof fn lemma_map_append(a: Seq<Entry>, b: Seq<Entry>)
    requires
        keys_sorted(a + b),
    ensures
        keys_sorted(a),
        keys_sorted(b),
        forall|i: int, j: int| 0 <= i < a.len() && 0 <= j < b.len() ==> lex_lt(#[trigger] a[i].0, #[trigger] b[j].0),
        forall|k: Seq<u8>| #[trigger] holds(a + b, k) == (holds(a, k) || holds(b, k)),
        forall|k: Seq<u8>| holds(a, k) ==> #[trigger] entries_map(a + b)[k] == entries_map(a)[k],
        forall|k: Seq<u8>| holds(b, k) ==> #[trigger] entries_map(a + b)[k] == entries_map(b)[k],
{
    let s = a + b;
    assert forall|i: int, j: int| 0 <= i < j < a.len() implies lex_lt(#[trigger] a[i].0, #[trigger] a[j].0) by {
        assert(a[i] == s[i] && a[j] == s[j]);
    }
    assert forall|i: int, j: int| 0 <= i < j < b.len() implies lex_lt(#[trigger] b[i].0, #[trigger] b[j].0) by {
        assert(b[i] == s[a.len() + i] && b[j] == s[a.len() + j]);
    }
    assert forall|i: int, j: int| 0 <= i < a.len() && 0 <= j < b.len() implies lex_lt(#[trigger] a[i].0, #[trigger] b[j].0) by {
        assert(a[i] == s[i] && b[j] == s[a.len() + j]);
    }
    assert forall|k: Seq<u8>| #[trigger] holds(a + b, k) == (holds(a, k) || holds(b, k)) by {
        if has_key(s, k) {
            let p = key_pos(s, k);
            if p < a.len() {
                assert(a[p] == s[p]);
            } else {
                assert(b[p - a.len()] == s[p]);
            }
        }
        if has_key(a, k) {
            let p = key_pos(a, k);
            assert(s[p] == a[p]);
        }
        if has_key(b, k) {
            let p = key_pos(b, k);
            assert(s[a.len() + p] == b[p]);
        }
    }
    assert forall|k: Seq<u8>| holds(a, k) implies #[trigger] entries_map(a + b)[k] == entries_map(a)[k] by {
        let p = key_pos(a, k);
        lemma_sorted_lookup(a, p);
        assert(s[p] == a[p]);
        lemma_sorted_lookup(s, p);
    }
    assert forall|k: Seq<u8>| holds(b, k) implies #[trigger] entries_map(a + b)[k] == entries_map(b)[k] by {
        let p = key_pos(b, k);
        lemma_sorted_lookup(b, p);
        assert(s[a.len() + p] == b[p]);
        lemma_sorted_lookup(s, a.len() + p);
    }
}

/// The pieces of a sorted run: each sorted, in key order, with the run's
/// entries for their keys, and every key of the run in one of them.
pub proof fn lemma_pieces(cs: Seq<Seq<Entry>>)
    requires
        keys_sorted(concat(cs)),
        forall|j: int| 0 <= j < cs.len() ==> (#[trigger] cs[j]).len() > 0,
    ensures
        forall|j: int| 0 <= j < cs.len() ==> keys_sorted(#[trigger] cs[j]),
        forall|j: int, k: Seq<u8>| 0 <= j < cs.len() && #[trigger] holds(cs[j], k) ==> holds(concat(cs), k)
            && entries_map(cs[j])[k] == entries_map(concat(cs))[k],
        forall|k: Seq<u8>| holds(concat(cs), k) ==> exists|j: int| 0 <= j < cs.len() && holds(#[trigger] cs[j], k),
        forall|a: int, b: int| 0 <= a < b < cs.len() ==> lex_lt((#[trigger] cs[a]).last().0, (#[trigger] cs[b])[0].0),
        lengths_fit(concat(cs)) ==> forall|j: int| 0 <= j < cs.len() ==> lengths_fit(#[trigger] cs[j]),
    decreases cs.len(),
{
    if cs.len() > 0 {
        let d = cs.drop_last();
        let c = cs.last();
        let p = concat(d);
        assert(concat(cs) == p + c);
        lemma_map_append(p, c);
        assert forall|j: int| 0 <= j < d.len() implies (#[trigger] d[j]).len() > 0 by {
            assert(d[j] == cs[j]);
        }
        lemma_pieces(d);
        assert forall|j: int| 0 <= j < cs.len() implies keys_sorted(#[trigger] cs[j]) by {
            if j < d.len() {
                assert(cs[j] == d[j]);
            }
        }
        assert forall|j: int, k: Seq<u8>| 0 <= j < cs.len() && #[trigger] holds(cs[j], k) implies holds(concat(cs), k)
            && entries_map(cs[j])[k] == entries_map(concat(cs))[k] by {
            if j < d.len() {
                assert(cs[j] == d[j]);
                assert(holds(d[j], k));
                assert(holds(p, k));
            }
        }
        assert forall|k: Seq<u8>| holds(concat(cs), k) implies exists|j: int| 0 <= j < cs.len() && holds(#[trigger] cs[j], k) by {
            if holds(p, k) {
                let j = choose|j: int| 0 <= j < d.len() && holds(#[trigger] d[j], k);
                assert(cs[j] == d[j]);
            } else {
                assert(holds(cs[cs.len() - 1], k));
            }
        }
        assert forall|a: int, b: int| 0 <= a < b < cs.len() implies lex_lt((#[trigger] cs[a]).last().0, (#[trigger] cs[b])[0].0) by {
            if b < d.len() {
                assert(cs[a] == d[a] && cs[b] == d[b]);
            } else {
                assert(cs[a] == d[a]);
                let ka = d[a].last().0;
                lemma_sorted_lookup(d[a], d[a].len() - 1);
                assert(holds(d[a], ka));
                assert(holds(p, ka));
                let q = key_pos(p, ka);
                assert(lex_lt(p[q].0, c[0].0));
            }
        }
        if lengths_fit(concat(cs)) {
            assert forall|j: int| 0 <= j < cs.len() implies lengths_fit(#[trigger] cs[j]) by {
                let s = concat(cs);
                if j < d.len() {
                    assert forall|i: int| 0 <= i < p.len() implies (#[trigger] p[i]).0.len() < 0x1_0000_0000
                        && crate::sstable::stored_value(p[i].1).len() < 0x1_0000_0000 by {
                        assert(p[i] == s[i]);
                    }
                    assert(cs[j] == d[j]);
                } else {
                    assert forall|i: int| 0 <= i < c.len() implies (#[trigger] c[i]).0.len() < 0x1_0000_0000
                        && crate::sstable::stored_value(c[i].1).len() < 0x1_0000_0000 by {
                        assert(c[i] == s[p.len() + i]);
                    }
                }
            }
        }
    }
}

/// A level made of the pieces of a sorted run answers as the run does.
pub proof fn lemma_pieces_lookup(cs: Seq<Seq<Entry>>, k: Seq<u8>)
    requires
        keys_sorted(concat(cs)),
        forall|j: int| 0 <= j < cs.len() ==> (#[trigger] cs[j]).len() > 0,
    ensures
        level_entry(cs, k) == entry_of(entries_map(concat(cs)), k),
{
    lemma_lex_order_facts();
    lemma_pieces(cs);
    if holds(concat(cs), k) {
        let j = choose|j: int| 0 <= j < cs.len() && holds(#[trigger] cs[j], k);
        assert forall|i: int| 0 <= i < cs.len() && i != j implies !holds(#[trigger] cs[i], k) by {
            if holds(cs[i], k) {
                let (a, b) = if i < j { (i, j) } else { (j, i) };
                assert(lex_lt(cs[a].last().0, cs[b][0].0));
                let pa = key_pos(cs[a], k);
                let pb = key_pos(cs[b], k);
                if pa < cs[a].len() - 1 {
                    assert(lex_lt(cs[a][pa].0, cs[a][cs[a].len() - 1].0));
                }
                if pb > 0 {
                    assert(lex_lt(cs[b][0].0, cs[b][pb].0));
                }
            }
        }
        lemma_level_unique(cs, k, j);
    } else {
        assert forall|j: int| 0 <= j < cs.len() implies !holds(#[trigger] cs[j], k) by {}
        lemma_level_none(cs, k);
    }
}

// ── Choosing the tables of the next level that a compaction takes ─────────

/// A table's key range meets `[lo, hi]`.
pub open spec fn overlaps(t: Table, lo: Seq<u8>, hi: Seq<u8>) -> bool {
    lex_le(t.meta.min_key@, hi) && lex_le(lo, t.meta.max_key@)
}

/// The positions, among the first `n` tables, of those that meet `[lo, hi]`
/// (`want`) or do not (`!want`), in order.
pub open spec fn select_idx(ts: Seq<Table>, lo: Seq<u8>, hi: Seq<u8>, want: bool, n: int) -> Seq<int>
    decreases n,
{
    if n <= 0 {
        Seq::empty()
    } else {
        let r = select_idx(ts, lo, hi, want, n - 1);
        if overlaps(ts[n - 1], lo, hi) == want { r.push(n - 1) } else { r }
    }
}

/// The tables that meet `[lo, hi]` (`want`) or do not (`!want`), in order.
pub open spec fn select(ts: Seq<Table>, lo: Seq<u8>, hi: Seq<u8>, want: bool) -> Seq<Table> {
    select_idx(ts, lo, hi, want, ts.len() as int).map_values(|i: int| ts[i])
}

pub proof fn lemma_select_idx(ts: Seq<Table>, lo: Seq<u8>, hi: Seq<u8>, want: bool, n: int)
    requires
        0 <= n <= ts.len(),
    ensures
        forall|a: int| 0 <= a < select_idx(ts, lo, hi, want, n).len() ==>
            0 <= #[trigger] select_idx(ts, lo, hi, want, n)[a] < n
            && overlaps(ts[select_idx(ts, lo, hi, want, n)[a]], lo, hi) == want,
        forall|a: int, b: int| 0 <= a < b < select_idx(ts, lo, hi, want, n).len() ==>
            #[trigger] select_idx(ts, lo, hi, want, n)[a] < #[trigger] select_idx(ts, lo, hi, want, n)[b],
        forall|i: int| 0 <= i < n && overlaps(ts[i], lo, hi) == want ==>
            exists|a: int| 0 <= a < select_idx(ts, lo, hi, want, n).len() && #[trigger] select_idx(ts, lo, hi, want, n)[a] == i,
    decreases n,
{
    if n > 0 {
        lemma_select_idx(ts, lo, hi, want, n - 1);
        let r = select_idx(ts, lo, hi, want, n - 1);
        let r2 = select_idx(ts, lo, hi, want, n);
        if overlaps(ts[n - 1], lo, hi) == want {
            assert forall|i: int| 0 <= i < n && overlaps(ts[i], lo, hi) == want implies
                exists|a: int| 0 <= a < r2.len() && #[trigger] r2[a] == i by {
                if i < n - 1 {
                    let a = choose|a: int| 0 <= a < r.len() && #[trigger] r[a] == i;
                    assert(r2[a] == i);
                } else {
                    assert(r2[r.len() as int] == i);
                }
            }
        }
    }
}

/// The chosen tables: where each sits among all, in increasing order, and
/// every table of the kind among them.
pub proof fn lemma_select(ts: Seq<Table>, lo: Seq<u8>, hi: Seq<u8>, want: bool)
    ensures
        ({
            let idx = select_idx(ts, lo, hi, want, ts.len() as int);
            let s = select(ts, lo, hi, want);
            &&& s.len() == idx.len()
            &&& forall|a: int| 0 <= a < s.len() ==> 0 <= #[trigger] idx[a] < ts.len() && s[a] == ts[idx[a]]
                && overlaps(ts[idx[a]], lo, hi) == want
            &&& forall|a: int, b: int| 0 <= a < b < s.len() ==> #[trigger] idx[a] < #[trigger] idx[b]
            &&& forall|i: int| 0 <= i < ts.len() && overlaps(ts[i], lo, hi) == want ==>
                exists|a: int| 0 <= a < s.len() && #[trigger] idx[a] == i
            &&& seqs_increasing(ts) ==> seqs_increasing(s)
        }),
{
    lemma_select_idx(ts, lo, hi, want, ts.len() as int);
    let idx = select_idx(ts, lo, hi, want, ts.len() as int);
    let s = select(ts, lo, hi, want);
    if seqs_increasing(ts) {
        assert forall|a: int, b: int| 0 <= a < b < s.len() implies (#[trigger] s[a]).meta.sequence < (#[trigger] s[b]).meta.sequence by {
            assert(idx[a] < idx[b]);
            assert(s[a] == ts[idx[a]] && s[b] == ts[idx[b]]);
        }
    }
}


// ── What a level holds ─────────────────────────────────────────────────────

/// A level answers nothing exactly when none of its tables holds `k`, and
/// otherwise answers from the last table that holds it.
pub proof fn lemma_level_spec(runs: Seq<Seq<Entry>>, k: Seq<u8>)
    ensures
        level_entry(runs, k) is None <==> forall|j: int| 0 <= j < runs.len() ==> !holds(#[trigger] runs[j], k),
        level_entry(runs, k) is Some ==> exists|j: int| 0 <= j < runs.len() && holds(#[trigger] runs[j], k)
            && (forall|i: int| j < i < runs.len() ==> !holds(#[trigger] runs[i], k))
            && level_entry(runs, k) == Some(entries_map(runs[j])[k]),
    decreases runs.len(),
{
    if runs.len() > 0 {
        let d = runs.drop_last();
        lemma_level_spec(d, k);
        let n = runs.len() - 1;
        if holds(runs[n], k) {
            assert(holds(runs[n], k) && (forall|i: int| n < i < runs.len() ==> !holds(#[trigger] runs[i], k)));
        } else {
            assert forall|j: int| 0 <= j < d.len() implies #[trigger] d[j] == runs[j] by {}
            if level_entry(d, k) is Some {
                let j = choose|j: int| 0 <= j < d.len() && holds(#[trigger] d[j], k)
                    && (forall|i: int| j < i < d.len() ==> !holds(#[trigger] d[i], k))
                    && level_entry(d, k) == Some(entries_map(d[j])[k]);
                assert(holds(runs[j], k));
                assert forall|i: int| j < i < runs.len() implies !holds(#[trigger] runs[i], k) by {
                    if i < n {
                        assert(runs[i] == d[i]);
                    }
                }
            } else {
                assert forall|j: int| 0 <= j < runs.len() implies !holds(#[trigger] runs[j], k) by {
                    if j < n {
                        assert(runs[j] == d[j]);
                    }
                }
            }
        }
    }
}

/// A sound table holds only keys between its first and last keys.
pub proof fn lemma_holds_in_range(t: Table, k: Seq<u8>)
    requires
        table_ok(t),
        holds(t.run@, k),
    ensures
        lex_le(t.meta.min_key@, k),
        lex_le(k, t.meta.max_key@),
{
    lemma_lex_order_facts();
    if lex_lt(k, t.meta.min_key@) || lex_lt(t.meta.max_key@, k) {
        lemma_outside_range(t, k);
    }
}

/// Tables whose ranges do not meet do not both hold a key.
pub proof fn lemma_disjoint_holds(a: Table, b: Table, k: Seq<u8>)
    requires
        table_ok(a),
        table_ok(b),
        disjoint(a, b),
    ensures
        !(holds(a.run@, k) && holds(b.run@, k)),
{
    lemma_lex_order_facts();
    if holds(a.run@, k) && holds(b.run@, k) {
        lemma_holds_in_range(a, k);
        lemma_holds_in_range(b, k);
    }
}

// ── The compaction of level `l` into level `l + 1` ─────────────────────────

/// The runs a compaction merges: those of level `l`, then those of the
/// tables of level `l + 1` that meet `[lo, hi]`.
pub open spec fn comp_srcs(lv: Seq<Seq<Table>>, l: int, lo: Seq<u8>, hi: Seq<u8>) -> Seq<Seq<Entry>> {
    runs_of(lv[l]) + runs_of(select(lv[l + 1], lo, hi, true))
}

/// Their sequence numbers.
pub open spec fn comp_seqs(lv: Seq<Seq<Table>>, l: int, lo: Seq<u8>, hi: Seq<u8>) -> Seq<u64> {
    seqs_of(lv[l]) + seqs_of(select(lv[l + 1], lo, hi, true))
}

/// The levels after the compaction: level `l` empty, level `l + 1` the
/// tables it kept followed by the new ones.
pub open spec fn compacted(lv: Seq<Seq<Table>>, l: int, lo: Seq<u8>, hi: Seq<u8>, news: Seq<Table>) -> Seq<Seq<Table>> {
    lv.update(l, Seq::<Table>::empty()).update(l + 1, select(lv[l + 1], lo, hi, false) + news)
}

/// The setting of a compaction: sound levels, a nonempty level `l` within
/// `[lo, hi]`.
pub open spec fn comp_setting(lv: Seq<Seq<Table>>, top: u64, l: int, lo: Seq<u8>, hi: Seq<u8>) -> bool {
    &&& levels_sound(lv, top)
    &&& 0 <= l && l + 1 < lv.len()
    &&& lv[l].len() > 0
    &&& forall|j: int| 0 <= j < lv[l].len() ==> lex_le(lo, (#[trigger] lv[l][j]).meta.min_key@)
        && lex_le(lv[l][j].meta.max_key@, hi)
}

/// Facts of the setting about the tables taken from level `l + 1`.
pub proof fn lemma_setting_facts(lv: Seq<Seq<Table>>, top: u64, l: int, lo: Seq<u8>, hi: Seq<u8>)
    requires
        comp_setting(lv, top, l, lo, hi),
    ensures
        forall|j: int| 0 <= j < lv[l].len() ==> table_ok(#[trigger] lv[l][j]),
        forall|j: int| 0 <= j < lv[l + 1].len() ==> table_ok(#[trigger] lv[l + 1][j]),
        comp_srcs(lv, l, lo, hi).len() == comp_seqs(lv, l, lo, hi).len(),
        all_sorted(comp_srcs(lv, l, lo, hi)),
        forall|j: int| 0 <= j < comp_srcs(lv, l, lo, hi).len() ==> lengths_fit(#[trigger] comp_srcs(lv, l, lo, hi)[j]),
{
    let a = lv[l];
    let o = select(lv[l + 1], lo, hi, true);
    lemma_select(lv[l + 1], lo, hi, true);
    let srcs = comp_srcs(lv, l, lo, hi);
    assert forall|j: int| 0 <= j < lv[l].len() implies table_ok(#[trigger] lv[l][j]) by {}
    assert forall|j: int| 0 <= j < lv[l + 1].len() implies table_ok(#[trigger] lv[l + 1][j]) by {}
    assert forall|j: int| 0 <= j < srcs.len() implies keys_sorted(#[trigger] srcs[j]) && lengths_fit(srcs[j]) by {
        if j < a.len() {
            assert(srcs[j] == a[j].run@);
            assert(table_ok(lv[l][j]));
        } else {
            let idx = select_idx(lv[l + 1], lo, hi, true, lv[l + 1].len() as int);
            assert(srcs[j] == o[j - a.len()].run@);
            assert(o[j - a.len()] == lv[l + 1][idx[j - a.len()]]);
            assert(table_ok(lv[l + 1][idx[j - a.len()]]));
        }
    }
}


/// For a key of the merged runs, the merge keeps the entry that a read
/// finds in level `l`, else in level `l + 1`; no table that level `l + 1`
/// keeps holds the key; and the key and that entry fit the table format.
pub proof fn lemma_comp_union(lv: Seq<Seq<Table>>, top: u64, l: int, lo: Seq<u8>, hi: Seq<u8>, k: Seq<u8>)
    requires
        comp_setting(lv, top, l, lo, hi),
        in_union(comp_srcs(lv, l, lo, hi), k),
    ensures
        Some(winner_value(comp_srcs(lv, l, lo, hi), comp_seqs(lv, l, lo, hi), k)) == (match level_entry(runs_of(lv[l]), k) {
            Some(e) => Some(e),
            None => level_entry(runs_of(lv[l + 1]), k),
        }),
        forall|a: int| 0 <= a < select(lv[l + 1], lo, hi, false).len()
            ==> !holds((#[trigger] select(lv[l + 1], lo, hi, false)[a]).run@, k),
        k.len() < 0x1_0000_0000,
        winner_value(comp_srcs(lv, l, lo, hi), comp_seqs(lv, l, lo, hi), k) matches Some(v) ==> v.len() < 0x1_0000_0000,
{
    lemma_lex_order_facts();
    lemma_setting_facts(lv, top, l, lo, hi);
    let srcs = comp_srcs(lv, l, lo, hi);
    let seqs = comp_seqs(lv, l, lo, hi);
    let a = lv[l];
    let na = a.len() as int;
    let nxt = lv[l + 1];
    let o = select(nxt, lo, hi, true);
    let kp = select(nxt, lo, hi, false);
    let io = select_idx(nxt, lo, hi, true, nxt.len() as int);
    let ik = select_idx(nxt, lo, hi, false, nxt.len() as int);
    lemma_select(nxt, lo, hi, true);
    lemma_select(nxt, lo, hi, false);
    lemma_level_spec(runs_of(a), k);
    lemma_level_spec(runs_of(nxt), k);
    assert forall|j: int| 0 <= j < srcs.len() implies #[trigger] srcs[j] == (if j < na { a[j].run@ } else { o[j - na].run@ })
        && seqs[j] == (if j < na { a[j].meta.sequence } else { o[j - na].meta.sequence }) by {}
    let w: int;
    if level_entry(runs_of(a), k) is Some {
        let ja = choose|j: int| 0 <= j < runs_of(a).len() && holds(#[trigger] runs_of(a)[j], k)
            && (forall|i: int| j < i < runs_of(a).len() ==> !holds(#[trigger] runs_of(a)[i], k))
            && level_entry(runs_of(a), k) == Some(entries_map(runs_of(a)[j])[k]);
        assert(runs_of(a)[ja] == a[ja].run@);
        assert forall|j: int| 0 <= j < srcs.len() && j != ja && has_key(#[trigger] srcs[j], k) implies newer(seqs, ja, j) by {
            if j < na {
                assert(runs_of(a)[j] == a[j].run@);
                assert(holds(runs_of(a)[j], k));
                assert(j < ja);
                assert(seqs_increasing(lv[l]));
                assert(a[j].meta.sequence < a[ja].meta.sequence);
            } else {
                let q = io[j - na];
                assert(o[j - na] == nxt[q]);
                assert(lv[l][ja].meta.sequence > lv[l + 1][q].meta.sequence);
            }
        }
        assert(is_winner(srcs, seqs, k, ja));
        lemma_winner_unique(srcs, seqs, k, winner(srcs, seqs, k), ja);
        w = ja;
        // the key lies within [lo, hi], which the kept tables miss
        lemma_holds_in_range(a[ja], k);
        assert(lex_le(lo, a[ja].meta.min_key@) && lex_le(a[ja].meta.max_key@, hi));
        assert forall|b: int| 0 <= b < kp.len() implies !holds((#[trigger] kp[b]).run@, k) by {
            assert(kp[b] == nxt[ik[b]]);
            if holds(kp[b].run@, k) {
                lemma_holds_in_range(nxt[ik[b]], k);
            }
        }
    } else {
        let j0 = choose|j: int| 0 <= j < srcs.len() && has_key(#[trigger] srcs[j], k);
        if j0 < na {
            assert(runs_of(a)[j0] == a[j0].run@);
            assert(holds(runs_of(a)[j0], k));
        }
        let i0 = io[j0 - na];
        assert(o[j0 - na] == nxt[i0]);
        assert(holds(nxt[i0].run@, k));
        assert forall|i: int| 0 <= i < nxt.len() && i != i0 implies !holds(#[trigger] runs_of(nxt)[i], k) by {
            assert(runs_of(nxt)[i] == nxt[i].run@);
            assert(disjoint(lv[l + 1][i], lv[l + 1][i0]));
            lemma_disjoint_holds(nxt[i], nxt[i0], k);
        }
        assert(runs_of(nxt)[i0] == nxt[i0].run@);
        lemma_level_unique(runs_of(nxt), k, i0);
        assert forall|j: int| 0 <= j < srcs.len() && j != j0 && has_key(#[trigger] srcs[j], k) implies newer(seqs, j0, j) by {
            if j < na {
                assert(runs_of(a)[j] == a[j].run@);
                assert(holds(runs_of(a)[j], k));
            } else {
                let q = io[j - na];
                assert(o[j - na] == nxt[q]);
                if j - na < j0 - na {
                    assert(io[j - na] < io[j0 - na]);
                } else {
                    assert(io[j0 - na] < io[j - na]);
                }
                assert(!holds(runs_of(nxt)[q], k));
                assert(runs_of(nxt)[q] == nxt[q].run@);
            }
        }
        assert(is_winner(srcs, seqs, k, j0));
        lemma_winner_unique(srcs, seqs, k, winner(srcs, seqs, k), j0);
        w = j0;
        assert forall|b: int| 0 <= b < kp.len() implies !holds((#[trigger] kp[b]).run@, k) by {
            assert(kp[b] == nxt[ik[b]]);
            assert(ik[b] != i0);
            assert(!holds(runs_of(nxt)[ik[b]], k));
            assert(runs_of(nxt)[ik[b]] == nxt[ik[b]].run@);
        }
    }
    // lengths
    assert(lengths_fit(srcs[w]));
    let p = key_pos(srcs[w], k);
    assert(srcs[w][p].0 == k);
    assert(winner_value(srcs, seqs, k) == srcs[w][p].1);
}

/// For a key of none of the merged runs, level `l` answers nothing and
/// level `l + 1` answers as the tables it keeps do.
pub proof fn lemma_comp_outside(lv: Seq<Seq<Table>>, top: u64, l: int, lo: Seq<u8>, hi: Seq<u8>, k: Seq<u8>)
    requires
        comp_setting(lv, top, l, lo, hi),
        !in_union(comp_srcs(lv, l, lo, hi), k),
    ensures
        level_entry(runs_of(lv[l]), k) is None,
        level_entry(runs_of(lv[l + 1]), k) == level_entry(runs_of(select(lv[l + 1], lo, hi, false)), k),
{
    lemma_setting_facts(lv, top, l, lo, hi);
    let srcs = comp_srcs(lv, l, lo, hi);
    let a = lv[l];
    let na = a.len() as int;
    let nxt = lv[l + 1];
    let o = select(nxt, lo, hi, true);
    let kp = select(nxt, lo, hi, false);
    let io = select_idx(nxt, lo, hi, true, nxt.len() as int);
    let ik = select_idx(nxt, lo, hi, false, nxt.len() as int);
    lemma_select(nxt, lo, hi, true);
    lemma_select(nxt, lo, hi, false);
    assert forall|j: int| 0 <= j < runs_of(a).len() implies !holds(#[trigger] runs_of(a)[j], k) by {
        assert(srcs[j] == runs_of(a)[j]);
        if holds(runs_of(a)[j], k) {
            assert(has_key(srcs[j], k));
        }
    }
    lemma_level_none(runs_of(a), k);
    // a table of level l + 1 that holds k is one that is kept
    assert forall|i: int| 0 <= i < nxt.len() && holds(#[trigger] runs_of(nxt)[i], k) implies !overlaps(nxt[i], lo, hi) by {
        if overlaps(nxt[i], lo, hi) {
            let b = choose|b: int| 0 <= b < o.len() && #[trigger] io[b] == i;
            assert(o[b] == nxt[i]);
            assert(srcs[na + b] == o[b].run@);
            assert(runs_of(nxt)[i] == nxt[i].run@);
            assert(has_key(srcs[na + b], k));
        }
    }
    lemma_level_spec(runs_of(nxt), k);
    lemma_level_spec(runs_of(kp), k);
    if level_entry(runs_of(nxt), k) is Some {
        let i0 = choose|j: int| 0 <= j < runs_of(nxt).len() && holds(#[trigger] runs_of(nxt)[j], k)
            && (forall|i: int| j < i < runs_of(nxt).len() ==> !holds(#[trigger] runs_of(nxt)[i], k))
            && level_entry(runs_of(nxt), k) == Some(entries_map(runs_of(nxt)[j])[k]);
        assert(runs_of(nxt)[i0] == nxt[i0].run@);
        let b0 = choose|b: int| 0 <= b < kp.len() && #[trigger] ik[b] == i0;
        assert(kp[b0] == nxt[i0]);
        assert(runs_of(kp)[b0] == kp[b0].run@);
        assert forall|b: int| 0 <= b < kp.len() && b != b0 implies !holds(#[trigger] runs_of(kp)[b], k) by {
            assert(kp[b] == nxt[ik[b]]);
            assert(runs_of(kp)[b] == kp[b].run@);
            if b < b0 {
                assert(ik[b] < ik[b0]);
            } else {
                assert(ik[b0] < ik[b]);
            }
            assert(disjoint(lv[l + 1][ik[b]], lv[l + 1][i0]));
            lemma_disjoint_holds(nxt[ik[b]], nxt[i0], k);
        }
        lemma_level_unique(runs_of(kp), k, b0);
    } else {
        assert forall|b: int| 0 <= b < runs_of(kp).len() implies !holds(#[trigger] runs_of(kp)[b], k) by {
            assert(kp[b] == nxt[ik[b]]);
            assert(runs_of(kp)[b] == kp[b].run@);
            assert(runs_of(nxt)[ik[b]] == nxt[ik[b]].run@);
        }
        lemma_level_none(runs_of(kp), k);
    }
}


/// The merged run of a compaction.
pub open spec fn comp_merged(lv: Seq<Seq<Table>>, l: int, lo: Seq<u8>, hi: Seq<u8>, drop: bool) -> Seq<Entry> {
    spec_k_way_merge(comp_srcs(lv, l, lo, hi), comp_seqs(lv, l, lo, hi), drop)
}

/// The merged run is sorted, fits the table format, and holds a key of the
/// inputs with the newest entry, unless that is a tombstone being dropped.
pub proof fn lemma_comp_merged(lv: Seq<Seq<Table>>, top: u64, l: int, lo: Seq<u8>, hi: Seq<u8>, drop: bool)
    requires
        comp_setting(lv, top, l, lo, hi),
    ensures
        keys_sorted(comp_merged(lv, l, lo, hi, drop)),
        lengths_fit(comp_merged(lv, l, lo, hi, drop)),
        forall|k: Seq<u8>| #[trigger] holds(comp_merged(lv, l, lo, hi, drop), k) == (in_union(comp_srcs(lv, l, lo, hi), k)
            && !(drop && winner_value(comp_srcs(lv, l, lo, hi), comp_seqs(lv, l, lo, hi), k) is None)),
        forall|k: Seq<u8>| holds(comp_merged(lv, l, lo, hi, drop), k) ==>
            #[trigger] entries_map(comp_merged(lv, l, lo, hi, drop))[k] == winner_value(comp_srcs(lv, l, lo, hi), comp_seqs(lv, l, lo, hi), k),
{
    lemma_setting_facts(lv, top, l, lo, hi);
    let srcs = comp_srcs(lv, l, lo, hi);
    let seqs = comp_seqs(lv, l, lo, hi);
    let m = comp_merged(lv, l, lo, hi, drop);
    lemma_k_way_merge_sorted(srcs, seqs, drop);
    assert forall|k: Seq<u8>| #[trigger] holds(m, k) == (in_union(srcs, k) && !(drop && winner_value(srcs, seqs, k) is None)) by {
        assert(entries_map(m).contains_key(k) == merged_map(srcs, seqs, drop).contains_key(k));
    }
    assert forall|t: int| 0 <= t < m.len() implies (#[trigger] m[t]).0.len() < 0x1_0000_0000
        && crate::sstable::stored_value(m[t].1).len() < 0x1_0000_0000 by {
        lemma_sorted_lookup(m, t);
        let k = m[t].0;
        assert(holds(m, k));
        lemma_comp_union(lv, top, l, lo, hi, k);
        assert(entries_map(m)[k] == merged_map(srcs, seqs, drop)[k]);
    }
}

/// A key of the inputs lies on the side of a kept table of level `l + 1`
/// that `[lo, hi]` lies on.
pub proof fn lemma_union_side(lv: Seq<Seq<Table>>, top: u64, l: int, lo: Seq<u8>, hi: Seq<u8>, r: int, x: Seq<u8>)
    requires
        comp_setting(lv, top, l, lo, hi),
        0 <= r < lv[l + 1].len(),
        !overlaps(lv[l + 1][r], lo, hi),
        in_union(comp_srcs(lv, l, lo, hi), x),
    ensures
        lex_lt(hi, lv[l + 1][r].meta.min_key@) ==> lex_lt(x, lv[l + 1][r].meta.min_key@),
        lex_lt(lv[l + 1][r].meta.max_key@, lo) ==> lex_lt(lv[l + 1][r].meta.max_key@, x),
{
    lemma_lex_order_facts();
    lemma_setting_facts(lv, top, l, lo, hi);
    let srcs = comp_srcs(lv, l, lo, hi);
    let a = lv[l];
    let na = a.len() as int;
    let nxt = lv[l + 1];
    let o = select(nxt, lo, hi, true);
    let io = select_idx(nxt, lo, hi, true, nxt.len() as int);
    lemma_select(nxt, lo, hi, true);
    let rt = nxt[r];
    assert(table_ok(rt));
    assert(lex_le(rt.meta.min_key@, rt.meta.max_key@)) by {
        lemma_holds_in_range(rt, rt.run@[0].0);
        crate::entries::lemma_sorted_lookup(rt.run@, 0);
    }
    let j = choose|j: int| 0 <= j < srcs.len() && has_key(#[trigger] srcs[j], x);
    if j < na {
        assert(srcs[j] == a[j].run@);
        lemma_holds_in_range(a[j], x);
        assert(lex_le(lo, a[j].meta.min_key@) && lex_le(a[j].meta.max_key@, hi));
    } else {
        let q = io[j - na];
        assert(o[j - na] == nxt[q]);
        assert(srcs[j] == nxt[q].run@);
        lemma_holds_in_range(nxt[q], x);
        assert(q != r);
        assert(disjoint(lv[l + 1][q], lv[l + 1][r]));
        assert(overlaps(nxt[q], lo, hi));
    }
}


/// The new tables of a compaction: the merged run split by size, each
/// sound, numbered on from `top`.
pub open spec fn comp_news(lv: Seq<Seq<Table>>, top: u64, l: int, lo: Seq<u8>, hi: Seq<u8>, drop: bool, max: u64,
    news: Seq<Table>) -> bool {
    &&& runs_of(news) == split_chunks(comp_merged(lv, l, lo, hi, drop), max)
    &&& forall|j: int| 0 <= j < news.len() ==> table_ok(#[trigger] news[j])
    &&& forall|j: int| 0 <= j < news.len() ==> (#[trigger] news[j]).meta.sequence == top + 1 + j
    &&& top + news.len() <= u64::MAX
}

/// The pieces of the merged run are sorted, fit the table format, and hold
/// keys of the inputs.
pub proof fn lemma_news_pieces(lv: Seq<Seq<Table>>, top: u64, l: int, lo: Seq<u8>, hi: Seq<u8>, drop: bool, max: u64)
    requires
        comp_setting(lv, top, l, lo, hi),
    ensures
        ({
            let cs = split_chunks(comp_merged(lv, l, lo, hi, drop), max);
            &&& concat(cs) == comp_merged(lv, l, lo, hi, drop)
            &&& forall|j: int| 0 <= j < cs.len() ==> (#[trigger] cs[j]).len() > 0 && keys_sorted(cs[j]) && lengths_fit(cs[j])
        }),
{
    let m = comp_merged(lv, l, lo, hi, drop);
    lemma_comp_merged(lv, top, l, lo, hi, drop);
    lemma_split_concat(m, max);
    lemma_pieces(split_chunks(m, max));
}

/// Compacting level `l` into level `l + 1` keeps the levels in order.
pub proof fn lemma_compaction_sound(lv: Seq<Seq<Table>>, top: u64, l: int, lo: Seq<u8>, hi: Seq<u8>, drop: bool, max: u64,
    news: Seq<Table>)
    requires
        comp_setting(lv, top, l, lo, hi),
        comp_news(lv, top, l, lo, hi, drop, max, news),
    ensures
        levels_sound(compacted(lv, l, lo, hi, news), (top + news.len()) as u64),
{
    lemma_lex_order_facts();
    lemma_setting_facts(lv, top, l, lo, hi);
    let m = comp_merged(lv, l, lo, hi, drop);
    let cs = split_chunks(m, max);
    lemma_comp_merged(lv, top, l, lo, hi, drop);
    lemma_split_concat(m, max);
    lemma_pieces(cs);
    let nxt = lv[l + 1];
    let kp = select(nxt, lo, hi, false);
    let ik = select_idx(nxt, lo, hi, false, nxt.len() as int);
    lemma_select(nxt, lo, hi, false);
    let lv2 = compacted(lv, l, lo, hi, news);
    let top2 = (top + news.len()) as u64;
    let nk = kp.len() as int;
    let row = kp + news;
    assert(lv2[l + 1] == row);
    assert forall|j: int| 0 <= j < news.len() implies #[trigger] runs_of(news)[j] == cs[j] && news[j].run@ == cs[j] by {}
    assert forall|i: int, j: int| 0 <= i < lv2.len() && 0 <= j < lv2[i].len()
        implies table_ok(#[trigger] lv2[i][j]) && lv2[i][j].meta.sequence <= top2 by {
        if i == l + 1 {
            if j < nk {
                assert(row[j] == kp[j] && kp[j] == nxt[ik[j]]);
            } else {
                assert(row[j] == news[j - nk]);
            }
        } else if i != l {
            assert(lv2[i] == lv[i]);
        }
    }
    assert forall|i: int| 0 <= i < lv2.len() implies seqs_increasing(#[trigger] lv2[i]) by {
        if i == l + 1 {
            assert(seqs_increasing(lv[l + 1]));
            assert forall|a: int, b: int| 0 <= a < b < row.len()
                implies (#[trigger] row[a]).meta.sequence < (#[trigger] row[b]).meta.sequence by {
                if b < nk {
                    assert(row[a] == kp[a] && row[b] == kp[b]);
                } else if a < nk {
                    assert(row[a] == kp[a] && kp[a] == nxt[ik[a]]);
                    assert(row[b] == news[b - nk]);
                } else {
                    assert(row[a] == news[a - nk] && row[b] == news[b - nk]);
                }
            }
        } else if i != l {
            assert(lv2[i] == lv[i]);
        }
    }
    assert forall|i: int, j: int, a: int, b: int| 0 <= i && j == i + 1 && j < lv2.len() && 0 <= a < lv2[i].len() && 0 <= b < lv2[j].len()
        implies (#[trigger] lv2[i][a]).meta.sequence > (#[trigger] lv2[j][b]).meta.sequence by {
        if i == l + 1 {
            assert(lv2[j] == lv[j]);
            assert(lv[j][b].meta.sequence <= top);
            if a < nk {
                assert(row[a] == kp[a] && kp[a] == nxt[ik[a]]);
                assert(lv[l + 1][ik[a]].meta.sequence > lv[j][b].meta.sequence);
            } else {
                assert(row[a] == news[a - nk]);
            }
        } else {
            assert(i != l && j != l);
            assert(lv2[i] == lv[i]);
            if j == l + 1 {
                assert(i == l);
            } else {
                assert(lv2[j] == lv[j]);
            }
        }
    }
    assert forall|i: int, a: int, b: int| 1 <= i < lv2.len() && 0 <= a < lv2[i].len() && 0 <= b < lv2[i].len() && a != b
        implies disjoint(#[trigger] lv2[i][a], #[trigger] lv2[i][b]) by {
        if i == l + 1 {
            lemma_row_disjoint(lv, top, l, lo, hi, drop, max, news, a, b);
        } else if i != l {
            assert(lv2[i] == lv[i]);
        }
    }
}

/// Two tables of the new level `l + 1` do not overlap.
proof fn lemma_row_disjoint(lv: Seq<Seq<Table>>, top: u64, l: int, lo: Seq<u8>, hi: Seq<u8>, drop: bool, max: u64,
    news: Seq<Table>, a: int, b: int)
    requires
        comp_setting(lv, top, l, lo, hi),
        comp_news(lv, top, l, lo, hi, drop, max, news),
        0 <= a < select(lv[l + 1], lo, hi, false).len() + news.len(),
        0 <= b < select(lv[l + 1], lo, hi, false).len() + news.len(),
        a != b,
    ensures
        disjoint((select(lv[l + 1], lo, hi, false) + news)[a], (select(lv[l + 1], lo, hi, false) + news)[b]),
{
    lemma_lex_order_facts();
    lemma_setting_facts(lv, top, l, lo, hi);
    let m = comp_merged(lv, l, lo, hi, drop);
    let cs = split_chunks(m, max);
    lemma_comp_merged(lv, top, l, lo, hi, drop);
    lemma_split_concat(m, max);
    lemma_pieces(cs);
    let nxt = lv[l + 1];
    let kp = select(nxt, lo, hi, false);
    let ik = select_idx(nxt, lo, hi, false, nxt.len() as int);
    lemma_select(nxt, lo, hi, false);
    let nk = kp.len() as int;
    let row = kp + news;
    assert forall|j: int| 0 <= j < news.len() implies #[trigger] news[j].run@ == cs[j] by {
        assert(runs_of(news)[j] == news[j].run@);
    }
    if a < nk && b < nk {
        assert(row[a] == nxt[ik[a]] && row[b] == nxt[ik[b]]);
        if a < b {
            assert(ik[a] < ik[b]);
        } else {
            assert(ik[b] < ik[a]);
        }
        assert(disjoint(lv[l + 1][ik[a]], lv[l + 1][ik[b]]));
    } else if a >= nk && b >= nk {
        let (x, y) = if a < b { (a - nk, b - nk) } else { (b - nk, a - nk) };
        assert(lex_lt(cs[x].last().0, cs[y][0].0));
        assert(row[a] == news[a - nk] && row[b] == news[b - nk]);
        assert(news[x].meta.max_key@ == cs[x].last().0);
        assert(news[y].meta.min_key@ == cs[y][0].0);
    } else {
        let (p, q) = if a < nk { (a, b - nk) } else { (b, a - nk) };
        let r = ik[p];
        assert(kp[p] == nxt[r]);
        let t = news[q];
        let c = cs[q];
        assert(t.run@ == c);
        // the new table's first and last keys are keys of the inputs
        crate::entries::lemma_sorted_lookup(c, 0);
        crate::entries::lemma_sorted_lookup(c, c.len() - 1);
        assert(holds(c, c[0].0));
        assert(holds(c, c.last().0));
        assert(holds(m, c[0].0));
        assert(holds(m, c.last().0));
        lemma_union_side(lv, top, l, lo, hi, r, c[0].0);
        lemma_union_side(lv, top, l, lo, hi, r, c.last().0);
        assert(!overlaps(nxt[r], lo, hi));
        if a < nk {
            assert(row[a] == nxt[r] && row[b] == t);
        } else {
            assert(row[b] == nxt[r] && row[a] == t);
        }
    }
}

/// What level `l`, else level `l + 1`, answers before a compaction, and what
/// the new level `l + 1` answers after it: the same, or a tombstone dropped
/// at the bottom level.
pub open spec fn answers_match(old: Option<Option<Seq<u8>>>, new: Option<Option<Seq<u8>>>, bottom: bool) -> bool {
    old == new || (old == Some(None::<Seq<u8>>) && new is None && bottom)
}

proof fn lemma_comp_answers(lv: Seq<Seq<Table>>, top: u64, l: int, lo: Seq<u8>, hi: Seq<u8>, drop: bool, max: u64,
    news: Seq<Table>, k: Seq<u8>)
    requires
        comp_setting(lv, top, l, lo, hi),
        comp_news(lv, top, l, lo, hi, drop, max, news),
        drop ==> l + 2 == lv.len(),
    ensures
        answers_match(
            match level_entry(runs_of(lv[l]), k) { Some(e) => Some(e), None => level_entry(runs_of(lv[l + 1]), k) },
            level_entry(runs_of(select(lv[l + 1], lo, hi, false)) + runs_of(news), k),
            l + 2 == lv.len()),
{
    let srcs = comp_srcs(lv, l, lo, hi);
    let m = comp_merged(lv, l, lo, hi, drop);
    let cs = split_chunks(m, max);
    lemma_news_pieces(lv, top, l, lo, hi, drop, max);
    lemma_comp_merged(lv, top, l, lo, hi, drop);
    lemma_pieces_lookup(cs, k);
    let kp = select(lv[l + 1], lo, hi, false);
    assert(runs_of(news) == cs);
    lemma_level_concat(runs_of(kp), cs, k);
    let seqs = comp_seqs(lv, l, lo, hi);
    assert(concat(cs) == m);
    let old_ans = match level_entry(runs_of(lv[l]), k) { Some(e) => Some(e), None => level_entry(runs_of(lv[l + 1]), k) };
    let new_ans = level_entry(runs_of(kp) + runs_of(news), k);
    if in_union(srcs, k) {
        lemma_comp_union(lv, top, l, lo, hi, k);
        assert forall|j: int| 0 <= j < runs_of(kp).len() implies !holds(#[trigger] runs_of(kp)[j], k) by {
            assert(runs_of(kp)[j] == kp[j].run@);
        }
        lemma_level_none(runs_of(kp), k);
        assert(old_ans == Some(winner_value(srcs, seqs, k)));
        if holds(m, k) {
            assert(level_entry(cs, k) == Some(entries_map(m)[k]));
            assert(new_ans == Some(winner_value(srcs, seqs, k)));
        } else {
            assert(drop && winner_value(srcs, seqs, k) is None);
            assert(new_ans is None);
        }
    } else {
        lemma_comp_outside(lv, top, l, lo, hi, k);
        assert(!holds(m, k));
        assert(level_entry(cs, k) is None);
        assert(new_ans == level_entry(runs_of(kp), k));
    }
}

/// Unfolding the read over levels `l` and `l + 1`.
proof fn lemma_comp_level_step(r: Seq<Seq<Seq<Entry>>>, r2: Seq<Seq<Seq<Entry>>>, k: Seq<u8>, l: int)
    requires
        r.len() == r2.len(),
        0 <= l && l + 1 < r.len(),
        r2[l].len() == 0,
        levels_entry(r, k, l + 2) == levels_entry(r2, k, l + 2),
        answers_match(
            match level_entry(r[l], k) { Some(e) => Some(e), None => level_entry(r[l + 1], k) },
            level_entry(r2[l + 1], k),
            l + 2 == r.len()),
    ensures
        live(levels_entry(r2, k, l)) == live(levels_entry(r, k, l)),
{
    assert(level_entry(r2[l], k) is None);
    assert(levels_entry(r2, k, l) == levels_entry(r2, k, l + 1));
    if l + 2 == r.len() {
        assert(levels_entry(r2, k, l + 2) is None);
    }
    assert(levels_entry(r2, k, l + 1) == match level_entry(r2[l + 1], k) {
        Some(e) => Some(e),
        None => levels_entry(r2, k, l + 2),
    });
    assert(levels_entry(r, k, l + 1) == match level_entry(r[l + 1], k) {
        Some(e) => Some(e),
        None => levels_entry(r, k, l + 2),
    });
}

/// Compacting level `l` into level `l + 1` leaves what every read finds
/// unchanged (a tombstone dropped at the bottom level reads as nothing, as
/// it did).
pub proof fn lemma_compaction_read(lv: Seq<Seq<Table>>, top: u64, l: int, lo: Seq<u8>, hi: Seq<u8>, drop: bool, max: u64,
    news: Seq<Table>, k: Seq<u8>)
    requires
        comp_setting(lv, top, l, lo, hi),
        comp_news(lv, top, l, lo, hi, drop, max, news),
        drop ==> l + 2 == lv.len(),
    ensures
        live(levels_entry(level_runs(compacted(lv, l, lo, hi, news)), k, 0)) == live(levels_entry(level_runs(lv), k, 0)),
{
    let kp = select(lv[l + 1], lo, hi, false);
    let lv2 = compacted(lv, l, lo, hi, news);
    let r = level_runs(lv);
    let r2 = level_runs(lv2);
    assert(r2[l] =~= Seq::<Seq<Entry>>::empty());
    assert(r2[l + 1] =~= runs_of(kp) + runs_of(news));
    assert(r[l] == runs_of(lv[l]) && r[l + 1] == runs_of(lv[l + 1]));
    assert forall|i: int| l + 2 <= i < r.len() implies r[i] == r2[i] by {
        assert(lv2[i] == lv[i]);
    }
    lemma_levels_same(r, r2, k, l + 2);
    lemma_comp_answers(lv, top, l, lo, hi, drop, max, news, k);
    lemma_comp_level_step(r, r2, k, l);
    assert forall|i: int| 0 <= i < l implies r[i] == r2[i] by {
        assert(lv2[i] == lv[i]);
    }
    lemma_levels_prefix(r, r2, k, 0, l);
}

} // verus!
