//! What the k-way merge yields on sorted sources: one entry per key, the
//! newest source's, in key order.
use vstd::prelude::*;
use crate::order::{lex_lt, lex_le, lemma_lex_order_facts};
use crate::entries::{Entry, keys_sorted, has_key, key_pos, entries_map, lemma_sorted_lookup};
use crate::heap_entry::heap_before;
use crate::compaction::{has_head, head, head_before, best_upto, remaining, merge_run, spec_k_way_merge, total_len,
    lemma_remaining, lemma_remaining_zero, lemma_remaining_start};

verus! {

/// Source `i` is newer than source `j`: a higher sequence number, or the same
/// and a later index.
pub open spec fn newer(seqs: Seq<u64>, i: int, j: int) -> bool {
    seqs[i] > seqs[j] || (seqs[i] == seqs[j] && i > j)
}

/// Source `i` holds `k` and is newer than every other source that holds it.
pub open spec fn is_winner(srcs: Seq<Seq<Entry>>, seqs: Seq<u64>, k: Seq<u8>, i: int) -> bool {
    &&& 0 <= i < srcs.len()
    &&& has_key(srcs[i], k)
    &&& forall|j: int| 0 <= j < srcs.len() && j != i && has_key(#[trigger] srcs[j], k) ==> newer(seqs, i, j)
}

/// Some source holds `k`.
pub open spec fn in_union(srcs: Seq<Seq<Entry>>, k: Seq<u8>) -> bool {
    exists|i: int| 0 <= i < srcs.len() && has_key(#[trigger] srcs[i], k)
}

/// The newest source that holds `k`.
pub open spec fn winner(srcs: Seq<Seq<Entry>>, seqs: Seq<u64>, k: Seq<u8>) -> int {
    choose|i: int| is_winner(srcs, seqs, k, i)
}

/// The entry of the newest source that holds `k`.
pub open spec fn winner_value(srcs: Seq<Seq<Entry>>, seqs: Seq<u64>, k: Seq<u8>) -> Option<Seq<u8>> {
    entries_map(srcs[winner(srcs, seqs, k)])[k]
}

/// The key/entry map that merging the sources should give: each key of any
/// source, with the newest source's entry, except tombstones when dropping.
pub open spec fn merged_map(srcs: Seq<Seq<Entry>>, seqs: Seq<u64>, drop: bool) -> Map<Seq<u8>, Option<Seq<u8>>> {
    Map::new(
        |k: Seq<u8>| in_union(srcs, k) && !(drop && winner_value(srcs, seqs, k) is None),
        |k: Seq<u8>| winner_value(srcs, seqs, k),
    )
}

/// Every source is sorted.
pub open spec fn all_sorted(srcs: Seq<Seq<Entry>>) -> bool {
    forall|i: int| 0 <= i < srcs.len() ==> keys_sorted(#[trigger] srcs[i])
}

/// A key that an entry left to take holds, and that is not the last key taken.
pub open spec fn future(srcs: Seq<Seq<Entry>>, pos: Seq<int>, last: Option<Seq<u8>>, k: Seq<u8>) -> bool {
    &&& last != Some(k)
    &&& exists|j: int, c: int| 0 <= j < srcs.len() && pos[j] <= c < srcs[j].len() && #[trigger] srcs[j][c].0 == k
}

/// The merge state is consistent: taken entries come no later than those
/// left, ties only at the last key, and the last key is the largest taken.
pub open spec fn good(srcs: Seq<Seq<Entry>>, pos: Seq<int>, last: Option<Seq<u8>>) -> bool {
    &&& pos.len() == srcs.len()
    &&& forall|i: int| 0 <= i < srcs.len() ==> 0 <= #[trigger] pos[i] <= srcs[i].len()
    &&& forall|i: int, a: int, j: int, c: int|
        0 <= i < srcs.len() && 0 <= a < pos[i] && 0 <= j < srcs.len() && pos[j] <= c < srcs[j].len()
        ==> lex_le(#[trigger] srcs[i][a].0, #[trigger] srcs[j][c].0)
            && (srcs[i][a].0 == srcs[j][c].0 ==> last == Some(srcs[i][a].0))
    &&& match last {
        None => forall|i: int| 0 <= i < srcs.len() ==> #[trigger] pos[i] == 0,
        Some(l) => {
            &&& forall|i: int, a: int| 0 <= i < srcs.len() && 0 <= a < pos[i] ==> lex_le(#[trigger] srcs[i][a].0, l)
            &&& forall|j: int, c: int| 0 <= j < srcs.len() && pos[j] <= c < srcs[j].len() ==> lex_le(l, #[trigger] srcs[j][c].0)
        },
    }
}

/// The order of heads is transitive.
proof fn lemma_head_before_transitive(srcs: Seq<Seq<Entry>>, seqs: Seq<u64>, pos: Seq<int>, a: int, b: int, c: int)
    requires
        head_before(srcs, seqs, pos, a, b),
        head_before(srcs, seqs, pos, b, c),
    ensures
        head_before(srcs, seqs, pos, a, c),
{
    lemma_lex_order_facts();
}

/// The order of heads is total on distinct sources.
proof fn lemma_head_before_total(srcs: Seq<Seq<Entry>>, seqs: Seq<u64>, pos: Seq<int>, a: int, b: int)
    requires
        a != b,
    ensures
        head_before(srcs, seqs, pos, a, b) || head_before(srcs, seqs, pos, b, a),
{
    lemma_lex_order_facts();
}

/// The source the merge picks has the first head of all.
proof fn lemma_best_is_first(srcs: Seq<Seq<Entry>>, seqs: Seq<u64>, pos: Seq<int>, n: int)
    requires
        0 <= n <= srcs.len(),
        pos.len() == srcs.len(),
    ensures
        ({
            let b = best_upto(srcs, seqs, pos, n);
            &&& -1 <= b < n
            &&& b >= 0 ==> has_head(srcs, pos, b)
            &&& b < 0 ==> forall|j: int| 0 <= j < n ==> !has_head(srcs, pos, j)
            &&& b >= 0 ==> forall|j: int| 0 <= j < n && j != b && has_head(srcs, pos, j) ==> head_before(srcs, seqs, pos, b, j)
        }),
    decreases n,
{
    if n > 0 {
        lemma_best_is_first(srcs, seqs, pos, n - 1);
        let b0 = best_upto(srcs, seqs, pos, n - 1);
        let b = best_upto(srcs, seqs, pos, n);
        if b >= 0 {
            assert forall|j: int| 0 <= j < n && j != b && has_head(srcs, pos, j) implies head_before(srcs, seqs, pos, b, j) by {
                if b == n - 1 {
                    if b0 >= 0 && j != b0 {
                        assert(head_before(srcs, seqs, pos, b0, j));
                        lemma_head_before_transitive(srcs, seqs, pos, b, b0, j);
                    }
                } else {
                    if j == n - 1 {
                        lemma_head_before_total(srcs, seqs, pos, b, j);
                    }
                }
            }
        }
    }
}

/// The first head comes no later than any entry left.
proof fn lemma_first_head_least(srcs: Seq<Seq<Entry>>, seqs: Seq<u64>, pos: Seq<int>, b: int)
    requires
        all_sorted(srcs),
        pos.len() == srcs.len(),
        forall|i: int| 0 <= i < srcs.len() ==> 0 <= #[trigger] pos[i] <= srcs[i].len(),
        b == best_upto(srcs, seqs, pos, srcs.len() as int),
        b >= 0,
    ensures
        b < srcs.len(),
        has_head(srcs, pos, b),
        forall|j: int, c: int| 0 <= j < srcs.len() && pos[j] <= c < srcs[j].len()
            ==> lex_le(head(srcs, pos, b).0, #[trigger] srcs[j][c].0),
{
    lemma_lex_order_facts();
    lemma_best_is_first(srcs, seqs, pos, srcs.len() as int);
    assert forall|j: int, c: int| 0 <= j < srcs.len() && pos[j] <= c < srcs[j].len()
        implies lex_le(head(srcs, pos, b).0, #[trigger] srcs[j][c].0) by {
        assert(has_head(srcs, pos, j));
        assert(keys_sorted(srcs[j]));
        if c > pos[j] {
            assert(lex_lt(srcs[j][pos[j]].0, srcs[j][c].0));
        }
        if j != b {
            assert(head_before(srcs, seqs, pos, b, j));
        }
    }
}

/// A winner is unique.
pub proof fn lemma_winner_unique(srcs: Seq<Seq<Entry>>, seqs: Seq<u64>, k: Seq<u8>, a: int, b: int)
    requires
        is_winner(srcs, seqs, k, a),
        is_winner(srcs, seqs, k, b),
    ensures
        a == b,
{
    if a != b {
        assert(newer(seqs, a, b));
        assert(newer(seqs, b, a));
    }
}

/// When the first head's key was not the last taken, its source is the
/// winner for that key, and the winner's entry is that head.
proof fn lemma_first_head_wins(srcs: Seq<Seq<Entry>>, seqs: Seq<u64>, pos: Seq<int>, last: Option<Seq<u8>>, b: int)
    requires
        all_sorted(srcs),
        good(srcs, pos, last),
        b == best_upto(srcs, seqs, pos, srcs.len() as int),
        b >= 0,
        last != Some(head(srcs, pos, b).0),
    ensures
        is_winner(srcs, seqs, head(srcs, pos, b).0, b),
        winner(srcs, seqs, head(srcs, pos, b).0) == b,
        winner_value(srcs, seqs, head(srcs, pos, b).0) == head(srcs, pos, b).1,
        in_union(srcs, head(srcs, pos, b).0),
{
    lemma_lex_order_facts();
    lemma_best_is_first(srcs, seqs, pos, srcs.len() as int);
    let e = head(srcs, pos, b);
    let k = e.0;
    assert(keys_sorted(srcs[b]));
    assert(has_key(srcs[b], k)) by {
        assert(srcs[b][pos[b]].0 == k);
    }
    assert forall|j: int| 0 <= j < srcs.len() && j != b && has_key(#[trigger] srcs[j], k) implies newer(seqs, b, j) by {
        let c = key_pos(srcs[j], k);
        assert(keys_sorted(srcs[j]));
        if c < pos[j] {
            assert(lex_le(srcs[j][c].0, srcs[b][pos[b]].0));
            assert(last == Some(srcs[j][c].0));
        }
        assert(has_head(srcs, pos, j));
        if c > pos[j] {
            assert(lex_lt(srcs[j][pos[j]].0, srcs[j][c].0));
        }
        assert(head_before(srcs, seqs, pos, b, j));
    }
    assert(is_winner(srcs, seqs, k, b));
    let w = winner(srcs, seqs, k);
    lemma_winner_unique(srcs, seqs, k, w, b);
    lemma_sorted_lookup(srcs[b], pos[b]);
}

/// Taking a head whose key was the last key taken keeps the state good and
/// the future keys the same.
proof fn lemma_step_repeat(srcs: Seq<Seq<Entry>>, seqs: Seq<u64>, pos: Seq<int>, last: Option<Seq<u8>>, b: int)
    requires
        all_sorted(srcs),
        good(srcs, pos, last),
        b == best_upto(srcs, seqs, pos, srcs.len() as int),
        b >= 0,
        last == Some(head(srcs, pos, b).0),
    ensures
        good(srcs, pos.update(b, pos[b] + 1), last),
        forall|k: Seq<u8>| future(srcs, pos.update(b, pos[b] + 1), last, k) == future(srcs, pos, last, k),
{
    lemma_lex_order_facts();
    lemma_first_head_least(srcs, seqs, pos, b);
    let p2 = pos.update(b, pos[b] + 1);
    let e = head(srcs, pos, b);
    assert forall|i: int, a: int, j: int, c: int|
        0 <= i < srcs.len() && 0 <= a < p2[i] && 0 <= j < srcs.len() && p2[j] <= c < srcs[j].len()
        implies lex_le(#[trigger] srcs[i][a].0, #[trigger] srcs[j][c].0)
            && (srcs[i][a].0 == srcs[j][c].0 ==> last == Some(srcs[i][a].0)) by {
        if i == b && a == pos[b] {
        } else {
            assert(a < pos[i]);
        }
    }
    assert forall|k: Seq<u8>| future(srcs, p2, last, k) == future(srcs, pos, last, k) by {
        if future(srcs, p2, last, k) {
            let (j, c) = choose|j: int, c: int| 0 <= j < srcs.len() && p2[j] <= c < srcs[j].len() && #[trigger] srcs[j][c].0 == k;
            assert(pos[j] <= c);
        }
        if future(srcs, pos, last, k) {
            let (j, c) = choose|j: int, c: int| 0 <= j < srcs.len() && pos[j] <= c < srcs[j].len() && #[trigger] srcs[j][c].0 == k;
            if j == b && c == pos[b] {
                assert(k == e.0);
            } else {
                assert(p2[j] <= c);
            }
        }
    }
}

/// Taking a head with a new key makes it the last key, keeps the state good,
/// and removes just that key from the future keys.
proof fn lemma_step_new(srcs: Seq<Seq<Entry>>, seqs: Seq<u64>, pos: Seq<int>, last: Option<Seq<u8>>, b: int)
    requires
        all_sorted(srcs),
        good(srcs, pos, last),
        b == best_upto(srcs, seqs, pos, srcs.len() as int),
        b >= 0,
        last != Some(head(srcs, pos, b).0),
    ensures
        good(srcs, pos.update(b, pos[b] + 1), Some(head(srcs, pos, b).0)),
        future(srcs, pos, last, head(srcs, pos, b).0),
        last matches Some(l) ==> lex_lt(l, head(srcs, pos, b).0),
        forall|k: Seq<u8>| future(srcs, pos.update(b, pos[b] + 1), Some(head(srcs, pos, b).0), k)
            == (future(srcs, pos, last, k) && k != head(srcs, pos, b).0),
{
    lemma_lex_order_facts();
    lemma_first_head_least(srcs, seqs, pos, b);
    let p2 = pos.update(b, pos[b] + 1);
    let e = head(srcs, pos, b);
    let k0 = e.0;
    assert(srcs[b][pos[b]].0 == k0);
    match last {
        Some(l) => {
            assert(lex_le(l, srcs[b][pos[b]].0));
        },
        None => {},
    }
    assert forall|i: int, a: int, j: int, c: int|
        0 <= i < srcs.len() && 0 <= a < p2[i] && 0 <= j < srcs.len() && p2[j] <= c < srcs[j].len()
        implies lex_le(#[trigger] srcs[i][a].0, #[trigger] srcs[j][c].0)
            && (srcs[i][a].0 == srcs[j][c].0 ==> Some(k0) == Some(srcs[i][a].0)) by {
        assert(pos[j] <= c);
        assert(lex_le(k0, srcs[j][c].0));
        if i == b && a == pos[b] {
        } else {
            assert(a < pos[i]);
            match last {
                Some(l) => {
                    assert(lex_le(srcs[i][a].0, l));
                    if srcs[i][a].0 == srcs[j][c].0 {
                        assert(last == Some(srcs[i][a].0));
                    }
                },
                None => {
                    assert(pos[i] == 0);
                },
            }
        }
    }
    assert forall|i: int, a: int| 0 <= i < srcs.len() && 0 <= a < p2[i] implies lex_le(#[trigger] srcs[i][a].0, k0) by {
        if i == b && a == pos[b] {
        } else {
            assert(a < pos[i]);
            match last {
                Some(l) => {
                    assert(lex_le(srcs[i][a].0, l));
                },
                None => {
                    assert(pos[i] == 0);
                },
            }
        }
    }
    assert forall|j: int, c: int| 0 <= j < srcs.len() && p2[j] <= c < srcs[j].len() implies lex_le(k0, #[trigger] srcs[j][c].0) by {
        assert(pos[j] <= c);
    }
    assert(future(srcs, pos, last, k0)) by {
        assert(srcs[b][pos[b]].0 == k0);
    }
    assert forall|k: Seq<u8>| future(srcs, p2, Some(k0), k) == (future(srcs, pos, last, k) && k != k0) by {
        if future(srcs, p2, Some(k0), k) {
            let (j, c) = choose|j: int, c: int| 0 <= j < srcs.len() && p2[j] <= c < srcs[j].len() && #[trigger] srcs[j][c].0 == k;
            assert(pos[j] <= c);
            assert(lex_le(k0, k));
            match last {
                Some(l) => {
                    if l == k {
                        assert(lex_le(l, k0));
                    }
                },
                None => {},
            }
        }
        if future(srcs, pos, last, k) && k != k0 {
            let (j, c) = choose|j: int, c: int| 0 <= j < srcs.len() && pos[j] <= c < srcs[j].len() && #[trigger] srcs[j][c].0 == k;
            if j == b && c == pos[b] {
            } else {
                assert(p2[j] <= c);
            }
        }
    }
}

/// What the merge yields from a good state: sorted, after the last key, each
/// key a future key with its winner's entry, and every future key whose
/// winner's entry is kept.
pub proof fn lemma_merge_run(srcs: Seq<Seq<Entry>>, seqs: Seq<u64>, drop: bool, pos: Seq<int>, last: Option<Seq<u8>>, fuel: int)
    requires
        all_sorted(srcs),
        good(srcs, pos, last),
        fuel == remaining(srcs, pos, srcs.len() as int),
    ensures
        ({
            let r = merge_run(srcs, seqs, drop, pos, last, fuel as nat);
            &&& keys_sorted(r)
            &&& forall|t: int| 0 <= t < r.len() ==> (last matches Some(l) ==> lex_lt(l, #[trigger] r[t].0))
            &&& forall|t: int| 0 <= t < r.len() ==> future(srcs, pos, last, #[trigger] r[t].0)
                && r[t].1 == winner_value(srcs, seqs, r[t].0) && !(drop && r[t].1 is None)
            &&& forall|k: Seq<u8>| future(srcs, pos, last, k) && !(drop && winner_value(srcs, seqs, k) is None)
                ==> has_key(r, k)
        }),
    decreases fuel,
{
    lemma_lex_order_facts();
    let n = srcs.len() as int;
    let r = merge_run(srcs, seqs, drop, pos, last, fuel as nat);
    lemma_remaining_zero(srcs, pos, n);
    lemma_best_is_first(srcs, seqs, pos, n);
    let b = best_upto(srcs, seqs, pos, n);
    if fuel <= 0 || b < 0 {
        assert forall|k: Seq<u8>| !future(srcs, pos, last, k) by {
            if future(srcs, pos, last, k) {
                let (j, c) = choose|j: int, c: int| 0 <= j < srcs.len() && pos[j] <= c < srcs[j].len() && #[trigger] srcs[j][c].0 == k;
                assert(has_head(srcs, pos, j));
            }
        }
        if fuel > 0 {
            assert(r =~= Seq::<Entry>::empty());
        }
    } else {
        lemma_remaining(srcs, pos, n, b);
        let e = head(srcs, pos, b);
        let p2 = pos.update(b, pos[b] + 1);
        if last == Some(e.0) {
            lemma_step_repeat(srcs, seqs, pos, last, b);
            lemma_merge_run(srcs, seqs, drop, p2, last, fuel - 1);
        } else {
            lemma_step_new(srcs, seqs, pos, last, b);
            lemma_first_head_wins(srcs, seqs, pos, last, b);
            lemma_merge_run(srcs, seqs, drop, p2, Some(e.0), fuel - 1);
            let r2 = merge_run(srcs, seqs, drop, p2, Some(e.0), (fuel - 1) as nat);
            if drop && e.1 is None {
                assert(r == r2);
            } else {
                assert(r == seq![e] + r2);
                assert forall|t: int| 0 <= t < r.len() implies future(srcs, pos, last, #[trigger] r[t].0)
                    && r[t].1 == winner_value(srcs, seqs, r[t].0) && !(drop && r[t].1 is None) by {
                    if t > 0 {
                        assert(r[t] == r2[t - 1]);
                    }
                }
                assert forall|k: Seq<u8>| future(srcs, pos, last, k) && !(drop && winner_value(srcs, seqs, k) is None)
                    implies has_key(r, k) by {
                    if k == e.0 {
                        assert(r[0].0 == k);
                    } else {
                        assert(has_key(r2, k));
                        let t = choose|t: int| 0 <= t < r2.len() && #[trigger] r2[t].0 == k;
                        assert(r[t + 1] == r2[t]);
                    }
                }
                assert(keys_sorted(r)) by {
                    assert forall|a: int, c: int| 0 <= a < c < r.len() implies lex_lt(#[trigger] r[a].0, #[trigger] r[c].0) by {
                        assert(r[c] == r2[c - 1]);
                        if a > 0 {
                            assert(r[a] == r2[a - 1]);
                        }
                    }
                }
            }
        }
    }
}

/// Merging sorted sources gives a sorted run holding, for each key of any
/// source, the entry of the newest source that holds it (the highest
/// sequence number, then the highest index), with tombstones dropped when
/// asked.
pub proof fn lemma_k_way_merge_sorted(srcs: Seq<Seq<Entry>>, seqs: Seq<u64>, drop: bool)
    requires
        all_sorted(srcs),
    ensures
        keys_sorted(spec_k_way_merge(srcs, seqs, drop)),
        entries_map(spec_k_way_merge(srcs, seqs, drop)) == merged_map(srcs, seqs, drop),
{
    let n = srcs.len() as int;
    let zeros = Seq::new(srcs.len(), |i: int| 0int);
    lemma_remaining_start(srcs, n);
    assert(srcs.take(n) =~= srcs);
    assert(good(srcs, zeros, None));
    lemma_merge_run(srcs, seqs, drop, zeros, None, total_len(srcs) as int);
    let r = spec_k_way_merge(srcs, seqs, drop);
    assert forall|k: Seq<u8>| future(srcs, zeros, None, k) == in_union(srcs, k) by {
        if future(srcs, zeros, None, k) {
            let (j, c) = choose|j: int, c: int| 0 <= j < srcs.len() && zeros[j] <= c < srcs[j].len() && #[trigger] srcs[j][c].0 == k;
            assert(has_key(srcs[j], k));
        }
        if in_union(srcs, k) {
            let j = choose|j: int| 0 <= j < srcs.len() && has_key(#[trigger] srcs[j], k);
            let c = key_pos(srcs[j], k);
            assert(srcs[j][c].0 == k);
        }
    }
    assert(entries_map(r) =~= merged_map(srcs, seqs, drop)) by {
        assert forall|k: Seq<u8>| #[trigger] entries_map(r).contains_key(k) <==> merged_map(srcs, seqs, drop).contains_key(k) by {
            if has_key(r, k) {
                let t = key_pos(r, k);
                assert(future(srcs, zeros, None, r[t].0));
            }
        }
        assert forall|k: Seq<u8>| #[trigger] entries_map(r).contains_key(k) implies entries_map(r)[k] == merged_map(srcs, seqs, drop)[k] by {
            let t = key_pos(r, k);
            lemma_sorted_lookup(r, t);
        }
    }
}

} // verus!
