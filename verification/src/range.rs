//! Building the result of a range scan: a sorted map of entries that later
//! writes overwrite, and its live pairs.
use vstd::prelude::*;
use crate::order::{lex_lt, lex_le, lemma_lex_order_facts, bytes_lt, bytes_eq};
use crate::entries::{Entry, keys_sorted, has_key, key_pos, entries_map, lemma_sorted_lookup};
use crate::memtable::{Value, entries_view};
use crate::iterator::live_pairs;

verus! {

/// The key lies in `[start, end)`.
pub open spec fn in_range(k: Seq<u8>, start: Seq<u8>, end: Seq<u8>) -> bool {
    lex_le(start, k) && lex_lt(k, end)
}

/// A run extended with an entry for a key it does not hold maps that key too.
pub proof fn lemma_map_push(s: Seq<Entry>, e: Entry)
    requires
        keys_sorted(s.push(e)),
    ensures
        entries_map(s.push(e)) == entries_map(s).insert(e.0, e.1),
{
    let t = s.push(e);
    lemma_lex_order_facts();
    assert(keys_sorted(s)) by {
        assert forall|a: int, b: int| 0 <= a < b < s.len() implies lex_lt(#[trigger] s[a].0, #[trigger] s[b].0) by {
            assert(s[a] == t[a] && s[b] == t[b]);
        }
    }
    assert forall|k: Seq<u8>| #[trigger] entries_map(t).contains_key(k) == entries_map(s).insert(e.0, e.1).contains_key(k) by {
        if has_key(t, k) && k != e.0 {
            let i = key_pos(t, k);
            assert(s[i] == t[i]);
        }
        if has_key(s, k) {
            let i = key_pos(s, k);
            assert(t[i] == s[i]);
        }
        if k == e.0 {
            assert(t[s.len() as int] == e);
        }
    }
    assert forall|k: Seq<u8>| entries_map(t).contains_key(k) implies
        #[trigger] entries_map(t)[k] == entries_map(s).insert(e.0, e.1)[k] by {
        if k == e.0 {
            lemma_sorted_lookup(t, s.len() as int);
            assert(t[s.len() as int] == e);
        } else {
            let i = key_pos(t, k);
            assert(t[s.len() as int].0 == e.0);
            assert(i != s.len());
            assert(s[i] == t[i]);
            lemma_sorted_lookup(t, i);
            lemma_sorted_lookup(s, i);
        }
    }
    assert(entries_map(t) =~= entries_map(s).insert(e.0, e.1));
}

/// Set the entry for `key` in a sorted run, keeping it sorted.
pub fn upsert(acc: &mut Vec<(Vec<u8>, Value)>, key: Vec<u8>, value: Value)
    requires
        keys_sorted(entries_view(old(acc)@)),
    ensures
        keys_sorted(entries_view(final(acc)@)),
        entries_map(entries_view(final(acc)@)) == entries_map(entries_view(old(acc)@)).insert(key@, value@),
{
    let ghost s = entries_view(acc@);
    let ghost k = key@;
    let n = acc.len();
    let mut i: usize = 0;
    let mut done = false;
    proof {
        lemma_lex_order_facts();
    }
    while i < n && !done
        invariant
            i <= n,
            n == acc@.len(),
            s == entries_view(acc@),
            k == key@,
            keys_sorted(s),
            forall|j: int| 0 <= j < i ==> lex_lt(#[trigger] s[j].0, k),
            done ==> i < n && !lex_lt(s[i as int].0, k),
        decreases n - i + (if done { 0int } else { 1int }),
    {
        proof {
            assert(s[i as int].0 == acc@[i as int].0@);
        }
        if bytes_lt(acc[i].0.as_slice(), key.as_slice()) {
            i = i + 1;
        } else {
            done = true;
        }
    }
    proof {
        lemma_lex_order_facts();
        if i < n {
            assert(s[i as int].0 == acc@[i as int].0@);
        }
    }
    if i < n && bytes_eq(acc[i].0.as_slice(), key.as_slice()) {
        let ghost old_acc = acc@;
        acc.set(i, (key, value));
        proof {
            let t = entries_view(acc@);
            assert(t =~= s.update(i as int, (k, value@)));
            assert(keys_sorted(t)) by {
                assert forall|a: int, b: int| 0 <= a < b < t.len() implies lex_lt(#[trigger] t[a].0, #[trigger] t[b].0) by {
                    assert(t[a].0 == s[a].0 && t[b].0 == s[b].0);
                }
            }
            lemma_sorted_lookup(s, i as int);
            assert forall|q: Seq<u8>| #[trigger] entries_map(t).contains_key(q) == entries_map(s).insert(k, value@).contains_key(q) by {
                if has_key(t, q) {
                    let p = key_pos(t, q);
                    assert(t[p].0 == s[p].0);
                }
                if has_key(s, q) {
                    let p = key_pos(s, q);
                    assert(t[p].0 == s[p].0);
                }
                if q == k {
                    assert(t[i as int].0 == k);
                }
            }
            assert forall|q: Seq<u8>| entries_map(t).contains_key(q) implies
                #[trigger] entries_map(t)[q] == entries_map(s).insert(k, value@)[q] by {
                let p = key_pos(t, q);
                lemma_sorted_lookup(t, p);
                if q != k {
                    assert(p != i);
                    assert(t[p] == s[p]);
                    lemma_sorted_lookup(s, p);
                }
            }
            assert(entries_map(t) =~= entries_map(s).insert(k, value@));
        }
    } else {
        acc.insert(i, (key, value));
        proof {
            let t = entries_view(acc@);
            let e: Entry = (k, value@);
            assert(t =~= s.insert(i as int, e));
            if i < n {
                assert(done);
                assert(!lex_lt(s[i as int].0, k));
                assert(s[i as int].0 != k);
                assert(lex_lt(k, s[i as int].0));
            }
            assert forall|j: int| i <= j < s.len() implies lex_lt(k, #[trigger] s[j].0) by {
                if j > i {
                    assert(lex_lt(s[i as int].0, s[j].0));
                }
                assert(!lex_lt(s[i as int].0, k));
                assert(s[i as int].0 != k);
            }
            assert(keys_sorted(t)) by {
                assert forall|a: int, b: int| 0 <= a < b < t.len() implies lex_lt(#[trigger] t[a].0, #[trigger] t[b].0) by {
                    if b < i {
                        assert(t[a] == s[a] && t[b] == s[b]);
                    } else if b == i {
                        assert(t[a] == s[a]);
                    } else if a < i {
                        assert(t[a] == s[a] && t[b] == s[b - 1]);
                        assert(lex_lt(s[a].0, k));
                    } else if a == i {
                        assert(t[b] == s[b - 1]);
                    } else {
                        assert(t[a] == s[a - 1] && t[b] == s[b - 1]);
                    }
                }
            }
            assert(!has_key(s, k)) by {
                if has_key(s, k) {
                    let p = key_pos(s, k);
                    if p < i {
                        assert(lex_lt(s[p].0, k));
                    } else {
                        assert(lex_lt(k, s[p].0));
                    }
                }
            }
            assert forall|q: Seq<u8>| #[trigger] entries_map(t).contains_key(q) == entries_map(s).insert(k, value@).contains_key(q) by {
                if has_key(t, q) {
                    let p = key_pos(t, q);
                    if p < i {
                        assert(t[p] == s[p]);
                    } else if p > i {
                        assert(t[p] == s[p - 1]);
                    }
                }
                if has_key(s, q) {
                    let p = key_pos(s, q);
                    if p < i {
                        assert(t[p] == s[p]);
                    } else {
                        assert(t[p + 1] == s[p]);
                    }
                }
                if q == k {
                    assert(t[i as int].0 == k);
                }
            }
            assert forall|q: Seq<u8>| entries_map(t).contains_key(q) implies
                #[trigger] entries_map(t)[q] == entries_map(s).insert(k, value@)[q] by {
                let p = key_pos(t, q);
                lemma_sorted_lookup(t, p);
                if q != k {
                    if p < i {
                        assert(t[p] == s[p]);
                        lemma_sorted_lookup(s, p);
                    } else {
                        assert(p > i);
                        assert(t[p] == s[p - 1]);
                        lemma_sorted_lookup(s, p - 1);
                    }
                } else {
                    assert(t[i as int] == e);
                    lemma_sorted_lookup(t, i as int);
                }
            }
            assert(entries_map(t) =~= entries_map(s).insert(k, value@));
        }
    }
}

/// The live pairs of a sorted run: sorted, each a live entry of the run, and
/// every live entry among them.
pub proof fn lemma_live_pairs(s: Seq<Entry>)
    requires
        keys_sorted(s),
    ensures
        forall|a: int, b: int| 0 <= a < b < live_pairs(s).len() ==> lex_lt(#[trigger] live_pairs(s)[a].0, #[trigger] live_pairs(s)[b].0),
        forall|a: int| 0 <= a < live_pairs(s).len() ==> entries_map(s).contains_key(#[trigger] live_pairs(s)[a].0)
            && entries_map(s)[live_pairs(s)[a].0] == Some(live_pairs(s)[a].1),
        forall|k: Seq<u8>| #[trigger] entries_map(s).contains_key(k) && entries_map(s)[k] is Some ==>
            exists|a: int| 0 <= a < live_pairs(s).len() && #[trigger] live_pairs(s)[a].0 == k,
    decreases s.len(),
{
    lemma_lex_order_facts();
    if s.len() > 0 {
        let d = s.drop_last();
        let e = s.last();
        assert(keys_sorted(d)) by {
            assert forall|a: int, b: int| 0 <= a < b < d.len() implies lex_lt(#[trigger] d[a].0, #[trigger] d[b].0) by {
                assert(d[a] == s[a] && d[b] == s[b]);
            }
        }
        lemma_live_pairs(d);
        let lp = live_pairs(s);
        let ld = live_pairs(d);
        assert(s =~= d.push(e));
        lemma_map_push(d, e);
        // every key of d comes before e's
        assert forall|a: int| 0 <= a < ld.len() implies lex_lt(#[trigger] ld[a].0, e.0) by {
            let k = ld[a].0;
            let p = key_pos(d, k);
            assert(lex_lt(s[p].0, s[s.len() - 1].0));
        }
        match e.1 {
            Some(v) => {
                assert(lp == ld.push((e.0, v)));
                assert forall|a: int| 0 <= a < lp.len() implies entries_map(s).contains_key(#[trigger] lp[a].0)
                    && entries_map(s)[lp[a].0] == Some(lp[a].1) by {
                    if a < ld.len() {
                        assert(lp[a] == ld[a]);
                        assert(lp[a].0 != e.0);
                    }
                }
                assert forall|k: Seq<u8>| #[trigger] entries_map(s).contains_key(k) && entries_map(s)[k] is Some implies
                    exists|a: int| 0 <= a < lp.len() && #[trigger] lp[a].0 == k by {
                    if k == e.0 {
                        assert(lp[ld.len() as int].0 == k);
                    } else {
                        assert(entries_map(d).contains_key(k));
                        let a = choose|a: int| 0 <= a < ld.len() && #[trigger] ld[a].0 == k;
                        assert(lp[a] == ld[a]);
                    }
                }
                assert forall|a: int, b: int| 0 <= a < b < lp.len() implies lex_lt(#[trigger] lp[a].0, #[trigger] lp[b].0) by {
                    assert(lp[a] == ld[a]);
                    if b < ld.len() {
                        assert(lp[b] == ld[b]);
                    }
                }
            },
            None => {
                assert(lp == ld);
                assert forall|a: int| 0 <= a < lp.len() implies entries_map(s).contains_key(#[trigger] lp[a].0)
                    && entries_map(s)[lp[a].0] == Some(lp[a].1) by {
                    assert(lp[a].0 != e.0);
                }
                assert forall|k: Seq<u8>| #[trigger] entries_map(s).contains_key(k) && entries_map(s)[k] is Some implies
                    exists|a: int| 0 <= a < lp.len() && #[trigger] lp[a].0 == k by {
                    assert(k != e.0);
                    assert(entries_map(d).contains_key(k));
                }
            },
        }
    }
}

} // verus!

verus! {

/// The keys in `[start, end)`.
pub open spec fn range_set(start: Seq<u8>, end: Seq<u8>) -> Set<Seq<u8>> {
    Set::new(|k: Seq<u8>| in_range(k, start, end))
}

/// `base` with the entries of `run` in `[start, end)` written over it.
pub open spec fn overwritten(base: Map<Seq<u8>, Option<Seq<u8>>>, run: Seq<Entry>, start: Seq<u8>, end: Seq<u8>)
    -> Map<Seq<u8>, Option<Seq<u8>>> {
    base.union_prefer_right(entries_map(run).restrict(range_set(start, end)))
}

/// Writing one more entry of a sorted run.
pub proof fn lemma_overwrite_step(base: Map<Seq<u8>, Option<Seq<u8>>>, run: Seq<Entry>, p: int, start: Seq<u8>, end: Seq<u8>)
    requires
        keys_sorted(run),
        0 <= p < run.len(),
    ensures
        overwritten(base, run.take(p + 1), start, end) == (if in_range(run[p].0, start, end) {
            overwritten(base, run.take(p), start, end).insert(run[p].0, run[p].1)
        } else {
            overwritten(base, run.take(p), start, end)
        }),
{
    let t = run.take(p + 1);
    assert(t =~= run.take(p).push(run[p]));
    assert(keys_sorted(t)) by {
        assert forall|a: int, b: int| 0 <= a < b < t.len() implies lex_lt(#[trigger] t[a].0, #[trigger] t[b].0) by {
            assert(t[a] == run[a] && t[b] == run[b]);
        }
    }
    lemma_map_push(run.take(p), run[p]);
    let lhs = overwritten(base, t, start, end);
    let rhs = if in_range(run[p].0, start, end) {
        overwritten(base, run.take(p), start, end).insert(run[p].0, run[p].1)
    } else {
        overwritten(base, run.take(p), start, end)
    };
    assert(lhs =~= rhs);
}

/// Writing no entries changes nothing.
pub proof fn lemma_overwrite_none(base: Map<Seq<u8>, Option<Seq<u8>>>, run: Seq<Entry>, start: Seq<u8>, end: Seq<u8>)
    ensures
        overwritten(base, run.take(0), start, end) == base,
{
    assert(run.take(0) =~= Seq::<Entry>::empty());
    assert(entries_map(Seq::<Entry>::empty()).restrict(range_set(start, end)) =~= Map::<Seq<u8>, Option<Seq<u8>>>::empty());
    assert(overwritten(base, run.take(0), start, end) =~= base);
}

} // verus!
