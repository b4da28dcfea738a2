//! A cursor over the result of a range scan.
use vstd::prelude::*;
use crate::order::{lex_lt, bytes_lt, bytes_eq};
use crate::memtable::{Value, copy_bytes};
use crate::sstable::bsearch;

verus! {

/// The abstract pairs of a run of concrete ones.
pub open spec fn pairs_view(s: Seq<(Vec<u8>, Vec<u8>)>) -> Seq<(Seq<u8>, Seq<u8>)> {
    s.map_values(|e: (Vec<u8>, Vec<u8>)| (e.0@, e.1@))
}

/// The keys of a run of pairs.
pub open spec fn pair_keys(s: Seq<(Seq<u8>, Seq<u8>)>) -> Seq<Seq<u8>> {
    s.map_values(|e: (Seq<u8>, Seq<u8>)| e.0)
}

/// A cursor over key/value pairs in key order.
pub struct LsmIterator {
    items: Vec<(Vec<u8>, Vec<u8>)>,
    pos: usize,
}

impl LsmIterator {
    /// The pairs the cursor runs over.
    pub closed spec fn items_spec(&self) -> Seq<(Seq<u8>, Seq<u8>)> {
        pairs_view(self.items@)
    }

    /// The cursor's position.
    pub closed spec fn pos_spec(&self) -> nat {
        self.pos as nat
    }

    /// A cursor at the first of `items`.
    pub fn new(items: Vec<(Vec<u8>, Vec<u8>)>) -> (r: LsmIterator)
        ensures
            r.items_spec() == pairs_view(items@),
            r.pos_spec() == 0,
    {
        LsmIterator { items, pos: 0 }
    }

    /// The cursor is on a pair.
    pub fn valid(&self) -> (r: bool)
        ensures
            r == (self.pos_spec() < self.items_spec().len()),
    {
        self.pos < self.items.len()
    }

    /// Move to the next pair (no move past the end).
    pub fn next(&mut self)
        ensures
            final(self).items_spec() == old(self).items_spec(),
            final(self).pos_spec() == if old(self).pos_spec() < old(self).items_spec().len() {
                old(self).pos_spec() + 1
            } else {
                old(self).pos_spec()
            },
    {
        if self.pos < self.items.len() {
            self.pos = self.pos + 1;
        }
    }

    /// Move to the previous pair (no move before the first).
    pub fn prev(&mut self)
        ensures
            final(self).items_spec() == old(self).items_spec(),
            final(self).pos_spec() == if old(self).pos_spec() > 0 { (old(self).pos_spec() - 1) as nat } else { 0 },
    {
        if self.pos > 0 {
            self.pos = self.pos - 1;
        }
    }

    /// The key under the cursor.
    pub fn key(&self) -> (r: Option<&[u8]>)
        ensures
            match r {
                Some(k) => self.pos_spec() < self.items_spec().len() && k@ == self.items_spec()[self.pos_spec() as int].0,
                None => self.pos_spec() >= self.items_spec().len(),
            },
    {
        if self.pos < self.items.len() {
            Some(self.items[self.pos].0.as_slice())
        } else {
            None
        }
    }

    /// The value under the cursor.
    pub fn value(&self) -> (r: Option<&[u8]>)
        ensures
            match r {
                Some(v) => self.pos_spec() < self.items_spec().len() && v@ == self.items_spec()[self.pos_spec() as int].1,
                None => self.pos_spec() >= self.items_spec().len(),
            },
    {
        if self.pos < self.items.len() {
            Some(self.items[self.pos].1.as_slice())
        } else {
            None
        }
    }

    pub fn seek_to_first(&mut self)
        ensures
            final(self).items_spec() == old(self).items_spec(),
            final(self).pos_spec() == 0,
    {
        self.pos = 0;
    }

    /// Move to the last pair (position 0 when there is none).
    pub fn seek_to_last(&mut self)
        ensures
            final(self).items_spec() == old(self).items_spec(),
            final(self).pos_spec() == if old(self).items_spec().len() > 0 { (old(self).items_spec().len() - 1) as nat } else { 0 },
    {
        self.pos = self.items.len().saturating_sub(1);
    }

    fn search(&self, target: &[u8]) -> (r: (usize, bool))
        ensures
            r.0 == bsearch(pair_keys(self.items_spec()), target@, 0, self.items_spec().len() as int),
            r.1 == (r.0 < self.items_spec().len() && pair_keys(self.items_spec())[r.0 as int] == target@),
    {
        let ghost keys = pair_keys(self.items_spec());
        let n = self.items.len();
        let mut lo: usize = 0;
        let mut hi: usize = n;
        while lo < hi
            invariant
                n == self.items@.len(),
                keys == pair_keys(self.items_spec()),
                keys.len() == n,
                lo <= hi <= n,
                bsearch(keys, target@, 0, n as int) == bsearch(keys, target@, lo as int, hi as int),
            decreases hi - lo,
        {
            let mid = lo + (hi - lo) / 2;
            proof {
                assert(keys[mid as int] == self.items@[mid as int].0@);
            }
            if bytes_lt(self.items[mid].0.as_slice(), target) {
                lo = mid + 1;
            } else {
                hi = mid;
            }
        }
        if lo < n {
            proof {
                assert(keys[lo as int] == self.items@[lo as int].0@);
            }
            (lo, bytes_eq(self.items[lo].0.as_slice(), target))
        } else {
            (lo, false)
        }
    }

    /// Move to the first pair whose key is not before `target` (on sorted
    /// pairs; the end when every key is before it).
    pub fn seek(&mut self, target: &[u8])
        ensures
            final(self).items_spec() == old(self).items_spec(),
            final(self).pos_spec() == bsearch(pair_keys(old(self).items_spec()), target@, 0, old(self).items_spec().len() as int),
    {
        let (p, _) = self.search(target);
        self.pos = p;
    }

    /// When `target` is a key, move to the pair before it (position 0 for the
    /// first); when it is not, move to position 0.
    pub fn seek_for_prev(&mut self, target: &[u8])
        ensures
            final(self).items_spec() == old(self).items_spec(),
            ({
                let keys = pair_keys(old(self).items_spec());
                let j = bsearch(keys, target@, 0, keys.len() as int);
                final(self).pos_spec() == if j < keys.len() && keys[j] == target@ {
                    if j > 0 { j - 1 } else { 0 }
                } else {
                    0
                }
            }),
    {
        let (p, found) = self.search(target);
        self.pos = if found { p.saturating_sub(1) } else { 0 };
    }

    /// Take the pair under the cursor and advance.
    pub fn next_item(&mut self) -> (r: Option<(Vec<u8>, Vec<u8>)>)
        ensures
            final(self).items_spec() == old(self).items_spec(),
            match r {
                Some(item) => old(self).pos_spec() < old(self).items_spec().len()
                    && (item.0@, item.1@) == old(self).items_spec()[old(self).pos_spec() as int]
                    && final(self).pos_spec() == old(self).pos_spec() + 1,
                None => old(self).pos_spec() >= old(self).items_spec().len() && final(self).pos_spec() == old(self).pos_spec(),
            },
    {
        if self.pos < self.items.len() {
            let item = (copy_bytes(self.items[self.pos].0.as_slice()), copy_bytes(self.items[self.pos].1.as_slice()));
            self.pos = self.pos + 1;
            Some(item)
        } else {
            None
        }
    }

    /// While the cursor is on a pair, take the last pair off the end.
    pub fn next_back_item(&mut self) -> (r: Option<(Vec<u8>, Vec<u8>)>)
        ensures
            final(self).pos_spec() == old(self).pos_spec(),
            match r {
                Some(item) => old(self).pos_spec() < old(self).items_spec().len()
                    && (item.0@, item.1@) == old(self).items_spec().last()
                    && final(self).items_spec() == old(self).items_spec().drop_last(),
                None => old(self).pos_spec() >= old(self).items_spec().len() && final(self).items_spec() == old(self).items_spec(),
            },
    {
        if self.pos < self.items.len() {
            let item = self.items.pop().unwrap();
            proof {
                assert(pairs_view(self.items@) =~= pairs_view(old(self).items@).drop_last());
            }
            Some(item)
        } else {
            None
        }
    }

    /// The pairs from the cursor to the end (what iterating would yield).
    pub fn remaining(self) -> (r: Vec<(Vec<u8>, Vec<u8>)>)
        ensures
            pairs_view(r@) == self.items_spec().subrange(
                if self.pos_spec() < self.items_spec().len() { self.pos_spec() as int } else { self.items_spec().len() as int },
                self.items_spec().len() as int),
    {
        let mut out: Vec<(Vec<u8>, Vec<u8>)> = Vec::new();
        let mut items = self.items;
        let start = if self.pos < items.len() { self.pos } else { items.len() };
        let mut i = start;
        let ghost all = pairs_view(items@);
        while i < items.len()
            invariant
                start <= i <= items@.len(),
                pairs_view(items@) == all,
                pairs_view(out@) =~= all.subrange(start as int, i as int),
            decreases items@.len() - i,
        {
            let item = (copy_bytes(items[i].0.as_slice()), copy_bytes(items[i].1.as_slice()));
            let ghost before = out@;
            out.push(item);
            proof {
                assert(all[i as int] == (items@[i as int].0@, items@[i as int].1@));
                assert(pairs_view(out@) =~= pairs_view(before).push((item.0@, item.1@)));
                assert(all.subrange(start as int, i + 1) =~= all.subrange(start as int, i as int).push(all[i as int]));
            }
            i = i + 1;
        }
        out
    }
}

/// The live pairs of a run, in order (tombstones dropped).
pub open spec fn live_pairs(s: Seq<(Seq<u8>, Option<Seq<u8>>)>) -> Seq<(Seq<u8>, Seq<u8>)>
    decreases s.len(),
{
    if s.len() == 0 {
        Seq::empty()
    } else {
        let rest = live_pairs(s.drop_last());
        match s.last().1 {
            Some(v) => rest.push((s.last().0, v)),
            None => rest,
        }
    }
}

/// Drop the tombstones of a run, keeping the live values in order.
pub fn filter_tombstones(items: Vec<(Vec<u8>, Value)>) -> (r: Vec<(Vec<u8>, Vec<u8>)>)
    ensures
        pairs_view(r@) == live_pairs(crate::memtable::entries_view(items@)),
{
    let mut out: Vec<(Vec<u8>, Vec<u8>)> = Vec::new();
    let mut items = items;
    let ghost all = crate::memtable::entries_view(items@);
    let mut i: usize = 0;
    while i < items.len()
        invariant
            i <= items@.len(),
            crate::memtable::entries_view(items@) == all,
            pairs_view(out@) == live_pairs(all.take(i as int)),
        decreases items@.len() - i,
    {
        proof {
            assert(all.take(i + 1).drop_last() =~= all.take(i as int));
            assert(all[i as int] == (items@[i as int].0@, items@[i as int].1@));
        }
        match &items[i].1 {
            Value::Data(d) => {
                let ghost before = out@;
                out.push((copy_bytes(items[i].0.as_slice()), copy_bytes(d.as_slice())));
                proof {
                    assert(pairs_view(out@) =~= pairs_view(before).push((items@[i as int].0@, d@)));
                }
            },
            Value::Tombstone => {},
        }
        i = i + 1;
    }
    proof {
        assert(all.take(items@.len() as int) =~= all);
    }
    out
}

} // verus!
