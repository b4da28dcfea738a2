//! A small most-recently-used cache of which tables a range scan touched.
use vstd::prelude::*;
use crate::order::bytes_eq;
use crate::memtable::copy_bytes;

verus! {

/// A scanned range.
#[derive(Clone, Debug, PartialEq, Eq, Hash)]
pub struct ScanKey {
    pub start: Vec<u8>,
    pub end: Vec<u8>,
}

impl View for ScanKey {
    type V = (Seq<u8>, Seq<u8>);

    open spec fn view(&self) -> (Seq<u8>, Seq<u8>) {
        (self.start@, self.end@)
    }
}

impl ScanKey {
    /// The same range.
    pub fn same_as(&self, other: &ScanKey) -> (r: bool)
        ensures
            r == (self@ == other@),
    {
        bytes_eq(self.start.as_slice(), other.start.as_slice()) && bytes_eq(self.end.as_slice(), other.end.as_slice())
    }
}

/// One cache line in the abstract: a range and its table sequence numbers.
pub type ScanLine = ((Seq<u8>, Seq<u8>), Seq<u64>);

/// The lines of a run of concrete ones.
pub open spec fn lines_view(s: Seq<(ScanKey, Vec<u64>)>) -> Seq<ScanLine> {
    s.map_values(|e: (ScanKey, Vec<u64>)| (e.0@, e.1@))
}

/// The lines whose range is not `key`, in order.
pub open spec fn without_key(s: Seq<ScanLine>, key: (Seq<u8>, Seq<u8>)) -> Seq<ScanLine>
    decreases s.len(),
{
    if s.len() == 0 {
        Seq::empty()
    } else {
        let r = without_key(s.drop_last(), key);
        if s.last().0 == key { r } else { r.push(s.last()) }
    }
}

/// The lines that do not mention table `seq`, in order.
pub open spec fn without_table(s: Seq<ScanLine>, seq: u64) -> Seq<ScanLine>
    decreases s.len(),
{
    if s.len() == 0 {
        Seq::empty()
    } else {
        let r = without_table(s.drop_last(), seq);
        if s.last().1.contains(seq) { r } else { r.push(s.last()) }
    }
}

/// The position of the first line for `key`, if any.
pub open spec fn first_line(s: Seq<ScanLine>, key: (Seq<u8>, Seq<u8>)) -> Option<int> {
    if exists|i: int| 0 <= i < s.len() && s[i].0 == key {
        Some(choose|i: int| 0 <= i < s.len() && s[i].0 == key && forall|j: int| 0 <= j < i ==> s[j].0 != key)
    } else {
        None
    }
}

/// A range just put is what a lookup of that range finds first: its line is
/// the most recent.
pub proof fn lemma_put_then_get(s: Seq<ScanLine>, key: (Seq<u8>, Seq<u8>), tables: Seq<u64>, rest: Seq<ScanLine>)
    requires
        s == seq![(key, tables)] + rest,
    ensures
        first_line(s, key) == Some(0int),
        s[0].1 == tables,
{
    assert(s[0].0 == key);
    let i = choose|i: int| 0 <= i < s.len() && s[i].0 == key && forall|j: int| 0 <= j < i ==> s[j].0 != key;
    assert(i == 0);
}

/// Invalidating a table leaves no line that mentions it.
pub proof fn lemma_invalidated(s: Seq<ScanLine>, seq: u64)
    ensures
        forall|i: int| 0 <= i < without_table(s, seq).len() ==> !(#[trigger] without_table(s, seq)[i]).1.contains(seq),
    decreases s.len(),
{
    if s.len() > 0 {
        lemma_invalidated(s.drop_last(), seq);
        let r = without_table(s.drop_last(), seq);
        if !s.last().1.contains(seq) {
            assert forall|i: int| 0 <= i < r.push(s.last()).len() implies !(#[trigger] r.push(s.last())[i]).1.contains(seq) by {
                if i < r.len() {
                    assert(r.push(s.last())[i] == r[i]);
                }
            }
        }
    }
}

fn copy_u64s(v: &Vec<u64>) -> (r: Vec<u64>)
    ensures
        r@ == v@,
{
    let mut r: Vec<u64> = Vec::new();
    let mut i: usize = 0;
    while i < v.len()
        invariant
            i <= v@.len(),
            r@ =~= v@.take(i as int),
        decreases v@.len() - i,
    {
        r.push(v[i]);
        i = i + 1;
    }
    r
}

/// Caches, most recent first, which tables a scanned range touched.
pub struct ScanCache {
    capacity: usize,
    cache: Vec<(ScanKey, Vec<u64>)>,
}

impl ScanCache {
    pub closed spec fn lines(&self) -> Seq<ScanLine> {
        lines_view(self.cache@)
    }

    pub closed spec fn capacity_spec(&self) -> usize {
        self.capacity
    }

    pub fn new(capacity: usize) -> (c: ScanCache)
        ensures
            c.lines() == Seq::<ScanLine>::empty(),
            c.capacity_spec() == capacity,
    {
        let c = ScanCache { capacity, cache: Vec::new() };
        assert(c.lines() =~= Seq::<ScanLine>::empty());
        c
    }

    /// The tables of the most recent line for `key`.
    pub fn get(&self, key: &ScanKey) -> (r: Option<Vec<u64>>)
        ensures
            match (r, first_line(self.lines(), key@)) {
                (Some(v), Some(i)) => v@ == self.lines()[i].1,
                (None, None) => true,
                _ => false,
            },
    {
        let ghost s = self.lines();
        let mut i: usize = 0;
        while i < self.cache.len()
            invariant
                i <= self.cache@.len(),
                s == self.lines(),
                forall|j: int| 0 <= j < i ==> s[j].0 != key@,
            decreases self.cache@.len() - i,
        {
            proof {
                assert(s[i as int] == (self.cache@[i as int].0@, self.cache@[i as int].1@));
            }
            if self.cache[i].0.same_as(key) {
                proof {
                    let w = choose|w: int| 0 <= w < s.len() && s[w].0 == key@ && forall|j: int| 0 <= j < w ==> s[j].0 != key@;
                    assert(w == i) by {
                        if w < i {
                        } else if w > i {
                            assert(s[i as int].0 == key@);
                        }
                    }
                }
                return Some(copy_u64s(&self.cache[i].1));
            }
            i = i + 1;
        }
        None
    }

    /// Record the tables of a range as the most recent line, replacing any
    /// line for the same range and dropping the oldest lines to stay within
    /// capacity.
    pub fn put(&mut self, key: ScanKey, sstables: Vec<u64>)
        requires
            old(self).capacity_spec() > 0,
        ensures
            final(self).capacity_spec() == old(self).capacity_spec(),
            final(self).lines() == seq![(key@, sstables@)] + ({
                let r = without_key(old(self).lines(), key@);
                r.take(if r.len() < old(self).capacity_spec() { r.len() as int } else { old(self).capacity_spec() - 1 })
            }),
    {
        let ghost s = self.lines();
        let mut kept: Vec<(ScanKey, Vec<u64>)> = Vec::new();
        let mut old_lines: Vec<(ScanKey, Vec<u64>)> = Vec::new();
        std::mem::swap(&mut old_lines, &mut self.cache);
        let mut i: usize = 0;
        while i < old_lines.len()
            invariant
                i <= old_lines@.len(),
                lines_view(old_lines@) == s,
                lines_view(kept@) == without_key(s.take(i as int), key@),
            decreases old_lines@.len() - i,
        {
            proof {
                assert(s.take(i + 1).drop_last() =~= s.take(i as int));
                assert(s[i as int] == (old_lines@[i as int].0@, old_lines@[i as int].1@));
            }
            if !old_lines[i].0.same_as(&key) {
                let line = (old_lines[i].0.clone_key(), copy_u64s(&old_lines[i].1));
                let ghost before = kept@;
                kept.push(line);
                proof {
                    assert(lines_view(kept@) =~= lines_view(before).push(s[i as int]));
                }
            }
            i = i + 1;
        }
        proof {
            assert(s.take(s.len() as int) =~= s);
        }
        let ghost r = lines_view(kept@);
        while kept.len() >= self.capacity
            invariant
                self.capacity > 0,
                self.capacity == old(self).capacity,
                lines_view(kept@) == r.take(lines_view(kept@).len() as int),
                lines_view(kept@).len() <= r.len(),
                r.len() >= self.capacity ==> lines_view(kept@).len() >= self.capacity - 1,
                r.len() < self.capacity ==> lines_view(kept@).len() == r.len(),
            decreases kept@.len(),
        {
            kept.pop();
            proof {
                assert(lines_view(kept@) =~= r.take(lines_view(kept@).len() as int));
            }
        }
        let ghost t = lines_view(kept@);
        kept.insert(0, (key, sstables));
        self.cache = kept;
        proof {
            assert(lines_view(self.cache@) =~= seq![(key@, sstables@)] + t);
            if r.len() < self.capacity {
                assert(t =~= r);
                assert(r.take(r.len() as int) =~= r);
            }
        }
    }

    /// Drop every line that mentions table `seq`.
    pub fn invalidate_for_sstable(&mut self, seq: u64)
        ensures
            final(self).capacity_spec() == old(self).capacity_spec(),
            final(self).lines() == without_table(old(self).lines(), seq),
    {
        let ghost s = self.lines();
        let mut kept: Vec<(ScanKey, Vec<u64>)> = Vec::new();
        let mut old_lines: Vec<(ScanKey, Vec<u64>)> = Vec::new();
        std::mem::swap(&mut old_lines, &mut self.cache);
        let mut i: usize = 0;
        while i < old_lines.len()
            invariant
                i <= old_lines@.len(),
                lines_view(old_lines@) == s,
                lines_view(kept@) == without_table(s.take(i as int), seq),
            decreases old_lines@.len() - i,
        {
            proof {
                assert(s.take(i + 1).drop_last() =~= s.take(i as int));
                assert(s[i as int] == (old_lines@[i as int].0@, old_lines@[i as int].1@));
            }
            let mut hit = false;
            let mut j: usize = 0;
            let ghost v = old_lines@[i as int].1@;
            while j < old_lines[i].1.len()
                invariant
                    i < old_lines@.len(),
                    v == old_lines@[i as int].1@,
                    j <= v.len(),
                    hit == (exists|w: int| 0 <= w < j && #[trigger] v[w] == seq),
                decreases v.len() - j,
            {
                if old_lines[i].1[j] == seq {
                    hit = true;
                }
                j = j + 1;
            }
            proof {
                assert(hit == v.contains(seq));
            }
            if !hit {
                let line = (old_lines[i].0.clone_key(), copy_u64s(&old_lines[i].1));
                let ghost before = kept@;
                kept.push(line);
                proof {
                    assert(lines_view(kept@) =~= lines_view(before).push(s[i as int]));
                }
            }
            i = i + 1;
        }
        proof {
            assert(s.take(s.len() as int) =~= s);
        }
        self.cache = kept;
    }

    pub fn clear(&mut self)
        ensures
            final(self).capacity_spec() == old(self).capacity_spec(),
            final(self).lines() == Seq::<ScanLine>::empty(),
    {
        self.cache.clear();
        assert(self.lines() =~= Seq::<ScanLine>::empty());
    }

    pub fn len(&self) -> (r: usize)
        ensures
            r == self.lines().len(),
    {
        self.cache.len()
    }

    pub fn is_empty(&self) -> (r: bool)
        ensures
            r == (self.lines().len() == 0),
    {
        self.cache.len() == 0
    }
}

impl ScanKey {
    /// A copy of the range.
    pub fn clone_key(&self) -> (r: ScanKey)
        ensures
            r@ == self@,
    {
        ScanKey { start: copy_bytes(self.start.as_slice()), end: copy_bytes(self.end.as_slice()) }
    }
}

} // verus!
