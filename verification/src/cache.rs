//! A least-recently-used cache bounded by the total size of its values.
use vstd::prelude::*;

verus! {

/// The total size of a run of cache lines.
pub open spec fn lines_size<K, V>(c: Seq<(K, V, usize)>) -> int
    decreases c.len(),
{
    if c.len() == 0 { 0 } else { lines_size(c.drop_last()) + c.last().2 }
}

/// The position of the line for `k` (meaningful when there is one).
pub open spec fn line_of<K, V>(c: Seq<(K, V, usize)>, k: K) -> int {
    choose|i: int| 0 <= i < c.len() && #[trigger] c[i].0 == k
}

/// There is a line for `k`.
pub open spec fn has_line<K, V>(c: Seq<(K, V, usize)>, k: K) -> bool {
    exists|i: int| 0 <= i < c.len() && #[trigger] c[i].0 == k
}

/// Drop least-recent lines until `size` more fits under `cap`, or none is left.
pub open spec fn lru_evict<K, V>(c: Seq<(K, V, usize)>, t: int, size: int, cap: int) -> (Seq<(K, V, usize)>, int)
    decreases c.len(),
{
    if c.len() > 0 && t + size > cap {
        lru_evict(c.drop_last(), t - c.last().2, size, cap)
    } else {
        (c, t)
    }
}

/// The lines and total after putting `(k, v, size)`: nothing changes when the
/// value is larger than the capacity; otherwise any line for `k` goes, the
/// least-recent lines go until it fits, and it becomes the most recent.
pub open spec fn lru_put<K, V>(c: Seq<(K, V, usize)>, t: int, cap: int, k: K, v: V, size: usize) -> (Seq<(K, V, usize)>, int) {
    if size > cap {
        (c, t)
    } else {
        let c1 = if has_line(c, k) { c.remove(line_of(c, k)) } else { c };
        let t1 = if has_line(c, k) { t - c[line_of(c, k)].2 } else { t };
        let (c2, t2) = lru_evict(c1, t1, size as int, cap);
        (seq![(k, v, size)] + c2, t2 + size)
    }
}

/// A value put within the capacity becomes the most recent line, so the
/// next read of its key (the keys of the lines being distinct) finds it.
pub proof fn lemma_put_then_get<K, V>(c: Seq<(K, V, usize)>, t: int, cap: int, k: K, v: V, size: usize)
    requires
        size <= cap,
    ensures
        ({
            let c2 = lru_put(c, t, cap, k, v, size).0;
            &&& has_line(c2, k)
            &&& c2[0] == (k, v, size)
            &&& (forall|a: int, b: int| 0 <= a < b < c2.len() ==> #[trigger] c2[a].0 != #[trigger] c2[b].0)
                ==> line_of(c2, k) == 0
        }),
{
    let c2 = lru_put(c, t, cap, k, v, size).0;
    assert(c2[0] == (k, v, size));
    assert(c2[0].0 == k);
    if forall|a: int, b: int| 0 <= a < b < c2.len() ==> #[trigger] c2[a].0 != #[trigger] c2[b].0 {
        let i = line_of(c2, k);
        if i != 0 {
            assert(c2[0].0 != c2[i].0);
        }
    }
}

/// Removing one line removes its size from the total.
pub proof fn lemma_size_remove<K, V>(c: Seq<(K, V, usize)>, i: int)
    requires
        0 <= i < c.len(),
    ensures
        lines_size(c.remove(i)) == lines_size(c) - c[i].2,
    decreases c.len(),
{
    if i == c.len() - 1 {
        assert(c.remove(i) =~= c.drop_last());
    } else {
        lemma_size_remove(c.drop_last(), i);
        assert(c.remove(i).drop_last() =~= c.drop_last().remove(i));
        assert(c.remove(i).last() == c.last());
    }
}

/// A line in front adds its size.
pub proof fn lemma_size_prepend<K, V>(x: (K, V, usize), c: Seq<(K, V, usize)>)
    ensures
        lines_size(seq![x] + c) == x.2 + lines_size(c),
    decreases c.len(),
{
    if c.len() == 0 {
        assert(seq![x] + c =~= seq![x]);
        assert(seq![x].drop_last() =~= Seq::<(K, V, usize)>::empty());
        assert(seq![x].last() == x);
        assert(lines_size(seq![x].drop_last()) == 0);
    } else {
        lemma_size_prepend(x, c.drop_last());
        assert((seq![x] + c).drop_last() =~= seq![x] + c.drop_last());
    }
}

/// Sizes are never negative.
pub proof fn lemma_size_nonneg<K, V>(c: Seq<(K, V, usize)>)
    ensures
        lines_size(c) >= 0,
    decreases c.len(),
{
    if c.len() > 0 {
        lemma_size_nonneg(c.drop_last());
    }
}

/// Eviction keeps the most recent lines: a prefix of the lines.
pub proof fn lemma_evict_prefix<K, V>(c: Seq<(K, V, usize)>, t: int, size: int, cap: int)
    ensures
        lru_evict(c, t, size, cap).0.len() <= c.len(),
        lru_evict(c, t, size, cap).0 == c.take(lru_evict(c, t, size, cap).0.len() as int),
    decreases c.len(),
{
    if c.len() > 0 && t + size > cap {
        lemma_evict_prefix(c.drop_last(), t - c.last().2, size, cap);
        let n = lru_evict(c, t, size, cap).0.len() as int;
        assert(c.drop_last().take(n) =~= c.take(n));
    } else {
        assert(c.take(c.len() as int) =~= c);
    }
}

/// After a put, every line is the one put or a line from before.
pub proof fn lemma_put_lines<K, V>(c: Seq<(K, V, usize)>, t: int, cap: int, k: K, v: V, size: usize)
    ensures
        forall|i: int| 0 <= i < lru_put(c, t, cap, k, v, size).0.len()
            ==> #[trigger] lru_put(c, t, cap, k, v, size).0[i] == (k, v, size)
                || c.contains(lru_put(c, t, cap, k, v, size).0[i]),
{
    let c2 = lru_put(c, t, cap, k, v, size).0;
    if size as int <= cap {
        let c1 = if has_line(c, k) { c.remove(line_of(c, k)) } else { c };
        let t1 = if has_line(c, k) { t - c[line_of(c, k)].2 } else { t };
        lemma_evict_prefix(c1, t1, size as int, cap);
        let e = lru_evict(c1, t1, size as int, cap).0;
        assert forall|i: int| 0 <= i < c2.len() implies #[trigger] c2[i] == (k, v, size) || c.contains(c2[i]) by {
            if i > 0 {
                assert(c2[i] == e[i - 1]);
                assert(e[i - 1] == c1[i - 1]);
                if has_line(c, k) {
                    let r = line_of(c, k);
                    if i - 1 < r {
                        assert(c1[i - 1] == c[i - 1]);
                    } else {
                        assert(c1[i - 1] == c[i]);
                    }
                } else {
                    assert(c1[i - 1] == c[i - 1]);
                }
            }
        }
    }
}

/// A counter after one more event: it wraps to zero past the largest `u64`.
pub open spec fn bump(x: u64) -> u64 {
    if x == u64::MAX { 0 } else { (x + 1) as u64 }
}

/// A cache of values by key, bounded by the total of the sizes given with
/// them, evicting the least recently used.
///
/// The lines are one vector, most recent first, which holds both the values
/// and their recency order.  vstd gives a `HashMap`'s contents only for key
/// types whose hashing and equality it knows, and this cache is generic in
/// its key; a vector of lines lets every operation here, and the eviction
/// order, be proved for any key whose equality matches its view.
pub struct LruCache<K, V> {
    capacity: usize,
    entries: Vec<(K, V, usize)>,
    total_size: usize,
    hits: u64,
    misses: u64,
}

impl<K: PartialEq + View, V: Clone> LruCache<K, V> {
    /// The lines, most recent first, keys by their views.
    pub closed spec fn lines(&self) -> Seq<(K::V, V, usize)> {
        self.entries@.map_values(|e: (K, V, usize)| (e.0@, e.1, e.2))
    }

    pub closed spec fn capacity_spec(&self) -> usize {
        self.capacity
    }

    pub closed spec fn total_spec(&self) -> usize {
        self.total_size
    }

    pub closed spec fn hits_spec(&self) -> u64 {
        self.hits
    }

    pub closed spec fn misses_spec(&self) -> u64 {
        self.misses
    }

    /// No key twice; the total is the sum of the sizes, within capacity.
    pub open spec fn wf(&self) -> bool {
        &&& forall|i: int, j: int| 0 <= i < j < self.lines().len() ==> #[trigger] self.lines()[i].0 != #[trigger] self.lines()[j].0
        &&& self.total_spec() == lines_size(self.lines())
        &&& self.total_spec() <= self.capacity_spec()
    }

    pub fn new(capacity: usize) -> (c: LruCache<K, V>)
        ensures
            c.wf(),
            c.lines() == Seq::<(K::V, V, usize)>::empty(),
            c.capacity_spec() == capacity,
            c.hits_spec() == 0,
            c.misses_spec() == 0,
    {
        let c = LruCache { capacity, entries: Vec::new(), total_size: 0, hits: 0, misses: 0 };
        assert(c.lines() =~= Seq::<(K::V, V, usize)>::empty());
        c
    }

    fn find(&self, key: &K) -> (r: Option<usize>)
        requires
            self.wf(),
            vstd::laws_eq::obeys_view_eq::<K>(),
        ensures
            match r {
                Some(i) => i < self.lines().len() && self.lines()[i as int].0 == key@ && has_line(self.lines(), key@)
                    && line_of(self.lines(), key@) == i,
                None => !has_line(self.lines(), key@),
            },
    {
        proof {
            reveal(vstd::laws_eq::obeys_view_eq);
        }
        let ghost c = self.lines();
        let mut i: usize = 0;
        while i < self.entries.len()
            invariant
                i <= self.entries@.len(),
                c == self.lines(),
                self.wf(),
                vstd::laws_eq::obeys_view_eq::<K>(),
                forall|j: int| 0 <= j < i ==> c[j].0 != key@,
            decreases self.entries@.len() - i,
        {
            proof {
                reveal(vstd::laws_eq::obeys_view_eq);
                assert(c[i as int].0 == self.entries@[i as int].0@);
            }
            if self.entries[i].0 == *key {
                proof {
                    assert(c[i as int].0 == key@);
                    assert(has_line(c, key@));
                    let w = line_of(c, key@);
                    if w < i {
                        assert(c[w].0 != c[i as int].0);
                    } else if w > i {
                        assert(c[i as int].0 != c[w].0);
                    }
                }
                return Some(i);
            }
            i = i + 1;
        }
        None
    }

    /// The value for `key`, which becomes the most recent line; counts a hit
    /// or a miss.
    pub fn get(&mut self, key: &K) -> (r: Option<V>)
        requires
            old(self).wf(),
            vstd::laws_eq::obeys_view_eq::<K>(),
        ensures
            final(self).wf(),
            final(self).capacity_spec() == old(self).capacity_spec(),
            final(self).total_spec() == old(self).total_spec(),
            if has_line(old(self).lines(), key@) {
                let i = line_of(old(self).lines(), key@);
                &&& r matches Some(v) && cloned(old(self).lines()[i].1, v)
                &&& final(self).lines() == seq![old(self).lines()[i]] + old(self).lines().remove(i)
                &&& final(self).hits_spec() == bump(old(self).hits_spec())
                &&& final(self).misses_spec() == old(self).misses_spec()
            } else {
                &&& r is None
                &&& final(self).lines() == old(self).lines()
                &&& final(self).hits_spec() == old(self).hits_spec()
                &&& final(self).misses_spec() == bump(old(self).misses_spec())
            },
    {
        match self.find(key) {
            Some(i) => {
                self.hits = self.hits.wrapping_add(1);
                let value = self.entries[i].1.clone();
                let ghost c = self.lines();
                let e = self.entries.remove(i);
                self.entries.insert(0, e);
                proof {
                    assert(self.lines() =~= seq![c[i as int]] + c.remove(i as int));
                    lemma_size_remove(c, i as int);
                    lemma_size_prepend(c[i as int], c.remove(i as int));
                    let n = self.lines();
                    assert forall|a: int, b: int| 0 <= a < b < n.len() implies #[trigger] n[a].0 != #[trigger] n[b].0 by {
                        let a2 = if a == 0 { i as int } else if a - 1 < i { a - 1 } else { a };
                        let b2 = if b - 1 < i { b - 1 } else { b };
                        assert(n[a] == c[a2]);
                        assert(n[b] == c[b2]);
                    }
                }
                Some(value)
            },
            None => {
                self.misses = self.misses.wrapping_add(1);
                None
            },
        }
    }

    /// Put a value with its size (see `lru_put`).
    pub fn put(&mut self, key: K, value: V, size: usize)
        requires
            old(self).wf(),
            vstd::laws_eq::obeys_view_eq::<K>(),
        ensures
            final(self).wf(),
            final(self).capacity_spec() == old(self).capacity_spec(),
            final(self).hits_spec() == old(self).hits_spec(),
            final(self).misses_spec() == old(self).misses_spec(),
            (final(self).lines(), final(self).total_spec() as int)
                == lru_put(old(self).lines(), old(self).total_spec() as int, old(self).capacity_spec() as int, key@, value, size),
    {
        if size > self.capacity {
            return;
        }
        let ghost c = self.lines();
        let ghost k = key@;
        match self.find(&key) {
            Some(i) => {
                proof {
                    lemma_size_remove(c, i as int);
                    lemma_size_nonneg(c.remove(i as int));
                }
                let e = self.entries.remove(i);
                self.total_size = self.total_size - e.2;
                proof {
                    assert(self.lines() =~= c.remove(i as int));
                }
            },
            None => {},
        }
        let ghost c1 = self.lines();
        let ghost t1 = self.total_size as int;
        proof {
            let n = c1;
            assert forall|a: int, b: int| 0 <= a < b < n.len() implies #[trigger] n[a].0 != #[trigger] n[b].0 by {
                if has_line(c, k) {
                    let i = line_of(c, k);
                    let a2 = if a < i { a } else { a + 1 };
                    let b2 = if b < i { b } else { b + 1 };
                    assert(n[a] == c[a2]);
                    assert(n[b] == c[b2]);
                }
            }
            assert(!has_line(c1, k)) by {
                if has_line(c1, k) {
                    let j = line_of(c1, k);
                    if has_line(c, k) {
                        let i = line_of(c, k);
                        let j2 = if j < i { j } else { j + 1 };
                        assert(c1[j] == c[j2]);
                    }
                }
            }
            lemma_size_nonneg(c1);
        }
        while size > self.capacity - self.total_size && self.entries.len() > 0
            invariant
                size <= self.capacity,
                self.capacity == old(self).capacity,
                self.hits == old(self).hits,
                self.misses == old(self).misses,
                self.total_size as int == lines_size(self.lines()),
                self.total_size <= t1,
                t1 <= self.capacity,
                lru_evict(c1, t1, size as int, self.capacity as int)
                    == lru_evict(self.lines(), self.total_size as int, size as int, self.capacity as int),
                self.lines() == c1.take(self.lines().len() as int),
                self.lines().len() <= c1.len(),
            decreases self.entries@.len(),
        {
            let ghost before = self.lines();
            let e = self.entries.pop().unwrap();
            proof {
                assert(self.lines() =~= before.drop_last());
                lemma_size_nonneg(self.lines());
            }
            self.total_size = self.total_size - e.2;
            proof {
                assert(self.lines() =~= c1.take(self.lines().len() as int));
            }
        }
        let ghost c2 = self.lines();
        proof {
            lemma_size_nonneg(c2);
            if self.entries@.len() == 0 {
                assert(lines_size(c2) == 0);
            }
        }
        self.total_size = self.total_size + size;
        self.entries.insert(0, (key, value, size));
        proof {
            assert(self.lines() =~= seq![(k, value, size)] + c2);
            lemma_size_prepend((k, value, size), c2);
            let n = self.lines();
            assert forall|a: int, b: int| 0 <= a < b < n.len() implies #[trigger] n[a].0 != #[trigger] n[b].0 by {
                assert(n[b] == c2[b - 1]);
                assert(c2[b - 1] == c1[b - 1]);
                if a > 0 {
                    assert(n[a] == c2[a - 1]);
                    assert(c2[a - 1] == c1[a - 1]);
                } else {
                    assert(!has_line(c1, k));
                    if c1[b - 1].0 == k {
                        assert(has_line(c1, k));
                    }
                }
            }
        }
    }

    /// Drop every line.
    pub fn clear(&mut self)
        ensures
            final(self).wf(),
            final(self).lines() == Seq::<(K::V, V, usize)>::empty(),
            final(self).capacity_spec() == old(self).capacity_spec(),
            final(self).hits_spec() == old(self).hits_spec(),
            final(self).misses_spec() == old(self).misses_spec(),
    {
        self.entries.clear();
        self.total_size = 0;
        assert(self.lines() =~= Seq::<(K::V, V, usize)>::empty());
    }

    /// Drop the line for `key`, if any.
    pub fn invalidate(&mut self, key: &K)
        requires
            old(self).wf(),
            vstd::laws_eq::obeys_view_eq::<K>(),
        ensures
            final(self).wf(),
            final(self).capacity_spec() == old(self).capacity_spec(),
            final(self).hits_spec() == old(self).hits_spec(),
            final(self).misses_spec() == old(self).misses_spec(),
            final(self).lines() == if has_line(old(self).lines(), key@) {
                old(self).lines().remove(line_of(old(self).lines(), key@))
            } else {
                old(self).lines()
            },
    {
        let ghost c = self.lines();
        match self.find(key) {
            Some(i) => {
                proof {
                    lemma_size_remove(c, i as int);
                    lemma_size_nonneg(c.remove(i as int));
                }
                let e = self.entries.remove(i);
                proof {
                    assert(self.lines() =~= c.remove(i as int));
                    let n = self.lines();
                    assert forall|a: int, b: int| 0 <= a < b < n.len() implies #[trigger] n[a].0 != #[trigger] n[b].0 by {
                        let a2 = if a < i { a } else { a + 1 };
                        let b2 = if b < i { b } else { b + 1 };
                        assert(n[a] == c[a2]);
                        assert(n[b] == c[b2]);
                    }
                }
                self.total_size = self.total_size - e.2;
            },
            None => {},
        }
    }

    /// The hit and miss counts.
    pub fn counts(&self) -> (r: (u64, u64))
        ensures
            r == (self.hits_spec(), self.misses_spec()),
    {
        (self.hits, self.misses)
    }
}

} // verus!
