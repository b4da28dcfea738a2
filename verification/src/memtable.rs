//! The in-memory write buffer: a sorted run of the latest entry per key.
use vstd::prelude::*;
use crate::order::{lex_lt, lemma_lex_order_facts, compare_bytes, bytes_eq};
use crate::entries::{Entry, keys_sorted, has_key, key_pos, entries_map, run_keys, lemma_sorted_lookup};
use crate::transaction::{apply_ops, overlay, op_keys, lemma_apply_keys};

verus! {

/// A value in the MemTable: a live value or a tombstone (deletion marker).
#[derive(Clone, Debug, PartialEq, Eq)]
pub enum Value {
    Data(Vec<u8>),
    Tombstone,
}

impl View for Value {
    type V = Option<Seq<u8>>;

    open spec fn view(&self) -> Option<Seq<u8>> {
        match self {
            Value::Data(d) => Some(d@),
            Value::Tombstone => None,
        }
    }
}

/// The abstract view of a run of concrete entries.
pub open spec fn entries_view(s: Seq<(Vec<u8>, Value)>) -> Seq<Entry> {
    s.map_values(|e: (Vec<u8>, Value)| (e.0@, e.1@))
}

/// A copy of a byte vector.
pub fn copy_bytes(v: &[u8]) -> (r: Vec<u8>)
    ensures
        r@ == v@,
{
    let mut r: Vec<u8> = Vec::with_capacity(v.len());
    let mut i: usize = 0;
    while i < v.len()
        invariant
            i <= v.len(),
            r@ =~= v@.subrange(0, i as int),
        decreases v.len() - i,
    {
        r.push(v[i]);
        i = i + 1;
    }
    r
}

impl Value {
    /// A copy of this value.
    pub fn duplicate(&self) -> (r: Value)
        ensures
            r@ == self@,
    {
        match self {
            Value::Data(d) => Value::Data(copy_bytes(d.as_slice())),
            Value::Tombstone => Value::Tombstone,
        }
    }

    /// Whether this value is a tombstone.
    pub fn is_tombstone(&self) -> (r: bool)
        ensures
            r == (self@ is None),
    {
        match self {
            Value::Data(_) => false,
            Value::Tombstone => true,
        }
    }
}

/// A copy of a run of entries.
pub fn copy_entries(s: &[(Vec<u8>, Value)]) -> (r: Vec<(Vec<u8>, Value)>)
    ensures
        entries_view(r@) == entries_view(s@),
{
    let mut r: Vec<(Vec<u8>, Value)> = Vec::with_capacity(s.len());
    let mut i: usize = 0;
    while i < s.len()
        invariant
            i <= s.len(),
            entries_view(r@) =~= entries_view(s@).subrange(0, i as int),
        decreases s.len() - i,
    {
        let e = (copy_bytes(s[i].0.as_slice()), s[i].1.duplicate());
        let ghost r0 = r@;
        r.push(e);
        proof {
            assert(entries_view(r@) =~= entries_view(r0).push((e.0@, e.1@)));
            assert(entries_view(s@).subrange(0, i + 1) =~= entries_view(s@).subrange(0, i as int).push(entries_view(s@)[i as int]));
        }
        i = i + 1;
    }
    r
}

/// `a` less `b`, stopping at zero.
pub open spec fn sat_sub(a: int, b: int) -> int {
    if a >= b { a - b } else { 0 }
}

/// The byte count after `put(k, v)` on a table whose count was `size` and whose
/// entry for `k` was `old`.
pub open spec fn size_after_put(size: int, old: Option<Option<Seq<u8>>>, klen: int, vlen: int) -> int {
    match old {
        Some(Some(ov)) => sat_sub(size, ov.len() as int) + klen + vlen,
        _ => size + klen + vlen,
    }
}

/// The byte count after `delete(k)`: a tombstone costs the key and one byte,
/// and deleting an existing tombstone changes nothing.
pub open spec fn size_after_delete(size: int, old: Option<Option<Seq<u8>>>, klen: int) -> int {
    match old {
        Some(Some(ov)) => sat_sub(size, ov.len() as int) + klen + 1,
        Some(None) => size,
        None => size + klen + 1,
    }
}

/// The in-memory write buffer, sorted by key.  When its byte count reaches the
/// configured limit it is flushed to an SSTable.
///
/// The entries are a vector kept sorted by key (found by binary search) in
/// place of an ordered map: vstd describes a `BTreeMap`'s contents only for
/// keys whose order it knows, which byte-string keys are not, while the
/// order, lookups and updates of the sorted vector are all proved here.
pub struct MemTable {
    map: Vec<(Vec<u8>, Value)>,
    size_bytes: usize,
}

impl View for MemTable {
    type V = Map<Seq<u8>, Option<Seq<u8>>>;

    closed spec fn view(&self) -> Map<Seq<u8>, Option<Seq<u8>>> {
        entries_map(entries_view(self.map@))
    }
}

impl MemTable {
    /// The entries in key order.
    pub closed spec fn entries(&self) -> Seq<Entry> {
        entries_view(self.map@)
    }

    /// The tracked byte count.
    pub closed spec fn size_spec(&self) -> nat {
        self.size_bytes as nat
    }

    /// Entries are sorted by key with no key twice.
    pub closed spec fn wf(&self) -> bool {
        keys_sorted(entries_view(self.map@))
    }

    /// The map is what the sorted entries denote.
    pub proof fn lemma_view(&self)
        requires
            self.wf(),
        ensures
            self@ == entries_map(self.entries()),
            keys_sorted(self.entries()),
            self@.dom().finite(),
            self@.len() == self.entries().len(),
    {
        self.lemma_view_len();
    }

    proof fn lemma_view_len(&self)
        requires
            self.wf(),
        ensures
            self@.dom().finite(),
            self@.len() == self.entries().len(),
    {
        let s = self.entries();
        lemma_dom_is_keys(s);
        lemma_lex_order_facts();
        assert(run_keys(s).no_duplicates()) by {
            assert forall|i: int, j: int| 0 <= i < run_keys(s).len() && 0 <= j < run_keys(s).len() && i != j
                implies run_keys(s)[i] != run_keys(s)[j] by {
                if i < j {
                    assert(lex_lt(s[i].0, s[j].0));
                } else {
                    assert(lex_lt(s[j].0, s[i].0));
                }
            }
        }
        run_keys(s).unique_seq_to_set();
    }

    /// An empty table.
    pub fn new() -> (m: MemTable)
        ensures
            m.wf(),
            m@ == Map::<Seq<u8>, Option<Seq<u8>>>::empty(),
            m.entries() == Seq::<Entry>::empty(),
            m.size_spec() == 0,
    {
        let m = MemTable { map: Vec::new(), size_bytes: 0 };
        assert(m@ =~= Map::<Seq<u8>, Option<Seq<u8>>>::empty());
        assert(m.entries() =~= Seq::<Entry>::empty());
        m
    }

    /// Binary search: the first position whose key is not before `key`, and
    /// whether the key there is `key`.
    fn find(&self, key: &[u8]) -> (r: (usize, bool))
        requires
            self.wf(),
        ensures
            r.0 <= self.entries().len(),
            forall|j: int| 0 <= j < r.0 ==> lex_lt(#[trigger] self.entries()[j].0, key@),
            forall|j: int| r.0 <= j < self.entries().len() ==> !lex_lt(#[trigger] self.entries()[j].0, key@),
            r.1 == (r.0 < self.entries().len() && self.entries()[r.0 as int].0 == key@),
    {
        let ghost s = self.entries();
        proof {
            lemma_lex_order_facts();
        }
        let mut lo: usize = 0;
        let mut hi: usize = self.map.len();
        while lo < hi
            invariant
                s == self.entries(),
                keys_sorted(s),
                hi <= s.len(),
                lo <= hi,
                forall|j: int| 0 <= j < lo ==> lex_lt(#[trigger] s[j].0, key@),
                forall|j: int| hi <= j < s.len() ==> !lex_lt(#[trigger] s[j].0, key@),
            decreases hi - lo,
        {
            let mid = lo + (hi - lo) / 2;
            let c = compare_bytes(self.map[mid].0.as_slice(), key);
            proof {
                assert(s[mid as int].0 == self.map@[mid as int].0@);
            }
            if c == -1 {
                proof {
                    lemma_lex_order_facts();
                    assert(lex_lt(s[mid as int].0, key@));
                    assert forall|j: int| 0 <= j < mid + 1 implies lex_lt(#[trigger] s[j].0, key@) by {
                        if j < mid {
                            assert(lex_lt(s[j].0, s[mid as int].0));
                        }
                    }
                }
                lo = mid + 1;
            } else {
                proof {
                    lemma_lex_order_facts();
                    assert(!lex_lt(s[mid as int].0, key@));
                    assert forall|j: int| mid <= j < s.len() implies !lex_lt(#[trigger] s[j].0, key@) by {
                        if j > mid {
                            assert(lex_lt(s[mid as int].0, s[j].0));
                        }
                    }
                }
                hi = mid;
            }
        }
        if lo < self.map.len() {
            let eq = bytes_eq(self.map[lo].0.as_slice(), key);
            proof {
                assert(s[lo as int].0 == self.map@[lo as int].0@);
            }
            (lo, eq)
        } else {
            (lo, false)
        }
    }

    /// Insert or update a key.
    pub fn put(&mut self, key: Vec<u8>, value: Vec<u8>)
        requires
            old(self).wf(),
            size_after_put(
                old(self).size_spec() as int,
                if old(self)@.contains_key(key@) { Some(old(self)@[key@]) } else { None },
                key@.len() as int,
                value@.len() as int,
            ) <= usize::MAX,
        ensures
            final(self).wf(),
            final(self)@ == old(self)@.insert(key@, Some(value@)),
            final(self).size_spec() == size_after_put(
                old(self).size_spec() as int,
                if old(self)@.contains_key(key@) { Some(old(self)@[key@]) } else { None },
                key@.len() as int,
                value@.len() as int,
            ),
    {
        let ghost s = self.entries();
        let ghost k = key@;
        let (i, found) = self.find(key.as_slice());
        proof {
            lemma_lex_order_facts();
            if found {
                lemma_sorted_lookup(s, i as int);
            } else {
                assert(!entries_map(s).contains_key(k)) by {
                    if has_key(s, k) {
                        let j = key_pos(s, k);
                        if j < i {
                            assert(lex_lt(s[j].0, k));
                        } else {
                            assert(!lex_lt(s[j].0, k));
                            if j > i {
                                assert(lex_lt(s[i as int].0, s[j].0));
                            }
                        }
                    }
                }
            }
        }
        let delta = key.len() + value.len();
        let ghost v = value@;
        if found {
            let old_len: Option<usize> = match &self.map[i].1 {
                Value::Data(d) => Some(d.len()),
                Value::Tombstone => None,
            };
            self.map.set(i, (key, Value::Data(value)));
            match old_len {
                Some(n) => {
                    self.size_bytes = self.size_bytes.saturating_sub(n);
                },
                None => {},
            }
            proof {
                let t = self.entries();
                assert(t =~= s.update(i as int, (k, Some(v))));
                assert(keys_sorted(t)) by {
                    assert forall|a: int, b: int| 0 <= a < b < t.len() implies lex_lt(#[trigger] t[a].0, #[trigger] t[b].0) by {
                        assert(t[a].0 == s[a].0);
                        assert(t[b].0 == s[b].0);
                    }
                }
                assert(self@ =~= old(self)@.insert(k, Some(v))) by {
                    assert forall|kk: Seq<u8>| #[trigger] self@.contains_key(kk) <==> old(self)@.insert(k, Some(v)).contains_key(kk) by {
                        if has_key(t, kk) {
                            let j = key_pos(t, kk);
                            assert(has_key(s, kk) || kk == k) by {
                                if j != i { assert(s[j].0 == kk); }
                            }
                        }
                        if has_key(s, kk) {
                            let j = key_pos(s, kk);
                            assert(t[j].0 == kk);
                        }
                    }
                    assert forall|kk: Seq<u8>| #[trigger] self@.contains_key(kk) implies self@[kk] == old(self)@.insert(k, Some(v))[kk] by {
                        let j = key_pos(t, kk);
                        lemma_sorted_lookup(t, j);
                        if j != i {
                            assert(s[j] == t[j]);
                            lemma_sorted_lookup(s, j);
                        }
                    }
                }
            }
        } else {
            self.map.insert(i, (key, Value::Data(value)));
            proof {
                let t = self.entries();
                assert(t =~= s.insert(i as int, (k, Some(v))));
                assert(keys_sorted(t)) by {
                    assert forall|a: int, b: int| 0 <= a < b < t.len() implies lex_lt(#[trigger] t[a].0, #[trigger] t[b].0) by {
                        if b < i {
                            assert(t[a] == s[a] && t[b] == s[b]);
                        } else if b == i {
                            assert(t[a] == s[a]);
                        } else if a < i {
                            assert(t[a] == s[a] && t[b] == s[b - 1]);
                            assert(!lex_lt(s[b - 1].0, k));
                            assert(lex_lt(s[a].0, k));
                        } else if a == i {
                            assert(t[b] == s[b - 1]);
                            assert(!lex_lt(s[b - 1].0, k));
                            assert(s[b - 1].0 != k) by {
                                if s[b - 1].0 == k {
                                    assert(b - 1 == i);
                                }
                            }
                        } else {
                            assert(t[a] == s[a - 1] && t[b] == s[b - 1]);
                        }
                    }
                }
                assert(self@ =~= old(self)@.insert(k, Some(v))) by {
                    assert forall|kk: Seq<u8>| #[trigger] self@.contains_key(kk) <==> old(self)@.insert(k, Some(v)).contains_key(kk) by {
                        if has_key(t, kk) {
                            let j = key_pos(t, kk);
                            if j < i { assert(s[j].0 == kk); }
                            else if j > i { assert(s[j - 1].0 == kk); }
                        }
                        if has_key(s, kk) {
                            let j = key_pos(s, kk);
                            if j < i { assert(t[j].0 == kk); }
                            else { assert(t[j + 1].0 == kk); }
                        }
                        assert(t[i as int].0 == k);
                    }
                    assert forall|kk: Seq<u8>| #[trigger] self@.contains_key(kk) implies self@[kk] == old(self)@.insert(k, Some(v))[kk] by {
                        let j = key_pos(t, kk);
                        lemma_sorted_lookup(t, j);
                        if j < i {
                            assert(s[j] == t[j]);
                            lemma_sorted_lookup(s, j);
                        } else if j > i {
                            assert(s[j - 1] == t[j]);
                            lemma_sorted_lookup(s, j - 1);
                        }
                    }
                }
            }
        }
        self.size_bytes = self.size_bytes + delta;
    }

    /// Mark a key as deleted (tombstone).
    pub fn delete(&mut self, key: Vec<u8>)
        requires
            old(self).wf(),
            size_after_delete(
                old(self).size_spec() as int,
                if old(self)@.contains_key(key@) { Some(old(self)@[key@]) } else { None },
                key@.len() as int,
            ) <= usize::MAX,
        ensures
            final(self).wf(),
            final(self)@ == old(self)@.insert(key@, None),
            final(self).size_spec() == size_after_delete(
                old(self).size_spec() as int,
                if old(self)@.contains_key(key@) { Some(old(self)@[key@]) } else { None },
                key@.len() as int,
            ),
    {
        let ghost s = self.entries();
        let ghost k = key@;
        let key_len = key.len();
        let (i, found) = self.find(key.as_slice());
        proof {
            lemma_lex_order_facts();
            if found {
                lemma_sorted_lookup(s, i as int);
            } else {
                assert(!entries_map(s).contains_key(k)) by {
                    if has_key(s, k) {
                        let j = key_pos(s, k);
                        if j < i {
                            assert(lex_lt(s[j].0, k));
                        } else {
                            assert(!lex_lt(s[j].0, k));
                            if j > i {
                                assert(lex_lt(s[i as int].0, s[j].0));
                            }
                        }
                    }
                }
            }
        }
        if found {
            let old_len: Option<usize> = match &self.map[i].1 {
                Value::Data(d) => Some(d.len()),
                Value::Tombstone => None,
            };
            self.map.set(i, (key, Value::Tombstone));
            proof {
                let t = self.entries();
                assert(t =~= s.update(i as int, (k, None)));
                assert(keys_sorted(t)) by {
                    assert forall|a: int, b: int| 0 <= a < b < t.len() implies lex_lt(#[trigger] t[a].0, #[trigger] t[b].0) by {
                        assert(t[a].0 == s[a].0);
                        assert(t[b].0 == s[b].0);
                    }
                }
                assert(self@ =~= old(self)@.insert(k, None)) by {
                    assert forall|kk: Seq<u8>| #[trigger] self@.contains_key(kk) <==> old(self)@.insert(k, None).contains_key(kk) by {
                        if has_key(t, kk) {
                            let j = key_pos(t, kk);
                            assert(has_key(s, kk) || kk == k) by {
                                if j != i { assert(s[j].0 == kk); }
                            }
                        }
                        if has_key(s, kk) {
                            let j = key_pos(s, kk);
                            assert(t[j].0 == kk);
                        }
                    }
                    assert forall|kk: Seq<u8>| #[trigger] self@.contains_key(kk) implies self@[kk] == old(self)@.insert(k, None)[kk] by {
                        let j = key_pos(t, kk);
                        lemma_sorted_lookup(t, j);
                        if j != i {
                            assert(s[j] == t[j]);
                            lemma_sorted_lookup(s, j);
                        }
                    }
                }
            }
            match old_len {
                Some(n) => {
                    self.size_bytes = self.size_bytes.saturating_sub(n);
                },
                None => {
                    return;
                },
            }
        } else {
            self.map.insert(i, (key, Value::Tombstone));
            proof {
                let t = self.entries();
                assert(t =~= s.insert(i as int, (k, None)));
                assert(keys_sorted(t)) by {
                    assert forall|a: int, b: int| 0 <= a < b < t.len() implies lex_lt(#[trigger] t[a].0, #[trigger] t[b].0) by {
                        if b < i {
                            assert(t[a] == s[a] && t[b] == s[b]);
                        } else if b == i {
                            assert(t[a] == s[a]);
                        } else if a < i {
                            assert(t[a] == s[a] && t[b] == s[b - 1]);
                            assert(!lex_lt(s[b - 1].0, k));
                            assert(lex_lt(s[a].0, k));
                        } else if a == i {
                            assert(t[b] == s[b - 1]);
                            assert(!lex_lt(s[b - 1].0, k));
                            assert(s[b - 1].0 != k) by {
                                if s[b - 1].0 == k {
                                    assert(b - 1 == i);
                                }
                            }
                        } else {
                            assert(t[a] == s[a - 1] && t[b] == s[b - 1]);
                        }
                    }
                }
                assert(self@ =~= old(self)@.insert(k, None)) by {
                    assert forall|kk: Seq<u8>| #[trigger] self@.contains_key(kk) <==> old(self)@.insert(k, None).contains_key(kk) by {
                        if has_key(t, kk) {
                            let j = key_pos(t, kk);
                            if j < i { assert(s[j].0 == kk); }
                            else if j > i { assert(s[j - 1].0 == kk); }
                        }
                        if has_key(s, kk) {
                            let j = key_pos(s, kk);
                            if j < i { assert(t[j].0 == kk); }
                            else { assert(t[j + 1].0 == kk); }
                        }
                        assert(t[i as int].0 == k);
                    }
                    assert forall|kk: Seq<u8>| #[trigger] self@.contains_key(kk) implies self@[kk] == old(self)@.insert(k, None)[kk] by {
                        let j = key_pos(t, kk);
                        lemma_sorted_lookup(t, j);
                        if j < i {
                            assert(s[j] == t[j]);
                            lemma_sorted_lookup(s, j);
                        } else if j > i {
                            assert(s[j - 1] == t[j]);
                            lemma_sorted_lookup(s, j - 1);
                        }
                    }
                }
            }
        }
        self.size_bytes = self.size_bytes + (key_len + 1);
    }

    /// The entry for a key, if this table holds one.
    pub fn get(&self, key: &[u8]) -> (r: Option<&Value>)
        requires
            self.wf(),
        ensures
            match r {
                Some(v) => self@.contains_key(key@) && self@[key@] == v@,
                None => !self@.contains_key(key@),
            },
    {
        let ghost s = self.entries();
        let (i, found) = self.find(key);
        proof {
            lemma_lex_order_facts();
            if found {
                lemma_sorted_lookup(s, i as int);
            } else {
                if has_key(s, key@) {
                    let j = key_pos(s, key@);
                    if j < i {
                        assert(lex_lt(s[j].0, key@));
                    } else if j > i {
                        assert(lex_lt(s[i as int].0, s[j].0));
                    }
                }
            }
        }
        if found {
            Some(&self.map[i].1)
        } else {
            None
        }
    }

    /// The tracked byte count.
    pub fn size_bytes(&self) -> (r: usize)
        ensures
            r == self.size_spec(),
    {
        self.size_bytes
    }

    /// The number of keys held.
    pub fn len(&self) -> (r: usize)
        requires
            self.wf(),
        ensures
            r == self@.len(),
            r == self.entries().len(),
    {
        proof {
            self.lemma_view_len();
        }
        self.map.len()
    }

    /// Whether no key is held.
    pub fn is_empty(&self) -> (r: bool)
        requires
            self.wf(),
        ensures
            r == (self@.len() == 0),
            r == (self.entries().len() == 0),
    {
        proof {
            self.lemma_view_len();
        }
        self.map.len() == 0
    }

    /// The entries in sorted key order.
    pub fn iter(&self) -> (r: &Vec<(Vec<u8>, Value)>)
        ensures
            entries_view(r@) == self.entries(),
    {
        &self.map
    }

    /// Take all entries in sorted order for flushing, leaving the table empty.
    pub fn drain_sorted(&mut self) -> (r: Vec<(Vec<u8>, Value)>)
        requires
            old(self).wf(),
        ensures
            entries_view(r@) == old(self).entries(),
            final(self).wf(),
            final(self)@ == Map::<Seq<u8>, Option<Seq<u8>>>::empty(),
            final(self).entries() == Seq::<Entry>::empty(),
            final(self).size_spec() == 0,
    {
        let mut entries: Vec<(Vec<u8>, Value)> = Vec::new();
        std::mem::swap(&mut entries, &mut self.map);
        self.size_bytes = 0;
        assert(self@ =~= Map::<Seq<u8>, Option<Seq<u8>>>::empty());
        assert(self.entries() =~= Seq::<Entry>::empty());
        entries
    }
}

/// The keys of a run form its map's domain.
pub proof fn lemma_dom_is_keys(s: Seq<Entry>)
    ensures
        entries_map(s).dom() == run_keys(s).to_set(),
{
    assert forall|k: Seq<u8>| entries_map(s).dom().contains(k) <==> #[trigger] run_keys(s).to_set().contains(k) by {
        if has_key(s, k) {
            let j = key_pos(s, k);
            assert(run_keys(s)[j] == k);
        }
        if run_keys(s).contains(k) {
            let j = choose|j: int| 0 <= j < run_keys(s).len() && run_keys(s)[j] == k;
            assert(s[j].0 == k);
        }
    }
    assert(entries_map(s).dom() =~= run_keys(s).to_set());
}

impl Default for MemTable {
    fn default() -> (m: MemTable)
        ensures
            m.wf(),
            m@ == Map::<Seq<u8>, Option<Seq<u8>>>::empty(),
            m.size_spec() == 0,
    {
        MemTable::new()
    }
}

/// One call on a memtable, as its contract states it on the map: `put` or
/// `delete` of entry `e` (`Some(e)`: a value, or `None` for a tombstone), or
/// `drain_sorted` (`None`).
pub open spec fn mem_step(a: Map<Seq<u8>, Option<Seq<u8>>>, b: Map<Seq<u8>, Option<Seq<u8>>>, op: Option<Entry>) -> bool {
    match op {
        Some(e) => b == a.insert(e.0, e.1),
        None => b == Map::<Seq<u8>, Option<Seq<u8>>>::empty(),
    }
}

/// The puts and deletes since the last drain, in order.
pub open spec fn since_drain(ops: Seq<Option<Entry>>) -> Seq<Entry>
    decreases ops.len(),
{
    if ops.len() == 0 {
        Seq::empty()
    } else {
        match ops.last() {
            Some(e) => since_drain(ops.drop_last()).push(e),
            None => Seq::empty(),
        }
    }
}

/// Along calls `ops` on a memtable that started empty (`ms[i]` before call
/// `i`), the memtable holds one entry for each key put or deleted since the
/// last drain and no other, so its length (which `len` returns, and which
/// `is_empty` compares with 0) is the number of those keys: overwriting a key
/// adds nothing, and deleting a key it did not hold adds a tombstone.
pub proof fn lemma_len_law(ms: Seq<MemTable>, ops: Seq<Option<Entry>>)
    requires
        ms.len() == ops.len() + 1,
        ms[0]@ == Map::<Seq<u8>, Option<Seq<u8>>>::empty(),
        forall|i: int| 0 <= i < ops.len() ==> mem_step(ms[i]@, ms[i + 1]@, #[trigger] ops[i]),
    ensures
        ms.last()@ == overlay(since_drain(ops)),
        ms.last()@.dom() == op_keys(since_drain(ops)),
        ms.last()@.len() == op_keys(since_drain(ops)).len(),
    decreases ops.len(),
{
    lemma_apply_keys(since_drain(ops), 0);
    if ops.len() == 0 {
        assert(overlay(Seq::<Entry>::empty()) == Map::<Seq<u8>, Option<Seq<u8>>>::empty());
    } else {
        let n = ops.len() - 1;
        let d = ms.drop_last();
        let o = ops.drop_last();
        assert forall|i: int| 0 <= i < o.len() implies mem_step(d[i]@, d[i + 1]@, #[trigger] o[i]) by {
            assert(mem_step(ms[i]@, ms[i + 1]@, ops[i]));
        }
        lemma_len_law(d, o);
        assert(mem_step(ms[n]@, ms[n + 1]@, ops[n]));
        assert(d.last() == ms[n]);
        match ops.last() {
            Some(e) => {
                let p = since_drain(o);
                assert(since_drain(ops) == p.push(e));
                assert(p.push(e).drop_last() =~= p);
                assert(p.push(e).last() == e);
                match e.1 {
                    Some(v) => {},
                    None => {},
                }
                assert(overlay(p.push(e)) == overlay(p).insert(e.0, e.1));
            },
            None => {
                assert(overlay(Seq::<Entry>::empty()) == Map::<Seq<u8>, Option<Seq<u8>>>::empty());
            },
        }
    }
}

} // verus!
