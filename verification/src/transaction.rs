//! Transactions: operations buffered until commit, then logged and applied.
use vstd::prelude::*;
use crate::entries::Entry;
use crate::error::Error;
use crate::memtable::{MemTable, size_after_put, size_after_delete, copy_bytes};
use crate::wal::{log_bytes, entry_record, encode_put, encode_delete, lemma_log_bytes_push};
use crate::codec::push_all;

verus! {

/// A buffered operation.
#[derive(Clone, Debug, PartialEq)]
pub enum Operation {
    Put(Vec<u8>, Vec<u8>),
    Delete(Vec<u8>),
}

impl View for Operation {
    type V = Entry;

    open spec fn view(&self) -> Entry {
        match self {
            Operation::Put(k, v) => (k@, Some(v@)),
            Operation::Delete(k) => (k@, None),
        }
    }
}

/// The abstract operations of a run of concrete ones.
pub open spec fn ops_view(s: Seq<Operation>) -> Seq<Entry> {
    s.map_values(|o: Operation| o@)
}

/// The entry of a map for a key, if any.
pub open spec fn entry_of(m: Map<Seq<u8>, Option<Seq<u8>>>, k: Seq<u8>) -> Option<Option<Seq<u8>>> {
    if m.contains_key(k) { Some(m[k]) } else { None }
}

/// A memtable's map and byte count after applying operations in order.
pub open spec fn apply_ops(m: Map<Seq<u8>, Option<Seq<u8>>>, size: int, ops: Seq<Entry>) -> (Map<Seq<u8>, Option<Seq<u8>>>, int)
    decreases ops.len(),
{
    if ops.len() == 0 {
        (m, size)
    } else {
        let (m1, s1) = apply_ops(m, size, ops.drop_last());
        let e = ops.last();
        match e.1 {
            Some(v) => (m1.insert(e.0, Some(v)), size_after_put(s1, entry_of(m1, e.0), e.0.len() as int, v.len() as int)),
            None => (m1.insert(e.0, None), size_after_delete(s1, entry_of(m1, e.0), e.0.len() as int)),
        }
    }
}

/// The keys that a sequence of operations touches.
pub open spec fn op_keys(ops: Seq<Entry>) -> Set<Seq<u8>> {
    Set::new(|k: Seq<u8>| exists|i: int| 0 <= i < ops.len() && #[trigger] ops[i].0 == k)
}

/// Applying puts and deletes to an empty memtable leaves one entry for each
/// key they touch, and no other.
pub proof fn lemma_apply_keys(ops: Seq<Entry>, size: int)
    ensures
        apply_ops(Map::empty(), size, ops).0.dom() == op_keys(ops),
        op_keys(ops).finite(),
    decreases ops.len(),
{
    if ops.len() == 0 {
        assert(op_keys(ops) =~= Set::<Seq<u8>>::empty());
    } else {
        let d = ops.drop_last();
        lemma_apply_keys(d, size);
        assert(op_keys(ops) =~= op_keys(d).insert(ops.last().0)) by {
            assert forall|k: Seq<u8>| op_keys(ops).contains(k) implies #[trigger] op_keys(d).insert(ops.last().0).contains(k) by {
                let i = choose|i: int| 0 <= i < ops.len() && #[trigger] ops[i].0 == k;
                if i < ops.len() - 1 {
                    assert(d[i] == ops[i]);
                }
            }
            assert forall|k: Seq<u8>| op_keys(d).insert(ops.last().0).contains(k) implies #[trigger] op_keys(ops).contains(k) by {
                if k != ops.last().0 {
                    let i = choose|i: int| 0 <= i < d.len() && #[trigger] d[i].0 == k;
                    assert(ops[i] == d[i]);
                } else {
                    assert(ops[ops.len() - 1].0 == k);
                }
            }
        }
    }
}

/// Every intermediate byte count of applying `ops` fits a `usize`.
pub open spec fn ops_fit(m: Map<Seq<u8>, Option<Seq<u8>>>, size: int, ops: Seq<Entry>) -> bool {
    forall|i: int| 0 <= i <= ops.len() ==> #[trigger] apply_ops(m, size, ops.take(i)).1 <= usize::MAX
}

/// Operations buffered for an atomic commit.
#[derive(Clone, Debug)]
pub struct Transaction {
    operations: Vec<Operation>,
    committed: bool,
}

impl Transaction {
    pub closed spec fn ops(&self) -> Seq<Entry> {
        ops_view(self.operations@)
    }

    pub closed spec fn committed_spec(&self) -> bool {
        self.committed
    }

    pub fn new() -> (t: Transaction)
        ensures
            t.ops() == Seq::<Entry>::empty(),
            !t.committed_spec(),
    {
        let t = Transaction { operations: Vec::new(), committed: false };
        assert(t.ops() =~= Seq::<Entry>::empty());
        t
    }

    pub fn put(&mut self, key: Vec<u8>, value: Vec<u8>)
        ensures
            final(self).ops() == old(self).ops().push((key@, Some(value@))),
            final(self).committed_spec() == old(self).committed_spec(),
    {
        let ghost k = key@;
        let ghost v = value@;
        self.operations.push(Operation::Put(key, value));
        assert(self.ops() =~= old(self).ops().push((k, Some(v))));
    }

    pub fn delete(&mut self, key: Vec<u8>)
        ensures
            final(self).ops() == old(self).ops().push((key@, None)),
            final(self).committed_spec() == old(self).committed_spec(),
    {
        let ghost k = key@;
        self.operations.push(Operation::Delete(key));
        assert(self.ops() =~= old(self).ops().push((k, None)));
    }

    pub fn commit(&mut self)
        ensures
            final(self).ops() == old(self).ops(),
            final(self).committed_spec(),
    {
        self.committed = true;
    }

    pub fn is_committed(&self) -> (r: bool)
        ensures
            r == self.committed_spec(),
    {
        self.committed
    }

    /// Drop the buffered operations.
    pub fn rollback(&mut self)
        ensures
            final(self).ops() == Seq::<Entry>::empty(),
            final(self).committed_spec() == old(self).committed_spec(),
    {
        self.operations.clear();
        assert(self.ops() =~= Seq::<Entry>::empty());
    }

    /// Apply the operations to a memtable, in order.
    pub fn apply_to_memtable(&self, memtable: &mut MemTable) -> (r: Result<(), Error>)
        requires
            old(memtable).wf(),
            ops_fit(old(memtable)@, old(memtable).size_spec() as int, self.ops()),
        ensures
            r is Ok,
            final(memtable).wf(),
            (final(memtable)@, final(memtable).size_spec() as int)
                == apply_ops(old(memtable)@, old(memtable).size_spec() as int, self.ops()),
    {
        let ghost m0 = memtable@;
        let ghost s0 = memtable.size_spec() as int;
        let ghost ops = self.ops();
        let mut i: usize = 0;
        proof {
            assert(ops.take(0) =~= Seq::<Entry>::empty());
        }
        while i < self.operations.len()
            invariant
                i <= self.operations@.len(),
                ops == self.ops(),
                ops.len() == self.operations@.len(),
                memtable.wf(),
                ops_fit(m0, s0, ops),
                (memtable@, memtable.size_spec() as int) == apply_ops(m0, s0, ops.take(i as int)),
            decreases self.operations@.len() - i,
        {
            proof {
                assert(ops.take(i + 1).drop_last() =~= ops.take(i as int));
                assert(ops[i as int] == self.operations@[i as int]@);
                assert(apply_ops(m0, s0, ops.take(i + 1)).1 <= usize::MAX);
            }
            match &self.operations[i] {
                Operation::Put(key, value) => memtable.put(copy_bytes(key.as_slice()), copy_bytes(value.as_slice())),
                Operation::Delete(key) => memtable.delete(copy_bytes(key.as_slice())),
            }
            i = i + 1;
        }
        proof {
            assert(ops.take(ops.len() as int) =~= ops);
        }
        Ok(())
    }

    /// Append the log records of the operations, in order, to the log's bytes.
    pub fn apply_to_wal(&self, wal: &mut Vec<u8>) -> (r: Result<(), Error>)
        ensures
            r is Ok,
            final(wal)@ == old(wal)@ + log_bytes(self.ops()),
    {
        let ghost ops = self.ops();
        let mut i: usize = 0;
        proof {
            assert(ops.take(0) =~= Seq::<Entry>::empty());
            assert(old(wal)@ + log_bytes(ops.take(0)) =~= old(wal)@);
        }
        while i < self.operations.len()
            invariant
                i <= self.operations@.len(),
                ops == self.ops(),
                ops.len() == self.operations@.len(),
                wal@ == old(wal)@ + log_bytes(ops.take(i as int)),
            decreases self.operations@.len() - i,
        {
            proof {
                assert(ops.take(i + 1) =~= ops.take(i as int).push(ops[i as int]));
                lemma_log_bytes_push(ops.take(i as int), ops[i as int]);
                assert(ops[i as int] == self.operations@[i as int]@);
            }
            let rec = match &self.operations[i] {
                Operation::Put(key, value) => encode_put(key.as_slice(), value.as_slice()),
                Operation::Delete(key) => encode_delete(key.as_slice()),
            };
            push_all(wal, rec.as_slice());
            proof {
                assert(wal@ =~= old(wal)@ + log_bytes(ops.take(i + 1)));
            }
            i = i + 1;
        }
        proof {
            assert(ops.take(ops.len() as int) =~= ops);
        }
        Ok(())
    }

    pub fn len(&self) -> (r: usize)
        ensures
            r == self.ops().len(),
    {
        self.operations.len()
    }

    pub fn is_empty(&self) -> (r: bool)
        ensures
            r == (self.ops().len() == 0),
    {
        self.operations.len() == 0
    }
}

impl Default for Transaction {
    fn default() -> (t: Transaction)
        ensures
            t.ops() == Seq::<Entry>::empty(),
            !t.committed_spec(),
    {
        Transaction::new()
    }
}

} // verus!

verus! {

/// Applying operations one run after another is applying them all.
pub proof fn lemma_apply_concat(m: Map<Seq<u8>, Option<Seq<u8>>>, size: int, a: Seq<Entry>, b: Seq<Entry>)
    ensures
        apply_ops(m, size, a + b) == apply_ops(apply_ops(m, size, a).0, apply_ops(m, size, a).1, b),
    decreases b.len(),
{
    if b.len() == 0 {
        assert(a + b =~= a);
    } else {
        lemma_apply_concat(m, size, a, b.drop_last());
        assert((a + b).drop_last() =~= a + b.drop_last());
        assert((a + b).last() == b.last());
    }
}

/// The map that applying operations gives does not depend on the byte count.
pub proof fn lemma_apply_map(m: Map<Seq<u8>, Option<Seq<u8>>>, s1: int, s2: int, ops: Seq<Entry>)
    ensures
        apply_ops(m, s1, ops).0 == apply_ops(m, s2, ops).0,
    decreases ops.len(),
{
    if ops.len() > 0 {
        lemma_apply_map(m, s1, s2, ops.drop_last());
    }
}

} // verus!

verus! {

/// The entries that operations leave on an empty table.
pub open spec fn overlay(ops: Seq<Entry>) -> Map<Seq<u8>, Option<Seq<u8>>> {
    apply_ops(Map::empty(), 0, ops).0
}

/// Applying operations to a table overwrites its entries with theirs.
pub proof fn lemma_apply_overlay(m: Map<Seq<u8>, Option<Seq<u8>>>, size: int, ops: Seq<Entry>)
    ensures
        apply_ops(m, size, ops).0 == m.union_prefer_right(overlay(ops)),
    decreases ops.len(),
{
    if ops.len() == 0 {
        assert(m.union_prefer_right(overlay(ops)) =~= m);
    } else {
        lemma_apply_overlay(m, size, ops.drop_last());
        let e = ops.last();
        assert(overlay(ops) == overlay(ops.drop_last()).insert(e.0, e.1));
        assert(apply_ops(m, size, ops).0 == apply_ops(m, size, ops.drop_last()).0.insert(e.0, e.1));
        assert(m.union_prefer_right(overlay(ops)) =~= m.union_prefer_right(overlay(ops.drop_last())).insert(e.0, e.1));
    }
}

/// The keys and values of the operations' entries are among the operations'.
pub proof fn lemma_overlay_from_ops(ops: Seq<Entry>, k: Seq<u8>)
    requires
        overlay(ops).contains_key(k),
    ensures
        exists|i: int| 0 <= i < ops.len() && (#[trigger] ops[i]).0 == k && ops[i].1 == overlay(ops)[k],
    decreases ops.len(),
{
    if ops.len() > 0 {
        let e = ops.last();
        assert(overlay(ops) == overlay(ops.drop_last()).insert(e.0, e.1));
        if e.0 == k {
            assert(ops[ops.len() - 1] == e);
        } else {
            lemma_overlay_from_ops(ops.drop_last(), k);
            let i = choose|i: int| 0 <= i < ops.drop_last().len() && (#[trigger] ops.drop_last()[i]).0 == k
                && ops.drop_last()[i].1 == overlay(ops.drop_last())[k];
            assert(ops[i] == ops.drop_last()[i]);
        }
    }
}

} // verus!

verus! {

/// Applying operations adds at most their weight to the byte count.
pub proof fn lemma_apply_size(m: Map<Seq<u8>, Option<Seq<u8>>>, size: int, ops: Seq<Entry>)
    requires
        size >= 0,
    ensures
        0 <= apply_ops(m, size, ops).1 <= size + crate::wal::ops_weight(ops),
    decreases ops.len(),
{
    if ops.len() > 0 {
        lemma_apply_size(m, size, ops.drop_last());
    }
}

/// Operations whose weight fits a `usize` can be applied to an empty table.
pub proof fn lemma_ops_fit_empty(ops: Seq<Entry>)
    requires
        crate::wal::ops_weight(ops) <= usize::MAX,
    ensures
        ops_fit(Map::empty(), 0, ops),
{
    assert forall|i: int| 0 <= i <= ops.len() implies #[trigger] apply_ops(Map::empty(), 0, ops.take(i)).1 <= usize::MAX by {
        lemma_apply_size(Map::empty(), 0, ops.take(i));
        lemma_weight_prefix(ops, i);
    }
}

proof fn lemma_weight_prefix(ops: Seq<Entry>, i: int)
    requires
        0 <= i <= ops.len(),
    ensures
        crate::wal::ops_weight(ops.take(i)) <= crate::wal::ops_weight(ops),
    decreases ops.len() - i,
{
    if i < ops.len() {
        lemma_weight_prefix(ops, i + 1);
        assert(ops.take(i + 1).drop_last() =~= ops.take(i));
    } else {
        assert(ops.take(i) =~= ops);
    }
}

} // verus!
