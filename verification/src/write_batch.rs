//! Batches of writes, which the store applies as one, and what they do to it.

use crate::key::Key;
use crate::merge_operator::merged_value;
use crate::term::copy_bytes;
use vstd::prelude::*;

verus! {

/// One write, as byte strings.
pub enum OpModel {
    Put { key: Seq<u8>, value: Seq<u8> },
    Merge { key: Seq<u8>, value: Seq<u8> },
    Delete { key: Seq<u8> },
}

/// One write to the store.
#[derive(Debug, PartialEq, Eq)]
pub enum WriteOp {
    /// Sets the value of the key.
    Put { key: Vec<u8>, value: Vec<u8> },
    /// Merges the operand into the value of the key.
    Merge { key: Vec<u8>, value: Vec<u8> },
    /// Removes the key.
    Delete { key: Vec<u8> },
}

impl View for WriteOp {
    type V = OpModel;

    open spec fn view(&self) -> OpModel {
        match *self {
            WriteOp::Put { key, value } => OpModel::Put { key: key@, value: value@ },
            WriteOp::Merge { key, value } => OpModel::Merge { key: key@, value: value@ },
            WriteOp::Delete { key } => OpModel::Delete { key: key@ },
        }
    }
}

/// The contents of a store: the value of each key that is present.
pub type StoreModel = Map<Seq<u8>, Seq<u8>>;

/// The value of a key, if the key is present.
pub open spec fn stored(store: StoreModel, key: Seq<u8>) -> Option<Seq<u8>> {
    if store.contains_key(key) {
        Some(store[key])
    } else {
        None
    }
}

/// The store after one write. A merge that yields no value leaves the store as it is.
pub open spec fn apply_op(store: StoreModel, op: OpModel) -> StoreModel {
    match op {
        OpModel::Put { key, value } => store.insert(key, value),
        OpModel::Delete { key } => store.remove(key),
        OpModel::Merge { key, value } => match merged_value(key, stored(store, key), seq![value]) {
            Some(merged) => store.insert(key, merged),
            None => store,
        },
    }
}

/// The store after the writes of a batch, first to last.
pub open spec fn apply_batch(store: StoreModel, ops: Seq<OpModel>) -> StoreModel
    decreases ops.len(),
{
    if ops.len() == 0 {
        store
    } else {
        apply_op(apply_batch(store, ops.drop_last()), ops.last())
    }
}

/// Applying two batches one after the other is applying the two as one.
pub proof fn lemma_apply_concat(store: StoreModel, first: Seq<OpModel>, second: Seq<OpModel>)
    ensures
        apply_batch(store, first + second) == apply_batch(apply_batch(store, first), second),
    decreases second.len(),
{
    if second.len() == 0 {
        assert(first + second =~= first);
    } else {
        assert((first + second).drop_last() =~= first + second.drop_last());
        assert((first + second).last() == second.last());
        lemma_apply_concat(store, first, second.drop_last());
    }
}

/// Applying a batch with one more write is applying the batch, then the write.
pub proof fn lemma_apply_push(store: StoreModel, ops: Seq<OpModel>, op: OpModel)
    ensures
        apply_batch(store, ops.push(op)) == apply_op(apply_batch(store, ops), op),
{
    assert(ops.push(op).drop_last() =~= ops);
}

/// The key that a write is about.
pub open spec fn op_key(op: OpModel) -> Seq<u8> {
    match op {
        OpModel::Put { key, .. } => key,
        OpModel::Merge { key, .. } => key,
        OpModel::Delete { key } => key,
    }
}

/// One of the writes is about the key.
pub open spec fn touches(ops: Seq<OpModel>, key: Seq<u8>) -> bool {
    exists|i: int| 0 <= i < ops.len() && op_key(#[trigger] ops[i]) == key
}

/// Every write is about a key of one of two families.
pub open spec fn within_families(ops: Seq<OpModel>, first: u8, second: u8) -> bool {
    forall|i: int|
        0 <= i < ops.len() ==> op_key(#[trigger] ops[i]).len() > 0 && (op_key(ops[i])[0] == first
            || op_key(ops[i])[0] == second)
}

/// Writes about keys of other families are not about the key.
pub proof fn lemma_other_families(ops: Seq<OpModel>, first: u8, second: u8, key: Seq<u8>)
    requires
        within_families(ops, first, second),
        key.len() > 0,
        key[0] != first,
        key[0] != second,
    ensures
        !touches(ops, key),
{
    if touches(ops, key) {
        let i = choose|i: int| 0 <= i < ops.len() && op_key(#[trigger] ops[i]) == key;
        assert(op_key(ops[i])[0] == key[0]);
    }
}

/// Writes of which none is about the key, one after the other, are not about it.
pub proof fn lemma_touches_concat(first: Seq<OpModel>, second: Seq<OpModel>, key: Seq<u8>)
    ensures
        touches(first + second, key) == (touches(first, key) || touches(second, key)),
{
    let all = first + second;
    if touches(all, key) {
        let i = choose|i: int| 0 <= i < all.len() && op_key(#[trigger] all[i]) == key;
        if i < first.len() {
            assert(op_key(first[i]) == key);
        } else {
            assert(op_key(second[i - first.len()]) == key);
        }
    }
    if touches(first, key) {
        let i = choose|i: int| 0 <= i < first.len() && op_key(#[trigger] first[i]) == key;
        assert(op_key(all[i]) == key);
    }
    if touches(second, key) {
        let i = choose|i: int| 0 <= i < second.len() && op_key(#[trigger] second[i]) == key;
        assert(op_key(all[first.len() + i]) == key);
    }
}

/// A batch leaves alone every key that none of its writes is about.
pub proof fn lemma_apply_untouched(store: StoreModel, ops: Seq<OpModel>, key: Seq<u8>)
    requires
        !touches(ops, key),
    ensures
        stored(apply_batch(store, ops), key) == stored(store, key),
    decreases ops.len(),
{
    if ops.len() > 0 {
        let before = ops.drop_last();
        assert(op_key(ops[ops.len() - 1]) != key);
        if touches(before, key) {
            let i = choose|i: int| 0 <= i < before.len() && op_key(#[trigger] before[i]) == key;
            assert(op_key(ops[i]) == key);
        }
        lemma_apply_untouched(store, before, key);
    }
}

/// After a batch, a key has the value that the last write about it put.
pub proof fn lemma_apply_last_put(
    store: StoreModel,
    before: Seq<OpModel>,
    key: Seq<u8>,
    value: Seq<u8>,
    after: Seq<OpModel>,
)
    requires
        !touches(after, key),
    ensures
        stored(apply_batch(store, before + seq![OpModel::Put { key, value }] + after), key)
            == Some(value),
{
    let put = OpModel::Put { key, value };
    lemma_apply_concat(store, before + seq![put], after);
    lemma_apply_untouched(apply_batch(store, before + seq![put]), after, key);
    assert((before + seq![put]).drop_last() =~= before);
}

/// Writes to be applied to the store as one: all of them or none.
#[derive(Debug, PartialEq, Eq)]
pub struct WriteBatch {
    pub ops: Vec<WriteOp>,
}

impl View for WriteBatch {
    type V = Seq<OpModel>;

    open spec fn view(&self) -> Seq<OpModel> {
        Seq::new(self.ops@.len(), |i: int| self.ops@[i]@)
    }
}

impl WriteBatch {
    /// A batch of no writes.
    pub fn new() -> (batch: WriteBatch)
        ensures
            batch@ == Seq::<OpModel>::empty(),
    {
        let batch = WriteBatch { ops: Vec::new() };
        assert(batch@ =~= Seq::<OpModel>::empty());
        batch
    }

    /// The number of writes.
    pub fn len(&self) -> (n: usize)
        ensures
            n == self@.len(),
    {
        self.ops.len()
    }

    /// Appends a write that sets the value of `key`.
    pub fn put(&mut self, key: &Key, value: &[u8])
        ensures
            final(self)@ == old(self)@.push(
                OpModel::Put { key: key@.encoding(), value: value@ },
            ),
    {
        self.ops.push(WriteOp::Put { key: key.to_bytes(), value: copy_bytes(value) });
        assert(self@ =~= old(self)@.push(OpModel::Put { key: key@.encoding(), value: value@ }));
    }

    /// Appends a write that merges `value` into the value of `key`.
    pub fn merge(&mut self, key: &Key, value: &[u8])
        ensures
            final(self)@ == old(self)@.push(
                OpModel::Merge { key: key@.encoding(), value: value@ },
            ),
    {
        self.ops.push(WriteOp::Merge { key: key.to_bytes(), value: copy_bytes(value) });
        assert(self@ =~= old(self)@.push(OpModel::Merge { key: key@.encoding(), value: value@ }));
    }

    /// Appends a write that removes `key`.
    pub fn delete(&mut self, key: &Key)
        ensures
            final(self)@ == old(self)@.push(OpModel::Delete { key: key@.encoding() }),
    {
        self.ops.push(WriteOp::Delete { key: key.to_bytes() });
        assert(self@ =~= old(self)@.push(OpModel::Delete { key: key@.encoding() }));
    }

    /// Appends the writes of `other`, in their order.
    pub fn extend(&mut self, other: WriteBatch)
        ensures
            final(self)@ == old(self)@ + other@,
    {
        let ghost appended = other@;
        let mut rest = other;
        self.ops.append(&mut rest.ops);
        assert(self@ =~= old(self)@ + appended);
    }
}

} // verus!
