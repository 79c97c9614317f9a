//! Write batches: put and delete operations that are applied together.

use vstd::prelude::*;

verus! {

/// A single operation in a write batch.
#[derive(Debug, Clone)]
pub enum BatchOp {
    Put { key: Vec<u8>, value: Vec<u8> },
    Delete { key: Vec<u8> },
}

/// An operation, as mathematics sees it: a key, and the value to write or
/// nothing to delete it.
pub type OpView = (Seq<u8>, Option<Seq<u8>>);

impl View for BatchOp {
    type V = OpView;

    open spec fn view(&self) -> OpView {
        match self {
            BatchOp::Put { key, value } => (key@, Some(value@)),
            BatchOp::Delete { key } => (key@, None),
        }
    }
}

/// The operations of an executable list.
pub open spec fn op_views(ops: Seq<BatchOp>) -> Seq<OpView> {
    Seq::new(ops.len(), |i: int| ops[i]@)
}

/// All operations count, each with its key and, unless it deletes, its value.
pub proof fn operations_are_whole(ops: Seq<BatchOp>, i: int)
    requires
        0 <= i < ops.len(),
    ensures
        op_views(ops).len() == ops.len(),
        ops[i] matches BatchOp::Put { key, value } ==> op_views(ops)[i] == (key@, Some(value@)),
        ops[i] matches BatchOp::Delete { key } ==> op_views(ops)[i] == (key@, None::<Seq<u8>>),
{
}

/// A batch of key-value operations that will be applied atomically.
///
/// All operations in the batch are written to the WAL before any is applied to
/// the MemTable.
#[derive(Debug, Clone)]
pub struct WriteBatch {
    ops: Vec<BatchOp>,
}

impl View for WriteBatch {
    type V = Seq<OpView>;

    closed spec fn view(&self) -> Seq<OpView> {
        op_views(self.ops@)
    }
}

impl Default for WriteBatch {
    fn default() -> (r: Self)
        ensures
            r@ == Seq::<OpView>::empty(),
    {
        Self::new()
    }
}

impl WriteBatch {
    /// Create a new, empty batch.
    pub fn new() -> (r: Self)
        ensures
            r@ == Seq::<OpView>::empty(),
    {
        let r = WriteBatch { ops: Vec::new() };
        assert(r@ =~= Seq::<OpView>::empty());
        r
    }

    /// Add a put operation to the batch.
    pub fn put(&mut self, key: Vec<u8>, value: Vec<u8>)
        ensures
            final(self)@ == old(self)@.push((key@, Some(value@))),
    {
        let ghost before = self@;
        self.ops.push(BatchOp::Put { key, value });
        assert(self@ =~= before.push((key@, Some(value@))));
    }

    /// Add a delete operation to the batch.
    pub fn delete(&mut self, key: Vec<u8>)
        ensures
            final(self)@ == old(self)@.push((key@, None)),
    {
        let ghost before = self@;
        self.ops.push(BatchOp::Delete { key });
        assert(self@ =~= before.push((key@, None)));
    }

    /// Whether the batch is empty.
    pub fn is_empty(&self) -> (r: bool)
        ensures
            r == (self@.len() == 0),
    {
        self.ops.len() == 0
    }

    /// Number of operations in the batch.
    pub fn len(&self) -> (r: usize)
        ensures
            r == self@.len(),
    {
        self.ops.len()
    }

    /// The operations, in the order in which they were added.
    pub fn ops(&self) -> (r: &[BatchOp])
        ensures
            op_views(r@) == self@,
    {
        self.ops.as_slice()
    }
}

} // verus!
