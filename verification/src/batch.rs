//! Write batches: put and delete operations collected in order, to be
//! committed together.

use vstd::prelude::*;
use crate::codec::copy_range;

verus! {

/// One operation of a batch.
#[derive(Clone, Debug, PartialEq)]
pub enum Operation {
    /// Insert or update a key-value pair.
    Put { key: Vec<u8>, value: Vec<u8> },
    /// Delete a key.
    Delete { key: Vec<u8> },
}

/// An operation as byte strings.
pub enum OperationView {
    /// Insert or update a key-value pair.
    Put(Seq<u8>, Seq<u8>),
    /// Delete a key.
    Delete(Seq<u8>),
}

/// The view of an operation.
pub open spec fn operation_view(op: Operation) -> OperationView {
    match op {
        Operation::Put { key, value } => OperationView::Put(key@, value@),
        Operation::Delete { key } => OperationView::Delete(key@),
    }
}

/// A batch of write operations, in the order they were added; committing it
/// applies all of them or none.
pub struct Batch {
    operations: Vec<Operation>,
}

impl View for Batch {
    type V = Seq<OperationView>;

    closed spec fn view(&self) -> Seq<OperationView> {
        self.operations@.map_values(|op: Operation| operation_view(op))
    }
}

/// A copy of a byte slice.
fn copy_bytes(b: &[u8]) -> (r: Vec<u8>)
    ensures
        r@ == b@,
{
    let r = copy_range(b, 0, b.len());
    proof {
        assert(b@.subrange(0, b@.len() as int) =~= b@);
    }
    r
}

impl Batch {
    /// An empty batch.
    pub fn new() -> (r: Self)
        ensures
            r@ == Seq::<OperationView>::empty(),
    {
        Batch { operations: Vec::new() }
    }

    /// An empty batch with room for `capacity` operations.
    pub fn with_capacity(capacity: usize) -> (r: Self)
        ensures
            r@ == Seq::<OperationView>::empty(),
    {
        Batch { operations: Vec::with_capacity(capacity) }
    }

    /// Add a put of `key` with `value`; nothing is written until commit.
    pub fn put(&mut self, key: &[u8], value: &[u8])
        ensures
            final(self)@ == old(self)@.push(OperationView::Put(key@, value@)),
    {
        let op = Operation::Put { key: copy_bytes(key), value: copy_bytes(value) };
        let ghost before = self.operations@;
        self.operations.push(op);
        proof {
            assert(self.operations@.map_values(|op: Operation| operation_view(op))
                =~= before.map_values(|op: Operation| operation_view(op)).push(OperationView::Put(key@, value@)));
        }
    }

    /// Add a delete of `key`; nothing is written until commit.
    pub fn delete(&mut self, key: &[u8])
        ensures
            final(self)@ == old(self)@.push(OperationView::Delete(key@)),
    {
        let op = Operation::Delete { key: copy_bytes(key) };
        let ghost before = self.operations@;
        self.operations.push(op);
        proof {
            assert(self.operations@.map_values(|op: Operation| operation_view(op))
                =~= before.map_values(|op: Operation| operation_view(op)).push(OperationView::Delete(key@)));
        }
    }

    /// Number of operations in the batch.
    pub fn len(&self) -> (r: usize)
        ensures
            r == self@.len(),
    {
        self.operations.len()
    }

    /// Whether the batch holds no operation.
    pub fn is_empty(&self) -> (r: bool)
        ensures
            r == (self@.len() == 0),
    {
        self.operations.len() == 0
    }

    /// Remove every operation.
    pub fn clear(&mut self)
        ensures
            final(self)@ == Seq::<OperationView>::empty(),
    {
        self.operations.clear();
        proof {
            assert(self.operations@.map_values(|op: Operation| operation_view(op)) =~= Seq::<OperationView>::empty());
        }
    }

    /// The operations, in the order they were added.
    pub fn operations(&self) -> (r: &[Operation])
        ensures
            r@.map_values(|op: Operation| operation_view(op)) == self@,
    {
        self.operations.as_slice()
    }
}

} // verus!
