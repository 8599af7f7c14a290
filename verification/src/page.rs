//! The buffer allocator: a `Page` is a fixed-size, exclusively owned memory
//! region used as the target of receive operations. It never resizes and its
//! contents are never shared between two connections, so the kernel
//! collaborator may fill it while exactly one connection refers to it.

use vstd::prelude::*;

verus! {

/// A fixed-size receive buffer, zero-filled on allocation. Ownership moves,
/// never copies: while a receive referring to the buffer is outstanding, the
/// buffer must stay where it is, so exactly one owner holds it at a time.
pub struct Page {
    data: Vec<u8>,
}

impl View for Page {
    type V = Seq<u8>;

    closed spec fn view(&self) -> Seq<u8> {
        self.data@
    }
}

impl Page {
    /// Allocates a buffer of exactly `size` bytes, all zero. Like the
    /// underlying allocator, it aborts the process rather than return when
    /// memory is exhausted: running without buffers is not recoverable.
    pub fn new(size: usize) -> (r: Page)
        ensures
            r@ == Seq::new(size as nat, |i: int| 0u8),
    {
        let mut data: Vec<u8> = Vec::new();
        let mut i: usize = 0;
        while i < size
            invariant
                i <= size,
                data@ =~= Seq::new(i as nat, |k: int| 0u8),
            decreases size - i,
        {
            data.push(0u8);
            proof {
                assert(data@ =~= Seq::new((i + 1) as nat, |k: int| 0u8));
            }
            i = i + 1;
        }
        Page { data }
    }

    /// The buffer's fixed length in bytes.
    pub fn len(&self) -> (r: usize)
        ensures
            r == self@.len(),
    {
        self.data.len()
    }
}

} // verus!
