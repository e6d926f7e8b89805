//! Vectored transfers: one buffer after another until one comes up short.

use vstd::prelude::*;

verus! {

/// One buffer of a vectored transfer: where it starts in user memory and
/// how long it is.
#[derive(Clone, Copy, Debug, PartialEq, Eq, Structural)]
pub struct IoVec {
    pub iov_base: usize,
    pub iov_len: usize,
}

/// What a vectored transfer does next.
#[derive(Clone, Copy, Debug, PartialEq, Eq, Structural)]
pub enum VectoredStep {
    /// Transfer this buffer.
    Transfer(IoVec),
    /// Stop, with this many bytes transferred in all.
    Done(usize),
}

/// The progress of a vectored transfer: which buffer comes next, how many
/// bytes have been moved, and whether a buffer came up short.
#[derive(Clone, Copy, Debug, PartialEq, Eq, Structural)]
pub struct VectoredTransfer {
    pub index: usize,
    pub total: usize,
    pub short: bool,
}

impl VectoredTransfer {
    /// A transfer that has moved nothing yet.
    pub fn new() -> (r: VectoredTransfer)
        ensures
            r == (VectoredTransfer { index: 0, total: 0, short: false }),
    {
        VectoredTransfer { index: 0, total: 0, short: false }
    }

    /// Whether the transfer is over: a buffer came up short or none is left.
    pub open spec fn is_done(self, iovecs: Seq<IoVec>) -> bool {
        self.short || self.index >= iovecs.len()
    }

    /// What to do next: stop with the total where the transfer is over, else
    /// transfer the next buffer.
    pub fn next(&self, iovecs: &[IoVec]) -> (r: VectoredStep)
        ensures
            r == (if self.is_done(iovecs@) {
                VectoredStep::Done(self.total)
            } else {
                VectoredStep::Transfer(iovecs@[self.index as int])
            }),
    {
        if self.short || self.index >= iovecs.len() {
            VectoredStep::Done(self.total)
        } else {
            VectoredStep::Transfer(iovecs[self.index])
        }
    }

    /// Takes note of how many bytes the transfer of the next buffer moved:
    /// they count towards the total, and fewer or more than the buffer's
    /// length end the transfer.
    pub fn completed(&mut self, iovecs: &[IoVec], bytes: usize)
        requires
            !old(self).is_done(iovecs@),
            old(self).total + bytes <= usize::MAX,
        ensures
            final(self).index == old(self).index + 1,
            final(self).total == old(self).total + bytes,
            final(self).short == (bytes != iovecs@[old(self).index as int].iov_len),
    {
        self.total = self.total + bytes;
        if bytes != iovecs[self.index].iov_len {
            self.short = true;
        }
        self.index = self.index + 1;
    }
}

} // verus!
