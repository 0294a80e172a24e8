//! Identities that tell tensors apart independently of their values.

use vstd::prelude::*;

verus! {

/// An opaque, copyable, totally ordered token naming one tensor instance.
#[derive(Clone, Copy, Debug, PartialEq, Eq, Structural, Hash, PartialOrd, Ord)]
pub struct UniqueId(pub u64);

/// A monotonic source of identities: every token it hands out is strictly
/// greater than all tokens it handed out before, so none is ever reused.
#[derive(Debug)]
pub struct UniqueIdGenerator {
    next: u64,
}

impl UniqueIdGenerator {
    /// The value the next call of `generate` hands out, if any remain.
    pub closed spec fn next_value(&self) -> nat {
        self.next as nat
    }

    pub fn new() -> (r: Self)
        ensures
            r.next_value() == 0,
    {
        UniqueIdGenerator { next: 0 }
    }

    /// Hands out a fresh identity, or `None` once the counter is exhausted.
    pub fn generate(&mut self) -> (r: Option<UniqueId>)
        ensures
            old(self).next_value() < u64::MAX ==> r == Some(UniqueId(old(self).next_value() as u64))
                && final(self).next_value() == old(self).next_value() + 1,
            old(self).next_value() >= u64::MAX ==> r.is_none() && final(self).next_value()
                == old(self).next_value(),
    {
        if self.next == u64::MAX {
            None
        } else {
            let id = UniqueId(self.next);
            self.next = self.next + 1;
            Some(id)
        }
    }
}

} // verus!
