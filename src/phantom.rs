//! Non-owning handles that stand for a tensor when its gradient is looked up.

use crate::unique_id::UniqueId;
use vstd::prelude::*;

verus! {

/// A handle carrying what the gradient store needs of a tensor: its identity
/// and the number of elements of its array type, which also serves as the
/// tag that every gradient buffer stored under that identity must match.
#[derive(Clone, Copy, Debug, PartialEq, Eq, Structural)]
pub struct PhantomTensor {
    pub id: UniqueId,
    pub numel: usize,
}

impl PhantomTensor {
    pub fn new(id: UniqueId, numel: usize) -> (r: Self)
        ensures
            r.id == id,
            r.numel == numel,
    {
        PhantomTensor { id, numel }
    }

    pub fn id(&self) -> (r: UniqueId)
        ensures
            r == self.id,
    {
        self.id
    }
}

/// Something that can hand out a [`PhantomTensor`] standing for itself.
pub trait IntoPhantom: Sized {
    spec fn spec_phantom(&self) -> PhantomTensor;

    fn phantom(&self) -> (r: PhantomTensor)
        ensures
            r == self.spec_phantom(),
    ;
}

impl IntoPhantom for PhantomTensor {
    open spec fn spec_phantom(&self) -> PhantomTensor {
        *self
    }

    fn phantom(&self) -> (r: PhantomTensor) {
        *self
    }
}

} // verus!
