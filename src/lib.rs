//! Reverse-mode gradient bookkeeping: a tape of deferred backward operations
//! and the identity-keyed store of gradient buffers that executing it fills.

pub mod gradients;
pub mod phantom;
pub mod unique_id;
