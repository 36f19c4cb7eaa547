use vstd::prelude::*;

verus! {

/// The identity of a computation: the function it runs and a fingerprint of
/// the arguments it runs on. Two invocations with equal identities share one
/// cache entry.
#[derive(Clone, Copy, Debug, PartialEq, Eq, Hash, Structural)]
pub struct TaskIdentity {
    pub function_id: u64,
    pub argument_fingerprint: u64,
}

impl TaskIdentity {
    pub fn new(function_id: u64, argument_fingerprint: u64) -> (r: TaskIdentity)
        ensures
            r.function_id == function_id,
            r.argument_fingerprint == argument_fingerprint,
    {
        TaskIdentity { function_id, argument_fingerprint }
    }

    /// Value equality of identities.
    pub fn same_as(&self, other: &TaskIdentity) -> (r: bool)
        ensures
            r == (*self == *other),
    {
        self.function_id == other.function_id && self.argument_fingerprint
            == other.argument_fingerprint
    }
}

} // verus!
