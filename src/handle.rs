//! Value handles: lightweight references to a computation's output, typed by
//! the capabilities their holder expects of it.
use vstd::prelude::*;
use crate::identity::TaskIdentity;
use crate::store::{Outcome, Output, StoreView, TaskStore};

verus! {

/// A reference to the output of the entry `task`, expected to implement the
/// `capabilities` (one bit each). Two handles are equal exactly when they
/// name the same entry.
#[derive(Clone, Copy, Debug)]
pub struct Handle {
    pub task: usize,
    pub capabilities: u64,
}

impl PartialEq for Handle {
    fn eq(&self, other: &Handle) -> (r: bool)
        ensures
            r == (self.task == other.task),
    {
        self.task == other.task
    }
}

impl vstd::std_specs::cmp::PartialEqSpecImpl for Handle {
    open spec fn obeys_eq_spec() -> bool {
        true
    }

    open spec fn eq_spec(&self, other: &Handle) -> bool {
        self.task == other.task
    }
}

#[derive(Clone, Copy, Debug, PartialEq, Eq, Hash, Structural)]
pub enum HandleError {
    /// No computation with that identity has been requested.
    Unresolved,
    /// The entry has no completed execution yet.
    NotReady,
    /// The computation raised this error.
    Computation(u64),
    /// The output's concrete type lacks some of the capabilities the handle
    /// asks for.
    CapabilityMismatch { required: u64, provided: u64 },
}

/// A value whose type implements `provided` can be used as `required`.
pub open spec fn implements(provided: u64, required: u64) -> bool {
    provided & required == required
}

/// What a relaxed read of entry `task` returns: its last output, possibly
/// stale, or the error it stored.
pub open spec fn read_result(s: StoreView, task: int) -> Result<Output, HandleError> {
    match s.entries[task].output {
        None => Err(HandleError::NotReady),
        Some(Outcome::Error(e)) => Err(HandleError::Computation(e)),
        Some(Outcome::Value(o)) => Ok(o),
    }
}

/// What using the handle's output with the handle's capabilities gives.
pub open spec fn use_result(s: StoreView, h: Handle) -> Result<u64, HandleError> {
    match read_result(s, h.task as int) {
        Err(e) => Err(e),
        Ok(o) => if implements(o.capabilities, h.capabilities) {
            Ok(o.payload)
        } else {
            Err(HandleError::CapabilityMismatch { required: h.capabilities, provided: o.capabilities })
        },
    }
}

impl Handle {
    pub fn new(task: usize, capabilities: u64) -> (r: Handle)
        ensures
            r.task == task,
            r.capabilities == capabilities,
    {
        Handle { task, capabilities }
    }

    /// Turns a reference by identity into a handle on the entry of that
    /// identity, once the entry exists.
    pub fn resolve(store: &TaskStore, id: &TaskIdentity, capabilities: u64) -> (r: Result<Handle, HandleError>)
        requires
            store@.wf(),
        ensures
            match store@.find(*id) {
                Some(i) => r matches Ok(h) && h.task == i && h.capabilities == capabilities,
                None => r == Err::<Handle, HandleError>(HandleError::Unresolved),
            },
    {
        match store.find(id) {
            Some(i) => Ok(Handle { task: i, capabilities }),
            None => Err(HandleError::Unresolved),
        }
    }

    /// Reinterprets the handle with other capabilities. Nothing is checked
    /// here and the entry stays the same; a mismatch shows when the output
    /// is used.
    pub fn upcast(&self, capabilities: u64) -> (r: Handle)
        ensures
            r.task == self.task,
            r.capabilities == capabilities,
    {
        Handle { task: self.task, capabilities }
    }

    /// The entry's last output, possibly stale, or its stored error.
    pub fn read(&self, store: &TaskStore) -> (r: Result<Output, HandleError>)
        requires
            self.task < store@.len(),
        ensures
            r == read_result(store@, self.task as int),
    {
        match store.read(self.task) {
            None => Err(HandleError::NotReady),
            Some(Outcome::Error(e)) => Err(HandleError::Computation(e)),
            Some(Outcome::Value(o)) => Ok(o),
        }
    }

    /// The output's payload, once its concrete type is checked to implement
    /// the handle's capabilities.
    pub fn use_output(&self, store: &TaskStore) -> (r: Result<u64, HandleError>)
        requires
            self.task < store@.len(),
        ensures
            r == use_result(store@, *self),
    {
        match self.read(store) {
            Err(e) => Err(e),
            Ok(o) => {
                if o.capabilities & self.capabilities == self.capabilities {
                    Ok(o.payload)
                } else {
                    Err(HandleError::CapabilityMismatch { required: self.capabilities, provided: o.capabilities })
                }
            },
        }
    }
}

} // verus!
