//! Server-side core of a Distributed Aggregation Protocol (DAP) deployment.
//!
//! The crate has four layers. `codec` holds the length-prefix primitives that
//! every DAP message is built from. `messages`, `hpke` and `aggregate` hold
//! the wire messages exchanged between the Aggregators and the Collector.
//! `taskprov` holds the versioned task-provisioning messages. `store`, `tasks`
//! and `roles` model the configuration store, task creation, and the
//! replay-protection and batch rules that the Aggregators enforce.

pub mod codec;
pub mod hpke;
pub mod aggregate;
pub mod messages;
pub mod roles;
pub mod store;
pub mod taskprov;
pub mod tasks;

use vstd::prelude::*;

verus! {

/// A draft of the protocol. The taskprov codec is parameterized by the draft,
/// which governs where the query-type tag sits and whether unimplemented
/// variants carry a length prefix.
#[derive(Clone, Copy, Debug, Hash, PartialEq, Eq, Structural)]
pub enum DapVersion {
    Draft02,
    Draft07,
}

impl DapVersion {
    /// The draft's label, as it appears in request paths.
    pub open spec fn spec_label(self) -> Seq<char> {
        match self {
            DapVersion::Draft02 => "v02"@,
            DapVersion::Draft07 => "v07"@,
        }
    }

    /// The draft's label, as it appears in request paths.
    pub fn label(&self) -> (r: &'static str)
        ensures
            r@ == self.spec_label(),
    {
        match self {
            DapVersion::Draft02 => "v02",
            DapVersion::Draft07 => "v07",
        }
    }
}

} // verus!
