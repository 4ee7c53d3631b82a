//! Access-control vocabulary of the security collaborator.

use vstd::prelude::*;

verus! {

/// Rights a communication peer can hold.
#[derive(Clone, Copy, Debug, PartialEq, Eq, Structural)]
pub enum Permission {
    Telemetry,
    Command,
    Emergency,
    Admin,
}

} // verus!
