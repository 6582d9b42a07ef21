use crate::common::Ensure;
use vstd::prelude::*;

verus! {

/// A variable in the environment of a command.
pub struct Environment {
    pub name: String,
    pub value: Option<String>,
}

/// The parameters of an `execute` resource.
pub struct Parameters {
    pub ensure: Ensure,
    pub name: String,
    pub command: Vec<String>,
    pub unless: Vec<String>,
    pub environment: Vec<Environment>,
    /// A passive resource runs only when a resource that triggers it applied.
    pub passive: bool,
}

} // verus!
