pub mod apt;
pub mod cron;
pub mod directory;
pub mod execute;
pub mod file;
pub mod group;
pub mod host;
pub mod resolv_conf;
pub mod symlink;
pub mod user;

use crate::common::{ResourceMetadata, TriggerMetadata};
use vstd::prelude::*;

verus! {

/// How a resource relates to others: the resources it depends on, those that
/// must be applied before it, and the `execute` resources it triggers.
pub struct Relationships {
    pub requires: Vec<ResourceMetadata>,
    pub after: Vec<ResourceMetadata>,
    pub triggers: Vec<TriggerMetadata>,
}

impl Relationships {
    pub fn default() -> (r: Relationships)
        ensures
            r.requires@.len() == 0,
            r.after@.len() == 0,
            r.triggers@.len() == 0,
    {
        Relationships { requires: Vec::new(), after: Vec::new(), triggers: Vec::new() }
    }
}

} // verus!
