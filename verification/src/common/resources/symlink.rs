use crate::common::path::SafePathBuf;
use crate::common::Ensure;
use vstd::prelude::*;

verus! {

/// The parameters of a `symlink` resource.
pub struct Parameters {
    pub path: SafePathBuf,
    pub ensure: Ensure,
    pub target: SafePathBuf,
}

} // verus!
