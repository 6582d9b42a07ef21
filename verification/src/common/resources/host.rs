use crate::common::name::Hostname;
use crate::common::net::IpAddress;
use crate::common::Ensure;
use vstd::prelude::*;

verus! {

/// The parameters of a `host` resource: an entry of `/etc/hosts`.
pub struct Parameters {
    pub ensure: Ensure,
    pub target: String,
    pub ip_address: IpAddress,
    pub hostname: Hostname,
    pub aliases: Vec<Hostname>,
}

} // verus!
