//! The geolocation service's request address.

use vstd::prelude::*;
use vstd::string::StringExecFns;

verus! {

broadcast use vstd::string::group_string_axioms;

/// The JSON lookup endpoint; the address goes after it.
pub const LOOKUP_URL: &'static str = "https://freeipapi.com/api/json/";

/// The free geolocation service.
pub struct FreeIpApi {}

impl FreeIpApi {
    /// The address to ask for the location of `ip_address`.
    pub fn lookup_url(ip_address: &str) -> (r: String)
        ensures
            r@ == LOOKUP_URL@ + ip_address@,
    {
        String::from_str(LOOKUP_URL).concat(ip_address)
    }
}

} // verus!
