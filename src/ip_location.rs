//! Where an address is, as a geolocation service reports it.

use vstd::prelude::*;

verus! {

/// A geolocation record; every field may be missing from the service's answer.
pub struct IpLocation {
    pub ip_address: Option<String>,
    pub country_name: Option<String>,
    pub city_name: Option<String>,
    pub region_name: Option<String>,
}

} // verus!
