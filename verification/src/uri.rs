//! The BIP 21 pay URI that announces payjoin support: the address in the
//! path and the receiving endpoint as the `pj` query parameter.

use vstd::prelude::*;
use vstd::string::StringExecFns;

verus! {

/// The text of a version-1 payjoin URI carrying no amount, label or
/// message: `bitcoin:` followed by the address, then the endpoint as the
/// only query parameter.
pub open spec fn pj_uri_text(address: Seq<char>, endpoint: Seq<char>) -> Seq<char> {
    "bitcoin:"@ + address + "?pj="@ + endpoint
}

/// Build the version-1 payjoin URI for an address and an endpoint.
pub fn build_v1_pj_uri(address: &str, endpoint: &str) -> (r: String)
    ensures
        r@ == pj_uri_text(address@, endpoint@),
{
    let mut out = String::from_str("bitcoin:");
    out.append(address);
    out.append("?pj=");
    out.append(endpoint);
    proof {
        assert(out@ =~= pj_uri_text(address@, endpoint@));
    }
    out
}

} // verus!
