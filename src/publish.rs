//! What the announcer broadcasts.
use vstd::prelude::*;
use vstd::string::StringSliceAdditionalSpecFns;
use crate::frame::{frame, framed};
use crate::sig::{Signer, TAG_LEN};

verus! {

/// The datagram that announces `host_name`: the signed name, framed.
pub fn announcement<S: Signer>(signer: &S, host_name: &str) -> (r: Vec<u8>)
    requires
        host_name.spec_bytes().len() <= 255,
    ensures
        r@ == framed(signer.signed(host_name.spec_bytes())),
{
    let bytes = host_name.as_bytes();
    let signed = signer.sign(bytes);
    frame(signed.as_slice())
}

} // verus!
