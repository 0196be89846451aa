//! Conversion from payload bytes back to strings.
//!
//! vstd specifies `str::as_bytes` against its own model of UTF-8
//! (`encode_utf8`, `decode_utf8`, `valid_utf8`), but gives no
//! specification to the checked std conversion in the other
//! direction, so that one call is wrapped here and trusted.

use vstd::prelude::*;
use vstd::utf8::{decode_utf8, valid_utf8};

use crate::error::KvsError;

verus! {

/// Relies on `String::from_utf8`: it succeeds exactly on valid UTF-8
/// input and then returns the string those bytes encode, the inverse
/// of `str::as_bytes` as vstd specifies it (see
/// `vstd::string::spec_bytes` and `str::from_utf8_unchecked`).
#[verifier::external_body]
pub fn bytes_to_string(v: Vec<u8>) -> (r: Result<String, KvsError>)
    ensures
        r is Ok <==> valid_utf8(v@),
        r is Ok ==> r->Ok_0@ == decode_utf8(v@),
        r is Err ==> r->Err_0 == KvsError::StringDecode,
{
    match String::from_utf8(v) {
        Ok(s) => Ok(s),
        Err(_) => Err(KvsError::StringDecode),
    }
}

} // verus!
