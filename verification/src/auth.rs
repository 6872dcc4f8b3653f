//! Building the basic-auth header value from the operator's `user:token`
//! pair. The encoding itself comes from the base64 crate.

use base64::Engine;
use vstd::prelude::*;
use vstd::string::StringSliceAdditionalSpecFns;

verus! {

/// What base64's standard alphabet encodes a byte text to. The encoding is
/// a function of the bytes alone.
pub uninterp spec fn base64_of(bytes: Seq<u8>) -> Seq<char>;

/// Relies on base64's `Engine::encode` with the standard engine: the
/// encoding depends on the input bytes alone, and an empty input encodes to
/// an empty text.
#[verifier::external_body]
fn base64_standard(s: &str) -> (r: String)
    ensures
        r@ == base64_of(s.spec_bytes()),
        s@.len() == 0 ==> r@.len() == 0,
{
    base64::engine::general_purpose::STANDARD.encode(s.as_bytes())
}

/// The `Authorization` header value for a `user:token` pair:
/// `Basic ` followed by the base64 encoding of the pair.
pub fn basic_auth_header(user_token: &str) -> (r: String)
    ensures
        r@ == "Basic "@ + base64_of(user_token.spec_bytes()),
{
    let mut s = String::from_str("Basic ");
    let encoded = base64_standard(user_token);
    s.append(encoded.as_str());
    s
}

} // verus!
