//! Parsing and serialising the parts of a URL: hosts, IPv6 addresses,
//! percent-encoding, and whole URLs back into strings.

pub mod hex;
pub mod host;
pub mod ipv6;
pub mod ipv6_grammar;
pub mod ipv6_round_trip;
pub mod percent;
pub mod record;
pub mod text;

pub use hex::{from_hex, to_hex_upper};
pub use host::Host;
pub use ipv6::Ipv6Address;
pub use percent::{percent_decode, percent_encode, percent_encode_byte, utf8_percent_encode};
pub use record::{RelativeSchemeData, SchemeData, Url};

use vstd::prelude::*;

verus! {

/// The result of a parse: the value, or a static message saying why the
/// input was refused.
pub type ParseResult<T> = Result<T, &'static str>;

/// The error handler that ignores every non-fatal parse error.
pub fn silent_handler(_reason: &'static str) -> (r: ParseResult<()>)
    ensures
        r == Ok::<(), &'static str>(()),
{
    Ok(())
}

} // verus!
