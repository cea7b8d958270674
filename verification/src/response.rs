//! A minimal reply envelope: a correlation id and a packed header word.

use vstd::prelude::*;

verus! {

/// A bare response shell, kept apart from the full message type.
#[derive(Debug, PartialEq, PartialOrd, Eq)]
pub struct DnsResponse {
    id: u16,
    headers: u16,
}

impl From<DnsResponse> for Vec<u8> {
    /// An empty byte vector: the shell carries no wire form of its own.
    fn from(_value: DnsResponse) -> (r: Vec<u8>)
        ensures
            r@ == Seq::<u8>::empty(),
    {
        Vec::new()
    }
}

impl vstd::std_specs::convert::FromSpecImpl<DnsResponse> for Vec<u8> {
    open spec fn obeys_from_spec() -> bool {
        false
    }

    open spec fn from_spec(_v: DnsResponse) -> Vec<u8> {
        vstd::pervasive::arbitrary()
    }
}

} // verus!
