//! Choosing the address to connect to among the results of a name lookup.
use vstd::prelude::*;
use crate::error::RequestError;

verus! {

/// An IPv4 socket address: the address as a big-endian number, and the port.
#[derive(Debug, Clone, Copy, PartialEq, Eq, Structural)]
pub struct Ipv4Target {
    pub ip: u32,
    pub port: u16,
}

/// One result of a name lookup.
#[derive(Debug, Clone, Copy, PartialEq, Eq, Structural)]
pub enum ResolvedAddress {
    V4(Ipv4Target),
    V6,
}

/// The first IPv4 address of a lookup, if there is one.
pub open spec fn first_ipv4(s: Seq<ResolvedAddress>) -> Option<Ipv4Target>
    decreases s.len(),
{
    if s.len() == 0 {
        None
    } else {
        match s[0] {
            ResolvedAddress::V4(t) => Some(t),
            ResolvedAddress::V6 => first_ipv4(s.drop_first()),
        }
    }
}

/// The first IPv4 address among `addrs`, or `NoAddressFound` when there is
/// none.
pub fn select_ipv4(addrs: &Vec<ResolvedAddress>) -> (r: Result<Ipv4Target, RequestError>)
    ensures
        match first_ipv4(addrs@) {
            Some(t) => r == Ok::<Ipv4Target, RequestError>(t),
            None => r == Err::<Ipv4Target, RequestError>(RequestError::NoAddressFound),
        },
{
    let mut i: usize = 0;
    assert(addrs@.subrange(0, addrs@.len() as int) =~= addrs@);
    while i < addrs.len()
        invariant
            i <= addrs@.len(),
            first_ipv4(addrs@.subrange(i as int, addrs@.len() as int)) == first_ipv4(addrs@),
        decreases addrs@.len() - i,
    {
        assert(addrs@.subrange(i as int, addrs@.len() as int).drop_first()
            =~= addrs@.subrange(i + 1, addrs@.len() as int));
        match addrs[i] {
            ResolvedAddress::V4(t) => return Ok(t),
            ResolvedAddress::V6 => {},
        }
        i = i + 1;
    }
    Err(RequestError::NoAddressFound)
}

} // verus!
