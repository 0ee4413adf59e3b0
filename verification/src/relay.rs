//! Relay identifiers.
use vstd::prelude::*;

verus! {

/// A relay identifier read as a number, most significant byte first.
pub open spec fn relay_number(id: [u8; 4]) -> int {
    ((id@[0] * 0x100 + id@[1]) * 0x100 + id@[2]) * 0x100 + id@[3]
}

/// No two identifiers share a number.
pub proof fn relay_number_is_injective(a: [u8; 4], b: [u8; 4])
    requires
        relay_number(a) == relay_number(b),
    ensures
        a == b,
{
    assert(a@ =~= b@);
    assert(a =~= b);
}

pub fn to_relay_number(id: &[u8; 4]) -> (n: u32)
    ensures
        n == relay_number(*id),
{
    ((id[0] as u32 * 0x100 + id[1] as u32) * 0x100 + id[2] as u32) * 0x100 + id[3] as u32
}

/// Whether two identifiers are the same.
pub fn same_relay(a: &[u8; 4], b: &[u8; 4]) -> (res: bool)
    ensures
        res == (*a == *b),
{
    proof {
        if relay_number(*a) == relay_number(*b) {
            relay_number_is_injective(*a, *b);
        }
    }
    to_relay_number(a) == to_relay_number(b)
}

/// Whether two optional identifiers are the same.
pub fn same_optional_relay(a: &Option<[u8; 4]>, b: &Option<[u8; 4]>) -> (res: bool)
    ensures
        res == (*a == *b),
{
    match (a, b) {
        (Some(x), Some(y)) => same_relay(x, y),
        (None, None) => true,
        _ => false,
    }
}

} // verus!
