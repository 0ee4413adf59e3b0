//! Integers cut to fewer bits.
use vstd::prelude::*;

verus! {

/// The low 16 bits of a number, read with a sign.
pub open spec fn low_i16(n: i32) -> int {
    (n + 0x8000) % 0x1_0000 - 0x8000
}

pub fn to_low_i16(n: i32) -> (res: i16)
    ensures
        res == low_i16(n),
{
    let raised: i64 = n as i64 + 0x8000_0000 + 0x8000;
    assert(raised % 0x1_0000 == (n + 0x8000) % 0x1_0000);
    (raised % 0x1_0000 - 0x8000) as i16
}

/// The low 8 bits of a number.
pub open spec fn low_byte(n: i64) -> int {
    (n as int) % 0x100
}

pub fn to_low_byte(n: i64) -> (res: u8)
    ensures
        res == low_byte(n),
{
    let raised: i128 = n as i128 + 0x8000_0000_0000_0000;
    assert(raised % 0x100 == n % 0x100);
    (raised % 0x100) as u8
}

/// What is cut off is a multiple of what the remaining bits can tell apart, and numbers that
/// fit stay as they are.
pub proof fn cut_numbers_are_congruent(n: i32, m: i64)
    ensures
        -0x8000 <= low_i16(n) < 0x8000,
        (n - low_i16(n)) % 0x1_0000 == 0,
        -0x8000 <= n < 0x8000 ==> low_i16(n) == n,
        0 <= low_byte(m) < 0x100,
        (m - low_byte(m)) % 0x100 == 0,
        0 <= m < 0x100 ==> low_byte(m) == m,
{
}

} // verus!
