//! LoRa time-on-air.
use crate::single;
use crate::single::Single;
use std::collections::HashMap;
use vstd::prelude::*;
use vstd::std_specs::hash::*;

pub mod formula;
pub mod precision;

verus! {

/// Description of a LoRa physical layer profile.
#[derive(Debug, Clone, Copy, PartialEq, Eq, Hash)]
pub struct LoraPhy {
    pub sf: u8,
    pub cr: (u8, u8),
    pub bw_hz: u32,
}

/// Key used for airtime cache lookups.
#[derive(Debug, Clone, PartialEq, Eq, Hash)]
pub struct AirtimeKey {
    pub phy: LoraPhy,
    pub payload_len: usize,
}

/// Whether the low data-rate optimization is on.
pub open spec fn low_data_rate(phy: LoraPhy) -> bool {
    (phy.bw_hz == 125_000 && phy.sf >= 11) || (phy.bw_hz == 62_500 && phy.sf >= 10)
}

/// One where the low data-rate optimization is on, else zero.
pub open spec fn optimization(phy: LoraPhy) -> Single {
    if low_data_rate(phy) {
        single::integer(1)
    } else {
        single::integer(0)
    }
}

/// The coding rate as the number of check bits per four bits of data.
pub open spec fn coding_rate(phy: LoraPhy) -> Single {
    single::integer(
        if phy.cr.1 >= phy.cr.0 {
            (phy.cr.1 - phy.cr.0) as nat
        } else {
            0
        },
    )
}

/// Two to the power of `n`, infinite where single precision cannot hold it.
pub open spec fn power_of_two(n: u8) -> Single {
    if n < 128 {
        single::pack(false, ((n + 127) * 0x80_0000) as nat)
    } else {
        single::pack(false, crate::rounding::INFINITE as nat)
    }
}

/// Duration of a symbol in seconds.
pub open spec fn symbol_duration(phy: LoraPhy) -> Single {
    single::quotient(power_of_two(phy.sf), single::integer(phy.bw_hz as nat))
}

/// `8 * payload - 4 * sf + 28 + 16`, rounded at each step.
pub open spec fn payload_bits(key: AirtimeKey) -> Single {
    let eight = single::product(single::integer(8), single::integer(key.payload_len as nat));
    let four = single::product(single::integer(4), single::integer(key.phy.sf as nat));
    single::sum(
        single::sum(single::difference(eight, four), single::integer(28)),
        single::integer(16),
    )
}

/// `4 * (sf - 2 * optimization)`.
pub open spec fn bits_per_block(phy: LoraPhy) -> Single {
    single::product(
        single::integer(4),
        single::difference(
            single::integer(phy.sf as nat),
            single::product(single::integer(2), optimization(phy)),
        ),
    )
}

/// The number of symbols that carry header and payload: eight, and those of the
/// blocks that the first eight do not hold.
pub open spec fn payload_symbols(key: AirtimeKey) -> Single {
    let blocks = single::ceiling(
        single::quotient(payload_bits(key), bits_per_block(key.phy)),
    );
    single::sum(
        single::integer(8),
        single::larger(
            single::product(blocks, single::sum(coding_rate(key.phy), single::integer(4))),
            single::integer(0),
        ),
    )
}

/// The length of the preamble in symbols: eight and four and a quarter.
pub open spec fn preamble_symbols() -> Single {
    single::quotient(single::integer(49), single::integer(4))
}

/// The airtime in microseconds: the symbols of the preamble and of the payload
/// times the duration of a symbol, in single precision and without the fraction.
#[verifier::opaque]
pub open spec fn airtime_us(key: AirtimeKey) -> int {
    let seconds = single::product(
        single::sum(preamble_symbols(), payload_symbols(key)),
        symbol_duration(key.phy),
    );
    single::saturated(
        single::product(seconds, single::integer(1_000_000)),
        0,
        u32::MAX as int,
    )
}

impl LoraPhy {
    /// A number that tells profiles apart.
    pub open spec fn number(self) -> int {
        (((self.sf as int) * 0x100 + self.cr.0) * 0x100 + self.cr.1) * 0x1_0000_0000 + self.bw_hz
    }

    pub fn to_number(&self) -> (n: u64)
        ensures
            n == self.number(),
            n < 0x100_0000_0000_0000,
    {
        (((self.sf as u64) * 0x100 + self.cr.0 as u64) * 0x100 + self.cr.1 as u64) * 0x1_0000_0000
            + self.bw_hz as u64
    }
}

/// No two profiles share a number.
pub proof fn phy_number_is_injective(a: LoraPhy, b: LoraPhy)
    requires
        a.number() == b.number(),
    ensures
        a == b,
{
    assert(a.cr == b.cr);
}

impl AirtimeKey {
    /// A number that tells keys apart.
    pub open spec fn number(self) -> int {
        self.phy.number() * 0x1_0000_0000_0000_0000 + self.payload_len
    }

    fn to_number(&self) -> (n: u128)
        ensures
            n == self.number(),
    {
        (self.phy.to_number() as u128) * 0x1_0000_0000_0000_0000 + self.payload_len as u128
    }
}

/// No two keys share a number.
pub proof fn key_number_is_injective(a: AirtimeKey, b: AirtimeKey)
    requires
        a.number() == b.number(),
    ensures
        a == b,
{
    lemma_parts_agree(
        a.phy.number(),
        a.payload_len as int,
        b.phy.number(),
        b.payload_len as int,
    );
    phy_number_is_injective(a.phy, b.phy);
}

proof fn lemma_parts_agree(a: int, x: int, b: int, y: int)
    requires
        0 <= x < 0x1_0000_0000_0000_0000,
        0 <= y < 0x1_0000_0000_0000_0000,
        a * 0x1_0000_0000_0000_0000 + x == b * 0x1_0000_0000_0000_0000 + y,
    ensures
        a == b,
        x == y,
{
}

/// Returns the airtime (time-on-air) in microseconds for the given key.
///
/// The computation follows the LoRa modulation time-on-air formula as documented
/// in the Semtech datasheets, with an explicit header and a CRC.
pub fn toa_us(key: &AirtimeKey) -> (us: u32)
    ensures
        us == airtime_us(*key),
{
    compute_toa_us(key)
}

pub fn compute_toa_us(key: &AirtimeKey) -> (us: u32)
    ensures
        us == airtime_us(*key),
{
    proof {
        reveal(airtime_us);
    }
    let sf = Single::from_integer(key.phy.sf as u64);
    let bw = Single::from_integer(key.phy.bw_hz as u64);
    let (cr_num, cr_den): (u8, u8) = key.phy.cr;
    let cr = Single::from_integer(cr_den.saturating_sub(cr_num) as u64);

    let low_dr_opt = if (key.phy.bw_hz == 125_000 && key.phy.sf >= 11)
        || (key.phy.bw_hz == 62_500 && key.phy.sf >= 10) {
        Single::from_integer(1)
    } else {
        Single::from_integer(0)
    };

    let symbol_duration = raise_two(key.phy.sf).over(bw);
    let preamble_symb = Single::from_integer(49).over(Single::from_integer(4));

    let payload = Single::from_integer(key.payload_len as u64);
    let numerator = Single::from_integer(8).times(payload).minus(
        Single::from_integer(4).times(sf),
    ).plus(Single::from_integer(28)).plus(Single::from_integer(16));
    let denominator = Single::from_integer(4).times(
        sf.minus(Single::from_integer(2).times(low_dr_opt)),
    );
    let blocks = numerator.over(denominator).ceil();
    let payload_symb_nb = Single::from_integer(8).plus(
        blocks.times(cr.plus(Single::from_integer(4))).max(Single::from_integer(0)),
    );

    let total_time_s = preamble_symb.plus(payload_symb_nb).times(symbol_duration);
    total_time_s.times(Single::from_integer(1_000_000)).to_u32()
}

fn raise_two(n: u8) -> (res: Single)
    ensures
        res == power_of_two(n),
{
    if n < 128 {
        Single { bits: (n as u32 + 127) * 0x80_0000 }
    } else {
        Single { bits: crate::rounding::INFINITE }
    }
}

/// Airtimes that were computed before.
pub struct AirtimeCache {
    entries: HashMap<u128, u32>,
}

impl AirtimeCache {
    /// Every remembered airtime is the airtime of its key.
    pub closed spec fn wf(&self) -> bool {
        forall|key: AirtimeKey| #[trigger]
            self.entries@.contains_key(key.number() as u128) ==> self.entries@[key.number() as u128]
                == airtime_us(key)
    }

    /// Whether the airtime of a key is remembered.
    pub closed spec fn remembers(&self, key: AirtimeKey) -> bool {
        self.entries@.contains_key(key.number() as u128)
    }

    pub fn new() -> (cache: Self)
        ensures
            cache.wf(),
            forall|key: AirtimeKey| !cache.remembers(key),
    {
        AirtimeCache { entries: HashMap::new() }
    }

    /// The airtime of a key, computed once and remembered.
    pub fn toa_us(&mut self, key: &AirtimeKey) -> (us: u32)
        requires
            old(self).wf(),
        ensures
            us == airtime_us(*key),
            final(self).wf(),
            forall|other: AirtimeKey| #[trigger]
                final(self).remembers(other) <==> old(self).remembers(other) || other == *key,
    {
        let number: u128 = key.to_number();
        if let Some(v) = self.entries.get(&number) {
            assert(self.entries@.contains_key(key.number() as u128));
            return *v;
        }
        let toa: u32 = compute_toa_us(key);
        self.entries.insert(number, toa);
        proof {
            assert forall|other: AirtimeKey|
                other.number() as u128 == number implies other == *key by {
                assert(other.number() < 0x1_0000_0000_0000_0000_0000_0000_0000_0000);
                key_number_is_injective(other, *key);
            }
        }
        toa
    }
}

} // verus!
