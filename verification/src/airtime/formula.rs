//! What holds of the airtime formula, the rounding at each of its steps
//! notwithstanding.
use crate::airtime;
use crate::airtime::AirtimeKey;
use crate::airtime::LoraPhy;
use crate::exact;
use crate::order;
use crate::rounding;
use crate::rounding::INFINITE;
use crate::single;
use crate::single::Single;
use vstd::arithmetic::div_mod::*;
use vstd::arithmetic::power2::*;
use vstd::prelude::*;

verus! {

/// One where the low data-rate optimization is on, else zero.
pub open spec fn low_rate(phy: LoraPhy) -> int {
    if airtime::low_data_rate(phy) {
        1
    } else {
        0
    }
}

/// The check bits per four bits of data.
pub open spec fn check_bits(phy: LoraPhy) -> int {
    if phy.cr.1 >= phy.cr.0 {
        phy.cr.1 - phy.cr.0
    } else {
        0
    }
}

/// The number of symbols that carry header and payload, in whole numbers, with an
/// explicit header and a CRC: eight, and for every block of
/// `4 * (sf - 2 * low_rate)` bits four symbols and those of its check bits.
pub open spec fn symbol_count(key: AirtimeKey) -> int {
    let bits = 8 * key.payload_len - 4 * key.phy.sf + 28 + 16;
    let blocks = exact::ceiling_div(bits, 4 * (key.phy.sf - 2 * low_rate(key.phy)));
    let symbols = blocks * (check_bits(key.phy) + 4);
    8 + if symbols > 0 {
        symbols
    } else {
        0
    }
}

proof fn lemma_optimization(phy: LoraPhy)
    ensures
        exact::is_whole(airtime::optimization(phy), low_rate(phy)),
        !airtime::optimization(phy).negative(),
{
    exact::whole_integer(0);
    exact::whole_integer(1);
}

proof fn lemma_bits_per_block(phy: LoraPhy)
    ensures
        exact::is_whole(airtime::bits_per_block(phy), 4 * (phy.sf - 2 * low_rate(phy))),
        !airtime::bits_per_block(phy).negative(),
        phy.sf - 2 * low_rate(phy) >= 0,
        phy.sf > 0 ==> phy.sf - 2 * low_rate(phy) > 0,
{
    lemma_optimization(phy);
    exact::whole_integer(2);
    exact::whole_integer(4);
    exact::whole_integer(phy.sf as nat);
    let opt = low_rate(phy);
    let sf = single::integer(phy.sf as nat);
    let twice = single::product(single::integer(2), airtime::optimization(phy));
    exact::whole_product(single::integer(2), 2, airtime::optimization(phy), opt);
    exact::whole_difference(sf, phy.sf as int, twice, 2 * opt);
    exact::whole_product(single::integer(4), 4, single::difference(sf, twice), phy.sf - 2 * opt);
}

proof fn lemma_symbols_per_block(phy: LoraPhy)
    ensures
        exact::is_whole(
            single::sum(airtime::coding_rate(phy), single::integer(4)),
            check_bits(phy) + 4,
        ),
        single::sum(airtime::coding_rate(phy), single::integer(4)).rank() > 0,
{
    exact::whole_integer(check_bits(phy) as nat);
    exact::whole_integer(4);
    exact::whole_sum(airtime::coding_rate(phy), check_bits(phy), single::integer(4), 4);
    lemma_whole_rank(
        single::sum(airtime::coding_rate(phy), single::integer(4)),
        check_bits(phy) + 4,
    );
}

/// The sign of a whole number.
proof fn lemma_whole_rank(a: Single, k: int)
    requires
        exact::is_whole(a, k),
    ensures
        k > 0 <==> a.rank() > 0,
        k == 0 <==> a.rank() == 0,
{
    let u = single::unit_count() as int;
    lemma_pow2_pos(149);
    rounding::lemma_units_at_least(a.code());
    assert(k > 0 <==> k * u > 0) by (nonlinear_arith)
        requires
            u > 0,
    ;
    assert(k == 0 <==> k * u == 0) by (nonlinear_arith)
        requires
            u > 0,
    ;
    if a.code() == 0 {
        assert(rounding::units(0) == 0);
    }
}

/// The subtracted part of the bit count.
proof fn lemma_bit_parts(phy: LoraPhy)
    ensures
        exact::is_whole(
            single::product(single::integer(4), single::integer(phy.sf as nat)),
            4 * phy.sf,
        ),
{
    exact::whole_integer(4);
    exact::whole_integer(phy.sf as nat);
    exact::whole_product(single::integer(4), 4, single::integer(phy.sf as nat), phy.sf as int);
}

/// The bit count of a short payload, exactly.
proof fn lemma_payload_bits(key: AirtimeKey)
    requires
        key.payload_len <= 0xffff,
    ensures
        exact::is_whole(
            airtime::payload_bits(key),
            8 * key.payload_len - 4 * key.phy.sf + 44,
        ),
        8 * key.payload_len - 4 * key.phy.sf + 44 > 0 ==> !airtime::payload_bits(key).negative(),
{
    let n = key.payload_len as int;
    let sf = key.phy.sf as int;
    lemma_bit_parts(key.phy);
    exact::whole_integer(8);
    exact::whole_integer(16);
    exact::whole_integer(28);
    exact::whole_integer(key.payload_len as nat);
    let eight = single::product(single::integer(8), single::integer(key.payload_len as nat));
    let four = single::product(single::integer(4), single::integer(key.phy.sf as nat));
    exact::whole_product(single::integer(8), 8, single::integer(key.payload_len as nat), n);
    exact::whole_difference(eight, 8 * n, four, 4 * sf);
    let first = single::difference(eight, four);
    exact::whole_sum(first, 8 * n - 4 * sf, single::integer(28), 28);
    let second = single::sum(first, single::integer(28));
    exact::whole_sum(second, 8 * n - 4 * sf + 28, single::integer(16), 16);
}

/// A number that is not above zero has no product above zero with one that is.
proof fn lemma_product_not_above(a: Single, c: Single)
    requires
        !a.nan(),
        a.rank() <= 0,
        c.finite(),
        c.rank() > 0,
    ensures
        !single::product(a, c).nan(),
        single::product(a, c).rank() <= 0,
{
    lemma_pow2_pos(149);
    order::lemma_pack(a.negative() != c.negative(), INFINITE as nat);
    let n = single::abs(a.value()) * single::abs(c.value());
    order::lemma_pack(
        a.negative() != c.negative(),
        rounding::magnitude(n, single::unit_count()),
    );
    if !a.negative() {
        assert(a.code() == 0);
        assert(rounding::units(0) == 0);
        assert(n == 0) by (nonlinear_arith)
            requires
                n == single::abs(a.value()) * single::abs(c.value()),
                single::abs(a.value()) == 0,
        ;
        order::lemma_magnitude_of_zero(single::unit_count());
    }
}

/// Up to four times the longest LoRa payload the number of symbols is exact.
#[verifier::rlimit(40)]
pub proof fn symbol_count_is_exact(key: AirtimeKey)
    requires
        key.payload_len <= 1023,
        key.phy.sf > 0,
    ensures
        exact::is_whole(airtime::payload_symbols(key), symbol_count(key)),
        8 <= symbol_count(key) <= 2_200_000,
        key.payload_len <= 255 ==> symbol_count(key) <= 600_000,
{
    let bits = 8 * key.payload_len - 4 * key.phy.sf + 44;
    let per_block = 4 * (key.phy.sf - 2 * low_rate(key.phy));
    let quotient = single::quotient(
        airtime::payload_bits(key),
        airtime::bits_per_block(key.phy),
    );
    let blocks = exact::ceiling_div(bits, per_block);
    let rounded_up = single::ceiling(quotient);
    let zero = single::integer(0);
    let per = check_bits(key.phy) + 4;
    let each = single::sum(airtime::coding_rate(key.phy), single::integer(4));
    let spread = single::product(rounded_up, each);
    lemma_payload_bits(key);
    lemma_bits_per_block(key.phy);
    lemma_symbols_per_block(key.phy);
    exact::whole_integer(0);
    exact::whole_integer(8);
    let more = if blocks * per > 0 {
        blocks * per
    } else {
        0
    };
    if bits > 0 {
        exact::whole_ceiling(
            airtime::payload_bits(key),
            bits,
            airtime::bits_per_block(key.phy),
            per_block,
        );
        lemma_ceiling_div_bounds(bits, per_block);
        assert(0 <= blocks * per <= bits * 259) by (nonlinear_arith)
            requires
                0 < blocks <= bits,
                0 <= per <= 259,
        ;
        exact::whole_product(rounded_up, blocks, each, per);
        exact::whole_larger(spread, blocks * per, zero, 0);
    } else {
        let c = airtime::bits_per_block(key.phy);
        lemma_whole_rank(c, per_block);
        lemma_whole_rank(airtime::payload_bits(key), bits);
        lemma_whole_rank(zero, 0);
        order::lemma_quotient_rank(airtime::payload_bits(key), c);
        order::lemma_quotient_rank(zero, c);
        order::quotient_keeps_order(airtime::payload_bits(key), zero, c);
        order::ceiling_keeps_order(quotient, single::quotient(zero, c));
        lemma_nothing_rounds_up_to_nothing(c);
        lemma_product_not_above(rounded_up, each);
        lemma_zero_is_whole(single::larger(spread, zero));
        lemma_ceiling_div_of_nothing(bits, per_block);
        assert(blocks * per <= 0) by (nonlinear_arith)
            requires
                blocks <= 0,
                per >= 0,
        ;
    }
    exact::whole_sum(single::integer(8), 8, single::larger(spread, zero), more);
}

proof fn lemma_zero_is_whole(a: Single)
    requires
        a.rank() == 0,
        !a.nan(),
    ensures
        exact::is_whole(a, 0),
{
    assert(rounding::units(0) == 0);
    assert(0 * single::unit_count() == 0);
}

proof fn lemma_nothing_rounds_up_to_nothing(c: Single)
    requires
        c.finite(),
        c.rank() > 0,
    ensures
        single::ceiling(single::quotient(single::integer(0), c)).rank() == 0,
        !single::quotient(single::integer(0), c).nan(),
{
    exact::whole_integer(0);
    lemma_whole_rank(single::integer(0), 0);
    order::lemma_quotient_rank(single::integer(0), c);
    assert(single::integer(0).value() == 0);
    assert(0 * single::unit_count() == 0);
    order::lemma_magnitude_of_zero(c.value() as nat);
}

proof fn lemma_ceiling_div_bounds(j: int, k: int)
    requires
        0 < j,
        k >= 1,
    ensures
        0 < exact::ceiling_div(j, k) <= j,
{
    let q = (-j) / k;
    lemma_fundamental_div_mod(-j, k);
    assert(-j <= q < 0) by (nonlinear_arith)
        requires
            -j == k * q + (-j) % k,
            0 <= (-j) % k < k,
            0 < j,
            k >= 1,
    ;
}

proof fn lemma_ceiling_div_of_nothing(j: int, k: int)
    requires
        j <= 0,
        k >= 1,
    ensures
        exact::ceiling_div(j, k) <= 0,
{
    let q = (-j) / k;
    vstd::arithmetic::div_mod::lemma_fundamental_div_mod(-j, k);
    assert(q >= 0) by (nonlinear_arith)
        requires
            -j == k * q + (-j) % k,
            (-j) % k < k,
            j <= 0,
            k >= 1,
    ;
}

proof fn lemma_bits_grow(phy: LoraPhy, m: usize, n: usize)
    requires
        m <= n,
    ensures
        single::at_most(
            airtime::payload_bits(AirtimeKey { phy, payload_len: m }),
            airtime::payload_bits(AirtimeKey { phy, payload_len: n }),
        ),
{
    let a = single::integer(m as nat);
    let b = single::integer(n as nat);
    let eight = single::integer(8);
    order::integers_keep_order(m as nat, n as nat);
    exact::whole_integer(8);
    exact::whole_integer(16);
    exact::whole_integer(28);
    lemma_bit_parts(phy);
    order::product_commutes(eight, a);
    order::product_commutes(eight, b);
    order::lemma_product_rank(a, eight);
    order::lemma_product_rank(b, eight);
    order::product_keeps_order(a, b, eight);
    let four = single::product(single::integer(4), single::integer(phy.sf as nat));
    let pa = single::product(eight, a);
    let pb = single::product(eight, b);
    order::difference_keeps_order(pa, pb, four);
    let qa = single::difference(pa, four);
    let qb = single::difference(pb, four);
    order::sum_keeps_order(qa, qb, single::integer(28));
    let ra = single::sum(qa, single::integer(28));
    let rb = single::sum(qb, single::integer(28));
    order::sum_keeps_order(ra, rb, single::integer(16));
}

/// The division by the block size has a result.
proof fn lemma_blocks_are_numbers(key: AirtimeKey)
    ensures
        !single::quotient(airtime::payload_bits(key), airtime::bits_per_block(key.phy)).nan(),
{
    let c = airtime::bits_per_block(key.phy);
    lemma_bits_per_block(key.phy);
    lemma_bits_grow(key.phy, 0, key.payload_len);
    if key.phy.sf == 0 {
        let least = AirtimeKey { phy: key.phy, payload_len: 0 };
        lemma_payload_bits(least);
        lemma_whole_rank(airtime::payload_bits(least), 44);
    } else {
        lemma_whole_rank(c, 4 * (key.phy.sf - 2 * low_rate(key.phy)));
    }
    order::lemma_quotient_is_a_number(airtime::payload_bits(key), c);
}

#[verifier::rlimit(40)]
proof fn lemma_symbols_grow(phy: LoraPhy, m: usize, n: usize)
    requires
        m <= n,
    ensures
        single::at_most(
            airtime::payload_symbols(AirtimeKey { phy, payload_len: m }),
            airtime::payload_symbols(AirtimeKey { phy, payload_len: n }),
        ),
        airtime::payload_symbols(AirtimeKey { phy, payload_len: m }).rank() > 0,
{
    let a = AirtimeKey { phy, payload_len: m };
    let b = AirtimeKey { phy, payload_len: n };
    let c = airtime::bits_per_block(phy);
    let zero = single::integer(0);
    let eight = single::integer(8);
    let each = single::sum(airtime::coding_rate(phy), single::integer(4));
    lemma_bits_grow(phy, m, n);
    lemma_bits_per_block(phy);
    lemma_blocks_are_numbers(a);
    lemma_blocks_are_numbers(b);
    lemma_symbols_per_block(phy);
    exact::whole_integer(0);
    exact::whole_integer(8);
    let qa = single::quotient(airtime::payload_bits(a), c);
    let qb = single::quotient(airtime::payload_bits(b), c);
    order::quotient_keeps_order(airtime::payload_bits(a), airtime::payload_bits(b), c);
    order::ceiling_keeps_order(qa, qb);
    let ca = single::ceiling(qa);
    let cb = single::ceiling(qb);
    lemma_spread_grows(ca, cb, each);
    let pa = single::larger(single::product(ca, each), zero);
    let pb = single::larger(single::product(cb, each), zero);
    order::sum_commutes(eight, pa);
    order::sum_commutes(eight, pb);
    order::sum_keeps_order(pa, pb, eight);
    order::sum_keeps_order(zero, pa, eight);
    exact::whole_sum(zero, 0, eight, 8);
    lemma_whole_rank(single::sum(zero, eight), 8);
}

/// Multiplying both sides by a number above zero keeps the order of what is above
/// zero of them.
proof fn lemma_spread_grows(a: Single, b: Single, c: Single)
    requires
        single::at_most(a, b),
        c.finite(),
        c.rank() > 0,
    ensures
        single::at_most(
            single::larger(single::product(a, c), single::integer(0)),
            single::larger(single::product(b, c), single::integer(0)),
        ),
        single::at_most(
            single::integer(0),
            single::larger(single::product(a, c), single::integer(0)),
        ),
{
    exact::whole_integer(0);
    lemma_whole_rank(single::integer(0), 0);
    if a.rank() <= 0 {
        lemma_product_not_above(a, c);
    } else {
        order::lemma_product_is_a_number(a, c);
    }
    if b.rank() <= 0 {
        lemma_product_not_above(b, c);
    } else {
        order::lemma_product_is_a_number(b, c);
    }
    if a.rank() > 0 {
        order::product_keeps_order(a, b, c);
    }
}

/// A symbol takes some time.
proof fn lemma_symbol_duration(phy: LoraPhy)
    ensures
        !airtime::symbol_duration(phy).nan(),
        airtime::symbol_duration(phy).rank() > 0,
{
    let p = airtime::power_of_two(phy.sf);
    let bw = single::integer(phy.bw_hz as nat);
    let u = single::unit_count();
    single::lemma_integer_is_finite(phy.bw_hz as nat);
    order::lemma_pack(false, INFINITE as nat);
    lemma_pow2_pos(149);
    if phy.sf < 128 {
        order::lemma_pack(false, ((phy.sf + 127) * 0x80_0000) as nat);
        assert(p.finite() && p.code() >= 127 * 0x80_0000);
        if phy.bw_hz > 0 {
            order::integers_keep_order(phy.bw_hz as nat, 0xffff_ffff);
            order::integers_keep_order(1, phy.bw_hz as nat);
            exact::whole_integer(1);
            order::lemma_quotient_rank(p, bw);
            // At 2^32 Hz a symbol would still take far more than a unit of time.
            lemma_bandwidth_bound(phy.bw_hz);
            assert(p.value() >= u) by {
                lemma2_to64();
                rounding::lemma_units_shift(0x80_0000, 126);
                lemma_pow2_adds(23, 126);
                if p.code() > 127 * 0x80_0000 {
                    rounding::lemma_units_increase((127 * 0x80_0000) as nat, p.code());
                }
            }
            assert(1 * bw.value() <= (p.value() * u) * 1) by (nonlinear_arith)
                requires
                    bw.value() <= 0x1_0000_0000 * u,
                    p.value() >= u,
                    u >= 0x1_0000_0000,
            ;
            order::lemma_rounded_rank_monotone(1, 1, p.value() * u, bw.value() as nat);
            rounding::lemma_nearest_of_units(1);
        } else {
            exact::whole_integer(0);
            lemma_whole_rank(bw, 0);
        }
    }
}

proof fn lemma_bandwidth_bound(bw_hz: u32)
    ensures
        single::integer(bw_hz as nat).value() <= 0x1_0000_0000 * single::unit_count(),
        single::unit_count() >= 0x1_0000_0000,
{
    let u = single::unit_count();
    lemma2_to64();
    lemma2_to64_rest();
    lemma_pow2_strictly_increases(32, 149);
    single::lemma_integer_is_finite(bw_hz as nat);
    assert((bw_hz * u) * 1 <= (0x1_0000_0000 * u) * 1) by (nonlinear_arith)
        requires
            bw_hz <= 0x1_0000_0000,
    ;
    rounding::lemma_nearest_monotone((bw_hz * u) as nat, 1, 0x1_0000_0000 * u, 1);
    let top: nat = 158 * 0x80_0000 + 0x80_0000;
    rounding::lemma_units_shift(0x80_0000, 158);
    lemma_pow2_adds(23, 158);
    lemma_pow2_adds(32, 149);
    assert(rounding::units(top) == 0x1_0000_0000 * u);
    rounding::lemma_nearest_of_units(top);
    let code = rounding::nearest((bw_hz * u) as nat, 1);
    if code < top {
        rounding::lemma_units_increase(code, top);
    }
}

/// A longer payload never takes less time.
#[verifier::rlimit(40)]
pub proof fn airtime_grows_with_the_payload(phy: LoraPhy, m: usize, n: usize)
    requires
        m <= n,
    ensures
        airtime::airtime_us(AirtimeKey { phy, payload_len: m }) <= airtime::airtime_us(
            AirtimeKey { phy, payload_len: n },
        ),
{
    reveal(airtime::airtime_us);
    let a = airtime::payload_symbols(AirtimeKey { phy, payload_len: m });
    let b = airtime::payload_symbols(AirtimeKey { phy, payload_len: n });
    let preamble = airtime::preamble_symbols();
    let million = single::integer(1_000_000);
    let duration = airtime::symbol_duration(phy);
    lemma_symbols_grow(phy, m, n);
    lemma_symbol_duration(phy);
    exact::whole_integer(1_000_000);
    exact::whole_integer(49);
    exact::whole_integer(4);
    exact::whole_integer(0);
    lemma_whole_rank(single::integer(0), 0);
    order::lemma_quotient_rank(single::integer(49), single::integer(4));
    lemma_preamble();
    order::sum_commutes(preamble, a);
    order::sum_commutes(preamble, b);
    order::sum_keeps_order(a, b, preamble);
    let sa = single::sum(preamble, a);
    let sb = single::sum(preamble, b);
    order::lemma_sum_is_above(a, preamble);
    assert(sa.rank() > 0);
    order::lemma_product_is_a_number(sa, duration);
    order::lemma_product_is_a_number(sb, duration);
    order::product_keeps_order(sa, sb, duration);
    let ta = single::product(sa, duration);
    let tb = single::product(sb, duration);
    order::lemma_product_is_a_number(ta, million);
    order::lemma_product_is_a_number(tb, million);
    order::product_keeps_order(ta, tb, million);
    order::saturation_keeps_order(
        single::product(ta, million),
        single::product(tb, million),
        u32::MAX as int,
    );
}

proof fn lemma_preamble()
    ensures
        airtime::preamble_symbols().finite(),
        airtime::preamble_symbols().rank() >= 0,
{
    let u = single::unit_count();
    exact::whole_integer(49);
    exact::whole_integer(4);
    order::lemma_quotient_rank(single::integer(49), single::integer(4));
    lemma_pow2_pos(149);
    let v = single::integer(49).value() * u;
    let d = single::integer(4).value() as nat;
    assert(v * 1 <= (49 * u) * d) by (nonlinear_arith)
        requires
            v == (49 * u) * u,
            d == 4 * u,
    ;
    assert(0 * d <= v * 1) by (nonlinear_arith)
        requires
            v == (49 * u) * u,
    ;
    order::lemma_rounded_rank_monotone(v, d, (49 * u) as int, 1);
    order::lemma_rounded_rank_monotone(0, 1, v, d);
    order::lemma_magnitude_of_zero(1);
    exact::lemma_rounded_whole(false, 49);
}

/// The symbols hold the payload and no more than they must: the blocks after the first eight
/// symbols hold all bits that remain, and one block fewer would not. Each block takes four
/// symbols and its check bits. Where nothing remains there are no blocks.
pub proof fn symbols_hold_the_payload(key: AirtimeKey) -> (blocks: int)
    requires
        key.phy.sf > 0,
    ensures
        ({
            let phy = key.phy;
            let slow = (phy.bw_hz == 125_000 && phy.sf >= 11) || (phy.bw_hz == 62_500 && phy.sf
                >= 10);
            let size = 4 * if slow {
                phy.sf - 2
            } else {
                phy.sf as int
            };
            let bits = 8 * key.payload_len - 4 * phy.sf + 44;
            let check = if phy.cr.1 >= phy.cr.0 {
                phy.cr.1 - phy.cr.0
            } else {
                0
            };
            &&& symbol_count(key) == 8 + blocks * (check + 4)
            &&& bits > 0 ==> blocks * size >= bits && (blocks - 1) * size < bits
            &&& bits <= 0 ==> blocks == 0
        }),
{
    let phy = key.phy;
    let size = 4 * (phy.sf - 2 * low_rate(phy));
    let bits = 8 * key.payload_len - 4 * phy.sf + 44;
    let per = check_bits(phy) + 4;
    let c = exact::ceiling_div(bits, size);
    lemma_fundamental_div_mod(-bits, size);
    let q = (-bits) / size;
    let r = (-bits) % size;
    assert(c == -q);
    assert(c * size >= bits && (c - 1) * size < bits) by (nonlinear_arith)
        requires
            -bits == size * q + r,
            0 <= r < size,
            c == -q,
    ;
    if bits > 0 {
        assert(c > 0 && c * per > 0) by (nonlinear_arith)
            requires
                c * size >= bits,
                bits > 0,
                size > 0,
                per > 0,
        ;
        c
    } else {
        assert(c <= 0 && c * per <= 0) by (nonlinear_arith)
            requires
                (c - 1) * size < bits,
                bits <= 0,
                size > 0,
                per > 0,
        ;
        assert(0 * per == 0);
        0
    }
}

} // verus!
