//! Choice of the physical layer profile for a relay.
use crate::airtime;
use crate::airtime::toa_us;
use crate::airtime::AirtimeKey;
use crate::airtime::LoraPhy;
use crate::exact;
use crate::order;
use crate::share;
use crate::single;
use crate::single::Single;
use std::collections::HashMap;
use vstd::prelude::*;

verus! {

/// `std::time::Instant`: a reading of the machine's clock, carried along unread.
#[verifier::external_type_specification]
#[verifier::external_body]
pub struct ExInstant(std::time::Instant);

/// `std::time::Instant::now`: nothing is claimed of the time that it reads.
pub assume_specification[ std::time::Instant::now ]() -> std::time::Instant;

#[derive(Debug, Clone)]
pub struct PhyProfile {
    pub allowed: Vec<LoraPhy>,
}

/// The profile that is used where nothing else is configured.
pub open spec fn default_phy() -> LoraPhy {
    LoraPhy { sf: 12, cr: (4, 8), bw_hz: 812_000 }
}

impl Default for PhyProfile {
    fn default() -> (profile: Self)
        ensures
            profile.allowed@ == seq![default_phy()],
    {
        let mut allowed = Vec::new();
        allowed.push(LoraPhy { sf: 12, cr: (4, 8), bw_hz: 812_000 });
        assert(allowed@ =~= seq![default_phy()]);
        Self { allowed }
    }
}

#[derive(Debug, Clone, Copy)]
pub struct ProbeResult {
    pub phy: LoraPhy,
    pub success: bool,
    pub timestamp: std::time::Instant,
}

/// The last probe of each relay and profile.
#[derive(Debug)]
pub struct SfProbeCache {
    entries: HashMap<u128, ProbeResult>,
}

/// A number that tells pairs of a relay and a profile apart.
spec fn probe_number(relay: u32, phy: LoraPhy) -> int {
    relay * 0x100_0000_0000_0000 + phy.number()
}

fn to_probe_number(relay: u32, phy: &LoraPhy) -> (n: u128)
    ensures
        n == probe_number(relay, *phy),
{
    (relay as u128) * 0x100_0000_0000_0000 + phy.to_number() as u128
}

proof fn lemma_phy_number_bound(phy: LoraPhy)
    ensures
        0 <= phy.number() < 0x100_0000_0000_0000,
{
}

proof fn lemma_digits_agree(a: int, x: int, b: int, y: int)
    requires
        0 <= x < 0x100_0000_0000_0000,
        0 <= y < 0x100_0000_0000_0000,
        a * 0x100_0000_0000_0000 + x == b * 0x100_0000_0000_0000 + y,
    ensures
        a == b,
        x == y,
{
}

proof fn probe_number_is_injective(a: u32, p: LoraPhy, b: u32, q: LoraPhy)
    requires
        probe_number(a, p) == probe_number(b, q),
    ensures
        a == b,
        p == q,
{
    lemma_phy_number_bound(p);
    lemma_phy_number_bound(q);
    lemma_digits_agree(a as int, p.number(), b as int, q.number());
    airtime::phy_number_is_injective(p, q);
}

/// What a payload costs on a profile.
pub open spec fn cost(phy: LoraPhy, payload_len: usize) -> Single {
    single::integer(airtime::airtime_us(AirtimeKey { phy, payload_len }) as nat)
}

/// Whether the last probe, if there was one, does not rule a profile out.
pub open spec fn usable(probes: Map<(u32, LoraPhy), bool>, relay: u32, phy: LoraPhy) -> bool {
    probes.contains_key((relay, phy)) ==> probes[(relay, phy)]
}

/// Whether place `i` holds the cheapest usable profile, the first among equals.
pub open spec fn is_best(
    probes: Map<(u32, LoraPhy), bool>,
    relay: u32,
    payload_len: usize,
    allowed: Seq<LoraPhy>,
    i: int,
) -> bool {
    &&& 0 <= i < allowed.len()
    &&& usable(probes, relay, allowed[i])
    &&& forall|j: int|
        0 <= j < allowed.len() && usable(probes, relay, #[trigger] allowed[j]) ==> if j < i {
            single::less(cost(allowed[i], payload_len), cost(allowed[j], payload_len))
        } else {
            !single::less(cost(allowed[j], payload_len), cost(allowed[i], payload_len))
        }
}

/// An airtime as a single is a finite number without a sign.
proof fn lemma_cost_is_finite(us: u32)
    ensures
        single::integer(us as nat).finite(),
        !single::integer(us as nat).negative(),
        single::integer(us as nat).code() <= 0x5f80_0000,
{
    single::lemma_integer_is_finite(us as nat);
}

impl SfProbeCache {
    /// The outcome of the last probe of each relay and profile.
    pub closed spec fn view(&self) -> Map<(u32, LoraPhy), bool> {
        Map::new(
            |k: (u32, LoraPhy)| self.entries@.contains_key(probe_number(k.0, k.1) as u128),
            |k: (u32, LoraPhy)| self.entries@[probe_number(k.0, k.1) as u128].success,
        )
    }

    pub fn new() -> (cache: Self)
        ensures
            cache@ == Map::<(u32, LoraPhy), bool>::empty(),
    {
        let cache = Self { entries: HashMap::new() };
        assert(cache@ =~= Map::<(u32, LoraPhy), bool>::empty());
        cache
    }

    /// Records the outcome of a probe.
    pub fn update(&mut self, relay: u32, phy: LoraPhy, success: bool)
        ensures
            final(self)@ == old(self)@.insert((relay, phy), success),
    {
        let number: u128 = to_probe_number(relay, &phy);
        let timestamp = std::time::Instant::now();
        self.entries.insert(number, ProbeResult { phy, success, timestamp });
        proof {
            assert forall|k: (u32, LoraPhy)| probe_number(k.0, k.1) as u128 == number implies k == (
                relay,
                phy,
            ) by {
                lemma_phy_number_bound(k.1);
                probe_number_is_injective(k.0, k.1, relay, phy);
            }
            assert(self@ =~= old(self)@.insert((relay, phy), success));
        }
    }

    /// The allowed profile on which the payload is sent fastest, leaving out
    /// those whose last probe failed.
    pub fn best_for(&self, relay: u32, payload_len: usize, profile: &PhyProfile) -> (best: LoraPhy)
        ensures
            (exists|i: int|
                0 <= i < profile.allowed@.len() && usable(
                    self@,
                    relay,
                    #[trigger] profile.allowed@[i],
                )) ==> exists|i: int| #[trigger]
                is_best(self@, relay, payload_len, profile.allowed@, i) && best
                    == profile.allowed@[i],
            (forall|i: int|
                0 <= i < profile.allowed@.len() ==> !usable(
                    self@,
                    relay,
                    #[trigger] profile.allowed@[i],
                )) ==> best == if profile.allowed@.len() > 0 {
                profile.allowed@[0]
            } else {
                default_phy()
            },
    {
        let mut best = if profile.allowed.len() > 0 {
            profile.allowed[0]
        } else {
            LoraPhy { sf: 12, cr: (4, 8), bw_hz: 812_000 }
        };
        let mut best_cost = Single { bits: 0x7f7f_ffff };
        let ghost allowed = profile.allowed@;
        let ghost mut chosen: int = -1;
        let mut i: usize = 0;
        while i < profile.allowed.len()
            invariant
                allowed == profile.allowed@,
                i <= allowed.len(),
                -1 <= chosen < i,
                chosen == -1 ==> best_cost.bits == 0x7f7f_ffff && best == if allowed.len() > 0 {
                    allowed[0]
                } else {
                    default_phy()
                },
                chosen >= 0 ==> best == allowed[chosen] && best_cost == cost(best, payload_len)
                    && usable(self@, relay, best),
                chosen == -1 ==> forall|j: int|
                    0 <= j < i ==> !usable(self@, relay, #[trigger] allowed[j]),
                chosen >= 0 ==> forall|j: int|
                    0 <= j < i && usable(self@, relay, #[trigger] allowed[j]) ==> if j < chosen {
                        single::less(cost(best, payload_len), cost(allowed[j], payload_len))
                    } else {
                        !single::less(cost(allowed[j], payload_len), cost(best, payload_len))
                    },
            decreases allowed.len() - i,
        {
            let phy = profile.allowed[i];
            i = i + 1;
            let number: u128 = to_probe_number(relay, &phy);
            if let Some(res) = self.entries.get(&number) {
                if !res.success {
                    assert(!usable(self@, relay, phy));
                    continue ;
                }
            }
            assert(usable(self@, relay, phy));
            let us: u32 = toa_us(&AirtimeKey { phy, payload_len });
            let toa = Single::from_integer(us as u64);
            proof {
                lemma_cost_is_finite(us);
                assert(toa == cost(phy, payload_len));
                assert forall|j: int| 0 <= j < i implies !cost(
                    #[trigger] allowed[j],
                    payload_len,
                ).nan() by {
                    lemma_cost_of(allowed[j], payload_len);
                }
            }
            if toa.below(best_cost) {
                best_cost = toa;
                best = phy;
                proof {
                    chosen = i - 1;
                }
            }
        }
        proof {
            if chosen >= 0 {
                assert(is_best(self@, relay, payload_len, allowed, chosen));
            }
        }
        best
    }
}

proof fn lemma_cost_of(phy: LoraPhy, payload_len: usize)
    ensures
        !cost(phy, payload_len).nan(),
{
    let us = airtime::airtime_us(AirtimeKey { phy, payload_len });
    assert(0 <= us <= u32::MAX) by {
        reveal(airtime::airtime_us);
    }
    lemma_cost_is_finite(us as u32);
}

/// Where some allowed profile is usable, there is a best one.
pub proof fn usable_profile_means_best(
    probes: Map<(u32, LoraPhy), bool>,
    relay: u32,
    payload_len: usize,
    allowed: Seq<LoraPhy>,
    i: int,
)
    requires
        0 <= i < allowed.len(),
        usable(probes, relay, allowed[i]),
    ensures
        exists|k: int| is_best(probes, relay, payload_len, allowed, k),
    decreases allowed.len(),
{
    let front = allowed.drop_last();
    let n = allowed.len() - 1;
    if exists|j: int| 0 <= j < n && usable(probes, relay, #[trigger] allowed[j]) {
        let j = choose|j: int| 0 <= j < n && usable(probes, relay, #[trigger] allowed[j]);
        assert(front[j] == allowed[j]);
        usable_profile_means_best(probes, relay, payload_len, front, j);
        let k = choose|k: int| is_best(probes, relay, payload_len, front, k);
        lemma_cost_of(allowed[n], payload_len);
        lemma_cost_of(allowed[k], payload_len);
        assert forall|l: int| 0 <= l < n implies !cost(#[trigger] allowed[l], payload_len).nan()
            && front[l] == allowed[l] by {
            lemma_cost_of(allowed[l], payload_len);
        }
        if usable(probes, relay, allowed[n]) && single::less(
            cost(allowed[n], payload_len),
            cost(allowed[k], payload_len),
        ) {
            assert(is_best(probes, relay, payload_len, allowed, n));
        } else {
            assert(is_best(probes, relay, payload_len, allowed, k));
        }
    } else {
        assert(is_best(probes, relay, payload_len, allowed, n));
    }
}

/// The profile that is chosen sends the payload that was asked for fastest: no usable profile
/// takes less time for it, as far as single precision tells, and of equally fast ones it is
/// the first.
pub proof fn best_profile_is_fastest(
    probes: Map<(u32, LoraPhy), bool>,
    relay: u32,
    payload_len: usize,
    allowed: Seq<LoraPhy>,
    i: int,
    j: int,
)
    requires
        is_best(probes, relay, payload_len, allowed, i),
        0 <= j < allowed.len(),
        usable(probes, relay, allowed[j]),
    ensures
        ({
            let best = airtime::airtime_us(AirtimeKey { phy: allowed[i], payload_len });
            let other = airtime::airtime_us(AirtimeKey { phy: allowed[j], payload_len });
            &&& single::at_most(single::integer(best as nat), single::integer(other as nat))
            &&& j < i ==> best < other
            &&& best < 0x100_0000 && other < 0x100_0000 ==> best <= other
        }),
{
    let best = airtime::airtime_us(AirtimeKey { phy: allowed[i], payload_len });
    let other = airtime::airtime_us(AirtimeKey { phy: allowed[j], payload_len });
    assert(0 <= best <= u32::MAX && 0 <= other <= u32::MAX) by {
        reveal(airtime::airtime_us);
    }
    lemma_cost_is_finite(best as u32);
    lemma_cost_is_finite(other as u32);
    lemma_cost_of(allowed[i], payload_len);
    lemma_cost_of(allowed[j], payload_len);
    if other <= best {
        order::integers_keep_order(other as nat, best as nat);
    }
    if best < 0x100_0000 && other < 0x100_0000 && other < best {
        exact::whole_integer(best as nat);
        exact::whole_integer(other as nat);
        single::rank_orders_values(single::integer(best as nat), single::integer(other as nat));
        let u = single::unit_count() as int;
        share::lemma_one();
        assert(other * u < best * u) by (nonlinear_arith)
            requires
                other < best,
                u > 0,
        ;
    }
}

/// The last probe of a relay on a profile decides whether the profile is usable for it. A
/// probe says nothing of other relays or profiles, and what was never probed is usable.
pub proof fn last_probe_decides(
    probes: Map<(u32, LoraPhy), bool>,
    relay: u32,
    phy: LoraPhy,
    success: bool,
    other: u32,
    other_phy: LoraPhy,
)
    ensures
        usable(probes.insert((relay, phy), success), relay, phy) == success,
        other != relay || other_phy != phy ==> usable(
            probes.insert((relay, phy), success),
            other,
            other_phy,
        ) == usable(probes, other, other_phy),
        usable(Map::empty(), relay, phy),
{
}

} // verus!
