//! Estimates of how well the links to the neighbours work.
use crate::airtime;
use crate::airtime::toa_us;
use crate::airtime::AirtimeKey;
use crate::airtime::LoraPhy;
use crate::single;
use crate::single::Single;
use std::collections::HashMap;
use std::hash::Hash;
use vstd::prelude::*;
use vstd::std_specs::hash::*;

pub mod bounds;
pub mod meaning;

verus! {

/// Snapshot of the current link statistics for a neighbour.
#[derive(Debug, Clone, Copy, PartialEq, Eq, Structural)]
pub struct LinkStats {
    pub prr_in: Single,
    pub prr_out: Single,
    pub etx: Single,
    pub toa_us: u32,
    pub atx: Single,
}

pub open spec fn one() -> Single {
    single::integer(1)
}

impl Default for LinkStats {
    fn default() -> (res: Self)
        ensures
            res == (LinkStats { prr_in: one(), prr_out: one(), etx: one(), toa_us: 0, atx: one() }),
    {
        let one = Single::from_integer(1);
        Self { prr_in: one, prr_out: one, etx: one, toa_us: 0, atx: one }
    }
}

/// Trait representing a link estimator implementation.
pub trait LinkEstimator<N> where N: Eq + Hash + Copy {
    fn observe_tx(&mut self, nhop: N, uplink_id: u16);

    fn observe_ack(&mut self, nhop: N, uplink_id: u16, ok: bool);

    fn snapshot(&self, nhop: N, payload_len: usize, phy: &LoraPhy) -> LinkStats;
}

#[derive(Debug, Clone, Copy, PartialEq, Eq, Structural)]
pub struct LinkEstimatorCfg {
    pub ewma_alpha: Single,
    pub min_prr: Single,
}

impl Default for LinkEstimatorCfg {
    fn default() -> (res: Self)
        ensures
            res.ewma_alpha == single::quotient(single::integer(1), single::integer(4)),
            res.min_prr == single::quotient(single::integer(1), single::integer(20)),
    {
        let one = Single::from_integer(1);
        Self {
            ewma_alpha: one.over(Single::from_integer(4)),
            min_prr: one.over(Single::from_integer(20)),
        }
    }
}

/// The running averages of one neighbour.
#[derive(Debug, Clone, Copy, PartialEq, Eq, Structural)]
pub struct EwmaEntry {
    pub prr_in: Single,
    pub prr_out: Single,
    pub tx_total: u32,
    pub ack_total: u32,
}

/// The averages of a neighbour of which nothing is known.
pub open spec fn fresh_entry() -> EwmaEntry {
    EwmaEntry { prr_in: one(), prr_out: one(), tx_total: 0, ack_total: 0 }
}

impl Default for EwmaEntry {
    fn default() -> (res: Self)
        ensures
            res == fresh_entry(),
    {
        let one = Single::from_integer(1);
        Self { prr_in: one, prr_out: one, tx_total: 0, ack_total: 0 }
    }
}

/// A counter after one more event; it stops at its maximum.
pub open spec fn counted(n: u32) -> u32 {
    if n < u32::MAX {
        (n + 1) as u32
    } else {
        n
    }
}

/// What an average keeps of its old value.
pub open spec fn decayed(alpha: Single, prr: Single) -> Single {
    single::product(single::difference(one(), alpha), prr)
}

/// An average after a success.
pub open spec fn raised(alpha: Single, prr: Single) -> Single {
    single::sum(decayed(alpha, prr), alpha)
}

impl EwmaEntry {
    pub open spec fn after_tx(self, alpha: Single) -> Self {
        EwmaEntry {
            tx_total: counted(self.tx_total),
            prr_out: decayed(alpha, self.prr_out),
            ..self
        }
    }

    pub open spec fn after_ack(self, alpha: Single, ok: bool) -> Self {
        if ok {
            EwmaEntry {
                ack_total: counted(self.ack_total),
                prr_out: raised(alpha, self.prr_out),
                prr_in: raised(alpha, self.prr_in),
                ..self
            }
        } else {
            EwmaEntry {
                ack_total: counted(self.ack_total),
                prr_out: single::product(self.prr_out, single::difference(one(), alpha)),
                ..self
            }
        }
    }

    /// The statistics that follow from these averages.
    pub open spec fn stats(self, min_prr: Single, payload_len: usize, phy: LoraPhy) -> LinkStats {
        let prr_in = single::larger(self.prr_in, min_prr);
        let prr_out = single::larger(self.prr_out, min_prr);
        let etx = single::quotient(one(), single::product(prr_in, prr_out));
        let us = airtime::airtime_us(AirtimeKey { phy, payload_len });
        LinkStats {
            prr_in,
            prr_out,
            etx,
            toa_us: us as u32,
            atx: single::product(
                etx,
                single::quotient(single::integer(us as nat), single::integer(1_000_000)),
            ),
        }
    }
}

/// Basic EWMA based link estimator.
pub struct EwmaLinkEstimator<N> where N: Eq + Hash + Copy {
    cfg: LinkEstimatorCfg,
    entries: HashMap<N, EwmaEntry>,
}

impl<N> EwmaLinkEstimator<N> where N: Eq + Hash + Copy {
    #[verifier::type_invariant]
    spec fn keys_are_sound(&self) -> bool {
        obeys_key_model::<N>()
    }

    pub closed spec fn config(&self) -> LinkEstimatorCfg {
        self.cfg
    }

    /// The averages of the neighbours that were observed.
    pub closed spec fn known(&self) -> Map<N, EwmaEntry> {
        self.entries@
    }

    /// The averages of a neighbour.
    pub open spec fn entry_of(&self, nhop: N) -> EwmaEntry {
        if self.known().contains_key(nhop) {
            self.known()[nhop]
        } else {
            fresh_entry()
        }
    }

    pub fn new(cfg: LinkEstimatorCfg) -> (res: Self)
        requires
            obeys_key_model::<N>(),
        ensures
            res.config() == cfg,
            res.known() == Map::<N, EwmaEntry>::empty(),
    {
        Self { cfg, entries: HashMap::new() }
    }

    fn entry(&self, nhop: N) -> (res: EwmaEntry)
        ensures
            res == self.entry_of(nhop),
    {
        proof {
            use_type_invariant(self);
        }
        match self.entries.get(&nhop) {
            Some(entry) => *entry,
            None => EwmaEntry::default(),
        }
    }

    fn set_entry(&mut self, nhop: N, entry: EwmaEntry)
        ensures
            final(self).config() == old(self).config(),
            final(self).known() == old(self).known().insert(nhop, entry),
    {
        proof {
            use_type_invariant(&*self);
        }
        let mut entries = HashMap::new();
        std::mem::swap(&mut entries, &mut self.entries);
        entries.insert(nhop, entry);
        self.entries = entries;
    }
}

impl<N> LinkEstimator<N> for EwmaLinkEstimator<N> where N: Eq + Hash + Copy {
    fn observe_tx(&mut self, nhop: N, _uplink_id: u16)
        ensures
            final(self).config() == old(self).config(),
            final(self).known() == old(self).known().insert(
                nhop,
                old(self).entry_of(nhop).after_tx(old(self).config().ewma_alpha),
            ),
    {
        let alpha = self.cfg.ewma_alpha;
        let mut entry = self.entry(nhop);
        entry.tx_total = entry.tx_total.saturating_add(1);
        entry.prr_out = Single::from_integer(1).minus(alpha).times(entry.prr_out);
        self.set_entry(nhop, entry);
    }

    fn observe_ack(&mut self, nhop: N, _uplink_id: u16, ok: bool)
        ensures
            final(self).config() == old(self).config(),
            final(self).known() == old(self).known().insert(
                nhop,
                old(self).entry_of(nhop).after_ack(old(self).config().ewma_alpha, ok),
            ),
    {
        let alpha = self.cfg.ewma_alpha;
        let keep = Single::from_integer(1).minus(alpha);
        let mut entry = self.entry(nhop);
        entry.ack_total = entry.ack_total.saturating_add(1);
        if ok {
            entry.prr_out = keep.times(entry.prr_out).plus(alpha);
            entry.prr_in = keep.times(entry.prr_in).plus(alpha);
        } else {
            entry.prr_out = entry.prr_out.times(keep);
        }
        self.set_entry(nhop, entry);
    }

    fn snapshot(&self, nhop: N, payload_len: usize, phy: &LoraPhy) -> (res: LinkStats)
        ensures
            res == self.entry_of(nhop).stats(self.config().min_prr, payload_len, *phy),
            res.toa_us == airtime::airtime_us(AirtimeKey { phy: *phy, payload_len }),
    {
        let entry = self.entry(nhop);
        let prr_in = entry.prr_in.max(self.cfg.min_prr);
        let prr_out = entry.prr_out.max(self.cfg.min_prr);
        let etx = Single::from_integer(1).over(prr_in.times(prr_out));
        let toa_us: u32 = toa_us(&AirtimeKey { phy: *phy, payload_len });
        let atx = etx.times(Single::from_integer(toa_us as u64).over(Single::from_integer(1_000_000)));
        LinkStats { prr_in, prr_out, etx, toa_us, atx }
    }
}

} // verus!
