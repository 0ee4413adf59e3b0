//! The configuration of a mesh node.
use crate::single::Single;
use crate::time::Duration;
use vstd::prelude::*;

verus! {

/// A data rate, as far as routing changes it. The other parameters of the
/// modulation are the same for every transmission of a node.
#[derive(Debug, Clone, Copy, PartialEq, Eq, Structural)]
pub struct DataRate {
    pub spreading_factor: u8,
}

/// The parameters of the collection tree protocol.
#[derive(Debug, Clone, Copy, PartialEq, Eq, Structural)]
pub struct CtpConfig {
    pub beacon_min_interval: Duration,
    pub beacon_max_interval: Duration,
    pub neighbor_expiration: Duration,
    /// The ratio of the old path metric to the new one from which on an
    /// improvement is announced at once.
    pub cost_improvement_reset: Single,
    /// The weight of a new sample in the delivery averages.
    pub ewma_alpha: Single,
}

/// The parameters of the mesh.
#[derive(Debug)]
pub struct MeshConfig {
    pub border_gateway: bool,
    pub max_hop_count: u8,
    pub frequencies: Vec<u32>,
    pub tx_power: i32,
    pub data_rate: DataRate,
    /// All zeros where the key is to be derived from the root key.
    pub signing_key: [u8; 16],
    pub ctp: CtpConfig,
}

} // verus!
