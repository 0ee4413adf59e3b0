//! Forwarding of LoRaWAN frames through a mesh of gateways: airtimes and link
//! estimates, queues, the collection tree protocol, and the packets that carry
//! uplinks, downlinks, events and commands.
pub mod accuracy;
pub mod ack_lite;
pub mod airtime;
pub mod average;
pub mod config;
pub mod exact;
pub mod fixed;
pub mod frames;
pub mod hexadecimal;
pub mod jit_guard;
pub mod link_estimator;
pub mod metadata;
pub mod mesh;
pub mod narrow;
pub mod order;
pub mod packets;
pub mod phy_profile;
pub mod relay;
pub mod rounding;
pub mod routing;
pub mod scheduler;
pub mod share;
pub mod single;
pub mod telemetry;
pub mod text;
pub mod time;
pub mod tolerance;
pub mod transmissions;
