//! Scheduling of frames that wait for a transmission slot.
pub mod accounts;
pub mod drr;
