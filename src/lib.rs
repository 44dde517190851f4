//! Per-process memory snapshots: a bounded history store, the line protocol
//! that persists it, and the transforms used to present it.

pub mod decimal;
pub mod text;
pub mod timestamp;
pub mod record;
pub mod protocol;
pub mod store;
pub mod present;
pub mod round_trip;
