//! Verified core of a family router monitor: lease-file lookups, packet
//! inspection, per-device throughput tracking and the small decisions made by
//! the web handlers.

pub mod models;
pub mod text;
pub mod network;
pub mod device_tracking;
pub mod parsepacket;
pub mod route_users;
pub mod route_devices;
