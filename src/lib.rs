//! Keeps the AAAA records of a BIND zone in step with a delegated IPv6
//! prefix: reads each listed host's address, and where its network part has
//! drifted from the discovered one, moves it there while keeping its host
//! part and every other character of the zone.
pub mod address;
pub mod interface;
pub mod record;
pub mod rerun;
pub mod run;
pub mod zone;
