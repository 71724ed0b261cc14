//! Bay Buddy: the verified core of a desktop companion for ThermalTrace.

pub mod text;
pub mod trusted;
pub mod puck;
pub mod secret;
pub mod url;
pub mod loopback;
pub mod session;
pub mod clock;
pub mod readings;
pub mod claim;
