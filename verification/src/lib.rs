//! The verified core of a network monitor that doubles as a filtering DNS server.

pub mod addr;
pub mod alerts;
pub mod api;
pub mod blocklist;
pub mod config;
pub mod db;
pub mod devices;
pub mod dns;
pub mod laws;
pub mod monitor;
pub mod netinfo;
pub mod number;
pub mod oui;
pub mod table;
pub mod text;
