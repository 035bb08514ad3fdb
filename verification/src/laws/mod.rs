//! What holds of the parts as wholes, told by what goes in and what comes out.

pub mod access;
pub mod addresses;
pub mod devices;
pub mod lists;
pub mod network;
pub mod replies;
pub mod settings;
pub mod store;
pub mod views;
pub mod words;
