//! Records exchanged with the catalog and with clients.
pub mod queries;
pub mod responses;
pub mod tables;
pub mod views;
