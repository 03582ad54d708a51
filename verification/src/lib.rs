//! Command parsing and decision logic of a quote-of-the-day (RFC 865) server.

pub mod text;
pub mod quoted;
pub mod adm_commands;
pub mod numbers;
pub mod db_operations;
pub mod server_handling;
