//! Request URI parsing and server settings.

pub mod instance;
pub mod config;

pub use self::config::Scheme;
