//! A light HTTP framework core: route trees, request parameters and
//! URI parsing, with their behaviour stated and proved.

pub mod body;
pub mod cache;
pub mod context;
pub mod utils;
pub mod method;
pub mod router;
pub mod server;
pub mod response;
pub mod filter;
pub mod filter_stack;
pub mod plugin;
pub mod handler;
pub mod file;
pub mod file_loader;

pub use context::{MaybeUtf8, MaybeUtf8Owned};
