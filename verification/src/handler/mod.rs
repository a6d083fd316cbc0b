//! Request handler composition.

pub mod or_else;
pub mod status_router;

pub use self::or_else::OrElse;
pub use self::status_router::StatusRouter;
