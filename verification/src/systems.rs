//! The phases of a tick.

pub mod init;
pub mod signals;
pub mod computed;
pub mod effects;
