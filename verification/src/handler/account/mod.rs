//! Handlers of the `account.*` methods.

pub mod two_fa;
