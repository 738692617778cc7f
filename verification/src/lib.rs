//! Verified core of a Telegram API server: a parser for TL schema files,
//! the session registry and message routing of the chat server, and the
//! API method handlers.

pub mod chat;
pub mod handler;
pub mod text;
pub mod tl;
pub mod tl_parse;
pub mod tl_file;

pub use tl_file::parse_tl_file;
