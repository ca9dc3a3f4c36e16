//! Core of a reader for ZIM archives served by a cairn daemon.

pub mod code;
pub mod error;
pub mod chars;
pub mod client;
pub mod format;
pub mod model;
pub mod percent;
pub mod scheme;
pub mod settings;
pub mod store;
pub mod toc;
