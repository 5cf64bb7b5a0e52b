//! The attribute values that a Bluetooth LE host keeps per client.

pub mod builder;
pub mod bytes;
pub mod client_laws;
pub mod clients;
pub mod config;
pub mod entry;
pub mod error;
pub mod format_laws;
pub mod identity;
pub mod layout;
pub mod table;
pub mod table_laws;
pub mod view;
