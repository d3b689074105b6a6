//! Verified core of QMKonnect: window-rule matching, QMK Raw HID
//! recognition, the keyboard handshake and presence logic, configuration
//! rendering and caching, and the error types.

pub mod config;
pub mod errors;
pub mod hid_id;
pub mod keyed;
pub mod notifier;
pub mod pattern;
pub mod text;
