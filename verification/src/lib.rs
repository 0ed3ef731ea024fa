//! Connection helper for Android Debug Bridge: parsing of ADB replies and
//! user input, message selection, and the decisions of the connection loop.

pub mod text;
pub mod platform;
pub mod i18n;
pub mod address;
pub mod model;
pub mod setup;
pub mod adb;
pub mod worker;
