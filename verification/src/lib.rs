//! SapVault core: the verified logic of a local password manager for SAP and
//! everyday accounts.

pub mod b64;
pub mod clipboard;
pub mod commands;
pub mod crypto;
pub mod error;
pub mod icon;
pub mod keys;
pub mod landscape;
pub mod model;
pub mod patch;
pub mod rules;
pub mod sap;
pub mod scanner;
pub mod sapgui;
pub mod state;
pub mod saplogon;
pub mod store;
pub mod sync;
pub mod text;
