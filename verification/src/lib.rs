//! Verified core of a small application launcher.

pub mod bitmap;
pub mod catalog;
pub mod entry;
pub mod hex;
pub mod icon;
pub mod keys;
pub mod launch;
pub mod numeral;
pub mod offsets;
pub mod places;
pub mod state;
pub mod surface;
pub mod text;
pub mod theme;
pub mod xpm;
