//! The Launchpad S grid device.

pub mod input;
