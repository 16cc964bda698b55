//! Material requirements for small electronics production runs: bills of
//! materials, inventory lots, open builds, shortage reports and the inventory
//! allocation that completes a build.

pub mod error;
pub mod models;
pub mod bom;
pub mod inventory;
pub mod builds;
pub mod text;
pub mod prompt;
pub mod config;
pub mod schematic;
