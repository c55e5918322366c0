//! Reclaims the space that build artifacts take up below a directory: Cargo
//! targets, `node_modules`, Python environments and scratch directories.

pub mod action;
pub mod binary;
pub mod build_laws;
pub mod counting_laws;
pub mod dashboard;
pub mod deletion_laws;
pub mod discover;
pub mod disk;
pub mod display_laws;
pub mod execute;
pub mod execution_laws;
pub mod finding_laws;
pub mod format;
pub mod number_laws;
pub mod path;
pub mod path_lock;
pub mod path_set;
pub mod place_laws;
pub mod proc;
pub mod removal_laws;
pub mod removal_on_disk;
pub mod remove;
pub mod screen;
pub mod summary;
pub mod text;
pub mod ui;
pub mod walk_on_disk;
pub mod wording_laws;
