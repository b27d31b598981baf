//! Keeps a directory tree within a storage budget.
//!
//! One tick of the engine scans the tree into an [`inventory::Inventory`],
//! decides whether the tree has outgrown its ceiling, and if so gives up the
//! oldest files one by one until the total has fallen to the low-water mark.
//! Directories that hold no tracked file any more are then offered for removal.
//!
//! The library never touches the file system. It decides; its caller lists
//! directories, deletes what it is told to delete, and reports back what
//! happened.

pub mod counts;
pub mod evict;
pub mod inventory;
pub mod laws;
pub mod order;
pub mod plan;
pub mod policy;
pub mod scan;
