//! The disk page of a system monitor, as a verified model.
//!
//! A [`panel::DiskPanel`] keeps one display row per mounted volume and is
//! brought in line with each fresh list of disks: rows of mounts that are
//! still there are rewritten in place, unseen mounts get a row at the end, and
//! rows of mounts that went away are dropped. The widgets themselves live
//! outside this crate; it computes what they have to show.

pub mod disk;
pub mod format;
pub mod laws;
pub mod model;
pub mod panel;
pub mod snapshot;
