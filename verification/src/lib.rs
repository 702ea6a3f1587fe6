//! Finds directories whose contents largely overlap.
//!
//! Every file is summarised by a cheap fingerprint (a checksum of its leading
//! bytes combined with its size). Two inverted indexes, fingerprint to
//! directories and directory to fingerprints, are built from the fingerprints;
//! the matcher derives from them the directory pairs that share files, and the
//! ranking step orders those pairs by how much they share.

pub mod checksum;
pub mod config;
pub mod index;
pub mod links;
pub mod matcher;
pub mod order;
pub mod overlap;
pub mod rank;
pub mod record;
pub mod report;
