//! Recursive archive expansion for a log viewer.
//!
//! A dropped file is copied into a scratch directory, classified from its
//! leading bytes, and, when it is an archive, unpacked and expanded again
//! until only plain files remain. The decisions are made here; the file
//! system work is done by the caller, which feeds the outcome of each
//! request back into an [`expand::Expansion`].

pub mod expand;
pub mod paths;
pub mod runner;
pub mod scratch;
pub mod sniff;
pub mod theorems;


