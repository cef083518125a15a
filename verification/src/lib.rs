//! A verified engine for directory backups: it decides which entries of a
//! directory tree are excluded by filters, keeps the work list of a
//! depth-first walk, names each file inside the archive, and decides how an
//! operator's answer to a failure is carried out.
//!
//! The library never touches the disk. A caller lists directories, probes
//! paths, opens files and writes the archive; it hands the library what it
//! saw as plain values and acts on what the library decides.

pub mod archive;
pub mod commands;
pub mod disk;
pub mod filter;
pub mod layout;
pub mod model;
pub mod paths;
pub mod prune;
pub mod recovery;
pub mod walker;
