//! Inspection and extraction planning for archives handled by an external
//! 7-Zip command line tool.
//!
//! The library reads what the tool prints and decides what is to be done
//! next; it runs no process and touches no file. Listings are read into a
//! file tree (`listing`, `fs_tree`, `contents`), the names of split archives
//! are resolved (`multi_volume`), failed listings are retried with other
//! passwords and codepages (`retry`), and an extraction is led through its
//! phases, into a staging directory and from there to its place (`unzip`,
//! `staging`). `command` holds the command lines of the tool and the reading
//! of its exit and output, `tree_laws` what holds of file trees whatever the
//! order of their entries.

pub mod codepage;
pub mod command;
pub mod config;
pub mod contents;
pub mod error;
pub mod events;
pub mod fs_tree;
pub mod listing;
pub mod modified;
pub mod multi_volume;
pub mod node;
pub mod retry;
pub mod staging;
pub mod text;
pub mod tree_laws;
pub mod unzip;
