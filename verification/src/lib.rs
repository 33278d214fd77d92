//! The repository logic of a store for snapshots of build outputs.
//!
//! A repository keeps its data in one directory below its root. A snapshot is
//! a list of files; the contents of a file are an object, named by a checksum.
//! Objects live in packs or, unpacked, in files of their own. This crate
//! decides what a repository does: which files an extraction removes, checks
//! and writes, what a new snapshot has to store, how the index of the packs is
//! rebuilt, and what the files of the data directory mean. Reading and writing
//! those files is left to the program that uses it.

pub mod byteset;
pub mod checkout_laws;
pub mod constants;
pub mod diff;
pub mod disk;
pub mod error;
pub mod extract;
pub mod extract_laws;
pub mod file_list;
pub mod index;
pub mod layout;
pub mod options;
pub mod order;
pub mod pack;
pub mod packidx;
pub mod path;
pub mod read_only;
pub mod rebuild;
pub mod repository;
pub mod round_trip;
pub mod run;
pub mod snapshot;
pub mod store;
