//! Duplicate-file detection and resolution.
//!
//! Files are duplicates of each other when their contents are the same bytes.
//! Detection has two stages. Candidates are first grouped by byte length
//! ([`size_grouper`]), since files of different lengths cannot be equal; the
//! files that share a length are hashed ([`hasher`]) and grouped by digest
//! ([`hash_grouper`]). [`detection`] ties the stages together. What is then
//! done with the duplicates is decided by the [`resolver`]: a listing, a
//! written [`report`], automatic removal or removal after asking.
//!
//! The library decides and computes; it reads no file and deletes none. The
//! caller walks the directory, reads contents, prompts and deletes, and hands
//! the library plain values. [`filter`] says which entries are candidates,
//! [`error`] what a failure means for the run.
//!
//! Every function is verified against the contract it carries. The digest
//! and its hexadecimal rendering come from the `sha2` and `hex` crates, lower
//! case and white space from the standard library; what is assumed of them is
//! stated where they are called.

pub mod detection;
pub mod error;
pub mod filter;
pub mod grouping;
pub mod hash_grouper;
pub mod hasher;
pub mod report;
pub mod resolver;
pub mod size_grouper;
pub mod text;
