//! Persistent metadata store for a note-taking application.
//!
//! Two independent namespaces (application settings and per-path metadata)
//! are backed by flat text files holding named sections of ordered
//! option/value pairs.  This crate provides the verified core: the flat
//! section store with its parser and serializer, the namespace wrapper,
//! and the reverse lookup used to build the pinned-notes index.  File and
//! directory I/O stay with the caller, which hands file contents in and
//! writes rendered text back.

pub mod config;
pub mod directories;
pub mod notes;
pub mod store;
pub mod strutil;
pub mod text;
