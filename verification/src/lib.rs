//! The builtin tools of a coding agent: what they read, edit, list and
//! report, which of them are offered, and what the host has to know of a call
//! before it is carried out.
//!
//! The library decides and renders. Files, processes and the clock belong to
//! its caller, who hands in what was read and carries out what is returned.
pub mod artifact;
pub mod attribution;
pub mod capability;
pub mod classify;
pub mod context;
pub mod cursor;
pub mod diagnostics;
pub mod echo;
pub mod edit;
pub mod facts;
pub mod fs_list;
pub mod fs_read;
pub mod fs_write;
pub mod git;
pub mod host_policies;
pub mod matching;
pub mod order;
pub mod outcome;
pub mod outside;
pub mod page;
pub mod patch;
pub mod python;
pub mod registry;
pub mod supervision;
pub mod symbols;
pub mod text;
pub mod view;
