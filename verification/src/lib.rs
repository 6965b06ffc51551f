//! The rules of FileTrail, a tool that copies chosen files into a Git repository.
//!
//! Nothing here touches a file, a process or a repository. An operation that has to, such as a pass of
//! synchronization ([`pass`]) or a restoration ([`restoration`]), says what it wants next, and goes on
//! when it is told what came of it ([`exchange`]).

pub mod commands;
pub mod commit;
pub mod completion;
pub mod config;
pub mod daemon;
pub mod error;
pub mod escape;
pub mod exchange;
pub mod fingerprint;
pub mod git;
pub mod globs;
pub mod laws;
pub mod lifecycle;
pub mod manifest;
pub mod order;
pub mod pass;
pub mod path;
pub mod rehearsal;
pub mod repetition;
pub mod restoration;
pub mod restore;
pub mod service;
pub mod state;
pub mod sync;
pub mod table;
pub mod text;
