//! Planning and bookkeeping for mirroring a local project tree onto an FTP server.
//!
//! The crate performs no input or output. A driver lists directories, reads files
//! and talks to the server; every decision about what to do next, and every path
//! that is sent, is computed here.
//!
//! - `config`: the settings of a synchronisation.
//! - `path`: paths as segments; the extension of a file; where a local file goes
//!   on the server; the directories that lead to a remote path.
//! - `discovery`: the search for the files to upload, one listing at a time.
//! - `tree`: what that search finds in a given tree.
//! - `session`: the state of the connection, and the remote directories made in it.
//! - `job`: a whole synchronisation as commands to a driver and its replies.
//! - `plugin`: what the editor holds while the plugin is loaded.
//! - `error`: the ways in which a synchronisation can fail.

pub mod config;
pub mod discovery;
pub mod error;
pub mod job;
pub mod path;
pub mod plugin;
pub mod session;
pub mod tree;
