//! Keeping a directory on a server the same as a local one.
//!
//! `walk` makes snapshots, `diffing` compares them, `plan` decides what to do on the server, `run`
//! does it request by request, and `server` answers the requests. `session` leads the client
//! through all of that.
pub mod cli;
pub mod diffing;
pub mod entries;
pub mod item_laws;
pub mod order;
pub mod path;
pub mod plan;
pub mod remote;
pub mod report;
pub mod run;
pub mod server;
pub mod session;
pub mod snapshot;
pub mod sync_laws;
pub mod text;
pub mod walk;
