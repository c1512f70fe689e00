//! Maintains a single managed line inside a system hosts file: hostname
//! groups kept in a configuration document are rendered into one line that
//! redirects the listed domains to the loopback address, and that line is
//! merged idempotently into otherwise untouched hosts-file content. The
//! group document itself is mutated through explicit add, delete and toggle
//! operations, and a small state machine models the staged, privileged
//! write of the merged content.

pub mod groups;
pub mod line;
pub mod merge;
pub mod run;
pub mod store;
pub mod text;
