//! Rebuilding a shell's environment as it was before a hook changed it.
//!
//! A hook records what it changed as a diff (`diff`), carried between runs as
//! text (`codec`). Undoing it means applying the reversed diff's patches and
//! taking the injected entries back out of `PATH` (`paths`, `env`), over
//! environment snapshots (`snapshot`).

pub mod snapshot;
pub mod diff;
pub mod paths;
pub mod env;
pub mod codec;
