//! A mutation-logging overlay filesystem core with a replayable
//! state-diff protocol.
//!
//! The interceptor side records every successful namespace and content
//! mutation as an ordered log of actions over stable file identifiers
//! (FIDs); the log can be pruned to a semantically equivalent shorter
//! form, serialised in a fixed little-endian wire format, optionally
//! compressed with an adaptively trained dictionary, and served over a
//! one-byte command protocol. The applier side decodes such a payload and
//! turns each action into the filesystem step that replays it against a
//! target directory.

pub mod applier;
pub mod codec;
pub mod compress;
pub mod inode;
pub mod intercept;
pub mod prune;
pub mod semantics;
pub mod server;
pub mod statediff;

pub use statediff::{StateDiffAction, StateDiffLog};
