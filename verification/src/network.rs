//! The social graph and the ego-centric neighborhood built on top of it.

pub mod base;
pub mod follow;

pub use base::EdgeIndex;
pub use base::EdgeKind;
pub use base::Network;
