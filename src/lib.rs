//! Runtime core of an incremental composition engine: stable identities for
//! nested calls, a registry of scopes that own state cells, dirty tracking,
//! channels into the tree and the driver that runs passes.

pub mod identity;
pub mod scope;
pub mod channel;
pub mod driver;
pub mod workspace;
