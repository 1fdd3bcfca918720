//! A chain of byte regions that are read in place and copied only on demand.
//!
//! A [`Buffer`] wraps one region of bytes that lives elsewhere. Further
//! regions can be appended without copying; the chain reports its total
//! length and can be flattened into one owned `Vec<u8>`. A region may come
//! with a [`Release`] object. When the chain is told to give its regions up,
//! with [`Buffer::release`], it asks each such object once, for the region
//! of the node that holds it. A chain that is only dropped asks nobody.

pub mod buffer;
pub mod laws;

pub use buffer::Buffer;
pub use buffer::Release;
pub use buffer::ReleaseFn;
