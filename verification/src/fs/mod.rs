//! MoltFS, a checksummed writable filesystem over a block device.
//!
//! A sync flushes payload and metadata before publishing their root through the
//! older of two generation-stamped superblocks, then flushes the superblock.
//! Power loss therefore leaves either the previous generation or the complete
//! new generation mountable, without a check of the whole volume.
pub mod error;
pub mod layout;
pub mod log;
pub mod name;
pub mod slots;
pub mod survey;
pub mod volume;
pub mod walk;
