//! Modern VirtIO drivers over windows of shared memory.
pub mod block;
pub mod command;
pub mod config;
pub mod domain;
pub mod engine;
pub mod error;
pub mod iommu;
pub mod iova;
pub mod net;
pub mod nic;
pub mod notify;
pub mod queue;
pub mod request;
pub mod sector;
pub mod setup;
pub mod slots;
pub mod transport;
pub mod wire;
