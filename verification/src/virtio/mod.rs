//! The driver for legacy virtio block devices: what it decides and computes.
//! Port and memory accesses are made by whoever runs it.

pub mod laws;
pub mod pci;
pub mod request;
pub mod ring;
pub mod setup;
pub mod transfer;
