//! Kernel extensions for block storage: an ext2 file system that sits on a disk
//! driver, and the driver for legacy virtio block devices.
//!
//! - [`abi`] has the error codes and the types that cross the extension interface,
//!   [`codec`] the integers and bytes in buffers, [`trace`] the lines for the log.
//! - [`disk`] says what a disk driver is, [`memdisk`] is one that holds its disk in
//!   memory, and [`virtio`] is the driver for the real device.
//! - [`state`] is the mounted volume and transfers of bytes. On it build [`layout`]
//!   (superblock, descriptors and inodes), [`path`], [`dir`], [`file`],
//!   [`bitmap`], [`mapping`] and [`entry`], and on those the operations in
//!   [`ops`], [`write`] and [`create`].
//! - [`trail`] says which places of a disk an operation stores to.
//! - [`laws`] states what holds of the operations together, of their models and of
//!   calls, and [`virtio::laws`] what the driver does with a device, in plain numbers.
//!
//! Each operation has a model, a spec function over the contents of the disk, and
//! its contract says that it does what the model does unless the driver fails a
//! request. Where the driver does, nothing has changed but the places that the
//! operation stores to and what the failed requests have left behind.

pub mod abi;
pub mod bitmap;
pub mod codec;
pub mod create;
pub mod dir;
pub mod disk;
pub mod entry;
pub mod file;
pub mod laws;
pub mod layout;
pub mod mapping;
pub mod memdisk;
pub mod ops;
pub mod path;
pub mod state;
pub mod trace;
pub mod trail;
pub mod virtio;
pub mod write;
