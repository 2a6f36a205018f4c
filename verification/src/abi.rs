//! The kernel-extension interface: error codes and the types that cross it.

use vstd::prelude::*;

verus! {

/// Version of the extension interface that the modules are built for.
pub const MCX_CEXT_ABI: u16 = 1;

pub const MCX_LOG_ERROR: u32 = 0;
pub const MCX_LOG_WARN: u32 = 1;
pub const MCX_LOG_INFO: u32 = 2;
pub const MCX_LOG_DEBUG: u32 = 3;

pub const ENOENT: i32 = -2;
pub const EIO: i32 = -5;
pub const ENXIO: i32 = -6;
pub const EFAULT: i32 = -14;
pub const EEXIST: i32 = -17;
pub const EINVAL: i32 = -22;
pub const EISDIR: i32 = -21;
pub const ENOTDIR: i32 = -20;
pub const ENOSPC: i32 = -28;
pub const ENOSYS: i32 = -38;

/// Memory that is shared with a device: its address, its address as the device
/// sees it, and its length.
#[derive(Clone, Copy)]
pub struct McxDmaRegion {
    pub virt: usize,
    pub phys: u64,
    pub len: usize,
}

/// What the kernel tells of its interface.
#[derive(Clone, Copy)]
pub struct McxKernelApi {
    pub abi: u16,
    pub struct_size: u16,
}

/// Whether a module starts: there must be a kernel interface, of the version
/// that the module is built for.
pub fn mochi_module_init(api: Option<McxKernelApi>) -> (starts: bool)
    ensures
        starts == (api is Some && api->Some_0.abi == MCX_CEXT_ABI),
{
    match api {
        None => false,
        Some(api) => api.abi == MCX_CEXT_ABI,
    }
}

/// A path that a caller hands over; `None` stands for a null pointer.
#[derive(Clone, Copy)]
pub struct McxPath<'a> {
    pub ptr: Option<&'a [u8]>,
}

/// A buffer that a caller hands over; `None` stands for a null pointer.
pub struct McxBuffer {
    pub ptr: Option<Vec<u8>>,
}

/// The bytes of a path, where there are any.
pub fn path_bytes<'a>(path: McxPath<'a>) -> (bytes: Option<&'a [u8]>)
    ensures
        bytes == path.ptr,
{
    path.ptr
}

/// The codes of the errors and the levels of the log.
pub proof fn law_codes()
    ensures
        ENOENT == -2,
        EIO == -5,
        ENXIO == -6,
        EFAULT == -14,
        EEXIST == -17,
        ENOTDIR == -20,
        EISDIR == -21,
        EINVAL == -22,
        ENOSPC == -28,
        ENOSYS == -38,
        MCX_LOG_ERROR == 0,
        MCX_LOG_WARN == 1,
        MCX_LOG_INFO == 2,
        MCX_LOG_DEBUG == 3,
{
}

} // verus!
