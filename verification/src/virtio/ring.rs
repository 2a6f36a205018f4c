//! The memory that the driver shares with the device.

use vstd::arithmetic::div_mod::lemma_fundamental_div_mod;
use vstd::arithmetic::power2::{lemma2_to64, lemma_pow2_pos, pow2};
use vstd::bits::{lemma_usize_low_bits_mask_is_mod, low_bits_mask};
use vstd::prelude::*;
use crate::abi::McxDmaRegion;

verus! {

/// Alignment of the used ring.
pub const QUEUE_ALIGN: usize = 4096;

/// Bytes of one descriptor.
pub const DESC_SIZE: usize = 16;

/// Bytes of one element of the used ring.
pub const USED_ELEM_SIZE: usize = 8;

/// Bytes of the header of a request.
pub const REQ_SIZE: usize = 16;

/// The least multiple of `align` that is not below `value`.
pub open spec fn rounded_up(value: int, align: int) -> int {
    (value + align - 1) / align * align
}

/// Rounds up to a multiple of `align`, which is meant to be a power of two.
pub fn align_up(value: usize, align: usize) -> (r: usize)
    requires
        1 <= align,
        value + align - 1 <= usize::MAX,
    ensures
        r == ((value + align - 1) as usize) & !((align - 1) as usize),
        forall|n: nat|
            n < usize::BITS && align == #[trigger] pow2(n) ==> r == rounded_up(
                value as int,
                align as int,
            ),
{
    let x: usize = value + (align - 1);
    let m: usize = align - 1;
    let r: usize = x & !m;
    proof {
        assert forall|n: nat| n < usize::BITS && align == #[trigger] pow2(n) implies r
            == rounded_up(value as int, align as int) by {
            lemma_pow2_pos(n);
            lemma_usize_low_bits_mask_is_mod(x, n);
            assert(low_bits_mask(n) == m);
            assert(r == x - (x & m)) by (bit_vector)
                requires
                    r == x & !m,
            ;
            lemma_fundamental_div_mod(x as int, align as int);
            assert(align * (x as int / align as int) == (x as int / align as int) * align)
                by (nonlinear_arith);
        }
    }
    r
}

/// Where in the shared memory of a queue of a size the available ring lies: right
/// behind the descriptors, which come first.
pub open spec fn avail_at(queue_size: u16) -> int {
    16 * queue_size
}

/// Where the used ring lies: at the next page.
pub open spec fn used_at(queue_size: u16) -> int {
    rounded_up(avail_at(queue_size) + 6 + 2 * queue_size, 4096)
}

/// Where the header of the request lies.
pub open spec fn req_at(queue_size: u16) -> int {
    rounded_up(used_at(queue_size) + 6 + 8 * queue_size, 16)
}

/// Where the sector that is read goes.
pub open spec fn data_at(queue_size: u16) -> int {
    req_at(queue_size) + 16
}

/// Where the device puts its status.
pub open spec fn status_at(queue_size: u16) -> int {
    data_at(queue_size) + 512
}

/// Bytes of shared memory that a queue of a size takes, in whole pages.
pub open spec fn ring_size(queue_size: u16) -> int {
    rounded_up(status_at(queue_size) + 1, 4096)
}

/// The parts of the shared memory lie one behind the other without overlap, and
/// all in the memory that is asked for: descriptors, available ring, used ring,
/// request, data and status. The used ring starts at a page and the request at
/// a multiple of 16.
pub proof fn law_ring_parts(queue_size: u16)
    ensures
        avail_at(queue_size) == 16 * queue_size,
        avail_at(queue_size) + 6 + 2 * queue_size <= used_at(queue_size),
        used_at(queue_size) + 6 + 8 * queue_size <= req_at(queue_size),
        req_at(queue_size) + 16 == data_at(queue_size),
        data_at(queue_size) + 512 == status_at(queue_size),
        status_at(queue_size) < ring_size(queue_size) <= 0x40_0000,
        used_at(queue_size) % 4096 == 0,
        req_at(queue_size) % 16 == 0,
        ring_size(queue_size) % 4096 == 0,
{
}

/// Bytes of shared memory that a queue of a size takes.
pub fn ring_dma_bytes(queue_size: u16) -> (n: usize)
    ensures
        n == ring_size(queue_size),
{
    proof {
        lemma2_to64();
        law_ring_parts(queue_size);
    }
    let desc: usize = DESC_SIZE * queue_size as usize;
    let avail: usize = 6 + queue_size as usize * 2;
    let used: usize = 6 + queue_size as usize * USED_ELEM_SIZE;
    assert(pow2(12) == QUEUE_ALIGN && pow2(4) == 16);
    let used_off: usize = align_up(desc + avail, QUEUE_ALIGN);
    let req_off: usize = align_up(used_off + used, 16);
    align_up(req_off + REQ_SIZE + 512 + 1, 4096)
}

/// A device that is set up.
#[derive(Clone, Copy)]
pub struct DriverState {
    pub io_base: u16,
    pub capacity_sectors: u64,
    pub dma: McxDmaRegion,
    pub queue_size: u16,
}

impl DriverState {
    /// Whether the queue has room for a request and the shared memory for the
    /// queue.
    pub open spec fn wf(self) -> bool {
        &&& self.queue_size >= 3
        &&& self.dma.virt != 0
        &&& self.dma.phys != 0
        &&& self.dma.len >= ring_size(self.queue_size)
    }

    /// The address, as the device sees it, of what lies at an offset of the
    /// shared memory.
    pub open spec fn phys_at(self, offset: int) -> u64 {
        ((self.dma.phys + offset) % 0x1_0000_0000_0000_0000) as u64
    }

    /// Bytes of the descriptors.
    pub fn desc_bytes(&self) -> (n: usize)
        ensures
            n == 16 * self.queue_size,
    {
        DESC_SIZE * self.queue_size as usize
    }

    /// Bytes of the available ring.
    pub fn avail_bytes(&self) -> (n: usize)
        ensures
            n == 6 + 2 * self.queue_size,
    {
        6 + self.queue_size as usize * 2
    }

    /// Bytes of the used ring.
    pub fn used_bytes(&self) -> (n: usize)
        ensures
            n == 6 + 8 * self.queue_size,
    {
        6 + self.queue_size as usize * USED_ELEM_SIZE
    }

    /// Where in the shared memory the descriptors lie.
    pub fn desc_ptr(&self) -> (offset: usize)
        ensures
            offset == 0,
    {
        0
    }

    /// Where in the shared memory the available ring lies.
    pub fn avail_ptr(&self) -> (offset: usize)
        ensures
            offset == avail_at(self.queue_size),
    {
        self.desc_bytes()
    }

    /// Where in the shared memory the slots of the available ring lie.
    pub fn avail_ring_ptr(&self) -> (offset: usize)
        ensures
            offset == avail_at(self.queue_size) + 4,
    {
        self.desc_bytes() + 4
    }

    /// Where in the shared memory the used ring lies.
    pub fn used_ptr(&self) -> (offset: usize)
        ensures
            offset == used_at(self.queue_size),
    {
        proof {
            lemma2_to64();
        }
        assert(pow2(12) == QUEUE_ALIGN);
        align_up(self.desc_bytes() + self.avail_bytes(), QUEUE_ALIGN)
    }

    /// Where in the shared memory the elements of the used ring lie.
    pub fn used_ring_ptr(&self) -> (offset: usize)
        ensures
            offset == used_at(self.queue_size) + 4,
    {
        proof {
            law_ring_parts(self.queue_size);
        }
        self.used_ptr() + 4
    }

    /// Where in the shared memory the request lies.
    pub fn req_ptr(&self) -> (offset: usize)
        ensures
            offset == req_at(self.queue_size),
    {
        proof {
            lemma2_to64();
            law_ring_parts(self.queue_size);
        }
        assert(pow2(4) == 16);
        align_up(self.used_ptr() + self.used_bytes(), 16)
    }

    /// Where in the shared memory the data lie.
    pub fn data_ptr(&self) -> (offset: usize)
        ensures
            offset == data_at(self.queue_size),
    {
        proof {
            law_ring_parts(self.queue_size);
        }
        self.req_ptr() + REQ_SIZE
    }

    /// Where in the shared memory the status lies.
    pub fn status_ptr(&self) -> (offset: usize)
        ensures
            offset == status_at(self.queue_size),
    {
        proof {
            law_ring_parts(self.queue_size);
        }
        self.data_ptr() + 512
    }

    /// Where the device sees the request.
    pub fn req_phys(&self) -> (address: u64)
        ensures
            address == self.phys_at(req_at(self.queue_size)),
    {
        proof {
            law_ring_parts(self.queue_size);
        }
        self.dma.phys.wrapping_add(self.req_ptr() as u64)
    }

    /// Where the device sees the data.
    pub fn data_phys(&self) -> (address: u64)
        ensures
            address == self.phys_at(data_at(self.queue_size)),
    {
        proof {
            law_ring_parts(self.queue_size);
        }
        self.dma.phys.wrapping_add(self.data_ptr() as u64)
    }

    /// Where the device sees the status.
    pub fn status_phys(&self) -> (address: u64)
        ensures
            address == self.phys_at(status_at(self.queue_size)),
    {
        proof {
            law_ring_parts(self.queue_size);
        }
        self.dma.phys.wrapping_add(self.status_ptr() as u64)
    }
}

} // verus!
