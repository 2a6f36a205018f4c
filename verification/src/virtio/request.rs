//! Reading sectors: the requests that are put in the queue and what comes of
//! them.

use vstd::prelude::*;
use crate::abi::{EINVAL, EIO, ENOSYS, ENXIO};
use crate::virtio::ring::{data_at, law_ring_parts, req_at, status_at, DriverState, REQ_SIZE};

verus! {

pub const VIRTIO_BLK_T_IN: u32 = 0;
pub const VIRTQ_DESC_F_NEXT: u16 = 1;
pub const VIRTQ_DESC_F_WRITE: u16 = 2;

/// The one disk that the driver has.
pub const DISK_ID: u32 = 0;

/// How often the device is asked whether it is done before it is given up.
pub const SPIN_LIMIT: u32 = 100_000_000;

/// One descriptor of the queue.
#[derive(Clone, Copy)]
pub struct VirtqDesc {
    pub addr: u64,
    pub len: u32,
    pub flags: u16,
    pub next: u16,
}

/// The header of a request.
#[derive(Clone, Copy)]
pub struct VirtioBlkReq {
    pub typ: u32,
    pub reserved: u32,
    pub sector: u64,
}

/// What is put in the shared memory to read a sector.
#[derive(Clone, Copy)]
pub struct ReadRequest {
    pub req: VirtioBlkReq,
    /// The descriptor of the header.
    pub head: VirtqDesc,
    /// The descriptor of the data.
    pub data: VirtqDesc,
    /// The descriptor of the status.
    pub status: VirtqDesc,
    /// The slot of the available ring that names the first descriptor.
    pub avail_slot: usize,
    /// The index of the available ring after the request.
    pub avail_next: u16,
    /// The element of the used ring that the answer is in.
    pub used_slot: usize,
}

/// What to do while the device works.
pub enum Wait {
    /// It is done.
    Done,
    /// Ask again; so many times it was asked.
    Again(u32),
    /// Give up.
    TimedOut,
}

/// The successor of a 16-bit index, which wraps.
pub open spec fn next_index(index: u16) -> u16 {
    if index == 0xffff {
        0
    } else {
        (index + 1) as u16
    }
}

impl DriverState {
    /// The request to read a sector, at given indices of the two rings.
    pub open spec fn read_request(self, sector: u64, used_idx: u16, avail_idx: u16) -> ReadRequest {
        ReadRequest {
            req: VirtioBlkReq { typ: VIRTIO_BLK_T_IN, reserved: 0, sector },
            head: VirtqDesc {
                addr: self.phys_at(req_at(self.queue_size)),
                len: 16,
                flags: VIRTQ_DESC_F_NEXT,
                next: 1,
            },
            data: VirtqDesc {
                addr: self.phys_at(data_at(self.queue_size)),
                len: 512,
                flags: VIRTQ_DESC_F_WRITE | VIRTQ_DESC_F_NEXT,
                next: 2,
            },
            status: VirtqDesc {
                addr: self.phys_at(status_at(self.queue_size)),
                len: 1,
                flags: VIRTQ_DESC_F_WRITE,
                next: 0,
            },
            avail_slot: (avail_idx % self.queue_size) as usize,
            avail_next: next_index(avail_idx),
            used_slot: (used_idx % self.queue_size) as usize,
        }
    }

    /// The request to read a sector, at given indices of the two rings.
    pub fn submit_read(&self, sector: u64, used_idx: u16, avail_idx: u16) -> (r: ReadRequest)
        requires
            self.queue_size != 0,
        ensures
            r == self.read_request(sector, used_idx, avail_idx),
            r.avail_slot < self.queue_size,
            r.used_slot < self.queue_size,
    {
        ReadRequest {
            req: VirtioBlkReq { typ: VIRTIO_BLK_T_IN, reserved: 0, sector },
            head: VirtqDesc {
                addr: self.req_phys(),
                len: REQ_SIZE as u32,
                flags: VIRTQ_DESC_F_NEXT,
                next: 1,
            },
            data: VirtqDesc {
                addr: self.data_phys(),
                len: 512,
                flags: VIRTQ_DESC_F_WRITE | VIRTQ_DESC_F_NEXT,
                next: 2,
            },
            status: VirtqDesc {
                addr: self.status_phys(),
                len: 1,
                flags: VIRTQ_DESC_F_WRITE,
                next: 0,
            },
            avail_slot: (avail_idx % self.queue_size) as usize,
            avail_next: avail_idx.wrapping_add(1),
            used_slot: (used_idx % self.queue_size) as usize,
        }
    }
}

/// What to do after the device was asked `spins` times before and now shows
/// `used_now` as the index of its ring, which was `used_before` at the start.
pub open spec fn waited(spins: u32, used_before: u16, used_now: u16) -> Wait {
    if used_now != used_before {
        Wait::Done
    } else if spins + 1 == SPIN_LIMIT {
        Wait::TimedOut
    } else {
        Wait::Again((spins + 1) as u32)
    }
}

/// One look at the index of the used ring.
pub fn wait_step(spins: u32, used_before: u16, used_now: u16) -> (w: Wait)
    requires
        spins < SPIN_LIMIT,
    ensures
        w == waited(spins, used_before, used_now),
        w matches Wait::Again(n) ==> n < SPIN_LIMIT,
{
    if used_now != used_before {
        return Wait::Done;
    }
    let spins: u32 = spins + 1;
    if spins == SPIN_LIMIT {
        Wait::TimedOut
    } else {
        Wait::Again(spins)
    }
}

/// The sectors that a request for a buffer of `buf_len` bytes covers, or why it
/// is refused. `capacity` is the size of the disk in sectors, `None` where it is
/// not set up; `buf_len` is `None` where there is no buffer.
pub open spec fn read_plan(
    capacity: Option<u64>,
    disk_id: u32,
    lba: u64,
    buf_len: Option<usize>,
) -> Result<usize, i32> {
    match (capacity, buf_len) {
        (None, _) => Err(ENOSYS),
        (Some(_), None) => Err(EINVAL),
        (Some(capacity), Some(len)) => if disk_id != DISK_ID || len == 0 || len % 512 != 0 {
            Err(EINVAL)
        } else if lba + len / 512 > capacity {
            Err(EIO)
        } else {
            Ok((len / 512) as usize)
        },
    }
}

/// Checks a request for a buffer of `buf_len` bytes and gives the number of
/// sectors it covers.
pub fn check_read(capacity: Option<u64>, disk_id: u32, lba: u64, buf_len: Option<usize>) -> (r:
    Result<usize, i32>)
    ensures
        r == read_plan(capacity, disk_id, lba, buf_len),
{
    let capacity: u64 = match capacity {
        None => return Err(ENOSYS),
        Some(c) => c,
    };
    let len: usize = match buf_len {
        None => return Err(EINVAL),
        Some(n) => n,
    };
    if disk_id != DISK_ID || len == 0 || len % 512 != 0 {
        return Err(EINVAL);
    }
    let sectors: usize = len / 512;
    match lba.checked_add(sectors as u64) {
        None => Err(EIO),
        Some(end) => if end > capacity {
            Err(EIO)
        } else {
            Ok(sectors)
        },
    }
}

/// A read of several sectors, one after the other.
#[derive(Clone, Copy)]
pub struct SectorRead {
    pub lba: u64,
    pub sectors: usize,
    pub done: usize,
    pub rc: i32,
}

impl SectorRead {
    /// Whether the sectors exist and the buffer can be so long.
    pub open spec fn wf(self) -> bool {
        &&& self.done <= self.sectors
        &&& self.sectors <= usize::MAX / 512
        &&& self.lba + self.sectors <= u64::MAX
    }

    /// The next sector to read and where in the buffer it goes; none where all
    /// are read or one could not be.
    pub open spec fn pending(self) -> Option<(u64, usize)> {
        if self.rc == 0 && self.done < self.sectors {
            Some(((self.lba + self.done) as u64, (self.done * 512) as usize))
        } else {
            None
        }
    }

    /// The read after the pending sector was answered with `rc`.
    pub open spec fn answered(self, rc: i32) -> Self {
        if rc == 0 {
            SectorRead { done: (self.done + 1) as usize, ..self }
        } else {
            SectorRead { rc, ..self }
        }
    }

    /// The next sector to read and where in the buffer it goes.
    pub fn next(&self) -> (p: Option<(u64, usize)>)
        requires
            self.wf(),
        ensures
            p == self.pending(),
    {
        if self.rc == 0 && self.done < self.sectors {
            Some((self.lba + self.done as u64, self.done * 512))
        } else {
            None
        }
    }

    /// Goes on with the code that the pending sector was answered with.
    pub fn answer(self, rc: i32) -> (next: Self)
        requires
            self.wf(),
            self.pending() is Some,
        ensures
            next == self.answered(rc),
            next.wf(),
    {
        if rc != 0 {
            SectorRead { lba: self.lba, sectors: self.sectors, done: self.done, rc }
        } else {
            SectorRead {
                lba: self.lba,
                sectors: self.sectors,
                done: self.done + 1,
                rc: self.rc,
            }
        }
    }
}

/// Starts a read of the sectors from `lba` on into a buffer of `buf_len` bytes.
pub fn read_sector_impl(
    driver: Option<&DriverState>,
    disk_id: u32,
    lba: u64,
    buf_len: Option<usize>,
) -> (r: Result<SectorRead, i32>)
    ensures
        ({
            let capacity = match driver {
                Some(d) => Some(d.capacity_sectors),
                None => None,
            };
            match read_plan(capacity, disk_id, lba, buf_len) {
                Err(e) => r == Err::<SectorRead, i32>(e),
                Ok(sectors) => r == Ok::<SectorRead, i32>(
                    SectorRead { lba, sectors, done: 0, rc: 0 },
                ) && (r->Ok_0).wf(),
            }
        }),
{
    let capacity: Option<u64> = match driver {
        Some(d) => Some(d.capacity_sectors),
        None => None,
    };
    match check_read(capacity, disk_id, lba, buf_len) {
        Err(e) => Err(e),
        Ok(sectors) => Ok(SectorRead { lba, sectors, done: 0, rc: 0 }),
    }
}

/// The sectors that are left to read, in order.
pub open spec fn remaining(read: SectorRead) -> Seq<(u64, usize)>
    decreases read.sectors - read.done,
{
    if read.rc != 0 || read.done >= read.sectors {
        Seq::empty()
    } else {
        seq![((read.lba + read.done) as u64, (read.done * 512) as usize)] + remaining(
            read.answered(0),
        )
    }
}

/// A read that is always answered with 0 asks for each of its sectors once, in
/// order, each for the next 512 bytes of the buffer. Any other answer ends it,
/// with that answer as its code.
pub proof fn law_sector_read(read: SectorRead, rc: i32)
    requires
        read.wf(),
        read.rc == 0,
    ensures
        remaining(read).len() == read.sectors - read.done,
        forall|i: int|
            0 <= i < read.sectors - read.done ==> #[trigger] remaining(read)[i] == (
                (read.lba + read.done + i) as u64,
                ((read.done + i) * 512) as usize,
            ),
        rc != 0 && read.pending() is Some ==> {
            &&& read.answered(rc).pending() is None
            &&& read.answered(rc).rc == rc
        },
    decreases read.sectors - read.done,
{
    if read.done < read.sectors {
        let next = read.answered(0);
        law_sector_read(next, rc);
        assert forall|i: int| 0 <= i < read.sectors - read.done implies #[trigger] remaining(
            read,
        )[i] == ((read.lba + read.done + i) as u64, ((read.done + i) * 512) as usize) by {
            if i > 0 {
                assert(remaining(read)[i] == remaining(next)[i - 1]);
            }
        }
    }
}

/// The number of disks, or an error where there is none.
pub fn probe_impl(driver: Option<&DriverState>) -> (rc: i32)
    ensures
        rc == if driver is Some {
            1
        } else {
            ENXIO
        },
{
    if driver.is_some() {
        1
    } else {
        ENXIO
    }
}

/// Writing is not offered.
pub fn write_sector_impl(_disk_id: u32, _lba: u64, _buf: Option<&[u8]>) -> (rc: i32)
    ensures
        rc == ENOSYS,
{
    ENOSYS
}

/// The descriptors of a request form one chain: header, data, status. The device
/// writes to the data and the status only, and what each descriptor covers lies
/// in the shared memory without overlap, where that memory does not wrap.
pub proof fn law_read_request_chain(d: DriverState, sector: u64, used_idx: u16, avail_idx: u16)
    requires
        d.wf(),
        d.dma.phys + d.dma.len <= u64::MAX,
    ensures
        ({
            let r = d.read_request(sector, used_idx, avail_idx);
            &&& r.head.flags == VIRTQ_DESC_F_NEXT && r.head.next == 1
            &&& r.data.flags == 3 && r.data.next == 2
            &&& r.status.flags == VIRTQ_DESC_F_WRITE
            &&& d.dma.phys <= r.head.addr
            &&& r.head.addr + r.head.len == r.data.addr
            &&& r.data.addr + r.data.len == r.status.addr
            &&& r.status.addr + r.status.len <= d.dma.phys + d.dma.len
            &&& r.req.sector == sector
        }),
{
    law_ring_parts(d.queue_size);
    assert(2u16 | 1u16 == 3u16) by (bit_vector);
}

} // verus!
