//! A disk in memory.

use vstd::prelude::*;
use crate::codec::{copy_range, overlay};
use crate::disk::{bytes_at, patched, uneven_after, Count, Faults, Image, McxDiskOps, Region};
use crate::virtio::request::{check_read, read_plan, DISK_ID};

verus! {

/// A driver for one disk that is held in memory. It checks requests as the
/// driver for a real disk does, but can write too. What it stores is durable at
/// once.
pub struct MemDisk {
    bytes: Vec<u8>,
    log: Ghost<Faults>,
    flushed: Ghost<Count>,
    uneven: Ghost<Count>,
}

impl MemDisk {
    /// The contents of the disk.
    pub closed spec fn view(&self) -> Seq<u8> {
        self.bytes@
    }

    /// A disk that holds `bytes`. Bytes past the last whole sector cannot be
    /// reached.
    pub fn new(bytes: Vec<u8>) -> (d: Self)
        ensures
            d@ == bytes@,
            d.faults() == Seq::<i32>::empty(),
            d.flushes() == 0,
            d.uneven() == 0,
            forall|a: int| 0 <= a < bytes@.len() ==> #[trigger] d.image(DISK_ID)(a) == bytes@[a],
            forall|id: u32, a: int|
                id != DISK_ID || !(0 <= a < bytes@.len()) ==> #[trigger] d.image(id)(a) == 0,
            forall|id: u32| #[trigger] d.durable(id) == d.image(id),
            forall|id: u32, a: int| !#[trigger] d.torn(id)(a),
    {
        MemDisk { bytes, log: Ghost(Seq::empty()), flushed: Ghost(0nat), uneven: Ghost(0nat) }
    }

    /// The contents of the disk.
    pub fn contents(&self) -> (bytes: &[u8])
        ensures
            bytes@ == self@,
    {
        self.bytes.as_slice()
    }

    /// Checks a request for `len` bytes from a sector on.
    fn check(&self, disk_id: u32, lba: u64, len: usize) -> (r: Result<usize, i32>)
        ensures
            match r {
                Ok(at) => at == lba * 512 && at + len <= self@.len(),
                Err(rc) => rc != 0,
            },
            r is Ok == read_plan(
                Some((self@.len() / 512) as u64),
                disk_id,
                lba,
                Some(len),
            ) is Ok,
            r is Err ==> r->Err_0 == read_plan(
                Some((self@.len() / 512) as u64),
                disk_id,
                lba,
                Some(len),
            )->Err_0,
    {
        let capacity: u64 = (self.bytes.len() / 512) as u64;
        match check_read(Some(capacity), disk_id, lba, Some(len)) {
            Ok(_) => Ok(lba as usize * 512),
            Err(rc) => Err(rc),
        }
    }
}

impl McxDiskOps for MemDisk {
    closed spec fn image(&self, disk_id: u32) -> Image {
        |a: int|
            if disk_id == DISK_ID && 0 <= a < self.bytes@.len() {
                self.bytes@[a]
            } else {
                0
            }
    }

    closed spec fn durable(&self, disk_id: u32) -> Image {
        self.image(disk_id)
    }

    closed spec fn torn(&self, disk_id: u32) -> Region {
        |a: int| false
    }

    closed spec fn faults(&self) -> Faults {
        self.log@
    }

    closed spec fn flushes(&self) -> Count {
        self.flushed@
    }

    closed spec fn uneven(&self) -> Count {
        self.uneven@
    }

    fn probe(&mut self) -> (rc: i32)
        ensures
            rc == 1,
    {
        1
    }

    fn read_sector(&mut self, disk_id: u32, lba: u64, buf: &mut [u8]) -> (rc: i32)
        ensures
            rc == match read_plan(
                Some((old(self)@.len() / 512) as u64),
                disk_id,
                lba,
                Some(old(buf)@.len() as usize),
            ) {
                Ok(_) => 0,
                Err(e) => e,
            },
            final(self)@ == old(self)@,
    {
        let len: usize = buf.len();
        let ghost img = self.image(disk_id);
        self.uneven = Ghost(uneven_after(self.uneven@, len as nat));
        assert forall|id: u32| #[trigger] self.image(id) == old(self).image(id) by {
            assert(self.image(id) =~= old(self).image(id));
        }
        match self.check(disk_id, lba, len) {
            Err(rc) => {
                self.log = Ghost(self.log@.push(rc));
                assert forall|id: u32| #[trigger] self.image(id) == old(self).image(id) by {
                    assert(self.image(id) =~= old(self).image(id));
                }
                rc
            },
            Ok(at) => {
                copy_range(buf, 0, self.bytes.as_slice(), at, len);
                assert(buf@ =~= bytes_at(img, lba * 512, len as nat));
                0
            },
        }
    }

    fn write_sector(&mut self, disk_id: u32, lba: u64, buf: &[u8]) -> (rc: i32)
        ensures
            rc == match read_plan(
                Some((old(self)@.len() / 512) as u64),
                disk_id,
                lba,
                Some(buf@.len() as usize),
            ) {
                Ok(_) => 0,
                Err(e) => e,
            },
            final(self)@ == if rc == 0 {
                overlay(old(self)@, lba * 512, buf@)
            } else {
                old(self)@
            },
    {
        let len: usize = buf.len();
        self.uneven = Ghost(uneven_after(self.uneven@, len as nat));
        match self.check(disk_id, lba, len) {
            Err(rc) => {
                self.log = Ghost(self.log@.push(rc));
                assert forall|id: u32| #[trigger] self.image(id) == old(self).image(id) by {
                    assert(self.image(id) =~= old(self).image(id));
                }
                rc
            },
            Ok(at) => {
                copy_range(self.bytes.as_mut_slice(), at, buf, 0, len);
                assert(buf@.subrange(0, len as int) =~= buf@);
                assert(self.image(disk_id) =~= patched(
                    old(self).image(disk_id),
                    lba * 512,
                    buf@,
                ));
                assert forall|id: u32| id != disk_id implies #[trigger] self.image(id) == old(
                    self,
                ).image(id) by {
                    assert(self.image(id) =~= old(self).image(id));
                }
                0
            },
        }
    }

    fn flush(&mut self, disk_id: u32) -> (rc: i32)
        ensures
            rc == 0,
            final(self)@ == old(self)@,
    {
        self.flushed = Ghost(self.flushed@ + 1);
        assert forall|id: u32| #[trigger] self.image(id) == old(self).image(id) by {
            assert(self.image(id) =~= old(self).image(id));
        }
        0
    }
}

} // verus!
