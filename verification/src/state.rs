//! A mounted volume: the driver below it and transfers at byte granularity.

use vstd::prelude::*;
use crate::abi::ENOSYS;
use crate::codec::{
    copy_range, is_filled, le16, le16_bytes, le32, le32_bytes, lemma_filled, lemma_filled_none,
    make_u16, make_u32,
};
use crate::disk::{
    agree_but, agree_outside, bytes_at, is_touched, is_within, joined, patched, stretch,
    uneven_after, Count, Faults, Image, McxDiskOps, Medium, Region, SECTOR_SIZE,
};
use crate::layout::Superblock;
use crate::trail::lemma_store_touches;

verus! {

/// The file system module: the driver it was given and the volume it mounted.
pub struct State<D> {
    pub disk_ops: Option<D>,
    pub mounted: bool,
    pub disk_id: u32,
    pub sb: Superblock,
}

impl<D: McxDiskOps> State<D> {
    /// Whether a driver has been supplied.
    pub open spec fn attached(&self) -> bool {
        self.disk_ops is Some
    }

    /// The contents of the disk that the volume lies on.
    pub open spec fn image(&self) -> Image {
        self.disk_ops->Some_0.image(self.disk_id)
    }

    /// What of that disk is durable.
    pub open spec fn durable(&self) -> Image {
        self.disk_ops->Some_0.durable(self.disk_id)
    }

    /// Where stores that failed may have left anything on it.
    pub open spec fn torn(&self) -> Region {
        self.disk_ops->Some_0.torn(self.disk_id)
    }

    /// That disk.
    pub open spec fn medium(&self) -> Medium {
        Medium { image: self.image(), torn: self.torn() }
    }

    /// How many flushes were asked for so far.
    pub open spec fn flushes(&self) -> Count {
        self.disk_ops->Some_0.flushes()
    }

    /// How many requests to read or to store were not for exactly one sector.
    pub open spec fn uneven(&self) -> Count {
        self.disk_ops->Some_0.uneven()
    }

    /// The error codes that the driver has answered with so far.
    pub open spec fn faults(&self) -> Faults {
        self.disk_ops->Some_0.faults()
    }

    /// Whether disks that the volume does not lie on hold what they held at `pre`.
    pub open spec fn spares_others(&self, pre: Self) -> bool {
        &&& forall|id: u32|
            id != pre.disk_id ==> #[trigger] self.disk_ops->Some_0.image(id)
                == pre.disk_ops->Some_0.image(id)
        &&& forall|id: u32|
            id != pre.disk_id ==> #[trigger] self.disk_ops->Some_0.durable(id)
                == pre.disk_ops->Some_0.durable(id)
        &&& forall|id: u32|
            id != pre.disk_id ==> #[trigger] self.disk_ops->Some_0.torn(id)
                == pre.disk_ops->Some_0.torn(id)
    }

    /// Whether `self` is the same volume as `pre`, apart from what its disk holds,
    /// and all requests to read or to store since were for one sector each.
    pub open spec fn same_volume(&self, pre: Self) -> bool {
        self.same_place(pre) && self.uneven() == pre.uneven()
    }

    /// Whether `self` is the same volume as `pre`, apart from what its disk holds.
    pub open spec fn same_place(&self, pre: Self) -> bool {
        &&& self.disk_ops is Some == pre.disk_ops is Some
        &&& pre.attached() ==> self.spares_others(pre)
        &&& self.quiet(pre) ==> self.torn() == pre.torn()
        &&& self.mounted == pre.mounted
        &&& self.disk_id == pre.disk_id
        &&& self.sb == pre.sb
    }

    /// Whether `self` is the same volume as `pre` after one request to read or to
    /// store `len` bytes.
    pub open spec fn asked(&self, pre: Self, len: nat) -> bool {
        &&& self.same_place(pre)
        &&& self.flushes() == pre.flushes()
        &&& pre.attached() ==> self.uneven() == uneven_after(pre.uneven(), len)
    }

    /// Whether `self` is the same volume as `pre` and no flush was asked for
    /// since.
    pub open spec fn goes_on(&self, pre: Self) -> bool {
        self.same_volume(pre) && self.flushes() == pre.flushes()
    }

    /// Whether the disk holds what it held at `pre`, and as much of it is durable.
    pub open spec fn holds(&self, pre: Self) -> bool {
        &&& self.image() == pre.image()
        &&& self.durable() == pre.durable()
        &&& self.torn() == pre.torn()
    }

    /// Whether exactly one flush was asked for since `pre`, and what the disk
    /// holds is durable.
    pub open spec fn flushed(&self, pre: Self) -> bool {
        self.flushes() == pre.flushes() + 1 && self.durable() == self.image()
    }

    /// Whether the driver has failed no request since `pre`.
    pub open spec fn quiet(&self, pre: Self) -> bool {
        self.faults() == pre.faults()
    }

    /// Whether the driver has failed exactly one request since `pre`, with
    /// code `e`.
    pub open spec fn failed(&self, pre: Self, e: i32) -> bool {
        e != 0 && self.faults() == pre.faults().push(e)
    }

    /// The contract of an operation where no driver was supplied: it is refused,
    /// and nothing changes.
    pub open spec fn refuses<T>(&self, pre: Self, r: Result<T, i32>) -> bool {
        *self == pre && r == Err::<T, i32>(ENOSYS)
    }

    /// The contract of an operation that only reads. It leaves the disk as it is
    /// and asks for no flush. It gives `want`, whose code is not 0 if it is an
    /// error, unless the driver fails a request: then it stops there and gives that
    /// request's code.
    pub open spec fn reads<T>(&self, pre: Self, r: Result<T, i32>, want: Result<T, i32>) -> bool {
        &&& self.goes_on(pre)
        &&& self.holds(pre)
        &&& r is Err ==> r->Err_0 != 0
        &&& if self.quiet(pre) {
            r == want
        } else {
            r is Err && self.failed(pre, r->Err_0)
        }
    }

    /// The contract of an operation that writes. It turns the disk into the
    /// first part of `want` and gives the second, unless the driver fails a
    /// request: then it stops there and gives that request's code. It asks for
    /// no flush.
    pub open spec fn writes<T>(
        &self,
        pre: Self,
        r: Result<T, i32>,
        want: (Image, Result<T, i32>),
    ) -> bool {
        &&& self.goes_on(pre)
        &&& r is Err ==> r->Err_0 != 0
        &&& if self.quiet(pre) {
            r == want.1 && self.image() == want.0
        } else {
            r is Err && self.failed(pre, r->Err_0)
        }
    }

    /// The contract of an operation that writes and then asks for a flush, once,
    /// if it succeeds so far and `changes` something. It turns the disk into the
    /// first part of `want` and gives the second, unless the driver fails a
    /// request: then it stops there and gives that request's code. What it stored
    /// is durable if it succeeds.
    pub open spec fn commits(
        &self,
        pre: Self,
        rc: i32,
        want: (Image, Result<(), i32>),
        changes: bool,
    ) -> bool {
        &&& self.same_volume(pre)
        &&& !changes ==> self.goes_on(pre) && self.holds(pre)
        &&& if self.quiet(pre) {
            &&& status(rc) == want.1
            &&& self.image() == want.0
            &&& if rc == 0 && changes {
                self.flushed(pre)
            } else {
                self.flushes() == pre.flushes()
            }
        } else {
            &&& self.failed(pre, rc)
            &&& self.flushes() == pre.flushes() || self.flushes() == pre.flushes() + 1
                && self.image() == want.0 && want.1 is Ok && changes
        }
    }
}

/// How many bytes of a disk have an address.
pub open spec fn addresses() -> int {
    0x1_0000_0000_0000_0000
}

/// A return code as a result: 0 is success.
pub open spec fn status(rc: i32) -> Result<(), i32> {
    if rc == 0 {
        Ok(())
    } else {
        Err(rc)
    }
}

/// The 16-bit number at address `a`.
pub open spec fn u16_at(img: Image, a: int) -> u16 {
    le16(img(a), img(a + 1))
}

/// The 32-bit number at address `a`.
pub open spec fn u32_at(img: Image, a: int) -> u32 {
    le32(img(a), img(a + 1), img(a + 2), img(a + 3))
}

/// The sector that address `a` lies in starts here.
pub open spec fn sector_floor(a: int) -> int {
    a / 512 * 512
}

/// Whether a store came to an end after some of its bytes: these are there, and
/// nothing else has changed but, where it is torn, the sector that the next byte
/// belongs to.
pub open spec fn is_cut_short(before: Medium, after: Medium, at: int, data: Seq<u8>) -> bool {
    exists|n: int|
        0 <= n < data.len() && is_ended(before, after, at, #[trigger] data.take(n))
}

/// Whether a store came to its end after `head` and left nothing else behind but
/// in the sector of the byte that follows, where that is torn.
pub open spec fn is_ended(before: Medium, after: Medium, at: int, head: Seq<u8>) -> bool {
    let sector = sector_floor(at + head.len());
    &&& agree_outside(after.image, patched(before.image, at, head), sector, sector + 512)
    &&& agree_but(patched(before.image, at, head), after.image, after.torn)
}

/// Two stores one behind the other are one store of both.
pub proof fn lemma_patch_grows(img: Image, at: int, data: Seq<u8>, n: int, m: int)
    requires
        0 <= n <= m <= data.len(),
    ensures
        patched(patched(img, at, data.take(n)), at + n, data.subrange(n, m)) == patched(
            img,
            at,
            data.take(m),
        ),
{
    assert(patched(patched(img, at, data.take(n)), at + n, data.subrange(n, m)) =~= patched(
        img,
        at,
        data.take(m),
    ));
}

/// Storing nothing changes nothing.
pub proof fn lemma_patch_empty(img: Image, at: int)
    ensures
        patched(img, at, Seq::<u8>::empty()) == img,
{
    assert(patched(img, at, Seq::<u8>::empty()) =~= img);
}

impl<D: McxDiskOps> State<D> {
    /// Asks the driver to fill `buf` with the sectors from `lba` on.
    pub fn disk_read(&mut self, lba: u64, buf: &mut [u8]) -> (rc: i32)
        ensures
            final(self).asked(*old(self), old(buf)@.len()),
            final(buf)@.len() == old(buf)@.len(),
            !old(self).attached() ==> rc == ENOSYS && *final(self) == *old(self) && final(buf)@
                == old(buf)@,
            old(self).attached() ==> {
                &&& final(self).holds(*old(self))
                &&& if rc == 0 {
                    final(self).quiet(*old(self))
                } else {
                    !final(self).quiet(*old(self)) && final(self).failed(*old(self), rc)
                }
                &&& rc == 0 ==> final(buf)@ == bytes_at(
                    old(self).image(),
                    lba * SECTOR_SIZE,
                    old(buf)@.len(),
                )
            },
    {
        let disk_id: u32 = self.disk_id;
        match &mut self.disk_ops {
            None => ENOSYS,
            Some(d) => {
                let ghost log = d.faults();
                let rc: i32 = d.read_sector(disk_id, lba, buf);
                assert(log.push(rc).len() == log.len() + 1);
                rc
            },
        }
    }

    /// Asks the driver to store `buf` in the sectors from `lba` on.
    pub fn disk_write(&mut self, lba: u64, buf: &[u8]) -> (rc: i32)
        ensures
            final(self).asked(*old(self), buf@.len()),
            !old(self).attached() ==> rc == ENOSYS && *final(self) == *old(self),
            old(self).attached() ==> {
                &&& if rc == 0 {
                    final(self).quiet(*old(self))
                } else {
                    !final(self).quiet(*old(self)) && final(self).failed(*old(self), rc)
                }
                &&& rc == 0 ==> final(self).image() == patched(
                    old(self).image(),
                    lba * SECTOR_SIZE,
                    buf@,
                )
                &&& rc != 0 ==> agree_outside(
                    final(self).image(),
                    old(self).image(),
                    lba * SECTOR_SIZE,
                    lba * SECTOR_SIZE + buf@.len(),
                ) && agree_but(old(self).image(), final(self).image(), final(self).torn())
                &&& is_within(old(self).torn(), final(self).torn())
                &&& is_within(
                    final(self).torn(),
                    joined(old(self).torn(), stretch(lba * SECTOR_SIZE, buf@.len() as int)),
                )
            },
    {
        let disk_id: u32 = self.disk_id;
        match &mut self.disk_ops {
            None => ENOSYS,
            Some(d) => {
                let ghost log = d.faults();
                let rc: i32 = d.write_sector(disk_id, lba, buf);
                assert(log.push(rc).len() == log.len() + 1);
                rc
            },
        }
    }

    /// Asks the driver to make the stores so far durable.
    pub fn disk_flush(&mut self) -> (rc: i32)
        ensures
            final(self).same_volume(*old(self)),
            !old(self).attached() ==> rc == ENOSYS && *final(self) == *old(self),
            old(self).attached() ==> {
                &&& final(self).medium() == old(self).medium()
                &&& final(self).flushes() == old(self).flushes() + 1
                &&& if rc == 0 {
                    &&& final(self).quiet(*old(self))
                    &&& final(self).durable() == final(self).image()
                } else {
                    !final(self).quiet(*old(self)) && final(self).failed(*old(self), rc)
                }
            },
    {
        let disk_id: u32 = self.disk_id;
        match &mut self.disk_ops {
            None => ENOSYS,
            Some(d) => {
                let ghost log = d.faults();
                let rc: i32 = d.flush(disk_id);
                assert(log.push(rc).len() == log.len() + 1);
                rc
            },
        }
    }

    /// Fills `out` with the bytes of the disk from `offset` on.
    pub fn read_exact(&mut self, offset: u64, out: &mut [u8]) -> (rc: i32)
        requires
            offset + old(out)@.len() <= addresses(),
        ensures
            final(out)@.len() == old(out)@.len(),
            old(out)@.len() == 0 ==> rc == 0 && *final(self) == *old(self),
            old(out)@.len() != 0 && !old(self).attached() ==> final(self).refuses(
                *old(self),
                status(rc),
            ) && final(out)@ == old(out)@,
            old(self).attached() ==> {
                &&& final(self).reads(*old(self), status(rc), Ok(()))
                &&& rc == 0 ==> final(out)@ == bytes_at(
                    old(self).image(),
                    offset as int,
                    old(out)@.len(),
                )
                &&& is_filled(
                    old(out)@,
                    final(out)@,
                    bytes_at(old(self).image(), offset as int, old(out)@.len()),
                )
            },
    {
        let len: usize = out.len();
        let ghost img = self.image();
        let mut done: usize = 0;
        proof {
            lemma_filled_none(out@, bytes_at(img, offset as int, len as nat));
        }
        while done < len
            invariant
                done <= len,
                len == out@.len() == old(out)@.len(),
                offset + len <= addresses(),
                self.goes_on(*old(self)),
                done == 0 ==> *self == *old(self) && out@ == old(out)@,
                !old(self).attached() ==> done == 0,
                self.quiet(*old(self)),
                self.holds(*old(self)),
                self.image() == img,
                img == old(self).image(),
                out@.take(done as int) == bytes_at(img, offset as int, done as nat),
                out@.skip(done as int) == old(out)@.skip(done as int),
                is_filled(old(out)@, out@, bytes_at(img, offset as int, len as nat)),
            decreases len - done,
        {
            let absolute: u64 = offset + done as u64;
            let lba: u64 = absolute / 512;
            let sector_off: usize = (absolute % 512) as usize;
            let mut sector: [u8; 512] = [0u8;512];
            let rc: i32 = self.disk_read(lba, &mut sector);
            if rc != 0 {
                return rc;
            }
            let take: usize = if 512 - sector_off < len - done {
                512 - sector_off
            } else {
                len - done
            };
            let ghost before = out@;
            copy_range(out, done, &sector, sector_off, take);
            assert(out@.take(done + take) =~= bytes_at(
                img,
                offset as int,
                (done + take) as nat,
            )) by {
                assert forall|i: int| 0 <= i < done + take implies out@[i] == img(offset + i) by {
                    if i < done {
                        assert(before.take(done as int)[i] == before[i]);
                    } else {
                        let within = sector_off + i - done;
                        assert(sector@[within] == img(lba * 512 + within));
                    }
                }
            }
            proof {
                let bytes = bytes_at(img, offset as int, len as nat);
                assert(out@.skip(done + take) =~= old(out)@.skip(done + take)) by {
                    let rest = old(out)@.skip(done as int);
                    assert forall|i: int| done + take <= i < len implies out@[i] == old(out)@[i] by {
                        assert(before.skip(done as int)[i - done] == rest[i - done]);
                    }
                }
                assert(bytes.take(done + take) =~= bytes_at(
                    img,
                    offset as int,
                    (done + take) as nat,
                ));
                lemma_filled(old(out)@, out@, bytes, done + take);
            }
            done += take;
        }
        assert(out@ =~= out@.take(done as int));
        0
    }

    /// Stores `data` on the disk from `offset` on. Where the driver fails, the
    /// sectors before the one that it failed on are stored, and those behind it
    /// are as they were.
    pub fn write_exact(&mut self, offset: u64, data: &[u8]) -> (rc: i32)
        requires
            offset + data@.len() <= addresses(),
        ensures
            data@.len() == 0 ==> rc == 0 && *final(self) == *old(self),
            data@.len() != 0 && !old(self).attached() ==> final(self).refuses(
                *old(self),
                status(rc),
            ),
            old(self).attached() ==> {
                &&& final(self).writes(
                    *old(self),
                    status(rc),
                    (patched(old(self).image(), offset as int, data@), Ok(())),
                )
                &&& rc != 0 ==> is_cut_short(
                    old(self).medium(),
                    final(self).medium(),
                    offset as int,
                    data@,
                )
                &&& is_touched(
                    old(self).medium(),
                    final(self).medium(),
                    stretch(offset as int, data@.len() as int),
                )
            },
    {
        let len: usize = data.len();
        let ghost img = self.image();
        let ghost disk = self.medium();
        let mut done: usize = 0;
        assert(data@.take(0) =~= Seq::<u8>::empty());
        proof {
            lemma_patch_empty(img, offset as int);
        }
        while done < len
            invariant
                done <= len,
                len == data@.len(),
                offset + len <= addresses(),
                self.goes_on(*old(self)),
                done == 0 ==> *self == *old(self),
                !old(self).attached() ==> done == 0,
                self.quiet(*old(self)),
                self.image() == patched(img, offset as int, data@.take(done as int)),
                img == old(self).image(),
                disk == old(self).medium(),
            decreases len - done,
        {
            let ghost before = *self;
            let absolute: u64 = offset + done as u64;
            let lba: u64 = absolute / 512;
            let sector_off: usize = (absolute % 512) as usize;
            let mut sector: [u8; 512] = [0u8;512];
            assert(sector_floor(offset + done) == lba * 512);
            let rc: i32 = self.disk_read(lba, &mut sector);
            if rc != 0 {
                proof {
                    if old(self).attached() {
                        let head = data@.take(done as int);
                        assert(is_ended(disk, self.medium(), offset as int, head));
                        lemma_store_touches(disk, self.medium(), offset as int, data@);
                    }
                }
                return rc;
            }
            let take: usize = if 512 - sector_off < len - done {
                512 - sector_off
            } else {
                len - done
            };
            copy_range(&mut sector, sector_off, data, done, take);
            let rc: i32 = self.disk_write(lba, &sector);
            if rc != 0 {
                proof {
                    if old(self).attached() {
                        let head = data@.take(done as int);
                        assert(is_ended(disk, self.medium(), offset as int, head));
                        lemma_store_touches(disk, self.medium(), offset as int, data@);
                    }
                }
                return rc;
            }
            proof {
                let chunk = data@.subrange(done as int, done + take);
                assert(self.image() =~= patched(before.image(), offset + done, chunk));
                lemma_patch_grows(img, offset as int, data@, done as int, done + take);
            }
            done += take;
        }
        assert(data@ =~= data@.take(done as int));
        proof {
            lemma_store_touches(disk, self.medium(), offset as int, data@);
        }
        0
    }

    /// The 16-bit number at `offset`.
    pub fn read_u16(&mut self, offset: u64) -> (r: Result<u16, i32>)
        requires
            offset + 2 <= addresses(),
        ensures
            !old(self).attached() ==> final(self).refuses(*old(self), r),
            old(self).attached() ==> final(self).reads(
                *old(self),
                r,
                Ok(u16_at(old(self).image(), offset as int)),
            ),
    {
        let mut buf: [u8; 2] = [0u8;2];
        let rc: i32 = self.read_exact(offset, &mut buf);
        if rc != 0 {
            return Err(rc);
        }
        Ok(make_u16(buf[0], buf[1]))
    }

    /// The 32-bit number at `offset`.
    pub fn read_u32(&mut self, offset: u64) -> (r: Result<u32, i32>)
        requires
            offset + 4 <= addresses(),
        ensures
            !old(self).attached() ==> final(self).refuses(*old(self), r),
            old(self).attached() ==> final(self).reads(
                *old(self),
                r,
                Ok(u32_at(old(self).image(), offset as int)),
            ),
    {
        let mut buf: [u8; 4] = [0u8;4];
        let rc: i32 = self.read_exact(offset, &mut buf);
        if rc != 0 {
            return Err(rc);
        }
        Ok(make_u32(buf[0], buf[1], buf[2], buf[3]))
    }

    /// Stores a 16-bit number at `offset`.
    pub fn write_u16(&mut self, offset: u64, value: u16) -> (rc: i32)
        requires
            offset + 2 <= addresses(),
        ensures
            !old(self).attached() ==> final(self).refuses(*old(self), status(rc)),
            old(self).attached() ==> final(self).writes(
                *old(self),
                status(rc),
                (patched(old(self).image(), offset as int, le16_bytes(value)), Ok(())),
            ),
            old(self).attached() ==> is_touched(
                old(self).medium(),
                final(self).medium(),
                stretch(offset as int, 2),
            ),
    {
        let buf: [u8; 2] = [(value % 0x100) as u8, (value / 0x100) as u8];
        assert(buf@ =~= le16_bytes(value));
        self.write_exact(offset, &buf)
    }

    /// Stores a 32-bit number at `offset`.
    pub fn write_u32(&mut self, offset: u64, value: u32) -> (rc: i32)
        requires
            offset + 4 <= addresses(),
        ensures
            !old(self).attached() ==> final(self).refuses(*old(self), status(rc)),
            old(self).attached() ==> final(self).writes(
                *old(self),
                status(rc),
                (patched(old(self).image(), offset as int, le32_bytes(value)), Ok(())),
            ),
            old(self).attached() ==> is_touched(
                old(self).medium(),
                final(self).medium(),
                stretch(offset as int, 4),
            ),
    {
        let buf: [u8; 4] = [
            (value % 0x100) as u8,
            (value / 0x100 % 0x100) as u8,
            (value / 0x1_0000 % 0x100) as u8,
            (value / 0x100_0000) as u8,
        ];
        assert(buf@ =~= le32_bytes(value));
        self.write_exact(offset, &buf)
    }
}

} // verus!
