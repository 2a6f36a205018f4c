//! Block devices as the file system sees them.

use vstd::prelude::*;

verus! {

/// Bytes in one sector.
pub const SECTOR_SIZE: usize = 512;

/// What a disk holds: the byte at each address.
pub type Image = spec_fn(int) -> u8;

/// Error codes that a driver has answered with, oldest first.
pub type Faults = Seq<i32>;

/// The `n` bytes of `img` from address `at` on.
pub open spec fn bytes_at(img: Image, at: int, n: nat) -> Seq<u8> {
    Seq::new(n, |i: int| img(at + i))
}

/// `img` with `data` stored from address `at` on.
pub open spec fn patched(img: Image, at: int, data: Seq<u8>) -> Image {
    |a: int|
        if at <= a < at + data.len() {
            data[a - at]
        } else {
            img(a)
        }
}

/// Whether two images agree on every byte outside of `lo..hi`.
pub open spec fn agree_outside(a: Image, b: Image, lo: int, hi: int) -> bool {
    forall|x: int| !(lo <= x < hi) ==> #[trigger] a(x) == b(x)
}

/// A set of addresses.
pub type Region = spec_fn(int) -> bool;

/// Whether two images agree on all addresses that are not in a region.
pub open spec fn agree_but(x: Image, y: Image, region: Region) -> bool {
    forall|a: int| !region(a) ==> #[trigger] x(a) == y(a)
}

/// The `len` addresses from `at` on.
pub open spec fn stretch(at: int, len: int) -> Region {
    |a: int| at <= a < at + len
}

/// The addresses of two regions.
pub open spec fn joined(x: Region, y: Region) -> Region {
    |a: int| x(a) || y(a)
}

/// Whether a region has all addresses of another.
pub open spec fn is_within(x: Region, y: Region) -> bool {
    forall|a: int| #[trigger] x(a) ==> y(a)
}

/// A disk: what it holds, and where stores that failed may have left anything.
pub struct Medium {
    pub image: Image,
    pub torn: Region,
}

/// Whether a disk came from another by changes to a region, and by what failed
/// stores have left behind.
pub open spec fn is_touched(x: Medium, y: Medium, region: Region) -> bool {
    is_within(x.torn, y.torn) && agree_but(x.image, y.image, joined(region, y.torn))
}

/// How often something was asked for.
pub type Count = nat;

/// The fault log after a request that was answered with `rc`.
pub open spec fn logged(faults: Faults, rc: i32) -> Faults {
    if rc == 0 {
        faults
    } else {
        faults.push(rc)
    }
}

/// The number of requests that were not for one sector, after one for `len` bytes.
pub open spec fn uneven_after(count: Count, len: nat) -> Count {
    if len == SECTOR_SIZE {
        count
    } else {
        count + 1
    }
}

/// The operations that a disk driver offers.
///
/// A request is answered with 0 or with an error code of the driver's choice.
/// `faults` is the list of the error codes given so far. A driver may fail any
/// request at any time.
///
/// What was stored may be lost until it is durable. A flush makes it so; a store
/// may be durable at once, too. `flushes` counts the flushes that were asked for,
/// and `uneven` the requests to read or to store that were not for one sector.
/// `torn` is where stores that failed may have left anything.
///
/// `image`, `durable`, `torn`, `faults`, `flushes` and `uneven` are there for the
/// contracts alone: nothing calls them.
pub trait McxDiskOps: Sized {
    /// The contents of a disk.
    spec fn image(&self, disk_id: u32) -> Image;

    /// What of a disk is durable.
    spec fn durable(&self, disk_id: u32) -> Image;

    /// Where stores that failed may have left anything on a disk.
    spec fn torn(&self, disk_id: u32) -> Region;

    /// The error codes that the driver has answered with.
    spec fn faults(&self) -> Faults;

    /// How many flushes were asked for.
    spec fn flushes(&self) -> Count;

    /// How many requests to read or to store were not for exactly one sector.
    spec fn uneven(&self) -> Count;

    /// Whether a disk is there.
    fn probe(&mut self) -> (rc: i32)
        ensures
            final(self).faults() == old(self).faults(),
            final(self).flushes() == old(self).flushes(),
            final(self).uneven() == old(self).uneven(),
            forall|id: u32| #[trigger] final(self).image(id) == old(self).image(id),
            forall|id: u32| #[trigger] final(self).durable(id) == old(self).durable(id),
            forall|id: u32| #[trigger] final(self).torn(id) == old(self).torn(id),
    ;

    /// Fills `buf` with the sectors from `lba` on.
    fn read_sector(&mut self, disk_id: u32, lba: u64, buf: &mut [u8]) -> (rc: i32)
        ensures
            final(buf)@.len() == old(buf)@.len(),
            final(self).faults() == logged(old(self).faults(), rc),
            final(self).flushes() == old(self).flushes(),
            final(self).uneven() == uneven_after(old(self).uneven(), old(buf)@.len()),
            forall|id: u32| #[trigger] final(self).image(id) == old(self).image(id),
            forall|id: u32| #[trigger] final(self).durable(id) == old(self).durable(id),
            forall|id: u32| #[trigger] final(self).torn(id) == old(self).torn(id),
            rc == 0 ==> final(buf)@ == bytes_at(
                old(self).image(disk_id),
                lba * SECTOR_SIZE,
                old(buf)@.len(),
            ),
    ;

    /// Stores `buf` in the sectors from `lba` on. A failed request may leave
    /// anything in those sectors.
    fn write_sector(&mut self, disk_id: u32, lba: u64, buf: &[u8]) -> (rc: i32)
        ensures
            final(self).faults() == logged(old(self).faults(), rc),
            final(self).flushes() == old(self).flushes(),
            final(self).uneven() == uneven_after(old(self).uneven(), buf@.len()),
            forall|id: u32|
                id != disk_id ==> #[trigger] final(self).image(id) == old(self).image(id),
            forall|id: u32|
                id != disk_id ==> #[trigger] final(self).durable(id) == old(self).durable(id),
            forall|id: u32|
                id != disk_id ==> #[trigger] final(self).torn(id) == old(self).torn(id),
            rc == 0 ==> final(self).torn(disk_id) == old(self).torn(disk_id),
            rc == 0 ==> final(self).image(disk_id) == patched(
                old(self).image(disk_id),
                lba * SECTOR_SIZE,
                buf@,
            ),
            rc != 0 ==> agree_outside(
                final(self).image(disk_id),
                old(self).image(disk_id),
                lba * SECTOR_SIZE,
                lba * SECTOR_SIZE + buf@.len(),
            ) && agree_but(
                old(self).image(disk_id),
                final(self).image(disk_id),
                final(self).torn(disk_id),
            ),
            is_within(old(self).torn(disk_id), final(self).torn(disk_id)),
            is_within(
                final(self).torn(disk_id),
                joined(
                    old(self).torn(disk_id),
                    stretch(lba * SECTOR_SIZE, buf@.len() as int),
                ),
            ),
    ;

    /// Makes the stores so far durable.
    fn flush(&mut self, disk_id: u32) -> (rc: i32)
        ensures
            final(self).faults() == logged(old(self).faults(), rc),
            final(self).flushes() == old(self).flushes() + 1,
            final(self).uneven() == old(self).uneven(),
            forall|id: u32| #[trigger] final(self).image(id) == old(self).image(id),
            forall|id: u32| #[trigger] final(self).torn(id) == old(self).torn(id),
            forall|id: u32|
                id != disk_id ==> #[trigger] final(self).durable(id) == old(self).durable(id),
            rc == 0 ==> final(self).durable(disk_id) == final(self).image(disk_id),
    ;
}

} // verus!
