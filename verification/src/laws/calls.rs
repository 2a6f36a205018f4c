//! What calls of the operations come to, in plain numbers.
//!
//! A law here speaks of calls that were made: what they were given, what they
//! returned and what they left. `old` is what a call found and `final` what it left.

use vstd::arithmetic::div_mod::lemma_mod_bound;
use vstd::prelude::*;
use crate::abi::{mochi_module_init, McxBuffer, McxKernelApi, McxPath};
use crate::bitmap::{
    block_allocated, block_freed, inode_allocated, law_tracked_blocks_are_bounded,
    law_tracked_numbers_are_bounded,
};
use crate::codec::{difference, first_difference, memcmp, memcpy, memset, zeros};
use crate::create::{created, new_inode, node_made, Lookup};
use crate::dir::{directory_from, resolved};
use crate::disk::{Image, McxDiskOps, Region};
use crate::entry::raw_inode;
use crate::laws::content::law_truncation_answers;
use crate::laws::creation::{is_afforded, is_creatable};
use crate::laws::format::{
    descriptor, half, is_size_exponent, law_mode_tells_type, law_status_is_on_disk,
    law_superblock_holds_numbers, word,
};
use crate::laws::inode::{is_sound_file, spared};
use crate::laws::making::{
    blocks_for_creating, have_room, law_created_as_requested, law_possible_creation_is_made,
};
use crate::laws::readback::law_path_reads_back;
use crate::laws::refusal::is_countable;
use crate::laws::steady::is_steady_path;
use crate::laws::sufficiency::{blocks_needed, law_possible_write_is_made};
use crate::laws::supply::{is_unused_block, is_unused_number};
use crate::layout::{
    block_stored, inode_addr, inode_in, inode_stored, Superblock, MAX_BLOCK_SIZE,
};
use crate::mapping::{are_entries_tracked, direct_freed, is_freeable, is_tracked};
use crate::ops::{lemma_listed_len, path_listed, path_read, path_truncated};
use crate::path::{lemma_last_slash, lemma_trimmed_len, split, trimmed_len};
use crate::state::{u32_at, State};
use crate::write::{chunk_len, chunk_written, is_storable, path_written};

verus! {

/// A module starts exactly where there is a kernel interface of version 1.
pub proof fn law_module_starts(api: Option<McxKernelApi>, starts: bool)
    requires
        call_ensures(mochi_module_init, (api,), starts),
    ensures
        starts <==> api is Some && api->Some_0.abi == 1,
{
}

/// Whether a path was handed over and starts with a slash.
pub open spec fn is_rooted(path: McxPath) -> bool {
    path.ptr is Some && path.ptr->Some_0@.len() > 0 && path.ptr->Some_0@[0] == 47
}

/// Whether the driver has failed no request of a call.
pub open spec fn ran_well<D: McxDiskOps>(before: State<D>, after: State<D>) -> bool {
    after.disk_ops->Some_0.faults() == before.disk_ops->Some_0.faults()
}

/// Whether a call has stopped at a request that the driver failed, and has given the
/// code of that.
pub open spec fn has_stopped<D: McxDiskOps>(before: State<D>, after: State<D>, rc: i32) -> bool {
    rc != 0 && after.disk_ops->Some_0.faults() == before.disk_ops->Some_0.faults().push(rc)
}

/// How many flushes a call has asked for.
pub open spec fn flushes_asked<D: McxDiskOps>(before: State<D>, after: State<D>) -> int {
    after.disk_ops->Some_0.flushes() - before.disk_ops->Some_0.flushes()
}

/// Whether each request of a call to read or to store was for one sector.
pub open spec fn kept_to_sectors<D: McxDiskOps>(before: State<D>, after: State<D>) -> bool {
    after.disk_ops->Some_0.uneven() == before.disk_ops->Some_0.uneven()
}

/// What the disk of a volume holds.
pub open spec fn disk_of<D: McxDiskOps>(s: State<D>) -> Image {
    s.disk_ops->Some_0.image(s.disk_id)
}

/// What of the disk of a volume would outlast a loss of power.
pub open spec fn lasting<D: McxDiskOps>(s: State<D>) -> Image {
    s.disk_ops->Some_0.durable(s.disk_id)
}

/// Whether nothing of a volume has changed, on the disk or off.
pub open spec fn is_same<D: McxDiskOps>(before: State<D>, after: State<D>) -> bool {
    &&& after.disk_ops is Some == before.disk_ops is Some
    &&& after.mounted == before.mounted
    &&& after.disk_id == before.disk_id
    &&& after.sb == before.sb
    &&& disk_of(after) == disk_of(before)
    &&& lasting(after) == lasting(before)
}

/// Mounting is answered with -38 where there is no driver and else, where the driver
/// fails no request, with 0 for a disk with the magic number and a block size that is
/// taken and with -22 for any other. The superblock then has each number of the disk,
/// whole; after an error it has those that it had.
#[verifier::rlimit(30)]
pub proof fn law_mount_call<D: McxDiskOps>(s: &mut State<D>, disk: u32, rc: i32)
    requires
        call_ensures(State::<D>::mount_impl, (s, disk), rc),
    ensures
        old(s).disk_ops is None ==> rc == -38 && *final(s) == *old(s),
        old(s).disk_ops is Some && !ran_well(*old(s), *final(s)) ==> {
            &&& has_stopped(*old(s), *final(s), rc)
            &&& final(s).sb == old(s).sb
            &&& final(s).mounted == old(s).mounted
        },
        old(s).disk_ops is Some && ran_well(*old(s), *final(s)) ==> {
            let img = old(s).disk_ops->Some_0.image(disk);
            let sb = final(s).sb;
            &&& final(s).disk_id == disk
            &&& disk_of(*final(s)) == img
            &&& rc == 0 <==> img(1080) == 0x53 && img(1081) == 0xef && is_size_exponent(
                word(img, 1048),
            )
            &&& rc == 0 || rc == -22
            &&& rc == 0 ==> {
                &&& final(s).mounted
                &&& sb.inodes_count == word(img, 1024)
                &&& sb.blocks_count == word(img, 1028)
                &&& sb.blocks_per_group == word(img, 1056)
                &&& sb.inodes_per_group == word(img, 1064)
                &&& sb.first_inode == word(img, 1108)
                &&& sb.inode_size == half(img, 1112)
                &&& word(img, 1048) == 0 ==> sb.block_size == 1024
                &&& word(img, 1048) == 1 ==> sb.block_size == 2048
                &&& word(img, 1048) == 2 ==> sb.block_size == 4096
                &&& word(img, 1048) > 2 ==> sb.block_size == 0
            }
            &&& rc != 0 ==> sb == old(s).sb && final(s).mounted == old(s).mounted
        },
{
    law_superblock_holds_numbers(old(s).disk_ops->Some_0.image(disk));
}

/// Asking for the status of a path gives the mode and the size in the bytes of the
/// inode that it leads to, whole, and changes nothing. It is answered with -22
/// without a place for them or a path that starts with a slash, and with the code of
/// the path where that leads nowhere.
#[verifier::rlimit(30)]
pub proof fn law_stat_call<D: McxDiskOps>(
    s: &mut State<D>,
    path: McxPath,
    mode: &mut Option<u16>,
    size: &mut Option<u64>,
    rc: i32,
)
    requires
        call_ensures(State::<D>::stat_impl, (s, path, mode, size), rc),
    ensures
        rc != 0 ==> *final(mode) == *old(mode) && *final(size) == *old(size),
        *old(mode) is None || *old(size) is None || !is_rooted(path) ==> rc == -22 && *final(s)
            == *old(s),
        *old(mode) is Some && *old(size) is Some && is_rooted(path) ==> {
            &&& is_same(*old(s), *final(s))
            &&& flushes_asked(*old(s), *final(s)) == 0
            &&& kept_to_sectors(*old(s), *final(s))
            &&& !ran_well(*old(s), *final(s)) ==> has_stopped(*old(s), *final(s), rc)
        },
        *old(mode) is Some && *old(size) is Some && is_rooted(path) && ran_well(
            *old(s),
            *final(s),
        ) ==> {
            let img = disk_of(*old(s));
            let sb = old(s).sb;
            match resolved(img, sb, path.ptr->Some_0@) {
                Err(e) => rc == e,
                Ok((ino, _)) => {
                    let g = (ino - 1) / (sb.inodes_per_group as int);
                    let i = (ino - 1) % (sb.inodes_per_group as int);
                    let at = word(img, descriptor(sb, g) + 8) * sb.block_size + i * sb.inode_size;
                    &&& rc == 0
                    &&& sb.inodes_per_group != 0 ==> {
                        &&& *final(mode) is Some && (*final(mode))->Some_0 == half(img, at)
                        &&& *final(size) is Some && (*final(size))->Some_0 == word(img, at + 4)
                    }
                },
            }
        },
{
    if old(s).sb.inodes_per_group != 0 {
        law_status_is_on_disk(disk_of(*old(s)), old(s).sb, path.ptr->Some_0@);
    }
}

/// A read puts the bytes that it gives at the start of the buffer and changes no
/// other byte of it, nor the volume, and says how many there are.
#[verifier::rlimit(30)]
pub proof fn law_read_call<D: McxDiskOps>(
    s: &mut State<D>,
    path: McxPath,
    offset: u64,
    buf: &mut McxBuffer,
    count: &mut Option<usize>,
    rc: i32,
)
    requires
        call_ensures(State::<D>::read_impl, (s, path, offset, buf, count), rc),
    ensures
        rc != 0 ==> *final(count) == *old(count),
        old(buf).ptr is None || *old(count) is None || !is_rooted(path) ==> rc == -22 && *final(s)
            == *old(s) && *final(buf) == *old(buf),
        old(buf).ptr is Some && *old(count) is Some && is_rooted(path) ==> {
            &&& is_same(*old(s), *final(s))
            &&& flushes_asked(*old(s), *final(s)) == 0
            &&& kept_to_sectors(*old(s), *final(s))
            &&& !ran_well(*old(s), *final(s)) ==> has_stopped(*old(s), *final(s), rc)
        },
        old(buf).ptr is Some && *old(count) is Some && is_rooted(path) && ran_well(
            *old(s),
            *final(s),
        ) ==> {
            let was = old(buf).ptr->Some_0@;
            let now = final(buf).ptr->Some_0@;
            let (data, r) = path_read(
                disk_of(*old(s)),
                old(s).sb,
                path.ptr->Some_0@,
                offset,
                was.len(),
            );
            &&& final(buf).ptr is Some
            &&& now.len() == was.len()
            &&& forall|i: int|
                0 <= i < was.len() ==> #[trigger] now[i] == if i < data.len() {
                    data[i]
                } else {
                    was[i]
                }
            &&& r matches Err(e) ==> rc == e
            &&& r matches Ok(n) ==> rc == 0 && *final(count) == Some(n)
        },
{
}

/// Listing a directory puts its names at the start of the buffer and changes no other
/// byte of it, nor the volume, and says how many bytes they take.
#[verifier::rlimit(30)]
pub proof fn law_readdir_call<D: McxDiskOps>(
    s: &mut State<D>,
    path: McxPath,
    buf: &mut McxBuffer,
    len: &mut Option<usize>,
    rc: i32,
)
    requires
        call_ensures(State::<D>::readdir_impl, (s, path, buf, len), rc),
    ensures
        rc != 0 ==> *final(len) == *old(len),
        old(buf).ptr is None || *old(len) is None || !is_rooted(path) ==> rc == -22 && *final(s)
            == *old(s) && *final(buf) == *old(buf),
        old(buf).ptr is Some && *old(len) is Some && is_rooted(path) ==> {
            &&& is_same(*old(s), *final(s))
            &&& flushes_asked(*old(s), *final(s)) == 0
            &&& kept_to_sectors(*old(s), *final(s))
            &&& !ran_well(*old(s), *final(s)) ==> has_stopped(*old(s), *final(s), rc)
        },
        old(buf).ptr is Some && *old(len) is Some && is_rooted(path) && ran_well(
            *old(s),
            *final(s),
        ) ==> {
            let was = old(buf).ptr->Some_0@;
            let now = final(buf).ptr->Some_0@;
            let (names, r) = path_listed(
                disk_of(*old(s)),
                old(s).sb,
                path.ptr->Some_0@,
                was.len() as int,
            );
            &&& final(buf).ptr is Some
            &&& now.len() == was.len()
            &&& forall|i: int|
                0 <= i < was.len() ==> #[trigger] now[i] == if i < names.len() {
                    names[i]
                } else {
                    was[i]
                }
            &&& r matches Err(e) ==> rc == e
            &&& r is Ok ==> rc == 0 && *final(len) is Some && (*final(len))->Some_0 == names.len()
        },
{
    let was = old(buf).ptr->Some_0@;
    assert(old(buf).ptr->Some_0.len() == was.len());
    lemma_names_fit(
        disk_of(*old(s)),
        old(s).sb,
        path.ptr->Some_0@,
        was.len(),
    );
}

/// Names that are listed fit in the buffer.
proof fn lemma_names_fit(img: Image, sb: Superblock, path: Seq<u8>, room: nat)
    ensures
        path_listed(img, sb, path, room as int).0.len() <= room,
{
    if let Ok((_, inode)) = resolved(img, sb, path) {
        lemma_listed_len(
            directory_from(img, sb, inode, 0).records,
            room as int,
        );
    }
}

/// A write leaves the disk as writing to the path makes it and says how many bytes
/// it has written. It asks for one flush where there is a file to write to and all
/// went well, and what the disk holds is lasting then.
#[verifier::rlimit(30)]
pub proof fn law_write_call<D: McxDiskOps>(
    s: &mut State<D>,
    path: McxPath,
    offset: u64,
    buf: McxBuffer,
    count: &mut Option<usize>,
    rc: i32,
)
    requires
        call_ensures(State::<D>::write_impl, (s, path, offset, &buf, count), rc),
    ensures
        rc != 0 ==> *final(count) == *old(count),
        buf.ptr is None || *old(count) is None || !is_rooted(path) ==> rc == -22 && *final(s)
            == *old(s),
        buf.ptr is Some && *old(count) is Some && is_rooted(path) ==> {
            &&& final(s).sb == old(s).sb
            &&& final(s).disk_id == old(s).disk_id
            &&& final(s).mounted == old(s).mounted
            &&& kept_to_sectors(*old(s), *final(s))
            &&& !ran_well(*old(s), *final(s)) ==> has_stopped(*old(s), *final(s), rc)
        },
        buf.ptr is Some && *old(count) is Some && is_rooted(path) && ran_well(
            *old(s),
            *final(s),
        ) ==> {
            let (img, r) = path_written(
                disk_of(*old(s)),
                old(s).sb,
                path.ptr->Some_0@,
                offset,
                buf.ptr->Some_0@,
            );
            &&& disk_of(*final(s)) == img
            &&& r matches Err(e) ==> rc == e && flushes_asked(*old(s), *final(s)) == 0
            &&& r matches Ok(n) ==> {
                &&& rc == 0
                &&& *final(count) == Some(n)
                &&& lasting(*final(s)) == img
                &&& flushes_asked(*old(s), *final(s)) == 1
            }
        },
{
}

/// Making a file some bytes long leaves the disk as that makes it. What the disk
/// holds is lasting where the file was emptied.
#[verifier::rlimit(30)]
pub proof fn law_truncate_call<D: McxDiskOps>(
    s: &mut State<D>,
    path: McxPath,
    len: u64,
    rc: i32,
)
    requires
        call_ensures(State::<D>::truncate_impl, (s, path, len), rc),
    ensures
        !is_rooted(path) ==> rc == -22 && *final(s) == *old(s),
        is_rooted(path) ==> {
            &&& final(s).sb == old(s).sb
            &&& final(s).disk_id == old(s).disk_id
            &&& final(s).mounted == old(s).mounted
            &&& kept_to_sectors(*old(s), *final(s))
            &&& !ran_well(*old(s), *final(s)) ==> has_stopped(*old(s), *final(s), rc)
        },
        is_rooted(path) && ran_well(*old(s), *final(s)) ==> {
            let was = disk_of(*old(s));
            let target = resolved(was, old(s).sb, path.ptr->Some_0@);
            let (img, r) = path_truncated(was, old(s).sb, path.ptr->Some_0@, len);
            &&& disk_of(*final(s)) == img
            &&& r matches Err(e) ==> rc == e
            &&& r is Ok ==> rc == 0
            &&& if r is Ok && (target->Ok_0).1.size != len {
                lasting(*final(s)) == img && flushes_asked(*old(s), *final(s)) == 1
            } else {
                &&& lasting(*final(s)) == lasting(*old(s))
                &&& img == was
                &&& flushes_asked(*old(s), *final(s)) == 0
            }
        },
{
    if let Ok((_, inode)) = resolved(disk_of(*old(s)), old(s).sb, path.ptr->Some_0@) {
        law_mode_tells_type(inode.mode);
    }
    law_truncation_answers(
        disk_of(*old(s)),
        old(s).sb,
        path.ptr->Some_0@,
        len,
    );
}

/// Creating leaves the disk as creating the path makes it. What the disk holds is
/// lasting where it succeeds.
#[verifier::rlimit(30)]
pub proof fn law_create_call<D: McxDiskOps>(
    s: &mut State<D>,
    path: McxPath,
    mode: u32,
    rc: i32,
)
    requires
        call_ensures(State::<D>::create_impl, (s, path, mode), rc),
    ensures
        !is_rooted(path) ==> rc == -22 && *final(s) == *old(s),
        is_rooted(path) ==> {
            &&& final(s).sb == old(s).sb
            &&& final(s).disk_id == old(s).disk_id
            &&& final(s).mounted == old(s).mounted
            &&& kept_to_sectors(*old(s), *final(s))
            &&& rc == 0 ==> flushes_asked(*old(s), *final(s)) == 1 && lasting(*final(s)) == disk_of(
                *final(s),
            )
        },
        is_rooted(path) && ran_well(*old(s), *final(s)) ==> {
            let (img, r) = created(disk_of(*old(s)), old(s).sb, path.ptr->Some_0@, mode);
            &&& disk_of(*final(s)) == img
            &&& r matches Err(e) ==> rc == e && flushes_asked(*old(s), *final(s)) == 0
            &&& r is Ok ==> rc == 0 && lasting(*final(s)) == img
        },
{
    if is_rooted(path) && ran_well(*old(s), *final(s)) {
        let log = old(s).faults();
        assert forall|e: i32| !(#[trigger] log.push(e)).is_prefix_of(log) by {
            assert(log.push(e).len() > log.len());
        }
    }
}

/// Creating a path tells which lookup came last: that of the path where it leads
/// somewhere already or has no name, that of its directory where there is none or
/// something could not be made or entered, and else that of the path once more, which
/// is always the last where creating succeeds.
#[verifier::rlimit(30)]
pub proof fn law_last_lookup_is_told<D: McxDiskOps>(
    s: &mut State<D>,
    path: McxPath,
    mode: u32,
    last: &mut Lookup,
    rc: i32,
)
    requires
        call_ensures(State::<D>::create_tracing, (s, path, mode, last), rc),
    ensures
        path.ptr is None ==> *final(last) == *old(last),
        path.ptr is Some && !is_rooted(path) ==> *final(last) is Path,
        !is_rooted(path) ==> rc == -22 && *final(s) == *old(s),
        is_rooted(path) && rc == 0 ==> *final(last) is Again,
        is_rooted(path) && ran_well(*old(s), *final(s)) ==> {
            let img = disk_of(*old(s));
            let p = path.ptr->Some_0@;
            let parent = resolved(img, old(s).sb, (split(p)->Ok_0).0);
            if resolved(img, old(s).sb, p) is Ok || split(p) is Err {
                *final(last) is Path
            } else if parent is Err || (parent->Ok_0).1.mode / 4096 != 4 || !is_afforded(
                img,
                old(s).sb,
                p,
                mode,
            ) {
                *final(last) is Parent
            } else {
                *final(last) is Again
            }
        },
{
    let img = disk_of(*old(s));
    let p = path.ptr->Some_0@;
    if let Ok((_, inode)) = resolved(img, old(s).sb, (split(p)->Ok_0).0) {
        law_mode_tells_type(inode.mode);
    }
}

/// What was created is what is reported: the status of a path right after it was
/// created has exactly the nine permission bits of the request, for a directory as
/// for a file, and the type that was asked for, and nothing else. The size of a file
/// is 0, and that of a directory one block.
#[verifier::rlimit(30)]
pub proof fn law_created_mode_is_reported<D: McxDiskOps>(
    s: &mut State<D>,
    path: McxPath,
    requested: u32,
    made: i32,
    t: &mut State<D>,
    mode: &mut Option<u16>,
    size: &mut Option<u64>,
    rc: i32,
    reserved: Region,
)
    requires
        call_ensures(State::<D>::create_impl, (s, path, requested), made),
        made == 0,
        is_rooted(path),
        ran_well(*old(s), *final(s)),
        is_creatable(disk_of(*old(s)), old(s).sb, path.ptr->Some_0@, reserved),
        *old(t) == *final(s),
        call_ensures(State::<D>::stat_impl, (t, path, mode, size), rc),
        *old(mode) is Some,
        *old(size) is Some,
        ran_well(*old(t), *final(t)),
    ensures
        rc == 0,
        *final(mode) is Some,
        *final(size) is Some,
        ({
            let m = (*final(mode))->Some_0;
            &&& m & 0o777 == requested & 0o777
            &&& m & 0x0e00 == 0
            &&& m & 0xf000 == if requested / 4096 % 16 == 4 {
                0x4000u16
            } else {
                0x8000u16
            }
            &&& (*final(size))->Some_0 == if requested / 4096 % 16 == 4 {
                old(s).sb.block_size as int
            } else {
                0
            }
        }),
{
    let img = disk_of(*old(s));
    let p = path.ptr->Some_0@;
    law_create_call(s, path, requested, made);
    assert(created(img, old(s).sb, p, requested).1 is Ok);
    assert(is_afforded(img, old(s).sb, p, requested));
    law_created_as_requested(img, old(s).sb, p, requested, reserved);
}

/// What was written is what is read: a read of as many bytes from the same place of
/// the file right after a write that succeeded gives the bytes that were written.
#[verifier::rlimit(30)]
pub proof fn law_written_bytes_are_read<D: McxDiskOps>(
    s: &mut State<D>,
    path: McxPath,
    offset: u64,
    data: McxBuffer,
    written: &mut Option<usize>,
    stored: i32,
    t: &mut State<D>,
    buf: &mut McxBuffer,
    count: &mut Option<usize>,
    rc: i32,
    reserved: Region,
)
    requires
        call_ensures(State::<D>::write_impl, (s, path, offset, &data, written), stored),
        stored == 0,
        is_rooted(path),
        data.ptr is Some,
        *old(written) is Some,
        ran_well(*old(s), *final(s)),
        data.ptr->Some_0@.len() <= usize::MAX,
        ({
            let target = resolved(disk_of(*old(s)), old(s).sb, path.ptr->Some_0@);
            let ino = (target->Ok_0).0;
            &&& target is Ok
            &&& is_sound_file(disk_of(*old(s)), old(s).sb, ino, reserved)
            &&& is_steady_path(
                disk_of(*old(s)),
                old(s).sb,
                spared(disk_of(*old(s)), old(s).sb, ino, reserved),
                path.ptr->Some_0@,
            )
        }),
        *old(t) == *final(s),
        call_ensures(State::<D>::read_impl, (t, path, offset, buf, count), rc),
        old(buf).ptr is Some,
        old(buf).ptr->Some_0@.len() == data.ptr->Some_0@.len(),
        *old(count) is Some,
        ran_well(*old(t), *final(t)),
    ensures
        *final(written) is Some,
        (*final(written))->Some_0 == data.ptr->Some_0@.len(),
        rc == 0,
        *final(count) == *final(written),
        final(buf).ptr is Some,
        final(buf).ptr->Some_0@ == data.ptr->Some_0@,
{
    let img = disk_of(*old(s));
    let p = path.ptr->Some_0@;
    let bytes = data.ptr->Some_0@;
    law_write_call(s, path, offset, data, written, stored);
    assert(path_written(img, old(s).sb, p, offset, bytes).1 is Ok);
    law_path_reads_back(img, old(s).sb, p, reserved, offset, bytes);
    law_read_call(t, path, offset, buf, count, rc);
    assert(final(buf).ptr->Some_0@ =~= bytes);
}

/// A write that can be made is made: where the last byte belongs to a block that a
/// file can have, the end fits in 32 bits, and there is a free block for each that is
/// missing, with both counts as large, the call is answered with 0 and has written
/// all bytes.
#[verifier::rlimit(30)]
pub proof fn law_possible_write_call<D: McxDiskOps>(
    s: &mut State<D>,
    path: McxPath,
    offset: u64,
    data: McxBuffer,
    count: &mut Option<usize>,
    rc: i32,
    reserved: Region,
    free: Set<u32>,
)
    requires
        call_ensures(State::<D>::write_impl, (s, path, offset, &data, count), rc),
        is_rooted(path),
        data.ptr is Some,
        *old(count) is Some,
        ran_well(*old(s), *final(s)),
        ({
            let img = disk_of(*old(s));
            let sb = old(s).sb;
            let target = resolved(img, sb, path.ptr->Some_0@);
            let (ino, inode) = target->Ok_0;
            let len = data.ptr->Some_0@.len();
            let bs = sb.block_size as int;
            let lo = offset as int / bs;
            let hi = (offset + len - 1) / bs + 1;
            let needed = blocks_needed(img, sb, inode_addr(img, sb, ino), lo, hi);
            &&& target is Ok
            &&& inode.mode / 4096 == 8
            &&& is_sound_file(img, sb, ino, reserved)
            &&& offset + len <= 0xffff_ffff
            &&& len > 0 ==> {
                &&& hi <= 12 + sb.block_size / 4
                &&& free.finite()
                &&& free.len() >= needed
                &&& forall|b: u32|
                    #[trigger] free.contains(b) ==> is_unused_block(img, sb, b as int)
                &&& half(img, 1036) >= needed
                &&& half(img, descriptor(sb, 0) + 12) >= needed
            }
        }),
    ensures
        rc == 0,
        *final(count) is Some,
        (*final(count))->Some_0 == data.ptr->Some_0@.len(),
        lasting(*final(s)) == disk_of(*final(s)),
{
    let p = path.ptr->Some_0@;
    law_write_call(s, path, offset, data, count, rc);
    law_possible_write_is_made(
        disk_of(*old(s)),
        old(s).sb,
        p,
        reserved,
        offset,
        data.ptr->Some_0@,
        free,
    );
}

/// A path that can be created is created: where there is a free number and the blocks
/// that it takes, with all counts as large, the call is answered with 0.
pub proof fn law_possible_create_call<D: McxDiskOps>(
    s: &mut State<D>,
    path: McxPath,
    mode: u32,
    rc: i32,
    reserved: Region,
    number: int,
    free: Set<u32>,
)
    requires
        call_ensures(State::<D>::create_impl, (s, path, mode), rc),
        is_rooted(path),
        ran_well(*old(s), *final(s)),
        ({
            let img = disk_of(*old(s));
            let sb = old(s).sb;
            let p = path.ptr->Some_0@;
            let (parent_path, name) = split(p)->Ok_0;
            let (_, parent) = resolved(img, sb, parent_path)->Ok_0;
            let needed = blocks_for_creating(img, sb, parent, name, mode);
            &&& is_creatable(img, sb, p, reserved)
            &&& is_countable(img, sb, reserved)
            &&& sb.inodes_per_group <= 8 * sb.block_size || sb.inodes_count <= 8 * sb.block_size
            &&& is_unused_number(img, sb, number)
            &&& half(img, 1040) != 0
            &&& half(img, descriptor(sb, 0) + 14) != 0
            &&& have_room(directory_from(img, sb, parent, 0).records, name) || parent.size <= 11
                * sb.block_size
            &&& free.finite()
            &&& free.len() >= needed
            &&& forall|b: u32| #[trigger] free.contains(b) ==> is_unused_block(img, sb, b as int)
            &&& half(img, 1036) >= needed
            &&& half(img, descriptor(sb, 0) + 12) >= needed
        }),
    ensures
        rc == 0,
        resolved(disk_of(*final(s)), old(s).sb, path.ptr->Some_0@) is Ok,
        lasting(*final(s)) == disk_of(*final(s)),
{
    law_create_call(s, path, mode, rc);
    law_possible_creation_is_made(
        disk_of(*old(s)),
        old(s).sb,
        path.ptr->Some_0@,
        mode,
        reserved,
        number,
        free,
    );
}

/// What was written shows in the status: right after a write that succeeded, the mode
/// is what it was, and the size is the end of the write where that lies behind the old
/// end of the file.
pub proof fn law_written_size_is_reported<D: McxDiskOps>(
    s: &mut State<D>,
    path: McxPath,
    offset: u64,
    data: McxBuffer,
    written: &mut Option<usize>,
    stored: i32,
    t: &mut State<D>,
    mode: &mut Option<u16>,
    size: &mut Option<u64>,
    rc: i32,
    reserved: Region,
)
    requires
        call_ensures(State::<D>::write_impl, (s, path, offset, &data, written), stored),
        stored == 0,
        is_rooted(path),
        data.ptr is Some,
        *old(written) is Some,
        ran_well(*old(s), *final(s)),
        data.ptr->Some_0@.len() <= usize::MAX,
        ({
            let img = disk_of(*old(s));
            let target = resolved(img, old(s).sb, path.ptr->Some_0@);
            let ino = (target->Ok_0).0;
            &&& target is Ok
            &&& is_sound_file(img, old(s).sb, ino, reserved)
            &&& is_steady_path(
                img,
                old(s).sb,
                spared(img, old(s).sb, ino, reserved),
                path.ptr->Some_0@,
            )
        }),
        *old(t) == *final(s),
        call_ensures(State::<D>::stat_impl, (t, path, mode, size), rc),
        *old(mode) is Some,
        *old(size) is Some,
        ran_well(*old(t), *final(t)),
    ensures
        ({
            let was = (resolved(disk_of(*old(s)), old(s).sb, path.ptr->Some_0@)->Ok_0).1;
            let end = offset + data.ptr->Some_0@.len();
            &&& rc == 0
            &&& *final(mode) == Some(was.mode)
            &&& *final(size) is Some
            &&& (*final(size))->Some_0 == if was.size >= end {
                was.size as int
            } else {
                end as int
            }
        }),
{
    let img = disk_of(*old(s));
    let p = path.ptr->Some_0@;
    let bytes = data.ptr->Some_0@;
    law_write_call(s, path, offset, data, written, stored);
    assert(path_written(img, old(s).sb, p, offset, bytes).1 is Ok);
    law_path_reads_back(img, old(s).sb, p, reserved, offset, bytes);
}

/// Without a driver, requests are answered with -38, and nothing changes.
pub proof fn law_no_driver_calls<D: McxDiskOps>(
    s: &mut State<D>,
    lba: u64,
    buf: &mut [u8],
    read: i32,
    t: &mut State<D>,
    data: &[u8],
    written: i32,
    u: &mut State<D>,
    flushed: i32,
)
    requires
        old(s).disk_ops is None,
        call_ensures(State::<D>::disk_read, (s, lba, buf), read),
        old(t).disk_ops is None,
        call_ensures(State::<D>::disk_write, (t, lba, data), written),
        old(u).disk_ops is None,
        call_ensures(State::<D>::disk_flush, (u,), flushed),
    ensures
        read == -38 && *final(s) == *old(s),
        written == -38 && *final(t) == *old(t),
        flushed == -38 && *final(u) == *old(u),
{
}

/// Mounting can always be asked for, and the status, the bytes and the names at any
/// path where there is a driver and a volume whose blocks have a size and whose groups
/// have inodes.
pub proof fn law_reading_can_be_asked_for<D: McxDiskOps>(
    s: &mut State<D>,
    disk: u32,
    path: McxPath,
    mode: &mut Option<u16>,
    size: &mut Option<u64>,
    offset: u64,
    buf: &mut McxBuffer,
    count: &mut Option<usize>,
)
    requires
        old(s).disk_ops is Some,
        old(s).sb.block_size == 1024 || old(s).sb.block_size == 2048 || old(s).sb.block_size
            == 4096,
        old(s).sb.inodes_per_group != 0,
    ensures
        call_requires(State::<D>::mount_impl, (s, disk)),
        call_requires(State::<D>::stat_impl, (s, path, mode, size)),
        call_requires(State::<D>::read_impl, (s, path, offset, buf, count)),
        call_requires(State::<D>::readdir_impl, (s, path, buf, count)),
{
}

/// Searches for blocks stay in their bitmap while data are stored.
proof fn lemma_storable(
    img: Image,
    sb: Superblock,
    raw: Seq<u8>,
    data: Seq<u8>,
    offset: u64,
    done: int,
)
    requires
        sb.wf(),
        sb.blocks_tracked(),
    ensures
        is_storable(img, sb, raw, data, offset, done),
    decreases data.len() - done,
{
    let n = chunk_len(sb, offset, data.len() as int, done);
    if done < data.len() && n > 0 {
        let (img1, raw1, r) = chunk_written(img, sb, raw, data, offset, done);
        let (img2, given) = block_allocated(img, sb);
        law_tracked_blocks_are_bounded(img, sb);
        law_tracked_blocks_are_bounded(
            block_stored(img2, sb, given->Ok_0, zeros(MAX_BLOCK_SIZE as nat)),
            sb,
        );
        if r is Ok {
            lemma_storable(img1, sb, raw1, data, offset, done + n);
        }
    }
}

/// Bitmaps have bits for all blocks that an indirect block names.
proof fn lemma_entries_tracked(img: Image, sb: Superblock, indirect: u32, i: int)
    requires
        0 < sb.blocks_per_group <= 32768,
    ensures
        are_entries_tracked(img, sb, indirect, i),
    decreases sb.block_size / 4 - i,
{
    if i < sb.block_size / 4 {
        let block = u32_at(img, indirect * sb.block_size + 4 * i);
        if block == 0 {
            lemma_entries_tracked(img, sb, indirect, i + 1);
        } else {
            lemma_mod_bound(block as int, sb.blocks_per_group as int);
            lemma_entries_tracked(block_freed(img, sb, block), sb, indirect, i + 1);
        }
    }
}

/// Bitmaps have bits for all blocks of a file.
proof fn lemma_freeable(img: Image, sb: Superblock, raw: Seq<u8>)
    requires
        0 < sb.blocks_per_group <= 32768,
    ensures
        is_freeable(img, sb, raw),
{
    let ptrs = inode_in(raw).blocks;
    assert forall|k: int| 0 <= k < 13 && #[trigger] ptrs[k] != 0 implies is_tracked(
        sb,
        ptrs[k],
    ) by {
        lemma_mod_bound(ptrs[k] as int, sb.blocks_per_group as int);
    }
    lemma_entries_tracked(direct_freed(img, sb, raw, ptrs, 0).0, sb, ptrs[12], 0);
}

/// Writing, emptying and creating can be asked for at any path where there is a
/// driver and a volume whose blocks have a size, and whose groups have at least one
/// and at most 32768 inodes and as many blocks, which is how many bits the largest
/// block has. The path must not be longer than the name in such a block can be.
#[verifier::rlimit(30)]
pub proof fn law_storing_can_be_asked_for<D: McxDiskOps>(
    s: &mut State<D>,
    path: McxPath,
    offset: u64,
    data: McxBuffer,
    count: &mut Option<usize>,
    len: u64,
    mode: u32,
)
    requires
        old(s).disk_ops is Some,
        old(s).sb.block_size == 1024 || old(s).sb.block_size == 2048 || old(s).sb.block_size
            == 4096,
        0 < old(s).sb.inodes_per_group <= 32768,
        0 < old(s).sb.blocks_per_group <= 32768,
        path.ptr is Some ==> path.ptr->Some_0@.len() <= 4088,
    ensures
        call_requires(State::<D>::write_impl, (s, path, offset, &data, count)),
        call_requires(State::<D>::truncate_impl, (s, path, len)),
        call_requires(State::<D>::create_impl, (s, path, mode)),
{
    let img = disk_of(*old(s));
    let sb = old(s).sb;
    let p = path.ptr->Some_0@;
    let raw = raw_inode(img, sb, (resolved(img, sb, p)->Ok_0).0);
    lemma_storable(img, sb, raw, data.ptr->Some_0@, offset, 0);
    lemma_freeable(img, sb, raw);
    if is_rooted(path) && split(p) is Ok {
        let (parent_path, name) = split(p)->Ok_0;
        let (dir, parent) = resolved(img, sb, parent_path)->Ok_0;
        let (ready, node) = node_made(img, sb, mode, dir);
        let (ino, block) = node->Ok_0;
        law_tracked_numbers_are_bounded(img, sb);
        law_tracked_blocks_are_bounded(inode_allocated(img, sb).0, sb);
        law_tracked_blocks_are_bounded(
            inode_stored(ready, sb, ino, new_inode(sb, mode, block)).0,
            sb,
        );
        lemma_name_within(p);
    }
}

/// A name is no longer than its path.
proof fn lemma_name_within(p: Seq<u8>)
    requires
        split(p) is Ok,
    ensures
        (split(p)->Ok_0).1.len() <= p.len(),
{
    lemma_trimmed_len(p, p.len() as int);
    lemma_last_slash(p, trimmed_len(p, p.len() as int) - 1);
}

/// Removing and renaming are answered with -38, and nothing changes.
pub proof fn law_calls_not_offered<D: McxDiskOps>(
    s: &mut State<D>,
    path: McxPath,
    is_dir: u32,
    removed: i32,
    t: &mut State<D>,
    src: McxPath,
    dst: McxPath,
    renamed: i32,
)
    requires
        call_ensures(State::<D>::remove_impl, (s, path, is_dir), removed),
        call_ensures(State::<D>::rename_impl, (t, src, dst), renamed),
    ensures
        removed == -38 && *final(s) == *old(s),
        renamed == -38 && *final(t) == *old(t),
{
}

/// A driver is taken where there is one, and refused with -22 where there is none.
pub proof fn law_driver_is_taken<D: McxDiskOps>(s: &mut State<D>, ops: Option<D>, rc: i32)
    requires
        call_ensures(State::<D>::set_disk_ops_impl, (s, ops), rc),
    ensures
        ops is None ==> rc == -22 && *final(s) == *old(s),
        ops is Some ==> {
            &&& rc == 0
            &&& final(s).disk_ops == ops
            &&& final(s).mounted == old(s).mounted
            &&& final(s).disk_id == old(s).disk_id
            &&& final(s).sb == old(s).sb
        },
{
}

/// Bytes that are copied are those of the source, and bytes that are set are the
/// number modulo 256; no other byte changes.
pub proof fn law_memory_is_filled(
    dst: &mut [u8],
    from: &[u8],
    other: &mut [u8],
    byte: i32,
    len: usize,
    i: int,
)
    requires
        call_ensures(memcpy, (dst, from, len), ()),
        len <= old(dst)@.len(),
        len <= from@.len(),
        call_ensures(memset, (other, byte, len), ()),
        len <= old(other)@.len(),
    ensures
        final(dst)@.len() == old(dst)@.len(),
        final(other)@.len() == old(other)@.len(),
        0 <= i < len ==> final(dst)@[i] == from@[i],
        len <= i < old(dst)@.len() ==> final(dst)@[i] == old(dst)@[i],
        0 <= i < len ==> final(other)@[i] == byte as int % 256,
        len <= i < old(other)@.len() ==> final(other)@[i] == old(other)@[i],
{
    let low = byte & 0xff;
    assert(0 <= low < 256 && (byte - low) % 256 == 0) by (bit_vector)
        requires
            low == byte & 0xff,
    ;
}

/// Comparing bytes gives the difference of the first two that differ, and 0 where
/// none do.
pub proof fn law_memory_is_compared(lhs: &[u8], rhs: &[u8], len: usize, d: i32, k: int)
    requires
        call_ensures(memcmp, (lhs, rhs, len), d),
        len <= lhs@.len(),
        len <= rhs@.len(),
    ensures
        (forall|i: int| 0 <= i < len ==> lhs@[i] == rhs@[i]) ==> d == 0,
        0 <= k < len && lhs@[k] != rhs@[k] && (forall|i: int| 0 <= i < k ==> lhs@[i] == rhs@[i])
            ==> d == lhs@[k] - rhs@[k],
{
    lemma_difference(lhs@, rhs@, len, k);
}

/// The difference of bytes is that of the first two that differ.
proof fn lemma_difference(a: Seq<u8>, b: Seq<u8>, len: usize, k: int)
    ensures
        (forall|i: int| 0 <= i < len ==> a[i] == b[i]) ==> difference(a, b, len) == 0,
        0 <= k < len && a[k] != b[k] && (forall|i: int| 0 <= i < k ==> a[i] == b[i])
            ==> difference(a, b, len) == a[k] - b[k],
{
    if forall|i: int| 0 <= i < len ==> a[i] == b[i] {
        lemma_first_difference(a, b, len as int, len as int, 0);
    }
    if 0 <= k < len && (forall|i: int| 0 <= i < k ==> a[i] == b[i]) {
        lemma_first_difference(a, b, len as int, k, 0);
    }
}

/// Bytes that are equal do not matter for the first difference.
proof fn lemma_first_difference(a: Seq<u8>, b: Seq<u8>, len: int, k: int, i: int)
    requires
        0 <= i <= k <= len,
        forall|j: int| i <= j < k ==> a[j] == b[j],
    ensures
        first_difference(a, b, len, i) == first_difference(a, b, len, k),
    decreases k - i,
{
    if i < k {
        lemma_first_difference(a, b, len, k, i + 1);
    }
}

} // verus!
