//! The operations of the file system: mounting, status, reading and truncating.

use vstd::arithmetic::div_mod::lemma_basic_div;
use vstd::prelude::*;
use crate::abi::{path_bytes, McxBuffer, McxPath, EINVAL, EISDIR, ENOSYS, ENOTDIR};
use crate::codec::{
    copy_range, get_u16, get_u32, is_filled, lemma_filled, lemma_filled_all, lemma_filled_none,
    lemma_overlay_take, overlay, zeros,
};
use crate::dir::{directory_from, dot, dot_dot, record_at, records_in, resolved, span, DirRecord};
use crate::disk::{Image, McxDiskOps};
use crate::entry::raw_inode;
use crate::file::{file_read, reads_blocks};
use crate::layout::{
    block_bytes, block_span, inode_stored, is_dir, is_file, mode_is_dir, mode_is_file,
    superblock_at, Inode, InodeView, Superblock, MAX_BLOCK_SIZE, MAX_INODE_SIZE,
};
use crate::mapping::{blocks_freed, freed_trail, is_freeable};
use crate::path::{is_absolute, DOT};
use crate::state::{status, State};
use crate::trail::{
    is_confined, lemma_confined_none, lemma_confined_push, lemma_confined_start, Place,
};

verus! {

impl<'a> McxPath<'a> {
    /// Whether there is a path and it starts at the root.
    pub open spec fn is_absolute(self) -> bool {
        self.ptr is Some && is_absolute(self@)
    }

    /// The bytes of the path.
    pub open spec fn view(self) -> Seq<u8> {
        self.ptr->Some_0@
    }
}

impl McxBuffer {
    /// The bytes of the buffer.
    pub open spec fn view(self) -> Seq<u8> {
        self.ptr->Some_0@
    }
}

impl<D: McxDiskOps> State<D> {
    /// Whether a driver is there and inodes and blocks can be located.
    pub open spec fn ready(&self) -> bool {
        self.attached() && self.sb.readable()
    }

    /// A file system without a driver and without a volume.
    pub fn new() -> (s: Self)
        ensures
            !s.attached(),
            !s.mounted,
            s.disk_id == 0,
            s.sb == Superblock::blank(),
    {
        State { disk_ops: None, mounted: false, disk_id: 0, sb: Superblock::empty() }
    }

    /// Whether paths can be resolved.
    pub fn is_ready(&self) -> (b: bool)
        requires
            self.sb.wf(),
        ensures
            b == self.ready(),
    {
        self.disk_ops.is_some() && self.sb.block_size != 0 && self.sb.inodes_per_group != 0
    }

    /// Takes a driver. There must be one.
    pub fn set_disk_ops_impl(&mut self, ops: Option<D>) -> (rc: i32)
        ensures
            ops is None ==> rc == EINVAL && *final(self) == *old(self),
            ops is Some ==> {
                &&& rc == 0
                &&& final(self).disk_ops == ops
                &&& final(self).mounted == old(self).mounted
                &&& final(self).disk_id == old(self).disk_id
                &&& final(self).sb == old(self).sb
            },
    {
        if ops.is_none() {
            return EINVAL;
        }
        self.disk_ops = ops;
        0
    }

    /// Mounts the volume on a disk. Whatever comes of it, that disk is the one
    /// that is worked on from then on.
    pub fn mount_impl(&mut self, device_id: u32) -> (rc: i32)
        ensures
            !old(self).attached() ==> rc == ENOSYS && *final(self) == *old(self),
            old(self).attached() ==> {
                let img = old(self).disk_ops->Some_0.image(device_id);
                let want = superblock_at(img);
                &&& final(self).attached()
                &&& final(self).disk_id == device_id
                &&& final(self).flushes() == old(self).flushes()
                &&& final(self).uneven() == old(self).uneven()
                &&& forall|id: u32| #[trigger]
                    final(self).disk_ops->Some_0.image(id) == old(self).disk_ops->Some_0.image(id)
                &&& forall|id: u32| #[trigger]
                    final(self).disk_ops->Some_0.durable(id)
                        == old(self).disk_ops->Some_0.durable(id)
                &&& forall|id: u32| #[trigger]
                    final(self).disk_ops->Some_0.torn(id) == old(self).disk_ops->Some_0.torn(id)
                &&& if final(self).quiet(*old(self)) && want is Ok {
                    rc == 0 && final(self).sb == want->Ok_0 && final(self).mounted
                } else {
                    &&& final(self).sb == old(self).sb
                    &&& final(self).mounted == old(self).mounted
                    &&& if final(self).quiet(*old(self)) {
                        rc == want->Err_0
                    } else {
                        final(self).failed(*old(self), rc)
                    }
                }
            },
            old(self).sb.wf() ==> final(self).sb.wf(),
    {
        if self.disk_ops.is_none() {
            return ENOSYS;
        }
        self.disk_id = device_id;
        match self.load_superblock() {
            Ok(sb) => {
                self.sb = sb;
                self.mounted = true;
                0
            },
            Err(rc) => rc,
        }
    }

    /// Removing is not offered.
    pub fn remove_impl(&mut self, _path: McxPath, _is_dir: u32) -> (rc: i32)
        ensures
            rc == ENOSYS,
            *final(self) == *old(self),
    {
        ENOSYS
    }

    /// Renaming is not offered.
    pub fn rename_impl(&mut self, _src: McxPath, _dst: McxPath) -> (rc: i32)
        ensures
            rc == ENOSYS,
            *final(self) == *old(self),
    {
        ENOSYS
    }

    /// Gives the mode and the size of what a path leads to.
    pub fn stat_impl(
        &mut self,
        path: McxPath,
        out_mode: &mut Option<u16>,
        out_size: &mut Option<u64>,
    ) -> (rc: i32)
        requires
            *old(out_mode) is Some && *old(out_size) is Some && path.is_absolute() ==> old(
                self,
            ).walkable(path@),
        ensures
            rc != 0 ==> *final(out_mode) == *old(out_mode) && *final(out_size) == *old(out_size),
            *old(out_mode) is None || *old(out_size) is None || !path.is_absolute() ==> rc == EINVAL
                && *final(self) == *old(self),
            *old(out_mode) is Some && *old(out_size) is Some && path.is_absolute() ==> {
                let want = resolved(old(self).image(), old(self).sb, path@);
                &&& final(self).reads(*old(self), status(rc), status_of(want))
                &&& rc == 0 ==> *final(out_mode) == Some((want->Ok_0).1.mode) && *final(out_size)
                    == Some((want->Ok_0).1.size as u64)
            },
    {
        if out_mode.is_none() || out_size.is_none() {
            return EINVAL;
        }
        let path = match path_bytes(path) {
            Some(p) => p,
            None => return EINVAL,
        };
        let inode = match self.resolve_path(path) {
            Ok((_, inode)) => inode,
            Err(rc) => return rc,
        };
        *out_mode = Some(inode.mode);
        *out_size = Some(inode.size as u64);
        0
    }
}

impl<D: McxDiskOps> State<D> {
    /// Reads a file from `offset` on into `buf`, and gives the number of bytes
    /// read.
    pub fn read_impl(
        &mut self,
        path: McxPath,
        offset: u64,
        buf: &mut McxBuffer,
        out_read: &mut Option<usize>,
    ) -> (rc: i32)
        requires
            old(buf).ptr is Some && *old(out_read) is Some && path.is_absolute() ==> {
                let target = resolved(old(self).image(), old(self).sb, path@);
                &&& old(self).walkable(path@)
                &&& target is Ok && reads_blocks((target->Ok_0).1, offset, old(buf)@.len())
                    ==> old(self).ready()
            },
        ensures
            final(buf).ptr is Some == old(buf).ptr is Some,
            final(buf)@.len() == old(buf)@.len(),
            rc != 0 ==> *final(out_read) == *old(out_read),
            old(buf).ptr is None || *old(out_read) is None || !path.is_absolute() ==> {
                &&& rc == EINVAL
                &&& *final(self) == *old(self)
                &&& *final(buf) == *old(buf)
            },
            old(buf).ptr is Some && *old(out_read) is Some && path.is_absolute() ==> {
                let want = path_read(
                    old(self).image(),
                    old(self).sb,
                    path@,
                    offset,
                    old(buf)@.len(),
                );
                &&& final(self).reads(*old(self), status(rc), status_of(want.1))
                &&& final(self).quiet(*old(self)) ==> final(buf)@ == overlay(old(buf)@, 0, want.0)
                &&& is_filled(old(buf)@, final(buf)@, want.0)
                &&& rc == 0 ==> *final(out_read) == Some(want.1->Ok_0)
            },
    {
        let ghost old_bytes = buf@;
        let ghost want = path_read(self.image(), self.sb, path@, offset, buf@.len());
        match &mut buf.ptr {
            None => EINVAL,
            Some(bytes) => {
                if out_read.is_none() {
                    return EINVAL;
                }
                let path = match path_bytes(path) {
                    Some(p) => p,
                    None => return EINVAL,
                };
                let inode = match self.resolve_path(path) {
                    Ok((_, inode)) => inode,
                    Err(rc) => {
                        assert(old_bytes =~= overlay(old_bytes, 0, Seq::empty()));
                        proof {
                            lemma_filled_none(old_bytes, want.0);
                        }
                        return rc;
                    },
                };
                match self.read_file_bytes(inode, offset, bytes.as_mut_slice()) {
                    Ok(read) => {
                        *out_read = Some(read);
                        0
                    },
                    Err(rc) => rc,
                }
            },
        }
    }

    /// Empties a file. No other change of length is offered.
    pub fn truncate_impl(&mut self, path: McxPath, len: u64) -> (rc: i32)
        requires
            path.is_absolute() ==> {
                let img = old(self).image();
                let sb = old(self).sb;
                let (ino, _) = resolved(img, sb, path@)->Ok_0;
                &&& old(self).walkable(path@)
                &&& is_emptied(img, sb, path@, len) ==> is_freeable(
                    img,
                    sb,
                    raw_inode(img, sb, ino),
                )
            },
        ensures
            !path.is_absolute() ==> rc == EINVAL && *final(self) == *old(self),
            path.is_absolute() ==> final(self).commits(
                *old(self),
                rc,
                path_truncated(old(self).image(), old(self).sb, path@, len),
                is_emptied(old(self).image(), old(self).sb, path@, len),
            ) && is_confined(
                old(self).medium(),
                final(self).medium(),
                old(self).sb,
                truncate_trail(old(self).image(), old(self).sb, path@, len),
            ),
    {
        let path = match path_bytes(path) {
            Some(p) => p,
            None => return EINVAL,
        };
        let ghost img = self.image();
        let ghost disk = self.medium();
        proof {
            lemma_confined_none(disk, self.sb, truncate_trail(img, self.sb, path@, len));
        }
        let (ino, inode) = match self.resolve_path(path) {
            Ok(v) => v,
            Err(rc) => return rc,
        };
        if !is_file(inode.mode) {
            return EISDIR;
        }
        if len != 0 && len != inode.size as u64 {
            return ENOSYS;
        }
        if len == inode.size as u64 {
            return 0;
        }
        let mut inode_raw: [u8; 512] = [0u8;512];
        assert(inode_raw@ =~= zeros(512));
        match self.read_inode_raw(ino, &mut inode_raw) {
            Ok(_) => {},
            Err(rc) => return rc,
        }
        let ghost raw = inode_raw@;
        let ghost last = Place::Inode(ino);
        let freed = self.free_inode_blocks(&mut inode_raw);
        let ghost between = self.medium();
        proof {
            let first = freed_trail(img, self.sb, raw);
            lemma_confined_start(disk, between, self.sb, first, seq![last]);
        }
        match freed {
            Ok(_) => {},
            Err(rc) => return rc,
        }
        let rc: i32 = self.write_inode_raw(ino, &inode_raw);
        proof {
            let first = freed_trail(img, self.sb, raw);
            lemma_confined_push(disk, between, self.medium(), self.sb, first, last);
        }
        if rc != 0 {
            return rc;
        }
        self.disk_flush()
    }

    /// Lists the names in a directory, each followed by a zero byte, as far as
    /// `buf` has room, and gives the number of bytes used.
    pub fn readdir_impl(
        &mut self,
        path: McxPath,
        buf: &mut McxBuffer,
        out_len: &mut Option<usize>,
    ) -> (rc: i32)
        requires
            old(buf).ptr is Some && *old(out_len) is Some && path.is_absolute() ==> {
                let target = resolved(old(self).image(), old(self).sb, path@);
                &&& old(self).walkable(path@)
                &&& target is Ok && mode_is_dir((target->Ok_0).1.mode) ==> old(self).ready()
            },
        ensures
            final(buf).ptr is Some == old(buf).ptr is Some,
            final(buf)@.len() == old(buf)@.len(),
            rc != 0 ==> *final(out_len) == *old(out_len),
            old(buf).ptr is None || *old(out_len) is None || !path.is_absolute() ==> {
                &&& rc == EINVAL
                &&& *final(self) == *old(self)
                &&& *final(buf) == *old(buf)
            },
            old(buf).ptr is Some && *old(out_len) is Some && path.is_absolute() ==> {
                let want = path_listed(
                    old(self).image(),
                    old(self).sb,
                    path@,
                    old(buf)@.len() as int,
                );
                &&& final(self).reads(*old(self), status(rc), want.1)
                &&& final(self).quiet(*old(self)) ==> final(buf)@ == overlay(old(buf)@, 0, want.0)
                &&& is_filled(old(buf)@, final(buf)@, want.0)
                &&& rc == 0 ==> *final(out_len) == Some(want.0.len() as usize)
            },
    {
        let ghost old_bytes = buf@;
        let ghost want = path_listed(self.image(), self.sb, path@, buf@.len() as int);
        match &mut buf.ptr {
            None => EINVAL,
            Some(bytes) => {
                if out_len.is_none() {
                    return EINVAL;
                }
                let path = match path_bytes(path) {
                    Some(p) => p,
                    None => return EINVAL,
                };
                assert(old_bytes =~= overlay(old_bytes, 0, Seq::empty()));
                proof {
                    lemma_filled_none(old_bytes, want.0);
                }
                let inode = match self.resolve_path(path) {
                    Ok((_, inode)) => inode,
                    Err(rc) => return rc,
                };
                if !is_dir(inode.mode) {
                    return ENOTDIR;
                }
                match self.list_directory(inode, bytes.as_mut_slice()) {
                    Ok(written) => {
                        *out_len = Some(written);
                        0
                    },
                    Err(rc) => rc,
                }
            },
        }
    }

    /// Lists the names in a directory, and gives the number of bytes used.
    pub fn list_directory(&mut self, inode: Inode, dst: &mut [u8]) -> (r: Result<usize, i32>)
        requires
            old(self).sb.wf(),
            old(self).sb.block_size != 0,
            inode.size != 0 ==> old(self).attached(),
        ensures
            final(dst)@.len() == old(dst)@.len(),
            inode.size == 0 ==> *final(self) == *old(self) && final(dst)@ == old(dst)@,
            ({
                let want = directory_listed(
                    old(self).image(),
                    old(self).sb,
                    inode@,
                    old(dst)@.len() as int,
                );
                &&& want.0.len() <= old(dst)@.len()
                &&& final(self).reads(
                    *old(self),
                    r,
                    match want.1 {
                        Ok(_) => Ok(want.0.len() as usize),
                        Err(e) => Err(e),
                    },
                )
                &&& final(self).quiet(*old(self)) ==> final(dst)@ == overlay(old(dst)@, 0, want.0)
                &&& is_filled(old(dst)@, final(dst)@, want.0)
            }),
    {
        let sb = self.sb;
        let ghost img = self.image();
        let len: usize = dst.len();
        let mut written: usize = 0;
        let mut block_buf: [u8; 4096] = [0u8;4096];
        let blocks: usize = span(sb, inode.size);
        let mut block_index: usize = 0;
        let ghost dir = directory_from(img, sb, inode@, 0);
        let ghost all = listed(dir.records, len as int);
        assert(dst@.take(0) + all.0 =~= all.0);
        proof {
            lemma_listed_len(dir.records, len as int);
            lemma_filled_none(dst@, all.0);
            if inode.size == 0 {
                lemma_basic_div(sb.block_size - 1, sb.block_size as int);
            }
        }
        while block_index < blocks
            invariant
                block_index <= blocks,
                blocks == block_span(sb, inode.size),
                sb == old(self).sb,
                sb.wf(),
                sb.block_size != 0,
                written <= len,
                len == dst@.len() == old(dst)@.len(),
                inode.size == 0 ==> blocks == 0 && *self == *old(self) && dst@ == old(dst)@,
                inode.size != 0 ==> self.attached(),
                self.goes_on(*old(self)),
                self.quiet(*old(self)),
                self.holds(*old(self)),
                self.image() == img,
                img == old(self).image(),
                dir == directory_from(img, sb, inode@, 0),
                all == listed(dir.records, len as int),
                all.0.len() <= len,
                ({
                    let rest = directory_from(img, sb, inode@, block_index as int);
                    let more = listed(rest.records, len - written);
                    &&& all.0 == dst@.take(written as int) + more.0
                    &&& all.1 == more.1
                    &&& dir.error == rest.error
                }),
                dst@.skip(written as int) == old(dst)@.skip(written as int),
            decreases blocks - block_index,
        {
            let block: u32 = match self.data_block_number(inode, block_index as u64) {
                Ok(v) => v,
                Err(e) => {
                    proof {
                        assert(all.0.take(written as int) =~= dst@.take(written as int));
                        lemma_filled(old(dst)@, dst@, all.0, written as int);
                        if self.quiet(*old(self)) {
                            assert(all.0 =~= dst@.take(written as int));
                            lemma_overlay_take(old(dst)@, dst@, written as int);
                        }
                    }
                    return Err(e)
                },
            };
            if block == 0 {
                block_index += 1;
                continue;
            }
            let rc: i32 = self.read_block(block, &mut block_buf);
            if rc != 0 {
                proof {
                    assert(all.0.take(written as int) =~= dst@.take(written as int));
                    lemma_filled(old(dst)@, dst@, all.0, written as int);
                }
                return Err(rc);
            }
            let ghost b = block_bytes(img, sb, block);
            assert(block_buf@.take(sb.block_size as int) =~= b);
            let ghost before = dst@;
            let ghost was: int = written as int;
            let (n, full): (usize, bool) = list_block(
                &block_buf,
                sb.block_size as usize,
                Ghost(block),
                dst,
                written,
            );
            proof {
                let rest = directory_from(img, sb, inode@, block_index + 1).records;
                lemma_listed_concat(records_in(b, block, 0), rest, len - was);
                let here = listed(records_in(b, block, 0), len - was);
                let more = listed(rest, len - was - here.0.len());
                assert(dst@.take(n as int) =~= before.take(was) + here.0);
                if full {
                    assert(all.0 =~= dst@.take(n as int));
                } else {
                    assert(all.0 =~= dst@.take(n as int) + more.0);
                }
                assert forall|i: int| n <= i < len implies dst@[i] == old(dst)@[i] by {
                    assert(before.skip(was)[i - was] == old(dst)@.skip(was)[i - was]);
                }
                assert(dst@.skip(n as int) =~= old(dst)@.skip(n as int));
            }
            written = n;
            if full {
                proof {
                    lemma_overlay_take(old(dst)@, dst@, written as int);
                    lemma_filled_all(old(dst)@, all.0);
                }
                return Ok(written);
            }
            block_index += 1;
        }
        proof {
            assert(all.0 =~= dst@.take(written as int));
            lemma_overlay_take(old(dst)@, dst@, written as int);
            lemma_filled_all(old(dst)@, all.0);
        }
        Ok(written)
    }
}

/// The bytes that a read of `len` bytes from `offset` on of the file at a path
/// gives, and its result.
pub open spec fn path_read(img: Image, sb: Superblock, path: Seq<u8>, offset: u64, len: nat) -> (
    Seq<u8>,
    Result<usize, i32>,
) {
    match resolved(img, sb, path) {
        Err(e) => (Seq::empty(), Err(e)),
        Ok((_, inode)) => file_read(img, sb, inode, offset, len),
    }
}

/// What giving the file at a path the length `len` stores to: what giving back its
/// blocks stores to, and its inode.
pub open spec fn truncate_trail(img: Image, sb: Superblock, path: Seq<u8>, len: u64) -> Seq<Place> {
    if is_emptied(img, sb, path, len) {
        let (ino, _) = resolved(img, sb, path)->Ok_0;
        freed_trail(img, sb, raw_inode(img, sb, ino)) + seq![Place::Inode(ino)]
    } else {
        Seq::empty()
    }
}

/// The file at a path made `len` bytes long.
pub open spec fn path_truncated(img: Image, sb: Superblock, path: Seq<u8>, len: u64) -> (
    Image,
    Result<(), i32>,
) {
    match resolved(img, sb, path) {
        Err(e) => (img, Err(e)),
        Ok((ino, inode)) => if !mode_is_file(inode.mode) {
            (img, Err(EISDIR))
        } else if len == inode.size {
            (img, Ok(()))
        } else if len != 0 {
            (img, Err(ENOSYS))
        } else if sb.inode_size > MAX_INODE_SIZE {
            (img, Err(EINVAL))
        } else {
            let (img1, raw) = blocks_freed(img, sb, raw_inode(img, sb, ino));
            inode_stored(img1, sb, ino, raw)
        },
    }
}

/// Whether making the file at a path `len` bytes long comes to emptying it.
pub open spec fn is_emptied(img: Image, sb: Superblock, path: Seq<u8>, len: u64) -> bool {
    let target = resolved(img, sb, path);
    &&& target is Ok
    &&& mode_is_file((target->Ok_0).1.mode)
    &&& len == 0
    &&& (target->Ok_0).1.size != 0
    &&& sb.inode_size <= MAX_INODE_SIZE
}

/// Whether a record is listed: it has a name, and that is not one of the two
/// that every directory has.
pub open spec fn is_listed(record: DirRecord) -> bool {
    record.name is Some && record.name->Some_0 != dot() && record.name->Some_0 != dot_dot()
}

/// The names of records, each followed by a zero byte, up to the first that
/// does not fit in what is left of `room` bytes, and whether there is one.
pub open spec fn listed(records: Seq<DirRecord>, room: int) -> (Seq<u8>, bool)
    decreases records.len(),
{
    if records.len() == 0 {
        (Seq::empty(), false)
    } else if !is_listed(records[0]) {
        listed(records.drop_first(), room)
    } else {
        let line = records[0].name->Some_0.push(0);
        if line.len() > room {
            (Seq::empty(), true)
        } else {
            let rest = listed(records.drop_first(), room - line.len());
            (line + rest.0, rest.1)
        }
    }
}

/// The names in a directory as far as they fit in `room` bytes, and the result
/// of listing them.
pub open spec fn directory_listed(img: Image, sb: Superblock, inode: InodeView, room: int) -> (
    Seq<u8>,
    Result<(), i32>,
) {
    let dir = directory_from(img, sb, inode, 0);
    let (names, full) = listed(dir.records, room);
    (
        names,
        if !full && dir.error is Some {
            Err(dir.error->Some_0)
        } else {
            Ok(())
        },
    )
}

/// The names in the directory at a path as far as they fit in `room` bytes, and
/// the result of listing them.
pub open spec fn path_listed(img: Image, sb: Superblock, path: Seq<u8>, room: int) -> (
    Seq<u8>,
    Result<(), i32>,
) {
    match resolved(img, sb, path) {
        Err(e) => (Seq::empty(), Err(e)),
        Ok((_, inode)) => if !mode_is_dir(inode.mode) {
            (Seq::empty(), Err(ENOTDIR))
        } else {
            directory_listed(img, sb, inode, room)
        },
    }
}

/// A list of names fits in its room.
pub proof fn lemma_listed_len(records: Seq<DirRecord>, room: int)
    requires
        0 <= room,
    ensures
        listed(records, room).0.len() <= room,
    decreases records.len(),
{
    if records.len() > 0 {
        if !is_listed(records[0]) {
            lemma_listed_len(records.drop_first(), room);
        } else {
            let line = records[0].name->Some_0.push(0);
            if line.len() <= room {
                lemma_listed_len(records.drop_first(), room - line.len());
            }
        }
    }
}

/// Records are listed one part after the other.
pub proof fn lemma_listed_concat(a: Seq<DirRecord>, b: Seq<DirRecord>, room: int)
    ensures
        ({
            let x = listed(a, room);
            let y = listed(b, room - x.0.len());
            listed(a + b, room) == if x.1 {
                x
            } else {
                (x.0 + y.0, y.1)
            }
        }),
    decreases a.len(),
{
    if a.len() == 0 {
        assert(a + b =~= b);
        assert(listed(a, room).0 + listed(b, room).0 =~= listed(b, room).0);
    } else {
        assert((a + b).drop_first() =~= a.drop_first() + b);
        if !is_listed(a[0]) {
            lemma_listed_concat(a.drop_first(), b, room);
        } else {
            let line = a[0].name->Some_0.push(0);
            if line.len() <= room {
                lemma_listed_concat(a.drop_first(), b, room - line.len());
                let x = listed(a.drop_first(), room - line.len());
                let y = listed(b, room - line.len() - x.0.len());
                assert(line + (x.0 + y.0) =~= (line + x.0) + y.0);
            }
        }
    }
}

/// Whether a name is one of the two that every directory has.
fn is_dot_name(name: &[u8]) -> (b: bool)
    ensures
        b == (name@ == dot() || name@ == dot_dot()),
{
    let b: bool = (name.len() == 1 && name[0] == DOT) || (name.len() == 2 && name[0] == DOT
        && name[1] == DOT);
    assert(name@.len() == 1 && name@[0] == DOT ==> name@ =~= dot());
    assert(name@.len() == 2 && name@[0] == DOT && name@[1] == DOT ==> name@ =~= dot_dot());
    b
}

/// Lists the names in a block behind the `written` bytes that `dst` holds
/// already. Gives the number of bytes that it then holds, and whether it is
/// full.
fn list_block(
    buf: &[u8],
    size: usize,
    Ghost(block): Ghost<u32>,
    dst: &mut [u8],
    written: usize,
) -> (r: (usize, bool))
    requires
        size <= buf@.len(),
        size <= MAX_BLOCK_SIZE,
        written <= old(dst)@.len(),
    ensures
        final(dst)@.len() == old(dst)@.len(),
        ({
            let names = listed(
                records_in(buf@.take(size as int), block, 0),
                old(dst)@.len() - written,
            );
            &&& r.0 == written + names.0.len()
            &&& r.0 <= old(dst)@.len()
            &&& r.1 == names.1
            &&& final(dst)@ == overlay(old(dst)@, written as int, names.0)
        }),
{
    let ghost b = buf@.take(size as int);
    let len: usize = dst.len();
    let ghost all = listed(records_in(b, block, 0), len - written);
    proof {
        lemma_listed_len(records_in(b, block, 0), len - written);
    }
    let mut used: usize = written;
    let mut off: usize = 0;
    assert(dst@.subrange(written as int, written as int) + all.0 =~= all.0);
    while off + 8 <= size
        invariant
            off <= size,
            size <= buf@.len(),
            size <= MAX_BLOCK_SIZE,
            written <= used <= len,
            len == dst@.len() == old(dst)@.len(),
            b == buf@.take(size as int),
            all == listed(records_in(b, block, 0), len - written),
            all.0.len() <= len - written,
            ({
                let more = listed(records_in(b, block, off as int), len - used);
                &&& all.0 == dst@.subrange(written as int, used as int) + more.0
                &&& all.1 == more.1
            }),
            forall|i: int| 0 <= i < written || used <= i < len ==> dst@[i] == old(dst)@[i],
        decreases size - off,
    {
        let ghost before = dst@;
        let inode: u32 = get_u32(buf, off);
        let rec_len: usize = get_u16(buf, off + 4) as usize;
        let name_len: usize = buf[off + 6] as usize;
        if rec_len == 0 || off + rec_len > size {
            assert(records_in(b, block, off as int) =~= Seq::empty());
            assert(all.0 =~= dst@.subrange(written as int, used as int));
            assert(dst@ =~= overlay(old(dst)@, written as int, all.0));
            return (used, false);
        }
        let ghost record = record_at(b, block, off as int);
        proof {
            let records = records_in(b, block, off as int);
            assert(records.drop_first() =~= records_in(b, block, off + rec_len));
            assert(records[0] == record);
        }
        if inode != 0 && off + 8 + name_len <= size {
            let name = vstd::slice::slice_subrange(buf, off + 8, off + 8 + name_len);
            assert(name@ =~= b.subrange(off + 8, off + 8 + name_len));
            if !is_dot_name(name) {
                if name_len + 1 > len - used {
                    assert(all.0 =~= dst@.subrange(written as int, used as int));
                    assert(dst@ =~= overlay(old(dst)@, written as int, all.0));
                    return (used, true);
                }
                copy_range(dst, used, name, 0, name_len);
                dst[used + name_len] = 0;
                proof {
                    let line = name@.push(0);
                    let more = listed(
                        records_in(b, block, off + rec_len),
                        len - used - name_len - 1,
                    );
                    assert(dst@.subrange(written as int, used + name_len + 1) + more.0
                        =~= before.subrange(written as int, used as int) + (line + more.0));
                }
                used = used + name_len + 1;
            }
        }
        off += rec_len;
    }
    assert(records_in(b, block, off as int) =~= Seq::empty());
    assert(all.0 =~= dst@.subrange(written as int, used as int));
    assert(dst@ =~= overlay(old(dst)@, written as int, all.0));
    (used, false)
}

/// The status of an operation that gives a result.
pub open spec fn status_of<T>(r: Result<T, i32>) -> Result<(), i32> {
    match r {
        Ok(_) => Ok(()),
        Err(e) => Err(e),
    }
}

} // verus!
