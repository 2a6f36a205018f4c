//! Writing to files.

use vstd::prelude::*;
use crate::abi::{path_bytes, McxBuffer, McxPath, EINVAL, EISDIR};
use crate::codec::{copy_range, get_u32, overlay, put_u32, seq_u32, set_u32, zeros};
use crate::dir::resolved;
use crate::disk::{Image, McxDiskOps, Medium};
use crate::entry::raw_inode;
use crate::layout::{
    block_bytes, block_of, block_stored, inode_in, inode_stored, is_file, load_inode_from_raw,
    mode_is_file, Superblock, MAX_BLOCK_SIZE, MAX_INODE_SIZE,
};
use crate::mapping::{block_ensured, ensured_trail, is_ensurable, is_ensured};
use crate::ops::status_of;
use crate::state::State;
use crate::trail::{
    is_confined, lemma_confined_concat, lemma_confined_none, lemma_confined_push,
    lemma_confined_start, Place,
};

verus! {

/// How many of `data`'s bytes behind the first `done` go into the block that the
/// next of them goes into, if the first goes to `offset` of the file.
pub open spec fn chunk_len(sb: Superblock, offset: u64, len: int, done: int) -> int {
    let room = sb.block_size - (offset + done) % (sb.block_size as int);
    if room < len - done {
        room
    } else {
        len - done
    }
}

/// The contents of a block that is to be filled in part: what it holds, or
/// zeros where the file does not have it.
pub open spec fn block_base(img: Image, sb: Superblock, block: u32, existing: u32) -> Seq<u8> {
    let zero = zeros(MAX_BLOCK_SIZE as nat);
    if existing == 0 {
        zero
    } else {
        overlay(zero, 0, block_bytes(img, sb, block))
    }
}

/// Stores one chunk of `data`: what becomes of the disk and of the inode `raw`.
pub open spec fn chunk_written(
    img: Image,
    sb: Superblock,
    raw: Seq<u8>,
    data: Seq<u8>,
    offset: u64,
    done: int,
) -> (Image, Seq<u8>, Result<(), i32>) {
    let bs = sb.block_size as int;
    let index = (offset + done) / bs;
    let n = chunk_len(sb, offset, data.len() as int, done);
    match block_ensured(img, sb, raw, index) {
        (img1, raw1, Err(e)) => (img1, raw1, Err(e)),
        (img1, raw1, Ok(block)) => match block_of(img1, sb, inode_in(raw1), index) {
            Err(e) => (img1, raw1, Err(e)),
            Ok(existing) => (
                block_stored(
                    img1,
                    sb,
                    block,
                    overlay(
                        block_base(img1, sb, block, existing),
                        (offset + done) % bs,
                        data.subrange(done, done + n),
                    ),
                ),
                raw1,
                Ok(()),
            ),
        },
    }
}

/// Stores the bytes of `data` behind the first `done`: what becomes of the disk
/// and of the inode `raw`.
pub open spec fn data_written(
    img: Image,
    sb: Superblock,
    raw: Seq<u8>,
    data: Seq<u8>,
    offset: u64,
    done: int,
) -> (Image, Seq<u8>, Result<(), i32>)
    decreases data.len() - done,
{
    let n = chunk_len(sb, offset, data.len() as int, done);
    if done >= data.len() || n <= 0 {
        (img, raw, Ok(()))
    } else {
        match chunk_written(img, sb, raw, data, offset, done) {
            (img1, raw1, Err(e)) => (img1, raw1, Err(e)),
            (img1, raw1, Ok(_)) => data_written(img1, sb, raw1, data, offset, done + n),
        }
    }
}

/// Whether the searches for blocks stay in their bitmap where the bytes of `data`
/// behind the first `done` are stored.
pub open spec fn is_storable(
    img: Image,
    sb: Superblock,
    raw: Seq<u8>,
    data: Seq<u8>,
    offset: u64,
    done: int,
) -> bool
    decreases data.len() - done,
{
    let n = chunk_len(sb, offset, data.len() as int, done);
    if done >= data.len() || n <= 0 {
        true
    } else {
        &&& is_ensurable(img, sb, raw, (offset + done) / (sb.block_size as int))
        &&& match chunk_written(img, sb, raw, data, offset, done) {
            (_, _, Err(_)) => true,
            (img1, raw1, Ok(_)) => is_storable(img1, sb, raw1, data, offset, done + n),
        }
    }
}

/// The size of a file of `size` bytes after `len` bytes from `offset` on were
/// written.
pub open spec fn grown_size(size: u32, offset: u64, len: nat) -> int {
    if size >= offset + len {
        size as int
    } else {
        offset + len
    }
}

/// Writes `data` to the file of the inode `raw` of a number, from `offset` on.
pub open spec fn file_written(
    img: Image,
    sb: Superblock,
    ino: u32,
    raw: Seq<u8>,
    offset: u64,
    data: Seq<u8>,
) -> (Image, Result<usize, i32>) {
    match data_written(img, sb, raw, data, offset, 0) {
        (img1, _, Err(e)) => (img1, Err(e)),
        (img1, raw1, Ok(_)) => {
            let size = grown_size(seq_u32(raw1, 4), offset, data.len());
            if size > u32::MAX {
                (img1, Err(EINVAL))
            } else {
                match inode_stored(img1, sb, ino, put_u32(raw1, 4, size as u32)) {
                    (img2, Err(e)) => (img2, Err(e)),
                    (img2, Ok(_)) => (img2, Ok(data.len() as usize)),
                }
            }
        },
    }
}

/// Writes `data` to the file at a path, from `offset` on.
pub open spec fn path_written(
    img: Image,
    sb: Superblock,
    path: Seq<u8>,
    offset: u64,
    data: Seq<u8>,
) -> (Image, Result<usize, i32>) {
    match resolved(img, sb, path) {
        Err(e) => (img, Err(e)),
        Ok((ino, inode)) => if !mode_is_file(inode.mode) {
            (img, Err(EISDIR))
        } else if sb.inode_size > MAX_INODE_SIZE {
            (img, Err(EINVAL))
        } else {
            file_written(img, sb, ino, raw_inode(img, sb, ino), offset, data)
        },
    }
}

/// Whether writing to a path comes to storing anything.
pub open spec fn is_writable(img: Image, sb: Superblock, path: Seq<u8>) -> bool {
    let target = resolved(img, sb, path);
    target is Ok && mode_is_file((target->Ok_0).1.mode) && sb.inode_size <= MAX_INODE_SIZE
}

/// The inode `raw` after `data` was written to its file: it has the blocks that
/// were given out and, where all of it worked, the new size.
pub open spec fn inode_written(
    img: Image,
    sb: Superblock,
    raw: Seq<u8>,
    offset: u64,
    data: Seq<u8>,
) -> Seq<u8> {
    let (_, raw1, r) = data_written(img, sb, raw, data, offset, 0);
    let size = grown_size(seq_u32(raw1, 4), offset, data.len());
    if r is Err || size > u32::MAX {
        raw1
    } else {
        put_u32(raw1, 4, size as u32)
    }
}

/// Whether an inode is what is left of `raw` where the driver failed a request
/// while the bytes of `data` behind the first `done` were stored: it has the blocks
/// of the chunks that were stored, and maybe that of the next.
#[verifier::opaque]
pub open spec fn is_left_off(
    img: Image,
    sb: Superblock,
    raw: Seq<u8>,
    data: Seq<u8>,
    offset: u64,
    done: int,
    now: Seq<u8>,
) -> bool
    decreases data.len() - done,
{
    let n = chunk_len(sb, offset, data.len() as int, done);
    let (img1, raw1, r) = chunk_written(img, sb, raw, data, offset, done);
    0 <= done < data.len() && 0 < n && {
        ||| is_ensured(sb, raw, now, raw1)
        ||| r is Ok && is_left_off(img1, sb, raw1, data, offset, done + n, now)
    }
}

/// What is left of an inode where the chunk behind the first `done` bytes, or a
/// later one, could not be stored.
proof fn lemma_left_off(
    img: Image,
    sb: Superblock,
    raw: Seq<u8>,
    data: Seq<u8>,
    offset: u64,
    done: int,
    now: Seq<u8>,
)
    requires
        sb.block_size != 0,
        0 <= done < data.len(),
        ({
            let n = chunk_len(sb, offset, data.len() as int, done);
            let (img1, raw1, r) = chunk_written(img, sb, raw, data, offset, done);
            ||| is_ensured(sb, raw, now, raw1)
            ||| r is Ok && is_left_off(img1, sb, raw1, data, offset, done + n, now)
        }),
    ensures
        is_left_off(img, sb, raw, data, offset, done, now),
{
    reveal(is_left_off);
    lemma_chunk_positive(sb, offset, data.len() as int, done);
}

/// What writing to a path stores to.
pub open spec fn write_trail(
    img: Image,
    sb: Superblock,
    path: Seq<u8>,
    offset: u64,
    data: Seq<u8>,
) -> Seq<Place> {
    if is_writable(img, sb, path) {
        let (ino, _) = resolved(img, sb, path)->Ok_0;
        file_trail(img, sb, ino, raw_inode(img, sb, ino), offset, data)
    } else {
        Seq::empty()
    }
}

/// What storing one chunk of `data` stores to: what giving the file the block
/// stores to, and the block.
pub open spec fn chunk_trail(
    img: Image,
    sb: Superblock,
    raw: Seq<u8>,
    offset: u64,
    done: int,
) -> Seq<Place> {
    let index = (offset + done) / (sb.block_size as int);
    ensured_trail(img, sb, raw, index) + match block_ensured(img, sb, raw, index).2 {
        Err(_) => Seq::empty(),
        Ok(block) => seq![Place::Block(block)],
    }
}

/// What storing the bytes of `data` behind the first `done` stores to.
pub open spec fn data_trail(
    img: Image,
    sb: Superblock,
    raw: Seq<u8>,
    data: Seq<u8>,
    offset: u64,
    done: int,
) -> Seq<Place>
    decreases data.len() - done,
{
    let n = chunk_len(sb, offset, data.len() as int, done);
    if done >= data.len() || n <= 0 {
        Seq::empty()
    } else {
        chunk_trail(img, sb, raw, offset, done) + match chunk_written(
            img,
            sb,
            raw,
            data,
            offset,
            done,
        ) {
            (_, _, Err(_)) => Seq::empty(),
            (img1, raw1, Ok(_)) => data_trail(img1, sb, raw1, data, offset, done + n),
        }
    }
}

/// What writing `data` to the file of the inode `raw` of a number stores to: what
/// storing the bytes stores to, and the inode.
pub open spec fn file_trail(
    img: Image,
    sb: Superblock,
    ino: u32,
    raw: Seq<u8>,
    offset: u64,
    data: Seq<u8>,
) -> Seq<Place> {
    data_trail(img, sb, raw, data, offset, 0) + seq![Place::Inode(ino)]
}

/// Only the blocks that an inode can name hold data.
proof fn lemma_ensured_index(img: Image, sb: Superblock, raw: Seq<u8>, index: int)
    ensures
        block_ensured(img, sb, raw, index).2 is Ok ==> index < 12 + sb.block_size / 4,
{
}

impl<D: McxDiskOps> State<D> {
    /// Stores one chunk of `data` in the file of an inode.
    fn write_chunk(
        &mut self,
        inode_raw: &mut [u8],
        data: &[u8],
        offset: u64,
        done: usize,
    ) -> (r: Result<usize, i32>)
        requires
            old(self).ready(),
            is_ensurable(
                old(self).image(),
                old(self).sb,
                old(inode_raw)@,
                (offset + done) / (old(self).sb.block_size as int),
            ),
            old(inode_raw)@.len() >= 100,
            done < data@.len(),
            offset + done <= u64::MAX,
        ensures
            final(inode_raw)@.len() == old(inode_raw)@.len(),
            ({
                let want = chunk_written(
                    old(self).image(),
                    old(self).sb,
                    old(inode_raw)@,
                    data@,
                    offset,
                    done as int,
                );
                &&& final(self).writes(*old(self), status_of(r), (want.0, want.2))
                &&& final(self).quiet(*old(self)) ==> final(inode_raw)@ == want.1
                &&& is_ensured(old(self).sb, old(inode_raw)@, final(inode_raw)@, want.1)
                &&& r is Ok ==> {
                    &&& r->Ok_0 == chunk_len(
                        old(self).sb,
                        offset,
                        data@.len() as int,
                        done as int,
                    )
                    &&& 0 < r->Ok_0 <= data@.len() - done
                    &&& offset + done + r->Ok_0 <= 0x100_0000
                }
            }),
            is_confined(
                old(self).medium(),
                final(self).medium(),
                old(self).sb,
                chunk_trail(
                    old(self).image(),
                    old(self).sb,
                    old(inode_raw)@,
                    offset,
                    done as int,
                ),
            ),
    {
        let sb = self.sb;
        let ghost img = self.image();
        let ghost disk = self.medium();
        let ghost raw = inode_raw@;
        let size: usize = sb.block_size as usize;
        let len: usize = data.len();
        let file_off: u64 = offset + done as u64;
        let block_index: u64 = file_off / sb.block_size as u64;
        let block_off: usize = (file_off % sb.block_size as u64) as usize;
        let chunk: usize = if size - block_off < len - done {
            size - block_off
        } else {
            len - done
        };
        proof {
            lemma_ensured_index(self.image(), sb, inode_raw@, block_index as int);
        }
        let ghost first = ensured_trail(img, sb, raw, block_index as int);
        let ensured = self.ensure_data_block(inode_raw, block_index);
        let ghost given = self.medium();
        proof {
            let more = match block_ensured(img, sb, raw, block_index as int).2 {
                Err(_) => Seq::empty(),
                Ok(block) => seq![Place::Block(block)],
            };
            lemma_confined_start(disk, given, sb, first, more);
        }
        let block: u32 = ensured?;
        let mut block_buf: [u8; 4096] = [0u8;4096];
        assert(block_buf@ =~= zeros(4096));
        let inode_now = load_inode_from_raw(inode_raw);
        let existing_block: u32 = self.data_block_number(inode_now, block_index)?;
        if existing_block != 0 {
            let rc: i32 = self.read_block(block, &mut block_buf);
            if rc != 0 {
                return Err(rc);
            }
        }
        copy_range(&mut block_buf, block_off, data, done, chunk);
        let rc: i32 = self.write_block(block, &block_buf);
        proof {
            lemma_confined_push(disk, given, self.medium(), sb, first, Place::Block(block));
        }
        if rc != 0 {
            return Err(rc);
        }
        proof {
            lemma_chunk_end(sb, file_off as int, chunk as int);
        }
        Ok(chunk)
    }

    /// Writes `buf` to a file from `offset` on, and gives the number of bytes
    /// written.
    pub fn write_impl(
        &mut self,
        path: McxPath,
        offset: u64,
        buf: &McxBuffer,
        out_written: &mut Option<usize>,
    ) -> (rc: i32)
        requires
            buf.ptr is Some && *old(out_written) is Some && path.is_absolute() ==> {
                let img = old(self).image();
                let sb = old(self).sb;
                let (ino, _) = resolved(img, sb, path@)->Ok_0;
                &&& old(self).walkable(path@)
                &&& is_writable(img, sb, path@) && buf@.len() > 0 ==> {
                    &&& old(self).ready()
                    &&& is_storable(img, sb, raw_inode(img, sb, ino), buf@, offset, 0)
                }
            },
        ensures
            rc != 0 ==> *final(out_written) == *old(out_written),
            buf.ptr is None || *old(out_written) is None || !path.is_absolute() ==> rc == EINVAL
                && *final(self) == *old(self),
            buf.ptr is Some && *old(out_written) is Some && path.is_absolute() ==> {
                let img = old(self).image();
                let want = path_written(img, old(self).sb, path@, offset, buf@);
                &&& final(self).commits(
                    *old(self),
                    rc,
                    (want.0, status_of(want.1)),
                    is_writable(img, old(self).sb, path@),
                )
                &&& rc == 0 ==> *final(out_written) == Some(want.1->Ok_0)
                &&& is_confined(
                    old(self).medium(),
                    final(self).medium(),
                    old(self).sb,
                    write_trail(img, old(self).sb, path@, offset, buf@),
                )
            },
    {
        let src: &[u8] = match &buf.ptr {
            None => return EINVAL,
            Some(bytes) => bytes.as_slice(),
        };
        if out_written.is_none() {
            return EINVAL;
        }
        let path = match path_bytes(path) {
            Some(p) => p,
            None => return EINVAL,
        };
        proof {
            let trail = write_trail(self.image(), self.sb, path@, offset, buf@);
            lemma_confined_none(self.medium(), self.sb, trail);
        }
        let (ino, inode) = match self.resolve_path(path) {
            Ok(v) => v,
            Err(rc) => return rc,
        };
        if !is_file(inode.mode) {
            return EISDIR;
        }
        let mut inode_raw: [u8; 512] = [0u8;512];
        assert(inode_raw@ =~= zeros(512));
        match self.read_inode_raw(ino, &mut inode_raw) {
            Ok(_) => {},
            Err(rc) => return rc,
        }
        match self.write_file_bytes(ino, &mut inode_raw, offset, src) {
            Ok(written) => {
                let rc: i32 = self.disk_flush();
                if rc != 0 {
                    return rc;
                }
                *out_written = Some(written);
                0
            },
            Err(rc) => rc,
        }
    }

    /// Writes `src` to the file of the inode of a number, from `offset` on, and
    /// stores the inode.
    #[verifier::spinoff_prover]
    #[verifier::rlimit(40)]
    pub fn write_file_bytes(
        &mut self,
        ino: u32,
        inode_raw: &mut [u8],
        offset: u64,
        src: &[u8],
    ) -> (r: Result<usize, i32>)
        requires
            old(self).sb.wf(),
            ino >= 1 ==> old(self).attached() && old(self).sb.inodes_per_group != 0,
            src@.len() > 0 ==> old(self).ready(),
            is_storable(old(self).image(), old(self).sb, old(inode_raw)@, src@, offset, 0),
            old(inode_raw)@.len() >= 100,
        ensures
            final(inode_raw)@.len() == old(inode_raw)@.len(),
            final(self).quiet(*old(self)) ==> final(inode_raw)@ == inode_written(
                old(self).image(),
                old(self).sb,
                old(inode_raw)@,
                offset,
                src@,
            ),
            !final(self).quiet(*old(self)) ==> {
                ||| final(inode_raw)@ == inode_written(
                    old(self).image(),
                    old(self).sb,
                    old(inode_raw)@,
                    offset,
                    src@,
                )
                ||| is_left_off(
                    old(self).image(),
                    old(self).sb,
                    old(inode_raw)@,
                    src@,
                    offset,
                    0,
                    final(inode_raw)@,
                )
            },
            final(self).writes(
                *old(self),
                r,
                file_written(
                    old(self).image(),
                    old(self).sb,
                    ino,
                    old(inode_raw)@,
                    offset,
                    src@,
                ),
            ),
            is_confined(
                old(self).medium(),
                final(self).medium(),
                old(self).sb,
                file_trail(
                    old(self).image(),
                    old(self).sb,
                    ino,
                    old(inode_raw)@,
                    offset,
                    src@,
                ),
            ),
    {
        let sb = self.sb;
        let ghost img0 = self.image();
        let ghost disk = self.medium();
        let ghost raw0 = inode_raw@;
        let ghost all = data_trail(img0, sb, raw0, src@, offset, 0);
        let ghost last = Place::Inode(ino);
        proof {
            lemma_underway(disk, sb, raw0, src@, offset);
        }
        let len: usize = src.len();
        let mut written: usize = 0;
        while written < len
            invariant
                written <= len,
                len == src@.len(),
                written > 0 ==> offset + written <= 0x100_0000,
                inode_raw@.len() == old(inode_raw)@.len() >= 100,
                sb == old(self).sb,
                sb.wf(),
                len > 0 ==> self.attached() && sb.readable(),
                is_storable(self.image(), sb, inode_raw@, src@, offset, written as int),
                self.goes_on(*old(self)),
                self.quiet(*old(self)),
                img0 == old(self).image(),
                raw0 == old(inode_raw)@,
                data_written(img0, sb, raw0, src@, offset, 0) == data_written(
                    self.image(),
                    sb,
                    inode_raw@,
                    src@,
                    offset,
                    written as int,
                ),
                forall|now: Seq<u8>| #[trigger]
                    is_left_off(
                        self.image(),
                        sb,
                        inode_raw@,
                        src@,
                        offset,
                        written as int,
                        now,
                    ) ==> is_left_off(img0, sb, raw0, src@, offset, 0, now),
                last == Place::Inode(ino),
                disk == old(self).medium(),
                all == data_trail(img0, sb, raw0, src@, offset, 0),
                is_underway(
                    disk,
                    self.medium(),
                    sb,
                    inode_raw@,
                    src@,
                    offset,
                    written as int,
                    all,
                ),
            decreases len - written,
        {
            let ghost before = self.medium();
            let ghost raw = inode_raw@;
            proof {
                lemma_chunk_positive(sb, offset, len as int, written as int);
            }
            let stored = self.write_chunk(inode_raw, src, offset, written);
            proof {
                lemma_chunk_trailed(
                    disk,
                    before,
                    self.medium(),
                    sb,
                    raw,
                    inode_raw@,
                    src@,
                    offset,
                    written as int,
                    all,
                    last,
                );
            }
            proof {
                let at = written as int;
                if stored is Ok {
                    let n = chunk_len(sb, offset, len as int, at);
                    assert forall|now: Seq<u8>| #[trigger]
                        is_left_off(
                            self.image(),
                            sb,
                            inode_raw@,
                            src@,
                            offset,
                            at + n,
                            now,
                        ) implies is_left_off(img0, sb, raw0, src@, offset, 0, now) by {
                        lemma_left_off(before.image, sb, raw, src@, offset, at, now);
                    }
                } else {
                    lemma_left_off(before.image, sb, raw, src@, offset, at, inode_raw@);
                }
            }
            match stored {
                Ok(n) => {
                    written += n;
                },
                Err(e) => return Err(e),
            }
        }
        let ghost stored = self.medium();
        proof {
            lemma_arrived(disk, stored, sb, inode_raw@, src@, offset, written as int, all);
            lemma_confined_start(disk, stored, sb, all, seq![last]);
        }
        let size: u32 = get_u32(inode_raw, 4);
        let end: u64 = offset + written as u64;
        let new_size: u64 = if size as u64 >= end {
            size as u64
        } else {
            end
        };
        if new_size > u32::MAX as u64 {
            return Err(EINVAL);
        }
        set_u32(inode_raw, 4, new_size as u32);
        let rc: i32 = self.write_inode_raw(ino, inode_raw);
        proof {
            lemma_confined_push(disk, stored, self.medium(), sb, all, last);
        }
        if rc != 0 {
            return Err(rc);
        }
        Ok(written)
    }
}

/// Whether a disk came from another by storing the first `done` bytes of `data`,
/// where all of them store to `all`.
#[verifier::opaque]
pub open spec fn is_underway(
    x: Medium,
    m: Medium,
    sb: Superblock,
    raw: Seq<u8>,
    data: Seq<u8>,
    offset: u64,
    done: int,
    all: Seq<Place>,
) -> bool {
    exists|trail: Seq<Place>| #[trigger]
        is_confined(x, m, sb, trail) && trail + data_trail(
            m.image,
            sb,
            raw,
            data,
            offset,
            done,
        ) == all
}

/// Nothing is stored at first.
proof fn lemma_underway(x: Medium, sb: Superblock, raw: Seq<u8>, data: Seq<u8>, offset: u64)
    ensures
        is_underway(
            x,
            x,
            sb,
            raw,
            data,
            offset,
            0,
            data_trail(x.image, sb, raw, data, offset, 0),
        ),
{
    reveal(is_underway);
    let trail = Seq::<Place>::empty();
    let all = data_trail(x.image, sb, raw, data, offset, 0);
    lemma_confined_none(x, sb, trail);
    assert(trail + all =~= all);
}

/// All bytes are stored in the end.
proof fn lemma_arrived(
    x: Medium,
    m: Medium,
    sb: Superblock,
    raw: Seq<u8>,
    data: Seq<u8>,
    offset: u64,
    done: int,
    all: Seq<Place>,
)
    requires
        done >= data.len(),
        is_underway(x, m, sb, raw, data, offset, done, all),
    ensures
        is_confined(x, m, sb, all),
{
    reveal(is_underway);
    let trail = choose|trail: Seq<Place>| #[trigger]
        is_confined(x, m, sb, trail) && trail + data_trail(
            m.image,
            sb,
            raw,
            data,
            offset,
            done,
        ) == all;
    assert(trail =~= all);
}

/// Storing one more chunk goes on along the trail.
proof fn lemma_chunk_trailed(
    x: Medium,
    m: Medium,
    y: Medium,
    sb: Superblock,
    raw: Seq<u8>,
    now: Seq<u8>,
    data: Seq<u8>,
    offset: u64,
    done: int,
    all: Seq<Place>,
    last: Place,
)
    requires
        sb.block_size != 0,
        0 <= done < data.len(),
        is_underway(x, m, sb, raw, data, offset, done, all),
        is_confined(m, y, sb, chunk_trail(m.image, sb, raw, offset, done)),
    ensures
        is_confined(x, y, sb, all + seq![last]),
        chunk_written(m.image, sb, raw, data, offset, done) == (y.image, now, Ok::<(), i32>(()))
            ==> is_underway(
            x,
            y,
            sb,
            now,
            data,
            offset,
            done + chunk_len(sb, offset, data.len() as int, done),
            all,
        ),
{
    reveal(is_underway);
    lemma_chunk_positive(sb, offset, data.len() as int, done);
    let trail = choose|trail: Seq<Place>| #[trigger]
        is_confined(x, m, sb, trail) && trail + data_trail(
            m.image,
            sb,
            raw,
            data,
            offset,
            done,
        ) == all;
    let n = chunk_len(sb, offset, data.len() as int, done);
    let step = chunk_trail(m.image, sb, raw, offset, done);
    let more = match chunk_written(m.image, sb, raw, data, offset, done) {
        (_, _, Err(_)) => Seq::empty(),
        (img1, raw1, Ok(_)) => data_trail(img1, sb, raw1, data, offset, done + n),
    };
    lemma_confined_concat(x, m, y, sb, trail, step);
    lemma_confined_start(x, y, sb, trail + step, more + seq![last]);
    assert(trail + (step + more) =~= trail + step + more);
    assert(trail + step + (more + seq![last]) =~= trail + (step + more) + seq![last]);
}

/// A chunk ends with its block at the latest.
proof fn lemma_chunk_end(sb: Superblock, pos: int, n: int)
    requires
        sb.wf(),
        sb.block_size != 0,
        0 <= pos,
        pos / (sb.block_size as int) < 12 + sb.block_size / 4,
        n <= sb.block_size - pos % (sb.block_size as int),
    ensures
        pos + n <= 0x100_0000,
{
    let bs = sb.block_size as int;
    vstd::arithmetic::div_mod::lemma_fundamental_div_mod(pos, bs);
    let q = pos / bs;
    assert(bs * q + bs <= 4096 * (12 + 1024)) by (nonlinear_arith)
        requires
            0 < bs <= 4096,
            q + 1 <= 12 + 1024,
    ;
}

/// A chunk is not empty.
proof fn lemma_chunk_positive(sb: Superblock, offset: u64, len: int, done: int)
    requires
        sb.block_size != 0,
        0 <= done < len,
    ensures
        0 < chunk_len(sb, offset, len, done) <= len - done,
{
    vstd::arithmetic::div_mod::lemma_mod_bound(offset + done, sb.block_size as int);
}

} // verus!
