//! New directory entries and new directories.

use vstd::prelude::*;
use crate::abi::{EINVAL, ENOSYS};
use crate::bitmap::{block_allocated, blocks_bounded};
use crate::codec::{
    copy_range, get_u16, le16_bytes, le32_bytes, overlay, put_u16, put_u32, set_u16, set_u32, zeros,
};
use crate::dir::{directory_from, dot, dot_dot, record_at, records_in, span, DirRecord};
use crate::disk::{bytes_at, is_touched, joined, Image, McxDiskOps};
use crate::layout::{
    block_bytes, block_span, block_stored, inode_addr, inode_stored, set_inode_block_ptr, Inode,
    InodeView, Superblock, MAX_BLOCK_SIZE, MAX_INODE_SIZE,
};
use crate::mapping::{charge, charged, wrapped_sum};
use crate::path::DOT;
use crate::state::{status, State};
use crate::trail::{
    area, block_stretch, is_confined, is_in_block_of, lemma_confined_concat, lemma_confined_none,
    lemma_first_place, lemma_three_places, Place,
};

verus! {

pub const EXT2_FT_REG_FILE: u8 = 1;
pub const EXT2_FT_DIR: u8 = 2;

/// The least multiple of 4 that is not below `n`.
pub open spec fn round4(n: int) -> int {
    (n + 3) / 4 * 4
}

/// The bytes that a record with a name of `name_len` bytes needs.
pub open spec fn record_size(name_len: int) -> int {
    8 + round4(name_len)
}

/// The bytes of a directory entry: header and name.
pub open spec fn entry_bytes(inode: u32, rec_len: u16, name: Seq<u8>, file_type: u8) -> Seq<u8> {
    le32_bytes(inode) + le16_bytes(rec_len) + seq![(name.len() % 256) as u8, file_type] + name
}

/// The first record that has `needed` bytes to spare behind what it needs for
/// its own name.
pub open spec fn first_slot(records: Seq<DirRecord>, needed: int) -> Option<DirRecord>
    decreases records.len(),
{
    if records.len() == 0 {
        None
    } else if records[0].rec_len >= record_size(records[0].name_len as int) + needed {
        Some(records[0])
    } else {
        first_slot(records.drop_first(), needed)
    }
}

/// A directory block with the spare bytes of a record made into an entry of
/// their own.
pub open spec fn record_split(
    b: Seq<u8>,
    record: DirRecord,
    inode: u32,
    name: Seq<u8>,
    file_type: u8,
) -> Seq<u8> {
    let ideal = record_size(record.name_len as int);
    overlay(
        put_u16(b, record.offset + 4, ideal as u16),
        record.offset + ideal,
        entry_bytes(inode, (record.rec_len - ideal) as u16, name, file_type),
    )
}

/// The bytes of an inode, at the start of a buffer of zeros.
pub open spec fn raw_inode(img: Image, sb: Superblock, ino: u32) -> Seq<u8> {
    overlay(
        zeros(MAX_INODE_SIZE as nat),
        0,
        bytes_at(img, inode_addr(img, sb, ino), sb.inode_size as nat),
    )
}

/// The inode of a directory that gets `block` as its next block.
pub open spec fn directory_grown(
    sb: Superblock,
    raw: Seq<u8>,
    parent: InodeView,
    block: u32,
) -> Seq<u8> {
    charged(
        sb,
        put_u32(
            put_u32(raw, 40 + 4 * block_span(sb, parent.size), block),
            4,
            wrapped_sum(parent.size, sb.block_size),
        ),
    )
}

/// Enters a name into a directory: in the first record that has room for it, or
/// else in a new block.
pub open spec fn entry_added(
    img: Image,
    sb: Superblock,
    parent_ino: u32,
    parent: InodeView,
    name: Seq<u8>,
    child: u32,
    file_type: u8,
) -> (Image, Result<(), i32>) {
    let dir = directory_from(img, sb, parent, 0);
    match first_slot(dir.records, record_size(name.len() as int)) {
        Some(record) => (
            block_stored(
                img,
                sb,
                record.block,
                record_split(
                    block_bytes(img, sb, record.block),
                    record,
                    child,
                    name,
                    file_type,
                ),
            ),
            Ok(()),
        ),
        None => match dir.error {
            Some(e) => (img, Err(e)),
            None => entry_appended(img, sb, parent_ino, parent, name, child, file_type),
        },
    }
}

/// Enters a name into a new block of a directory.
pub open spec fn entry_appended(
    img: Image,
    sb: Superblock,
    parent_ino: u32,
    parent: InodeView,
    name: Seq<u8>,
    child: u32,
    file_type: u8,
) -> (Image, Result<(), i32>) {
    if block_span(sb, parent.size) >= 12 {
        (img, Err(ENOSYS))
    } else {
        match block_allocated(img, sb) {
            (img1, Err(e)) => (img1, Err(e)),
            (img1, Ok(block)) => {
                let img2 = block_stored(
                    img1,
                    sb,
                    block,
                    overlay(
                        zeros(MAX_BLOCK_SIZE as nat),
                        0,
                        entry_bytes(child, sb.block_size as u16, name, file_type),
                    ),
                );
                if parent_ino < 1 || sb.inode_size > MAX_INODE_SIZE {
                    (img2, Err(EINVAL))
                } else {
                    inode_stored(
                        img2,
                        sb,
                        parent_ino,
                        directory_grown(sb, raw_inode(img2, sb, parent_ino), parent, block),
                    )
                }
            },
        }
    }
}

/// Whether a name is entered into a new block of a directory, as no record has
/// room for it.
pub open spec fn needs_block(img: Image, sb: Superblock, parent: InodeView, name: Seq<u8>) -> bool {
    let dir = directory_from(img, sb, parent, 0);
    &&& first_slot(dir.records, record_size(name.len() as int)) is None
    &&& dir.error is None
    &&& block_span(sb, parent.size) < 12
}

/// Whether a name can be entered into a directory: the length of its record is a
/// number, and where it takes a new block, the search for one stays in its bitmap
/// and the record fits in the block that is given out.
pub open spec fn is_enterable(
    img: Image,
    sb: Superblock,
    parent: InodeView,
    name: Seq<u8>,
) -> bool {
    &&& record_size(name.len() as int) <= usize::MAX
    &&& needs_block(img, sb, parent, name) ==> {
        &&& blocks_bounded(img, sb)
        &&& block_allocated(img, sb).1 is Ok ==> name.len() <= MAX_BLOCK_SIZE - 8
    }
}

/// What entering a name into a directory stores to: the directory's blocks, or
/// else the block bitmap, a new block and the directory's inode.
pub open spec fn entry_trail(
    parent_ino: u32,
    parent: InodeView,
    given: Result<u32, i32>,
) -> Seq<Place> {
    seq![Place::Records(parent)] + appended_trail(parent_ino, given)
}

/// What entering a name into a new block of a directory stores to, if the block
/// is `given` out.
pub open spec fn appended_trail(parent_ino: u32, given: Result<u32, i32>) -> Seq<Place> {
    match given {
        Err(_) => seq![Place::Blocks(0)],
        Ok(block) => seq![Place::Blocks(0), Place::Block(block), Place::Inode(parent_ino)],
    }
}

/// The first block of a new directory: entries for itself and for its parent.
pub open spec fn directory_block(sb: Superblock, self_ino: u32, parent_ino: u32) -> Seq<u8> {
    overlay(
        overlay(
            zeros(MAX_BLOCK_SIZE as nat),
            0,
            entry_bytes(self_ino, 12, dot(), EXT2_FT_DIR),
        ),
        12,
        entry_bytes(parent_ino, (sb.block_size - 12) as u16, dot_dot(), EXT2_FT_DIR),
    )
}

/// A slot is looked for in one list of records and then in the other.
pub proof fn lemma_first_slot_concat(a: Seq<DirRecord>, b: Seq<DirRecord>, needed: int)
    ensures
        first_slot(a + b, needed) == match first_slot(a, needed) {
            Some(record) => Some(record),
            None => first_slot(b, needed),
        },
    decreases a.len(),
{
    if a.len() == 0 {
        assert(a + b =~= b);
    } else {
        lemma_first_slot_concat(a.drop_first(), b, needed);
        assert((a + b).drop_first() =~= a.drop_first() + b);
    }
}

/// The least multiple of 4 that is not below `value`.
pub fn round_up_4(value: usize) -> (r: usize)
    requires
        value <= usize::MAX - 3,
    ensures
        r == round4(value as int),
{
    (value + 3) / 4 * 4
}

/// Stores a directory entry at `at`.
fn put_entry(buf: &mut [u8], at: usize, inode: u32, rec_len: u16, name: &[u8], file_type: u8)
    requires
        at + 8 + name@.len() <= old(buf)@.len(),
    ensures
        final(buf)@ == overlay(
            old(buf)@,
            at as int,
            entry_bytes(inode, rec_len, name@, file_type),
        ),
{
    let _len: usize = buf.len();
    set_u32(buf, at, inode);
    set_u16(buf, at + 4, rec_len);
    buf[at + 6] = (name.len() % 256) as u8;
    buf[at + 7] = file_type;
    copy_range(buf, at + 8, name, 0, name.len());
    assert(buf@ =~= overlay(
        old(buf)@,
        at as int,
        entry_bytes(inode, rec_len, name@, file_type),
    ));
}

/// The place of the first record that has `needed` bytes to spare, what it needs
/// itself and its length, among the records of a block that holds the first
/// `size` bytes of `buf`.
fn find_slot(buf: &[u8], size: usize, Ghost(block): Ghost<u32>, needed: usize) -> (r: Option<
    (usize, usize, usize),
>)
    requires
        size <= buf@.len(),
        size <= MAX_BLOCK_SIZE,
    ensures
        match (r, first_slot(records_in(buf@.take(size as int), block, 0), needed as int)) {
            (Some((off, ideal, rec_len)), Some(record)) => {
                &&& record == record_at(buf@.take(size as int), block, off as int)
                &&& ideal == record_size(record.name_len as int)
                &&& rec_len == record.rec_len
                &&& ideal + needed <= rec_len
                &&& off + rec_len <= size
            },
            (None, None) => true,
            _ => false,
        },
{
    let ghost b = buf@.take(size as int);
    let mut off: usize = 0;
    while off + 8 <= size
        invariant
            off <= size,
            size <= buf@.len(),
            size <= MAX_BLOCK_SIZE,
            b == buf@.take(size as int),
            first_slot(records_in(b, block, 0), needed as int) == first_slot(
                records_in(b, block, off as int),
                needed as int,
            ),
        decreases size - off,
    {
        let rec_len: usize = get_u16(buf, off + 4) as usize;
        let name_len: usize = buf[off + 6] as usize;
        if rec_len == 0 || off + rec_len > size {
            assert(records_in(b, block, off as int) =~= Seq::empty());
            return None;
        }
        proof {
            let records = records_in(b, block, off as int);
            assert(records.drop_first() =~= records_in(b, block, off + rec_len));
            assert(records[0] == record_at(b, block, off as int));
        }
        let ideal: usize = 8 + round_up_4(name_len);
        if rec_len >= ideal && rec_len - ideal >= needed {
            return Some((off, ideal, rec_len));
        }
        off += rec_len;
    }
    None
}

/// Makes `block` the next block of a directory.
#[verifier::spinoff_prover]
fn grow_directory(sb: Superblock, raw: &mut [u8], parent: &Inode, block: u32)
    requires
        sb.block_size != 0,
        block_span(sb, parent.size) < 12,
        old(raw)@.len() >= 100,
    ensures
        final(raw)@ == directory_grown(sb, old(raw)@, parent@, block),
{
    let size: u32 = parent.size.wrapping_add(sb.block_size);
    assert(size == wrapped_sum(parent@.size, sb.block_size));
    set_inode_block_ptr(raw, span(sb, parent.size), block);
    set_u32(raw, 4, size);
    charge(sb, raw);
}

impl<D: McxDiskOps> State<D> {
    /// Enters a name into a directory.
    pub fn add_dir_entry(
        &mut self,
        parent_ino: u32,
        parent_inode: Inode,
        name: &[u8],
        child_ino: u32,
        file_type: u8,
    ) -> (r: Result<(), i32>)
        requires
            old(self).attached(),
            old(self).sb.readable(),
            is_enterable(old(self).image(), old(self).sb, parent_inode@, name@),
        ensures
            final(self).writes(
                *old(self),
                r,
                entry_added(
                    old(self).image(),
                    old(self).sb,
                    parent_ino,
                    parent_inode@,
                    name@,
                    child_ino,
                    file_type,
                ),
            ),
            is_confined(
                old(self).medium(),
                final(self).medium(),
                old(self).sb,
                entry_trail(
                    parent_ino,
                    parent_inode@,
                    block_allocated(old(self).image(), old(self).sb).1,
                ),
            ),
    {
        let sb = self.sb;
        let ghost img = self.image();
        let size: usize = sb.block_size as usize;
        let needed_len: usize = 8 + round_up_4(name.len());
        let mut block_buf: [u8; 4096] = [0u8;4096];
        let blocks: usize = span(sb, parent_inode.size);
        let mut block_index: usize = 0;
        let ghost dir = directory_from(img, sb, parent_inode@, 0);
        let ghost rest_trail = appended_trail(parent_ino, block_allocated(img, sb).1);
        let ghost trail = seq![Place::Records(parent_inode@)] + rest_trail;
        let ghost disk = self.medium();
        let ghost is_bounded = blocks_bounded(img, sb) && (block_allocated(img, sb).1 is Ok
            ==> name@.len() <= MAX_BLOCK_SIZE - 8);
        proof {
            lemma_confined_none(disk, sb, trail);
        }
        while block_index < blocks
            invariant
                block_index <= blocks,
                blocks == block_span(sb, parent_inode.size),
                disk == old(self).medium(),
                is_confined(disk, disk, sb, trail),
                rest_trail == appended_trail(parent_ino, block_allocated(img, sb).1),
                trail == seq![Place::Records(parent_inode@)] + rest_trail,
                sb == old(self).sb,
                sb.readable(),
                size == sb.block_size,
                needed_len == record_size(name@.len() as int),
                self.attached(),
                self.goes_on(*old(self)),
                self.quiet(*old(self)),
                self.holds(*old(self)),
                self.image() == img,
                img == old(self).image(),
                dir == directory_from(img, sb, parent_inode@, 0),
                needs_block(img, sb, parent_inode@, name@) ==> is_bounded,
                ({
                    let rest = directory_from(img, sb, parent_inode@, block_index as int);
                    &&& first_slot(dir.records, needed_len as int) == first_slot(
                        rest.records,
                        needed_len as int,
                    )
                    &&& dir.error == rest.error
                }),
            decreases blocks - block_index,
        {
            let block: u32 = match self.data_block_number(parent_inode, block_index as u64) {
                Ok(v) => v,
                Err(e) => return Err(e),
            };
            if block == 0 {
                block_index += 1;
                continue;
            }
            let rc: i32 = self.read_block(block, &mut block_buf);
            if rc != 0 {
                return Err(rc);
            }
            let ghost b = block_bytes(img, sb, block);
            assert(block_buf@.take(size as int) =~= b);
            proof {
                lemma_first_slot_concat(
                    records_in(b, block, 0),
                    directory_from(img, sb, parent_inode@, block_index + 1).records,
                    needed_len as int,
                );
            }
            match find_slot(&block_buf, size, Ghost(block), needed_len) {
                None => {},
                Some((off, ideal, rec_len)) => {
                    let ghost record = record_at(b, block, off as int);
                    let ghost before = block_buf@;
                    set_u16(&mut block_buf, off + 4, ideal as u16);
                    put_entry(
                        &mut block_buf,
                        off + ideal,
                        child_ino,
                        (rec_len - ideal) as u16,
                        name,
                        file_type,
                    );
                    let ghost after = record_split(b, record, child_ino, name@, file_type);
                    assert(block_buf@.take(size as int) =~= after.take(size as int)) by {
                        assert forall|i: int| 0 <= i < size implies before[i] == b[i] by {
                            assert(before.take(size as int)[i] == b[i]);
                        }
                    }
                    let rc: i32 = self.write_block(block, &block_buf);
                    proof {
                        let place = Place::Records(parent_inode@);
                        let now = self.medium();
                        let region = joined(area(img, sb, place), now.torn);
                        assert forall|a: int| !region(a) implies #[trigger] (disk.image)(a)
                            == (now.image)(a) by {
                            if block_stretch(sb, block)(a) {
                                assert(is_in_block_of(
                                    img,
                                    sb,
                                    parent_inode@,
                                    block_index as int,
                                    a,
                                ));
                            }
                            assert(!joined(block_stretch(sb, block), now.torn)(a));
                        }
                        lemma_first_place(disk, now, sb, trail);
                    }
                    if rc != 0 {
                        return Err(rc);
                    }
                    return Ok(());
                },
            }
            block_index += 1;
        }
        proof {
            lemma_confined_none(disk, sb, seq![Place::Records(parent_inode@)]);
        }
        let r = self.append_dir_entry(parent_ino, parent_inode, name, child_ino, file_type);
        proof {
            lemma_confined_concat(
                disk,
                disk,
                self.medium(),
                sb,
                seq![Place::Records(parent_inode@)],
                rest_trail,
            );
        }
        r
    }

    /// Whether a name can only be entered into a new block of a directory.
    pub fn is_crowded(&mut self, parent_inode: Inode, name: &[u8]) -> (r: Result<bool, i32>)
        requires
            old(self).attached(),
            old(self).sb.readable(),
            record_size(name@.len() as int) <= usize::MAX,
        ensures
            final(self).reads(
                *old(self),
                r,
                Ok(needs_block(old(self).image(), old(self).sb, parent_inode@, name@)),
            ),
    {
        let sb = self.sb;
        let ghost img = self.image();
        let size: usize = sb.block_size as usize;
        let needed_len: usize = 8 + round_up_4(name.len());
        let mut block_buf: [u8; 4096] = [0u8;4096];
        let blocks: usize = span(sb, parent_inode.size);
        if blocks >= 12 {
            return Ok(false);
        }
        let mut block_index: usize = 0;
        let ghost dir = directory_from(img, sb, parent_inode@, 0);
        while block_index < blocks
            invariant
                block_index <= blocks < 12,
                blocks == block_span(sb, parent_inode.size),
                sb == old(self).sb,
                sb.readable(),
                size == sb.block_size,
                needed_len == record_size(name@.len() as int),
                self.attached(),
                self.goes_on(*old(self)),
                self.quiet(*old(self)),
                self.holds(*old(self)),
                self.image() == img,
                img == old(self).image(),
                dir == directory_from(img, sb, parent_inode@, 0),
                ({
                    let rest = directory_from(img, sb, parent_inode@, block_index as int);
                    &&& first_slot(dir.records, needed_len as int) == first_slot(
                        rest.records,
                        needed_len as int,
                    )
                    &&& dir.error == rest.error
                }),
            decreases blocks - block_index,
        {
            let block: u32 = parent_inode.blocks[block_index];
            if block == 0 {
                block_index += 1;
                continue;
            }
            let rc: i32 = self.read_block(block, &mut block_buf);
            if rc != 0 {
                return Err(rc);
            }
            let ghost b = block_bytes(img, sb, block);
            assert(block_buf@.take(size as int) =~= b);
            proof {
                lemma_first_slot_concat(
                    records_in(b, block, 0),
                    directory_from(img, sb, parent_inode@, block_index + 1).records,
                    needed_len as int,
                );
            }
            if find_slot(&block_buf, size, Ghost(block), needed_len).is_some() {
                return Ok(false);
            }
            block_index += 1;
        }
        Ok(true)
    }

    /// Enters a name into a new block of a directory.
    fn append_dir_entry(
        &mut self,
        parent_ino: u32,
        parent_inode: Inode,
        name: &[u8],
        child_ino: u32,
        file_type: u8,
    ) -> (r: Result<(), i32>)
        requires
            old(self).attached(),
            old(self).sb.readable(),
            block_span(old(self).sb, parent_inode.size) < 12 ==> {
                &&& blocks_bounded(old(self).image(), old(self).sb)
                &&& block_allocated(old(self).image(), old(self).sb).1 is Ok ==> name@.len()
                    <= MAX_BLOCK_SIZE - 8
            },
        ensures
            final(self).writes(
                *old(self),
                r,
                entry_appended(
                    old(self).image(),
                    old(self).sb,
                    parent_ino,
                    parent_inode@,
                    name@,
                    child_ino,
                    file_type,
                ),
            ),
            is_confined(
                old(self).medium(),
                final(self).medium(),
                old(self).sb,
                appended_trail(
                    parent_ino,
                    block_allocated(old(self).image(), old(self).sb).1,
                ),
            ),
    {
        let sb = self.sb;
        let ghost img = self.image();
        let ghost disk = self.medium();
        let ghost places = appended_trail(parent_ino, block_allocated(img, sb).1);
        let blocks: usize = span(sb, parent_inode.size);
        if blocks >= 12 {
            proof {
                lemma_confined_none(disk, sb, places);
            }
            return Err(ENOSYS);
        }
        let new_block: u32 = match self.allocate_block_number() {
            Ok(v) => v,
            Err(e) => {
                proof {
                    lemma_first_place(disk, self.medium(), sb, places);
                }
                return Err(e);
            },
        };
        let ghost given = self.medium();
        let mut block_buf: [u8; 4096] = [0u8;4096];
        assert(block_buf@ =~= zeros(4096));
        put_entry(&mut block_buf, 0, child_ino, sb.block_size as u16, name, file_type);
        let rc: i32 = self.write_block(new_block, &block_buf);
        let ghost filled = self.medium();
        proof {
            lemma_three_places(disk, given, filled, filled, sb, places);
        }
        if rc != 0 {
            return Err(rc);
        }
        let mut parent_raw: [u8; 512] = [0u8;512];
        assert(parent_raw@ =~= zeros(512));
        self.read_inode_raw(parent_ino, &mut parent_raw)?;
        grow_directory(sb, &mut parent_raw, &parent_inode, new_block);
        let rc: i32 = self.write_inode_raw(parent_ino, &parent_raw);
        proof {
            lemma_three_places(disk, given, filled, self.medium(), sb, places);
        }
        if rc != 0 {
            return Err(rc);
        }
        Ok(())
    }

    /// Fills the first block of a new directory.
    pub fn init_directory_block(&mut self, block: u32, self_ino: u32, parent_ino: u32) -> (rc: i32)
        requires
            old(self).attached(),
            old(self).sb.wf(),
            old(self).sb.block_size != 0,
        ensures
            final(self).writes(
                *old(self),
                status(rc),
                (
                    block_stored(
                        old(self).image(),
                        old(self).sb,
                        block,
                        directory_block(old(self).sb, self_ino, parent_ino),
                    ),
                    Ok(()),
                ),
            ),
            is_touched(
                old(self).medium(),
                final(self).medium(),
                block_stretch(old(self).sb, block),
            ),
    {
        let sb = self.sb;
        let mut block_buf: [u8; 4096] = [0u8;4096];
        assert(block_buf@ =~= zeros(4096));
        let dot_len: usize = 8 + round_up_4(1);
        let names: [u8; 2] = [DOT, DOT];
        let one = vstd::slice::slice_subrange(&names, 0, 1);
        assert(one@ =~= dot());
        assert(names@ =~= dot_dot());
        put_entry(&mut block_buf, 0, self_ino, dot_len as u16, one, EXT2_FT_DIR);
        put_entry(
            &mut block_buf,
            dot_len,
            parent_ino,
            (sb.block_size as usize - dot_len) as u16,
            &names,
            EXT2_FT_DIR,
        );
        self.write_block(block, &block_buf)
    }
}

} // verus!
