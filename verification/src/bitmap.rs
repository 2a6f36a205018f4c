//! Bitmaps and the numbers of inodes and blocks that they give out.

use vstd::prelude::*;
use crate::abi::ENOSPC;
use crate::codec::{le16_bytes, overlay, zeros};
use crate::disk::{is_touched, patched, stretch, Image, McxDiskOps};
use crate::layout::{
    block_bytes, block_stored, group_desc_addr, group_desc_at, group_desc_offset, lesser,
    Superblock, MAX_BLOCK_SIZE,
};
use crate::state::{addresses, u16_at, State};
use crate::trail::{area, block_stretch, Place};

verus! {

/// Address of the superblock's count of free blocks.
pub const SB_FREE_BLOCKS: u64 = 1036;

/// Address of the superblock's count of free inodes.
pub const SB_FREE_INODES: u64 = 1040;

/// The mask of a bit within its byte.
pub open spec fn bit_mask(bit: u32) -> u8 {
    1u8 << (bit % 8)
}

/// Whether a bit of a bitmap is set.
pub open spec fn bit_is_set(bitmap: Seq<u8>, bit: u32) -> bool {
    bitmap[bit as int / 8] & bit_mask(bit) != 0
}

/// A bitmap with one bit set.
pub open spec fn with_bit_set(bitmap: Seq<u8>, bit: u32) -> Seq<u8> {
    bitmap.update(bit as int / 8, bitmap[bit as int / 8] | bit_mask(bit))
}

/// A bitmap with one bit clear.
pub open spec fn with_bit_clear(bitmap: Seq<u8>, bit: u32) -> Seq<u8> {
    bitmap.update(bit as int / 8, bitmap[bit as int / 8] & !bit_mask(bit))
}

/// The first clear bit from `bit` on and below `max`.
pub open spec fn first_clear(bitmap: Seq<u8>, bit: u32, max: u32) -> Option<u32>
    decreases max - bit,
{
    if bit >= max {
        None
    } else if !bit_is_set(bitmap, bit) {
        Some(bit)
    } else {
        first_clear(bitmap, (bit + 1) as u32, max)
    }
}

/// The bitmap that a block holds. Bits past the end of the block are clear.
pub open spec fn bitmap_at(img: Image, sb: Superblock, block: u32) -> Seq<u8> {
    overlay(zeros(MAX_BLOCK_SIZE as nat), 0, block_bytes(img, sb, block))
}

/// Sets the first clear bit of the bitmap in a block, from `start` on and below
/// `max`.
pub open spec fn bit_allocated(img: Image, sb: Superblock, block: u32, start: u32, max: u32) -> (
    Image,
    Result<u32, i32>,
) {
    let bitmap = bitmap_at(img, sb, block);
    match first_clear(bitmap, start, max) {
        None => (img, Err(ENOSPC)),
        Some(bit) => (block_stored(img, sb, block, with_bit_set(bitmap, bit)), Ok(bit)),
    }
}

/// Clears a bit of the bitmap in a block.
pub open spec fn bit_cleared(img: Image, sb: Superblock, block: u32, bit: u32) -> Image {
    block_stored(img, sb, block, with_bit_clear(bitmap_at(img, sb, block), bit))
}

/// Takes 1 off a 16-bit counter, which must not be 0.
pub open spec fn decremented(img: Image, a: int) -> (Image, Result<(), i32>) {
    let value = u16_at(img, a);
    if value == 0 {
        (img, Err(ENOSPC))
    } else {
        (patched(img, a, le16_bytes((value - 1) as u16)), Ok(()))
    }
}

/// The successor of a 16-bit number, modulo 2^16.
pub open spec fn successor(value: u16) -> u16 {
    if value == 0xffff {
        0
    } else {
        (value + 1) as u16
    }
}

/// Adds 1 to a 16-bit counter, which wraps at 2^16.
pub open spec fn incremented(img: Image, a: int) -> Image {
    patched(img, a, le16_bytes(successor(u16_at(img, a))))
}

/// Takes 1 off two counters, one after the other, and then gives `value`.
pub open spec fn counted_down(img: Image, a: int, b: int, value: u32) -> (Image, Result<u32, i32>) {
    let (img1, r1) = decremented(img, a);
    let (img2, r2) = decremented(img1, b);
    match r1 {
        Err(e) => (img1, Err(e)),
        Ok(_) => match r2 {
            Err(e) => (img2, Err(e)),
            Ok(_) => (img2, Ok(value)),
        },
    }
}


/// The first inode number that may be given out, less 1.
pub open spec fn first_inode_bit(sb: Superblock) -> u32 {
    if sb.first_inode == 0 {
        0
    } else {
        (sb.first_inode - 1) as u32
    }
}

/// Gives out an inode number: the first free one of the first group. The free
/// counts of the superblock and of the group go down by 1.
pub open spec fn inode_allocated(img: Image, sb: Superblock) -> (Image, Result<u32, i32>) {
    if sb.inodes_count == 0 {
        (img, Err(ENOSPC))
    } else {
        let (img1, r) = bit_allocated(
            img,
            sb,
            group_desc_at(img, sb, 0).inode_bitmap,
            first_inode_bit(sb),
            lesser(sb.inodes_per_group, sb.inodes_count),
        );
        match r {
            Err(e) => (img1, Err(e)),
            Ok(bit) => counted_down(
                img1,
                SB_FREE_INODES as int,
                group_desc_addr(sb, 0) + 14,
                (bit + 1) as u32,
            ),
        }
    }
}

/// Takes an inode number back.
pub open spec fn inode_freed(img: Image, sb: Superblock, ino: u32) -> Image {
    let index = (ino - 1) as u32;
    let group = index / sb.inodes_per_group;
    let img1 = bit_cleared(
        img,
        sb,
        group_desc_at(img, sb, group).inode_bitmap,
        index % sb.inodes_per_group,
    );
    incremented(incremented(img1, SB_FREE_INODES as int), group_desc_addr(sb, group) + 14)
}

/// Gives out a block: the first free one of the first group. The free counts of
/// the superblock and of the group go down by 1.
pub open spec fn block_allocated(img: Image, sb: Superblock) -> (Image, Result<u32, i32>) {
    if sb.blocks_count == 0 {
        (img, Err(ENOSPC))
    } else {
        let (img1, r) = bit_allocated(
            img,
            sb,
            group_desc_at(img, sb, 0).block_bitmap,
            0,
            lesser(sb.blocks_per_group, sb.blocks_count),
        );
        match r {
            Err(e) => (img1, Err(e)),
            Ok(bit) => counted_down(
                img1,
                SB_FREE_BLOCKS as int,
                group_desc_addr(sb, 0) + 12,
                bit,
            ),
        }
    }
}

/// Takes a block back.
pub open spec fn block_freed(img: Image, sb: Superblock, block: u32) -> Image {
    let group = block / sb.blocks_per_group;
    let img1 = bit_cleared(
        img,
        sb,
        group_desc_at(img, sb, group).block_bitmap,
        block % sb.blocks_per_group,
    );
    incremented(incremented(img1, SB_FREE_BLOCKS as int), group_desc_addr(sb, group) + 12)
}

/// A first clear bit is clear and lies in the range that was searched.
pub proof fn lemma_first_clear(bitmap: Seq<u8>, bit: u32, max: u32)
    ensures
        match first_clear(bitmap, bit, max) {
            Some(b) => bit <= b < max && !bit_is_set(bitmap, b) && forall|k: u32|
                bit <= k < b ==> bit_is_set(bitmap, k),
            None => forall|k: u32| bit <= k < max ==> bit_is_set(bitmap, k),
        },
    decreases max - bit,
{
    if bit < max && bit_is_set(bitmap, bit) {
        lemma_first_clear(bitmap, (bit + 1) as u32, max);
    }
}

/// Whether a search for a clear bit from `start` on and below `max` stays in a
/// bitmap of the largest block size: it ends before the end of the bitmap, or finds
/// a clear bit there.
pub open spec fn is_bounded(bitmap: Seq<u8>, start: u32, max: u32) -> bool {
    ||| max <= 8 * MAX_BLOCK_SIZE
    ||| start >= max
    ||| first_clear(bitmap, start, (8 * MAX_BLOCK_SIZE) as u32) is Some
}

/// Whether a search for an inode number to give out stays in its bitmap.
pub open spec fn numbers_bounded(img: Image, sb: Superblock) -> bool {
    &&& sb.inodes_per_group != 0
    &&& sb.inodes_count != 0 ==> is_bounded(
        bitmap_at(img, sb, group_desc_at(img, sb, 0).inode_bitmap),
        first_inode_bit(sb),
        lesser(sb.inodes_per_group, sb.inodes_count),
    )
}

/// Whether a search for a block to give out stays in its bitmap.
pub open spec fn blocks_bounded(img: Image, sb: Superblock) -> bool {
    &&& sb.blocks_per_group != 0
    &&& sb.blocks_count != 0 ==> is_bounded(
        bitmap_at(img, sb, group_desc_at(img, sb, 0).block_bitmap),
        0,
        lesser(sb.blocks_per_group, sb.blocks_count),
    )
}

/// Bits past the end of the block are clear.
proof fn lemma_bits_past_block(img: Image, sb: Superblock, block: u32, bit: u32)
    requires
        sb.wf(),
        8 * sb.block_size <= bit < 8 * MAX_BLOCK_SIZE,
    ensures
        !bit_is_set(bitmap_at(img, sb, block), bit),
{
    assert(0u8 & (1u8 << (bit % 8)) == 0) by (bit_vector);
    assert(bitmap_at(img, sb, block)[bit as int / 8] == 0);
}

/// A search in a block that is smaller than the bitmap ends behind the block at the
/// latest.
proof fn lemma_small_bounded(img: Image, sb: Superblock, block: u32, start: u32, max: u32)
    requires
        sb.wf(),
        sb.block_size < MAX_BLOCK_SIZE,
        start < 8 * MAX_BLOCK_SIZE,
    ensures
        is_bounded(bitmap_at(img, sb, block), start, max),
{
    let bitmap = bitmap_at(img, sb, block);
    let c: u32 = if start < 8 * sb.block_size {
        (8 * sb.block_size) as u32
    } else {
        start
    };
    lemma_bits_past_block(img, sb, block, c);
    lemma_first_clear(bitmap, start, (8 * MAX_BLOCK_SIZE) as u32);
}

/// A search for an inode number stays in its bitmap, whatever the disk holds, where
/// the numbers of the volume say so.
pub proof fn law_tracked_numbers_are_bounded(img: Image, sb: Superblock)
    requires
        sb.wf(),
        sb.inodes_tracked(),
    ensures
        numbers_bounded(img, sb),
{
    let max = lesser(sb.inodes_per_group, sb.inodes_count);
    if max > 8 * MAX_BLOCK_SIZE {
        let block = group_desc_at(img, sb, 0).inode_bitmap;
        lemma_small_bounded(img, sb, block, first_inode_bit(sb), max);
    }
}

/// A search for a block stays in its bitmap, whatever the disk holds, where the
/// numbers of the volume say so.
pub proof fn law_tracked_blocks_are_bounded(img: Image, sb: Superblock)
    requires
        sb.wf(),
        sb.blocks_tracked(),
    ensures
        blocks_bounded(img, sb),
{
    let max = lesser(sb.blocks_per_group, sb.blocks_count);
    if max > 8 * MAX_BLOCK_SIZE {
        lemma_small_bounded(img, sb, group_desc_at(img, sb, 0).block_bitmap, 0, max);
    }
}

/// A first clear bit lies in the bitmap.
pub proof fn lemma_clear_in_buffer(bitmap: Seq<u8>, start: u32, max: u32)
    requires
        is_bounded(bitmap, start, max),
    ensures
        match first_clear(bitmap, start, max) {
            Some(b) => start <= b < max && b < 8 * MAX_BLOCK_SIZE && !bit_is_set(bitmap, b),
            None => true,
        },
{
    lemma_first_clear(bitmap, start, max);
    lemma_first_clear(bitmap, start, (8 * MAX_BLOCK_SIZE) as u32);
}

impl<D: McxDiskOps> State<D> {
    /// Takes 1 off the 16-bit counter at `offset`.
    pub fn decrement_u16_at(&mut self, offset: u64) -> (r: Result<(), i32>)
        requires
            offset + 2 <= addresses(),
        ensures
            !old(self).attached() ==> final(self).refuses(*old(self), r),
            old(self).attached() ==> final(self).writes(
                *old(self),
                r,
                decremented(old(self).image(), offset as int),
            ),
            old(self).attached() ==> is_touched(
                old(self).medium(),
                final(self).medium(),
                stretch(offset as int, 2),
            ),
    {
        let value: u16 = self.read_u16(offset)?;
        if value == 0 {
            return Err(ENOSPC);
        }
        let rc: i32 = self.write_u16(offset, value - 1);
        if rc != 0 {
            return Err(rc);
        }
        Ok(())
    }

    /// Adds 1 to the 16-bit counter at `offset`.
    pub fn increment_u16_at(&mut self, offset: u64) -> (r: Result<(), i32>)
        requires
            offset + 2 <= addresses(),
        ensures
            !old(self).attached() ==> final(self).refuses(*old(self), r),
            old(self).attached() ==> final(self).writes(
                *old(self),
                r,
                (incremented(old(self).image(), offset as int), Ok(())),
            ),
            old(self).attached() ==> is_touched(
                old(self).medium(),
                final(self).medium(),
                stretch(offset as int, 2),
            ),
    {
        let value: u16 = self.read_u16(offset)?;
        let rc: i32 = self.write_u16(offset, value.wrapping_add(1));
        if rc != 0 {
            return Err(rc);
        }
        Ok(())
    }

    /// Sets the first clear bit of the bitmap in a block, from `start_bit` on
    /// and below `max_bits`, and gives its number.
    pub fn alloc_bitmap_bit(&mut self, bitmap_block: u32, start_bit: u32, max_bits: u32) -> (r:
        Result<u32, i32>)
        requires
            old(self).attached(),
            old(self).sb.wf(),
            is_bounded(
                bitmap_at(old(self).image(), old(self).sb, bitmap_block),
                start_bit,
                max_bits,
            ),
        ensures
            final(self).writes(
                *old(self),
                r,
                bit_allocated(old(self).image(), old(self).sb, bitmap_block, start_bit, max_bits),
            ),
            is_touched(
                old(self).medium(),
                final(self).medium(),
                block_stretch(old(self).sb, bitmap_block),
            ),
            r is Ok ==> start_bit <= r->Ok_0 < max_bits && r->Ok_0 < 8 * MAX_BLOCK_SIZE,
    {
        let mut bitmap: [u8; 4096] = [0u8;4096];
        assert(bitmap@ =~= zeros(4096));
        let ghost img = self.image();
        let rc: i32 = self.read_block(bitmap_block, &mut bitmap);
        if rc != 0 {
            return Err(rc);
        }
        let ghost found = bitmap@;
        let mut bit: u32 = start_bit;
        while bit < max_bits
            invariant
                is_bounded(found, start_bit, max_bits),
                start_bit <= bit,
                max_bits <= 8 * MAX_BLOCK_SIZE || bit >= max_bits || first_clear(
                    found,
                    bit,
                    (8 * MAX_BLOCK_SIZE) as u32,
                ) is Some,
                self.attached(),
                self.goes_on(*old(self)),
                self.sb.wf(),
                self.quiet(*old(self)),
                self.holds(*old(self)),
                self.image() == img,
                img == old(self).image(),
                bitmap@ == found,
                found == bitmap_at(img, self.sb, bitmap_block),
                first_clear(found, start_bit, max_bits) == first_clear(found, bit, max_bits),
            decreases max_bits - bit,
        {
            let byte_idx: usize = (bit / 8) as usize;
            let mask: u8 = 1u8 << (bit % 8);
            assert(bit < 8 * MAX_BLOCK_SIZE);
            if (bitmap[byte_idx] & mask) == 0 {
                bitmap[byte_idx] = bitmap[byte_idx] | mask;
                assert(bitmap@ =~= with_bit_set(found, bit));
                let rc: i32 = self.write_block(bitmap_block, &bitmap);
                if rc != 0 {
                    return Err(rc);
                }
                return Ok(bit);
            }
            bit += 1;
        }
        Err(ENOSPC)
    }

    /// Clears a bit of the bitmap in a block.
    pub fn clear_bitmap_bit(&mut self, bitmap_block: u32, bit: u32) -> (r: Result<(), i32>)
        requires
            old(self).attached(),
            old(self).sb.wf(),
            bit < 8 * MAX_BLOCK_SIZE,
        ensures
            final(self).writes(
                *old(self),
                r,
                (bit_cleared(old(self).image(), old(self).sb, bitmap_block, bit), Ok(())),
            ),
            is_touched(
                old(self).medium(),
                final(self).medium(),
                block_stretch(old(self).sb, bitmap_block),
            ),
    {
        let mut bitmap: [u8; 4096] = [0u8;4096];
        assert(bitmap@ =~= zeros(4096));
        let rc: i32 = self.read_block(bitmap_block, &mut bitmap);
        if rc != 0 {
            return Err(rc);
        }
        let ghost found = bitmap@;
        let byte_idx: usize = (bit / 8) as usize;
        let mask: u8 = 1u8 << (bit % 8);
        bitmap[byte_idx] = bitmap[byte_idx] & !mask;
        assert(bitmap@ =~= with_bit_clear(found, bit));
        let rc: i32 = self.write_block(bitmap_block, &bitmap);
        if rc != 0 {
            return Err(rc);
        }
        Ok(())
    }

    /// Gives out an inode number.
    pub fn allocate_inode_number(&mut self) -> (r: Result<u32, i32>)
        requires
            old(self).attached(),
            old(self).sb.wf(),
            numbers_bounded(old(self).image(), old(self).sb),
        ensures
            final(self).writes(*old(self), r, inode_allocated(old(self).image(), old(self).sb)),
            is_touched(
                old(self).medium(),
                final(self).medium(),
                area(old(self).image(), old(self).sb, Place::Numbers(0)),
            ),
            r is Ok ==> 1 <= r->Ok_0 <= 8 * MAX_BLOCK_SIZE && r->Ok_0 <= lesser(
                old(self).sb.inodes_per_group,
                old(self).sb.inodes_count,
            ),
    {
        let sb = self.sb;
        if sb.inodes_count == 0 {
            return Err(ENOSPC);
        }
        let gd = self.load_group_desc(sb, 0)?;
        let start_bit: u32 = sb.first_inode.saturating_sub(1);
        let max_bits: u32 = if sb.inodes_per_group <= sb.inodes_count {
            sb.inodes_per_group
        } else {
            sb.inodes_count
        };
        let bit: u32 = self.alloc_bitmap_bit(gd.inode_bitmap, start_bit, max_bits)?;
        self.decrement_u16_at(SB_FREE_INODES)?;
        self.decrement_u16_at(group_desc_offset(sb, 0) + 14)?;
        Ok(bit + 1)
    }

    /// Takes an inode number back.
    pub fn free_inode_number(&mut self, ino: u32) -> (r: Result<(), i32>)
        requires
            old(self).attached(),
            old(self).sb.wf(),
            old(self).sb.inodes_per_group != 0,
            ino >= 1,
            (ino - 1) as u32 % old(self).sb.inodes_per_group < 8 * MAX_BLOCK_SIZE,
        ensures
            final(self).writes(
                *old(self),
                r,
                (inode_freed(old(self).image(), old(self).sb, ino), Ok(())),
            ),
            is_touched(
                old(self).medium(),
                final(self).medium(),
                area(
                    old(self).image(),
                    old(self).sb,
                    Place::Numbers((ino - 1) as u32 / old(self).sb.inodes_per_group),
                ),
            ),
    {
        let sb = self.sb;
        let index: u32 = ino - 1;
        let group: u32 = index / sb.inodes_per_group;
        let bit: u32 = index % sb.inodes_per_group;
        let gd = self.load_group_desc(sb, group)?;
        self.clear_bitmap_bit(gd.inode_bitmap, bit)?;
        self.increment_u16_at(SB_FREE_INODES)?;
        self.increment_u16_at(group_desc_offset(sb, group) + 14)?;
        Ok(())
    }

    /// Gives out a block.
    pub fn allocate_block_number(&mut self) -> (r: Result<u32, i32>)
        requires
            old(self).attached(),
            old(self).sb.wf(),
            blocks_bounded(old(self).image(), old(self).sb),
        ensures
            final(self).writes(*old(self), r, block_allocated(old(self).image(), old(self).sb)),
            is_touched(
                old(self).medium(),
                final(self).medium(),
                area(old(self).image(), old(self).sb, Place::Blocks(0)),
            ),
            r is Ok ==> r->Ok_0 < 8 * MAX_BLOCK_SIZE && r->Ok_0 < lesser(
                old(self).sb.blocks_per_group,
                old(self).sb.blocks_count,
            ),
    {
        let sb = self.sb;
        if sb.blocks_count == 0 {
            return Err(ENOSPC);
        }
        let gd = self.load_group_desc(sb, 0)?;
        let max_bits: u32 = if sb.blocks_per_group <= sb.blocks_count {
            sb.blocks_per_group
        } else {
            sb.blocks_count
        };
        let bit: u32 = self.alloc_bitmap_bit(gd.block_bitmap, 0, max_bits)?;
        self.decrement_u16_at(SB_FREE_BLOCKS)?;
        self.decrement_u16_at(group_desc_offset(sb, 0) + 12)?;
        Ok(bit)
    }

    /// Takes a block back.
    pub fn free_block_number(&mut self, block: u32) -> (r: Result<(), i32>)
        requires
            old(self).attached(),
            old(self).sb.wf(),
            old(self).sb.blocks_per_group != 0,
            block % old(self).sb.blocks_per_group < 8 * MAX_BLOCK_SIZE,
        ensures
            final(self).writes(
                *old(self),
                r,
                (block_freed(old(self).image(), old(self).sb, block), Ok(())),
            ),
            is_touched(
                old(self).medium(),
                final(self).medium(),
                area(
                    old(self).image(),
                    old(self).sb,
                    Place::Blocks(block / old(self).sb.blocks_per_group),
                ),
            ),
    {
        let sb = self.sb;
        let group: u32 = block / sb.blocks_per_group;
        let bit: u32 = block % sb.blocks_per_group;
        let gd = self.load_group_desc(sb, group)?;
        self.clear_bitmap_bit(gd.block_bitmap, bit)?;
        self.increment_u16_at(SB_FREE_BLOCKS)?;
        self.increment_u16_at(group_desc_offset(sb, group) + 12)?;
        Ok(())
    }
}

} // verus!
