//! Giving out and taking back inode numbers and blocks.

use vstd::prelude::*;
use crate::bitmap::{
    bit_allocated, bit_cleared, bit_is_set, bitmap_at, block_allocated, block_freed,
    blocks_bounded, counted_down, decremented, first_inode_bit, incremented, inode_allocated,
    inode_freed, is_bounded, lemma_clear_in_buffer, numbers_bounded, successor, with_bit_clear,
    with_bit_set, SB_FREE_BLOCKS, SB_FREE_INODES,
};
use crate::codec::{le16_bytes, lemma_le16_round_trip, overlay, zeros};
use crate::disk::{bytes_at, Image};
use crate::laws::storage::{agree_on, apart, law_store_then_read_numbers};
use crate::layout::{
    block_bytes, block_stored, group_desc_addr, group_desc_at, lesser, Superblock, MAX_BLOCK_SIZE,
};
use crate::state::u16_at;

verus! {

/// Setting a bit sets it, clearing it clears it, and clearing a bit that was
/// set from clear gives the bitmap back. Other bits keep their value.
pub proof fn law_bits(bitmap: Seq<u8>, bit: u32, other: u32)
    requires
        bit / 8 < bitmap.len(),
        other / 8 < bitmap.len(),
    ensures
        bit_is_set(with_bit_set(bitmap, bit), bit),
        !bit_is_set(with_bit_clear(bitmap, bit), bit),
        !bit_is_set(bitmap, bit) ==> with_bit_clear(with_bit_set(bitmap, bit), bit) == bitmap,
        other != bit ==> {
            &&& bit_is_set(with_bit_set(bitmap, bit), other) == bit_is_set(bitmap, other)
            &&& bit_is_set(with_bit_clear(bitmap, bit), other) == bit_is_set(bitmap, other)
        },
{
    let b = bitmap[bit as int / 8];
    assert((b | (1u8 << (bit % 8))) & (1u8 << (bit % 8)) != 0 && (b & !(1u8 << (bit % 8))) & (1u8
        << (bit % 8)) == 0 && (b & (1u8 << (bit % 8)) == 0 ==> (b | (1u8 << (bit % 8))) & !(1u8 << (
    bit % 8)) == b)) by (bit_vector);
    assert(bit % 8 != other % 8 ==> (b | (1u8 << (bit % 8))) & (1u8 << (other % 8)) == b & (1u8 << (
    other % 8)) && (b & !(1u8 << (bit % 8))) & (1u8 << (other % 8)) == b & (1u8 << (other % 8)))
        by (bit_vector);
    if !bit_is_set(bitmap, bit) {
        assert(with_bit_clear(with_bit_set(bitmap, bit), bit) =~= bitmap);
    }
}

/// Whether a block lies apart from a range of addresses.
pub open spec fn block_apart(sb: Superblock, block: u32, at: int, len: int) -> bool {
    apart(block * sb.block_size, sb.block_size as int, at, len)
}

/// The bitmap in a block after the block was stored from a bitmap: where it
/// does not reach past the block, the same.
pub proof fn lemma_bitmap_stored(img: Image, sb: Superblock, block: u32, bitmap: Seq<u8>)
    requires
        sb.wf(),
        bitmap.len() == MAX_BLOCK_SIZE,
    ensures
        bitmap_at(block_stored(img, sb, block, bitmap), sb, block) == overlay(
            zeros(MAX_BLOCK_SIZE as nat),
            0,
            bitmap.take(sb.block_size as int),
        ),
{
    assert(block_bytes(block_stored(img, sb, block, bitmap), sb, block) =~= bitmap.take(
        sb.block_size as int,
    ));
}

/// Clearing the bit that was just set gives the disk back.
proof fn lemma_bit_round_trip(img: Image, sb: Superblock, block: u32, bit: u32)
    requires
        sb.wf(),
        bit < 8 * MAX_BLOCK_SIZE,
        !bit_is_set(bitmap_at(img, sb, block), bit),
    ensures
        bit_cleared(
            block_stored(img, sb, block, with_bit_set(bitmap_at(img, sb, block), bit)),
            sb,
            block,
            bit,
        ) == img,
{
    let bm = bitmap_at(img, sb, block);
    let set = with_bit_set(bm, bit);
    let img1 = block_stored(img, sb, block, set);
    let bs = sb.block_size as int;
    lemma_bitmap_stored(img, sb, block, set);
    let bm1 = bitmap_at(img1, sb, block);
    law_bits(bm, bit, bit);
    let cleared = with_bit_clear(bm1, bit);
    assert(cleared.take(bs) =~= block_bytes(img, sb, block)) by {
        assert forall|i: int| 0 <= i < bs implies cleared[i] == bm[i] by {
            if i == bit as int / 8 {
                assert(bm1[i] == set[i]);
                assert(with_bit_clear(set, bit)[i] == bm[i]);
            }
        }
    }
    assert(bit_cleared(img1, sb, block, bit) =~= img);
}

/// Counting down and up again gives the disk back.
proof fn lemma_count_round_trip(img: Image, a: int)
    requires
        decremented(img, a).1 is Ok,
    ensures
        incremented(decremented(img, a).0, a) == img,
{
    let value = u16_at(img, a);
    let img1 = decremented(img, a).0;
    law_store_then_read_numbers(img, a, (value - 1) as u16, 0);
    assert(u16_at(img1, a) == value - 1);
    assert(successor((value - 1) as u16) == value);
    lemma_le16_round_trip(value, img(a), img(a + 1));
    assert(le16_bytes(value) =~= bytes_at(img, a, 2));
    assert(incremented(img1, a) =~= img);
}

/// Counting elsewhere does not matter to a block.
proof fn lemma_count_apart(img: Image, sb: Superblock, a: int, block: u32, bit: u32)
    requires
        sb.wf(),
        bit < 8 * MAX_BLOCK_SIZE,
        block_apart(sb, block, a, 2),
    ensures
        incremented(bit_cleared(img, sb, block, bit), a) == bit_cleared(
            incremented(img, a),
            sb,
            block,
            bit,
        ),
{
    let x = incremented(img, a);
    assert(block_bytes(x, sb, block) =~= block_bytes(img, sb, block));
    let y = bit_cleared(img, sb, block, bit);
    assert(u16_at(y, a) == u16_at(img, a));
    assert(incremented(y, a) =~= bit_cleared(x, sb, block, bit));
}

/// Counters that lie apart can be counted up in either order.
proof fn lemma_counts_commute(img: Image, a: int, b: int)
    requires
        apart(a, 2, b, 2),
    ensures
        incremented(incremented(img, a), b) == incremented(incremented(img, b), a),
{
    assert(u16_at(incremented(img, a), b) == u16_at(img, b));
    assert(u16_at(incremented(img, b), a) == u16_at(img, a));
    assert(incremented(incremented(img, a), b) =~= incremented(incremented(img, b), a));
}

/// Setting the first clear bit and counting two counters down is undone by
/// clearing it and counting them up.
proof fn lemma_allocation_round_trip(
    img: Image,
    sb: Superblock,
    block: u32,
    start: u32,
    max: u32,
    a: int,
    b: int,
)
    requires
        sb.wf(),
        is_bounded(bitmap_at(img, sb, block), start, max),
        block_apart(sb, block, a, 2),
        block_apart(sb, block, b, 2),
        apart(a, 2, b, 2),
        bit_allocated(img, sb, block, start, max).1 is Ok,
        counted_down(bit_allocated(img, sb, block, start, max).0, a, b, 0).1 is Ok,
    ensures
        ({
            let (img1, r) = bit_allocated(img, sb, block, start, max);
            let img3 = counted_down(img1, a, b, 0).0;
            incremented(incremented(bit_cleared(img3, sb, block, r->Ok_0), a), b) == img
        }),
{
    let (img1, r) = bit_allocated(img, sb, block, start, max);
    let bit = r->Ok_0;
    lemma_clear_in_buffer(bitmap_at(img, sb, block), start, max);
    let img2 = decremented(img1, a).0;
    let img3 = decremented(img2, b).0;
    lemma_count_apart(img3, sb, a, block, bit);
    lemma_count_apart(incremented(img3, a), sb, b, block, bit);
    lemma_counts_commute(img3, a, b);
    lemma_count_round_trip(img2, b);
    lemma_count_round_trip(img1, a);
    lemma_bit_round_trip(img, sb, block, bit);
}

/// Whether the block bitmap of the first group lies apart from the counts of
/// free blocks and from the field that locates it.
pub open spec fn block_bitmap_apart(img: Image, sb: Superblock) -> bool {
    let bitmap = group_desc_at(img, sb, 0).block_bitmap;
    &&& block_apart(sb, bitmap, SB_FREE_BLOCKS as int, 2)
    &&& block_apart(sb, bitmap, group_desc_addr(sb, 0), 14)
}

/// Whether the inode bitmap of the first group lies apart from the counts of
/// free inodes and from the field that locates it.
pub open spec fn inode_bitmap_apart(img: Image, sb: Superblock) -> bool {
    let bitmap = group_desc_at(img, sb, 0).inode_bitmap;
    &&& block_apart(sb, bitmap, SB_FREE_INODES as int, 2)
    &&& block_apart(sb, bitmap, group_desc_addr(sb, 0) + 4, 12)
}

/// Taking back the block that was just given out gives the disk back, bit by
/// bit: bitmap and free counts are as before.
pub proof fn law_free_undoes_allocate_block(img: Image, sb: Superblock)
    requires
        sb.wf(),
        sb.block_size != 0,
        blocks_bounded(img, sb),
        block_bitmap_apart(img, sb),
        block_allocated(img, sb).1 is Ok,
    ensures
        ({
            let (img1, r) = block_allocated(img, sb);
            block_freed(img1, sb, r->Ok_0) == img
        }),
{
    let (img3, r) = block_allocated(img, sb);
    let block = r->Ok_0;
    let bitmap = group_desc_at(img, sb, 0).block_bitmap;
    let max = lesser(sb.blocks_per_group, sb.blocks_count);
    let a = SB_FREE_BLOCKS as int;
    let b = group_desc_addr(sb, 0) + 12;
    lemma_clear_in_buffer(bitmap_at(img, sb, bitmap), 0, max);
    lemma_allocation_round_trip(img, sb, bitmap, 0, max, a, b);
    assert(block / sb.blocks_per_group == 0 && block % sb.blocks_per_group == block) by {
        vstd::arithmetic::div_mod::lemma_small_mod(block as nat, sb.blocks_per_group as nat);
        vstd::arithmetic::div_mod::lemma_basic_div(block as int, sb.blocks_per_group as int);
    }
    assert(agree_on(img, img3, group_desc_addr(sb, 0), 4));
    assert(group_desc_at(img3, sb, 0).block_bitmap == bitmap);
}

/// Taking back the inode number that was just given out gives the disk back.
pub proof fn law_free_undoes_allocate_inode(img: Image, sb: Superblock)
    requires
        sb.wf(),
        sb.block_size != 0,
        numbers_bounded(img, sb),
        inode_bitmap_apart(img, sb),
        inode_allocated(img, sb).1 is Ok,
    ensures
        ({
            let (img1, r) = inode_allocated(img, sb);
            inode_freed(img1, sb, r->Ok_0) == img
        }),
{
    let (img3, r) = inode_allocated(img, sb);
    let ino = r->Ok_0;
    let bitmap = group_desc_at(img, sb, 0).inode_bitmap;
    let max = lesser(sb.inodes_per_group, sb.inodes_count);
    let start = first_inode_bit(sb);
    let a = SB_FREE_INODES as int;
    let b = group_desc_addr(sb, 0) + 14;
    lemma_clear_in_buffer(bitmap_at(img, sb, bitmap), start, max);
    lemma_allocation_round_trip(img, sb, bitmap, start, max, a, b);
    let bit = (ino - 1) as u32;
    assert(bit / sb.inodes_per_group == 0 && bit % sb.inodes_per_group == bit) by {
        vstd::arithmetic::div_mod::lemma_small_mod(bit as nat, sb.inodes_per_group as nat);
        vstd::arithmetic::div_mod::lemma_basic_div(bit as int, sb.inodes_per_group as int);
    }
    assert(agree_on(img, img3, group_desc_addr(sb, 0) + 4, 4));
    assert(group_desc_at(img3, sb, 0).inode_bitmap == bitmap);
}

} // verus!
