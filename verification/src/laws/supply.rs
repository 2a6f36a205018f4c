//! What is given out and taken back: which bits and counts stand for it, in plain
//! numbers.

use vstd::prelude::*;
use crate::bitmap::{
    bit_allocated, bit_cleared, bit_is_set, bit_mask, bitmap_at, block_allocated, block_freed,
    first_inode_bit, inode_allocated, inode_freed, lemma_first_clear, with_bit_clear, with_bit_set,
};
use crate::disk::Image;
use crate::laws::allocation::{block_bitmap_apart, inode_bitmap_apart};
use crate::laws::format::{descriptor, fails_with, half, word};
use crate::layout::{block_stored, group_desc_at, lesser, Superblock};

verus! {

/// What a bit of a byte counts for.
pub open spec fn weight(k: int) -> int {
    if k == 0 {
        1
    } else if k == 1 {
        2
    } else if k == 2 {
        4
    } else if k == 3 {
        8
    } else if k == 4 {
        16
    } else if k == 5 {
        32
    } else if k == 6 {
        64
    } else {
        128
    }
}

/// Whether a bit of a bitmap that starts at an address is set: eight bits to a
/// byte, the lowest one first.
pub open spec fn has_bit(img: Image, at: int, bit: int) -> bool {
    img(at + bit / 8) as int / weight(bit % 8) % 2 == 1
}

/// Where the bitmap of the blocks of a group starts.
pub open spec fn block_bits(img: Image, sb: Superblock, group: int) -> int {
    word(img, descriptor(sb, group)) * sb.block_size
}

/// Where the bitmap of the inodes of a group starts.
pub open spec fn inode_bits(img: Image, sb: Superblock, group: int) -> int {
    word(img, descriptor(sb, group) + 4) * sb.block_size
}

/// Whether a block can be given out: it is one of the first group's and of the
/// volume's, and its bit is clear.
pub open spec fn is_unused_block(img: Image, sb: Superblock, block: int) -> bool {
    &&& 0 <= block < sb.blocks_per_group
    &&& block < sb.blocks_count
    &&& !has_bit(img, block_bits(img, sb, 0), block)
}

/// Whether an inode number can be given out: it is one of the first group's and of
/// the volume's, not below the first that may be, and its bit is clear.
pub open spec fn is_unused_number(img: Image, sb: Superblock, ino: int) -> bool {
    &&& 1 <= ino <= sb.inodes_per_group
    &&& sb.first_inode <= ino <= sb.inodes_count
    &&& !has_bit(img, inode_bits(img, sb, 0), ino - 1)
}

/// Whether a disk came from another by setting a bit of a bitmap and taking 1 off
/// two counts, and nothing else has changed.
pub open spec fn is_taken(x: Image, y: Image, bits: int, bit: int, a: int, b: int) -> bool {
    &&& !has_bit(x, bits, bit)
    &&& y(bits + bit / 8) == x(bits + bit / 8) + weight(bit % 8)
    &&& half(y, a) == half(x, a) - 1
    &&& half(y, b) == half(x, b) - 1
    &&& forall|i: int|
        i != bits + bit / 8 && !(a <= i < a + 2) && !(b <= i < b + 2) ==> #[trigger] y(i) == x(i)
}

/// Whether a disk came from another by clearing a bit of a bitmap and adding 1 to
/// two counts, which wrap, and nothing else has changed.
pub open spec fn is_given_back(x: Image, y: Image, bits: int, bit: int, a: int, b: int) -> bool {
    &&& y(bits + bit / 8) == x(bits + bit / 8) - if has_bit(x, bits, bit) {
        weight(bit % 8)
    } else {
        0
    }
    &&& half(y, a) == (half(x, a) + 1) % 65536
    &&& half(y, b) == (half(x, b) + 1) % 65536
    &&& forall|i: int|
        i != bits + bit / 8 && !(a <= i < a + 2) && !(b <= i < b + 2) ==> #[trigger] y(i) == x(i)
}

/// The mask of a bit has the weight of the bit.
proof fn lemma_mask(bit: u32)
    ensures
        bit_mask(bit) == weight(bit as int % 8),
{
    let k = bit % 8;
    assert(1u8 << 0u32 == 1 && 1u8 << 1u32 == 2 && 1u8 << 2u32 == 4 && 1u8 << 3u32 == 8 && 1u8
        << 4u32 == 16 && 1u8 << 5u32 == 32 && 1u8 << 6u32 == 64 && 1u8 << 7u32 == 128)
        by (bit_vector);
    assert(k == 0 || k == 1 || k == 2 || k == 3 || k == 4 || k == 5 || k == 6 || k == 7);
}

/// What the bits of a byte stand for.
proof fn lemma_byte(x: u8, bit: u32)
    ensures
        (x & bit_mask(bit) != 0) <==> x as int / weight(bit as int % 8) % 2 == 1,
        x & bit_mask(bit) == 0 ==> x | bit_mask(bit) == x + weight(bit as int % 8),
        x & !bit_mask(bit) == x - if x & bit_mask(bit) != 0 {
            weight(bit as int % 8)
        } else {
            0
        },
{
    lemma_mask(bit);
    let m = bit_mask(bit);
    assert(m == 1 || m == 2 || m == 4 || m == 8 || m == 16 || m == 32 || m == 64 || m == 128);
    assert((x & m != 0) <==> x / m % 2 == 1) by (bit_vector)
        requires
            m == 1 || m == 2 || m == 4 || m == 8 || m == 16 || m == 32 || m == 64 || m == 128,
    ;
    assert(x & m == 0 ==> x | m == x + m) by (bit_vector);
    assert(x & m != 0 ==> x & !m == x - m) by (bit_vector)
        requires
            m == 1 || m == 2 || m == 4 || m == 8 || m == 16 || m == 32 || m == 64 || m == 128,
    ;
    assert(x & m == 0 ==> x & !m == x) by (bit_vector);
}

/// A bit of a bitmap on a disk is that of the byte that it lies in.
pub proof fn lemma_bit(img: Image, sb: Superblock, block: u32, bit: u32)
    requires
        sb.wf(),
        bit < 8 * sb.block_size,
    ensures
        bit_is_set(bitmap_at(img, sb, block), bit) == has_bit(
            img,
            block * sb.block_size,
            bit as int,
        ),
{
    lemma_byte(bitmap_at(img, sb, block)[bit as int / 8], bit);
}

/// The bytes of the disk after a bit of a bitmap was set.
pub proof fn lemma_bit_stored(img: Image, sb: Superblock, block: u32, bit: u32)
    requires
        sb.wf(),
        bit < 8 * sb.block_size,
    ensures
        ({
            let set = block_stored(
                img,
                sb,
                block,
                with_bit_set(bitmap_at(img, sb, block), bit),
            );
            let cleared = bit_cleared(img, sb, block, bit);
            let x = block * sb.block_size + bit as int / 8;
            &&& !has_bit(img, block * sb.block_size, bit as int) ==> set(x) == img(x) + weight(
                bit as int % 8,
            )
            &&& cleared(x) == img(x) - if has_bit(img, block * sb.block_size, bit as int) {
                weight(bit as int % 8)
            } else {
                0
            }
            &&& forall|i: int| i != x ==> #[trigger] set(i) == img(i)
            &&& forall|i: int| i != x ==> #[trigger] cleared(i) == img(i)
        }),
{
    let bits = bitmap_at(img, sb, block);
    let at = block * sb.block_size;
    lemma_byte(bits[bit as int / 8], bit);
    let new_set = with_bit_set(bits, bit);
    let new_clear = with_bit_clear(bits, bit);
    let set = block_stored(img, sb, block, new_set);
    let cleared = bit_cleared(img, sb, block, bit);
    let x = at + bit as int / 8;
    assert forall|i: int| i != x implies #[trigger] set(i) == img(i) by {
        if at <= i < at + sb.block_size {
            assert(new_set[i - at] == bits[i - at]);
        }
    }
    assert forall|i: int| i != x implies #[trigger] cleared(i) == img(i) by {
        if at <= i < at + sb.block_size {
            assert(new_clear[i - at] == bits[i - at]);
        }
    }
}

/// A block is given out exactly where one can be and neither count of free blocks
/// is 0; it is the lowest of those that can be. Its bit is then set and both counts
/// are one less, and nothing else has changed. Else the answer is -28, and where no
/// block can be given out, the disk is as it was.
#[verifier::rlimit(30)]
pub proof fn law_lowest_block_is_given_out(img: Image, sb: Superblock)
    requires
        sb.wf(),
        sb.block_size != 0,
        sb.blocks_per_group <= 8 * sb.block_size || sb.blocks_count <= 8 * sb.block_size,
        block_bitmap_apart(img, sb),
    ensures
        ({
            let (after, r) = block_allocated(img, sb);
            let d = descriptor(sb, 0);
            let some = exists|b: int| #[trigger] is_unused_block(img, sb, b);
            &&& r is Ok <==> some && half(img, 1036) != 0 && half(img, d + 12) != 0
            &&& r is Err ==> fails_with(r, -28)
            &&& !some ==> after == img
            &&& r matches Ok(block) ==> {
                &&& is_unused_block(img, sb, block as int)
                &&& forall|b: int| b < block ==> !#[trigger] is_unused_block(img, sb, b)
                &&& is_taken(img, after, block_bits(img, sb, 0), block as int, 1036, d + 12)
            }
        }),
{
    let bm = group_desc_at(img, sb, 0).block_bitmap;
    let bits = bitmap_at(img, sb, bm);
    let max = lesser(sb.blocks_per_group, sb.blocks_count);
    let d = descriptor(sb, 0);
    lemma_first_clear(bits, 0, max);
    assert(block_bits(img, sb, 0) == bm * sb.block_size);
    assert forall|b: int| #[trigger] is_unused_block(img, sb, b) implies b < max && !bit_is_set(
        bits,
        b as u32,
    ) by {
        lemma_bit(img, sb, bm, b as u32);
    }
    let (ia, r0) = bit_allocated(img, sb, bm, 0, max);
    if r0 is Ok {
        let block = r0->Ok_0;
        lemma_bit(img, sb, bm, block);
        lemma_bit_stored(img, sb, bm, block);
        assert(is_unused_block(img, sb, block as int));
        assert forall|b: int| b < block implies !#[trigger] is_unused_block(img, sb, b) by {}
        let x = block_bits(img, sb, 0) + block as int / 8;
        assert(ia(1036) == img(1036) && ia(1037) == img(1037));
        assert(ia(d + 12) == img(d + 12) && ia(d + 13) == img(d + 13));
    } else {
        assert forall|b: int| !#[trigger] is_unused_block(img, sb, b) by {}
    }
}

/// An inode number is given out exactly where one can be and neither count of free
/// inodes is 0; it is the lowest of those that can be. Its bit is then set and both
/// counts are one less, and nothing else has changed. Else the answer is -28, and
/// where no number can be given out, the disk is as it was.
#[verifier::rlimit(30)]
pub proof fn law_lowest_number_is_given_out(img: Image, sb: Superblock)
    requires
        sb.wf(),
        sb.block_size != 0,
        sb.inodes_per_group <= 8 * sb.block_size || sb.inodes_count <= 8 * sb.block_size,
        inode_bitmap_apart(img, sb),
    ensures
        ({
            let (after, r) = inode_allocated(img, sb);
            let d = descriptor(sb, 0);
            let some = exists|n: int| #[trigger] is_unused_number(img, sb, n);
            &&& r is Ok <==> some && half(img, 1040) != 0 && half(img, d + 14) != 0
            &&& r is Err ==> fails_with(r, -28)
            &&& !some ==> after == img
            &&& r matches Ok(ino) ==> {
                &&& is_unused_number(img, sb, ino as int)
                &&& forall|n: int| n < ino ==> !#[trigger] is_unused_number(img, sb, n)
                &&& is_taken(img, after, inode_bits(img, sb, 0), ino - 1, 1040, d + 14)
            }
        }),
{
    let bm = group_desc_at(img, sb, 0).inode_bitmap;
    let bits = bitmap_at(img, sb, bm);
    let start = first_inode_bit(sb);
    let max = lesser(sb.inodes_per_group, sb.inodes_count);
    let d = descriptor(sb, 0);
    lemma_first_clear(bits, start, max);
    assert(inode_bits(img, sb, 0) == bm * sb.block_size);
    assert forall|n: int| #[trigger] is_unused_number(img, sb, n) implies start <= n - 1 < max
        && !bit_is_set(bits, (n - 1) as u32) by {
        lemma_bit(img, sb, bm, (n - 1) as u32);
    }
    let (ia, r0) = bit_allocated(img, sb, bm, start, max);
    if r0 is Ok {
        let bit = r0->Ok_0;
        lemma_bit(img, sb, bm, bit);
        lemma_bit_stored(img, sb, bm, bit);
        assert(is_unused_number(img, sb, bit + 1));
        assert forall|n: int| n < bit + 1 implies !#[trigger] is_unused_number(img, sb, n) by {
            if is_unused_number(img, sb, n) {
                assert(!bit_is_set(bits, (n - 1) as u32));
            }
        }
        assert(ia(1040) == img(1040) && ia(1041) == img(1041));
        assert(ia(d + 14) == img(d + 14) && ia(d + 15) == img(d + 15));
    } else {
        assert forall|n: int| !#[trigger] is_unused_number(img, sb, n) by {
            if is_unused_number(img, sb, n) {
                assert(!bit_is_set(bits, (n - 1) as u32));
            }
        }
    }
}

/// A block that is taken back is that of its group, whichever that is: its bit in
/// the group's bitmap is cleared, the counts of the volume and of the group are one
/// more, and nothing else changes.
#[verifier::rlimit(30)]
pub proof fn law_block_is_taken_back(img: Image, sb: Superblock, group: u32, i: u32, block: u32)
    requires
        sb.wf(),
        i < sb.blocks_per_group,
        i < 8 * sb.block_size,
        block == group * sb.blocks_per_group + i,
        ({
            let x = block_bits(img, sb, group as int) + i as int / 8;
            let d = descriptor(sb, group as int);
            !(1036 <= x < 1038) && !(d + 12 <= x < d + 14)
        }),
    ensures
        is_given_back(
            img,
            block_freed(img, sb, block),
            block_bits(img, sb, group as int),
            i as int,
            1036,
            descriptor(sb, group as int) + 12,
        ),
{
    let n = sb.blocks_per_group as int;
    vstd::arithmetic::div_mod::lemma_fundamental_div_mod_converse(
        block as int,
        n,
        group as int,
        i as int,
    );
    assert(block / sb.blocks_per_group == group && block % sb.blocks_per_group == i);
    let bm = group_desc_at(img, sb, group).block_bitmap;
    assert(block_bits(img, sb, group as int) == bm * sb.block_size);
    lemma_bit_stored(img, sb, bm, i);
    let d = descriptor(sb, group as int);
    let ia = bit_cleared(img, sb, bm, i);
    assert(ia(1036) == img(1036) && ia(1037) == img(1037));
    assert(ia(d + 12) == img(d + 12) && ia(d + 13) == img(d + 13));
}

/// An inode number that is taken back is that of its group, whichever that is: its
/// bit in the group's bitmap is cleared, the counts of the volume and of the group
/// are one more, and nothing else changes.
#[verifier::rlimit(30)]
pub proof fn law_number_is_taken_back(img: Image, sb: Superblock, group: u32, i: u32, ino: u32)
    requires
        sb.wf(),
        i < sb.inodes_per_group,
        i < 8 * sb.block_size,
        ino == group * sb.inodes_per_group + i + 1,
        ({
            let x = inode_bits(img, sb, group as int) + i as int / 8;
            let d = descriptor(sb, group as int);
            !(1040 <= x < 1042) && !(d + 14 <= x < d + 16)
        }),
    ensures
        is_given_back(
            img,
            inode_freed(img, sb, ino),
            inode_bits(img, sb, group as int),
            i as int,
            1040,
            descriptor(sb, group as int) + 14,
        ),
{
    let n = sb.inodes_per_group as int;
    let index = (ino - 1) as u32;
    assert(index == group * n + i);
    vstd::arithmetic::div_mod::lemma_fundamental_div_mod_converse(
        index as int,
        n,
        group as int,
        i as int,
    );
    assert(index / sb.inodes_per_group == group && index % sb.inodes_per_group == i);
    let bm = group_desc_at(img, sb, group).inode_bitmap;
    assert(inode_bits(img, sb, group as int) == bm * sb.block_size);
    lemma_bit_stored(img, sb, bm, i);
    let d = descriptor(sb, group as int);
    let ia = bit_cleared(img, sb, bm, i);
    assert(ia(1040) == img(1040) && ia(1041) == img(1041));
    assert(ia(d + 14) == img(d + 14) && ia(d + 15) == img(d + 15));
}

} // verus!
