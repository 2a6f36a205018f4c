//! Which addresses of a disk belong to a file, and how that stays so while the
//! file gets more blocks.

use vstd::prelude::*;
use crate::bitmap::{
    bit_allocated, bit_is_set, bitmap_at, block_allocated, first_clear, first_inode_bit,
    inode_allocated, lemma_first_clear, with_bit_set, SB_FREE_BLOCKS, SB_FREE_INODES,
};
use crate::codec::seq_u32;
use crate::disk::{Image, Region};
use crate::laws::allocation::{
    block_apart, block_bitmap_apart, inode_bitmap_apart, law_bits, lemma_bitmap_stored,
};
use crate::laws::storage::{agree_on, apart, inode_group, lemma_inode_addr_kept};
use crate::layout::{
    block_bytes, block_of, block_stored, group_desc_addr, group_desc_at, inode_addr, inode_in,
    lesser, Superblock,
};
use crate::state::u32_at;

verus! {

/// Whether an address lies in a block.
pub open spec fn in_block(sb: Superblock, block: u32, a: int) -> bool {
    block * sb.block_size <= a < block * sb.block_size + sb.block_size
}

/// The block bitmap of the first group.
pub open spec fn block_bitmap(img: Image, sb: Superblock) -> u32 {
    group_desc_at(img, sb, 0).block_bitmap
}

/// How many blocks can be given out at all.
pub open spec fn block_limit(sb: Superblock) -> u32 {
    lesser(sb.blocks_per_group, sb.blocks_count)
}

/// Whether a block can be given out.
pub open spec fn is_free(img: Image, sb: Superblock, block: u32) -> bool {
    block < block_limit(sb) && !bit_is_set(bitmap_at(img, sb, block_bitmap(img, sb)), block)
}

/// Whether no address of a block is reserved.
pub open spec fn is_clean(sb: Superblock, reserved: Region, block: u32) -> bool {
    forall|a: int| in_block(sb, block, a) ==> !#[trigger] reserved(a)
}

/// How many places an inode has for block numbers: those in the inode itself up
/// to that of the indirect block, and those in the indirect block.
pub open spec fn slot_count(sb: Superblock) -> int {
    13 + sb.block_size / 4
}

/// The block number in a place of the inode `raw`; 0 for none.
pub open spec fn slot(img: Image, sb: Superblock, raw: Seq<u8>, k: int) -> u32 {
    if k <= 12 {
        seq_u32(raw, 40 + 4 * k)
    } else if seq_u32(raw, 88) == 0 {
        0
    } else {
        u32_at(img, seq_u32(raw, 88) * sb.block_size + 4 * (k - 13))
    }
}

/// The place of the number of block `index` of a file.
pub open spec fn slot_of(index: int) -> int {
    if index < 12 {
        index
    } else {
        index + 1
    }
}

/// Whether an address holds one of the two counts of free blocks.
pub open spec fn is_count(sb: Superblock, a: int) -> bool {
    SB_FREE_BLOCKS <= a < SB_FREE_BLOCKS + 2 || group_desc_addr(sb, 0) + 12 <= a < group_desc_addr(
        sb,
        0,
    ) + 14
}

/// Whether an address lies in an inode.
pub open spec fn in_inode(img: Image, sb: Superblock, ino: u32, a: int) -> bool {
    inode_addr(img, sb, ino) <= a < inode_addr(img, sb, ino) + sb.inode_size
}

/// The address of the field that locates an inode.
pub open spec fn table_field(sb: Superblock, ino: u32) -> int {
    group_desc_addr(sb, inode_group(sb, ino)) + 8
}

/// Whether the structures that writing to a file goes through lie apart from
/// each other and are reserved: the bitmap, the counts, the fields that locate
/// bitmap and inode, and the inode.
pub open spec fn is_laid_out(img: Image, sb: Superblock, ino: u32, reserved: Region) -> bool {
    let bitmap = block_bitmap(img, sb);
    let gda = group_desc_addr(sb, 0);
    let inode = inode_addr(img, sb, ino);
    let size = sb.inode_size as int;
    &&& block_apart(sb, bitmap, SB_FREE_BLOCKS as int, 2)
    &&& block_apart(sb, bitmap, gda, 14)
    &&& block_apart(sb, bitmap, table_field(sb, ino), 4)
    &&& block_apart(sb, bitmap, inode, size)
    &&& apart(inode, size, SB_FREE_BLOCKS as int, 2)
    &&& apart(inode, size, gda, 14)
    &&& apart(inode, size, table_field(sb, ino), 4)
    &&& forall|a: int|
        in_block(sb, bitmap, a) || is_count(sb, a) || gda <= a < gda + 4 || table_field(sb, ino)
            <= a < table_field(sb, ino) + 4 || in_inode(img, sb, ino, a) ==> #[trigger] reserved(a)
}

/// Whether the blocks of the file of the inode `raw` are its own: each number
/// stands in one place only, its block is not free, and no address of it is
/// reserved. No address of a free block is reserved either, and block 0 is not
/// free.
pub open spec fn is_sound(img: Image, sb: Superblock, reserved: Region, raw: Seq<u8>) -> bool {
    &&& forall|k: int|
        0 <= k < slot_count(sb) && #[trigger] slot(img, sb, raw, k) != 0 ==> is_clean(
            sb,
            reserved,
            slot(img, sb, raw, k),
        ) && !is_free(img, sb, slot(img, sb, raw, k))
    &&& forall|k: int, l: int|
        0 <= k < slot_count(sb) && 0 <= l < slot_count(sb) && #[trigger] slot(img, sb, raw, k)
            == #[trigger] slot(img, sb, raw, l) && slot(img, sb, raw, k) != 0 ==> k == l
    &&& forall|b: u32| #[trigger] is_free(img, sb, b) ==> b != 0 && is_clean(sb, reserved, b)
}

/// Whether a block was given out but is not yet in any place of the inode.
pub open spec fn is_loose(
    img: Image,
    sb: Superblock,
    reserved: Region,
    raw: Seq<u8>,
    block: u32,
) -> bool {
    &&& block != 0
    &&& is_clean(sb, reserved, block)
    &&& !is_free(img, sb, block)
    &&& forall|k: int| 0 <= k < slot_count(sb) ==> #[trigger] slot(img, sb, raw, k) != block
}

/// Whether the numbers of a volume are such that writing works: the first
/// group's bits lie in its bitmap block, and inodes hold all fields.
pub open spec fn is_regular(sb: Superblock) -> bool {
    &&& sb.readable()
    &&& sb.blocks_per_group != 0
    &&& block_limit(sb) <= 8 * sb.block_size
    &&& 100 <= sb.inode_size <= 512
}

/// Different blocks have no address in common.
pub proof fn lemma_blocks_disjoint(sb: Superblock, b: u32, c: u32, a: int)
    requires
        b != c,
        in_block(sb, b, a),
    ensures
        !in_block(sb, c, a),
{
    let s = sb.block_size as int;
    if b < c {
        assert(b * s + s <= c * s) by (nonlinear_arith)
            requires
                b + 1 <= c,
                s >= 0,
        ;
    } else {
        assert(c * s + s <= b * s) by (nonlinear_arith)
            requires
                c + 1 <= b,
                s >= 0,
        ;
    }
}

/// A block number is in place where it is looked up.
pub proof fn lemma_slot_of(img: Image, sb: Superblock, raw: Seq<u8>, index: int)
    requires
        sb.wf(),
        0 <= index < 12 + sb.block_size / 4,
    ensures
        block_of(img, sb, inode_in(raw), index) == Ok::<u32, i32>(
            slot(img, sb, raw, slot_of(index)),
        ),
        0 <= slot_of(index) < slot_count(sb),
        slot_of(index) != 12,
{
    assert(inode_in(raw).blocks[12] == seq_u32(raw, 88));
}

/// What does not change while only reserved bytes other than the fields that
/// locate things change.
pub proof fn lemma_reserved_change(
    x: Image,
    y: Image,
    sb: Superblock,
    reserved: Region,
    raw: Seq<u8>,
)
    requires
        sb.wf(),
        is_sound(x, sb, reserved, raw),
        forall|a: int| !reserved(a) ==> #[trigger] x(a) == y(a),
    ensures
        forall|k: int|
            0 <= k < slot_count(sb) ==> #[trigger] slot(y, sb, raw, k) == slot(x, sb, raw, k),
{
    assert forall|k: int| 0 <= k < slot_count(sb) implies #[trigger] slot(y, sb, raw, k) == slot(
        x,
        sb,
        raw,
        k,
    ) by {
        if k > 12 && seq_u32(raw, 88) != 0 {
            let ind = slot(x, sb, raw, 12);
            assert(ind == seq_u32(raw, 88));
            let at = ind * sb.block_size + 4 * (k - 13);
            assert(in_block(sb, ind, at) && in_block(sb, ind, at + 1) && in_block(sb, ind, at + 2)
                && in_block(sb, ind, at + 3));
            assert(!reserved(at) && !reserved(at + 1) && !reserved(at + 2) && !reserved(at + 3));
        }
    }
}

/// What does not change while only bytes of one block that is not reserved and
/// not the indirect block change.
pub proof fn lemma_block_change(
    x: Image,
    y: Image,
    sb: Superblock,
    ino: u32,
    reserved: Region,
    raw: Seq<u8>,
    block: u32,
)
    requires
        sb.wf(),
        is_laid_out(x, sb, ino, reserved),
        is_clean(sb, reserved, block),
        seq_u32(raw, 88) != block || seq_u32(raw, 88) == 0,
        forall|a: int| !in_block(sb, block, a) ==> #[trigger] x(a) == y(a),
    ensures
        is_laid_out(y, sb, ino, reserved),
        block_bitmap(y, sb) == block_bitmap(x, sb),
        inode_addr(y, sb, ino) == inode_addr(x, sb, ino),
        forall|b: u32| #[trigger] is_free(y, sb, b) == is_free(x, sb, b),
        forall|k: int|
            0 <= k < slot_count(sb) ==> #[trigger] slot(y, sb, raw, k) == slot(x, sb, raw, k),
{
    let gda = group_desc_addr(sb, 0);
    assert(forall|a: int| #[trigger] reserved(a) ==> x(a) == y(a));
    assert(reserved(gda) && reserved(gda + 1) && reserved(gda + 2) && reserved(gda + 3));
    assert(block_bitmap(y, sb) == block_bitmap(x, sb));
    let t = table_field(sb, ino);
    assert(reserved(t) && reserved(t + 1) && reserved(t + 2) && reserved(t + 3));
    assert(agree_on(x, y, t, 4));
    lemma_inode_addr_kept(x, y, sb, ino);
    let bm = block_bitmap(x, sb);
    assert(block_bytes(y, sb, bm) =~= block_bytes(x, sb, bm)) by {
        assert forall|i: int| 0 <= i < sb.block_size implies #[trigger] y(
            bm * sb.block_size + i,
        ) == x(bm * sb.block_size + i) by {
            assert(in_block(sb, bm, bm * sb.block_size + i));
            assert(reserved(bm * sb.block_size + i));
        }
    }
    assert(bitmap_at(y, sb, bm) == bitmap_at(x, sb, bm));
    assert forall|k: int| 0 <= k < slot_count(sb) implies #[trigger] slot(y, sb, raw, k) == slot(
        x,
        sb,
        raw,
        k,
    ) by {
        if k > 12 && seq_u32(raw, 88) != 0 {
            let ind = seq_u32(raw, 88);
            let at = ind * sb.block_size + 4 * (k - 13);
            lemma_blocks_disjoint(sb, ind, block, at);
            lemma_blocks_disjoint(sb, ind, block, at + 1);
            lemma_blocks_disjoint(sb, ind, block, at + 2);
            lemma_blocks_disjoint(sb, ind, block, at + 3);
        }
    }
    assert forall|a: int|
        in_block(sb, bm, a) || is_count(sb, a) || gda <= a < gda + 4 || t <= a < t + 4 || in_inode(
            y,
            sb,
            ino,
            a,
        ) implies #[trigger] reserved(a) by {
        if in_inode(y, sb, ino, a) {
            assert(in_inode(x, sb, ino, a));
        }
    }
}

/// A block that is given out was free and is free no longer, and all other
/// blocks are free or not as before. So no block is given out twice.
pub proof fn law_given_out_once(img: Image, sb: Superblock, other: u32)
    requires
        sb.wf(),
        sb.block_size != 0,
        sb.blocks_per_group != 0,
        block_limit(sb) <= 8 * sb.block_size,
        block_bitmap_apart(img, sb),
        block_allocated(img, sb).1 is Ok,
    ensures
        ({
            let (after, r) = block_allocated(img, sb);
            let block = r->Ok_0;
            &&& is_free(img, sb, block)
            &&& is_free(after, sb, other) == (is_free(img, sb, other) && other != block)
            &&& block_allocated(after, sb).1 != r
        }),
{
    let (after, r) = block_allocated(img, sb);
    let block = r->Ok_0;
    let bm = block_bitmap(img, sb);
    let max = block_limit(sb);
    let bs = sb.block_size as int;
    let gda = group_desc_addr(sb, 0);
    let old_bits = bitmap_at(img, sb, bm);
    let new_bits = with_bit_set(old_bits, block);
    let ia = block_stored(img, sb, bm, new_bits);
    lemma_first_clear(old_bits, 0, max);
    lemma_bitmap_stored(img, sb, bm, new_bits);
    assert(forall|a: int| !in_block(sb, bm, a) ==> #[trigger] ia(a) == img(a));
    assert(forall|a: int| !is_count(sb, a) ==> #[trigger] after(a) == ia(a));
    assert(agree_on(img, after, gda, 4));
    assert(block_bitmap(after, sb) == bm);
    assert(block_bytes(after, sb, bm) =~= block_bytes(ia, sb, bm)) by {
        assert forall|i: int| 0 <= i < bs implies #[trigger] after(bm * bs + i) == ia(
            bm * bs + i,
        ) by {
            assert(in_block(sb, bm, bm * bs + i));
        }
    }
    let bits = bitmap_at(after, sb, bm);
    assert forall|c: u32| #[trigger] is_free(after, sb, c) == (is_free(img, sb, c) && c
        != block) by {
        if c < max {
            law_bits(old_bits, block, c);
            assert(bits[c as int / 8] == new_bits[c as int / 8]);
        }
    }
    lemma_first_clear(bits, 0, max);
    if block_allocated(after, sb).1 == r {
        assert(is_free(after, sb, block));
    }
}

/// The inode bitmap of the first group.
pub open spec fn inode_bitmap(img: Image, sb: Superblock) -> u32 {
    group_desc_at(img, sb, 0).inode_bitmap
}

/// Whether an inode number can be given out.
pub open spec fn is_number_free(img: Image, sb: Superblock, ino: u32) -> bool {
    &&& first_inode_bit(sb) < ino <= lesser(sb.inodes_per_group, sb.inodes_count)
    &&& !bit_is_set(bitmap_at(img, sb, inode_bitmap(img, sb)), (ino - 1) as u32)
}

/// An inode number that is given out was free and is free no longer, and all
/// other numbers are free or not as before. So no number is given out twice.
pub proof fn law_number_given_out_once(img: Image, sb: Superblock, other: u32)
    requires
        sb.wf(),
        sb.block_size != 0,
        sb.inodes_per_group != 0,
        lesser(sb.inodes_per_group, sb.inodes_count) <= 8 * sb.block_size,
        inode_bitmap_apart(img, sb),
        inode_allocated(img, sb).1 is Ok,
    ensures
        ({
            let (after, r) = inode_allocated(img, sb);
            let ino = r->Ok_0;
            &&& is_number_free(img, sb, ino)
            &&& is_number_free(after, sb, other) == (is_number_free(img, sb, other) && other != ino)
            &&& inode_allocated(after, sb).1 != r
        }),
{
    let (after, r) = inode_allocated(img, sb);
    let ino = r->Ok_0;
    let bit = (ino - 1) as u32;
    let bm = inode_bitmap(img, sb);
    let start = first_inode_bit(sb);
    let max = lesser(sb.inodes_per_group, sb.inodes_count);
    let bs = sb.block_size as int;
    let gda = group_desc_addr(sb, 0);
    let old_bits = bitmap_at(img, sb, bm);
    lemma_first_clear(old_bits, start, max);
    let new_bits = with_bit_set(old_bits, bit);
    let ia = block_stored(img, sb, bm, new_bits);
    lemma_bitmap_stored(img, sb, bm, new_bits);
    assert(forall|a: int| !in_block(sb, bm, a) ==> #[trigger] ia(a) == img(a));
    assert(forall|a: int|
        !(SB_FREE_INODES <= a < SB_FREE_INODES + 2) && !(gda + 14 <= a < gda + 16)
            ==> #[trigger] after(a) == ia(a));
    assert(agree_on(img, after, gda + 4, 4));
    assert(inode_bitmap(after, sb) == bm);
    assert(block_bytes(after, sb, bm) =~= block_bytes(ia, sb, bm)) by {
        assert forall|i: int| 0 <= i < bs implies #[trigger] after(bm * bs + i) == ia(
            bm * bs + i,
        ) by {
            assert(in_block(sb, bm, bm * bs + i));
        }
    }
    let bits = bitmap_at(after, sb, bm);
    assert forall|c: u32| #[trigger] is_number_free(after, sb, c) == (is_number_free(img, sb, c)
        && c != ino) by {
        if start < c <= max {
            let b = (c - 1) as u32;
            law_bits(old_bits, bit, b);
            assert(bits[b as int / 8] == new_bits[b as int / 8]);
        }
    }
    lemma_first_clear(bits, start, max);
    if inode_allocated(after, sb).1 == r {
        assert(is_number_free(after, sb, ino));
    }
}

/// Whether a block can be given out or not, nothing but the bitmap and the counts
/// changes.
pub proof fn lemma_allocation_area(img: Image, sb: Superblock, ino: u32, reserved: Region)
    requires
        is_regular(sb),
        is_laid_out(img, sb, ino, reserved),
    ensures
        ({
            let img1 = block_allocated(img, sb).0;
            &&& inode_addr(img1, sb, ino) == inode_addr(img, sb, ino)
            &&& forall|a: int|
                !in_block(sb, block_bitmap(img, sb), a) && !is_count(sb, a) ==> #[trigger] img1(a)
                    == img(a)
        }),
{
    let img1 = block_allocated(img, sb).0;
    let bm = block_bitmap(img, sb);
    let bits = bitmap_at(img, sb, bm);
    let ia = bit_allocated(img, sb, bm, 0, block_limit(sb)).0;
    lemma_first_clear(bits, 0, block_limit(sb));
    if let Some(bit) = first_clear(bits, 0, block_limit(sb)) {
        lemma_bitmap_stored(img, sb, bm, with_bit_set(bits, bit));
    }
    assert(forall|a: int| !in_block(sb, bm, a) ==> #[trigger] ia(a) == img(a));
    assert forall|a: int| !in_block(sb, bm, a) && !is_count(sb, a) implies #[trigger] img1(a)
        == img(a) by {
        assert(ia(a) == img(a));
    }
    assert(agree_on(img, img1, table_field(sb, ino), 4));
    lemma_inode_addr_kept(img, img1, sb, ino);
}

/// What giving out a block does: it was free and no longer is, all other blocks
/// are free or not as before, and nothing but the bitmap and the counts has
/// changed.
pub proof fn lemma_allocated(
    img: Image,
    sb: Superblock,
    ino: u32,
    reserved: Region,
    raw: Seq<u8>,
)
    requires
        is_regular(sb),
        is_laid_out(img, sb, ino, reserved),
        is_sound(img, sb, reserved, raw),
        block_allocated(img, sb).1 is Ok,
    ensures
        ({
            let (img1, r) = block_allocated(img, sb);
            let b = r->Ok_0;
            &&& is_free(img, sb, b)
            &&& is_laid_out(img1, sb, ino, reserved)
            &&& is_sound(img1, sb, reserved, raw)
            &&& is_loose(img1, sb, reserved, raw, b)
            &&& block_bitmap(img1, sb) == block_bitmap(img, sb)
            &&& inode_addr(img1, sb, ino) == inode_addr(img, sb, ino)
            &&& forall|a: int|
                !in_block(sb, block_bitmap(img, sb), a) && !is_count(sb, a) ==> #[trigger] img1(a)
                    == img(a)
            &&& forall|c: u32|
                #[trigger] is_free(img1, sb, c) == (is_free(img, sb, c) && c != b)
            &&& forall|k: int|
                0 <= k < slot_count(sb) ==> #[trigger] slot(img1, sb, raw, k) == slot(
                    img,
                    sb,
                    raw,
                    k,
                )
        }),
{
    let (img1, r) = block_allocated(img, sb);
    let b = r->Ok_0;
    let bm = block_bitmap(img, sb);
    let max = block_limit(sb);
    let old_bits = bitmap_at(img, sb, bm);
    let bs = sb.block_size as int;
    let gda = group_desc_addr(sb, 0);
    lemma_first_clear(old_bits, 0, max);
    let new_bits = with_bit_set(old_bits, b);
    let ia = block_stored(img, sb, bm, new_bits);
    lemma_bitmap_stored(img, sb, bm, new_bits);
    assert(forall|a: int| !in_block(sb, bm, a) ==> #[trigger] ia(a) == img(a));
    assert(forall|a: int| !is_count(sb, a) ==> #[trigger] img1(a) == ia(a));
    assert forall|a: int| !reserved(a) implies #[trigger] img(a) == img1(a) by {
        assert(!in_block(sb, bm, a) && !is_count(sb, a));
    }
    lemma_reserved_change(img, img1, sb, reserved, raw);
    assert(agree_on(img, img1, gda, 4));
    assert(block_bitmap(img1, sb) == bm);
    let t = table_field(sb, ino);
    assert(agree_on(img, img1, t, 4));
    lemma_inode_addr_kept(img, img1, sb, ino);
    assert(block_bytes(img1, sb, bm) =~= block_bytes(ia, sb, bm)) by {
        assert forall|i: int| 0 <= i < bs implies #[trigger] img1(bm * bs + i) == ia(bm * bs + i) by {
            assert(in_block(sb, bm, bm * bs + i));
        }
    }
    let bits = bitmap_at(img1, sb, bm);
    assert(bits == bitmap_at(ia, sb, bm));
    assert forall|c: u32| #[trigger] is_free(img1, sb, c) == (is_free(img, sb, c) && c != b) by {
        if c < max {
            law_bits(old_bits, b, c);
            assert(bits[c as int / 8] == new_bits[c as int / 8]);
        }
    }
    assert forall|a: int|
        in_block(sb, bm, a) || is_count(sb, a) || gda <= a < gda + 4 || t <= a < t + 4 || in_inode(
            img1,
            sb,
            ino,
            a,
        ) implies #[trigger] reserved(a) by {
        if in_inode(img1, sb, ino, a) {
            assert(in_inode(img, sb, ino, a));
        }
    }
    assert(is_free(img, sb, b));
    assert forall|k: int| 0 <= k < slot_count(sb) && #[trigger] slot(img1, sb, raw, k)
        != 0 implies is_clean(sb, reserved, slot(img1, sb, raw, k)) && !is_free(
        img1,
        sb,
        slot(img1, sb, raw, k),
    ) by {
        assert(slot(img, sb, raw, k) != 0);
    }
    assert forall|k: int, l: int|
        0 <= k < slot_count(sb) && 0 <= l < slot_count(sb) && #[trigger] slot(img1, sb, raw, k)
            == #[trigger] slot(img1, sb, raw, l) && slot(img1, sb, raw, k) != 0 implies k == l by {
        assert(slot(img, sb, raw, k) == slot(img, sb, raw, l));
    }
    assert forall|k: int| 0 <= k < slot_count(sb) implies #[trigger] slot(img1, sb, raw, k) != b by {
        assert(slot(img, sb, raw, k) == slot(img1, sb, raw, k));
    }
}

/// Filling a loose block leaves it loose, and the file sound.
pub proof fn lemma_loose_filled(
    img: Image,
    sb: Superblock,
    ino: u32,
    reserved: Region,
    raw: Seq<u8>,
    block: u32,
    data: Seq<u8>,
)
    requires
        is_regular(sb),
        is_laid_out(img, sb, ino, reserved),
        is_sound(img, sb, reserved, raw),
        is_loose(img, sb, reserved, raw, block),
        data.len() >= sb.block_size,
    ensures
        ({
            let img1 = block_stored(img, sb, block, data);
            &&& is_laid_out(img1, sb, ino, reserved)
            &&& is_sound(img1, sb, reserved, raw)
            &&& is_loose(img1, sb, reserved, raw, block)
            &&& block_bitmap(img1, sb) == block_bitmap(img, sb)
            &&& inode_addr(img1, sb, ino) == inode_addr(img, sb, ino)
            &&& forall|a: int| !in_block(sb, block, a) ==> #[trigger] img1(a) == img(a)
            &&& forall|c: u32| #[trigger] is_free(img1, sb, c) == is_free(img, sb, c)
            &&& forall|k: int|
                0 <= k < slot_count(sb) ==> #[trigger] slot(img1, sb, raw, k) == slot(
                    img,
                    sb,
                    raw,
                    k,
                )
        }),
{
    let img1 = block_stored(img, sb, block, data);
    assert(forall|a: int| !in_block(sb, block, a) ==> #[trigger] img1(a) == img(a));
    assert(slot(img, sb, raw, 12) == seq_u32(raw, 88));
    lemma_block_change(img, img1, sb, ino, reserved, raw, block);
    lemma_sound_kept(img, img1, sb, reserved, raw);
    assert forall|k: int| 0 <= k < slot_count(sb) implies #[trigger] slot(img1, sb, raw, k)
        != block by {
        assert(slot(img, sb, raw, k) == slot(img1, sb, raw, k));
    }
}

/// A file stays sound while its block numbers and what is free stay the same.
pub proof fn lemma_sound_kept(
    x: Image,
    y: Image,
    sb: Superblock,
    reserved: Region,
    raw: Seq<u8>,
)
    requires
        is_sound(x, sb, reserved, raw),
        forall|b: u32| #[trigger] is_free(y, sb, b) == is_free(x, sb, b),
        forall|k: int|
            0 <= k < slot_count(sb) ==> #[trigger] slot(y, sb, raw, k) == slot(x, sb, raw, k),
    ensures
        is_sound(y, sb, reserved, raw),
{
    assert forall|k: int| 0 <= k < slot_count(sb) && #[trigger] slot(y, sb, raw, k)
        != 0 implies is_clean(sb, reserved, slot(y, sb, raw, k)) && !is_free(
        y,
        sb,
        slot(y, sb, raw, k),
    ) by {
        assert(slot(x, sb, raw, k) != 0);
    }
    assert forall|k: int, l: int|
        0 <= k < slot_count(sb) && 0 <= l < slot_count(sb) && #[trigger] slot(y, sb, raw, k)
            == #[trigger] slot(y, sb, raw, l) && slot(y, sb, raw, k) != 0 implies k == l by {
        assert(slot(x, sb, raw, k) == slot(x, sb, raw, l));
    }
}

/// A file stays sound when a loose block is put in an empty place.
pub proof fn lemma_sound_extended(
    x: Image,
    xr: Seq<u8>,
    y: Image,
    yr: Seq<u8>,
    sb: Superblock,
    reserved: Region,
    place: int,
    block: u32,
)
    requires
        is_sound(x, sb, reserved, xr),
        is_loose(x, sb, reserved, xr, block),
        0 <= place < slot_count(sb),
        slot(y, sb, yr, place) == block,
        forall|b: u32| #[trigger] is_free(y, sb, b) == is_free(x, sb, b),
        forall|k: int|
            0 <= k < slot_count(sb) && k != place ==> #[trigger] slot(y, sb, yr, k) == slot(
                x,
                sb,
                xr,
                k,
            ),
    ensures
        is_sound(y, sb, reserved, yr),
{
    assert forall|k: int| 0 <= k < slot_count(sb) && #[trigger] slot(y, sb, yr, k)
        != 0 implies is_clean(sb, reserved, slot(y, sb, yr, k)) && !is_free(
        y,
        sb,
        slot(y, sb, yr, k),
    ) by {
        if k != place {
            assert(slot(x, sb, xr, k) != 0);
        }
    }
    assert forall|k: int, l: int|
        0 <= k < slot_count(sb) && 0 <= l < slot_count(sb) && #[trigger] slot(y, sb, yr, k)
            == #[trigger] slot(y, sb, yr, l) && slot(y, sb, yr, k) != 0 implies k == l by {
        if k != place && l != place {
            assert(slot(x, sb, xr, k) == slot(x, sb, xr, l));
        } else if k != place {
            assert(slot(x, sb, xr, k) != block);
        } else if l != place {
            assert(slot(x, sb, xr, l) != block);
        }
    }
}

} // verus!
