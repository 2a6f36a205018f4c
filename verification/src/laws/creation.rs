//! What was created is there.

use vstd::prelude::*;
use crate::abi::{EEXIST, ENOENT};
use crate::bitmap::{
    bit_allocated, bitmap_at, block_allocated, first_inode_bit, inode_allocated,
    lemma_clear_in_buffer, numbers_bounded, SB_FREE_INODES,
};
use crate::codec::{
    law_put_then_get_u32, le16_bytes, lemma_le16_round_trip, put_u16, put_u32, seq_u16, seq_u32,
    zeros,
};
use crate::create::{
    created, new_file_type, new_inode, new_links, new_mode, node_entered, node_made,
    wants_directory,
};
use crate::dir::{directory_from, dot, dot_dot, lookup, records_in, resolved, search, DirRecord};
use crate::disk::{Image, Region};
use crate::entry::{directory_block, raw_inode};
use crate::laws::directory::{
    is_sound_directory, lemma_entry_added, lemma_entry_block_given, lemma_gained_found,
    lemma_raw_inode_kept,
};
use crate::laws::entries::{
    inode_named, lemma_directory_block, lemma_find_name, lemma_found_nonzero, lemma_listed, lines,
};
use crate::laws::inode::{
    has_same_slots, is_sound_file, lemma_raw_inode, lemma_sound_after_store, lemma_sound_same_slots,
    spared,
};
use crate::laws::ownership::{
    block_bitmap, in_block, in_inode, inode_bitmap, is_clean, is_count, is_free, is_laid_out,
    is_loose, is_regular, is_sound, lemma_blocks_disjoint, lemma_reserved_change, lemma_slot_of,
    slot, slot_count, table_field,
};
use crate::laws::steady::{
    agree_in, covers, is_steady_block, is_steady_content, is_steady_inode, is_steady_path,
    law_path_leads_through_parent, lemma_directory_kept, lemma_inode_kept, lemma_walk_kept,
};
use crate::laws::storage::{agree_on, apart, law_inode_reads_back, lemma_inode_addr_kept};
use crate::layout::{
    block_bytes, block_of, block_span, block_stored, group_desc_addr, inode_addr,
    inode_at, inode_in, inode_numbered, inode_stored, lesser, mode_is_dir, mode_is_file, InodeView,
    Superblock, MAX_BLOCK_SIZE, MAX_INODE_SIZE, ROOT_INO,
};
use crate::ops::{directory_listed, path_listed, path_read};
use crate::path::{components, split};
use crate::state::u16_at;

verus! {

/// Whether an address holds one of the two counts of free inodes.
pub open spec fn is_inode_count(sb: Superblock, a: int) -> bool {
    SB_FREE_INODES <= a < SB_FREE_INODES + 2 || group_desc_addr(sb, 0) + 14 <= a < group_desc_addr(
        sb,
        0,
    ) + 16
}

/// Whether giving out an inode number changes an address.
pub open spec fn is_in_numbering(img: Image, sb: Superblock, a: int) -> bool {
    in_block(sb, inode_bitmap(img, sb), a) || is_inode_count(sb, a)
}

/// Whether the blocks of a file are found by what an address holds: the block
/// bitmap and the field that locates it, and the inode and the field that
/// locates it.
pub open spec fn is_anchor(img: Image, sb: Superblock, ino: u32, a: int) -> bool {
    let gda = group_desc_addr(sb, 0);
    let t = table_field(sb, ino);
    ||| in_block(sb, block_bitmap(img, sb), a)
    ||| gda <= a < gda + 4
    ||| t <= a < t + 4
    ||| in_inode(img, sb, ino, a)
}

/// Whether there is a place for the inode `ino`, to be entered into the
/// directory `dir`: the inode bitmap, its counts and the place of the inode are
/// reserved, and they lie apart from each other and from what the blocks of the
/// directory are found by.
pub open spec fn is_vacant(img: Image, sb: Superblock, dir: u32, ino: u32, reserved: Region) -> bool {
    &&& ino >= 1
    &&& is_laid_out(img, sb, ino, reserved)
    &&& forall|a: int|
        #[trigger] is_in_numbering(img, sb, a) ==> reserved(a) && !is_anchor(img, sb, dir, a)
            && !is_anchor(img, sb, ino, a)
    &&& forall|a: int| #[trigger] in_inode(img, sb, ino, a) ==> !is_anchor(img, sb, dir, a)
    &&& apart(inode_addr(img, sb, dir), sb.inode_size as int, table_field(sb, ino), 4)
}

/// Giving out an inode number changes the inode bitmap and the counts only.
pub proof fn lemma_numbering(img: Image, sb: Superblock)
    requires
        sb.wf(),
        numbers_bounded(img, sb),
    ensures
        forall|a: int|
            !is_in_numbering(img, sb, a) ==> #[trigger] inode_allocated(img, sb).0(a) == img(a),
{
    let after = inode_allocated(img, sb).0;
    let bitmap = inode_bitmap(img, sb);
    let max = lesser(sb.inodes_per_group, sb.inodes_count);
    let img1 = bit_allocated(img, sb, bitmap, first_inode_bit(sb), max).0;
    if sb.inodes_count != 0 {
        lemma_clear_in_buffer(bitmap_at(img, sb, bitmap), first_inode_bit(sb), max);
    }
    assert forall|a: int| !in_block(sb, bitmap, a) implies #[trigger] img1(a) == img(a) by {}
    assert forall|a: int| !is_in_numbering(img, sb, a) implies #[trigger] after(a) == img(a) by {
        assert(img1(a) == img(a));
    }
}

/// A directory is sound, and holds what it held, after a change that spares what
/// is not reserved and what its blocks are found by.
proof fn lemma_sound_directory_kept(
    x: Image,
    y: Image,
    sb: Superblock,
    ino: u32,
    reserved: Region,
)
    requires
        is_sound_directory(x, sb, ino, reserved),
        forall|a: int| !reserved(a) ==> #[trigger] y(a) == x(a),
        forall|a: int| is_anchor(x, sb, ino, a) ==> #[trigger] y(a) == x(a),
    ensures
        ({
            let inode = inode_at(x, inode_addr(x, sb, ino));
            &&& is_sound_directory(y, sb, ino, reserved)
            &&& block_bitmap(y, sb) == block_bitmap(x, sb)
            &&& inode_addr(y, sb, ino) == inode_addr(x, sb, ino)
            &&& inode_at(y, inode_addr(y, sb, ino)) == inode
            &&& raw_inode(y, sb, ino) == raw_inode(x, sb, ino)
            &&& directory_from(y, sb, inode, 0) == directory_from(x, sb, inode, 0)
            &&& forall|b: u32| #[trigger] is_free(y, sb, b) == is_free(x, sb, b)
        }),
{
    let inode = inode_at(x, inode_addr(x, sb, ino));
    let raw = raw_inode(x, sb, ino);
    let gda = group_desc_addr(sb, 0);
    let t = table_field(sb, ino);
    let bm = block_bitmap(x, sb);
    let bs = sb.block_size as int;
    let same: Region = |a: int| x(a) == y(a);
    assert(agree_in(x, y, same));
    assert(agree_on(x, y, gda, 4));
    assert(agree_on(x, y, t, 4));
    assert(block_bitmap(y, sb) == bm);
    assert(is_steady_inode(x, sb, same, ino)) by {
        let at = inode_addr(x, sb, ino);
        assert forall|a: int| at <= a < at + 100 implies #[trigger] same(a) by {
            assert(in_inode(x, sb, ino, a));
            assert(y(a) == x(a));
        }
        assert forall|a: int| t <= a < t + 4 implies #[trigger] same(a) by {
            assert(y(a) == x(a));
        }
    }
    lemma_inode_kept(x, y, sb, same, ino);
    lemma_raw_inode_kept(x, y, sb, ino);
    assert(block_bytes(y, sb, bm) =~= block_bytes(x, sb, bm)) by {
        assert forall|i: int| 0 <= i < bs implies #[trigger] y(bm * bs + i) == x(bm * bs + i) by {
            assert(in_block(sb, bm, bm * bs + i));
        }
    }
    assert(forall|b: u32| #[trigger] is_free(y, sb, b) == is_free(x, sb, b));
    assert forall|a: int| !reserved(a) implies #[trigger] x(a) == y(a) by {}
    lemma_reserved_change(x, y, sb, reserved, raw);
    lemma_sound_same_slots(x, raw, y, raw, sb, reserved);
    assert forall|a: int|
        in_block(sb, bm, a) || is_count(sb, a) || gda <= a < gda + 4 || t <= a < t + 4 || in_inode(
            y,
            sb,
            ino,
            a,
        ) implies #[trigger] reserved(a) by {
        if in_inode(y, sb, ino, a) {
            assert(in_inode(x, sb, ino, a));
        }
    }
    lemma_raw_inode(x, sb, ino);
    lemma_content_unreserved(x, sb, reserved, raw, same);
    lemma_directory_kept(x, y, sb, same, inode, 0);
}

/// The blocks of a file lie in a region that holds all that is not reserved, if
/// none of them is reserved.
pub proof fn lemma_content_unreserved(
    img: Image,
    sb: Superblock,
    reserved: Region,
    raw: Seq<u8>,
    region: Region,
)
    requires
        sb.readable(),
        forall|k: int|
            0 <= k < slot_count(sb) && #[trigger] slot(img, sb, raw, k) != 0 ==> is_clean(
                sb,
                reserved,
                slot(img, sb, raw, k),
            ),
        forall|a: int| !reserved(a) ==> #[trigger] region(a),
    ensures
        is_steady_content(img, sb, region, inode_in(raw)),
{
    assert forall|k: int| 0 <= k < slot_count(sb) && #[trigger] slot(img, sb, raw, k)
        != 0 implies covers(
        region,
        slot(img, sb, raw, k) * sb.block_size,
        sb.block_size as int,
    ) by {
        let s = slot(img, sb, raw, k);
        let at = s * sb.block_size;
        assert forall|a: int| at <= a < at + sb.block_size implies #[trigger] region(a) by {
            assert(in_block(sb, s, a));
            assert(!reserved(a));
        }
    }
    lemma_content_covered(img, sb, raw, region);
}

/// The blocks of a file lie in a region that holds each block that its inode
/// has a number of.
pub proof fn lemma_content_covered(img: Image, sb: Superblock, raw: Seq<u8>, region: Region)
    requires
        sb.readable(),
        forall|k: int|
            0 <= k < slot_count(sb) && #[trigger] slot(img, sb, raw, k) != 0 ==> covers(
                region,
                slot(img, sb, raw, k) * sb.block_size,
                sb.block_size as int,
            ),
    ensures
        is_steady_content(img, sb, region, inode_in(raw)),
{
    let inode = inode_in(raw);
    assert(slot(img, sb, raw, 12) == inode.blocks[12]);
    assert forall|i: int| 0 <= i < block_span(sb, inode.size) implies is_steady_block(
        region,
        sb,
        #[trigger] block_of(img, sb, inode, i),
    ) by {
        if i < 12 + sb.block_size / 4 {
            lemma_slot_of(img, sb, raw, i);
        }
    }
}

/// A region with a block, where there is one.
pub open spec fn with_block(sb: Superblock, reserved: Region, block: u32) -> Region {
    |a: int| reserved(a) || block != 0 && in_block(sb, block, a)
}

/// The addresses that creating something in a directory leaves alone.
pub open spec fn undisturbed(
    img: Image,
    sb: Superblock,
    dir: u32,
    ino: u32,
    reserved: Region,
) -> Region {
    |a: int|
        spared(img, sb, dir, reserved)(a) && !is_in_numbering(img, sb, a) && !in_inode(
            img,
            sb,
            ino,
            a,
        )
}

/// What a new inode says.
pub proof fn lemma_new_inode(img: Image, sb: Superblock, mode: u32, block: u32)
    ensures
        ({
            let raw = new_inode(sb, mode, block);
            &&& raw.len() == 512
            &&& inode_in(raw).mode == new_mode(mode)
            &&& inode_in(raw).size == if wants_directory(mode) {
                sb.block_size
            } else {
                0
            }
            &&& inode_in(raw).blocks[0] == slot(img, sb, raw, 0)
            &&& slot(img, sb, raw, 0) == if wants_directory(mode) {
                block
            } else {
                0
            }
            &&& forall|k: int| 1 <= k < slot_count(sb) ==> #[trigger] slot(img, sb, raw, k) == 0
        }),
{
    let raw = new_inode(sb, mode, block);
    let r0 = put_u16(zeros(MAX_INODE_SIZE as nat), 0, new_mode(mode));
    lemma_le16_round_trip(new_mode(mode), 0, 0);
    assert(raw[0] == r0[0] && raw[1] == r0[1]);
    assert(seq_u16(raw, 0) == new_mode(mode));
    if wants_directory(mode) {
        let r1 = put_u16(r0, 26, 2);
        let r2 = put_u32(r1, 4, sb.block_size);
        let r3 = put_u32(r2, 28, sb.block_size / 512);
        law_put_then_get_u32(r1, 4, sb.block_size, 4);
        law_put_then_get_u32(r2, 28, sb.block_size / 512, 4);
        law_put_then_get_u32(r3, 40, block, 4);
        law_put_then_get_u32(r3, 40, block, 40);
    } else {
        assert(raw[4] == 0 && raw[5] == 0 && raw[6] == 0 && raw[7] == 0);
        assert(raw[40] == 0 && raw[41] == 0 && raw[42] == 0 && raw[43] == 0);
    }
    assert(forall|i: int| 44 <= i < 512 ==> raw[i] == 0);
    assert(seq_u32(raw, 88) == 0);
    assert forall|k: int| 1 <= k < slot_count(sb) implies #[trigger] slot(img, sb, raw, k) == 0 by {
        if k <= 12 {
            let j = 40 + 4 * k;
            assert(raw[j] == 0 && raw[j + 1] == 0 && raw[j + 2] == 0 && raw[j + 3] == 0);
        }
    }
}

/// A new inode is that of a sound file, if its block is its own.
proof fn lemma_new_inode_sound(
    img: Image,
    sb: Superblock,
    reserved: Region,
    mode: u32,
    block: u32,
)
    requires
        wants_directory(mode) ==> block != 0 && is_clean(sb, reserved, block) && !is_free(
            img,
            sb,
            block,
        ),
        forall|b: u32| #[trigger] is_free(img, sb, b) ==> b != 0 && is_clean(sb, reserved, b),
    ensures
        is_sound(img, sb, reserved, new_inode(sb, mode, block)),
{
    let raw = new_inode(sb, mode, block);
    lemma_new_inode(img, sb, mode, block);
    assert forall|k: int| 0 <= k < slot_count(sb) && #[trigger] slot(img, sb, raw, k)
        != 0 implies is_clean(sb, reserved, slot(img, sb, raw, k)) && !is_free(
        img,
        sb,
        slot(img, sb, raw, k),
    ) by {
        assert(k == 0);
    }
}

/// The structures of a file are laid out as long as they stay where they are.
proof fn lemma_laid_out_kept(x: Image, y: Image, sb: Superblock, ino: u32, reserved: Region)
    requires
        is_laid_out(x, sb, ino, reserved),
        block_bitmap(y, sb) == block_bitmap(x, sb),
        inode_addr(y, sb, ino) == inode_addr(x, sb, ino),
    ensures
        is_laid_out(y, sb, ino, reserved),
{
    let gda = group_desc_addr(sb, 0);
    let t = table_field(sb, ino);
    assert forall|a: int|
        in_block(sb, block_bitmap(y, sb), a) || is_count(sb, a) || gda <= a < gda + 4 || t <= a < t
            + 4 || in_inode(y, sb, ino, a) implies #[trigger] reserved(a) by {
        if in_inode(y, sb, ino, a) {
            assert(in_inode(x, sb, ino, a));
        }
    }
}

/// What there is once an inode number, and the block of a directory, were given
/// out.
pub open spec fn is_prepared(
    img: Image,
    ready: Image,
    sb: Superblock,
    dir: u32,
    ino: u32,
    reserved: Region,
    block: u32,
) -> bool {
    let inode = inode_at(img, inode_addr(img, sb, dir));
    &&& is_sound_directory(ready, sb, dir, with_block(sb, reserved, block))
    &&& inode_addr(ready, sb, dir) == inode_addr(img, sb, dir)
    &&& inode_at(ready, inode_addr(ready, sb, dir)) == inode
    &&& directory_from(ready, sb, inode, 0) == directory_from(img, sb, inode, 0)
    &&& block_bitmap(ready, sb) == block_bitmap(img, sb)
    &&& is_laid_out(ready, sb, ino, reserved)
    &&& inode_addr(ready, sb, ino) == inode_addr(img, sb, ino)
    &&& block != 0 ==> is_clean(sb, reserved, block) && !is_free(ready, sb, block)
    &&& forall|b: u32| #[trigger] is_free(ready, sb, b) ==> b != 0 && is_clean(sb, reserved, b)
    &&& agree_in(img, ready, undisturbed(img, sb, dir, ino, reserved))
}

/// Giving out an inode number.
pub proof fn lemma_numbered(img: Image, sb: Superblock, dir: u32, ino: u32, reserved: Region)
    requires
        is_sound_directory(img, sb, dir, reserved),
        is_vacant(img, sb, dir, ino, reserved),
        numbers_bounded(img, sb),
    ensures
        is_prepared(img, inode_allocated(img, sb).0, sb, dir, ino, reserved, 0),
        is_sound_directory(inode_allocated(img, sb).0, sb, dir, reserved),
        forall|b: u32|
            #[trigger] is_free(inode_allocated(img, sb).0, sb, b) == is_free(img, sb, b),
{
    let img1 = inode_allocated(img, sb).0;
    lemma_numbering(img, sb);
    assert forall|a: int| !reserved(a) implies #[trigger] img1(a) == img(a) by {
        assert(!is_in_numbering(img, sb, a));
    }
    assert forall|a: int| is_anchor(img, sb, dir, a) implies #[trigger] img1(a) == img(a) by {
        assert(!is_in_numbering(img, sb, a));
    }
    lemma_sound_directory_kept(img, img1, sb, dir, reserved);
    let t = table_field(sb, ino);
    assert forall|a: int| t <= a < t + 4 implies #[trigger] img(a) == img1(a) by {
        assert(is_anchor(img, sb, ino, a));
        assert(!is_in_numbering(img, sb, a));
    }
    assert(agree_on(img, img1, t, 4));
    lemma_inode_addr_kept(img, img1, sb, ino);
    lemma_laid_out_kept(img, img1, sb, ino, reserved);
    let region = undisturbed(img, sb, dir, ino, reserved);
    assert forall|a: int| #[trigger] region(a) implies img(a) == img1(a) by {
        assert(!is_in_numbering(img, sb, a));
        assert(img1(a) == img(a));
    }
    assert(with_block(sb, reserved, 0) =~= reserved);
}

/// A sound file is sound with a block reserved that is neither its own nor free.
proof fn lemma_block_reserved(
    img: Image,
    sb: Superblock,
    ino: u32,
    reserved: Region,
    raw: Seq<u8>,
    block: u32,
)
    requires
        is_laid_out(img, sb, ino, reserved),
        is_sound(img, sb, reserved, raw),
        is_loose(img, sb, reserved, raw, block),
    ensures
        is_laid_out(img, sb, ino, with_block(sb, reserved, block)),
        is_sound(img, sb, with_block(sb, reserved, block), raw),
{
    let more = with_block(sb, reserved, block);
    let gda = group_desc_addr(sb, 0);
    let t = table_field(sb, ino);
    assert forall|a: int|
        in_block(sb, block_bitmap(img, sb), a) || is_count(sb, a) || gda <= a < gda + 4 || t <= a
            < t + 4 || in_inode(img, sb, ino, a) implies #[trigger] more(a) by {
        assert(reserved(a));
    }
    assert forall|b: u32| b != block && #[trigger] is_clean(sb, reserved, b) implies is_clean(
        sb,
        more,
        b,
    ) by {
        assert forall|a: int| in_block(sb, b, a) implies !#[trigger] more(a) by {
            assert(!reserved(a));
            lemma_blocks_disjoint(sb, b, block, a);
        }
    }
    assert forall|k: int| 0 <= k < slot_count(sb) && #[trigger] slot(img, sb, raw, k)
        != 0 implies is_clean(sb, more, slot(img, sb, raw, k)) && !is_free(
        img,
        sb,
        slot(img, sb, raw, k),
    ) by {
        assert(is_clean(sb, reserved, slot(img, sb, raw, k)));
    }
    assert forall|b: u32| #[trigger] is_free(img, sb, b) implies b != 0 && is_clean(
        sb,
        more,
        b,
    ) by {
        assert(is_clean(sb, reserved, b));
    }
}

/// Filling the block of a new directory leaves the directory it is to be entered
/// into.
proof fn lemma_block_filled(
    img1: Image,
    sb: Superblock,
    dir: u32,
    reserved: Region,
    content: Seq<u8>,
    img3: Image,
)
    requires
        is_sound_directory(img1, sb, dir, reserved),
        block_allocated(img1, sb).1 is Ok,
        content.len() == MAX_BLOCK_SIZE,
        img3 == block_stored(
            block_allocated(img1, sb).0,
            sb,
            block_allocated(img1, sb).1->Ok_0,
            content,
        ),
    ensures
        ({
            let inode = inode_at(img1, inode_addr(img1, sb, dir));
            let block = block_allocated(img1, sb).1->Ok_0;
            &&& block != 0
            &&& is_clean(sb, reserved, block)
            &&& !is_free(img3, sb, block)
            &&& forall|b: u32|
                #[trigger] is_free(img3, sb, b) ==> b != 0 && is_clean(sb, reserved, b)
            &&& is_sound_directory(img3, sb, dir, with_block(sb, reserved, block))
            &&& inode_addr(img3, sb, dir) == inode_addr(img1, sb, dir)
            &&& inode_at(img3, inode_addr(img3, sb, dir)) == inode
            &&& directory_from(img3, sb, inode, 0) == directory_from(img1, sb, inode, 0)
            &&& block_bitmap(img3, sb) == block_bitmap(img1, sb)
            &&& block_bytes(img3, sb, block) == content.take(sb.block_size as int)
            &&& forall|a: int|
                reserved(a) && !in_block(sb, block_bitmap(img1, sb), a) && !is_count(sb, a)
                    ==> #[trigger] img3(a) == img1(a)
        }),
{
    let inode = inode_at(img1, inode_addr(img1, sb, dir));
    let raw = raw_inode(img1, sb, dir);
    let block = block_allocated(img1, sb).1->Ok_0;
    let more = with_block(sb, reserved, block);
    lemma_entry_block_given(img1, sb, dir, reserved, content, img3);
    lemma_block_reserved(img3, sb, dir, reserved, raw, block);
    lemma_raw_inode(img1, sb, dir);
    lemma_raw_inode(img3, sb, dir);
    let same: Region = |a: int| img1(a) == img3(a);
    assert forall|a: int| !more(a) implies #[trigger] same(a) by {
        assert(!reserved(a));
        assert(img3(a) == img1(a));
    }
    assert forall|k: int| 0 <= k < slot_count(sb) && #[trigger] slot(img1, sb, raw, k)
        != 0 implies is_clean(sb, more, slot(img1, sb, raw, k)) by {
        assert(slot(img3, sb, raw, k) == slot(img1, sb, raw, k));
    }
    lemma_content_unreserved(img1, sb, more, raw, same);
    lemma_directory_kept(img1, img3, sb, same, inode, 0);
    assert forall|a: int|
        reserved(a) && !in_block(sb, block_bitmap(img1, sb), a) && !is_count(
            sb,
            a,
        ) implies #[trigger] img3(a) == img1(a) by {
        assert(!in_block(sb, block, a));
    }
}

/// The fields that locate the bitmap and an inode are reserved, and they are
/// neither in the bitmap nor among the counts.
pub proof fn lemma_fields_spared(img: Image, sb: Superblock, ino: u32, reserved: Region)
    requires
        sb.readable(),
        is_laid_out(img, sb, ino, reserved),
    ensures
        ({
            let gda = group_desc_addr(sb, 0);
            let t = table_field(sb, ino);
            forall|a: int|
                gda <= a < gda + 4 || t <= a < t + 4 ==> #[trigger] reserved(a) && !in_block(
                    sb,
                    block_bitmap(img, sb),
                    a,
                ) && !is_count(sb, a)
        }),
{
}

/// Filling the block of a new directory, after the inode number was given out.
pub proof fn lemma_furnished(
    img: Image,
    img1: Image,
    sb: Superblock,
    dir: u32,
    ino: u32,
    reserved: Region,
    content: Seq<u8>,
    block: u32,
    img3: Image,
)
    requires
        is_prepared(img, img1, sb, dir, ino, reserved, 0),
        is_sound_directory(img1, sb, dir, reserved),
        content.len() == MAX_BLOCK_SIZE,
        block_allocated(img1, sb).1 == Ok::<u32, i32>(block),
        img3 == block_stored(block_allocated(img1, sb).0, sb, block, content),
    ensures
        block != 0,
        is_prepared(img, img3, sb, dir, ino, reserved, block),
        block_bytes(img3, sb, block) == content.take(sb.block_size as int),
{
    lemma_block_filled(img1, sb, dir, reserved, content, img3);
    let bm = block_bitmap(img1, sb);
    assert(agree_on(img1, img3, table_field(sb, ino), 4)) by {
        lemma_fields_spared(img1, sb, ino, reserved);
    }
    lemma_inode_addr_kept(img1, img3, sb, ino);
    lemma_laid_out_kept(img1, img3, sb, ino, reserved);
    let region = undisturbed(img, sb, dir, ino, reserved);
    assert forall|a: int| #[trigger] region(a) implies img(a) == img3(a) by {
        assert(img(a) == img1(a));
        assert(reserved(a) && !in_block(sb, bm, a) && !is_count(sb, a));
        assert(img3(a) == img1(a));
    }
}

/// What there is once a new inode was stored.
pub open spec fn is_stored(
    img: Image,
    stored: Image,
    sb: Superblock,
    dir: u32,
    ino: u32,
    reserved: Region,
    mode: u32,
    block: u32,
) -> bool {
    let raw = new_inode(sb, mode, block);
    &&& is_prepared(img, stored, sb, dir, ino, reserved, block)
    &&& is_sound_file(stored, sb, ino, reserved)
    &&& inode_numbered(stored, sb, ino) == Ok::<_, i32>(inode_in(raw))
    &&& links_of(stored, sb, ino) == new_links(mode)
    &&& has_same_slots(stored, raw, stored, raw_inode(stored, sb, ino), sb)
    &&& has_bytes(stored, sb, ino, raw)
}

/// Whether the bytes of an inode on a disk are the first ones of `raw`.
#[verifier::opaque]
pub open spec fn has_bytes(img: Image, sb: Superblock, ino: u32, raw: Seq<u8>) -> bool {
    let at = inode_addr(img, sb, ino);
    forall|a: int| at <= a < at + sb.inode_size ==> #[trigger] img(a) == raw[a - at]
}

/// The count of links in an inode.
pub open spec fn links_of(img: Image, sb: Superblock, ino: u32) -> u16 {
    u16_at(img, inode_addr(img, sb, ino) + 26)
}

/// The count of links in a new inode.
proof fn lemma_new_links(sb: Superblock, mode: u32, block: u32)
    ensures
        seq_u16(new_inode(sb, mode, block), 26) == new_links(mode),
        new_inode(sb, mode, block).len() == 512,
{
    let raw = new_inode(sb, mode, block);
    let links = new_links(mode);
    lemma_le16_round_trip(links, 0, 0);
    assert(raw[26] == le16_bytes(links)[0] && raw[27] == le16_bytes(links)[1]);
}

/// Storing a new inode.
pub proof fn lemma_new_inode_stored(
    img: Image,
    ready: Image,
    sb: Superblock,
    dir: u32,
    ino: u32,
    reserved: Region,
    mode: u32,
    block: u32,
    stored: Image,
)
    requires
        is_prepared(img, ready, sb, dir, ino, reserved, block),
        is_vacant(img, sb, dir, ino, reserved),
        wants_directory(mode) == (block != 0),
        stored == inode_stored(ready, sb, ino, new_inode(sb, mode, block)).0,
    ensures
        is_stored(img, stored, sb, dir, ino, reserved, mode, block),
        block_bytes(stored, sb, block) == block_bytes(ready, sb, block) || block == 0,
{
    let raw = new_inode(sb, mode, block);
    let more = with_block(sb, reserved, block);
    lemma_new_inode(ready, sb, mode, block);
    lemma_new_inode_sound(ready, sb, reserved, mode, block);
    lemma_sound_after_store(ready, sb, ino, reserved, raw);
    law_inode_reads_back(ready, sb, ino, raw);
    assert(has_bytes(stored, sb, ino, raw)) by {
        reveal(has_bytes);
    }
    assert(links_of(stored, sb, ino) == new_links(mode)) by {
        lemma_new_links(sb, mode, block);
        let at = inode_addr(ready, sb, ino);
        assert(stored(at + 26) == raw[26] && stored(at + 27) == raw[27]);
    }
    assert forall|a: int| !more(a) implies #[trigger] stored(a) == ready(a) by {
        assert(!in_inode(ready, sb, ino, a));
    }
    assert forall|a: int| is_anchor(ready, sb, dir, a) implies #[trigger] stored(a) == ready(a) by {
        if in_inode(ready, sb, ino, a) {
            assert(in_inode(img, sb, ino, a));
            assert(is_anchor(img, sb, dir, a));
        }
    }
    lemma_sound_directory_kept(ready, stored, sb, dir, more);
    let region = undisturbed(img, sb, dir, ino, reserved);
    assert forall|a: int| #[trigger] region(a) implies img(a) == stored(a) by {
        assert(!in_inode(ready, sb, ino, a));
        assert(stored(a) == ready(a));
    }
    if block != 0 {
        let at = block * sb.block_size;
        assert forall|i: int| 0 <= i < sb.block_size implies #[trigger] stored(at + i) == ready(
            at + i,
        ) by {
            assert(in_block(sb, block, at + i));
            assert(!reserved(at + i));
            assert(!in_inode(ready, sb, ino, at + i));
        }
        assert(block_bytes(stored, sb, block) =~= block_bytes(ready, sb, block));
    }
    assert forall|k: int| 0 <= k < slot_count(sb) implies #[trigger] slot(
        stored,
        sb,
        raw_inode(stored, sb, ino),
        k,
    ) == slot(stored, sb, raw, k) by {
        assert(slot(stored, sb, raw, k) == slot(ready, sb, raw, k));
    }
}

/// Entering a name into a directory spares a new inode elsewhere, and what
/// locates it.
proof fn lemma_new_inode_spared(
    img: Image,
    stored: Image,
    sb: Superblock,
    dir: u32,
    ino: u32,
    reserved: Region,
    region: Region,
)
    requires
        is_regular(sb),
        is_vacant(img, sb, dir, ino, reserved),
        is_laid_out(stored, sb, dir, reserved),
        is_laid_out(stored, sb, ino, reserved),
        block_bitmap(stored, sb) == block_bitmap(img, sb),
        inode_addr(stored, sb, dir) == inode_addr(img, sb, dir),
        inode_addr(stored, sb, ino) == inode_addr(img, sb, ino),
        forall|a: int|
            reserved(a) && !in_block(sb, block_bitmap(stored, sb), a) && !is_count(sb, a)
                && !in_inode(stored, sb, dir, a) ==> #[trigger] region(a),
    ensures
        is_steady_inode(stored, sb, region, ino),
        forall|a: int| in_inode(stored, sb, ino, a) ==> #[trigger] region(a),
        forall|a: int|
            group_desc_addr(sb, 0) <= a < group_desc_addr(sb, 0) + 4 ==> #[trigger] region(a),
{
    let t = table_field(sb, ino);
    let gda = group_desc_addr(sb, 0);
    lemma_fields_spared(stored, sb, ino, reserved);
    assert forall|a: int| in_inode(stored, sb, ino, a) implies #[trigger] region(a) by {
        assert(in_inode(img, sb, ino, a));
        assert(!is_anchor(img, sb, dir, a));
        assert(reserved(a));
    }
    assert forall|a: int| t <= a < t + 4 implies #[trigger] region(a) by {
        assert(reserved(a));
    }
    assert forall|a: int| gda <= a < gda + 4 implies #[trigger] region(a) by {
        assert(reserved(a));
    }
    let at = inode_addr(stored, sb, ino);
    assert forall|a: int| at <= a < at + 100 implies #[trigger] region(a) by {
        assert(in_inode(stored, sb, ino, a));
    }
}

/// Entering a name into a directory leaves a new inode elsewhere.
proof fn lemma_new_inode_kept(
    img: Image,
    stored: Image,
    after: Image,
    sb: Superblock,
    dir: u32,
    ino: u32,
    reserved: Region,
    mode: u32,
    block: u32,
)
    requires
        is_vacant(img, sb, dir, ino, reserved),
        is_laid_out(stored, sb, dir, reserved),
        wants_directory(mode) == (block != 0),
        is_stored(img, stored, sb, dir, ino, reserved, mode, block),
        is_sound_file(after, sb, dir, with_block(sb, reserved, block)),
        agree_in(stored, after, spared(stored, sb, dir, with_block(sb, reserved, block))),
    ensures
        inode_numbered(after, sb, ino) == inode_numbered(stored, sb, ino),
        links_of(after, sb, ino) == links_of(stored, sb, ino),
        has_bytes(after, sb, ino, new_inode(sb, mode, block)),
        is_sound_file(after, sb, ino, reserved),
        block_bytes(after, sb, block) == block_bytes(stored, sb, block) || block == 0,
{
    let more = with_block(sb, reserved, block);
    let region = spared(stored, sb, dir, more);
    let gda = group_desc_addr(sb, 0);
    assert(is_regular(sb));
    lemma_new_inode_spared(img, stored, sb, dir, ino, reserved, region);
    lemma_inode_kept(stored, after, sb, region, ino);
    assert(block_bitmap(after, sb) == block_bitmap(stored, sb)) by {
        assert(region(gda) && region(gda + 1) && region(gda + 2) && region(gda + 3));
    }
    lemma_laid_out_kept(stored, after, sb, ino, reserved);
    assert forall|a: int| in_inode(stored, sb, ino, a) implies #[trigger] after(a) == stored(a) by {
        assert(region(a));
    }
    lemma_raw_inode_kept(stored, after, sb, ino);
    assert(has_bytes(after, sb, ino, new_inode(sb, mode, block))) by {
        reveal(has_bytes);
        let at = inode_addr(after, sb, ino);
        assert forall|a: int| at <= a < at + sb.inode_size implies #[trigger] after(a)
            == new_inode(sb, mode, block)[a - at] by {
            assert(in_inode(stored, sb, ino, a));
            assert(after(a) == stored(a));
        }
    }
    assert(in_inode(stored, sb, ino, inode_addr(stored, sb, ino) + 26) && in_inode(
        stored,
        sb,
        ino,
        inode_addr(stored, sb, ino) + 27,
    ));
    lemma_new_file_sound(stored, after, sb, dir, ino, reserved, mode, block);
    if block != 0 {
        let b = block * sb.block_size;
        assert forall|i: int| 0 <= i < sb.block_size implies #[trigger] after(b + i) == stored(
            b + i,
        ) by {
            assert(in_block(sb, block, b + i));
            assert(!reserved(b + i));
            assert(region(b + i));
        }
        assert(block_bytes(after, sb, block) =~= block_bytes(stored, sb, block));
    }
}

/// A new file is sound as long as its inode is what it was and its block was
/// not given out.
proof fn lemma_new_file_sound(
    stored: Image,
    after: Image,
    sb: Superblock,
    dir: u32,
    ino: u32,
    reserved: Region,
    mode: u32,
    block: u32,
)
    requires
        sb.readable(),
        wants_directory(mode) == (block != 0),
        block != 0 ==> is_clean(sb, reserved, block),
        is_sound_file(after, sb, dir, with_block(sb, reserved, block)),
        has_same_slots(
            stored,
            new_inode(sb, mode, block),
            stored,
            raw_inode(stored, sb, ino),
            sb,
        ),
        raw_inode(after, sb, ino) == raw_inode(stored, sb, ino),
    ensures
        is_sound(after, sb, reserved, raw_inode(after, sb, ino)),
{
    let raw = raw_inode(stored, sb, ino);
    let fresh = new_inode(sb, mode, block);
    let more = with_block(sb, reserved, block);
    lemma_new_inode(stored, sb, mode, block);
    assert(slot(stored, sb, raw, 12) == slot(stored, sb, fresh, 12));
    assert(seq_u32(raw, 88) == 0);
    assert forall|k: int| 0 <= k < slot_count(sb) implies #[trigger] slot(after, sb, raw, k)
        == slot(stored, sb, fresh, k) by {
        assert(slot(stored, sb, raw, k) == slot(stored, sb, fresh, k));
    }
    if block != 0 {
        let a = block * sb.block_size;
        assert(in_block(sb, block, a) && more(a));
        assert(!is_clean(sb, more, block));
        assert(!is_free(after, sb, block));
    }
    assert forall|k: int| 0 <= k < slot_count(sb) && #[trigger] slot(after, sb, raw, k)
        != 0 implies is_clean(sb, reserved, slot(after, sb, raw, k)) && !is_free(
        after,
        sb,
        slot(after, sb, raw, k),
    ) by {
        if k > 0 {
            assert(slot(stored, sb, fresh, k) == 0);
        }
    }
    assert forall|k: int, l: int|
        0 <= k < slot_count(sb) && 0 <= l < slot_count(sb) && #[trigger] slot(after, sb, raw, k)
            == #[trigger] slot(after, sb, raw, l) && slot(after, sb, raw, k) != 0 implies k == l by {
        if k > 0 {
            assert(slot(stored, sb, fresh, k) == 0);
        }
        if l > 0 {
            assert(slot(stored, sb, fresh, l) == 0);
        }
    }
    assert forall|b: u32| #[trigger] is_free(after, sb, b) implies b != 0 && is_clean(
        sb,
        reserved,
        b,
    ) by {
        assert(is_clean(sb, more, b));
        assert forall|a: int| in_block(sb, b, a) implies !#[trigger] reserved(a) by {
            assert(!more(a));
        }
    }
}

/// What there is once a new inode was entered into its directory.
pub open spec fn is_created(
    img: Image,
    after: Image,
    sb: Superblock,
    dir: u32,
    ino: u32,
    reserved: Region,
    name: Seq<u8>,
    mode: u32,
    block: u32,
) -> bool {
    &&& lookup(after, sb, dir, name) == Ok::<u32, i32>(ino)
    &&& forall|other: Seq<u8>|
        other != name ==> #[trigger] lookup(after, sb, dir, other) == lookup(img, sb, dir, other)
    &&& inode_numbered(after, sb, ino) == Ok::<_, i32>(inode_in(new_inode(sb, mode, block)))
    &&& links_of(after, sb, ino) == new_links(mode)
    &&& has_bytes(after, sb, ino, new_inode(sb, mode, block))
    &&& is_sound_file(after, sb, ino, reserved)
    &&& is_sound_directory(after, sb, dir, with_block(sb, reserved, block))
    &&& agree_in(img, after, undisturbed(img, sb, dir, ino, reserved))
    &&& block != 0 ==> block_bytes(after, sb, block) == directory_block(sb, ino, dir).take(
        sb.block_size as int,
    )
}

/// Storing a new inode and entering it into its directory.
proof fn lemma_node_entered(
    img: Image,
    ready: Image,
    sb: Superblock,
    dir: u32,
    ino: u32,
    reserved: Region,
    name: Seq<u8>,
    mode: u32,
    block: u32,
    after: Image,
)
    requires
        is_sound_directory(img, sb, dir, reserved),
        is_vacant(img, sb, dir, ino, reserved),
        is_prepared(img, ready, sb, dir, ino, reserved, block),
        wants_directory(mode) == (block != 0),
        block != 0 ==> block_bytes(ready, sb, block) == directory_block(sb, ino, dir).take(
            sb.block_size as int,
        ),
        name.len() <= 255,
        lookup(img, sb, dir, name) is Err,
        node_entered(
            ready,
            sb,
            dir,
            inode_at(img, inode_addr(img, sb, dir)),
            name,
            mode,
            (ino, block),
        ) == (after, Ok::<(), i32>(())),
    ensures
        is_created(img, after, sb, dir, ino, reserved, name, mode, block),
{
    let inode = inode_at(img, inode_addr(img, sb, dir));
    let more = with_block(sb, reserved, block);
    let stored = inode_stored(ready, sb, ino, new_inode(sb, mode, block)).0;
    lemma_new_inode_stored(img, ready, sb, dir, ino, reserved, mode, block, stored);
    let k = lemma_entry_added(stored, sb, dir, more, name, ino, new_file_type(mode), after);
    lemma_laid_out_kept(img, stored, sb, dir, reserved);
    lemma_new_inode_kept(img, stored, after, sb, dir, ino, reserved, mode, block);
    assert forall|other: Seq<u8>| #[trigger] lookup(stored, sb, dir, other) == lookup(
        img,
        sb,
        dir,
        other,
    ) by {}
    lemma_gained_found(stored, after, sb, dir, k, name, ino, name);
    assert forall|other: Seq<u8>| other != name implies #[trigger] lookup(after, sb, dir, other)
        == lookup(img, sb, dir, other) by {
        lemma_gained_found(stored, after, sb, dir, k, name, ino, other);
        assert(lookup(stored, sb, dir, other) == lookup(img, sb, dir, other));
    }
    let region = undisturbed(img, sb, dir, ino, reserved);
    assert forall|a: int| #[trigger] region(a) implies img(a) == after(a) by {
        assert(img(a) == stored(a));
        assert(spared(stored, sb, dir, more)(a));
    }
}

/// Whether a path can be created on a sound volume: it leads nowhere, its last
/// component is a name of up to 255 bytes, the path before that leads to a sound
/// directory, there is a place for a new inode, and the directories on the way
/// lie in what creating it leaves alone.
pub open spec fn is_creatable(img: Image, sb: Superblock, path: Seq<u8>, reserved: Region) -> bool {
    let (parent_path, name) = split(path)->Ok_0;
    let (dir, _) = resolved(img, sb, parent_path)->Ok_0;
    let ino = inode_allocated(img, sb).1->Ok_0;
    &&& resolved(img, sb, path) is Err
    &&& split(path) is Ok
    &&& name != dot()
    &&& name != dot_dot()
    &&& name.len() <= 255
    &&& resolved(img, sb, parent_path) is Ok
    &&& is_sound_directory(img, sb, dir, reserved)
    &&& numbers_bounded(img, sb)
    &&& is_vacant(img, sb, dir, ino, reserved)
    &&& is_steady_path(img, sb, undisturbed(img, sb, dir, ino, reserved), parent_path)
}

/// Whether a path can be created as far as there is an inode number for it, a
/// block if it is to be a directory, and room for its name.
pub open spec fn is_afforded(img: Image, sb: Superblock, path: Seq<u8>, mode: u32) -> bool {
    let (parent_path, name) = split(path)->Ok_0;
    let (dir, parent) = resolved(img, sb, parent_path)->Ok_0;
    let (ready, node) = node_made(img, sb, mode, dir);
    &&& node is Ok
    &&& node_entered(ready, sb, dir, parent, name, mode, node->Ok_0).1 is Ok
}

/// The directory that a path is to be created in does not have its name.
pub proof fn lemma_name_missing(img: Image, sb: Superblock, path: Seq<u8>)
    requires
        resolved(img, sb, path) is Err,
        split(path) is Ok,
        (split(path)->Ok_0).1 != dot(),
        (split(path)->Ok_0).1 != dot_dot(),
        resolved(img, sb, (split(path)->Ok_0).0) is Ok,
    ensures
        ({
            let (parent_path, name) = split(path)->Ok_0;
            let (dir, _) = resolved(img, sb, parent_path)->Ok_0;
            lookup(img, sb, dir, name) is Err
        }),
{
    let (parent_path, name) = split(path)->Ok_0;
    let (dir, parent) = resolved(img, sb, parent_path)->Ok_0;
    law_path_leads_through_parent(img, sb, path);
    lemma_found_nonzero(img, sb, parent, name);
}

/// The steps of creating something, where they succeed.
pub proof fn lemma_created(img: Image, sb: Superblock, path: Seq<u8>, mode: u32, reserved: Region)
    requires
        is_creatable(img, sb, path, reserved),
        is_afforded(img, sb, path, mode),
    ensures
        ({
            let (parent_path, name) = split(path)->Ok_0;
            let (dir, parent) = resolved(img, sb, parent_path)->Ok_0;
            let (ready, node) = node_made(img, sb, mode, dir);
            let (ino, block) = node->Ok_0;
            let after = node_entered(ready, sb, dir, parent, name, mode, (ino, block)).0;
            &&& ino == inode_allocated(img, sb).1->Ok_0
            &&& wants_directory(mode) == (block != 0)
            &&& is_created(img, after, sb, dir, ino, reserved, name, mode, block)
        }),
{
    let (parent_path, name) = split(path)->Ok_0;
    let (dir, parent) = resolved(img, sb, parent_path)->Ok_0;
    let (ready, node) = node_made(img, sb, mode, dir);
    let (ino, block) = node->Ok_0;
    let img1 = inode_allocated(img, sb).0;
    let after = node_entered(ready, sb, dir, parent, name, mode, (ino, block)).0;
    lemma_name_missing(img, sb, path);
    lemma_numbered(img, sb, dir, ino, reserved);
    if wants_directory(mode) {
        let content = directory_block(sb, ino, dir);
        lemma_furnished(img, img1, sb, dir, ino, reserved, content, block, ready);
    }
    lemma_node_entered(img, ready, sb, dir, ino, reserved, name, mode, block, after);
}

/// What was created is what the path leads to.
#[verifier::rlimit(40)]
#[verifier::spinoff_prover]
pub proof fn lemma_created_there(
    img: Image,
    sb: Superblock,
    path: Seq<u8>,
    mode: u32,
    reserved: Region,
) -> (made: (u32, u32))
    requires
        is_creatable(img, sb, path, reserved),
        is_afforded(img, sb, path, mode),
    ensures
        ({
            let (after, r) = created(img, sb, path, mode);
            let (parent_path, name) = split(path)->Ok_0;
            let (dir, _) = resolved(img, sb, parent_path)->Ok_0;
            let (ino, block) = made;
            &&& r == Ok::<(), i32>(())
            &&& ino == inode_allocated(img, sb).1->Ok_0
            &&& wants_directory(mode) == (block != 0)
            &&& resolved(after, sb, path) == Ok::<_, i32>(
                (ino, inode_in(new_inode(sb, mode, block))),
            )
            &&& is_created(img, after, sb, dir, ino, reserved, name, mode, block)
        }),
{
    let (parent_path, name) = split(path)->Ok_0;
    let (dir, parent) = resolved(img, sb, parent_path)->Ok_0;
    let (ready, node) = node_made(img, sb, mode, dir);
    let (ino, block) = node->Ok_0;
    let after = node_entered(ready, sb, dir, parent, name, mode, (ino, block)).0;
    lemma_created(img, sb, path, mode, reserved);
    lemma_walk_kept(
        img,
        after,
        sb,
        undisturbed(img, sb, dir, ino, reserved),
        ROOT_INO,
        components(parent_path),
    );
    law_path_leads_through_parent(after, sb, path);
    assert(resolved(after, sb, path) == Ok::<_, i32>(
        (ino, inode_in(new_inode(sb, mode, block))),
    ));
    assert(created(img, sb, path, mode) == (after, Ok::<(), i32>(())));
    (ino, block)
}

/// What was created on a sound volume is there. Where an inode number, a block
/// for a directory and room for the name can be had, creating a path succeeds.
/// The path then leads to the new inode, with the mode that was asked for; a new
/// file has one link and no bytes, a new directory two links and one block. All
/// other names in the directory lead where they led, and the new file or directory
/// is sound.
pub proof fn law_created_is_there(
    img: Image,
    sb: Superblock,
    path: Seq<u8>,
    mode: u32,
    reserved: Region,
    other: Seq<u8>,
)
    requires
        is_creatable(img, sb, path, reserved),
        is_afforded(img, sb, path, mode),
    ensures
        ({
            let (after, r) = created(img, sb, path, mode);
            let (parent_path, name) = split(path)->Ok_0;
            let (dir, _) = resolved(img, sb, parent_path)->Ok_0;
            let (ino, inode) = resolved(after, sb, path)->Ok_0;
            &&& r == Ok::<(), i32>(())
            &&& resolved(after, sb, path) is Ok
            &&& ino == inode_allocated(img, sb).1->Ok_0
            &&& inode.mode == new_mode(mode)
            &&& links_of(after, sb, ino) == new_links(mode)
            &&& inode.size == if wants_directory(mode) {
                sb.block_size
            } else {
                0
            }
            &&& other != name ==> lookup(after, sb, dir, other) == lookup(img, sb, dir, other)
            &&& is_sound_file(after, sb, ino, reserved)
            &&& agree_in(img, after, undisturbed(img, sb, dir, ino, reserved))
        }),
{
    let (ino, block) = lemma_created_there(img, sb, path, mode, reserved);
    lemma_new_inode(created(img, sb, path, mode).0, sb, mode, block);
}

/// A new mode is that of a directory where one was asked for, or else that of a
/// file.
pub proof fn lemma_new_mode(mode: u32)
    ensures
        wants_directory(mode) ==> mode_is_dir(new_mode(mode)),
        !wants_directory(mode) ==> mode_is_file(new_mode(mode)),
{
    let m = mode as u16;
    assert((0x4000u16 | (m & 0o777)) & 0xf000 == 0x4000u16) by (bit_vector);
    assert((0x8000u16 | (m & 0o777)) & 0xf000 == 0x8000u16) by (bit_vector);
}

/// What was created on a sound volume is empty. Reading a new file gives no
/// bytes. Listing a new directory gives no names; it has itself and its parent
/// under the names for these, and no other name.
pub proof fn law_created_is_empty(
    img: Image,
    sb: Superblock,
    path: Seq<u8>,
    mode: u32,
    reserved: Region,
    offset: u64,
    len: nat,
    room: nat,
    other: Seq<u8>,
)
    requires
        is_creatable(img, sb, path, reserved),
        is_afforded(img, sb, path, mode),
    ensures
        ({
            let after = created(img, sb, path, mode).0;
            let (dir, _) = resolved(img, sb, (split(path)->Ok_0).0)->Ok_0;
            let (ino, _) = resolved(after, sb, path)->Ok_0;
            if wants_directory(mode) {
                &&& path_listed(after, sb, path, room as int) == (
                    Seq::<u8>::empty(),
                    Ok::<(), i32>(()),
                )
                &&& lookup(after, sb, ino, other) == if other == dot() {
                    Ok(ino)
                } else if other == dot_dot() {
                    Ok(dir)
                } else {
                    Err(ENOENT)
                }
            } else {
                path_read(after, sb, path, offset, len) == (
                    Seq::<u8>::empty(),
                    Ok::<usize, i32>(0),
                )
            }
        }),
{
    let (parent_path, name) = split(path)->Ok_0;
    let (dir, parent) = resolved(img, sb, parent_path)->Ok_0;
    let (ready, node) = node_made(img, sb, mode, dir);
    let (ino, block) = node->Ok_0;
    let after = node_entered(ready, sb, dir, parent, name, mode, (ino, block)).0;
    let inode = inode_in(new_inode(sb, mode, block));
    lemma_created(img, sb, path, mode, reserved);
    law_created_is_there(img, sb, path, mode, reserved, name);
    lemma_new_inode(after, sb, mode, block);
    lemma_new_mode(mode);
    assert(created(img, sb, path, mode).0 == after);
    assert(resolved(after, sb, path) == Ok::<_, i32>((ino, inode)));
    if wants_directory(mode) {
        lemma_empty_directory(after, sb, inode, block, ino, dir, room as int, other);
    }
}

/// A directory of one block that holds what that of a new directory does.
proof fn lemma_empty_directory(
    img: Image,
    sb: Superblock,
    inode: InodeView,
    block: u32,
    ino: u32,
    dir: u32,
    room: int,
    other: Seq<u8>,
)
    requires
        sb.readable(),
        ino != 0,
        dir != 0,
        block != 0,
        inode.size == sb.block_size,
        inode.blocks[0] == block,
        block_bytes(img, sb, block) == directory_block(sb, ino, dir).take(sb.block_size as int),
        0 <= room,
    ensures
        directory_listed(img, sb, inode, room) == (Seq::<u8>::empty(), Ok::<(), i32>(())),
        search(directory_from(img, sb, inode, 0), other) == if other == dot() {
            Ok(ino)
        } else if other == dot_dot() {
            Ok(dir)
        } else {
            Err(ENOENT)
        },
{
    let bs = sb.block_size as int;
    assert(block_span(sb, inode.size) == 1) by {
        vstd::arithmetic::div_mod::lemma_fundamental_div_mod_converse(bs + bs - 1, bs, 1, bs - 1);
    }
    let records = records_in(block_bytes(img, sb, block), block, 0);
    assert(directory_from(img, sb, inode, 1).records =~= Seq::<DirRecord>::empty());
    assert(directory_from(img, sb, inode, 0).records =~= records);
    lemma_directory_block(sb, block_bytes(img, sb, block), block, ino, dir);
    let names = seq![(dot(), ino), (dot_dot(), dir)];
    assert(dot().len() == 1 && dot_dot().len() == 2);
    let rest = names.drop_first();
    assert(rest =~= seq![(dot_dot(), dir)]);
    assert(rest[0] == (dot_dot(), dir));
    assert(rest.drop_first() =~= Seq::<(Seq<u8>, u32)>::empty());
    assert(lines(rest.drop_first()) =~= Seq::<u8>::empty());
    assert(lines(rest) =~= Seq::<u8>::empty());
    assert(lines(names) =~= Seq::<u8>::empty());
    lemma_listed(records, room);
    lemma_find_name(records, other);
    assert(inode_named(rest.drop_first(), other) is None);
    assert(inode_named(rest, other) == if other == dot_dot() {
        Some(dir)
    } else {
        None
    });
}

/// What is there already is not created again, and nothing changes.
pub proof fn law_existing_is_kept(img: Image, sb: Superblock, path: Seq<u8>, mode: u32)
    requires
        resolved(img, sb, path) is Ok,
    ensures
        created(img, sb, path, mode) == (img, Err::<(), i32>(EEXIST)),
{
}

} // verus!
