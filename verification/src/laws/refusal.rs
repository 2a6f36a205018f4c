//! What could not be created leaves the disk as it was.

use vstd::prelude::*;
use crate::abi::ENOSPC;
use crate::bitmap::{
    bit_cleared, bitmap_at, block_allocated, block_freed, first_clear, first_inode_bit,
    incremented, inode_allocated, inode_freed, lemma_clear_in_buffer, lemma_first_clear,
    numbers_bounded, SB_FREE_BLOCKS, SB_FREE_INODES,
};
use crate::create::{created, new_file_type, new_inode, node_made, wants_directory};
use crate::dir::resolved;
use crate::disk::{agree_but, Image, Region};
use crate::entry::{directory_block, entry_added, raw_inode};
use crate::laws::allocation::{
    inode_bitmap_apart, law_free_undoes_allocate_block, law_free_undoes_allocate_inode,
};
use crate::laws::creation::{
    is_creatable, is_in_numbering, is_vacant, lemma_fields_spared, lemma_furnished, lemma_new_inode,
    lemma_numbered, lemma_numbering,
};
use crate::laws::directory::is_sound_directory;
use crate::laws::ownership::{
    block_bitmap, block_limit, in_block, in_inode, inode_bitmap, is_clean, is_count, is_free,
    is_laid_out, lemma_allocated,
};
use crate::laws::steady::covers;
use crate::layout::{
    block_bytes, group_desc_addr, inode_addr, inode_stored, lesser, Superblock, MAX_BLOCK_SIZE,
};
use crate::path::split;
use crate::state::u16_at;

verus! {

/// Clearing a bit and counting up does the same on images that agree on what it
/// reads.
proof fn lemma_freed_alike(
    x: Image,
    y: Image,
    sb: Superblock,
    region: Region,
    bitmap: u32,
    bit: u32,
    a: int,
    b: int,
)
    requires
        sb.wf(),
        bit < 8 * MAX_BLOCK_SIZE,
        agree_but(x, y, region),
        forall|i: int|
            in_block(sb, bitmap, i) || a <= i < a + 2 || b <= i < b + 2 ==> !#[trigger] region(i),
    ensures
        agree_but(
            incremented(incremented(bit_cleared(x, sb, bitmap, bit), a), b),
            incremented(incremented(bit_cleared(y, sb, bitmap, bit), a), b),
            region,
        ),
{
    let bs = sb.block_size as int;
    assert(block_bytes(x, sb, bitmap) =~= block_bytes(y, sb, bitmap)) by {
        assert forall|i: int| 0 <= i < bs implies #[trigger] x(bitmap * bs + i) == y(
            bitmap * bs + i,
        ) by {
            assert(in_block(sb, bitmap, bitmap * bs + i));
            assert(!region(bitmap * bs + i));
        }
    }
    assert(bitmap_at(x, sb, bitmap) == bitmap_at(y, sb, bitmap));
    let x1 = bit_cleared(x, sb, bitmap, bit);
    let y1 = bit_cleared(y, sb, bitmap, bit);
    assert(agree_but(x1, y1, region));
    assert(!region(a) && !region(a + 1) && !region(b) && !region(b + 1));
    assert(u16_at(x1, a) == u16_at(y1, a));
    let x2 = incremented(x1, a);
    let y2 = incremented(y1, a);
    assert(agree_but(x2, y2, region));
    assert(u16_at(x2, b) == u16_at(y2, b));
}

/// Taking an inode number back does the same on images that agree on what it
/// reads.
proof fn lemma_inode_freed_alike(x: Image, y: Image, sb: Superblock, region: Region, ino: u32)
    requires
        sb.wf(),
        sb.inodes_per_group != 0,
        1 <= ino <= lesser(sb.inodes_per_group, sb.inodes_count),
        ino <= 8 * MAX_BLOCK_SIZE,
        agree_but(x, y, region),
        ({
            let gda = group_desc_addr(sb, 0);
            forall|a: int|
                gda + 4 <= a < gda + 8 || is_in_numbering(x, sb, a) ==> !#[trigger] region(a)
        }),
    ensures
        agree_but(inode_freed(x, sb, ino), inode_freed(y, sb, ino), region),
{
    let gda = group_desc_addr(sb, 0);
    let bit = (ino - 1) as u32;
    assert(bit / sb.inodes_per_group == 0 && bit % sb.inodes_per_group == bit) by {
        vstd::arithmetic::div_mod::lemma_small_mod(bit as nat, sb.inodes_per_group as nat);
        vstd::arithmetic::div_mod::lemma_basic_div(bit as int, sb.inodes_per_group as int);
    }
    assert(!region(gda + 4) && !region(gda + 5) && !region(gda + 6) && !region(gda + 7));
    assert(inode_bitmap(x, sb) == inode_bitmap(y, sb));
    lemma_freed_alike(
        x,
        y,
        sb,
        region,
        inode_bitmap(x, sb),
        bit,
        SB_FREE_INODES as int,
        gda + 14,
    );
}

/// Taking a block back does the same on images that agree on what it reads.
proof fn lemma_block_freed_alike(x: Image, y: Image, sb: Superblock, region: Region, block: u32)
    requires
        sb.wf(),
        sb.blocks_per_group != 0,
        block < block_limit(sb),
        block < 8 * MAX_BLOCK_SIZE,
        agree_but(x, y, region),
        ({
            let gda = group_desc_addr(sb, 0);
            forall|a: int|
                gda <= a < gda + 4 || in_block(sb, block_bitmap(x, sb), a) || is_count(sb, a)
                    ==> !#[trigger] region(a)
        }),
    ensures
        agree_but(block_freed(x, sb, block), block_freed(y, sb, block), region),
{
    let gda = group_desc_addr(sb, 0);
    assert(block / sb.blocks_per_group == 0 && block % sb.blocks_per_group == block) by {
        vstd::arithmetic::div_mod::lemma_small_mod(block as nat, sb.blocks_per_group as nat);
        vstd::arithmetic::div_mod::lemma_basic_div(block as int, sb.blocks_per_group as int);
    }
    assert(!region(gda) && !region(gda + 1) && !region(gda + 2) && !region(gda + 3));
    assert(block_bitmap(x, sb) == block_bitmap(y, sb));
    lemma_freed_alike(
        x,
        y,
        sb,
        region,
        block_bitmap(x, sb),
        block,
        SB_FREE_BLOCKS as int,
        gda + 12,
    );
}

/// The addresses of a new inode and of the block of a new directory, where there
/// is one.
pub open spec fn node_area(img: Image, sb: Superblock, ino: u32, block: u32) -> Region {
    |a: int| in_inode(img, sb, ino, a) || block != 0 && in_block(sb, block, a)
}

/// Whether the bitmaps, the counts and the first group's descriptor lie apart
/// and are reserved.
pub open spec fn is_countable(img: Image, sb: Superblock, reserved: Region) -> bool {
    &&& inode_bitmap_apart(img, sb)
    &&& covers(reserved, group_desc_addr(sb, 0), 16)
}

/// Giving out an inode number leaves the field that locates the inode bitmap.
proof fn lemma_bitmap_field_kept(img: Image, sb: Superblock)
    requires
        sb.wf(),
        sb.block_size != 0,
        numbers_bounded(img, sb),
        inode_bitmap_apart(img, sb),
    ensures
        inode_bitmap(inode_allocated(img, sb).0, sb) == inode_bitmap(img, sb),
{
    let img1 = inode_allocated(img, sb).0;
    let gda = group_desc_addr(sb, 0);
    lemma_numbering(img, sb);
    assert(!is_in_numbering(img, sb, gda + 4) && !is_in_numbering(img, sb, gda + 5)
        && !is_in_numbering(img, sb, gda + 6) && !is_in_numbering(img, sb, gda + 7));
    assert(img1(gda + 4) == img(gda + 4) && img1(gda + 5) == img(gda + 5) && img1(gda + 6) == img(
        gda + 6,
    ) && img1(gda + 7) == img(gda + 7));
}

/// Taking back the inode number of something new leaves the disk as it was, but
/// for the area of the new.
proof fn lemma_number_returned(
    img: Image,
    sb: Superblock,
    dir: u32,
    ino: u32,
    reserved: Region,
    block: u32,
    y: Image,
)
    requires
        is_sound_directory(img, sb, dir, reserved),
        is_vacant(img, sb, dir, ino, reserved),
        is_countable(img, sb, reserved),
        numbers_bounded(img, sb),
        inode_allocated(img, sb).1 == Ok::<u32, i32>(ino),
        block != 0 ==> is_clean(sb, reserved, block),
        agree_but(inode_allocated(img, sb).0, y, node_area(img, sb, ino, block)),
    ensures
        agree_but(img, inode_freed(y, sb, ino), node_area(img, sb, ino, block)),
{
    let img1 = inode_allocated(img, sb).0;
    let area = node_area(img, sb, ino, block);
    let gda = group_desc_addr(sb, 0);
    lemma_bitmap_field_kept(img, sb);
    assert forall|a: int|
        gda + 4 <= a < gda + 8 || is_in_numbering(img1, sb, a) implies !#[trigger] area(a) by {
        if is_in_numbering(img1, sb, a) {
            assert(is_in_numbering(img, sb, a));
        } else {
            assert(reserved(a));
        }
    }
    lemma_clear_in_buffer(
        bitmap_at(img, sb, inode_bitmap(img, sb)),
        first_inode_bit(sb),
        lesser(sb.inodes_per_group, sb.inodes_count),
    );
    lemma_inode_freed_alike(img1, y, sb, area, ino);
    law_free_undoes_allocate_inode(img, sb);
}

/// Taking back the block of a new directory leaves the disk as it was, but for
/// the area of the new.
proof fn lemma_block_returned(
    img: Image,
    img1: Image,
    sb: Superblock,
    dir: u32,
    ino: u32,
    reserved: Region,
    block: u32,
    y: Image,
)
    requires
        is_sound_directory(img1, sb, dir, reserved),
        is_laid_out(img1, sb, ino, reserved),
        inode_addr(img1, sb, ino) == inode_addr(img, sb, ino),
        block_allocated(img1, sb).1 == Ok::<u32, i32>(block),
        agree_but(block_allocated(img1, sb).0, y, node_area(img, sb, ino, block)),
    ensures
        is_clean(sb, reserved, block),
        agree_but(img1, block_freed(y, sb, block), node_area(img, sb, ino, block)),
{
    let img2 = block_allocated(img1, sb).0;
    let area = node_area(img, sb, ino, block);
    let gda = group_desc_addr(sb, 0);
    let bm = block_bitmap(img1, sb);
    lemma_allocated(img1, sb, dir, reserved, raw_inode(img1, sb, dir));
    lemma_fields_spared(img1, sb, ino, reserved);
    assert forall|a: int|
        gda <= a < gda + 4 || in_block(sb, block_bitmap(img2, sb), a) || is_count(
            sb,
            a,
        ) implies !#[trigger] area(a) by {
        assert(reserved(a));
    }
    lemma_block_freed_alike(img2, y, sb, area, block);
    law_free_undoes_allocate_block(img1, sb);
}

/// Something whose name could not be entered, because there was no room for it,
/// is not there: creating gives the error, and the disk is as it was, but for the
/// place of the inode and, for a directory, the block, which are free again.
pub proof fn law_refused_name_leaves_disk(
    img: Image,
    sb: Superblock,
    path: Seq<u8>,
    mode: u32,
    reserved: Region,
    e: i32,
)
    requires
        is_creatable(img, sb, path, reserved),
        is_countable(img, sb, reserved),
        ({
            let (parent_path, name) = split(path)->Ok_0;
            let (dir, parent) = resolved(img, sb, parent_path)->Ok_0;
            let (ready, node) = node_made(img, sb, mode, dir);
            let (ino, block) = node->Ok_0;
            let stored = inode_stored(ready, sb, ino, new_inode(sb, mode, block)).0;
            &&& node is Ok
            &&& entry_added(stored, sb, dir, parent, name, ino, new_file_type(mode)) == (
                stored,
                Err::<(), i32>(e),
            )
        }),
    ensures
        ({
            let (parent_path, name) = split(path)->Ok_0;
            let (dir, _) = resolved(img, sb, parent_path)->Ok_0;
            let (ino, block) = node_made(img, sb, mode, dir).1->Ok_0;
            let (after, r) = created(img, sb, path, mode);
            &&& r == Err::<(), i32>(e)
            &&& agree_but(img, after, node_area(img, sb, ino, block))
        }),
{
    let (parent_path, name) = split(path)->Ok_0;
    let (dir, parent) = resolved(img, sb, parent_path)->Ok_0;
    let (ready, node) = node_made(img, sb, mode, dir);
    let (ino, block) = node->Ok_0;
    let stored = inode_stored(ready, sb, ino, new_inode(sb, mode, block)).0;
    let img1 = inode_allocated(img, sb).0;
    let area = node_area(img, sb, ino, block);
    lemma_numbered(img, sb, dir, ino, reserved);
    lemma_new_inode(ready, sb, mode, block);
    if wants_directory(mode) {
        let content = directory_block(sb, ino, dir);
        let img2 = block_allocated(img1, sb).0;
        lemma_furnished(img, img1, sb, dir, ino, reserved, content, block, ready);
        assert(agree_but(img2, stored, area));
        lemma_block_returned(img, img1, sb, dir, ino, reserved, block, stored);
        let y = block_freed(stored, sb, block);
        lemma_number_returned(img, sb, dir, ino, reserved, block, y);
    } else {
        assert(agree_but(img1, stored, area));
        lemma_number_returned(img, sb, dir, ino, reserved, block, stored);
    }
}

/// Where no block is free, none is given out.
proof fn lemma_no_block(img: Image, sb: Superblock)
    requires
        forall|b: u32| !#[trigger] is_free(img, sb, b),
    ensures
        block_allocated(img, sb) == (img, Err::<u32, i32>(ENOSPC)),
{
    let bitmap = bitmap_at(img, sb, block_bitmap(img, sb));
    lemma_first_clear(bitmap, 0, block_limit(sb));
    if let Some(b) = first_clear(bitmap, 0, block_limit(sb)) {
        assert(is_free(img, sb, b));
    }
}

/// A directory for which there is no block is not created, and the disk is as it
/// was.
pub proof fn law_refused_directory_leaves_disk(
    img: Image,
    sb: Superblock,
    path: Seq<u8>,
    mode: u32,
    reserved: Region,
)
    requires
        is_creatable(img, sb, path, reserved),
        inode_bitmap_apart(img, sb),
        wants_directory(mode),
        inode_allocated(img, sb).1 is Ok,
        forall|b: u32| !#[trigger] is_free(img, sb, b),
    ensures
        created(img, sb, path, mode) == (img, Err::<(), i32>(ENOSPC)),
{
    let (parent_path, name) = split(path)->Ok_0;
    let (dir, _) = resolved(img, sb, parent_path)->Ok_0;
    let (img1, r) = inode_allocated(img, sb);
    let ino = r->Ok_0;
    assert(block_allocated(img1, sb) == (img1, Err::<u32, i32>(ENOSPC))) by {
        lemma_numbered(img, sb, dir, ino, reserved);
        assert forall|b: u32| !#[trigger] is_free(img1, sb, b) by {
            assert(!is_free(img, sb, b));
        }
        lemma_no_block(img1, sb);
    }
    law_free_undoes_allocate_inode(img, sb);
    assert(node_made(img, sb, mode, dir) == (img, Err::<(u32, u32), i32>(ENOSPC)));
}

} // verus!
