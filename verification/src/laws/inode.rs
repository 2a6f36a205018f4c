//! The inode of a file whose blocks are its own.

use vstd::prelude::*;
use crate::codec::{law_put_then_get_u32, put_u32, seq_u32};
use crate::disk::{Image, Region};
use crate::entry::raw_inode;
use crate::laws::ownership::{
    block_bitmap, in_block, in_inode, is_clean, is_count, is_free, is_laid_out, is_regular,
    is_sound, lemma_reserved_change, slot, slot_count, table_field,
};
use crate::laws::storage::{agree_on, law_inode_reads_back};
use crate::layout::{
    block_bytes, group_desc_addr, inode_addr, inode_at, inode_in, inode_stored, Superblock,
};

verus! {

/// What a sound file is, given the number of its inode: its structures are laid
/// out, and its blocks are its own.
pub open spec fn is_sound_file(img: Image, sb: Superblock, ino: u32, reserved: Region) -> bool {
    &&& ino >= 1
    &&& is_regular(sb)
    &&& is_laid_out(img, sb, ino, reserved)
    &&& is_sound(img, sb, reserved, raw_inode(img, sb, ino))
}

/// The bytes of an inode in a buffer stand for the inode.
pub proof fn lemma_raw_inode(img: Image, sb: Superblock, ino: u32)
    requires
        100 <= sb.inode_size <= 512,
    ensures
        raw_inode(img, sb, ino).len() == 512,
        inode_in(raw_inode(img, sb, ino)) == inode_at(img, inode_addr(img, sb, ino)),
{
    let raw = raw_inode(img, sb, ino);
    let at = inode_addr(img, sb, ino);
    let x = inode_in(raw);
    let y = inode_at(img, at);
    assert forall|i: int| 0 <= i < 15 implies x.blocks[i] == y.blocks[i] by {
        let k = 40 + 4 * i;
        assert(raw[k] == img(at + k) && raw[k + 1] == img(at + (k + 1)) && raw[k + 2] == img(
            at + (k + 2),
        ) && raw[k + 3] == img(at + (k + 3)));
    }
    assert(x =~= y);
}

/// The addresses that writing to a file leaves alone: those that are reserved,
/// but for the bitmap, the counts of free blocks and the inode of the file.
pub open spec fn spared(img: Image, sb: Superblock, ino: u32, reserved: Region) -> Region {
    |a: int|
        reserved(a) && !in_block(sb, block_bitmap(img, sb), a) && !is_count(sb, a) && !in_inode(
            img,
            sb,
            ino,
            a,
        )
}

/// Whether two inodes have the same block numbers.
pub open spec fn has_same_slots(
    x: Image,
    xr: Seq<u8>,
    y: Image,
    yr: Seq<u8>,
    sb: Superblock,
) -> bool {
    forall|k: int|
        0 <= k < slot_count(sb) ==> #[trigger] slot(y, sb, yr, k) == slot(x, sb, xr, k)
}

/// A file is sound that has the block numbers of a sound one, while what is free
/// stays the same.
pub proof fn lemma_sound_same_slots(
    x: Image,
    xr: Seq<u8>,
    y: Image,
    yr: Seq<u8>,
    sb: Superblock,
    reserved: Region,
)
    requires
        is_sound(x, sb, reserved, xr),
        forall|b: u32| #[trigger] is_free(y, sb, b) == is_free(x, sb, b),
        has_same_slots(x, xr, y, yr, sb),
    ensures
        is_sound(y, sb, reserved, yr),
{
    assert forall|k: int| 0 <= k < slot_count(sb) && #[trigger] slot(y, sb, yr, k)
        != 0 implies is_clean(sb, reserved, slot(y, sb, yr, k)) && !is_free(
        y,
        sb,
        slot(y, sb, yr, k),
    ) by {
        assert(slot(x, sb, xr, k) != 0);
    }
    assert forall|k: int, l: int|
        0 <= k < slot_count(sb) && 0 <= l < slot_count(sb) && #[trigger] slot(y, sb, yr, k)
            == #[trigger] slot(y, sb, yr, l) && slot(y, sb, yr, k) != 0 implies k == l by {
        assert(slot(x, sb, xr, k) == slot(x, sb, xr, l));
    }
}

/// A new size leaves the block numbers of an inode.
pub proof fn lemma_slots_resized(img: Image, sb: Superblock, raw: Seq<u8>, size: u32)
    requires
        raw.len() >= 100,
    ensures
        has_same_slots(img, raw, img, put_u32(raw, 4, size), sb),
{
    law_put_then_get_u32(raw, 4, size, 88);
    assert forall|k: int| 0 <= k < slot_count(sb) implies #[trigger] slot(
        img,
        sb,
        put_u32(raw, 4, size),
        k,
    ) == slot(img, sb, raw, k) by {
        if k <= 12 {
            law_put_then_get_u32(raw, 4, size, 40 + 4 * k);
        }
    }
}

/// A file is sound after the inode that makes it so was stored.
pub proof fn lemma_sound_after_store(
    img: Image,
    sb: Superblock,
    ino: u32,
    reserved: Region,
    raw: Seq<u8>,
)
    requires
        ino >= 1,
        is_regular(sb),
        is_laid_out(img, sb, ino, reserved),
        is_sound(img, sb, reserved, raw),
        raw.len() == 512,
    ensures
        ({
            let after = inode_stored(img, sb, ino, raw).0;
            &&& is_sound_file(after, sb, ino, reserved)
            &&& block_bitmap(after, sb) == block_bitmap(img, sb)
            &&& inode_addr(after, sb, ino) == inode_addr(img, sb, ino)
            &&& has_same_slots(img, raw, after, raw, sb)
            &&& has_same_slots(img, raw, after, raw_inode(after, sb, ino), sb)
            &&& forall|a: int| !in_inode(img, sb, ino, a) ==> #[trigger] after(a) == img(a)
        }),
{
    let after = inode_stored(img, sb, ino, raw).0;
    let at = inode_addr(img, sb, ino);
    let bm = block_bitmap(img, sb);
    let bs = sb.block_size as int;
    let gda = group_desc_addr(sb, 0);
    let t = table_field(sb, ino);
    law_inode_reads_back(img, sb, ino, raw);
    assert(agree_on(img, after, gda, 4));
    assert(block_bitmap(after, sb) == bm);
    assert(block_bytes(after, sb, bm) =~= block_bytes(img, sb, bm)) by {
        assert forall|i: int| 0 <= i < bs implies #[trigger] after(bm * bs + i) == img(
            bm * bs + i,
        ) by {
            assert(in_block(sb, bm, bm * bs + i));
        }
    }
    assert(forall|b: u32| #[trigger] is_free(after, sb, b) == is_free(img, sb, b));
    assert forall|a: int| !reserved(a) implies #[trigger] img(a) == after(a) by {
        assert(!in_inode(img, sb, ino, a));
    }
    lemma_reserved_change(img, after, sb, reserved, raw);
    let stored = raw_inode(after, sb, ino);
    assert forall|i: int| 0 <= i < 100 implies stored[i] == raw[i] by {
        assert(stored[i] == after(at + i));
    }
    assert(seq_u32(stored, 88) == seq_u32(raw, 88));
    assert forall|k: int| 0 <= k < slot_count(sb) implies #[trigger] slot(after, sb, stored, k)
        == slot(img, sb, raw, k) by {
        assert(slot(after, sb, raw, k) == slot(img, sb, raw, k));
        if k <= 12 {
            let j = 40 + 4 * k;
            assert(stored[j] == raw[j] && stored[j + 1] == raw[j + 1] && stored[j + 2] == raw[j + 2]
                && stored[j + 3] == raw[j + 3]);
        }
    }
    lemma_sound_same_slots(img, raw, after, stored, sb, reserved);
    assert forall|a: int|
        in_block(sb, bm, a) || is_count(sb, a) || gda <= a < gda + 4 || t <= a < t + 4 || in_inode(
            after,
            sb,
            ino,
            a,
        ) implies #[trigger] reserved(a) by {
        if in_inode(after, sb, ino, a) {
            assert(in_inode(img, sb, ino, a));
        }
    }
}

} // verus!
