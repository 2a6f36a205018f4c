//! A file that gets a block keeps those it has, and their contents.

use vstd::prelude::*;
use crate::bitmap::block_allocated;
use crate::codec::{law_put_then_get_u32, put_u32, seq_u32, zeros};
use crate::disk::{Image, Region};
use crate::laws::ownership::{
    block_bitmap, in_block, is_clean, is_count, is_free, is_laid_out, is_loose, is_regular,
    is_sound, lemma_allocated, lemma_allocation_area, lemma_block_change, lemma_blocks_disjoint,
    lemma_loose_filled, lemma_slot_of, lemma_sound_extended, slot, slot_count, slot_of,
};
use crate::laws::storage::law_store_then_read_numbers;
use crate::layout::{block_stored, inode_addr, Superblock, MAX_BLOCK_SIZE};
use crate::mapping::{block_ensured, block_pointed, charged, entry_pointed};

verus! {

/// Whether a change of the disk and of the inode of a file leaves alone what it
/// should: the structures are where they were, nothing reserved has changed but
/// the bitmap and the counts, and no block of the file other than the indirect
/// one has changed its place or its contents. A block that the file got is full
/// of zeros.
pub open spec fn is_gentle(
    x: Image,
    xr: Seq<u8>,
    y: Image,
    yr: Seq<u8>,
    sb: Superblock,
    ino: u32,
    reserved: Region,
) -> bool {
    &&& yr.len() == xr.len()
    &&& forall|j: int| 0 <= j < 28 ==> #[trigger] yr[j] == xr[j]
    &&& block_bitmap(y, sb) == block_bitmap(x, sb)
    &&& inode_addr(y, sb, ino) == inode_addr(x, sb, ino)
    &&& forall|a: int|
        reserved(a) && !in_block(sb, block_bitmap(x, sb), a) && !is_count(sb, a) ==> #[trigger] y(
            a,
        ) == x(a)
    &&& forall|k: int|
        0 <= k < slot_count(sb) && k != 12 && #[trigger] slot(x, sb, xr, k) != 0 ==> slot(
            y,
            sb,
            yr,
            k,
        ) == slot(x, sb, xr, k)
    &&& forall|k: int, a: int|
        0 <= k < slot_count(sb) && k != 12 && #[trigger] slot(x, sb, xr, k) != 0 && in_block(
            sb,
            slot(x, sb, xr, k),
            a,
        ) ==> #[trigger] y(a) == x(a)
    &&& forall|k: int|
        0 <= k < slot_count(sb) && k != 12 && slot(x, sb, xr, k) == 0 && #[trigger] slot(
            y,
            sb,
            yr,
            k,
        ) != 0 ==> is_blank(y, sb, slot(y, sb, yr, k))
}

/// Whether a block is full of zeros.
pub open spec fn is_blank(img: Image, sb: Superblock, block: u32) -> bool {
    forall|a: int| in_block(sb, block, a) ==> #[trigger] img(a) == 0
}

/// Gentle changes one after the other are one gentle change.
pub proof fn lemma_gentle_trans(
    x: Image,
    xr: Seq<u8>,
    y: Image,
    yr: Seq<u8>,
    z: Image,
    zr: Seq<u8>,
    sb: Superblock,
    ino: u32,
    reserved: Region,
)
    requires
        is_gentle(x, xr, y, yr, sb, ino, reserved),
        is_gentle(y, yr, z, zr, sb, ino, reserved),
    ensures
        is_gentle(x, xr, z, zr, sb, ino, reserved),
{
    assert forall|j: int| 0 <= j < 28 implies #[trigger] zr[j] == xr[j] by {
        assert(yr[j] == xr[j]);
    }
    assert forall|a: int|
        reserved(a) && !in_block(sb, block_bitmap(x, sb), a) && !is_count(sb, a) implies #[trigger] z(
        a,
    ) == x(a) by {
        assert(y(a) == x(a));
    }
    assert forall|k: int|
        0 <= k < slot_count(sb) && k != 12 && #[trigger] slot(x, sb, xr, k) != 0 implies slot(
        z,
        sb,
        zr,
        k,
    ) == slot(x, sb, xr, k) by {
        assert(slot(y, sb, yr, k) == slot(x, sb, xr, k));
    }
    assert forall|k: int, a: int|
        0 <= k < slot_count(sb) && k != 12 && #[trigger] slot(x, sb, xr, k) != 0 && in_block(
            sb,
            slot(x, sb, xr, k),
            a,
        ) implies #[trigger] z(a) == x(a) by {
        assert(slot(y, sb, yr, k) == slot(x, sb, xr, k));
        assert(y(a) == x(a));
    }
    assert forall|k: int|
        0 <= k < slot_count(sb) && k != 12 && slot(x, sb, xr, k) == 0 && #[trigger] slot(
            z,
            sb,
            zr,
            k,
        ) != 0 implies is_blank(z, sb, slot(z, sb, zr, k)) by {
        if slot(y, sb, yr, k) != 0 {
            assert(slot(z, sb, zr, k) == slot(y, sb, yr, k));
            assert(is_blank(y, sb, slot(y, sb, yr, k)));
            assert forall|a: int| in_block(sb, slot(z, sb, zr, k), a) implies #[trigger] z(a)
                == 0 by {
                assert(y(a) == 0);
            }
        }
    }
}

/// Setting one of the first block numbers of an inode sets that one only.
pub proof fn lemma_slots_put(img: Image, sb: Superblock, raw: Seq<u8>, i: int, block: u32)
    requires
        raw.len() >= 100,
        0 <= i < 12,
    ensures
        slot(img, sb, put_u32(raw, 40 + 4 * i, block), i) == block,
        forall|k: int|
            0 <= k < slot_count(sb) && k != i ==> #[trigger] slot(
                img,
                sb,
                put_u32(raw, 40 + 4 * i, block),
                k,
            ) == slot(img, sb, raw, k),
        forall|j: int| 0 <= j < 28 ==> #[trigger] put_u32(raw, 40 + 4 * i, block)[j] == raw[j],
{
    let after = put_u32(raw, 40 + 4 * i, block);
    law_put_then_get_u32(raw, 40 + 4 * i, block, 88);
    assert forall|k: int| 0 <= k < slot_count(sb) && k != i implies #[trigger] slot(
        img,
        sb,
        after,
        k,
    ) == slot(img, sb, raw, k) by {
        if k <= 12 {
            law_put_then_get_u32(raw, 40 + 4 * i, block, 40 + 4 * k);
        }
    }
}

/// Accounting for one more block keeps all block numbers of an inode.
pub proof fn lemma_slots_charged(img: Image, sb: Superblock, raw: Seq<u8>)
    requires
        raw.len() >= 100,
    ensures
        charged(sb, raw).len() == raw.len(),
        forall|k: int|
            0 <= k < slot_count(sb) ==> #[trigger] slot(img, sb, charged(sb, raw), k) == slot(
                img,
                sb,
                raw,
                k,
            ),
        forall|j: int| 0 <= j < 28 ==> #[trigger] charged(sb, raw)[j] == raw[j],
{
    let value = crate::mapping::wrapped_sum(seq_u32(raw, 28), sb.block_size / 512);
    law_put_then_get_u32(raw, 28, value, 88);
    assert forall|k: int| 0 <= k < slot_count(sb) implies #[trigger] slot(
        img,
        sb,
        charged(sb, raw),
        k,
    ) == slot(img, sb, raw, k) by {
        if k <= 12 {
            law_put_then_get_u32(raw, 28, value, 40 + 4 * k);
        }
    }
}

/// Accounting for one more block is gentle, and keeps a file sound.
proof fn lemma_charged(img: Image, sb: Superblock, ino: u32, reserved: Region, raw: Seq<u8>)
    requires
        raw.len() >= 100,
        is_sound(img, sb, reserved, raw),
    ensures
        is_sound(img, sb, reserved, charged(sb, raw)),
        is_gentle(img, raw, img, charged(sb, raw), sb, ino, reserved),
        forall|k: int|
            0 <= k < slot_count(sb) ==> #[trigger] slot(img, sb, charged(sb, raw), k) == slot(
                img,
                sb,
                raw,
                k,
            ),
{
    lemma_slots_charged(img, sb, raw);
    let after = charged(sb, raw);
    assert forall|k: int, l: int|
        0 <= k < slot_count(sb) && 0 <= l < slot_count(sb) && #[trigger] slot(img, sb, after, k)
            == #[trigger] slot(img, sb, after, l) && slot(img, sb, after, k) != 0 implies k == l by {
        assert(slot(img, sb, raw, k) == slot(img, sb, raw, l));
    }
    assert forall|k: int| 0 <= k < slot_count(sb) && #[trigger] slot(img, sb, after, k)
        != 0 implies is_clean(sb, reserved, slot(img, sb, after, k)) && !is_free(
        img,
        sb,
        slot(img, sb, after, k),
    ) by {
        assert(slot(img, sb, raw, k) != 0);
    }
}

/// Putting a loose block in an empty place of the indirect block.
proof fn lemma_entry_pointed(
    img: Image,
    sb: Superblock,
    ino: u32,
    reserved: Region,
    raw: Seq<u8>,
    index: int,
    block: u32,
)
    requires
        is_regular(sb),
        is_laid_out(img, sb, ino, reserved),
        is_sound(img, sb, reserved, raw),
        is_loose(img, sb, reserved, raw, block),
        is_blank(img, sb, block),
        12 <= index < 12 + sb.block_size / 4,
        seq_u32(raw, 88) != 0,
        slot(img, sb, raw, index + 1) == 0,
    ensures
        ({
            let img1 = entry_pointed(img, sb, seq_u32(raw, 88), index - 12, block);
            &&& is_laid_out(img1, sb, ino, reserved)
            &&& is_sound(img1, sb, reserved, raw)
            &&& is_gentle(img, raw, img1, raw, sb, ino, reserved)
            &&& slot(img1, sb, raw, index + 1) == block
            &&& forall|k: int|
                0 <= k < slot_count(sb) && k != index + 1 ==> #[trigger] slot(img1, sb, raw, k)
                    == slot(img, sb, raw, k)
        }),
{
    let ind = seq_u32(raw, 88);
    let img1 = entry_pointed(img, sb, ind, index - 12, block);
    let bs = sb.block_size as int;
    let at = ind * bs + 4 * (index - 12);
    assert(slot(img, sb, raw, 12) == ind);
    law_store_then_read_numbers(img, at, 0, block);
    assert forall|a: int| !in_block(sb, ind, a) implies #[trigger] img(a) == img1(a) by {}
    // The indirect block itself changes, so its other places are looked at here.
    let bare = zeros(100);
    assert(seq_u32(bare, 88) == 0);
    lemma_block_change(img, img1, sb, ino, reserved, bare, ind);
    assert forall|k: int| 0 <= k < slot_count(sb) && k != index + 1 implies #[trigger] slot(
        img1,
        sb,
        raw,
        k,
    ) == slot(img, sb, raw, k) by {
        if k > 12 {
            let other = ind * bs + 4 * (k - 13);
            assert(other + 4 <= at || at + 4 <= other);
        }
    }
    lemma_sound_extended(img, raw, img1, raw, sb, reserved, index + 1, block);
    assert forall|a: int|
        reserved(a) && !in_block(sb, block_bitmap(img, sb), a) && !is_count(
            sb,
            a,
        ) implies #[trigger] img1(a) == img(a) by {
        if in_block(sb, ind, a) {
            assert(!reserved(a));
        }
    }
    assert forall|k: int, a: int|
        0 <= k < slot_count(sb) && k != 12 && #[trigger] slot(img, sb, raw, k) != 0 && in_block(
            sb,
            slot(img, sb, raw, k),
            a,
        ) implies #[trigger] img1(a) == img(a) by {
        if slot(img, sb, raw, k) == ind {
            assert(slot(img, sb, raw, 12) == slot(img, sb, raw, k));
        }
        lemma_blocks_disjoint(sb, slot(img, sb, raw, k), ind, a);
    }
    assert forall|a: int| in_block(sb, block, a) implies #[trigger] img1(a) == 0 by {
        assert(slot(img, sb, raw, 12) != block);
        lemma_blocks_disjoint(sb, block, ind, a);
        assert(img(a) == 0);
    }
}

/// Giving out a block and filling it with zeros is gentle.
pub proof fn lemma_fresh_block(
    img: Image,
    sb: Superblock,
    ino: u32,
    reserved: Region,
    raw: Seq<u8>,
)
    requires
        is_regular(sb),
        is_laid_out(img, sb, ino, reserved),
        is_sound(img, sb, reserved, raw),
        block_allocated(img, sb).1 is Ok,
    ensures
        ({
            let (img1, r) = block_allocated(img, sb);
            let b = r->Ok_0;
            let img2 = block_stored(img1, sb, b, zeros(MAX_BLOCK_SIZE as nat));
            &&& is_free(img, sb, b)
            &&& is_laid_out(img2, sb, ino, reserved)
            &&& is_sound(img2, sb, reserved, raw)
            &&& is_loose(img2, sb, reserved, raw, b)
            &&& is_gentle(img, raw, img2, raw, sb, ino, reserved)
            &&& forall|a: int|
                !in_block(sb, block_bitmap(img, sb), a) && !is_count(sb, a) && !in_block(
                    sb,
                    b,
                    a,
                ) ==> #[trigger] img2(a) == img(a)
            &&& forall|a: int| in_block(sb, b, a) ==> #[trigger] img2(a) == 0
            &&& forall|c: u32|
                #[trigger] is_free(img2, sb, c) == (is_free(img, sb, c) && c != b)
            &&& forall|k: int|
                0 <= k < slot_count(sb) ==> #[trigger] slot(img2, sb, raw, k) == slot(
                    img,
                    sb,
                    raw,
                    k,
                )
        }),
{
    let (img1, r) = block_allocated(img, sb);
    let b = r->Ok_0;
    let zero = zeros(MAX_BLOCK_SIZE as nat);
    let img2 = block_stored(img1, sb, b, zero);
    lemma_allocated(img, sb, ino, reserved, raw);
    lemma_loose_filled(img1, sb, ino, reserved, raw, b, zero);
    assert forall|k: int| 0 <= k < slot_count(sb) implies #[trigger] slot(img2, sb, raw, k)
        == slot(img, sb, raw, k) by {
        assert(slot(img1, sb, raw, k) == slot(img, sb, raw, k));
    }
    assert forall|a: int|
        !in_block(sb, block_bitmap(img, sb), a) && !is_count(sb, a) && !in_block(
            sb,
            b,
            a,
        ) implies #[trigger] img2(a) == img(a) by {
        assert(img1(a) == img(a));
    }
    assert forall|a: int| in_block(sb, b, a) implies #[trigger] img2(a) == 0 by {}
    assert forall|a: int|
        reserved(a) && !in_block(sb, block_bitmap(img, sb), a) && !is_count(
            sb,
            a,
        ) implies #[trigger] img2(a) == img(a) by {
        assert(!in_block(sb, b, a));
    }
    assert forall|k: int, a: int|
        0 <= k < slot_count(sb) && k != 12 && #[trigger] slot(img, sb, raw, k) != 0 && in_block(
            sb,
            slot(img, sb, raw, k),
            a,
        ) implies #[trigger] img2(a) == img(a) by {
        let s = slot(img, sb, raw, k);
        assert(is_clean(sb, reserved, s));
        assert(!reserved(a));
        assert(slot(img2, sb, raw, k) != b);
        lemma_blocks_disjoint(sb, s, b, a);
    }
    assert forall|c: u32| #[trigger] is_free(img2, sb, c) == (is_free(img, sb, c) && c != b) by {
        assert(is_free(img1, sb, c) == (is_free(img, sb, c) && c != b));
    }
}

/// Putting a loose block in an empty place of an inode.
proof fn lemma_block_pointed(
    img: Image,
    sb: Superblock,
    ino: u32,
    reserved: Region,
    raw: Seq<u8>,
    index: int,
    block: u32,
)
    requires
        is_regular(sb),
        is_laid_out(img, sb, ino, reserved),
        is_sound(img, sb, reserved, raw),
        is_loose(img, sb, reserved, raw, block),
        is_blank(img, sb, block),
        raw.len() >= 100,
        0 <= index < 12 + sb.block_size / 4,
        slot(img, sb, raw, slot_of(index)) == 0,
        block_pointed(img, sb, raw, index, block).2 is Ok,
    ensures
        ({
            let (img1, raw1, _) = block_pointed(img, sb, raw, index, block);
            &&& is_laid_out(img1, sb, ino, reserved)
            &&& is_sound(img1, sb, reserved, raw1)
            &&& is_gentle(img, raw, img1, raw1, sb, ino, reserved)
            &&& slot(img1, sb, raw1, slot_of(index)) == block
            &&& forall|k: int|
                0 <= k < slot_count(sb) && k != slot_of(index) && k != 12 ==> #[trigger] slot(
                    img1,
                    sb,
                    raw1,
                    k,
                ) == slot(img, sb, raw, k)
        }),
{
    let (img1, raw1, _) = block_pointed(img, sb, raw, index, block);
    if index < 12 {
        lemma_slots_put(img, sb, raw, index, block);
        lemma_sound_extended(img, raw, img1, raw1, sb, reserved, index, block);
    } else if seq_u32(raw, 88) != 0 {
        lemma_entry_pointed(img, sb, ino, reserved, raw, index, block);
    } else {
        let (ia, r) = block_allocated(img, sb);
        let ind = r->Ok_0;
        let ib = block_stored(ia, sb, ind, zeros(MAX_BLOCK_SIZE as nat));
        let rb = put_u32(raw, 88, ind);
        lemma_fresh_block(img, sb, ino, reserved, raw);
        law_put_then_get_u32(raw, 88, ind, 0);
        assert(seq_u32(rb, 88) == ind);
        let bs = sb.block_size as int;
        assert forall|k: int| 0 <= k < slot_count(sb) && k != 12 implies #[trigger] slot(
            ib,
            sb,
            rb,
            k,
        ) == slot(img, sb, raw, k) by {
            if k < 12 {
                law_put_then_get_u32(raw, 88, ind, 40 + 4 * k);
            } else {
                let at = ind * bs + 4 * (k - 13);
                assert(in_block(sb, ind, at) && in_block(sb, ind, at + 1) && in_block(
                    sb,
                    ind,
                    at + 2,
                ) && in_block(sb, ind, at + 3));
                assert(ib(at) == 0 && ib(at + 1) == 0 && ib(at + 2) == 0 && ib(at + 3) == 0);
            }
        }
        assert forall|k: int| 0 <= k < slot_count(sb) && k != 12 implies #[trigger] slot(
            ib,
            sb,
            rb,
            k,
        ) == slot(ib, sb, raw, k) by {
            assert(slot(ib, sb, raw, k) == slot(img, sb, raw, k));
        }
        lemma_sound_extended(ib, raw, ib, rb, sb, reserved, 12, ind);
        assert(is_gentle(ib, raw, ib, rb, sb, ino, reserved));
        lemma_gentle_trans(img, raw, ib, raw, ib, rb, sb, ino, reserved);
        assert(slot(img, sb, raw, 12) == 0);
        assert(is_loose(ib, sb, reserved, rb, block)) by {
            assert forall|k: int| 0 <= k < slot_count(sb) implies #[trigger] slot(ib, sb, rb, k)
                != block by {
                if k == 12 {
                    assert(is_free(img, sb, ind) && !is_free(img, sb, block));
                } else {
                    assert(slot(img, sb, raw, k) != block);
                }
            }
        }
        assert forall|a: int| in_block(sb, block, a) implies #[trigger] ib(a) == 0 by {
            assert(!reserved(a));
            assert(is_free(img, sb, ind) && !is_free(img, sb, block));
            lemma_blocks_disjoint(sb, block, ind, a);
            assert(img(a) == 0);
        }
        lemma_entry_pointed(ib, sb, ino, reserved, rb, index, block);
        let ic = entry_pointed(ib, sb, ind, index - 12, block);
        lemma_gentle_trans(img, raw, ib, rb, ic, rb, sb, ino, reserved);
        lemma_charged(ic, sb, ino, reserved, rb);
        lemma_gentle_trans(img, raw, ic, rb, ic, charged(sb, rb), sb, ino, reserved);
        assert forall|k: int|
            0 <= k < slot_count(sb) && k != slot_of(index) && k != 12 implies #[trigger] slot(
            img1,
            sb,
            raw1,
            k,
        ) == slot(img, sb, raw, k) by {
            assert(slot(ic, sb, rb, k) == slot(ib, sb, rb, k));
        }
    }
}

/// Where a file is refused a block, its inode and what is reserved stay as they
/// were, but for the bitmap and the counts.
pub proof fn lemma_block_refused(
    img: Image,
    sb: Superblock,
    ino: u32,
    reserved: Region,
    raw: Seq<u8>,
    index: int,
)
    requires
        is_regular(sb),
        is_laid_out(img, sb, ino, reserved),
        is_sound(img, sb, reserved, raw),
        0 <= index,
        block_ensured(img, sb, raw, index).2 is Err,
    ensures
        ({
            let img1 = block_ensured(img, sb, raw, index).0;
            &&& inode_addr(img1, sb, ino) == inode_addr(img, sb, ino)
            &&& forall|a: int|
                reserved(a) && !in_block(sb, block_bitmap(img, sb), a) && !is_count(sb, a)
                    ==> #[trigger] img1(a) == img(a)
        }),
{
    lemma_allocation_area(img, sb, ino, reserved);
    if index < 12 + sb.block_size / 4 && block_allocated(img, sb).1 is Ok {
        let (ia, r) = block_allocated(img, sb);
        let ib = block_stored(ia, sb, r->Ok_0, zeros(MAX_BLOCK_SIZE as nat));
        let img1 = block_ensured(img, sb, raw, index).0;
        lemma_slot_of(img, sb, raw, index);
        lemma_fresh_block(img, sb, ino, reserved, raw);
        lemma_allocation_area(ib, sb, ino, reserved);
        assert(img1 == block_allocated(ib, sb).0);
        assert forall|a: int|
            reserved(a) && !in_block(sb, block_bitmap(img, sb), a) && !is_count(
                sb,
                a,
            ) implies #[trigger] img1(a) == img(a) by {
            assert(ib(a) == img(a));
        }
    }
}

/// Giving a file a block: it has the block in the right place, it is still
/// sound, and the change is gentle.
pub proof fn lemma_block_ensured(
    img: Image,
    sb: Superblock,
    ino: u32,
    reserved: Region,
    raw: Seq<u8>,
    index: int,
)
    requires
        is_regular(sb),
        is_laid_out(img, sb, ino, reserved),
        is_sound(img, sb, reserved, raw),
        raw.len() >= 100,
        0 <= index,
        block_ensured(img, sb, raw, index).2 is Ok,
    ensures
        ({
            let (img1, raw1, r) = block_ensured(img, sb, raw, index);
            &&& index < 12 + sb.block_size / 4
            &&& is_laid_out(img1, sb, ino, reserved)
            &&& is_sound(img1, sb, reserved, raw1)
            &&& is_gentle(img, raw, img1, raw1, sb, ino, reserved)
            &&& slot(img1, sb, raw1, slot_of(index)) == r->Ok_0
            &&& r->Ok_0 != 0
            &&& forall|k: int|
                0 <= k < slot_count(sb) && k != slot_of(index) && k != 12 ==> #[trigger] slot(
                    img1,
                    sb,
                    raw1,
                    k,
                ) == slot(img, sb, raw, k)
        }),
{
    let (img1, raw1, r) = block_ensured(img, sb, raw, index);
    lemma_slot_of(img, sb, raw, index);
    if slot(img, sb, raw, slot_of(index)) == 0 {
        let (ia, ra) = block_allocated(img, sb);
        let b = ra->Ok_0;
        let ib = block_stored(ia, sb, b, zeros(MAX_BLOCK_SIZE as nat));
        lemma_fresh_block(img, sb, ino, reserved, raw);
        lemma_block_pointed(ib, sb, ino, reserved, raw, index, b);
        let (ic, rc, _) = block_pointed(ib, sb, raw, index, b);
        lemma_gentle_trans(img, raw, ib, raw, ic, rc, sb, ino, reserved);
        lemma_charged(ic, sb, ino, reserved, rc);
        lemma_gentle_trans(img, raw, ic, rc, ic, charged(sb, rc), sb, ino, reserved);
        assert forall|k: int|
            0 <= k < slot_count(sb) && k != slot_of(index) && k != 12 implies #[trigger] slot(
            img1,
            sb,
            raw1,
            k,
        ) == slot(img, sb, raw, k) by {
            assert(slot(ic, sb, rc, k) == slot(ib, sb, raw, k));
        }
    }
}

} // verus!
