//! An emptied file is empty, and its blocks are free again.

use vstd::arithmetic::div_mod::lemma_mod_bound;
use vstd::prelude::*;
use crate::bitmap::{
    bit_cleared, bit_is_set, bitmap_at, block_freed, with_bit_clear, SB_FREE_BLOCKS,
};
use crate::codec::{law_put_then_get_u32, put_u32, seq_u32};
use crate::dir::resolved;
use crate::disk::{agree_but, Image, Region};
use crate::entry::raw_inode;
use crate::laws::allocation::{law_bits, lemma_bitmap_stored};
use crate::laws::format::{half, word};
use crate::laws::inode::lemma_raw_inode;
use crate::laws::ownership::{
    in_block, in_inode, lemma_blocks_disjoint, slot, slot_count, table_field,
};
use crate::laws::steady::{agree_in, covers, is_steady_path, lemma_walk_kept};
use crate::laws::storage::{
    agree_on, apart, inode_apart_from_desc, law_inode_reads_back, lemma_inode_addr_kept,
};
use crate::laws::sufficiency::{blocks_lacking, gaps, lemma_numbers_alike};
use crate::layout::{
    block_bytes, group_desc_addr, group_desc_at, inode_addr, inode_in, inode_stored,
    mode_is_file, Superblock, MAX_BLOCK_SIZE, ROOT_INO,
};
use crate::mapping::{blocks_freed, direct_freed, entries_freed};
use crate::ops::{path_read, path_truncated};
use crate::path::components;
use crate::state::u32_at;

verus! {

/// The block bitmap of the group of a block.
pub open spec fn bitmap_of(img: Image, sb: Superblock, block: u32) -> u32 {
    group_desc_at(img, sb, block / sb.blocks_per_group).block_bitmap
}

/// Whether the bit of a block says that it is free.
pub open spec fn is_returned(img: Image, sb: Superblock, block: u32) -> bool {
    !bit_is_set(bitmap_at(img, sb, bitmap_of(img, sb, block)), block % sb.blocks_per_group)
}

/// Whether taking a block back changes nothing but `area`: its bitmap and the
/// counts that go up lie there, the field that locates the bitmap does not, and
/// the bitmap lies apart from the counts.
pub open spec fn is_returnable(
    img: Image,
    sb: Superblock,
    block: u32,
    area: Region,
    counts: Region,
) -> bool {
    let gda = group_desc_addr(sb, block / sb.blocks_per_group);
    &&& sb.blocks_per_group != 0
    &&& block % sb.blocks_per_group < 8 * MAX_BLOCK_SIZE
    &&& covers(counts, SB_FREE_BLOCKS as int, 2)
    &&& covers(counts, gda + 12, 2)
    &&& forall|a: int| #[trigger] counts(a) ==> area(a)
    &&& forall|a: int|
        #[trigger] in_block(sb, bitmap_of(img, sb, block), a) ==> area(a) && !counts(a)
    &&& forall|a: int| gda <= a < gda + 4 ==> !#[trigger] area(a)
}

/// Whether a block is 0, which stands for none, or can be taken back.
pub open spec fn is_none_or_returnable(
    img: Image,
    sb: Superblock,
    block: u32,
    area: Region,
    counts: Region,
) -> bool {
    block == 0 || is_returnable(img, sb, block, area, counts)
}

/// The bitmap of a block is where it was.
proof fn lemma_bitmap_of_kept(
    img: Image,
    x: Image,
    sb: Superblock,
    block: u32,
    area: Region,
    counts: Region,
)
    requires
        is_returnable(img, sb, block, area, counts),
        agree_but(img, x, area),
    ensures
        bitmap_of(x, sb, block) == bitmap_of(img, sb, block),
{
    let gda = group_desc_addr(sb, block / sb.blocks_per_group);
    assert(!area(gda) && !area(gda + 1) && !area(gda + 2) && !area(gda + 3));
}

/// Taking a block back changes `area` only.
proof fn lemma_block_freed_area(
    img: Image,
    x: Image,
    sb: Superblock,
    block: u32,
    area: Region,
    counts: Region,
)
    requires
        sb.wf(),
        is_returnable(img, sb, block, area, counts),
        agree_but(img, x, area),
    ensures
        agree_but(img, block_freed(x, sb, block), area),
        ({
            let gb = bitmap_of(img, sb, block);
            let y = block_freed(x, sb, block);
            let cleared = bit_cleared(x, sb, gb, block % sb.blocks_per_group);
            forall|a: int| !counts(a) ==> #[trigger] y(a) == cleared(a)
        }),
{
    let gb = bitmap_of(img, sb, block);
    let bit = block % sb.blocks_per_group;
    let gda = group_desc_addr(sb, block / sb.blocks_per_group);
    lemma_bitmap_of_kept(img, x, sb, block, area, counts);
    lemma_mod_bound(block as int, sb.blocks_per_group as int);
    let x1 = bit_cleared(x, sb, gb, bit);
    assert forall|a: int| !in_block(sb, gb, a) implies #[trigger] x1(a) == x(a) by {}
    let y = block_freed(x, sb, block);
    assert forall|a: int| !counts(a) implies #[trigger] y(a) == x1(a) by {}
    assert forall|a: int| !area(a) implies #[trigger] img(a) == y(a) by {
        assert(!counts(a));
        assert(!in_block(sb, gb, a));
        assert(y(a) == x1(a));
        assert(x1(a) == x(a));
    }
}

/// Taking a block back frees it, and blocks that were free are free still.
proof fn lemma_block_freed_returns(
    img: Image,
    x: Image,
    sb: Superblock,
    block: u32,
    other: u32,
    area: Region,
    counts: Region,
)
    requires
        sb.wf(),
        is_returnable(img, sb, block, area, counts),
        is_returnable(img, sb, other, area, counts),
        agree_but(img, x, area),
        other == block || is_returned(x, sb, other),
    ensures
        is_returned(block_freed(x, sb, block), sb, other),
{
    let gb = bitmap_of(img, sb, block);
    let go = bitmap_of(img, sb, other);
    let bit = block % sb.blocks_per_group;
    let y = block_freed(x, sb, block);
    let x1 = bit_cleared(x, sb, gb, bit);
    let bs = sb.block_size as int;
    lemma_block_freed_area(img, x, sb, block, area, counts);
    lemma_mod_bound(block as int, sb.blocks_per_group as int);
    lemma_mod_bound(other as int, sb.blocks_per_group as int);
    lemma_bitmap_of_kept(img, x, sb, other, area, counts);
    lemma_bitmap_of_kept(img, y, sb, other, area, counts);
    assert(block_bytes(y, sb, go) =~= block_bytes(x1, sb, go)) by {
        assert forall|i: int| 0 <= i < bs implies #[trigger] y(go * bs + i) == x1(go * bs + i) by {
            assert(in_block(sb, go, go * bs + i));
            assert(!counts(go * bs + i));
        }
    }
    let before = bitmap_at(x, sb, gb);
    if go == gb {
        let cleared = with_bit_clear(before, bit);
        lemma_bitmap_stored(x, sb, gb, cleared);
        law_bits(before, bit, other % sb.blocks_per_group);
        let i = (other % sb.blocks_per_group) as int / 8;
        if i < bs {
            assert(bitmap_at(y, sb, go)[i] == cleared[i]);
        } else {
            let m = crate::bitmap::bit_mask(other % sb.blocks_per_group);
            assert(bitmap_at(y, sb, go)[i] == 0);
            assert(0u8 & m == 0) by (bit_vector);
        }
    } else {
        assert(block_bytes(x1, sb, go) =~= block_bytes(x, sb, go)) by {
            assert forall|i: int| 0 <= i < bs implies #[trigger] x1(go * bs + i) == x(
                go * bs + i,
            ) by {
                lemma_blocks_disjoint(sb, go, gb, go * bs + i);
            }
        }
    }
}

/// Giving back the direct blocks from `i` on.
proof fn lemma_direct_freed(
    img: Image,
    x: Image,
    sb: Superblock,
    raw: Seq<u8>,
    ptrs: Seq<u32>,
    i: int,
    other: u32,
    area: Region,
    counts: Region,
)
    requires
        sb.wf(),
        0 <= i <= 12,
        raw.len() >= 100,
        agree_but(img, x, area),
        forall|j: int|
            i <= j < 12 ==> is_none_or_returnable(img, sb, #[trigger] ptrs[j], area, counts),
        forall|j: int| i <= j < 12 ==> seq_u32(raw, 40 + 4 * j) == #[trigger] ptrs[j],
        is_none_or_returnable(img, sb, other, area, counts),
    ensures
        ({
            let (y, after) = direct_freed(x, sb, raw, ptrs, i);
            &&& agree_but(img, y, area)
            &&& after.len() == raw.len()
            &&& forall|j: int| i <= j < 12 ==> #[trigger] field(after, j) == 0
            &&& forall|j: int|
                0 <= j < 40 + 4 * i || 88 <= j < raw.len() ==> #[trigger] after[j] == raw[j]
            &&& other != 0 && (is_returned(x, sb, other) || exists|j: int|
                i <= j < 12 && #[trigger] ptrs[j] == other) ==> is_returned(y, sb, other)
        }),
    decreases 12 - i,
{
    let (y, after) = direct_freed(x, sb, raw, ptrs, i);
    if i < 12 {
        let block = ptrs[i];
        let x1 = if block == 0 {
            x
        } else {
            block_freed(x, sb, block)
        };
        let raw1 = if block == 0 {
            raw
        } else {
            put_u32(raw, 40 + 4 * i, 0)
        };
        if block != 0 {
            assert(is_none_or_returnable(img, sb, ptrs[i], area, counts));
            lemma_block_freed_area(img, x, sb, block, area, counts);
            if other != 0 && (other == block || is_returned(x, sb, other)) {
                lemma_block_freed_returns(img, x, sb, block, other, area, counts);
            }
            assert forall|j: int| i + 1 <= j < 12 implies seq_u32(raw1, 40 + 4 * j)
                == #[trigger] ptrs[j] by {
                law_put_then_get_u32(raw, 40 + 4 * i, 0, 40 + 4 * j);
            }
            law_put_then_get_u32(raw, 40 + 4 * i, 0, 40 + 4 * i);
        }
        lemma_direct_freed(img, x1, sb, raw1, ptrs, i + 1, other, area, counts);
        assert(field(raw1, i) == 0);
        assert(field(after, i) == field(raw1, i)) by {
            let k = 40 + 4 * i;
            assert(after[k] == raw1[k] && after[k + 1] == raw1[k + 1] && after[k + 2] == raw1[k + 2]
                && after[k + 3] == raw1[k + 3]);
        }
        assert forall|j: int| 0 <= j < 40 + 4 * i || 88 <= j < raw.len() implies #[trigger] after[j]
            == raw[j] by {
            assert(after[j] == raw1[j]);
        }
    }
}

/// A block number in an inode.
pub open spec fn field(raw: Seq<u8>, j: int) -> u32 {
    seq_u32(raw, 40 + 4 * j)
}

/// An entry of an indirect block.
pub open spec fn entry_of(img: Image, sb: Superblock, indirect: u32, j: int) -> u32 {
    u32_at(img, indirect * sb.block_size + 4 * j)
}

/// Giving back the blocks that an indirect block names, from entry `i` on.
proof fn lemma_entries_freed(
    img: Image,
    x: Image,
    sb: Superblock,
    indirect: u32,
    i: int,
    other: u32,
    area: Region,
    counts: Region,
)
    requires
        sb.wf(),
        0 <= i,
        agree_but(img, x, area),
        forall|a: int| in_block(sb, indirect, a) ==> !#[trigger] area(a),
        forall|j: int|
            i <= j < sb.block_size / 4 ==> is_none_or_returnable(
                img,
                sb,
                #[trigger] entry_of(img, sb, indirect, j),
                area,
                counts,
            ),
        is_none_or_returnable(img, sb, other, area, counts),
    ensures
        ({
            let y = entries_freed(x, sb, indirect, i);
            &&& agree_but(img, y, area)
            &&& other != 0 && (is_returned(x, sb, other) || exists|j: int|
                i <= j < sb.block_size / 4 && #[trigger] entry_of(img, sb, indirect, j) == other)
                ==> is_returned(y, sb, other)
        }),
    decreases sb.block_size / 4 - i,
{
    if i < sb.block_size / 4 {
        let at = indirect * sb.block_size + 4 * i;
        assert(in_block(sb, indirect, at) && in_block(sb, indirect, at + 1) && in_block(
            sb,
            indirect,
            at + 2,
        ) && in_block(sb, indirect, at + 3));
        assert(!area(at) && !area(at + 1) && !area(at + 2) && !area(at + 3));
        let block = entry_of(img, sb, indirect, i);
        assert(u32_at(x, at) == block);
        let x1 = if block == 0 {
            x
        } else {
            block_freed(x, sb, block)
        };
        if block != 0 {
            assert(is_none_or_returnable(img, sb, block, area, counts));
            lemma_block_freed_area(img, x, sb, block, area, counts);
            if other != 0 && (other == block || is_returned(x, sb, other)) {
                lemma_block_freed_returns(img, x, sb, block, other, area, counts);
            }
        }
        lemma_entries_freed(img, x1, sb, indirect, i + 1, other, area, counts);
    }
}

/// Whether all blocks of a file can be taken back without a change but to
/// `area`.
pub open spec fn is_returnable_file(
    img: Image,
    sb: Superblock,
    raw: Seq<u8>,
    area: Region,
    counts: Region,
) -> bool {
    &&& forall|k: int|
        0 <= k < slot_count(sb) ==> is_none_or_returnable(
            img,
            sb,
            #[trigger] slot(img, sb, raw, k),
            area,
            counts,
        )
    &&& forall|a: int|
        seq_u32(raw, 88) != 0 && in_block(sb, seq_u32(raw, 88), a) ==> !#[trigger] area(a)
}

/// Giving back all blocks of a file: it has none left and no bytes, only `area`
/// has changed, and the block of a place is free.
proof fn lemma_blocks_freed(
    img: Image,
    sb: Superblock,
    raw: Seq<u8>,
    place: int,
    area: Region,
    counts: Region,
)
    requires
        sb.readable(),
        raw.len() >= 100,
        is_returnable_file(img, sb, raw, area, counts),
        0 <= place < slot_count(sb),
    ensures
        ({
            let (y, after) = blocks_freed(img, sb, raw);
            &&& agree_but(img, y, area)
            &&& after.len() == raw.len()
            &&& inode_in(after).size == 0
            &&& inode_in(after).mode == inode_in(raw).mode
            &&& forall|j: int| 0 <= j < 13 ==> #[trigger] inode_in(after).blocks[j] == 0
            &&& slot(img, sb, raw, place) != 0 ==> is_returned(y, sb, slot(img, sb, raw, place))
        }),
{
    let ptrs = inode_in(raw).blocks;
    let other = slot(img, sb, raw, place);
    let ind = ptrs[12];
    assert(is_none_or_returnable(img, sb, other, area, counts));
    assert forall|j: int| 0 <= j < 12 implies is_none_or_returnable(
        img,
        sb,
        #[trigger] ptrs[j],
        area,
        counts,
    ) by {
        assert(slot(img, sb, raw, j) == ptrs[j]);
    }
    lemma_direct_freed(img, img, sb, raw, ptrs, 0, other, area, counts);
    let (x, raw1) = direct_freed(img, sb, raw, ptrs, 0);
    if place < 12 {
        assert(ptrs[place] == other);
    }
    assert(slot(img, sb, raw, 12) == ind);
    let (y, raw2) = if ind == 0 {
        (x, raw1)
    } else {
        (
            block_freed(entries_freed(x, sb, ind, 0), sb, ind),
            put_u32(raw1, 88, 0),
        )
    };
    assert(field(raw1, 12) == ind) by {
        assert(raw1[88] == raw[88] && raw1[89] == raw[89] && raw1[90] == raw[90] && raw1[91]
            == raw[91]);
    }
    if ind != 0 {
        assert forall|j: int| 0 <= j < sb.block_size / 4 implies is_none_or_returnable(
            img,
            sb,
            #[trigger] entry_of(img, sb, ind, j),
            area,
            counts,
        ) by {
            assert(slot(img, sb, raw, j + 13) == entry_of(img, sb, ind, j));
        }
        lemma_entries_freed(img, x, sb, ind, 0, other, area, counts);
        let z = entries_freed(x, sb, ind, 0);
        if place > 12 {
            assert(entry_of(img, sb, ind, place - 13) == other);
        }
        assert(is_none_or_returnable(img, sb, slot(img, sb, raw, 12), area, counts));
        lemma_block_freed_area(img, z, sb, ind, area, counts);
        if other != 0 {
            lemma_block_freed_returns(img, z, sb, ind, other, area, counts);
        }
        law_put_then_get_u32(raw1, 88, 0, 88);
    }
    assert(field(raw2, 12) == 0);
    lemma_emptied(raw, raw1, raw2);
}

/// The fields of an inode after all its block numbers were taken out.
proof fn lemma_emptied(raw: Seq<u8>, raw1: Seq<u8>, raw2: Seq<u8>)
    requires
        raw.len() >= 100,
        raw1.len() == raw.len(),
        raw2 == raw1 || raw2 == put_u32(raw1, 88, 0),
        forall|j: int| 0 <= j < 12 ==> #[trigger] field(raw1, j) == 0,
        forall|j: int| 0 <= j < 40 ==> #[trigger] raw1[j] == raw[j],
        field(raw2, 12) == 0,
    ensures
        ({
            let after = put_u32(put_u32(raw2, 28, 0), 4, 0);
            &&& after.len() == raw.len()
            &&& inode_in(after).size == 0
            &&& inode_in(after).mode == inode_in(raw).mode
            &&& forall|j: int| 0 <= j < 13 ==> #[trigger] inode_in(after).blocks[j] == 0
        }),
{
    let raw3 = put_u32(raw2, 28, 0);
    let after = put_u32(raw3, 4, 0);
    law_put_then_get_u32(raw3, 4, 0, 4);
    assert(raw1[0] == raw[0] && raw1[1] == raw[1]);
    assert(after[0] == raw[0] && after[1] == raw[1]);
    assert forall|j: int| 0 <= j < 13 implies #[trigger] inode_in(after).blocks[j] == 0 by {
        law_put_then_get_u32(raw3, 4, 0, 40 + 4 * j);
        law_put_then_get_u32(raw2, 28, 0, 40 + 4 * j);
        if j < 12 {
            law_put_then_get_u32(raw1, 88, 0, 40 + 4 * j);
            assert(field(raw1, j) == 0);
        } else {
            assert(field(raw2, 12) == 0);
        }
    }
}

/// An emptied file is empty. Where all its blocks can be taken back without a
/// change but to `area`, and neither its inode nor the directories on the way to
/// it lie there, emptying it succeeds: the path leads to the same inode, with the
/// mode it had and no bytes, and reading gives none. Nothing else has changed. If
/// it had bytes, it has no blocks left, and the block in each place is free.
pub proof fn law_truncated_is_empty(
    img: Image,
    sb: Superblock,
    path: Seq<u8>,
    area: Region,
    counts: Region,
    place: int,
    offset: u64,
    len: nat,
)
    requires
        sb.readable(),
        100 <= sb.inode_size <= 512,
        resolved(img, sb, path) is Ok,
        ({
            let (ino, inode) = resolved(img, sb, path)->Ok_0;
            &&& mode_is_file(inode.mode)
            &&& is_returnable_file(img, sb, raw_inode(img, sb, ino), area, counts)
            &&& inode_apart_from_desc(img, sb, ino)
            &&& forall|a: int|
                table_field(sb, ino) <= a < table_field(sb, ino) + 4 ==> !#[trigger] area(a)
            &&& is_steady_path(img, sb, untouched(img, sb, ino, area), path)
        }),
        0 <= place < slot_count(sb),
    ensures
        ({
            let (ino, was) = resolved(img, sb, path)->Ok_0;
            let (after, r) = path_truncated(img, sb, path, 0);
            let (same, now) = resolved(after, sb, path)->Ok_0;
            let block = slot(img, sb, raw_inode(img, sb, ino), place);
            &&& r == Ok::<(), i32>(())
            &&& resolved(after, sb, path) is Ok
            &&& same == ino
            &&& now.mode == was.mode
            &&& now.size == 0
            &&& path_read(after, sb, path, offset, len) == (
                Seq::<u8>::empty(),
                Ok::<usize, i32>(0),
            )
            &&& agree_in(img, after, untouched(img, sb, ino, area))
            &&& was.size != 0 ==> {
                &&& forall|j: int| 0 <= j < 13 ==> #[trigger] now.blocks[j] == 0
                &&& block != 0 && !in_inode_of_bitmap(img, sb, ino, block) ==> is_returned(
                    after,
                    sb,
                    block,
                )
            }
        }),
{
    let (ino, was) = resolved(img, sb, path)->Ok_0;
    let raw = raw_inode(img, sb, ino);
    let region = untouched(img, sb, ino, area);
    let (after, _) = path_truncated(img, sb, path, 0);
    if was.size == 0 {
        assert(after == img);
    } else {
        lemma_raw_inode(img, sb, ino);
        lemma_blocks_freed(img, sb, raw, place, area, counts);
        let (img1, raw1) = blocks_freed(img, sb, raw);
        let t = table_field(sb, ino);
        assert(agree_on(img, img1, t, 4)) by {
            assert forall|a: int| t <= a < t + 4 implies #[trigger] img(a) == img1(a) by {
                assert(!area(a));
            }
        }
        lemma_inode_addr_kept(img, img1, sb, ino);
        law_inode_reads_back(img1, sb, ino, raw1);
        assert forall|a: int| #[trigger] region(a) implies img(a) == after(a) by {
            assert(img(a) == img1(a));
        }
        lemma_walk_kept(img, after, sb, region, ROOT_INO, components(path));
        let block = slot(img, sb, raw, place);
        if block != 0 && !in_inode_of_bitmap(img, sb, ino, block) {
            lemma_returned_kept(img, img1, after, sb, ino, block, area, counts);
        }
    }
}

/// The addresses that emptying a file leaves alone.
pub open spec fn untouched(img: Image, sb: Superblock, ino: u32, area: Region) -> Region {
    |a: int| !area(a) && !in_inode(img, sb, ino, a)
}

/// Whether an inode shares an address with what says whether a block is free.
pub open spec fn in_inode_of_bitmap(img: Image, sb: Superblock, ino: u32, block: u32) -> bool {
    let gda = group_desc_addr(sb, block / sb.blocks_per_group);
    exists|a: int|
        #[trigger] in_inode(img, sb, ino, a) && (in_block(sb, bitmap_of(img, sb, block), a) || gda
            <= a < gda + 4)
}

/// A block that was taken back is free still after the inode was stored.
proof fn lemma_returned_kept(
    img: Image,
    img1: Image,
    after: Image,
    sb: Superblock,
    ino: u32,
    block: u32,
    area: Region,
    counts: Region,
)
    requires
        is_returnable(img, sb, block, area, counts),
        is_returned(img1, sb, block),
        !in_inode_of_bitmap(img, sb, ino, block),
        agree_but(img, img1, area),
        forall|a: int| !in_inode(img, sb, ino, a) ==> #[trigger] after(a) == img1(a),
    ensures
        is_returned(after, sb, block),
{
    let gb = bitmap_of(img, sb, block);
    let gda = group_desc_addr(sb, block / sb.blocks_per_group);
    let bs = sb.block_size as int;
    lemma_bitmap_of_kept(img, img1, sb, block, area, counts);
    assert(!in_inode(img, sb, ino, gda) && !in_inode(img, sb, ino, gda + 1) && !in_inode(
        img,
        sb,
        ino,
        gda + 2,
    ) && !in_inode(img, sb, ino, gda + 3));
    assert(bitmap_of(after, sb, block) == gb);
    assert(block_bytes(after, sb, gb) =~= block_bytes(img1, sb, gb)) by {
        assert forall|i: int| 0 <= i < bs implies #[trigger] after(gb * bs + i) == img1(
            gb * bs + i,
        ) by {
            assert(in_block(sb, gb, gb * bs + i));
            assert(!in_inode(img, sb, ino, gb * bs + i));
        }
    }
}

/// The volume's count of free blocks.
#[verifier::opaque]
spec fn free_count(img: Image) -> int {
    half(img, 1036)
}

/// A count of free blocks has 16 bits.
proof fn lemma_free_count(img: Image)
    ensures
        0 <= free_count(img) < 65536,
{
    reveal(free_count);
}

/// Counting modulo 2^16.
proof fn lemma_counted_on(c: int, d: int, h: int)
    requires
        d == (c + 1) % 65536,
    ensures
        (d + h) % 65536 == (c + (h + 1)) % 65536,
{
}

/// Taking a block back adds 1 to the volume's count of free blocks.
proof fn lemma_block_freed_counts(
    img: Image,
    x: Image,
    sb: Superblock,
    block: u32,
    area: Region,
    counts: Region,
)
    requires
        sb.readable(),
        is_returnable(img, sb, block, area, counts),
        agree_but(img, x, area),
    ensures
        free_count(block_freed(x, sb, block)) == (free_count(x) + 1) % 65536,
{
    reveal(free_count);
    let gb = bitmap_of(img, sb, block);
    let bit = block % sb.blocks_per_group;
    lemma_bitmap_of_kept(img, x, sb, block, area, counts);
    lemma_mod_bound(block as int, sb.blocks_per_group as int);
    let x1 = bit_cleared(x, sb, gb, bit);
    assert(counts(1036) && counts(1037));
    assert(!in_block(sb, gb, 1036) && !in_block(sb, gb, 1037));
    assert forall|a: int| !in_block(sb, gb, a) implies #[trigger] x1(a) == x(a) by {}
    assert(x1(1036) == x(1036) && x1(1037) == x(1037));
}

/// How many of the block numbers from `i` on and below the twelfth are not 0.
spec fn held_direct(ptrs: Seq<u32>, i: int) -> int
    decreases 12 - i,
{
    if i >= 12 {
        0
    } else {
        held_direct(ptrs, i + 1) + if ptrs[i] != 0 {
            1int
        } else {
            0
        }
    }
}

/// How many of the entries of an indirect block from `i` on are not 0.
spec fn held_entries(img: Image, sb: Superblock, indirect: u32, i: int) -> int
    decreases sb.block_size / 4 - i,
{
    if i >= sb.block_size / 4 {
        0
    } else {
        held_entries(img, sb, indirect, i + 1) + if entry_of(img, sb, indirect, i) != 0 {
            1int
        } else {
            0
        }
    }
}

/// Giving back the direct blocks from `i` on counts each of them.
#[verifier::rlimit(30)]
proof fn lemma_direct_counts(
    img: Image,
    x: Image,
    sb: Superblock,
    raw: Seq<u8>,
    ptrs: Seq<u32>,
    i: int,
    area: Region,
    counts: Region,
)
    requires
        sb.readable(),
        0 <= i <= 12,
        agree_but(img, x, area),
        forall|j: int|
            i <= j < 12 ==> is_none_or_returnable(img, sb, #[trigger] ptrs[j], area, counts),
    ensures
        agree_but(img, direct_freed(x, sb, raw, ptrs, i).0, area),
        free_count(direct_freed(x, sb, raw, ptrs, i).0) == (free_count(x) + held_direct(ptrs, i))
            % 65536,
    decreases 12 - i,
{
    lemma_free_count(x);
    if i < 12 {
        let block = ptrs[i];
        assert(is_none_or_returnable(img, sb, ptrs[i], area, counts));
        if block == 0 {
            lemma_direct_counts(img, x, sb, raw, ptrs, i + 1, area, counts);
        } else {
            let x1 = block_freed(x, sb, block);
            lemma_block_freed_area(img, x, sb, block, area, counts);
            lemma_block_freed_counts(img, x, sb, block, area, counts);
            lemma_direct_counts(
                img,
                x1,
                sb,
                put_u32(raw, 40 + 4 * i, 0),
                ptrs,
                i + 1,
                area,
                counts,
            );
            lemma_counted_on(free_count(x), free_count(x1), held_direct(ptrs, i + 1));
            assert(direct_freed(x, sb, raw, ptrs, i) == direct_freed(
                x1,
                sb,
                put_u32(raw, 40 + 4 * i, 0),
                ptrs,
                i + 1,
            ));
        }
    }
}

/// Giving back the blocks that an indirect block names, from entry `i` on, counts
/// each of them.
#[verifier::rlimit(30)]
proof fn lemma_entries_counts(
    img: Image,
    x: Image,
    sb: Superblock,
    indirect: u32,
    i: int,
    area: Region,
    counts: Region,
)
    requires
        sb.readable(),
        0 <= i,
        agree_but(img, x, area),
        forall|a: int| in_block(sb, indirect, a) ==> !#[trigger] area(a),
        forall|j: int|
            i <= j < sb.block_size / 4 ==> is_none_or_returnable(
                img,
                sb,
                #[trigger] entry_of(img, sb, indirect, j),
                area,
                counts,
            ),
    ensures
        agree_but(img, entries_freed(x, sb, indirect, i), area),
        free_count(entries_freed(x, sb, indirect, i)) == (free_count(x) + held_entries(
            img,
            sb,
            indirect,
            i,
        )) % 65536,
    decreases sb.block_size / 4 - i,
{
    lemma_free_count(x);
    if i < sb.block_size / 4 {
        let at = indirect * sb.block_size + 4 * i;
        assert(in_block(sb, indirect, at) && in_block(sb, indirect, at + 1) && in_block(
            sb,
            indirect,
            at + 2,
        ) && in_block(sb, indirect, at + 3));
        assert(!area(at) && !area(at + 1) && !area(at + 2) && !area(at + 3));
        let block = entry_of(img, sb, indirect, i);
        assert(u32_at(x, at) == block);
        assert(is_none_or_returnable(img, sb, entry_of(img, sb, indirect, i), area, counts));
        if block == 0 {
            lemma_entries_counts(img, x, sb, indirect, i + 1, area, counts);
        } else {
            let x1 = block_freed(x, sb, block);
            lemma_block_freed_area(img, x, sb, block, area, counts);
            lemma_block_freed_counts(img, x, sb, block, area, counts);
            lemma_entries_counts(img, x1, sb, indirect, i + 1, area, counts);
            lemma_counted_on(
                free_count(x),
                free_count(x1),
                held_entries(img, sb, indirect, i + 1),
            );
            assert(entries_freed(x, sb, indirect, i) == entries_freed(x1, sb, indirect, i + 1));
        }
    }
}

/// Block numbers that are held are those that are not lacking.
proof fn lemma_held(img: Image, sb: Superblock, raw: Seq<u8>, lo: int)
    requires
        sb.wf(),
        raw.len() >= 100,
        0 <= lo <= 12 + sb.block_size / 4,
    ensures
        ({
            let hi = 12 + sb.block_size / 4;
            let ptrs = inode_in(raw).blocks;
            let entries = if ptrs[12] == 0 {
                0
            } else {
                held_entries(img, sb, ptrs[12], if lo < 12 { 0 } else { lo - 12 })
            };
            gaps(img, sb, raw, lo, hi) == hi - lo - held_direct(ptrs, lo) - entries
        }),
    decreases 12 + sb.block_size / 4 - lo,
{
    let hi = 12 + sb.block_size / 4;
    let ptrs = inode_in(raw).blocks;
    assert(ptrs[12] == seq_u32(raw, 88));
    if lo < hi {
        lemma_held(img, sb, raw, lo + 1);
        if lo < 12 {
            assert(slot(img, sb, raw, lo) == ptrs[lo]);
        } else if ptrs[12] != 0 {
            assert(slot(img, sb, raw, lo + 1) == entry_of(img, sb, ptrs[12], lo - 12));
        }
    }
}

/// Giving back all blocks of a file counts each of them.
#[verifier::spinoff_prover]
#[verifier::rlimit(60)]
proof fn lemma_blocks_counts(
    img: Image,
    sb: Superblock,
    raw: Seq<u8>,
    area: Region,
    counts: Region,
)
    requires
        sb.readable(),
        raw.len() >= 100,
        is_returnable_file(img, sb, raw, area, counts),
    ensures
        ({
            let y = blocks_freed(img, sb, raw).0;
            let ptrs = inode_in(raw).blocks;
            let held = held_direct(ptrs, 0) + if ptrs[12] == 0 {
                0
            } else {
                held_entries(img, sb, ptrs[12], 0) + 1
            };
            &&& agree_but(img, y, area)
            &&& free_count(y) == (free_count(img) + held) % 65536
        }),
{
    let ptrs = inode_in(raw).blocks;
    assert forall|j: int| 0 <= j < 12 implies is_none_or_returnable(
        img,
        sb,
        #[trigger] ptrs[j],
        area,
        counts,
    ) by {
        assert(slot(img, sb, raw, j) == ptrs[j]);
    }
    lemma_direct_counts(img, img, sb, raw, ptrs, 0, area, counts);
    let x = direct_freed(img, sb, raw, ptrs, 0).0;
    let ind = ptrs[12];
    if ind != 0 {
        assert(slot(img, sb, raw, 12) == ind);
        assert forall|j: int| 0 <= j < sb.block_size / 4 implies is_none_or_returnable(
            img,
            sb,
            #[trigger] entry_of(img, sb, ind, j),
            area,
            counts,
        ) by {
            assert(slot(img, sb, raw, j + 13) == entry_of(img, sb, ind, j));
        }
        lemma_entries_counts(img, x, sb, ind, 0, area, counts);
        let z = entries_freed(x, sb, ind, 0);
        assert(is_none_or_returnable(img, sb, slot(img, sb, raw, 12), area, counts));
        lemma_block_freed_area(img, z, sb, ind, area, counts);
        lemma_block_freed_counts(img, z, sb, ind, area, counts);
        assert(blocks_freed(img, sb, raw).0 == block_freed(z, sb, ind));
    }
}

/// Emptying a file gives back each block that it has a number of, once: those of its
/// contents, and the indirect block. The volume's count of free blocks is so much
/// higher, modulo 2^16.
#[verifier::rlimit(30)]
pub proof fn law_truncation_counts_blocks(
    img: Image,
    sb: Superblock,
    path: Seq<u8>,
    area: Region,
    counts: Region,
)
    requires
        sb.readable(),
        100 <= sb.inode_size <= 512,
        resolved(img, sb, path) is Ok,
        ({
            let (ino, inode) = resolved(img, sb, path)->Ok_0;
            let t = table_field(sb, ino);
            &&& mode_is_file(inode.mode)
            &&& inode.size != 0
            &&& is_returnable_file(img, sb, raw_inode(img, sb, ino), area, counts)
            &&& forall|a: int| t <= a < t + 4 ==> !#[trigger] area(a)
            &&& apart(inode_addr(img, sb, ino), sb.inode_size as int, 1036, 2)
        }),
    ensures
        ({
            let after = path_truncated(img, sb, path, 0).0;
            let at = inode_addr(img, sb, (resolved(img, sb, path)->Ok_0).0);
            let most = 12 + sb.block_size / 4;
            let held = most - blocks_lacking(img, sb, at, 0, most) + if word(img, at + 88) != 0 {
                1int
            } else {
                0
            };
            half(after, 1036) == (half(img, 1036) + held) % 65536
        }),
{
    let (ino, inode) = resolved(img, sb, path)->Ok_0;
    let raw = raw_inode(img, sb, ino);
    let most = 12 + sb.block_size / 4;
    reveal(free_count);
    lemma_raw_inode(img, sb, ino);
    lemma_blocks_counts(img, sb, raw, area, counts);
    lemma_held(img, sb, raw, 0);
    lemma_numbers_alike(img, sb, ino, 0, most);
    let (y, emptied) = blocks_freed(img, sb, raw);
    assert(inode_in(raw).blocks[12] == seq_u32(raw, 88));
    assert(agree_on(img, y, table_field(sb, ino), 4));
    lemma_inode_addr_kept(img, y, sb, ino);
    let after = inode_stored(y, sb, ino, emptied).0;
    assert(path_truncated(img, sb, path, 0).0 == after);
    assert(after(1036) == y(1036) && after(1037) == y(1037));
}

} // verus!
