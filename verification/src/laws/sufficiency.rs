//! A write that can be made is made.

use vstd::prelude::*;
use crate::bitmap::{
    bit_allocated, bitmap_at, block_allocated, lemma_first_clear, };
use crate::codec::{law_put_then_get_u32, put_u32, seq_u32, zeros};
use crate::dir::resolved;
use crate::disk::{Image, Region};
use crate::entry::raw_inode;
use crate::laws::format::{
    descriptor, fails_with, half, law_block_numbers, law_mode_tells_type, word,
};
use crate::laws::growth::{lemma_block_ensured, lemma_fresh_block};
use crate::laws::inode::{is_sound_file, lemma_raw_inode};
use crate::laws::ownership::{
    block_bitmap, block_limit, in_block, is_clean, is_count, is_free, is_laid_out, is_regular,
    is_sound, lemma_allocated, lemma_block_change, lemma_slot_of, slot, slot_count, slot_of,
};
use crate::laws::readback::{
    lemma_chunk_image, lemma_position, lemma_stored_in_block,
};
use crate::laws::supply::{is_unused_block, lemma_bit};
use crate::layout::{
    block_of, block_stored, group_desc_at, inode_addr, inode_at, inode_in, Superblock,
    MAX_BLOCK_SIZE,
};
use crate::mapping::{block_ensured, block_pointed, entry_pointed, wrapped_sum};
use crate::write::{chunk_len, chunk_written, data_written, file_written, path_written};

verus! {

/// Whether `n` blocks can be given out one after the other: so many are free, and
/// so many are counted.
pub open spec fn is_supplied(img: Image, sb: Superblock, free: Set<u32>, n: int) -> bool {
    &&& free.finite()
    &&& free.len() >= n
    &&& forall|b: u32| #[trigger] free.contains(b) ==> is_free(img, sb, b)
    &&& half(img, 1036) >= n
    &&& half(img, descriptor(sb, 0) + 12) >= n
}

/// What can be given out stays so while no reserved byte changes.
proof fn lemma_supply_kept(
    x: Image,
    y: Image,
    sb: Superblock,
    ino: u32,
    reserved: Region,
    block: u32,
    free: Set<u32>,
    n: int,
)
    requires
        is_regular(sb),
        is_laid_out(x, sb, ino, reserved),
        is_clean(sb, reserved, block),
        forall|a: int| !in_block(sb, block, a) ==> #[trigger] x(a) == y(a),
        is_supplied(x, sb, free, n),
    ensures
        is_supplied(y, sb, free, n),
{
    let bare = zeros(100);
    let d = descriptor(sb, 0);
    assert(seq_u32(bare, 88) == 0);
    lemma_block_change(x, y, sb, ino, reserved, bare, block);
    assert(is_count(sb, 1036) && is_count(sb, 1037) && is_count(sb, d + 12) && is_count(
        sb,
        d + 13,
    ));
    assert(reserved(1036) && reserved(1037) && reserved(d + 12) && reserved(d + 13));
    assert(!in_block(sb, block, 1036) && !in_block(sb, block, 1037) && !in_block(sb, block, d + 12)
        && !in_block(sb, block, d + 13));
    assert forall|b: u32| #[trigger] free.contains(b) implies is_free(y, sb, b) by {
        assert(is_free(x, sb, b));
    }
}

/// Where a block can be given out, one is, and one less can be then, also after the
/// block was filled.
#[verifier::rlimit(30)]
pub proof fn lemma_given_out(
    img: Image,
    sb: Superblock,
    ino: u32,
    reserved: Region,
    raw: Seq<u8>,
    free: Set<u32>,
    n: int,
    content: Seq<u8>,
)
    requires
        is_regular(sb),
        is_laid_out(img, sb, ino, reserved),
        is_sound(img, sb, reserved, raw),
        is_supplied(img, sb, free, n),
        n >= 1,
        content.len() >= sb.block_size,
    ensures
        ({
            let (img1, r) = block_allocated(img, sb);
            let b = r->Ok_0;
            let img2 = block_stored(img1, sb, b, content);
            &&& r is Ok
            &&& is_supplied(img2, sb, free.remove(b), n - 1)
        }),
{
    let bm = block_bitmap(img, sb);
    let bits = bitmap_at(img, sb, bm);
    let max = block_limit(sb);
    let d = descriptor(sb, 0);
    lemma_first_clear(bits, 0, max);
    let some = free.choose();
    assert(free.contains(some)) by {
        if free.is_empty() {
            assert(free =~= Set::<u32>::empty());
        }
    }
    assert(is_free(img, sb, some));
    let (ia, r0) = bit_allocated(img, sb, bm, 0, max);
    assert(r0 is Ok);
    assert forall|a: int| !in_block(sb, bm, a) implies #[trigger] ia(a) == img(a) by {}
    assert(!in_block(sb, bm, 1036) && !in_block(sb, bm, 1037) && !in_block(sb, bm, d + 12)
        && !in_block(sb, bm, d + 13));
    assert(ia(1036) == img(1036) && ia(1037) == img(1037) && ia(d + 12) == img(d + 12) && ia(d + 13)
        == img(d + 13));
    let (img1, r) = block_allocated(img, sb);
    assert(r is Ok);
    let b = r->Ok_0;
    assert(half(img1, 1036) == half(img, 1036) - 1);
    assert(half(img1, d + 12) == half(img, d + 12) - 1);
    lemma_allocated(img, sb, ino, reserved, raw);
    let rest = free.remove(b);
    assert forall|c: u32| #[trigger] rest.contains(c) implies is_free(img1, sb, c) by {
        assert(free.contains(c) && c != b);
        assert(is_free(img1, sb, c) == (is_free(img, sb, c) && c != b));
    }
    assert(is_supplied(img1, sb, rest, n - 1));
    let img2 = block_stored(img1, sb, b, content);
    assert forall|a: int| !in_block(sb, b, a) implies #[trigger] img1(a) == img2(a) by {}
    lemma_supply_kept(img1, img2, sb, ino, reserved, b, rest, n - 1);
}

/// How many blocks it takes to give a file one: none where it has it, and one more
/// where it goes into an indirect block that is not there.
pub open spec fn price(img: Image, sb: Superblock, raw: Seq<u8>, index: int) -> int {
    if slot(img, sb, raw, slot_of(index)) != 0 {
        0
    } else if index >= 12 && seq_u32(raw, 88) == 0 {
        2
    } else {
        1
    }
}

/// Setting an entry of an indirect block takes nothing from what can be given out.
proof fn lemma_supply_pointed(
    img: Image,
    sb: Superblock,
    ino: u32,
    reserved: Region,
    indirect: u32,
    index: int,
    value: u32,
    free: Set<u32>,
    n: int,
)
    requires
        is_regular(sb),
        is_laid_out(img, sb, ino, reserved),
        is_clean(sb, reserved, indirect),
        0 <= index < sb.block_size / 4,
        is_supplied(img, sb, free, n),
    ensures
        is_supplied(entry_pointed(img, sb, indirect, index, value), sb, free, n),
{
    let after = entry_pointed(img, sb, indirect, index, value);
    assert forall|a: int| !in_block(sb, indirect, a) implies #[trigger] img(a) == after(a) by {}
    lemma_supply_kept(img, after, sb, ino, reserved, indirect, free, n);
}

/// Where enough blocks can be given out, a file is given one that it lacks.
#[verifier::rlimit(30)]
proof fn lemma_ensured(
    img: Image,
    sb: Superblock,
    ino: u32,
    reserved: Region,
    raw: Seq<u8>,
    index: int,
    free: Set<u32>,
    n: int,
) -> (rest: Set<u32>)
    requires
        is_regular(sb),
        is_laid_out(img, sb, ino, reserved),
        is_sound(img, sb, reserved, raw),
        raw.len() >= 100,
        0 <= index < 12 + sb.block_size / 4,
        is_supplied(img, sb, free, n),
        n >= price(img, sb, raw, index),
    ensures
        ({
            let (img1, raw1, r) = block_ensured(img, sb, raw, index);
            &&& r is Ok
            &&& is_supplied(img1, sb, rest, n - price(img, sb, raw, index))
            &&& seq_u32(raw, 88) != 0 || price(img, sb, raw, index) == 2 ==> seq_u32(raw1, 88) != 0
        }),
{
    lemma_slot_of(img, sb, raw, index);
    if slot(img, sb, raw, slot_of(index)) != 0 {
        free
    } else {
        let (ia, ra) = block_allocated(img, sb);
        let b = ra->Ok_0;
        let zero = zeros(MAX_BLOCK_SIZE as nat);
        let ib = block_stored(ia, sb, b, zero);
        lemma_given_out(img, sb, ino, reserved, raw, free, n, zero);
        lemma_fresh_block(img, sb, ino, reserved, raw);
        let left = free.remove(b);
        let ind = seq_u32(raw, 88);
        let (ic, rc, _) = block_pointed(ib, sb, raw, index, b);
        law_put_then_get_u32(rc, 28, wrapped_sum(seq_u32(rc, 28), sb.block_size / 512), 88);
        if index < 12 {
            law_put_then_get_u32(raw, 40 + 4 * index, b, 88);
            left
        } else if ind != 0 {
            assert(slot(ib, sb, raw, 12) == ind);
            lemma_supply_pointed(ib, sb, ino, reserved, ind, index - 12, b, left, n - 1);
            left
        } else {
            let (id, rd) = block_allocated(ib, sb);
            let c = rd->Ok_0;
            let ie = block_stored(id, sb, c, zero);
            lemma_given_out(ib, sb, ino, reserved, raw, left, n - 1, zero);
            lemma_fresh_block(ib, sb, ino, reserved, raw);
            lemma_supply_pointed(ie, sb, ino, reserved, c, index - 12, b, left.remove(c), n - 2);
            let rp = put_u32(raw, 88, c);
            law_put_then_get_u32(raw, 88, c, 88);
            law_put_then_get_u32(rp, 28, wrapped_sum(seq_u32(rp, 28), sb.block_size / 512), 88);
            left.remove(c)
        }
    }
}

/// How many of the blocks `lo` to `hi` a file lacks.
pub open spec fn gaps(img: Image, sb: Superblock, raw: Seq<u8>, lo: int, hi: int) -> int
    decreases hi - lo,
{
    if lo >= hi {
        0
    } else {
        gaps(img, sb, raw, lo + 1, hi) + if slot(img, sb, raw, slot_of(lo)) == 0 {
            1int
        } else {
            0
        }
    }
}

/// How many blocks it takes to give a file the blocks `lo` to `hi` that it lacks.
pub open spec fn total(img: Image, sb: Superblock, raw: Seq<u8>, lo: int, hi: int) -> int {
    gaps(img, sb, raw, lo, hi) + if lo < hi && hi > 12 && seq_u32(raw, 88) == 0 {
        1int
    } else {
        0
    }
}

/// A gentle change takes no block from a file.
proof fn lemma_gaps(
    x: Image,
    xr: Seq<u8>,
    y: Image,
    yr: Seq<u8>,
    sb: Superblock,
    lo: int,
    hi: int,
)
    requires
        sb.wf(),
        0 <= lo,
        hi <= 12 + sb.block_size / 4,
        forall|k: int|
            0 <= k < slot_count(sb) && k != 12 && #[trigger] slot(x, sb, xr, k) != 0 ==> slot(
                y,
                sb,
                yr,
                k,
            ) == slot(x, sb, xr, k),
    ensures
        0 <= gaps(y, sb, yr, lo, hi) <= gaps(x, sb, xr, lo, hi),
    decreases hi - lo,
{
    if lo < hi {
        lemma_gaps(x, xr, y, yr, sb, lo + 1, hi);
        lemma_slot_of(x, sb, xr, lo);
    }
}

/// Where enough blocks can be given out for a chunk and for all that follow, the
/// chunk is stored, and enough are left for those that follow.
#[verifier::rlimit(30)]
proof fn lemma_chunk_made(
    img: Image,
    sb: Superblock,
    ino: u32,
    reserved: Region,
    raw: Seq<u8>,
    data: Seq<u8>,
    offset: u64,
    done: int,
    hi: int,
    free: Set<u32>,
) -> (rest: Set<u32>)
    requires
        is_regular(sb),
        is_laid_out(img, sb, ino, reserved),
        is_sound(img, sb, reserved, raw),
        raw.len() >= 100,
        0 <= done < data.len(),
        (offset + done) / (sb.block_size as int) < hi <= 12 + sb.block_size / 4,
        is_supplied(
            img,
            sb,
            free,
            total(img, sb, raw, (offset + done) / (sb.block_size as int), hi),
        ),
    ensures
        ({
            let (img2, raw2, r) = chunk_written(img, sb, raw, data, offset, done);
            let n = chunk_len(sb, offset, data.len() as int, done);
            let index = (offset + done) / (sb.block_size as int);
            &&& r is Ok
            &&& 0 < n <= data.len() - done
            &&& is_laid_out(img2, sb, ino, reserved)
            &&& is_sound(img2, sb, reserved, raw2)
            &&& raw2.len() == raw.len()
            &&& forall|j: int| 0 <= j < 28 ==> #[trigger] raw2[j] == raw[j]
            &&& is_supplied(img2, sb, rest, total(img2, sb, raw2, index + 1, hi))
        }),
{
    let bs = sb.block_size as int;
    let pos = offset + done;
    let index = pos / bs;
    lemma_position(sb, pos);
    let n = total(img, sb, raw, index, hi);
    let cost = price(img, sb, raw, index);
    lemma_gaps(img, raw, img, raw, sb, index + 1, hi);
    assert(n >= cost);
    let rest = lemma_ensured(img, sb, ino, reserved, raw, index, free, n);
    lemma_block_ensured(img, sb, ino, reserved, raw, index);
    let (img1, raw1, r1) = block_ensured(img, sb, raw, index);
    lemma_slot_of(img1, sb, raw1, index);
    lemma_chunk_image(img, sb, raw, data, offset, done);
    let len = chunk_len(sb, offset, data.len() as int, done);
    let chunk = data.subrange(done, done + len);
    lemma_stored_in_block(img1, sb, ino, reserved, raw1, pos, chunk);
    let (img2, raw2, _) = chunk_written(img, sb, raw, data, offset, done);
    let block = r1->Ok_0;
    assert(is_clean(sb, reserved, block));
    assert forall|a: int| !in_block(sb, block, a) implies #[trigger] img1(a) == img2(a) by {}
    lemma_supply_kept(img1, img2, sb, ino, reserved, block, rest, n - cost);
    assert forall|k: int|
        0 <= k < slot_count(sb) && k != 12 && #[trigger] slot(img, sb, raw, k) != 0 implies slot(
        img2,
        sb,
        raw2,
        k,
    ) == slot(img, sb, raw, k) by {
        assert(slot(img1, sb, raw1, k) == slot(img, sb, raw, k));
    }
    lemma_gaps(img, raw, img2, raw2, sb, index + 1, hi);
    assert(total(img2, sb, raw2, index + 1, hi) <= n - cost);
    rest
}

/// The next chunk goes to the next block.
pub proof fn lemma_next_chunk(sb: Superblock, offset: u64, len: int, done: int)
    requires
        sb.block_size != 0,
        0 <= done < len,
        done + chunk_len(sb, offset, len, done) < len,
    ensures
        (offset + done + chunk_len(sb, offset, len, done)) / (sb.block_size as int) == (offset
            + done) / (sb.block_size as int) + 1,
{
    let bs = sb.block_size as int;
    let pos = offset + done;
    lemma_position(sb, pos);
    let n = chunk_len(sb, offset, len, done);
    assert(n == bs - pos % bs);
    let q = pos / bs;
    assert(bs * q + bs == (q + 1) * bs) by (nonlinear_arith);
    vstd::arithmetic::div_mod::lemma_fundamental_div_mod_converse(pos + n, bs, q + 1, 0);
}

/// Where enough blocks can be given out, all data are stored.
#[verifier::rlimit(30)]
proof fn lemma_data_made(
    img: Image,
    sb: Superblock,
    ino: u32,
    reserved: Region,
    raw: Seq<u8>,
    data: Seq<u8>,
    offset: u64,
    done: int,
    hi: int,
    free: Set<u32>,
)
    requires
        is_regular(sb),
        is_laid_out(img, sb, ino, reserved),
        is_sound(img, sb, reserved, raw),
        raw.len() >= 100,
        0 <= done <= data.len(),
        hi <= 12 + sb.block_size / 4,
        done < data.len() ==> hi == (offset + data.len() - 1) / (sb.block_size as int) + 1,
        done < data.len() ==> is_supplied(
            img,
            sb,
            free,
            total(img, sb, raw, (offset + done) / (sb.block_size as int), hi),
        ),
    ensures
        ({
            let (img2, raw2, r) = data_written(img, sb, raw, data, offset, done);
            &&& r is Ok
            &&& raw2.len() == raw.len()
            &&& forall|j: int| 0 <= j < 28 ==> #[trigger] raw2[j] == raw[j]
        }),
    decreases data.len() - done,
{
    if done < data.len() {
        let bs = sb.block_size as int;
        let last = offset + data.len() - 1;
        vstd::arithmetic::div_mod::lemma_div_is_ordered(offset + done, last, bs);
        let rest = lemma_chunk_made(
            img,
            sb,
            ino,
            reserved,
            raw,
            data,
            offset,
            done,
            hi,
            free,
        );
        let n = chunk_len(sb, offset, data.len() as int, done);
        let (img1, raw1, _) = chunk_written(img, sb, raw, data, offset, done);
        if done + n < data.len() {
            lemma_next_chunk(sb, offset, data.len() as int, done);
        }
        lemma_data_made(img1, sb, ino, reserved, raw1, data, offset, done + n, hi, rest);
        let (img2, raw2, _) = data_written(img, sb, raw, data, offset, done);
        assert forall|j: int| 0 <= j < 28 implies #[trigger] raw2[j] == raw[j] by {
            assert(raw1[j] == raw[j]);
        }
    }
}

/// The number of block `i` of the file whose inode starts at an address: bytes 40
/// on of the inode have the first twelve, and the block whose number is at byte 88
/// has those that follow; 0 where there is none.
pub open spec fn block_number(img: Image, sb: Superblock, at: int, i: int) -> int {
    if i < 12 {
        word(img, at + 40 + 4 * i)
    } else if word(img, at + 88) == 0 {
        0
    } else {
        word(img, word(img, at + 88) * sb.block_size + 4 * (i - 12))
    }
}

/// How many of the blocks from `lo` on and below `hi` have no number yet.
pub open spec fn blocks_lacking(img: Image, sb: Superblock, at: int, lo: int, hi: int) -> int
    decreases hi - lo,
{
    if lo >= hi {
        0
    } else {
        blocks_lacking(img, sb, at, lo + 1, hi) + if block_number(img, sb, at, lo) == 0 {
            1int
        } else {
            0
        }
    }
}

/// How many blocks a write to the blocks from `lo` on and below `hi` takes: one for
/// each that has no number yet, and one for the indirect block where it is needed
/// and not there.
pub open spec fn blocks_needed(img: Image, sb: Superblock, at: int, lo: int, hi: int) -> int {
    blocks_lacking(img, sb, at, lo, hi) + if hi > 12 && word(img, at + 88) == 0 {
        1int
    } else {
        0
    }
}

/// The block numbers of an inode on a disk are those of its bytes in a buffer.
pub proof fn lemma_numbers_alike(img: Image, sb: Superblock, ino: u32, lo: int, hi: int)
    requires
        sb.wf(),
        100 <= sb.inode_size <= 512,
        0 <= lo,
        hi <= 12 + sb.block_size / 4,
    ensures
        ({
            let at = inode_addr(img, sb, ino);
            let raw = raw_inode(img, sb, ino);
            &&& seq_u32(raw, 88) == word(img, at + 88)
            &&& gaps(img, sb, raw, lo, hi) == blocks_lacking(img, sb, at, lo, hi)
        }),
    decreases hi - lo,
{
    let at = inode_addr(img, sb, ino);
    let raw = raw_inode(img, sb, ino);
    lemma_raw_inode(img, sb, ino);
    assert(inode_in(raw).blocks[12] == seq_u32(raw, 88));
    assert(inode_at(img, at).blocks[12] == word(img, at + 88));
    if lo < hi {
        lemma_numbers_alike(img, sb, ino, lo + 1, hi);
        if lo < 12 {
            assert(inode_in(raw).blocks[lo] == slot(img, sb, raw, lo));
            assert(inode_at(img, at).blocks[lo] == word(img, at + 40 + 4 * lo));
        }
    }
}

/// A write that can be made is made. Where the last byte belongs to one of the
/// blocks that a file can have, twelve and as many as a block has 32-bit numbers, and
/// the end of the range fits in 32 bits, and the first group has a free block for
/// each block that is missing and for the indirect block if that is, with both counts
/// of free blocks as large, all bytes are written.
#[verifier::rlimit(30)]
pub proof fn law_possible_write_is_made(
    img: Image,
    sb: Superblock,
    path: Seq<u8>,
    reserved: Region,
    offset: u64,
    data: Seq<u8>,
    free: Set<u32>,
)
    requires
        resolved(img, sb, path) is Ok,
        is_sound_file(img, sb, (resolved(img, sb, path)->Ok_0).0, reserved),
        (resolved(img, sb, path)->Ok_0).1.mode / 4096 == 8,
        offset + data.len() <= 0xffff_ffff,
        data.len() > 0 ==> {
            let at = inode_addr(img, sb, (resolved(img, sb, path)->Ok_0).0);
            let bs = sb.block_size as int;
            let lo = offset as int / bs;
            let hi = (offset + data.len() - 1) / bs + 1;
            let needed = blocks_needed(img, sb, at, lo, hi);
            &&& hi <= 12 + sb.block_size / 4
            &&& free.finite()
            &&& free.len() >= needed
            &&& forall|b: u32| #[trigger] free.contains(b) ==> is_unused_block(img, sb, b as int)
            &&& half(img, 1036) >= needed
            &&& half(img, descriptor(sb, 0) + 12) >= needed
        },
    ensures
        path_written(img, sb, path, offset, data).1 is Ok,
        path_written(img, sb, path, offset, data).1->Ok_0 == data.len(),
{
    let (ino, inode) = resolved(img, sb, path)->Ok_0;
    let raw = raw_inode(img, sb, ino);
    let bs = sb.block_size as int;
    law_mode_tells_type(inode.mode);
    lemma_raw_inode(img, sb, ino);
    let lo = offset as int / bs;
    let hi = if data.len() > 0 {
        (offset + data.len() - 1) / bs + 1
    } else {
        0
    };
    if data.len() > 0 {
        lemma_position(sb, offset as int);
        lemma_numbers_alike(img, sb, ino, lo, hi);
        assert(group_desc_at(img, sb, 0).block_bitmap == word(img, descriptor(sb, 0)));
        assert forall|b: u32| #[trigger] free.contains(b) implies is_free(img, sb, b) by {
            assert(is_unused_block(img, sb, b as int));
            lemma_bit(img, sb, block_bitmap(img, sb), b);
        }
        assert(total(img, sb, raw, lo, hi) <= blocks_needed(
            img,
            sb,
            inode_addr(img, sb, ino),
            lo,
            hi,
        ));
    }
    lemma_data_made(img, sb, ino, reserved, raw, data, offset, 0, hi, free);
    let (img1, raw1, _) = data_written(img, sb, raw, data, offset, 0);
    assert(data.len() as usize == data.len());
    assert(file_written(img, sb, ino, raw, offset, data).1 is Ok);
}

/// What a write is refused with before anything is stored: the code of the path
/// where that leads nowhere, -21 for what is not a file, -22 where inodes are larger
/// than 512 bytes, -38 where the first byte belongs to no block that a file can have,
/// and -22 for no bytes behind what 32 bits can count.
pub proof fn law_write_is_refused(
    img: Image,
    sb: Superblock,
    path: Seq<u8>,
    offset: u64,
    data: Seq<u8>,
)
    requires
        sb.block_size != 0,
    ensures
        ({
            let (after, r) = path_written(img, sb, path, offset, data);
            match resolved(img, sb, path) {
                Err(e) => after == img && fails_with(r, e as int),
                Ok((_, inode)) => {
                    &&& inode.mode / 4096 != 8 ==> after == img && fails_with(r, -21)
                    &&& inode.mode / 4096 == 8 && sb.inode_size > 512 ==> after == img
                        && fails_with(r, -22)
                    &&& inode.mode / 4096 == 8 && sb.inode_size <= 512 && data.len() > 0
                        && offset as int / (sb.block_size as int) >= 12 + sb.block_size / 4
                        ==> after == img && fails_with(r, -38)
                    &&& inode.mode / 4096 == 8 && sb.inode_size <= 512 && data.len() == 0
                        && offset > 0xffff_ffff ==> after == img && fails_with(r, -22)
                },
            }
        }),
{
    if let Ok((ino, inode)) = resolved(img, sb, path) {
        law_mode_tells_type(inode.mode);
        lemma_position(sb, offset as int);
        let raw = raw_inode(img, sb, ino);
        let index = offset as int / (sb.block_size as int);
        if data.len() > 0 && index >= 12 + sb.block_size / 4 {
            law_block_numbers(img, sb, inode_in(raw), index);
            assert(chunk_len(sb, offset, data.len() as int, 0) > 0);
        }
    }
}

/// What giving a file a block is refused with.
proof fn lemma_ensured_codes(img: Image, sb: Superblock, raw: Seq<u8>, index: int)
    requires
        0 <= index,
    ensures
        block_ensured(img, sb, raw, index).2 is Err ==> if 4 * (index - 12) + 4 > sb.block_size
            && index >= 12 {
            fails_with(block_ensured(img, sb, raw, index).2, -38)
        } else {
            fails_with(block_ensured(img, sb, raw, index).2, -28)
        },
        index >= 12 && 4 * (index - 12) + 4 > sb.block_size ==> block_ensured(
            img,
            sb,
            raw,
            index,
        ).2 is Err,
        block_ensured(img, sb, raw, index).2 is Ok ==> block_of(
            block_ensured(img, sb, raw, index).0,
            sb,
            inode_in(block_ensured(img, sb, raw, index).1),
            index,
        ) is Ok,
{
    law_block_numbers(img, sb, inode_in(raw), index);
    let (img1, raw1, _) = block_ensured(img, sb, raw, index);
    law_block_numbers(img1, sb, inode_in(raw1), index);
}

/// What storing data is refused with.
proof fn lemma_data_codes(
    img: Image,
    sb: Superblock,
    raw: Seq<u8>,
    data: Seq<u8>,
    offset: u64,
    done: int,
)
    requires
        sb.block_size != 0,
        0 <= done,
    ensures
        ({
            let r = data_written(img, sb, raw, data, offset, done).2;
            &&& r is Err ==> fails_with(r, -28) || fails_with(r, -38) && (offset + data.len() - 1)
                / (sb.block_size as int) >= 12 + sb.block_size / 4
        }),
    decreases data.len() - done,
{
    let bs = sb.block_size as int;
    let n = chunk_len(sb, offset, data.len() as int, done);
    if done < data.len() && n > 0 {
        let index = (offset + done) / bs;
        lemma_position(sb, offset + done);
        vstd::arithmetic::div_mod::lemma_div_is_ordered(
            offset + done,
            offset + data.len() - 1,
            bs,
        );
        lemma_ensured_codes(img, sb, raw, index);
        let (img1, raw1, r1) = chunk_written(img, sb, raw, data, offset, done);
        if r1 is Ok {
            lemma_data_codes(img1, sb, raw1, data, offset, done + n);
        }
    }
}

/// A write to a file that could not be made for want of blocks is answered with -28,
/// and with -38 only where its last byte belongs to no block that a file can have.
pub proof fn law_unmade_write_says_why(
    img: Image,
    sb: Superblock,
    path: Seq<u8>,
    offset: u64,
    data: Seq<u8>,
)
    requires
        sb.block_size != 0,
        sb.inode_size <= 512,
        resolved(img, sb, path) is Ok,
        (resolved(img, sb, path)->Ok_0).1.mode / 4096 == 8,
        data.len() > 0,
        path_written(img, sb, path, offset, data).1 is Err,
        offset + data.len() <= 0xffff_ffff,
    ensures
        ({
            let r = path_written(img, sb, path, offset, data).1;
            ||| fails_with(r, -28)
            ||| fails_with(r, -38) && (offset + data.len() - 1) / (sb.block_size as int) >= 12
                + sb.block_size / 4
        }),
{
    let (ino, inode) = resolved(img, sb, path)->Ok_0;
    let raw = raw_inode(img, sb, ino);
    law_mode_tells_type(inode.mode);
    lemma_data_codes(img, sb, raw, data, offset, 0);
    lemma_data_len(img, sb, raw, data, offset, 0);
    lemma_path_nonzero(img, sb, path);
}

/// No path leads to inode 0.
proof fn lemma_path_nonzero(img: Image, sb: Superblock, path: Seq<u8>)
    ensures
        resolved(img, sb, path) matches Ok((ino, _)) ==> ino >= 1,
{
}

/// Storing data leaves an inode as long as it was.
proof fn lemma_data_len(
    img: Image,
    sb: Superblock,
    raw: Seq<u8>,
    data: Seq<u8>,
    offset: u64,
    done: int,
)
    ensures
        data_written(img, sb, raw, data, offset, done).1.len() == raw.len(),
    decreases data.len() - done,
{
    let n = chunk_len(sb, offset, data.len() as int, done);
    if done < data.len() && n > 0 {
        let (img1, raw1, r1) = chunk_written(img, sb, raw, data, offset, done);
        if r1 is Ok {
            lemma_data_len(img1, sb, raw1, data, offset, done + n);
        }
    }
}

} // verus!
