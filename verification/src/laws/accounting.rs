//! A write accounts for the blocks that it takes.

use vstd::prelude::*;
use crate::bitmap::block_allocated;
use crate::codec::{put_u32, seq_u32, zeros};
use crate::dir::resolved;
use crate::disk::{Image, Region};
use crate::entry::raw_inode;
use crate::laws::format::{descriptor, half, word};
use crate::laws::growth::{lemma_block_ensured, lemma_fresh_block};
use crate::laws::inode::{is_sound_file, lemma_raw_inode};
use crate::laws::making::{field32, is_put, lemma_put32};
use crate::laws::ownership::{
    in_block, in_inode, is_clean, is_count, is_laid_out, is_regular, is_sound, lemma_allocated,
    lemma_slot_of, slot, slot_count, slot_of,
};
use crate::laws::readback::{lemma_chunk_image, lemma_later, lemma_position, lemma_stored_in_block};
use crate::laws::sufficiency::{
    blocks_needed, gaps, lemma_next_chunk, lemma_numbers_alike, price, total,
};
use crate::laws::supply::law_lowest_block_is_given_out;
use crate::layout::{
    block_stored, inode_addr, inode_stored, Superblock, MAX_BLOCK_SIZE,
};
use crate::mapping::{block_ensured, block_pointed, charged, entry_pointed, wrapped_sum};
use crate::write::{chunk_len, chunk_written, data_written, grown_size, path_written};

verus! {

/// Whether both counts of free blocks are so much less than they were.
pub open spec fn is_counted(x: Image, y: Image, sb: Superblock, n: int) -> bool {
    &&& half(y, 1036) == half(x, 1036) - n
    &&& half(y, descriptor(sb, 0) + 12) == half(x, descriptor(sb, 0) + 12) - n
}

/// Whether an inode accounts for so many blocks more than it did, and has no other
/// byte changed but in its block numbers.
#[verifier::opaque]
pub open spec fn is_charged(sb: Superblock, x: Seq<u8>, y: Seq<u8>, n: int) -> bool {
    &&& y.len() == x.len()
    &&& field32(y, 28) == (field32(x, 28) + n * (sb.block_size as int / 512)) % 0x1_0000_0000
    &&& forall|j: int|
        0 <= j < x.len() && !(28 <= j < 32 || 40 <= j < 92) ==> #[trigger] y[j] == x[j]
}

/// Storing to a block that is not reserved leaves the counts.
proof fn lemma_counts_kept(
    x: Image,
    y: Image,
    sb: Superblock,
    ino: u32,
    reserved: Region,
    block: u32,
)
    requires
        is_regular(sb),
        is_laid_out(x, sb, ino, reserved),
        is_clean(sb, reserved, block),
        forall|a: int| !in_block(sb, block, a) ==> #[trigger] x(a) == y(a),
    ensures
        is_counted(x, y, sb, 0),
{
    let d = descriptor(sb, 0);
    assert(is_count(sb, 1036) && is_count(sb, 1037) && is_count(sb, d + 12) && is_count(
        sb,
        d + 13,
    ));
    assert(reserved(1036) && reserved(1037) && reserved(d + 12) && reserved(d + 13));
    assert(!in_block(sb, block, 1036) && !in_block(sb, block, 1037) && !in_block(sb, block, d + 12)
        && !in_block(sb, block, d + 13));
}

/// A block that is given out, and filled, is counted.
proof fn lemma_fresh_counted(
    img: Image,
    sb: Superblock,
    ino: u32,
    reserved: Region,
    raw: Seq<u8>,
)
    requires
        is_regular(sb),
        is_laid_out(img, sb, ino, reserved),
        is_sound(img, sb, reserved, raw),
        block_allocated(img, sb).1 is Ok,
    ensures
        ({
            let (img1, r) = block_allocated(img, sb);
            let img2 = block_stored(img1, sb, r->Ok_0, zeros(MAX_BLOCK_SIZE as nat));
            is_counted(img, img2, sb, 1)
        }),
{
    let (img1, r) = block_allocated(img, sb);
    let b = r->Ok_0;
    let img2 = block_stored(img1, sb, b, zeros(MAX_BLOCK_SIZE as nat));
    law_lowest_block_is_given_out(img, sb);
    lemma_allocated(img, sb, ino, reserved, raw);
    assert forall|a: int| !in_block(sb, b, a) implies #[trigger] img1(a) == img2(a) by {}
    lemma_counts_kept(img1, img2, sb, ino, reserved, b);
}

/// Setting an entry of an indirect block leaves the counts.
proof fn lemma_pointed_counted(
    img: Image,
    sb: Superblock,
    ino: u32,
    reserved: Region,
    indirect: u32,
    index: int,
    value: u32,
)
    requires
        is_regular(sb),
        is_laid_out(img, sb, ino, reserved),
        is_clean(sb, reserved, indirect),
        0 <= index < sb.block_size / 4,
    ensures
        is_counted(img, entry_pointed(img, sb, indirect, index, value), sb, 0),
{
    let after = entry_pointed(img, sb, indirect, index, value);
    assert forall|a: int| !in_block(sb, indirect, a) implies #[trigger] img(a) == after(a) by {}
    lemma_counts_kept(img, after, sb, ino, reserved, indirect);
}

/// An inode that accounts for what it did.
proof fn lemma_charged_none(sb: Superblock, raw: Seq<u8>)
    requires
        raw.len() >= 100,
    ensures
        is_charged(sb, raw, raw, 0),
{
    reveal(is_charged);
    assert(0 <= field32(raw, 28) < 0x1_0000_0000);
}

/// An inode that accounts for one more block.
proof fn lemma_charged_once(sb: Superblock, raw: Seq<u8>)
    requires
        raw.len() >= 100,
    ensures
        is_charged(sb, raw, charged(sb, raw), 1),
        field32(charged(sb, raw), 88) == field32(raw, 88),
{
    reveal(is_charged);
    let value = wrapped_sum(seq_u32(raw, 28), sb.block_size / 512);
    let now = charged(sb, raw);
    lemma_put32(raw, 28, value);
    assert(is_put(raw, now, 28, 4, value as int));
    assert(seq_u32(raw, 28) == field32(raw, 28));
    assert(now[88] == raw[88] && now[89] == raw[89] && now[90] == raw[90] && now[91] == raw[91]);
}

/// Blocks that are accounted for one after the other.
proof fn lemma_charged_more(
    sb: Superblock,
    x: Seq<u8>,
    y: Seq<u8>,
    z: Seq<u8>,
    m: int,
    n: int,
)
    requires
        x.len() >= 100,
        is_charged(sb, x, y, m),
        is_charged(sb, y, z, n),
    ensures
        is_charged(sb, x, z, m + n),
        z.len() == x.len(),
{
    reveal(is_charged);
    let u = sb.block_size as int / 512;
    let v = field32(x, 28);
    assert(((v + m * u) % 0x1_0000_0000 + n * u) % 0x1_0000_0000 == (v + (m + n) * u)
        % 0x1_0000_0000) by {
        assert((m + n) * u == m * u + n * u) by (nonlinear_arith);
        vstd::arithmetic::div_mod::lemma_add_mod_noop(v + m * u, n * u, 0x1_0000_0000);
        vstd::arithmetic::div_mod::lemma_add_mod_noop(
            (v + m * u) % 0x1_0000_0000,
            n * u,
            0x1_0000_0000,
        );
        vstd::arithmetic::div_mod::lemma_mod_twice(v + m * u, 0x1_0000_0000);
    }
    assert forall|j: int| 0 <= j < x.len() && !(28 <= j < 32 || 40 <= j < 92) implies z[j]
        == #[trigger] x[j] by {
        assert(y[j] == x[j]);
        assert(z[j] == y[j]);
    }
}

/// A block number that is put in an inode is not accounted for by that.
proof fn lemma_number_put(sb: Superblock, raw: Seq<u8>, at: int, value: u32)
    requires
        raw.len() >= 100,
        40 <= at <= 88,
    ensures
        is_charged(sb, raw, put_u32(raw, at, value), 0),
        field32(put_u32(raw, at, value), at) == value,
        at <= 84 ==> field32(put_u32(raw, at, value), 88) == field32(raw, 88),
{
    reveal(is_charged);
    let now = put_u32(raw, at, value);
    lemma_put32(raw, at, value);
    assert(now[28] == raw[28] && now[29] == raw[29] && now[30] == raw[30] && now[31] == raw[31]);
    assert(0 <= field32(raw, 28) < 0x1_0000_0000);
    assert(field32(now, 28) == field32(raw, 28));
    assert((field32(raw, 28) + 0 * (sb.block_size as int / 512)) % 0x1_0000_0000 == field32(
        raw,
        28,
    ));
    if at <= 84 {
        assert(now[88] == raw[88] && now[89] == raw[89] && now[90] == raw[90] && now[91]
            == raw[91]);
    }
}

/// The same of putting a block in an indirect block that is not there yet.
#[verifier::rlimit(30)]
proof fn lemma_indirect_accounts(
    img: Image,
    sb: Superblock,
    ino: u32,
    reserved: Region,
    raw: Seq<u8>,
    index: int,
    value: u32,
)
    requires
        is_regular(sb),
        is_laid_out(img, sb, ino, reserved),
        is_sound(img, sb, reserved, raw),
        raw.len() >= 100,
        12 <= index < 12 + sb.block_size / 4,
        seq_u32(raw, 88) == 0,
        block_pointed(img, sb, raw, index, value).2 is Ok,
    ensures
        ({
            let (img1, raw1, _) = block_pointed(img, sb, raw, index, value);
            &&& is_counted(img, img1, sb, 1)
            &&& is_charged(sb, raw, raw1, 1)
            &&& raw1.len() == raw.len()
            &&& field32(raw1, 88) != 0
        }),
{
    let (ia, r) = block_allocated(img, sb);
    let c = r->Ok_0;
    let ib = block_stored(ia, sb, c, zeros(MAX_BLOCK_SIZE as nat));
    lemma_fresh_counted(img, sb, ino, reserved, raw);
    lemma_fresh_block(img, sb, ino, reserved, raw);
    lemma_pointed_counted(ib, sb, ino, reserved, c, index - 12, value);
    let rp = put_u32(raw, 88, c);
    lemma_number_put(sb, raw, 88, c);
    lemma_charged_once(sb, rp);
    lemma_charged_more(sb, raw, rp, charged(sb, rp), 0, 1);
}

/// Giving a file a block takes what it takes from the counts, and the inode accounts
/// for it.
#[verifier::spinoff_prover]
#[verifier::rlimit(40)]
proof fn lemma_ensured_accounts(
    img: Image,
    sb: Superblock,
    ino: u32,
    reserved: Region,
    raw: Seq<u8>,
    index: int,
)
    requires
        is_regular(sb),
        is_laid_out(img, sb, ino, reserved),
        is_sound(img, sb, reserved, raw),
        raw.len() >= 100,
        0 <= index < 12 + sb.block_size / 4,
        block_ensured(img, sb, raw, index).2 is Ok,
    ensures
        ({
            let (img1, raw1, _) = block_ensured(img, sb, raw, index);
            let n = price(img, sb, raw, index);
            &&& is_counted(img, img1, sb, n)
            &&& is_charged(sb, raw, raw1, n)
            &&& raw1.len() == raw.len()
            &&& field32(raw1, 88) == 0 <==> field32(raw, 88) == 0 && n < 2
        }),
{
    lemma_slot_of(img, sb, raw, index);
    assert(seq_u32(raw, 88) == field32(raw, 88));
    if slot(img, sb, raw, slot_of(index)) != 0 {
        lemma_charged_none(sb, raw);
    } else {
        let (ia, ra) = block_allocated(img, sb);
        let b = ra->Ok_0;
        let zero = zeros(MAX_BLOCK_SIZE as nat);
        let ib = block_stored(ia, sb, b, zero);
        lemma_fresh_counted(img, sb, ino, reserved, raw);
        lemma_fresh_block(img, sb, ino, reserved, raw);
        let ind = seq_u32(raw, 88);
        let (ic, rc, pointed) = block_pointed(ib, sb, raw, index, b);
        assert(pointed is Ok);
        assert(block_ensured(img, sb, raw, index) == (ic, charged(sb, rc), Ok::<u32, i32>(b)));
        if index < 12 {
            lemma_number_put(sb, raw, 40 + 4 * index, b);
            lemma_charged_once(sb, rc);
            lemma_charged_more(sb, raw, rc, charged(sb, rc), 0, 1);
        } else if ind != 0 {
            assert(slot(ib, sb, raw, 12) == ind);
            lemma_pointed_counted(ib, sb, ino, reserved, ind, index - 12, b);
            lemma_charged_once(sb, rc);
        } else {
            lemma_indirect_accounts(ib, sb, ino, reserved, raw, index, b);
            lemma_charged_once(sb, rc);
            lemma_charged_more(sb, raw, rc, charged(sb, rc), 1, 1);
        }
    }
}

/// Blocks that a file gets leave those that it lacks behind them.
proof fn lemma_gaps_kept(
    x: Image,
    xr: Seq<u8>,
    y: Image,
    yr: Seq<u8>,
    sb: Superblock,
    index: int,
    lo: int,
    hi: int,
)
    requires
        sb.wf(),
        0 <= index < lo,
        hi <= 12 + sb.block_size / 4,
        forall|k: int|
            0 <= k < slot_count(sb) && k != slot_of(index) && k != 12 ==> #[trigger] slot(
                y,
                sb,
                yr,
                k,
            ) == slot(x, sb, xr, k),
    ensures
        gaps(y, sb, yr, lo, hi) == gaps(x, sb, xr, lo, hi),
    decreases hi - lo,
{
    if lo < hi {
        lemma_gaps_kept(x, xr, y, yr, sb, index, lo + 1, hi);
        lemma_slot_of(x, sb, xr, lo);
        assert(slot_of(lo) != slot_of(index));
    }
}

/// A chunk takes what its block takes, and leaves what the others take.
#[verifier::rlimit(30)]
proof fn lemma_chunk_accounts(
    img: Image,
    sb: Superblock,
    ino: u32,
    reserved: Region,
    raw: Seq<u8>,
    data: Seq<u8>,
    offset: u64,
    done: int,
    hi: int,
)
    requires
        is_regular(sb),
        is_laid_out(img, sb, ino, reserved),
        is_sound(img, sb, reserved, raw),
        raw.len() >= 100,
        0 <= done < data.len(),
        (offset + done) / (sb.block_size as int) < hi,
        chunk_written(img, sb, raw, data, offset, done).2 is Ok,
    ensures
        ({
            let (img2, raw2, _) = chunk_written(img, sb, raw, data, offset, done);
            let index = (offset + done) / (sb.block_size as int);
            let n = price(img, sb, raw, index);
            &&& 0 < chunk_len(sb, offset, data.len() as int, done) <= data.len() - done
            &&& index < 12 + sb.block_size / 4
            &&& is_laid_out(img2, sb, ino, reserved)
            &&& is_sound(img2, sb, reserved, raw2)
            &&& inode_addr(img2, sb, ino) == inode_addr(img, sb, ino)
            &&& is_counted(img, img2, sb, n)
            &&& is_charged(sb, raw, raw2, n)
            &&& raw2.len() == raw.len()
            &&& hi <= 12 + sb.block_size / 4 ==> total(img, sb, raw, index, hi) == n + total(
                img2,
                sb,
                raw2,
                index + 1,
                hi,
            )
        }),
{
    let bs = sb.block_size as int;
    let pos = offset + done;
    let index = pos / bs;
    lemma_position(sb, pos);
    assert(block_ensured(img, sb, raw, index).2 is Ok);
    lemma_block_ensured(img, sb, ino, reserved, raw, index);
    lemma_ensured_accounts(img, sb, ino, reserved, raw, index);
    let (img1, raw1, r1) = block_ensured(img, sb, raw, index);
    lemma_slot_of(img1, sb, raw1, index);
    lemma_chunk_image(img, sb, raw, data, offset, done);
    let len = chunk_len(sb, offset, data.len() as int, done);
    let chunk = data.subrange(done, done + len);
    lemma_stored_in_block(img1, sb, ino, reserved, raw1, pos, chunk);
    let (img2, raw2, _) = chunk_written(img, sb, raw, data, offset, done);
    let block = r1->Ok_0;
    assert(is_clean(sb, reserved, block));
    assert forall|a: int| !in_block(sb, block, a) implies #[trigger] img1(a) == img2(a) by {}
    lemma_counts_kept(img1, img2, sb, ino, reserved, block);
    if hi <= 12 + sb.block_size / 4 {
        assert forall|k: int|
            0 <= k < slot_count(sb) && k != slot_of(index) && k != 12 implies #[trigger] slot(
            img2,
            sb,
            raw2,
            k,
        ) == slot(img, sb, raw, k) by {
            assert(slot(img1, sb, raw1, k) == slot(img, sb, raw, k));
        }
        lemma_gaps_kept(img, raw, img2, raw2, sb, index, index + 1, hi);
        assert(seq_u32(raw, 88) == field32(raw, 88) && seq_u32(raw2, 88) == field32(raw2, 88));
    }
}

/// Data that are stored take what all their blocks take.
#[verifier::rlimit(30)]
proof fn lemma_data_accounts(
    img: Image,
    sb: Superblock,
    ino: u32,
    reserved: Region,
    raw: Seq<u8>,
    data: Seq<u8>,
    offset: u64,
    done: int,
    hi: int,
) -> (n: int)
    requires
        is_regular(sb),
        is_laid_out(img, sb, ino, reserved),
        is_sound(img, sb, reserved, raw),
        raw.len() >= 100,
        0 <= done <= data.len(),
        done < data.len() ==> hi == (offset + data.len() - 1) / (sb.block_size as int) + 1,
        data_written(img, sb, raw, data, offset, done).2 is Ok,
    ensures
        ({
            let (img2, raw2, _) = data_written(img, sb, raw, data, offset, done);
            &&& is_laid_out(img2, sb, ino, reserved)
            &&& inode_addr(img2, sb, ino) == inode_addr(img, sb, ino)
            &&& is_counted(img, img2, sb, n)
            &&& is_charged(sb, raw, raw2, n)
            &&& raw2.len() == raw.len()
            &&& done == data.len() ==> n == 0
            &&& done < data.len() ==> hi <= 12 + sb.block_size / 4 && n == total(
                img,
                sb,
                raw,
                (offset + done) / (sb.block_size as int),
                hi,
            )
        }),
    decreases data.len() - done,
{
    if done >= data.len() {
        lemma_charged_none(sb, raw);
        0
    } else {
        let bs = sb.block_size as int;
        let last = offset + data.len() - 1;
        let index = (offset + done) / bs;
        vstd::arithmetic::div_mod::lemma_div_is_ordered(offset + done, last, bs);
        vstd::arithmetic::div_mod::lemma_mod_bound(offset + done, bs);
        lemma_chunk_accounts(img, sb, ino, reserved, raw, data, offset, done, hi);
        let len = chunk_len(sb, offset, data.len() as int, done);
        let (img1, raw1, _) = chunk_written(img, sb, raw, data, offset, done);
        let m = price(img, sb, raw, index);
        if done + len < data.len() {
            lemma_next_chunk(sb, offset, data.len() as int, done);
        } else {
            lemma_last_chunk(sb, offset, data.len() as int, done);
        }
        let n = lemma_data_accounts(
            img1,
            sb,
            ino,
            reserved,
            raw1,
            data,
            offset,
            done + len,
            hi,
        );
        let raw2 = data_written(img, sb, raw, data, offset, done).1;
        lemma_charged_more(sb, raw, raw1, raw2, m, n);
        m + n
    }
}

/// The last chunk goes to the last block.
proof fn lemma_last_chunk(sb: Superblock, offset: u64, len: int, done: int)
    requires
        sb.block_size != 0,
        0 <= done < len,
        done + chunk_len(sb, offset, len, done) >= len,
    ensures
        (offset + len - 1) / (sb.block_size as int) == (offset + done) / (sb.block_size as int),
{
    let bs = sb.block_size as int;
    let pos = offset + done;
    lemma_position(sb, pos);
    lemma_later(sb, pos, len - 1 - done);
}

/// A write that was made has taken exactly as many blocks as it needed: one for each
/// block of its range that had no number, and one for the indirect block where that
/// was needed and not there. Both counts of free blocks are so much less, and the
/// inode accounts for so many blocks more, in sectors of 512 bytes modulo 2^32. The
/// size is the end of the range where that lies behind the old end, and no other byte
/// of the inode has changed but in the block numbers.
#[verifier::rlimit(30)]
pub proof fn law_write_accounts_for_blocks(
    img: Image,
    sb: Superblock,
    path: Seq<u8>,
    reserved: Region,
    offset: u64,
    data: Seq<u8>,
)
    requires
        resolved(img, sb, path) is Ok,
        is_sound_file(img, sb, (resolved(img, sb, path)->Ok_0).0, reserved),
        path_written(img, sb, path, offset, data).1 is Ok,
    ensures
        ({
            let (ino, _) = resolved(img, sb, path)->Ok_0;
            let after = path_written(img, sb, path, offset, data).0;
            let at = inode_addr(img, sb, ino);
            let bs = sb.block_size as int;
            let end = offset + data.len();
            let n = if data.len() == 0 {
                0
            } else {
                blocks_needed(img, sb, at, offset as int / bs, (end - 1) / bs + 1)
            };
            &&& half(after, 1036) == half(img, 1036) - n
            &&& half(after, descriptor(sb, 0) + 12) == half(img, descriptor(sb, 0) + 12) - n
            &&& word(after, at + 28) == (word(img, at + 28) + n * (bs / 512)) % 0x1_0000_0000
            &&& word(after, at + 4) == if word(img, at + 4) >= end {
                word(img, at + 4)
            } else {
                end as int
            }
            &&& forall|j: int|
                0 <= j < sb.inode_size && !(4 <= j < 8 || 28 <= j < 32 || 40 <= j < 92)
                    ==> #[trigger] after(at + j) == img(at + j)
        }),
{
    let (ino, inode) = resolved(img, sb, path)->Ok_0;
    let raw = raw_inode(img, sb, ino);
    let at = inode_addr(img, sb, ino);
    let bs = sb.block_size as int;
    let lo = offset as int / bs;
    let hi = if data.len() > 0 {
        (offset + data.len() - 1) / bs + 1
    } else {
        0
    };
    lemma_raw_inode(img, sb, ino);
    let n = lemma_data_accounts(img, sb, ino, reserved, raw, data, offset, 0, hi);
    lemma_position(sb, offset as int);
    if data.len() > 0 {
        vstd::arithmetic::div_mod::lemma_div_is_ordered(
            offset as int,
            offset + data.len() - 1,
            bs,
        );
        lemma_numbers_alike(img, sb, ino, lo, hi);
    }
    let (img1, raw1, _) = data_written(img, sb, raw, data, offset, 0);
    let size = grown_size(seq_u32(raw1, 4), offset, data.len()) as u32;
    let raw2 = put_u32(raw1, 4, size);
    let after = path_written(img, sb, path, offset, data).0;
    assert(after == inode_stored(img1, sb, ino, raw2).0);
    assert(seq_u32(raw1, 4) == field32(raw1, 4));
    lemma_put32(raw1, 4, size);
    lemma_write_stored(img, img1, after, sb, ino, reserved, raw, raw1, raw2, n, size as int);
}

/// What storing the inode of a file that was written to comes to.
#[verifier::rlimit(30)]
proof fn lemma_write_stored(
    img: Image,
    img1: Image,
    after: Image,
    sb: Superblock,
    ino: u32,
    reserved: Region,
    raw: Seq<u8>,
    raw1: Seq<u8>,
    raw2: Seq<u8>,
    n: int,
    size: int,
)
    requires
        is_regular(sb),
        ino >= 1,
        is_laid_out(img1, sb, ino, reserved),
        inode_addr(img1, sb, ino) == inode_addr(img, sb, ino),
        raw == raw_inode(img, sb, ino),
        is_counted(img, img1, sb, n),
        is_charged(sb, raw, raw1, n),
        is_put(raw1, raw2, 4, 4, size),
        after == inode_stored(img1, sb, ino, raw2).0,
    ensures
        ({
            let at = inode_addr(img, sb, ino);
            &&& is_counted(img, after, sb, n)
            &&& word(after, at + 28) == (word(img, at + 28) + n * (sb.block_size as int / 512))
                % 0x1_0000_0000
            &&& word(after, at + 4) == size
            &&& field32(raw1, 4) == word(img, at + 4)
            &&& forall|j: int|
                0 <= j < sb.inode_size && !(4 <= j < 8 || 28 <= j < 32 || 40 <= j < 92)
                    ==> #[trigger] after(at + j) == img(at + j)
        }),
{
    reveal(is_charged);
    let at = inode_addr(img, sb, ino);
    let d = descriptor(sb, 0);
    assert(forall|a: int| !in_inode(img1, sb, ino, a) ==> #[trigger] after(a) == img1(a));
    assert(!in_inode(img1, sb, ino, 1036) && !in_inode(img1, sb, ino, 1037));
    assert(!in_inode(img1, sb, ino, d + 12) && !in_inode(img1, sb, ino, d + 13));
    assert(raw2.len() == 512);
    assert forall|j: int| 0 <= j < sb.inode_size implies #[trigger] after(at + j) == raw2[j] by {}
    assert forall|j: int| 0 <= j < sb.inode_size implies #[trigger] img(at + j) == raw[j] by {}
    assert(raw[4] == img(at + 4) && raw[5] == img(at + 5) && raw[6] == img(at + 6) && raw[7] == img(
        at + 7,
    ));
    assert(raw[28] == img(at + 28) && raw[29] == img(at + 29) && raw[30] == img(at + 30) && raw[31]
        == img(at + 31));
    assert(raw1[4] == raw[4] && raw1[5] == raw[5] && raw1[6] == raw[6] && raw1[7] == raw[7]);
    assert(after(at + 4) == raw2[4] && after(at + 5) == raw2[5] && after(at + 6) == raw2[6]
        && after(at + 7) == raw2[7]);
    assert(after(at + 28) == raw2[28] && after(at + 29) == raw2[29] && after(at + 30) == raw2[30]
        && after(at + 31) == raw2[31]);
    assert(raw2[28] == raw1[28] && raw2[29] == raw1[29] && raw2[30] == raw1[30] && raw2[31]
        == raw1[31]);
}

} // verus!
