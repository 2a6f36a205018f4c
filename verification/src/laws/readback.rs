//! A file gives back what was written to it.

use vstd::arithmetic::div_mod::{lemma_fundamental_div_mod, lemma_mod_bound};
use vstd::prelude::*;
use crate::codec::{law_put_then_get_u32, overlay, put_u32, seq_u16, seq_u32};
use crate::dir::resolved;
use crate::disk::{patched, Image, Region};
use crate::entry::raw_inode;
use crate::file::{file_data, file_read};
use crate::laws::growth::{is_gentle, lemma_block_ensured};
use crate::laws::inode::{
    is_sound_file, lemma_raw_inode, lemma_slots_resized, lemma_sound_after_store,
    lemma_sound_same_slots, spared,
};
use crate::laws::ownership::{
    block_bitmap, in_block, in_inode, is_clean, is_count, is_laid_out, is_regular, is_sound,
    lemma_block_change, lemma_blocks_disjoint, lemma_slot_of, lemma_sound_kept, slot, slot_count,
    slot_of,
};
use crate::laws::steady::{
    agree_in, is_steady_content, is_steady_inode, is_steady_path, law_unchanged_region,
    lemma_walk_kept,
};
use crate::laws::storage::law_inode_reads_back;
use crate::layout::{
    block_of, block_stored, inode_addr, inode_at, inode_in, inode_numbered, mode_is_file,
    Superblock, ROOT_INO,
};
use crate::mapping::block_ensured;
use crate::ops::{path_listed, path_read};
use crate::path::components;
use crate::write::{
    block_base, chunk_len, chunk_written, data_written, file_written, grown_size, path_written,
};

verus! {

/// Whether a file holds the first `done` bytes of `data` from `offset` on.
pub open spec fn holds(
    img: Image,
    sb: Superblock,
    raw: Seq<u8>,
    offset: int,
    data: Seq<u8>,
    done: int,
) -> bool {
    forall|p: int| offset <= p < offset + done ==> #[trigger] holds_at(img, sb, raw, offset, data, p)
}

/// Whether a file holds at `p` the byte that `data` has there, if its first goes
/// to `offset`.
pub open spec fn holds_at(
    img: Image,
    sb: Superblock,
    raw: Seq<u8>,
    offset: int,
    data: Seq<u8>,
    p: int,
) -> bool {
    let bs = sb.block_size as int;
    let s = slot(img, sb, raw, slot_of(p / bs));
    p / bs < 12 + sb.block_size / 4 && s != 0 && img(s * bs + p % bs) == data[p - offset]
}

/// Where a byte lies in its block.
pub proof fn lemma_position(sb: Superblock, p: int)
    requires
        sb.block_size != 0,
        0 <= p,
    ensures
        0 <= p / (sb.block_size as int),
        0 <= p % (sb.block_size as int) < sb.block_size,
        p == sb.block_size * (p / (sb.block_size as int)) + p % (sb.block_size as int),
{
    lemma_fundamental_div_mod(p, sb.block_size as int);
    lemma_mod_bound(p, sb.block_size as int);
    vstd::arithmetic::div_mod::lemma_div_pos_is_pos(p, sb.block_size as int);
}

/// Bytes earlier in the same block have a smaller place in it.
pub proof fn lemma_earlier(sb: Superblock, p: int, q: int)
    requires
        sb.block_size != 0,
        0 <= p < q,
        p / (sb.block_size as int) == q / (sb.block_size as int),
    ensures
        p % (sb.block_size as int) < q % (sb.block_size as int),
{
    lemma_position(sb, p);
    lemma_position(sb, q);
}

/// Bytes that follow in the same block.
pub proof fn lemma_later(sb: Superblock, p: int, n: int)
    requires
        sb.block_size != 0,
        0 <= p,
        0 <= n,
        p % (sb.block_size as int) + n < sb.block_size,
    ensures
        (p + n) / (sb.block_size as int) == p / (sb.block_size as int),
        (p + n) % (sb.block_size as int) == p % (sb.block_size as int) + n,
{
    let bs = sb.block_size as int;
    lemma_position(sb, p);
    let q = p / bs;
    assert(bs * q == q * bs) by (nonlinear_arith);
    vstd::arithmetic::div_mod::lemma_fundamental_div_mod_converse(p + n, bs, q, p % bs + n);
}

/// Storing a chunk in a block that a file has is one store into the middle of
/// the block.
pub proof fn lemma_chunk_image(
    img: Image,
    sb: Superblock,
    raw: Seq<u8>,
    data: Seq<u8>,
    offset: u64,
    done: int,
)
    requires
        is_regular(sb),
        0 <= done < data.len(),
        ({
            let index = (offset + done) / (sb.block_size as int);
            let (img1, raw1, r) = block_ensured(img, sb, raw, index);
            &&& r is Ok
            &&& r->Ok_0 != 0
            &&& block_of(img1, sb, inode_in(raw1), index) == r
        }),
    ensures
        ({
            let bs = sb.block_size as int;
            let pos = offset + done;
            let n = chunk_len(sb, offset, data.len() as int, done);
            let (img1, raw1, r) = block_ensured(img, sb, raw, pos / bs);
            &&& 0 < n <= data.len() - done
            &&& n <= bs - pos % bs
            &&& chunk_written(img, sb, raw, data, offset, done) == (
                patched(img1, r->Ok_0 * bs + pos % bs, data.subrange(done, done + n)),
                raw1,
                Ok::<(), i32>(()),
            )
        }),
{
    let bs = sb.block_size as int;
    let pos = offset + done;
    let n = chunk_len(sb, offset, data.len() as int, done);
    lemma_position(sb, pos);
    let (img1, raw1, r) = block_ensured(img, sb, raw, pos / bs);
    let block = r->Ok_0;
    let chunk = data.subrange(done, done + n);
    let base = block_base(img1, sb, block, block);
    let content = overlay(base, pos % bs, chunk);
    let x = block_stored(img1, sb, block, content);
    let y = patched(img1, block * bs + pos % bs, chunk);
    assert forall|a: int| #[trigger] x(a) == y(a) by {
        if in_block(sb, block, a) {
            assert(content.take(bs)[a - block * bs] == content[a - block * bs]);
        }
    }
    assert(x =~= y);
}

/// A byte that a file holds is still there after a gentle change and a store
/// into one of its blocks behind that byte.
proof fn lemma_byte_kept(
    img: Image,
    raw: Seq<u8>,
    img1: Image,
    raw1: Seq<u8>,
    sb: Superblock,
    ino: u32,
    reserved: Region,
    data: Seq<u8>,
    offset: int,
    pos: int,
    chunk: Seq<u8>,
    p: int,
)
    requires
        is_regular(sb),
        is_gentle(img, raw, img1, raw1, sb, ino, reserved),
        is_sound(img1, sb, reserved, raw1),
        0 <= offset <= p < pos,
        holds_at(img, sb, raw, offset, data, p),
        pos / (sb.block_size as int) < 12 + sb.block_size / 4,
        slot(img1, sb, raw1, slot_of(pos / (sb.block_size as int))) != 0,
        chunk.len() <= sb.block_size - pos % (sb.block_size as int),
    ensures
        ({
            let bs = sb.block_size as int;
            let block = slot(img1, sb, raw1, slot_of(pos / bs));
            let s = slot(img1, sb, raw1, slot_of(p / bs));
            &&& s == slot(img, sb, raw, slot_of(p / bs))
            &&& patched(img1, block * bs + pos % bs, chunk)(s * bs + p % bs) == data[p - offset]
        }),
{
    let bs = sb.block_size as int;
    let block = slot(img1, sb, raw1, slot_of(pos / bs));
    let s = slot(img, sb, raw, slot_of(p / bs));
    lemma_position(sb, p);
    lemma_position(sb, pos);
    lemma_slot_of(img, sb, raw, p / bs);
    lemma_slot_of(img1, sb, raw1, pos / bs);
    let a = s * bs + p % bs;
    assert(in_block(sb, s, a));
    assert(slot(img1, sb, raw1, slot_of(p / bs)) == s);
    assert(img1(a) == img(a));
    if s == block {
        assert(slot_of(p / bs) == slot_of(pos / bs));
        lemma_earlier(sb, p, pos);
    } else {
        lemma_blocks_disjoint(sb, s, block, a);
    }
}

/// A store into the middle of a block that a file has: the file is still sound.
pub proof fn lemma_stored_in_block(
    img: Image,
    sb: Superblock,
    ino: u32,
    reserved: Region,
    raw: Seq<u8>,
    pos: int,
    chunk: Seq<u8>,
)
    requires
        is_regular(sb),
        is_laid_out(img, sb, ino, reserved),
        is_sound(img, sb, reserved, raw),
        0 <= pos,
        pos / (sb.block_size as int) < 12 + sb.block_size / 4,
        slot(img, sb, raw, slot_of(pos / (sb.block_size as int))) != 0,
        chunk.len() <= sb.block_size - pos % (sb.block_size as int),
    ensures
        ({
            let bs = sb.block_size as int;
            let block = slot(img, sb, raw, slot_of(pos / bs));
            let after = patched(img, block * bs + pos % bs, chunk);
            &&& is_laid_out(after, sb, ino, reserved)
            &&& is_sound(after, sb, reserved, raw)
            &&& block_bitmap(after, sb) == block_bitmap(img, sb)
            &&& inode_addr(after, sb, ino) == inode_addr(img, sb, ino)
            &&& forall|a: int| reserved(a) ==> #[trigger] after(a) == img(a)
            &&& forall|k: int|
                0 <= k < slot_count(sb) ==> #[trigger] slot(after, sb, raw, k) == slot(
                    img,
                    sb,
                    raw,
                    k,
                )
        }),
{
    let bs = sb.block_size as int;
    lemma_position(sb, pos);
    let place = slot_of(pos / bs);
    let block = slot(img, sb, raw, place);
    let after = patched(img, block * bs + pos % bs, chunk);
    assert forall|a: int| !in_block(sb, block, a) implies #[trigger] img(a) == after(a) by {}
    assert(slot(img, sb, raw, 12) == seq_u32(raw, 88));
    assert(is_clean(sb, reserved, block));
    lemma_block_change(img, after, sb, ino, reserved, raw, block);
    lemma_sound_kept(img, after, sb, reserved, raw);
    assert forall|a: int| reserved(a) implies #[trigger] after(a) == img(a) by {
        assert(!in_block(sb, block, a));
    }
}

/// After a gentle change and a store of the next bytes of `data` into a block of
/// the file, the file holds those too.
proof fn lemma_holds_more(
    img: Image,
    raw: Seq<u8>,
    img1: Image,
    raw1: Seq<u8>,
    sb: Superblock,
    ino: u32,
    reserved: Region,
    data: Seq<u8>,
    offset: int,
    done: int,
    n: int,
)
    requires
        is_regular(sb),
        is_laid_out(img1, sb, ino, reserved),
        is_gentle(img, raw, img1, raw1, sb, ino, reserved),
        is_sound(img1, sb, reserved, raw1),
        holds(img, sb, raw, offset, data, done),
        0 <= offset,
        0 <= done,
        0 <= n <= data.len() - done,
        (offset + done) / (sb.block_size as int) < 12 + sb.block_size / 4,
        slot(img1, sb, raw1, slot_of((offset + done) / (sb.block_size as int))) != 0,
        n <= sb.block_size - (offset + done) % (sb.block_size as int),
    ensures
        ({
            let bs = sb.block_size as int;
            let pos = offset + done;
            let block = slot(img1, sb, raw1, slot_of(pos / bs));
            let after = patched(img1, block * bs + pos % bs, data.subrange(done, done + n));
            holds(after, sb, raw1, offset, data, done + n)
        }),
{
    let bs = sb.block_size as int;
    let pos = offset + done;
    let place = slot_of(pos / bs);
    let block = slot(img1, sb, raw1, place);
    let chunk = data.subrange(done, done + n);
    let after = patched(img1, block * bs + pos % bs, chunk);
    lemma_position(sb, pos);
    lemma_stored_in_block(img1, sb, ino, reserved, raw1, pos, chunk);
    assert forall|p: int| offset <= p < offset + (done + n) implies #[trigger] holds_at(
        after,
        sb,
        raw1,
        offset,
        data,
        p,
    ) by {
        lemma_position(sb, p);
        if p < pos {
            assert(holds_at(img, sb, raw, offset, data, p));
            lemma_byte_kept(
                img,
                raw,
                img1,
                raw1,
                sb,
                ino,
                reserved,
                data,
                offset,
                pos,
                chunk,
                p,
            );
            lemma_slot_of(img1, sb, raw1, p / bs);
            assert(slot(after, sb, raw1, slot_of(p / bs)) == slot(
                img1,
                sb,
                raw1,
                slot_of(p / bs),
            ));
        } else {
            lemma_later(sb, pos, p - pos);
            lemma_slot_of(img1, sb, raw1, pos / bs);
            assert(slot(after, sb, raw1, place) == block);
            assert(chunk[p - pos] == data[p - offset]);
        }
    }
}

/// Storing a chunk: the file is still sound, the chunk is in it, and what it
/// held before it still holds.
pub proof fn lemma_chunk_written(
    img: Image,
    sb: Superblock,
    ino: u32,
    reserved: Region,
    raw: Seq<u8>,
    data: Seq<u8>,
    offset: u64,
    done: int,
)
    requires
        is_regular(sb),
        is_laid_out(img, sb, ino, reserved),
        is_sound(img, sb, reserved, raw),
        raw.len() >= 100,
        0 <= done < data.len(),
        holds(img, sb, raw, offset as int, data, done),
        chunk_written(img, sb, raw, data, offset, done).2 is Ok,
    ensures
        ({
            let (img2, raw2, _) = chunk_written(img, sb, raw, data, offset, done);
            let n = chunk_len(sb, offset, data.len() as int, done);
            &&& 0 < n <= data.len() - done
            &&& is_laid_out(img2, sb, ino, reserved)
            &&& is_sound(img2, sb, reserved, raw2)
            &&& raw2.len() == raw.len()
            &&& forall|j: int| 0 <= j < 28 ==> #[trigger] raw2[j] == raw[j]
            &&& block_bitmap(img2, sb) == block_bitmap(img, sb)
            &&& inode_addr(img2, sb, ino) == inode_addr(img, sb, ino)
            &&& forall|a: int|
                reserved(a) && !in_block(sb, block_bitmap(img, sb), a) && !is_count(sb, a)
                    ==> #[trigger] img2(a) == img(a)
            &&& holds(img2, sb, raw2, offset as int, data, done + n)
        }),
{
    let bs = sb.block_size as int;
    let pos = offset + done;
    let index = pos / bs;
    let n = chunk_len(sb, offset, data.len() as int, done);
    lemma_position(sb, pos);
    assert(block_ensured(img, sb, raw, index).2 is Ok);
    lemma_block_ensured(img, sb, ino, reserved, raw, index);
    let img1 = block_ensured(img, sb, raw, index).0;
    let raw1 = block_ensured(img, sb, raw, index).1;
    lemma_slot_of(img1, sb, raw1, index);
    lemma_chunk_image(img, sb, raw, data, offset, done);
    let chunk = data.subrange(done, done + n);
    lemma_stored_in_block(img1, sb, ino, reserved, raw1, pos, chunk);
    lemma_holds_more(img, raw, img1, raw1, sb, ino, reserved, data, offset as int, done, n);
    let img2 = chunk_written(img, sb, raw, data, offset, done).0;
    assert forall|a: int|
        reserved(a) && !in_block(sb, block_bitmap(img, sb), a) && !is_count(
            sb,
            a,
        ) implies #[trigger] img2(a) == img(a) by {
        assert(img1(a) == img(a));
    }
}

/// Storing data: the file is still sound and holds them.
pub proof fn lemma_data_written(
    img: Image,
    sb: Superblock,
    ino: u32,
    reserved: Region,
    raw: Seq<u8>,
    data: Seq<u8>,
    offset: u64,
    done: int,
)
    requires
        is_regular(sb),
        is_laid_out(img, sb, ino, reserved),
        is_sound(img, sb, reserved, raw),
        raw.len() >= 100,
        0 <= done <= data.len(),
        holds(img, sb, raw, offset as int, data, done),
        data_written(img, sb, raw, data, offset, done).2 is Ok,
    ensures
        ({
            let (img2, raw2, _) = data_written(img, sb, raw, data, offset, done);
            &&& is_laid_out(img2, sb, ino, reserved)
            &&& is_sound(img2, sb, reserved, raw2)
            &&& raw2.len() == raw.len()
            &&& forall|j: int| 0 <= j < 28 ==> #[trigger] raw2[j] == raw[j]
            &&& block_bitmap(img2, sb) == block_bitmap(img, sb)
            &&& inode_addr(img2, sb, ino) == inode_addr(img, sb, ino)
            &&& forall|a: int|
                reserved(a) && !in_block(sb, block_bitmap(img, sb), a) && !is_count(sb, a)
                    ==> #[trigger] img2(a) == img(a)
            &&& holds(img2, sb, raw2, offset as int, data, data.len() as int)
        }),
    decreases data.len() - done,
{
    if done < data.len() {
        lemma_mod_bound(offset + done, sb.block_size as int);
        lemma_chunk_written(img, sb, ino, reserved, raw, data, offset, done);
        let n = chunk_len(sb, offset, data.len() as int, done);
        let (img1, raw1, _) = chunk_written(img, sb, raw, data, offset, done);
        lemma_data_written(img1, sb, ino, reserved, raw1, data, offset, done + n);
        let (img2, raw2, _) = data_written(img, sb, raw, data, offset, done);
        assert forall|j: int| 0 <= j < 28 implies #[trigger] raw2[j] == raw[j] by {
            assert(raw1[j] == raw[j]);
        }
        assert forall|a: int|
            reserved(a) && !in_block(sb, block_bitmap(img, sb), a) && !is_count(
                sb,
                a,
            ) implies #[trigger] img2(a) == img(a) by {
            assert(img1(a) == img(a));
        }
    }
}

/// Reading a range of a file whose blocks are all there gives the bytes in
/// them.
proof fn lemma_file_data_held(
    img: Image,
    sb: Superblock,
    raw: Seq<u8>,
    offset: int,
    data: Seq<u8>,
    pos: int,
)
    requires
        sb.readable(),
        0 <= offset <= pos <= offset + data.len(),
        holds(img, sb, raw, offset, data, data.len() as int),
    ensures
        file_data(img, sb, inode_in(raw), pos, offset + data.len()) == (
            data.skip(pos - offset),
            None::<i32>,
        ),
    decreases offset + data.len() - pos,
{
    let bs = sb.block_size as int;
    if pos == offset + data.len() {
        assert(data.skip(pos - offset) =~= Seq::<u8>::empty());
    } else {
        lemma_position(sb, pos);
        assert(holds_at(img, sb, raw, offset, data, pos));
        lemma_slot_of(img, sb, raw, pos / bs);
        lemma_file_data_held(img, sb, raw, offset, data, pos + 1);
        assert(seq![data[pos - offset]] + data.skip(pos + 1 - offset) =~= data.skip(pos - offset));
    }
}

/// What writing to a file comes to, where it works: the file reads back, and
/// what is reserved is unchanged but for the bitmap, the counts and the inode.
proof fn lemma_file_written(
    img: Image,
    sb: Superblock,
    ino: u32,
    reserved: Region,
    offset: u64,
    data: Seq<u8>,
)
    requires
        is_sound_file(img, sb, ino, reserved),
        file_written(img, sb, ino, raw_inode(img, sb, ino), offset, data).1 is Ok,
    ensures
        ({
            let raw = raw_inode(img, sb, ino);
            let (after, r) = file_written(img, sb, ino, raw, offset, data);
            let was = inode_at(img, inode_addr(img, sb, ino));
            let now = inode_at(after, inode_addr(after, sb, ino));
            &&& r->Ok_0 == data.len() as usize
            &&& inode_numbered(after, sb, ino) == Ok::<_, i32>(now)
            &&& now.mode == was.mode
            &&& now.size == grown_size(was.size, offset, data.len())
            &&& file_data(after, sb, now, offset as int, offset + data.len()) == (
                data,
                None::<i32>,
            )
            &&& inode_addr(after, sb, ino) == inode_addr(img, sb, ino)
            &&& block_bitmap(after, sb) == block_bitmap(img, sb)
            &&& is_sound_file(after, sb, ino, reserved)
            &&& forall|a: int|
                reserved(a) && !in_block(sb, block_bitmap(img, sb), a) && !is_count(sb, a)
                    && !in_inode(img, sb, ino, a) ==> #[trigger] after(a) == img(a)
        }),
{
    let raw = raw_inode(img, sb, ino);
    let bs = sb.block_size as int;
    lemma_raw_inode(img, sb, ino);
    lemma_data_written(img, sb, ino, reserved, raw, data, offset, 0);
    let (img1, raw1, _) = data_written(img, sb, raw, data, offset, 0);
    let size = grown_size(seq_u32(raw1, 4), offset, data.len()) as u32;
    let raw2 = put_u32(raw1, 4, size);
    let (after, _) = file_written(img, sb, ino, raw, offset, data);
    assert(seq_u32(raw1, 4) == seq_u32(raw, 4));
    assert(seq_u16(raw2, 0) == seq_u16(raw, 0));
    law_inode_reads_back(img1, sb, ino, raw2);
    law_put_then_get_u32(raw1, 4, size, 4);
    lemma_slots_resized(img1, sb, raw1, size);
    lemma_sound_same_slots(img1, raw1, img1, raw2, sb, reserved);
    lemma_sound_after_store(img1, sb, ino, reserved, raw2);
    assert forall|p: int| offset <= p < offset + data.len() implies #[trigger] holds_at(
        after,
        sb,
        raw2,
        offset as int,
        data,
        p,
    ) by {
        assert(holds_at(img1, sb, raw1, offset as int, data, p));
        lemma_position(sb, p);
        let s = slot(img1, sb, raw1, slot_of(p / bs));
        lemma_slot_of(img1, sb, raw1, p / bs);
        assert(slot(img1, sb, raw2, slot_of(p / bs)) == s);
        assert(slot(after, sb, raw2, slot_of(p / bs)) == s);
        let a = s * bs + p % bs;
        assert(in_block(sb, s, a));
        assert(is_clean(sb, reserved, s));
        assert(!reserved(a));
    }
    lemma_file_data_held(after, sb, raw2, offset as int, data, offset as int);
    assert(data.skip(0) =~= data);
    assert forall|a: int|
        reserved(a) && !in_block(sb, block_bitmap(img, sb), a) && !is_count(sb, a) && !in_inode(
            img,
            sb,
            ino,
            a,
        ) implies #[trigger] after(a) == img(a) by {
        assert(img1(a) == img(a));
    }
}

/// A sound file reads back what was written to it: where a write succeeds, it
/// took all bytes, a read of the same range gives them, the file is as long as
/// the write made it, and it is sound again.
pub proof fn law_read_gives_back_write(
    img: Image,
    sb: Superblock,
    ino: u32,
    reserved: Region,
    offset: u64,
    data: Seq<u8>,
)
    requires
        is_sound_file(img, sb, ino, reserved),
        mode_is_file(inode_at(img, inode_addr(img, sb, ino)).mode),
        data.len() <= usize::MAX,
        file_written(img, sb, ino, raw_inode(img, sb, ino), offset, data).1 is Ok,
    ensures
        ({
            let (after, r) = file_written(
                img,
                sb,
                ino,
                raw_inode(img, sb, ino),
                offset,
                data,
            );
            let was = inode_at(img, inode_addr(img, sb, ino));
            let now = inode_at(after, inode_addr(after, sb, ino));
            &&& r->Ok_0 == data.len()
            &&& file_read(after, sb, now, offset, data.len()) == (
                data,
                Ok::<usize, i32>(data.len() as usize),
            )
            &&& now.size == grown_size(was.size, offset, data.len())
            &&& now.mode == was.mode
            &&& is_sound_file(after, sb, ino, reserved)
        }),
{
    lemma_file_written(img, sb, ino, reserved, offset, data);
}

/// Writing to a sound file leaves alone what is reserved, but for the bitmap,
/// the counts of free blocks and the inode of the file.
pub proof fn law_write_keeps_reserved(
    img: Image,
    sb: Superblock,
    ino: u32,
    reserved: Region,
    offset: u64,
    data: Seq<u8>,
)
    requires
        is_sound_file(img, sb, ino, reserved),
        file_written(img, sb, ino, raw_inode(img, sb, ino), offset, data).1 is Ok,
    ensures
        agree_in(
            img,
            file_written(img, sb, ino, raw_inode(img, sb, ino), offset, data).0,
            spared(img, sb, ino, reserved),
        ),
{
    lemma_file_written(img, sb, ino, reserved, offset, data);
    let after = file_written(img, sb, ino, raw_inode(img, sb, ino), offset, data).0;
    let region = spared(img, sb, ino, reserved);
    assert forall|a: int| #[trigger] region(a) implies img(a) == after(a) by {
        assert(after(a) == img(a));
    }
}

/// What a successful write to the file at a path stored, a read from the path
/// gives back. The path leads to the same inode still, with the mode it had and
/// the size that the write made it. Asked for is that the file is sound and that
/// the directories on the way to it are reserved.
pub proof fn law_path_reads_back(
    img: Image,
    sb: Superblock,
    path: Seq<u8>,
    reserved: Region,
    offset: u64,
    data: Seq<u8>,
)
    requires
        resolved(img, sb, path) is Ok,
        is_sound_file(img, sb, (resolved(img, sb, path)->Ok_0).0, reserved),
        is_steady_path(
            img,
            sb,
            spared(img, sb, (resolved(img, sb, path)->Ok_0).0, reserved),
            path,
        ),
        data.len() <= usize::MAX,
        path_written(img, sb, path, offset, data).1 is Ok,
    ensures
        ({
            let (ino, was) = resolved(img, sb, path)->Ok_0;
            let (after, r) = path_written(img, sb, path, offset, data);
            &&& r == Ok::<usize, i32>(data.len() as usize)
            &&& path_read(after, sb, path, offset, data.len()) == (data, r)
            &&& resolved(after, sb, path) is Ok
            &&& (resolved(after, sb, path)->Ok_0).0 == ino
            &&& (resolved(after, sb, path)->Ok_0).1.mode == was.mode
            &&& (resolved(after, sb, path)->Ok_0).1.size == grown_size(
                was.size,
                offset,
                data.len(),
            )
            &&& is_sound_file(after, sb, ino, reserved)
        }),
{
    let (ino, _) = resolved(img, sb, path)->Ok_0;
    let (after, _) = path_written(img, sb, path, offset, data);
    law_read_gives_back_write(img, sb, ino, reserved, offset, data);
    law_write_keeps_reserved(img, sb, ino, reserved, offset, data);
    lemma_walk_kept(
        img,
        after,
        sb,
        spared(img, sb, ino, reserved),
        ROOT_INO,
        components(path),
    );
}

/// A successful write to the file at one path changes nothing at another path
/// whose directories, inode and blocks are reserved and not those of the file:
/// it leads to the same inode, reads the same and lists the same.
pub proof fn law_write_keeps_other_paths(
    img: Image,
    sb: Superblock,
    path: Seq<u8>,
    reserved: Region,
    offset: u64,
    data: Seq<u8>,
    other: Seq<u8>,
    from: u64,
    len: nat,
    room: int,
)
    requires
        resolved(img, sb, path) is Ok,
        is_sound_file(img, sb, (resolved(img, sb, path)->Ok_0).0, reserved),
        path_written(img, sb, path, offset, data).1 is Ok,
        resolved(img, sb, other) is Ok,
        ({
            let region = spared(img, sb, (resolved(img, sb, path)->Ok_0).0, reserved);
            let (ino, inode) = resolved(img, sb, other)->Ok_0;
            &&& is_steady_path(img, sb, region, other)
            &&& is_steady_inode(img, sb, region, ino)
            &&& is_steady_content(img, sb, region, inode)
        }),
    ensures
        ({
            let after = path_written(img, sb, path, offset, data).0;
            &&& resolved(after, sb, other) == resolved(img, sb, other)
            &&& path_read(after, sb, other, from, len) == path_read(img, sb, other, from, len)
            &&& path_listed(after, sb, other, room) == path_listed(img, sb, other, room)
        }),
{
    let (ino, _) = resolved(img, sb, path)->Ok_0;
    let region = spared(img, sb, ino, reserved);
    let after = path_written(img, sb, path, offset, data).0;
    law_write_keeps_reserved(img, sb, ino, reserved, offset, data);
    law_unchanged_region(img, after, sb, region, other, from, len, room);
}

} // verus!
