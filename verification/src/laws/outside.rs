//! A write leaves the rest of its file alone, and all of it where it fails.

use vstd::arithmetic::div_mod::lemma_mod_bound;
use vstd::prelude::*;
use crate::codec::{law_put_then_get_u32, put_u32, seq_u32};
use crate::dir::resolved;
use crate::disk::{patched, Image, Region};
use crate::entry::raw_inode;
use crate::file::{file_data, read_end};
use crate::laws::directory::lemma_raw_inode_kept;
use crate::laws::growth::{is_blank, is_gentle, lemma_block_ensured, lemma_block_refused};
use crate::laws::inode::{
    is_sound_file, lemma_raw_inode, lemma_slots_resized, lemma_sound_after_store,
    lemma_sound_same_slots, spared,
};
use crate::laws::ownership::{
    block_bitmap, in_block, in_inode, is_clean, is_count, is_laid_out, is_regular, is_sound,
    lemma_blocks_disjoint, lemma_slot_of, slot, slot_of,
};
use crate::laws::readback::{
    holds, law_path_reads_back, lemma_chunk_image, lemma_chunk_written, lemma_data_written,
    lemma_earlier, lemma_later, lemma_position, lemma_stored_in_block,
};
use crate::laws::steady::{agree_in, is_steady_path, lemma_walk_kept};
use crate::laws::storage::law_inode_reads_back;
use crate::layout::{block_of, inode_addr, inode_at, InodeView, Superblock, ROOT_INO};
use crate::mapping::block_ensured;
use crate::ops::path_read;
use crate::path::components;
use crate::write::{chunk_len, chunk_written, data_written, file_written, grown_size, path_written};

verus! {

/// Whether byte `p` of a file is what it was: it stands where it stood, or it is
/// 0 where the file had no block for it.
pub open spec fn is_kept(
    x: Image,
    xr: Seq<u8>,
    y: Image,
    yr: Seq<u8>,
    sb: Superblock,
    p: int,
) -> bool {
    let bs = sb.block_size as int;
    let s = slot(x, sb, xr, slot_of(p / bs));
    let t = slot(y, sb, yr, slot_of(p / bs));
    p / bs < 12 + sb.block_size / 4 ==> {
        &&& s != 0 ==> t == s && y(s * bs + p % bs) == x(s * bs + p % bs)
        &&& s == 0 && t != 0 ==> y(t * bs + p % bs) == 0
    }
}

/// A gentle change keeps every byte.
proof fn lemma_gentle_keeps(
    x: Image,
    xr: Seq<u8>,
    y: Image,
    yr: Seq<u8>,
    sb: Superblock,
    ino: u32,
    reserved: Region,
    p: int,
)
    requires
        sb.readable(),
        is_gentle(x, xr, y, yr, sb, ino, reserved),
        0 <= p,
    ensures
        is_kept(x, xr, y, yr, sb, p),
{
    let bs = sb.block_size as int;
    if p / bs < 12 + sb.block_size / 4 {
        lemma_position(sb, p);
        lemma_slot_of(x, sb, xr, p / bs);
        let s = slot(x, sb, xr, slot_of(p / bs));
        let t = slot(y, sb, yr, slot_of(p / bs));
        if s != 0 {
            assert(in_block(sb, s, s * bs + p % bs));
        } else if t != 0 {
            assert(is_blank(y, sb, t));
            assert(in_block(sb, t, t * bs + p % bs));
        }
    }
}

/// A store into a block of a file keeps the bytes before and behind it.
proof fn lemma_store_keeps(
    img: Image,
    sb: Superblock,
    ino: u32,
    reserved: Region,
    raw: Seq<u8>,
    pos: int,
    chunk: Seq<u8>,
    p: int,
)
    requires
        is_regular(sb),
        is_laid_out(img, sb, ino, reserved),
        is_sound(img, sb, reserved, raw),
        0 <= pos,
        pos / (sb.block_size as int) < 12 + sb.block_size / 4,
        slot(img, sb, raw, slot_of(pos / (sb.block_size as int))) != 0,
        0 < chunk.len() <= sb.block_size - pos % (sb.block_size as int),
        0 <= p < pos || pos + chunk.len() <= p,
    ensures
        ({
            let bs = sb.block_size as int;
            let block = slot(img, sb, raw, slot_of(pos / bs));
            is_kept(img, raw, patched(img, block * bs + pos % bs, chunk), raw, sb, p)
        }),
{
    let bs = sb.block_size as int;
    if p / bs < 12 + sb.block_size / 4 {
        let block = slot(img, sb, raw, slot_of(pos / bs));
        let after = patched(img, block * bs + pos % bs, chunk);
        let last = pos + chunk.len() - 1;
        lemma_stored_in_block(img, sb, ino, reserved, raw, pos, chunk);
        lemma_position(sb, pos);
        lemma_position(sb, p);
        lemma_slot_of(img, sb, raw, pos / bs);
        lemma_slot_of(img, sb, raw, p / bs);
        let s = slot(img, sb, raw, slot_of(p / bs));
        let a = s * bs + p % bs;
        assert(slot(after, sb, raw, slot_of(p / bs)) == s);
        if s != 0 {
            assert(in_block(sb, s, a));
            if s == block {
                assert(slot_of(p / bs) == slot_of(pos / bs));
                if p < pos {
                    lemma_earlier(sb, p, pos);
                } else {
                    lemma_later(sb, pos, chunk.len() - 1);
                    lemma_earlier(sb, last, p);
                }
            } else {
                lemma_blocks_disjoint(sb, s, block, a);
            }
        }
    }
}

/// Storing a chunk keeps the bytes outside the range that is written.
proof fn lemma_chunk_keeps(
    img: Image,
    sb: Superblock,
    ino: u32,
    reserved: Region,
    raw: Seq<u8>,
    data: Seq<u8>,
    offset: u64,
    done: int,
    p: int,
)
    requires
        is_regular(sb),
        is_laid_out(img, sb, ino, reserved),
        is_sound(img, sb, reserved, raw),
        raw.len() >= 100,
        0 <= done < data.len(),
        chunk_written(img, sb, raw, data, offset, done).2 is Ok,
        0 <= p < offset || offset + data.len() <= p,
    ensures
        ({
            let (img2, raw2, _) = chunk_written(img, sb, raw, data, offset, done);
            is_kept(img, raw, img2, raw2, sb, p)
        }),
{
    let bs = sb.block_size as int;
    let pos = offset + done;
    let index = pos / bs;
    let n = chunk_len(sb, offset, data.len() as int, done);
    lemma_position(sb, pos);
    assert(block_ensured(img, sb, raw, index).2 is Ok);
    lemma_block_ensured(img, sb, ino, reserved, raw, index);
    let img1 = block_ensured(img, sb, raw, index).0;
    let raw1 = block_ensured(img, sb, raw, index).1;
    lemma_slot_of(img1, sb, raw1, index);
    lemma_chunk_image(img, sb, raw, data, offset, done);
    lemma_gentle_keeps(img, raw, img1, raw1, sb, ino, reserved, p);
    lemma_store_keeps(img1, sb, ino, reserved, raw1, pos, data.subrange(done, done + n), p);
}

/// Storing data keeps the bytes outside the range that is written.
proof fn lemma_data_keeps(
    img: Image,
    sb: Superblock,
    ino: u32,
    reserved: Region,
    raw: Seq<u8>,
    data: Seq<u8>,
    offset: u64,
    done: int,
    p: int,
)
    requires
        is_regular(sb),
        is_laid_out(img, sb, ino, reserved),
        is_sound(img, sb, reserved, raw),
        raw.len() >= 100,
        0 <= done <= data.len(),
        holds(img, sb, raw, offset as int, data, done),
        data_written(img, sb, raw, data, offset, done).2 is Ok,
        0 <= p < offset || offset + data.len() <= p,
    ensures
        ({
            let (img2, raw2, _) = data_written(img, sb, raw, data, offset, done);
            is_kept(img, raw, img2, raw2, sb, p)
        }),
    decreases data.len() - done,
{
    if done < data.len() {
        lemma_mod_bound(offset + done, sb.block_size as int);
        lemma_chunk_written(img, sb, ino, reserved, raw, data, offset, done);
        lemma_chunk_keeps(img, sb, ino, reserved, raw, data, offset, done, p);
        let n = chunk_len(sb, offset, data.len() as int, done);
        let (img1, raw1, _) = chunk_written(img, sb, raw, data, offset, done);
        lemma_data_keeps(img1, sb, ino, reserved, raw1, data, offset, done + n, p);
    }
}

/// Writing to a file keeps the bytes outside the range that is written.
proof fn lemma_file_keeps(
    img: Image,
    sb: Superblock,
    ino: u32,
    reserved: Region,
    offset: u64,
    data: Seq<u8>,
    p: int,
)
    requires
        is_sound_file(img, sb, ino, reserved),
        file_written(img, sb, ino, raw_inode(img, sb, ino), offset, data).1 is Ok,
        0 <= p < offset || offset + data.len() <= p,
    ensures
        ({
            let after = file_written(img, sb, ino, raw_inode(img, sb, ino), offset, data).0;
            is_shown(
                img,
                inode_at(img, inode_addr(img, sb, ino)),
                after,
                inode_at(after, inode_addr(after, sb, ino)),
                sb,
                p,
            )
        }),
{
    let raw = raw_inode(img, sb, ino);
    let bs = sb.block_size as int;
    lemma_raw_inode(img, sb, ino);
    lemma_data_written(img, sb, ino, reserved, raw, data, offset, 0);
    lemma_data_keeps(img, sb, ino, reserved, raw, data, offset, 0, p);
    let (img1, raw1, _) = data_written(img, sb, raw, data, offset, 0);
    let size = grown_size(seq_u32(raw1, 4), offset, data.len()) as u32;
    let raw2 = put_u32(raw1, 4, size);
    let after = file_written(img, sb, ino, raw, offset, data).0;
    law_inode_reads_back(img1, sb, ino, raw2);
    law_put_then_get_u32(raw1, 4, size, 4);
    lemma_slots_resized(img1, sb, raw1, size);
    lemma_sound_same_slots(img1, raw1, img1, raw2, sb, reserved);
    lemma_sound_after_store(img1, sb, ino, reserved, raw2);
    if p / bs < 12 + sb.block_size / 4 {
        lemma_position(sb, p);
        lemma_slot_of(img, sb, raw, p / bs);
        lemma_slot_of(img1, sb, raw1, p / bs);
        lemma_slot_of(after, sb, raw2, p / bs);
        let t = slot(img1, sb, raw1, slot_of(p / bs));
        assert(slot(img1, sb, raw2, slot_of(p / bs)) == t);
        assert(slot(after, sb, raw2, slot_of(p / bs)) == t);
        if t != 0 {
            let a = t * bs + p % bs;
            assert(in_block(sb, t, a));
            assert(is_clean(sb, reserved, t));
            assert(!reserved(a));
        }
    }
}

/// Whether byte `p` of a file is shown as it was: it stands where it stood, or it
/// is 0 where the file had no block for it.
pub open spec fn is_shown(
    x: Image,
    was: InodeView,
    y: Image,
    now: InodeView,
    sb: Superblock,
    p: int,
) -> bool {
    let bs = sb.block_size as int;
    match (block_of(x, sb, was, p / bs), block_of(y, sb, now, p / bs)) {
        (Ok(s), Ok(t)) => {
            &&& s != 0 ==> t == s && y(s * bs + p % bs) == x(s * bs + p % bs)
            &&& s == 0 && t != 0 ==> y(t * bs + p % bs) == 0
        },
        (Err(e), Err(f)) => e == f,
        _ => false,
    }
}

/// Where every byte of a range is shown as it was, reading on from a place in it
/// gives at least what it gave.
proof fn lemma_shown_again(
    x: Image,
    was: InodeView,
    y: Image,
    now: InodeView,
    sb: Superblock,
    pos: int,
    end: int,
    until: int,
)
    requires
        forall|p: int| pos <= p < end ==> #[trigger] is_shown(x, was, y, now, sb, p),
        end <= until,
    ensures
        ({
            let old_data = file_data(x, sb, was, pos, end);
            let new_data = file_data(y, sb, now, pos, until);
            &&& old_data.0.is_prefix_of(new_data.0)
            &&& old_data.0.len() == end - pos && end == until ==> new_data == old_data
        }),
    decreases end - pos,
{
    if pos < end {
        assert(is_shown(x, was, y, now, sb, pos));
        lemma_shown_again(x, was, y, now, sb, pos + 1, end, until);
    }
}

/// The same of the file at a path, where it has not become shorter.
proof fn lemma_read_again(x: Image, y: Image, sb: Superblock, path: Seq<u8>, from: u64, len: nat)
    requires
        resolved(x, sb, path) is Ok,
        resolved(y, sb, path) is Ok,
        ({
            let was = (resolved(x, sb, path)->Ok_0).1;
            let now = (resolved(y, sb, path)->Ok_0).1;
            &&& now.mode == was.mode
            &&& now.size >= was.size
            &&& forall|p: int| from <= p < from + len ==> #[trigger] is_shown(x, was, y, now, sb, p)
        }),
    ensures
        ({
            let old_bytes = path_read(x, sb, path, from, len);
            let new_bytes = path_read(y, sb, path, from, len);
            &&& old_bytes.0.is_prefix_of(new_bytes.0)
            &&& old_bytes.0.len() == len ==> new_bytes == old_bytes
        }),
{
    let was = (resolved(x, sb, path)->Ok_0).1;
    let now = (resolved(y, sb, path)->Ok_0).1;
    let end = read_end(was, from, len);
    let until = read_end(now, from, len);
    lemma_shown_again(x, was, y, now, sb, from as int, end, until);
    lemma_data_len(x, sb, was, from as int, end);
}

/// A read gives no more bytes than it was asked for.
proof fn lemma_data_len(img: Image, sb: Superblock, inode: InodeView, pos: int, end: int)
    ensures
        file_data(img, sb, inode, pos, end).0.len() <= if pos < end {
            end - pos
        } else {
            0
        },
    decreases end - pos,
{
    if pos < end {
        lemma_data_len(img, sb, inode, pos + 1, end);
    }
}

/// A write to the file at a path keeps the bytes outside the range that is
/// written.
proof fn lemma_path_keeps(
    img: Image,
    sb: Superblock,
    path: Seq<u8>,
    reserved: Region,
    offset: u64,
    data: Seq<u8>,
    p: int,
)
    requires
        resolved(img, sb, path) is Ok,
        is_sound_file(img, sb, (resolved(img, sb, path)->Ok_0).0, reserved),
        path_written(img, sb, path, offset, data).1 is Ok,
        ({
            let after = path_written(img, sb, path, offset, data).0;
            &&& resolved(after, sb, path) is Ok
            &&& (resolved(after, sb, path)->Ok_0).0 == (resolved(img, sb, path)->Ok_0).0
        }),
        0 <= p < offset || offset + data.len() <= p,
    ensures
        ({
            let after = path_written(img, sb, path, offset, data).0;
            let was = (resolved(img, sb, path)->Ok_0).1;
            let now = (resolved(after, sb, path)->Ok_0).1;
            is_shown(img, was, after, now, sb, p)
        }),
{
    let (ino, was) = resolved(img, sb, path)->Ok_0;
    let after = path_written(img, sb, path, offset, data).0;
    assert(after == file_written(img, sb, ino, raw_inode(img, sb, ino), offset, data).0);
    lemma_file_keeps(img, sb, ino, reserved, offset, data, p);
}

/// A successful write to the file at a path changes none of its bytes outside the
/// range that it writes. Each of them stands where it stood, or is 0 where the
/// file had no block for it; a read of such a range gives at least the bytes that
/// it gave before, and the same where it gave all of them.
pub proof fn law_write_keeps_other_bytes(
    img: Image,
    sb: Superblock,
    path: Seq<u8>,
    reserved: Region,
    offset: u64,
    data: Seq<u8>,
    from: u64,
    len: nat,
)
    requires
        resolved(img, sb, path) is Ok,
        is_sound_file(img, sb, (resolved(img, sb, path)->Ok_0).0, reserved),
        is_steady_path(
            img,
            sb,
            spared(img, sb, (resolved(img, sb, path)->Ok_0).0, reserved),
            path,
        ),
        data.len() <= usize::MAX,
        path_written(img, sb, path, offset, data).1 is Ok,
        from + len <= offset || offset + data.len() <= from,
    ensures
        ({
            let after = path_written(img, sb, path, offset, data).0;
            let was = (resolved(img, sb, path)->Ok_0).1;
            let now = (resolved(after, sb, path)->Ok_0).1;
            let old_bytes = path_read(img, sb, path, from, len);
            let new_bytes = path_read(after, sb, path, from, len);
            &&& forall|p: int| from <= p < from + len ==> #[trigger] is_shown(
                img,
                was,
                after,
                now,
                sb,
                p,
            )
            &&& old_bytes.0.is_prefix_of(new_bytes.0)
            &&& old_bytes.0.len() == len ==> new_bytes == old_bytes
        }),
{
    let was = (resolved(img, sb, path)->Ok_0).1;
    let after = path_written(img, sb, path, offset, data).0;
    let now = (resolved(after, sb, path)->Ok_0).1;
    law_path_reads_back(img, sb, path, reserved, offset, data);
    assert forall|p: int| from <= p < from + len implies #[trigger] is_shown(
        img,
        was,
        after,
        now,
        sb,
        p,
    ) by {
        lemma_path_keeps(img, sb, path, reserved, offset, data, p);
    }
    lemma_read_again(img, after, sb, path, from, len);
}

/// Storing data that fails leaves alone what is reserved, but for the bitmap and
/// the counts.
proof fn lemma_data_refused(
    img: Image,
    sb: Superblock,
    ino: u32,
    reserved: Region,
    raw: Seq<u8>,
    data: Seq<u8>,
    offset: u64,
    done: int,
)
    requires
        is_regular(sb),
        is_laid_out(img, sb, ino, reserved),
        is_sound(img, sb, reserved, raw),
        raw.len() >= 100,
        0 <= done <= data.len(),
        holds(img, sb, raw, offset as int, data, done),
        data_written(img, sb, raw, data, offset, done).2 is Err,
    ensures
        ({
            let img1 = data_written(img, sb, raw, data, offset, done).0;
            &&& inode_addr(img1, sb, ino) == inode_addr(img, sb, ino)
            &&& forall|a: int|
                reserved(a) && !in_block(sb, block_bitmap(img, sb), a) && !is_count(sb, a)
                    ==> #[trigger] img1(a) == img(a)
        }),
    decreases data.len() - done,
{
    let bs = sb.block_size as int;
    let index = (offset + done) / bs;
    let n = chunk_len(sb, offset, data.len() as int, done);
    let after = data_written(img, sb, raw, data, offset, done).0;
    lemma_position(sb, offset + done);
    let (img1, raw1, r) = chunk_written(img, sb, raw, data, offset, done);
    if r is Ok {
        lemma_chunk_written(img, sb, ino, reserved, raw, data, offset, done);
        lemma_data_refused(img1, sb, ino, reserved, raw1, data, offset, done + n);
        assert forall|a: int|
            reserved(a) && !in_block(sb, block_bitmap(img, sb), a) && !is_count(
                sb,
                a,
            ) implies #[trigger] after(a) == img(a) by {
            assert(img1(a) == img(a));
        }
    } else if block_ensured(img, sb, raw, index).2 is Ok {
        lemma_block_ensured(img, sb, ino, reserved, raw, index);
    } else {
        lemma_block_refused(img, sb, ino, reserved, raw, index);
    }
}

/// A write that fails leaves the file at a path as it was: the path leads to the
/// same inode, with the mode, the size and the block numbers it had. What is
/// reserved is as it was too, but for the bitmap and the counts of free blocks.
pub proof fn law_failed_write_keeps_inode(
    img: Image,
    sb: Superblock,
    path: Seq<u8>,
    reserved: Region,
    offset: u64,
    data: Seq<u8>,
)
    requires
        resolved(img, sb, path) is Ok,
        is_sound_file(img, sb, (resolved(img, sb, path)->Ok_0).0, reserved),
        is_steady_path(
            img,
            sb,
            spared(img, sb, (resolved(img, sb, path)->Ok_0).0, reserved),
            path,
        ),
        path_written(img, sb, path, offset, data).1 is Err,
    ensures
        ({
            let after = path_written(img, sb, path, offset, data).0;
            &&& resolved(after, sb, path) == resolved(img, sb, path)
            &&& forall|a: int|
                reserved(a) && !in_block(sb, block_bitmap(img, sb), a) && !is_count(sb, a)
                    ==> #[trigger] after(a) == img(a)
        }),
{
    let (ino, was) = resolved(img, sb, path)->Ok_0;
    let raw = raw_inode(img, sb, ino);
    let after = path_written(img, sb, path, offset, data).0;
    let region = spared(img, sb, ino, reserved);
    let (img1, raw1, r) = data_written(img, sb, raw, data, offset, 0);
    lemma_raw_inode(img, sb, ino);
    if r is Ok {
        lemma_data_written(img, sb, ino, reserved, raw, data, offset, 0);
    } else {
        lemma_data_refused(img, sb, ino, reserved, raw, data, offset, 0);
    }
    assert(after == img || after == img1);
    assert forall|a: int| #[trigger] region(a) implies img(a) == after(a) by {
        assert(after(a) == img(a));
    }
    assert(agree_in(img, after, region));
    lemma_walk_kept(img, after, sb, region, ROOT_INO, components(path));
    assert forall|a: int| in_inode(img, sb, ino, a) implies #[trigger] after(a) == img(a) by {
        assert(reserved(a));
    }
    lemma_raw_inode_kept(img, after, sb, ino);
    lemma_raw_inode(after, sb, ino);
}

} // verus!
