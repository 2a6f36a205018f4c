//! Entering a name into a directory of a sound volume.

use vstd::prelude::*;
use crate::bitmap::block_allocated;
use crate::codec::{law_put_then_get_u32, overlay, put_u32, seq_u32, zeros};
use crate::dir::{directory_from, dot, dot_dot, lookup, records_in, DirRecord};
use crate::disk::{bytes_at, Image, Region};
use crate::entry::{
    directory_grown, entry_added, entry_appended, entry_bytes, first_slot, raw_inode, record_size,
    record_split,
};
use crate::laws::entries::{
    directory_gains, has_covered_blocks, has_distinct_blocks, has_sound_records, is_covered_block,
    is_listed_once, is_split, lemma_block_bytes_other, lemma_covered_sound,
    lemma_directory_appended, lemma_directory_split, lemma_entry_block, lemma_find_name,
    lemma_first_slot, lemma_inserted_found, lemma_inserted_lines, lemma_listed, lemma_named_concat,
    lemma_not_full, lemma_record_block, lemma_records_split, lemma_sole_covers,
    lemma_sound_records_concat, lemma_split_covers, named, sole_record,
};
use crate::laws::growth::{lemma_slots_charged, lemma_slots_put};
use crate::laws::inode::{
    is_sound_file, lemma_raw_inode, lemma_slots_resized, lemma_sound_after_store, spared,
};
use crate::laws::ownership::{
    block_bitmap, in_block, in_inode, is_clean, is_count, is_laid_out, is_loose, is_regular,
    is_sound, lemma_allocated, lemma_block_change, lemma_blocks_disjoint, lemma_loose_filled,
    lemma_slot_of, lemma_sound_extended, lemma_sound_kept, slot, slot_count, slot_of,
};
use crate::laws::steady::{agree_in, covers, is_steady_inode, lemma_inode_kept};
use crate::laws::storage::law_inode_reads_back;
use crate::layout::{
    block_bytes, block_of, block_span, block_stored, inode_addr, inode_at, inode_in, inode_stored,
    mode_is_dir, InodeView, Superblock, MAX_BLOCK_SIZE,
};
use crate::mapping::{charged, wrapped_sum};
use crate::ops::{directory_listed, listed};

verus! {

/// What a sound directory is, given the number of its inode: its blocks are its
/// own, and its records have room for their names.
pub open spec fn is_sound_directory(img: Image, sb: Superblock, ino: u32, reserved: Region) -> bool {
    let inode = inode_at(img, inode_addr(img, sb, ino));
    &&& is_sound_file(img, sb, ino, reserved)
    &&& mode_is_dir(inode.mode)
    &&& has_sound_records(directory_from(img, sb, inode, 0).records)
}

/// Whether entering a name has made of a directory what it should.
pub open spec fn is_entered(
    img: Image,
    after: Image,
    sb: Superblock,
    ino: u32,
    reserved: Region,
    k: int,
    name: Seq<u8>,
    child: u32,
) -> bool {
    let was = inode_at(img, inode_addr(img, sb, ino));
    let now = inode_at(after, inode_addr(after, sb, ino));
    &&& now.mode == was.mode
    &&& directory_gains(
        directory_from(img, sb, was, 0),
        directory_from(after, sb, now, 0),
        k,
        name,
        child,
    )
    &&& is_sound_file(after, sb, ino, reserved)
    &&& agree_in(img, after, spared(img, sb, ino, reserved))
}

/// The blocks of a sound file are different ones.
proof fn lemma_distinct(img: Image, sb: Superblock, reserved: Region, raw: Seq<u8>)
    requires
        sb.readable(),
        is_sound(img, sb, reserved, raw),
    ensures
        has_distinct_blocks(img, sb, inode_in(raw)),
{
    let inode = inode_in(raw);
    assert forall|i: int, j: int|
        0 <= i < block_span(sb, inode.size) && 0 <= j < block_span(sb, inode.size)
            && #[trigger] block_of(img, sb, inode, i) == #[trigger] block_of(img, sb, inode, j)
            && block_of(img, sb, inode, i) is Ok && block_of(img, sb, inode, i)->Ok_0
            != 0 implies i == j by {
        lemma_slot_of(img, sb, raw, i);
        lemma_slot_of(img, sb, raw, j);
        assert(slot(img, sb, raw, slot_of(i)) == slot(img, sb, raw, slot_of(j)));
    }
}

/// The inode of a sound file and the field that locates it are reserved.
pub proof fn lemma_inode_reserved(img: Image, sb: Superblock, ino: u32, reserved: Region)
    requires
        is_regular(sb),
        is_laid_out(img, sb, ino, reserved),
    ensures
        is_steady_inode(img, sb, reserved, ino),
        covers(reserved, inode_addr(img, sb, ino), sb.inode_size as int),
{
    let at = inode_addr(img, sb, ino);
    assert forall|a: int| at <= a < at + sb.inode_size implies #[trigger] reserved(a) by {
        assert(in_inode(img, sb, ino, a));
    }
}

/// The bytes of an inode are what they were where nothing in them has changed.
pub proof fn lemma_raw_inode_kept(x: Image, y: Image, sb: Superblock, ino: u32)
    requires
        inode_addr(y, sb, ino) == inode_addr(x, sb, ino),
        forall|a: int| in_inode(x, sb, ino, a) ==> #[trigger] y(a) == x(a),
    ensures
        raw_inode(y, sb, ino) == raw_inode(x, sb, ino),
{
    let at = inode_addr(x, sb, ino);
    assert forall|i: int| 0 <= i < sb.inode_size implies #[trigger] y(at + i) == x(at + i) by {
        assert(in_inode(x, sb, ino, at + i));
    }
    assert(bytes_at(y, at, sb.inode_size as nat) =~= bytes_at(x, at, sb.inode_size as nat));
}

/// Storing a block of a directory with a record split.
proof fn lemma_slot_stored(
    img: Image,
    sb: Superblock,
    ino: u32,
    reserved: Region,
    name: Seq<u8>,
    child: u32,
    file_type: u8,
    record: DirRecord,
    after: Image,
)
    requires
        is_sound_directory(img, sb, ino, reserved),
        first_slot(
            directory_from(img, sb, inode_at(img, inode_addr(img, sb, ino)), 0).records,
            record_size(name.len() as int),
        ) == Some(record),
        after == block_stored(
            img,
            sb,
            record.block,
            record_split(block_bytes(img, sb, record.block), record, child, name, file_type),
        ),
    ensures
        ({
            let inode = inode_at(img, inode_addr(img, sb, ino));
            &&& inode_at(after, inode_addr(after, sb, ino)) == inode
            &&& is_sound_file(after, sb, ino, reserved)
            &&& agree_in(img, after, spared(img, sb, ino, reserved))
            &&& has_distinct_blocks(img, sb, inode)
            &&& forall|a: int| !in_block(sb, record.block, a) ==> #[trigger] after(a) == img(a)
            &&& forall|n: int|
                0 <= n < block_span(sb, inode.size) ==> #[trigger] block_of(after, sb, inode, n)
                    == block_of(img, sb, inode, n)
            &&& block_bytes(after, sb, record.block) == record_split(
                block_bytes(img, sb, record.block),
                record,
                child,
                name,
                file_type,
            )
        }),
{
    let inode = inode_at(img, inode_addr(img, sb, ino));
    let raw = raw_inode(img, sb, ino);
    let block = record.block;
    let c = record_split(block_bytes(img, sb, block), record, child, name, file_type);
    lemma_raw_inode(img, sb, ino);
    assert(inode == inode_in(raw));
    let i = lemma_first_slot(
        directory_from(img, sb, inode, 0).records,
        record_size(name.len() as int),
    );
    let j = lemma_record_block(img, sb, inode, 0, i);
    lemma_slot_of(img, sb, raw, j);
    assert(slot(img, sb, raw, slot_of(j)) == block);
    assert(slot(img, sb, raw, 12) == seq_u32(raw, 88));
    assert(is_clean(sb, reserved, block));
    assert(c.len() == sb.block_size);
    assert(c.take(sb.block_size as int) =~= c);
    assert forall|a: int| !in_block(sb, block, a) implies #[trigger] after(a) == img(a) by {}
    lemma_block_change(img, after, sb, ino, reserved, raw, block);
    lemma_sound_kept(img, after, sb, reserved, raw);
    lemma_inode_reserved(img, sb, ino, reserved);
    assert forall|a: int| #[trigger] reserved(a) implies img(a) == after(a) by {
        assert(!in_block(sb, block, a));
    }
    lemma_inode_kept(img, after, sb, reserved, ino);
    assert forall|a: int| in_inode(img, sb, ino, a) implies #[trigger] after(a) == img(a) by {
        assert(reserved(a));
    }
    lemma_raw_inode_kept(img, after, sb, ino);
    lemma_distinct(img, sb, reserved, raw);
    assert forall|n: int| 0 <= n < block_span(sb, inode.size) implies #[trigger] block_of(
        after,
        sb,
        inode,
        n,
    ) == block_of(img, sb, inode, n) by {
        if n < 12 + sb.block_size / 4 {
            lemma_slot_of(img, sb, raw, n);
            lemma_slot_of(after, sb, raw, n);
        }
    }
    assert(block_bytes(after, sb, block) =~= c);
    let region = spared(img, sb, ino, reserved);
    assert forall|a: int| #[trigger] region(a) implies img(a) == after(a) by {
        assert(reserved(a));
    }
}

/// Entering a name where a record has room for it.
proof fn lemma_entered_in_slot(
    img: Image,
    sb: Superblock,
    ino: u32,
    reserved: Region,
    name: Seq<u8>,
    child: u32,
    file_type: u8,
    record: DirRecord,
    after: Image,
) -> (k: int)
    requires
        is_sound_directory(img, sb, ino, reserved),
        name.len() <= 255,
        child != 0,
        first_slot(
            directory_from(img, sb, inode_at(img, inode_addr(img, sb, ino)), 0).records,
            record_size(name.len() as int),
        ) == Some(record),
        after == block_stored(
            img,
            sb,
            record.block,
            record_split(block_bytes(img, sb, record.block), record, child, name, file_type),
        ),
    ensures
        is_entered(img, after, sb, ino, reserved, k, name, child),
{
    let inode = inode_at(img, inode_addr(img, sb, ino));
    lemma_slot_stored(img, sb, ino, reserved, name, child, file_type, record, after);
    lemma_directory_split(img, after, sb, inode, 0, record, child, name, file_type)
}

/// The inode of a directory that gets one more block.
proof fn lemma_grown(img: Image, sb: Superblock, raw: Seq<u8>, parent: InodeView, block: u32)
    requires
        raw.len() >= 100,
        sb.readable(),
        0 <= block_span(sb, parent.size) < 12,
    ensures
        ({
            let n = block_span(sb, parent.size);
            let grown = directory_grown(sb, raw, parent, block);
            &&& grown.len() == raw.len()
            &&& slot(img, sb, grown, n) == block
            &&& forall|k: int|
                0 <= k < slot_count(sb) && k != n ==> #[trigger] slot(img, sb, grown, k) == slot(
                    img,
                    sb,
                    raw,
                    k,
                )
            &&& inode_in(grown).mode == inode_in(raw).mode
            &&& inode_in(grown).size == wrapped_sum(parent.size, sb.block_size)
        }),
{
    let n = block_span(sb, parent.size);
    let size = wrapped_sum(parent.size, sb.block_size);
    let r1 = put_u32(raw, 40 + 4 * n, block);
    let r2 = put_u32(r1, 4, size);
    let r3 = charged(sb, r2);
    lemma_slots_put(img, sb, raw, n, block);
    lemma_slots_resized(img, sb, r1, size);
    lemma_slots_charged(img, sb, r2);
    law_put_then_get_u32(r1, 4, size, 4);
    law_put_then_get_u32(r2, 28, wrapped_sum(seq_u32(r2, 28), sb.block_size / 512), 4);
    assert(slot(img, sb, r3, n) == slot(img, sb, r2, n));
    assert(slot(img, sb, r2, n) == slot(img, sb, r1, n));
    assert forall|k: int| 0 <= k < slot_count(sb) && k != n implies #[trigger] slot(
        img,
        sb,
        r3,
        k,
    ) == slot(img, sb, raw, k) by {
        assert(slot(img, sb, r2, k) == slot(img, sb, r1, k));
    }
    assert(r3[0] == raw[0] && r3[1] == raw[1]);
}

/// One more block makes a directory span one more.
proof fn lemma_span_grows(sb: Superblock, size: u32)
    requires
        sb.readable(),
        block_span(sb, size) < 12,
    ensures
        0 <= block_span(sb, size),
        wrapped_sum(size, sb.block_size) == size + sb.block_size,
        block_span(sb, wrapped_sum(size, sb.block_size)) == block_span(sb, size) + 1,
{
    let bs = sb.block_size as int;
    let x = size + bs - 1;
    vstd::arithmetic::div_mod::lemma_fundamental_div_mod(x, bs);
    vstd::arithmetic::div_mod::lemma_mod_bound(x, bs);
    vstd::arithmetic::div_mod::lemma_div_pos_is_pos(x, bs);
    let q = x / bs;
    assert(bs * q <= 4096 * 11) by (nonlinear_arith)
        requires
            0 < bs <= 4096,
            0 <= q <= 11,
    ;
    assert(x + bs == (q + 1) * bs + x % bs) by (nonlinear_arith)
        requires
            x == bs * q + x % bs,
    ;
    vstd::arithmetic::div_mod::lemma_fundamental_div_mod_converse(x + bs, bs, q + 1, x % bs);
}

/// A directory gets a block with an entry: what becomes of the disk before its
/// inode is stored.
pub proof fn lemma_entry_block_given(
    img: Image,
    sb: Superblock,
    ino: u32,
    reserved: Region,
    content: Seq<u8>,
    img2: Image,
)
    requires
        is_sound_file(img, sb, ino, reserved),
        block_allocated(img, sb).1 is Ok,
        content.len() == MAX_BLOCK_SIZE,
        img2 == block_stored(
            block_allocated(img, sb).0,
            sb,
            block_allocated(img, sb).1->Ok_0,
            content,
        ),
    ensures
        ({
            let raw = raw_inode(img, sb, ino);
            let block = block_allocated(img, sb).1->Ok_0;
            &&& is_laid_out(img2, sb, ino, reserved)
            &&& is_sound(img2, sb, reserved, raw)
            &&& is_loose(img2, sb, reserved, raw, block)
            &&& block_bitmap(img2, sb) == block_bitmap(img, sb)
            &&& inode_addr(img2, sb, ino) == inode_addr(img, sb, ino)
            &&& raw_inode(img2, sb, ino) == raw
            &&& block_bytes(img2, sb, block) == content.take(sb.block_size as int)
            &&& forall|a: int|
                !in_block(sb, block_bitmap(img, sb), a) && !is_count(sb, a) && !in_block(
                    sb,
                    block,
                    a,
                ) ==> #[trigger] img2(a) == img(a)
            &&& forall|k: int|
                0 <= k < slot_count(sb) ==> #[trigger] slot(img2, sb, raw, k) == slot(
                    img,
                    sb,
                    raw,
                    k,
                )
        }),
{
    let raw = raw_inode(img, sb, ino);
    let (img1, r) = block_allocated(img, sb);
    let block = r->Ok_0;
    lemma_allocated(img, sb, ino, reserved, raw);
    lemma_loose_filled(img1, sb, ino, reserved, raw, block, content);
    assert forall|a: int|
        !in_block(sb, block_bitmap(img, sb), a) && !is_count(sb, a) && !in_block(
            sb,
            block,
            a,
        ) implies #[trigger] img2(a) == img(a) by {
        assert(img1(a) == img(a));
    }
    assert forall|k: int| 0 <= k < slot_count(sb) implies #[trigger] slot(img2, sb, raw, k) == slot(
        img,
        sb,
        raw,
        k,
    ) by {
        assert(slot(img1, sb, raw, k) == slot(img, sb, raw, k));
    }
    assert forall|a: int| in_inode(img, sb, ino, a) implies #[trigger] img2(a) == img(a) by {
        assert(reserved(a));
        assert(!in_block(sb, block, a));
        assert(!in_block(sb, block_bitmap(img, sb), a) && !is_count(sb, a));
    }
    lemma_raw_inode_kept(img, img2, sb, ino);
    assert(block_bytes(img2, sb, block) =~= content.take(sb.block_size as int));
}

/// A directory whose inode was stored with one more block: the file is sound,
/// and what is reserved is unchanged as far as it should be.
proof fn lemma_block_entered(
    img: Image,
    sb: Superblock,
    ino: u32,
    reserved: Region,
    content: Seq<u8>,
    img2: Image,
    after: Image,
)
    requires
        is_sound_file(img, sb, ino, reserved),
        block_allocated(img, sb).1 is Ok,
        block_span(sb, inode_at(img, inode_addr(img, sb, ino)).size) < 12,
        content.len() == MAX_BLOCK_SIZE,
        img2 == block_stored(
            block_allocated(img, sb).0,
            sb,
            block_allocated(img, sb).1->Ok_0,
            content,
        ),
        after == inode_stored(
            img2,
            sb,
            ino,
            directory_grown(
                sb,
                raw_inode(img, sb, ino),
                inode_at(img, inode_addr(img, sb, ino)),
                block_allocated(img, sb).1->Ok_0,
            ),
        ).0,
    ensures
        ({
            let was = inode_at(img, inode_addr(img, sb, ino));
            let now = inode_at(after, inode_addr(after, sb, ino));
            let n = block_span(sb, was.size);
            let block = block_allocated(img, sb).1->Ok_0;
            &&& is_sound_file(after, sb, ino, reserved)
            &&& now.mode == was.mode
            &&& 0 <= n
            &&& block != 0
            &&& block_span(sb, now.size) == n + 1
            &&& now.blocks[n] == block
            &&& forall|i: int| 0 <= i < n ==> #[trigger] now.blocks[i] == was.blocks[i]
            &&& forall|i: int|
                0 <= i < n && #[trigger] was.blocks[i] != 0 ==> block_bytes(
                    after,
                    sb,
                    was.blocks[i],
                ) == block_bytes(img, sb, was.blocks[i])
            &&& block_bytes(after, sb, block) == content.take(sb.block_size as int)
            &&& agree_in(img, after, spared(img, sb, ino, reserved))
        }),
{
    let was = inode_at(img, inode_addr(img, sb, ino));
    let raw = raw_inode(img, sb, ino);
    let n = block_span(sb, was.size);
    let block = block_allocated(img, sb).1->Ok_0;
    let grown = directory_grown(sb, raw, was, block);
    lemma_raw_inode(img, sb, ino);
    lemma_span_grows(sb, was.size);
    lemma_entry_block_given(img, sb, ino, reserved, content, img2);
    lemma_grown(img2, sb, raw, was, block);
    lemma_sound_extended(img2, raw, img2, grown, sb, reserved, n, block);
    lemma_sound_after_store(img2, sb, ino, reserved, grown);
    assert(inode_at(after, inode_addr(after, sb, ino)) == inode_in(grown)) by {
        law_inode_reads_back(img2, sb, ino, grown);
    }
    let now = inode_in(grown);
    assert(now.blocks[n] == slot(img2, sb, grown, n));
    assert forall|i: int| 0 <= i < n implies #[trigger] now.blocks[i] == was.blocks[i] by {
        assert(slot(img2, sb, grown, i) == slot(img2, sb, raw, i));
        assert(inode_in(raw).blocks[i] == slot(img2, sb, raw, i));
    }
    assert forall|i: int| 0 <= i < n && #[trigger] was.blocks[i] != 0 implies block_bytes(
        after,
        sb,
        was.blocks[i],
    ) == block_bytes(img, sb, was.blocks[i]) by {
        let own = was.blocks[i];
        assert(inode_in(raw).blocks[i] == slot(img2, sb, raw, i));
        assert(slot(img2, sb, raw, i) != block);
        assert(is_clean(sb, reserved, own));
        lemma_own_block_kept(img, img2, after, sb, ino, reserved, block, own);
    }
    lemma_own_block_stored(img2, after, sb, ino, reserved, block);
    let region = spared(img, sb, ino, reserved);
    assert forall|a: int| #[trigger] region(a) implies img(a) == after(a) by {
        assert(reserved(a) && !in_block(sb, block, a));
        assert(!in_inode(img2, sb, ino, a));
        assert(after(a) == img2(a));
        assert(img2(a) == img(a));
    }
}

/// A directory with one more block, which holds one entry, has one more name.
proof fn lemma_directory_gains_block(
    img: Image,
    after: Image,
    sb: Superblock,
    was: InodeView,
    now: InodeView,
    block: u32,
    name: Seq<u8>,
    child: u32,
) -> (k: int)
    requires
        0 <= block_span(sb, was.size) < 12,
        block_span(sb, now.size) == block_span(sb, was.size) + 1,
        now.blocks[block_span(sb, was.size)] == block,
        block != 0,
        forall|i: int|
            0 <= i < block_span(sb, was.size) ==> #[trigger] now.blocks[i] == was.blocks[i],
        forall|i: int|
            0 <= i < block_span(sb, was.size) && #[trigger] was.blocks[i] != 0 ==> block_bytes(
                after,
                sb,
                was.blocks[i],
            ) == block_bytes(img, sb, was.blocks[i]),
        named(records_in(block_bytes(after, sb, block), block, 0)) == seq![(name, child)],
        has_sound_records(records_in(block_bytes(after, sb, block), block, 0)),
        has_sound_records(directory_from(img, sb, was, 0).records),
    ensures
        directory_gains(
            directory_from(img, sb, was, 0),
            directory_from(after, sb, now, 0),
            k,
            name,
            child,
        ),
{
    let n = block_span(sb, was.size);
    lemma_directory_appended(img, after, sb, was, now, 0);
    lemma_last_block(after, sb, now, n, block);
    let old_records = directory_from(img, sb, was, 0).records;
    let extra = records_in(block_bytes(after, sb, block), block, 0);
    lemma_named_concat(old_records, extra);
    lemma_sound_records_concat(old_records, extra);
    let k = named(old_records).len() as int;
    assert(named(old_records + extra) =~= named(old_records).insert(k, (name, child)));
    k
}

/// Entering a name in a new block.
proof fn lemma_entered_in_block(
    img: Image,
    sb: Superblock,
    ino: u32,
    reserved: Region,
    name: Seq<u8>,
    child: u32,
    file_type: u8,
    after: Image,
) -> (k: int)
    requires
        is_sound_directory(img, sb, ino, reserved),
        name.len() <= 255,
        child != 0,
        entry_appended(
            img,
            sb,
            ino,
            inode_at(img, inode_addr(img, sb, ino)),
            name,
            child,
            file_type,
        ) == (after, Ok::<(), i32>(())),
    ensures
        is_entered(img, after, sb, ino, reserved, k, name, child),
{
    let was = inode_at(img, inode_addr(img, sb, ino));
    let now = inode_at(after, inode_addr(after, sb, ino));
    let block = block_allocated(img, sb).1->Ok_0;
    let content = overlay(
        zeros(MAX_BLOCK_SIZE as nat),
        0,
        entry_bytes(child, sb.block_size as u16, name, file_type),
    );
    let img2 = block_stored(block_allocated(img, sb).0, sb, block, content);
    assert(raw_inode(img2, sb, ino) == raw_inode(img, sb, ino)) by {
        lemma_entry_block_given(img, sb, ino, reserved, content, img2);
    }
    lemma_block_entered(img, sb, ino, reserved, content, img2, after);
    lemma_entry_block(sb, block_bytes(after, sb, block), block, child, name, file_type);
    lemma_directory_gains_block(img, after, sb, was, now, block, name, child)
}

/// The records of the last block of a directory.
proof fn lemma_last_block(img: Image, sb: Superblock, inode: InodeView, n: int, block: u32)
    requires
        0 <= n < 12,
        block_span(sb, inode.size) == n + 1,
        inode.blocks[n] == block,
        block != 0,
    ensures
        directory_from(img, sb, inode, n).records == records_in(
            block_bytes(img, sb, block),
            block,
            0,
        ),
        directory_from(img, sb, inode, n).error is None,
{
    let records = records_in(block_bytes(img, sb, block), block, 0);
    assert(directory_from(img, sb, inode, n + 1).records =~= Seq::<DirRecord>::empty());
    assert(records + Seq::<DirRecord>::empty() =~= records);
}

/// Storing an inode leaves a block that is not reserved.
proof fn lemma_own_block_stored(
    img2: Image,
    after: Image,
    sb: Superblock,
    ino: u32,
    reserved: Region,
    own: u32,
)
    requires
        is_laid_out(img2, sb, ino, reserved),
        is_clean(sb, reserved, own),
        forall|a: int| !in_inode(img2, sb, ino, a) ==> #[trigger] after(a) == img2(a),
    ensures
        block_bytes(after, sb, own) == block_bytes(img2, sb, own),
{
    let at = own * sb.block_size;
    assert forall|i: int| 0 <= i < sb.block_size implies #[trigger] after(at + i) == img2(
        at + i,
    ) by {
        assert(in_block(sb, own, at + i));
        assert(!reserved(at + i));
        assert(!in_inode(img2, sb, ino, at + i));
    }
    assert(block_bytes(after, sb, own) =~= block_bytes(img2, sb, own));
}

/// Giving a directory a block and storing its inode leaves a block that is not
/// reserved.
proof fn lemma_own_block_kept(
    img: Image,
    img2: Image,
    after: Image,
    sb: Superblock,
    ino: u32,
    reserved: Region,
    block: u32,
    own: u32,
)
    requires
        is_laid_out(img, sb, ino, reserved),
        is_laid_out(img2, sb, ino, reserved),
        is_clean(sb, reserved, own),
        own != block,
        forall|a: int|
            !in_block(sb, block_bitmap(img, sb), a) && !is_count(sb, a) && !in_block(sb, block, a)
                ==> #[trigger] img2(a) == img(a),
        forall|a: int| !in_inode(img2, sb, ino, a) ==> #[trigger] after(a) == img2(a),
    ensures
        block_bytes(after, sb, own) == block_bytes(img, sb, own),
{
    lemma_own_block_stored(img2, after, sb, ino, reserved, own);
    let at = own * sb.block_size;
    assert forall|i: int| 0 <= i < sb.block_size implies #[trigger] img2(at + i) == img(
        at + i,
    ) by {
        assert(in_block(sb, own, at + i));
        assert(!reserved(at + i));
        lemma_blocks_disjoint(sb, own, block, at + i);
    }
    assert(block_bytes(img2, sb, own) =~= block_bytes(img, sb, own));
}

/// Entering a name into a sound directory makes of it what it should.
pub proof fn lemma_entry_added(
    img: Image,
    sb: Superblock,
    ino: u32,
    reserved: Region,
    name: Seq<u8>,
    child: u32,
    file_type: u8,
    after: Image,
) -> (k: int)
    requires
        is_sound_directory(img, sb, ino, reserved),
        name.len() <= 255,
        child != 0,
        entry_added(
            img,
            sb,
            ino,
            inode_at(img, inode_addr(img, sb, ino)),
            name,
            child,
            file_type,
        ) == (after, Ok::<(), i32>(())),
    ensures
        is_entered(img, after, sb, ino, reserved, k, name, child),
{
    let inode = inode_at(img, inode_addr(img, sb, ino));
    let records = directory_from(img, sb, inode, 0).records;
    match first_slot(records, record_size(name.len() as int)) {
        Some(record) => lemma_entered_in_slot(
            img,
            sb,
            ino,
            reserved,
            name,
            child,
            file_type,
            record,
            after,
        ),
        None => lemma_entered_in_block(img, sb, ino, reserved, name, child, file_type, after),
    }
}

/// A name of up to 255 bytes that was entered into a sound directory that did
/// not have it is found there and leads to the inode it was entered for. All
/// other names are found as before, and the directory is sound again.
pub proof fn law_entered_name_is_found(
    img: Image,
    sb: Superblock,
    ino: u32,
    reserved: Region,
    name: Seq<u8>,
    child: u32,
    file_type: u8,
    other: Seq<u8>,
)
    requires
        is_sound_directory(img, sb, ino, reserved),
        name.len() <= 255,
        child != 0,
        lookup(img, sb, ino, name) is Err,
        entry_added(
            img,
            sb,
            ino,
            inode_at(img, inode_addr(img, sb, ino)),
            name,
            child,
            file_type,
        ).1 is Ok,
    ensures
        ({
            let after = entry_added(
                img,
                sb,
                ino,
                inode_at(img, inode_addr(img, sb, ino)),
                name,
                child,
                file_type,
            ).0;
            &&& lookup(after, sb, ino, name) == Ok::<u32, i32>(child)
            &&& other != name ==> lookup(after, sb, ino, other) == lookup(img, sb, ino, other)
            &&& is_sound_directory(after, sb, ino, reserved)
        }),
{
    let inode = inode_at(img, inode_addr(img, sb, ino));
    let after = entry_added(img, sb, ino, inode, name, child, file_type).0;
    let k = lemma_entry_added(img, sb, ino, reserved, name, child, file_type, after);
    lemma_gained_found(img, after, sb, ino, k, name, child, name);
    lemma_gained_found(img, after, sb, ino, k, name, child, other);
}

/// Names in a directory that has gained one.
pub proof fn lemma_gained_found(
    img: Image,
    after: Image,
    sb: Superblock,
    ino: u32,
    k: int,
    name: Seq<u8>,
    child: u32,
    other: Seq<u8>,
)
    requires
        ino >= 1,
        ({
            let was = inode_at(img, inode_addr(img, sb, ino));
            let now = inode_at(after, inode_addr(after, sb, ino));
            &&& mode_is_dir(was.mode)
            &&& now.mode == was.mode
            &&& directory_gains(
                directory_from(img, sb, was, 0),
                directory_from(after, sb, now, 0),
                k,
                name,
                child,
            )
        }),
        lookup(img, sb, ino, name) is Err,
    ensures
        lookup(after, sb, ino, other) == if other == name {
            Ok(child)
        } else {
            lookup(img, sb, ino, other)
        },
{
    let was = inode_at(img, inode_addr(img, sb, ino));
    let now = inode_at(after, inode_addr(after, sb, ino));
    let old_records = directory_from(img, sb, was, 0).records;
    let new_records = directory_from(after, sb, now, 0).records;
    lemma_find_name(old_records, name);
    lemma_find_name(old_records, other);
    lemma_find_name(new_records, other);
    lemma_inserted_found(named(old_records), k, name, child, other);
}

/// A name that was entered into a sound directory is listed: where the buffer
/// has room for it besides the names that were listed before, the list is the
/// old one with the name, and a zero byte, somewhere between two of its names.
pub proof fn law_entered_name_is_listed(
    img: Image,
    sb: Superblock,
    ino: u32,
    reserved: Region,
    name: Seq<u8>,
    child: u32,
    file_type: u8,
    room: int,
) -> (p: int)
    requires
        is_sound_directory(img, sb, ino, reserved),
        name.len() <= 255,
        name != dot(),
        name != dot_dot(),
        child != 0,
        entry_added(
            img,
            sb,
            ino,
            inode_at(img, inode_addr(img, sb, ino)),
            name,
            child,
            file_type,
        ).1 is Ok,
        ({
            let dir = directory_from(img, sb, inode_at(img, inode_addr(img, sb, ino)), 0);
            let (names, full) = listed(dir.records, room);
            !full && names.len() + name.len() + 1 <= room
        }),
    ensures
        ({
            let was = inode_at(img, inode_addr(img, sb, ino));
            let after = entry_added(img, sb, ino, was, name, child, file_type).0;
            let now = inode_at(after, inode_addr(after, sb, ino));
            let (names, r) = directory_listed(img, sb, was, room);
            &&& 0 <= p <= names.len()
            &&& directory_listed(after, sb, now, room) == (
                names.take(p) + name.push(0) + names.skip(p),
                r,
            )
        }),
{
    let was = inode_at(img, inode_addr(img, sb, ino));
    let after = entry_added(img, sb, ino, was, name, child, file_type).0;
    let now = inode_at(after, inode_addr(after, sb, ino));
    let k = lemma_entry_added(img, sb, ino, reserved, name, child, file_type, after);
    let old_records = directory_from(img, sb, was, 0).records;
    let new_records = directory_from(after, sb, now, 0).records;
    lemma_not_full(old_records, room);
    let p = lemma_inserted_lines(named(old_records), k, name, child);
    lemma_listed(new_records, room);
    p
}

/// Whether a list of records is another one with one more record: made of what
/// one of them had to spare, or behind them all in a block of its own. All other
/// records say what they said: inode, name and type.
pub open spec fn is_extended(
    sb: Superblock,
    was: Seq<DirRecord>,
    now: Seq<DirRecord>,
    child: u32,
    name: Seq<u8>,
    file_type: u8,
) -> bool {
    ||| exists|i: int| #[trigger] is_split(was, now, i, child, name, file_type)
    ||| exists|block: u32|
        now == was.push(#[trigger] sole_record(sb, block, child, name, file_type))
}

/// Whether a block, if there is one, holds what it held.
pub open spec fn is_same_block(
    img: Image,
    after: Image,
    sb: Superblock,
    block: Result<u32, i32>,
) -> bool {
    match block {
        Ok(b) => b != 0 ==> block_bytes(after, sb, b) == block_bytes(img, sb, b),
        Err(_) => true,
    }
}

/// Whether entering a name into a directory disturbs nothing of the directory
/// itself: what is stored overlaps none of what the directory is made of. It has
/// the blocks that it had; the block that a record is made in is listed once. A
/// block that it gets is listed behind the others and holds the new record, and
/// they hold what they held.
pub open spec fn is_undisturbed(
    img: Image,
    sb: Superblock,
    ino: u32,
    name: Seq<u8>,
    child: u32,
    file_type: u8,
) -> bool {
    let was = inode_at(img, inode_addr(img, sb, ino));
    let after = entry_added(img, sb, ino, was, name, child, file_type).0;
    let now = inode_at(after, inode_addr(after, sb, ino));
    let n = block_span(sb, was.size);
    let records = directory_from(img, sb, was, 0).records;
    &&& forall|i: int|
        0 <= i < n ==> #[trigger] block_of(after, sb, now, i) == block_of(img, sb, was, i)
    &&& match first_slot(records, record_size(name.len() as int)) {
        Some(record) => {
            &&& block_span(sb, now.size) == n
            &&& is_listed_once(img, sb, was, record.block)
        },
        None => {
            let block = block_allocated(img, sb).1->Ok_0;
            &&& block != 0
            &&& block_span(sb, now.size) == n + 1
            &&& block_of(after, sb, now, n) == Ok::<u32, i32>(block)
            &&& block_bytes(after, sb, block) == overlay(
                zeros(MAX_BLOCK_SIZE as nat),
                0,
                entry_bytes(child, sb.block_size as u16, name, file_type),
            ).take(sb.block_size as int)
            &&& forall|i: int|
                0 <= i < n ==> is_same_block(img, after, sb, #[trigger] block_of(img, sb, was, i))
        },
    }
}

/// What splitting a record of an undisturbed directory makes of its records.
proof fn lemma_slot_extends(
    img: Image,
    sb: Superblock,
    ino: u32,
    name: Seq<u8>,
    child: u32,
    file_type: u8,
    record: DirRecord,
)
    requires
        sb.readable(),
        name.len() <= 255,
        is_undisturbed(img, sb, ino, name, child, file_type),
        ({
            let was = inode_at(img, inode_addr(img, sb, ino));
            let records = directory_from(img, sb, was, 0).records;
            &&& has_sound_records(records)
            &&& first_slot(records, record_size(name.len() as int)) == Some(record)
        }),
    ensures
        ({
            let was = inode_at(img, inode_addr(img, sb, ino));
            let after = entry_added(img, sb, ino, was, name, child, file_type).0;
            let now = inode_at(after, inode_addr(after, sb, ino));
            &&& is_extended(
                sb,
                directory_from(img, sb, was, 0).records,
                directory_from(after, sb, now, 0).records,
                child,
                name,
                file_type,
            )
            &&& has_covered_blocks(img, sb, was) ==> has_covered_blocks(after, sb, now)
        }),
{
    let was = inode_at(img, inode_addr(img, sb, ino));
    let after = entry_added(img, sb, ino, was, name, child, file_type).0;
    let now = inode_at(after, inode_addr(after, sb, ino));
    let block = record.block;
    let c = record_split(block_bytes(img, sb, block), record, child, name, file_type);
    assert(after == block_stored(img, sb, block, c));
    assert(c.take(sb.block_size as int) =~= c);
    assert forall|a: int| !in_block(sb, block, a) implies #[trigger] after(a) == img(a) by {}
    assert(block_bytes(after, sb, block) =~= c);
    let (i, k) = lemma_records_split(
        img,
        after,
        sb,
        was,
        now,
        0,
        record,
        child,
        name,
        file_type,
    );
    assert(is_split(
        directory_from(img, sb, was, 0).records,
        directory_from(after, sb, now, 0).records,
        i,
        child,
        name,
        file_type,
    ));
    if has_covered_blocks(img, sb, was) {
        assert forall|j: int| 0 <= j < block_span(sb, now.size) implies is_covered_block(
            after,
            sb,
            #[trigger] block_of(after, sb, now, j),
        ) by {
            let own = block_of(img, sb, was, j);
            assert(block_of(after, sb, now, j) == own);
            assert(is_covered_block(img, sb, own));
            if own is Ok && own->Ok_0 != 0 {
                let b = own->Ok_0;
                if b == block {
                    lemma_split_covers(
                        sb,
                        records_in(block_bytes(img, sb, b), b, 0),
                        records_in(block_bytes(after, sb, b), b, 0),
                        k,
                        child,
                        name,
                        file_type,
                    );
                } else {
                    lemma_block_bytes_other(img, after, sb, block, b);
                }
            }
        }
    }
}

/// What one more block, with one entry, makes of the records of a directory.
proof fn lemma_entry_block_added(
    img: Image,
    after: Image,
    sb: Superblock,
    was: InodeView,
    now: InodeView,
    block: u32,
    name: Seq<u8>,
    child: u32,
    file_type: u8,
)
    requires
        sb.readable(),
        name.len() <= 255,
        0 <= block_span(sb, was.size) < 12,
        block != 0,
        block_span(sb, now.size) == block_span(sb, was.size) + 1,
        block_of(after, sb, now, block_span(sb, was.size)) == Ok::<u32, i32>(block),
        block_bytes(after, sb, block) == overlay(
            zeros(MAX_BLOCK_SIZE as nat),
            0,
            entry_bytes(child, sb.block_size as u16, name, file_type),
        ).take(sb.block_size as int),
        forall|i: int|
            0 <= i < block_span(sb, was.size) ==> #[trigger] block_of(after, sb, now, i)
                == block_of(img, sb, was, i),
        forall|i: int|
            0 <= i < block_span(sb, was.size) ==> is_same_block(
                img,
                after,
                sb,
                #[trigger] block_of(img, sb, was, i),
            ),
    ensures
        directory_from(after, sb, now, 0).records == directory_from(img, sb, was, 0).records.push(
            sole_record(sb, block, child, name, file_type),
        ),
        has_covered_blocks(img, sb, was) ==> has_covered_blocks(after, sb, now),
{
    let n = block_span(sb, was.size);
    let sole = sole_record(sb, block, child, name, file_type);
    assert(records_in(block_bytes(after, sb, block), block, 0) == seq![sole]) by {
        lemma_entry_block(sb, block_bytes(after, sb, block), block, child, name, file_type);
    }
    assert forall|i: int| 0 <= i < n implies #[trigger] now.blocks[i] == was.blocks[i] by {
        assert(block_of(after, sb, now, i) == block_of(img, sb, was, i));
    }
    assert forall|i: int| 0 <= i < n && #[trigger] was.blocks[i] != 0 implies block_bytes(
        after,
        sb,
        was.blocks[i],
    ) == block_bytes(img, sb, was.blocks[i]) by {
        assert(is_same_block(img, after, sb, block_of(img, sb, was, i)));
    }
    assert(directory_from(after, sb, now, 0).records == directory_from(img, sb, was, 0).records
        + seq![sole]) by {
        lemma_directory_appended(img, after, sb, was, now, 0);
        lemma_last_block(after, sb, now, n, block);
    }
    let records = directory_from(img, sb, was, 0).records;
    assert(records + seq![sole] =~= records.push(sole));
    if has_covered_blocks(img, sb, was) {
        lemma_sole_covers(sb, block, child, name, file_type);
        assert forall|j: int| 0 <= j < block_span(sb, now.size) implies is_covered_block(
            after,
            sb,
            #[trigger] block_of(after, sb, now, j),
        ) by {
            if j < n {
                let own = block_of(img, sb, was, j);
                assert(block_of(after, sb, now, j) == own);
                assert(is_covered_block(img, sb, own));
                assert(is_same_block(img, after, sb, own));
            }
        }
    }
}

/// What a new block makes of the records of an undisturbed directory.
proof fn lemma_block_extends(
    img: Image,
    sb: Superblock,
    ino: u32,
    name: Seq<u8>,
    child: u32,
    file_type: u8,
)
    requires
        sb.readable(),
        name.len() <= 255,
        is_undisturbed(img, sb, ino, name, child, file_type),
        ({
            let was = inode_at(img, inode_addr(img, sb, ino));
            let records = directory_from(img, sb, was, 0).records;
            &&& first_slot(records, record_size(name.len() as int)) is None
            &&& entry_added(img, sb, ino, was, name, child, file_type).1 is Ok
        }),
    ensures
        ({
            let was = inode_at(img, inode_addr(img, sb, ino));
            let after = entry_added(img, sb, ino, was, name, child, file_type).0;
            let now = inode_at(after, inode_addr(after, sb, ino));
            &&& is_extended(
                sb,
                directory_from(img, sb, was, 0).records,
                directory_from(after, sb, now, 0).records,
                child,
                name,
                file_type,
            )
            &&& has_covered_blocks(img, sb, was) ==> has_covered_blocks(after, sb, now)
        }),
{
    let was = inode_at(img, inode_addr(img, sb, ino));
    let after = entry_added(img, sb, ino, was, name, child, file_type).0;
    let now = inode_at(after, inode_addr(after, sb, ino));
    let block = block_allocated(img, sb).1->Ok_0;
    lemma_span_grows(sb, was.size);
    lemma_entry_block_added(img, after, sb, was, now, block, name, child, file_type);
}

/// Entering a name of up to 255 bytes into a directory adds exactly one record,
/// with the inode, the name and the type that were given; all others keep theirs.
/// Where the records covered every block of the directory, they still do, and the
/// new one covers a block that the directory got. The records must have room for
/// their names, as those have that cover their blocks, and what is stored must not
/// overlap what the directory is made of.
pub proof fn law_entry_keeps_records(
    img: Image,
    sb: Superblock,
    ino: u32,
    name: Seq<u8>,
    child: u32,
    file_type: u8,
)
    requires
        sb.readable(),
        name.len() <= 255,
        ({
            let was = inode_at(img, inode_addr(img, sb, ino));
            ||| has_covered_blocks(img, sb, was)
            ||| has_sound_records(directory_from(img, sb, was, 0).records)
        }),
        entry_added(
            img,
            sb,
            ino,
            inode_at(img, inode_addr(img, sb, ino)),
            name,
            child,
            file_type,
        ).1 is Ok,
        is_undisturbed(img, sb, ino, name, child, file_type),
    ensures
        ({
            let was = inode_at(img, inode_addr(img, sb, ino));
            let after = entry_added(img, sb, ino, was, name, child, file_type).0;
            let now = inode_at(after, inode_addr(after, sb, ino));
            &&& has_covered_blocks(img, sb, was) ==> has_covered_blocks(after, sb, now)
            &&& is_extended(
                sb,
                directory_from(img, sb, was, 0).records,
                directory_from(after, sb, now, 0).records,
                child,
                name,
                file_type,
            )
        }),
{
    let was = inode_at(img, inode_addr(img, sb, ino));
    if has_covered_blocks(img, sb, was) {
        lemma_covered_sound(img, sb, was, 0);
    }
    match first_slot(directory_from(img, sb, was, 0).records, record_size(name.len() as int)) {
        Some(record) => lemma_slot_extends(img, sb, ino, name, child, file_type, record),
        None => lemma_block_extends(img, sb, ino, name, child, file_type),
    }
}

/// Entering a name into a sound directory disturbs nothing of it.
pub proof fn law_sound_directory_is_undisturbed(
    img: Image,
    sb: Superblock,
    ino: u32,
    reserved: Region,
    name: Seq<u8>,
    child: u32,
    file_type: u8,
)
    requires
        is_sound_directory(img, sb, ino, reserved),
        name.len() <= 255,
        entry_added(
            img,
            sb,
            ino,
            inode_at(img, inode_addr(img, sb, ino)),
            name,
            child,
            file_type,
        ).1 is Ok,
    ensures
        is_undisturbed(img, sb, ino, name, child, file_type),
{
    let was = inode_at(img, inode_addr(img, sb, ino));
    let after = entry_added(img, sb, ino, was, name, child, file_type).0;
    let now = inode_at(after, inode_addr(after, sb, ino));
    match first_slot(directory_from(img, sb, was, 0).records, record_size(name.len() as int)) {
        Some(record) => {
            lemma_slot_stored(img, sb, ino, reserved, name, child, file_type, record, after);
            assert forall|i: int, j: int|
                0 <= i < j < block_span(sb, was.size) implies !(#[trigger] block_of(
                img,
                sb,
                was,
                i,
            ) == #[trigger] block_of(img, sb, was, j) && block_of(img, sb, was, i) == Ok::<
                u32,
                i32,
            >(record.block)) by {
                let k = lemma_first_slot(
                    directory_from(img, sb, was, 0).records,
                    record_size(name.len() as int),
                );
                let l = lemma_record_block(img, sb, was, 0, k);
            }
        },
        None => {
            let block = block_allocated(img, sb).1->Ok_0;
            let content = overlay(
                zeros(MAX_BLOCK_SIZE as nat),
                0,
                entry_bytes(child, sb.block_size as u16, name, file_type),
            );
            let img2 = block_stored(block_allocated(img, sb).0, sb, block, content);
            assert(raw_inode(img2, sb, ino) == raw_inode(img, sb, ino)) by {
                lemma_entry_block_given(img, sb, ino, reserved, content, img2);
            }
            lemma_block_entered(img, sb, ino, reserved, content, img2, after);
            lemma_span_grows(sb, was.size);
            assert forall|i: int|
                0 <= i < block_span(sb, was.size) implies #[trigger] block_of(after, sb, now, i)
                == block_of(img, sb, was, i) by {
                assert(now.blocks[i] == was.blocks[i]);
            }
            assert forall|i: int| 0 <= i < block_span(sb, was.size) implies is_same_block(
                img,
                after,
                sb,
                #[trigger] block_of(img, sb, was, i),
            ) by {
                assert(was.blocks[i] == block_of(img, sb, was, i)->Ok_0);
            }
        },
    }
}

} // verus!
