//! A path that can be created is created, as what was asked for.

use vstd::prelude::*;
use crate::bitmap::{
    block_allocated, block_freed, inode_allocated, inode_freed, numbers_bounded,
};
use crate::codec::{overlay, put_u16, put_u32, zeros};
use crate::create::{
    created, new_file_type, new_inode, new_mode, node_entered, node_made, wants_directory,
};
use crate::dir::{directory_from, resolved, DirRecord};
use crate::disk::{Image, Region};
use crate::entry::{
    directory_block, entry_added, entry_appended, entry_bytes, first_slot,
    raw_inode, record_size,
};
use crate::laws::creation::{
    is_afforded, is_creatable, is_in_numbering, lemma_created_there,
    lemma_furnished, lemma_new_inode, lemma_new_inode_stored, lemma_numbered, lemma_numbering,
    has_bytes, is_vacant, with_block,
};
use crate::laws::directory::is_sound_directory;
use crate::laws::format::{descriptor, fails_with, half, law_mode_tells_type, word};
use crate::laws::inode::lemma_raw_inode;
use crate::laws::ownership::{
    block_bitmap, in_block, in_inode, is_free, is_laid_out, is_regular,
};
use crate::laws::refusal::is_countable;
use crate::laws::sufficiency::{is_supplied, lemma_given_out};
use crate::laws::supply::{
    is_unused_block, is_unused_number, law_lowest_number_is_given_out, lemma_bit,
};
use crate::layout::{
    block_bytes, block_span, block_stored, group_desc_at, inode_addr, inode_at, inode_in, inode_stored,
    InodeView, Superblock, MAX_BLOCK_SIZE,
};
use crate::path::split;

verus! {

/// Whether a mode asks for a directory: the upper four of its lower sixteen bits
/// are 4.
pub open spec fn asks_for_directory(mode: u32) -> bool {
    mode / 4096 % 16 == 4
}

/// What a requested mode asks for.
pub proof fn law_requested_type(mode: u32)
    ensures
        wants_directory(mode) <==> asks_for_directory(mode),
        new_file_type(mode) == if asks_for_directory(mode) {
            2u8
        } else {
            1u8
        },
{
    let m = mode as u16;
    law_mode_tells_type(m);
    assert(m / 4096 == mode / 4096 % 16) by (bit_vector)
        requires
            m == mode as u16,
    ;
}

/// The mode of a new inode in numbers.
proof fn lemma_mode_in_numbers(mode: u32, dir: bool, m: u16)
    requires
        m == (if dir {
            0x4000u16
        } else {
            0x8000u16
        }) | ((mode as u16) & 0o777),
    ensures
        m % 512 == mode % 512,
        m / 512 % 8 == 0,
        m / 4096 == if dir {
            4u16
        } else {
            8u16
        },
{
    assert(m % 512 == mode % 512 && m / 512 % 8 == 0 && m / 4096 == (if dir {
        4u16
    } else {
        8u16
    })) by (bit_vector)
        requires
            m == (if dir {
                0x4000u16
            } else {
                0x8000u16
            }) | ((mode as u16) & 0o777),
    ;
}

/// The number in four bytes of a buffer.
pub open spec fn field32(s: Seq<u8>, j: int) -> int {
    s[j] + 256 * s[j + 1] + 65536 * s[j + 2] + 16777216 * s[j + 3]
}

/// Whether a buffer is another one but for a number at some bytes.
pub open spec fn is_put(s: Seq<u8>, t: Seq<u8>, at: int, len: int, v: int) -> bool {
    &&& t.len() == s.len()
    &&& len == 4 ==> field32(t, at) == v
    &&& len == 2 ==> t[at] + 256 * t[at + 1] == v
    &&& forall|j: int| 0 <= j < s.len() && !(at <= j < at + len) ==> #[trigger] t[j] == s[j]
}

/// Storing a 32-bit number in a buffer.
pub proof fn lemma_put32(s: Seq<u8>, at: int, v: u32)
    requires
        0 <= at,
        at + 4 <= s.len(),
    ensures
        is_put(s, put_u32(s, at, v), at, 4, v as int),
{
}

/// Storing a 16-bit number in a buffer.
pub proof fn lemma_put16(s: Seq<u8>, at: int, v: u16)
    requires
        0 <= at,
        at + 2 <= s.len(),
    ensures
        is_put(s, put_u16(s, at, v), at, 2, v as int),
{
}

/// Whether a buffer holds the inode of a new directory or file.
pub open spec fn is_new_inode(raw: Seq<u8>, sb: Superblock, mode: u32, block: u32) -> bool {
    let m = raw[0] + 256 * raw[1];
    let dir = asks_for_directory(mode);
    &&& raw.len() == 512
    &&& m % 512 == mode % 512
    &&& m / 512 % 8 == 0
    &&& m / 4096 == if dir {
        4int
    } else {
        8
    }
    &&& field32(raw, 4) == if dir {
        sb.block_size as int
    } else {
        0
    }
    &&& raw[26] + 256 * raw[27] == if dir {
        2int
    } else {
        1
    }
    &&& field32(raw, 28) == if dir {
        sb.block_size as int / 512
    } else {
        0
    }
    &&& field32(raw, 40) == if dir {
        block as int
    } else {
        0
    }
    &&& forall|j: int|
        0 <= j < 512 && !(0 <= j < 2 || 4 <= j < 8 || 26 <= j < 32 || 40 <= j < 44)
            ==> #[trigger] raw[j] == 0
}

/// The steps of filling in the inode of a new directory.
proof fn lemma_directory_inode(
    r0: Seq<u8>,
    r1: Seq<u8>,
    r2: Seq<u8>,
    r3: Seq<u8>,
    r4: Seq<u8>,
    r5: Seq<u8>,
    m: u16,
    sb: Superblock,
    block: u32,
)
    requires
        r0.len() == 512,
        forall|j: int| 0 <= j < 512 ==> #[trigger] r0[j] == 0,
        is_put(r0, r1, 0, 2, m as int),
        is_put(r1, r2, 26, 2, 2),
        is_put(r2, r3, 4, 4, sb.block_size as int),
        is_put(r3, r4, 28, 4, sb.block_size as int / 512),
        is_put(r4, r5, 40, 4, block as int),
    ensures
        r5.len() == 512,
        r5[0] + 256 * r5[1] == m,
        field32(r5, 4) == sb.block_size,
        r5[26] + 256 * r5[27] == 2,
        field32(r5, 28) == sb.block_size as int / 512,
        field32(r5, 40) == block,
        forall|j: int|
            0 <= j < 512 && !(0 <= j < 2 || 4 <= j < 8 || 26 <= j < 32 || 40 <= j < 44)
                ==> #[trigger] r5[j] == 0,
{
}

/// The steps of filling in the inode of a new file.
proof fn lemma_file_inode(r0: Seq<u8>, r1: Seq<u8>, r2: Seq<u8>, m: u16)
    requires
        r0.len() == 512,
        forall|j: int| 0 <= j < 512 ==> #[trigger] r0[j] == 0,
        is_put(r0, r1, 0, 2, m as int),
        is_put(r1, r2, 26, 2, 1),
    ensures
        r2.len() == 512,
        r2[0] + 256 * r2[1] == m,
        r2[26] + 256 * r2[27] == 1,
        forall|j: int|
            0 <= j < 512 && !(0 <= j < 2 || 26 <= j < 28) ==> #[trigger] r2[j] == 0,
{
}

/// The bytes of a new inode. Its mode has the nine permission bits of the request,
/// for a directory as for a file, and the type of a directory or of a file, and no
/// other bits. A directory has two links, is one block long and has it, which counts
/// for as many sectors of 512 bytes as it has; a file has one link and no bytes. All
/// other bytes are 0.
#[verifier::rlimit(30)]
pub proof fn law_new_inode_in_numbers(sb: Superblock, mode: u32, block: u32)
    ensures
        is_new_inode(new_inode(sb, mode, block), sb, mode, block),
{
    let raw = new_inode(sb, mode, block);
    let m = new_mode(mode);
    law_requested_type(mode);
    lemma_mode_in_numbers(mode, wants_directory(mode), m);
    let r0 = zeros(512);
    let r1 = put_u16(r0, 0, m);
    lemma_put16(r0, 0, m);
    if wants_directory(mode) {
        let r2 = put_u16(r1, 26, 2);
        let r3 = put_u32(r2, 4, sb.block_size);
        let r4 = put_u32(r3, 28, sb.block_size / 512);
        let r5 = put_u32(r4, 40, block);
        lemma_put16(r1, 26, 2);
        lemma_put32(r2, 4, sb.block_size);
        lemma_put32(r3, 28, sb.block_size / 512);
        lemma_put32(r4, 40, block);
        lemma_directory_inode(r0, r1, r2, r3, r4, r5, m, sb, block);
        assert(raw == r5);
    } else {
        let r2 = put_u16(r1, 26, 1);
        lemma_put16(r1, 26, 1);
        lemma_file_inode(r0, r1, r2, m);
        assert(raw == r2);
    }
}

/// The bytes of a new inode on a disk.
proof fn lemma_inode_in_numbers(
    img: Image,
    sb: Superblock,
    ino: u32,
    raw: Seq<u8>,
    mode: u32,
    block: u32,
)
    requires
        100 <= sb.inode_size <= 512,
        is_new_inode(raw, sb, mode, block),
        has_bytes(img, sb, ino, raw),
    ensures
        ({
            let at = inode_addr(img, sb, ino);
            &&& half(img, at) == raw[0] + 256 * raw[1]
            &&& half(img, at + 26) == raw[26] + 256 * raw[27]
            &&& word(img, at + 28) == field32(raw, 28)
            &&& word(img, at + 40) == field32(raw, 40)
            &&& forall|j: int|
                0 <= j < sb.inode_size && !(0 <= j < 2 || 4 <= j < 8 || 26 <= j < 32 || 40 <= j
                    < 44) ==> #[trigger] img(at + j) == 0
        }),
{
    reveal(has_bytes);
    let at = inode_addr(img, sb, ino);
    assert forall|j: int| 0 <= j < sb.inode_size implies #[trigger] img(at + j) == raw[j] by {}
    assert(img(at + 0) == raw[0] && img(at + 1) == raw[1]);
    assert(img(at + 26) == raw[26] && img(at + 27) == raw[27]);
    assert(img(at + 28) == raw[28] && img(at + 29) == raw[29] && img(at + 30) == raw[30] && img(
        at + 31,
    ) == raw[31]);
    assert(img(at + 40) == raw[40] && img(at + 41) == raw[41] && img(at + 42) == raw[42] && img(
        at + 43,
    ) == raw[43]);
}

/// Creating a path for any requested mode makes what was asked for: the path leads
/// to an inode whose mode has exactly the nine permission bits of the request, for
/// directories as for files, and the type of a directory where one was asked for and
/// else that of a file. Its bytes on the disk are those of a new inode: 2 links and
/// one block for a directory, 1 link and nothing for a file.
#[verifier::rlimit(30)]
pub proof fn law_created_as_requested(
    img: Image,
    sb: Superblock,
    path: Seq<u8>,
    mode: u32,
    reserved: Region,
)
    requires
        is_creatable(img, sb, path, reserved),
        is_afforded(img, sb, path, mode),
    ensures
        ({
            let (after, r) = created(img, sb, path, mode);
            let (ino, inode) = resolved(after, sb, path)->Ok_0;
            let at = inode_addr(after, sb, ino);
            let dir = mode / 4096 % 16 == 4;
            &&& r is Ok
            &&& resolved(after, sb, path) is Ok
            &&& inode.mode & 0o777 == mode & 0o777
            &&& inode.mode & 0xf000 == if dir {
                0x4000u16
            } else {
                0x8000u16
            }
            &&& inode.mode & 0x0e00 == 0
            &&& half(after, at) == inode.mode
            &&& inode.size == if dir {
                sb.block_size
            } else {
                0
            }
            &&& half(after, at + 26) == if dir {
                2int
            } else {
                1
            }
            &&& word(after, at + 28) == if dir {
                sb.block_size as int / 512
            } else {
                0
            }
            &&& dir <==> word(after, at + 40) != 0
            &&& forall|j: int|
                0 <= j < sb.inode_size && !(0 <= j < 2 || 4 <= j < 8 || 26 <= j < 32 || 40 <= j
                    < 44) ==> #[trigger] after(at + j) == 0
        }),
{
    let (ino, block) = lemma_created_there(img, sb, path, mode, reserved);
    let raw = new_inode(sb, mode, block);
    let (after, _) = created(img, sb, path, mode);
    let inode = inode_in(raw);
    law_requested_type(mode);
    law_new_inode_in_numbers(sb, mode, block);
    lemma_inode_in_numbers(after, sb, ino, raw, mode, block);
    let m = inode.mode;
    assert(m == raw[0] + 256 * raw[1]);
    let w = m as u32;
    assert(w & 0o777 == mode & 0o777) by (bit_vector)
        requires
            w % 512 == mode % 512,
    ;
    assert(w & 0x0e00 == 0) by (bit_vector)
        requires
            w / 512 % 8 == 0,
    ;
    assert((w / 4096 == 4 ==> w & 0xf000 == 0x4000) && (w / 4096 == 8 ==> w & 0xf000 == 0x8000))
        by (bit_vector);
}

/// The bytes that a record with a name takes: 8 and as many more as the name needs,
/// in fours.
pub open spec fn bytes_for(name_len: int) -> int {
    8 + name_len + (if name_len % 4 == 0 {
        0int
    } else {
        4 - name_len % 4
    })
}

/// Whether a record has room for another one behind its own name.
pub open spec fn has_room(record: DirRecord, name: Seq<u8>) -> bool {
    record.rec_len >= bytes_for(record.name_len as int) + bytes_for(name.len() as int)
}

/// Whether one of some records has room for another one.
pub open spec fn have_room(records: Seq<DirRecord>, name: Seq<u8>) -> bool {
    exists|i: int| 0 <= i < records.len() && #[trigger] has_room(records[i], name)
}

/// A slot for a name is found exactly where a record has room for it.
proof fn lemma_slot_found(records: Seq<DirRecord>, name: Seq<u8>)
    ensures
        first_slot(records, record_size(name.len() as int)) is Some <==> have_room(records, name),
    decreases records.len(),
{
    if records.len() > 0 {
        let rest = records.drop_first();
        lemma_slot_found(rest, name);
        let first = records[0];
        assert(has_room(first, name) <==> first.rec_len >= record_size(first.name_len as int)
            + record_size(name.len() as int));
        if have_room(records, name) {
            let i = choose|i: int| 0 <= i < records.len() && #[trigger] has_room(records[i], name);
            if i > 0 {
                assert(has_room(rest[i - 1], name));
            }
        }
        if have_room(rest, name) {
            let i = choose|i: int| 0 <= i < rest.len() && #[trigger] has_room(rest[i], name);
            assert(has_room(records[i + 1], name));
        }
    }
}

/// No slot is found where no record has room.
pub proof fn lemma_no_room(records: Seq<DirRecord>, name: Seq<u8>)
    requires
        forall|j: int| 0 <= j < records.len() ==> !has_room(#[trigger] records[j], name),
    ensures
        first_slot(records, record_size(name.len() as int)) is None,
{
    lemma_slot_found(records, name);
}

/// All blocks of a directory that has no more than twelve can be located.
proof fn lemma_no_error(img: Image, sb: Superblock, inode: InodeView, index: int)
    requires
        0 <= index,
        block_span(sb, inode.size) <= 12,
    ensures
        directory_from(img, sb, inode, index).error is None,
    decreases block_span(sb, inode.size) - index,
{
    if index < block_span(sb, inode.size) {
        lemma_no_error(img, sb, inode, index + 1);
    }
}

/// Where a name can be entered into a directory, it is.
#[verifier::rlimit(30)]
proof fn lemma_entry_made(
    img: Image,
    sb: Superblock,
    dir: u32,
    reserved: Region,
    name: Seq<u8>,
    child: u32,
    file_type: u8,
    free: Set<u32>,
)
    requires
        is_sound_directory(img, sb, dir, reserved),
        name.len() <= 255,
        ({
            let inode = inode_at(img, inode_addr(img, sb, dir));
            ||| have_room(directory_from(img, sb, inode, 0).records, name)
            ||| block_span(sb, inode.size) < 12 && is_supplied(img, sb, free, 1)
        }),
    ensures
        ({
            let inode = inode_at(img, inode_addr(img, sb, dir));
            entry_added(img, sb, dir, inode, name, child, file_type).1 is Ok
        }),
{
    let inode = inode_at(img, inode_addr(img, sb, dir));
    let directory = directory_from(img, sb, inode, 0);
    lemma_slot_found(directory.records, name);
    if first_slot(directory.records, record_size(name.len() as int)) is None {
        lemma_no_error(img, sb, inode, 0);
        let content = overlay(
            zeros(MAX_BLOCK_SIZE as nat),
            0,
            entry_bytes(child, sb.block_size as u16, name, file_type),
        );
        lemma_given_out(
            img,
            sb,
            dir,
            reserved,
            raw_inode(img, sb, dir),
            free,
            1,
            content,
        );
        let (img1, r) = block_allocated(img, sb);
        let img2 = block_stored(img1, sb, r->Ok_0, content);
        lemma_raw_inode(img2, sb, dir);
        assert(entry_appended(img, sb, dir, inode, name, child, file_type).1 is Ok);
    }
}

/// The counts of free blocks and of free inodes of a volume lie in one block.
proof fn lemma_counts_together(sb: Superblock, block: u32)
    requires
        sb.readable(),
        !in_block(sb, block, 1040),
    ensures
        !in_block(sb, block, 1036),
        !in_block(sb, block, 1037),
{
    if sb.block_size == 1024 {
        assert(block * sb.block_size == 1024 * block);
    } else if sb.block_size == 2048 {
        assert(block * sb.block_size == 2048 * block);
    } else {
        assert(block * sb.block_size == 4096 * block);
    }
}

/// Giving out an inode number leaves the blocks that can be given out.
#[verifier::rlimit(30)]
proof fn lemma_supply_numbered(
    img: Image,
    sb: Superblock,
    dir: u32,
    ino: u32,
    reserved: Region,
    free: Set<u32>,
    n: int,
)
    requires
        is_sound_directory(img, sb, dir, reserved),
        is_vacant(img, sb, dir, ino, reserved),
        is_countable(img, sb, reserved),
        numbers_bounded(img, sb),
        is_supplied(img, sb, free, n),
    ensures
        is_supplied(inode_allocated(img, sb).0, sb, free, n),
{
    let img1 = inode_allocated(img, sb).0;
    let d = descriptor(sb, 0);
    lemma_numbering(img, sb);
    lemma_numbered(img, sb, dir, ino, reserved);
    let bm = group_desc_at(img, sb, 0).inode_bitmap;
    assert(!is_in_numbering(img, sb, d + 12) && !is_in_numbering(img, sb, d + 13));
    lemma_counts_together(sb, bm);
    assert(!is_in_numbering(img, sb, 1036) && !is_in_numbering(img, sb, 1037));
    assert(img1(1036) == img(1036) && img1(1037) == img(1037));
    assert(img1(d + 12) == img(d + 12) && img1(d + 13) == img(d + 13));
    assert forall|b: u32| #[trigger] free.contains(b) implies is_free(img1, sb, b) by {
        assert(is_free(img, sb, b));
    }
}

/// Storing a new inode leaves the blocks that can be given out.
#[verifier::rlimit(30)]
proof fn lemma_supply_stored(
    img: Image,
    sb: Superblock,
    ino: u32,
    reserved: Region,
    raw: Seq<u8>,
    free: Set<u32>,
    n: int,
)
    requires
        is_regular(sb),
        ino >= 1,
        is_laid_out(img, sb, ino, reserved),
        raw.len() == 512,
        is_supplied(img, sb, free, n),
    ensures
        is_supplied(inode_stored(img, sb, ino, raw).0, sb, free, n),
{
    let stored = inode_stored(img, sb, ino, raw).0;
    let d = descriptor(sb, 0);
    let bm = block_bitmap(img, sb);
    let bs = sb.block_size as int;
    assert(forall|a: int| !in_inode(img, sb, ino, a) ==> #[trigger] stored(a) == img(a));
    assert(!in_inode(img, sb, ino, 1036) && !in_inode(img, sb, ino, 1037));
    assert(!in_inode(img, sb, ino, d + 12) && !in_inode(img, sb, ino, d + 13));
    assert(stored(1036) == img(1036) && stored(1037) == img(1037));
    assert(stored(d + 12) == img(d + 12) && stored(d + 13) == img(d + 13));
    assert(!in_inode(img, sb, ino, d) && !in_inode(img, sb, ino, d + 1) && !in_inode(
        img,
        sb,
        ino,
        d + 2,
    ) && !in_inode(img, sb, ino, d + 3));
    assert(stored(d) == img(d) && stored(d + 1) == img(d + 1) && stored(d + 2) == img(d + 2)
        && stored(d + 3) == img(d + 3));
    assert(block_bitmap(stored, sb) == bm);
    assert(block_bytes(stored, sb, bm) =~= block_bytes(img, sb, bm)) by {
        assert forall|i: int| 0 <= i < bs implies #[trigger] stored(bm * bs + i) == img(
            bm * bs + i,
        ) by {
            assert(in_block(sb, bm, bm * bs + i));
            assert(!in_inode(img, sb, ino, bm * bs + i));
        }
    }
    assert forall|b: u32| #[trigger] free.contains(b) implies is_free(stored, sb, b) by {
        assert(is_free(img, sb, b));
    }
}

/// How many blocks creating a path takes: one for a new directory, and one where no
/// record of the directory that it is created in has room for its name.
pub open spec fn blocks_for_creating(
    img: Image,
    sb: Superblock,
    parent: InodeView,
    name: Seq<u8>,
    mode: u32,
) -> int {
    (if asks_for_directory(mode) {
        1int
    } else {
        0
    }) + if have_room(directory_from(img, sb, parent, 0).records, name) {
        0int
    } else {
        1
    }
}

/// What creating takes, where it can be had.
#[verifier::rlimit(30)]
proof fn lemma_afforded(
    img: Image,
    sb: Superblock,
    dir: u32,
    ino: u32,
    reserved: Region,
    name: Seq<u8>,
    mode: u32,
    free: Set<u32>,
)
    requires
        is_sound_directory(img, sb, dir, reserved),
        is_vacant(img, sb, dir, ino, reserved),
        is_countable(img, sb, reserved),
        numbers_bounded(img, sb),
        inode_allocated(img, sb).1 == Ok::<u32, i32>(ino),
        name.len() <= 255,
        ({
            let parent = inode_at(img, inode_addr(img, sb, dir));
            &&& is_supplied(img, sb, free, blocks_for_creating(img, sb, parent, name, mode))
            &&& have_room(directory_from(img, sb, parent, 0).records, name) || block_span(
                sb,
                parent.size,
            ) < 12
        }),
    ensures
        ({
            let parent = inode_at(img, inode_addr(img, sb, dir));
            let (ready, node) = node_made(img, sb, mode, dir);
            &&& node is Ok
            &&& node_entered(ready, sb, dir, parent, name, mode, node->Ok_0).1 is Ok
        }),
{
    let parent = inode_at(img, inode_addr(img, sb, dir));
    let n = blocks_for_creating(img, sb, parent, name, mode);
    let img1 = inode_allocated(img, sb).0;
    law_requested_type(mode);
    lemma_numbered(img, sb, dir, ino, reserved);
    lemma_supply_numbered(img, sb, dir, ino, reserved, free, n);
    let rest = if wants_directory(mode) {
        free.remove(block_allocated(img1, sb).1->Ok_0)
    } else {
        free
    };
    let left = if wants_directory(mode) {
        n - 1
    } else {
        n
    };
    let content = directory_block(sb, ino, dir);
    if wants_directory(mode) {
        lemma_given_out(
            img1,
            sb,
            dir,
            reserved,
            raw_inode(img1, sb, dir),
            free,
            n,
            content,
        );
    }
    let (ready, node) = node_made(img, sb, mode, dir);
    assert(node is Ok);
    let block = (node->Ok_0).1;
    if wants_directory(mode) {
        lemma_furnished(img, img1, sb, dir, ino, reserved, content, block, ready);
    }
    assert(is_supplied(ready, sb, rest, left));
    let raw = new_inode(sb, mode, block);
    let stored = inode_stored(ready, sb, ino, raw).0;
    lemma_new_inode(ready, sb, mode, block);
    lemma_new_inode_stored(img, ready, sb, dir, ino, reserved, mode, block, stored);
    lemma_supply_stored(ready, sb, ino, reserved, raw, rest, left);
    lemma_entry_made(
        stored,
        sb,
        dir,
        with_block(sb, reserved, block),
        name,
        ino,
        new_file_type(mode),
        rest,
    );
}

/// A path that can be created is created. Where the first group has a free inode
/// number, and a free block for a new directory and another one where no record of
/// the directory has room for the name, with all counts of free inodes and blocks as
/// large, creating succeeds; but a directory gets no thirteenth block for a name.
#[verifier::rlimit(30)]
pub proof fn law_possible_creation_is_made(
    img: Image,
    sb: Superblock,
    path: Seq<u8>,
    mode: u32,
    reserved: Region,
    number: int,
    free: Set<u32>,
)
    requires
        is_creatable(img, sb, path, reserved),
        is_countable(img, sb, reserved),
        sb.inodes_per_group <= 8 * sb.block_size || sb.inodes_count <= 8 * sb.block_size,
        is_unused_number(img, sb, number),
        half(img, 1040) != 0,
        half(img, descriptor(sb, 0) + 14) != 0,
        ({
            let (parent_path, name) = split(path)->Ok_0;
            let (_, parent) = resolved(img, sb, parent_path)->Ok_0;
            let needed = blocks_for_creating(img, sb, parent, name, mode);
            &&& have_room(directory_from(img, sb, parent, 0).records, name) || parent.size <= 11
                * sb.block_size
            &&& free.finite()
            &&& free.len() >= needed
            &&& forall|b: u32| #[trigger] free.contains(b) ==> is_unused_block(img, sb, b as int)
            &&& half(img, 1036) >= needed
            &&& half(img, descriptor(sb, 0) + 12) >= needed
        }),
    ensures
        created(img, sb, path, mode).1 is Ok,
        resolved(created(img, sb, path, mode).0, sb, path) is Ok,
{
    let (parent_path, name) = split(path)->Ok_0;
    let (dir, parent) = resolved(img, sb, parent_path)->Ok_0;
    law_lowest_number_is_given_out(img, sb);
    let ino = inode_allocated(img, sb).1->Ok_0;
    assert(inode_allocated(img, sb).1 == Ok::<u32, i32>(ino));
    assert(parent == inode_at(img, inode_addr(img, sb, dir)));
    assert(group_desc_at(img, sb, 0).block_bitmap == word(img, descriptor(sb, 0)));
    assert forall|b: u32| #[trigger] free.contains(b) implies is_free(img, sb, b) by {
        assert(is_unused_block(img, sb, b as int));
        lemma_bit(img, sb, block_bitmap(img, sb), b);
    }
    if parent.size <= 11 * sb.block_size {
        let bs = sb.block_size as int;
        let n = block_span(sb, parent.size);
        vstd::arithmetic::div_mod::lemma_fundamental_div_mod(parent.size + bs - 1, bs);
        vstd::arithmetic::div_mod::lemma_mod_bound(parent.size + bs - 1, bs);
        assert(n < 12) by (nonlinear_arith)
            requires
                bs * n <= parent.size + bs - 1,
                parent.size <= 11 * bs,
                bs > 0,
        ;
    }
    lemma_afforded(img, sb, dir, ino, reserved, name, mode, free);
    let made = lemma_created_there(img, sb, path, mode, reserved);
}

/// What creating stores, step by step, where it succeeds: a number is given out and,
/// for a directory, a block, which is filled with the entries for itself and for the
/// directory that it is created in; then the inode is stored; and then the name is
/// entered, with type 2 for a directory and 1 for a file.
#[verifier::rlimit(30)]
pub proof fn law_created_step_by_step(img: Image, sb: Superblock, path: Seq<u8>, mode: u32)
    requires
        created(img, sb, path, mode).1 is Ok,
    ensures
        ({
            let (parent_path, name) = split(path)->Ok_0;
            let (dir, parent) = resolved(img, sb, parent_path)->Ok_0;
            let (img1, number) = inode_allocated(img, sb);
            let (img2, given) = block_allocated(img1, sb);
            let ino = number->Ok_0;
            let wanted = asks_for_directory(mode);
            let ready = if wanted {
                block_stored(img2, sb, given->Ok_0, directory_block(sb, ino, dir))
            } else {
                img1
            };
            let raw = new_inode(sb, mode, if wanted { given->Ok_0 } else { 0 });
            let (stored, kept) = inode_stored(ready, sb, ino, raw);
            let file_type = if wanted {
                2u8
            } else {
                1u8
            };
            &&& resolved(img, sb, path) is Err
            &&& split(path) is Ok
            &&& resolved(img, sb, parent_path) is Ok
            &&& parent.mode / 4096 == 4
            &&& number is Ok
            &&& wanted ==> given is Ok
            &&& kept is Ok
            &&& entry_added(stored, sb, dir, parent, name, ino, file_type) == (
                created(img, sb, path, mode).0,
                Ok::<(), i32>(()),
            )
            &&& resolved(created(img, sb, path, mode).0, sb, path) is Ok
        }),
{
    law_requested_type(mode);
    let (parent_path, _) = split(path)->Ok_0;
    let (_, parent) = resolved(img, sb, parent_path)->Ok_0;
    law_mode_tells_type(parent.mode);
}

/// What creating leaves where it cannot go on: without a number, what giving one out
/// leaves; without a block for a directory, that with the number taken back; and where
/// the name cannot be entered, that with the block and then the number taken back. The
/// answer is that of the step that failed.
#[verifier::rlimit(30)]
pub proof fn law_unmade_is_taken_back(img: Image, sb: Superblock, path: Seq<u8>, mode: u32)
    requires
        sb.inode_size <= 512,
        resolved(img, sb, path) is Err,
        split(path) is Ok,
        resolved(img, sb, (split(path)->Ok_0).0) is Ok,
        (resolved(img, sb, (split(path)->Ok_0).0)->Ok_0).1.mode / 4096 == 4,
    ensures
        ({
            let (after, r) = created(img, sb, path, mode);
            let (parent_path, name) = split(path)->Ok_0;
            let (dir, parent) = resolved(img, sb, parent_path)->Ok_0;
            let (img1, number) = inode_allocated(img, sb);
            let (img2, given) = block_allocated(img1, sb);
            let ino = number->Ok_0;
            let block = given->Ok_0;
            let wanted = asks_for_directory(mode);
            if number is Err {
                after == img1 && fails_with(r, number->Err_0 as int)
            } else if wanted && given is Err {
                after == inode_freed(img2, sb, ino) && fails_with(r, given->Err_0 as int)
            } else {
                let ready = if wanted {
                    block_stored(img2, sb, block, directory_block(sb, ino, dir))
                } else {
                    img1
                };
                let raw = new_inode(sb, mode, if wanted { block } else { 0 });
                let (last, entered) = entry_added(
                    inode_stored(ready, sb, ino, raw).0,
                    sb,
                    dir,
                    parent,
                    name,
                    ino,
                    if wanted { 2 } else { 1 },
                );
                entered is Err && ino >= 1 && (wanted ==> block != 0) ==> {
                    &&& fails_with(r, entered->Err_0 as int)
                    &&& after == inode_freed(
                        if wanted { block_freed(last, sb, block) } else { last },
                        sb,
                        ino,
                    )
                }
            }
        }),
{
    law_requested_type(mode);
    let (parent_path, _) = split(path)->Ok_0;
    let (dir, parent) = resolved(img, sb, parent_path)->Ok_0;
    law_mode_tells_type(parent.mode);
    let block = (node_made(img, sb, mode, dir).1->Ok_0).1;
    law_new_inode_in_numbers(sb, mode, block);
}

} // verus!
