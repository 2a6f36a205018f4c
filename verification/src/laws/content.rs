//! What is read and what is stored, byte by byte.

use vstd::prelude::*;
use crate::bitmap::{block_allocated, block_freed};
use crate::codec::{law_put_then_get_u32, overlay, put_u16, put_u32, seq_u32, zeros};
use crate::create::{created, node_entered, node_made};
use crate::dir::{
    directory_from, dot, dot_dot, lookup, record_at, records_in, resolved, walk, DirRecord,
};
use crate::disk::Image;
use crate::entry::{
    directory_block, directory_grown, entry_added, entry_bytes, first_slot,
    raw_inode, record_size,
};
use crate::file::{file_data, lemma_file_data_len, read_end};
use crate::laws::creation::is_afforded;
use crate::laws::format::{fails_with, half, law_blocks_are_stretches, law_mode_tells_type, word};
use crate::laws::making::{
    bytes_for, field32, has_room, is_put, law_new_inode_in_numbers, lemma_no_room, lemma_put16,
    lemma_put32,
};
use crate::laws::naming::{
    is_record, law_name_leads_to_first_record, law_record_in_bytes, law_records_follow_each_other,
    lemma_walk_on,
};
use crate::layout::{
    block_bytes, block_of, block_span, block_stored, inode_in, inode_numbered, inode_stored,
    InodeView, Superblock,
};
use crate::mapping::{blocks_freed, direct_freed, wrapped_sum};
use crate::ops::{path_read, path_truncated};
use crate::path::{components, law_split_takes_last_component, split};

verus! {

/// Whether a byte is the one that a file has `i` bytes behind a place: the block that
/// it belongs to has a number, and it lies there as far in as in the file behind the
/// blocks before.
pub open spec fn is_byte_of(
    img: Image,
    sb: Superblock,
    inode: InodeView,
    pos: int,
    i: int,
    byte: u8,
) -> bool {
    let bs = sb.block_size as int;
    let b = block_of(img, sb, inode, (pos + i) / bs);
    b is Ok && b->Ok_0 != 0 && byte == img(b->Ok_0 * bs + (pos + i) % bs)
}

/// The bytes of a file from a place on, one by one.
proof fn lemma_data_in_bytes(img: Image, sb: Superblock, inode: InodeView, pos: int, end: int)
    requires
        sb.block_size != 0,
    ensures
        ({
            let bs = sb.block_size as int;
            let (data, error) = file_data(img, sb, inode, pos, end);
            let n = data.len() as int;
            let next = block_of(img, sb, inode, (pos + n) / bs);
            &&& forall|i: int|
                0 <= i < n ==> #[trigger] is_byte_of(img, sb, inode, pos, i, data[i])
            &&& pos + n < end ==> match error {
                Some(e) => next == Err::<u32, i32>(e),
                None => next == Ok::<u32, i32>(0),
            }
            &&& pos + n >= end ==> error is None
        }),
    decreases end - pos,
{
    let bs = sb.block_size as int;
    let (data, error) = file_data(img, sb, inode, pos, end);
    if pos < end {
        let b = block_of(img, sb, inode, pos / bs);
        if b is Ok && b->Ok_0 != 0 {
            let rest = file_data(img, sb, inode, pos + 1, end);
            lemma_data_in_bytes(img, sb, inode, pos + 1, end);
            assert forall|i: int| 0 <= i < data.len() implies #[trigger] is_byte_of(
                img,
                sb,
                inode,
                pos,
                i,
                data[i],
            ) by {
                if i > 0 {
                    assert(data[i] == rest.0[i - 1]);
                    assert(is_byte_of(img, sb, inode, pos + 1, i - 1, rest.0[i - 1]));
                    assert(pos + 1 + (i - 1) == pos + i);
                } else {
                    assert(pos + i == pos);
                }
            }
            let m = rest.0.len() as int;
            assert(data.len() == m + 1);
            assert(pos + 1 + m == pos + data.len());
            assert(block_of(img, sb, inode, (pos + 1 + m) / bs) == block_of(
                img,
                sb,
                inode,
                (pos + data.len()) / bs,
            ));
        } else {
            assert(data.len() == 0);
            assert(pos + data.len() == pos);
            assert(block_of(img, sb, inode, (pos + data.len()) / bs) == b);
        }
    }
}

/// A read gives the bytes of the file from its offset on, each from the block and
/// the place in it that it belongs to, as many as were asked for and as the file has.
/// It ends before that only at a block that has no number, and still succeeds, or at
/// one that cannot be located, with the code of that. What is no file is refused with
/// -21.
#[verifier::rlimit(30)]
pub proof fn law_read_gives_bytes(
    img: Image,
    sb: Superblock,
    path: Seq<u8>,
    offset: u64,
    len: nat,
)
    requires
        sb.block_size != 0,
    ensures
        ({
            let bs = sb.block_size as int;
            let (data, r) = path_read(img, sb, path, offset, len);
            let n = data.len() as int;
            match resolved(img, sb, path) {
                Err(e) => n == 0 && fails_with(r, e as int),
                Ok((_, inode)) => if inode.mode / 4096 != 8 {
                    n == 0 && fails_with(r, -21)
                } else {
                    let next = block_of(img, sb, inode, (offset + n) / bs);
                    &&& n <= len
                    &&& n == 0 || offset + n <= inode.size
                    &&& forall|i: int|
                        0 <= i < n ==> #[trigger] is_byte_of(
                            img,
                            sb,
                            inode,
                            offset as int,
                            i,
                            data[i],
                        )
                    &&& match r {
                        Ok(count) => count == n && (n == len || offset + n >= inode.size || next
                            == Ok::<u32, i32>(0)),
                        Err(e) => n < len && offset + n < inode.size && next == Err::<u32, i32>(e),
                    }
                },
            }
        }),
{
    if let Ok((_, inode)) = resolved(img, sb, path) {
        law_mode_tells_type(inode.mode);
        let end = read_end(inode, offset, len);
        lemma_file_data_len(img, sb, inode, offset as int, end);
        lemma_data_in_bytes(img, sb, inode, offset as int, end);
        let data = path_read(img, sb, path, offset, len).0;
        if inode.mode / 4096 == 8 {
            let (bytes, error) = file_data(img, sb, inode, offset as int, end);
            let r = path_read(img, sb, path, offset, len).1;
            assert(data == bytes);
            assert(data.len() as usize == data.len());
            assert(r == match error {
                Some(e) => Err::<usize, i32>(e),
                None => Ok(data.len() as usize),
            });
            assert(end <= offset + len && end <= inode.size);
        }
    }
}

/// What remains of an inode without its direct blocks.
proof fn lemma_direct_freed(img: Image, sb: Superblock, raw: Seq<u8>, ptrs: Seq<u32>, i: int)
    requires
        raw.len() >= 100,
        0 <= i <= 12,
        ptrs.len() == 15,
        forall|k: int| i <= k < 12 ==> field32(raw, 40 + 4 * k) == #[trigger] ptrs[k],
    ensures
        ({
            let raw1 = direct_freed(img, sb, raw, ptrs, i).1;
            &&& raw1.len() == raw.len()
            &&& forall|k: int| i <= k < 12 ==> #[trigger] field32(raw1, 40 + 4 * k) == 0
            &&& forall|j: int|
                0 <= j < raw.len() && !(40 + 4 * i <= j < 88) ==> #[trigger] raw1[j] == raw[j]
        }),
    decreases 12 - i,
{
    if i < 12 {
        let raw1 = if ptrs[i] == 0 {
            raw
        } else {
            put_u32(raw, 40 + 4 * i, 0)
        };
        let img1 = if ptrs[i] == 0 {
            img
        } else {
            block_freed(img, sb, ptrs[i])
        };
        assert(field32(raw1, 40 + 4 * i) == 0) by {
            if ptrs[i] != 0 {
                law_put_then_get_u32(raw, 40 + 4 * i, 0, 0);
            }
        }
        assert forall|j: int|
            0 <= j < raw.len() && !(40 + 4 * i <= j < 44 + 4 * i) implies #[trigger] raw1[j]
            == raw[j] by {}
        assert forall|k: int| i + 1 <= k < 12 implies field32(raw1, 40 + 4 * k)
            == #[trigger] ptrs[k] by {
            assert(field32(raw, 40 + 4 * k) == ptrs[k]);
        }
        lemma_direct_freed(img1, sb, raw1, ptrs, i + 1);
        let raw2 = direct_freed(img, sb, raw, ptrs, i).1;
        assert(raw2 == direct_freed(img1, sb, raw1, ptrs, i + 1).1);
        assert forall|k: int| i <= k < 12 implies #[trigger] field32(raw2, 40 + 4 * k) == 0 by {
            if k == i {
                let j = 40 + 4 * i;
                assert(raw2[j] == raw1[j] && raw2[j + 1] == raw1[j + 1] && raw2[j + 2] == raw1[j
                    + 2] && raw2[j + 3] == raw1[j + 3]);
            }
        }
    }
}

/// The inode of a file that was emptied: its size, its count of sectors and the
/// numbers of its first twelve blocks and of its indirect block are 0, and all its
/// other bytes are as they were.
#[verifier::rlimit(30)]
pub proof fn law_emptied_inode(img: Image, sb: Superblock, raw: Seq<u8>)
    requires
        raw.len() >= 100,
    ensures
        ({
            let raw1 = blocks_freed(img, sb, raw).1;
            &&& raw1.len() == raw.len()
            &&& field32(raw1, 4) == 0
            &&& field32(raw1, 28) == 0
            &&& forall|k: int| 0 <= k <= 12 ==> #[trigger] field32(raw1, 40 + 4 * k) == 0
            &&& forall|j: int|
                0 <= j < raw.len() && !(4 <= j < 8 || 28 <= j < 32 || 40 <= j < 92)
                    ==> #[trigger] raw1[j] == raw[j]
        }),
{
    let ptrs = inode_in(raw).blocks;
    assert forall|k: int| 0 <= k < 12 implies field32(raw, 40 + 4 * k) == #[trigger] ptrs[k] by {}
    lemma_direct_freed(img, sb, raw, ptrs, 0);
    let ra = direct_freed(img, sb, raw, ptrs, 0).1;
    let rb = if ptrs[12] == 0 {
        ra
    } else {
        put_u32(ra, 88, 0)
    };
    assert(field32(rb, 88) == 0) by {
        if ptrs[12] == 0 {
            assert(ra[88] == raw[88] && ra[89] == raw[89] && ra[90] == raw[90] && ra[91]
                == raw[91]);
        }
    }
    assert(forall|j: int| 0 <= j < raw.len() && !(88 <= j < 92) ==> #[trigger] rb[j] == ra[j]);
    let rc = put_u32(rb, 28, 0);
    assert(field32(rc, 28) == 0);
    assert(forall|j: int| 0 <= j < raw.len() && !(28 <= j < 32) ==> #[trigger] rc[j] == rb[j]);
    let rd = put_u32(rc, 4, 0);
    assert(field32(rd, 4) == 0);
    assert(forall|j: int| 0 <= j < raw.len() && !(4 <= j < 8) ==> #[trigger] rd[j] == rc[j]);
    assert(rd == blocks_freed(img, sb, raw).1);
    assert forall|k: int| 0 <= k <= 12 implies #[trigger] field32(rd, 40 + 4 * k) == 0 by {
        let j = 40 + 4 * k;
        assert(rd[j] == rb[j] && rd[j + 1] == rb[j + 1] && rd[j + 2] == rb[j + 2] && rd[j + 3]
            == rb[j + 3]);
        if k < 12 {
            assert(rb[j] == ra[j] && rb[j + 1] == ra[j + 1] && rb[j + 2] == ra[j + 2] && rb[j + 3]
                == ra[j + 3]);
            assert(field32(ra, 40 + 4 * k) == 0);
        }
    }
    assert(field32(rd, 28) == field32(rc, 28));
}

/// What making a file some bytes long is answered with: the code of the path where
/// that leads nowhere, -21 for what is no file, 0 for the length that it has, -38 for
/// any other length but 0, and -22 where inodes are larger than 512 bytes. Nothing
/// changes then. A file with bytes that is made empty succeeds otherwise.
pub proof fn law_truncation_answers(img: Image, sb: Superblock, path: Seq<u8>, len: u64)
    ensures
        ({
            let (after, r) = path_truncated(img, sb, path, len);
            match resolved(img, sb, path) {
                Err(e) => after == img && fails_with(r, e as int),
                Ok((_, inode)) => if inode.mode / 4096 != 8 {
                    after == img && fails_with(r, -21)
                } else if len == inode.size {
                    after == img && r is Ok
                } else if len != 0 {
                    after == img && fails_with(r, -38)
                } else if sb.inode_size > 512 {
                    after == img && fails_with(r, -22)
                } else {
                    r is Ok
                },
            }
        }),
{
    if let Ok((ino, inode)) = resolved(img, sb, path) {
        law_mode_tells_type(inode.mode);
        let raw = raw_inode(img, sb, ino);
        assert(raw.len() == 512);
        law_emptied_inode(img, sb, raw);
    }
}

/// What creating is refused with before anything is stored: -17 where the path
/// leads somewhere, -22 where it has no name or does not start with a slash, the code
/// of the path before the name where that leads nowhere, and -20 where it leads to
/// what is no directory.
pub proof fn law_creation_is_refused(img: Image, sb: Superblock, path: Seq<u8>, mode: u32)
    ensures
        ({
            let (after, r) = created(img, sb, path, mode);
            let (parent_path, _) = split(path)->Ok_0;
            let parent = resolved(img, sb, parent_path);
            if resolved(img, sb, path) is Ok {
                after == img && fails_with(r, -17)
            } else if split(path) is Err {
                after == img && fails_with(r, -22)
            } else if parent is Err {
                after == img && fails_with(r, parent->Err_0 as int)
            } else {
                (parent->Ok_0).1.mode / 4096 != 4 ==> after == img && fails_with(r, -20)
            }
        }),
{
    if let Ok((parent_path, _)) = split(path) {
        if let Ok((_, inode)) = resolved(img, sb, parent_path) {
            law_mode_tells_type(inode.mode);
        }
    }
}

/// The bytes of a new entry: the inode, the length of the record, that of the name
/// modulo 256, the type and the name.
pub proof fn law_entry_in_bytes(inode: u32, rec_len: u16, name: Seq<u8>, file_type: u8)
    ensures
        ({
            let e = entry_bytes(inode, rec_len, name, file_type);
            &&& e.len() == 8 + name.len()
            &&& field32(e, 0) == inode
            &&& e[4] + 256 * e[5] == rec_len
            &&& e[6] == name.len() % 256
            &&& e[7] == file_type
            &&& forall|i: int| 0 <= i < name.len() ==> #[trigger] name[i] == e[8 + i]
        }),
{
}

/// The first block of a new directory: 12 bytes for the entry of one dot, which is
/// the directory itself, and all the rest for that of two dots, which is its parent.
/// Both are of type 2, and what they leave is 0.
#[verifier::rlimit(30)]
pub proof fn law_new_directory_in_bytes(sb: Superblock, ino: u32, parent: u32)
    requires
        sb.readable(),
    ensures
        ({
            let b = directory_block(sb, ino, parent);
            &&& b.len() == 4096
            &&& field32(b, 0) == ino
            &&& b[4] + 256 * b[5] == 12
            &&& b[6] == 1 && b[7] == 2 && b[8] == 46
            &&& field32(b, 12) == parent
            &&& b[16] + 256 * b[17] == sb.block_size - 12
            &&& b[18] == 2 && b[19] == 2 && b[20] == 46 && b[21] == 46
            &&& b[9] == 0 && b[10] == 0 && b[11] == 0
            &&& forall|j: int| 22 <= j < 4096 ==> #[trigger] b[j] == 0
        }),
{
    let one = dot();
    let two = dot_dot();
    let e1 = entry_bytes(ino, 12, one, 2);
    let e2 = entry_bytes(parent, (sb.block_size - 12) as u16, two, 2);
    law_entry_in_bytes(ino, 12, one, 2);
    law_entry_in_bytes(parent, (sb.block_size - 12) as u16, two, 2);
    let b0 = zeros(4096);
    let b1 = overlay(b0, 0, e1);
    let b = directory_block(sb, ino, parent);
    assert(one.len() == 1 && two.len() == 2);
    assert(one[0] == 46 && two[0] == 46 && two[1] == 46);
    assert(b =~= overlay(b1, 12, e2));
    assert(forall|j: int| 0 <= j < 9 ==> #[trigger] b[j] == e1[j]);
    assert(forall|j: int| 12 <= j < 22 ==> #[trigger] b[j] == e2[j - 12]);
    assert(e1[8] == one[0] && e2[8] == two[0] && e2[9] == two[1]);
}

/// The records of a directory lie in blocks that have a number, and each ends in its
/// block.
proof fn lemma_records_lie_in_blocks(img: Image, sb: Superblock, inode: InodeView, index: int)
    requires
        sb.block_size != 0,
        0 <= index,
    ensures
        ({
            let records = directory_from(img, sb, inode, index).records;
            forall|i: int|
                0 <= i < records.len() ==> (#[trigger] records[i]).block != 0 && 0
                    <= records[i].offset && records[i].offset + 8 <= sb.block_size
                    && records[i].offset + records[i].rec_len <= sb.block_size && records[i]
                    == record_at(
                    block_bytes(img, sb, records[i].block),
                    records[i].block,
                    records[i].offset,
                )
        }),
    decreases block_span(sb, inode.size) - index,
{
    let records = directory_from(img, sb, inode, index).records;
    if index < block_span(sb, inode.size) {
        lemma_records_lie_in_blocks(img, sb, inode, index + 1);
        let rest = directory_from(img, sb, inode, index + 1).records;
        if let Ok(block) = block_of(img, sb, inode, index) {
            if block != 0 {
                let b = block_bytes(img, sb, block);
                let own = records_in(b, block, 0);
                law_records_follow_each_other(b, block);
                assert forall|i: int| 0 <= i < records.len() implies (
                #[trigger] records[i]).block != 0 && 0 <= records[i].offset && records[i].offset + 8
                    <= sb.block_size && records[i].offset + records[i].rec_len <= sb.block_size
                    && records[i] == record_at(
                    block_bytes(img, sb, records[i].block),
                    records[i].block,
                    records[i].offset,
                ) by {
                    if i < own.len() {
                        assert(records[i] == own[i]);
                        assert(is_record(b, own[i].offset));
                        law_record_in_bytes(b, block, own[i].offset);
                    } else {
                        assert(records[i] == rest[i - own.len()]);
                    }
                }
            }
        }
    }
}

/// The first record with room is the first for which there is one.
proof fn lemma_first_room(records: Seq<DirRecord>, name: Seq<u8>, i: int)
    requires
        0 <= i < records.len(),
        has_room(records[i], name),
        forall|j: int| 0 <= j < i ==> !has_room(#[trigger] records[j], name),
    ensures
        first_slot(records, record_size(name.len() as int)) == Some(records[i]),
    decreases records.len(),
{
    if i > 0 {
        let rest = records.drop_first();
        assert(!has_room(records[0], name));
        assert(rest[i - 1] == records[i]);
        assert forall|j: int| 0 <= j < i - 1 implies !has_room(#[trigger] rest[j], name) by {
            assert(rest[j] == records[j + 1]);
        }
        lemma_first_room(rest, name, i - 1);
    }
}

/// A name is entered behind the first record that has room for it: that record is
/// cut to what its own name takes, and the new one gets all the bytes that this
/// leaves. No other byte of the disk changes.
#[verifier::rlimit(30)]
pub proof fn law_name_goes_into_first_room(
    img: Image,
    sb: Superblock,
    dir: u32,
    parent: InodeView,
    name: Seq<u8>,
    child: u32,
    file_type: u8,
    i: int,
    a: int,
)
    requires
        sb.readable(),
        0 <= i < directory_from(img, sb, parent, 0).records.len(),
        has_room(directory_from(img, sb, parent, 0).records[i], name),
        forall|j: int|
            0 <= j < i ==> !has_room(
                #[trigger] directory_from(img, sb, parent, 0).records[j],
                name,
            ),
    ensures
        ({
            let (after, r) = entry_added(img, sb, dir, parent, name, child, file_type);
            let record = directory_from(img, sb, parent, 0).records[i];
            let old = record.block * sb.block_size + record.offset;
            let kept = bytes_for(record.name_len as int);
            let new = old + kept;
            &&& r is Ok
            &&& half(after, old + 4) == kept
            &&& word(after, new) == child
            &&& half(after, new + 4) == record.rec_len - kept
            &&& after(new + 6) == name.len() % 256
            &&& after(new + 7) == file_type
            &&& forall|k: int| 0 <= k < name.len() ==> #[trigger] name[k] == after(new + 8 + k)
            &&& !(old + 4 <= a < old + 6) && !(new <= a < new + 8 + name.len()) ==> after(a)
                == img(a)
        }),
{
    let record = directory_from(img, sb, parent, 0).records[i];
    let kept = bytes_for(record.name_len as int);
    let e = entry_bytes(child, (record.rec_len - kept) as u16, name, file_type);
    let after = entry_added(img, sb, dir, parent, name, child, file_type).0;
    lemma_first_room_taken(img, sb, dir, parent, name, child, file_type, i);
    law_entry_in_bytes(child, (record.rec_len - kept) as u16, name, file_type);
    let b1 = put_u16(block_bytes(img, sb, record.block), record.offset + 4, kept as u16);
    lemma_put16(block_bytes(img, sb, record.block), record.offset + 4, kept as u16);
    lemma_split_stored(img, sb, record.block, b1, e, record.offset, kept, a, after);
    lemma_entry_on_disk(
        after,
        record.block * sb.block_size + record.offset + kept,
        e,
        child,
        (record.rec_len - kept) as u16,
        name,
        file_type,
    );
}

/// The block that a name is entered into.
#[verifier::rlimit(30)]
proof fn lemma_first_room_taken(
    img: Image,
    sb: Superblock,
    dir: u32,
    parent: InodeView,
    name: Seq<u8>,
    child: u32,
    file_type: u8,
    i: int,
)
    requires
        sb.readable(),
        0 <= i < directory_from(img, sb, parent, 0).records.len(),
        has_room(directory_from(img, sb, parent, 0).records[i], name),
        forall|j: int|
            0 <= j < i ==> !has_room(
                #[trigger] directory_from(img, sb, parent, 0).records[j],
                name,
            ),
    ensures
        ({
            let record = directory_from(img, sb, parent, 0).records[i];
            let kept = bytes_for(record.name_len as int);
            let e = entry_bytes(child, (record.rec_len - kept) as u16, name, file_type);
            let b1 = put_u16(block_bytes(img, sb, record.block), record.offset + 4, kept as u16);
            &&& 8 <= kept <= record.rec_len - 8 - name.len()
            &&& 0 <= record.offset
            &&& record.offset + record.rec_len <= sb.block_size
            &&& entry_added(img, sb, dir, parent, name, child, file_type) == (
                block_stored(img, sb, record.block, overlay(b1, record.offset + kept, e)),
                Ok::<(), i32>(()),
            )
        }),
{
    let records = directory_from(img, sb, parent, 0).records;
    let record = records[i];
    lemma_first_room(records, name, i);
    lemma_records_lie_in_blocks(img, sb, parent, 0);
    assert(record_size(record.name_len as int) == bytes_for(record.name_len as int));
}

/// The bytes of an entry on a disk.
proof fn lemma_entry_on_disk(
    img: Image,
    at: int,
    e: Seq<u8>,
    inode: u32,
    rec_len: u16,
    name: Seq<u8>,
    file_type: u8,
)
    requires
        e.len() == 8 + name.len(),
        field32(e, 0) == inode,
        e[4] + 256 * e[5] == rec_len,
        e[6] == name.len() % 256,
        e[7] == file_type,
        forall|i: int| 0 <= i < name.len() ==> #[trigger] name[i] == e[8 + i],
        forall|j: int| 0 <= j < e.len() ==> #[trigger] e[j] == img(at + j),
    ensures
        word(img, at) == inode,
        half(img, at + 4) == rec_len,
        img(at + 6) == name.len() % 256,
        img(at + 7) == file_type,
        forall|k: int| 0 <= k < name.len() ==> #[trigger] name[k] == img(at + 8 + k),
{
    assert(img(at + 0) == e[0] && img(at + 1) == e[1] && img(at + 2) == e[2] && img(at + 3) == e[3]
        && img(at + 4) == e[4] && img(at + 5) == e[5] && img(at + 6) == e[6] && img(at + 7)
        == e[7]);
    assert forall|k: int| 0 <= k < name.len() implies #[trigger] name[k] == img(at + 8 + k) by {
        assert(name[k] == e[8 + k]);
        assert(e[8 + k] == img(at + (8 + k)));
    }
}

/// A record that was cut, and another one stored behind it.
#[verifier::rlimit(30)]
proof fn lemma_split_stored(
    img: Image,
    sb: Superblock,
    block: u32,
    b1: Seq<u8>,
    e: Seq<u8>,
    at: int,
    kept: int,
    a: int,
    after: Image,
)
    requires
        0 <= at,
        8 <= kept,
        at + kept + e.len() <= sb.block_size,
        is_put(block_bytes(img, sb, block), b1, at + 4, 2, kept),
        after == block_stored(img, sb, block, overlay(b1, at + kept, e)),
    ensures
        ({
            let old = block * sb.block_size + at;
            let new = old + kept;
            &&& half(after, old + 4) == kept
            &&& forall|j: int| 0 <= j < e.len() ==> #[trigger] e[j] == after(new + j)
            &&& !(old + 4 <= a < old + 6) && !(new <= a < new + e.len()) ==> after(a) == img(a)
        }),
{
    let bs = sb.block_size as int;
    let base = block * bs;
    let b = block_bytes(img, sb, block);
    let b2 = overlay(b1, at + kept, e);
    assert forall|j: int| 0 <= j < bs implies #[trigger] after(base + j) == b2[j] by {
        assert(b2.take(bs)[j] == b2[j]);
    }
    assert(after(base + (at + 4)) == b1[at + 4] && after(base + (at + 5)) == b1[at + 5]);
    assert forall|j: int| 0 <= j < e.len() implies #[trigger] e[j] == after(
        base + at + kept + j,
    ) by {
        assert(after(base + (at + kept + j)) == b2[at + kept + j]);
    }
    if base <= a < base + bs {
        let j = a - base;
        assert(after(base + j) == b2[j]);
    }
}

/// The inode of a directory that gets one more block: the number of the block stands
/// behind those that its size needs, it is one block longer and accounts for one
/// block more in sectors of 512 bytes, and all its other bytes are as they were.
#[verifier::rlimit(30)]
pub proof fn law_grown_directory(sb: Superblock, raw: Seq<u8>, parent: InodeView, block: u32)
    requires
        sb.readable(),
        raw.len() >= 100,
        block_span(sb, parent.size) < 12,
    ensures
        ({
            let n = block_span(sb, parent.size);
            let now = directory_grown(sb, raw, parent, block);
            &&& now.len() == raw.len()
            &&& field32(now, 40 + 4 * n) == block
            &&& field32(now, 4) == (parent.size + sb.block_size) % 0x1_0000_0000
            &&& field32(now, 28) == (field32(raw, 28) + sb.block_size as int / 512) % 0x1_0000_0000
            &&& forall|j: int|
                0 <= j < raw.len() && !(4 <= j < 8 || 28 <= j < 32 || 40 + 4 * n <= j < 44 + 4 * n)
                    ==> #[trigger] now[j] == raw[j]
        }),
{
    let n = block_span(sb, parent.size);
    vstd::arithmetic::div_mod::lemma_div_pos_is_pos(
        parent.size + sb.block_size - 1,
        sb.block_size as int,
    );
    let r1 = put_u32(raw, 40 + 4 * n, block);
    let size = wrapped_sum(parent.size, sb.block_size);
    let r2 = put_u32(r1, 4, size);
    let count = wrapped_sum(seq_u32(r2, 28), sb.block_size / 512);
    let r3 = put_u32(r2, 28, count);
    lemma_put32(raw, 40 + 4 * n, block);
    lemma_put32(r1, 4, size);
    lemma_put32(r2, 28, count);
    assert(seq_u32(r2, 28) == field32(r2, 28));
    lemma_grown(raw, r1, r2, r3, 40 + 4 * n, block as int, size as int, count as int);
    assert(r3 == directory_grown(sb, raw, parent, block));
}

/// Three numbers stored in an inode one after the other.
proof fn lemma_grown(
    raw: Seq<u8>,
    r1: Seq<u8>,
    r2: Seq<u8>,
    r3: Seq<u8>,
    k: int,
    block: int,
    size: int,
    count: int,
)
    requires
        raw.len() >= 100,
        40 <= k <= 96,
        is_put(raw, r1, k, 4, block),
        is_put(r1, r2, 4, 4, size),
        is_put(r2, r3, 28, 4, count),
    ensures
        r3.len() == raw.len(),
        field32(r3, k) == block,
        field32(r3, 4) == size,
        field32(r3, 28) == count,
        field32(r2, 28) == field32(raw, 28),
        forall|j: int|
            0 <= j < raw.len() && !(4 <= j < 8 || 28 <= j < 32 || k <= j < k + 4)
                ==> #[trigger] r3[j] == raw[j],
{
    assert(r3[k] == r1[k] && r3[k + 1] == r1[k + 1] && r3[k + 2] == r1[k + 2] && r3[k + 3] == r1[k
        + 3]);
    assert(r2[28] == raw[28] && r2[29] == raw[29] && r2[30] == raw[30] && r2[31] == raw[31]);
    assert(r3[4] == r2[4] && r3[5] == r2[5] && r3[6] == r2[6] && r3[7] == r2[7]);
}

/// Where no record has room for a name, it is entered into a new block of the
/// directory, alone: its record takes the whole block, and what it leaves is 0. Where
/// a block of the directory cannot be located, the answer is the code of that. The
/// thirteenth block is refused with -38, and where none is free the answer is that
/// of giving one out.
#[verifier::rlimit(30)]
pub proof fn law_name_goes_into_new_block(
    img: Image,
    sb: Superblock,
    dir: u32,
    parent: InodeView,
    name: Seq<u8>,
    child: u32,
    file_type: u8,
)
    requires
        sb.readable(),
        dir >= 1,
        sb.inode_size <= 512,
        name.len() <= 255,
        forall|j: int|
            0 <= j < directory_from(img, sb, parent, 0).records.len() ==> !has_room(
                #[trigger] directory_from(img, sb, parent, 0).records[j],
                name,
            ),
    ensures
        ({
            let (after, r) = entry_added(img, sb, dir, parent, name, child, file_type);
            let (img1, given) = block_allocated(img, sb);
            let block = given->Ok_0;
            let error = directory_from(img, sb, parent, 0).error;
            if error is Some {
                after == img && fails_with(r, error->Some_0 as int)
            } else if parent.size > 11 * sb.block_size {
                after == img && fails_with(r, -38)
            } else if given is Err {
                after == img1 && fails_with(r, given->Err_0 as int)
            } else {
                &&& r is Ok
                &&& exists|content: Seq<u8>|
                    {
                        &&& is_sole_record(sb, content, name, child, file_type)
                        &&& after == #[trigger] stored_with_inode(
                            block_stored(img1, sb, block, content),
                            sb,
                            dir,
                            parent,
                            block,
                        )
                    }
            }
        }),
{
    let directory = directory_from(img, sb, parent, 0);
    lemma_no_room(directory.records, name);
    let bs = sb.block_size as int;
    let n = block_span(sb, parent.size);
    law_blocks_are_stretches(
        img,
        sb,
        0,
        Seq::new(sb.block_size as nat, |i: int| 0u8),
        0,
        0,
        parent.size,
    );
    assert(n >= 12 <==> parent.size > 11 * bs) by (nonlinear_arith)
        requires
            parent.size <= n * bs < parent.size + bs,
            bs > 0,
    ;
    let (img1, given) = block_allocated(img, sb);
    if directory.error is None && n < 12 && given is Ok {
        let e = entry_bytes(child, sb.block_size as u16, name, file_type);
        let content = overlay(zeros(4096), 0, e);
        law_entry_in_bytes(child, sb.block_size as u16, name, file_type);
        assert(is_sole_record(sb, content, name, child, file_type)) by {
            assert(forall|j: int| 0 <= j < e.len() ==> #[trigger] content[j] == e[j]);
            assert forall|i: int| 0 <= i < name.len() implies #[trigger] name[i] == content[8
                + i] by {
                assert(name[i] == e[8 + i]);
            }
        }
        let img2 = block_stored(img1, sb, given->Ok_0, content);
        assert(raw_inode(img2, sb, dir).len() == 512);
        let after = entry_added(img, sb, dir, parent, name, child, file_type).0;
        assert(after == stored_with_inode(img2, sb, dir, parent, given->Ok_0));
    }
}

/// Whether a block holds the record of a name and nothing else.
pub open spec fn is_sole_record(
    sb: Superblock,
    b: Seq<u8>,
    name: Seq<u8>,
    child: u32,
    file_type: u8,
) -> bool {
    &&& b.len() == 4096
    &&& field32(b, 0) == child
    &&& b[4] + 256 * b[5] == sb.block_size
    &&& b[6] == name.len() % 256
    &&& b[7] == file_type
    &&& forall|i: int| 0 <= i < name.len() ==> #[trigger] name[i] == b[8 + i]
    &&& forall|j: int| 8 + name.len() <= j < 4096 ==> #[trigger] b[j] == 0
}

/// A disk with the inode of a directory stored as it is with one more block.
pub open spec fn stored_with_inode(
    img: Image,
    sb: Superblock,
    dir: u32,
    parent: InodeView,
    block: u32,
) -> Image {
    inode_stored(
        img,
        sb,
        dir,
        directory_grown(sb, raw_inode(img, sb, dir), parent, block),
    ).0
}

/// No name of more than 255 bytes is ever found in a directory.
proof fn lemma_long_name_missing(img: Image, sb: Superblock, dir: u32, name: Seq<u8>)
    requires
        sb.block_size != 0,
        name.len() > 255,
    ensures
        lookup(img, sb, dir, name) is Err,
{
    law_name_leads_to_first_record(img, sb, dir, name);
    if let Ok(ino) = lookup(img, sb, dir, name) {
        let inode = inode_numbered(img, sb, dir)->Ok_0;
        let records = directory_from(img, sb, inode, 0).records;
        let i = choose|i: int|
            #![trigger records[i]]
            0 <= i < records.len() && records[i].name == Some(name) && records[i].inode == ino
                && forall|j: int| 0 <= j < i ==> (#[trigger] records[j]).name != Some(name);
        lemma_records_lie_in_blocks(img, sb, inode, 0);
        let b = block_bytes(img, sb, records[i].block);
        law_record_in_bytes(b, records[i].block, records[i].offset);
        assert(name.len() == records[i].name_len);
    }
}

/// A name that is too long to be found again, one of more than 255 bytes, and the
/// name of a parent, two dots, are never created: whatever is stored, the answer is
/// an error. It is -2 where the name was entered.
#[verifier::rlimit(30)]
pub proof fn law_unfindable_name_is_not_created(
    img: Image,
    sb: Superblock,
    path: Seq<u8>,
    mode: u32,
)
    requires
        sb.block_size != 0,
        split(path) is Ok,
        (split(path)->Ok_0).1.len() > 255 || (split(path)->Ok_0).1 == seq![46u8, 46u8],
    ensures
        created(img, sb, path, mode).1 is Err,
        resolved(img, sb, path) is Err && is_afforded(img, sb, path, mode) && {
            let parent = resolved(img, sb, (split(path)->Ok_0).0);
            parent is Ok && (parent->Ok_0).1.mode / 4096 == 4
        } ==> fails_with(created(img, sb, path, mode).1, -2),
{
    let (parent_path, name) = split(path)->Ok_0;
    law_split_takes_last_component(path);
    if let Ok((dir, parent)) = resolved(img, sb, parent_path) {
        law_mode_tells_type(parent.mode);
        let (ready, node) = node_made(img, sb, mode, dir);
        if node is Ok {
            let after = node_entered(ready, sb, dir, parent, name, mode, node->Ok_0).0;
            lemma_unfindable(after, sb, path);
        }
    }
}

/// A path with a name that cannot be found leads nowhere.
proof fn lemma_unfindable(img: Image, sb: Superblock, path: Seq<u8>)
    requires
        sb.block_size != 0,
        split(path) is Ok,
        (split(path)->Ok_0).1.len() > 255 || (split(path)->Ok_0).1 == seq![46u8, 46u8],
    ensures
        resolved(img, sb, path) is Err,
{
    let (parent_path, name) = split(path)->Ok_0;
    law_split_takes_last_component(path);
    lemma_walk_on(img, sb, 2, components(parent_path), name);
    if let Ok(dir) = walk(img, sb, 2, components(parent_path)) {
        if name.len() > 255 {
            lemma_long_name_missing(img, sb, dir, name);
        }
    }
}

/// On a volume with inodes of more than 512 bytes nothing is created: the answer is
/// -22 where number and block could be had.
#[verifier::rlimit(30)]
pub proof fn law_large_inodes_are_refused(img: Image, sb: Superblock, path: Seq<u8>, mode: u32)
    requires
        sb.inode_size > 512,
    ensures
        created(img, sb, path, mode).1 is Err,
        ({
            let (parent_path, _) = split(path)->Ok_0;
            let parent = resolved(img, sb, parent_path);
            resolved(img, sb, path) is Err && split(path) is Ok && parent is Ok && (
            parent->Ok_0).1.mode / 4096 == 4 && node_made(img, sb, mode, (parent->Ok_0).0).1 is Ok
                ==> fails_with(created(img, sb, path, mode).1, -22)
        }),
{
    if let Ok((parent_path, _)) = split(path) {
        if let Ok((dir, parent)) = resolved(img, sb, parent_path) {
            law_mode_tells_type(parent.mode);
            if let Ok((ino, block)) = node_made(img, sb, mode, dir).1 {
                law_new_inode_in_numbers(sb, mode, block);
            }
        }
    }
}

} // verus!
