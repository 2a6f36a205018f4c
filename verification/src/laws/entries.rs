//! A name that was entered into a directory is found in it, and is listed.

use vstd::prelude::*;
use crate::codec::{
    le16_bytes, le32_bytes, lemma_le16_round_trip, lemma_le32_round_trip, overlay, put_u16, seq_u16,
    zeros,
};
use crate::dir::{
    directory_from, dot, dot_dot, find_name, name_for, record_at, record_fits, records_in,
    DirRecord, Directory,
};
use crate::disk::Image;
use crate::entry::{
    directory_block, entry_bytes, first_slot, lemma_first_slot_concat, record_size, record_split,
    round4, EXT2_FT_DIR,
};
use crate::laws::ownership::{in_block, lemma_blocks_disjoint};
use crate::layout::{block_bytes, block_of, block_span, InodeView, Superblock, MAX_BLOCK_SIZE};
use crate::ops::{is_listed, listed};

verus! {

/// The names in a list of records and the inodes they are for.
pub open spec fn named(records: Seq<DirRecord>) -> Seq<(Seq<u8>, u32)>
    decreases records.len(),
{
    if records.len() == 0 {
        Seq::empty()
    } else {
        let rest = named(records.drop_first());
        match records[0].name {
            Some(name) => seq![(name, records[0].inode)] + rest,
            None => rest,
        }
    }
}

/// The inode that the first of a list of names is for.
pub open spec fn inode_named(names: Seq<(Seq<u8>, u32)>, name: Seq<u8>) -> Option<u32>
    decreases names.len(),
{
    if names.len() == 0 {
        None
    } else if names[0].0 == name {
        Some(names[0].1)
    } else {
        inode_named(names.drop_first(), name)
    }
}

/// Names, each followed by a zero byte, but for the two that every directory
/// has.
pub open spec fn lines(names: Seq<(Seq<u8>, u32)>) -> Seq<u8>
    decreases names.len(),
{
    if names.len() == 0 {
        Seq::empty()
    } else {
        let rest = lines(names.drop_first());
        if names[0].0 == dot() || names[0].0 == dot_dot() {
            rest
        } else {
            names[0].0.push(0) + rest
        }
    }
}

/// Whether each of a list of records has room for its header and its name.
pub open spec fn has_sound_records(records: Seq<DirRecord>) -> bool {
    forall|i: int|
        0 <= i < records.len() ==> 8 + (#[trigger] records[i]).name_len <= records[i].rec_len
}

/// The names in two lists of records are those of the one and then of the other.
pub proof fn lemma_named_concat(a: Seq<DirRecord>, b: Seq<DirRecord>)
    ensures
        named(a + b) == named(a) + named(b),
    decreases a.len(),
{
    if a.len() == 0 {
        assert(a + b =~= b);
        assert(named(a) + named(b) =~= named(b));
    } else {
        lemma_named_concat(a.drop_first(), b);
        assert((a + b).drop_first() =~= a.drop_first() + b);
        assert(named(a + b) =~= named(a) + named(b));
    }
}

/// A name is looked up among the names of the records.
pub proof fn lemma_find_name(records: Seq<DirRecord>, name: Seq<u8>)
    ensures
        find_name(records, name) == inode_named(named(records), name),
    decreases records.len(),
{
    if records.len() > 0 {
        let rest = records.drop_first();
        lemma_find_name(rest, name);
        if records[0].name is Some {
            assert(named(records).drop_first() =~= named(rest));
        }
    }
}

/// Where there is room for all names, they are all listed.
pub proof fn lemma_listed(records: Seq<DirRecord>, room: int)
    requires
        lines(named(records)).len() <= room,
    ensures
        listed(records, room) == (lines(named(records)), false),
    decreases records.len(),
{
    if records.len() > 0 {
        let rest = records.drop_first();
        if records[0].name is Some {
            assert(named(records).drop_first() =~= named(rest));
            if is_listed(records[0]) {
                let line = records[0].name->Some_0.push(0);
                lemma_listed(rest, room - line.len());
            } else {
                lemma_listed(rest, room);
            }
        } else {
            lemma_listed(rest, room);
        }
    }
}

/// Where no name was left out, all are listed.
pub proof fn lemma_not_full(records: Seq<DirRecord>, room: int)
    requires
        !listed(records, room).1,
    ensures
        listed(records, room).0 == lines(named(records)),
    decreases records.len(),
{
    if records.len() > 0 {
        let rest = records.drop_first();
        if records[0].name is Some {
            assert(named(records).drop_first() =~= named(rest));
            if is_listed(records[0]) {
                let line = records[0].name->Some_0.push(0);
                lemma_not_full(rest, room - line.len());
            } else {
                lemma_not_full(rest, room);
            }
        } else {
            lemma_not_full(rest, room);
        }
    }
}

/// A name that was put in a list that does not have it is found, and all others
/// are found as before.
pub proof fn lemma_inserted_found(
    names: Seq<(Seq<u8>, u32)>,
    k: int,
    name: Seq<u8>,
    ino: u32,
    other: Seq<u8>,
)
    requires
        0 <= k <= names.len(),
        inode_named(names, name) is None,
    ensures
        inode_named(names.insert(k, (name, ino)), other) == if other == name {
            Some(ino)
        } else {
            inode_named(names, other)
        },
    decreases k,
{
    let after = names.insert(k, (name, ino));
    if k == 0 {
        assert(after.drop_first() =~= names);
    } else {
        assert(after.drop_first() =~= names.drop_first().insert(k - 1, (name, ino)));
        lemma_inserted_found(names.drop_first(), k - 1, name, ino, other);
    }
}

/// A name that was put in a list stands there as a line of its own.
pub proof fn lemma_inserted_lines(names: Seq<(Seq<u8>, u32)>, k: int, name: Seq<u8>, ino: u32) -> (p:
    int)
    requires
        0 <= k <= names.len(),
        name != dot(),
        name != dot_dot(),
    ensures
        0 <= p <= lines(names).len(),
        lines(names.insert(k, (name, ino))) == lines(names).take(p) + name.push(0) + lines(
            names,
        ).skip(p),
    decreases k,
{
    let after = names.insert(k, (name, ino));
    let all = lines(names);
    if k == 0 {
        assert(after.drop_first() =~= names);
        assert(lines(after) =~= all.take(0) + name.push(0) + all.skip(0));
        0
    } else {
        let rest = names.drop_first();
        assert(after.drop_first() =~= rest.insert(k - 1, (name, ino)));
        let p = lemma_inserted_lines(rest, k - 1, name, ino);
        if names[0].0 == dot() || names[0].0 == dot_dot() {
            p
        } else {
            let line = names[0].0.push(0);
            let q = line.len() + p;
            assert(all == line + lines(rest));
            assert(all.take(q) =~= line + lines(rest).take(p));
            assert(all.skip(q) =~= lines(rest).skip(p));
            assert(lines(after) =~= all.take(q) + name.push(0) + all.skip(q));
            q
        }
    }
}

/// The record that a slot was found in is one of those that were searched.
pub proof fn lemma_first_slot(records: Seq<DirRecord>, needed: int) -> (i: int)
    requires
        first_slot(records, needed) is Some,
    ensures
        0 <= i < records.len(),
        first_slot(records, needed) == Some(records[i]),
        records[i].rec_len >= record_size(records[i].name_len as int) + needed,
    decreases records.len(),
{
    if records[0].rec_len >= record_size(records[0].name_len as int) + needed {
        0
    } else {
        let j = lemma_first_slot(records.drop_first(), needed);
        j + 1
    }
}

/// The records of a block from `offset` on lie behind it and in the block.
proof fn lemma_records_in(b: Seq<u8>, block: u32, offset: int)
    requires
        0 <= offset,
    ensures
        ({
            let records = records_in(b, block, offset);
            forall|i: int|
                0 <= i < records.len() ==> {
                    &&& (#[trigger] records[i]).block == block
                    &&& offset <= records[i].offset
                    &&& records[i] == record_at(b, block, records[i].offset)
                    &&& record_fits(b, records[i].offset)
                }
        }),
    decreases b.len() - offset,
{
    let records = records_in(b, block, offset);
    if offset + 8 <= b.len() && record_fits(b, offset) {
        let rest = records_in(b, block, offset + seq_u16(b, offset + 4));
        lemma_records_in(b, block, offset + seq_u16(b, offset + 4));
        assert forall|i: int| 0 <= i < records.len() implies {
            &&& (#[trigger] records[i]).block == block
            &&& offset <= records[i].offset
            &&& records[i] == record_at(b, block, records[i].offset)
            &&& record_fits(b, records[i].offset)
        } by {
            if i > 0 {
                assert(records[i] == rest[i - 1]);
            }
        }
    }
}

/// Blocks that are equal from `offset` on have the same records from there on.
proof fn lemma_records_agree(b: Seq<u8>, c: Seq<u8>, block: u32, offset: int)
    requires
        0 <= offset,
        c.len() == b.len(),
        forall|i: int| offset <= i < b.len() ==> b[i] == c[i],
    ensures
        records_in(c, block, offset) == records_in(b, block, offset),
    decreases b.len() - offset,
{
    if offset + 8 <= b.len() {
        assert(b[offset] == c[offset] && b[offset + 1] == c[offset + 1] && b[offset + 2] == c[offset
            + 2] && b[offset + 3] == c[offset + 3] && b[offset + 4] == c[offset + 4] && b[offset
            + 5] == c[offset + 5] && b[offset + 6] == c[offset + 6]);
        if record_fits(b, offset) {
            let p = record_at(b, block, offset);
            let q = record_at(c, block, offset);
            if p.text is Some {
                assert(p.text->Some_0 =~= q.text->Some_0);
            }
            lemma_records_agree(b, c, block, offset + p.rec_len);
        }
    }
}

/// Rounding up to a multiple of 4.
proof fn lemma_round4(n: int)
    requires
        0 <= n,
    ensures
        n <= round4(n) <= n + 3,
{
}

/// The entry that was stored at `at` is the record there.
proof fn lemma_entry_record(
    b: Seq<u8>,
    block: u32,
    at: int,
    inode: u32,
    rec_len: u16,
    name: Seq<u8>,
    file_type: u8,
)
    requires
        0 <= at,
        at + 8 + name.len() <= b.len(),
        name.len() <= 255,
    ensures
        ({
            let r = record_at(
                overlay(b, at, entry_bytes(inode, rec_len, name, file_type)),
                block,
                at,
            );
            &&& r.inode == inode
            &&& r.rec_len == rec_len
            &&& r.name_len == name.len()
            &&& r.file_type == file_type
            &&& r.text == Some(name)
            &&& r.name == name_for(inode, Some(name))
        }),
{
    let bytes = entry_bytes(inode, rec_len, name, file_type);
    let c = overlay(b, at, bytes);
    lemma_le32_round_trip(inode, 0, 0, 0, 0);
    lemma_le16_round_trip(rec_len, 0, 0);
    let x = le32_bytes(inode);
    let y = le16_bytes(rec_len);
    assert(bytes.len() == 8 + name.len());
    assert(bytes[0] == x[0] && bytes[1] == x[1] && bytes[2] == x[2] && bytes[3] == x[3]);
    assert(bytes[4] == y[0] && bytes[5] == y[1] && bytes[6] == name.len() as u8 && bytes[7]
        == file_type);
    assert(c[at] == bytes[0] && c[at + 1] == bytes[1] && c[at + 2] == bytes[2] && c[at + 3]
        == bytes[3] && c[at + 4] == bytes[4] && c[at + 5] == bytes[5] && c[at + 6] == bytes[6]
        && c[at + 7] == bytes[7]);
    assert(c.subrange(at + 8, at + 8 + name.len()) =~= name);
}

/// A record cut to `ideal` bytes, with an entry behind it.
proof fn lemma_cut_record(
    b: Seq<u8>,
    block: u32,
    offset: int,
    ideal: int,
    child: u32,
    len: u16,
    name: Seq<u8>,
    file_type: u8,
)
    requires
        0 <= offset,
        offset + 8 <= b.len(),
        8 + b[offset + 6] <= ideal <= 0xffff,
        offset + ideal + 8 + name.len() <= b.len(),
        name.len() <= 255,
    ensures
        ({
            let r = record_at(b, block, offset);
            let c = overlay(
                put_u16(b, offset + 4, ideal as u16),
                offset + ideal,
                entry_bytes(child, len, name, file_type),
            );
            let p = record_at(c, block, offset);
            let q = record_at(c, block, offset + ideal);
            &&& c.len() == b.len()
            &&& p.inode == r.inode && p.name_len == r.name_len && p.rec_len == ideal
            &&& p.text == r.text && p.name == r.name && p.file_type == r.file_type
            &&& q.inode == child && q.name_len == name.len() && q.rec_len == len
            &&& q.text == Some(name) && q.name == name_for(child, Some(name))
            &&& q.file_type == file_type
            &&& forall|i: int| offset + ideal + 8 + name.len() <= i < b.len() ==> c[i] == b[i]
        }),
{
    let r = record_at(b, block, offset);
    let mid = put_u16(b, offset + 4, ideal as u16);
    let bytes = entry_bytes(child, len, name, file_type);
    let c = overlay(mid, offset + ideal, bytes);
    assert(bytes.len() == 8 + name.len());
    lemma_le16_round_trip(ideal as u16, 0, 0);
    lemma_entry_record(mid, block, offset + ideal, child, len, name, file_type);
    let p = record_at(c, block, offset);
    assert forall|i: int| offset + 6 <= i < offset + ideal implies c[i] == b[i] by {}
    assert(c[offset] == b[offset] && c[offset + 1] == b[offset + 1] && c[offset + 2] == b[offset
        + 2] && c[offset + 3] == b[offset + 3]);
    assert(c[offset + 4] == le16_bytes(ideal as u16)[0] && c[offset + 5] == le16_bytes(
        ideal as u16,
    )[1]);
    if r.text is Some {
        assert(p.text->Some_0 =~= r.text->Some_0);
    }
}

/// Two records one behind the other, and those that follow.
proof fn lemma_two_records(c: Seq<u8>, block: u32, offset: int, at: int, next: int)
    requires
        0 <= offset,
        offset + 8 <= at,
        at + 8 <= next <= c.len(),
        offset + seq_u16(c, offset + 4) == at,
        at + seq_u16(c, at + 4) == next,
    ensures
        records_in(c, block, offset) == seq![
            record_at(c, block, offset),
            record_at(c, block, at),
        ] + records_in(c, block, next),
{
    let p = record_at(c, block, offset);
    let q = record_at(c, block, at);
    let rest = records_in(c, block, next);
    assert(records_in(c, block, at) == seq![q] + rest);
    assert(records_in(c, block, offset) == seq![p] + (seq![q] + rest));
    assert(seq![p] + (seq![q] + rest) =~= seq![p, q] + rest);
}

/// What cutting a record to `ideal` bytes and storing an entry behind it makes
/// of the records of a block.
proof fn lemma_cut_records(
    b: Seq<u8>,
    block: u32,
    offset: int,
    ideal: int,
    child: u32,
    len: u16,
    name: Seq<u8>,
    file_type: u8,
    c: Seq<u8>,
)
    requires
        0 <= offset,
        offset + 8 <= b.len(),
        8 + b[offset + 6] <= ideal <= 0xffff,
        8 + name.len() <= len,
        offset + ideal + len <= b.len(),
        seq_u16(b, offset + 4) == ideal + len,
        name.len() <= 255,
        c == overlay(
            put_u16(b, offset + 4, ideal as u16),
            offset + ideal,
            entry_bytes(child, len, name, file_type),
        ),
    ensures
        records_in(c, block, offset) == seq![
            record_at(c, block, offset),
            record_at(c, block, offset + ideal),
        ] + records_in(b, block, offset + ideal + len),
{
    let next = offset + ideal + len;
    assert(c.len() == b.len() && seq_u16(c, offset + 4) == ideal && seq_u16(
        c,
        offset + ideal + 4,
    ) == len) by {
        lemma_cut_record(b, block, offset, ideal, child, len, name, file_type);
    }
    assert(records_in(c, block, next) == records_in(b, block, next)) by {
        assert(entry_bytes(child, len, name, file_type).len() == 8 + name.len());
        lemma_records_agree(b, c, block, next);
    }
    lemma_two_records(c, block, offset, offset + ideal, next);
}

/// What splitting a record makes of it: the record, cut to what it needs, and
/// behind it the new entry.
proof fn lemma_split_pair(
    b: Seq<u8>,
    block: u32,
    offset: int,
    child: u32,
    name: Seq<u8>,
    file_type: u8,
    c: Seq<u8>,
)
    requires
        0 <= offset,
        record_fits(b, offset),
        seq_u16(b, offset + 4) >= record_size(b[offset + 6] as int) + record_size(
            name.len() as int,
        ),
        name.len() <= 255,
        c == record_split(b, record_at(b, block, offset), child, name, file_type),
    ensures
        ({
            let r = record_at(b, block, offset);
            let p = record_at(c, block, offset);
            let q = record_at(c, block, offset + record_size(b[offset + 6] as int));
            &&& 8 + p.name_len <= p.rec_len
            &&& 8 + q.name_len <= q.rec_len
            &&& p.inode == r.inode && p.text == r.text && p.name == r.name
            &&& p.name_len == r.name_len && p.file_type == r.file_type
            &&& p.rec_len == record_size(r.name_len as int)
            &&& q.inode == child && q.text == Some(name)
            &&& q.name == name_for(child, Some(name))
            &&& q.name_len == name.len() && q.file_type == file_type
            &&& q.rec_len == (r.rec_len - record_size(r.name_len as int)) as u16
        }),
{
    let r = record_at(b, block, offset);
    let ideal = record_size(r.name_len as int);
    lemma_round4(r.name_len as int);
    lemma_round4(name.len() as int);
    let len = (r.rec_len - ideal) as u16;
    lemma_cut_record(b, block, offset, ideal, child, len, name, file_type);
}

/// Splitting a record puts the pair that it becomes in its place.
proof fn lemma_split_here(
    b: Seq<u8>,
    block: u32,
    offset: int,
    child: u32,
    name: Seq<u8>,
    file_type: u8,
    c: Seq<u8>,
)
    requires
        0 <= offset,
        record_fits(b, offset),
        seq_u16(b, offset + 4) >= record_size(b[offset + 6] as int) + record_size(
            name.len() as int,
        ),
        name.len() <= 255,
        c == record_split(b, record_at(b, block, offset), child, name, file_type),
    ensures
        records_in(c, block, offset) == seq![
            record_at(c, block, offset),
            record_at(c, block, offset + record_size(b[offset + 6] as int)),
        ] + records_in(b, block, offset + seq_u16(b, offset + 4)),
{
    let rec_len = seq_u16(b, offset + 4);
    let ideal = record_size(b[offset + 6] as int);
    lemma_round4(b[offset + 6] as int);
    lemma_round4(name.len() as int);
    let len = (rec_len - ideal) as u16;
    lemma_cut_records(b, block, offset, ideal, child, len, name, file_type, c);
    assert(offset + ideal + len == offset + rec_len);
}

/// A record before the one that is split stays as it is.
proof fn lemma_split_later(
    b: Seq<u8>,
    block: u32,
    offset: int,
    record: DirRecord,
    child: u32,
    name: Seq<u8>,
    file_type: u8,
)
    requires
        0 <= offset,
        record_fits(b, offset),
        8 + b[offset + 6] <= seq_u16(b, offset + 4),
        offset + seq_u16(b, offset + 4) <= record.offset,
    ensures
        ({
            let c = record_split(b, record, child, name, file_type);
            let next = offset + seq_u16(b, offset + 4);
            &&& c.len() == b.len()
            &&& records_in(c, block, offset) == seq![record_at(b, block, offset)] + records_in(
                c,
                block,
                next,
            )
        }),
{
    let c = record_split(b, record, child, name, file_type);
    let next = offset + seq_u16(b, offset + 4);
    lemma_round4(record.name_len as int);
    assert forall|i: int| 0 <= i < next implies c[i] == b[i] by {}
    let r = record_at(b, block, offset);
    let p = record_at(c, block, offset);
    if r.text is Some {
        assert(p.text->Some_0 =~= r.text->Some_0);
    }
}

/// Among the records of a block, one more name behind the first record.
proof fn lemma_named_split(
    r: DirRecord,
    p: DirRecord,
    q: DirRecord,
    rest: Seq<DirRecord>,
    name: Seq<u8>,
    child: u32,
) -> (k: int)
    requires
        has_sound_records(rest),
        8 + p.name_len <= p.rec_len,
        8 + q.name_len <= q.rec_len,
        p.inode == r.inode,
        p.name == r.name,
        q.inode == child,
        q.name == Some(name),
    ensures
        0 <= k <= named(seq![r] + rest).len(),
        named(seq![p, q] + rest) == named(seq![r] + rest).insert(k, (name, child)),
        has_sound_records(seq![p, q] + rest),
{
    let was = seq![r] + rest;
    let now = seq![p, q] + rest;
    lemma_named_concat(seq![p, q], rest);
    lemma_named_concat(seq![r], rest);
    lemma_named_concat(seq![p], seq![q]);
    assert(seq![p] + seq![q] =~= seq![p, q]);
    lemma_named_one(p);
    lemma_named_one(q);
    lemma_named_one(r);
    assert forall|i: int| 0 <= i < now.len() implies 8 + (#[trigger] now[i]).name_len
        <= now[i].rec_len by {
        if i > 1 {
            assert(now[i] == rest[i - 2]);
        }
    }
    let k: int = if r.name is Some {
        1
    } else {
        0
    };
    assert(named(now) =~= named(was).insert(k, (name, child)));
    k
}

/// Among the records of a block, one more name further back.
proof fn lemma_named_later(
    r: DirRecord,
    rest: Seq<DirRecord>,
    tail: Seq<DirRecord>,
    k: int,
    name: Seq<u8>,
    child: u32,
) -> (l: int)
    requires
        8 + r.name_len <= r.rec_len,
        has_sound_records(tail),
        0 <= k <= named(rest).len(),
        named(tail) == named(rest).insert(k, (name, child)),
    ensures
        0 <= l <= named(seq![r] + rest).len(),
        named(seq![r] + tail) == named(seq![r] + rest).insert(l, (name, child)),
        has_sound_records(seq![r] + tail),
{
    let was = seq![r] + rest;
    let now = seq![r] + tail;
    lemma_named_concat(seq![r], tail);
    lemma_named_concat(seq![r], rest);
    lemma_named_one(r);
    assert forall|i: int| 0 <= i < now.len() implies 8 + (#[trigger] now[i]).name_len
        <= now[i].rec_len by {
        if i > 0 {
            assert(now[i] == tail[i - 1]);
        }
    }
    let l = named(seq![r]).len() + k;
    assert(named(now) =~= named(was).insert(l, (name, child)));
    l
}

/// Whether the records of `c` from `offset` on are those of `b` and a name more.
pub open spec fn gains(
    b: Seq<u8>,
    c: Seq<u8>,
    block: u32,
    offset: int,
    k: int,
    name: Seq<u8>,
    child: u32,
) -> bool {
    let was = named(records_in(b, block, offset));
    &&& 0 <= k <= was.len()
    &&& named(records_in(c, block, offset)) == was.insert(k, (name, child))
    &&& has_sound_records(records_in(c, block, offset))
}

/// The records of a block from one that fits on.
proof fn lemma_records_step(b: Seq<u8>, block: u32, offset: int)
    requires
        has_sound_records(records_in(b, block, offset)),
        record_fits(b, offset),
    ensures
        ({
            let r = record_at(b, block, offset);
            let rest = records_in(b, block, offset + r.rec_len);
            &&& records_in(b, block, offset) == seq![r] + rest
            &&& records_in(b, block, offset)[0] == r
            &&& records_in(b, block, offset).drop_first() == rest
            &&& has_sound_records(rest)
            &&& 8 + r.name_len <= r.rec_len
        }),
{
    let was = records_in(b, block, offset);
    let r = record_at(b, block, offset);
    let rest = records_in(b, block, offset + r.rec_len);
    assert(was == seq![r] + rest);
    assert(was[0] == r);
    assert(was.drop_first() =~= rest);
    assert(8 + was[0].name_len <= was[0].rec_len);
    assert forall|i: int| 0 <= i < rest.len() implies 8 + (#[trigger] rest[i]).name_len
        <= rest[i].rec_len by {
        assert(was[i + 1] == rest[i]);
    }
}

/// Splitting the first record puts one more name among those that follow.
proof fn lemma_gains_here(
    b: Seq<u8>,
    c: Seq<u8>,
    block: u32,
    offset: int,
    child: u32,
    name: Seq<u8>,
    file_type: u8,
) -> (k: int)
    requires
        0 <= offset,
        record_fits(b, offset),
        has_sound_records(records_in(b, block, offset)),
        seq_u16(b, offset + 4) >= record_size(b[offset + 6] as int) + record_size(
            name.len() as int,
        ),
        name.len() <= 255,
        child != 0,
        c == record_split(b, record_at(b, block, offset), child, name, file_type),
    ensures
        gains(b, c, block, offset, k, name, child),
{
    let r = record_at(b, block, offset);
    let rest = records_in(b, block, offset + r.rec_len);
    let p = record_at(c, block, offset);
    let q = record_at(c, block, offset + record_size(r.name_len as int));
    assert(records_in(b, block, offset) == seq![r] + rest && has_sound_records(rest)) by {
        lemma_records_step(b, block, offset);
    }
    assert(records_in(c, block, offset) == seq![p, q] + rest) by {
        lemma_split_here(b, block, offset, child, name, file_type, c);
    }
    lemma_split_pair(b, block, offset, child, name, file_type, c);
    lemma_named_split(r, p, q, rest, name, child)
}

/// A record before the one that is split leaves the name among those that
/// follow.
proof fn lemma_gains_later(
    b: Seq<u8>,
    c: Seq<u8>,
    block: u32,
    offset: int,
    record: DirRecord,
    child: u32,
    name: Seq<u8>,
    file_type: u8,
    k: int,
) -> (l: int)
    requires
        0 <= offset,
        record_fits(b, offset),
        has_sound_records(records_in(b, block, offset)),
        offset + seq_u16(b, offset + 4) <= record.offset,
        c == record_split(b, record, child, name, file_type),
        gains(b, c, block, offset + seq_u16(b, offset + 4), k, name, child),
    ensures
        gains(b, c, block, offset, l, name, child),
{
    let r = record_at(b, block, offset);
    let next = offset + r.rec_len;
    lemma_records_step(b, block, offset);
    lemma_split_later(b, block, offset, record, child, name, file_type);
    lemma_named_later(r, records_in(b, block, next), records_in(c, block, next), k, name, child)
}

/// Splitting a record puts one more name among those of a block.
proof fn lemma_record_split(
    b: Seq<u8>,
    c: Seq<u8>,
    block: u32,
    offset: int,
    record: DirRecord,
    child: u32,
    name: Seq<u8>,
    file_type: u8,
) -> (k: int)
    requires
        0 <= offset,
        first_slot(records_in(b, block, offset), record_size(name.len() as int)) == Some(record),
        has_sound_records(records_in(b, block, offset)),
        name.len() <= 255,
        child != 0,
        c == record_split(b, record, child, name, file_type),
    ensures
        gains(b, c, block, offset, k, name, child),
    decreases b.len() - offset,
{
    let r = record_at(b, block, offset);
    let next = offset + r.rec_len;
    let rest = records_in(b, block, next);
    let needed = record_size(name.len() as int);
    assert(record_fits(b, offset));
    lemma_records_step(b, block, offset);
    if r.rec_len >= record_size(r.name_len as int) + needed {
        lemma_gains_here(b, c, block, offset, child, name, file_type)
    } else {
        assert(next <= record.offset) by {
            let j = lemma_first_slot(rest, needed);
            lemma_records_in(b, block, next);
            assert(rest[j] == record);
        }
        let k = lemma_record_split(b, c, block, next, record, child, name, file_type);
        lemma_gains_later(b, c, block, offset, record, child, name, file_type, k)
    }
}

/// The names in a list of one record.
proof fn lemma_named_one(r: DirRecord)
    ensures
        named(seq![r]) == match r.name {
            Some(name) => seq![(name, r.inode)],
            None => Seq::empty(),
        },
{
    assert(seq![r].drop_first() =~= Seq::<DirRecord>::empty());
    assert(named(seq![r].drop_first()) =~= Seq::<(Seq<u8>, u32)>::empty());
    if r.name is Some {
        assert(named(seq![r]) =~= seq![(r.name->Some_0, r.inode)]);
    }
}

/// Whether a directory has become another by one more name.
pub open spec fn directory_gains(
    was: Directory,
    now: Directory,
    k: int,
    name: Seq<u8>,
    child: u32,
) -> bool {
    &&& 0 <= k <= named(was.records).len()
    &&& named(now.records) == named(was.records).insert(k, (name, child))
    &&& has_sound_records(now.records)
    &&& now.error == was.error
}

/// Whether no block of a directory is there twice.
pub open spec fn has_distinct_blocks(img: Image, sb: Superblock, inode: InodeView) -> bool {
    forall|i: int, j: int|
        0 <= i < block_span(sb, inode.size) && 0 <= j < block_span(sb, inode.size)
            && #[trigger] block_of(img, sb, inode, i) == #[trigger] block_of(img, sb, inode, j)
            && block_of(img, sb, inode, i) is Ok && block_of(img, sb, inode, i)->Ok_0 != 0 ==> i
            == j
}

/// The records of two lists are sound if those of each are.
pub proof fn lemma_sound_records_concat(a: Seq<DirRecord>, b: Seq<DirRecord>)
    ensures
        has_sound_records(a + b) == (has_sound_records(a) && has_sound_records(b)),
{
    let c = a + b;
    if has_sound_records(c) {
        assert forall|i: int| 0 <= i < a.len() implies 8 + (#[trigger] a[i]).name_len
            <= a[i].rec_len by {
            assert(c[i] == a[i]);
        }
        assert forall|i: int| 0 <= i < b.len() implies 8 + (#[trigger] b[i]).name_len
            <= b[i].rec_len by {
            assert(c[a.len() + i] == b[i]);
        }
    }
}

/// A record of a directory lies in one of its blocks.
pub proof fn lemma_record_block(img: Image, sb: Superblock, inode: InodeView, index: int, i: int) -> (j:
    int)
    requires
        0 <= index,
        0 <= i < directory_from(img, sb, inode, index).records.len(),
    ensures
        index <= j < block_span(sb, inode.size),
        block_of(img, sb, inode, j) == Ok::<u32, i32>(
            directory_from(img, sb, inode, index).records[i].block,
        ),
        directory_from(img, sb, inode, index).records[i].block != 0,
    decreases block_span(sb, inode.size) - index,
{
    let block = block_of(img, sb, inode, index)->Ok_0;
    if block == 0 {
        lemma_record_block(img, sb, inode, index + 1, i)
    } else {
        let here = records_in(block_bytes(img, sb, block), block, 0);
        let all = directory_from(img, sb, inode, index).records;
        lemma_records_in(block_bytes(img, sb, block), block, 0);
        if i < here.len() {
            assert(all[i] == here[i]);
            index
        } else {
            let rest = directory_from(img, sb, inode, index + 1).records;
            assert(all[i] == rest[i - here.len()]);
            lemma_record_block(img, sb, inode, index + 1, i - here.len())
        }
    }
}

/// A change of a block that a directory does not have from `index` on leaves
/// what it holds there.
proof fn lemma_directory_other(
    img: Image,
    after: Image,
    sb: Superblock,
    was: InodeView,
    now: InodeView,
    index: int,
    block: u32,
)
    requires
        0 <= index,
        forall|a: int| !in_block(sb, block, a) ==> #[trigger] after(a) == img(a),
        block_span(sb, now.size) == block_span(sb, was.size),
        forall|i: int|
            index <= i < block_span(sb, was.size) ==> #[trigger] block_of(after, sb, now, i)
                == block_of(img, sb, was, i),
        forall|i: int|
            index <= i < block_span(sb, was.size) ==> #[trigger] block_of(img, sb, was, i)
                != Ok::<u32, i32>(block),
    ensures
        directory_from(after, sb, now, index) == directory_from(img, sb, was, index),
    decreases block_span(sb, was.size) - index,
{
    if index < block_span(sb, was.size) {
        lemma_directory_other(img, after, sb, was, now, index + 1, block);
        assert(block_of(after, sb, now, index) == block_of(img, sb, was, index));
        match block_of(img, sb, was, index) {
            Err(_) => {},
            Ok(own) => {
                lemma_block_bytes_other(img, after, sb, block, own);
            },
        }
    }
}

/// A change of a block leaves what another one holds.
pub proof fn lemma_block_bytes_other(
    img: Image,
    after: Image,
    sb: Superblock,
    block: u32,
    other: u32,
)
    requires
        other != block,
        forall|a: int| !in_block(sb, block, a) ==> #[trigger] after(a) == img(a),
    ensures
        block_bytes(after, sb, other) == block_bytes(img, sb, other),
{
    let at = other * sb.block_size;
    assert forall|i: int| 0 <= i < sb.block_size implies #[trigger] after(at + i) == img(
        at + i,
    ) by {
        lemma_blocks_disjoint(sb, other, block, at + i);
    }
    assert(block_bytes(after, sb, other) =~= block_bytes(img, sb, other));
}

/// Splitting a record of a directory puts one more name in it.
pub proof fn lemma_directory_split(
    img: Image,
    after: Image,
    sb: Superblock,
    inode: InodeView,
    index: int,
    record: DirRecord,
    child: u32,
    name: Seq<u8>,
    file_type: u8,
) -> (k: int)
    requires
        0 <= index,
        first_slot(
            directory_from(img, sb, inode, index).records,
            record_size(name.len() as int),
        ) == Some(record),
        has_sound_records(directory_from(img, sb, inode, index).records),
        has_distinct_blocks(img, sb, inode),
        name.len() <= 255,
        child != 0,
        forall|a: int| !in_block(sb, record.block, a) ==> #[trigger] after(a) == img(a),
        forall|i: int|
            0 <= i < block_span(sb, inode.size) ==> #[trigger] block_of(after, sb, inode, i)
                == block_of(img, sb, inode, i),
        block_bytes(after, sb, record.block) == record_split(
            block_bytes(img, sb, record.block),
            record,
            child,
            name,
            file_type,
        ),
    ensures
        directory_gains(
            directory_from(img, sb, inode, index),
            directory_from(after, sb, inode, index),
            k,
            name,
            child,
        ),
    decreases block_span(sb, inode.size) - index,
{
    let needed = record_size(name.len() as int);
    let was = directory_from(img, sb, inode, index);
    let now = directory_from(after, sb, inode, index);
    assert(block_of(after, sb, inode, index) == block_of(img, sb, inode, index));
    let block = block_of(img, sb, inode, index)->Ok_0;
    if block == 0 {
        lemma_directory_split(
            img,
            after,
            sb,
            inode,
            index + 1,
            record,
            child,
            name,
            file_type,
        )
    } else {
        let b = block_bytes(img, sb, block);
        let c = block_bytes(after, sb, block);
        let here = records_in(b, block, 0);
        let there = records_in(c, block, 0);
        let rest = directory_from(img, sb, inode, index + 1).records;
        let more = directory_from(after, sb, inode, index + 1).records;
        assert(was.records == here + rest && now.records == there + more);
        lemma_first_slot_concat(here, rest, needed);
        lemma_sound_records_concat(here, rest);
        lemma_sound_records_concat(there, more);
        lemma_named_concat(here, rest);
        lemma_named_concat(there, more);
        if first_slot(here, needed) is Some {
            assert(record.block == block) by {
                let i = lemma_first_slot(here, needed);
                lemma_records_in(b, block, 0);
                assert(here[i] == record);
            }
            let k = lemma_record_split(b, c, block, 0, record, child, name, file_type);
            assert forall|i: int| index + 1 <= i < block_span(sb, inode.size) implies #[trigger] block_of(
                img,
                sb,
                inode,
                i,
            ) != Ok::<u32, i32>(block) by {
                if block_of(img, sb, inode, i) == Ok::<u32, i32>(block) {
                    assert(block_of(img, sb, inode, index) == block_of(img, sb, inode, i));
                }
            }
            lemma_directory_other(img, after, sb, inode, inode, index + 1, block);
            assert(named(now.records) =~= named(was.records).insert(k, (name, child)));
            k
        } else {
            assert(block != record.block) by {
                let i = lemma_first_slot(rest, needed);
                let j = lemma_record_block(img, sb, inode, index + 1, i);
                if block == record.block {
                    assert(block_of(img, sb, inode, index) == block_of(img, sb, inode, j));
                }
            }
            lemma_block_bytes_other(img, after, sb, record.block, block);
            let k = lemma_directory_split(
                img,
                after,
                sb,
                inode,
                index + 1,
                record,
                child,
                name,
                file_type,
            );
            let l = named(here).len() + k;
            assert(named(now.records) =~= named(was.records).insert(l, (name, child)));
            l
        }
    }
}

/// A directory with one more block holds what that block holds behind what it
/// held.
pub proof fn lemma_directory_appended(
    img: Image,
    after: Image,
    sb: Superblock,
    was: InodeView,
    now: InodeView,
    index: int,
)
    requires
        0 <= index <= block_span(sb, was.size) < 12,
        block_span(sb, now.size) == block_span(sb, was.size) + 1,
        forall|i: int|
            0 <= i < block_span(sb, was.size) ==> #[trigger] now.blocks[i] == was.blocks[i],
        forall|i: int|
            0 <= i < block_span(sb, was.size) && #[trigger] was.blocks[i] != 0 ==> block_bytes(
                after,
                sb,
                was.blocks[i],
            ) == block_bytes(img, sb, was.blocks[i]),
    ensures
        ({
            let old_dir = directory_from(img, sb, was, index);
            let new_dir = directory_from(after, sb, now, index);
            let last = directory_from(after, sb, now, block_span(sb, was.size));
            &&& new_dir.records == old_dir.records + last.records
            &&& old_dir.error is None
            &&& new_dir.error == last.error
        }),
    decreases block_span(sb, was.size) - index,
{
    let last = directory_from(after, sb, now, block_span(sb, was.size)).records;
    if index < block_span(sb, was.size) {
        lemma_directory_appended(img, after, sb, was, now, index + 1);
        assert(now.blocks[index] == was.blocks[index]);
        let block = was.blocks[index];
        if block != 0 {
            let here = records_in(block_bytes(img, sb, block), block, 0);
            let rest = directory_from(img, sb, was, index + 1).records;
            assert(here + (rest + last) =~= (here + rest) + last);
        }
    } else {
        assert(Seq::<DirRecord>::empty() + last =~= last);
    }
}

/// The record of an entry that has a block for itself.
pub open spec fn sole_record(
    sb: Superblock,
    block: u32,
    child: u32,
    name: Seq<u8>,
    file_type: u8,
) -> DirRecord {
    DirRecord {
        block,
        offset: 0,
        inode: child,
        rec_len: sb.block_size as u16,
        name_len: name.len() as u8,
        file_type,
        text: Some(name),
        name: name_for(child, Some(name)),
    }
}

/// The one record of a block that holds one entry.
pub proof fn lemma_entry_block(
    sb: Superblock,
    b: Seq<u8>,
    block: u32,
    child: u32,
    name: Seq<u8>,
    file_type: u8,
)
    requires
        sb.readable(),
        name.len() <= 255,
        b == overlay(
            zeros(MAX_BLOCK_SIZE as nat),
            0,
            entry_bytes(child, sb.block_size as u16, name, file_type),
        ).take(sb.block_size as int),
    ensures
        records_in(b, block, 0) == seq![sole_record(sb, block, child, name, file_type)],
        child != 0 ==> named(records_in(b, block, 0)) == seq![(name, child)],
        has_sound_records(records_in(b, block, 0)),
{
    let bs = sb.block_size as int;
    let bytes = entry_bytes(child, sb.block_size as u16, name, file_type);
    assert(bytes.len() == 8 + name.len());
    assert(b =~= overlay(zeros(bs as nat), 0, bytes));
    lemma_entry_record(zeros(bs as nat), block, 0, child, sb.block_size as u16, name, file_type);
    let r = record_at(b, block, 0);
    assert(r == sole_record(sb, block, child, name, file_type));
    assert(records_in(b, block, bs) =~= Seq::<DirRecord>::empty());
    assert(records_in(b, block, 0) =~= seq![r]);
    lemma_named_one(r);
}

/// The names in the first block of a new directory.
pub proof fn lemma_directory_block(
    sb: Superblock,
    b: Seq<u8>,
    block: u32,
    self_ino: u32,
    parent_ino: u32,
)
    requires
        sb.readable(),
        self_ino != 0,
        parent_ino != 0,
        b == directory_block(sb, self_ino, parent_ino).take(sb.block_size as int),
    ensures
        named(records_in(b, block, 0)) == seq![(dot(), self_ino), (dot_dot(), parent_ino)],
        has_sound_records(records_in(b, block, 0)),
{
    let bs = sb.block_size as int;
    let len = (sb.block_size - 12) as u16;
    let first = entry_bytes(self_ino, 12, dot(), EXT2_FT_DIR);
    let second = entry_bytes(parent_ino, len, dot_dot(), EXT2_FT_DIR);
    let blank = zeros(bs as nat);
    let c = overlay(blank, 0, first);
    assert(first.len() == 9 && second.len() == 10);
    assert(b =~= overlay(c, 12, second));
    lemma_entry_record(blank, block, 0, self_ino, 12, dot(), EXT2_FT_DIR);
    lemma_entry_record(c, block, 12, parent_ino, len, dot_dot(), EXT2_FT_DIR);
    assert(forall|i: int| 0 <= i < 12 ==> b[i] == c[i]);
    let r = record_at(c, block, 0);
    let p = record_at(b, block, 0);
    let q = record_at(b, block, 12);
    assert(p.inode == r.inode && p.rec_len == r.rec_len && p.name_len == r.name_len);
    assert(p.text->Some_0 =~= r.text->Some_0);
    lemma_two_records(b, block, 0, 12, bs);
    let records = records_in(b, block, 0);
    assert(records_in(b, block, bs) =~= Seq::<DirRecord>::empty());
    assert(records =~= seq![p] + seq![q]);
    lemma_named_concat(seq![p], seq![q]);
    lemma_named_one(p);
    lemma_named_one(q);
    assert(named(records) =~= seq![(dot(), self_ino), (dot_dot(), parent_ino)]);
}

/// Every record with a name is for an inode.
pub proof fn lemma_found_nonzero(img: Image, sb: Superblock, inode: InodeView, name: Seq<u8>)
    ensures
        find_name(directory_from(img, sb, inode, 0).records, name) != Some(0u32),
{
    let records = directory_from(img, sb, inode, 0).records;
    lemma_named_nonzero(img, sb, inode, 0);
    lemma_found_in(records, name);
}

/// The records of a directory that have a name are for an inode.
proof fn lemma_named_nonzero(img: Image, sb: Superblock, inode: InodeView, index: int)
    ensures
        ({
            let records = directory_from(img, sb, inode, index).records;
            forall|i: int|
                0 <= i < records.len() ==> (#[trigger] records[i]).name is Some
                    ==> records[i].inode != 0
        }),
    decreases block_span(sb, inode.size) - index,
{
    let records = directory_from(img, sb, inode, index).records;
    if index < block_span(sb, inode.size) {
        lemma_named_nonzero(img, sb, inode, index + 1);
        match block_of(img, sb, inode, index) {
            Ok(block) => if block != 0 {
                let here = records_in(block_bytes(img, sb, block), block, 0);
                let rest = directory_from(img, sb, inode, index + 1).records;
                lemma_records_in(block_bytes(img, sb, block), block, 0);
                assert forall|i: int|
                    0 <= i < records.len() && (#[trigger] records[i]).name is Some implies records[i].inode
                    != 0 by {
                    if i < here.len() {
                        assert(records[i] == here[i]);
                    } else {
                        assert(records[i] == rest[i - here.len()]);
                    }
                }
            },
            Err(_) => {},
        }
    }
}

/// What a name leads to is not 0 where no record with a name is for 0.
proof fn lemma_found_in(records: Seq<DirRecord>, name: Seq<u8>)
    requires
        forall|i: int|
            0 <= i < records.len() ==> (#[trigger] records[i]).name is Some ==> records[i].inode
                != 0,
    ensures
        find_name(records, name) != Some(0u32),
    decreases records.len(),
{
    if records.len() > 0 && records[0].name != Some(name) {
        let rest = records.drop_first();
        assert forall|i: int|
            0 <= i < rest.len() && (#[trigger] rest[i]).name is Some implies rest[i].inode != 0 by {
            assert(rest[i] == records[i + 1]);
        }
        lemma_found_in(rest, name);
    }
}

/// A record cut to what it needs for its name.
pub open spec fn cut_record(record: DirRecord) -> DirRecord {
    DirRecord { rec_len: record_size(record.name_len as int) as u16, ..record }
}

/// The record that is made of what a record has to spare.
pub open spec fn spare_record(
    record: DirRecord,
    child: u32,
    name: Seq<u8>,
    file_type: u8,
) -> DirRecord {
    let ideal = record_size(record.name_len as int);
    DirRecord {
        block: record.block,
        offset: record.offset + ideal,
        inode: child,
        rec_len: (record.rec_len - ideal) as u16,
        name_len: name.len() as u8,
        file_type,
        text: Some(name),
        name: name_for(child, Some(name)),
    }
}

/// Whether a list of records is another one of which one record was cut, with a
/// new record behind it. All others are the same ones.
pub open spec fn is_split(
    was: Seq<DirRecord>,
    now: Seq<DirRecord>,
    i: int,
    child: u32,
    name: Seq<u8>,
    file_type: u8,
) -> bool {
    &&& 0 <= i < was.len()
    &&& was[i].rec_len >= record_size(was[i].name_len as int) + record_size(name.len() as int)
    &&& now == was.take(i) + seq![
        cut_record(was[i]),
        spare_record(was[i], child, name, file_type),
    ] + was.skip(i + 1)
}

/// A list of records behind others is split where it is split itself.
proof fn lemma_split_behind(
    first: Seq<DirRecord>,
    was: Seq<DirRecord>,
    now: Seq<DirRecord>,
    i: int,
    child: u32,
    name: Seq<u8>,
    file_type: u8,
)
    requires
        is_split(was, now, i, child, name, file_type),
    ensures
        is_split(first + was, first + now, first.len() + i, child, name, file_type),
{
    let all = first + was;
    let k = first.len() + i;
    assert(all[k] == was[i]);
    assert(all.take(k) =~= first + was.take(i));
    assert(all.skip(k + 1) =~= was.skip(i + 1));
    let pair = seq![cut_record(was[i]), spare_record(was[i], child, name, file_type)];
    assert(first + (was.take(i) + pair + was.skip(i + 1)) =~= (first + was.take(i)) + pair
        + was.skip(i + 1));
}

/// A list of records before others is split where it is split itself.
proof fn lemma_split_before(
    was: Seq<DirRecord>,
    now: Seq<DirRecord>,
    rest: Seq<DirRecord>,
    i: int,
    child: u32,
    name: Seq<u8>,
    file_type: u8,
)
    requires
        is_split(was, now, i, child, name, file_type),
    ensures
        is_split(was + rest, now + rest, i, child, name, file_type),
{
    let all = was + rest;
    assert(all[i] == was[i]);
    assert(all.take(i) =~= was.take(i));
    assert(all.skip(i + 1) =~= was.skip(i + 1) + rest);
    let pair = seq![cut_record(was[i]), spare_record(was[i], child, name, file_type)];
    assert((was.take(i) + pair + was.skip(i + 1)) + rest =~= was.take(i) + pair + (was.skip(i + 1)
        + rest));
}

/// Splitting the first of some records puts the record, cut, and the new one in
/// its place.
proof fn lemma_pair_split(
    b: Seq<u8>,
    c: Seq<u8>,
    block: u32,
    offset: int,
    child: u32,
    name: Seq<u8>,
    file_type: u8,
)
    requires
        0 <= offset,
        record_fits(b, offset),
        seq_u16(b, offset + 4) >= record_size(b[offset + 6] as int) + record_size(
            name.len() as int,
        ),
        name.len() <= 255,
        c == record_split(b, record_at(b, block, offset), child, name, file_type),
    ensures
        record_at(c, block, offset) == cut_record(record_at(b, block, offset)),
        record_at(c, block, offset + record_size(b[offset + 6] as int)) == spare_record(
            record_at(b, block, offset),
            child,
            name,
            file_type,
        ),
{
    let r = record_at(b, block, offset);
    let p = record_at(c, block, offset);
    let q = record_at(c, block, offset + record_size(b[offset + 6] as int));
    lemma_split_pair(b, block, offset, child, name, file_type, c);
    lemma_pair_fields(r, p, q, child, name, file_type);
}

/// What a record, cut, and the new one behind it say.
proof fn lemma_pair_fields(
    r: DirRecord,
    p: DirRecord,
    q: DirRecord,
    child: u32,
    name: Seq<u8>,
    file_type: u8,
)
    requires
        p.block == r.block,
        p.offset == r.offset,
        p.inode == r.inode,
        p.name_len == r.name_len,
        p.rec_len == record_size(r.name_len as int),
        p.text == r.text,
        p.name == r.name,
        p.file_type == r.file_type,
        q.block == r.block,
        q.offset == r.offset + record_size(r.name_len as int),
        q.inode == child,
        q.name_len == name.len(),
        q.rec_len == (r.rec_len - record_size(r.name_len as int)) as u16,
        q.text == Some(name),
        q.name == name_for(child, Some(name)),
        q.file_type == file_type,
    ensures
        p == cut_record(r),
        q == spare_record(r, child, name, file_type),
{
}

/// A list whose first record is split.
proof fn lemma_first_split(
    was: Seq<DirRecord>,
    rest: Seq<DirRecord>,
    p: DirRecord,
    q: DirRecord,
    child: u32,
    name: Seq<u8>,
    file_type: u8,
)
    requires
        was.len() > 0,
        was.drop_first() == rest,
        was[0].rec_len >= record_size(was[0].name_len as int) + record_size(name.len() as int),
        p == cut_record(was[0]),
        q == spare_record(was[0], child, name, file_type),
    ensures
        is_split(was, seq![p, q] + rest, 0, child, name, file_type),
{
    assert(was.take(0) + seq![p, q] + was.skip(1) =~= seq![p, q] + rest);
}

/// Splitting the first of some records splits their list.
proof fn lemma_split_starts(
    b: Seq<u8>,
    c: Seq<u8>,
    block: u32,
    offset: int,
    child: u32,
    name: Seq<u8>,
    file_type: u8,
)
    requires
        0 <= offset,
        record_fits(b, offset),
        has_sound_records(records_in(b, block, offset)),
        seq_u16(b, offset + 4) >= record_size(b[offset + 6] as int) + record_size(
            name.len() as int,
        ),
        name.len() <= 255,
        c == record_split(b, record_at(b, block, offset), child, name, file_type),
    ensures
        is_split(
            records_in(b, block, offset),
            records_in(c, block, offset),
            0,
            child,
            name,
            file_type,
        ),
{
    let r = record_at(b, block, offset);
    let was = records_in(b, block, offset);
    let rest = records_in(b, block, offset + r.rec_len);
    let p = record_at(c, block, offset);
    let q = record_at(c, block, offset + record_size(r.name_len as int));
    assert(was[0] == r && was.drop_first() == rest && was.len() > 0) by {
        lemma_records_step(b, block, offset);
    }
    assert(records_in(c, block, offset) == seq![p, q] + rest) by {
        lemma_split_here(b, block, offset, child, name, file_type, c);
    }
    assert(p == cut_record(r) && q == spare_record(r, child, name, file_type)) by {
        lemma_pair_split(b, c, block, offset, child, name, file_type);
    }
    lemma_first_split(was, rest, p, q, child, name, file_type);
}

/// A record before the one that is split leaves the list split further back.
proof fn lemma_split_goes_on(
    b: Seq<u8>,
    c: Seq<u8>,
    block: u32,
    offset: int,
    record: DirRecord,
    child: u32,
    name: Seq<u8>,
    file_type: u8,
    i: int,
)
    requires
        0 <= offset,
        record_fits(b, offset),
        has_sound_records(records_in(b, block, offset)),
        offset + seq_u16(b, offset + 4) <= record.offset,
        c == record_split(b, record, child, name, file_type),
        is_split(
            records_in(b, block, offset + seq_u16(b, offset + 4)),
            records_in(c, block, offset + seq_u16(b, offset + 4)),
            i,
            child,
            name,
            file_type,
        ),
    ensures
        is_split(
            records_in(b, block, offset),
            records_in(c, block, offset),
            1 + i,
            child,
            name,
            file_type,
        ),
{
    let r = record_at(b, block, offset);
    let next = offset + r.rec_len;
    let rest = records_in(b, block, next);
    let more = records_in(c, block, next);
    assert(records_in(b, block, offset) == seq![r] + rest && 8 + r.name_len <= r.rec_len) by {
        lemma_records_step(b, block, offset);
    }
    assert(records_in(c, block, offset) == seq![r] + more) by {
        lemma_split_later(b, block, offset, record, child, name, file_type);
    }
    lemma_split_behind(seq![r], rest, more, i, child, name, file_type);
}

/// Splitting a record of a block splits the list of its records.
proof fn lemma_block_split(
    b: Seq<u8>,
    c: Seq<u8>,
    block: u32,
    offset: int,
    record: DirRecord,
    child: u32,
    name: Seq<u8>,
    file_type: u8,
) -> (i: int)
    requires
        0 <= offset,
        first_slot(records_in(b, block, offset), record_size(name.len() as int)) == Some(record),
        has_sound_records(records_in(b, block, offset)),
        name.len() <= 255,
        c == record_split(b, record, child, name, file_type),
    ensures
        is_split(
            records_in(b, block, offset),
            records_in(c, block, offset),
            i,
            child,
            name,
            file_type,
        ),
    decreases b.len() - offset,
{
    let r = record_at(b, block, offset);
    let next = offset + r.rec_len;
    let rest = records_in(b, block, next);
    let needed = record_size(name.len() as int);
    assert(record_fits(b, offset));
    lemma_records_step(b, block, offset);
    if r.rec_len >= record_size(r.name_len as int) + needed {
        lemma_split_starts(b, c, block, offset, child, name, file_type);
        0
    } else {
        assert(next <= record.offset) by {
            let j = lemma_first_slot(rest, needed);
            lemma_records_in(b, block, next);
            assert(rest[j] == record);
        }
        let i = lemma_block_split(b, c, block, next, record, child, name, file_type);
        lemma_split_goes_on(b, c, block, offset, record, child, name, file_type, i);
        1 + i
    }
}

/// Whether a directory has a block in one place at most.
pub open spec fn is_listed_once(
    img: Image,
    sb: Superblock,
    inode: InodeView,
    block: u32,
) -> bool {
    forall|i: int, j: int|
        0 <= i < j < block_span(sb, inode.size) ==> !(#[trigger] block_of(img, sb, inode, i)
            == #[trigger] block_of(img, sb, inode, j) && block_of(img, sb, inode, i) == Ok::<
            u32,
            i32,
        >(block))
}

/// Whether the list of the records of a block is split from one image to another.
pub open spec fn is_block_split(
    img: Image,
    after: Image,
    sb: Superblock,
    block: u32,
    i: int,
    child: u32,
    name: Seq<u8>,
    file_type: u8,
) -> bool {
    is_split(
        records_in(block_bytes(img, sb, block), block, 0),
        records_in(block_bytes(after, sb, block), block, 0),
        i,
        child,
        name,
        file_type,
    )
}

/// Splitting a record of a directory splits the list of its records, and that of
/// the records of its block.
pub proof fn lemma_records_split(
    img: Image,
    after: Image,
    sb: Superblock,
    was: InodeView,
    now: InodeView,
    index: int,
    record: DirRecord,
    child: u32,
    name: Seq<u8>,
    file_type: u8,
) -> (r: (int, int))
    requires
        0 <= index,
        first_slot(
            directory_from(img, sb, was, index).records,
            record_size(name.len() as int),
        ) == Some(record),
        has_sound_records(directory_from(img, sb, was, index).records),
        is_listed_once(img, sb, was, record.block),
        name.len() <= 255,
        forall|a: int| !in_block(sb, record.block, a) ==> #[trigger] after(a) == img(a),
        block_span(sb, now.size) == block_span(sb, was.size),
        forall|i: int|
            0 <= i < block_span(sb, was.size) ==> #[trigger] block_of(after, sb, now, i)
                == block_of(img, sb, was, i),
        block_bytes(after, sb, record.block) == record_split(
            block_bytes(img, sb, record.block),
            record,
            child,
            name,
            file_type,
        ),
    ensures
        is_split(
            directory_from(img, sb, was, index).records,
            directory_from(after, sb, now, index).records,
            r.0,
            child,
            name,
            file_type,
        ),
        is_block_split(img, after, sb, record.block, r.1, child, name, file_type),
    decreases block_span(sb, was.size) - index,
{
    let needed = record_size(name.len() as int);
    let old_dir = directory_from(img, sb, was, index);
    let new_dir = directory_from(after, sb, now, index);
    assert(block_of(after, sb, now, index) == block_of(img, sb, was, index));
    let block = block_of(img, sb, was, index)->Ok_0;
    if block == 0 {
        lemma_records_split(img, after, sb, was, now, index + 1, record, child, name, file_type)
    } else {
        let b = block_bytes(img, sb, block);
        let c = block_bytes(after, sb, block);
        let here = records_in(b, block, 0);
        let there = records_in(c, block, 0);
        let rest = directory_from(img, sb, was, index + 1).records;
        let more = directory_from(after, sb, now, index + 1).records;
        assert(old_dir.records == here + rest && new_dir.records == there + more);
        lemma_first_slot_concat(here, rest, needed);
        lemma_sound_records_concat(here, rest);
        if first_slot(here, needed) is Some {
            assert(record.block == block) by {
                let i = lemma_first_slot(here, needed);
                lemma_records_in(b, block, 0);
                assert(here[i] == record);
            }
            let i = lemma_block_split(b, c, block, 0, record, child, name, file_type);
            assert forall|i: int| index + 1 <= i < block_span(sb, was.size) implies #[trigger] block_of(
                img,
                sb,
                was,
                i,
            ) != Ok::<u32, i32>(block) by {
                if block_of(img, sb, was, i) == Ok::<u32, i32>(block) {
                    assert(block_of(img, sb, was, index) == block_of(img, sb, was, i));
                }
            }
            lemma_directory_other(img, after, sb, was, now, index + 1, block);
            lemma_split_before(here, there, rest, i, child, name, file_type);
            (i, i)
        } else {
            assert(block != record.block) by {
                let i = lemma_first_slot(rest, needed);
                let j = lemma_record_block(img, sb, was, index + 1, i);
                if block == record.block {
                    assert(block_of(img, sb, was, index) == block_of(img, sb, was, j));
                }
            }
            lemma_block_bytes_other(img, after, sb, record.block, block);
            let (i, k) = lemma_records_split(
                img,
                after,
                sb,
                was,
                now,
                index + 1,
                record,
                child,
                name,
                file_type,
            );
            lemma_split_behind(here, rest, more, i, child, name, file_type);
            (here.len() + i, k)
        }
    }
}

/// Whether a record has room for its header and its name, in a length that is a
/// multiple of 4.
pub open spec fn is_roomy(record: DirRecord) -> bool {
    record.rec_len % 4 == 0 && record.rec_len >= record_size(record.name_len as int)
}

/// Whether records cover a block: the first starts with it, each other where the
/// one before it ends, and the last ends with the block. Each has room for its
/// name.
pub open spec fn is_covered(sb: Superblock, records: Seq<DirRecord>) -> bool {
    &&& records.len() > 0
    &&& records[0].offset == 0
    &&& records.last().offset + records.last().rec_len == sb.block_size
    &&& forall|i: int|
        1 <= i < records.len() ==> (#[trigger] records[i]).offset == records[i - 1].offset
            + records[i - 1].rec_len
    &&& forall|i: int| 0 <= i < records.len() ==> is_roomy(#[trigger] records[i])
}

/// Whether the records of a block, if there is one, cover it.
pub open spec fn is_covered_block(img: Image, sb: Superblock, block: Result<u32, i32>) -> bool {
    match block {
        Ok(b) => b != 0 ==> is_covered(sb, records_in(block_bytes(img, sb, b), b, 0)),
        Err(_) => true,
    }
}

/// Whether every block of a directory is covered by its records.
pub open spec fn has_covered_blocks(img: Image, sb: Superblock, inode: InodeView) -> bool {
    forall|i: int|
        0 <= i < block_span(sb, inode.size) ==> is_covered_block(
            img,
            sb,
            #[trigger] block_of(img, sb, inode, i),
        )
}

/// The records of a directory whose blocks are covered have room for their names.
pub proof fn lemma_covered_sound(img: Image, sb: Superblock, inode: InodeView, index: int)
    requires
        0 <= index,
        has_covered_blocks(img, sb, inode),
    ensures
        has_sound_records(directory_from(img, sb, inode, index).records),
    decreases block_span(sb, inode.size) - index,
{
    if index < block_span(sb, inode.size) {
        lemma_covered_sound(img, sb, inode, index + 1);
        match block_of(img, sb, inode, index) {
            Err(_) => {},
            Ok(block) => if block != 0 {
                let here = records_in(block_bytes(img, sb, block), block, 0);
                let rest = directory_from(img, sb, inode, index + 1).records;
                assert(is_covered(sb, here));
                assert forall|i: int| 0 <= i < here.len() implies 8 + (#[trigger] here[i]).name_len
                    <= here[i].rec_len by {
                    assert(is_roomy(here[i]));
                    lemma_round4(here[i].name_len as int);
                }
                lemma_sound_records_concat(here, rest);
            },
        }
    }
}

/// The records of a list of which one was split.
proof fn lemma_split_items(
    was: Seq<DirRecord>,
    now: Seq<DirRecord>,
    i: int,
    child: u32,
    name: Seq<u8>,
    file_type: u8,
)
    requires
        is_split(was, now, i, child, name, file_type),
    ensures
        now.len() == was.len() + 1,
        now[i] == cut_record(was[i]),
        now[i + 1] == spare_record(was[i], child, name, file_type),
        forall|j: int| 0 <= j < i ==> #[trigger] now[j] == was[j],
        forall|j: int| i + 1 < j < now.len() ==> #[trigger] now[j] == was[j - 1],
{
}

/// Records that cover a block do so with two records in the place of one.
proof fn lemma_pair_covers(
    sb: Superblock,
    was: Seq<DirRecord>,
    now: Seq<DirRecord>,
    i: int,
    p: DirRecord,
    q: DirRecord,
)
    requires
        is_covered(sb, was),
        0 <= i < was.len(),
        now.len() == was.len() + 1,
        now[i] == p,
        now[i + 1] == q,
        forall|j: int| 0 <= j < i ==> #[trigger] now[j] == was[j],
        forall|j: int| i + 1 < j < now.len() ==> #[trigger] now[j] == was[j - 1],
        p.offset == was[i].offset,
        q.offset == p.offset + p.rec_len,
        p.rec_len + q.rec_len == was[i].rec_len,
        is_roomy(p),
        is_roomy(q),
    ensures
        is_covered(sb, now),
{
    assert forall|j: int| 0 <= j < now.len() implies is_roomy(#[trigger] now[j]) by {
        if j > i + 1 {
            assert(is_roomy(was[j - 1]));
        } else if j < i {
            assert(is_roomy(was[j]));
        }
    }
    assert forall|j: int| 1 <= j < now.len() implies (#[trigger] now[j]).offset == now[j - 1].offset
        + now[j - 1].rec_len by {
        let before = now[j - 1];
        if j <= i {
            assert(was[j].offset == was[j - 1].offset + was[j - 1].rec_len);
        } else if j >= i + 2 {
            assert(was[j - 1].offset == was[j - 2].offset + was[j - 2].rec_len);
        }
    }
    assert(now.last() == now[now.len() - 1]);
    assert(was.last() == was[was.len() - 1]);
    assert(now[0].offset == was[0].offset);
}

/// The two records that a record is split into have room for their names.
proof fn lemma_pair_roomy(r: DirRecord, child: u32, name: Seq<u8>, file_type: u8)
    requires
        is_roomy(r),
        r.rec_len >= record_size(r.name_len as int) + record_size(name.len() as int),
        name.len() <= 255,
    ensures
        is_roomy(cut_record(r)),
        is_roomy(spare_record(r, child, name, file_type)),
        cut_record(r).rec_len + spare_record(r, child, name, file_type).rec_len == r.rec_len,
        spare_record(r, child, name, file_type).offset == r.offset + cut_record(r).rec_len,
{
    lemma_round4(r.name_len as int);
    lemma_round4(name.len() as int);
}

/// Records that cover a block do so after one of them was split.
pub proof fn lemma_split_covers(
    sb: Superblock,
    was: Seq<DirRecord>,
    now: Seq<DirRecord>,
    i: int,
    child: u32,
    name: Seq<u8>,
    file_type: u8,
)
    requires
        is_covered(sb, was),
        is_split(was, now, i, child, name, file_type),
        name.len() <= 255,
    ensures
        is_covered(sb, now),
{
    let r = was[i];
    assert(is_roomy(r));
    lemma_pair_roomy(r, child, name, file_type);
    let p = cut_record(r);
    let q = spare_record(r, child, name, file_type);
    assert(now.len() == was.len() + 1 && now[i] == p && now[i + 1] == q) by {
        lemma_split_items(was, now, i, child, name, file_type);
    }
    assert forall|j: int| 0 <= j < i implies #[trigger] now[j] == was[j] by {
        lemma_split_items(was, now, i, child, name, file_type);
    }
    assert forall|j: int| i + 1 < j < now.len() implies #[trigger] now[j] == was[j - 1] by {
        lemma_split_items(was, now, i, child, name, file_type);
    }
    lemma_pair_covers(sb, was, now, i, p, q);
}

/// The one record of a block that holds one entry covers it.
pub proof fn lemma_sole_covers(
    sb: Superblock,
    block: u32,
    child: u32,
    name: Seq<u8>,
    file_type: u8,
)
    requires
        sb.readable(),
        name.len() <= 255,
    ensures
        is_covered(sb, seq![sole_record(sb, block, child, name, file_type)]),
{
    let sole = sole_record(sb, block, child, name, file_type);
    lemma_round4(name.len() as int);
    assert(seq![sole].last() == sole);
    assert(is_roomy(sole));
}

} // verus!
