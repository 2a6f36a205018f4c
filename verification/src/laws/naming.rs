//! Where paths lead and what directories hold, byte by byte.

use vstd::prelude::*;
use crate::dir::{
    directory_from, dot, dot_dot, find_name, lookup, record_at, record_fits, records_in,
    resolved, walk, DirRecord,
};
use crate::disk::Image;
use crate::laws::entries::lemma_found_nonzero;
use crate::laws::format::{fails_with, law_blocks_are_stretches, law_mode_tells_type};
use crate::layout::{block_bytes, block_of, block_span, inode_numbered, InodeView, Superblock};
use crate::ops::{is_listed, listed, path_listed};
use crate::path::{
    components, components_from, last_slash, law_split_takes_last_component,
    lemma_last_slash, lemma_run_end, lemma_trimmed_len, run_end, split, trimmed_len,
};

verus! {

/// Whether some bytes can be a name in a path: there are some, and none is a slash.
pub open spec fn is_plain_name(name: Seq<u8>) -> bool {
    name.len() > 0 && forall|i: int| 0 <= i < name.len() ==> #[trigger] name[i] != 47
}

/// Whether all of some bytes are slashes.
pub open spec fn is_all_slashes(s: Seq<u8>) -> bool {
    forall|i: int| 0 <= i < s.len() ==> #[trigger] s[i] == 47
}

/// Bytes before a place do not matter for the runs behind it.
proof fn lemma_shifted(head: Seq<u8>, p: Seq<u8>, i: int)
    requires
        0 <= i <= p.len(),
    ensures
        run_end(head + p, head.len() + i) == head.len() + run_end(p, i),
        components_from(head + p, head.len() + i) == components_from(p, i),
    decreases p.len() - i,
{
    let q = head + p;
    let n = head.len() as int;
    if i < p.len() {
        assert(q[n + i] == p[i]);
        lemma_shifted(head, p, i + 1);
        if p[i] != 47 {
            let e = run_end(p, i);
            lemma_run_end(p, i);
            lemma_run_end(p, i + 1);
            lemma_shifted(head, p, e);
            assert(q.subrange(n + i, n + e) =~= p.subrange(i, e));
        }
    }
}

/// The components of a path are what stands between its slashes: a slash in front
/// adds none, and a name in front that ends at a slash or at the end of the path is
/// the first. Nothing has no components.
pub proof fn law_components_between_slashes(name: Seq<u8>, p: Seq<u8>)
    ensures
        components(Seq::<u8>::empty()) == Seq::<Seq<u8>>::empty(),
        components(seq![47u8] + p) == components(p),
        is_plain_name(name) && (p.len() == 0 || p[0] == 47) ==> components(name + p) == seq![name]
            + components(p),
{
    let s = seq![47u8];
    assert((s + p)[0] == 47);
    lemma_shifted(s, p, 0);
    if is_plain_name(name) && (p.len() == 0 || p[0] == 47) {
        let q = name + p;
        assert(q[0] == name[0]);
        lemma_run_end(q, 0);
        lemma_run_end(q, 1);
        let e = run_end(q, 0);
        assert(e == name.len()) by {
            if e < name.len() {
                assert(q[e] == name[e]);
            }
            if e > name.len() {
                assert(q[name.len() as int] == p[0]);
            }
        }
        assert(q.subrange(0, e) =~= name);
        lemma_shifted(name, p, 0);
    }
}

/// A path is split at its last name: whatever starts with a slash, or nothing, and a
/// slash, a name and any number of slashes. The directory is what stands before the
/// slash, or the root. Any other path, one without a name or one that starts with
/// anything else, is refused with -22.
#[verifier::rlimit(30)]
pub proof fn law_split_at_last_name(head: Seq<u8>, name: Seq<u8>, tail: Seq<u8>, p: Seq<u8>)
    ensures
        (head.len() == 0 || head[0] == 47) && is_plain_name(name) && is_all_slashes(tail) ==> split(
            head + seq![47u8] + name + tail,
        ) == Ok::<(Seq<u8>, Seq<u8>), i32>(
            (
                if head.len() == 0 {
                    seq![47u8]
                } else {
                    head
                },
                name,
            ),
        ),
        p.len() == 0 || p[0] != 47 || is_all_slashes(p) ==> fails_with(split(p), -22),
{
    if (head.len() == 0 || head[0] == 47) && is_plain_name(name) && is_all_slashes(tail) {
        let q = head + seq![47u8] + name + tail;
        let h = head.len() as int;
        let end = h + 1 + name.len();
        assert(forall|k: int| 0 <= k < h ==> q[k] == head[k]);
        assert(q[h] == 47);
        assert(q[0] == 47);
        assert forall|k: int| h < k < end implies #[trigger] q[k] != 47 by {
            assert(q[k] == name[k - h - 1]);
        }
        assert forall|k: int| end <= k < q.len() implies #[trigger] q[k] == 47 by {
            assert(q[k] == tail[k - end]);
        }
        let t = trimmed_len(q, q.len() as int);
        lemma_trimmed_len(q, q.len() as int);
        assert(t == end) by {
            if t < end {
                assert(q[end - 1] == 47);
            }
            if t > end {
                assert(q[t - 1] == 47);
            }
        }
        let s = last_slash(q, end - 1);
        lemma_last_slash(q, end - 1);
        assert(s == h) by {
            if s < h {
                assert(q[h] != 47);
            }
        }
        assert(q.subrange(h + 1, end) =~= name);
        if h == 0 {
            assert(q.take(1) =~= seq![47u8]);
        } else {
            assert(q.take(h) =~= head);
        }
    }
    if p.len() == 0 || p[0] != 47 || is_all_slashes(p) {
        if p.len() > 0 && p[0] == 47 {
            lemma_trimmed_len(p, p.len() as int);
            let t = trimmed_len(p, p.len() as int);
            assert(t == 1) by {
                if t > 1 {
                    assert(p[t - 1] == 47);
                }
            }
        }
    }
}

/// One more name at the end of a list of names.
pub proof fn lemma_walk_on(
    img: Image,
    sb: Superblock,
    current: u32,
    names: Seq<Seq<u8>>,
    name: Seq<u8>,
)
    ensures
        walk(img, sb, current, names.push(name)) == match walk(img, sb, current, names) {
            Err(e) => Err(e),
            Ok(dir) => if name == seq![46u8] {
                Ok(dir)
            } else if name == seq![46u8, 46u8] {
                Err(-22i32)
            } else {
                lookup(img, sb, dir, name)
            },
        },
    decreases names.len(),
{
    let all = names.push(name);
    if names.len() == 0 {
        let rest = all.drop_first();
        assert(rest =~= Seq::<Seq<u8>>::empty());
        assert(all[0] == name);
        assert(walk(img, sb, current, rest) == Ok::<u32, i32>(current));
        match lookup(img, sb, current, name) {
            Ok(next) => {
                assert(walk(img, sb, next, rest) == Ok::<u32, i32>(next));
            },
            Err(_) => {},
        }
    } else {
        assert(all.drop_first() =~= names.drop_first().push(name));
        assert(all[0] == names[0]);
        lemma_walk_on(img, sb, current, names.drop_first(), name);
        match lookup(img, sb, current, names[0]) {
            Ok(next) => {
                lemma_walk_on(img, sb, next, names.drop_first(), name);
            },
            Err(_) => {},
        }
    }
}

/// A path that does not start with a slash is refused with -22. One of slashes
/// alone leads to inode 2. With a slash and one more name, a path leads where the
/// name leads in what it led to: to the same for one dot, nowhere with -22 for two,
/// and else to the inode that is found under the name. What goes wrong first is the
/// answer.
#[verifier::rlimit(30)]
pub proof fn law_path_leads_by_names(img: Image, sb: Superblock, p: Seq<u8>, name: Seq<u8>)
    ensures
        p.len() == 0 || p[0] != 47 ==> fails_with(resolved(img, sb, p), -22),
        p.len() > 0 && is_all_slashes(p) ==> resolved(img, sb, p) is Ok && (resolved(
            img,
            sb,
            p,
        )->Ok_0).0 == 2,
        p.len() > 0 && p[0] == 47 && is_plain_name(name) ==> {
            let q = resolved(img, sb, p + seq![47u8] + name);
            match resolved(img, sb, p) {
                Err(e) => fails_with(q, e as int),
                Ok((dir, _)) => if name == seq![46u8] {
                    q == resolved(img, sb, p)
                } else if name == seq![46u8, 46u8] {
                    fails_with(q, -22)
                } else {
                    match lookup(img, sb, dir, name) {
                        Err(e) => fails_with(q, e as int),
                        Ok(ino) => q is Ok && (q->Ok_0).0 == ino,
                    }
                },
            }
        },
{
    law_split_at_last_name(p, name, Seq::empty(), p);
    if p.len() > 0 && is_all_slashes(p) {
        law_split_takes_last_component(p);
        assert(components(p) =~= Seq::<Seq<u8>>::empty());
    }
    if p.len() > 0 && p[0] == 47 && is_plain_name(name) {
        let q = p + seq![47u8] + name;
        assert(q + Seq::<u8>::empty() =~= q);
        assert(q[0] == 47);
        law_split_takes_last_component(q);
        assert(components(q) == components(p).push(name));
        lemma_walk_on(img, sb, 2, components(p), name);
        if let Ok(dir) = walk(img, sb, 2, components(p)) {
            if let Ok(inode) = inode_numbered(img, sb, dir) {
                lemma_found_nonzero(img, sb, inode, name);
            }
            lemma_walk_nonzero(img, sb, 2, components(p));
        }
    }
}

/// No path leads to inode 0.
proof fn lemma_walk_nonzero(img: Image, sb: Superblock, current: u32, names: Seq<Seq<u8>>)
    requires
        current >= 1,
    ensures
        walk(img, sb, current, names) matches Ok(ino) ==> ino >= 1,
    decreases names.len(),
{
    if names.len() > 0 {
        lemma_walk_nonzero(img, sb, current, names.drop_first());
        if let Ok(next) = lookup(img, sb, current, names[0]) {
            lemma_found_nonzero(img, sb, inode_numbered(img, sb, current)->Ok_0, names[0]);
            lemma_walk_nonzero(img, sb, next, names.drop_first());
        }
    }
}

/// The bytes of a record: four for the inode, two for the length of the record, one
/// for that of the name and one for the type, and the name. A record has a name
/// where it is for an inode and the name ends in the block.
pub proof fn law_record_in_bytes(b: Seq<u8>, block: u32, at: int)
    requires
        0 <= at,
        at + 8 <= b.len(),
    ensures
        ({
            let r = record_at(b, block, at);
            let n = b[at + 6] as int;
            &&& r.block == block && r.offset == at
            &&& r.inode == b[at] + 256 * b[at + 1] + 65536 * b[at + 2] + 16777216 * b[at + 3]
            &&& r.rec_len == b[at + 4] + 256 * b[at + 5]
            &&& r.name_len == n
            &&& r.file_type == b[at + 7]
            &&& r.name is Some <==> r.inode != 0 && at + 8 + n <= b.len()
            &&& r.name is Some ==> r.name->Some_0 == b.subrange(at + 8, at + 8 + n)
            &&& r.text is Some <==> at + 8 + n <= b.len()
            &&& r.text is Some ==> r.text->Some_0 == b.subrange(at + 8, at + 8 + n)
        }),
{
}

/// Whether a record of some length ends in the block and has a length.
pub open spec fn is_record(b: Seq<u8>, at: int) -> bool {
    &&& 0 <= at
    &&& at + 8 <= b.len()
    &&& 0 < b[at + 4] + 256 * b[at + 5] <= b.len() - at
}

/// Where records stand in a block, each right behind the one before.
proof fn lemma_chain(b: Seq<u8>, block: u32, at: int)
    requires
        0 <= at,
    ensures
        ({
            let records = records_in(b, block, at);
            let n = records.len() as int;
            &&& n == 0 <==> !is_record(b, at)
            &&& n > 0 ==> records[0].offset == at
            &&& forall|i: int|
                0 <= i < n ==> is_record(b, (#[trigger] records[i]).offset) && records[i]
                    == record_at(b, block, records[i].offset)
            &&& forall|i: int|
                0 <= i < n - 1 ==> records[i + 1].offset == (#[trigger] records[i]).offset
                    + records[i].rec_len
            &&& n > 0 ==> !is_record(b, records[n - 1].offset + records[n - 1].rec_len)
        }),
    decreases b.len() - at,
{
    let records = records_in(b, block, at);
    if at + 8 <= b.len() && record_fits(b, at) {
        let first = record_at(b, block, at);
        let next = at + first.rec_len;
        let rest = records_in(b, block, next);
        lemma_chain(b, block, next);
        assert(records =~= seq![first] + rest);
        assert(records[0] == first);
        assert forall|i: int| 0 <= i < records.len() implies is_record(
            b,
            (#[trigger] records[i]).offset,
        ) && records[i] == record_at(b, block, records[i].offset) by {
            if i > 0 {
                assert(records[i] == rest[i - 1]);
            }
        }
        assert forall|i: int| 0 <= i < records.len() - 1 implies records[i + 1].offset == (
        #[trigger] records[i]).offset + records[i].rec_len by {
            assert(records[i + 1] == rest[i]);
            if i > 0 {
                assert(records[i] == rest[i - 1]);
            }
        }
        if rest.len() > 0 {
            assert(records[records.len() - 1] == rest[rest.len() - 1]);
        }
    }
}

/// The records of a block start at its first byte and stand one right behind the
/// other, up to where none fits any more: where fewer than 8 bytes are left, or the
/// length is 0 or leads out of the block.
pub proof fn law_records_follow_each_other(b: Seq<u8>, block: u32)
    ensures
        ({
            let records = records_in(b, block, 0);
            let n = records.len() as int;
            &&& n == 0 <==> !is_record(b, 0)
            &&& n > 0 ==> records[0].offset == 0
            &&& forall|i: int|
                0 <= i < n ==> is_record(b, (#[trigger] records[i]).offset) && records[i]
                    == record_at(b, block, records[i].offset)
            &&& forall|i: int|
                0 <= i < n - 1 ==> records[i + 1].offset == (#[trigger] records[i]).offset
                    + records[i].rec_len
            &&& n > 0 ==> !is_record(b, records[n - 1].offset + records[n - 1].rec_len)
        }),
{
    lemma_chain(b, block, 0);
}

/// A directory holds the records of its blocks, block by block, as many blocks as
/// its size needs. Blocks without a number are passed over, and the first that cannot
/// be located ends it, with the code of that.
pub proof fn law_directory_holds_blocks(img: Image, sb: Superblock, inode: InodeView, index: int)
    requires
        sb.block_size != 0,
        0 <= index,
    ensures
        ({
            let here = directory_from(img, sb, inode, index);
            let rest = directory_from(img, sb, inode, index + 1);
            if index * sb.block_size >= inode.size {
                here.records.len() == 0 && here.error is None
            } else {
                match block_of(img, sb, inode, index) {
                    Err(e) => here.records.len() == 0 && here.error == Some(e),
                    Ok(block) => if block == 0 {
                        here == rest
                    } else {
                        &&& here.records == records_in(
                            block_bytes(img, sb, block),
                            block,
                            0,
                        ) + rest.records
                        &&& here.error == rest.error
                    },
                }
            }
        }),
{
    let bs = sb.block_size as int;
    let n = block_span(sb, inode.size);
    law_blocks_are_stretches(
        img,
        sb,
        0,
        Seq::new(sb.block_size as nat, |i: int| 0u8),
        0,
        0,
        inode.size,
    );
    assert(index >= n <==> index * bs >= inode.size) by (nonlinear_arith)
        requires
            inode.size <= n * bs < inode.size + bs,
            bs > 0,
    ;
}

/// Where a name is found, it is in the first record that has it.
proof fn lemma_first_found(records: Seq<DirRecord>, name: Seq<u8>)
    ensures
        match find_name(records, name) {
            None => forall|i: int|
                0 <= i < records.len() ==> (#[trigger] records[i]).name != Some(name),
            Some(ino) => exists|i: int|
                #![trigger records[i]]
                0 <= i < records.len() && records[i].name == Some(name) && records[i].inode == ino
                    && forall|j: int| 0 <= j < i ==> (#[trigger] records[j]).name != Some(name),
        },
    decreases records.len(),
{
    if records.len() > 0 {
        let rest = records.drop_first();
        lemma_first_found(rest, name);
        if records[0].name == Some(name) {
            assert(records[0].inode == find_name(records, name)->Some_0);
        } else {
            match find_name(rest, name) {
                None => {
                    assert forall|i: int| 0 <= i < records.len() implies (#[trigger] records[i]).name
                        != Some(name) by {
                        if i > 0 {
                            assert(rest[i - 1] == records[i]);
                        }
                    }
                },
                Some(ino) => {
                    let k = choose|i: int|
                        #![trigger rest[i]]
                        0 <= i < rest.len() && rest[i].name == Some(name) && rest[i].inode == ino
                            && forall|j: int|
                            0 <= j < i ==> (#[trigger] rest[j]).name != Some(name);
                    assert(records[k + 1] == rest[k]);
                    assert forall|j: int| 0 <= j < k + 1 implies (#[trigger] records[j]).name
                        != Some(name) by {
                        if j > 0 {
                            assert(rest[j - 1] == records[j]);
                        }
                    }
                },
            }
        }
    }
}

/// A name that is looked up leads to the inode of the first record of the directory
/// that has it, which is not 0. Else the answer is -22 for no directory at all, -20
/// for what is none, the code of a block that cannot be located, and -2.
pub proof fn law_name_leads_to_first_record(img: Image, sb: Superblock, dir: u32, name: Seq<u8>)
    ensures
        ({
            let r = lookup(img, sb, dir, name);
            let inode = inode_numbered(img, sb, dir)->Ok_0;
            let holds = directory_from(img, sb, inode, 0);
            if dir == 0 {
                fails_with(r, -22)
            } else if inode.mode / 4096 != 4 {
                fails_with(r, -20)
            } else {
                match r {
                    Ok(ino) => ino != 0 && exists|i: int|
                        #![trigger holds.records[i]]
                        0 <= i < holds.records.len() && holds.records[i].name == Some(name)
                            && holds.records[i].inode == ino && forall|j: int|
                            0 <= j < i ==> (#[trigger] holds.records[j]).name != Some(name),
                    Err(e) => {
                        &&& forall|i: int|
                            0 <= i < holds.records.len() ==> (#[trigger] holds.records[i]).name
                                != Some(name)
                        &&& e == match holds.error {
                            Some(code) => code,
                            None => -2i32,
                        }
                    },
                }
            }
        }),
{
    if dir != 0 {
        let inode = inode_numbered(img, sb, dir)->Ok_0;
        law_mode_tells_type(inode.mode);
        lemma_found_nonzero(img, sb, inode, name);
        lemma_first_found(directory_from(img, sb, inode, 0).records, name);
    }
}

/// The names of records that are listed: all but those of a directory itself and of
/// its parent.
pub open spec fn visible(records: Seq<DirRecord>) -> Seq<Seq<u8>>
    decreases records.len(),
{
    if records.len() == 0 {
        Seq::empty()
    } else {
        let rest = visible(records.drop_first());
        match records[0].name {
            Some(name) => if name != seq![46u8] && name != seq![46u8, 46u8] {
                seq![name] + rest
            } else {
                rest
            },
            None => rest,
        }
    }
}

/// Names, each with a zero byte behind it.
pub open spec fn ended(names: Seq<Seq<u8>>) -> Seq<u8>
    decreases names.len(),
{
    if names.len() == 0 {
        Seq::empty()
    } else {
        names[0] + seq![0u8] + ended(names.drop_first())
    }
}

/// The names of records are listed in order, each with a zero byte behind it, and
/// as many of them as fit whole in the room that there is.
#[verifier::rlimit(30)]
pub proof fn law_listing_gives_whole_names(records: Seq<DirRecord>, room: int) -> (k: int)
    requires
        0 <= room,
    ensures
        ({
            let names = visible(records);
            let (list, full) = listed(records, room);
            &&& 0 <= k <= names.len()
            &&& list == ended(names.take(k))
            &&& list.len() <= room
            &&& k < names.len() ==> list.len() + names[k].len() + 1 > room
            &&& full <==> k < names.len()
        }),
    decreases records.len(),
{
    let names = visible(records);
    let (list, full) = listed(records, room);
    if records.len() == 0 {
        assert(names.take(0) =~= Seq::<Seq<u8>>::empty());
        0
    } else {
        let rest = records.drop_first();
        let first = records[0];
        assert(dot() =~= seq![46u8] && dot_dot() =~= seq![46u8, 46u8]);
        if !is_listed(first) {
            law_listing_gives_whole_names(rest, room)
        } else {
            let name = first.name->Some_0;
            let line = name.push(0);
            assert(names =~= seq![name] + visible(rest));
            if line.len() > room {
                assert(names.take(0) =~= Seq::<Seq<u8>>::empty());
                0
            } else {
                let k = law_listing_gives_whole_names(rest, room - line.len());
                let taken = names.take(k + 1);
                assert(taken[0] == name);
                assert(taken.drop_first() =~= visible(rest).take(k));
                assert(line =~= name + seq![0u8]);
                if k < visible(rest).len() {
                    assert(names[k + 1] == visible(rest)[k]);
                }
                k + 1
            }
        }
    }
}

/// Listing a path gives the names of the directory that it leads to, and an error
/// only where the list ends for want of a block that can be located. What is no
/// directory is refused with -20.
pub proof fn law_path_is_listed(img: Image, sb: Superblock, path: Seq<u8>, room: int)
    ensures
        ({
            let (list, r) = path_listed(img, sb, path, room);
            match resolved(img, sb, path) {
                Err(e) => list.len() == 0 && fails_with(r, e as int),
                Ok((_, inode)) => if inode.mode / 4096 != 4 {
                    list.len() == 0 && fails_with(r, -20)
                } else {
                    let holds = directory_from(img, sb, inode, 0);
                    let (names, full) = listed(holds.records, room);
                    &&& list == names
                    &&& r is Ok <==> full || holds.error is None
                    &&& r matches Err(e) ==> holds.error == Some(e)
                },
            }
        }),
{
    if let Ok((_, inode)) = resolved(img, sb, path) {
        law_mode_tells_type(inode.mode);
    }
}

} // verus!
