//! Files and directories that lie in an unchanged part of a disk are unchanged.

use vstd::arithmetic::div_mod::{lemma_fundamental_div_mod, lemma_mod_bound};
use vstd::prelude::*;
use crate::dir::{directory_from, dot, dot_dot, lookup, resolved, walk};
use crate::disk::{Image, Region};
use crate::file::{file_data, file_read, read_end};
use crate::laws::ownership::table_field;
use crate::laws::storage::{agree_on, lemma_inode_addr_kept};
use crate::layout::{
    block_bytes, block_of, block_span, inode_addr, inode_at, inode_numbered, InodeView, Superblock,
    ROOT_INO,
};
use crate::ops::{path_listed, path_read};
use crate::path::{components, is_absolute, law_split_takes_last_component, split};

verus! {

/// Whether all addresses of a range lie in a region.
pub open spec fn covers(region: Region, at: int, len: int) -> bool {
    forall|a: int| at <= a < at + len ==> #[trigger] region(a)
}

/// Whether two images agree on a region.
pub open spec fn agree_in(x: Image, y: Image, region: Region) -> bool {
    forall|a: int| #[trigger] region(a) ==> x(a) == y(a)
}

/// Whether the inode of a number lies in a region, and the field that locates
/// it.
pub open spec fn is_steady_inode(img: Image, sb: Superblock, region: Region, ino: u32) -> bool {
    &&& covers(region, table_field(sb, ino), 4)
    &&& covers(region, inode_addr(img, sb, ino), 100)
}

/// Whether the blocks of a file or directory lie in a region.
pub open spec fn is_steady_content(
    img: Image,
    sb: Superblock,
    region: Region,
    inode: InodeView,
) -> bool {
    let bs = sb.block_size as int;
    &&& inode.blocks[12] != 0 && block_span(sb, inode.size) > 12 ==> covers(
        region,
        inode.blocks[12] * bs,
        bs,
    )
    &&& forall|i: int|
        0 <= i < block_span(sb, inode.size) ==> is_steady_block(
            region,
            sb,
            #[trigger] block_of(img, sb, inode, i),
        )
}

/// Whether a block, where there is one, lies in a region.
pub open spec fn is_steady_block(region: Region, sb: Superblock, block: Result<u32, i32>) -> bool {
    block is Ok && block->Ok_0 != 0 ==> covers(
        region,
        block->Ok_0 * sb.block_size,
        sb.block_size as int,
    )
}

/// Whether the directories that a list of names leads through lie in a region.
pub open spec fn is_steady_walk(
    img: Image,
    sb: Superblock,
    region: Region,
    current: u32,
    names: Seq<Seq<u8>>,
) -> bool
    decreases names.len(),
{
    if names.len() == 0 {
        true
    } else if names[0] == dot() {
        is_steady_walk(img, sb, region, current, names.drop_first())
    } else if names[0] == dot_dot() {
        true
    } else {
        &&& is_steady_inode(img, sb, region, current)
        &&& is_steady_content(img, sb, region, inode_at(img, inode_addr(img, sb, current)))
        &&& match lookup(img, sb, current, names[0]) {
            Ok(next) => is_steady_walk(img, sb, region, next, names.drop_first()),
            Err(_) => true,
        }
    }
}

/// Whether the directories that a path leads through lie in a region.
pub open spec fn is_steady_path(img: Image, sb: Superblock, region: Region, path: Seq<u8>) -> bool {
    is_steady_walk(img, sb, region, ROOT_INO, components(path))
}

/// The inode of a number is what it was.
pub proof fn lemma_inode_kept(x: Image, y: Image, sb: Superblock, region: Region, ino: u32)
    requires
        agree_in(x, y, region),
        is_steady_inode(x, sb, region, ino),
    ensures
        inode_addr(y, sb, ino) == inode_addr(x, sb, ino),
        inode_at(y, inode_addr(y, sb, ino)) == inode_at(x, inode_addr(x, sb, ino)),
        inode_numbered(y, sb, ino) == inode_numbered(x, sb, ino),
{
    let t = table_field(sb, ino);
    assert forall|a: int| t <= a < t + 4 implies #[trigger] x(a) == y(a) by {
        assert(region(a));
    }
    assert(agree_on(x, y, t, 4));
    lemma_inode_addr_kept(x, y, sb, ino);
    let at = inode_addr(x, sb, ino);
    assert forall|i: int| 0 <= i < 100 implies #[trigger] x(at + i) == y(at + i) by {
        assert(region(at + i));
    }
    let p = inode_at(x, at);
    let q = inode_at(y, at);
    assert forall|i: int| 0 <= i < 15 implies p.blocks[i] == q.blocks[i] by {
        let k = 40 + 4 * i;
        assert(x(at + k) == y(at + k) && x(at + (k + 1)) == y(at + (k + 1)) && x(at + (k + 2)) == y(
            at + (k + 2),
        ) && x(at + (k + 3)) == y(at + (k + 3)));
    }
    assert(x(at + 0) == y(at + 0) && x(at + 1) == y(at + 1));
    assert(x(at + 4) == y(at + 4) && x(at + 5) == y(at + 5) && x(at + 6) == y(at + 6) && x(at + 7)
        == y(at + 7));
    assert(p =~= q);
}

/// The blocks of a file or directory are where they were.
pub proof fn lemma_block_of_kept(
    x: Image,
    y: Image,
    sb: Superblock,
    region: Region,
    inode: InodeView,
    i: int,
)
    requires
        sb.readable(),
        agree_in(x, y, region),
        is_steady_content(x, sb, region, inode),
        0 <= i < block_span(sb, inode.size),
    ensures
        block_of(y, sb, inode, i) == block_of(x, sb, inode, i),
{
    if 12 <= i < 12 + sb.block_size / 4 && inode.blocks[12] != 0 {
        let at = inode.blocks[12] * sb.block_size + 4 * (i - 12);
        assert(region(at) && region(at + 1) && region(at + 2) && region(at + 3));
    }
}

/// A block that lies in the unchanged region holds what it held.
proof fn lemma_block_bytes_kept(x: Image, y: Image, sb: Superblock, region: Region, block: u32)
    requires
        agree_in(x, y, region),
        covers(region, block * sb.block_size, sb.block_size as int),
    ensures
        block_bytes(y, sb, block) == block_bytes(x, sb, block),
{
    let at = block * sb.block_size;
    assert forall|i: int| 0 <= i < sb.block_size implies #[trigger] x(at + i) == y(at + i) by {
        assert(region(at + i));
    }
    assert(block_bytes(y, sb, block) =~= block_bytes(x, sb, block));
}

/// A directory holds what it held.
pub proof fn lemma_directory_kept(
    x: Image,
    y: Image,
    sb: Superblock,
    region: Region,
    inode: InodeView,
    index: int,
)
    requires
        sb.readable(),
        agree_in(x, y, region),
        is_steady_content(x, sb, region, inode),
        0 <= index,
    ensures
        directory_from(y, sb, inode, index) == directory_from(x, sb, inode, index),
    decreases block_span(sb, inode.size) - index,
{
    if index < block_span(sb, inode.size) {
        lemma_directory_kept(x, y, sb, region, inode, index + 1);
        lemma_block_of_kept(x, y, sb, region, inode, index);
        let block = block_of(x, sb, inode, index);
        assert(is_steady_block(region, sb, block));
        if block is Ok && block->Ok_0 != 0 {
            lemma_block_bytes_kept(x, y, sb, region, block->Ok_0);
        }
    }
}

/// An index below the end of a file lies in one of the blocks that it spans.
pub proof fn lemma_index_in_span(sb: Superblock, size: u32, pos: int)
    requires
        sb.block_size != 0,
        0 <= pos < size,
    ensures
        0 <= pos / (sb.block_size as int) < block_span(sb, size),
{
    let bs = sb.block_size as int;
    lemma_fundamental_div_mod(pos, bs);
    lemma_mod_bound(pos, bs);
    lemma_fundamental_div_mod(size + bs - 1, bs);
    lemma_mod_bound(size + bs - 1, bs);
    let q = pos / bs;
    let n = block_span(sb, size);
    assert(0 <= q < n) by (nonlinear_arith)
        requires
            pos == bs * q + pos % bs,
            0 <= pos % bs < bs,
            size + bs - 1 == bs * n + (size + bs - 1) % bs,
            0 <= (size + bs - 1) % bs < bs,
            0 <= pos < size,
            bs > 0,
    ;
}

/// A file reads as it did.
proof fn lemma_file_data_kept(
    x: Image,
    y: Image,
    sb: Superblock,
    region: Region,
    inode: InodeView,
    pos: int,
    end: int,
)
    requires
        sb.readable(),
        agree_in(x, y, region),
        is_steady_content(x, sb, region, inode),
        0 <= pos,
        end <= inode.size,
    ensures
        file_data(y, sb, inode, pos, end) == file_data(x, sb, inode, pos, end),
    decreases end - pos,
{
    if pos < end {
        let bs = sb.block_size as int;
        lemma_file_data_kept(x, y, sb, region, inode, pos + 1, end);
        lemma_index_in_span(sb, inode.size, pos);
        lemma_block_of_kept(x, y, sb, region, inode, pos / bs);
        let block = block_of(x, sb, inode, pos / bs);
        assert(is_steady_block(region, sb, block));
        lemma_mod_bound(pos, bs);
        if block is Ok && block->Ok_0 != 0 {
            assert(region(block->Ok_0 * sb.block_size + pos % bs));
        }
    }
}

/// A list of names leads where it led.
pub proof fn lemma_walk_kept(
    x: Image,
    y: Image,
    sb: Superblock,
    region: Region,
    current: u32,
    names: Seq<Seq<u8>>,
)
    requires
        sb.readable(),
        agree_in(x, y, region),
        is_steady_walk(x, sb, region, current, names),
    ensures
        walk(y, sb, current, names) == walk(x, sb, current, names),
    decreases names.len(),
{
    if names.len() == 0 {
    } else if names[0] == dot() {
        lemma_walk_kept(x, y, sb, region, current, names.drop_first());
    } else if names[0] != dot_dot() {
        let inode = inode_at(x, inode_addr(x, sb, current));
        lemma_inode_kept(x, y, sb, region, current);
        lemma_directory_kept(x, y, sb, region, inode, 0);
        assert(lookup(y, sb, current, names[0]) == lookup(x, sb, current, names[0]));
        match lookup(x, sb, current, names[0]) {
            Ok(next) => {
                lemma_walk_kept(x, y, sb, region, next, names.drop_first());
            },
            Err(_) => {},
        }
    }
}

/// A list of names with one more leads where that name leads in the directory
/// that the list leads to.
proof fn lemma_walk_push(
    img: Image,
    sb: Superblock,
    current: u32,
    names: Seq<Seq<u8>>,
    name: Seq<u8>,
)
    requires
        name != dot(),
        name != dot_dot(),
    ensures
        walk(img, sb, current, names.push(name)) == match walk(img, sb, current, names) {
            Ok(dir) => lookup(img, sb, dir, name),
            Err(e) => Err(e),
        },
    decreases names.len(),
{
    let all = names.push(name);
    if names.len() == 0 {
        assert(all.drop_first() =~= Seq::<Seq<u8>>::empty());
        match lookup(img, sb, current, name) {
            Ok(next) => {
                assert(walk(img, sb, next, all.drop_first()) == Ok::<u32, i32>(next));
            },
            Err(_) => {},
        }
    } else {
        assert(all.drop_first() =~= names.drop_first().push(name));
        assert(all[0] == names[0]);
        if names[0] == dot() {
            lemma_walk_push(img, sb, current, names.drop_first(), name);
        } else if names[0] != dot_dot() {
            match lookup(img, sb, current, names[0]) {
                Ok(next) => {
                    lemma_walk_push(img, sb, next, names.drop_first(), name);
                },
                Err(_) => {},
            }
        }
    }
}

/// A path leads where its last component leads in the directory that the path
/// before it leads to.
pub proof fn law_path_leads_through_parent(img: Image, sb: Superblock, path: Seq<u8>)
    requires
        split(path) is Ok,
        (split(path)->Ok_0).1 != dot(),
        (split(path)->Ok_0).1 != dot_dot(),
    ensures
        ({
            let (parent, name) = split(path)->Ok_0;
            walk(img, sb, ROOT_INO, components(path)) == match walk(
                img,
                sb,
                ROOT_INO,
                components(parent),
            ) {
                Ok(dir) => lookup(img, sb, dir, name),
                Err(e) => Err(e),
            }
        }),
{
    let (parent, name) = split(path)->Ok_0;
    law_split_takes_last_component(path);
    lemma_walk_push(img, sb, ROOT_INO, components(parent), name);
}

/// Where a path leads where it led, to an inode in an unchanged part of a disk,
/// that inode is unchanged. Where its blocks lie there too, reading the file and
/// listing the directory give what they gave.
pub proof fn lemma_target_kept(
    x: Image,
    y: Image,
    sb: Superblock,
    region: Region,
    path: Seq<u8>,
    offset: u64,
    len: nat,
    room: int,
)
    requires
        sb.readable(),
        agree_in(x, y, region),
        is_absolute(path) ==> walk(y, sb, ROOT_INO, components(path)) == walk(
            x,
            sb,
            ROOT_INO,
            components(path),
        ),
        resolved(x, sb, path) is Ok ==> is_steady_inode(
            x,
            sb,
            region,
            (resolved(x, sb, path)->Ok_0).0,
        ),
    ensures
        resolved(y, sb, path) == resolved(x, sb, path),
        resolved(x, sb, path) is Ok && is_steady_content(
            x,
            sb,
            region,
            (resolved(x, sb, path)->Ok_0).1,
        ) ==> {
            &&& path_read(y, sb, path, offset, len) == path_read(x, sb, path, offset, len)
            &&& path_listed(y, sb, path, room) == path_listed(x, sb, path, room)
        },
{
    if is_absolute(path) {
        match resolved(x, sb, path) {
            Err(_) => {
                // Only a number below 1 is not that of an inode.
                assert(resolved(y, sb, path) == resolved(x, sb, path));
            },
            Ok((ino, inode)) => {
                lemma_inode_kept(x, y, sb, region, ino);
                if is_steady_content(x, sb, region, inode) {
                    lemma_directory_kept(x, y, sb, region, inode, 0);
                    lemma_file_data_kept(
                        x,
                        y,
                        sb,
                        region,
                        inode,
                        offset as int,
                        read_end(inode, offset, len),
                    );
                    assert(file_read(y, sb, inode, offset, len) == file_read(
                        x,
                        sb,
                        inode,
                        offset,
                        len,
                    ));
                }
            },
        }
    }
}

/// What lies in an unchanged part of a disk is unchanged. A path whose
/// directories, and the inode that it leads to, lie there leads to that inode
/// still. Where the blocks of that inode lie there too, reading the file and
/// listing the directory give what they gave.
pub proof fn law_unchanged_region(
    x: Image,
    y: Image,
    sb: Superblock,
    region: Region,
    path: Seq<u8>,
    offset: u64,
    len: nat,
    room: int,
)
    requires
        sb.readable(),
        agree_in(x, y, region),
        is_steady_path(x, sb, region, path),
        resolved(x, sb, path) is Ok ==> is_steady_inode(
            x,
            sb,
            region,
            (resolved(x, sb, path)->Ok_0).0,
        ),
    ensures
        resolved(y, sb, path) == resolved(x, sb, path),
        resolved(x, sb, path) is Ok && is_steady_content(
            x,
            sb,
            region,
            (resolved(x, sb, path)->Ok_0).1,
        ) ==> {
            &&& path_read(y, sb, path, offset, len) == path_read(x, sb, path, offset, len)
            &&& path_listed(y, sb, path, room) == path_listed(x, sb, path, room)
        },
{
    if is_absolute(path) {
        lemma_walk_kept(x, y, sb, region, ROOT_INO, components(path));
    }
    lemma_target_kept(x, y, sb, region, path, offset, len, room);
}

} // verus!
