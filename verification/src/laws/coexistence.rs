//! What is done at one path leaves what is at other paths alone.

use vstd::prelude::*;
use crate::bitmap::inode_allocated;
use crate::create::{created, node_entered, node_made};
use crate::dir::{dot, dot_dot, lookup, resolved, walk};
use crate::disk::{Image, Region};
use crate::entry::raw_inode;
use crate::laws::creation::{
    is_afforded, is_creatable, law_created_is_there, lemma_created, lemma_name_missing, undisturbed,
};
use crate::laws::ownership::table_field;
use crate::laws::steady::{
    agree_in, is_steady_content, is_steady_inode, is_steady_path, law_unchanged_region,
    lemma_directory_kept, lemma_inode_kept, lemma_target_kept,
};
use crate::laws::storage::inode_apart_from_desc;
use crate::laws::truncation::{is_returnable_file, law_truncated_is_empty, untouched};
use crate::layout::{inode_addr, inode_at, mode_is_file, Superblock, ROOT_INO};
use crate::ops::{path_listed, path_read, path_truncated};
use crate::path::{components, split};

verus! {

/// Whether the directories that a list of names leads through lie in a region,
/// but for one.
pub open spec fn is_steady_walk_but(
    img: Image,
    sb: Superblock,
    region: Region,
    dir: u32,
    current: u32,
    names: Seq<Seq<u8>>,
) -> bool
    decreases names.len(),
{
    if names.len() == 0 {
        true
    } else if names[0] == dot() {
        is_steady_walk_but(img, sb, region, dir, current, names.drop_first())
    } else if names[0] == dot_dot() {
        true
    } else {
        &&& current == dir || is_steady_inode(img, sb, region, current) && is_steady_content(
            img,
            sb,
            region,
            inode_at(img, inode_addr(img, sb, current)),
        )
        &&& match lookup(img, sb, current, names[0]) {
            Ok(next) => is_steady_walk_but(img, sb, region, dir, next, names.drop_first()),
            Err(_) => true,
        }
    }
}

/// A list of names that led somewhere leads there still, after one name was
/// entered into a directory that did not have it.
proof fn lemma_walk_kept_but(
    x: Image,
    y: Image,
    sb: Superblock,
    region: Region,
    dir: u32,
    name: Seq<u8>,
    current: u32,
    names: Seq<Seq<u8>>,
)
    requires
        sb.readable(),
        agree_in(x, y, region),
        is_steady_walk_but(x, sb, region, dir, current, names),
        walk(x, sb, current, names) is Ok,
        lookup(x, sb, dir, name) is Err,
        forall|other: Seq<u8>|
            other != name ==> #[trigger] lookup(y, sb, dir, other) == lookup(x, sb, dir, other),
    ensures
        walk(y, sb, current, names) == walk(x, sb, current, names),
    decreases names.len(),
{
    if names.len() == 0 {
    } else if names[0] == dot() {
        lemma_walk_kept_but(x, y, sb, region, dir, name, current, names.drop_first());
    } else if names[0] != dot_dot() {
        if current != dir {
            let inode = inode_at(x, inode_addr(x, sb, current));
            lemma_inode_kept(x, y, sb, region, current);
            lemma_directory_kept(x, y, sb, region, inode, 0);
        }
        assert(lookup(y, sb, current, names[0]) == lookup(x, sb, current, names[0]));
        let next = lookup(x, sb, current, names[0])->Ok_0;
        lemma_walk_kept_but(x, y, sb, region, dir, name, next, names.drop_first());
    }
}

/// Creating something changes nothing at a path that led somewhere before, not
/// even where that path leads through the directory that the new name is entered
/// into: it leads to the same inode, reads the same and lists the same. Asked for
/// is that the other directories on the way, the inode and its blocks lie in what
/// creating leaves alone.
#[verifier::rlimit(30)]
pub proof fn law_create_keeps_other_paths(
    img: Image,
    sb: Superblock,
    path: Seq<u8>,
    mode: u32,
    reserved: Region,
    other: Seq<u8>,
    from: u64,
    len: nat,
    room: int,
)
    requires
        is_creatable(img, sb, path, reserved),
        is_afforded(img, sb, path, mode),
        resolved(img, sb, other) is Ok,
        ({
            let (dir, _) = resolved(img, sb, (split(path)->Ok_0).0)->Ok_0;
            let region = undisturbed(img, sb, dir, inode_allocated(img, sb).1->Ok_0, reserved);
            let (ino, inode) = resolved(img, sb, other)->Ok_0;
            &&& is_steady_walk_but(img, sb, region, dir, ROOT_INO, components(other))
            &&& is_steady_inode(img, sb, region, ino)
            &&& is_steady_content(img, sb, region, inode)
        }),
    ensures
        ({
            let after = created(img, sb, path, mode).0;
            &&& resolved(after, sb, other) == resolved(img, sb, other)
            &&& path_read(after, sb, other, from, len) == path_read(img, sb, other, from, len)
            &&& path_listed(after, sb, other, room) == path_listed(img, sb, other, room)
        }),
{
    let (parent_path, name) = split(path)->Ok_0;
    let (dir, parent) = resolved(img, sb, parent_path)->Ok_0;
    let (ready, node) = node_made(img, sb, mode, dir);
    let (ino, block) = node->Ok_0;
    let after = node_entered(ready, sb, dir, parent, name, mode, (ino, block)).0;
    let region = undisturbed(img, sb, dir, ino, reserved);
    lemma_created(img, sb, path, mode, reserved);
    law_created_is_there(img, sb, path, mode, reserved, name);
    lemma_name_missing(img, sb, path);
    lemma_walk_kept_but(img, after, sb, region, dir, name, ROOT_INO, components(other));
    assert(created(img, sb, path, mode).0 == after);
    lemma_target_kept(img, after, sb, region, other, from, len, room);
}

/// Emptying the file at one path changes nothing at another path whose
/// directories, inode and blocks lie in what emptying leaves alone: it leads to
/// the same inode, reads the same and lists the same.
pub proof fn law_truncate_keeps_other_paths(
    img: Image,
    sb: Superblock,
    path: Seq<u8>,
    area: Region,
    counts: Region,
    other: Seq<u8>,
    from: u64,
    len: nat,
    room: int,
)
    requires
        sb.readable(),
        100 <= sb.inode_size <= 512,
        resolved(img, sb, path) is Ok,
        ({
            let (ino, inode) = resolved(img, sb, path)->Ok_0;
            &&& mode_is_file(inode.mode)
            &&& is_returnable_file(img, sb, raw_inode(img, sb, ino), area, counts)
            &&& inode_apart_from_desc(img, sb, ino)
            &&& forall|a: int|
                table_field(sb, ino) <= a < table_field(sb, ino) + 4 ==> !#[trigger] area(a)
            &&& is_steady_path(img, sb, untouched(img, sb, ino, area), path)
        }),
        resolved(img, sb, other) is Ok,
        ({
            let region = untouched(img, sb, (resolved(img, sb, path)->Ok_0).0, area);
            let (ino, inode) = resolved(img, sb, other)->Ok_0;
            &&& is_steady_path(img, sb, region, other)
            &&& is_steady_inode(img, sb, region, ino)
            &&& is_steady_content(img, sb, region, inode)
        }),
    ensures
        ({
            let after = path_truncated(img, sb, path, 0).0;
            &&& resolved(after, sb, other) == resolved(img, sb, other)
            &&& path_read(after, sb, other, from, len) == path_read(img, sb, other, from, len)
            &&& path_listed(after, sb, other, room) == path_listed(img, sb, other, room)
        }),
{
    let (ino, _) = resolved(img, sb, path)->Ok_0;
    let after = path_truncated(img, sb, path, 0).0;
    law_truncated_is_empty(img, sb, path, area, counts, 0, 0, 0);
    law_unchanged_region(img, after, sb, untouched(img, sb, ino, area), other, from, len, room);
}

} // verus!
