//! A file that was created, written and read.

use vstd::prelude::*;
use crate::bitmap::inode_allocated;
use crate::create::{created, new_inode, node_entered, node_made, wants_directory};
use crate::dir::{dot, dot_dot, lookup, resolved, walk};
use crate::disk::{Image, Region};
use crate::entry::raw_inode;
use crate::laws::creation::{
    is_afforded, is_anchor, is_creatable, is_in_numbering, is_vacant, law_created_is_there,
    lemma_content_covered, lemma_created, lemma_fields_spared, lemma_new_inode, undisturbed,
    with_block,
};
use crate::laws::inode::{is_sound_file, lemma_raw_inode, spared};
use crate::laws::ownership::{
    block_bitmap, in_block, in_inode, is_clean, is_count, is_free, is_laid_out, is_regular,
    lemma_blocks_disjoint, slot, slot_count, table_field,
};
use crate::laws::readback::law_path_reads_back;
use crate::laws::steady::{
    agree_in, covers, is_steady_block, is_steady_content, is_steady_inode, is_steady_path,
    is_steady_walk, lemma_block_of_kept, lemma_directory_kept, lemma_inode_kept, lemma_walk_kept,
};
use crate::laws::storage::{agree_on, lemma_inode_addr_kept};
use crate::layout::{
    block_of, block_span, group_desc_addr, inode_addr, inode_at, inode_in, Superblock, ROOT_INO,
};
use crate::ops::path_read;
use crate::path::{components, law_split_takes_last_component, split};
use crate::write::path_written;

verus! {

/// A region with the blocks of a file.
pub open spec fn with_blocks_of(
    img: Image,
    sb: Superblock,
    reserved: Region,
    raw: Seq<u8>,
) -> Region {
    |a: int|
        reserved(a) || exists|k: int|
            0 <= k < slot_count(sb) && #[trigger] slot(img, sb, raw, k) != 0 && in_block(
                sb,
                slot(img, sb, raw, k),
                a,
            )
}

/// Directories that lie in an unchanged region lie in it still.
proof fn lemma_steady_walk_kept(
    x: Image,
    y: Image,
    sb: Superblock,
    region: Region,
    wider: Region,
    current: u32,
    names: Seq<Seq<u8>>,
)
    requires
        sb.readable(),
        agree_in(x, y, region),
        forall|a: int| #[trigger] region(a) ==> wider(a),
        is_steady_walk(x, sb, region, current, names),
    ensures
        is_steady_walk(y, sb, wider, current, names),
    decreases names.len(),
{
    if names.len() == 0 {
    } else if names[0] == dot() {
        lemma_steady_walk_kept(x, y, sb, region, wider, current, names.drop_first());
    } else if names[0] != dot_dot() {
        let inode = inode_at(x, inode_addr(x, sb, current));
        lemma_inode_kept(x, y, sb, region, current);
        lemma_directory_kept(x, y, sb, region, inode, 0);
        assert(lookup(y, sb, current, names[0]) == lookup(x, sb, current, names[0]));
        assert(is_steady_inode(y, sb, wider, current)) by {
            let t = table_field(sb, current);
            let at = inode_addr(x, sb, current);
            assert forall|a: int| t <= a < t + 4 implies #[trigger] wider(a) by {
                assert(region(a));
            }
            assert forall|a: int| at <= a < at + 100 implies #[trigger] wider(a) by {
                assert(region(a));
            }
        }
        lemma_steady_content_kept(x, y, sb, region, wider, current);
        match lookup(x, sb, current, names[0]) {
            Ok(next) => {
                lemma_steady_walk_kept(x, y, sb, region, wider, next, names.drop_first());
            },
            Err(_) => {},
        }
    }
}

/// Blocks that lie in an unchanged region lie in it still.
proof fn lemma_steady_content_kept(
    x: Image,
    y: Image,
    sb: Superblock,
    region: Region,
    wider: Region,
    ino: u32,
)
    requires
        sb.readable(),
        agree_in(x, y, region),
        forall|a: int| #[trigger] region(a) ==> wider(a),
        is_steady_content(x, sb, region, inode_at(x, inode_addr(x, sb, ino))),
    ensures
        is_steady_content(y, sb, wider, inode_at(x, inode_addr(x, sb, ino))),
{
    let inode = inode_at(x, inode_addr(x, sb, ino));
    let bs = sb.block_size as int;
    if inode.blocks[12] != 0 && block_span(sb, inode.size) > 12 {
        let at = inode.blocks[12] * bs;
        assert forall|a: int| at <= a < at + bs implies #[trigger] wider(a) by {
            assert(region(a));
        }
    }
    assert forall|i: int| 0 <= i < block_span(sb, inode.size) implies is_steady_block(
        wider,
        sb,
        #[trigger] block_of(y, sb, inode, i),
    ) by {
        lemma_block_of_kept(x, y, sb, region, inode, i);
        let block = block_of(x, sb, inode, i);
        assert(is_steady_block(region, sb, block));
        if block is Ok && block->Ok_0 != 0 {
            let at = block->Ok_0 * sb.block_size;
            assert forall|a: int| at <= a < at + sb.block_size implies #[trigger] wider(a) by {
                assert(region(a));
            }
        }
    }
}

/// One more name leads through the directory that the names before it lead to.
proof fn lemma_steady_walk_push(
    img: Image,
    sb: Superblock,
    region: Region,
    current: u32,
    names: Seq<Seq<u8>>,
    name: Seq<u8>,
)
    requires
        is_steady_walk(img, sb, region, current, names),
        walk(img, sb, current, names) is Ok,
        ({
            let dir = walk(img, sb, current, names)->Ok_0;
            &&& is_steady_inode(img, sb, region, dir)
            &&& is_steady_content(img, sb, region, inode_at(img, inode_addr(img, sb, dir)))
        }),
    ensures
        is_steady_walk(img, sb, region, current, names.push(name)),
    decreases names.len(),
{
    let all = names.push(name);
    if names.len() == 0 {
        assert(all.drop_first() =~= Seq::<Seq<u8>>::empty());
        match lookup(img, sb, current, name) {
            Ok(next) => {
                assert(is_steady_walk(img, sb, region, next, all.drop_first()));
            },
            Err(_) => {},
        }
        assert(is_steady_walk(img, sb, region, current, all.drop_first()));
    } else {
        assert(all.drop_first() =~= names.drop_first().push(name));
        assert(all[0] == names[0]);
        if names[0] == dot() {
            lemma_steady_walk_push(img, sb, region, current, names.drop_first(), name);
        } else if names[0] != dot_dot() {
            let next = lookup(img, sb, current, names[0])->Ok_0;
            lemma_steady_walk_push(img, sb, region, next, names.drop_first(), name);
        }
    }
}

/// A new file is sound with the blocks of its directory reserved.
proof fn lemma_new_file_apart(
    img: Image,
    sb: Superblock,
    dir: u32,
    ino: u32,
    reserved: Region,
    mode: u32,
)
    requires
        is_sound_file(img, sb, ino, reserved),
        is_sound_file(img, sb, dir, reserved),
        !wants_directory(mode),
        inode_at(img, inode_addr(img, sb, ino)) == inode_in(new_inode(sb, mode, 0)),
    ensures
        is_sound_file(
            img,
            sb,
            ino,
            with_blocks_of(img, sb, reserved, raw_inode(img, sb, dir)),
        ),
{
    let raw = raw_inode(img, sb, ino);
    let own = raw_inode(img, sb, dir);
    let wider = with_blocks_of(img, sb, reserved, own);
    let fresh = new_inode(sb, mode, 0);
    let gda = group_desc_addr(sb, 0);
    let t = table_field(sb, ino);
    lemma_raw_inode(img, sb, ino);
    lemma_new_inode(img, sb, mode, 0);
    assert forall|k: int| 0 <= k <= 12 implies #[trigger] slot(img, sb, raw, k) == 0 by {
        assert(inode_in(raw).blocks[k] == inode_in(fresh).blocks[k]);
        assert(slot(img, sb, fresh, k) == 0);
    }
    assert(slot(img, sb, raw, 12) == 0);
    assert forall|k: int| 0 <= k < slot_count(sb) implies #[trigger] slot(img, sb, raw, k) == 0 by {}
    assert forall|a: int|
        in_block(sb, block_bitmap(img, sb), a) || is_count(sb, a) || gda <= a < gda + 4 || t <= a
            < t + 4 || in_inode(img, sb, ino, a) implies #[trigger] wider(a) by {
        assert(reserved(a));
    }
    assert forall|b: u32| #[trigger] is_free(img, sb, b) implies b != 0 && is_clean(
        sb,
        wider,
        b,
    ) by {
        assert(is_clean(sb, reserved, b));
        assert forall|a: int| in_block(sb, b, a) implies !#[trigger] wider(a) by {
            assert(!reserved(a));
            assert forall|k: int|
                0 <= k < slot_count(sb) && #[trigger] slot(img, sb, own, k) != 0 implies !in_block(
                sb,
                slot(img, sb, own, k),
                a,
            ) by {
                lemma_blocks_disjoint(sb, b, slot(img, sb, own, k), a);
            }
        }
    }
}

/// A directory lies in what writing to a file in it leaves alone.
proof fn lemma_directory_steady(
    img: Image,
    sb: Superblock,
    dir: u32,
    ino: u32,
    reserved: Region,
)
    requires
        is_sound_file(img, sb, ino, reserved),
        is_sound_file(img, sb, dir, reserved),
        forall|a: int| #[trigger] in_inode(img, sb, ino, a) ==> !is_anchor(img, sb, dir, a),
    ensures
        ({
            let wider = with_blocks_of(img, sb, reserved, raw_inode(img, sb, dir));
            let region = spared(img, sb, ino, wider);
            &&& is_steady_inode(img, sb, region, dir)
            &&& is_steady_content(img, sb, region, inode_at(img, inode_addr(img, sb, dir)))
        }),
{
    let own = raw_inode(img, sb, dir);
    let wider = with_blocks_of(img, sb, reserved, own);
    let region = spared(img, sb, ino, wider);
    let t = table_field(sb, dir);
    let at = inode_addr(img, sb, dir);
    lemma_fields_spared(img, sb, dir, reserved);
    assert forall|a: int| t <= a < t + 4 implies #[trigger] region(a) by {
        assert(reserved(a));
        assert(is_anchor(img, sb, dir, a));
    }
    assert forall|a: int| at <= a < at + 100 implies #[trigger] region(a) by {
        assert(in_inode(img, sb, dir, a));
        assert(reserved(a));
        assert(is_anchor(img, sb, dir, a));
    }
    lemma_raw_inode(img, sb, dir);
    assert forall|k: int| 0 <= k < slot_count(sb) && #[trigger] slot(img, sb, own, k)
        != 0 implies covers(
        region,
        slot(img, sb, own, k) * sb.block_size,
        sb.block_size as int,
    ) by {
        let s = slot(img, sb, own, k);
        assert forall|a: int|
            s * sb.block_size <= a < s * sb.block_size + sb.block_size implies #[trigger] region(
            a,
        ) by {
            assert(in_block(sb, s, a));
            assert(!reserved(a));
            assert(wider(a));
        }
    }
    lemma_content_covered(img, sb, own, region);
}

/// A file that was created on a sound volume reads back what is written to it:
/// where a write to the new file succeeds, a read from the path gives the bytes.
pub proof fn law_created_file_reads_back(
    img: Image,
    sb: Superblock,
    path: Seq<u8>,
    mode: u32,
    reserved: Region,
    offset: u64,
    data: Seq<u8>,
)
    requires
        is_creatable(img, sb, path, reserved),
        is_afforded(img, sb, path, mode),
        !wants_directory(mode),
        data.len() <= usize::MAX,
        path_written(created(img, sb, path, mode).0, sb, path, offset, data).1 is Ok,
    ensures
        ({
            let made = created(img, sb, path, mode).0;
            let (after, r) = path_written(made, sb, path, offset, data);
            &&& r == Ok::<usize, i32>(data.len() as usize)
            &&& path_read(after, sb, path, offset, data.len()) == (data, r)
        }),
{
    let (parent_path, name) = split(path)->Ok_0;
    let (dir, parent) = resolved(img, sb, parent_path)->Ok_0;
    let ino = inode_allocated(img, sb).1->Ok_0;
    let made = created(img, sb, path, mode).0;
    lemma_created_file(img, sb, path, mode, reserved, made);
    let wider = with_blocks_of(made, sb, reserved, raw_inode(made, sb, dir));
    law_path_reads_back(made, sb, path, wider, offset, data);
}

/// A new file on a sound volume is sound with the blocks of its directory
/// reserved, and the directories on the way to it lie in what writing to it
/// leaves alone.
proof fn lemma_created_file(
    img: Image,
    sb: Superblock,
    path: Seq<u8>,
    mode: u32,
    reserved: Region,
    made: Image,
)
    requires
        is_creatable(img, sb, path, reserved),
        is_afforded(img, sb, path, mode),
        !wants_directory(mode),
        made == created(img, sb, path, mode).0,
    ensures
        ({
            let (dir, _) = resolved(img, sb, (split(path)->Ok_0).0)->Ok_0;
            let ino = inode_allocated(img, sb).1->Ok_0;
            let wider = with_blocks_of(made, sb, reserved, raw_inode(made, sb, dir));
            &&& resolved(made, sb, path) is Ok
            &&& (resolved(made, sb, path)->Ok_0).0 == ino
            &&& is_sound_file(made, sb, ino, wider)
            &&& is_steady_path(made, sb, spared(made, sb, ino, wider), path)
        }),
{
    let (parent_path, name) = split(path)->Ok_0;
    let (dir, parent) = resolved(img, sb, parent_path)->Ok_0;
    let ino = inode_allocated(img, sb).1->Ok_0;
    let wider = with_blocks_of(made, sb, reserved, raw_inode(made, sb, dir));
    let region = spared(made, sb, ino, wider);
    let calm = undisturbed(img, sb, dir, ino, reserved);
    law_created_is_there(img, sb, path, mode, reserved, name);
    lemma_new_file_made(img, sb, path, mode, reserved, made);
    lemma_new_file_apart(made, sb, dir, ino, reserved, mode);
    lemma_directory_steady(made, sb, dir, ino, reserved);
    assert forall|a: int| #[trigger] calm(a) implies region(a) by {
        assert(reserved(a));
        assert(wider(a));
    }
    let names = components(parent_path);
    lemma_steady_walk_kept(img, made, sb, calm, region, ROOT_INO, names);
    lemma_walk_kept(img, made, sb, calm, ROOT_INO, names);
    lemma_steady_walk_push(made, sb, region, ROOT_INO, names, name);
    law_split_takes_last_component(path);
}

/// Where the inodes of a new file and of its directory are.
proof fn lemma_new_file_made(
    img: Image,
    sb: Superblock,
    path: Seq<u8>,
    mode: u32,
    reserved: Region,
    made: Image,
)
    requires
        is_creatable(img, sb, path, reserved),
        is_afforded(img, sb, path, mode),
        !wants_directory(mode),
        made == created(img, sb, path, mode).0,
    ensures
        ({
            let (dir, _) = resolved(img, sb, (split(path)->Ok_0).0)->Ok_0;
            let ino = inode_allocated(img, sb).1->Ok_0;
            &&& is_sound_file(made, sb, ino, reserved)
            &&& is_sound_file(made, sb, dir, reserved)
            &&& inode_at(made, inode_addr(made, sb, ino)) == inode_in(new_inode(sb, mode, 0))
            &&& block_bitmap(made, sb) == block_bitmap(img, sb)
            &&& inode_addr(made, sb, ino) == inode_addr(img, sb, ino)
            &&& inode_addr(made, sb, dir) == inode_addr(img, sb, dir)
            &&& forall|a: int|
                #[trigger] in_inode(made, sb, ino, a) ==> !is_anchor(made, sb, dir, a)
        }),
{
    let (parent_path, name) = split(path)->Ok_0;
    let (dir, parent) = resolved(img, sb, parent_path)->Ok_0;
    let (ready, node) = node_made(img, sb, mode, dir);
    let (ino, block) = node->Ok_0;
    let after = node_entered(ready, sb, dir, parent, name, mode, (ino, block)).0;
    lemma_created(img, sb, path, mode, reserved);
    law_created_is_there(img, sb, path, mode, reserved, name);
    assert(made == after);
    assert(with_block(sb, reserved, 0) =~= reserved);
    lemma_places_kept(img, made, sb, dir, ino, reserved);
    assert forall|a: int| #[trigger] in_inode(made, sb, ino, a) implies !is_anchor(
        made,
        sb,
        dir,
        a,
    ) by {
        assert(in_inode(img, sb, ino, a));
        assert(!is_anchor(img, sb, dir, a));
    }
}

/// Creating something leaves everything in its place.
proof fn lemma_places_kept(
    img: Image,
    made: Image,
    sb: Superblock,
    dir: u32,
    ino: u32,
    reserved: Region,
)
    requires
        is_regular(sb),
        is_laid_out(img, sb, dir, reserved),
        is_vacant(img, sb, dir, ino, reserved),
        agree_in(img, made, undisturbed(img, sb, dir, ino, reserved)),
    ensures
        block_bitmap(made, sb) == block_bitmap(img, sb),
        inode_addr(made, sb, ino) == inode_addr(img, sb, ino),
        inode_addr(made, sb, dir) == inode_addr(img, sb, dir),
{
    let calm = undisturbed(img, sb, dir, ino, reserved);
    let gda = group_desc_addr(sb, 0);
    let t = table_field(sb, dir);
    let u = table_field(sb, ino);
    lemma_fields_spared(img, sb, dir, reserved);
    lemma_fields_spared(img, sb, ino, reserved);
    assert forall|a: int|
        gda <= a < gda + 4 || t <= a < t + 4 || u <= a < u + 4 implies #[trigger] calm(a) by {
        assert(reserved(a));
        assert(is_anchor(img, sb, dir, a) || is_anchor(img, sb, ino, a));
        assert(!is_in_numbering(img, sb, a));
        assert(!in_inode(img, sb, ino, a));
        assert(!in_inode(img, sb, dir, a));
    }
    assert(calm(gda) && calm(gda + 1) && calm(gda + 2) && calm(gda + 3));
    assert forall|a: int| t <= a < t + 4 || u <= a < u + 4 implies #[trigger] img(a) == made(a) by {
        assert(calm(a));
    }
    assert(agree_on(img, made, t, 4) && agree_on(img, made, u, 4));
    lemma_inode_addr_kept(img, made, sb, dir);
    lemma_inode_addr_kept(img, made, sb, ino);
}

} // verus!
