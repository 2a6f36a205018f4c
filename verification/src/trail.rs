//! Which addresses of a disk a sequence of stores can change, whatever comes of
//! them.

use vstd::prelude::*;
use crate::bitmap::{SB_FREE_BLOCKS, SB_FREE_INODES};
use crate::disk::{is_touched, is_within, joined, patched, stretch, Image, Medium, Region};
use crate::layout::{
    block_of, block_span, group_desc_addr, group_desc_at, inode_addr, InodeView, Superblock,
};
use crate::state::{is_cut_short, is_ended};

verus! {

/// Something that an operation stores to.
pub enum Place {
    /// The inode bitmap of a group and the counts of free inodes.
    Numbers(u32),
    /// The block bitmap of a group and the counts of free blocks.
    Blocks(u32),
    /// A block.
    Block(u32),
    /// An inode.
    Inode(u32),
    /// The blocks of a directory.
    Records(InodeView),
}

/// The addresses of a block.
pub open spec fn block_stretch(sb: Superblock, block: u32) -> Region {
    stretch(block * sb.block_size, sb.block_size as int)
}

/// The addresses of a place, as the disk locates it.
pub open spec fn area(img: Image, sb: Superblock, place: Place) -> Region {
    match place {
        Place::Numbers(group) => |a: int|
            block_stretch(sb, group_desc_at(img, sb, group).inode_bitmap)(a) || stretch(
                SB_FREE_INODES as int,
                2,
            )(a) || stretch(group_desc_addr(sb, group) + 14, 2)(a),
        Place::Blocks(group) => |a: int|
            block_stretch(sb, group_desc_at(img, sb, group).block_bitmap)(a) || stretch(
                SB_FREE_BLOCKS as int,
                2,
            )(a) || stretch(group_desc_addr(sb, group) + 12, 2)(a),
        Place::Block(block) => block_stretch(sb, block),
        Place::Inode(ino) => stretch(inode_addr(img, sb, ino), sb.inode_size as int),
        Place::Records(inode) => |a: int|
            exists|i: int|
                0 <= i < block_span(sb, inode.size) && is_in_block_of(img, sb, inode, i, a),
    }
}

/// Whether an address lies in block `i` of a directory.
pub open spec fn is_in_block_of(
    img: Image,
    sb: Superblock,
    inode: InodeView,
    i: int,
    a: int,
) -> bool {
    let block = block_of(img, sb, inode, i);
    block is Ok && block->Ok_0 != 0 && block_stretch(sb, block->Ok_0)(a)
}

/// Whether a disk came from another by changes to some places, one after the
/// other, each as the disk located it by then.
pub open spec fn is_confined(x: Medium, y: Medium, sb: Superblock, trail: Seq<Place>) -> bool
    decreases trail.len(),
{
    if trail.len() == 0 {
        x == y
    } else {
        exists|m: Medium| #[trigger]
            is_touched(x, m, area(x.image, sb, trail[0])) && is_confined(
                m,
                y,
                sb,
                trail.drop_first(),
            )
    }
}

/// No change is confined to anything.
pub proof fn lemma_confined_none(x: Medium, sb: Superblock, trail: Seq<Place>)
    ensures
        is_confined(x, x, sb, trail),
    decreases trail.len(),
{
    if trail.len() > 0 {
        lemma_confined_none(x, sb, trail.drop_first());
        assert(is_touched(x, x, area(x.image, sb, trail[0])));
    }
}

/// Changes to one place are confined to it.
pub proof fn lemma_confined_one(x: Medium, y: Medium, sb: Superblock, place: Place)
    requires
        is_touched(x, y, area(x.image, sb, place)),
    ensures
        is_confined(x, y, sb, seq![place]),
{
    let trail = seq![place];
    assert(trail.drop_first() =~= Seq::<Place>::empty());
    assert(is_confined(y, y, sb, trail.drop_first()));
    assert(is_touched(x, y, area(x.image, sb, trail[0])));
}

/// Changes along one trail and then along another are changes along both.
pub proof fn lemma_confined_concat(
    x: Medium,
    m: Medium,
    y: Medium,
    sb: Superblock,
    first: Seq<Place>,
    then_on: Seq<Place>,
)
    requires
        is_confined(x, m, sb, first),
        is_confined(m, y, sb, then_on),
    ensures
        is_confined(x, y, sb, first + then_on),
    decreases first.len(),
{
    if first.len() == 0 {
        assert(first + then_on =~= then_on);
    } else {
        let k = choose|k: Medium| #[trigger]
            is_touched(x, k, area(x.image, sb, first[0])) && is_confined(
                k,
                m,
                sb,
                first.drop_first(),
            );
        lemma_confined_concat(k, m, y, sb, first.drop_first(), then_on);
        assert((first + then_on).drop_first() =~= first.drop_first() + then_on);
        assert((first + then_on)[0] == first[0]);
    }
}

/// Changes to the first place of a trail, and to no other.
pub proof fn lemma_first_place(x: Medium, y: Medium, sb: Superblock, trail: Seq<Place>)
    requires
        trail.len() > 0,
        is_touched(x, y, area(x.image, sb, trail[0])),
    ensures
        is_confined(x, y, sb, trail),
{
    lemma_confined_none(y, sb, trail.drop_first());
}

/// Changes along the start of a trail.
pub proof fn lemma_confined_start(
    x: Medium,
    y: Medium,
    sb: Superblock,
    first: Seq<Place>,
    then_on: Seq<Place>,
)
    requires
        is_confined(x, y, sb, first),
    ensures
        is_confined(x, y, sb, first + then_on),
{
    lemma_confined_none(y, sb, then_on);
    lemma_confined_concat(x, y, y, sb, first, then_on);
}

/// Changes to the place behind those of a trail.
pub proof fn lemma_confined_push(
    x: Medium,
    m: Medium,
    y: Medium,
    sb: Superblock,
    trail: Seq<Place>,
    place: Place,
)
    requires
        is_confined(x, m, sb, trail),
        is_touched(m, y, area(m.image, sb, place)),
    ensures
        is_confined(x, y, sb, trail + seq![place]),
{
    lemma_confined_one(m, y, sb, place);
    lemma_confined_concat(x, m, y, sb, trail, seq![place]);
}

/// Changes to a 32-bit number in a block are changes to the block.
pub proof fn lemma_entry_touched(x: Medium, y: Medium, sb: Superblock, block: u32, index: int)
    requires
        0 <= index < sb.block_size / 4,
        is_touched(x, y, stretch(block * sb.block_size + 4 * index, 4)),
    ensures
        is_touched(x, y, block_stretch(sb, block)),
{
    let number = joined(stretch(block * sb.block_size + 4 * index, 4), y.torn);
    let region = joined(block_stretch(sb, block), y.torn);
    assert forall|a: int| !region(a) implies #[trigger] (x.image)(a) == (y.image)(a) by {
        assert(!number(a));
    }
}

/// Changes to two places, one after the other.
pub proof fn lemma_two_places(
    x: Medium,
    m: Medium,
    y: Medium,
    sb: Superblock,
    first: Place,
    second: Place,
)
    requires
        is_touched(x, m, area(x.image, sb, first)),
        is_touched(m, y, area(m.image, sb, second)),
    ensures
        is_confined(x, y, sb, seq![first, second]),
{
    lemma_confined_one(x, m, sb, first);
    lemma_confined_push(x, m, y, sb, seq![first], second);
    assert(seq![first] + seq![second] =~= seq![first, second]);
}

/// Changes to three places, one after the other.
pub proof fn lemma_three_places(
    x: Medium,
    m: Medium,
    n: Medium,
    y: Medium,
    sb: Superblock,
    trail: Seq<Place>,
)
    requires
        trail.len() == 3,
        is_touched(x, m, area(x.image, sb, trail[0])),
        is_touched(m, n, area(m.image, sb, trail[1])),
        is_touched(n, y, area(n.image, sb, trail[2])),
    ensures
        is_confined(x, y, sb, trail),
{
    lemma_two_places(x, m, n, sb, trail[0], trail[1]);
    lemma_confined_push(x, n, y, sb, seq![trail[0], trail[1]], trail[2]);
    assert(seq![trail[0], trail[1]] + seq![trail[2]] =~= trail);
}

/// A store changes nothing but its bytes and what is torn, even if it is cut short.
pub proof fn lemma_store_touches(before: Medium, after: Medium, at: int, data: Seq<u8>)
    requires
        after.image == patched(before.image, at, data) || is_cut_short(before, after, at, data),
        is_within(before.torn, after.torn),
    ensures
        is_touched(before, after, stretch(at, data.len() as int)),
{
    let region = joined(stretch(at, data.len() as int), after.torn);
    if after.image != patched(before.image, at, data) {
        let n = choose|n: int|
            0 <= n < data.len() && is_ended(before, after, at, #[trigger] data.take(n));
        let there = patched(before.image, at, data.take(n));
        assert forall|a: int| !region(a) implies #[trigger] (before.image)(a) == (after.image)(
            a,
        ) by {
            assert(there(a) == (before.image)(a));
        }
    }
}

} // verus!
