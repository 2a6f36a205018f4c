//! Which blocks belong to a file: attaching them to its inode and giving them
//! back.

use vstd::prelude::*;
use crate::abi::ENOSYS;
use crate::bitmap::{block_allocated, block_freed, blocks_bounded};
use crate::codec::{get_u32, le32_bytes, put_u32, seq_u32, set_u32, zeros};
use crate::disk::{is_touched, patched, Image, McxDiskOps, Medium};
use crate::layout::{
    block_of, block_stored, inode_blocks_512, inode_in, is_indirect, load_inode_from_raw,
    set_inode_block_ptr, set_inode_blocks_512, Superblock, MAX_BLOCK_SIZE,
};
use crate::state::{u32_at, State};
use crate::trail::{
    area, block_stretch, is_confined, lemma_confined_concat, lemma_confined_none,
    lemma_confined_push, lemma_confined_start, lemma_entry_touched, lemma_first_place,
    lemma_three_places, lemma_two_places, Place,
};

verus! {

/// The sum of two 32-bit numbers, modulo 2^32.
pub open spec fn wrapped_sum(a: u32, b: u32) -> u32 {
    ((a + b) % 0x1_0000_0000) as u32
}

/// An inode that accounts for one more block.
pub open spec fn charged(sb: Superblock, raw: Seq<u8>) -> Seq<u8> {
    put_u32(raw, 28, wrapped_sum(seq_u32(raw, 28), sb.block_size / 512))
}

/// Where an inode keeps the number of its indirect block.
pub open spec fn indirect_ptr() -> int {
    88
}

/// Makes `value` block `index` of the file of the inode `raw`: what becomes of
/// the disk and of the inode.
pub open spec fn block_pointed(
    img: Image,
    sb: Superblock,
    raw: Seq<u8>,
    index: int,
    value: u32,
) -> (Image, Seq<u8>, Result<(), i32>) {
    let indirect = seq_u32(raw, indirect_ptr());
    if index < 12 {
        (img, put_u32(raw, 40 + 4 * index, value), Ok(()))
    } else if index - 12 >= sb.block_size / 4 {
        (img, raw, Err(ENOSYS))
    } else if indirect != 0 {
        (entry_pointed(img, sb, indirect, index - 12, value), raw, Ok(()))
    } else {
        match block_allocated(img, sb) {
            (img1, Err(e)) => (img1, raw, Err(e)),
            (img1, Ok(block)) => (
                entry_pointed(
                    block_stored(img1, sb, block, zeros(MAX_BLOCK_SIZE as nat)),
                    sb,
                    block,
                    index - 12,
                    value,
                ),
                charged(sb, put_u32(raw, indirect_ptr(), block)),
                Ok(()),
            ),
        }
    }
}

/// What making a block one of a file stores to: the indirect block, where its
/// number goes there, and before that the bitmap and the new indirect block, where
/// the file has none yet.
pub open spec fn pointed_trail(img: Image, sb: Superblock, raw: Seq<u8>, index: int) -> Seq<
    Place,
> {
    let indirect = seq_u32(raw, indirect_ptr());
    if !(12 <= index < 12 + sb.block_size / 4) {
        Seq::empty()
    } else if indirect != 0 {
        seq![Place::Block(indirect)]
    } else {
        match block_allocated(img, sb).1 {
            Err(_) => seq![Place::Blocks(0)],
            Ok(block) => seq![Place::Blocks(0), Place::Block(block), Place::Block(block)],
        }
    }
}

/// The disk with one entry of an indirect block set.
pub open spec fn entry_pointed(
    img: Image,
    sb: Superblock,
    indirect: u32,
    index: int,
    value: u32,
) -> Image {
    patched(img, indirect * sb.block_size + 4 * index, le32_bytes(value))
}

/// Gives the file of the inode `raw` a block `index`, a new one full of zeros
/// where it has none: what becomes of the disk and of the inode, and the block.
pub open spec fn block_ensured(img: Image, sb: Superblock, raw: Seq<u8>, index: int) -> (
    Image,
    Seq<u8>,
    Result<u32, i32>,
) {
    match block_of(img, sb, inode_in(raw), index) {
        Err(e) => (img, raw, Err(e)),
        Ok(existing) => if existing != 0 {
            (img, raw, Ok(existing))
        } else {
            match block_allocated(img, sb) {
                (img1, Err(e)) => (img1, raw, Err(e)),
                (img1, Ok(block)) => {
                    let img2 = block_stored(img1, sb, block, zeros(MAX_BLOCK_SIZE as nat));
                    match block_pointed(img2, sb, raw, index, block) {
                        (img3, raw3, Err(e)) => (img3, raw3, Err(e)),
                        (img3, raw3, Ok(_)) => (img3, charged(sb, raw3), Ok(block)),
                    }
                },
            }
        },
    }
}

/// What giving a file a block stores to: nothing where it has the block, else the
/// bitmap, the new block, and what making it one of the file stores to.
pub open spec fn ensured_trail(img: Image, sb: Superblock, raw: Seq<u8>, index: int) -> Seq<
    Place,
> {
    if !is_missing(img, sb, raw, index) {
        Seq::empty()
    } else {
        match block_allocated(img, sb) {
            (_, Err(_)) => seq![Place::Blocks(0)],
            (img1, Ok(block)) => seq![Place::Blocks(0), Place::Block(block)] + pointed_trail(
                block_stored(img1, sb, block, zeros(MAX_BLOCK_SIZE as nat)),
                sb,
                raw,
                index,
            ),
        }
    }
}

/// Whether an inode is as it was or as giving its file a block makes it, but for
/// the block that it is to account for.
pub open spec fn is_ensured(sb: Superblock, raw: Seq<u8>, now: Seq<u8>, want: Seq<u8>) -> bool {
    now == raw || now == want || charged(sb, now) == want
}

/// The inode `raw` without its first `i` block numbers.
pub open spec fn cleared(raw: Seq<u8>, ptrs: Seq<u32>, i: int) -> Seq<u8>
    decreases i,
{
    if i <= 0 {
        raw
    } else if ptrs[i - 1] == 0 {
        cleared(raw, ptrs, i - 1)
    } else {
        put_u32(cleared(raw, ptrs, i - 1), 40 + 4 * (i - 1), 0)
    }
}

/// Gives back the direct blocks `ptrs[i..12]` of the inode `raw`.
pub open spec fn direct_freed(
    img: Image,
    sb: Superblock,
    raw: Seq<u8>,
    ptrs: Seq<u32>,
    i: int,
) -> (Image, Seq<u8>)
    decreases 12 - i,
{
    if i >= 12 {
        (img, raw)
    } else if ptrs[i] == 0 {
        direct_freed(img, sb, raw, ptrs, i + 1)
    } else {
        direct_freed(
            block_freed(img, sb, ptrs[i]),
            sb,
            put_u32(raw, 40 + 4 * i, 0),
            ptrs,
            i + 1,
        )
    }
}

/// Gives back the blocks that the entries of an indirect block name, from entry
/// `i` on.
pub open spec fn entries_freed(img: Image, sb: Superblock, indirect: u32, i: int) -> Image
    decreases sb.block_size / 4 - i,
{
    if i >= sb.block_size / 4 {
        img
    } else {
        let block = u32_at(img, indirect * sb.block_size + 4 * i);
        entries_freed(
            if block == 0 {
                img
            } else {
                block_freed(img, sb, block)
            },
            sb,
            indirect,
            i + 1,
        )
    }
}

/// What giving a block back stores to: the bitmap of its group and the counts.
pub open spec fn freed_place(sb: Superblock, block: u32) -> Place {
    Place::Blocks(block / sb.blocks_per_group)
}

/// What giving back the direct blocks `ptrs[i..12]` stores to.
pub open spec fn direct_trail(sb: Superblock, ptrs: Seq<u32>, i: int) -> Seq<Place>
    decreases 12 - i,
{
    if i >= 12 {
        Seq::empty()
    } else if ptrs[i] == 0 {
        direct_trail(sb, ptrs, i + 1)
    } else {
        seq![freed_place(sb, ptrs[i])] + direct_trail(sb, ptrs, i + 1)
    }
}

/// What giving back the blocks that an indirect block names, from entry `i` on,
/// stores to.
pub open spec fn entries_trail(img: Image, sb: Superblock, indirect: u32, i: int) -> Seq<Place>
    decreases sb.block_size / 4 - i,
{
    if i >= sb.block_size / 4 {
        Seq::empty()
    } else {
        let block = u32_at(img, indirect * sb.block_size + 4 * i);
        if block == 0 {
            entries_trail(img, sb, indirect, i + 1)
        } else {
            seq![freed_place(sb, block)] + entries_trail(
                block_freed(img, sb, block),
                sb,
                indirect,
                i + 1,
            )
        }
    }
}

/// What giving back all blocks of the file of the inode `raw` stores to.
pub open spec fn freed_trail(img: Image, sb: Superblock, raw: Seq<u8>) -> Seq<Place> {
    let ptrs = inode_in(raw).blocks;
    direct_trail(sb, ptrs, 0) + if ptrs[12] == 0 {
        Seq::empty()
    } else {
        entries_trail(direct_freed(img, sb, raw, ptrs, 0).0, sb, ptrs[12], 0) + seq![
            freed_place(sb, ptrs[12]),
        ]
    }
}

/// Whether the file of the inode `raw` has no block `index` but can have one.
pub open spec fn is_missing(img: Image, sb: Superblock, raw: Seq<u8>, index: int) -> bool {
    block_of(img, sb, inode_in(raw), index) == Ok::<u32, i32>(0)
}

/// Whether the searches for blocks stay in their bitmap where the file of the inode
/// `raw` is given a block `index`: that for the block, and that for the indirect
/// block, where the number of the block goes there and the file has none yet.
pub open spec fn is_ensurable(img: Image, sb: Superblock, raw: Seq<u8>, index: int) -> bool {
    is_missing(img, sb, raw, index) ==> blocks_bounded(img, sb) && match block_allocated(img, sb) {
        (_, Err(_)) => true,
        (img1, Ok(block)) => index >= 12 && seq_u32(raw, indirect_ptr()) == 0 ==> blocks_bounded(
            block_stored(img1, sb, block, zeros(MAX_BLOCK_SIZE as nat)),
            sb,
        ),
    }
}

/// Whether there is a block that the file of the inode `raw` can give back.
pub open spec fn has_blocks(raw: Seq<u8>) -> bool {
    exists|k: int| 0 <= k < 13 && #[trigger] inode_in(raw).blocks[k] != 0
}

/// Whether the bit of a block lies in the buffer for the bitmap of its group.
pub open spec fn is_tracked(sb: Superblock, block: u32) -> bool {
    block % sb.blocks_per_group < 8 * MAX_BLOCK_SIZE
}

/// Whether the same holds of the blocks that the entries of an indirect block
/// name, from entry `i` on, as they are given back.
pub open spec fn are_entries_tracked(img: Image, sb: Superblock, indirect: u32, i: int) -> bool
    decreases sb.block_size / 4 - i,
{
    if i >= sb.block_size / 4 {
        true
    } else {
        let block = u32_at(img, indirect * sb.block_size + 4 * i);
        if block == 0 {
            are_entries_tracked(img, sb, indirect, i + 1)
        } else {
            is_tracked(sb, block) && are_entries_tracked(
                block_freed(img, sb, block),
                sb,
                indirect,
                i + 1,
            )
        }
    }
}

/// Whether the bitmaps have bits for all blocks of the file of the inode `raw`.
pub open spec fn is_freeable(img: Image, sb: Superblock, raw: Seq<u8>) -> bool {
    let ptrs = inode_in(raw).blocks;
    has_blocks(raw) ==> {
        &&& sb.blocks_per_group != 0
        &&& forall|k: int| 0 <= k < 13 && #[trigger] ptrs[k] != 0 ==> is_tracked(sb, ptrs[k])
        &&& ptrs[12] != 0 ==> are_entries_tracked(
            direct_freed(img, sb, raw, ptrs, 0).0,
            sb,
            ptrs[12],
            0,
        )
    }
}

/// Gives back all blocks of the file of the inode `raw`, and makes it empty.
pub open spec fn blocks_freed(img: Image, sb: Superblock, raw: Seq<u8>) -> (Image, Seq<u8>) {
    let ptrs = inode_in(raw).blocks;
    let (img1, raw1) = direct_freed(img, sb, raw, ptrs, 0);
    let (img2, raw2) = if ptrs[12] == 0 {
        (img1, raw1)
    } else {
        (
            block_freed(entries_freed(img1, sb, ptrs[12], 0), sb, ptrs[12]),
            put_u32(raw1, indirect_ptr(), 0),
        )
    };
    (img2, put_u32(put_u32(raw2, 28, 0), 4, 0))
}

/// Adds one block to what an inode accounts for.
pub fn charge(sb: Superblock, inode_raw: &mut [u8])
    requires
        old(inode_raw)@.len() >= 100,
    ensures
        final(inode_raw)@ == charged(sb, old(inode_raw)@),
{
    let blocks: u32 = inode_blocks_512(inode_raw);
    set_inode_blocks_512(inode_raw, blocks.wrapping_add(sb.block_size / 512));
}

/// The places that giving a file a new block stores to, once the block is given
/// out.
proof fn lemma_given(
    x: Medium,
    m: Medium,
    n: Medium,
    y: Medium,
    sb: Superblock,
    raw: Seq<u8>,
    index: int,
)
    requires
        is_missing(x.image, sb, raw, index),
        block_allocated(x.image, sb).1 is Ok,
        m.image == block_allocated(x.image, sb).0,
        is_touched(x, m, area(x.image, sb, Place::Blocks(0))),
        is_touched(m, n, block_stretch(sb, block_allocated(x.image, sb).1->Ok_0)),
        n == y || n.image == block_stored(
            m.image,
            sb,
            block_allocated(x.image, sb).1->Ok_0,
            zeros(MAX_BLOCK_SIZE as nat),
        ) && is_confined(n, y, sb, pointed_trail(n.image, sb, raw, index)),
    ensures
        is_confined(x, y, sb, ensured_trail(x.image, sb, raw, index)),
{
    let block = block_allocated(x.image, sb).1->Ok_0;
    let first = seq![Place::Blocks(0), Place::Block(block)];
    let more = pointed_trail(
        block_stored(m.image, sb, block, zeros(MAX_BLOCK_SIZE as nat)),
        sb,
        raw,
        index,
    );
    lemma_two_places(x, m, n, sb, first[0], first[1]);
    if n == y {
        lemma_confined_start(x, y, sb, first, more);
    } else {
        lemma_confined_concat(x, n, y, sb, first, more);
    }
}

impl<D: McxDiskOps> State<D> {
    /// Makes `value` block `block_index` of the file of an inode.
    pub fn set_data_block_number(
        &mut self,
        inode_raw: &mut [u8],
        block_index: u64,
        value: u32,
    ) -> (r: Result<(), i32>)
        requires
            old(self).sb.wf(),
            12 <= block_index < 12 + old(self).sb.block_size / 4 ==> old(self).attached() && (
            seq_u32(old(inode_raw)@, indirect_ptr()) == 0 ==> blocks_bounded(
                old(self).image(),
                old(self).sb,
            )),
            old(inode_raw)@.len() >= 100,
        ensures
            final(inode_raw)@.len() == old(inode_raw)@.len(),
            !(12 <= block_index < 12 + old(self).sb.block_size / 4) ==> *final(self) == *old(self),
            ({
                let want = block_pointed(
                    old(self).image(),
                    old(self).sb,
                    old(inode_raw)@,
                    block_index as int,
                    value,
                );
                &&& final(self).writes(*old(self), r, (want.0, want.2))
                &&& final(self).quiet(*old(self)) ==> final(inode_raw)@ == want.1
                &&& final(inode_raw)@ == old(inode_raw)@ || final(inode_raw)@ == want.1
            }),
            is_confined(
                old(self).medium(),
                final(self).medium(),
                old(self).sb,
                pointed_trail(
                    old(self).image(),
                    old(self).sb,
                    old(inode_raw)@,
                    block_index as int,
                ),
            ),
    {
        let sb = self.sb;
        let ghost img = self.image();
        let ghost disk = self.medium();
        let ghost trail = pointed_trail(img, sb, inode_raw@, block_index as int);
        if block_index < 12 {
            set_inode_block_ptr(inode_raw, block_index as usize, value);
            return Ok(());
        }
        let single_index: u64 = block_index - 12;
        let entries_per_block: u64 = (sb.block_size / 4) as u64;
        if single_index >= entries_per_block {
            return Err(ENOSYS);
        }
        let mut indirect: u32 = get_u32(inode_raw, 40 + 12 * 4);
        let ghost mut steps = (disk, disk);
        let ghost is_new = indirect == 0;
        if indirect == 0 {
            match self.allocate_block_number() {
                Ok(block) => {
                    indirect = block;
                },
                Err(e) => {
                    proof {
                        lemma_first_place(disk, self.medium(), sb, trail);
                    }
                    return Err(e);
                },
            }
            let ghost given = self.medium();
            let zero: [u8; 4096] = [0u8;4096];
            assert(zero@ =~= zeros(4096));
            let rc: i32 = self.write_block(indirect, &zero);
            if rc != 0 {
                proof {
                    lemma_three_places(disk, given, self.medium(), self.medium(), sb, trail);
                }
                return Err(rc);
            }
            proof {
                steps = (given, self.medium());
            }
            set_inode_block_ptr(inode_raw, 12, indirect);
            charge(sb, inode_raw);
        }
        let rc: i32 = self.write_indirect_entry(indirect, single_index as usize, value);
        proof {
            lemma_entry_touched(steps.1, self.medium(), sb, indirect, single_index as int);
            if is_new {
                lemma_three_places(disk, steps.0, steps.1, self.medium(), sb, trail);
            } else {
                lemma_first_place(disk, self.medium(), sb, trail);
            }
        }
        if rc != 0 {
            return Err(rc);
        }
        Ok(())
    }

    /// The block that holds block `block_index` of the file of an inode, a new
    /// one where it has none.
    #[verifier::spinoff_prover]
    #[verifier::rlimit(40)]
    pub fn ensure_data_block(&mut self, inode_raw: &mut [u8], block_index: u64) -> (r: Result<
        u32,
        i32,
    >)
        requires
            old(self).sb.wf(),
            is_indirect(old(self).sb, inode_in(old(inode_raw)@), block_index as int) ==> old(
                self,
            ).attached(),
            is_missing(old(self).image(), old(self).sb, old(inode_raw)@, block_index as int)
                ==> old(self).attached(),
            is_ensurable(old(self).image(), old(self).sb, old(inode_raw)@, block_index as int),
            old(inode_raw)@.len() >= 100,
        ensures
            final(inode_raw)@.len() == old(inode_raw)@.len(),
            !is_indirect(old(self).sb, inode_in(old(inode_raw)@), block_index as int)
                && !is_missing(
                old(self).image(),
                old(self).sb,
                old(inode_raw)@,
                block_index as int,
            ) ==> *final(self) == *old(self),
            ({
                let want = block_ensured(
                    old(self).image(),
                    old(self).sb,
                    old(inode_raw)@,
                    block_index as int,
                );
                &&& final(self).writes(*old(self), r, (want.0, want.2))
                &&& final(self).quiet(*old(self)) ==> final(inode_raw)@ == want.1
                &&& is_ensured(old(self).sb, old(inode_raw)@, final(inode_raw)@, want.1)
            }),
            is_confined(
                old(self).medium(),
                final(self).medium(),
                old(self).sb,
                ensured_trail(
                    old(self).image(),
                    old(self).sb,
                    old(inode_raw)@,
                    block_index as int,
                ),
            ),
    {
        let sb = self.sb;
        let ghost img = self.image();
        let ghost disk = self.medium();
        let ghost raw = inode_raw@;
        let ghost trail = ensured_trail(img, sb, raw, block_index as int);
        let inode = load_inode_from_raw(inode_raw);
        proof {
            lemma_confined_none(disk, sb, trail);
        }
        let existing: u32 = self.data_block_number(inode, block_index)?;
        if existing != 0 {
            return Ok(existing);
        }
        let block: u32 = match self.allocate_block_number() {
            Ok(block) => block,
            Err(e) => {
                proof {
                    lemma_first_place(disk, self.medium(), sb, trail);
                }
                return Err(e);
            },
        };
        let ghost given = self.medium();
        let zero: [u8; 4096] = [0u8;4096];
        assert(zero@ =~= zeros(4096));
        let rc: i32 = self.write_block(block, &zero);
        let ghost blank = self.medium();
        proof {
            lemma_given(disk, given, blank, blank, sb, raw, block_index as int);
        }
        if rc != 0 {
            return Err(rc);
        }
        let set = self.set_data_block_number(inode_raw, block_index, block);
        proof {
            lemma_given(disk, given, blank, self.medium(), sb, raw, block_index as int);
        }
        set?;
        charge(sb, inode_raw);
        Ok(block)
    }

    /// Gives back the blocks that the entries of an indirect block name.
    fn free_entries(&mut self, indirect: u32) -> (r: Result<(), i32>)
        requires
            old(self).attached(),
            old(self).sb.wf(),
            old(self).sb.blocks_per_group != 0,
            are_entries_tracked(old(self).image(), old(self).sb, indirect, 0),
        ensures
            final(self).writes(
                *old(self),
                r,
                (entries_freed(old(self).image(), old(self).sb, indirect, 0), Ok(())),
            ),
            is_confined(
                old(self).medium(),
                final(self).medium(),
                old(self).sb,
                entries_trail(old(self).image(), old(self).sb, indirect, 0),
            ),
    {
        let sb = self.sb;
        let ghost img = self.image();
        let ghost disk = self.medium();
        let ghost all = entries_trail(img, sb, indirect, 0);
        let ghost mut trail = Seq::<Place>::empty();
        proof {
            lemma_confined_none(disk, sb, trail);
            assert(trail + all =~= all);
        }
        let entries: usize = (sb.block_size / 4) as usize;
        let mut idx: usize = 0;
        while idx < entries
            invariant
                idx <= entries,
                entries == sb.block_size / 4,
                sb == old(self).sb,
                sb.wf(),
                sb.blocks_per_group != 0,
                are_entries_tracked(self.image(), sb, indirect, idx as int),
                img == old(self).image(),
                disk == old(self).medium(),
                all == entries_trail(img, sb, indirect, 0),
                self.attached(),
                self.goes_on(*old(self)),
                self.quiet(*old(self)),
                entries_freed(img, sb, indirect, 0) == entries_freed(
                    self.image(),
                    sb,
                    indirect,
                    idx as int,
                ),
                is_confined(disk, self.medium(), sb, trail),
                trail + entries_trail(self.image(), sb, indirect, idx as int) == all,
            decreases entries - idx,
        {
            let ghost before = self.medium();
            proof {
                let more = entries_trail(before.image, sb, indirect, idx as int);
                lemma_confined_start(disk, before, sb, trail, more);
            }
            let block: u32 = match self.read_indirect_entry(indirect, idx) {
                Ok(v) => v,
                Err(e) => return Err(e),
            };
            if block != 0 {
                let freed = self.free_block_number(block);
                proof {
                    let place = freed_place(sb, block);
                    let after = block_freed(before.image, sb, block);
                    let more = entries_trail(after, sb, indirect, idx + 1);
                    lemma_confined_push(disk, before, self.medium(), sb, trail, place);
                    assert(trail + (seq![place] + more) =~= trail + seq![place] + more);
                    trail = trail + seq![place];
                    lemma_confined_start(disk, self.medium(), sb, trail, more);
                }
                match freed {
                    Ok(_) => {},
                    Err(e) => return Err(e),
                }
            }
            idx += 1;
        }
        assert(trail =~= all);
        Ok(())
    }

    /// Gives back all blocks of the file of an inode, and makes it empty.
    pub fn free_inode_blocks(&mut self, inode_raw: &mut [u8]) -> (r: Result<(), i32>)
        requires
            old(self).sb.wf(),
            has_blocks(old(inode_raw)@) ==> old(self).attached(),
            is_freeable(old(self).image(), old(self).sb, old(inode_raw)@),
            old(inode_raw)@.len() >= 100,
        ensures
            final(inode_raw)@.len() == old(inode_raw)@.len(),
            !has_blocks(old(inode_raw)@) ==> *final(self) == *old(self),
            ({
                let want = blocks_freed(old(self).image(), old(self).sb, old(inode_raw)@);
                &&& final(self).writes(*old(self), r, (want.0, Ok(())))
                &&& final(self).quiet(*old(self)) ==> final(inode_raw)@ == want.1
                &&& !final(self).quiet(*old(self)) ==> exists|i: int|
                    0 <= i <= 12 && final(inode_raw)@ == #[trigger] cleared(
                        old(inode_raw)@,
                        inode_in(old(inode_raw)@).blocks,
                        i,
                    )
            }),
            is_confined(
                old(self).medium(),
                final(self).medium(),
                old(self).sb,
                freed_trail(old(self).image(), old(self).sb, old(inode_raw)@),
            ),
    {
        let sb = self.sb;
        let ghost img0 = self.image();
        let ghost disk = self.medium();
        let ghost raw0 = inode_raw@;
        let inode = load_inode_from_raw(inode_raw);
        let ghost ptrs = inode@.blocks;
        let ghost behind = if ptrs[12] == 0 {
            Seq::empty()
        } else {
            entries_trail(direct_freed(img0, sb, raw0, ptrs, 0).0, sb, ptrs[12], 0) + seq![
                freed_place(sb, ptrs[12]),
            ]
        };
        let ghost mut trail = Seq::<Place>::empty();
        proof {
            lemma_confined_none(disk, sb, trail);
            assert(trail + direct_trail(sb, ptrs, 0) =~= direct_trail(sb, ptrs, 0));
        }
        let mut i: usize = 0;
        while i < 12
            invariant
                i <= 12,
                sb == old(self).sb,
                sb.wf(),
                has_blocks(raw0) ==> self.attached(),
                is_freeable(img0, sb, raw0),
                !has_blocks(raw0) ==> *self == *old(self),
                raw0 == old(inode_raw)@,
                ptrs == inode_in(raw0).blocks,
                inode_raw@.len() == old(inode_raw)@.len() >= 100,
                ptrs == inode.blocks@,
                self.goes_on(*old(self)),
                self.quiet(*old(self)),
                direct_freed(img0, sb, raw0, ptrs, 0) == direct_freed(
                    self.image(),
                    sb,
                    inode_raw@,
                    ptrs,
                    i as int,
                ),
                inode_raw@ == cleared(raw0, ptrs, i as int),
                img0 == old(self).image(),
                disk == old(self).medium(),
                is_confined(disk, self.medium(), sb, trail),
                trail + direct_trail(sb, ptrs, i as int) == direct_trail(sb, ptrs, 0),
                direct_trail(sb, ptrs, 0) + behind == freed_trail(img0, sb, raw0),
            decreases 12 - i,
        {
            let block: u32 = inode.blocks[i];
            if block != 0 {
                assert(ptrs[i as int] != 0);
                let ghost before = self.medium();
                let freed = self.free_block_number(block);
                proof {
                    let place = freed_place(sb, block);
                    let more = direct_trail(sb, ptrs, i + 1);
                    lemma_confined_push(disk, before, self.medium(), sb, trail, place);
                    assert(trail + (seq![place] + more) =~= trail + seq![place] + more);
                    trail = trail + seq![place];
                    lemma_confined_start(disk, self.medium(), sb, trail, more);
                    lemma_confined_start(disk, self.medium(), sb, trail + more, behind);
                }
                match freed {
                    Ok(_) => {},
                    Err(e) => return Err(e),
                }
                set_inode_block_ptr(inode_raw, i, 0);
            }
            i += 1;
        }
        proof {
            assert(trail + direct_trail(sb, ptrs, 12) =~= trail);
            lemma_confined_start(disk, self.medium(), sb, trail, behind);
        }
        let indirect: u32 = inode.blocks[12];
        if indirect != 0 {
            assert(ptrs[12] != 0);
            let ghost freed_direct = self.medium();
            let ghost all = entries_trail(freed_direct.image, sb, indirect, 0);
            let ghost last = freed_place(sb, indirect);
            let entries = self.free_entries(indirect);
            let ghost before = self.medium();
            proof {
                lemma_confined_concat(disk, freed_direct, before, sb, trail, all);
                lemma_confined_start(disk, before, sb, trail + all, seq![last]);
                assert(trail + all + seq![last] =~= trail + (all + seq![last]));
            }
            entries?;
            let freed = self.free_block_number(indirect);
            proof {
                lemma_confined_push(disk, before, self.medium(), sb, trail + all, last);
            }
            freed?;
            set_inode_block_ptr(inode_raw, 12, 0);
        }
        set_inode_blocks_512(inode_raw, 0);
        set_u32(inode_raw, 4, 0);
        Ok(())
    }
}

} // verus!
