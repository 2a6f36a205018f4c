//! On-disk structures: superblock, group descriptors and inodes.

use vstd::prelude::*;
use crate::abi::{EINVAL, ENOSYS};
use crate::codec::{
    get_u16, get_u32, is_filled, le32_bytes, lemma_filled_head, lemma_filled_none, overlay,
    put_u32, seq_u16, seq_u32, set_u32,
};
use crate::disk::{bytes_at, is_touched, patched, stretch, Image, McxDiskOps};
use crate::state::{is_cut_short, status, u16_at, u32_at, State};
use crate::trail::{area, block_stretch, Place};

verus! {

pub const EXT2_MAGIC: u16 = 0xef53;
pub const ROOT_INO: u32 = 2;
pub const S_IFDIR: u16 = 0x4000;
pub const S_IFREG: u16 = 0x8000;
pub const MAX_BLOCK_SIZE: usize = 4096;
pub const MAX_INODE_SIZE: usize = 512;

/// The fields of the superblock that the file system works with.
#[derive(Clone, Copy)]
pub struct Superblock {
    pub blocks_count: u32,
    pub block_size: u32,
    pub inode_size: u16,
    pub first_inode: u32,
    pub blocks_per_group: u32,
    pub inodes_per_group: u32,
    pub inodes_count: u32,
}

/// Where the bitmaps and the inode table of a block group lie, in blocks.
#[derive(Clone, Copy)]
pub struct GroupDesc {
    pub block_bitmap: u32,
    pub inode_bitmap: u32,
    pub inode_table: u32,
}

/// The fields of an inode that the file system works with.
#[derive(Clone, Copy)]
pub struct Inode {
    pub mode: u16,
    pub size: u32,
    pub blocks: [u32; 15],
}

/// An inode as a mathematical value.
#[verifier::ext_equal]
pub struct InodeView {
    pub mode: u16,
    pub size: u32,
    pub blocks: Seq<u32>,
}

impl View for Inode {
    type V = InodeView;

    open spec fn view(&self) -> InodeView {
        InodeView { mode: self.mode, size: self.size, blocks: self.blocks@ }
    }
}

/// A result that holds an inode, with the inode taken by its view.
pub open spec fn viewed(r: Result<Inode, i32>) -> Result<InodeView, i32> {
    match r {
        Ok(inode) => Ok(inode@),
        Err(e) => Err(e),
    }
}

impl Superblock {
    /// The block sizes that a mounted volume can have, and 0, which an
    /// unmounted one has.
    pub open spec fn wf(self) -> bool {
        self.block_size == 0 || self.block_size == 1024 || self.block_size == 2048
            || self.block_size == 4096
    }

    /// Whether inodes and blocks can be located.
    pub open spec fn readable(self) -> bool {
        &&& self.wf()
        &&& self.block_size != 0
        &&& self.inodes_per_group != 0
    }

    /// Whether a search for a free inode of the first group stays in a buffer of
    /// the largest block size. Where blocks are smaller it ends at the latest
    /// behind the block, where the buffer is clear.
    pub open spec fn inodes_tracked(self) -> bool {
        &&& self.inodes_per_group != 0
        &&& lesser(self.inodes_per_group, self.inodes_count) <= 8 * MAX_BLOCK_SIZE
            || self.block_size < MAX_BLOCK_SIZE && self.first_inode <= 8 * MAX_BLOCK_SIZE
    }

    /// Whether a search for a free block of the first group stays in a buffer of
    /// the largest block size.
    pub open spec fn blocks_tracked(self) -> bool {
        &&& self.blocks_per_group != 0
        &&& lesser(self.blocks_per_group, self.blocks_count) <= 8 * MAX_BLOCK_SIZE
            || self.block_size < MAX_BLOCK_SIZE
    }

    /// Whether a search for a free inode of the first group stays in its buffer.
    pub fn are_inodes_tracked(&self) -> (b: bool)
        ensures
            b == self.inodes_tracked(),
    {
        let bits: usize = 8 * MAX_BLOCK_SIZE;
        self.inodes_per_group != 0 && (self.inodes_per_group as usize <= bits
            || self.inodes_count as usize <= bits || (self.block_size as usize) < MAX_BLOCK_SIZE
            && self.first_inode as usize <= bits)
    }

    /// Whether a search for a free block of the first group stays in its buffer.
    pub fn are_blocks_tracked(&self) -> (b: bool)
        ensures
            b == self.blocks_tracked(),
    {
        let bits: usize = 8 * MAX_BLOCK_SIZE;
        self.blocks_per_group != 0 && (self.blocks_per_group as usize <= bits
            || self.blocks_count as usize <= bits || (self.block_size as usize) < MAX_BLOCK_SIZE)
    }

    /// The superblock of a volume that is not mounted.
    pub open spec fn blank() -> Self {
        Superblock {
            blocks_count: 0,
            block_size: 0,
            inode_size: 0,
            first_inode: 0,
            blocks_per_group: 0,
            inodes_per_group: 0,
            inodes_count: 0,
        }
    }

    /// The superblock of a volume that is not mounted.
    pub fn empty() -> (sb: Self)
        ensures
            sb == Self::blank(),
    {
        Superblock {
            blocks_count: 0,
            block_size: 0,
            inode_size: 0,
            first_inode: 0,
            blocks_per_group: 0,
            inodes_per_group: 0,
            inodes_count: 0,
        }
    }
}

/// The lesser of two numbers.
pub open spec fn lesser(a: u32, b: u32) -> u32 {
    if a <= b {
        a
    } else {
        b
    }
}

/// The block size that the exponent `log` in the superblock stands for: 1024
/// shifted left in 32 bits, where it is at most `MAX_BLOCK_SIZE`.
pub open spec fn block_size_of(log: u32) -> Result<u32, i32> {
    if log == 0 {
        Ok(1024)
    } else if log == 1 {
        Ok(2048)
    } else if log == 2 {
        Ok(4096)
    } else if 22 <= log < 32 {
        Ok(0)
    } else {
        Err(EINVAL)
    }
}

/// The superblock on a disk.
pub open spec fn superblock_at(img: Image) -> Result<Superblock, i32> {
    if u16_at(img, 1024int + 56) != EXT2_MAGIC {
        Err(EINVAL)
    } else {
        match block_size_of(u32_at(img, 1024int + 24)) {
            Err(e) => Err(e),
            Ok(block_size) => Ok(
                Superblock {
                    blocks_count: u32_at(img, 1024int + 4),
                    block_size,
                    inode_size: u16_at(img, 1024int + 88),
                    first_inode: u32_at(img, 1024int + 84),
                    blocks_per_group: u32_at(img, 1024int + 32),
                    inodes_per_group: u32_at(img, 1024int + 40),
                    inodes_count: u32_at(img, 1024int),
                },
            ),
        }
    }
}

/// The address of a group descriptor.
pub open spec fn group_desc_addr(sb: Superblock, group: u32) -> int {
    (if sb.block_size == 1024 {
        2 * sb.block_size
    } else {
        sb.block_size as int
    }) + 32 * group
}

/// The descriptor of a group.
pub open spec fn group_desc_at(img: Image, sb: Superblock, group: u32) -> GroupDesc {
    let a = group_desc_addr(sb, group);
    GroupDesc {
        block_bitmap: u32_at(img, a),
        inode_bitmap: u32_at(img, a + 4),
        inode_table: u32_at(img, a + 8),
    }
}

/// The address of an inode.
pub open spec fn inode_addr(img: Image, sb: Superblock, ino: u32) -> int {
    let index = (ino - 1) as u32;
    let gd = group_desc_at(img, sb, index / sb.inodes_per_group);
    gd.inode_table * sb.block_size + (index % sb.inodes_per_group) * sb.inode_size
}

/// The inode whose bytes start at address `a`.
pub open spec fn inode_at(img: Image, a: int) -> InodeView {
    InodeView {
        mode: u16_at(img, a),
        size: u32_at(img, a + 4),
        blocks: Seq::new(15, |i: int| u32_at(img, a + 40 + 4 * i)),
    }
}

/// The inode that a buffer holds.
pub open spec fn inode_in(raw: Seq<u8>) -> InodeView {
    InodeView {
        mode: seq_u16(raw, 0),
        size: seq_u32(raw, 4),
        blocks: Seq::new(15, |i: int| seq_u32(raw, 40 + 4 * i)),
    }
}

/// The inode of a number.
pub open spec fn inode_numbered(img: Image, sb: Superblock, ino: u32) -> Result<InodeView, i32> {
    if ino < 1 {
        Err(EINVAL)
    } else {
        Ok(inode_at(img, inode_addr(img, sb, ino)))
    }
}

/// The block that holds block `index` of a file; 0 for a hole.
pub open spec fn block_of(img: Image, sb: Superblock, inode: InodeView, index: int) -> Result<
    u32,
    i32,
> {
    if index < 12 {
        Ok(inode.blocks[index])
    } else if index - 12 >= sb.block_size / 4 {
        Err(ENOSYS)
    } else if inode.blocks[12] == 0 {
        Ok(0)
    } else {
        Ok(u32_at(img, inode.blocks[12] * sb.block_size + 4 * (index - 12)))
    }
}

/// The bytes of a block.
pub open spec fn block_bytes(img: Image, sb: Superblock, block: u32) -> Seq<u8> {
    bytes_at(img, block * sb.block_size, sb.block_size as nat)
}

/// The disk with a block filled from the start of `data`.
pub open spec fn block_stored(img: Image, sb: Superblock, block: u32, data: Seq<u8>) -> Image {
    patched(img, block * sb.block_size, data.take(sb.block_size as int))
}

/// How many blocks a file of `size` bytes spans.
pub open spec fn block_span(sb: Superblock, size: u32) -> int {
    (size + sb.block_size - 1) / (sb.block_size as int)
}

/// Whether a mode is that of a directory.
pub open spec fn mode_is_dir(mode: u16) -> bool {
    mode & 0xf000 == S_IFDIR
}

/// Whether a mode is that of a file.
pub open spec fn mode_is_file(mode: u16) -> bool {
    mode & 0xf000 == S_IFREG
}

/// No product of a block or inode number with a size leaves 64 bits.
pub proof fn lemma_product_bound(a: int, b: int, a_max: int, b_max: int)
    requires
        0 <= a <= a_max,
        0 <= b <= b_max,
    ensures
        0 <= a * b <= a_max * b_max,
{
    assert(0 <= a * b <= a_max * b_max) by (nonlinear_arith)
        requires
            0 <= a <= a_max,
            0 <= b <= b_max,
    ;
}

/// The address of a group descriptor.
pub fn group_desc_offset(sb: Superblock, group: u32) -> (offset: u64)
    ensures
        offset == group_desc_addr(sb, group),
{
    let gdt_offset: u64 = if sb.block_size == 1024 {
        sb.block_size as u64 * 2
    } else {
        sb.block_size as u64
    };
    gdt_offset + group as u64 * 32
}

/// The address of an inode, from its group and its place in the group's table.
pub fn inode_offset(sb: Superblock, gd: GroupDesc, index_in_group: u32) -> (offset: u64)
    requires
        sb.block_size <= MAX_BLOCK_SIZE,
    ensures
        offset == gd.inode_table * sb.block_size + index_in_group * sb.inode_size,
        offset <= 0x2_0000_0000_0000,
{
    proof {
        lemma_product_bound(gd.inode_table as int, sb.block_size as int, 0xffff_ffff, 4096);
        lemma_product_bound(index_in_group as int, sb.inode_size as int, 0xffff_ffff, 0xffff);
    }
    gd.inode_table as u64 * sb.block_size as u64 + index_in_group as u64 * sb.inode_size as u64
}

/// Whether a mode is that of a directory.
pub fn is_dir(mode: u16) -> (b: bool)
    ensures
        b == mode_is_dir(mode),
{
    (mode & 0xf000) == S_IFDIR
}

/// Whether a mode is that of a regular file.
pub fn is_file(mode: u16) -> (b: bool)
    ensures
        b == mode_is_file(mode),
{
    (mode & 0xf000) == S_IFREG
}

/// The number of 512-byte units that an inode accounts for.
pub fn inode_blocks_512(inode_raw: &[u8]) -> (n: u32)
    requires
        inode_raw@.len() >= 32,
    ensures
        n == seq_u32(inode_raw@, 28),
{
    get_u32(inode_raw, 28)
}

/// Sets the number of 512-byte units that an inode accounts for.
pub fn set_inode_blocks_512(inode_raw: &mut [u8], value: u32)
    requires
        old(inode_raw)@.len() >= 32,
    ensures
        final(inode_raw)@ == put_u32(old(inode_raw)@, 28, value),
{
    set_u32(inode_raw, 28, value)
}

/// Sets one of the block pointers of an inode.
pub fn set_inode_block_ptr(inode_raw: &mut [u8], block_index: usize, value: u32)
    requires
        44 + 4 * block_index <= old(inode_raw)@.len(),
    ensures
        final(inode_raw)@ == put_u32(old(inode_raw)@, 40 + 4 * block_index, value),
{
    let _len: usize = inode_raw.len();
    set_u32(inode_raw, 40 + block_index * 4, value)
}

/// The inode that a buffer holds.
pub fn load_inode_from_raw(raw: &[u8]) -> (inode: Inode)
    requires
        raw@.len() >= 100,
    ensures
        inode@ == inode_in(raw@),
{
    let mut blocks: [u32; 15] = [0u32;15];
    let mut i: usize = 0;
    while i < 15
        invariant
            i <= 15,
            raw@.len() >= 100,
            forall|j: int| 0 <= j < i ==> blocks@[j] == seq_u32(raw@, 40 + 4 * j),
        decreases 15 - i,
    {
        blocks[i] = get_u32(raw, 40 + i * 4);
        i += 1;
    }
    let inode = Inode { mode: get_u16(raw, 0), size: get_u32(raw, 4), blocks };
    assert(inode@ =~= inode_in(raw@));
    inode
}

impl<D: McxDiskOps> State<D> {
    /// Reads the superblock.
    pub fn load_superblock(&mut self) -> (r: Result<Superblock, i32>)
        ensures
            !old(self).attached() ==> final(self).refuses(*old(self), r),
            old(self).attached() ==> final(self).reads(
                *old(self),
                r,
                superblock_at(old(self).image()),
            ),
            r is Ok ==> r->Ok_0.wf(),
    {
        let magic: u16 = self.read_u16(1024 + 56)?;
        if magic != EXT2_MAGIC {
            return Err(EINVAL);
        }
        let log_block_size: u32 = self.read_u32(1024 + 24)?;
        if log_block_size >= 32 {
            return Err(EINVAL);
        }
        let block_size: u32 = 1024u32 << log_block_size;
        assert(log_block_size < 32 ==> block_size == (if log_block_size == 0 {
            1024u32
        } else if log_block_size == 1 {
            2048u32
        } else if log_block_size == 2 {
            4096u32
        } else if log_block_size >= 22 {
            0u32
        } else {
            block_size
        }) && (3 <= log_block_size < 22 ==> block_size > 4096)) by (bit_vector)
            requires
                block_size == 1024u32 << log_block_size,
        ;
        if block_size as usize > MAX_BLOCK_SIZE {
            return Err(EINVAL);
        }
        Ok(
            Superblock {
                blocks_count: self.read_u32(1024 + 4)?,
                block_size,
                inode_size: self.read_u16(1024 + 88)?,
                first_inode: self.read_u32(1024 + 84)?,
                blocks_per_group: self.read_u32(1024 + 32)?,
                inodes_per_group: self.read_u32(1024 + 40)?,
                inodes_count: self.read_u32(1024)?,
            },
        )
    }

    /// Reads the descriptor of a group.
    pub fn load_group_desc(&mut self, sb: Superblock, group: u32) -> (r: Result<GroupDesc, i32>)
        ensures
            !old(self).attached() ==> final(self).refuses(*old(self), r),
            old(self).attached() ==> final(self).reads(
                *old(self),
                r,
                Ok(group_desc_at(old(self).image(), sb, group)),
            ),
    {
        let offset: u64 = group_desc_offset(sb, group);
        Ok(
            GroupDesc {
                block_bitmap: self.read_u32(offset)?,
                inode_bitmap: self.read_u32(offset + 4)?,
                inode_table: self.read_u32(offset + 8)?,
            },
        )
    }

    /// Locates an inode.
    fn locate_inode(&mut self, ino: u32) -> (r: Result<u64, i32>)
        requires
            old(self).attached(),
            old(self).sb.wf(),
            old(self).sb.inodes_per_group != 0,
            ino >= 1,
        ensures
            final(self).goes_on(*old(self)),
            final(self).holds(*old(self)),
            match r {
                Ok(offset) => final(self).quiet(*old(self)) && offset == inode_addr(
                    old(self).image(),
                    old(self).sb,
                    ino,
                ) && offset <= 0x2_0000_0000_0000,
                Err(e) => !final(self).quiet(*old(self)) && final(self).failed(*old(self), e),
            },
    {
        let sb = self.sb;
        let index: u32 = ino - 1;
        let group: u32 = index / sb.inodes_per_group;
        let index_in_group: u32 = index % sb.inodes_per_group;
        let gd = self.load_group_desc(sb, group)?;
        Ok(inode_offset(sb, gd, index_in_group))
    }

    /// Reads the bytes of an inode to the start of `out`.
    pub fn read_inode_raw(&mut self, ino: u32, out: &mut [u8]) -> (r: Result<(), i32>)
        requires
            old(self).sb.wf(),
            ino >= 1 && old(self).sb.inode_size <= old(out)@.len() ==> old(self).attached() && old(
                self,
            ).sb.inodes_per_group != 0,
        ensures
            final(out)@.len() == old(out)@.len(),
            ino < 1 || old(self).sb.inode_size > old(out)@.len() ==> *final(self) == *old(self)
                && final(out)@ == old(out)@,
            final(self).reads(
                *old(self),
                r,
                if ino < 1 || old(self).sb.inode_size > old(out)@.len() {
                    Err(EINVAL)
                } else {
                    Ok(())
                },
            ),
            r is Ok ==> final(out)@ == overlay(
                old(out)@,
                0,
                bytes_at(
                    old(self).image(),
                    inode_addr(old(self).image(), old(self).sb, ino),
                    old(self).sb.inode_size as nat,
                ),
            ),
            is_filled(
                old(out)@,
                final(out)@,
                bytes_at(
                    old(self).image(),
                    inode_addr(old(self).image(), old(self).sb, ino),
                    old(self).sb.inode_size as nat,
                ),
            ),
    {
        let size: usize = self.sb.inode_size as usize;
        let ghost bytes = bytes_at(
            self.image(),
            inode_addr(self.image(), self.sb, ino),
            self.sb.inode_size as nat,
        );
        proof {
            lemma_filled_none(out@, bytes);
        }
        if ino < 1 || size > out.len() {
            return Err(EINVAL);
        }
        let offset: u64 = self.locate_inode(ino)?;
        let ghost img = self.image();
        let ghost before = out@;
        let ghost tail = out@.skip(size as int);
        let (head, _rest) = out.split_at_mut(size);
        let rc: i32 = self.read_exact(offset, head);
        proof {
            lemma_filled_head(before, head@, bytes);
        }
        if rc != 0 {
            return Err(rc);
        }
        assert(head@ + tail =~= overlay(before, 0, bytes_at(img, offset as int, size as nat)));
        Ok(())
    }

    /// Stores the start of `data` as the bytes of an inode.
    pub fn write_inode_raw(&mut self, ino: u32, data: &[u8]) -> (rc: i32)
        requires
            old(self).sb.wf(),
            ino >= 1 && old(self).sb.inode_size <= data@.len() ==> old(self).attached() && old(
                self,
            ).sb.inodes_per_group != 0,
        ensures
            ino < 1 || old(self).sb.inode_size > data@.len() ==> *final(self) == *old(self),
            final(self).writes(
                *old(self),
                status(rc),
                inode_stored(old(self).image(), old(self).sb, ino, data@),
            ),
            rc != 0 ==> final(self).medium() == old(self).medium() || is_cut_short(
                old(self).medium(),
                final(self).medium(),
                inode_addr(old(self).image(), old(self).sb, ino),
                data@.take(old(self).sb.inode_size as int),
            ),
            is_touched(
                old(self).medium(),
                final(self).medium(),
                area(old(self).image(), old(self).sb, Place::Inode(ino)),
            ),
    {
        let size: usize = self.sb.inode_size as usize;
        if ino < 1 || size > data.len() {
            return EINVAL;
        }
        let offset: u64 = match self.locate_inode(ino) {
            Ok(v) => v,
            Err(rc) => return rc,
        };
        let (head, _rest) = data.split_at(size);
        assert(head@ =~= data@.take(size as int));
        self.write_exact(offset, head)
    }

    /// Reads the inode of a number.
    pub fn load_inode(&mut self, ino: u32) -> (r: Result<Inode, i32>)
        requires
            old(self).sb.wf(),
            ino >= 1 ==> old(self).attached() && old(self).sb.inodes_per_group != 0,
        ensures
            ino < 1 ==> *final(self) == *old(self),
            final(self).reads(
                *old(self),
                viewed(r),
                inode_numbered(old(self).image(), old(self).sb, ino),
            ),
    {
        if ino < 1 {
            return Err(EINVAL);
        }
        let offset: u64 = self.locate_inode(ino)?;
        let ghost img = self.image();
        let mut blocks: [u32; 15] = [0u32;15];
        let mut i: usize = 0;
        while i < 15
            invariant
                i <= 15,
                ino >= 1,
                offset <= 0x2_0000_0000_0000,
                self.attached(),
                self.goes_on(*old(self)),
                self.quiet(*old(self)),
                self.holds(*old(self)),
                self.image() == img,
                img == old(self).image(),
                forall|j: int|
                    0 <= j < i ==> blocks@[j] == #[trigger] u32_at(img, offset + 40 + 4 * j),
            decreases 15 - i,
        {
            let v: u32 = match self.read_u32(offset + 40 + (i as u64) * 4) {
                Ok(v) => v,
                Err(e) => return Err(e),
            };
            blocks[i] = v;
            i += 1;
        }
        let inode = Inode {
            mode: self.read_u16(offset)?,
            size: self.read_u32(offset + 4)?,
            blocks,
        };
        assert(inode@ =~= inode_at(img, offset as int));
        Ok(inode)
    }

    /// Reads an entry of an indirect block.
    pub fn read_indirect_entry(&mut self, block: u32, index: usize) -> (r: Result<u32, i32>)
        requires
            old(self).sb.wf(),
            index < 0x1_0000_0000,
        ensures
            !old(self).attached() ==> final(self).refuses(*old(self), r),
            old(self).attached() ==> final(self).reads(
                *old(self),
                r,
                Ok(u32_at(old(self).image(), block * old(self).sb.block_size + 4 * index)),
            ),
    {
        let sb = self.sb;
        proof {
            lemma_product_bound(block as int, sb.block_size as int, 0xffff_ffff, 4096);
        }
        self.read_u32(block as u64 * sb.block_size as u64 + (index as u64) * 4)
    }

    /// Stores an entry of an indirect block.
    pub fn write_indirect_entry(&mut self, block: u32, index: usize, value: u32) -> (rc: i32)
        requires
            old(self).sb.wf(),
            index < 0x1_0000_0000,
        ensures
            !old(self).attached() ==> final(self).refuses(*old(self), status(rc)),
            old(self).attached() ==> final(self).writes(
                *old(self),
                status(rc),
                (
                    patched(
                        old(self).image(),
                        block * old(self).sb.block_size + 4 * index,
                        le32_bytes(value),
                    ),
                    Ok(()),
                ),
            ),
            old(self).attached() ==> is_touched(
                old(self).medium(),
                final(self).medium(),
                stretch(block * old(self).sb.block_size + 4 * index, 4),
            ),
    {
        let sb = self.sb;
        proof {
            lemma_product_bound(block as int, sb.block_size as int, 0xffff_ffff, 4096);
        }
        self.write_u32(block as u64 * sb.block_size as u64 + (index as u64) * 4, value)
    }

    /// The block that holds block `block_index` of a file; 0 for a hole.
    pub fn data_block_number(&mut self, inode: Inode, block_index: u64) -> (r: Result<u32, i32>)
        requires
            old(self).sb.wf(),
            is_indirect(old(self).sb, inode@, block_index as int) ==> old(self).attached(),
        ensures
            !is_indirect(old(self).sb, inode@, block_index as int) ==> *final(self) == *old(self),
            final(self).reads(
                *old(self),
                r,
                block_of(old(self).image(), old(self).sb, inode@, block_index as int),
            ),
    {
        let sb = self.sb;
        if block_index < 12 {
            return Ok(inode.blocks[block_index as usize]);
        }
        let entries_per_block: u64 = (sb.block_size / 4) as u64;
        let single_index: u64 = block_index - 12;
        if single_index >= entries_per_block {
            return Err(ENOSYS);
        }
        let indirect: u32 = inode.blocks[12];
        if indirect == 0 {
            return Ok(0);
        }
        self.read_indirect_entry(indirect, single_index as usize)
    }

    /// Reads a block to the start of `data`.
    pub fn read_block(&mut self, block: u32, data: &mut [u8]) -> (rc: i32)
        requires
            old(self).attached(),
            old(self).sb.wf(),
            old(self).sb.block_size <= old(data)@.len(),
        ensures
            final(data)@.len() == old(data)@.len(),
            final(self).reads(*old(self), status(rc), Ok(())),
            rc == 0 ==> final(data)@ == overlay(
                old(data)@,
                0,
                block_bytes(old(self).image(), old(self).sb, block),
            ),
            is_filled(
                old(data)@,
                final(data)@,
                block_bytes(old(self).image(), old(self).sb, block),
            ),
    {
        let sb = self.sb;
        proof {
            lemma_product_bound(block as int, sb.block_size as int, 0xffff_ffff, 4096);
        }
        let size: usize = sb.block_size as usize;
        let ghost img = self.image();
        let ghost before = data@;
        let ghost tail = data@.skip(size as int);
        let (head, _rest) = data.split_at_mut(size);
        let rc: i32 = self.read_exact(block as u64 * sb.block_size as u64, head);
        proof {
            lemma_filled_head(before, head@, block_bytes(img, sb, block));
        }
        if rc == 0 {
            assert(head@ + tail =~= overlay(before, 0, block_bytes(img, sb, block)));
        }
        rc
    }

    /// Fills a block from the start of `data`.
    pub fn write_block(&mut self, block: u32, data: &[u8]) -> (rc: i32)
        requires
            old(self).attached(),
            old(self).sb.wf(),
            old(self).sb.block_size <= data@.len(),
        ensures
            final(self).writes(
                *old(self),
                status(rc),
                (block_stored(old(self).image(), old(self).sb, block, data@), Ok(())),
            ),
            rc != 0 ==> old(self).sb.block_size != 0 && is_cut_short(
                old(self).medium(),
                final(self).medium(),
                block * old(self).sb.block_size,
                data@.take(old(self).sb.block_size as int),
            ),
            is_touched(
                old(self).medium(),
                final(self).medium(),
                block_stretch(old(self).sb, block),
            ),
    {
        let sb = self.sb;
        proof {
            lemma_product_bound(block as int, sb.block_size as int, 0xffff_ffff, 4096);
        }
        let size: usize = sb.block_size as usize;
        let (head, _rest) = data.split_at(size);
        assert(head@ =~= data@.take(size as int));
        self.write_exact(block as u64 * sb.block_size as u64, head)
    }
}

/// Whether the number of a block of a file is looked up in its indirect block.
pub open spec fn is_indirect(sb: Superblock, inode: InodeView, index: int) -> bool {
    12 <= index < 12 + sb.block_size / 4 && inode.blocks[12] != 0
}

/// The disk after the start of `raw` is stored as the bytes of an inode.
pub open spec fn inode_stored(img: Image, sb: Superblock, ino: u32, raw: Seq<u8>) -> (
    Image,
    Result<(), i32>,
) {
    if ino < 1 || sb.inode_size > raw.len() {
        (img, Err(EINVAL))
    } else {
        (patched(img, inode_addr(img, sb, ino), raw.take(sb.inode_size as int)), Ok(()))
    }
}

} // verus!
