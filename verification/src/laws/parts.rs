//! What calls of the parts that the operations are made of come to, in plain
//! numbers.

use vstd::prelude::*;
use crate::abi::{path_bytes, McxPath};
use crate::bitmap::{bit_is_set, bitmap_at, first_clear, lemma_first_clear};
use crate::codec::{copy_range, get_u16, get_u32, make_u16, make_u32, set_u16, set_u32};
use crate::dir::{same_bytes, span};
use crate::disk::McxDiskOps;
use crate::entry::round_up_4;
use crate::laws::calls::{disk_of, ran_well};
use crate::laws::format::{
    descriptor, fails_with, half, is_size_exponent, law_block_numbers, law_inode_is_stored,
    law_inode_lies_in_table,
    law_mode_tells_type, law_superblock_holds_numbers, word,
};
use crate::laws::making::{field32, is_put, lemma_put16, lemma_put32};
use crate::laws::naming::{is_all_slashes, is_plain_name, law_split_at_last_name};
use crate::laws::supply::{has_bit, lemma_bit, lemma_bit_stored, weight};
use crate::layout::{
    group_desc_offset, inode_blocks_512, inode_offset, is_dir, is_file, load_inode_from_raw,
    set_inode_block_ptr, set_inode_blocks_512, GroupDesc, Inode, Superblock,
};
use crate::mapping::charge;
use crate::path::split_parent;
use crate::state::State;

verus! {

/// Two bytes make a 16-bit number and four a 32-bit one, the lower ones first.
pub proof fn law_numbers_are_made(b0: u8, b1: u8, b2: u8, b3: u8, v: u16, w: u32)
    requires
        call_ensures(make_u16, (b0, b1), v),
        call_ensures(make_u32, (b0, b1, b2, b3), w),
    ensures
        v == b0 + 256 * b1,
        w == b0 + 256 * b1 + 65536 * b2 + 16777216 * b3,
{
}

/// A number is read from the bytes at its place.
pub proof fn law_numbers_are_got(buf: &[u8], offset: usize, v: u16, w: u32)
    requires
        offset + 4 <= buf@.len(),
        call_ensures(get_u16, (buf, offset), v),
        call_ensures(get_u32, (buf, offset), w),
    ensures
        v == buf@[offset as int] + 256 * buf@[offset + 1],
        w == field32(buf@, offset as int),
{
}

/// A 16-bit number is put into the two bytes at its place, whole, and no other byte
/// changes.
pub proof fn law_half_is_set(buf: &mut [u8], offset: usize, value: u16)
    requires
        offset + 2 <= old(buf)@.len(),
        call_ensures(set_u16, (buf, offset, value), ()),
    ensures
        is_put(old(buf)@, final(buf)@, offset as int, 2, value as int),
{
    lemma_put16(old(buf)@, offset as int, value);
}

/// A 32-bit number is put into the four bytes at its place, whole, and no other byte
/// changes.
pub proof fn law_word_is_set(buf: &mut [u8], offset: usize, value: u32)
    requires
        offset + 4 <= old(buf)@.len(),
        call_ensures(set_u32, (buf, offset, value), ()),
    ensures
        is_put(old(buf)@, final(buf)@, offset as int, 4, value as int),
{
    lemma_put32(old(buf)@, offset as int, value);
}

/// A copied range is that of the source, and the rest of the target stays.
pub proof fn law_range_is_copied(
    dst: &mut [u8],
    at: usize,
    src: &[u8],
    from: usize,
    len: usize,
    i: int,
)
    requires
        at + len <= old(dst)@.len(),
        from + len <= src@.len(),
        call_ensures(copy_range, (dst, at, src, from, len), ()),
        0 <= i < old(dst)@.len(),
    ensures
        final(dst)@.len() == old(dst)@.len(),
        final(dst)@[i] == if at <= i < at + len {
            src@[from + i - at]
        } else {
            old(dst)@[i]
        },
{
}

/// Names are the same where they are equally long and no byte differs.
pub proof fn law_names_are_compared(a: &[u8], b: &[u8], same: bool)
    requires
        call_ensures(same_bytes, (a, b), same),
    ensures
        same <==> a@.len() == b@.len() && forall|i: int| 0 <= i < a@.len() ==> a@[i] == b@[i],
{
    if a@.len() == b@.len() && forall|i: int| 0 <= i < a@.len() ==> a@[i] == b@[i] {
        assert(a@ =~= b@);
    }
}

/// An inode in a buffer is read whole: its mode, its size, each of its 15 block
/// numbers and its count of blocks of 512 bytes.
pub proof fn law_inode_is_loaded(raw: &[u8], inode: Inode, n: u32, k: int)
    requires
        raw@.len() >= 100,
        0 <= k < 15,
        call_ensures(load_inode_from_raw, (raw,), inode),
        call_ensures(inode_blocks_512, (raw,), n),
    ensures
        inode@.mode == raw@[0] + 256 * raw@[1],
        inode@.size == field32(raw@, 4),
        inode@.blocks[k] == field32(raw@, 40 + 4 * k),
        n == field32(raw@, 28),
{
}

/// A block number is set in the inode at its place, whichever it is, and nothing
/// else changes.
pub proof fn law_block_number_is_set(raw: &mut [u8], index: usize, value: u32)
    requires
        44 + 4 * index <= old(raw)@.len(),
        call_ensures(set_inode_block_ptr, (raw, index, value), ()),
    ensures
        is_put(old(raw)@, final(raw)@, 40 + 4 * index, 4, value as int),
{
    lemma_put32(old(raw)@, 40 + 4 * index, value);
}

/// The count of blocks of 512 bytes is set in bytes 28 to 31 of the inode, and
/// nothing else changes.
pub proof fn law_count_is_set(raw: &mut [u8], value: u32)
    requires
        old(raw)@.len() >= 32,
        call_ensures(set_inode_blocks_512, (raw, value), ()),
    ensures
        is_put(old(raw)@, final(raw)@, 28, 4, value as int),
{
    lemma_put32(old(raw)@, 28, value);
}

/// A further block adds as many blocks of 512 bytes to the count as it takes, where
/// the sum fits in 32 bits, and nothing else changes.
pub proof fn law_block_is_charged(sb: Superblock, raw: &mut [u8])
    requires
        old(raw)@.len() >= 100,
        field32(old(raw)@, 28) + sb.block_size / 512 < 4294967296,
        call_ensures(charge, (sb, raw), ()),
    ensures
        is_put(
            old(raw)@,
            final(raw)@,
            28,
            4,
            field32(old(raw)@, 28) + sb.block_size / 512,
        ),
{
    let n = (field32(old(raw)@, 28) + sb.block_size / 512) as u32;
    lemma_put32(old(raw)@, 28, n);
}

/// A mode is that of a directory if its highest four bits are 4, and that of a file
/// if they are 8.
pub proof fn law_types_are_told(mode: u16, dir: bool, file: bool)
    requires
        call_ensures(is_dir, (mode,), dir),
        call_ensures(is_file, (mode,), file),
    ensures
        dir <==> mode as int / 4096 == 4,
        file <==> mode as int / 4096 == 8,
{
    law_mode_tells_type(mode);
}

/// Descriptors follow each other every 32 bytes, and the inodes of a table at their
/// size.
pub proof fn law_places_are_computed(
    sb: Superblock,
    gd: GroupDesc,
    group: u32,
    index: u32,
    a: u64,
    b: u64,
)
    requires
        call_ensures(group_desc_offset, (sb, group), a),
        call_ensures(inode_offset, (sb, gd, index), b),
    ensures
        a == descriptor(sb, group as int),
        b == gd.inode_table * sb.block_size + index * sb.inode_size,
{
}

/// A length is rounded up to the nearest multiple of 4, and a file spans as many
/// blocks as its bytes need.
pub proof fn law_lengths_are_rounded(value: usize, r: usize, sb: Superblock, size: u32, n: usize)
    requires
        value <= usize::MAX - 3,
        sb.block_size != 0,
        call_ensures(round_up_4, (value,), r),
        call_ensures(span, (sb, size), n),
    ensures
        r as int % 4 == 0,
        value <= r < value + 4,
        n * sb.block_size >= size,
        size > 0 ==> (n - 1) * sb.block_size < size,
        size == 0 ==> n == 0,
{
    let b = sb.block_size as int;
    let m = (size + b - 1) / b;
    assert(m * b >= size && (m - 1) * b < size) by (nonlinear_arith)
        requires
            b > 0,
            size >= 0,
            m == (size + b - 1) / b,
    ;
    if size == 0 {
        assert(m == 0) by (nonlinear_arith)
            requires
                b > 0,
                m == (b - 1) / b,
        ;
    }
}

/// The bytes of a path are those that were handed over.
pub proof fn law_path_is_taken<'a>(path: McxPath<'a>, bytes: Option<&'a [u8]>)
    requires
        call_ensures(path_bytes, (path,), bytes),
    ensures
        bytes == path.ptr,
{
}

/// A superblock is read whole, at its place 1024 bytes from the start of the disk;
/// one without the magic number, or with a block size that is not taken, is refused.
pub proof fn law_superblock_call<D: McxDiskOps>(s: &mut State<D>, r: Result<Superblock, i32>)
    requires
        old(s).disk_ops is Some,
        call_ensures(State::<D>::load_superblock, (s,), r),
        ran_well(*old(s), *final(s)),
    ensures
        disk_of(*final(s)) == disk_of(*old(s)),
        r is Ok <==> half(disk_of(*old(s)), 1080) == 61267 && is_size_exponent(
            word(disk_of(*old(s)), 1048),
        ),
        r is Err ==> fails_with(r, -22),
        r matches Ok(sb) ==> {
            let img = disk_of(*old(s));
            &&& sb.inodes_count == word(img, 1024)
            &&& sb.blocks_count == word(img, 1028)
            &&& sb.blocks_per_group == word(img, 1056)
            &&& sb.inodes_per_group == word(img, 1064)
            &&& sb.first_inode == word(img, 1108)
            &&& sb.inode_size == half(img, 1112)
        },
{
    law_superblock_holds_numbers(disk_of(*old(s)));
}

/// A group's descriptor is read whole: three 32-bit numbers from its place on.
pub proof fn law_descriptor_call<D: McxDiskOps>(
    s: &mut State<D>,
    sb: Superblock,
    group: u32,
    r: Result<GroupDesc, i32>,
)
    requires
        old(s).disk_ops is Some,
        call_ensures(State::<D>::load_group_desc, (s, sb, group), r),
        ran_well(*old(s), *final(s)),
    ensures
        disk_of(*final(s)) == disk_of(*old(s)),
        r matches Ok(gd) && {
            let img = disk_of(*old(s));
            let d = descriptor(sb, group as int);
            &&& gd.block_bitmap == word(img, d)
            &&& gd.inode_bitmap == word(img, d + 4)
            &&& gd.inode_table == word(img, d + 8)
        },
{
}

/// An inode is read from its place in the table of its group, in any group.
pub proof fn law_inode_call<D: McxDiskOps>(
    s: &mut State<D>,
    group: u32,
    i: u32,
    ino: u32,
    k: int,
    r: Result<Inode, i32>,
)
    requires
        old(s).disk_ops is Some,
        i < old(s).sb.inodes_per_group,
        ino == group * old(s).sb.inodes_per_group + i + 1,
        0 <= k < 15,
        call_ensures(State::<D>::load_inode, (s, ino), r),
        ran_well(*old(s), *final(s)),
    ensures
        disk_of(*final(s)) == disk_of(*old(s)),
        r matches Ok(inode) && {
            let img = disk_of(*old(s));
            let sb = old(s).sb;
            let at = word(img, descriptor(sb, group as int) + 8) * sb.block_size + i
                * sb.inode_size;
            &&& inode@.mode == half(img, at)
            &&& inode@.size == word(img, at + 4)
            &&& inode@.blocks[k] == word(img, at + 40 + 4 * k)
        },
{
    law_inode_lies_in_table(disk_of(*old(s)), old(s).sb, group, i, ino, k);
}

/// The number of a file's block comes from the inode or from the indirect block,
/// and there is none behind the last that the latter has room for.
pub proof fn law_block_number_call<D: McxDiskOps>(
    s: &mut State<D>,
    inode: Inode,
    index: u64,
    r: Result<u32, i32>,
)
    requires
        old(s).disk_ops is Some,
        call_ensures(State::<D>::data_block_number, (s, inode, index), r),
        ran_well(*old(s), *final(s)),
    ensures
        disk_of(*final(s)) == disk_of(*old(s)),
        index < 12 ==> r == Ok::<u32, i32>(inode@.blocks[index as int]),
        index >= 12 && 4 * (index - 12) + 4 > old(s).sb.block_size ==> fails_with(r, -38),
        index >= 12 && 4 * (index - 12) + 4 <= old(s).sb.block_size ==> {
            let at = inode@.blocks[12] * old(s).sb.block_size + 4 * (index - 12);
            &&& r is Ok
            &&& r->Ok_0 == if inode@.blocks[12] == 0 {
                0
            } else {
                word(disk_of(*old(s)), at)
            }
        },
{
    law_block_numbers(disk_of(*old(s)), old(s).sb, inode@, index as int);
}

/// The first clear bit of a bitmap, from the one that a search starts at on and below
/// a limit, is set and given; nothing else changes. Where there is none, the answer
/// is -28 and the disk stays as it was.
pub proof fn law_bit_is_set<D: McxDiskOps>(
    s: &mut State<D>,
    block: u32,
    start: u32,
    max: u32,
    r: Result<u32, i32>,
)
    requires
        old(s).disk_ops is Some,
        old(s).sb.wf(),
        max <= 8 * old(s).sb.block_size,
        call_ensures(State::<D>::alloc_bitmap_bit, (s, block, start, max), r),
        ran_well(*old(s), *final(s)),
    ensures
        ({
            let (x, y) = (disk_of(*old(s)), disk_of(*final(s)));
            let at = block * old(s).sb.block_size;
            &&& r matches Ok(bit) ==> {
                let i = at + bit as int / 8;
                &&& start <= bit < max
                &&& !has_bit(x, at, bit as int)
                &&& forall|k: int| start <= k < bit ==> #[trigger] has_bit(x, at, k)
                &&& y(i) == x(i) + weight(bit as int % 8)
                &&& forall|j: int| j != i ==> #[trigger] y(j) == x(j)
            }
            &&& r is Err ==> {
                &&& fails_with(r, -28)
                &&& y == x
                &&& forall|k: int| start <= k < max ==> #[trigger] has_bit(x, at, k)
            }
        }),
{
    let x = disk_of(*old(s));
    let sb = old(s).sb;
    let at = block * sb.block_size;
    lemma_first_clear(bitmap_at(x, sb, block), start, max);
    let end = match first_clear(bitmap_at(x, sb, block), start, max) {
        Some(bit) => bit as int,
        None => max as int,
    };
    assert forall|k: int| start <= k < end implies #[trigger] has_bit(x, at, k) by {
        lemma_bit(x, sb, block, k as u32);
        assert(bit_is_set(bitmap_at(x, sb, block), k as u32));
    }
    if let Ok(bit) = r {
        lemma_bit(x, sb, block, bit);
        lemma_bit_stored(x, sb, block, bit);
    }
}

/// A bit of a bitmap is cleared, and nothing else changes.
pub proof fn law_bit_is_cleared<D: McxDiskOps>(
    s: &mut State<D>,
    block: u32,
    bit: u32,
    r: Result<(), i32>,
)
    requires
        old(s).disk_ops is Some,
        old(s).sb.wf(),
        bit < 8 * old(s).sb.block_size,
        call_ensures(State::<D>::clear_bitmap_bit, (s, block, bit), r),
        ran_well(*old(s), *final(s)),
    ensures
        ({
            let (x, y) = (disk_of(*old(s)), disk_of(*final(s)));
            let at = block * old(s).sb.block_size;
            let i = at + bit as int / 8;
            &&& r is Ok
            &&& y(i) == x(i) - if has_bit(x, at, bit as int) {
                weight(bit as int % 8)
            } else {
                0
            }
            &&& forall|j: int| j != i ==> #[trigger] y(j) == x(j)
        }),
{
    lemma_bit_stored(disk_of(*old(s)), old(s).sb, block, bit);
}

/// A counter of 16 bits goes down by 1 unless it is 0, which is answered with -28.
pub proof fn law_counter_goes_down<D: McxDiskOps>(s: &mut State<D>, a: u64, r: Result<(), i32>)
    requires
        old(s).disk_ops is Some,
        call_ensures(State::<D>::decrement_u16_at, (s, a), r),
        ran_well(*old(s), *final(s)),
    ensures
        ({
            let (x, y) = (disk_of(*old(s)), disk_of(*final(s)));
            &&& half(x, a as int) == 0 ==> fails_with(r, -28) && y == x
            &&& half(x, a as int) != 0 ==> r is Ok && half(y, a as int) == half(x, a as int) - 1
            &&& forall|j: int| !(a <= j < a + 2) ==> #[trigger] y(j) == x(j)
        }),
{
}

/// A counter of 16 bits goes up by 1 and wraps.
pub proof fn law_counter_goes_up<D: McxDiskOps>(s: &mut State<D>, a: u64, r: Result<(), i32>)
    requires
        old(s).disk_ops is Some,
        call_ensures(State::<D>::increment_u16_at, (s, a), r),
        ran_well(*old(s), *final(s)),
    ensures
        ({
            let (x, y) = (disk_of(*old(s)), disk_of(*final(s)));
            &&& r is Ok
            &&& half(y, a as int) == (half(x, a as int) + 1) % 65536
            &&& forall|j: int| !(a <= j < a + 2) ==> #[trigger] y(j) == x(j)
        }),
{
}

/// Any stretch of the disk can be read, at whatever byte it starts and ends.
pub proof fn law_stretch_is_read<D: McxDiskOps>(
    s: &mut State<D>,
    a: u64,
    out: &mut [u8],
    rc: i32,
    i: int,
)
    requires
        old(s).disk_ops is Some,
        call_ensures(State::<D>::read_exact, (s, a, out), rc),
        ran_well(*old(s), *final(s)),
        0 <= i < old(out)@.len(),
    ensures
        rc == 0,
        disk_of(*final(s)) == disk_of(*old(s)),
        final(out)@.len() == old(out)@.len(),
        final(out)@[i] == disk_of(*old(s))(a + i),
{
}

/// Any stretch of the disk can be stored to, at whatever byte it starts and ends, and
/// no other byte changes.
pub proof fn law_stretch_is_stored<D: McxDiskOps>(
    s: &mut State<D>,
    a: u64,
    data: &[u8],
    rc: i32,
    i: int,
)
    requires
        old(s).disk_ops is Some,
        data@.len() > 0,
        call_ensures(State::<D>::write_exact, (s, a, data), rc),
        ran_well(*old(s), *final(s)),
    ensures
        rc == 0,
        disk_of(*final(s))(i) == if a <= i < a + data@.len() {
            data@[i - a]
        } else {
            disk_of(*old(s))(i)
        },
{
}

/// A number is read from the disk whole.
pub proof fn law_numbers_are_read<D: McxDiskOps>(
    s: &mut State<D>,
    t: &mut State<D>,
    a: u64,
    v: Result<u16, i32>,
    w: Result<u32, i32>,
)
    requires
        old(s).disk_ops is Some,
        call_ensures(State::<D>::read_u16, (s, a), v),
        ran_well(*old(s), *final(s)),
        old(t).disk_ops is Some,
        call_ensures(State::<D>::read_u32, (t, a), w),
        ran_well(*old(t), *final(t)),
    ensures
        v is Ok && v->Ok_0 == half(disk_of(*old(s)), a as int),
        w is Ok && w->Ok_0 == word(disk_of(*old(t)), a as int),
{
}

/// A number is stored on the disk whole, and nothing else changes.
pub proof fn law_numbers_are_written<D: McxDiskOps>(
    s: &mut State<D>,
    t: &mut State<D>,
    a: u64,
    v: u16,
    w: u32,
    rc: i32,
    rd: i32,
)
    requires
        old(s).disk_ops is Some,
        call_ensures(State::<D>::write_u16, (s, a, v), rc),
        ran_well(*old(s), *final(s)),
        old(t).disk_ops is Some,
        call_ensures(State::<D>::write_u32, (t, a, w), rd),
        ran_well(*old(t), *final(t)),
    ensures
        rc == 0 && half(disk_of(*final(s)), a as int) == v,
        rd == 0 && word(disk_of(*final(t)), a as int) == w,
        forall|i: int|
            !(a <= i < a + 2) ==> #[trigger] disk_of(*final(s))(i) == disk_of(*old(s))(i),
        forall|i: int|
            !(a <= i < a + 4) ==> #[trigger] disk_of(*final(t))(i) == disk_of(*old(t))(i),
{
}

/// A block is read into the start of a buffer, and the rest of the buffer stays.
pub proof fn law_block_is_read<D: McxDiskOps>(
    s: &mut State<D>,
    block: u32,
    data: &mut [u8],
    rc: i32,
    i: int,
)
    requires
        old(s).disk_ops is Some,
        call_ensures(State::<D>::read_block, (s, block, data), rc),
        ran_well(*old(s), *final(s)),
        0 <= i < old(data)@.len(),
    ensures
        rc == 0,
        disk_of(*final(s)) == disk_of(*old(s)),
        final(data)@[i] == if i < old(s).sb.block_size {
            disk_of(*old(s))(block * old(s).sb.block_size + i)
        } else {
            old(data)@[i]
        },
{
}

/// A block is stored from the start of a buffer, and no byte outside it changes.
pub proof fn law_block_is_stored<D: McxDiskOps>(
    s: &mut State<D>,
    block: u32,
    data: &[u8],
    rc: i32,
    i: int,
)
    requires
        old(s).disk_ops is Some,
        old(s).sb.block_size <= data@.len(),
        call_ensures(State::<D>::write_block, (s, block, data), rc),
        ran_well(*old(s), *final(s)),
    ensures
        rc == 0,
        ({
            let at = block * old(s).sb.block_size;
            disk_of(*final(s))(i) == if at <= i < at + old(s).sb.block_size {
                data@[i - at]
            } else {
                disk_of(*old(s))(i)
            }
        }),
{
}

/// A path is split at its last name, whatever slashes follow that. The name of the
/// root directory cannot be split off, nor can one from a path that is not absolute.
pub proof fn law_path_is_split<'a>(
    path: &'a [u8],
    head: Seq<u8>,
    name: Seq<u8>,
    tail: Seq<u8>,
    r: Result<(&'a [u8], &'a [u8]), i32>,
)
    requires
        call_ensures(split_parent, (path,), r),
    ensures
        (head.len() == 0 || head[0] == 47) && is_plain_name(name) && is_all_slashes(tail) && path@
            == head + seq![47u8] + name + tail ==> {
            &&& r is Ok
            &&& (r->Ok_0).0@ == if head.len() == 0 {
                seq![47u8]
            } else {
                head
            }
            &&& (r->Ok_0).1@ == name
        },
        path@.len() == 0 || path@[0] != 47 || is_all_slashes(path@) ==> fails_with(r, -22),
{
    law_split_at_last_name(head, name, tail, path@);
}

/// Paths can be resolved where there is a driver and blocks and groups of inodes have
/// a size.
pub proof fn law_readiness_is_told<D: McxDiskOps>(s: &State<D>, b: bool)
    requires
        call_ensures(State::<D>::is_ready, (s,), b),
        s.sb.wf(),
    ensures
        b <==> s.disk_ops is Some && s.sb.block_size > 0 && s.sb.inodes_per_group > 0,
{
}

/// The first group has bits for what it can give out where that is at most 32768, or
/// where the bits that a smaller block lacks count as clear.
pub proof fn law_tracking_is_told(sb: &Superblock, inodes: bool, blocks: bool)
    requires
        call_ensures(Superblock::are_inodes_tracked, (sb,), inodes),
        call_ensures(Superblock::are_blocks_tracked, (sb,), blocks),
    ensures
        inodes <==> sb.inodes_per_group > 0 && (sb.inodes_per_group <= 32768 || sb.inodes_count
            <= 32768 || sb.block_size < 4096 && sb.first_inode <= 32768),
        blocks <==> sb.blocks_per_group > 0 && (sb.blocks_per_group <= 32768 || sb.blocks_count
            <= 32768 || sb.block_size < 4096),
{
}

/// At the start there is neither a driver nor a volume.
pub proof fn law_nothing_at_first<D: McxDiskOps>(s: State<D>)
    requires
        call_ensures(State::<D>::new, (), s),
    ensures
        s.disk_ops is None,
        !s.mounted,
        s.disk_id == 0,
        s.sb.blocks_count == 0,
        s.sb.block_size == 0,
        s.sb.inode_size == 0,
        s.sb.first_inode == 0,
        s.sb.blocks_per_group == 0,
        s.sb.inodes_per_group == 0,
        s.sb.inodes_count == 0,
{
}

/// An inode is read into the start of a buffer with all its bytes, and stored from
/// there. A buffer that is too small is refused.
pub proof fn law_inode_is_moved<D: McxDiskOps>(
    s: &mut State<D>,
    t: &mut State<D>,
    group: u32,
    i: u32,
    ino: u32,
    out: &mut [u8],
    data: &[u8],
    r: Result<(), i32>,
    rc: i32,
    j: int,
)
    requires
        old(s).disk_ops is Some,
        i < old(s).sb.inodes_per_group,
        ino == group * old(s).sb.inodes_per_group + i + 1,
        call_ensures(State::<D>::read_inode_raw, (s, ino, out), r),
        ran_well(*old(s), *final(s)),
        old(t).disk_ops is Some,
        old(t).sb == old(s).sb,
        disk_of(*old(t)) == disk_of(*old(s)),
        call_ensures(State::<D>::write_inode_raw, (t, ino, data), rc),
        ran_well(*old(t), *final(t)),
    ensures
        old(s).sb.inode_size > old(out)@.len() ==> fails_with(r, -22) && final(out)@ == old(
            out,
        )@,
        old(s).sb.inode_size > data@.len() ==> rc == -22 && disk_of(*final(t)) == disk_of(
            *old(t),
        ),
        ({
            let img = disk_of(*old(s));
            let sb = old(s).sb;
            let at = word(img, descriptor(sb, group as int) + 8) * sb.block_size + i
                * sb.inode_size;
            &&& sb.inode_size <= old(out)@.len() && 0 <= j < old(out)@.len() ==> r is Ok
                && final(out)@[j] == if j < sb.inode_size {
                img(at + j)
            } else {
                old(out)@[j]
            }
            &&& sb.inode_size <= data@.len() ==> rc == 0 && disk_of(*final(t))(j) == if at <= j
                < at + sb.inode_size {
                data@[j - at]
            } else {
                img(j)
            }
        }),
{
    let (img, sb) = (disk_of(*old(s)), old(s).sb);
    law_inode_lies_in_table(img, sb, group, i, ino, 0);
    law_inode_is_stored(img, sb, ino, data@, j);
}

} // verus!
