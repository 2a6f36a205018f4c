//! What the bytes of a volume stand for, byte by byte and in plain numbers.

use vstd::arithmetic::div_mod::lemma_fundamental_div_mod_converse;
use vstd::prelude::*;
use crate::codec::{le16_bytes, le32_bytes, put_u16, put_u32, seq_u16, seq_u32};
use crate::dir::resolved;
use crate::disk::{bytes_at, patched, Image};
use crate::entry::raw_inode;
use crate::layout::{
    block_bytes, block_of, block_span, block_stored, group_desc_addr, group_desc_at, inode_addr,
    inode_in, inode_numbered, inode_stored, mode_is_dir, mode_is_file, superblock_at,
    InodeView, Superblock,
};
use crate::state::{u16_at, u32_at};

verus! {

/// The number in two bytes, the lower one first.
pub open spec fn half(img: Image, a: int) -> int {
    img(a) + 256 * img(a + 1)
}

/// The number in four bytes, the lowest one first.
pub open spec fn word(img: Image, a: int) -> int {
    img(a) + 256 * img(a + 1) + 65536 * img(a + 2) + 16777216 * img(a + 3)
}

/// Whether a result is an error with a code.
pub open spec fn fails_with<T>(r: Result<T, i32>, code: int) -> bool {
    r matches Err(e) && e == code
}

/// The exponents of the block sizes that are taken: 1024, 2048 and 4096 bytes, and
/// those that shift 1024 out of 32 bits.
pub open spec fn is_size_exponent(log: int) -> bool {
    0 <= log <= 2 || 22 <= log <= 31
}

/// Where the descriptor of a group lies: in the block behind that of the
/// superblock, 32 bytes for each group.
pub open spec fn descriptor(sb: Superblock, group: int) -> int {
    32 * group + if sb.block_size == 1024 {
        2048
    } else {
        sb.block_size as int
    }
}

/// Numbers on a disk and in buffers are little-endian, and use all their bytes.
pub proof fn law_numbers_are_little_endian(img: Image, a: int, s: Seq<u8>, i: int)
    requires
        0 <= i,
        i + 4 <= s.len(),
    ensures
        u16_at(img, a) == img(a) + 256 * img(a + 1),
        u32_at(img, a) == img(a) + 256 * img(a + 1) + 65536 * img(a + 2) + 16777216 * img(a + 3),
        seq_u16(s, i) == s[i] + 256 * s[i + 1],
        seq_u32(s, i) == s[i] + 256 * s[i + 1] + 65536 * s[i + 2] + 16777216 * s[i + 3],
        half(img, a) == img(a) + 256 * img(a + 1),
        word(img, a) == img(a) + 256 * img(a + 1) + 65536 * img(a + 2) + 16777216 * img(a + 3),
{
}

/// The bytes that a number is stored as add up to it, and a number that is stored
/// in a buffer changes no other byte of it.
pub proof fn law_numbers_are_stored_whole(v: u16, w: u32, s: Seq<u8>, at: int, j: int)
    requires
        0 <= at,
        at + 4 <= s.len(),
        0 <= j < s.len(),
    ensures
        ({
            let b = le16_bytes(v);
            b.len() == 2 && b[0] + 256 * b[1] == v
        }),
        ({
            let b = le32_bytes(w);
            b.len() == 4 && b[0] + 256 * b[1] + 65536 * b[2] + 16777216 * b[3] == w
        }),
        ({
            let t = put_u16(s, at, v);
            &&& t.len() == s.len()
            &&& t[at] + 256 * t[at + 1] == v
            &&& j < at || at + 2 <= j ==> t[j] == s[j]
        }),
        ({
            let t = put_u32(s, at, w);
            &&& t.len() == s.len()
            &&& t[at] + 256 * t[at + 1] + 65536 * t[at + 2] + 16777216 * t[at + 3] == w
            &&& j < at || at + 4 <= j ==> t[j] == s[j]
        }),
{
}

/// A disk can be mounted exactly where it has the magic number and a block size
/// that is taken. Each field of the superblock is the whole number at its place.
pub proof fn law_superblock_holds_numbers(img: Image)
    ensures
        superblock_at(img) is Ok <==> img(1080) == 0x53 && img(1081) == 0xef && is_size_exponent(
            word(img, 1048),
        ),
        superblock_at(img) is Err ==> fails_with(superblock_at(img), -22),
        superblock_at(img) matches Ok(sb) ==> {
            &&& sb.inodes_count == img(1024) + 256 * img(1025) + 65536 * img(1026) + 16777216 * img(
                1027,
            )
            &&& sb.blocks_count == img(1028) + 256 * img(1029) + 65536 * img(1030) + 16777216 * img(
                1031,
            )
            &&& sb.blocks_per_group == img(1056) + 256 * img(1057) + 65536 * img(1058) + 16777216
                * img(1059)
            &&& sb.inodes_per_group == img(1064) + 256 * img(1065) + 65536 * img(1066) + 16777216
                * img(1067)
            &&& sb.first_inode == img(1108) + 256 * img(1109) + 65536 * img(1110) + 16777216 * img(
                1111,
            )
            &&& sb.inode_size == img(1112) + 256 * img(1113)
            &&& word(img, 1048) == 0 ==> sb.block_size == 1024
            &&& word(img, 1048) == 1 ==> sb.block_size == 2048
            &&& word(img, 1048) == 2 ==> sb.block_size == 4096
            &&& word(img, 1048) >= 22 ==> sb.block_size == 0
        },
{
}

/// The four bytes of a number, the lowest one first.
pub open spec fn four_bytes(n: u32) -> Seq<u8> {
    seq![
        (n % 256) as u8,
        (n / 256 % 256) as u8,
        (n / 65536 % 256) as u8,
        (n / 16777216) as u8,
    ]
}

/// A number that is stored on a disk is read back, and no other number changes.
proof fn lemma_word_stored(img: Image, at: int, n: u32)
    ensures
        ({
            let x = patched(img, at, four_bytes(n));
            &&& u32_at(x, at) == n
            &&& forall|b: int|
                b + 4 <= at || at + 4 <= b ==> #[trigger] u32_at(x, b) == u32_at(img, b)
            &&& forall|b: int|
                b + 2 <= at || at + 4 <= b ==> #[trigger] u16_at(x, b) == u16_at(img, b)
        }),
{
    let bytes = four_bytes(n);
    assert(bytes[0] + 256 * bytes[1] + 65536 * bytes[2] + 16777216 * bytes[3] == n);
}

/// The superblock of a disk after a number was stored.
proof fn lemma_field_mounted(img: Image, at: int, n: u32)
    requires
        at == 1024 || at == 1028 || at == 1056 || at == 1064 || at == 1108,
        superblock_at(img) is Ok,
    ensures
        ({
            let was = superblock_at(img)->Ok_0;
            superblock_at(patched(img, at, four_bytes(n))) == Ok::<Superblock, i32>(
                Superblock {
                    inodes_count: if at == 1024 { n } else { was.inodes_count },
                    blocks_count: if at == 1028 { n } else { was.blocks_count },
                    blocks_per_group: if at == 1056 { n } else { was.blocks_per_group },
                    inodes_per_group: if at == 1064 { n } else { was.inodes_per_group },
                    first_inode: if at == 1108 { n } else { was.first_inode },
                    ..was
                },
            )
        }),
{
    lemma_word_stored(img, at, n);
}

/// Mounting a disk after a 32-bit number was stored in a field of its superblock
/// gives that number for the field, whatever the number is, and the old ones for
/// the other fields.
pub proof fn law_stored_field_is_mounted(img: Image, n: u32)
    requires
        superblock_at(img) is Ok,
    ensures
        ({
            let bytes = four_bytes(n);
            let was = superblock_at(img)->Ok_0;
            &&& superblock_at(patched(img, 1024, bytes)) == Ok::<Superblock, i32>(
                Superblock { inodes_count: n, ..was },
            )
            &&& superblock_at(patched(img, 1028, bytes)) == Ok::<Superblock, i32>(
                Superblock { blocks_count: n, ..was },
            )
            &&& superblock_at(patched(img, 1056, bytes)) == Ok::<Superblock, i32>(
                Superblock { blocks_per_group: n, ..was },
            )
            &&& superblock_at(patched(img, 1064, bytes)) == Ok::<Superblock, i32>(
                Superblock { inodes_per_group: n, ..was },
            )
            &&& superblock_at(patched(img, 1108, bytes)) == Ok::<Superblock, i32>(
                Superblock { first_inode: n, ..was },
            )
        }),
{
    lemma_field_mounted(img, 1024, n);
    lemma_field_mounted(img, 1028, n);
    lemma_field_mounted(img, 1056, n);
    lemma_field_mounted(img, 1064, n);
    lemma_field_mounted(img, 1108, n);
}

/// The fields of the descriptor of any group are the whole 32-bit numbers in its
/// bytes.
pub proof fn law_descriptor_holds_numbers(img: Image, sb: Superblock, group: u32)
    ensures
        ({
            let d = 32 * group + if sb.block_size == 1024 {
                2048
            } else {
                sb.block_size as int
            };
            let gd = group_desc_at(img, sb, group);
            &&& group_desc_addr(sb, group) == d
            &&& gd.block_bitmap == img(d) + 256 * img(d + 1) + 65536 * img(d + 2) + 16777216 * img(
                d + 3,
            )
            &&& gd.inode_bitmap == img(d + 4) + 256 * img(d + 5) + 65536 * img(d + 6) + 16777216
                * img(d + 7)
            &&& gd.inode_table == img(d + 8) + 256 * img(d + 9) + 65536 * img(d + 10) + 16777216
                * img(d + 11)
        }),
{
}

/// The inodes of a group lie one after the other in the table that the whole
/// 32-bit number in bytes 8 to 11 of the group's descriptor locates, whatever the
/// group and the number. An inode's mode, size and block numbers are the whole
/// numbers at their places in it. There is no inode 0.
pub proof fn law_inode_lies_in_table(
    img: Image,
    sb: Superblock,
    group: u32,
    i: u32,
    ino: u32,
    k: int,
)
    requires
        i < sb.inodes_per_group,
        ino == group * sb.inodes_per_group + i + 1,
        0 <= k < 15,
    ensures
        ({
            let d = 32 * group + if sb.block_size == 1024 {
                2048
            } else {
                sb.block_size as int
            };
            let table = img(d + 8) + 256 * img(d + 9) + 65536 * img(d + 10) + 16777216 * img(
                d + 11,
            );
            let at = table * sb.block_size + i * sb.inode_size;
            let inode = inode_numbered(img, sb, ino)->Ok_0;
            &&& inode_addr(img, sb, ino) == at
            &&& inode_numbered(img, sb, ino) is Ok
            &&& inode.mode == img(at) + 256 * img(at + 1)
            &&& inode.size == img(at + 4) + 256 * img(at + 5) + 65536 * img(at + 6) + 16777216
                * img(at + 7)
            &&& inode.blocks.len() == 15
            &&& inode.blocks[k] == word(img, at + 40 + 4 * k)
        }),
        fails_with(inode_numbered(img, sb, 0), -22),
{
    let index = (ino - 1) as u32;
    let n = sb.inodes_per_group as int;
    assert(index == group * n + i);
    lemma_fundamental_div_mod_converse(index as int, n, group as int, i as int);
    assert(index / sb.inodes_per_group == group);
    assert(index % sb.inodes_per_group == i);
}

/// The inode that a buffer holds: mode, size and block numbers are the whole
/// numbers at their places.
pub proof fn law_buffer_holds_inode(raw: Seq<u8>, k: int)
    requires
        raw.len() >= 100,
        0 <= k < 15,
    ensures
        ({
            let j = 40 + 4 * k;
            let inode = inode_in(raw);
            &&& inode.mode == raw[0] + 256 * raw[1]
            &&& inode.size == raw[4] + 256 * raw[5] + 65536 * raw[6] + 16777216 * raw[7]
            &&& inode.blocks.len() == 15
            &&& inode.blocks[k] == raw[j] + 256 * raw[j + 1] + 65536 * raw[j + 2] + 16777216 * raw[j
                + 3]
        }),
{
}

/// An inode that is read into a buffer of 512 bytes has the bytes that it has on the
/// disk, and what it leaves of the buffer is 0.
pub proof fn law_inode_is_read_whole(img: Image, sb: Superblock, ino: u32, j: int)
    requires
        sb.inode_size <= 512,
        0 <= j < 512,
    ensures
        raw_inode(img, sb, ino).len() == 512,
        raw_inode(img, sb, ino)[j] == if j < sb.inode_size {
            img(inode_addr(img, sb, ino) + j)
        } else {
            0
        },
{
}

/// What a path leads to is an inode of the volume: its number is not 0, and mode
/// and size are the whole numbers in its bytes.
pub proof fn law_status_is_on_disk(img: Image, sb: Superblock, path: Seq<u8>)
    requires
        sb.inodes_per_group != 0,
    ensures
        resolved(img, sb, path) matches Ok((ino, inode)) ==> {
            let g = (ino - 1) / (sb.inodes_per_group as int);
            let i = (ino - 1) % (sb.inodes_per_group as int);
            let at = word(img, descriptor(sb, g) + 8) * sb.block_size + i * sb.inode_size;
            &&& ino >= 1
            &&& inode.mode == half(img, at)
            &&& inode.size == word(img, at + 4)
            &&& forall|k: int| 0 <= k < 15 ==> #[trigger] inode.blocks[k] == word(
                img,
                at + 40 + 4 * k,
            )
        },
{
}

/// The blocks of a file are numbered in its inode up to the twelfth, and from then
/// on in its indirect block, as many as that has whole 32-bit numbers. Further ones
/// are not supported. Without an indirect block there is a hole.
pub proof fn law_block_numbers(img: Image, sb: Superblock, inode: InodeView, index: int)
    requires
        0 <= index,
    ensures
        index < 12 ==> block_of(img, sb, inode, index) == Ok::<u32, i32>(inode.blocks[index]),
        index >= 12 && 4 * (index - 12) + 4 > sb.block_size ==> fails_with(
            block_of(img, sb, inode, index),
            -38,
        ),
        index >= 12 && 4 * (index - 12) + 4 <= sb.block_size ==> {
            let at = inode.blocks[12] * sb.block_size + 4 * (index - 12);
            &&& block_of(img, sb, inode, index) is Ok
            &&& block_of(img, sb, inode, index)->Ok_0 == if inode.blocks[12] == 0 {
                0
            } else {
                word(img, at)
            }
        },
{
}

/// A block is as many bytes as the volume's blocks have, and lies that many times
/// its number from the start of the disk. Storing one changes no other byte. A
/// file takes as many blocks as its bytes need and no more.
pub proof fn law_blocks_are_stretches(
    img: Image,
    sb: Superblock,
    block: u32,
    data: Seq<u8>,
    i: int,
    a: int,
    size: u32,
)
    requires
        sb.block_size != 0,
        data.len() >= sb.block_size,
        0 <= i < sb.block_size,
    ensures
        block_bytes(img, sb, block).len() == sb.block_size,
        block_bytes(img, sb, block)[i] == img(block * sb.block_size + i),
        block_stored(img, sb, block, data)(block * sb.block_size + i) == data[i],
        !(block * sb.block_size <= a < block * sb.block_size + sb.block_size) ==> block_stored(
            img,
            sb,
            block,
            data,
        )(a) == img(a),
        ({
            let n = block_span(sb, size);
            0 <= n && size <= n * sb.block_size < size + sb.block_size
        }),
{
    let bs = sb.block_size as int;
    let n = block_span(sb, size);
    vstd::arithmetic::div_mod::lemma_fundamental_div_mod(size + bs - 1, bs);
    vstd::arithmetic::div_mod::lemma_mod_bound(size + bs - 1, bs);
    vstd::arithmetic::div_mod::lemma_div_pos_is_pos(size + bs - 1, bs);
    assert(n * bs == bs * n) by (nonlinear_arith);
}

/// Storing an inode changes its bytes on the disk and no other; it is refused,
/// and nothing changes, where there is no such inode or too few bytes are given.
pub proof fn law_inode_is_stored(img: Image, sb: Superblock, ino: u32, raw: Seq<u8>, a: int)
    ensures
        ({
            let (after, r) = inode_stored(img, sb, ino, raw);
            let at = inode_addr(img, sb, ino);
            if ino == 0 || raw.len() < sb.inode_size {
                after == img && fails_with(r, -22)
            } else {
                &&& r == Ok::<(), i32>(())
                &&& after(a) == if at <= a < at + sb.inode_size {
                    raw[a - at]
                } else {
                    img(a)
                }
            }
        }),
{
}

/// The upper four bits of a mode tell what it is the mode of: 4 a directory, 8 a
/// file.
pub proof fn law_mode_tells_type(mode: u16)
    ensures
        mode_is_dir(mode) <==> mode / 4096 == 4,
        mode_is_file(mode) <==> mode / 4096 == 8,
{
    assert((mode & 0xf000 == 0x4000u16 <==> mode / 4096 == 4) && (mode & 0xf000 == 0x8000u16
        <==> mode / 4096 == 8)) by (bit_vector);
}

/// What is stored on a disk lies where it was stored, byte by byte, and all other
/// bytes are as they were. Bytes are read from where they lie.
pub proof fn law_bytes_lie_where_stored(img: Image, at: int, data: Seq<u8>, a: int, n: nat)
    ensures
        patched(img, at, data)(a) == if at <= a < at + data.len() {
            data[a - at]
        } else {
            img(a)
        },
        bytes_at(img, at, n).len() == n,
        0 <= a < n ==> bytes_at(img, at, n)[a] == img(at + a),
{
}

} // verus!
