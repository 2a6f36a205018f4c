//! What is stored is there, and nothing else has changed.

use vstd::prelude::*;
use crate::codec::{lemma_le16_round_trip, lemma_le32_round_trip, le16_bytes, le32_bytes};
use crate::disk::{bytes_at, patched, Image};
use crate::layout::{
    group_desc_addr, inode_addr, inode_at, inode_in, inode_numbered, inode_stored, Superblock,
};
use crate::state::{u16_at, u32_at};

verus! {

/// Whether two ranges of addresses have no address in common.
pub open spec fn apart(a: int, a_len: int, b: int, b_len: int) -> bool {
    a + a_len <= b || b + b_len <= a
}

/// Whether two images agree on a range of addresses.
pub open spec fn agree_on(x: Image, y: Image, at: int, len: int) -> bool {
    forall|a: int| at <= a < at + len ==> #[trigger] x(a) == y(a)
}

/// What was stored on a disk is read back, and a range apart from it reads as
/// before.
pub proof fn law_store_then_read(img: Image, at: int, data: Seq<u8>, other: int, n: nat)
    ensures
        bytes_at(patched(img, at, data), at, data.len()) == data,
        apart(at, data.len() as int, other, n as int) ==> bytes_at(
            patched(img, at, data),
            other,
            n,
        ) == bytes_at(img, other, n),
{
    assert(bytes_at(patched(img, at, data), at, data.len()) =~= data);
    if apart(at, data.len() as int, other, n as int) {
        assert(bytes_at(patched(img, at, data), other, n) =~= bytes_at(img, other, n));
    }
}

/// A number that was stored on a disk is read back.
pub proof fn law_store_then_read_numbers(img: Image, at: int, v: u16, w: u32)
    ensures
        u16_at(patched(img, at, le16_bytes(v)), at) == v,
        u32_at(patched(img, at, le32_bytes(w)), at) == w,
{
    lemma_le16_round_trip(v, 0, 0);
    lemma_le32_round_trip(w, 0, 0, 0, 0);
}

/// The group of an inode.
pub open spec fn inode_group(sb: Superblock, ino: u32) -> u32 {
    ((ino - 1) as u32) / sb.inodes_per_group
}

/// Whether an inode lies apart from the field of its group's descriptor that
/// locates it.
pub open spec fn inode_apart_from_desc(img: Image, sb: Superblock, ino: u32) -> bool {
    apart(
        inode_addr(img, sb, ino),
        sb.inode_size as int,
        group_desc_addr(sb, inode_group(sb, ino)) + 8,
        4,
    )
}

/// An inode is where it was while the field that locates it is unchanged.
pub proof fn lemma_inode_addr_kept(x: Image, y: Image, sb: Superblock, ino: u32)
    requires
        agree_on(x, y, group_desc_addr(sb, inode_group(sb, ino)) + 8, 4),
    ensures
        inode_addr(x, sb, ino) == inode_addr(y, sb, ino),
{
}

/// The inode that is stored under a number is the one that is read back under
/// it, where the inodes of the volume hold all fields that are read.
pub proof fn law_inode_reads_back(img: Image, sb: Superblock, ino: u32, raw: Seq<u8>)
    requires
        ino >= 1,
        100 <= sb.inode_size <= raw.len(),
        inode_apart_from_desc(img, sb, ino),
    ensures
        ({
            let (stored, r) = inode_stored(img, sb, ino, raw);
            &&& r == Ok::<(), i32>(())
            &&& inode_addr(stored, sb, ino) == inode_addr(img, sb, ino)
            &&& inode_numbered(stored, sb, ino) == Ok::<_, i32>(inode_in(raw))
        }),
{
    let (stored, _) = inode_stored(img, sb, ino, raw);
    let at = inode_addr(img, sb, ino);
    lemma_inode_addr_kept(img, stored, sb, ino);
    let x = inode_at(stored, at);
    let y = inode_in(raw);
    assert(forall|i: int| 0 <= i < 100 ==> stored(at + i) == raw[i]);
    assert forall|i: int| 0 <= i < 15 implies x.blocks[i] == y.blocks[i] by {
        let k = 40 + 4 * i;
        assert(stored(at + k) == raw[k] && stored(at + (k + 1)) == raw[k + 1] && stored(
            at + (k + 2),
        ) == raw[k + 2] && stored(at + (k + 3)) == raw[k + 3]);
    }
    assert(stored(at + 0) == raw[0] && stored(at + 1) == raw[1]);
    assert(stored(at + 4) == raw[4] && stored(at + 5) == raw[5] && stored(at + 6) == raw[6]
        && stored(at + 7) == raw[7]);
    assert(x =~= y);
}

} // verus!
