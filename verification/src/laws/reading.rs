//! Reading in parts, and the many spellings of a path.

use vstd::prelude::*;
use crate::dir::{dot, dot_dot, lookup, resolved, walk};
use crate::disk::Image;
use crate::file::{file_data, file_read, lemma_file_data_len, read_end};
use crate::layout::{mode_is_file, InodeView, Superblock};
use crate::path::{components, is_absolute};

verus! {

/// A read gives no more bytes than were asked for and none from behind the end
/// of the file. From the end on it gives none, and succeeds.
pub proof fn law_read_is_bounded(
    img: Image,
    sb: Superblock,
    inode: InodeView,
    offset: u64,
    len: nat,
)
    requires
        mode_is_file(inode.mode),
    ensures
        ({
            let (data, r) = file_read(img, sb, inode, offset, len);
            &&& data.len() <= len
            &&& data.len() > 0 ==> offset + data.len() <= inode.size
            &&& offset >= inode.size ==> data.len() == 0 && r == Ok::<usize, i32>(0)
        }),
{
    lemma_file_data_len(img, sb, inode, offset as int, read_end(inode, offset, len));
}

/// Bytes that were read up to `mid`, all of them, and the bytes from there on
/// are the bytes read in one go.
proof fn lemma_data_joins(
    img: Image,
    sb: Superblock,
    inode: InodeView,
    pos: int,
    mid: int,
    end: int,
)
    requires
        pos <= mid <= end,
        file_data(img, sb, inode, pos, mid).0.len() == mid - pos,
    ensures
        ({
            let first = file_data(img, sb, inode, pos, mid);
            let second = file_data(img, sb, inode, mid, end);
            &&& first.1 is None
            &&& file_data(img, sb, inode, pos, end) == (first.0 + second.0, second.1)
        }),
    decreases mid - pos,
{
    let first = file_data(img, sb, inode, pos, mid);
    let second = file_data(img, sb, inode, mid, end);
    if pos == mid {
        assert(first.0 + second.0 =~= second.0);
    } else {
        let rest = file_data(img, sb, inode, pos + 1, mid);
        lemma_data_joins(img, sb, inode, pos + 1, mid, end);
        assert(first.0 =~= seq![first.0[0]] + rest.0);
        assert(seq![first.0[0]] + (rest.0 + second.0) =~= first.0 + second.0);
    }
}

/// A file can be read in parts: where a read gives all the bytes that it was
/// asked for, those and the bytes that the next read gives are what one read of
/// both gives, and it ends as the second does.
pub proof fn law_reads_join(
    img: Image,
    sb: Superblock,
    inode: InodeView,
    offset: u64,
    n: nat,
    m: nat,
)
    requires
        mode_is_file(inode.mode),
        offset + n <= u64::MAX,
        file_read(img, sb, inode, offset, n).0.len() == n,
    ensures
        ({
            let first = file_read(img, sb, inode, offset, n);
            let second = file_read(img, sb, inode, (offset + n) as u64, m);
            let both = file_read(img, sb, inode, offset, n + m);
            &&& both.0 == first.0 + second.0
            &&& both.1 is Ok <==> second.1 is Ok
            &&& second.1 is Err ==> both.1 == second.1
        }),
{
    let mid = offset + n;
    lemma_file_data_len(img, sb, inode, offset as int, read_end(inode, offset, n));
    if n == 0 {
        let first = file_read(img, sb, inode, offset, n).0;
        assert(first =~= Seq::<u8>::empty());
        let both = file_read(img, sb, inode, offset, n + m).0;
        assert(both =~= first + both);
    } else {
        assert(mid <= inode.size);
        lemma_data_joins(
            img,
            sb,
            inode,
            offset as int,
            mid,
            read_end(inode, offset, n + m),
        );
    }
}

/// A path leads where its components lead: how many slashes stand between them,
/// and whether some stand at the end, does not matter.
pub proof fn law_slashes_do_not_count(img: Image, sb: Superblock, p: Seq<u8>, q: Seq<u8>)
    requires
        is_absolute(p),
        is_absolute(q),
        components(p) == components(q),
    ensures
        resolved(img, sb, p) == resolved(img, sb, q),
{
}

/// The name of a directory in itself can be left out of a path.
pub proof fn law_dot_does_not_count(
    img: Image,
    sb: Superblock,
    current: u32,
    names: Seq<Seq<u8>>,
    k: int,
)
    requires
        0 <= k <= names.len(),
    ensures
        walk(img, sb, current, names.insert(k, dot())) == walk(img, sb, current, names),
    decreases k,
{
    let all = names.insert(k, dot());
    if k == 0 {
        assert(all.drop_first() =~= names);
    } else {
        assert(all.drop_first() =~= names.drop_first().insert(k - 1, dot()));
        if names[0] == dot() {
            law_dot_does_not_count(img, sb, current, names.drop_first(), k - 1);
        } else if names[0] != dot_dot() {
            match lookup(img, sb, current, names[0]) {
                Ok(next) => {
                    law_dot_does_not_count(img, sb, next, names.drop_first(), k - 1);
                },
                Err(_) => {},
            }
        }
    }
}

} // verus!
