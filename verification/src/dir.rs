//! Directories: the records in their blocks, and names looked up in them.

use vstd::prelude::*;
use crate::abi::{EINVAL, ENOENT, ENOTDIR};
use crate::codec::{byte_difference, get_u16, get_u32, seq_u16, seq_u32};
use crate::disk::{Image, McxDiskOps};
use crate::layout::{
    block_bytes, block_of, block_span, inode_numbered, is_dir, mode_is_dir, Inode, InodeView,
    Superblock, MAX_BLOCK_SIZE, ROOT_INO,
};
use crate::path::{components, components_from, is_absolute, lemma_run_end, run_end, DOT, SLASH};
use crate::state::State;

verus! {

/// One record of a directory.
pub struct DirRecord {
    /// The block that holds the record.
    pub block: u32,
    /// Where in the block the record starts.
    pub offset: int,
    /// The inode it names; 0 in an unused record.
    pub inode: u32,
    /// Bytes from the start of this record to that of the next.
    pub rec_len: u16,
    pub name_len: u8,
    /// What the inode is, as the record has it.
    pub file_type: u8,
    /// The bytes of the name, where they lie in the block.
    pub text: Option<Seq<u8>>,
    /// The name, in a record that is in use and whose name lies in its block.
    pub name: Option<Seq<u8>>,
}

/// What a record with the bytes of a name is named, if it is for an inode: nothing
/// in an unused record.
pub open spec fn name_for(inode: u32, text: Option<Seq<u8>>) -> Option<Seq<u8>> {
    if inode == 0 {
        None
    } else {
        text
    }
}

/// The record at `offset` of a block that holds `b`.
pub open spec fn record_at(b: Seq<u8>, block: u32, offset: int) -> DirRecord {
    let inode = seq_u32(b, offset);
    let name_len = b[offset + 6];
    let text = if offset + 8 + name_len <= b.len() {
        Some(b.subrange(offset + 8, offset + 8 + name_len))
    } else {
        None
    };
    DirRecord {
        block,
        offset,
        inode,
        rec_len: seq_u16(b, offset + 4),
        name_len,
        file_type: b[offset + 7],
        text,
        name: name_for(inode, text),
    }
}

/// Whether a record can start at `offset`: its header lies in the block, and it
/// has a length and ends in the block.
pub open spec fn record_fits(b: Seq<u8>, offset: int) -> bool {
    let rec_len = seq_u16(b, offset + 4);
    offset + 8 <= b.len() && rec_len != 0 && offset + rec_len <= b.len()
}

/// The records of a block from `offset` on, up to the first that does not fit.
pub open spec fn records_in(b: Seq<u8>, block: u32, offset: int) -> Seq<DirRecord>
    decreases b.len() - offset,
{
    if offset + 8 <= b.len() && record_fits(b, offset) {
        seq![record_at(b, block, offset)] + records_in(
            b,
            block,
            offset + seq_u16(b, offset + 4),
        )
    } else {
        Seq::empty()
    }
}

/// What a directory holds: its records in order, up to the first block that
/// cannot be located, and the error that block gives.
pub struct Directory {
    pub records: Seq<DirRecord>,
    pub error: Option<i32>,
}

/// What a directory holds in its blocks from `index` on.
pub open spec fn directory_from(
    img: Image,
    sb: Superblock,
    inode: InodeView,
    index: int,
) -> Directory
    decreases block_span(sb, inode.size) - index,
{
    if index >= block_span(sb, inode.size) {
        Directory { records: Seq::empty(), error: None }
    } else {
        let rest = directory_from(img, sb, inode, index + 1);
        match block_of(img, sb, inode, index) {
            Err(e) => Directory { records: Seq::empty(), error: Some(e) },
            Ok(block) => if block == 0 {
                rest
            } else {
                Directory {
                    records: records_in(block_bytes(img, sb, block), block, 0) + rest.records,
                    error: rest.error,
                }
            },
        }
    }
}

/// The inode that the first record with a name is for.
pub open spec fn find_name(records: Seq<DirRecord>, name: Seq<u8>) -> Option<u32>
    decreases records.len(),
{
    if records.len() == 0 {
        None
    } else if records[0].name == Some(name) {
        Some(records[0].inode)
    } else {
        find_name(records.drop_first(), name)
    }
}

/// The result of looking a name up among the records of a directory.
pub open spec fn search(dir: Directory, name: Seq<u8>) -> Result<u32, i32> {
    match find_name(dir.records, name) {
        Some(ino) => Ok(ino),
        None => match dir.error {
            Some(e) => Err(e),
            None => Err(ENOENT),
        },
    }
}

/// The result of looking a name up in the directory of a number.
pub open spec fn lookup(img: Image, sb: Superblock, dir_ino: u32, name: Seq<u8>) -> Result<
    u32,
    i32,
> {
    match inode_numbered(img, sb, dir_ino) {
        Err(e) => Err(e),
        Ok(inode) => if !mode_is_dir(inode.mode) {
            Err(ENOTDIR)
        } else {
            search(directory_from(img, sb, inode, 0), name)
        },
    }
}

/// The name of a directory in itself.
pub open spec fn dot() -> Seq<u8> {
    seq![DOT]
}

/// The name of the parent of a directory in it.
pub open spec fn dot_dot() -> Seq<u8> {
    seq![DOT, DOT]
}

/// The first of a list of names that is not that of the directory itself.
pub open spec fn first_name(names: Seq<Seq<u8>>) -> Option<Seq<u8>>
    decreases names.len(),
{
    if names.len() == 0 {
        None
    } else if names[0] == dot() {
        first_name(names.drop_first())
    } else {
        Some(names[0])
    }
}

/// The inode that a list of names leads to from the inode `current`.
pub open spec fn walk(img: Image, sb: Superblock, current: u32, names: Seq<Seq<u8>>) -> Result<
    u32,
    i32,
>
    decreases names.len(),
{
    if names.len() == 0 {
        Ok(current)
    } else if names[0] == dot() {
        walk(img, sb, current, names.drop_first())
    } else if names[0] == dot_dot() {
        Err(EINVAL)
    } else {
        match lookup(img, sb, current, names[0]) {
            Ok(next) => walk(img, sb, next, names.drop_first()),
            Err(e) => Err(e),
        }
    }
}

/// Whether an inode number is that of a directory.
pub open spec fn names_directory(img: Image, sb: Superblock, ino: u32) -> bool {
    let inode = inode_numbered(img, sb, ino);
    inode is Ok && mode_is_dir((inode->Ok_0).mode)
}

/// The inode that a path leads to.
pub open spec fn resolved(img: Image, sb: Superblock, path: Seq<u8>) -> Result<
    (u32, InodeView),
    i32,
> {
    if !is_absolute(path) {
        Err(EINVAL)
    } else {
        match walk(img, sb, ROOT_INO, components(path)) {
            Err(e) => Err(e),
            Ok(ino) => match inode_numbered(img, sb, ino) {
                Err(e) => Err(e),
                Ok(inode) => Ok((ino, inode)),
            },
        }
    }
}

/// A resolved path, with the inode taken by its view.
pub open spec fn viewed_pair(r: Result<(u32, Inode), i32>) -> Result<(u32, InodeView), i32> {
    match r {
        Ok((ino, inode)) => Ok((ino, inode@)),
        Err(e) => Err(e),
    }
}

/// A name is looked up in one list of records and then in the other.
pub proof fn lemma_find_name_concat(a: Seq<DirRecord>, b: Seq<DirRecord>, name: Seq<u8>)
    ensures
        find_name(a + b, name) == match find_name(a, name) {
            Some(ino) => Some(ino),
            None => find_name(b, name),
        },
    decreases a.len(),
{
    if a.len() == 0 {
        assert(a + b =~= b);
    } else {
        lemma_find_name_concat(a.drop_first(), b, name);
        assert((a + b).drop_first() =~= a.drop_first() + b);
    }
}

/// Whether two byte strings are equal.
pub fn same_bytes(a: &[u8], b: &[u8]) -> (same: bool)
    ensures
        same == (a@ == b@),
{
    if a.len() != b.len() {
        return false;
    }
    assert(a@.take(a@.len() as int) =~= a@ && b@.take(a@.len() as int) =~= b@);
    byte_difference(a, b, a.len()) == 0
}

/// The inode that the first record with a name is for, among the records of a
/// block that holds the first `size` bytes of `buf`.
fn find_in_block(buf: &[u8], size: usize, Ghost(block): Ghost<u32>, name: &[u8]) -> (r: Option<
    u32,
>)
    requires
        size <= buf@.len(),
        size <= MAX_BLOCK_SIZE,
    ensures
        r == find_name(records_in(buf@.take(size as int), block, 0), name@),
        r is Some ==> r->Some_0 != 0,
{
    let ghost b = buf@.take(size as int);
    let mut off: usize = 0;
    while off + 8 <= size
        invariant
            off <= size,
            size <= buf@.len(),
            size <= MAX_BLOCK_SIZE,
            b == buf@.take(size as int),
            find_name(records_in(b, block, 0), name@) == find_name(
                records_in(b, block, off as int),
                name@,
            ),
        decreases size - off,
    {
        let inode: u32 = get_u32(buf, off);
        let rec_len: usize = get_u16(buf, off + 4) as usize;
        let name_len: usize = buf[off + 6] as usize;
        if rec_len == 0 || off + rec_len > size {
            assert(records_in(b, block, off as int) =~= Seq::empty());
            return None;
        }
        proof {
            let records = records_in(b, block, off as int);
            assert(records.drop_first() =~= records_in(b, block, off + rec_len));
            assert(records[0] == record_at(b, block, off as int));
        }
        if inode != 0 && off + 8 + name_len <= size {
            let entry_name = vstd::slice::slice_subrange(buf, off + 8, off + 8 + name_len);
            assert(entry_name@ =~= b.subrange(off + 8, off + 8 + name_len));
            if same_bytes(entry_name, name) {
                return Some(inode);
            }
        }
        off += rec_len;
    }
    None
}

/// The first name in a path that is not that of the directory itself.
pub fn leading_name(path: &[u8]) -> (r: Option<&[u8]>)
    requires
        is_absolute(path@),
    ensures
        match (r, first_name(components(path@))) {
            (None, None) => true,
            (Some(name), Some(n)) => name@ == n,
            _ => false,
        },
{
    let mut start: usize = 1;
    while start < path.len()
        invariant
            start <= path@.len(),
            first_name(components(path@)) == first_name(components_from(path@, start as int)),
        decreases path@.len() - start,
    {
        if path[start] == SLASH {
            start += 1;
            continue;
        }
        let mut end: usize = start;
        while end < path.len() && path[end] != SLASH
            invariant
                start <= end <= path@.len(),
                run_end(path@, start as int) == run_end(path@, end as int),
            decreases path@.len() - end,
        {
            end += 1;
        }
        let comp = vstd::slice::slice_subrange(path, start, end);
        proof {
            let names = components_from(path@, start as int);
            assert(names[0] == comp@);
            assert(names.drop_first() =~= components_from(path@, end as int));
            lemma_run_end(path@, start + 1);
        }
        if comp.len() == 1 && comp[0] == DOT {
            assert(comp@ =~= dot());
            start = end;
            continue;
        }
        assert(comp@ != dot());
        return Some(comp);
    }
    None
}

/// How many blocks a file of `size` bytes spans.
pub fn span(sb: Superblock, size: u32) -> (n: usize)
    requires
        sb.block_size != 0,
    ensures
        n == block_span(sb, size),
{
    let n: u64 = (size as u64 + sb.block_size as u64 - 1) / sb.block_size as u64;
    assert(n <= 0xffff_ffff) by {
        assert((size + sb.block_size - 1) / (sb.block_size as int) <= size) by (nonlinear_arith)
            requires
                sb.block_size >= 1,
                size >= 0,
        ;
    }
    n as usize
}

impl<D: McxDiskOps> State<D> {
    /// Looks a name up in the directory of a number.
    pub fn lookup_name_in_dir(&mut self, dir_ino: u32, name: &[u8]) -> (r: Result<u32, i32>)
        requires
            old(self).sb.wf(),
            dir_ino >= 1 ==> old(self).attached() && old(self).sb.inodes_per_group != 0,
            names_directory(old(self).image(), old(self).sb, dir_ino) ==> old(self).sb.block_size
                != 0,
        ensures
            dir_ino < 1 ==> *final(self) == *old(self),
            final(self).reads(
                *old(self),
                r,
                lookup(old(self).image(), old(self).sb, dir_ino, name@),
            ),
            r is Ok ==> r->Ok_0 != 0,
    {
        let sb = self.sb;
        let ghost img = self.image();
        let dir = self.load_inode(dir_ino)?;
        if !is_dir(dir.mode) {
            return Err(ENOTDIR);
        }
        let blocks: usize = span(sb, dir.size);
        let mut block_index: usize = 0;
        let mut block_buf: [u8; 4096] = [0u8;4096];
        while block_index < blocks
            invariant
                dir_ino >= 1,
                block_index <= blocks,
                blocks == block_span(sb, dir.size),
                sb == old(self).sb,
                sb.readable(),
                self.attached(),
                self.goes_on(*old(self)),
                self.quiet(*old(self)),
                self.holds(*old(self)),
                self.image() == img,
                img == old(self).image(),
                lookup(img, sb, dir_ino, name@) == search(
                    directory_from(img, sb, dir@, block_index as int),
                    name@,
                ),
            decreases blocks - block_index,
        {
            let block: u32 = match self.data_block_number(dir, block_index as u64) {
                Ok(v) => v,
                Err(e) => return Err(e),
            };
            if block == 0 {
                block_index += 1;
                continue;
            }
            let rc: i32 = self.read_block(block, &mut block_buf);
            if rc != 0 {
                return Err(rc);
            }
            assert(block_buf@.take(sb.block_size as int) =~= block_bytes(img, sb, block));
            proof {
                lemma_find_name_concat(
                    records_in(block_bytes(img, sb, block), block, 0),
                    directory_from(img, sb, dir@, block_index + 1).records,
                    name@,
                );
            }
            match find_in_block(&block_buf, sb.block_size as usize, Ghost(block), name) {
                Some(inode) => return Ok(inode),
                None => {},
            }
            block_index += 1;
        }
        Err(ENOENT)
    }

    /// Whether a path can be resolved. One without a name needs a driver and
    /// inodes that can be located, one with a name blocks too. One that leads
    /// above the root right away is refused without a look at the disk.
    pub open spec fn walkable(&self, path: Seq<u8>) -> bool {
        is_absolute(path) ==> match first_name(components(path)) {
            None => self.attached() && self.sb.wf() && self.sb.inodes_per_group != 0,
            Some(name) => name == dot_dot() || self.attached() && self.sb.readable(),
        }
    }

    /// Whether a path can be resolved.
    pub fn can_walk(&self, path: &[u8]) -> (b: bool)
        requires
            self.sb.wf(),
        ensures
            b == self.walkable(path@),
    {
        if path.len() == 0 || path[0] != SLASH {
            return true;
        }
        let located: bool = self.disk_ops.is_some() && self.sb.inodes_per_group != 0;
        match leading_name(path) {
            None => located,
            Some(name) => {
                let above: bool = name.len() == 2 && name[0] == DOT && name[1] == DOT;
                assert(above == (name@ =~= dot_dot()));
                above || located && self.sb.block_size != 0
            },
        }
    }

    /// The inode that a path leads to.
    pub fn resolve_path(&mut self, path: &[u8]) -> (r: Result<(u32, Inode), i32>)
        requires
            old(self).walkable(path@),
        ensures
            !is_absolute(path@) || first_name(components(path@)) == Some(dot_dot()) ==> r == Err::<
                (u32, Inode),
                i32,
            >(EINVAL) && *final(self) == *old(self),
            is_absolute(path@) ==> final(self).reads(
                *old(self),
                viewed_pair(r),
                resolved(old(self).image(), old(self).sb, path@),
            ),
            r is Ok ==> (r->Ok_0).0 != 0,
    {
        if path.len() == 0 || path[0] != SLASH {
            return Err(EINVAL);
        }
        let ghost img = self.image();
        let ghost sb = self.sb;
        let ghost lead = first_name(components(path@));
        let ghost mut moved = false;
        let mut current: u32 = ROOT_INO;
        let mut start: usize = 1;
        while start < path.len()
            invariant
                start <= path@.len(),
                sb == old(self).sb,
                old(self).walkable(path@),
                lead == first_name(components(path@)),
                !moved ==> *self == *old(self) && lead == first_name(
                    components_from(path@, start as int),
                ),
                moved ==> self.attached() && sb.readable() && lead is Some && lead != Some(
                    dot_dot(),
                ),
                self.goes_on(*old(self)),
                self.quiet(*old(self)),
                self.holds(*old(self)),
                self.image() == img,
                img == old(self).image(),
                current != 0,
                is_absolute(path@),
                walk(img, sb, ROOT_INO, components(path@)) == walk(
                    img,
                    sb,
                    current,
                    components_from(path@, start as int),
                ),
            decreases path@.len() - start,
        {
            if path[start] == SLASH {
                start += 1;
                continue;
            }
            let mut end: usize = start;
            while end < path.len() && path[end] != SLASH
                invariant
                    start <= end <= path@.len(),
                    run_end(path@, start as int) == run_end(path@, end as int),
                decreases path@.len() - end,
            {
                end += 1;
            }
            let comp = vstd::slice::slice_subrange(path, start, end);
            proof {
                let names = components_from(path@, start as int);
                assert(names[0] == comp@);
                assert(names.drop_first() =~= components_from(path@, end as int));
                lemma_run_end(path@, start + 1);
            }
            if comp.len() == 1 && comp[0] == DOT {
                assert(comp@ =~= dot());
                start = end;
                continue;
            }
            if comp.len() == 2 && comp[0] == DOT && comp[1] == DOT {
                assert(comp@ =~= dot_dot());
                return Err(EINVAL);
            }
            proof {
                if !moved {
                    assert(lead == Some(comp@));
                    assert(dot_dot().len() == 2 && dot_dot()[0] == DOT && dot_dot()[1] == DOT);
                }
                moved = true;
            }
            current = match self.lookup_name_in_dir(current, comp) {
                Ok(v) => v,
                Err(e) => return Err(e),
            };
            start = end;
        }
        let inode = self.load_inode(current)?;
        Ok((current, inode))
    }
}

} // verus!
