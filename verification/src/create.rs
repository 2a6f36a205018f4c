//! Creating files and directories.

use vstd::arithmetic::div_mod::lemma_basic_div;
use vstd::prelude::*;
use crate::abi::{path_bytes, McxPath, EEXIST, EINVAL, ENOENT, ENOTDIR};
use crate::bitmap::{
    block_allocated, block_freed, blocks_bounded, inode_allocated, inode_freed, numbers_bounded,
};
use crate::codec::{put_u16, put_u32, set_u16, set_u32, zeros};
use crate::dir::resolved;
use crate::disk::{is_touched, Faults, Image, McxDiskOps, Medium};
use crate::entry::{
    directory_block, entry_added, entry_trail, is_enterable, EXT2_FT_DIR, EXT2_FT_REG_FILE,
};
use crate::layout::{
    block_stored, inode_stored, is_dir, mode_is_dir, set_inode_block_ptr, Inode, InodeView,
    Superblock, MAX_BLOCK_SIZE, MAX_INODE_SIZE, S_IFDIR, S_IFREG,
};
use crate::path::{is_absolute, law_split_takes_last_component, split, split_parent};
use crate::state::{status, State};
use crate::trail::{
    area, is_confined, lemma_confined_concat, lemma_confined_none, lemma_confined_one,
    lemma_confined_start, lemma_first_place, lemma_three_places, lemma_two_places, Place,
};

verus! {

/// Whether a requested mode is that of a directory.
pub open spec fn wants_directory(mode: u32) -> bool {
    mode_is_dir(mode as u16)
}

/// The mode of a new inode: its type, and the permission bits of the request.
/// All that is not a directory becomes a regular file.
pub open spec fn new_mode(mode: u32) -> u16 {
    let permissions = (mode as u16) & 0o777;
    if wants_directory(mode) {
        S_IFDIR | permissions
    } else {
        S_IFREG | permissions
    }
}

/// The type that the entry of a new inode has in its directory.
pub open spec fn new_file_type(mode: u32) -> u8 {
    if wants_directory(mode) {
        EXT2_FT_DIR
    } else {
        EXT2_FT_REG_FILE
    }
}

/// How many links a new inode has: a directory has one to itself, too.
pub open spec fn new_links(mode: u32) -> u16 {
    if wants_directory(mode) {
        2
    } else {
        1
    }
}

/// The bytes of a new inode. A directory has two links and one block, a file
/// one link and none.
pub open spec fn new_inode(sb: Superblock, mode: u32, block: u32) -> Seq<u8> {
    let raw = put_u16(zeros(MAX_INODE_SIZE as nat), 0, new_mode(mode));
    if wants_directory(mode) {
        put_u32(
            put_u32(put_u32(put_u16(raw, 26, 2), 4, sb.block_size), 28, sb.block_size / 512),
            40,
            block,
        )
    } else {
        put_u16(raw, 26, 1)
    }
}

/// Takes back the inode number and the block, where there is one, of something
/// that could not be created.
pub open spec fn undone(img: Image, sb: Superblock, ino: u32, block: Option<u32>) -> Image {
    inode_freed(
        match block {
            None => img,
            Some(block) => block_freed(img, sb, block),
        },
        sb,
        ino,
    )
}

/// The block in a place of an inode, where 0 stands for none.
pub open spec fn present(block: u32) -> Option<u32> {
    if block == 0 {
        None
    } else {
        Some(block)
    }
}

/// Gives out an inode number and, for a directory, a block with its first
/// entries; 0 for a file.
pub open spec fn node_made(img: Image, sb: Superblock, mode: u32, parent_ino: u32) -> (
    Image,
    Result<(u32, u32), i32>,
) {
    match inode_allocated(img, sb) {
        (img1, Err(e)) => (img1, Err(e)),
        (img1, Ok(ino)) => if !wants_directory(mode) {
            (img1, Ok((ino, 0)))
        } else {
            match block_allocated(img1, sb) {
                (img2, Err(e)) => (undone(img2, sb, ino, None), Err(e)),
                (img2, Ok(block)) => (
                    block_stored(img2, sb, block, directory_block(sb, ino, parent_ino)),
                    Ok((ino, block)),
                ),
            }
        },
    }
}

/// Stores a new inode and enters it into its directory under a name.
pub open spec fn node_entered(
    img: Image,
    sb: Superblock,
    parent_ino: u32,
    parent: InodeView,
    name: Seq<u8>,
    mode: u32,
    node: (u32, u32),
) -> (Image, Result<(), i32>) {
    let (ino, block) = node;
    match inode_stored(img, sb, ino, new_inode(sb, mode, block)) {
        (img1, Err(e)) => (undone(img1, sb, ino, present(block)), Err(e)),
        (img1, Ok(_)) => match entry_added(
            img1,
            sb,
            parent_ino,
            parent,
            name,
            ino,
            new_file_type(mode),
        ) {
            (img2, Err(e)) => (undone(img2, sb, ino, present(block)), Err(e)),
            (img2, Ok(_)) => (img2, Ok(())),
        },
    }
}

/// Creates something in a directory under a name. It is there in the end, or
/// the result is an error.
pub open spec fn created_in(
    img: Image,
    sb: Superblock,
    path: Seq<u8>,
    parent_ino: u32,
    parent: InodeView,
    name: Seq<u8>,
    mode: u32,
) -> (Image, Result<(), i32>) {
    match node_made(img, sb, mode, parent_ino) {
        (img1, Err(e)) => (img1, Err(e)),
        (img1, Ok(node)) => match node_entered(
            img1,
            sb,
            parent_ino,
            parent,
            name,
            mode,
            node,
        ) {
            (img2, Err(e)) => (img2, Err(e)),
            (img2, Ok(_)) => if resolved(img2, sb, path) is Err {
                (img2, Err(ENOENT))
            } else {
                (img2, Ok(()))
            },
        },
    }
}

/// Whether something is made and entered into its directory, so that it is looked
/// up once more.
pub open spec fn is_checked(
    img: Image,
    sb: Superblock,
    parent_ino: u32,
    parent: InodeView,
    name: Seq<u8>,
    mode: u32,
) -> bool {
    let (img1, node) = node_made(img, sb, mode, parent_ino);
    node is Ok && node_entered(img1, sb, parent_ino, parent, name, mode, node->Ok_0).1 is Ok
}

/// The lookups that creating a path makes, in this order.
#[derive(Clone, Copy, Debug, PartialEq, Eq, Structural)]
pub enum Lookup {
    /// That of the path, which is to lead nowhere yet.
    Path,
    /// That of the directory it is created in.
    Parent,
    /// That of the path, which is to lead to what was created.
    Again,
}

/// The last lookup that creating a path makes.
pub open spec fn last_lookup(img: Image, sb: Superblock, path: Seq<u8>, mode: u32) -> Lookup {
    let (parent_path, name) = split(path)->Ok_0;
    let (dir, parent) = resolved(img, sb, parent_path)->Ok_0;
    if resolved(img, sb, path) is Ok || split(path) is Err {
        Lookup::Path
    } else if parent_refusal(img, sb, path) is None && is_checked(
        img,
        sb,
        dir,
        parent,
        name,
        mode,
    ) {
        Lookup::Again
    } else {
        Lookup::Parent
    }
}

/// Creates what a path that leads nowhere names.
pub open spec fn created_new(img: Image, sb: Superblock, path: Seq<u8>, mode: u32) -> (
    Image,
    Result<(), i32>,
) {
    match split(path) {
        Err(e) => (img, Err(e)),
        Ok((parent_path, name)) => match resolved(img, sb, parent_path) {
            Err(e) => (img, Err(e)),
            Ok((parent_ino, parent)) => if !mode_is_dir(parent.mode) {
                (img, Err(ENOTDIR))
            } else {
                created_in(img, sb, path, parent_ino, parent, name, mode)
            },
        },
    }
}

/// Creates what a path names.
pub open spec fn created(img: Image, sb: Superblock, path: Seq<u8>, mode: u32) -> (
    Image,
    Result<(), i32>,
) {
    if resolved(img, sb, path) is Ok {
        (img, Err(EEXIST))
    } else {
        created_new(img, sb, path, mode)
    }
}

/// Why there is no directory to create a path in: it names nothing, or the path
/// before its name leads nowhere or to a file.
pub open spec fn parent_refusal(img: Image, sb: Superblock, path: Seq<u8>) -> Option<i32> {
    match split(path) {
        Err(e) => Some(e),
        Ok((parent_path, _)) => match resolved(img, sb, parent_path) {
            Err(e) => Some(e),
            Ok((_, parent)) => if !mode_is_dir(parent.mode) {
                Some(ENOTDIR)
            } else {
                None
            },
        },
    }
}

/// Why a path cannot be created, where that shows before anything is stored: it
/// is there already, or there is no directory for it.
pub open spec fn refusal(img: Image, sb: Superblock, path: Seq<u8>) -> Option<i32> {
    if resolved(img, sb, path) is Ok {
        Some(EEXIST)
    } else {
        parent_refusal(img, sb, path)
    }
}

/// Whether the searches for an inode number and, for a directory, for a block stay
/// in their bitmaps.
pub open spec fn is_makeable(img: Image, sb: Superblock, mode: u32) -> bool {
    let (img1, given) = inode_allocated(img, sb);
    &&& numbers_bounded(img, sb)
    &&& given is Ok && wants_directory(mode) ==> blocks_bounded(img1, sb)
}

/// Whether the name of a new inode can be entered into its directory, once the
/// inode is stored.
pub open spec fn is_node_enterable(
    img: Image,
    sb: Superblock,
    parent: InodeView,
    name: Seq<u8>,
    mode: u32,
    ino: u32,
    block: u32,
) -> bool {
    let (img1, stored) = inode_stored(img, sb, ino, new_inode(sb, mode, block));
    stored is Ok ==> is_enterable(img1, sb, parent, name)
}

/// Whether something can be made and its name be entered into a directory, as far
/// as the searches and the buffers go.
pub open spec fn is_creatable_in(
    img: Image,
    sb: Superblock,
    parent_ino: u32,
    parent: InodeView,
    name: Seq<u8>,
    mode: u32,
) -> bool {
    &&& is_makeable(img, sb, mode)
    &&& match node_made(img, sb, mode, parent_ino) {
        (_, Err(_)) => true,
        (img1, Ok((ino, block))) => is_node_enterable(
            img1,
            sb,
            parent,
            name,
            mode,
            ino,
            block,
        ),
    }
}

/// What creating something in a directory stores to: what making it stores to and,
/// where it could be made, what entering it stores to.
pub open spec fn creation_trail(
    img: Image,
    sb: Superblock,
    parent_ino: u32,
    parent: InodeView,
    mode: u32,
) -> Seq<Place> {
    making_trail(img, sb, mode) + match node_made(img, sb, mode, parent_ino) {
        (_, Err(_)) => Seq::empty(),
        (img1, Ok((ino, block))) => entering_trail(
            img1,
            sb,
            parent_ino,
            parent,
            mode,
            ino,
            block,
        ),
    }
}

/// What making something stores to: what gives out an inode number; for a
/// directory, what gives out a block, and the block; and what takes both back after
/// an error.
pub open spec fn making_trail(img: Image, sb: Superblock, mode: u32) -> Seq<Place> {
    let (img1, given) = inode_allocated(img, sb);
    if given is Err || !wants_directory(mode) {
        seq![Place::Numbers(0)]
    } else {
        match block_allocated(img1, sb).1 {
            Err(_) => seq![Place::Numbers(0), Place::Blocks(0)] + undoing_trail(),
            Ok(block) => seq![Place::Numbers(0), Place::Blocks(0), Place::Block(block)]
                + undoing_trail(),
        }
    }
}

/// What storing a new inode and entering it into its directory stores to: the
/// inode, what entering it stores to, and what takes number and block back after an
/// error.
pub open spec fn entering_trail(
    img: Image,
    sb: Superblock,
    parent_ino: u32,
    parent: InodeView,
    mode: u32,
    ino: u32,
    block: u32,
) -> Seq<Place> {
    let (img1, _) = inode_stored(img, sb, ino, new_inode(sb, mode, block));
    seq![Place::Inode(ino)] + entry_trail(parent_ino, parent, block_allocated(img1, sb).1)
        + undoing_trail()
}

/// What taking an inode number and a block back stores to.
pub open spec fn undoing_trail() -> Seq<Place> {
    seq![Place::Blocks(0), Place::Numbers(0)]
}

/// Whether a disk came from another by creating a path, whatever came of it: only
/// what creating it stores to has changed.
pub open spec fn is_creation(
    x: Medium,
    y: Medium,
    sb: Superblock,
    path: Seq<u8>,
    mode: u32,
) -> bool {
    let (dir, parent) = resolved(x.image, sb, (split(path)->Ok_0).0)->Ok_0;
    if parent_refusal(x.image, sb, path) is Some {
        x == y
    } else {
        is_confined(x, y, sb, creation_trail(x.image, sb, dir, parent, mode))
    }
}

impl<D: McxDiskOps> State<D> {
    /// Whether a path can be created as far as the volume goes. Path and parent
    /// must be such as can be resolved. Where there is a directory to create it in,
    /// all searches must stay in their bitmaps, and a record that takes a new block
    /// must fit in it.
    pub open spec fn may_create(&self, path: Seq<u8>, mode: u32) -> bool {
        let (parent_path, name) = split(path)->Ok_0;
        let (dir, parent) = resolved(self.image(), self.sb, parent_path)->Ok_0;
        &&& self.walkable(path)
        &&& split(path) is Ok ==> {
            &&& self.walkable(parent_path)
            &&& resolved(self.image(), self.sb, parent_path) is Ok && mode_is_dir(parent.mode) ==> {
                &&& self.ready()
                &&& is_creatable_in(self.image(), self.sb, dir, parent, name, mode)
            }
        }
    }

    /// What an operation that cleans up after itself says of flushes: it asks for
    /// one at its end, if it has come so far, and succeeds only if that did. What
    /// the disk holds is durable then.
    pub open spec fn closes(&self, pre: Self, rc: i32) -> bool {
        if rc == 0 {
            self.flushed(pre)
        } else {
            ||| self.flushes() == pre.flushes()
            ||| self.flushes() == pre.flushes() + 1 && !self.quiet(pre) && self.faults().last()
                == rc
        }
    }

    /// The contract of an operation that cleans up after itself. It turns the
    /// disk into the first part of `want` and gives the second, unless the
    /// driver fails a request after it had given the codes `base`. Then it gives
    /// the code of the first such request or, where that was part of cleaning
    /// up, the error that it was cleaning up after.
    pub open spec fn settles<T>(
        &self,
        base: Faults,
        r: Result<T, i32>,
        want: (Image, Result<T, i32>),
    ) -> bool {
        &&& r is Err ==> r->Err_0 != 0
        &&& if self.faults() == base {
            r == want.1 && self.image() == want.0
        } else {
            &&& r is Err
            &&& base.is_prefix_of(self.faults())
            &&& base.push(r->Err_0).is_prefix_of(self.faults()) || r == want.1
        }
    }

    /// As `settles`, for an operation whose last check turns any failure into
    /// `ENOENT`.
    pub open spec fn settles_or_missing(
        &self,
        base: Faults,
        rc: i32,
        want: (Image, Result<(), i32>),
    ) -> bool {
        ||| self.settles(base, status(rc), want)
        ||| rc == ENOENT && self.faults() != base && base.is_prefix_of(self.faults())
    }

    /// The contract of creating a path. It turns the disk into what `created` says
    /// and gives its result, unless the driver fails a request; where that is one
    /// of the first lookup, it goes on as if nothing was found. A path that is
    /// refused changes nothing. Whatever comes of it, nothing changes but what
    /// creating the path stores to.
    pub open spec fn creates(&self, pre: Self, rc: i32, path: Seq<u8>, mode: u32) -> bool {
        let img = pre.image();
        let log = pre.faults();
        &&& self.same_volume(pre)
        &&& self.closes(pre, rc)
        &&& is_creation(pre.medium(), self.medium(), pre.sb, path, mode)
        &&& self.quiet(pre) ==> match refusal(img, pre.sb, path) {
            Some(e) => rc == e && self.goes_on(pre) && self.holds(pre),
            None => true,
        }
        &&& {
            ||| self.settles_or_missing(log, rc, created(img, pre.sb, path, mode))
            ||| exists|e: i32| #[trigger]
                log.push(e).is_prefix_of(self.faults()) && e != 0 && self.settles_or_missing(
                    log.push(e),
                    rc,
                    created_new(img, pre.sb, path, mode),
                )
        }
    }
}

/// A log that goes on behind one more code goes on behind the codes before it.
proof fn lemma_log_grew(base: Faults, e: i32, log: Faults)
    requires
        base.push(e).is_prefix_of(log),
    ensures
        base.is_prefix_of(log),
        base != log,
{
    assert(base =~= base.push(e).subrange(0, base.len() as int));
    assert(base =~= log.subrange(0, base.len() as int)) by {
        assert forall|i: int| 0 <= i < base.len() implies base[i] == log[i] by {
            assert(base.push(e)[i] == log.subrange(0, base.push(e).len() as int)[i]);
        }
    }
    assert(base.push(e).len() == base.len() + 1);
}

/// Prefixes of prefixes are prefixes.
proof fn lemma_prefix_trans(a: Faults, b: Faults, c: Faults)
    requires
        a.is_prefix_of(b),
        b.is_prefix_of(c),
    ensures
        a.is_prefix_of(c),
{
    assert forall|i: int| 0 <= i < a.len() implies a[i] == c[i] by {
        assert(a[i] == b.subrange(0, a.len() as int)[i]);
        assert(b[i] == c.subrange(0, b.len() as int)[i]);
    }
    assert(a =~= c.subrange(0, a.len() as int));
}

/// A log is a prefix of itself and of itself with one more code.
proof fn lemma_prefix_self(a: Faults, e: i32)
    ensures
        a.is_prefix_of(a),
        a.is_prefix_of(a.push(e)),
        a.push(e) != a,
{
    assert(a =~= a.subrange(0, a.len() as int));
    assert(a =~= a.push(e).subrange(0, a.len() as int));
    assert(a.push(e).len() == a.len() + 1);
}

/// The places that making a directory stores to, once its number is given out.
proof fn lemma_made(
    x: Medium,
    m: Medium,
    n: Medium,
    k: Medium,
    y: Medium,
    sb: Superblock,
    mode: u32,
)
    requires
        wants_directory(mode),
        inode_allocated(x.image, sb).1 is Ok,
        m.image == inode_allocated(x.image, sb).0,
        is_touched(x, m, area(x.image, sb, Place::Numbers(0))),
        is_touched(m, n, area(m.image, sb, Place::Blocks(0))),
        n == k || block_allocated(m.image, sb).1 is Ok && is_touched(
            n,
            k,
            area(n.image, sb, Place::Block(block_allocated(m.image, sb).1->Ok_0)),
        ),
        k == y || is_confined(k, y, sb, undoing_trail()),
    ensures
        is_confined(x, y, sb, making_trail(x.image, sb, mode)),
{
    if k == y {
        lemma_confined_none(k, sb, undoing_trail());
    }
    match block_allocated(m.image, sb).1 {
        Err(_) => {
            let first = seq![Place::Numbers(0), Place::Blocks(0)];
            lemma_two_places(x, m, n, sb, first[0], first[1]);
            lemma_confined_concat(x, k, y, sb, first, undoing_trail());
        },
        Ok(block) => {
            let first = seq![Place::Numbers(0), Place::Blocks(0), Place::Block(block)];
            lemma_three_places(x, m, n, k, sb, first);
            lemma_confined_concat(x, k, y, sb, first, undoing_trail());
        },
    }
}

/// Nothing has to change for a path to be created.
proof fn lemma_creation_none(x: Medium, sb: Superblock, path: Seq<u8>, mode: u32)
    ensures
        is_creation(x, x, sb, path, mode),
{
    let (dir, parent) = resolved(x.image, sb, (split(path)->Ok_0).0)->Ok_0;
    lemma_confined_none(x, sb, creation_trail(x.image, sb, dir, parent, mode));
}

/// The places that storing a new inode and entering it stores to.
proof fn lemma_entered(
    x: Medium,
    m: Medium,
    n: Medium,
    y: Medium,
    sb: Superblock,
    ino: u32,
    entry: Seq<Place>,
)
    requires
        is_touched(x, m, area(x.image, sb, Place::Inode(ino))),
        m == n || is_confined(m, n, sb, entry),
        n == y || is_confined(n, y, sb, undoing_trail()),
    ensures
        is_confined(x, y, sb, seq![Place::Inode(ino)] + entry + undoing_trail()),
{
    let first = seq![Place::Inode(ino)];
    lemma_confined_one(x, m, sb, Place::Inode(ino));
    if m == n {
        lemma_confined_none(m, sb, entry);
    }
    if n == y {
        lemma_confined_none(n, sb, undoing_trail());
    }
    lemma_confined_concat(x, m, n, sb, first, entry);
    lemma_confined_concat(x, n, y, sb, first + entry, undoing_trail());
}

/// Whether an inode number and a block, 0 for none, are such as are given out to
/// something of a mode.
pub open spec fn is_node(sb: Superblock, mode: u32, ino: u32, block: u32) -> bool {
    &&& 1 <= ino <= 8 * MAX_BLOCK_SIZE
    &&& ino <= sb.inodes_per_group
    &&& block != 0 ==> wants_directory(mode) && block < 8 * MAX_BLOCK_SIZE && block
        < sb.blocks_per_group
}

/// Fills a buffer of zeros with a new inode.
fn build_inode(sb: Superblock, mode: u32, block: u32, raw: &mut [u8])
    requires
        old(raw)@ == zeros(MAX_INODE_SIZE as nat),
    ensures
        final(raw)@ == new_inode(sb, mode, block),
{
    let permissions: u16 = (mode as u16) & 0o777;
    if is_dir(mode as u16) {
        set_u16(raw, 0, S_IFDIR | permissions);
        set_u16(raw, 26, 2);
        set_u32(raw, 4, sb.block_size);
        set_u32(raw, 28, sb.block_size / 512);
        set_inode_block_ptr(raw, 0, block);
    } else {
        set_u16(raw, 0, S_IFREG | permissions);
        set_u16(raw, 26, 1);
    }
}

impl<D: McxDiskOps> State<D> {
    /// Takes back what something that could not be created was given. Failures
    /// are not reported.
    fn undo_node(&mut self, ino: u32, block: Option<u32>)
        requires
            old(self).ready(),
            1 <= ino <= 8 * MAX_BLOCK_SIZE,
            ino <= old(self).sb.inodes_per_group,
            block is Some ==> block->Some_0 < 8 * MAX_BLOCK_SIZE && block->Some_0 < old(
                self,
            ).sb.blocks_per_group,
        ensures
            final(self).goes_on(*old(self)),
            is_confined(
                old(self).medium(),
                final(self).medium(),
                old(self).sb,
                undoing_trail(),
            ),
            old(self).faults().is_prefix_of(final(self).faults()),
            final(self).quiet(*old(self)) ==> final(self).image() == undone(
                old(self).image(),
                old(self).sb,
                ino,
                block,
            ),
    {
        let ghost log0 = self.faults();
        proof {
            lemma_prefix_self(log0, 0);
        }
        assert((ino - 1) as u32 % self.sb.inodes_per_group <= ino - 1) by (nonlinear_arith)
            requires
                ino >= 1,
                self.sb.inodes_per_group > 0,
        ;
        let ghost disk = self.medium();
        let ghost sb = self.sb;
        proof {
            lemma_basic_div(ino - 1, sb.inodes_per_group as int);
        }
        if let Some(block) = block {
            assert(block % self.sb.blocks_per_group <= block) by (nonlinear_arith)
                requires
                    self.sb.blocks_per_group > 0,
            ;
            proof {
                lemma_basic_div(block as int, sb.blocks_per_group as int);
            }
            match self.free_block_number(block) {
                Ok(_) => {},
                Err(_e) => {
                    proof {
                        lemma_prefix_self(log0, _e);
                    }
                },
            }
        }
        let ghost log1 = self.faults();
        let ghost freed = self.medium();
        match self.free_inode_number(ino) {
            Ok(_) => {},
            Err(_e) => {
                proof {
                    lemma_prefix_self(log1, _e);
                    lemma_prefix_trans(log0, log1, self.faults());
                    if self.faults() == log0 {
                        lemma_log_grew(log1, _e, self.faults());
                        assert(log1.len() <= log0.len());
                        assert(log1 =~= log0);
                    }
                }
            },
        }
        proof {
            if self.faults() == log0 {
                assert(log1 =~= log0);
            }
            lemma_two_places(
                disk,
                freed,
                self.medium(),
                sb,
                Place::Blocks(0),
                Place::Numbers(0),
            );
        }
    }

    /// Gives out an inode number and, for a directory, a block with its first
    /// entries.
    fn make_node(&mut self, mode: u32, parent_ino: u32) -> (r: Result<(u32, u32), i32>)
        requires
            old(self).ready(),
            is_makeable(old(self).image(), old(self).sb, mode),
        ensures
            final(self).goes_on(*old(self)),
            final(self).settles(
                old(self).faults(),
                r,
                node_made(old(self).image(), old(self).sb, mode, parent_ino),
            ),
            is_confined(
                old(self).medium(),
                final(self).medium(),
                old(self).sb,
                making_trail(old(self).image(), old(self).sb, mode),
            ),
            r is Ok ==> is_node(old(self).sb, mode, (r->Ok_0).0, (r->Ok_0).1),
    {
        let ghost log0 = self.faults();
        let ghost disk = self.medium();
        let ghost sb = self.sb;
        let r = self.allocate_inode_number();
        let ghost numbered = self.medium();
        proof {
            lemma_first_place(disk, numbered, sb, making_trail(disk.image, sb, mode));
        }
        let ino: u32 = match r {
            Ok(v) => v,
            Err(rc) => {
                proof {
                    lemma_prefix_self(log0, rc);
                    lemma_prefix_self(log0.push(rc), 0);
                }
                return Err(rc);
            },
        };
        if !is_dir(mode as u16) {
            return Ok((ino, 0));
        }
        let r = self.allocate_block_number();
        let ghost given = self.medium();
        let block: u32 = match r {
            Ok(v) => v,
            Err(rc) => {
                let ghost log1 = self.faults();
                self.undo_node(ino, None);
                proof {
                    lemma_made(disk, numbered, given, given, self.medium(), sb, mode);
                    lemma_cleaned_up(log0, log1, rc, self.faults());
                }
                return Err(rc);
            },
        };
        let rc: i32 = self.init_directory_block(block, ino, parent_ino);
        let ghost filled = self.medium();
        proof {
            lemma_made(disk, numbered, given, filled, filled, sb, mode);
        }
        if rc != 0 {
            let ghost log1 = self.faults();
            self.undo_node(ino, Some(block));
            proof {
                lemma_made(disk, numbered, given, filled, self.medium(), sb, mode);
                lemma_cleaned_up(log0, log1, rc, self.faults());
            }
            return Err(rc);
        }
        Ok((ino, block))
    }

    /// Stores a new inode and enters it into its directory under a name.
    fn enter_node(
        &mut self,
        parent_ino: u32,
        parent_inode: Inode,
        name: &[u8],
        mode: u32,
        ino: u32,
        block: u32,
    ) -> (r: Result<(), i32>)
        requires
            old(self).ready(),
            is_node(old(self).sb, mode, ino, block),
            is_node_enterable(
                old(self).image(),
                old(self).sb,
                parent_inode@,
                name@,
                mode,
                ino,
                block,
            ),
        ensures
            final(self).goes_on(*old(self)),
            is_confined(
                old(self).medium(),
                final(self).medium(),
                old(self).sb,
                entering_trail(
                    old(self).image(),
                    old(self).sb,
                    parent_ino,
                    parent_inode@,
                    mode,
                    ino,
                    block,
                ),
            ),
            final(self).settles(
                old(self).faults(),
                r,
                node_entered(
                    old(self).image(),
                    old(self).sb,
                    parent_ino,
                    parent_inode@,
                    name@,
                    mode,
                    (ino, block),
                ),
            ),
    {
        let sb = self.sb;
        let own: Option<u32> = if block == 0 {
            None
        } else {
            Some(block)
        };
        let ghost log0 = self.faults();
        let mut inode_raw: [u8; 512] = [0u8;512];
        assert(inode_raw@ =~= zeros(512));
        build_inode(sb, mode, block, &mut inode_raw);
        let ghost disk = self.medium();
        let ghost entry = entry_trail(
            parent_ino,
            parent_inode@,
            block_allocated(
                inode_stored(disk.image, sb, ino, new_inode(sb, mode, block)).0,
                sb,
            ).1,
        );
        let rc: i32 = self.write_inode_raw(ino, &inode_raw);
        let ghost stored = self.medium();
        if rc != 0 {
            let ghost log1 = self.faults();
            self.undo_node(ino, own);
            proof {
                lemma_entered(disk, stored, stored, self.medium(), sb, ino, entry);
                lemma_cleaned_up(log0, log1, rc, self.faults());
            }
            return Err(rc);
        }
        let file_type: u8 = if is_dir(mode as u16) {
            EXT2_FT_DIR
        } else {
            EXT2_FT_REG_FILE
        };
        let r = self.add_dir_entry(parent_ino, parent_inode, name, ino, file_type);
        let ghost entered = self.medium();
        proof {
            lemma_entered(disk, stored, entered, entered, sb, ino, entry);
        }
        match r {
            Ok(_) => Ok(()),
            Err(rc) => {
                let ghost log1 = self.faults();
                self.undo_node(ino, own);
                proof {
                    lemma_entered(disk, stored, entered, self.medium(), sb, ino, entry);
                    lemma_cleaned_up(log0, log1, rc, self.faults());
                }
                Err(rc)
            },
        }
    }

    /// Creates something in a directory under a name.
    fn create_in(
        &mut self,
        path: &[u8],
        parent_ino: u32,
        parent_inode: Inode,
        name: &[u8],
        mode: u32,
        last: &mut Lookup,
    ) -> (rc: i32)
        requires
            old(self).ready(),
            is_absolute(path@),
            is_creatable_in(
                old(self).image(),
                old(self).sb,
                parent_ino,
                parent_inode@,
                name@,
                mode,
            ),
        ensures
            rc == 0 ==> *final(last) == Lookup::Again,
            final(self).quiet(*old(self)) ==> *final(last) == if is_checked(
                old(self).image(),
                old(self).sb,
                parent_ino,
                parent_inode@,
                name@,
                mode,
            ) {
                Lookup::Again
            } else {
                *old(last)
            },
            final(self).same_volume(*old(self)),
            final(self).closes(*old(self), rc),
            is_confined(
                old(self).medium(),
                final(self).medium(),
                old(self).sb,
                creation_trail(
                    old(self).image(),
                    old(self).sb,
                    parent_ino,
                    parent_inode@,
                    mode,
                ),
            ),
            final(self).settles_or_missing(
                old(self).faults(),
                rc,
                created_in(
                    old(self).image(),
                    old(self).sb,
                    path@,
                    parent_ino,
                    parent_inode@,
                    name@,
                    mode,
                ),
            ),
    {
        let ghost log0 = self.faults();
        let ghost img0 = self.image();
        let ghost sb = self.sb;
        let ghost disk = self.medium();
        let ghost making = making_trail(img0, sb, mode);
        let ghost entering = match node_made(img0, sb, mode, parent_ino) {
            (_, Err(_)) => Seq::empty(),
            (img1, Ok((ino, block))) => entering_trail(
                img1,
                sb,
                parent_ino,
                parent_inode@,
                mode,
                ino,
                block,
            ),
        };
        let node = self.make_node(mode, parent_ino);
        let ghost made = self.medium();
        proof {
            lemma_confined_start(disk, made, sb, making, entering);
        }
        let (ino, block) = match node {
            Ok(v) => v,
            Err(rc) => return rc,
        };
        let r = self.enter_node(parent_ino, parent_inode, name, mode, ino, block);
        proof {
            lemma_confined_concat(disk, made, self.medium(), sb, making, entering);
        }
        match r {
            Ok(_) => {},
            Err(rc) => return rc,
        }
        *last = Lookup::Again;
        match self.resolve_path(path) {
            Ok(_) => {},
            Err(_e) => {
                proof {
                    lemma_prefix_self(log0, _e);
                }
                return ENOENT;
            },
        }
        let rc: i32 = self.disk_flush();
        proof {
            lemma_prefix_self(log0, rc);
            lemma_prefix_self(log0.push(rc), 0);
        }
        rc
    }

    /// Creates what a path that was not found names.
    fn create_new(&mut self, path: &[u8], mode: u32, last: &mut Lookup) -> (rc: i32)
        requires
            is_absolute(path@) ==> old(self).may_create(path@, mode),
            *old(last) == Lookup::Path,
        ensures
            !is_absolute(path@) ==> rc == EINVAL && *final(self) == *old(self) && *final(last)
                == Lookup::Path,
            is_absolute(path@) ==> {
                &&& rc == 0 ==> *final(last) == Lookup::Again
                &&& final(self).quiet(*old(self)) && resolved(
                    old(self).image(),
                    old(self).sb,
                    path@,
                ) is Err ==> *final(last) == last_lookup(
                    old(self).image(),
                    old(self).sb,
                    path@,
                    mode,
                )
                &&& final(self).same_volume(*old(self))
                &&& final(self).closes(*old(self), rc)
                &&& is_creation(
                    old(self).medium(),
                    final(self).medium(),
                    old(self).sb,
                    path@,
                    mode,
                )
                &&& parent_refusal(old(self).image(), old(self).sb, path@) is Some ==> {
                    &&& final(self).goes_on(*old(self))
                    &&& final(self).holds(*old(self))
                }
                &&& final(self).settles_or_missing(
                    old(self).faults(),
                    rc,
                    created_new(old(self).image(), old(self).sb, path@, mode),
                )
            },
    {
        let ghost log0 = self.faults();
        let (parent_path, name) = match split_parent(path) {
            Ok(v) => v,
            Err(rc) => return rc,
        };
        proof {
            law_split_takes_last_component(path@);
            lemma_creation_none(self.medium(), self.sb, path@, mode);
        }
        *last = Lookup::Parent;
        let (parent_ino, parent_inode) = match self.resolve_path(parent_path) {
            Ok(v) => v,
            Err(rc) => {
                proof {
                    lemma_prefix_self(log0, rc);
                    lemma_prefix_self(log0.push(rc), 0);
                }
                return rc;
            },
        };
        if !is_dir(parent_inode.mode) {
            return ENOTDIR;
        }
        self.create_in(path, parent_ino, parent_inode, name, mode, last)
    }

    /// Creates what a path names, and tells which lookup came last.
    pub fn create_tracing(&mut self, path: McxPath, mode: u32, last: &mut Lookup) -> (rc: i32)
        requires
            path.is_absolute() ==> old(self).may_create(path@, mode),
        ensures
            path.ptr is None ==> *final(last) == *old(last),
            path.ptr is Some && !path.is_absolute() ==> *final(last) == Lookup::Path,
            !path.is_absolute() ==> rc == EINVAL && *final(self) == *old(self),
            path.is_absolute() ==> {
                &&& final(self).creates(*old(self), rc, path@, mode)
                &&& rc == 0 ==> *final(last) == Lookup::Again
                &&& final(self).quiet(*old(self)) ==> *final(last) == last_lookup(
                    old(self).image(),
                    old(self).sb,
                    path@,
                    mode,
                )
            },
    {
        let ghost log0 = self.faults();
        let path = match path_bytes(path) {
            Some(p) => p,
            None => return EINVAL,
        };
        proof {
            lemma_creation_none(self.medium(), self.sb, path@, mode);
        }
        *last = Lookup::Path;
        match self.resolve_path(path) {
            Ok(_) => return EEXIST,
            Err(e) => {
                let ghost log1 = self.faults();
                let rc: i32 = self.create_new(path, mode, last);
                proof {
                    if is_absolute(path@) && log1 != log0 {
                        lemma_prefix_self(log1, 0);
                        assert(log0.push(e).is_prefix_of(self.faults()));
                    }
                }
                rc
            },
        }
    }

    /// Creates what a path names: a directory where the mode asks for one, or
    /// else a file. That the path leads nowhere yet is looked up first; where
    /// the driver fails that lookup, it goes on as if nothing was found.
    pub fn create_impl(&mut self, path: McxPath, mode: u32) -> (rc: i32)
        requires
            path.is_absolute() ==> old(self).may_create(path@, mode),
        ensures
            !path.is_absolute() ==> rc == EINVAL && *final(self) == *old(self),
            path.is_absolute() ==> final(self).creates(*old(self), rc, path@, mode),
    {
        let mut last = Lookup::Path;
        self.create_tracing(path, mode, &mut last)
    }
}

/// What is left of a log of failures after a clean-up: it still starts with the
/// failure that was cleaned up after, if that was one.
proof fn lemma_cleaned_up(log0: Faults, log1: Faults, rc: i32, log2: Faults)
    requires
        log1 == log0 || log1 == log0.push(rc),
        log1.is_prefix_of(log2),
    ensures
        log0.is_prefix_of(log2),
        log1 == log0.push(rc) ==> log0 != log2 && log0.push(rc).is_prefix_of(log2),
{
    lemma_prefix_self(log0, rc);
    lemma_prefix_trans(log0, log1, log2);
    if log1 == log0.push(rc) {
        lemma_log_grew(log0, rc, log2);
    }
}

} // verus!
