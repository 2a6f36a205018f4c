//! The contents of files.

use vstd::arithmetic::div_mod::{
    lemma_fundamental_div_mod, lemma_fundamental_div_mod_converse, lemma_mod_bound,
};
use vstd::prelude::*;
use crate::abi::EISDIR;
use crate::codec::{
    copy_range, is_filled, lemma_filled_none, lemma_overlay_take, overlay,
};
use crate::disk::{bytes_at, Image, McxDiskOps};
use crate::layout::{
    block_of, is_file, lemma_product_bound, mode_is_file, Inode, InodeView, Superblock,
};
use crate::state::State;

verus! {

/// The bytes of a file from `pos` on and below `end`, up to the first hole or
/// the first block that cannot be located, and the error that block gives.
pub open spec fn file_data(img: Image, sb: Superblock, inode: InodeView, pos: int, end: int) -> (
    Seq<u8>,
    Option<i32>,
)
    decreases end - pos,
{
    if pos >= end {
        (Seq::empty(), None)
    } else {
        match block_of(img, sb, inode, pos / (sb.block_size as int)) {
            Err(e) => (Seq::empty(), Some(e)),
            Ok(block) => if block == 0 {
                (Seq::empty(), None)
            } else {
                let rest = file_data(img, sb, inode, pos + 1, end);
                (
                    seq![img(block * sb.block_size + pos % (sb.block_size as int))] + rest.0,
                    rest.1,
                )
            },
        }
    }
}

/// Where a read of `len` bytes from `offset` on ends: at the end of the file at
/// the latest.
pub open spec fn read_end(inode: InodeView, offset: u64, len: nat) -> int {
    if offset + len <= inode.size {
        offset + len
    } else {
        inode.size as int
    }
}

/// The bytes that a read of `len` bytes from `offset` on gives, and its result.
pub open spec fn file_read(
    img: Image,
    sb: Superblock,
    inode: InodeView,
    offset: u64,
    len: nat,
) -> (Seq<u8>, Result<usize, i32>) {
    if !mode_is_file(inode.mode) {
        (Seq::empty(), Err(EISDIR))
    } else {
        let (data, error) = file_data(
            img,
            sb,
            inode,
            offset as int,
            read_end(inode, offset, len),
        );
        (
            data,
            match error {
                Some(e) => Err(e),
                None => Ok(data.len() as usize),
            },
        )
    }
}

/// A read gives no more bytes than lie between its ends.
pub proof fn lemma_file_data_len(
    img: Image,
    sb: Superblock,
    inode: InodeView,
    pos: int,
    end: int,
)
    ensures
        pos <= end ==> file_data(img, sb, inode, pos, end).0.len() <= end - pos,
        pos >= end ==> file_data(img, sb, inode, pos, end).0.len() == 0,
    decreases end - pos,
{
    if pos < end {
        lemma_file_data_len(img, sb, inode, pos + 1, end);
    }
}

/// Stepping through a block one byte at a time.
pub proof fn lemma_block_step(sb: Superblock, pos: int)
    requires
        sb.block_size != 0,
        0 <= pos,
        pos % (sb.block_size as int) + 1 < sb.block_size,
    ensures
        (pos + 1) / (sb.block_size as int) == pos / (sb.block_size as int),
        (pos + 1) % (sb.block_size as int) == pos % (sb.block_size as int) + 1,
{
    let bs = sb.block_size as int;
    let q = pos / bs;
    lemma_fundamental_div_mod(pos, bs);
    lemma_mod_bound(pos, bs);
    assert(bs * q == q * bs) by (nonlinear_arith);
    lemma_fundamental_div_mod_converse(pos + 1, bs, pos / bs, pos % bs + 1);
}

/// The bytes of a file that lie in one block lie side by side on the disk.
pub proof fn lemma_file_run(
    img: Image,
    sb: Superblock,
    inode: InodeView,
    pos: int,
    end: int,
    n: int,
)
    requires
        sb.block_size != 0,
        0 <= pos,
        0 <= n <= end - pos,
        pos % (sb.block_size as int) + n <= sb.block_size,
        block_of(img, sb, inode, pos / (sb.block_size as int)) is Ok,
        block_of(img, sb, inode, pos / (sb.block_size as int))->Ok_0 != 0,
    ensures
        ({
            let bs = sb.block_size as int;
            let block = block_of(img, sb, inode, pos / bs)->Ok_0;
            let rest = file_data(img, sb, inode, pos + n, end);
            file_data(img, sb, inode, pos, end) == (
                bytes_at(img, block * bs + pos % bs, n as nat) + rest.0,
                rest.1,
            )
        }),
    decreases n,
{
    let bs = sb.block_size as int;
    let block = block_of(img, sb, inode, pos / bs)->Ok_0;
    let rest = file_data(img, sb, inode, pos + n, end);
    if n == 0 {
        assert(bytes_at(img, block * bs + pos % bs, 0) + rest.0 =~= rest.0);
    } else {
        let tail = file_data(img, sb, inode, pos + 1, end);
        if n == 1 {
            assert(bytes_at(img, block * bs + pos % bs, 1) + rest.0 =~= seq![
                img(block * bs + pos % bs),
            ] + rest.0);
        } else {
            lemma_block_step(sb, pos);
            lemma_file_run(img, sb, inode, pos + 1, end, n - 1);
            assert(bytes_at(img, block * bs + pos % bs, n as nat) + rest.0 =~= seq![
                img(block * bs + pos % bs),
            ] + (bytes_at(img, block * bs + (pos + 1) % bs, (n - 1) as nat) + rest.0));
        }
    }
}

/// Whether reading from a file comes to looking for its blocks.
pub open spec fn reads_blocks(inode: InodeView, offset: u64, len: nat) -> bool {
    mode_is_file(inode.mode) && offset < inode.size && len > 0
}

impl<D: McxDiskOps> State<D> {
    /// Reads a file from `offset` on into `out` and gives the number of bytes
    /// read.
    pub fn read_file_bytes(&mut self, inode: Inode, offset: u64, out: &mut [u8]) -> (r: Result<
        usize,
        i32,
    >)
        requires
            old(self).sb.wf(),
            reads_blocks(inode@, offset, old(out)@.len()) ==> old(self).attached() && old(
                self,
            ).sb.block_size != 0,
        ensures
            final(out)@.len() == old(out)@.len(),
            !reads_blocks(inode@, offset, old(out)@.len()) ==> *final(self) == *old(self)
                && final(out)@ == old(out)@,
            ({
                let want = file_read(
                    old(self).image(),
                    old(self).sb,
                    inode@,
                    offset,
                    old(out)@.len(),
                );
                &&& final(self).reads(*old(self), r, want.1)
                &&& final(self).quiet(*old(self)) ==> final(out)@ == overlay(old(out)@, 0, want.0)
                &&& is_filled(old(out)@, final(out)@, want.0)
                &&& want.0.len() <= old(out)@.len()
            }),
    {
        let sb = self.sb;
        let ghost img = self.image();
        let ghost want = file_read(img, sb, inode@, offset, out@.len());
        let ghost end = read_end(inode@, offset, out@.len());
        proof {
            lemma_file_data_len(img, sb, inode@, offset as int, end);
        }
        proof {
            lemma_filled_none(out@, want.0);
        }
        if !is_file(inode.mode) {
            assert(out@ =~= overlay(out@, 0, Seq::empty()));
            return Err(EISDIR);
        }
        let len: usize = out.len();
        if offset >= inode.size as u64 {
            assert(out@ =~= overlay(out@, 0, want.0));
            return Ok(0);
        }
        let limit: usize = if len as u64 <= inode.size as u64 - offset {
            len
        } else {
            (inode.size as u64 - offset) as usize
        };
        if limit == 0 {
            assert(want.0 =~= Seq::empty());
            assert(out@ =~= overlay(out@, 0, want.0));
            return Ok(0);
        }
        let mut copied: usize = 0;
        let mut sector: [u8; 512] = [0u8;512];
        assert(want.0 =~= out@.take(0) + want.0);
        while copied < limit
            invariant
                copied <= limit <= len,
                len == out@.len() == old(out)@.len(),
                offset + limit == end,
                offset + limit <= inode.size,
                sb == old(self).sb,
                sb.wf(),
                sb.block_size != 0,
                self.attached(),
                self.goes_on(*old(self)),
                self.quiet(*old(self)),
                self.holds(*old(self)),
                self.image() == img,
                img == old(self).image(),
                end == read_end(inode@, offset, old(out)@.len()),
                mode_is_file(inode@.mode),
                want == file_read(img, sb, inode@, offset, old(out)@.len()),
                want.0.len() <= len,
                ({
                    let all = file_data(img, sb, inode@, offset as int, end);
                    let rest = file_data(img, sb, inode@, offset + copied, end);
                    &&& all.0 == out@.take(copied as int) + rest.0
                    &&& all.1 == rest.1
                }),
                out@.skip(copied as int) == old(out)@.skip(copied as int),
                is_filled(old(out)@, out@, want.0),
            decreases limit - copied,
        {
            let ghost before = out@;
            let file_off: u64 = offset + copied as u64;
            let block_index: u64 = file_off / sb.block_size as u64;
            let within_block: u64 = file_off % sb.block_size as u64;
            let data_block: u32 = match self.data_block_number(inode, block_index) {
                Ok(v) => v,
                Err(e) => {
                    proof {
                        if self.quiet(*old(self)) {
                            assert(want.0 =~= out@.take(copied as int));
                            lemma_overlay_take(old(out)@, out@, copied as int);
                        }
                    }
                    return Err(e)
                },
            };
            if data_block == 0 {
                assert(out@ =~= overlay(old(out)@, 0, want.0)) by {
                    assert(want.0 =~= out@.take(copied as int));
                    lemma_overlay_take(old(out)@, out@, copied as int);
                }
                return Ok(copied);
            }
            proof {
                lemma_product_bound(data_block as int, sb.block_size as int, 0xffff_ffff, 4096);
            }
            let block_abs: u64 = data_block as u64 * sb.block_size as u64 + within_block;
            let sector_lba: u64 = block_abs / 512;
            let sector_off: usize = (block_abs % 512) as usize;
            let rc: i32 = self.disk_read(sector_lba, &mut sector);
            if rc != 0 {
                return Err(rc);
            }
            let take: usize = if 512 - sector_off < limit - copied {
                512 - sector_off
            } else {
                limit - copied
            };
            copy_range(out, copied, &sector, sector_off, take);
            proof {
                assert(within_block + take <= sb.block_size) by {
                    lemma_sector_in_block(data_block as int, sb, within_block as int);
                }
                lemma_file_run(img, sb, inode@, offset + copied, end, take as int);
                let run = bytes_at(img, block_abs as int, take as nat);
                assert(sector@.subrange(sector_off as int, sector_off + take) =~= run);
                let rest = file_data(img, sb, inode@, offset + copied + take, end);
                assert(out@.take(copied + take) + rest.0 =~= before.take(copied as int) + (run
                    + rest.0));
                assert forall|i: int| copied + take <= i < len implies out@[i] == old(out)@[i] by {
                    assert(before.skip(copied as int)[i - copied] == old(out)@.skip(
                        copied as int,
                    )[i - copied]);
                }
                assert(out@.skip(copied + take) =~= old(out)@.skip(copied + take));
                lemma_overlay_take(old(out)@, out@, copied + take);
                assert(want.0.take(copied + take) =~= out@.take(copied + take));
            }
            copied += take;
        }
        assert(want.0 =~= out@.take(copied as int));
        proof {
            lemma_overlay_take(old(out)@, out@, copied as int);
        }
        Ok(copied)
    }
}

/// No sector crosses the end of a block.
proof fn lemma_sector_in_block(block: int, sb: Superblock, within: int)
    requires
        sb.wf(),
        sb.block_size != 0,
        0 <= block,
        0 <= within < sb.block_size,
    ensures
        within + 512 - (block * sb.block_size + within) % 512 <= sb.block_size,
{
    let units = sb.block_size as int / 512;
    let m = block * units;
    assert(sb.block_size == 512 * units);
    assert(block * sb.block_size == 512 * m) by (nonlinear_arith)
        requires
            sb.block_size == 512 * units,
            m == block * units,
    ;
    vstd::arithmetic::div_mod::lemma_mod_multiples_vanish(m, within, 512);
    lemma_fundamental_div_mod(within, 512);
    assert(within / 512 <= units - 1);
}

} // verus!
