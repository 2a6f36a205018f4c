//! The file system on small volumes.

use mochi_cext::abi::{
    McxBuffer, McxPath, EEXIST, EINVAL, EIO, EISDIR, ENOENT, ENOSPC, ENOSYS, ENOTDIR,
};
use mochi_cext::create::Lookup;
use mochi_cext::disk::{Count, Faults, Image, McxDiskOps, Region};
use mochi_cext::memdisk::MemDisk;
use mochi_cext::state::State;

const FILE: u32 = 0o100644;
const DIRECTORY: u32 = 0o040755;

fn put16(img: &mut [u8], at: usize, v: u16) {
    img[at..at + 2].copy_from_slice(&v.to_le_bytes());
}

fn put32(img: &mut [u8], at: usize, v: u32) {
    img[at..at + 4].copy_from_slice(&v.to_le_bytes());
}

fn get16(img: &[u8], at: usize) -> u16 {
    u16::from_le_bytes([img[at], img[at + 1]])
}

fn get32(img: &[u8], at: usize) -> u32 {
    u32::from_le_bytes([img[at], img[at + 1], img[at + 2], img[at + 3]])
}

/// Where things are on a volume of the tests, in blocks.
const BLOCK_BITMAP: usize = 3;
const INODE_BITMAP: usize = 4;
const INODE_TABLE: usize = 5;
const ROOT_BLOCK: usize = 9;

/// A volume of `blocks` blocks of `1024 << log` bytes with 32 inodes, whose root
/// directory is empty.
fn volume(log: u32, blocks: u32) -> Vec<u8> {
    let bs = 1024usize << log;
    let mut img = vec![0u8; bs * blocks as usize];
    let gdt = if bs == 1024 { 2048 } else { bs };
    put32(&mut img, 1024, 32);
    put32(&mut img, 1024 + 4, blocks);
    put16(&mut img, 1024 + 12, (blocks - 10) as u16);
    put16(&mut img, 1024 + 16, 22);
    put32(&mut img, 1024 + 24, log);
    put32(&mut img, 1024 + 32, 8192);
    put32(&mut img, 1024 + 40, 32);
    put16(&mut img, 1024 + 56, 0xef53);
    put32(&mut img, 1024 + 84, 11);
    put16(&mut img, 1024 + 88, 128);
    put32(&mut img, gdt, BLOCK_BITMAP as u32);
    put32(&mut img, gdt + 4, INODE_BITMAP as u32);
    put32(&mut img, gdt + 8, INODE_TABLE as u32);
    put16(&mut img, gdt + 12, (blocks - 10) as u16);
    put16(&mut img, gdt + 14, 22);
    put16(&mut img, BLOCK_BITMAP * bs, 0x03ff);
    put16(&mut img, INODE_BITMAP * bs, 0x03ff);
    let root = INODE_TABLE * bs + 128;
    put16(&mut img, root, 0x41ed);
    put32(&mut img, root + 4, bs as u32);
    put16(&mut img, root + 26, 2);
    put32(&mut img, root + 28, (bs / 512) as u32);
    put32(&mut img, root + 40, ROOT_BLOCK as u32);
    let dir = ROOT_BLOCK * bs;
    put32(&mut img, dir, 2);
    put16(&mut img, dir + 4, 12);
    img[dir + 6] = 1;
    img[dir + 7] = 2;
    img[dir + 8] = b'.';
    put32(&mut img, dir + 12, 2);
    put16(&mut img, dir + 16, (bs - 12) as u16);
    img[dir + 18] = 2;
    img[dir + 19] = 2;
    img[dir + 20] = b'.';
    img[dir + 21] = b'.';
    img
}

/// A driver whose requests can be made to fail: each of the first `spare` is
/// served, and the next `bad` are answered with `rc`. It notes which sectors were
/// to be stored, and the requests that were not for one sector.
struct Flaky {
    disk: MemDisk,
    spare: usize,
    bad: usize,
    rc: i32,
    reads: usize,
    writes: usize,
    flushes: usize,
    uneven: usize,
    stored: Vec<u64>,
}

impl Flaky {
    fn new(img: Vec<u8>) -> Self {
        Flaky {
            disk: MemDisk::new(img),
            spare: usize::MAX,
            bad: 0,
            rc: EIO,
            reads: 0,
            writes: 0,
            flushes: 0,
            uneven: 0,
            stored: vec![],
        }
    }

    fn serves(&mut self) -> bool {
        if self.spare > 0 {
            self.spare -= 1;
            true
        } else if self.bad > 0 {
            self.bad -= 1;
            false
        } else {
            true
        }
    }
}

impl McxDiskOps for Flaky {
    fn image(&self, _disk_id: u32) -> Image {
        unreachable!()
    }

    fn durable(&self, _disk_id: u32) -> Image {
        unreachable!()
    }

    fn torn(&self, _disk_id: u32) -> Region {
        unreachable!()
    }

    fn faults(&self) -> Faults {
        unreachable!()
    }

    fn flushes(&self) -> Count {
        unreachable!()
    }

    fn uneven(&self) -> Count {
        unreachable!()
    }

    fn probe(&mut self) -> i32 {
        self.disk.probe()
    }

    fn read_sector(&mut self, disk_id: u32, lba: u64, buf: &mut [u8]) -> i32 {
        self.reads += 1;
        self.uneven += (buf.len() != 512) as usize;
        if !self.serves() {
            return self.rc;
        }
        self.disk.read_sector(disk_id, lba, buf)
    }

    fn write_sector(&mut self, disk_id: u32, lba: u64, buf: &[u8]) -> i32 {
        self.writes += 1;
        self.uneven += (buf.len() != 512) as usize;
        self.stored.push(lba);
        if !self.serves() {
            return self.rc;
        }
        self.disk.write_sector(disk_id, lba, buf)
    }

    fn flush(&mut self, disk_id: u32) -> i32 {
        self.flushes += 1;
        if !self.serves() {
            return self.rc;
        }
        self.disk.flush(disk_id)
    }
}

fn mounted(img: Vec<u8>) -> State<Flaky> {
    let mut fs = State::new();
    assert_eq!(fs.set_disk_ops_impl(Some(Flaky::new(img))), 0);
    assert_eq!(fs.mount_impl(0), 0);
    fs
}

fn contents(fs: &State<Flaky>) -> Vec<u8> {
    fs.disk_ops.as_ref().unwrap().disk.contents().to_vec()
}

fn driver(fs: &mut State<Flaky>) -> &mut Flaky {
    fs.disk_ops.as_mut().unwrap()
}

fn path(p: &[u8]) -> McxPath<'_> {
    McxPath { ptr: Some(p) }
}

fn create(fs: &mut State<Flaky>, p: &[u8], mode: u32) -> i32 {
    assert!(fs.can_walk(p));
    fs.create_impl(path(p), mode)
}

fn stat(fs: &mut State<Flaky>, p: &[u8]) -> Result<(u16, u64), i32> {
    let mut mode = Some(0);
    let mut size = Some(0);
    match fs.stat_impl(path(p), &mut mode, &mut size) {
        0 => Ok((mode.unwrap(), size.unwrap())),
        rc => Err(rc),
    }
}

fn write(fs: &mut State<Flaky>, p: &[u8], offset: u64, data: &[u8]) -> Result<usize, i32> {
    let buf = McxBuffer { ptr: Some(data.to_vec()) };
    let mut written = Some(usize::MAX);
    match fs.write_impl(path(p), offset, &buf, &mut written) {
        0 => Ok(written.unwrap()),
        rc => {
            assert_eq!(written, Some(usize::MAX));
            Err(rc)
        }
    }
}

fn read(fs: &mut State<Flaky>, p: &[u8], offset: u64, len: usize) -> Result<Vec<u8>, i32> {
    let mut buf = McxBuffer { ptr: Some(vec![0xaa; len]) };
    let mut got = Some(usize::MAX);
    let rc = fs.read_impl(path(p), offset, &mut buf, &mut got);
    let bytes = buf.ptr.unwrap();
    assert_eq!(bytes.len(), len);
    if rc != 0 {
        assert_eq!(got, Some(usize::MAX));
        return Err(rc);
    }
    let n = got.unwrap();
    assert!(bytes[n..].iter().all(|b| *b == 0xaa));
    Ok(bytes[..n].to_vec())
}

fn list(fs: &mut State<Flaky>, p: &[u8], len: usize) -> Result<Vec<u8>, i32> {
    let mut buf = McxBuffer { ptr: Some(vec![0xaa; len]) };
    let mut got = Some(usize::MAX);
    let rc = fs.readdir_impl(path(p), &mut buf, &mut got);
    let bytes = buf.ptr.unwrap();
    if rc != 0 {
        return Err(rc);
    }
    let n = got.unwrap();
    assert!(bytes[n..].iter().all(|b| *b == 0xaa));
    Ok(bytes[..n].to_vec())
}

fn truncate(fs: &mut State<Flaky>, p: &[u8], len: u64) -> i32 {
    fs.truncate_impl(path(p), len)
}

fn pattern(n: usize, seed: u8) -> Vec<u8> {
    (0..n).map(|i| (i as u8).wrapping_mul(31).wrapping_add(seed)).collect()
}

#[test]
fn a_volume_is_mounted() {
    let fs = mounted(volume(0, 64));
    assert!(fs.mounted);
    assert_eq!(fs.disk_id, 0);
    assert_eq!(fs.sb.blocks_count, 64);
    assert_eq!(fs.sb.block_size, 1024);
    assert_eq!(fs.sb.inode_size, 128);
    assert_eq!(fs.sb.first_inode, 11);
    assert_eq!(fs.sb.blocks_per_group, 8192);
    assert_eq!(fs.sb.inodes_per_group, 32);
    assert_eq!(fs.sb.inodes_count, 32);
}

#[test]
fn mounting_needs_a_driver() {
    let mut fs: State<MemDisk> = State::new();
    assert!(!fs.is_ready());
    assert_eq!(fs.mount_impl(0), ENOSYS);
    assert_eq!(fs.set_disk_ops_impl(None), EINVAL);
    assert_eq!(fs.mount_impl(0), ENOSYS);
    assert_eq!(fs.disk_read(0, &mut [0; 512]), ENOSYS);
    assert_eq!(fs.disk_write(0, &[0; 512]), ENOSYS);
    assert_eq!(fs.disk_flush(), ENOSYS);
}

#[test]
fn a_bad_superblock_is_refused() {
    let mut img = volume(0, 64);
    put16(&mut img, 1024 + 56, 0xef52);
    let mut fs: State<MemDisk> = State::new();
    fs.set_disk_ops_impl(Some(MemDisk::new(img)));
    assert_eq!(fs.mount_impl(0), EINVAL);
    assert!(!fs.mounted);
    assert_eq!(fs.sb.block_size, 0);
    // The driver has no second disk; its answer is passed on.
    assert_eq!(fs.mount_impl(1), EINVAL);
    assert_eq!(fs.disk_id, 1);
}

#[test]
fn block_sizes_are_checked() {
    for (log, want) in [
        (0, Ok(1024)),
        (1, Ok(2048)),
        (2, Ok(4096)),
        (3, Err(EINVAL)),
        (21, Err(EINVAL)),
        (22, Ok(0)),
        (31, Ok(0)),
        (32, Err(EINVAL)),
        (u32::MAX, Err(EINVAL)),
    ] {
        let mut img = volume(0, 64);
        put32(&mut img, 1024 + 24, log);
        let mut fs: State<MemDisk> = State::new();
        fs.set_disk_ops_impl(Some(MemDisk::new(img)));
        match want {
            Ok(size) => {
                assert_eq!(fs.mount_impl(0), 0);
                assert_eq!(fs.sb.block_size, size);
                assert_eq!(fs.is_ready(), size != 0);
            }
            Err(rc) => assert_eq!(fs.mount_impl(0), rc),
        }
    }
}

#[test]
fn the_root_is_there() {
    let mut fs = mounted(volume(0, 64));
    assert_eq!(stat(&mut fs, b"/"), Ok((0x41ed, 1024)));
    assert_eq!(stat(&mut fs, b"///"), Ok((0x41ed, 1024)));
    assert_eq!(stat(&mut fs, b"/."), Ok((0x41ed, 1024)));
    assert_eq!(list(&mut fs, b"/", 100), Ok(vec![]));
}

#[test]
fn bad_arguments_are_refused() {
    let mut fs = mounted(volume(0, 64));
    let none = McxPath { ptr: None };
    let (mut mode, mut size) = (Some(1u16), Some(1u64));
    assert_eq!(fs.stat_impl(none, &mut mode, &mut size), EINVAL);
    assert_eq!(fs.stat_impl(path(b"/"), &mut None, &mut size), EINVAL);
    assert_eq!(fs.stat_impl(path(b"/"), &mut mode, &mut None), EINVAL);
    assert_eq!((mode, size), (Some(1), Some(1)));
    assert_eq!(stat(&mut fs, b""), Err(EINVAL));
    assert_eq!(stat(&mut fs, b"x"), Err(EINVAL));
    assert_eq!(stat(&mut fs, b"/.."), Err(EINVAL));
    let mut buf = McxBuffer { ptr: None };
    let mut n = Some(5usize);
    assert_eq!(fs.read_impl(path(b"/"), 0, &mut buf, &mut n), EINVAL);
    assert_eq!(fs.readdir_impl(path(b"/"), &mut buf, &mut n), EINVAL);
    assert_eq!(fs.write_impl(path(b"/"), 0, &buf, &mut n), EINVAL);
    let mut buf = McxBuffer { ptr: Some(vec![0; 4]) };
    assert_eq!(fs.read_impl(path(b"/"), 0, &mut buf, &mut None), EINVAL);
    assert_eq!(fs.readdir_impl(path(b"/"), &mut buf, &mut None), EINVAL);
    assert_eq!(fs.write_impl(path(b"/"), 0, &buf, &mut None), EINVAL);
    assert_eq!(fs.read_impl(none, 0, &mut buf, &mut n), EINVAL);
    assert_eq!(fs.readdir_impl(none, &mut buf, &mut n), EINVAL);
    assert_eq!(fs.write_impl(none, 0, &buf, &mut n), EINVAL);
    assert_eq!(n, Some(5));
    assert_eq!(fs.create_impl(none, FILE), EINVAL);
    assert_eq!(fs.create_impl(path(b"x"), FILE), EINVAL);
    assert_eq!(fs.truncate_impl(none, 0), EINVAL);
    assert_eq!(fs.truncate_impl(path(b"x"), 0), EINVAL);
    assert_eq!(fs.remove_impl(path(b"/x"), 0), ENOSYS);
    assert_eq!(fs.rename_impl(path(b"/x"), path(b"/y")), ENOSYS);
}

#[test]
fn arguments_are_checked_before_the_volume() {
    let mut fs: State<MemDisk> = State::new();
    assert_eq!(fs.stat_impl(path(b"/"), &mut None, &mut Some(0)), EINVAL);
    assert_eq!(fs.stat_impl(path(b"x"), &mut Some(0), &mut Some(0)), EINVAL);
    assert_eq!(fs.create_impl(path(b""), FILE), EINVAL);
}

#[test]
fn a_new_file_is_empty() {
    let mut fs = mounted(volume(0, 64));
    assert_eq!(create(&mut fs, b"/notes", FILE), 0);
    assert_eq!(stat(&mut fs, b"/notes"), Ok((0x81a4, 0)));
    assert_eq!(read(&mut fs, b"/notes", 0, 10), Ok(vec![]));
    assert_eq!(read(&mut fs, b"/notes", 1000, 10), Ok(vec![]));
    assert_eq!(list(&mut fs, b"/", 100), Ok(b"notes\0".to_vec()));
    let img = contents(&fs);
    // The number and the counts.
    assert_eq!(get16(&img, INODE_BITMAP * 1024), 0x07ff);
    assert_eq!(get16(&img, 1024 + 16), 21);
    assert_eq!(get16(&img, 2048 + 14), 21);
    assert_eq!(get16(&img, 1024 + 12), 54);
    // The inode.
    let at = INODE_TABLE * 1024 + 10 * 128;
    assert_eq!(get16(&img, at), 0x81a4);
    assert_eq!(get16(&img, at + 26), 1);
    assert!(img[at + 28..at + 128].iter().all(|b| *b == 0));
    // The entry, behind what the one before it needs.
    let dir = ROOT_BLOCK * 1024;
    assert_eq!(get16(&img, dir + 16), 12);
    assert_eq!(get32(&img, dir + 24), 11);
    assert_eq!(get16(&img, dir + 28), 1000);
    assert_eq!(&img[dir + 30..dir + 37], b"\x05\x01notes");
    assert_eq!(driver(&mut fs).flushes, 1);
}

#[test]
fn modes_keep_type_and_permissions_only() {
    let mut fs = mounted(volume(0, 64));
    assert_eq!(create(&mut fs, b"/a", 0), 0);
    assert_eq!(stat(&mut fs, b"/a"), Ok((0x8000, 0)));
    assert_eq!(create(&mut fs, b"/b", 0o107777), 0);
    assert_eq!(stat(&mut fs, b"/b"), Ok((0x81ff, 0)));
    // A symbolic link becomes a file.
    assert_eq!(create(&mut fs, b"/c", 0o120700), 0);
    assert_eq!(stat(&mut fs, b"/c"), Ok((0x81c0, 0)));
    // What is above 16 bits does not matter.
    assert_eq!(create(&mut fs, b"/d", 0x1_41ed), 0);
    assert_eq!(stat(&mut fs, b"/d"), Ok((0x41ed, 1024)));
}

#[test]
fn what_exists_is_not_created() {
    let mut fs = mounted(volume(0, 64));
    assert_eq!(create(&mut fs, b"/notes", FILE), 0);
    let before = contents(&fs);
    assert_eq!(create(&mut fs, b"/notes", FILE), EEXIST);
    assert_eq!(create(&mut fs, b"/notes", DIRECTORY), EEXIST);
    assert_eq!(create(&mut fs, b"/", DIRECTORY), EEXIST);
    assert_eq!(create(&mut fs, b"//.//", DIRECTORY), EEXIST);
    assert_eq!(contents(&fs), before);
}

#[test]
fn creating_needs_a_directory() {
    let mut fs = mounted(volume(0, 64));
    assert_eq!(create(&mut fs, b"/f", FILE), 0);
    let before = contents(&fs);
    assert_eq!(create(&mut fs, b"/none/x", FILE), ENOENT);
    assert_eq!(create(&mut fs, b"/f/x", FILE), ENOTDIR);
    assert_eq!(create(&mut fs, b"/f/x/y", FILE), ENOTDIR);
    assert_eq!(create(&mut fs, b"/../x", FILE), EINVAL);
    assert_eq!(contents(&fs), before);
}

#[test]
fn a_new_directory_is_empty() {
    let mut fs = mounted(volume(0, 64));
    assert_eq!(create(&mut fs, b"/etc", DIRECTORY), 0);
    assert_eq!(stat(&mut fs, b"/etc"), Ok((0x41ed, 1024)));
    assert_eq!(list(&mut fs, b"/etc", 100), Ok(vec![]));
    assert_eq!(list(&mut fs, b"/", 100), Ok(b"etc\0".to_vec()));
    assert_eq!(fs.lookup_name_in_dir(11, b"."), Ok(11));
    assert_eq!(fs.lookup_name_in_dir(11, b".."), Ok(2));
    assert_eq!(fs.lookup_name_in_dir(11, b"etc"), Err(ENOENT));
    let img = contents(&fs);
    let at = INODE_TABLE * 1024 + 10 * 128;
    assert_eq!(get16(&img, at + 26), 2);
    assert_eq!(get32(&img, at + 28), 2);
    assert_eq!(get32(&img, at + 40), 10);
    assert_eq!(get16(&img, BLOCK_BITMAP * 1024), 0x07ff);
    assert_eq!(get16(&img, 1024 + 12), 53);
    assert_eq!(get16(&img, 2048 + 12), 53);
    assert_eq!(&img[10 * 1024..10 * 1024 + 22], b"\x0b\0\0\0\x0c\0\x01\x02.\0\0\0\x02\0\0\0\xf4\x03\x02\x02..");
    assert_eq!(img[ROOT_BLOCK * 1024 + 24 + 7], 2);
}

#[test]
fn paths_lead_through_directories() {
    let mut fs = mounted(volume(0, 64));
    assert_eq!(create(&mut fs, b"/a", DIRECTORY), 0);
    assert_eq!(create(&mut fs, b"/a/b", DIRECTORY), 0);
    assert_eq!(create(&mut fs, b"/a/b/c", FILE), 0);
    assert_eq!(write(&mut fs, b"/a/b/c", 0, b"deep"), Ok(4));
    for p in [&b"/a/b/c"[..], b"//a///b/c", b"/a/./b/./c", b"/a/b/c/", b"/./a/b/c/."] {
        assert_eq!(stat(&mut fs, p), Ok((0x81a4, 4)));
        assert_eq!(read(&mut fs, p, 0, 9), Ok(b"deep".to_vec()));
    }
    assert_eq!(stat(&mut fs, b"/a/c"), Err(ENOENT));
    assert_eq!(stat(&mut fs, b"/a/b/c/d"), Err(ENOTDIR));
    assert_eq!(stat(&mut fs, b"/a/../a"), Err(EINVAL));
    assert_eq!(stat(&mut fs, b"/none/.."), Err(ENOENT));
    assert_eq!(list(&mut fs, b"/a", 9), Ok(b"b\0".to_vec()));
    assert_eq!(create(&mut fs, b"//a/./b//d/", FILE), 0);
    assert_eq!(list(&mut fs, b"/a/b", 9), Ok(b"c\0d\0".to_vec()));
    let (ino, inode) = fs.resolve_path(b"/a/b/c").ok().unwrap();
    assert_eq!((ino, inode.size, inode.blocks[0]), (13, 4, 12));
}

#[test]
fn what_was_written_is_read_back() {
    let mut fs = mounted(volume(0, 64));
    assert_eq!(create(&mut fs, b"/f", FILE), 0);
    let data = pattern(3000, 7);
    assert_eq!(write(&mut fs, b"/f", 0, &data), Ok(3000));
    assert_eq!(stat(&mut fs, b"/f"), Ok((0x81a4, 3000)));
    assert_eq!(read(&mut fs, b"/f", 0, 3000), Ok(data.clone()));
    assert_eq!(read(&mut fs, b"/f", 0, 5000), Ok(data.clone()));
    assert_eq!(read(&mut fs, b"/f", 1020, 10), Ok(data[1020..1030].to_vec()));
    assert_eq!(read(&mut fs, b"/f", 511, 2), Ok(data[511..513].to_vec()));
    assert_eq!(read(&mut fs, b"/f", 2999, 5), Ok(data[2999..].to_vec()));
    assert_eq!(read(&mut fs, b"/f", 3000, 5), Ok(vec![]));
    assert_eq!(read(&mut fs, b"/f", u64::MAX, 5), Ok(vec![]));
    assert_eq!(read(&mut fs, b"/f", 5, 0), Ok(vec![]));
    // Three blocks, six units of 512 bytes.
    let at = INODE_TABLE * 1024 + 10 * 128;
    let img = contents(&fs);
    assert_eq!(get32(&img, at + 28), 6);
    assert_eq!([get32(&img, at + 40), get32(&img, at + 44), get32(&img, at + 48)], [10, 11, 12]);
    assert_eq!(get16(&img, BLOCK_BITMAP * 1024), 0x1fff);
    assert_eq!(get16(&img, 1024 + 12), 51);
    assert_eq!(&img[10 * 1024..10 * 1024 + 3000], &data[..]);
    assert!(img[10 * 1024 + 3000..13 * 1024].iter().all(|b| *b == 0));
}

#[test]
fn a_write_changes_its_range_only() {
    let mut fs = mounted(volume(0, 64));
    assert_eq!(create(&mut fs, b"/f", FILE), 0);
    let mut data = pattern(2500, 1);
    assert_eq!(write(&mut fs, b"/f", 0, &data), Ok(2500));
    let free = get16(&contents(&fs), 1024 + 12);
    let patch = pattern(700, 99);
    assert_eq!(write(&mut fs, b"/f", 900, &patch), Ok(700));
    data[900..1600].copy_from_slice(&patch);
    assert_eq!(read(&mut fs, b"/f", 0, 4000), Ok(data.clone()));
    assert_eq!(stat(&mut fs, b"/f"), Ok((0x81a4, 2500)));
    assert_eq!(get16(&contents(&fs), 1024 + 12), free);
    assert_eq!(write(&mut fs, b"/f", 2400, &patch), Ok(700));
    data.truncate(2400);
    data.extend_from_slice(&patch);
    assert_eq!(read(&mut fs, b"/f", 0, 4000), Ok(data));
    assert_eq!(stat(&mut fs, b"/f"), Ok((0x81a4, 3100)));
}

#[test]
fn a_write_leaves_other_files_alone() {
    let mut fs = mounted(volume(0, 64));
    assert_eq!(create(&mut fs, b"/a", FILE), 0);
    assert_eq!(create(&mut fs, b"/d", DIRECTORY), 0);
    assert_eq!(create(&mut fs, b"/d/b", FILE), 0);
    let one = pattern(1500, 3);
    assert_eq!(write(&mut fs, b"/a", 0, &one), Ok(1500));
    assert_eq!(write(&mut fs, b"/d/b", 0, &pattern(5000, 8)), Ok(5000));
    assert_eq!(write(&mut fs, b"/d/b", 13 * 1024, &pattern(10, 8)), Ok(10));
    assert_eq!(read(&mut fs, b"/a", 0, 2000), Ok(one));
    assert_eq!(stat(&mut fs, b"/a"), Ok((0x81a4, 1500)));
    assert_eq!(list(&mut fs, b"/", 50), Ok(b"a\0d\0".to_vec()));
    assert_eq!(list(&mut fs, b"/d", 50), Ok(b"b\0".to_vec()));
}

#[test]
fn large_files_use_an_indirect_block() {
    let mut fs = mounted(volume(0, 64));
    assert_eq!(create(&mut fs, b"/f", FILE), 0);
    let data = pattern(15 * 1024, 5);
    assert_eq!(write(&mut fs, b"/f", 0, &data), Ok(15 * 1024));
    assert_eq!(read(&mut fs, b"/f", 0, 20_000), Ok(data));
    let img = contents(&fs);
    let at = INODE_TABLE * 1024 + 10 * 128;
    // Fifteen blocks of data and the indirect one.
    assert_eq!(get32(&img, at + 28), 32);
    // The block of data is given out before the indirect one.
    assert_eq!(get32(&img, at + 88), 23);
    assert_eq!(get32(&img, 23 * 1024), 22);
    assert_eq!(get32(&img, 23 * 1024 + 4), 24);
    assert_eq!(get32(&img, 23 * 1024 + 8), 25);
    assert_eq!(get32(&img, 23 * 1024 + 12), 0);
    let (_, inode) = fs.resolve_path(b"/f").ok().unwrap();
    assert_eq!(fs.data_block_number(inode, 12), Ok(22));
    assert_eq!(fs.data_block_number(inode, 15), Ok(0));
    assert_eq!(fs.data_block_number(inode, 12 + 255), Ok(0));
    assert_eq!(fs.data_block_number(inode, 12 + 256), Err(ENOSYS));
    assert_eq!(fs.read_indirect_entry(23, 1), Ok(24));
}

#[test]
fn files_end_with_the_indirect_block() {
    let mut fs = mounted(volume(0, 64));
    assert_eq!(create(&mut fs, b"/f", FILE), 0);
    let end = (12 + 256) * 1024;
    assert_eq!(write(&mut fs, b"/f", end - 1, b"x"), Ok(1));
    assert_eq!(stat(&mut fs, b"/f"), Ok((0x81a4, end)));
    assert_eq!(read(&mut fs, b"/f", end - 1, 4), Ok(b"x".to_vec()));
    assert_eq!(write(&mut fs, b"/f", end, b"x"), Err(ENOSYS));
    assert_eq!(write(&mut fs, b"/f", u64::MAX, b"x"), Err(ENOSYS));
    assert_eq!(stat(&mut fs, b"/f"), Ok((0x81a4, end)));
    // No bytes are written, but the size is set.
    assert_eq!(write(&mut fs, b"/f", end + 5, b""), Ok(0));
    assert_eq!(stat(&mut fs, b"/f"), Ok((0x81a4, end + 5)));
    assert_eq!(write(&mut fs, b"/f", 1 << 32, b""), Err(EINVAL));
    assert_eq!(read(&mut fs, b"/f", end, 1), Err(ENOSYS));
}

#[test]
fn reading_stops_at_a_hole() {
    let mut fs = mounted(volume(0, 64));
    assert_eq!(create(&mut fs, b"/f", FILE), 0);
    assert_eq!(write(&mut fs, b"/f", 10, b"head"), Ok(4));
    assert_eq!(write(&mut fs, b"/f", 2048, b"tail"), Ok(4));
    assert_eq!(stat(&mut fs, b"/f"), Ok((0x81a4, 2052)));
    let mut first = vec![0u8; 1024];
    first[10..14].copy_from_slice(b"head");
    assert_eq!(read(&mut fs, b"/f", 0, 4000), Ok(first));
    assert_eq!(read(&mut fs, b"/f", 1024, 10), Ok(vec![]));
    assert_eq!(read(&mut fs, b"/f", 2048, 10), Ok(b"tail".to_vec()));
}

#[test]
fn a_file_can_be_read_in_parts() {
    let mut fs = mounted(volume(0, 64));
    assert_eq!(create(&mut fs, b"/f", FILE), 0);
    let data = pattern(2600, 77);
    assert_eq!(write(&mut fs, b"/f", 0, &data), Ok(2600));
    for step in [1usize, 7, 511, 512, 1024, 1500] {
        let mut all = vec![];
        loop {
            let part = read(&mut fs, b"/f", all.len() as u64, step).unwrap();
            if part.is_empty() {
                break;
            }
            all.extend_from_slice(&part);
        }
        assert_eq!(all, data);
    }
}

#[test]
fn files_and_directories_are_told_apart() {
    let mut fs = mounted(volume(0, 64));
    assert_eq!(create(&mut fs, b"/f", FILE), 0);
    assert_eq!(read(&mut fs, b"/", 0, 4), Err(EISDIR));
    assert_eq!(write(&mut fs, b"/", 0, b"x"), Err(EISDIR));
    assert_eq!(truncate(&mut fs, b"/", 0), EISDIR);
    assert_eq!(list(&mut fs, b"/f", 10), Err(ENOTDIR));
    assert_eq!(read(&mut fs, b"/g", 0, 4), Err(ENOENT));
    assert_eq!(write(&mut fs, b"/g", 0, b"x"), Err(ENOENT));
    assert_eq!(truncate(&mut fs, b"/g", 0), ENOENT);
    assert_eq!(list(&mut fs, b"/g", 10), Err(ENOENT));
    assert_eq!(fs.lookup_name_in_dir(11, b"x"), Err(ENOTDIR));
    assert_eq!(fs.lookup_name_in_dir(0, b"x"), Err(EINVAL));
    assert_eq!(fs.load_inode(0).err(), Some(EINVAL));
}

#[test]
fn an_emptied_file_gives_its_blocks_back() {
    let mut fs = mounted(volume(0, 64));
    assert_eq!(create(&mut fs, b"/f", FILE), 0);
    assert_eq!(write(&mut fs, b"/f", 0, &pattern(14 * 1024 + 5, 9)), Ok(14 * 1024 + 5));
    assert_eq!(get16(&contents(&fs), 1024 + 12), 54 - 16);
    assert_eq!(truncate(&mut fs, b"/f", 0), 0);
    assert_eq!(stat(&mut fs, b"/f"), Ok((0x81a4, 0)));
    assert_eq!(read(&mut fs, b"/f", 0, 10), Ok(vec![]));
    let img = contents(&fs);
    assert_eq!(get16(&img, 1024 + 12), 54);
    assert_eq!(get16(&img, 2048 + 12), 54);
    assert_eq!(get32(&img, BLOCK_BITMAP * 1024), 0x03ff);
    let at = INODE_TABLE * 1024 + 10 * 128;
    assert_eq!(get32(&img, at + 28), 0);
    assert!(img[at + 40..at + 92].iter().all(|b| *b == 0));
    // The blocks are given out again.
    assert_eq!(write(&mut fs, b"/f", 0, b"again"), Ok(5));
    assert_eq!(read(&mut fs, b"/f", 0, 10), Ok(b"again".to_vec()));
    assert_eq!(get32(&contents(&fs), at + 40), 10);
}

#[test]
fn other_lengths_are_not_offered() {
    let mut fs = mounted(volume(0, 64));
    assert_eq!(create(&mut fs, b"/f", FILE), 0);
    assert_eq!(write(&mut fs, b"/f", 0, b"abc"), Ok(3));
    let before = contents(&fs);
    assert_eq!(truncate(&mut fs, b"/f", 2), ENOSYS);
    assert_eq!(truncate(&mut fs, b"/f", 4), ENOSYS);
    assert_eq!(truncate(&mut fs, b"/f", 3), 0);
    assert_eq!(contents(&fs), before);
    assert_eq!(create(&mut fs, b"/g", FILE), 0);
    let before = contents(&fs);
    assert_eq!(truncate(&mut fs, b"/g", 0), 0);
    assert_eq!(contents(&fs), before);
}

#[test]
fn names_are_listed_whole() {
    let mut fs = mounted(volume(0, 64));
    for name in [&b"/one"[..], b"/two", b"/three"] {
        assert_eq!(create(&mut fs, name, FILE), 0);
    }
    let all = b"one\0two\0three\0".to_vec();
    assert_eq!(list(&mut fs, b"/", 14), Ok(all.clone()));
    assert_eq!(list(&mut fs, b"/", 100), Ok(all.clone()));
    assert_eq!(list(&mut fs, b"/", 13), Ok(all[..8].to_vec()));
    assert_eq!(list(&mut fs, b"/", 8), Ok(all[..8].to_vec()));
    assert_eq!(list(&mut fs, b"/", 7), Ok(all[..4].to_vec()));
    assert_eq!(list(&mut fs, b"/", 3), Ok(vec![]));
    assert_eq!(list(&mut fs, b"/", 0), Ok(vec![]));
}

#[test]
fn a_full_directory_gets_a_block() {
    let mut fs = mounted(volume(0, 64));
    let mut names = vec![];
    for i in 0..10u8 {
        let mut name = vec![b'a' + i; 120];
        name.insert(0, b'/');
        assert_eq!(create(&mut fs, &name, FILE), 0);
        names.push(name);
    }
    // Each entry takes 128 bytes of the 1024 that the first block has.
    assert_eq!(stat(&mut fs, b"/"), Ok((0x41ed, 2048)));
    let img = contents(&fs);
    let root = INODE_TABLE * 1024 + 128;
    assert_eq!(get32(&img, root + 28), 4);
    assert_eq!(get32(&img, root + 44), 10);
    assert_eq!(get16(&img, 10 * 1024 + 4), 128);
    for (i, name) in names.iter().enumerate() {
        let (ino, _) = fs.resolve_path(name).ok().unwrap();
        assert_eq!(ino as usize, 11 + i);
    }
    let mut want = vec![];
    for name in &names {
        want.extend_from_slice(&name[1..]);
        want.push(0);
    }
    assert_eq!(list(&mut fs, b"/", 4000), Ok(want));
    assert_eq!(fs.lookup_name_in_dir(2, b"."), Ok(2));
}

#[test]
fn names_have_up_to_255_bytes() {
    let mut fs = mounted(volume(0, 64));
    let mut name = vec![b'n'; 256];
    name[0] = b'/';
    assert_eq!(create(&mut fs, &name, FILE), 0);
    assert_eq!(stat(&mut fs, &name), Ok((0x81a4, 0)));
    // A longer one is entered under the low byte of its length, and not found.
    name.push(b'n');
    assert_eq!(create(&mut fs, &name, FILE), ENOENT);
    assert_eq!(stat(&mut fs, &name), Err(ENOENT));
    // As is the name of the parent.
    assert_eq!(create(&mut fs, b"/..", FILE), ENOENT);
}

#[test]
fn inode_numbers_run_out() {
    let mut img = volume(0, 64);
    img[INODE_BITMAP * 1024 + 1] = 0xff;
    img[INODE_BITMAP * 1024 + 2] = 0xff;
    img[INODE_BITMAP * 1024 + 3] = 0x7f;
    put16(&mut img, 1024 + 16, 1);
    put16(&mut img, 2048 + 14, 1);
    let mut fs = mounted(img);
    assert_eq!(create(&mut fs, b"/last", FILE), 0);
    assert_eq!(fs.resolve_path(b"/last").ok().unwrap().0, 32);
    let before = contents(&fs);
    assert_eq!(create(&mut fs, b"/more", FILE), ENOSPC);
    assert_eq!(contents(&fs), before);
    assert_eq!(fs.allocate_inode_number(), Err(ENOSPC));
}

#[test]
fn blocks_run_out() {
    let mut fs = mounted(volume(0, 12));
    assert_eq!(create(&mut fs, b"/f", FILE), 0);
    assert_eq!(write(&mut fs, b"/f", 0, &pattern(2048, 1)), Ok(2048));
    assert_eq!(write(&mut fs, b"/f", 2048, b"x"), Err(ENOSPC));
    assert_eq!(stat(&mut fs, b"/f"), Ok((0x81a4, 2048)));
    assert_eq!(read(&mut fs, b"/f", 0, 4000), Ok(pattern(2048, 1)));
    assert_eq!(fs.allocate_block_number(), Err(ENOSPC));
    // A directory that finds no block leaves the disk as it was.
    let before = contents(&fs);
    assert_eq!(create(&mut fs, b"/d", DIRECTORY), ENOSPC);
    assert_eq!(contents(&fs), before);
}

#[test]
fn counts_can_run_out_first() {
    let mut img = volume(0, 64);
    put16(&mut img, 1024 + 12, 0);
    let mut fs = mounted(img);
    // The bit stays set.
    assert_eq!(fs.allocate_block_number(), Err(ENOSPC));
    assert_eq!(get16(&contents(&fs), BLOCK_BITMAP * 1024), 0x07ff);
    let mut img = volume(0, 64);
    put16(&mut img, 2048 + 14, 0);
    let mut fs = mounted(img);
    assert_eq!(fs.allocate_inode_number(), Err(ENOSPC));
    assert_eq!(get16(&contents(&fs), 1024 + 16), 21);
}

#[test]
fn a_name_without_room_leaves_the_disk() {
    let mut img = volume(0, 64);
    // A root of twelve blocks, all but the first missing, and the first full.
    let root = INODE_TABLE * 1024 + 128;
    put32(&mut img, root + 4, 12 * 1024);
    put16(&mut img, ROOT_BLOCK * 1024 + 16, 12);
    let mut fs = mounted(img);
    let before = contents(&fs);
    assert_eq!(create(&mut fs, b"/f", FILE), ENOSYS);
    let mut after = contents(&fs);
    // Only the place of the inode has changed.
    let at = INODE_TABLE * 1024 + 10 * 128;
    after[at..at + 128].copy_from_slice(&before[at..at + 128]);
    assert_eq!(after, before);
    assert_eq!(create(&mut fs, b"/d", DIRECTORY), ENOSYS);
    let mut after = contents(&fs);
    after[at..at + 128].copy_from_slice(&before[at..at + 128]);
    after[10 * 1024..11 * 1024].copy_from_slice(&before[10 * 1024..11 * 1024]);
    assert_eq!(after, before);
}

#[test]
fn giving_back_undoes_giving_out() {
    let mut fs = mounted(volume(0, 64));
    let before = contents(&fs);
    assert_eq!(fs.allocate_block_number(), Ok(10));
    assert_eq!(fs.allocate_block_number(), Ok(11));
    assert_eq!(fs.free_block_number(11), Ok(()));
    assert_eq!(fs.free_block_number(10), Ok(()));
    assert_eq!(contents(&fs), before);
    assert_eq!(fs.allocate_inode_number(), Ok(11));
    assert_eq!(fs.free_inode_number(11), Ok(()));
    assert_eq!(contents(&fs), before);
}

#[test]
fn counters_wrap_up_and_stop_down() {
    let mut img = volume(0, 64);
    put16(&mut img, 60_000, 0xffff);
    put16(&mut img, 60_002, 1);
    let mut fs = mounted(img);
    assert_eq!(fs.increment_u16_at(60_000), Ok(()));
    assert_eq!(fs.read_u16(60_000), Ok(0));
    assert_eq!(fs.decrement_u16_at(60_002), Ok(()));
    assert_eq!(fs.read_u16(60_002), Ok(0));
    assert_eq!(fs.decrement_u16_at(60_002), Err(ENOSPC));
}

#[test]
fn bits_are_searched_from_a_start() {
    let mut img = volume(0, 64);
    img[20 * 1024..20 * 1024 + 4].copy_from_slice(&[0xff, 0xfe, 0, 0xff]);
    let mut fs = mounted(img);
    assert_eq!(fs.alloc_bitmap_bit(20, 0, 8), Err(ENOSPC));
    assert_eq!(fs.alloc_bitmap_bit(20, 0, 32), Ok(8));
    assert_eq!(fs.alloc_bitmap_bit(20, 20, 32), Ok(20));
    assert_eq!(fs.clear_bitmap_bit(20, 9), Ok(()));
    assert_eq!(fs.alloc_bitmap_bit(20, 0, 32), Ok(9));
    assert_eq!(&contents(&fs)[20 * 1024..20 * 1024 + 4], &[0xff, 0xff, 0x10, 0xff]);
    // Past the block the buffer is clear; what is set there is not kept.
    let mut img = volume(0, 64);
    img[20 * 1024..21 * 1024].fill(0xff);
    let mut fs = mounted(img);
    assert_eq!(fs.alloc_bitmap_bit(20, 0, 40_000), Ok(8192));
    assert_eq!(fs.alloc_bitmap_bit(20, 0, 40_000), Ok(8192));
}

#[test]
fn other_block_sizes_work() {
    for log in [1, 2] {
        let bs = 1024u64 << log;
        let mut fs = mounted(volume(log, 64));
        assert_eq!(create(&mut fs, b"/d", DIRECTORY), 0);
        assert_eq!(create(&mut fs, b"/d/f", FILE), 0);
        assert_eq!(stat(&mut fs, b"/d"), Ok((0x41ed, bs)));
        let data = pattern(13 * bs as usize + 17, 2);
        assert_eq!(write(&mut fs, b"/d/f", 3, &data), Ok(data.len()));
        assert_eq!(read(&mut fs, b"/d/f", 3, data.len() + 9), Ok(data));
        assert_eq!(truncate(&mut fs, b"/d/f", 0), 0);
        assert_eq!(stat(&mut fs, b"/d/f"), Ok((0x81a4, 0)));
        assert_eq!(get16(&contents(&fs), 1024 + 12), 53);
    }
}

#[test]
fn large_inodes_cannot_be_stored() {
    let mut img = volume(0, 64);
    put16(&mut img, 1024 + 88, 1024);
    // The root lies one inode further on.
    let root: Vec<u8> = img[INODE_TABLE * 1024 + 128..INODE_TABLE * 1024 + 256].to_vec();
    img[6 * 1024..6 * 1024 + 128].copy_from_slice(&root);
    let mut fs = mounted(img);
    assert_eq!(stat(&mut fs, b"/"), Ok((0x41ed, 1024)));
    assert_eq!(fs.read_inode_raw(2, &mut [0; 512]), Err(EINVAL));
    assert_eq!(fs.write_inode_raw(2, &[0; 512]), EINVAL);
    let before = contents(&fs);
    assert_eq!(create(&mut fs, b"/f", FILE), EINVAL);
    assert_eq!(contents(&fs), before);
}

#[test]
fn inodes_read_back() {
    let mut fs = mounted(volume(0, 64));
    let mut raw = [0u8; 128];
    put16(&mut raw, 0, 0x8123);
    put32(&mut raw, 4, 77);
    put32(&mut raw, 40 + 4 * 14, 5);
    assert_eq!(fs.write_inode_raw(20, &raw), 0);
    let inode = fs.load_inode(20).ok().unwrap();
    assert_eq!((inode.mode, inode.size, inode.blocks[14]), (0x8123, 77, 5));
    let mut out = [0xeeu8; 200];
    assert_eq!(fs.read_inode_raw(20, &mut out), Ok(()));
    assert_eq!(&out[..128], &raw);
    assert!(out[128..].iter().all(|b| *b == 0xee));
    assert_eq!(fs.read_inode_raw(0, &mut out), Err(EINVAL));
    assert_eq!(fs.read_inode_raw(20, &mut [0; 127]), Err(EINVAL));
    assert_eq!(fs.write_inode_raw(0, &raw), EINVAL);
    assert_eq!(fs.write_inode_raw(20, &raw[..127]), EINVAL);
}

#[test]
fn damaged_directories_end_early() {
    let mut img = volume(0, 64);
    let dir = ROOT_BLOCK * 1024;
    // A record of no length behind the first two.
    put16(&mut img, dir + 16, 12);
    let mut fs = mounted(img.clone());
    assert_eq!(stat(&mut fs, b"/x"), Err(ENOENT));
    assert_eq!(list(&mut fs, b"/", 10), Ok(vec![]));
    // A record that does not end in the block.
    put32(&mut img, dir + 24, 12);
    put16(&mut img, dir + 28, 1001);
    img[dir + 30] = 1;
    img[dir + 32] = b'x';
    let mut fs = mounted(img.clone());
    assert_eq!(stat(&mut fs, b"/x"), Err(ENOENT));
    // One that does, and one that is not in use.
    put16(&mut img, dir + 28, 1000);
    let mut fs = mounted(img.clone());
    assert_eq!(fs.lookup_name_in_dir(2, b"x"), Ok(12));
    put32(&mut img, dir + 24, 0);
    let mut fs = mounted(img);
    assert_eq!(stat(&mut fs, b"/x"), Err(ENOENT));
    assert_eq!(list(&mut fs, b"/", 10), Ok(vec![]));
}

#[test]
fn bytes_cross_sectors() {
    let mut fs = mounted(volume(0, 64));
    let data = pattern(1500, 4);
    assert_eq!(fs.write_exact(50_300, &data), 0);
    let mut out = vec![0; 1500];
    assert_eq!(fs.read_exact(50_300, &mut out), 0);
    assert_eq!(out, data);
    let img = contents(&fs);
    assert_eq!(&img[50_300..51_800], &data[..]);
    assert!(img[49_000..50_300].iter().all(|b| *b == 0));
    assert!(img[51_800..53_000].iter().all(|b| *b == 0));
    assert_eq!(fs.write_u32(50_302, 0x0a0b_0c0d), 0);
    assert_eq!(fs.read_u32(50_302), Ok(0x0a0b_0c0d));
    assert_eq!(fs.write_u16(511, 0xbeef), 0);
    assert_eq!(fs.read_u16(511), Ok(0xbeef));
    assert_eq!(fs.read_u32(64 * 1024), Err(EIO));
    assert_eq!(fs.write_u32(64 * 1024 - 2, 1), EIO);
}

#[test]
fn a_disk_in_memory_checks_requests() {
    let mut disk = MemDisk::new(vec![7; 1300]);
    assert_eq!(disk.probe(), 1);
    let mut buf = [0; 512];
    assert_eq!(disk.read_sector(0, 1, &mut buf), 0);
    assert_eq!(buf, [7; 512]);
    // The last bytes are no whole sector.
    assert_eq!(disk.read_sector(0, 2, &mut buf), EIO);
    assert_eq!(disk.read_sector(1, 0, &mut buf), EINVAL);
    assert_eq!(disk.read_sector(0, 0, &mut buf[..100]), EINVAL);
    assert_eq!(disk.write_sector(0, 0, &[1; 512]), 0);
    assert_eq!(disk.write_sector(0, 1, &[1; 1024]), EIO);
    assert_eq!(disk.flush(0), 0);
    assert_eq!(&disk.contents()[510..514], &[1, 1, 7, 7]);
}

#[test]
fn a_failed_request_ends_reading() {
    let mut fs = mounted(volume(0, 64));
    assert_eq!(create(&mut fs, b"/f", FILE), 0);
    assert_eq!(write(&mut fs, b"/f", 0, b"abc"), Ok(3));
    let before = contents(&fs);
    driver(&mut fs).reads = 0;
    assert_eq!(stat(&mut fs, b"/f"), Ok((0x81a4, 3)));
    let reads = driver(&mut fs).reads;
    assert!(reads > 10);
    for k in 0..reads {
        let d = driver(&mut fs);
        d.spare = k;
        d.bad = 1;
        d.rc = -100 - k as i32;
        assert_eq!(stat(&mut fs, b"/f"), Err(-100 - k as i32));
        assert_eq!(driver(&mut fs).bad, 0);
    }
    assert_eq!(contents(&fs), before);
    driver(&mut fs).spare = 0;
    driver(&mut fs).bad = 1;
    assert_eq!(fs.mount_impl(0), driver(&mut fs).rc);
    assert!(fs.mounted);
}

#[test]
fn a_failed_request_ends_writing() {
    let mut fs = mounted(volume(0, 64));
    assert_eq!(create(&mut fs, b"/f", FILE), 0);
    let start = contents(&fs);
    let data = pattern(100, 6);
    {
        let d = driver(&mut fs);
        d.reads = 0;
        d.writes = 0;
        d.flushes = 0;
    }
    assert_eq!(write(&mut fs, b"/f", 0, &data), Ok(100));
    let d = driver(&mut fs);
    let total = d.reads + d.writes + d.flushes;
    assert_eq!(d.flushes, 1);
    let end = contents(&fs);
    for k in 0..total {
        let mut fs = mounted(start.clone());
        let d = driver(&mut fs);
        d.spare = k;
        d.bad = 1;
        d.rc = -77;
        assert_eq!(write(&mut fs, b"/f", 0, &data), Err(-77));
        if k + 1 == total {
            // Only the flush has failed; the bytes are there.
            assert_eq!(contents(&fs), end);
        }
    }
}

#[test]
fn a_failed_request_ends_creating() {
    let start = volume(0, 64);
    let mut fs = mounted(start.clone());
    {
        let d = driver(&mut fs);
        d.reads = 0;
        d.writes = 0;
        d.flushes = 0;
    }
    assert_eq!(create(&mut fs, b"/d", DIRECTORY), 0);
    let d = driver(&mut fs);
    let total = d.reads + d.writes + d.flushes;
    let mut missing = 0;
    let mut passed = 0;
    for k in 0..total {
        let mut fs = mounted(start.clone());
        let d = driver(&mut fs);
        d.spare = k;
        d.bad = 1;
        d.rc = -77;
        match create(&mut fs, b"/d", DIRECTORY) {
            -77 => {}
            // The last look-up turns all failures into this one.
            ENOENT => missing += 1,
            // The first takes a failure for a missing path.
            0 => passed += 1,
            rc => panic!("{}", rc),
        }
    }
    assert!(missing > 0 && passed > 0);
}

#[test]
fn cleaning_up_keeps_the_first_error() {
    // The write of the directory's block fails; taking things back works.
    let start = volume(0, 64);
    let mut first = None;
    for k in 0..400 {
        let mut fs = mounted(start.clone());
        let d = driver(&mut fs);
        d.spare = k;
        d.bad = 1;
        d.rc = -77;
        let rc = create(&mut fs, b"/d", DIRECTORY);
        let img = contents(&fs);
        // Bitmaps and counts are those of the start once the error came late
        // enough for there to be something to take back.
        if rc == -77 && img[10 * 1024] != 0 && img[..5 * 1024] == start[..5 * 1024] {
            first = Some(k);
            break;
        }
    }
    assert!(first.is_some());
}

#[test]
fn a_file_is_created_written_and_read() {
    let mut fs = mounted(volume(0, 64));
    assert_eq!(create(&mut fs, b"/var", DIRECTORY), 0);
    assert_eq!(create(&mut fs, b"/var/log", FILE), 0);
    let data = pattern(1024 * 3 + 9, 41);
    assert_eq!(write(&mut fs, b"/var/log", 100, &data), Ok(data.len()));
    assert_eq!(read(&mut fs, b"/var/log", 100, data.len()), Ok(data.clone()));
    // What was given a block starts out as zeros.
    assert_eq!(read(&mut fs, b"/var/log", 0, 100), Ok(vec![0; 100]));
    // A volume that is mounted again holds the same.
    let mut again = mounted(contents(&fs));
    assert_eq!(read(&mut again, b"/var/log", 100, 9999), Ok(data));
}

#[test]
fn single_steps_of_an_entry() {
    let mut fs = mounted(volume(0, 64));
    let root = fs.load_inode(2).ok().unwrap();
    assert_eq!(fs.add_dir_entry(2, root, b"hello", 17, 1), Ok(()));
    assert_eq!(fs.lookup_name_in_dir(2, b"hello"), Ok(17));
    assert_eq!(fs.lookup_name_in_dir(2, b"hell"), Err(ENOENT));
    assert_eq!(fs.init_directory_block(30, 21, 2), 0);
    let img = contents(&fs);
    assert_eq!(get32(&img, 30 * 1024), 21);
    assert_eq!(get16(&img, 30 * 1024 + 16), 1012);
    let mut raw = [0u8; 128];
    assert_eq!(fs.ensure_data_block(&mut raw, 3), Ok(10));
    assert_eq!(fs.ensure_data_block(&mut raw, 3), Ok(10));
    assert_eq!(fs.ensure_data_block(&mut raw, 12 + 256), Err(ENOSYS));
    assert_eq!(fs.set_data_block_number(&mut raw, 0, 40), Ok(()));
    assert_eq!(fs.set_data_block_number(&mut raw, 14, 41), Ok(()));
    assert_eq!(fs.set_data_block_number(&mut raw, 12 + 256, 41), Err(ENOSYS));
    assert_eq!(get32(&raw, 40), 40);
    assert_eq!(get32(&raw, 88), 11);
    assert_eq!(get32(&contents(&fs), 11 * 1024 + 8), 41);
    assert_eq!(get32(&raw, 28), 4);
    assert_eq!(fs.write_indirect_entry(11, 2, 0), 0);
    assert_eq!(fs.set_data_block_number(&mut raw, 0, 0), Ok(()));
    assert_eq!(fs.free_inode_blocks(&mut raw), Ok(()));
    assert!(raw.iter().all(|b| *b == 0));
    assert_eq!(get16(&contents(&fs), BLOCK_BITMAP * 1024), 0x03ff);
    let mut block = [0u8; 1024];
    assert_eq!(fs.write_block(40, &pattern(1024, 3)), 0);
    assert_eq!(fs.read_block(40, &mut block), 0);
    assert_eq!(block.to_vec(), pattern(1024, 3));
    assert_eq!(fs.load_group_desc(fs.sb, 0).ok().unwrap().inode_table, 5);
    assert_eq!(fs.load_superblock().ok().unwrap().blocks_count, 64);
}

#[test]
fn creating_and_emptying_leave_other_files_alone() {
    let mut fs = mounted(volume(0, 64));
    assert_eq!(create(&mut fs, b"/a", FILE), 0);
    assert_eq!(create(&mut fs, b"/d", DIRECTORY), 0);
    assert_eq!(create(&mut fs, b"/d/b", FILE), 0);
    let (one, two) = (pattern(2000, 3), pattern(14_000, 4));
    assert_eq!(write(&mut fs, b"/a", 0, &one), Ok(2000));
    assert_eq!(write(&mut fs, b"/d/b", 0, &two), Ok(14_000));
    for name in [&b"/e"[..], b"/d/f", b"/d/g"] {
        assert_eq!(create(&mut fs, name, DIRECTORY), 0);
        assert_eq!(read(&mut fs, b"/a", 0, 9999), Ok(one.clone()));
        assert_eq!(read(&mut fs, b"/d/b", 0, 19_999), Ok(two.clone()));
    }
    assert_eq!(truncate(&mut fs, b"/d/b", 0), 0);
    assert_eq!(read(&mut fs, b"/a", 0, 9999), Ok(one));
    assert_eq!(list(&mut fs, b"/d", 99), Ok(b"b\0f\0g\0".to_vec()));
}

#[test]
fn nothing_is_given_out_twice() {
    let mut fs = mounted(volume(0, 64));
    let mut blocks = vec![];
    while let Ok(block) = fs.allocate_block_number() {
        assert!(!blocks.contains(&block));
        blocks.push(block);
    }
    assert_eq!(blocks, (10..64).collect::<Vec<u32>>());
    let mut numbers = vec![];
    while let Ok(ino) = fs.allocate_inode_number() {
        numbers.push(ino);
    }
    assert_eq!(numbers, (11..33).collect::<Vec<u32>>());
}

/// A volume of sixteen inodes without a block count, whose root has one record.
fn volume_without_groups() -> Vec<u8> {
    let mut img = vec![0u8; 16 * 1024];
    for (at, v) in [
        (1024, 16),
        (1040, 6),
        (1064, 16),
        (1080, 0x53),
        (1081, 0xef),
        (1108, 11),
        (1112, 128),
        (2052, 4),
        (2056, 5),
        (2062, 6),
        (5249, 0x40),
        (5253, 4),
        (5288, 8),
        (8192, 2),
        (8197, 4),
        (8198, 1),
        (8199, 2),
        (8200, 0x2e),
    ] {
        img[at] = v;
    }
    img
}

#[test]
fn a_file_needs_no_block_bitmap() {
    let start = volume_without_groups();
    let mut fs = mounted(start.clone());
    assert_eq!(fs.sb.blocks_per_group, 0);
    assert!(!fs.sb.are_blocks_tracked());
    assert_eq!(create(&mut fs, b"/", DIRECTORY), EEXIST);
    assert_eq!(driver(&mut fs).flushes, 0);
    assert_eq!(create(&mut fs, b"/f", 0x6fff), 0);
    let mut want = start;
    want[4097] = 4;
    want[1040] = 5;
    want[2062] = 5;
    want[6400..6402].copy_from_slice(&[0xff, 0x81]);
    want[6426] = 1;
    want[8196..8198].copy_from_slice(&[12, 0]);
    want[8204..8213].copy_from_slice(&[11, 0, 0, 0, 0xf4, 3, 1, 1, 0x66]);
    assert_eq!(contents(&fs), want);
    assert_eq!(driver(&mut fs).flushes, 1);
    assert_eq!(create(&mut fs, b"/f", FILE), EEXIST);
    assert_eq!(create(&mut fs, b"/none/g", DIRECTORY), ENOENT);
    assert_eq!(create(&mut fs, b"/f/g", DIRECTORY), ENOTDIR);
    // Nothing is written, but the size is set.
    assert_eq!(write(&mut fs, b"/f", 9, b""), Ok(0));
    assert_eq!(stat(&mut fs, b"/f"), Ok((0x81ff, 9)));
    assert_eq!(write(&mut fs, b"/f", 1 << 32, b""), Err(EINVAL));
    assert_eq!(driver(&mut fs).flushes, 2);
    // There are no blocks to free.
    assert_eq!(truncate(&mut fs, b"/f", 8), ENOSYS);
    assert_eq!(truncate(&mut fs, b"/", 0), EISDIR);
    assert_eq!(driver(&mut fs).flushes, 2);
    assert_eq!(truncate(&mut fs, b"/f", 0), 0);
    assert_eq!(driver(&mut fs).flushes, 3);
    assert_eq!(truncate(&mut fs, b"/f", 0), 0);
    assert_eq!(driver(&mut fs).flushes, 3);
}

#[test]
fn what_needs_no_disk_asks_none() {
    let mut fs: State<Flaky> = State::new();
    assert!(fs.can_walk(b"/./../x") && fs.can_walk(b"x") && !fs.can_walk(b"/") && !fs.can_walk(b"/x"));
    assert_eq!(fs.resolve_path(b"/./../x").err(), Some(EINVAL));
    assert_eq!(fs.stat_impl(path(b"/.."), &mut Some(0), &mut Some(0)), EINVAL);
    let mut raw = [0u8; 128];
    raw[4] = 5;
    raw[28] = 2;
    raw[92] = 9;
    assert_eq!(fs.free_inode_blocks(&mut raw), Ok(()));
    let mut want = [0u8; 128];
    want[92] = 9;
    assert_eq!(raw, want);
    assert_eq!(fs.set_data_block_number(&mut raw, 3, 7), Ok(()));
    assert_eq!(raw[52], 7);
    assert_eq!(fs.ensure_data_block(&mut raw, 3), Ok(7));
    assert_eq!(fs.set_data_block_number(&mut raw, 12, 7), Err(ENOSYS));
    let mut fs = mounted(volume(0, 64));
    let mut inode = fs.load_inode(2).ok().unwrap();
    driver(&mut fs).reads = 0;
    let mut out = [7u8; 4];
    assert_eq!(fs.read_file_bytes(inode, 1024, &mut out), Err(EISDIR));
    inode.mode = 0x81a4;
    assert_eq!(fs.read_file_bytes(inode, 1024, &mut out), Ok(0));
    assert_eq!(out, [7; 4]);
    assert_eq!(driver(&mut fs).reads, 0);
}

#[test]
fn bytes_read_before_a_failure_stand() {
    let mut fs = mounted(volume(0, 64));
    assert_eq!(create(&mut fs, b"/f", FILE), 0);
    let data = pattern(2000, 5);
    assert_eq!(write(&mut fs, b"/f", 0, &data), Ok(2000));
    let (_, inode) = fs.resolve_path(b"/f").ok().unwrap();
    for k in 0..4usize {
        let d = driver(&mut fs);
        d.spare = k;
        d.bad = 1;
        d.rc = -77;
        let mut out = vec![0xaa; 2000];
        assert_eq!(fs.read_file_bytes(inode, 0, &mut out), Err(-77));
        assert_eq!(&out[..512 * k], &data[..512 * k]);
        assert!(out[512 * k..].iter().all(|b| *b == 0xaa));
    }
}

#[test]
fn a_store_ends_with_the_sector_that_fails() {
    let start = volume(0, 64);
    let data = pattern(1500, 9);
    for k in 0..4usize {
        let mut fs = mounted(start.clone());
        let d = driver(&mut fs);
        // A read and a write for each sector; the write fails.
        d.spare = 2 * k + 1;
        d.bad = 1;
        d.rc = -77;
        assert_eq!(fs.write_exact(50_300, &data), -77);
        let done = [0, 388, 900, 1412][k];
        let mut want = start.clone();
        want[50_300..50_300 + done].copy_from_slice(&data[..done]);
        assert_eq!(contents(&fs), want);
    }
}

#[test]
fn requests_are_for_one_sector() {
    let mut fs = mounted(volume(1, 64));
    assert_eq!(create(&mut fs, b"/d", DIRECTORY), 0);
    assert_eq!(create(&mut fs, b"/d/f", FILE), 0);
    let data = pattern(30 * 1024, 4);
    assert_eq!(write(&mut fs, b"/d/f", 100, &data), Ok(30 * 1024));
    assert_eq!(read(&mut fs, b"/d/f", 100, 40 * 1024), Ok(data));
    assert_eq!(list(&mut fs, b"/d", 100), Ok(b"f\0".to_vec()));
    assert_eq!(truncate(&mut fs, b"/d/f", 0), 0);
    let d = driver(&mut fs);
    assert!(d.reads > 100 && d.writes > 100);
    assert_eq!(d.uneven, 0);
    // A request of another length is noticed.
    assert_eq!(fs.disk_read(0, &mut [0u8; 1024]), 0);
    assert_eq!(driver(&mut fs).uneven, 1);
}

#[test]
fn a_failed_request_strays_nowhere() {
    let mut fs = mounted(volume(0, 64));
    assert_eq!(create(&mut fs, b"/f", FILE), 0);
    assert_eq!(write(&mut fs, b"/f", 0, &pattern(11 * 1024, 3)), Ok(11 * 1024));
    let start = contents(&fs);
    let data = pattern(3000, 5);
    let jobs: [fn(&mut State<Flaky>, &[u8]) -> i32; 3] = [
        |fs, data| match write(fs, b"/f", 11 * 1024 - 7, data) {
            Ok(n) => (n != data.len()) as i32,
            Err(rc) => rc,
        },
        |fs, _| truncate(fs, b"/f", 0),
        |fs, _| create(fs, b"/d", DIRECTORY),
    ];
    for job in jobs {
        let mut fs = mounted(start.clone());
        let d = driver(&mut fs);
        d.reads = 0;
        d.writes = 0;
        d.flushes = 0;
        assert_eq!(job(&mut fs, &data), 0);
        let d = driver(&mut fs);
        let total = d.reads + d.writes + d.flushes;
        let places = d.stored.clone();
        assert!(places.len() > 4);
        for k in 0..total {
            let mut fs = mounted(start.clone());
            let d = driver(&mut fs);
            d.spare = k;
            d.bad = 1;
            job(&mut fs, &data);
            for lba in &driver(&mut fs).stored {
                assert!(places.contains(lba));
            }
            let now = contents(&fs);
            for (i, (a, b)) in start.iter().zip(&now).enumerate() {
                assert!(a == b || places.contains(&(i as u64 / 512)));
            }
        }
    }
}

#[test]
fn a_failed_write_keeps_the_inode() {
    // Two blocks are free, and the write needs three.
    let mut fs = mounted(volume(0, 13));
    assert_eq!(create(&mut fs, b"/f", FILE), 0);
    assert_eq!(write(&mut fs, b"/f", 0, &pattern(1000, 1)), Ok(1000));
    let at = INODE_TABLE * 1024 + 10 * 128;
    let inode = contents(&fs)[at..at + 128].to_vec();
    assert_eq!(write(&mut fs, b"/f", 1000, &pattern(3000, 2)), Err(ENOSPC));
    assert_eq!(contents(&fs)[at..at + 128].to_vec(), inode);
    assert_eq!(stat(&mut fs, b"/f"), Ok((0x81a4, 1000)));
    assert_eq!(read(&mut fs, b"/f", 0, 4000), Ok(pattern(1000, 1)));
    // An end that no size can stand for.
    assert_eq!(write(&mut fs, b"/f", 1 << 32, b""), Err(EINVAL));
    assert_eq!(stat(&mut fs, b"/f"), Ok((0x81a4, 1000)));
}

#[test]
fn what_a_write_does_not_reach_is_zero_or_kept() {
    let mut fs = mounted(volume(0, 64));
    // Blocks that are given out may have held something else.
    for block in 10..16 {
        let junk = [0xeeu8; 1024];
        assert_eq!(fs.write_block(block, &junk), 0);
    }
    assert_eq!(create(&mut fs, b"/f", FILE), 0);
    assert_eq!(write(&mut fs, b"/f", 0, &pattern(2048, 8)), Ok(2048));
    assert_eq!(write(&mut fs, b"/f", 3000, b"x"), Ok(1));
    let mut want = pattern(2048, 8);
    want.resize(3000, 0);
    want.push(b'x');
    assert_eq!(read(&mut fs, b"/f", 0, 4000), Ok(want));
    assert_eq!(read(&mut fs, b"/f", 500, 1000), Ok(pattern(2048, 8)[500..1500].to_vec()));
}

#[test]
fn records_cover_their_block() {
    let mut fs = mounted(volume(0, 64));
    let names: [(&[u8], u32, u8); 5] = [
        (b"/a", FILE, 1),
        (b"/bcdef", DIRECTORY, 2),
        (b"/longer-name", FILE, 1),
        (b"/xyz", DIRECTORY, 2),
        (b"/four", FILE, 1),
    ];
    let mut kinds = vec![2u8, 2];
    for (name, mode, kind) in names {
        assert_eq!(create(&mut fs, name, mode), 0);
        kinds.push(kind);
        let img = contents(&fs);
        let block = &img[ROOT_BLOCK * 1024..ROOT_BLOCK * 1024 + 1024];
        let mut at = 0;
        let mut seen = vec![];
        while at < 1024 {
            let len = get16(block, at + 4) as usize;
            assert_eq!(len % 4, 0);
            assert!(len >= 8 + block[at + 6] as usize);
            seen.push(block[at + 7]);
            at += len;
        }
        assert_eq!(at, 1024);
        assert_eq!(seen, kinds);
    }
}

#[test]
fn groups_may_be_larger_than_a_bitmap() {
    let mut img = volume(0, 64);
    put32(&mut img, 1024 + 32, 65536);
    let mut fs = mounted(img);
    assert_eq!(create(&mut fs, b"/f", FILE), 0);
    let free = get32(&contents(&fs), BLOCK_BITMAP * 1024);
    assert_eq!(write(&mut fs, b"/f", 0, &pattern(14 * 1024, 9)), Ok(14 * 1024));
    assert_ne!(get32(&contents(&fs), BLOCK_BITMAP * 1024), free);
    assert_eq!(truncate(&mut fs, b"/f", 0), 0);
    assert_eq!(get32(&contents(&fs), BLOCK_BITMAP * 1024), free);
    assert_eq!(stat(&mut fs, b"/f"), Ok((0x81a4, 0)));
}

#[test]
fn bits_before_the_end_of_a_bitmap_are_found() {
    // Groups and volume are said to have more blocks and inodes than a bitmap has
    // bits.
    let mut img = volume(2, 40);
    put32(&mut img, 1024, 70_000);
    put32(&mut img, 1024 + 4, 100_000);
    put32(&mut img, 1024 + 32, 90_000);
    put32(&mut img, 1024 + 40, 60_000);
    let mut fs = mounted(img);
    assert!(!fs.sb.are_blocks_tracked() && !fs.sb.are_inodes_tracked());
    assert_eq!(create(&mut fs, b"/d", DIRECTORY), 0);
    assert_eq!(create(&mut fs, b"/d/f", FILE), 0);
    let data = pattern(14 * 4096, 3);
    assert_eq!(write(&mut fs, b"/d/f", 0, &data), Ok(14 * 4096));
    assert_eq!(read(&mut fs, b"/d/f", 0, 20 * 4096), Ok(data));
    assert_eq!(truncate(&mut fs, b"/d/f", 0), 0);
    assert_eq!(fs.allocate_block_number(), Ok(11));
}

#[test]
fn overlong_names_are_refused_where_no_block_is_given() {
    let mut name = vec![b'n'; 5001];
    name[0] = b'/';
    // No block is free.
    let mut fs = mounted(volume(0, 10));
    let before = contents(&fs);
    assert_eq!(create(&mut fs, &name, FILE), ENOSPC);
    let at = INODE_TABLE * 1024 + 10 * 128;
    let after = contents(&fs);
    assert_eq!(after[..at], before[..at]);
    assert_eq!(after[at + 128..], before[at + 128..]);
    // The directory has all the blocks that it can have.
    let mut img = volume(0, 64);
    put32(&mut img, INODE_TABLE * 1024 + 128 + 4, 12 * 1024);
    let mut fs = mounted(img);
    assert_eq!(create(&mut fs, &name, FILE), ENOSYS);
}

#[test]
fn lookups_ask_for_what_they_need() {
    let mut fs: State<Flaky> = State::new();
    assert_eq!(fs.lookup_name_in_dir(0, b"x"), Err(EINVAL));
}

#[test]
fn creating_tells_its_last_lookup() {
    let mut fs = mounted(volume(0, 64));
    let mut trace = |p: &[u8], mode: u32| {
        let mut last = Lookup::Path;
        let rc = fs.create_tracing(path(p), mode, &mut last);
        (rc, last)
    };
    assert_eq!(trace(b"/f", FILE), (0, Lookup::Again));
    assert_eq!(trace(b"/f", FILE), (EEXIST, Lookup::Path));
    assert_eq!(trace(b"f", FILE), (EINVAL, Lookup::Path));
    assert_eq!(trace(b"/no/f", FILE), (ENOENT, Lookup::Parent));
    assert_eq!(trace(b"/f/g", FILE), (ENOTDIR, Lookup::Parent));
    // What is created under this name is not found.
    assert_eq!(trace(b"/..", FILE), (ENOENT, Lookup::Again));
    for i in 0..20u8 {
        assert_eq!(trace(&[b'/', b'A' + i], FILE), (0, Lookup::Again));
    }
    assert_eq!(trace(b"/z", FILE), (ENOSPC, Lookup::Parent));
    let mut last = Lookup::Parent;
    assert_eq!(fs.create_tracing(McxPath { ptr: None }, FILE, &mut last), EINVAL);
    assert_eq!(last, Lookup::Parent);
}

#[test]
fn unused_entries_cover_their_block_too() {
    let mut fs = mounted(volume(0, 64));
    let (ino, root) = fs.resolve_path(b"/").ok().unwrap();
    assert_eq!(fs.add_dir_entry(ino, root, b"spare", 0, 7), Ok(()));
    assert_eq!(list(&mut fs, b"/", 100), Ok(vec![]));
    let img = contents(&fs);
    let at = ROOT_BLOCK * 1024 + 24;
    assert_eq!(get16(&img, at - 12 + 4), 12);
    assert_eq!(get32(&img, at), 0);
    assert_eq!(get16(&img, at + 4), 1000);
    assert_eq!(img[at + 6..at + 13], *b"\x05\x07spare");
}
