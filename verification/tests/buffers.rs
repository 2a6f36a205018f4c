//! Integers and bytes in buffers, and the small formulas of the on-disk layout.

use mochi_cext::abi::{mochi_module_init, path_bytes, McxKernelApi, McxPath, EINVAL, MCX_CEXT_ABI};
use mochi_cext::codec::{
    byte_difference, copy_range, get_u16, get_u32, make_u16, make_u32, memcmp, memcpy, memset,
    set_u16, set_u32,
};
use mochi_cext::dir::{same_bytes, span};
use mochi_cext::entry::round_up_4;
use mochi_cext::layout::{
    group_desc_offset, inode_blocks_512, inode_offset, is_dir, is_file, load_inode_from_raw,
    set_inode_block_ptr, set_inode_blocks_512, GroupDesc, Superblock,
};
use mochi_cext::mapping::charge;
use mochi_cext::path::split_parent;

fn superblock(block_size: u32) -> Superblock {
    Superblock {
        blocks_count: 64,
        block_size,
        inode_size: 128,
        first_inode: 11,
        blocks_per_group: 8192,
        inodes_per_group: 32,
        inodes_count: 32,
    }
}

#[test]
fn numbers_are_little_endian() {
    assert_eq!(make_u16(0x34, 0x12), 0x1234);
    assert_eq!(make_u32(0x78, 0x56, 0x34, 0x12), 0x1234_5678);
    assert_eq!(get_u16(&[9, 0x34, 0x12], 1), 0x1234);
    assert_eq!(get_u32(&[9, 0x78, 0x56, 0x34, 0x12], 1), 0x1234_5678);
    let mut buf = [0xeeu8; 8];
    set_u16(&mut buf, 1, 0xabcd);
    assert_eq!(buf, [0xee, 0xcd, 0xab, 0xee, 0xee, 0xee, 0xee, 0xee]);
    set_u32(&mut buf, 3, 0x0102_0304);
    assert_eq!(buf, [0xee, 0xcd, 0xab, 4, 3, 2, 1, 0xee]);
    assert_eq!(get_u16(&buf, 1), 0xabcd);
    assert_eq!(get_u32(&buf, 3), 0x0102_0304);
}

#[test]
fn stored_field_reads_back_and_leaves_others() {
    let mut raw = [0u8; 16];
    set_u32(&mut raw, 4, 0xffff_ffff);
    set_u32(&mut raw, 8, 7);
    assert_eq!(get_u32(&raw, 0), 0);
    assert_eq!(get_u32(&raw, 4), 0xffff_ffff);
    assert_eq!(get_u32(&raw, 8), 7);
    assert_eq!(get_u32(&raw, 12), 0);
}

#[test]
fn memcpy_copies_the_first_bytes() {
    let mut dst = [1u8, 2, 3, 4];
    memcpy(&mut dst, &[9, 8, 7], 2);
    assert_eq!(dst, [9, 8, 3, 4]);
    memcpy(&mut dst, &[], 0);
    assert_eq!(dst, [9, 8, 3, 4]);
}

#[test]
fn memset_takes_the_low_byte() {
    let mut dst = [1u8, 2, 3, 4];
    memset(&mut dst, 0x1_23, 3);
    assert_eq!(dst, [0x23, 0x23, 0x23, 4]);
    memset(&mut dst, -1, 4);
    assert_eq!(dst, [0xff; 4]);
}

#[test]
fn memcmp_gives_the_first_difference() {
    assert_eq!(memcmp(b"abc", b"abd", 3), -1);
    assert_eq!(memcmp(b"abd", b"abc", 3), 1);
    assert_eq!(memcmp(b"abc", b"abd", 2), 0);
    assert_eq!(memcmp(&[255], &[0], 1), 255);
    assert_eq!(memcmp(&[0], &[255], 1), -255);
    assert_eq!(memcmp(b"", b"", 0), 0);
    assert_eq!(byte_difference(b"xay", b"xbz", 3), -1);
}

#[test]
fn ranges_are_copied_into_the_middle() {
    let mut dst = [0u8; 6];
    copy_range(&mut dst, 2, b"hello", 1, 3);
    assert_eq!(&dst, b"\0\0ell\0");
}

#[test]
fn bytes_are_compared_whole() {
    assert!(same_bytes(b"usb", b"usb"));
    assert!(!same_bytes(b"usb", b"us"));
    assert!(!same_bytes(b"usb", b"usc"));
    assert!(same_bytes(b"", b""));
}

#[test]
fn lengths_are_rounded_up_to_four() {
    assert_eq!(round_up_4(0), 0);
    assert_eq!(round_up_4(1), 4);
    assert_eq!(round_up_4(4), 4);
    assert_eq!(round_up_4(255), 256);
}

#[test]
fn files_span_whole_blocks() {
    let sb = superblock(1024);
    assert_eq!(span(sb, 0), 0);
    assert_eq!(span(sb, 1), 1);
    assert_eq!(span(sb, 1024), 1);
    assert_eq!(span(sb, 1025), 2);
    assert_eq!(span(superblock(4096), u32::MAX), 1_048_576);
}

#[test]
fn descriptors_and_inodes_are_located() {
    assert_eq!(group_desc_offset(superblock(1024), 0), 2048);
    assert_eq!(group_desc_offset(superblock(1024), 3), 2048 + 96);
    assert_eq!(group_desc_offset(superblock(2048), 0), 2048);
    assert_eq!(group_desc_offset(superblock(4096), 1), 4096 + 32);
    let gd = GroupDesc { block_bitmap: 3, inode_bitmap: 4, inode_table: 5 };
    assert_eq!(inode_offset(superblock(1024), gd, 1), 5 * 1024 + 128);
}

#[test]
fn modes_tell_files_from_directories() {
    assert!(is_dir(0x41ed));
    assert!(!is_dir(0x81a4));
    assert!(is_file(0x81a4));
    assert!(!is_file(0xa1ff));
    assert!(!is_file(0));
}

#[test]
fn inode_fields_are_where_they_belong() {
    let mut raw = [0u8; 128];
    set_u16(&mut raw, 0, 0x81a4);
    set_u32(&mut raw, 4, 5000);
    set_inode_blocks_512(&mut raw, 10);
    set_inode_block_ptr(&mut raw, 0, 21);
    set_inode_block_ptr(&mut raw, 14, 99);
    assert_eq!(inode_blocks_512(&raw), 10);
    assert_eq!(get_u32(&raw, 28), 10);
    assert_eq!(get_u32(&raw, 40), 21);
    let inode = load_inode_from_raw(&raw);
    assert_eq!(inode.mode, 0x81a4);
    assert_eq!(inode.size, 5000);
    assert_eq!(inode.blocks[0], 21);
    assert_eq!(inode.blocks[13], 0);
    assert_eq!(inode.blocks[14], 99);
    charge(superblock(1024), &mut raw);
    assert_eq!(inode_blocks_512(&raw), 12);
    set_inode_blocks_512(&mut raw, u32::MAX);
    charge(superblock(1024), &mut raw);
    assert_eq!(inode_blocks_512(&raw), 1);
}

#[test]
fn paths_split_into_directory_and_name() {
    assert_eq!(split_parent(b"/a"), Ok((&b"/"[..], &b"a"[..])));
    assert_eq!(split_parent(b"/a/b"), Ok((&b"/a"[..], &b"b"[..])));
    assert_eq!(split_parent(b"/a/b//"), Ok((&b"/a"[..], &b"b"[..])));
    assert_eq!(split_parent(b"/a//b"), Ok((&b"/a/"[..], &b"b"[..])));
    assert_eq!(split_parent(b"/"), Err(EINVAL));
    assert_eq!(split_parent(b"///"), Err(EINVAL));
    assert_eq!(split_parent(b""), Err(EINVAL));
    assert_eq!(split_parent(b"a/b"), Err(EINVAL));
}

#[test]
fn a_module_starts_under_its_interface_only() {
    let api = McxKernelApi { abi: MCX_CEXT_ABI, struct_size: 40 };
    assert!(mochi_module_init(Some(api)));
    assert!(!mochi_module_init(Some(McxKernelApi { abi: 2, struct_size: 40 })));
    assert!(!mochi_module_init(None));
}

#[test]
fn a_path_may_be_missing() {
    assert_eq!(path_bytes(McxPath { ptr: None }), None);
    assert_eq!(path_bytes(McxPath { ptr: Some(b"/x") }), Some(&b"/x"[..]));
}

#[test]
fn volumes_whose_bitmaps_fit_are_told() {
    let mut sb = superblock(1024);
    assert!(sb.are_blocks_tracked());
    assert!(sb.are_inodes_tracked());
    sb.blocks_per_group = 0;
    assert!(!sb.are_blocks_tracked());
    sb.blocks_per_group = 40_000;
    sb.blocks_count = 40_000;
    assert!(sb.are_blocks_tracked());
    sb.block_size = 4096;
    assert!(!sb.are_blocks_tracked());
    sb.blocks_count = 32_768;
    assert!(sb.are_blocks_tracked());
    sb.inodes_per_group = 0;
    assert!(!sb.are_inodes_tracked());
    sb.inodes_per_group = 40_000;
    sb.inodes_count = 40_000;
    assert!(!sb.are_inodes_tracked());
    sb.block_size = 2048;
    assert!(sb.are_inodes_tracked());
    sb.first_inode = 32_769;
    assert!(!sb.are_inodes_tracked());
}
