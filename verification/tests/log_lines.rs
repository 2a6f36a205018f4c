//! Lines for the kernel log.

use mochi_cext::abi::{EINVAL, EIO, ENOSYS};
use mochi_cext::trace::{debug_trace_path, log_u16, log_u64, log_u8, mount_line};

#[test]
fn numbers_are_logged_in_hexadecimal() {
    assert_eq!(log_u64(b"n=", 0), b"n=0x0");
    assert_eq!(log_u64(b"n=", 0x1af4), b"n=0x1af4");
    assert_eq!(log_u64(b"", u64::MAX), b"0xffffffffffffffff");
    assert_eq!(log_u64(b"n=", 0x100), b"n=0x100");
    assert_eq!(log_u16(b"disk.cext: used.idx=", 0x0c), b"disk.cext: used.idx=0xc");
    assert_eq!(log_u8(b"disk.cext: isr=", 0xff), b"disk.cext: isr=0xff");
}

#[test]
fn long_lines_are_cut() {
    let prefix = [b'x'; 200];
    assert_eq!(log_u64(&prefix, 1), vec![b'x'; 96]);
    let mut want = vec![b'x'; 95];
    want.push(b'0');
    assert_eq!(log_u64(&prefix[..95], 1), want);
    let mut want = vec![b'x'; 92];
    want.extend_from_slice(b"0xab");
    assert_eq!(log_u64(&prefix[..92], 0xabcd), want);
}

#[test]
fn digits_denote_the_number() {
    for value in [0u64, 9, 10, 15, 16, 255, 4096, 0xdead_beef, u64::MAX - 1] {
        let line = log_u64(b"", value);
        let digits = std::str::from_utf8(&line[2..]).unwrap();
        assert_eq!(u64::from_str_radix(digits, 16).unwrap(), value);
    }
}

#[test]
fn two_paths_are_traced() {
    assert_eq!(debug_trace_path("t\n", b"/drivers"), Some("t\n"));
    assert_eq!(debug_trace_path("t\n", b"/drivers/usb"), Some("t\n"));
    assert_eq!(debug_trace_path("t\n", b"/drivers/"), None);
    assert_eq!(debug_trace_path("t\n", b"/usb"), None);
    assert_eq!(debug_trace_path("t\n", b""), None);
}

#[test]
fn failed_mounts_are_logged() {
    assert_eq!(mount_line(true, 0), None);
    assert_eq!(mount_line(false, ENOSYS), None);
    assert_eq!(mount_line(true, EINVAL), Some("ext2.cext: mount invalid superblock"));
    assert_eq!(mount_line(true, EIO), Some("ext2.cext: mount read failed"));
    assert_eq!(mount_line(true, ENOSYS), Some("ext2.cext: mount read failed"));
}
