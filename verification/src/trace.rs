//! Lines for the kernel log.

use vstd::prelude::*;
use vstd::slice::slice_subrange;
use crate::abi::EINVAL;
use crate::dir::same_bytes;

verus! {

/// The longest line.
pub const LINE_MAX: usize = 96;

/// What there is room for of a line.
pub open spec fn cut(s: Seq<u8>) -> Seq<u8> {
    if s.len() <= LINE_MAX {
        s
    } else {
        s.take(LINE_MAX as int)
    }
}

/// The hexadecimal digit of a number below 16, in lower case.
pub open spec fn hex_digit(d: int) -> u8 {
    if d < 10 {
        (0x30 + d) as u8
    } else {
        (0x61 + d - 10) as u8
    }
}

/// The hexadecimal digits of a number, without leading zeros.
pub open spec fn hex(value: nat) -> Seq<u8>
    decreases value,
{
    if value < 16 {
        seq![hex_digit(value as int)]
    } else {
        hex(value / 16).push(hex_digit((value % 16) as int))
    }
}

/// The number that hexadecimal digits stand for.
pub open spec fn hex_value(s: Seq<u8>) -> nat
    decreases s.len(),
{
    if s.len() == 0 {
        0
    } else {
        let d = s.last();
        hex_value(s.drop_last()) * 16 + (if d < 0x3a {
            (d - 0x30) as nat
        } else {
            (d - 0x61 + 10) as nat
        })
    }
}

/// A line of a prefix and a number: the prefix, `0x` and the digits.
pub open spec fn log_line(prefix: Seq<u8>, value: nat) -> Seq<u8> {
    cut(prefix + seq![0x30u8, 0x78u8] + hex(value))
}

/// The digits of a number stand for the number.
pub proof fn law_hex_denotes_value(value: nat)
    ensures
        hex_value(hex(value)) == value,
    decreases value,
{
    if value < 16 {
        let s = hex(value);
        assert(s.drop_last() =~= Seq::<u8>::empty());
        assert(hex_value(s.drop_last()) == 0);
    } else {
        law_hex_denotes_value(value / 16);
        let s = hex(value);
        assert(s.drop_last() =~= hex(value / 16));
    }
}

/// A byte at the end of a line is kept where there is room for it.
proof fn lemma_cut_push(s: Seq<u8>, b: u8)
    ensures
        cut(s.push(b)) == if cut(s).len() < LINE_MAX {
            cut(s).push(b)
        } else {
            cut(s)
        },
{
    if s.len() >= LINE_MAX {
        assert(s.push(b).take(LINE_MAX as int) =~= s.take(LINE_MAX as int));
        assert(s.take(s.len() as int) =~= s);
    }
}

/// Adds a byte to a line where there is room for it.
fn push_cut(line: &mut Vec<u8>, Ghost(full): Ghost<Seq<u8>>, b: u8)
    requires
        old(line)@ == cut(full),
    ensures
        final(line)@ == cut(full.push(b)),
{
    proof {
        lemma_cut_push(full, b);
    }
    if line.len() < LINE_MAX {
        line.push(b);
    }
}

/// The line of a prefix and a number.
pub fn log_u64(prefix: &[u8], value: u64) -> (line: Vec<u8>)
    ensures
        line@ == log_line(prefix@, value as nat),
{
    let mut line: Vec<u8> = Vec::new();
    let mut i: usize = 0;
    assert(prefix@.take(0) =~= Seq::<u8>::empty());
    while i < prefix.len()
        invariant
            i <= prefix@.len(),
            line@ == cut(prefix@.take(i as int)),
        decreases prefix@.len() - i,
    {
        push_cut(&mut line, Ghost(prefix@.take(i as int)), prefix[i]);
        assert(prefix@.take(i as int).push(prefix@[i as int]) =~= prefix@.take(i + 1));
        i += 1;
    }
    assert(prefix@.take(i as int) =~= prefix@);
    push_cut(&mut line, Ghost(prefix@), 0x30);
    push_cut(&mut line, Ghost(prefix@.push(0x30)), 0x78);
    let ghost head = prefix@.push(0x30).push(0x78);
    assert(head =~= prefix@ + seq![0x30u8, 0x78u8]);
    let mut shift: u32 = 64;
    let ghost mut digits = Seq::<u8>::empty();
    assert(head + digits =~= head);
    while shift > 0
        invariant
            shift <= 64,
            shift % 4 == 0,
            head == prefix@ + seq![0x30u8, 0x78u8],
            line@ == cut(head + digits),
            shift == 64 ==> digits == Seq::<u8>::empty(),
            0 < shift < 64 ==> digits == (if value >> shift == 0 {
                Seq::<u8>::empty()
            } else {
                hex((value >> shift) as nat)
            }),
            shift == 0 ==> digits == hex(value as nat),
        decreases shift,
    {
        let ghost was = shift;
        shift -= 4;
        let above: u64 = value >> shift;
        let digit: u8 = (above % 16) as u8;
        proof {
            assert(shift < 60 ==> above / 16 == value >> was) by (bit_vector)
                requires
                    above == value >> shift,
                    shift <= 60,
                    was == shift + 4,
            ;
            assert(shift == 60 ==> above < 16) by (bit_vector)
                requires
                    above == value >> shift,
                    shift <= 60,
            ;
            assert(shift == 0 ==> above == value) by (bit_vector)
                requires
                    above == value >> shift,
            ;
        }
        if above != 0 || shift == 0 {
            let c: u8 = if digit < 10 {
                0x30 + digit
            } else {
                0x61 + (digit - 10)
            };
            push_cut(&mut line, Ghost(head + digits), c);
            proof {
                assert((head + digits).push(c) =~= head + digits.push(c));
                digits = digits.push(c);
                assert(c == hex_digit((above % 16) as int));
                assert(digits =~= hex(above as nat));
            }
        }
    }
    line
}

/// The line of a prefix and a 16-bit number.
pub fn log_u16(prefix: &[u8], value: u16) -> (line: Vec<u8>)
    ensures
        line@ == log_line(prefix@, value as nat),
{
    log_u64(prefix, value as u64)
}

/// The line of a prefix and an 8-bit number.
pub fn log_u8(prefix: &[u8], value: u8) -> (line: Vec<u8>)
    ensures
        line@ == log_line(prefix@, value as nat),
{
    log_u64(prefix, value as u64)
}

/// Whether work on a path is traced.
pub open spec fn is_traced(path: Seq<u8>) -> bool {
    path == drivers() || path == drivers() + usb()
}

/// The bytes of `/drivers`.
pub open spec fn drivers() -> Seq<u8> {
    seq![0x2fu8, 0x64, 0x72, 0x69, 0x76, 0x65, 0x72, 0x73]
}

/// The bytes of `/usb`.
pub open spec fn usb() -> Seq<u8> {
    seq![0x2fu8, 0x75, 0x73, 0x62]
}

/// The line to log after a mount that gave a code, with or without a driver to
/// read from. A mount that succeeded, or had no driver, is not logged.
pub fn mount_line(attached: bool, rc: i32) -> (line: Option<&'static str>)
    ensures
        match line {
            None => !attached || rc == 0,
            Some(text) => attached && rc != 0 && text@ == if rc == EINVAL {
                "ext2.cext: mount invalid superblock"@
            } else {
                "ext2.cext: mount read failed"@
            },
        },
{
    if !attached || rc == 0 {
        None
    } else if rc == EINVAL {
        Some("ext2.cext: mount invalid superblock")
    } else {
        Some("ext2.cext: mount read failed")
    }
}

/// The line to log before work on a path: `prefix` where the path is traced.
pub fn debug_trace_path<'a>(prefix: &'a str, path: &[u8]) -> (line: Option<&'a str>)
    ensures
        line == if is_traced(path@) {
            Some(prefix)
        } else {
            None
        },
{
    let traced: [u8; 12] = [
        0x2f,
        0x64,
        0x72,
        0x69,
        0x76,
        0x65,
        0x72,
        0x73,
        0x2f,
        0x75,
        0x73,
        0x62,
    ];
    assert(traced@ =~= drivers() + usb());
    assert(traced@.take(8) =~= drivers());
    let short = slice_subrange(&traced, 0, 8);
    assert(short@ =~= drivers());
    if same_bytes(path, short) || same_bytes(path, &traced) {
        Some(prefix)
    } else {
        None
    }
}

/// The number that digits in lower case stand for.
pub open spec fn digits_value(s: Seq<u8>) -> int
    decreases s.len(),
{
    if s.len() == 0 {
        0
    } else {
        16 * digits_value(s.drop_last()) + s.last() - if s.last() <= 57 {
            48int
        } else {
            87
        }
    }
}

/// Whether bytes are digits in lower case, without a 0 in front but for a single one.
pub open spec fn are_digits(s: Seq<u8>) -> bool {
    &&& s.len() > 0
    &&& s.len() > 1 ==> s[0] != 48
    &&& forall|i: int|
        0 <= i < s.len() ==> 48 <= #[trigger] s[i] <= 57 || 97 <= s[i] <= 102
}

/// The digits of a number are `0` to `9` and `a` to `f`, without zeros in front, and
/// stand for the number.
pub proof fn law_digits_of_number(value: nat)
    ensures
        are_digits(hex(value)),
        digits_value(hex(value)) == value,
        value > 0 ==> hex(value)[0] != 48,
    decreases value,
{
    let s = hex(value);
    if value < 16 {
        assert(s.drop_last() =~= Seq::<u8>::empty());
        assert(digits_value(s.drop_last()) == 0);
    } else {
        law_digits_of_number(value / 16);
        let head = hex(value / 16);
        assert(s.drop_last() =~= head);
        assert(s[0] == head[0]);
        assert forall|i: int| 0 <= i < s.len() implies 48 <= #[trigger] s[i] <= 57 || 97 <= s[i]
            <= 102 by {
            if i < head.len() {
                assert(s[i] == head[i]);
            }
        }
    }
}

/// A line for a number is the prefix, `0x` and the digits of the number, or the first
/// 96 bytes of that. It is the same for a number of 64, 16 or 8 bits.
pub proof fn law_line_calls(
    prefix: &[u8],
    value: u64,
    line: Vec<u8>,
    half: u16,
    half_line: Vec<u8>,
    byte: u8,
    byte_line: Vec<u8>,
)
    requires
        call_ensures(log_u64, (prefix, value), line),
        call_ensures(log_u16, (prefix, half), half_line),
        call_ensures(log_u8, (prefix, byte), byte_line),
    ensures
        is_line(line@, prefix@, value as nat),
        is_line(half_line@, prefix@, half as nat),
        is_line(byte_line@, prefix@, byte as nat),
{
    law_digits_of_number(value as nat);
    law_digits_of_number(half as nat);
    law_digits_of_number(byte as nat);
    assert(is_cut(line@, prefix@ + seq![48u8, 120u8] + hex(value as nat)));
    assert(is_cut(half_line@, prefix@ + seq![48u8, 120u8] + hex(half as nat)));
    assert(is_cut(byte_line@, prefix@ + seq![48u8, 120u8] + hex(byte as nat)));
}

/// Whether a line is a text or, where that is longer, its first 96 bytes.
pub open spec fn is_cut(line: Seq<u8>, text: Seq<u8>) -> bool {
    line == if text.len() <= 96 {
        text
    } else {
        text.take(96)
    }
}

/// Whether a line is that of a prefix and a number.
pub open spec fn is_line(line: Seq<u8>, prefix: Seq<u8>, value: nat) -> bool {
    exists|digits: Seq<u8>|
        #[trigger] are_digits(digits) && digits_value(digits) == value && is_cut(
            line,
            prefix + seq![48u8, 120u8] + digits,
        )
}

/// Work on two paths is traced, `/drivers` and `/drivers/usb`, and on no other.
pub proof fn law_trace_calls(prefix: &str, path: &[u8], line: Option<&str>)
    requires
        call_ensures(debug_trace_path, (prefix, path), line),
    ensures
        line is Some <==> path@ == seq![47u8, 100, 114, 105, 118, 101, 114, 115] || path@ == seq![
            47u8,
            100,
            114,
            105,
            118,
            101,
            114,
            115,
            47,
            117,
            115,
            98,
        ],
        line is Some ==> line->Some_0 == prefix,
{
    assert(drivers() + usb() =~= seq![47u8, 100, 114, 105, 118, 101, 114, 115, 47, 117, 115, 98]);
}

/// A mount that failed is logged where there is a driver: that the superblock is
/// invalid for -22, and for any other code that reading failed.
pub proof fn law_mount_lines(attached: bool, rc: i32, line: Option<&'static str>)
    requires
        call_ensures(mount_line, (attached, rc), line),
    ensures
        line is Some <==> attached && rc != 0,
        line is Some && rc == -22 ==> line->Some_0@ == "ext2.cext: mount invalid superblock"@,
        line is Some && rc != -22 ==> line->Some_0@ == "ext2.cext: mount read failed"@,
{
}

} // verus!
