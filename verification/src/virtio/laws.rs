//! What the driver does with a device, in plain numbers.

use vstd::arithmetic::power2::{lemma_pow2_pos, pow2};
use vstd::prelude::*;
use crate::abi::McxDmaRegion;
use crate::virtio::pci::{law_config_address, Scan, ScanStep};
use crate::virtio::request::{
    probe_impl, read_plan, read_sector_impl, waited, write_sector_impl, SectorRead, Wait,
};
use crate::virtio::ring::{
    align_up, avail_at, data_at, law_ring_parts, req_at, ring_size, rounded_up, status_at, used_at,
    DriverState,
};
use crate::virtio::setup::{Action, Reply, Setup, Stage};
use crate::virtio::transfer::{outcome_code, Access, Outcome, Step, Transfer};

verus! {

/// What the configuration registers hold, by the word that selects them.
pub type Registers = spec_fn(u32) -> u32;

/// The word that selects a register of function 0 of a device.
pub open spec fn register_word(bus: int, device: int, offset: int) -> u32 {
    (0x8000_0000 + 0x1_0000 * bus + 0x800 * device + offset) as u32
}

/// Whether there is a legacy virtio block device at a place whose registers lie in
/// the port space: device 0x1001 of vendor 0x1af4, with an odd first base address.
pub open spec fn is_block_device(registers: Registers, bus: int, device: int) -> bool {
    &&& registers(register_word(bus, device, 0)) == 0x1001_1af4
    &&& registers(register_word(bus, device, 0x10)) % 2 == 1
}

/// A set-up after up to `n` accesses of its search, where the configuration
/// registers do not change.
pub open spec fn searched(registers: Registers, s: Setup, n: nat) -> Setup
    decreases n,
{
    if n == 0 || s.stage !is Search {
        s
    } else {
        match s.wanted() {
            Action::ConfigRead(w) => searched(
                registers,
                s.advanced(Reply::Value(registers(w))),
                (n - 1) as nat,
            ),
            _ => s,
        }
    }
}

/// Where the search is after one access: it goes on to the registers of the same
/// device only for the identifier 0x1001_1af4, it ends at an odd base address only,
/// and else it is at the next device.
pub proof fn law_search_step(scan: Scan, value: u32)
    requires
        scan.device < 32,
    ensures
        ({
            let next = scan.stepped(value);
            let here = 32 * scan.bus + scan.device;
            if !scan.identified && value == 0x1001_1af4 {
                next == ScanStep::More(
                    Scan { bus: scan.bus, device: scan.device, identified: true },
                )
            } else if scan.identified && value % 2 == 1 {
                &&& next is Found
                &&& next->Found_0.bus == scan.bus
                &&& next->Found_0.device == scan.device
                &&& next->Found_0.func == 0
                &&& next->Found_0.io_base == (value - value % 4) % 65536
            } else if here == 8191 {
                next is NotFound
            } else {
                &&& next is More
                &&& !next->More_0.identified
                &&& next->More_0.device < 32
                &&& 32 * next->More_0.bus + next->More_0.device == here + 1
            }
        }),
        scan.offset() == if scan.identified {
            0x10u8
        } else {
            0
        },
{
}

/// What a search comes to that has passed no device before.
#[verifier::rlimit(30)]
proof fn lemma_searched(registers: Registers, s: Setup, scan: Scan, n: nat)
    requires
        s.stage == Stage::Search(scan),
        scan.device < 32,
        n >= 2 * (8192 - (32 * scan.bus + scan.device)),
        forall|bus: int, device: int|
            0 <= bus && 0 <= device < 32 && 32 * bus + device < 32 * scan.bus + scan.device
                ==> !#[trigger] is_block_device(registers, bus, device),
        scan.identified ==> registers(register_word(scan.bus as int, scan.device as int, 0))
            == 0x1001_1af4,
    ensures
        is_search_result(registers, searched(registers, s, n)),
    decreases n, if scan.identified { 0int } else { 1int },
{
    let here = 32 * scan.bus + scan.device;
    let offset: u8 = if scan.identified {
        0x10
    } else {
        0
    };
    law_config_address(scan.bus, scan.device, 0, offset);
    let w = register_word(scan.bus as int, scan.device as int, offset as int);
    let value = registers(w);
    law_search_step(scan, value);
    assert(s.wanted() == Action::ConfigRead(w));
    let next = s.advanced(Reply::Value(value));
    if scan.identified && value % 2 == 1 {
        assert(is_block_device(registers, scan.bus as int, scan.device as int));
        assert(searched(registers, next, (n - 1) as nat) == next);
    } else if !scan.identified && value == 0x1001_1af4 {
        // The next access is to the same device; whatever it gives, the one after
        // it is to the next.
        let again = Scan { bus: scan.bus, device: scan.device, identified: true };
        law_config_address(scan.bus, scan.device, 0, 0x10);
        let w2 = register_word(scan.bus as int, scan.device as int, 0x10);
        let value2 = registers(w2);
        law_search_step(again, value2);
        assert(next.stage == Stage::Search(again));
        assert(next.wanted() == Action::ConfigRead(w2));
        let last = next.advanced(Reply::Value(value2));
        assert(searched(registers, next, (n - 1) as nat) == searched(
            registers,
            last,
            (n - 2) as nat,
        ));
        if value2 % 2 == 1 {
            assert(is_block_device(registers, scan.bus as int, scan.device as int));
            assert(searched(registers, last, (n - 2) as nat) == last);
        } else {
            assert(!is_block_device(registers, scan.bus as int, scan.device as int));
            lemma_passed(registers, last, scan, again.stepped(value2), (n - 2) as nat);
        }
    } else {
        assert(!is_block_device(registers, scan.bus as int, scan.device as int));
        lemma_passed(registers, next, scan, scan.stepped(value), (n - 1) as nat);
    }
}

/// What a search comes to after it has passed a device that it does not look for.
proof fn lemma_passed(registers: Registers, s: Setup, scan: Scan, step: ScanStep, n: nat)
    requires
        scan.device < 32,
        step == scan.past(),
        step matches ScanStep::More(next) ==> s.stage == Stage::Search(next),
        step is NotFound ==> s.stage == Stage::NoDevice,
        n >= 2 * (8191 - (32 * scan.bus + scan.device)),
        forall|bus: int, device: int|
            0 <= bus && 0 <= device < 32 && 32 * bus + device <= 32 * scan.bus + scan.device
                ==> !#[trigger] is_block_device(registers, bus, device),
    ensures
        is_search_result(registers, searched(registers, s, n)),
    decreases n, 2int,
{
    match step {
        ScanStep::More(next) => {
            lemma_searched(registers, s, next, n);
        },
        _ => {
            assert(searched(registers, s, n) == s);
        },
    }
}

/// Whether a search came to its end as it should: at the first of the devices
/// that are looked for, with the ports that its base address names; or without a
/// device where there is none.
pub open spec fn is_search_result(registers: Registers, s: Setup) -> bool {
    match s.stage {
        Stage::ReadCommand => {
            let at = s.location;
            let bar0 = registers(register_word(at.bus as int, at.device as int, 0x10));
            &&& at.device < 32
            &&& at.func == 0
            &&& is_block_device(registers, at.bus as int, at.device as int)
            &&& at.io_base == (bar0 - bar0 % 4) % 65536
            &&& forall|bus: int, device: int|
                0 <= bus && 0 <= device < 32 && 32 * bus + device < 32 * at.bus + at.device
                    ==> !#[trigger] is_block_device(registers, bus, device)
        },
        Stage::NoDevice => {
            forall|bus: int, device: int|
                0 <= bus < 256 && 0 <= device < 32 ==> !#[trigger] is_block_device(
                    registers,
                    bus,
                    device,
                )
        },
        _ => false,
    }
}

/// A search over configuration registers that do not change ends after at most
/// two accesses to each of the 8192 places. It finds a device only where the
/// identifier register holds exactly 0x1001_1af4 and the first base address is odd,
/// and it finds the first such device by bus and device. Where there is none, the
/// set-up stops with -6.
pub proof fn law_search_finds_block_device(registers: Registers, s: Setup)
    requires
        s.stage == Stage::Search(Scan { bus: 0, device: 0, identified: false }),
    ensures
        ({
            let end = searched(registers, s, 16384);
            let at = end.location;
            &&& end.stage is ReadCommand || end.stage is NoDevice
            &&& end.stage is ReadCommand ==> {
                let bar0 = registers(register_word(at.bus as int, at.device as int, 0x10));
                &&& at.device < 32
                &&& at.func == 0
                &&& registers(register_word(at.bus as int, at.device as int, 0)) == 0x1001_1af4
                &&& bar0 % 2 == 1
                &&& at.io_base == (bar0 - bar0 % 4) % 65536
            }
            &&& end.stage is NoDevice ==> end.wanted() is Stop && end.wanted()->Stop_0 == -6
            &&& forall|bus: int, device: int|
                0 <= bus < 256 && 0 <= device < 32 && (end.stage is NoDevice || 32 * bus + device
                    < 32 * at.bus + at.device) ==> !#[trigger] is_block_device(
                    registers,
                    bus,
                    device,
                )
        }),
{
    lemma_searched(registers, s, Scan { bus: 0, device: 0, identified: false }, 16384);
}

/// The port of a register `offset` behind the first of a device.
pub open spec fn port_behind(io_base: u16, offset: int) -> u16 {
    ((io_base + offset) % 65536) as u16
}

/// A set-up whose accesses are all writes, after so many of them.
pub open spec fn written(s: Setup, n: nat) -> Setup
    decreases n,
{
    if n == 0 {
        s
    } else {
        written(s, (n - 1) as nat).advanced(Reply::Written)
    }
}

/// Once the device was found, its command register is read twice and written once:
/// bits 0 and 2 are set and all other bits are those that were read, the lower half
/// from the first reading and the upper half from the second.
pub proof fn law_command_register(s: Setup, first: u32, second: u32)
    requires
        s.stage == Stage::ReadCommand,
        s.location.device < 32,
        s.location.func < 8,
    ensures
        ({
            let at = s.location;
            let w = 0x8000_0000 + 0x1_0000 * at.bus + 0x800 * at.device + 0x100 * at.func + 4;
            let s1 = s.advanced(Reply::Value(first));
            let s2 = s1.advanced(Reply::Value(second));
            let s3 = s2.advanced(Reply::Written);
            &&& s.wanted() == Action::ConfigRead(w as u32)
            &&& s1.wanted() == Action::ConfigRead(w as u32)
            &&& s2.wanted() is ConfigWrite
            &&& s2.wanted()->ConfigWrite_0 == w
            &&& s2.wanted()->ConfigWrite_1 / 65536 == second / 65536
            &&& s2.wanted()->ConfigWrite_1 % 65536 == {
                let low = first % 65536;
                low + (if low % 2 == 0 {
                    1int
                } else {
                    0
                }) + (if low / 4 % 2 == 0 {
                    4int
                } else {
                    0
                })
            }
            &&& s3.stage is Reset
            &&& s3.location == at
        }),
{
    law_config_address(s.location.bus, s.location.device, s.location.func, 4);
    let low = (first % 65536) as u16;
    assert((low | 1u16 | 4u16) == low + (if low % 2 == 0 {
        1u16
    } else {
        0u16
    }) + (if low / 4 % 2 == 0 {
        4u16
    } else {
        0u16
    })) by (bit_vector);
}

/// The device is then reset, acknowledged, told the page size 4096 and that no
/// features are wanted; queue 0 is selected and its size is read. Each register has
/// its port behind the first of the device.
pub proof fn law_device_is_prepared(s: Setup, size: u32)
    requires
        s.stage == Stage::Reset,
    ensures
        ({
            let base = s.location.io_base;
            let s5 = written(s, 5);
            let s6 = s5.advanced(Reply::Value(size));
            &&& s.wanted() == Action::Outb(port_behind(base, 18), 0)
            &&& written(s, 1).wanted() == Action::Outb(port_behind(base, 18), 3)
            &&& written(s, 2).wanted() == Action::Outl(port_behind(base, 40), 4096)
            &&& written(s, 3).wanted() == Action::Outl(port_behind(base, 4), 0)
            &&& written(s, 4).wanted() == Action::Outw(port_behind(base, 14), 0)
            &&& s5.wanted() == Action::Inw(port_behind(base, 12))
            &&& s6.queue_size == size % 65536
            &&& s6.location == s.location
            &&& if size % 65536 < 3 {
                s6.stage is Fail
            } else {
                s6.stage is Allocate
            }
        }),
{
    reveal_with_fuel(written, 6);
    assert(1u8 | 2u8 == 3u8) by (bit_vector);
}

/// Memory for the queue is asked for at a page, and is taken where the answer is 0
/// and it has both addresses and is long enough. The device is told the page that
/// it lies at and that the driver is ready; its size in sectors is read in two
/// halves, the lower one first.
pub proof fn law_device_gets_queue(s: Setup, rc: i32, region: McxDmaRegion, low: u32, high: u32)
    requires
        s.stage == Stage::Allocate,
    ensures
        ({
            let base = s.location.io_base;
            let taken = rc == 0 && region.virt != 0 && region.phys != 0 && region.len >= ring_size(
                s.queue_size,
            );
            let s1 = s.advanced(Reply::Region(rc, region));
            let s3 = written(s1, 2);
            let s4 = s3.advanced(Reply::Value(low));
            let s5 = s4.advanced(Reply::Value(high));
            let driver = s5.outcome()->Some_0;
            &&& s.wanted() == Action::AllocDma(ring_size(s.queue_size) as usize, 4096)
            &&& !taken ==> s1.stage is Fail
            &&& taken ==> {
                &&& s1.wanted() == Action::Outl(
                    port_behind(base, 8),
                    (region.phys / 4096 % 0x1_0000_0000) as u32,
                )
                &&& written(s1, 1).wanted() == Action::Outb(port_behind(base, 18), 7)
                &&& s3.wanted() == Action::Inl(port_behind(base, 20))
                &&& s4.wanted() == Action::Inl(port_behind(base, 24))
                &&& s5.wanted() is Stop && s5.wanted()->Stop_0 == 0
                &&& s5.outcome() is Some
                &&& driver.io_base == base
                &&& driver.capacity_sectors == low + 0x1_0000_0000 * high
                &&& driver.dma == region
                &&& driver.queue_size == s.queue_size
            }
        }),
{
    reveal_with_fuel(written, 3);
    assert(1u8 | 2u8 | 4u8 == 7u8) by (bit_vector);
    let taken = rc == 0 && region.virt != 0 && region.phys != 0 && region.len >= ring_size(
        s.queue_size,
    );
    if taken {
        let s5 = written(s.advanced(Reply::Region(rc, region)), 2).advanced(
            Reply::Value(low),
        ).advanced(Reply::Value(high));
        assert(s5.stage == Stage::Ready((low + 0x1_0000_0000 * high) as u64));
    }
}

/// A device that cannot be set up is told so, and the set-up stops with -5 and
/// without a device.
pub proof fn law_device_is_given_up(s: Setup, reply: Reply)
    requires
        s.stage == Stage::Fail,
    ensures
        s.wanted() == Action::Outb(port_behind(s.location.io_base, 18), 128),
        s.advanced(reply).wanted() is Stop,
        s.advanced(reply).wanted()->Stop_0 == -5,
        s.advanced(reply).outcome() is None,
{
}

/// Where the parts of the shared memory lie for a queue of any size: 16 bytes for
/// each descriptor, then the available ring with 2 bytes for each and 6 more; the
/// used ring with 8 bytes for each and 6 more at the next page; the request of 16
/// bytes at the next multiple of 16, 512 bytes of data, one of status; and as much
/// as is left of the last page. Nothing is rounded up further than it must be.
pub proof fn law_queue_layout(q: u16)
    ensures
        avail_at(q) == 16 * q,
        18 * q + 6 <= used_at(q) < 18 * q + 6 + 4096,
        used_at(q) % 4096 == 0,
        used_at(q) + 6 + 8 * q <= req_at(q) < used_at(q) + 6 + 8 * q + 16,
        req_at(q) % 16 == 0,
        data_at(q) == req_at(q) + 16,
        status_at(q) == req_at(q) + 528,
        req_at(q) + 529 <= ring_size(q) < req_at(q) + 529 + 4096,
        ring_size(q) % 4096 == 0,
{
}

/// What is put in the shared memory to read a sector: a request of type 0 for that
/// sector; a chain of three descriptors for the 16 bytes of the request, which the
/// device reads, and for 512 bytes of data and one of status, which it writes; and
/// the places in both rings that their indices name, modulo the size of the queue.
pub proof fn law_request_in_numbers(d: DriverState, sector: u64, used_idx: u16, avail_idx: u16)
    requires
        d.queue_size != 0,
    ensures
        ({
            let r = d.read_request(sector, used_idx, avail_idx);
            let q = d.queue_size;
            &&& r.req.typ == 0 && r.req.reserved == 0 && r.req.sector == sector
            &&& r.head.addr == (d.dma.phys + req_at(q)) % 0x1_0000_0000_0000_0000
            &&& r.head.len == 16 && r.head.flags == 1 && r.head.next == 1
            &&& r.data.addr == (d.dma.phys + req_at(q) + 16) % 0x1_0000_0000_0000_0000
            &&& r.data.len == 512 && r.data.flags == 3 && r.data.next == 2
            &&& r.status.addr == (d.dma.phys + req_at(q) + 528) % 0x1_0000_0000_0000_0000
            &&& r.status.len == 1 && r.status.flags == 2 && r.status.next == 0
            &&& r.avail_slot == avail_idx % q
            &&& r.avail_next == (avail_idx + 1) % 65536
            &&& r.used_slot == used_idx % q
        }),
{
    assert(2u16 | 1u16 == 3u16) by (bit_vector);
    law_ring_parts(d.queue_size);
}

/// The device is asked until its index moves, and given up after it was asked
/// 100000000 times in vain.
pub proof fn law_waiting(spins: u32, before: u16, now: u16)
    requires
        spins < 100_000_000,
    ensures
        waited(spins, before, now) is Done <==> now != before,
        waited(spins, before, now) is TimedOut <==> now == before && spins == 99_999_999,
        waited(spins, before, now) matches Wait::Again(n) ==> n == spins + 1,
{
}

/// A request for sectors is refused with -38 while there is no device, with -22 for
/// another disk than the first, for no buffer or an empty one, and for one that is
/// not made of whole sectors of 512 bytes, and with -5 where a sector lies behind
/// the last. All others are taken, for each sector that the buffer has room for.
pub proof fn law_requests_taken(
    capacity: Option<u64>,
    disk_id: u32,
    lba: u64,
    buf_len: Option<usize>,
)
    ensures
        ({
            let r = read_plan(capacity, disk_id, lba, buf_len);
            let whole = disk_id == 0 && buf_len is Some && buf_len->Some_0 != 0 && buf_len->Some_0
                % 512 == 0;
            if capacity is None {
                r is Err && r->Err_0 == -38
            } else if !whole {
                r is Err && r->Err_0 == -22
            } else if lba + buf_len->Some_0 / 512 > capacity->Some_0 {
                r is Err && r->Err_0 == -5
            } else {
                r is Ok && 512 * r->Ok_0 == buf_len->Some_0
            }
        }),
{
}

/// The sectors of a read are asked for one after the other, the first for the start
/// of the buffer and each further one 512 bytes behind, until all are there or one
/// could not be read.
pub proof fn law_sectors_in_order(read: SectorRead, rc: i32)
    requires
        read.wf(),
    ensures
        read.pending() is Some <==> read.rc == 0 && read.done < read.sectors,
        read.pending() matches Some((sector, at)) ==> sector == read.lba + read.done && at == 512
            * read.done,
        read.pending() is Some && rc == 0 ==> read.answered(rc) == (SectorRead {
            done: (read.done + 1) as usize,
            ..read
        }),
        rc != 0 ==> read.answered(rc).pending() is None && read.answered(rc).rc == rc,
{
}

/// What a transfer asks for before the device is at work: it reads both indices,
/// writes the request and the status 255, the three descriptors, 0 into the slot of
/// the available ring and its next index, and notifies the device.
#[verifier::rlimit(30)]
pub proof fn law_transfer_asks(t: Transfer, value: u32)
    requires
        t.wf(),
    ensures
        ({
            let q = t.driver.queue_size;
            let base = t.driver.io_base;
            let r = t.driver.read_request(t.sector, t.used_idx, t.avail_idx);
            let next = t.advanced(value);
            match t.step {
                Step::UsedIndex => {
                    &&& t.wanted() == Access::ReadU16((used_at(q) + 2) as usize)
                    &&& next.step is AvailIndex && next.used_idx == value % 65536
                },
                Step::AvailIndex => {
                    &&& t.wanted() == Access::ReadU16((16 * q + 2) as usize)
                    &&& next.step is Request && next.avail_idx == value % 65536
                },
                Step::Request => {
                    &&& t.wanted() == Access::WriteReq(req_at(q) as usize, r.req)
                    &&& next.step is Unanswered
                },
                Step::Unanswered => {
                    &&& t.wanted() == Access::WriteU8((req_at(q) + 528) as usize, 255)
                    &&& next.step is Head
                },
                Step::Head => t.wanted() == Access::WriteDesc(0, r.head) && next.step is Data,
                Step::Data => t.wanted() == Access::WriteDesc(16, r.data) && next.step is Status,
                Step::Status => t.wanted() == Access::WriteDesc(32, r.status) && next.step is Slot,
                Step::Slot => {
                    &&& t.wanted() == Access::WriteU16(
                        (16 * q + 4 + 2 * (t.avail_idx % q)) as usize,
                        0,
                    )
                    &&& next.step is BeforeIndex
                },
                Step::BeforeIndex => t.wanted() == Access::Fence && next.step is Index,
                Step::Index => {
                    &&& t.wanted() == Access::WriteU16(
                        (16 * q + 2) as usize,
                        ((t.avail_idx + 1) % 65536) as u16,
                    )
                    &&& next.step is BeforeNotice
                },
                Step::BeforeNotice => t.wanted() == Access::Fence && next.step is Notice,
                Step::Notice => {
                    &&& t.wanted() == Access::Outw(port_behind(base, 16), 0)
                    &&& next.step == Step::Poll(0)
                },
                _ => true,
            }
        }),
        t.advanced(value).driver == t.driver,
        t.advanced(value).sector == t.sector,
        !(t.step is UsedIndex) ==> t.advanced(value).used_idx == t.used_idx,
        !(t.step is AvailIndex) ==> t.advanced(value).avail_idx == t.avail_idx,
{
    law_ring_parts(t.driver.queue_size);
}

/// What a transfer makes of the answers: once the index of the used ring has moved,
/// the interrupt is acknowledged; descriptor 0 must have been answered and the status
/// be 0 for the data to be delivered.
#[verifier::rlimit(30)]
pub proof fn law_transfer_is_answered(t: Transfer, value: u32)
    requires
        t.wf(),
    ensures
        ({
            let q = t.driver.queue_size;
            let base = t.driver.io_base;
            let next = t.advanced(value).step;
            match t.step {
                Step::Poll(spins) => {
                    &&& t.wanted() == Access::ReadU16((used_at(q) + 2) as usize)
                    &&& if value % 65536 != t.used_idx {
                        next is BeforeAnswer
                    } else if spins == 99_999_999 {
                        next == Step::End(Outcome::TimedOut)
                    } else {
                        next == Step::Poll((spins + 1) as u32)
                    }
                },
                Step::BeforeAnswer => t.wanted() == Access::Fence && next is Acknowledge,
                Step::Acknowledge => {
                    &&& t.wanted() == Access::Inb(port_behind(base, 19))
                    &&& next is Answer
                },
                Step::Answer => {
                    &&& t.wanted() == Access::ReadU32(
                        (used_at(q) + 4 + 8 * (t.used_idx % q)) as usize,
                    )
                    &&& if value == 0 {
                        next is Verdict
                    } else {
                        next == Step::End(Outcome::Misdirected(value))
                    }
                },
                Step::Verdict => {
                    &&& t.wanted() == Access::ReadU8((req_at(q) + 528) as usize)
                    &&& if value % 256 == 0 {
                        next is Delivery
                    } else {
                        next == Step::End(Outcome::Refused)
                    }
                },
                Step::Delivery => {
                    &&& t.wanted() == Access::Deliver((req_at(q) + 16) as usize)
                    &&& next == Step::End(Outcome::Read)
                },
                Step::End(outcome) => t.wanted() == Access::Stop(outcome) && next == t.step,
                _ => true,
            }
        }),
{
    law_ring_parts(t.driver.queue_size);
}

/// A transfer gives 0 where the sector was read, and -5 whatever else it came to.
pub proof fn law_outcome_codes(outcome: Outcome)
    ensures
        outcome is Read ==> outcome_code(outcome) == 0,
        outcome !is Read ==> outcome_code(outcome) == -5,
{
}

/// What is rounded up is the least multiple that is not below.
pub proof fn law_rounded_up(value: int, align: int)
    requires
        0 <= value,
        0 < align,
    ensures
        value <= rounded_up(value, align) < value + align,
        rounded_up(value, align) % align == 0,
{
    let k = (value + align - 1) / align;
    vstd::arithmetic::div_mod::lemma_fundamental_div_mod(value + align - 1, align);
    vstd::arithmetic::div_mod::lemma_mod_bound(value + align - 1, align);
    assert(k * align == align * k) by (nonlinear_arith);
    vstd::arithmetic::div_mod::lemma_mod_multiples_basic(k, align);
}

/// The device is called found only where its identifier register was read as exactly
/// 0x1001_1af4, device 0x1001 of vendor 0x1af4, and then its first base address as odd.
/// Any other answer leads to the next device, and at the last one to the end.
#[verifier::rlimit(30)]
pub proof fn law_step_calls(
    scan: Scan,
    first: u32,
    next: ScanStep,
    second: u32,
    last: ScanStep,
    word: u32,
)
    requires
        scan.device < 32,
        !scan.identified,
        call_ensures(Scan::address, (&scan,), word),
        call_ensures(Scan::step, (scan, first), next),
        next matches ScanStep::More(s) ==> call_ensures(Scan::step, (s, second), last),
    ensures
        word == 0x8000_0000 + 0x1_0000 * scan.bus + 0x800 * scan.device,
        next !is Found,
        first != 0x1001_1af4 ==> match next {
            ScanStep::More(s) => !s.identified && s.device < 32 && 32 * s.bus + s.device == 32
                * scan.bus + scan.device + 1,
            _ => scan.bus == 255 && scan.device == 31,
        },
        first == 0x1001_1af4 ==> match next {
            ScanStep::More(s) => {
                &&& s.identified && s.bus == scan.bus && s.device == scan.device
                &&& last is Found <==> second % 2 == 1
                &&& last matches ScanStep::Found(at) ==> {
                    &&& at.bus == scan.bus && at.device == scan.device && at.func == 0
                    &&& at.io_base == (second - second % 4) % 65536
                }
            },
            _ => false,
        },
{
    law_config_address(scan.bus, scan.device, 0, 0);
    law_search_step(scan, first);
    if let ScanStep::More(s) = next {
        law_search_step(s, second);
    }
}

/// The base address register of a device that was identified lies 16 behind its first
/// register.
pub proof fn law_base_address_call(scan: Scan, word: u32)
    requires
        scan.device < 32,
        scan.identified,
        call_ensures(Scan::address, (&scan,), word),
    ensures
        word == 0x8000_0000 + 0x1_0000 * scan.bus + 0x800 * scan.device + 0x10,
{
    law_config_address(scan.bus, scan.device, 0, 0x10);
}

/// A set-up starts with a search from the first device on, asks for the access that
/// is wanted, goes on as the answer makes it, and shows the device that it came to.
pub proof fn law_setup_calls(
    start: Setup,
    s: Setup,
    action: Action,
    reply: Reply,
    next: Setup,
    shown: Option<DriverState>,
)
    requires
        call_ensures(Setup::new, (), start),
        call_ensures(Setup::action, (&s,), action),
        call_ensures(Setup::advance, (s, reply), next),
        call_ensures(Setup::driver, (&s,), shown),
    ensures
        start.stage == Stage::Search(Scan { bus: 0, device: 0, identified: false }),
        action == s.wanted(),
        next == s.advanced(reply),
        shown == s.outcome(),
{
}

/// A transfer starts with the index of the used ring, asks for the access that is
/// wanted and goes on as the answer makes it.
pub proof fn law_transfer_calls(
    driver: DriverState,
    sector: u64,
    start: Transfer,
    t: Transfer,
    access: Access,
    value: u32,
    next: Transfer,
    outcome: Outcome,
    rc: i32,
)
    requires
        call_ensures(Transfer::new, (driver, sector), start),
        call_ensures(Transfer::access, (&t,), access),
        call_ensures(Transfer::advance, (t, value), next),
        call_ensures(Outcome::code, (outcome,), rc),
    ensures
        start.driver == driver && start.sector == sector && start.step is UsedIndex,
        access == t.wanted(),
        next == t.advanced(value),
        rc == if outcome is Read {
            0int
        } else {
            -5
        },
{
}

/// There is one disk where there is a device, and -6 where there is none. Writing is
/// answered with -38. A read of sectors that is taken starts at the first of them,
/// for each sector that the buffer has room for.
pub proof fn law_disk_calls(
    driver: Option<&DriverState>,
    disk_id: u32,
    lba: u64,
    buf_len: Option<usize>,
    disks: i32,
    data: Option<&[u8]>,
    stored: i32,
    read: Result<SectorRead, i32>,
)
    requires
        call_ensures(probe_impl, (driver,), disks),
        call_ensures(write_sector_impl, (disk_id, lba, data), stored),
        call_ensures(read_sector_impl, (driver, disk_id, lba, buf_len), read),
    ensures
        disks == if driver is Some {
            1int
        } else {
            -6
        },
        stored == -38,
        ({
            let whole = disk_id == 0 && buf_len is Some && buf_len->Some_0 != 0 && buf_len->Some_0
                % 512 == 0;
            if driver is None {
                read is Err && read->Err_0 == -38
            } else if !whole {
                read is Err && read->Err_0 == -22
            } else if lba + buf_len->Some_0 / 512 > driver->Some_0.capacity_sectors {
                read is Err && read->Err_0 == -5
            } else {
                &&& read is Ok
                &&& (read->Ok_0).lba == lba && (read->Ok_0).done == 0 && (read->Ok_0).rc == 0
                &&& 512 * (read->Ok_0).sectors == buf_len->Some_0
            }
        }),
{
}

/// Where the driver puts things and sees them, for a queue of any size.
pub proof fn law_place_calls(
    d: DriverState,
    desc: usize,
    avail: usize,
    slots: usize,
    used: usize,
    elements: usize,
    req: usize,
    data: usize,
    status: usize,
)
    requires
        call_ensures(DriverState::desc_ptr, (&d,), desc),
        call_ensures(DriverState::avail_ptr, (&d,), avail),
        call_ensures(DriverState::avail_ring_ptr, (&d,), slots),
        call_ensures(DriverState::used_ptr, (&d,), used),
        call_ensures(DriverState::used_ring_ptr, (&d,), elements),
        call_ensures(DriverState::req_ptr, (&d,), req),
        call_ensures(DriverState::data_ptr, (&d,), data),
        call_ensures(DriverState::status_ptr, (&d,), status),
    ensures
        desc == 0,
        avail == 16 * d.queue_size,
        slots == 16 * d.queue_size + 4,
        18 * d.queue_size + 6 <= used < 18 * d.queue_size + 6 + 4096,
        used % 4096 == 0,
        elements == used + 4,
        used + 6 + 8 * d.queue_size <= req < used + 6 + 8 * d.queue_size + 16,
        req % 16 == 0,
        data == req + 16,
        status == req + 528,
{
    law_queue_layout(d.queue_size);
}

/// A read of sectors asks for what is pending and goes on as the answer makes it.
pub proof fn law_sector_calls(
    read: SectorRead,
    pending: Option<(u64, usize)>,
    rc: i32,
    next: SectorRead,
)
    requires
        call_ensures(SectorRead::next, (&read,), pending),
        call_ensures(SectorRead::answer, (read, rc), next),
    ensures
        pending is Some <==> read.rc == 0 && read.done < read.sectors,
        pending matches Some((sector, at)) ==> sector == (read.lba + read.done) as u64 && at == (512
            * read.done) as usize,
        next.lba == read.lba && next.sectors == read.sectors,
        rc == 0 ==> next.done == (read.done + 1) as usize && next.rc == read.rc,
        rc != 0 ==> next.done == read.done && next.rc == rc,
{
}

/// Rounding up to a power of two gives the least multiple that is not below.
pub proof fn law_align_call(value: usize, align: usize, n: nat, r: usize)
    requires
        call_ensures(align_up, (value, align), r),
        align == pow2(n),
        n < usize::BITS,
        value + align - 1 <= usize::MAX,
    ensures
        value <= r < value + align,
        r % align == 0,
{
    lemma_pow2_pos(n);
    law_rounded_up(value as int, align as int);
}

} // verus!
