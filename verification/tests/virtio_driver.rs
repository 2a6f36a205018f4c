//! The virtio driver: its search, its set-up and its requests.

use mochi_cext::abi::{McxDmaRegion, EINVAL, EIO, ENOSYS, ENXIO};
use mochi_cext::virtio::pci::{config_address, replace_half, Location, Scan, ScanStep};
use mochi_cext::virtio::request::{
    check_read, probe_impl, read_sector_impl, wait_step, write_sector_impl, SectorRead, Wait,
    SPIN_LIMIT,
};
use mochi_cext::virtio::ring::{align_up, ring_dma_bytes, DriverState};
use mochi_cext::virtio::setup::{Action, Reply, Setup};
use mochi_cext::virtio::transfer::{Access, Outcome, Step, Transfer};

const ID: u32 = 0x1001_1af4;

fn driver() -> DriverState {
    DriverState {
        io_base: 0xc000,
        capacity_sectors: 100,
        dma: McxDmaRegion { virt: 0x7000, phys: 0x20_0000, len: 12288 },
        queue_size: 256,
    }
}

#[test]
fn registers_are_selected() {
    assert_eq!(config_address(0, 0, 0, 0), 0x8000_0000);
    assert_eq!(config_address(1, 2, 3, 0x13), 0x8001_1310);
    assert_eq!(config_address(255, 31, 7, 0xff), 0x80ff_fffc);
}

#[test]
fn half_a_register_is_replaced() {
    assert_eq!(replace_half(0x1234_5678, 4, 0xabcd), 0x1234_abcd);
    assert_eq!(replace_half(0x1234_5678, 6, 0xabcd), 0xabcd_5678);
    assert_eq!(replace_half(0x1234_5678, 7, 0), 0x0000_5678);
}

/// Runs a search over a configuration space; gives what it found and how many
/// registers it read.
fn search(space: &dyn Fn(u32) -> u32) -> (Option<Location>, usize) {
    let mut scan = Scan::new();
    let mut reads = 0;
    loop {
        reads += 1;
        match scan.step(space(scan.address())) {
            ScanStep::More(next) => scan = next,
            ScanStep::Found(location) => return (Some(location), reads),
            ScanStep::NotFound => return (None, reads),
        }
    }
}

#[test]
fn the_first_device_is_found() {
    let space = |address: u32| match address {
        // An identifier without a base address in the port space.
        0x8000_1000 => ID,
        0x8000_1010 => 0xfebc_0000,
        0x8002_f800 => ID,
        0x8002_f810 => 0xc043,
        0x8003_0000 => ID,
        0x8003_0010 => 0xd001,
        _ => 0xffff_ffff,
    };
    let (found, reads) = search(&space);
    let found = found.unwrap();
    assert_eq!((found.bus, found.device, found.func), (2, 31, 0));
    assert_eq!(found.io_base, 0xc040);
    assert_eq!(reads, 96 + 2);
}

#[test]
fn a_search_can_come_to_nothing() {
    let (found, reads) = search(&|_| 0xffff_ffff);
    assert!(found.is_none());
    assert_eq!(reads, 8192);
}

#[test]
fn addresses_are_aligned_up() {
    assert_eq!(align_up(0, 16), 0);
    assert_eq!(align_up(1, 16), 16);
    assert_eq!(align_up(4096, 4096), 4096);
    assert_eq!(align_up(4097, 4096), 8192);
    assert_eq!(align_up(5, 1), 5);
    assert_eq!(align_up(5, 6), 10 & !5);
}

#[test]
fn shared_memory_is_laid_out() {
    let d = driver();
    assert_eq!(d.desc_bytes(), 4096);
    assert_eq!(d.avail_bytes(), 518);
    assert_eq!(d.used_bytes(), 2054);
    assert_eq!(d.desc_ptr(), 0);
    assert_eq!(d.avail_ptr(), 4096);
    assert_eq!(d.avail_ring_ptr(), 4100);
    assert_eq!(d.used_ptr(), 8192);
    assert_eq!(d.used_ring_ptr(), 8196);
    assert_eq!(d.req_ptr(), 10256);
    assert_eq!(d.data_ptr(), 10272);
    assert_eq!(d.status_ptr(), 10784);
    assert_eq!(d.req_phys(), 0x20_0000 + 10256);
    assert_eq!(d.data_phys(), 0x20_0000 + 10272);
    assert_eq!(d.status_phys(), 0x20_0000 + 10784);
    assert_eq!(ring_dma_bytes(256), 12288);
    assert_eq!(ring_dma_bytes(3), 8192);
    assert_eq!(ring_dma_bytes(0), 8192);
    assert_eq!(ring_dma_bytes(u16::MAX), 1_708_032);
    let high = DriverState {
        dma: McxDmaRegion { virt: 1, phys: u64::MAX, len: 12288 },
        ..driver()
    };
    assert_eq!(high.req_phys(), 10255);
}

#[test]
fn a_read_is_a_chain_of_three() {
    let d = driver();
    let r = d.submit_read(77, 0x1ff, 0xffff);
    assert_eq!((r.req.typ, r.req.reserved, r.req.sector), (0, 0, 77));
    assert_eq!((r.head.addr, r.head.len, r.head.flags, r.head.next), (d.req_phys(), 16, 1, 1));
    assert_eq!((r.data.addr, r.data.len, r.data.flags, r.data.next), (d.data_phys(), 512, 3, 2));
    assert_eq!(
        (r.status.addr, r.status.len, r.status.flags, r.status.next),
        (d.status_phys(), 1, 2, 0)
    );
    assert_eq!(r.avail_slot, 255);
    assert_eq!(r.avail_next, 0);
    assert_eq!(r.used_slot, 255);
    assert_eq!(d.submit_read(0, 3, 256).avail_slot, 0);
    assert_eq!(d.submit_read(0, 3, 256).avail_next, 257);
}

#[test]
fn the_device_is_given_up_after_a_while() {
    assert!(matches!(wait_step(0, 7, 8), Wait::Done));
    assert!(matches!(wait_step(0, 7, 7), Wait::Again(1)));
    assert!(matches!(wait_step(SPIN_LIMIT - 2, 7, 7), Wait::Again(99_999_999)));
    assert!(matches!(wait_step(SPIN_LIMIT - 1, 7, 7), Wait::TimedOut));
    assert!(matches!(wait_step(SPIN_LIMIT - 1, 7, 6), Wait::Done));
}

/// A device with its shared memory, which answers a request after some polls.
struct Memory {
    bytes: Vec<u8>,
    log: Vec<&'static str>,
    polls: u32,
    id: u32,
    status: u8,
    delivered: Vec<u8>,
}

impl Memory {
    fn new(polls: u32, id: u32, status: u8) -> Self {
        Memory { bytes: vec![0; 12288], log: vec![], polls, id, status, delivered: vec![] }
    }

    fn put(&mut self, at: usize, bytes: &[u8]) {
        self.bytes[at..at + bytes.len()].copy_from_slice(bytes);
    }

    fn get16(&self, at: usize) -> u16 {
        u16::from_le_bytes([self.bytes[at], self.bytes[at + 1]])
    }

    /// Does what the device does: fills data, status and the used ring.
    fn work(&mut self) {
        let used = self.get16(8192 + 2);
        let (id, status) = (self.id, self.status);
        self.put(8196 + 8 * (used as usize % 256), &id.to_le_bytes());
        self.put(10256 + 16, &[0x5a; 512]);
        self.put(10256 + 16 + 512, &[status]);
        self.put(8192 + 2, &used.wrapping_add(1).to_le_bytes());
    }

    fn make(&mut self, access: &Access) -> u32 {
        match access {
            Access::ReadU8(at) => {
                self.log.push("read8");
                self.bytes[*at] as u32
            }
            Access::ReadU16(at) => {
                if self.log.contains(&"notify") {
                    if self.polls == 0 {
                        self.work();
                    }
                    self.polls = self.polls.wrapping_sub(1);
                }
                self.log.push("read16");
                self.get16(*at) as u32
            }
            Access::ReadU32(at) => {
                self.log.push("read32");
                self.get16(*at) as u32 + 0x1_0000 * self.get16(*at + 2) as u32
            }
            Access::WriteU8(at, v) => {
                self.log.push("write8");
                self.put(*at, &[*v]);
                0
            }
            Access::WriteU16(at, v) => {
                self.log.push("write16");
                self.put(*at, &v.to_le_bytes());
                0
            }
            Access::WriteReq(at, r) => {
                self.log.push("request");
                self.put(*at, &r.typ.to_le_bytes());
                self.put(*at + 4, &r.reserved.to_le_bytes());
                self.put(*at + 8, &r.sector.to_le_bytes());
                0
            }
            Access::WriteDesc(at, d) => {
                self.log.push("descriptor");
                self.put(*at, &d.addr.to_le_bytes());
                self.put(*at + 8, &d.len.to_le_bytes());
                self.put(*at + 12, &d.flags.to_le_bytes());
                self.put(*at + 14, &d.next.to_le_bytes());
                0
            }
            Access::Fence => {
                self.log.push("fence");
                0
            }
            Access::Outw(port, value) => {
                assert_eq!((*port, *value), (0xc010, 0));
                self.log.push("notify");
                0
            }
            Access::Inb(port) => {
                assert_eq!(*port, 0xc013);
                self.log.push("acknowledge");
                1
            }
            Access::Deliver(at) => {
                self.log.push("deliver");
                self.delivered = self.bytes[*at..*at + 512].to_vec();
                0
            }
            Access::Stop(_) => unreachable!(),
        }
    }

    fn run(&mut self, sector: u64) -> Outcome {
        let mut transfer = Transfer::new(driver(), sector);
        loop {
            match transfer.access() {
                Access::Stop(outcome) => return outcome,
                access => {
                    let value = self.make(&access);
                    transfer = transfer.advance(value);
                }
            }
        }
    }
}

#[test]
fn a_sector_is_transferred() {
    let mut memory = Memory::new(2, 0, 0);
    memory.put(4096 + 2, &300u16.to_le_bytes());
    memory.put(8192 + 2, &0xffffu16.to_le_bytes());
    let outcome = memory.run(77);
    assert_eq!(outcome, Outcome::Read);
    assert_eq!(outcome.code(), 0);
    assert_eq!(
        memory.log,
        vec![
            "read16", "read16", "request", "write8", "descriptor", "descriptor", "descriptor",
            "write16", "fence", "write16", "fence", "notify", "read16", "read16", "read16",
            "fence", "acknowledge", "read32", "read8", "deliver",
        ]
    );
    assert_eq!(memory.delivered, vec![0x5a; 512]);
    // The slot, the index and the request.
    assert_eq!(memory.get16(4096 + 2), 301);
    assert_eq!(memory.get16(4100 + 2 * 44), 0);
    assert_eq!(&memory.bytes[10256..10272], b"\0\0\0\0\0\0\0\0\x4d\0\0\0\0\0\0\0");
    // The descriptors.
    assert_eq!(&memory.bytes[..16], b"\x10\x28\x20\0\0\0\0\0\x10\0\0\0\x01\0\x01\0");
    assert_eq!(&memory.bytes[16..32], b"\x20\x28\x20\0\0\0\0\0\0\x02\0\0\x03\0\x02\0");
    assert_eq!(&memory.bytes[32..48], b"\x20\x2a\x20\0\0\0\0\0\x01\0\0\0\x02\0\0\0");
}

#[test]
fn answers_are_judged() {
    let mut memory = Memory::new(0, 0x1_0002, 0);
    let outcome = memory.run(1);
    assert_eq!(outcome, Outcome::Misdirected(0x1_0002));
    assert_eq!(outcome.code(), EIO);
    assert_eq!(memory.log.last(), Some(&"read32"));
    let mut memory = Memory::new(0, 0, 1);
    let outcome = memory.run(1);
    assert_eq!(outcome, Outcome::Refused);
    assert_eq!(outcome.code(), EIO);
    assert_eq!(memory.log.last(), Some(&"read8"));
    assert!(memory.delivered.is_empty());
}

#[test]
fn a_silent_device_times_out() {
    let mut transfer = Transfer::new(driver(), 5);
    for _ in 0..12 {
        transfer = transfer.advance(0);
    }
    assert!(matches!(transfer.step, Step::Poll(0)));
    transfer.step = Step::Poll(SPIN_LIMIT - 1);
    transfer = transfer.advance(0);
    assert!(matches!(transfer.access(), Access::Stop(Outcome::TimedOut)));
    assert_eq!(Outcome::TimedOut.code(), EIO);
    // A transfer that has ended stays as it is.
    transfer = transfer.advance(1);
    assert!(matches!(transfer.access(), Access::Stop(Outcome::TimedOut)));
}

#[test]
fn requests_are_checked() {
    assert_eq!(check_read(None, 9, 0, None), Err(ENOSYS));
    assert_eq!(check_read(Some(100), 1, 0, Some(512)), Err(EINVAL));
    assert_eq!(check_read(Some(100), 0, 0, None), Err(EINVAL));
    assert_eq!(check_read(Some(100), 0, 0, Some(0)), Err(EINVAL));
    assert_eq!(check_read(Some(100), 0, 0, Some(513)), Err(EINVAL));
    assert_eq!(check_read(Some(100), 0, 98, Some(1024)), Ok(2));
    assert_eq!(check_read(Some(100), 0, 99, Some(1024)), Err(EIO));
    assert_eq!(check_read(Some(u64::MAX), 0, u64::MAX, Some(512)), Err(EIO));
}

#[test]
fn sectors_are_read_in_order() {
    let d = driver();
    let mut read = read_sector_impl(Some(&d), 0, 10, Some(1536)).ok().unwrap();
    let mut asked = vec![];
    while let Some(p) = read.next() {
        asked.push(p);
        read = read.answer(0);
    }
    assert_eq!(asked, vec![(10, 0), (11, 512), (12, 1024)]);
    assert_eq!(read.rc, 0);
}

#[test]
fn a_bad_sector_ends_a_read() {
    let d = driver();
    let mut read = read_sector_impl(Some(&d), 0, 10, Some(1536)).ok().unwrap();
    read = read.answer(0);
    assert_eq!(read.next(), Some((11, 512)));
    read = read.answer(EIO);
    assert_eq!(read.next(), None);
    assert_eq!(read.rc, EIO);
    assert_eq!(read.done, 1);
}

#[test]
fn a_read_needs_a_device() {
    assert_eq!(read_sector_impl(None, 0, 0, Some(512)).err(), Some(ENOSYS));
    assert_eq!(read_sector_impl(Some(&driver()), 0, 100, Some(512)).err(), Some(EIO));
    assert_eq!(probe_impl(Some(&driver())), 1);
    assert_eq!(probe_impl(None), ENXIO);
    assert_eq!(write_sector_impl(0, 0, Some(&[0; 512])), ENOSYS);
    let whole = SectorRead { lba: 0, sectors: 0, done: 0, rc: 0 };
    assert_eq!(whole.next(), None);
}

/// A device for the set-up to talk to: answers accesses and notes writes.
struct Device {
    queue_num: u16,
    alloc: (i32, McxDmaRegion),
    log: Vec<String>,
}

impl Device {
    fn reply(&mut self, action: &Action) -> Reply {
        match action {
            Action::ConfigRead(address) => Reply::Value(match *address {
                0x8000_2000 => ID,
                0x8000_2010 => 0xc001,
                0x8000_2004 => 0x0010_0002,
                _ => 0xffff_ffff,
            }),
            Action::ConfigWrite(address, value) => {
                self.log.push(format!("config {:x} {:x}", address, value));
                Reply::Written
            }
            Action::Outb(port, value) => {
                self.log.push(format!("outb {:x} {:x}", port, value));
                Reply::Written
            }
            Action::Outw(port, value) => {
                self.log.push(format!("outw {:x} {:x}", port, value));
                Reply::Written
            }
            Action::Outl(port, value) => {
                self.log.push(format!("outl {:x} {:x}", port, value));
                Reply::Written
            }
            Action::Inw(port) => {
                assert_eq!(*port, 0xc00c);
                // What is above 16 bits does not matter.
                Reply::Value(0xdead_0000 | self.queue_num as u32)
            }
            Action::Inl(port) => Reply::Value(if *port == 0xc014 { 0x1000 } else { 2 }),
            Action::AllocDma(size, align) => {
                self.log.push(format!("alloc {} {}", size, align));
                Reply::Region(self.alloc.0, self.alloc.1)
            }
            Action::Stop(_) => unreachable!(),
        }
    }
}

fn set_up(device: &mut Device) -> (i32, Option<DriverState>) {
    let mut setup = Setup::new();
    loop {
        let action = setup.action();
        if let Action::Stop(rc) = action {
            return (rc, setup.driver());
        }
        setup = setup.advance(device.reply(&action));
    }
}

fn region(virt: usize, phys: u64, len: usize) -> McxDmaRegion {
    McxDmaRegion { virt, phys, len }
}

#[test]
fn a_device_is_brought_up() {
    let mut device = Device {
        queue_num: 256,
        alloc: (0, region(0x5000, 0x1234_5000, 12288)),
        log: vec![],
    };
    let (rc, state) = set_up(&mut device);
    assert_eq!(rc, 0);
    let state = state.unwrap();
    assert_eq!(state.io_base, 0xc000);
    assert_eq!(state.capacity_sectors, 0x2_0000_1000);
    assert_eq!(state.queue_size, 256);
    assert_eq!(state.dma.phys, 0x1234_5000);
    assert_eq!(
        device.log,
        vec![
            "config 80002004 100007",
            "outb c012 0",
            "outb c012 3",
            "outl c028 1000",
            "outl c004 0",
            "outw c00e 0",
            "alloc 12288 4096",
            "outl c008 12345",
            "outb c012 7",
        ]
    );
}

#[test]
fn a_small_queue_is_refused() {
    let mut device = Device { queue_num: 2, alloc: (0, region(1, 1, 9999)), log: vec![] };
    let (rc, state) = set_up(&mut device);
    assert_eq!(rc, EIO);
    assert!(state.is_none());
    assert_eq!(device.log.last().unwrap(), "outb c012 80");
}

#[test]
fn bad_memory_is_refused() {
    for alloc in [
        (-12, region(0x5000, 0x1000, 12288)),
        (0, region(0, 0x1000, 12288)),
        (0, region(0x5000, 0, 12288)),
        (0, region(0x5000, 0x1000, 12287)),
    ] {
        let mut device = Device { queue_num: 256, alloc, log: vec![] };
        let (rc, state) = set_up(&mut device);
        assert_eq!(rc, EIO);
        assert!(state.is_none());
        assert_eq!(device.log.last().unwrap(), "outb c012 80");
    }
}

#[test]
fn no_device_is_no_set_up() {
    let mut setup = Setup::new();
    let mut accesses = 0;
    let rc = loop {
        match setup.action() {
            Action::ConfigRead(_) => setup = setup.advance(Reply::Value(0)),
            Action::Stop(rc) => break rc,
            _ => unreachable!(),
        }
        accesses += 1;
    };
    assert_eq!(rc, ENXIO);
    assert_eq!(accesses, 8192);
    assert!(setup.driver().is_none());
}
