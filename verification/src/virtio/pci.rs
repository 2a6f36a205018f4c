//! The PCI configuration space and the search for the device in it.

use vstd::prelude::*;

verus! {

pub const PCI_CONFIG_ADDR: u16 = 0x0cf8;
pub const PCI_CONFIG_DATA: u16 = 0x0cfc;
pub const PCI_VENDOR_VIRTIO: u16 = 0x1af4;
pub const PCI_DEVICE_VIRTIO_BLK_LEGACY: u16 = 0x1001;
pub const PCI_BAR0_OFFSET: u8 = 0x10;

/// The word to select a register of the configuration space with.
pub open spec fn config_address_of(bus: u8, device: u8, func: u8, offset: u8) -> u32 {
    0x8000_0000u32 | ((bus as u32) << 16) | ((device as u32) << 11) | ((func as u32) << 8) | ((
    offset as u32) & 0xfc)
}

/// A 32-bit register with the 16-bit half that `offset` lies in replaced.
pub open spec fn half_replaced(current: u32, offset: u8, value: u16) -> u32 {
    if (offset / 2) % 2 == 0 {
        (current - current % 0x1_0000 + value) as u32
    } else {
        (current % 0x1_0000 + 0x1_0000 * value) as u32
    }
}

/// The word to select a register of the configuration space with.
pub fn config_address(bus: u8, device: u8, func: u8, offset: u8) -> (address: u32)
    ensures
        address == config_address_of(bus, device, func, offset),
{
    0x8000_0000u32 | ((bus as u32) << 16) | ((device as u32) << 11) | ((func as u32) << 8) | ((
    offset as u32) & 0xfc)
}

/// A register is selected by the enable bit, its bus, device and function, and
/// its offset rounded down to a multiple of 4. Different registers of different
/// functions have different words.
pub proof fn law_config_address(bus: u8, device: u8, func: u8, offset: u8)
    requires
        device < 32,
        func < 8,
    ensures
        config_address_of(bus, device, func, offset) == 0x8000_0000 + 0x1_0000 * bus + 0x800
            * device + 0x100 * func + (offset - offset % 4),
{
    let a = config_address_of(bus, device, func, offset);
    assert(a == 0x8000_0000u32 + 0x1_0000u32 * bus + 0x800u32 * device + 0x100u32 * func + (offset
        - offset % 4)) by (bit_vector)
        requires
            a == 0x8000_0000u32 | ((bus as u32) << 16) | ((device as u32) << 11) | ((func as u32)
                << 8) | ((offset as u32) & 0xfc),
            device < 32,
            func < 8,
    ;
}

/// A 32-bit register with the 16-bit half that `offset` lies in replaced.
pub fn replace_half(current: u32, offset: u8, value: u16) -> (word: u32)
    ensures
        word == half_replaced(current, offset, value),
{
    let shift: u32 = ((offset & 0x2) as u32) * 8;
    assert(offset & 2 == (if (offset / 2) % 2 == 0 {
        0u8
    } else {
        2u8
    })) by (bit_vector);
    let word: u32 = (current & !(0xffffu32 << shift)) | ((value as u32) << shift);
    proof {
        assert(shift == 0 ==> word == current - current % 0x1_0000 + value) by (bit_vector)
            requires
                word == (current & !(0xffffu32 << shift)) | ((value as u32) << shift),
        ;
        assert(shift == 16 ==> word == current % 0x1_0000 + 0x1_0000 * value) by (bit_vector)
            requires
                word == (current & !(0xffffu32 << shift)) | ((value as u32) << shift),
        ;
    }
    word
}

/// Storing half a register keeps the other half and reads back.
pub proof fn law_half_replaced(current: u32, offset: u8, value: u16)
    ensures
        ({
            let word = half_replaced(current, offset, value);
            if (offset / 2) % 2 == 0 {
                word % 0x1_0000 == value && word / 0x1_0000 == current / 0x1_0000
            } else {
                word / 0x1_0000 == value && word % 0x1_0000 == current % 0x1_0000
            }
        }),
{
}

/// Where a device was found, and where its registers lie in the port space.
#[derive(Clone, Copy)]
pub struct Location {
    pub bus: u8,
    pub device: u8,
    pub func: u8,
    pub io_base: u16,
}

/// A search for the device over all buses: where it is, and whether it has seen
/// the right identifier there and is now about to look at the base address.
#[derive(Clone, Copy)]
pub struct Scan {
    pub bus: u8,
    pub device: u8,
    pub identified: bool,
}

/// What comes of one step of the search.
pub enum ScanStep {
    More(Scan),
    Found(Location),
    NotFound,
}

/// Whether an identifier is that of the device.
pub open spec fn is_virtio_blk(vendor_device: u32) -> bool {
    vendor_device % 0x1_0000 == PCI_VENDOR_VIRTIO && vendor_device / 0x1_0000
        == PCI_DEVICE_VIRTIO_BLK_LEGACY
}

/// The port that a base address register names.
pub open spec fn io_base_of(bar0: u32) -> u16 {
    ((bar0 - bar0 % 4) % 0x1_0000) as u16
}

impl Scan {
    /// Whether the search is at a device that a bus can have.
    pub open spec fn wf(self) -> bool {
        self.device < 32
    }

    /// How many devices lie before this one.
    pub open spec fn position(self) -> int {
        32 * self.bus + self.device
    }

    /// The offset of the register that is to be read.
    pub open spec fn offset(self) -> u8 {
        if self.identified {
            PCI_BAR0_OFFSET
        } else {
            0
        }
    }

    /// The search at the next device.
    pub open spec fn past(self) -> ScanStep {
        if self.device < 31 {
            ScanStep::More(
                Scan { bus: self.bus, device: (self.device + 1) as u8, identified: false },
            )
        } else if self.bus < 255 {
            ScanStep::More(Scan { bus: (self.bus + 1) as u8, device: 0, identified: false })
        } else {
            ScanStep::NotFound
        }
    }

    /// The search after the register was read as `value`.
    pub open spec fn stepped(self, value: u32) -> ScanStep {
        if !self.identified && is_virtio_blk(value) {
            ScanStep::More(Scan { bus: self.bus, device: self.device, identified: true })
        } else if self.identified && value % 2 == 1 {
            ScanStep::Found(
                Location {
                    bus: self.bus,
                    device: self.device,
                    func: 0,
                    io_base: io_base_of(value),
                },
            )
        } else {
            self.past()
        }
    }

    /// The start of a search.
    pub fn new() -> (s: Self)
        ensures
            s == (Scan { bus: 0, device: 0, identified: false }),
            s.wf(),
    {
        Scan { bus: 0, device: 0, identified: false }
    }

    /// The word that selects the register to read next.
    pub fn address(&self) -> (address: u32)
        ensures
            address == config_address_of(self.bus, self.device, 0, self.offset()),
    {
        let offset: u8 = if self.identified {
            PCI_BAR0_OFFSET
        } else {
            0
        };
        config_address(self.bus, self.device, 0, offset)
    }

    /// Goes on with what was read.
    pub fn step(self, value: u32) -> (next: ScanStep)
        requires
            self.wf(),
        ensures
            next == self.stepped(value),
            next matches ScanStep::More(s) ==> s.wf(),
    {
        if !self.identified {
            let vendor: u16 = (value % 0x1_0000) as u16;
            let dev: u16 = (value / 0x1_0000) as u16;
            if vendor == PCI_VENDOR_VIRTIO && dev == PCI_DEVICE_VIRTIO_BLK_LEGACY {
                return ScanStep::More(
                    Scan { bus: self.bus, device: self.device, identified: true },
                );
            }
        } else if value % 2 == 1 {
            let io_base: u16 = ((value - value % 4) % 0x1_0000) as u16;
            return ScanStep::Found(
                Location { bus: self.bus, device: self.device, func: 0, io_base },
            );
        }
        if self.device < 31 {
            ScanStep::More(Scan { bus: self.bus, device: self.device + 1, identified: false })
        } else if self.bus < 255 {
            ScanStep::More(Scan { bus: self.bus + 1, device: 0, identified: false })
        } else {
            ScanStep::NotFound
        }
    }
}

/// What the registers of function 0 of each device hold: by bus, device and
/// offset.
pub type ConfigSpace = spec_fn(u8, u8, u8) -> u32;

/// The first device from a position on that has the right identifier and a base
/// address in the port space.
pub open spec fn first_device(space: ConfigSpace, position: int) -> Option<Location>
    decreases 8192 - position,
{
    if position >= 8192 {
        None
    } else {
        let bus = (position / 32) as u8;
        let device = (position % 32) as u8;
        let bar0 = space(bus, device, PCI_BAR0_OFFSET);
        if is_virtio_blk(space(bus, device, 0)) && bar0 % 2 == 1 {
            Some(Location { bus, device, func: 0, io_base: io_base_of(bar0) })
        } else {
            first_device(space, position + 1)
        }
    }
}

/// What a search finds in a configuration space that does not change.
pub open spec fn finds(space: ConfigSpace, scan: Scan) -> Option<Location> {
    let bar0 = space(scan.bus, scan.device, PCI_BAR0_OFFSET);
    if !scan.identified {
        first_device(space, scan.position())
    } else if bar0 % 2 == 1 {
        Some(
            Location {
                bus: scan.bus,
                device: scan.device,
                func: 0,
                io_base: io_base_of(bar0),
            },
        )
    } else {
        first_device(space, scan.position() + 1)
    }
}

/// In a configuration space that does not change, a search that starts at the
/// first device finds the first match, since each step finds what the search
/// after it finds. Each step brings the search nearer to its end.
pub proof fn law_scan_finds_first(space: ConfigSpace, scan: Scan)
    requires
        scan.wf(),
    ensures
        finds(space, Scan { bus: 0, device: 0, identified: false }) == first_device(space, 0),
        match scan.stepped(space(scan.bus, scan.device, scan.offset())) {
            ScanStep::More(next) => {
                &&& finds(space, scan) == finds(space, next)
                &&& scan.position() < next.position() || (scan.position() == next.position()
                    && !scan.identified && next.identified)
            },
            ScanStep::Found(location) => finds(space, scan) == Some(location),
            ScanStep::NotFound => finds(space, scan) is None,
        },
{
    assert(scan.position() / 32 == scan.bus && scan.position() % 32 == scan.device);
    if scan.device == 31 && scan.bus == 255 {
        assert(first_device(space, 8192) is None);
    }
}

} // verus!
