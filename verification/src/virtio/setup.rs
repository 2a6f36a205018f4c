//! Bringing the device up: which registers are read and written, in which order,
//! and what is made of the answers.

use vstd::prelude::*;
use crate::abi::{McxDmaRegion, EIO, ENXIO};
use crate::virtio::pci::{
    config_address, config_address_of, half_replaced, replace_half, Location, Scan, ScanStep,
};
use crate::virtio::ring::{ring_dma_bytes, ring_size, DriverState};

verus! {

pub const PCI_COMMAND_OFFSET: u8 = 0x04;
pub const PCI_COMMAND_IO: u16 = 1;
pub const PCI_COMMAND_BUS_MASTER: u16 = 4;
pub const VIRTIO_PCI_GUEST_FEATURES: u16 = 0x04;
pub const VIRTIO_PCI_QUEUE_PFN: u16 = 0x08;
pub const VIRTIO_PCI_QUEUE_NUM: u16 = 0x0c;
pub const VIRTIO_PCI_QUEUE_SEL: u16 = 0x0e;
pub const VIRTIO_PCI_QUEUE_NOTIFY: u16 = 0x10;
pub const VIRTIO_PCI_STATUS: u16 = 0x12;
pub const VIRTIO_PCI_ISR: u16 = 0x13;
pub const VIRTIO_PCI_DEVICE_SPECIFIC: u16 = 0x14;
pub const VIRTIO_PCI_GUEST_PAGE_SIZE: u16 = 0x28;
pub const VIRTIO_STATUS_ACKNOWLEDGE: u8 = 1;
pub const VIRTIO_STATUS_DRIVER: u8 = 2;
pub const VIRTIO_STATUS_DRIVER_OK: u8 = 4;
pub const VIRTIO_STATUS_FAILED: u8 = 128;

/// An access that the set-up asks for.
pub enum Action {
    /// Read the configuration register that a word selects.
    ConfigRead(u32),
    /// Write a value to the configuration register that a word selects.
    ConfigWrite(u32, u32),
    Outb(u16, u8),
    Outw(u16, u16),
    Outl(u16, u32),
    Inw(u16),
    Inl(u16),
    /// Allocate shared memory of a size and an alignment.
    AllocDma(usize, usize),
    /// Nothing more; the set-up came to this code.
    Stop(i32),
}

/// The answer to an access.
pub enum Reply {
    /// A write was made.
    Written,
    /// What was read.
    Value(u32),
    /// The code that an allocation gave, and the memory.
    Region(i32, McxDmaRegion),
}

/// How far the set-up has come.
#[derive(Clone, Copy)]
pub enum Stage {
    Search(Scan),
    NoDevice,
    ReadCommand,
    ReadCommandAgain,
    WriteCommand(u32),
    Reset,
    Acknowledge,
    PageSize,
    Features,
    SelectQueue,
    QueueSize,
    Allocate,
    QueueAddress,
    DriverOk,
    CapacityLow,
    CapacityHigh(u32),
    Ready(u64),
    Fail,
    Failed,
}

/// A set-up under way.
#[derive(Clone, Copy)]
pub struct Setup {
    pub stage: Stage,
    pub location: Location,
    pub command: u16,
    pub queue_size: u16,
    pub dma: McxDmaRegion,
}

/// The port of a register of the device.
pub open spec fn port(location: Location, register: u16) -> u16 {
    ((location.io_base + register) % 0x1_0000) as u16
}

/// Whether an allocation gave what was asked for.
pub open spec fn is_allocated(rc: i32, region: McxDmaRegion, size: int) -> bool {
    rc == 0 && region.virt != 0 && region.phys != 0 && region.len >= size
}

/// The value that a reply stands for.
pub open spec fn reply_value(reply: Reply) -> u32 {
    match reply {
        Reply::Value(v) => v,
        _ => 0,
    }
}

impl Setup {
    /// Whether what the set-up has learnt so far is good enough for it to have
    /// come this far.
    pub open spec fn wf(self) -> bool {
        let queue = self.queue_size >= 3;
        let memory = is_allocated(0, self.dma, ring_size(self.queue_size));
        match self.stage {
            Stage::Search(scan) => scan.wf(),
            Stage::Allocate => queue,
            Stage::QueueAddress | Stage::DriverOk | Stage::CapacityLow => queue && memory,
            Stage::CapacityHigh(_) | Stage::Ready(_) => queue && memory,
            _ => true,
        }
    }

    /// The word that selects the command register of the device.
    pub open spec fn command_address(self) -> u32 {
        config_address_of(
            self.location.bus,
            self.location.device,
            self.location.func,
            PCI_COMMAND_OFFSET,
        )
    }

    /// The access to make next.
    pub open spec fn wanted(self) -> Action {
        let at = self.location;
        match self.stage {
            Stage::Search(scan) => Action::ConfigRead(
                config_address_of(scan.bus, scan.device, 0, scan.offset()),
            ),
            Stage::NoDevice => Action::Stop(ENXIO),
            Stage::ReadCommand | Stage::ReadCommandAgain => Action::ConfigRead(
                self.command_address(),
            ),
            Stage::WriteCommand(word) => Action::ConfigWrite(self.command_address(), word),
            Stage::Reset => Action::Outb(port(at, VIRTIO_PCI_STATUS), 0),
            Stage::Acknowledge => Action::Outb(
                port(at, VIRTIO_PCI_STATUS),
                VIRTIO_STATUS_ACKNOWLEDGE | VIRTIO_STATUS_DRIVER,
            ),
            Stage::PageSize => Action::Outl(port(at, VIRTIO_PCI_GUEST_PAGE_SIZE), 4096),
            Stage::Features => Action::Outl(port(at, VIRTIO_PCI_GUEST_FEATURES), 0),
            Stage::SelectQueue => Action::Outw(port(at, VIRTIO_PCI_QUEUE_SEL), 0),
            Stage::QueueSize => Action::Inw(port(at, VIRTIO_PCI_QUEUE_NUM)),
            Stage::Allocate => Action::AllocDma(ring_size(self.queue_size) as usize, 4096),
            Stage::QueueAddress => Action::Outl(
                port(at, VIRTIO_PCI_QUEUE_PFN),
                ((self.dma.phys / 4096) % 0x1_0000_0000) as u32,
            ),
            Stage::DriverOk => Action::Outb(
                port(at, VIRTIO_PCI_STATUS),
                VIRTIO_STATUS_ACKNOWLEDGE | VIRTIO_STATUS_DRIVER | VIRTIO_STATUS_DRIVER_OK,
            ),
            Stage::CapacityLow => Action::Inl(port(at, VIRTIO_PCI_DEVICE_SPECIFIC)),
            Stage::CapacityHigh(_) => Action::Inl(
                port(at, (VIRTIO_PCI_DEVICE_SPECIFIC + 4) as u16),
            ),
            Stage::Ready(_) => Action::Stop(0),
            Stage::Fail => Action::Outb(port(at, VIRTIO_PCI_STATUS), VIRTIO_STATUS_FAILED),
            Stage::Failed => Action::Stop(EIO),
        }
    }

    /// The set-up after the access was answered.
    pub open spec fn advanced(self, reply: Reply) -> Setup {
        let value = reply_value(reply);
        match self.stage {
            Stage::Search(scan) => match scan.stepped(value) {
                ScanStep::More(next) => Setup { stage: Stage::Search(next), ..self },
                ScanStep::Found(location) => Setup { stage: Stage::ReadCommand, location, ..self },
                ScanStep::NotFound => Setup { stage: Stage::NoDevice, ..self },
            },
            Stage::ReadCommand => Setup {
                stage: Stage::ReadCommandAgain,
                command: (value % 0x1_0000) as u16,
                ..self
            },
            Stage::ReadCommandAgain => Setup {
                stage: Stage::WriteCommand(
                    half_replaced(
                        value,
                        PCI_COMMAND_OFFSET,
                        self.command | PCI_COMMAND_IO | PCI_COMMAND_BUS_MASTER,
                    ),
                ),
                ..self
            },
            Stage::WriteCommand(_) => Setup { stage: Stage::Reset, ..self },
            Stage::Reset => Setup { stage: Stage::Acknowledge, ..self },
            Stage::Acknowledge => Setup { stage: Stage::PageSize, ..self },
            Stage::PageSize => Setup { stage: Stage::Features, ..self },
            Stage::Features => Setup { stage: Stage::SelectQueue, ..self },
            Stage::SelectQueue => Setup { stage: Stage::QueueSize, ..self },
            Stage::QueueSize => Setup {
                stage: if value % 0x1_0000 < 3 {
                    Stage::Fail
                } else {
                    Stage::Allocate
                },
                queue_size: (value % 0x1_0000) as u16,
                ..self
            },
            Stage::Allocate => match reply {
                Reply::Region(rc, region) => if is_allocated(
                    rc,
                    region,
                    ring_size(self.queue_size),
                ) {
                    Setup { stage: Stage::QueueAddress, dma: region, ..self }
                } else {
                    Setup { stage: Stage::Fail, ..self }
                },
                _ => Setup { stage: Stage::Fail, ..self },
            },
            Stage::QueueAddress => Setup { stage: Stage::DriverOk, ..self },
            Stage::DriverOk => Setup { stage: Stage::CapacityLow, ..self },
            Stage::CapacityLow => Setup { stage: Stage::CapacityHigh(value), ..self },
            Stage::CapacityHigh(low) => Setup {
                stage: Stage::Ready((low + 0x1_0000_0000 * value) as u64),
                ..self
            },
            Stage::Fail => Setup { stage: Stage::Failed, ..self },
            Stage::NoDevice | Stage::Ready(_) | Stage::Failed => self,
        }
    }

    /// The device that was set up.
    pub open spec fn outcome(self) -> Option<DriverState> {
        match self.stage {
            Stage::Ready(capacity_sectors) => Some(
                DriverState {
                    io_base: self.location.io_base,
                    capacity_sectors,
                    dma: self.dma,
                    queue_size: self.queue_size,
                },
            ),
            _ => None,
        }
    }

    /// A bound on the accesses that can follow.
    pub open spec fn left(self) -> int {
        match self.stage {
            Stage::Search(scan) => 100 + 2 * (8192 - scan.position()) - (if scan.identified {
                1int
            } else {
                0
            }),
            Stage::ReadCommand => 20,
            Stage::ReadCommandAgain => 19,
            Stage::WriteCommand(_) => 18,
            Stage::Reset => 17,
            Stage::Acknowledge => 16,
            Stage::PageSize => 15,
            Stage::Features => 14,
            Stage::SelectQueue => 13,
            Stage::QueueSize => 12,
            Stage::Allocate => 11,
            Stage::QueueAddress => 10,
            Stage::DriverOk => 9,
            Stage::CapacityLow => 8,
            Stage::CapacityHigh(_) => 7,
            Stage::Fail => 1,
            Stage::NoDevice | Stage::Ready(_) | Stage::Failed => 0,
        }
    }

    /// The start of a set-up: the search begins at the first device of the first
    /// bus, and nothing is known yet.
    pub fn new() -> (s: Self)
        ensures
            s.wf(),
            s.stage == Stage::Search(Scan { bus: 0, device: 0, identified: false }),
            s.location == (Location { bus: 0, device: 0, func: 0, io_base: 0 }),
            s.command == 0,
            s.queue_size == 0,
            s.dma == (McxDmaRegion { virt: 0, phys: 0, len: 0 }),
    {
        Setup {
            stage: Stage::Search(Scan::new()),
            location: Location { bus: 0, device: 0, func: 0, io_base: 0 },
            command: 0,
            queue_size: 0,
            dma: McxDmaRegion { virt: 0, phys: 0, len: 0 },
        }
    }

    /// The port of a register of the device.
    fn port_of(&self, register: u16) -> (p: u16)
        ensures
            p == port(self.location, register),
    {
        self.location.io_base.wrapping_add(register)
    }

    /// The word that selects the command register of the device.
    fn command_word(&self) -> (address: u32)
        ensures
            address == self.command_address(),
    {
        config_address(
            self.location.bus,
            self.location.device,
            self.location.func,
            PCI_COMMAND_OFFSET,
        )
    }

    /// The access to make next.
    pub fn action(&self) -> (a: Action)
        requires
            self.wf(),
        ensures
            a == self.wanted(),
    {
        match self.stage {
            Stage::Search(scan) => Action::ConfigRead(scan.address()),
            Stage::NoDevice => Action::Stop(ENXIO),
            Stage::ReadCommand => Action::ConfigRead(self.command_word()),
            Stage::ReadCommandAgain => Action::ConfigRead(self.command_word()),
            Stage::WriteCommand(word) => Action::ConfigWrite(self.command_word(), word),
            Stage::Reset => Action::Outb(self.port_of(VIRTIO_PCI_STATUS), 0),
            Stage::Acknowledge => Action::Outb(
                self.port_of(VIRTIO_PCI_STATUS),
                VIRTIO_STATUS_ACKNOWLEDGE | VIRTIO_STATUS_DRIVER,
            ),
            Stage::PageSize => Action::Outl(self.port_of(VIRTIO_PCI_GUEST_PAGE_SIZE), 4096),
            Stage::Features => Action::Outl(self.port_of(VIRTIO_PCI_GUEST_FEATURES), 0),
            Stage::SelectQueue => Action::Outw(self.port_of(VIRTIO_PCI_QUEUE_SEL), 0),
            Stage::QueueSize => Action::Inw(self.port_of(VIRTIO_PCI_QUEUE_NUM)),
            Stage::Allocate => Action::AllocDma(ring_dma_bytes(self.queue_size), 4096),
            Stage::QueueAddress => Action::Outl(
                self.port_of(VIRTIO_PCI_QUEUE_PFN),
                ((self.dma.phys / 4096) % 0x1_0000_0000) as u32,
            ),
            Stage::DriverOk => Action::Outb(
                self.port_of(VIRTIO_PCI_STATUS),
                VIRTIO_STATUS_ACKNOWLEDGE | VIRTIO_STATUS_DRIVER | VIRTIO_STATUS_DRIVER_OK,
            ),
            Stage::CapacityLow => Action::Inl(self.port_of(VIRTIO_PCI_DEVICE_SPECIFIC)),
            Stage::CapacityHigh(_) => Action::Inl(self.port_of(VIRTIO_PCI_DEVICE_SPECIFIC + 4)),
            Stage::Ready(_) => Action::Stop(0),
            Stage::Fail => Action::Outb(self.port_of(VIRTIO_PCI_STATUS), VIRTIO_STATUS_FAILED),
            Stage::Failed => Action::Stop(EIO),
        }
    }

    /// The set-up at another stage.
    fn at(self, stage: Stage) -> (s: Setup)
        ensures
            s == (Setup { stage, ..self }),
    {
        Setup {
            stage,
            location: self.location,
            command: self.command,
            queue_size: self.queue_size,
            dma: self.dma,
        }
    }

    /// Goes on with the answer to the access.
    pub fn advance(self, reply: Reply) -> (next: Setup)
        requires
            self.wf(),
        ensures
            next == self.advanced(reply),
            next.wf(),
    {
        let value: u32 = match &reply {
            Reply::Value(v) => *v,
            _ => 0,
        };
        let mut next = self;
        match self.stage {
            Stage::Search(scan) => match scan.step(value) {
                ScanStep::More(scan) => self.at(Stage::Search(scan)),
                ScanStep::Found(location) => {
                    next.location = location;
                    next.at(Stage::ReadCommand)
                },
                ScanStep::NotFound => self.at(Stage::NoDevice),
            },
            Stage::ReadCommand => {
                next.command = (value % 0x1_0000) as u16;
                next.at(Stage::ReadCommandAgain)
            },
            Stage::ReadCommandAgain => self.at(
                Stage::WriteCommand(
                    replace_half(
                        value,
                        PCI_COMMAND_OFFSET,
                        self.command | PCI_COMMAND_IO | PCI_COMMAND_BUS_MASTER,
                    ),
                ),
            ),
            Stage::WriteCommand(_) => self.at(Stage::Reset),
            Stage::Reset => self.at(Stage::Acknowledge),
            Stage::Acknowledge => self.at(Stage::PageSize),
            Stage::PageSize => self.at(Stage::Features),
            Stage::Features => self.at(Stage::SelectQueue),
            Stage::SelectQueue => self.at(Stage::QueueSize),
            Stage::QueueSize => {
                next.queue_size = (value % 0x1_0000) as u16;
                if next.queue_size < 3 {
                    next.at(Stage::Fail)
                } else {
                    next.at(Stage::Allocate)
                }
            },
            Stage::Allocate => {
                let size: usize = ring_dma_bytes(self.queue_size);
                match reply {
                    Reply::Region(rc, region) => {
                        if rc != 0 || region.virt == 0 || region.phys == 0 || region.len < size {
                            self.at(Stage::Fail)
                        } else {
                            next.dma = region;
                            next.at(Stage::QueueAddress)
                        }
                    },
                    _ => self.at(Stage::Fail),
                }
            },
            Stage::QueueAddress => self.at(Stage::DriverOk),
            Stage::DriverOk => self.at(Stage::CapacityLow),
            Stage::CapacityLow => self.at(Stage::CapacityHigh(value)),
            Stage::CapacityHigh(low) => self.at(
                Stage::Ready(low as u64 + 0x1_0000_0000 * (value as u64)),
            ),
            Stage::Fail => self.at(Stage::Failed),
            Stage::NoDevice => self,
            Stage::Ready(_) => self,
            Stage::Failed => self,
        }
    }

    /// The device that was set up.
    pub fn driver(&self) -> (d: Option<DriverState>)
        requires
            self.wf(),
        ensures
            d == self.outcome(),
            d is Some ==> d->Some_0.wf(),
    {
        match self.stage {
            Stage::Ready(capacity_sectors) => Some(
                DriverState {
                    io_base: self.location.io_base,
                    capacity_sectors,
                    dma: self.dma,
                    queue_size: self.queue_size,
                },
            ),
            _ => None,
        }
    }
}

/// Whatever is answered, a set-up that has not stopped comes nearer to its end,
/// and one that has stopped stays as it is. It stops with 0 exactly where it has
/// a device to show.
pub proof fn law_setup_ends(s: Setup, reply: Reply)
    requires
        s.wf(),
    ensures
        s.left() >= 0,
        s.wanted() is Stop <==> s.left() == 0,
        s.wanted() is Stop ==> s.advanced(reply) == s,
        s.wanted() !is Stop ==> s.advanced(reply).left() < s.left(),
        s.wanted() is Stop ==> (s.wanted() == Action::Stop(0) <==> s.outcome() is Some),
{
}

/// The device is told that the driver is ready only after it was told where the
/// queue lies, and after the queue was found large enough and memory was found
/// for it.
pub proof fn law_ready_after_queue(s: Setup, reply: Reply)
    requires
        s.wf(),
        s.advanced(reply).stage == Stage::DriverOk,
    ensures
        s.stage == Stage::QueueAddress,
        s.queue_size >= 3,
        s.dma.len >= ring_size(s.queue_size),
        s.wanted() == Action::Outl(
            port(s.location, VIRTIO_PCI_QUEUE_PFN),
            ((s.dma.phys / 4096) % 0x1_0000_0000) as u32,
        ),
{
}

} // verus!
