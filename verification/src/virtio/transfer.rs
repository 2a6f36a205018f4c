//! Reading one sector: which accesses are made to the shared memory and to the
//! device, in which order, and what is made of the answers.

use vstd::prelude::*;
use crate::abi::EIO;
use crate::virtio::request::{
    wait_step, waited, ReadRequest, VirtioBlkReq, VirtqDesc, Wait, SPIN_LIMIT,
};
use crate::virtio::ring::{
    avail_at, data_at, law_ring_parts, req_at, ring_size, status_at, used_at, DriverState,
};
use crate::virtio::setup::{VIRTIO_PCI_ISR, VIRTIO_PCI_QUEUE_NOTIFY};

verus! {

/// An access that a transfer asks for. Offsets are into the shared memory.
pub enum Access {
    ReadU8(usize),
    ReadU16(usize),
    ReadU32(usize),
    WriteU8(usize, u8),
    WriteU16(usize, u16),
    WriteReq(usize, VirtioBlkReq),
    WriteDesc(usize, VirtqDesc),
    /// Let no later access be seen before an earlier one.
    Fence,
    Outw(u16, u16),
    Inb(u16),
    /// Copy the 512 bytes at an offset to where they are wanted.
    Deliver(usize),
    /// Nothing more; the transfer came to this end.
    Stop(Outcome),
}

/// What a transfer comes to.
#[derive(Clone, Copy, PartialEq, Eq, Debug)]
pub enum Outcome {
    /// The sector was read.
    Read,
    /// The device did not answer.
    TimedOut,
    /// The device answered a request that starts with another descriptor.
    Misdirected(u32),
    /// The device could not read the sector.
    Refused,
}

/// How far a transfer has come.
#[derive(Clone, Copy)]
pub enum Step {
    UsedIndex,
    AvailIndex,
    Request,
    Unanswered,
    Head,
    Data,
    Status,
    Slot,
    BeforeIndex,
    Index,
    BeforeNotice,
    Notice,
    /// The device is at work; so many times it was asked.
    Poll(u32),
    BeforeAnswer,
    Acknowledge,
    Answer,
    Verdict,
    Delivery,
    End(Outcome),
}

/// A transfer under way.
#[derive(Clone, Copy)]
pub struct Transfer {
    pub driver: DriverState,
    pub sector: u64,
    pub step: Step,
    /// The index of the used ring at the start.
    pub used_idx: u16,
    /// The index of the available ring at the start.
    pub avail_idx: u16,
}

/// The port of a register of the device.
pub open spec fn register_port(driver: DriverState, register: u16) -> u16 {
    ((driver.io_base + register) % 0x1_0000) as u16
}

/// The code that a transfer gives for what it came to.
pub open spec fn outcome_code(outcome: Outcome) -> i32 {
    match outcome {
        Outcome::Read => 0,
        _ => EIO,
    }
}

/// Where an access to the shared memory starts and how many bytes it takes. Other
/// accesses take none.
pub open spec fn footprint(access: Access) -> (int, int) {
    match access {
        Access::ReadU8(at) | Access::WriteU8(at, _) => (at as int, 1),
        Access::ReadU16(at) | Access::WriteU16(at, _) => (at as int, 2),
        Access::ReadU32(at) => (at as int, 4),
        Access::WriteReq(at, _) => (at as int, 16),
        Access::WriteDesc(at, _) => (at as int, 16),
        Access::Deliver(at) => (at as int, 512),
        _ => (0, 0),
    }
}

impl Outcome {
    /// The code that a transfer gives for what it came to.
    pub fn code(self) -> (rc: i32)
        ensures
            rc == outcome_code(self),
    {
        match self {
            Outcome::Read => 0,
            _ => EIO,
        }
    }
}

impl Transfer {
    /// Whether the device is set up and was not asked too often.
    pub open spec fn wf(self) -> bool {
        &&& self.driver.wf()
        &&& self.step matches Step::Poll(spins) ==> spins < SPIN_LIMIT
    }

    /// What is put in the shared memory.
    pub open spec fn request(self) -> ReadRequest {
        self.driver.read_request(self.sector, self.used_idx, self.avail_idx)
    }

    /// The access to make next.
    pub open spec fn wanted(self) -> Access {
        let q = self.driver.queue_size;
        let r = self.request();
        match self.step {
            Step::UsedIndex | Step::Poll(_) => Access::ReadU16((used_at(q) + 2) as usize),
            Step::AvailIndex => Access::ReadU16((avail_at(q) + 2) as usize),
            Step::Request => Access::WriteReq(req_at(q) as usize, r.req),
            Step::Unanswered => Access::WriteU8(status_at(q) as usize, 0xff),
            Step::Head => Access::WriteDesc(0, r.head),
            Step::Data => Access::WriteDesc(16, r.data),
            Step::Status => Access::WriteDesc(32, r.status),
            Step::Slot => Access::WriteU16((avail_at(q) + 4 + 2 * r.avail_slot) as usize, 0),
            Step::BeforeIndex | Step::BeforeNotice | Step::BeforeAnswer => Access::Fence,
            Step::Index => Access::WriteU16((avail_at(q) + 2) as usize, r.avail_next),
            Step::Notice => Access::Outw(register_port(self.driver, VIRTIO_PCI_QUEUE_NOTIFY), 0),
            Step::Acknowledge => Access::Inb(register_port(self.driver, VIRTIO_PCI_ISR)),
            Step::Answer => Access::ReadU32((used_at(q) + 4 + 8 * r.used_slot) as usize),
            Step::Verdict => Access::ReadU8(status_at(q) as usize),
            Step::Delivery => Access::Deliver(data_at(q) as usize),
            Step::End(outcome) => Access::Stop(outcome),
        }
    }

    /// The step after the access was answered with `value`. For an access that
    /// answers nothing, any value does.
    pub open spec fn following(self, value: u32) -> Step {
        match self.step {
            Step::UsedIndex => Step::AvailIndex,
            Step::AvailIndex => Step::Request,
            Step::Request => Step::Unanswered,
            Step::Unanswered => Step::Head,
            Step::Head => Step::Data,
            Step::Data => Step::Status,
            Step::Status => Step::Slot,
            Step::Slot => Step::BeforeIndex,
            Step::BeforeIndex => Step::Index,
            Step::Index => Step::BeforeNotice,
            Step::BeforeNotice => Step::Notice,
            Step::Notice => Step::Poll(0),
            Step::Poll(spins) => match waited(spins, self.used_idx, (value % 0x1_0000) as u16) {
                Wait::Done => Step::BeforeAnswer,
                Wait::Again(n) => Step::Poll(n),
                Wait::TimedOut => Step::End(Outcome::TimedOut),
            },
            Step::BeforeAnswer => Step::Acknowledge,
            Step::Acknowledge => Step::Answer,
            Step::Answer => if value == 0 {
                Step::Verdict
            } else {
                Step::End(Outcome::Misdirected(value))
            },
            Step::Verdict => if value % 0x100 == 0 {
                Step::Delivery
            } else {
                Step::End(Outcome::Refused)
            },
            Step::Delivery => Step::End(Outcome::Read),
            Step::End(outcome) => Step::End(outcome),
        }
    }

    /// The transfer after the access was answered with `value`.
    pub open spec fn advanced(self, value: u32) -> Self {
        let index = (value % 0x1_0000) as u16;
        Transfer {
            step: self.following(value),
            used_idx: if self.step is UsedIndex {
                index
            } else {
                self.used_idx
            },
            avail_idx: if self.step is AvailIndex {
                index
            } else {
                self.avail_idx
            },
            ..self
        }
    }

    /// The transfer after `n` accesses, the `k`th of which was answered with
    /// `values(k)`.
    pub open spec fn after(self, values: spec_fn(nat) -> u32, n: nat) -> Self
        decreases n,
    {
        if n == 0 {
            self
        } else {
            self.after(values, (n - 1) as nat).advanced(values((n - 1) as nat))
        }
    }

    /// A bound on the accesses that can follow.
    pub open spec fn left(self) -> int {
        let poll: int = SPIN_LIMIT + 10;
        match self.step {
            Step::UsedIndex => poll + 12,
            Step::AvailIndex => poll + 11,
            Step::Request => poll + 10,
            Step::Unanswered => poll + 9,
            Step::Head => poll + 8,
            Step::Data => poll + 7,
            Step::Status => poll + 6,
            Step::Slot => poll + 5,
            Step::BeforeIndex => poll + 4,
            Step::Index => poll + 3,
            Step::BeforeNotice => poll + 2,
            Step::Notice => poll + 1,
            Step::Poll(spins) => poll - spins,
            Step::BeforeAnswer => 5,
            Step::Acknowledge => 4,
            Step::Answer => 3,
            Step::Verdict => 2,
            Step::Delivery => 1,
            Step::End(_) => 0,
        }
    }

    /// The start of a transfer.
    pub fn new(driver: DriverState, sector: u64) -> (t: Self)
        requires
            driver.wf(),
        ensures
            t.wf(),
            t.driver == driver,
            t.sector == sector,
            t.step == Step::UsedIndex,
    {
        Transfer { driver, sector, step: Step::UsedIndex, used_idx: 0, avail_idx: 0 }
    }

    /// The access to make next.
    pub fn access(&self) -> (a: Access)
        requires
            self.wf(),
        ensures
            a == self.wanted(),
    {
        let d = self.driver;
        let r = d.submit_read(self.sector, self.used_idx, self.avail_idx);
        proof {
            law_ring_parts(d.queue_size);
        }
        match self.step {
            Step::UsedIndex => Access::ReadU16(d.used_ptr() + 2),
            Step::Poll(_) => Access::ReadU16(d.used_ptr() + 2),
            Step::AvailIndex => Access::ReadU16(d.avail_ptr() + 2),
            Step::Request => Access::WriteReq(d.req_ptr(), r.req),
            Step::Unanswered => Access::WriteU8(d.status_ptr(), 0xff),
            Step::Head => Access::WriteDesc(d.desc_ptr(), r.head),
            Step::Data => Access::WriteDesc(d.desc_ptr() + 16, r.data),
            Step::Status => Access::WriteDesc(d.desc_ptr() + 32, r.status),
            Step::Slot => Access::WriteU16(d.avail_ring_ptr() + 2 * r.avail_slot, 0),
            Step::BeforeIndex => Access::Fence,
            Step::BeforeNotice => Access::Fence,
            Step::BeforeAnswer => Access::Fence,
            Step::Index => Access::WriteU16(d.avail_ptr() + 2, r.avail_next),
            Step::Notice => Access::Outw(d.io_base.wrapping_add(VIRTIO_PCI_QUEUE_NOTIFY), 0),
            Step::Acknowledge => Access::Inb(d.io_base.wrapping_add(VIRTIO_PCI_ISR)),
            Step::Answer => Access::ReadU32(d.used_ring_ptr() + 8 * r.used_slot),
            Step::Verdict => Access::ReadU8(d.status_ptr()),
            Step::Delivery => Access::Deliver(d.data_ptr()),
            Step::End(outcome) => Access::Stop(outcome),
        }
    }

    /// Goes on with the answer to the access. For an access that answers nothing,
    /// any value does.
    pub fn advance(self, value: u32) -> (next: Self)
        requires
            self.wf(),
        ensures
            next == self.advanced(value),
            next.wf(),
    {
        let index: u16 = (value % 0x1_0000) as u16;
        let mut next = self;
        next.step = match self.step {
            Step::UsedIndex => {
                next.used_idx = index;
                Step::AvailIndex
            },
            Step::AvailIndex => {
                next.avail_idx = index;
                Step::Request
            },
            Step::Request => Step::Unanswered,
            Step::Unanswered => Step::Head,
            Step::Head => Step::Data,
            Step::Data => Step::Status,
            Step::Status => Step::Slot,
            Step::Slot => Step::BeforeIndex,
            Step::BeforeIndex => Step::Index,
            Step::Index => Step::BeforeNotice,
            Step::BeforeNotice => Step::Notice,
            Step::Notice => Step::Poll(0),
            Step::Poll(spins) => match wait_step(spins, self.used_idx, index) {
                Wait::Done => Step::BeforeAnswer,
                Wait::Again(n) => Step::Poll(n),
                Wait::TimedOut => Step::End(Outcome::TimedOut),
            },
            Step::BeforeAnswer => Step::Acknowledge,
            Step::Acknowledge => Step::Answer,
            Step::Answer => if value == 0 {
                Step::Verdict
            } else {
                Step::End(Outcome::Misdirected(value))
            },
            Step::Verdict => if value % 0x100 == 0 {
                Step::Delivery
            } else {
                Step::End(Outcome::Refused)
            },
            Step::Delivery => Step::End(Outcome::Read),
            Step::End(outcome) => Step::End(outcome),
        };
        next
    }
}

/// Whatever is answered, a transfer that has not stopped comes nearer to its end,
/// and one that has stopped stays as it is.
pub proof fn law_transfer_ends(t: Transfer, value: u32)
    requires
        t.wf(),
    ensures
        t.left() >= 0,
        t.wanted() is Stop <==> t.left() == 0,
        t.wanted() is Stop ==> t.advanced(value) == t,
        t.wanted() !is Stop ==> t.advanced(value).left() < t.left(),
{
}

/// The offsets of a queue are aligned where its parts are.
proof fn lemma_aligned(avail: int, used: int, req: int, avail_slot: int, used_slot: int)
    requires
        avail % 16 == 0,
        used % 4096 == 0,
        req % 16 == 0,
    ensures
        (avail + 2) % 2 == 0,
        (avail + 4 + 2 * avail_slot) % 2 == 0,
        (used + 2) % 2 == 0,
        (used + 4 + 8 * used_slot) % 4 == 0,
{
}

/// Every access to the shared memory lies in it, at an offset that is a multiple
/// of what the accessed value is aligned to: at most 16, and 1 for the bytes that
/// are delivered.
pub proof fn law_access_in_memory(t: Transfer)
    requires
        t.wf(),
    ensures
        ({
            let (at, n) = footprint(t.wanted());
            &&& 0 <= at
            &&& at + n <= ring_size(t.driver.queue_size) <= t.driver.dma.len
            &&& 0 < n <= 16 ==> at % n == 0
        }),
{
    let q = t.driver.queue_size;
    law_ring_parts(q);
    let avail_slot = t.request().avail_slot as int;
    let used_slot = t.request().used_slot as int;
    assert(0 <= avail_slot < q && 0 <= used_slot < q);
    lemma_aligned(avail_at(q), used_at(q), req_at(q), avail_slot, used_slot);
    match t.step {
        Step::Slot => {
            assert(footprint(t.wanted()) == (avail_at(q) + 4 + 2 * avail_slot, 2int));
        },
        Step::Answer => {
            assert(footprint(t.wanted()) == (used_at(q) + 4 + 8 * used_slot, 4int));
        },
        _ => {},
    }
}

/// The device is notified of a request only when everything else is in place:
/// the header, the status that stands for no answer, the three descriptors, the
/// slot and, behind a fence, the index of the available ring. Nothing that is
/// answered up to then matters but the two indices that are read first.
pub proof fn law_notified_last(t: Transfer, values: spec_fn(nat) -> u32)
    requires
        t.wf(),
        t.step == Step::UsedIndex,
    ensures
        ({
            let q = t.driver.queue_size;
            let used_idx = (values(0) % 0x1_0000) as u16;
            let avail_idx = (values(1) % 0x1_0000) as u16;
            let r = t.driver.read_request(t.sector, used_idx, avail_idx);
            &&& t.after(values, 0).wanted() == Access::ReadU16((used_at(q) + 2) as usize)
            &&& t.after(values, 1).wanted() == Access::ReadU16((avail_at(q) + 2) as usize)
            &&& t.after(values, 2).wanted() == Access::WriteReq(req_at(q) as usize, r.req)
            &&& t.after(values, 3).wanted() == Access::WriteU8(status_at(q) as usize, 0xff)
            &&& t.after(values, 4).wanted() == Access::WriteDesc(0, r.head)
            &&& t.after(values, 5).wanted() == Access::WriteDesc(16, r.data)
            &&& t.after(values, 6).wanted() == Access::WriteDesc(32, r.status)
            &&& t.after(values, 7).wanted() == Access::WriteU16(
                (avail_at(q) + 4 + 2 * r.avail_slot) as usize,
                0,
            )
            &&& t.after(values, 8).wanted() == Access::Fence
            &&& t.after(values, 9).wanted() == Access::WriteU16(
                (avail_at(q) + 2) as usize,
                r.avail_next,
            )
            &&& t.after(values, 10).wanted() == Access::Fence
            &&& t.after(values, 11).wanted() == Access::Outw(
                register_port(t.driver, VIRTIO_PCI_QUEUE_NOTIFY),
                0,
            )
            &&& t.after(values, 12).step == Step::Poll(0)
            &&& t.after(values, 12).used_idx == used_idx
        }),
{
    reveal_with_fuel(Transfer::after, 13);
}

/// A sector counts as read only after the device has moved the index of the used
/// ring, has answered the request that was made, and has given the status 0; what
/// was read is delivered then and only then.
pub proof fn law_read_is_answered(t: Transfer, value: u32)
    ensures
        t.advanced(value).step == Step::End(Outcome::Read) && t.step !is End ==> t.wanted()
            == Access::Deliver(data_at(t.driver.queue_size) as usize),
        t.advanced(value).step is Delivery ==> t.wanted() == Access::ReadU8(
            status_at(t.driver.queue_size) as usize,
        ) && value % 0x100 == 0,
        t.advanced(value).step is Verdict ==> t.wanted() == Access::ReadU32(
            (used_at(t.driver.queue_size) + 4 + 8 * t.request().used_slot) as usize,
        ) && value == 0,
        t.advanced(value).step is Answer ==> t.step is Acknowledge,
        t.advanced(value).step is Acknowledge ==> t.wanted() == Access::Fence
            && t.step is BeforeAnswer,
        t.advanced(value).step is BeforeAnswer ==> t.wanted() == Access::ReadU16(
            (used_at(t.driver.queue_size) + 2) as usize,
        ) && value % 0x1_0000 != t.used_idx,
{
}

} // verus!
