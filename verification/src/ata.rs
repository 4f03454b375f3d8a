//! ATA disks on the legacy IDE controller: the IDENTIFY response, the probing
//! decisions of the bus driver, the disk state of the disk driver, the port
//! writes that start a transfer and the physical region descriptor table
//! that describes a DMA buffer.
//!
//! The port I/O itself is the caller's: the functions here decide what to
//! write and what the values read mean.
use vstd::prelude::*;
use crate::io::{Device, DeviceId, DeviceProperties, DriverError, DriverPredicate};
use crate::pci::{MassStorageControllerSubclass, PciDeviceClass};

verus! {

pub const ATA_PRIMARY_IO_PORT: u16 = 0x1F0;
pub const ATA_SECONDARY_IO_PORT: u16 = 0x170;
pub const ATA_PRIMARY_IRQ: u32 = 14;
pub const ATA_SECONDARY_IRQ: u32 = 15;

pub const ATA_SECTOR_SIZE: usize = 512;
pub const ATA_CAPABILITY_DMA_LBA: u16 = 0x200;
pub const ATA_PRD_MARK_END: u16 = 0x8000;
pub const PAGE_SIZE: usize = 4096;
/// Size of one physical region descriptor.
pub const PRD_SIZE: usize = 8;

pub const ATA_MASTER: u8 = 0;
pub const ATA_SLAVE: u8 = 1;
pub const ATA_PRIMARY: u8 = 0;
pub const ATA_SECONDARY: u8 = 1;

pub const ATA_REG_DATA: u16 = 0x0;
pub const ATA_REG_ERROR: u16 = 0x1;
pub const ATA_REG_SECCOUNT0: u16 = 0x2;
pub const ATA_REG_LBA0: u16 = 0x3;
pub const ATA_REG_LBA1: u16 = 0x4;
pub const ATA_REG_LBA2: u16 = 0x5;
pub const ATA_REG_HDDEVSEL: u16 = 0x6;
pub const ATA_REG_COMMAND: u16 = 0x7;
pub const ATA_REG_STATUS: u16 = 0x7;
pub const ATA_REG_ALTSTATUS: u16 = 0xC;

pub const ATA_SR_ERR: u8 = 0x01;
pub const ATA_SR_DRQ: u8 = 0x08;
pub const ATA_SR_BSY: u8 = 0x80;

pub const ATA_CMD_READ_PIO_EXT: u8 = 0x24;
pub const ATA_CMD_READ_DMA: u8 = 0xC8;
pub const ATA_CMD_WRITE_DMA: u8 = 0xCA;
pub const ATA_CMD_IDENTIFY: u8 = 0xEC;

/// Offset of the model number in the IDENTIFY response.
pub const IDENTIFY_MODEL_OFFSET: usize = 52;
/// Length of the model number.
pub const IDENTIFY_MODEL_LEN: usize = 40;
/// Offset of the capabilities word.
pub const IDENTIFY_CAPABILITIES_OFFSET: usize = 98;
/// Offset of the capacity in sectors.
pub const IDENTIFY_CAPACITY_OFFSET: usize = 114;

/// One byte written to an I/O port.
#[derive(Clone, Copy, PartialEq, Eq, Structural, Debug)]
pub struct PortByteWrite {
    pub port: u16,
    pub value: u8,
}

/// The little-endian 16-bit value at `i` of `s`.
pub open spec fn le16(s: Seq<u8>, i: int) -> int {
    s[i] as int + s[i + 1] as int * 256
}

/// The little-endian 32-bit value at `i` of `s`.
pub open spec fn le32(s: Seq<u8>, i: int) -> int {
    le16(s, i) + le16(s, i + 2) * 65536
}

/// The bytes of 16-bit words in memory order (little endian).
pub fn words_to_bytes(words: &[u16]) -> (r: Vec<u8>)
    requires
        words@.len() * 2 <= usize::MAX,
    ensures
        r@.len() == words@.len() * 2,
        forall|i: int| 0 <= i < words@.len() ==> #[trigger] words@[i] == le16(r@, 2 * i),
{
    let mut out: Vec<u8> = Vec::new();
    let mut i: usize = 0;
    while i < words.len()
        invariant
            i <= words@.len(),
            words@.len() * 2 <= usize::MAX,
            out@.len() == 2 * i,
            forall|j: int| 0 <= j < i ==> #[trigger] words@[j] == le16(out@, 2 * j),
        decreases words@.len() - i,
    {
        let w = words[i];
        let low = (w & 0xFF) as u8;
        let high = (w >> 8u16) as u8;
        assert(w == (w & 0xFFu16) + (w >> 8u16) * 256 && w & 0xFFu16 < 256 && w >> 8u16 < 256)
            by (bit_vector);
        let ghost before = out@;
        out.push(low);
        out.push(high);
        proof {
            assert forall|j: int| 0 <= j < i + 1 implies #[trigger] words@[j] == le16(out@, 2 * j) by {
                if j < i {
                    assert(out@[2 * j] == before[2 * j] && out@[2 * j + 1] == before[2 * j + 1]);
                }
            }
        }
        i = i + 1;
    }
    out
}

/// The fields of an IDENTIFY response that the driver uses.
#[derive(Debug)]
pub struct AtaIdentityResponse {
    /// Model number, bytes of each pair swapped back into reading order.
    pub model_number: Vec<u8>,
    /// Capabilities word.
    pub capabilities: u16,
    /// Capacity in sectors.
    pub capacity: u32,
}

impl AtaIdentityResponse {
    /// The model number from its raw form, where the two bytes of each word
    /// come swapped.
    pub fn read_model_number(raw: &[u8]) -> (r: Vec<u8>)
        requires
            raw@.len() == IDENTIFY_MODEL_LEN,
        ensures
            r@.len() == IDENTIFY_MODEL_LEN,
            forall|i: int| 0 <= i < 20 ==> #[trigger] r@[2 * i] == raw@[2 * i + 1] && r@[2 * i + 1] == raw@[2 * i],
    {
        let mut out: Vec<u8> = Vec::new();
        let mut i: usize = 0;
        while i < 20
            invariant
                i <= 20,
                raw@.len() == IDENTIFY_MODEL_LEN,
                out@.len() == 2 * i,
                forall|j: int| 0 <= j < i ==> #[trigger] out@[2 * j] == raw@[2 * j + 1] && out@[2 * j + 1] == raw@[2 * j],
            decreases 20 - i,
        {
            let higher = raw[2 * i];
            let lower = raw[2 * i + 1];
            let ghost before = out@;
            out.push(lower);
            out.push(higher);
            proof {
                assert forall|j: int| 0 <= j < i + 1 implies #[trigger] out@[2 * j] == raw@[2 * j + 1]
                    && out@[2 * j + 1] == raw@[2 * j] by {
                    if j < i {
                        assert(out@[2 * j] == before[2 * j] && out@[2 * j + 1] == before[2 * j + 1]);
                    }
                }
            }
            i = i + 1;
        }
        out
    }

    /// Parses a 512-byte IDENTIFY response.
    pub fn parse(bytes: &[u8]) -> (r: Self)
        requires
            bytes@.len() == ATA_SECTOR_SIZE,
        ensures
            r.capabilities == le16(bytes@, IDENTIFY_CAPABILITIES_OFFSET as int),
            r.capacity == le32(bytes@, IDENTIFY_CAPACITY_OFFSET as int),
            r.model_number@.len() == IDENTIFY_MODEL_LEN,
            forall|i: int| 0 <= i < IDENTIFY_MODEL_LEN ==> #[trigger] r.model_number@[i] == bytes@[
                IDENTIFY_MODEL_OFFSET + (if i % 2 == 0 { i + 1 } else { i - 1 })],
    {
        let raw = slice_range(bytes, IDENTIFY_MODEL_OFFSET, IDENTIFY_MODEL_LEN);
        let model_number = Self::read_model_number(raw.as_slice());

        let c = IDENTIFY_CAPABILITIES_OFFSET;
        let capabilities = bytes[c] as u16 + bytes[c + 1] as u16 * 256;
        let k = IDENTIFY_CAPACITY_OFFSET;
        let capacity = bytes[k] as u32 + bytes[k + 1] as u32 * 256 + bytes[k + 2] as u32 * 65536
            + bytes[k + 3] as u32 * 16777216;
        let r = AtaIdentityResponse { model_number, capabilities, capacity };
        proof {
            assert forall|i: int| 0 <= i < IDENTIFY_MODEL_LEN implies #[trigger] r.model_number@[i]
                == bytes@[IDENTIFY_MODEL_OFFSET + (if i % 2 == 0 { i + 1 } else { i - 1 })] by {
                let w = i / 2;
                assert(0 <= w < 20);
                assert(r.model_number@[2 * w] == raw@[2 * w + 1]);
                assert(r.model_number@[2 * w + 1] == raw@[2 * w]);
                if i % 2 == 0 {
                    assert(i == 2 * w);
                    assert(raw@[2 * w + 1] == bytes@[IDENTIFY_MODEL_OFFSET + 2 * w + 1]);
                } else {
                    assert(i == 2 * w + 1);
                    assert(raw@[2 * w] == bytes@[IDENTIFY_MODEL_OFFSET + 2 * w]);
                }
            }
        }
        r
    }
}

/// `len` bytes of `bytes` from `start` on.
fn slice_range(bytes: &[u8], start: usize, len: usize) -> (r: Vec<u8>)
    requires
        start + len <= bytes@.len(),
        start + len <= usize::MAX,
    ensures
        r@ == bytes@.subrange(start as int, start + len),
{
    let mut out: Vec<u8> = Vec::new();
    let mut i: usize = 0;
    while i < len
        invariant
            i <= len,
            start + len <= bytes@.len(),
            start + len <= usize::MAX,
            out@ == bytes@.subrange(start as int, start + i),
        decreases len - i,
    {
        out.push(bytes[start + i]);
        i = i + 1;
        proof {
            assert(out@ =~= bytes@.subrange(start as int, start + i));
        }
    }
    out
}

/// What probing a disk slot with IDENTIFY found.
#[derive(Debug)]
pub enum DiskProbe {
    /// The status register read 0: nothing is attached.
    NoDevice,
    /// The status reported an error: not an ATA disk (an ATAPI one, or none).
    NotAta,
    /// An ATA disk answered with this response.
    Identified(AtaIdentityResponse),
}

/// What one read of the status register during IDENTIFY means.
#[derive(Clone, Copy, PartialEq, Eq, Structural, Debug)]
pub enum IdentifyStatus {
    /// The device reported an error.
    Error,
    /// The device is ready to hand over the response.
    Ready,
    /// The device is still busy: read the status again.
    Busy,
}

/// The IDE bus driver: finds the disks behind an IDE controller.
#[derive(Clone, Copy, Debug)]
pub struct AtaBusDriver {}

impl AtaBusDriver {
    /// The first I/O port of the channel `bus`.
    pub fn io_base(bus: u8) -> (r: u16)
        requires
            bus == ATA_PRIMARY || bus == ATA_SECONDARY,
        ensures
            r == (if bus == ATA_PRIMARY {
                ATA_PRIMARY_IO_PORT
            } else {
                ATA_SECONDARY_IO_PORT
            }),
    {
        if bus == ATA_PRIMARY {
            ATA_PRIMARY_IO_PORT
        } else {
            ATA_SECONDARY_IO_PORT
        }
    }

    /// The drive-select value that IDENTIFY uses for `drive`.
    pub fn drive_select(drive: u8) -> (r: u8)
        requires
            drive == ATA_MASTER || drive == ATA_SLAVE,
        ensures
            r == (if drive == ATA_MASTER {
                0xA0u8
            } else {
                0xB0u8
            }),
    {
        if drive == ATA_MASTER {
            0xA0
        } else {
            0xB0
        }
    }

    /// The port writes that select `drive` on `bus`, clear the sector count
    /// and LBA registers and send IDENTIFY.
    pub fn identify_commands(bus: u8, drive: u8) -> (r: Vec<PortByteWrite>)
        requires
            bus == ATA_PRIMARY || bus == ATA_SECONDARY,
            drive == ATA_MASTER || drive == ATA_SLAVE,
        ensures
            r@ == seq![
                PortByteWrite { port: (Self::spec_io_base(bus) + ATA_REG_HDDEVSEL) as u16, value: if drive == ATA_MASTER { 0xA0u8 } else { 0xB0u8 } },
                PortByteWrite { port: (Self::spec_io_base(bus) + ATA_REG_SECCOUNT0) as u16, value: 0u8 },
                PortByteWrite { port: (Self::spec_io_base(bus) + ATA_REG_LBA0) as u16, value: 0u8 },
                PortByteWrite { port: (Self::spec_io_base(bus) + ATA_REG_LBA1) as u16, value: 0u8 },
                PortByteWrite { port: (Self::spec_io_base(bus) + ATA_REG_LBA2) as u16, value: 0u8 },
                PortByteWrite { port: (Self::spec_io_base(bus) + ATA_REG_COMMAND) as u16, value: ATA_CMD_IDENTIFY },
            ],
    {
        let base = Self::io_base(bus);
        let mut v: Vec<PortByteWrite> = Vec::new();
        v.push(PortByteWrite { port: base + ATA_REG_HDDEVSEL, value: Self::drive_select(drive) });
        v.push(PortByteWrite { port: base + ATA_REG_SECCOUNT0, value: 0 });
        v.push(PortByteWrite { port: base + ATA_REG_LBA0, value: 0 });
        v.push(PortByteWrite { port: base + ATA_REG_LBA1, value: 0 });
        v.push(PortByteWrite { port: base + ATA_REG_LBA2, value: 0 });
        v.push(PortByteWrite { port: base + ATA_REG_COMMAND, value: ATA_CMD_IDENTIFY });
        v
    }

    /// The first I/O port of the channel `bus`.
    pub open spec fn spec_io_base(bus: u8) -> u16 {
        if bus == ATA_PRIMARY {
            ATA_PRIMARY_IO_PORT
        } else {
            ATA_SECONDARY_IO_PORT
        }
    }

    /// What a status read during IDENTIFY means: the error bit first, then
    /// ready when not busy and data is requested.
    pub fn identify_poll(status: u8) -> (r: IdentifyStatus)
        ensures
            r == (if status & ATA_SR_ERR != 0 {
                IdentifyStatus::Error
            } else if status & ATA_SR_BSY == 0 && status & ATA_SR_DRQ != 0 {
                IdentifyStatus::Ready
            } else {
                IdentifyStatus::Busy
            }),
    {
        if status & ATA_SR_ERR != 0 {
            IdentifyStatus::Error
        } else if status & ATA_SR_BSY == 0 && status & ATA_SR_DRQ != 0 {
            IdentifyStatus::Ready
        } else {
            IdentifyStatus::Busy
        }
    }

    /// Whether the LBA registers after a failed IDENTIFY carry an ATAPI
    /// signature.
    pub fn is_atapi(lba1: u8, lba2: u8) -> (r: bool)
        ensures
            r == ((lba1 == 0x14 && lba2 == 0xEB) || (lba1 == 0x69 && lba2 == 0x96)),
    {
        (lba1 == 0x14 && lba2 == 0xEB) || (lba1 == 0x69 && lba2 == 0x96)
    }

    /// The disk device for slot `drive` of channel `bus` behind `controller`,
    /// from what probing found: only an ATA disk that supports DMA with LBA
    /// addressing is kept. It gets the id `id`, the controller's vendor,
    /// device and PCI address, and `bus` and `drive` as its inner identifier.
    pub fn check_disk(bus: u8, drive: u8, controller: &Device, probe: &DiskProbe, id: DeviceId) -> (r:
        Option<Device>)
        requires
            bus == ATA_PRIMARY || bus == ATA_SECONDARY,
            drive == ATA_MASTER || drive == ATA_SLAVE,
        ensures
            match r {
                None => !(probe matches DiskProbe::Identified(resp) && resp.capabilities
                    & ATA_CAPABILITY_DMA_LBA != 0),
                Some(d) => probe matches DiskProbe::Identified(resp) && resp.capabilities
                    & ATA_CAPABILITY_DMA_LBA != 0 && d.id == id && d.vendor_id == controller.vendor_id
                    && d.device_id == controller.device_id && d.driver is None && d.children@.len()
                    == 0 && !d.can_be_bus_controller && d.properties == (DeviceProperties::PCI {
                    address: controller.properties->address,
                    inner_identificator: (bus as u64 * 256 + drive as u64) as u64,
                }),
            },
    {
        match probe {
            DiskProbe::NoDevice => None,
            DiskProbe::NotAta => None,
            DiskProbe::Identified(resp) => {
                if resp.capabilities & ATA_CAPABILITY_DMA_LBA == 0 {
                    return None;
                }
                let address = match controller.properties {
                    DeviceProperties::PCI { address, .. } => address,
                };
                let inner = ((bus as u64) << 8u64) | (drive as u64);
                assert(((bus as u64) << 8u64) | (drive as u64) == bus as u64 * 256 + drive as u64)
                    by (bit_vector)
                    requires
                        bus < 2,
                        drive < 2,
                ;
                Some(
                    Device {
                        id,
                        vendor_id: controller.vendor_id,
                        device_id: controller.device_id,
                        driver: None,
                        children: Vec::new(),
                        properties: DeviceProperties::PCI { address, inner_identificator: inner },
                        can_be_bus_controller: false,
                    },
                )
            },
        }
    }

    /// The controllers the driver handles: IDE controllers.
    pub fn supported_devices(&self) -> (r: Result<DriverPredicate, DriverError>)
        ensures
            r == Ok::<DriverPredicate, DriverError>(
                DriverPredicate::PciClass(
                    PciDeviceClass::MassStorageController(MassStorageControllerSubclass::Ide),
                ),
            ),
    {
        Ok(
            DriverPredicate::PciClass(
                PciDeviceClass::MassStorageController(MassStorageControllerSubclass::Ide),
            ),
        )
    }

    /// The bus driver enumerates devices.
    pub fn supports_bus_capability(&self) -> (r: bool)
        ensures
            r,
    {
        true
    }
}

/// What the disk driver keeps of an attached disk.
#[derive(Clone, Copy, PartialEq, Eq, Structural, Debug)]
pub struct AtaDiskState {
    pub bus: u8,
    pub drive: u8,
    pub size_in_sectors: u32,
    pub prdt_page: u64,
    pub bar1: u32,
    pub bar3: u32,
    pub bar4: u32,
    pub dma_allowed: bool,
}

/// Where a disk sits, from the inner identifier of its device.
#[derive(Clone, Copy, PartialEq, Eq, Structural, Debug)]
pub struct DiskSlot {
    pub bus: u8,
    pub drive: u8,
}

/// The physical region descriptor: one piece of a DMA buffer.
#[derive(Clone, Copy, PartialEq, Eq, Structural, Debug)]
pub struct PhysicalRegionDescriptor {
    pub buffer_physical_address: u32,
    pub transfer_size: u16,
    pub mark_end: u16,
}

/// The sum of the transfer sizes of the first `n` descriptors.
pub open spec fn transferred(prdt: Seq<PhysicalRegionDescriptor>, n: int) -> int
    decreases n,
{
    if n <= 0 {
        0
    } else {
        transferred(prdt, n - 1) + prdt[n - 1].transfer_size
    }
}

/// The bytes that a piece starting at `address` takes: up to the end of its
/// page or of the `remaining` bytes, whichever comes first.
pub open spec fn piece_len(address: int, remaining: int) -> int {
    if remaining < PAGE_SIZE - address % (PAGE_SIZE as int) {
        remaining
    } else {
        PAGE_SIZE - address % (PAGE_SIZE as int)
    }
}

/// `prdt` describes the `length` bytes at `address`, cut at page boundaries,
/// each piece at the physical address that a call of `translate` gave for its
/// first byte, the last piece marked as the end.
pub open spec fn describes<F: Fn(u64) -> Option<u64>>(
    prdt: Seq<PhysicalRegionDescriptor>,
    address: int,
    length: int,
    translate: F,
) -> bool {
    &&& prdt.len() >= 1
    &&& transferred(prdt, prdt.len() as int) == length
    &&& forall|i: int| 0 <= i < prdt.len() ==> {
        let start = address + transferred(prdt, i);
        &&& (#[trigger] prdt[i]).transfer_size == piece_len(start, length - transferred(prdt, i))
        &&& prdt[i].mark_end == (if i == prdt.len() - 1 { ATA_PRD_MARK_END } else { 0u16 })
        &&& call_ensures(translate, (start as u64,), Some(prdt[i].buffer_physical_address as u64))
        &&& (i < prdt.len() - 1 ==> transferred(prdt, i + 1) < length)
    }
}

/// The disk driver: reads and writes sectors of attached disks.
#[derive(Clone, Copy, Debug)]
pub struct AtaDiskDriver {}

impl AtaDiskDriver {
    /// The channel and the slot of a disk from the inner identifier of its
    /// device (`bus << 8 | drive`).
    pub fn disk_slot(inner_identificator: u64) -> (r: DiskSlot)
        ensures
            r.bus == (inner_identificator / 256) % 256,
            r.drive == inner_identificator % 256,
    {
        let bus = (inner_identificator >> 8u64) as u8;
        let drive = inner_identificator as u8;
        proof {
            crate::bits::lemma_u64_fields(inner_identificator);
        }
        DiskSlot { bus, drive }
    }

    /// The bus-master base port from BAR4: the BAR must be an I/O space BAR
    /// (bit 0 set), else attaching fails; its flag bits are cut off.
    pub fn bus_master_base(bar4: u32) -> (r: Result<u32, DriverError>)
        ensures
            bar4 & 1 != 1 ==> r == Err::<u32, DriverError>(DriverError::AttachFailed),
            bar4 & 1 == 1 ==> r == Ok::<u32, DriverError>(bar4 & 0xfffc),
    {
        if bar4 & 1 != 1 {
            return Err(DriverError::AttachFailed);
        }
        Ok(bar4 & 0xfffc)
    }

    /// The state of a disk attached in `slot`, with its capacity, its page for
    /// the descriptor table (which DMA needs below 4 GiB) and its BARs.
    pub fn disk_state(
        slot: DiskSlot,
        size_in_sectors: u32,
        prdt_page: u64,
        bar1: u32,
        bar3: u32,
        bar4: u32,
        dma_allowed: bool,
    ) -> (r: AtaDiskState)
        requires
            prdt_page <= u32::MAX,
        ensures
            r == (AtaDiskState {
                bus: slot.bus,
                drive: slot.drive,
                size_in_sectors,
                prdt_page,
                bar1,
                bar3,
                bar4,
                dma_allowed,
            }),
    {
        AtaDiskState { bus: slot.bus, drive: slot.drive, size_in_sectors, prdt_page, bar1, bar3, bar4, dma_allowed }
    }

    /// The first I/O port of the disk's channel.
    pub fn get_io_base(state: &AtaDiskState) -> (r: u16)
        requires
            state.bus == ATA_PRIMARY || state.bus == ATA_SECONDARY,
        ensures
            r == AtaBusDriver::spec_io_base(state.bus),
    {
        AtaBusDriver::io_base(state.bus)
    }

    /// The drive-select value for transfers: LBA mode with the disk's slot.
    pub fn select_drive_value(state: &AtaDiskState) -> (r: u8)
        requires
            state.drive < 2,
        ensures
            r == 0x40 + state.drive * 16,
    {
        let d = state.drive;
        assert(d < 2 ==> 0x40u8 | (d << 4u8) == 0x40 + d * 16) by (bit_vector);
        0x40 | (d << 4u8)
    }

    /// The alternate status port that waiting reads: BAR1 + 2 on the primary
    /// channel, BAR3 + 2 on the secondary one, from the channel's base.
    pub fn io_wait_port(state: &AtaDiskState) -> (r: u16)
        requires
            state.bus == ATA_PRIMARY || state.bus == ATA_SECONDARY,
            AtaBusDriver::spec_io_base(state.bus) + (if state.bus == ATA_PRIMARY {
                state.bar1 as u16
            } else {
                state.bar3 as u16
            }) + 2 <= u16::MAX,
        ensures
            r == AtaBusDriver::spec_io_base(state.bus) + (if state.bus == ATA_PRIMARY {
                state.bar1 as u16
            } else {
                state.bar3 as u16
            }) + 2,
    {
        let base = Self::get_io_base(state);
        if state.bus == ATA_PRIMARY {
            base + state.bar1 as u16 + 2
        } else {
            base + state.bar3 as u16 + 2
        }
    }

    /// Whether a status read shows the transfer done: not busy, data ready.
    pub fn transfer_done(status: u8) -> (r: bool)
        ensures
            r == (status & ATA_SR_BSY == 0 && status & ATA_SR_DRQ != 0),
    {
        status & ATA_SR_BSY == 0 && status & ATA_SR_DRQ != 0
    }

    /// The port writes of a one-sector transfer of `block_id` with the 28-bit
    /// LBA registers: sector count 1 and the three low bytes of the address.
    pub fn lba28_commands(io_base: u16, block_id: u64) -> (r: Vec<PortByteWrite>)
        requires
            io_base + ATA_REG_LBA2 <= u16::MAX,
        ensures
            r@ == seq![
                PortByteWrite { port: (io_base + ATA_REG_SECCOUNT0) as u16, value: 1u8 },
                PortByteWrite { port: (io_base + ATA_REG_LBA0) as u16, value: (block_id % 256) as u8 },
                PortByteWrite { port: (io_base + ATA_REG_LBA1) as u16, value: ((block_id / 256) % 256) as u8 },
                PortByteWrite { port: (io_base + ATA_REG_LBA2) as u16, value: ((block_id / 65536) % 256) as u8 },
            ],
    {
        proof {
            crate::bits::lemma_u64_fields(block_id);
        }
        let mut v: Vec<PortByteWrite> = Vec::new();
        v.push(PortByteWrite { port: io_base + ATA_REG_SECCOUNT0, value: 1 });
        v.push(PortByteWrite { port: io_base + ATA_REG_LBA0, value: block_id as u8 });
        v.push(PortByteWrite { port: io_base + ATA_REG_LBA1, value: (block_id >> 8u64) as u8 });
        v.push(PortByteWrite { port: io_base + ATA_REG_LBA2, value: (block_id >> 16u64) as u8 });
        v
    }

    /// The port writes, after the drive is selected, that read `block_id` with
    /// programmed I/O: the high bytes of the 48-bit address with a zero count,
    /// then a count of 1 and the low bytes (each written to the LBA0 register,
    /// as the driver does), then READ PIO EXT.
    pub fn pio_read_commands(io_base: u16, block_id: u64) -> (r: Vec<PortByteWrite>)
        requires
            io_base + ATA_REG_COMMAND <= u16::MAX,
        ensures
            r@ == seq![
                PortByteWrite { port: (io_base + ATA_REG_SECCOUNT0) as u16, value: 0u8 },
                PortByteWrite { port: (io_base + ATA_REG_LBA0) as u16, value: ((block_id / 0x100_0000) % 256) as u8 },
                PortByteWrite { port: (io_base + ATA_REG_LBA1) as u16, value: ((block_id / 0x1_0000_0000) % 256) as u8 },
                PortByteWrite { port: (io_base + ATA_REG_LBA2) as u16, value: ((block_id / 0x100_0000_0000) % 256) as u8 },
                PortByteWrite { port: (io_base + ATA_REG_SECCOUNT0) as u16, value: 1u8 },
                PortByteWrite { port: (io_base + ATA_REG_LBA0) as u16, value: (block_id % 256) as u8 },
                PortByteWrite { port: (io_base + ATA_REG_LBA0) as u16, value: ((block_id / 256) % 256) as u8 },
                PortByteWrite { port: (io_base + ATA_REG_LBA0) as u16, value: ((block_id / 65536) % 256) as u8 },
                PortByteWrite { port: (io_base + ATA_REG_COMMAND) as u16, value: ATA_CMD_READ_PIO_EXT },
            ],
    {
        proof {
            crate::bits::lemma_u64_fields(block_id);
        }
        let mut v: Vec<PortByteWrite> = Vec::new();
        v.push(PortByteWrite { port: io_base + ATA_REG_SECCOUNT0, value: 0 });
        v.push(PortByteWrite { port: io_base + ATA_REG_LBA0, value: (block_id >> 24u64) as u8 });
        v.push(PortByteWrite { port: io_base + ATA_REG_LBA1, value: (block_id >> 32u64) as u8 });
        v.push(PortByteWrite { port: io_base + ATA_REG_LBA2, value: (block_id >> 40u64) as u8 });
        v.push(PortByteWrite { port: io_base + ATA_REG_SECCOUNT0, value: 1 });
        v.push(PortByteWrite { port: io_base + ATA_REG_LBA0, value: block_id as u8 });
        v.push(PortByteWrite { port: io_base + ATA_REG_LBA0, value: (block_id >> 8u64) as u8 });
        v.push(PortByteWrite { port: io_base + ATA_REG_LBA0, value: (block_id >> 16u64) as u8 });
        v.push(PortByteWrite { port: io_base + ATA_REG_COMMAND, value: ATA_CMD_READ_PIO_EXT });
        v
    }

    /// The bus-master command, status and descriptor-table ports from BAR4.
    pub fn bus_master_ports(state: &AtaDiskState) -> (r: (u16, u16, u16))
        requires
            (state.bar4 as u16) + 4 <= u16::MAX,
        ensures
            r == ((state.bar4 as u16), ((state.bar4 as u16) + 2) as u16, ((state.bar4 as u16) + 4) as u16),
    {
        let command = state.bar4 as u16;
        (command, command + 2, command + 4)
    }

    /// The status register value that clears the interrupt and error bits (a
    /// write of 1 clears them).
    pub fn cleared_bus_master_status(status: u8) -> (r: u8)
        ensures
            r == status | 0x6,
    {
        status | 0x6
    }

    /// The sector size of the disks.
    pub fn block_size(&self) -> (r: u64)
        ensures
            r == ATA_SECTOR_SIZE,
    {
        ATA_SECTOR_SIZE as u64
    }

    /// The disk driver handles block devices.
    pub fn supports_block_capabilities(&self) -> (r: bool)
        ensures
            r,
    {
        true
    }

    /// The devices the driver handles: disks behind IDE controllers.
    pub fn supported_devices(&self) -> (r: Result<DriverPredicate, DriverError>)
        ensures
            r == Ok::<DriverPredicate, DriverError>(
                DriverPredicate::PciClass(
                    PciDeviceClass::MassStorageController(MassStorageControllerSubclass::Ide),
                ),
            ),
    {
        Ok(
            DriverPredicate::PciClass(
                PciDeviceClass::MassStorageController(MassStorageControllerSubclass::Ide),
            ),
        )
    }

    /// The physical region descriptor table for the `buffer_len` bytes at the
    /// virtual address `buffer_address`, which hold `sector_count` sectors.
    /// The buffer is cut at page boundaries; `translate` maps the first byte
    /// of each piece to its physical address. `None` when a translation fails
    /// or lies above 4 GiB, where DMA cannot reach.
    pub fn prepare_prdt<F: Fn(u64) -> Option<u64>>(
        buffer_address: usize,
        buffer_len: usize,
        sector_count: usize,
        translate: &F,
    ) -> (r: Option<Vec<PhysicalRegionDescriptor>>)
        requires
            sector_count * PRD_SIZE < PAGE_SIZE,
            buffer_len == sector_count * ATA_SECTOR_SIZE,
            buffer_address + buffer_len <= u64::MAX,
            buffer_address + buffer_len <= usize::MAX,
            forall|a: u64| call_requires(*translate, (a,)),
        ensures
            match r {
                Some(prdt) => describes(prdt@, buffer_address as int, buffer_len as int, *translate),
                None => exists|a: u64, res: Option<u64>|
                    call_ensures(*translate, (a,), res) && (res is None || res->0 > u32::MAX),
            },
    {
        let mut prdt: Vec<PhysicalRegionDescriptor> = Vec::new();
        let mut address: usize = buffer_address;
        let mut offset_within_page: usize = address % PAGE_SIZE;
        let mut remaining_length: usize = buffer_len;
        loop
            invariant
                buffer_address + buffer_len <= u64::MAX,
                buffer_address + buffer_len <= usize::MAX,
                forall|a: u64| call_requires(*translate, (a,)),
                address == buffer_address + transferred(prdt@, prdt@.len() as int),
                remaining_length == buffer_len - transferred(prdt@, prdt@.len() as int),
                offset_within_page == address % PAGE_SIZE,
                forall|i: int| 0 <= i < prdt@.len() ==> {
                    let start = buffer_address + transferred(prdt@, i);
                    &&& (#[trigger] prdt@[i]).transfer_size == piece_len(start, buffer_len - transferred(prdt@, i))
                    &&& prdt@[i].mark_end == 0
                    &&& call_ensures(*translate, (start as u64,), Some(prdt@[i].buffer_physical_address as u64))
                    &&& transferred(prdt@, i + 1) < buffer_len
                },
            decreases remaining_length,
        {
            let physical = match translate(address as u64) {
                None => return None,
                Some(p) => p,
            };
            if physical > u32::MAX as u64 {
                return None;
            }
            let room = PAGE_SIZE - offset_within_page;
            let to_transfer = if remaining_length < room {
                remaining_length
            } else {
                room
            };
            let ghost before = prdt@;
            let ghost start = address;
            prdt.push(
                PhysicalRegionDescriptor {
                    buffer_physical_address: physical as u32,
                    transfer_size: to_transfer as u16,
                    mark_end: 0,
                },
            );
            proof {
                assert(prdt@.drop_last() =~= before);
                Self::lemma_transferred_prefix(before, prdt@);
            }
            address = address + to_transfer;
            offset_within_page = address % PAGE_SIZE;
            remaining_length = remaining_length - to_transfer;
            if remaining_length == 0 {
                let n = prdt.len() - 1;
                let last = prdt[n];
                prdt.set(n, PhysicalRegionDescriptor { mark_end: ATA_PRD_MARK_END, ..last });
                proof {
                    Self::lemma_transferred_same_sizes(prdt@, before.push(last), prdt@.len() as int);
                    assert forall|i: int| 0 <= i < prdt@.len() implies {
                        let st = buffer_address + transferred(prdt@, i);
                        &&& (#[trigger] prdt@[i]).transfer_size == piece_len(st, buffer_len - transferred(prdt@, i))
                        &&& prdt@[i].mark_end == (if i == prdt@.len() - 1 { ATA_PRD_MARK_END } else { 0u16 })
                        &&& call_ensures(*translate, (st as u64,), Some(prdt@[i].buffer_physical_address as u64))
                        &&& (i < prdt@.len() - 1 ==> transferred(prdt@, i + 1) < buffer_len)
                    } by {
                        Self::lemma_transferred_same_sizes(prdt@, before.push(last), i);
                        Self::lemma_transferred_same_sizes(prdt@, before.push(last), i + 1);
                    }
                }
                return Some(prdt);
            }
            proof {
                assert(to_transfer > 0);
            }
        }
    }

    /// Appending a descriptor adds its size to the total and keeps the totals
    /// of the earlier prefixes.
    proof fn lemma_transferred_prefix(before: Seq<PhysicalRegionDescriptor>, after: Seq<PhysicalRegionDescriptor>)
        requires
            after.len() == before.len() + 1,
            forall|i: int| 0 <= i < before.len() ==> after[i] == before[i],
        ensures
            forall|i: int| 0 <= i <= before.len() ==> #[trigger] transferred(after, i) == transferred(before, i),
            transferred(after, after.len() as int) == transferred(before, before.len() as int)
                + after[before.len() as int].transfer_size,
    {
        assert forall|i: int| 0 <= i <= before.len() implies #[trigger] transferred(after, i) == transferred(before, i) by {
            Self::lemma_transferred_agree(after, before, i);
        }
        assert(transferred(after, before.len() as int) == transferred(before, before.len() as int));
        assert(transferred(after, after.len() as int) == transferred(after, before.len() as int)
            + after[before.len() as int].transfer_size);
    }

    /// Two tables whose first `n` sizes agree transfer the same in them.
    proof fn lemma_transferred_agree(a: Seq<PhysicalRegionDescriptor>, b: Seq<PhysicalRegionDescriptor>, n: int)
        requires
            0 <= n <= a.len(),
            n <= b.len(),
            forall|i: int| 0 <= i < n ==> a[i].transfer_size == b[i].transfer_size,
        ensures
            transferred(a, n) == transferred(b, n),
        decreases n,
    {
        if n > 0 {
            Self::lemma_transferred_agree(a, b, n - 1);
        }
    }

    /// Two tables of one length whose sizes agree transfer the same in every
    /// prefix up to `n`.
    proof fn lemma_transferred_same_sizes(a: Seq<PhysicalRegionDescriptor>, b: Seq<PhysicalRegionDescriptor>, n: int)
        requires
            a.len() == b.len(),
            0 <= n <= a.len(),
            forall|i: int| 0 <= i < a.len() ==> a[i].transfer_size == b[i].transfer_size,
        ensures
            transferred(a, n) == transferred(b, n),
    {
        Self::lemma_transferred_agree(a, b, n);
    }
}

} // verus!
