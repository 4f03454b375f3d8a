//! PCI configuration space: address encoding, register decoding, the class
//! code table and the brute-force bus scan.
//!
//! Port I/O stays with the caller: the functions here compute the
//! configuration addresses to write and decode the words read back.
use vstd::prelude::*;

verus! {

/// I/O port that selects a configuration register.
pub const CONFIG_ADDRESS: u16 = 0xCF8;

/// I/O port through which the selected register is read or written.
pub const CONFIG_DATA: u16 = 0xCFC;

/// Offset of the first base address register.
pub const BAR_START: u32 = 0x10;

/// Offset of the command register.
pub const COMMAND_REGISTER: u32 = 0x4;

/// Offset of the register that holds the interrupt line and pin.
pub const INTERRUPT_REGISTER: u32 = 0x3C;

/// Vendor id that an empty slot answers with.
pub const NO_DEVICE_VENDOR: u16 = 0xFFFF;

/// A 32-bit write to an I/O port.
#[derive(Debug, Clone, Copy, PartialEq, Eq, Structural)]
pub struct PortWrite {
    pub port: u16,
    pub value: u32,
}

/// The configuration address that selects `offset` of `bus:device.function`.
pub open spec fn spec_config_address(bus: u32, device: u32, function: u32, offset: u32) -> u32 {
    (bus << 16u32) | (device << 11u32) | (function << 8u32) | (offset & 0xFCu32) | 0x8000_0000u32
}

/// Shift that brings the addressed half of a configuration dword down.
pub open spec fn half_shift(offset: u32) -> u32 {
    ((offset & 2u32) * 8) as u32
}

/// `half_shift(offset)`, which is 0 or 16.
fn shift_for(offset: u32) -> (s: u32)
    ensures
        s == half_shift(offset),
        s == 0 || s == 16,
{
    let half = offset & 2;
    assert(half == 0 || half == 2) by (bit_vector)
        requires half == offset & 2u32;
    half * 8
}

pub struct Pci {}

impl Pci {
    /// The value to write to `CONFIG_ADDRESS` to select `offset` of
    /// `bus:device.function`.
    pub fn config_address(bus: u32, device: u32, function: u32, offset: u32) -> (a: u32)
        ensures
            a == spec_config_address(bus, device, function, offset),
            a & 0x8000_0000u32 != 0,
            a & 3u32 == 0,
            a & 0xFCu32 == offset & 0xFCu32,
            bus < 256 && device < 32 && function < 8 ==> {
                &&& (a >> 16u32) & 0xFFu32 == bus
                &&& (a >> 11u32) & 0x1Fu32 == device
                &&& (a >> 8u32) & 0x7u32 == function
            },
    {
        let a = (bus << 16) | (device << 11) | (function << 8) | (offset & 0xFC) | 0x8000_0000;
        assert(a & 0x8000_0000u32 != 0) by (bit_vector)
            requires a == (bus << 16u32) | (device << 11u32) | (function << 8u32) | (offset & 0xFCu32) | 0x8000_0000u32;
        assert(a & 3u32 == 0 && a & 0xFCu32 == offset & 0xFCu32) by (bit_vector)
            requires a == (bus << 16u32) | (device << 11u32) | (function << 8u32) | (offset & 0xFCu32) | 0x8000_0000u32;
        assert(bus < 256 && device < 32 && function < 8 ==> {
            &&& (a >> 16u32) & 0xFFu32 == bus
            &&& (a >> 11u32) & 0x1Fu32 == device
            &&& (a >> 8u32) & 0x7u32 == function
        }) by (bit_vector)
            requires a == (bus << 16u32) | (device << 11u32) | (function << 8u32) | (offset & 0xFCu32) | 0x8000_0000u32;
        a
    }

    /// The port writes that select a register of `bus:device.function`,
    /// then store `value` in it.
    fn config_write(bus: u32, device: u32, function: u32, offset: u32, value: u32) -> (w: (PortWrite, PortWrite))
        ensures
            w.0 == (PortWrite { port: CONFIG_ADDRESS, value: spec_config_address(bus, device, function, offset) }),
            w.1 == (PortWrite { port: CONFIG_DATA, value: value }),
    {
        let address = Pci::config_address(bus, device, function, offset);
        (PortWrite { port: CONFIG_ADDRESS, value: address }, PortWrite { port: CONFIG_DATA, value })
    }

    /// The byte that an 8-bit read at `offset` yields from the dword
    /// `config_data` read from `CONFIG_DATA`.
    pub fn read_u8(config_data: u32, offset: u32) -> (b: u8)
        ensures
            b == (config_data >> half_shift(offset)) & 0xFFu32,
    {
        let shift = shift_for(offset);
        let v = (config_data >> shift) & 0xFF;
        proof {
            crate::bits::lemma_u32_fields(config_data >> shift);
        }
        v as u8
    }

    /// The word that a 16-bit read at `offset` yields from the dword
    /// `config_data` read from `CONFIG_DATA`.
    pub fn read_u16(config_data: u32, offset: u32) -> (w: u16)
        ensures
            w == (config_data >> half_shift(offset)) & 0xFFFFu32,
    {
        let shift = shift_for(offset);
        let v = (config_data >> shift) & 0xFFFF;
        proof {
            crate::bits::lemma_u32_fields(config_data >> shift);
        }
        v as u16
    }

    /// The value that a 32-bit read at `offset` yields from the dword
    /// `config_data` read from `CONFIG_DATA`.
    pub fn read_u32(config_data: u32, offset: u32) -> (d: u32)
        ensures
            d == config_data >> half_shift(offset),
    {
        config_data >> shift_for(offset)
    }

    /// The port writes of an 8-bit configuration write: the register
    /// address, then `value` widened to a dword.
    pub fn write_u8(bus: u32, device: u32, function: u32, offset: u32, value: u8) -> (w: (PortWrite, PortWrite))
        ensures
            w.0 == (PortWrite { port: CONFIG_ADDRESS, value: spec_config_address(bus, device, function, offset) }),
            w.1 == (PortWrite { port: CONFIG_DATA, value: value as u32 }),
    {
        Pci::config_write(bus, device, function, offset, value as u32)
    }

    /// The port writes of a 16-bit configuration write: the register
    /// address, then `value` widened to a dword.
    pub fn write_u16(bus: u32, device: u32, function: u32, offset: u32, value: u16) -> (w: (PortWrite, PortWrite))
        ensures
            w.0 == (PortWrite { port: CONFIG_ADDRESS, value: spec_config_address(bus, device, function, offset) }),
            w.1 == (PortWrite { port: CONFIG_DATA, value: value as u32 }),
    {
        Pci::config_write(bus, device, function, offset, value as u32)
    }

    /// The port writes of a 32-bit configuration write: the register
    /// address, then `value`.
    pub fn write_u32(bus: u32, device: u32, function: u32, offset: u32, value: u32) -> (w: (PortWrite, PortWrite))
        ensures
            w.0 == (PortWrite { port: CONFIG_ADDRESS, value: spec_config_address(bus, device, function, offset) }),
            w.1 == (PortWrite { port: CONFIG_DATA, value: value }),
    {
        Pci::config_write(bus, device, function, offset, value)
    }

    /// The device found at `bus:device.function`, from the vendor id, the
    /// device id and the class word (offset 10) read there: `None` for an
    /// empty slot.
    pub fn scan_device(
        bus: u32,
        device: u32,
        function: u32,
        vendor_id: u16,
        device_id: u16,
        class_word: u16,
    ) -> (d: Option<PciDevice>)
        requires
            vendor_id != NO_DEVICE_VENDOR ==> spec_parse(
                (class_word >> 8u16) as u32,
                (class_word & 0xFu16) as u32,
            ) is Some,
        ensures
            vendor_id == NO_DEVICE_VENDOR <==> d is None,
            d matches Some(dev) ==> {
                &&& dev.bus == bus
                &&& dev.device == device
                &&& dev.function == function
                &&& dev.vendor_id == vendor_id
                &&& dev.device_id == device_id
                &&& Some(dev.class) == spec_parse(
                    (class_word >> 8u16) as u32,
                    (class_word & 0xFu16) as u32,
                )
            },
    {
        if vendor_id == NO_DEVICE_VENDOR {
            return None;
        }
        let class_code = class_word >> 8;
        let subclass_code = class_word & 0xF;
        let class = PciDeviceClass::parse(class_code as u32, subclass_code as u32);
        Some(PciDevice { bus, device, function, vendor_id, device_id, class })
    }

    /// Probes every `bus:device.function` in order (bus, then device, then
    /// function) with `scan` and returns the devices found, in that order.
    pub fn perform_brute_force_scan<F: Fn(u32, u32, u32) -> Option<PciDevice>>(scan: &F) -> (devices: Vec<PciDevice>)
        requires
            forall|b: u32, d: u32, f: u32| b < 256 && d < 32 && f < 8 ==> call_requires(*scan, (b, d, f)),
        ensures
            exists|outcomes: Seq<Option<PciDevice>>|
                #![trigger present_devices(outcomes)]
                {
                    &&& outcomes.len() == SCAN_SLOTS
                    &&& forall|i: int| 0 <= i < SCAN_SLOTS ==> call_ensures(*scan, scan_slot(i), #[trigger] outcomes[i])
                    &&& devices@ == present_devices(outcomes)
                },
    {
        let mut devices: Vec<PciDevice> = Vec::new();
        let ghost mut outcomes: Seq<Option<PciDevice>> = Seq::empty();
        let mut i: u32 = 0;
        while i < SCAN_SLOTS
            invariant
                i <= SCAN_SLOTS,
                outcomes.len() == i,
                forall|b: u32, d: u32, f: u32| b < 256 && d < 32 && f < 8 ==> call_requires(*scan, (b, d, f)),
                forall|j: int| 0 <= j < i ==> call_ensures(*scan, scan_slot(j), #[trigger] outcomes[j]),
                devices@ == present_devices(outcomes),
            decreases SCAN_SLOTS - i,
        {
            let bus = i / 256;
            let device = (i / 8) % 32;
            let function = i % 8;
            let found = scan(bus, device, function);
            proof {
                assert(scan_slot(i as int) == (bus, device, function));
                assert(outcomes.push(found).drop_last() =~= outcomes);
                outcomes = outcomes.push(found);
            }
            match found {
                Some(dev) => devices.push(dev),
                None => {},
            }
            i = i + 1;
        }
        devices
    }

    /// All PCI devices present, found by a brute-force scan through `scan`.
    pub fn build_device_tree<F: Fn(u32, u32, u32) -> Option<PciDevice>>(scan: &F) -> (devices: Vec<PciDevice>)
        requires
            forall|b: u32, d: u32, f: u32| b < 256 && d < 32 && f < 8 ==> call_requires(*scan, (b, d, f)),
        ensures
            exists|outcomes: Seq<Option<PciDevice>>|
                #![trigger present_devices(outcomes)]
                {
                    &&& outcomes.len() == SCAN_SLOTS
                    &&& forall|i: int| 0 <= i < SCAN_SLOTS ==> call_ensures(*scan, scan_slot(i), #[trigger] outcomes[i])
                    &&& devices@ == present_devices(outcomes)
                },
    {
        Pci::perform_brute_force_scan(scan)
    }
}

/// Number of `bus:device.function` slots a brute-force scan probes.
pub const SCAN_SLOTS: u32 = 65536;

/// The `(bus, device, function)` probed in step `i` of a brute-force scan.
pub open spec fn scan_slot(i: int) -> (u32, u32, u32) {
    ((i / 256) as u32, ((i / 8) % 32) as u32, (i % 8) as u32)
}

/// The devices among a sequence of probe outcomes, in order.
pub open spec fn present_devices(outcomes: Seq<Option<PciDevice>>) -> Seq<PciDevice>
    decreases outcomes.len(),
{
    if outcomes.len() == 0 {
        Seq::empty()
    } else {
        let rest = present_devices(outcomes.drop_last());
        match outcomes.last() {
            Some(d) => rest.push(d),
            None => rest,
        }
    }
}

/// A function of a device on the PCI bus.
#[derive(Debug, Clone, Copy, PartialEq, Eq, Structural)]
pub struct PciDevice {
    pub bus: u32,
    pub device: u32,
    pub function: u32,
    pub vendor_id: u16,
    pub device_id: u16,
    pub class: PciDeviceClass,
}

impl PciDevice {
    /// The value to write to `CONFIG_ADDRESS` to select `offset` of this
    /// device.
    pub fn config_address(&self, offset: u32) -> (a: u32)
        ensures
            a == spec_config_address(self.bus, self.device, self.function, offset),
    {
        Pci::config_address(self.bus, self.device, self.function, offset)
    }

    /// The port writes that store `value` at `offset` of this device.
    pub fn write(&self, offset: u32, value: u32) -> (w: (PortWrite, PortWrite))
        ensures
            w.0 == (PortWrite { port: CONFIG_ADDRESS, value: spec_config_address(self.bus, self.device, self.function, offset) }),
            w.1 == (PortWrite { port: CONFIG_DATA, value: value }),
    {
        Pci::config_write(self.bus, self.device, self.function, offset, value)
    }

    /// The two register offsets read to assemble base address register
    /// `bar`: the lower word's, then the higher word's.
    pub fn bar_register_offsets(bar: u8) -> (offsets: (u32, u32))
        requires
            bar < 6,
        ensures
            offsets.0 == BAR_START + 4 * bar,
            offsets.1 == BAR_START + 4 * bar + 2,
    {
        let bar_offset = BAR_START + (bar as u32) * 4;
        (bar_offset, bar_offset + 2)
    }

    /// Base address register value from the dwords read at the two offsets
    /// of `bar_register_offsets`.
    pub fn get_bar(&self, lower_word: u32, higher_word: u32) -> (v: u32)
        ensures
            v == (higher_word << 16u32) | lower_word,
    {
        (higher_word << 16) | lower_word
    }

    /// The interrupt pin, from the dword read at `INTERRUPT_REGISTER`.
    pub fn get_interrupt_pin(&self, register: u32) -> (pin: u8)
        ensures
            pin == (register >> 8u32) & 0xFFu32,
    {
        let pin = register >> 8;
        proof {
            crate::bits::lemma_u32_fields(register);
        }
        pin as u8
    }

    /// The interrupt line, from the dword read at `INTERRUPT_REGISTER`.
    pub fn get_interrupt_line(&self, register: u32) -> (line: u8)
        ensures
            line == register & 0xFFu32,
    {
        let v = register & 0xFF;
        proof {
            crate::bits::lemma_u32_fields(register);
        }
        v as u8
    }

    /// The command register value that enables bus mastering, I/O and memory
    /// access, from the value read at `COMMAND_REGISTER`; the port writes
    /// that store it are `self.write(COMMAND_REGISTER, ..)`.
    pub fn enable_dma(&self, command: u32) -> (v: u32)
        ensures
            v == command | 7u32,
            v & 7u32 == 7u32,
            v & !7u32 == command & !7u32,
    {
        let v = command | 0b111;
        assert(v & 7u32 == 7u32 && v & !7u32 == command & !7u32) by (bit_vector)
            requires v == command | 7u32;
        v
    }
}

/// Name of the manufacturer behind a vendor id, for logs.
pub fn get_device_manufacturer_string(device: &PciDevice) -> (s: &'static str)
    ensures
        device.vendor_id == 0x1234 ==> s@ == "QEMU emulated device"@,
        device.vendor_id == 0x8086 ==> s@ == "Intel Corp."@,
        device.vendor_id != 0x1234 && device.vendor_id != 0x8086 ==> s@ == "Unknown"@,
{
    match device.vendor_id {
        0x1234 => "QEMU emulated device",
        0x8086 => "Intel Corp.",
        _ => "Unknown",
    }
}

/// Whether a vendor and device id pair is one of those `get_device_name` knows.
pub open spec fn is_named_device(vendor_id: u16, device_id: u16) -> bool {
    ||| (vendor_id == 0x1234 && device_id == 0x1111)
    ||| (vendor_id == 0x8086 && (device_id == 0x100e || device_id == 0x1237 || device_id == 0x7000 || device_id == 0x7010 || device_id == 0x7113))
}

/// Name of a device model, for logs.
pub fn get_device_name(device: &PciDevice) -> (s: &'static str)
    ensures
        (device.vendor_id, device.device_id) == (0x1234u16, 0x1111u16) ==> s@ == "VGA compatible graphic card"@,
        (device.vendor_id, device.device_id) == (0x8086u16, 0x100eu16) ==> s@ == "82540EM Gigabit Ethernet Controller"@,
        (device.vendor_id, device.device_id) == (0x8086u16, 0x1237u16) ==> s@ == "440FX - 82441FX PMC [Natoma]"@,
        (device.vendor_id, device.device_id) == (0x8086u16, 0x7000u16) ==> s@ == "82371SB PIIX3 ISA [Natoma/Triton II]"@,
        (device.vendor_id, device.device_id) == (0x8086u16, 0x7010u16) ==> s@ == "82371SB PIIX3 IDE [Natoma/Triton II]"@,
        (device.vendor_id, device.device_id) == (0x8086u16, 0x7113u16) ==> s@ == "82371AB/EB/MB PIIX4 ACPI"@,
        !is_named_device(device.vendor_id, device.device_id) ==> s@ == "Unknown"@,
{
    match (device.vendor_id, device.device_id) {
        (0x1234, 0x1111) => "VGA compatible graphic card",
        (0x8086, 0x100e) => "82540EM Gigabit Ethernet Controller",
        (0x8086, 0x1237) => "440FX - 82441FX PMC [Natoma]",
        (0x8086, 0x7000) => "82371SB PIIX3 ISA [Natoma/Triton II]",
        (0x8086, 0x7010) => "82371SB PIIX3 IDE [Natoma/Triton II]",
        (0x8086, 0x7113) => "82371AB/EB/MB PIIX4 ACPI",
        _ => "Unknown",
    }
}

/// The class of a PCI function, with its subclass.
#[derive(Debug, Clone, Copy, PartialEq, Eq, Structural)]
pub enum PciDeviceClass {
    Undefined(UndefinedSubclass),
    MassStorageController(MassStorageControllerSubclass),
    NetworkController(NetworkControllerSubclass),
    DisplayController(DisplayControllerSubclass),
    MultimediaDevice(MultimediaControllerSubclass),
    MemoryController(MemoryControllerSubclass),
    Bridge(BridgeSubclass),
    SimpleCommunicationController(SimpleCommunicationControllerSubclass),
    BaseSystemPeripheral(BaseSystemPeripheralSubclass),
    InputDevice(InputDeviceControllerSubclass),
    DockingStation(DockingStationSubclass),
    Processor(ProcessorSubclass),
    SerialBusController(SerialBusControllerSubclass),
    WirelessController(WirelessControllerSubclass),
    IntelligentIoController(IntelligentControllerSubclass),
    SatelliteCommunicationController(SatelliteCommunicationControllerSubclass),
    EncryptionController(EncryptionControllerSubclass),
    DataAcquisitionAndSignalProcessingController(SignalProcessingControllerSubclass),
    ProcessingAccelerator,
    NonEssentialInstrumentation,
    /// Reserved class codes.
    Unknown,
}

/// The class that a class code and a subclass code stand for, or `None` for
/// a pair the table does not list.
pub open spec fn spec_parse(class_id: u32, subclass_id: u32) -> Option<PciDeviceClass> {
    match class_id {
        0x0 => match subclass_id {
            0x0 => Some(PciDeviceClass::Undefined(UndefinedSubclass::NonVgaCompatibleUnclassifiedDevice)),
            0x1 => Some(PciDeviceClass::Undefined(UndefinedSubclass::VgaCompatibleUnclassifiedDevice)),
            _ => None,
        },
        0x1 => match subclass_id {
            0x0 => Some(PciDeviceClass::MassStorageController(MassStorageControllerSubclass::ScsiBus)),
            0x1 => Some(PciDeviceClass::MassStorageController(MassStorageControllerSubclass::Ide)),
            0x2 => Some(PciDeviceClass::MassStorageController(MassStorageControllerSubclass::FloppyDisk)),
            0x3 => Some(PciDeviceClass::MassStorageController(MassStorageControllerSubclass::IpiBus)),
            0x4 => Some(PciDeviceClass::MassStorageController(MassStorageControllerSubclass::Raid)),
            0x5 => Some(PciDeviceClass::MassStorageController(MassStorageControllerSubclass::Ata)),
            0x6 => Some(PciDeviceClass::MassStorageController(MassStorageControllerSubclass::Sata)),
            0x7 => Some(PciDeviceClass::MassStorageController(MassStorageControllerSubclass::SerialAttachedScsi)),
            0x8 => Some(PciDeviceClass::MassStorageController(MassStorageControllerSubclass::NonVolatileMemory)),
            _ => None,
        },
        0x2 => match subclass_id {
            0x0 => Some(PciDeviceClass::NetworkController(NetworkControllerSubclass::Ethernet)),
            0x1 => Some(PciDeviceClass::NetworkController(NetworkControllerSubclass::TokenRing)),
            0x2 => Some(PciDeviceClass::NetworkController(NetworkControllerSubclass::Fddi)),
            0x3 => Some(PciDeviceClass::NetworkController(NetworkControllerSubclass::Atm)),
            0x4 => Some(PciDeviceClass::NetworkController(NetworkControllerSubclass::Isdn)),
            0x5 => Some(PciDeviceClass::NetworkController(NetworkControllerSubclass::WorldFip)),
            0x6 => Some(PciDeviceClass::NetworkController(NetworkControllerSubclass::PicmgMultimComputing)),
            0x7 => Some(PciDeviceClass::NetworkController(NetworkControllerSubclass::Infiniband)),
            0x8 => Some(PciDeviceClass::NetworkController(NetworkControllerSubclass::Fabric)),
            _ => None,
        },
        0x3 => match subclass_id {
            0x0 => Some(PciDeviceClass::DisplayController(DisplayControllerSubclass::VgaCompatible)),
            0x1 => Some(PciDeviceClass::DisplayController(DisplayControllerSubclass::Xga)),
            0x2 => Some(PciDeviceClass::DisplayController(DisplayControllerSubclass::NotVgaCompatible3d)),
            _ => None,
        },
        0x4 => match subclass_id {
            0x0 => Some(PciDeviceClass::MultimediaDevice(MultimediaControllerSubclass::MultimediaVideo)),
            0x1 => Some(PciDeviceClass::MultimediaDevice(MultimediaControllerSubclass::MultimediaAudio)),
            0x2 => Some(PciDeviceClass::MultimediaDevice(MultimediaControllerSubclass::ComputerTelephonyDevice)),
            0x3 => Some(PciDeviceClass::MultimediaDevice(MultimediaControllerSubclass::AudioDevice)),
            _ => None,
        },
        0x5 => match subclass_id {
            0x0 => Some(PciDeviceClass::MemoryController(MemoryControllerSubclass::Ram)),
            0x1 => Some(PciDeviceClass::MemoryController(MemoryControllerSubclass::Flash)),
            _ => None,
        },
        0x6 => match subclass_id {
            0x0 => Some(PciDeviceClass::Bridge(BridgeSubclass::Host)),
            0x1 => Some(PciDeviceClass::Bridge(BridgeSubclass::Isa)),
            0x2 => Some(PciDeviceClass::Bridge(BridgeSubclass::Eisa)),
            0x3 => Some(PciDeviceClass::Bridge(BridgeSubclass::Mca)),
            0x4 => Some(PciDeviceClass::Bridge(BridgeSubclass::PciToPci)),
            0x5 => Some(PciDeviceClass::Bridge(BridgeSubclass::Pcmcia)),
            0x6 => Some(PciDeviceClass::Bridge(BridgeSubclass::NuBus)),
            0x7 => Some(PciDeviceClass::Bridge(BridgeSubclass::CardBus)),
            0x8 => Some(PciDeviceClass::Bridge(BridgeSubclass::RaceWay)),
            0x9 => Some(PciDeviceClass::Bridge(BridgeSubclass::PciToPci2)),
            0xA => Some(PciDeviceClass::Bridge(BridgeSubclass::InfiniBandToPciHost)),
            _ => None,
        },
        0x7 => match subclass_id {
            0x0 => Some(PciDeviceClass::SimpleCommunicationController(SimpleCommunicationControllerSubclass::Serial)),
            0x1 => Some(PciDeviceClass::SimpleCommunicationController(SimpleCommunicationControllerSubclass::Parallel)),
            0x2 => Some(PciDeviceClass::SimpleCommunicationController(SimpleCommunicationControllerSubclass::MultiportSerial)),
            0x3 => Some(PciDeviceClass::SimpleCommunicationController(SimpleCommunicationControllerSubclass::Modem)),
            0x4 => Some(PciDeviceClass::SimpleCommunicationController(SimpleCommunicationControllerSubclass::Gpib)),
            0x5 => Some(PciDeviceClass::SimpleCommunicationController(SimpleCommunicationControllerSubclass::SmartCard)),
            _ => None,
        },
        0x8 => match subclass_id {
            0x0 => Some(PciDeviceClass::BaseSystemPeripheral(BaseSystemPeripheralSubclass::Pic)),
            0x1 => Some(PciDeviceClass::BaseSystemPeripheral(BaseSystemPeripheralSubclass::DmaController)),
            0x2 => Some(PciDeviceClass::BaseSystemPeripheral(BaseSystemPeripheralSubclass::Timer)),
            0x3 => Some(PciDeviceClass::BaseSystemPeripheral(BaseSystemPeripheralSubclass::RtcController)),
            0x4 => Some(PciDeviceClass::BaseSystemPeripheral(BaseSystemPeripheralSubclass::PciHotPlugController)),
            0x5 => Some(PciDeviceClass::BaseSystemPeripheral(BaseSystemPeripheralSubclass::SdHostController)),
            0x6 => Some(PciDeviceClass::BaseSystemPeripheral(BaseSystemPeripheralSubclass::IoMmu)),
            _ => None,
        },
        0x9 => match subclass_id {
            0x0 => Some(PciDeviceClass::InputDevice(InputDeviceControllerSubclass::Keyboard)),
            0x1 => Some(PciDeviceClass::InputDevice(InputDeviceControllerSubclass::DigitizerPen)),
            0x2 => Some(PciDeviceClass::InputDevice(InputDeviceControllerSubclass::Mouse)),
            0x3 => Some(PciDeviceClass::InputDevice(InputDeviceControllerSubclass::Scanner)),
            0x4 => Some(PciDeviceClass::InputDevice(InputDeviceControllerSubclass::Gameport)),
            _ => None,
        },
        0xA => match subclass_id {
            0x0 => Some(PciDeviceClass::DockingStation(DockingStationSubclass::Generic)),
            _ => None,
        },
        0xB => match subclass_id {
            0x0 => Some(PciDeviceClass::Processor(ProcessorSubclass::x386)),
            0x1 => Some(PciDeviceClass::Processor(ProcessorSubclass::x486)),
            0x2 => Some(PciDeviceClass::Processor(ProcessorSubclass::Pentium)),
            0x3 => Some(PciDeviceClass::Processor(ProcessorSubclass::PentiumPro)),
            0x10 => Some(PciDeviceClass::Processor(ProcessorSubclass::Alpha)),
            0x20 => Some(PciDeviceClass::Processor(ProcessorSubclass::PowerPc)),
            0x30 => Some(PciDeviceClass::Processor(ProcessorSubclass::Mips)),
            0x40 => Some(PciDeviceClass::Processor(ProcessorSubclass::CoProcessor)),
            _ => None,
        },
        0xC => match subclass_id {
            0x0 => Some(PciDeviceClass::SerialBusController(SerialBusControllerSubclass::FireWire)),
            0x1 => Some(PciDeviceClass::SerialBusController(SerialBusControllerSubclass::AccessBus)),
            0x2 => Some(PciDeviceClass::SerialBusController(SerialBusControllerSubclass::Ssa)),
            0x3 => Some(PciDeviceClass::SerialBusController(SerialBusControllerSubclass::UsbController)),
            0x4 => Some(PciDeviceClass::SerialBusController(SerialBusControllerSubclass::FibreChannel)),
            0x5 => Some(PciDeviceClass::SerialBusController(SerialBusControllerSubclass::SmbusController)),
            0x6 => Some(PciDeviceClass::SerialBusController(SerialBusControllerSubclass::InfiniBand)),
            0x7 => Some(PciDeviceClass::SerialBusController(SerialBusControllerSubclass::IpmiInterface)),
            0x8 => Some(PciDeviceClass::SerialBusController(SerialBusControllerSubclass::SercosInterface)),
            0x9 => Some(PciDeviceClass::SerialBusController(SerialBusControllerSubclass::Canbus)),
            _ => None,
        },
        0xD => match subclass_id {
            0x0 => Some(PciDeviceClass::WirelessController(WirelessControllerSubclass::IrdaCompatible)),
            0x1 => Some(PciDeviceClass::WirelessController(WirelessControllerSubclass::ConsumerIr)),
            0x10 => Some(PciDeviceClass::WirelessController(WirelessControllerSubclass::Rf)),
            0x11 => Some(PciDeviceClass::WirelessController(WirelessControllerSubclass::Bluetooth)),
            0x12 => Some(PciDeviceClass::WirelessController(WirelessControllerSubclass::Broadband)),
            0x20 => Some(PciDeviceClass::WirelessController(WirelessControllerSubclass::EthernetA)),
            0x21 => Some(PciDeviceClass::WirelessController(WirelessControllerSubclass::EthernetB)),
            _ => None,
        },
        0xE => match subclass_id {
            0x0 => Some(PciDeviceClass::IntelligentIoController(IntelligentControllerSubclass::I20)),
            _ => None,
        },
        0xF => match subclass_id {
            0x1 => Some(PciDeviceClass::SatelliteCommunicationController(SatelliteCommunicationControllerSubclass::Tv)),
            0x2 => Some(PciDeviceClass::SatelliteCommunicationController(SatelliteCommunicationControllerSubclass::Audio)),
            0x3 => Some(PciDeviceClass::SatelliteCommunicationController(SatelliteCommunicationControllerSubclass::Voice)),
            0x4 => Some(PciDeviceClass::SatelliteCommunicationController(SatelliteCommunicationControllerSubclass::Data)),
            _ => None,
        },
        0x10 => match subclass_id {
            0x0 => Some(PciDeviceClass::EncryptionController(EncryptionControllerSubclass::NetworkAndComputing)),
            0x10 => Some(PciDeviceClass::EncryptionController(EncryptionControllerSubclass::Entertainment)),
            _ => None,
        },
        0x11 => match subclass_id {
            0x0 => Some(PciDeviceClass::DataAcquisitionAndSignalProcessingController(SignalProcessingControllerSubclass::DpioModules)),
            0x1 => Some(PciDeviceClass::DataAcquisitionAndSignalProcessingController(SignalProcessingControllerSubclass::PerformanceCounters)),
            0x10 => Some(PciDeviceClass::DataAcquisitionAndSignalProcessingController(SignalProcessingControllerSubclass::CommunicationSynchronizer)),
            0x20 => Some(PciDeviceClass::DataAcquisitionAndSignalProcessingController(SignalProcessingControllerSubclass::SignalProcessingManagement)),
            _ => None,
        },
        0x12 => Some(PciDeviceClass::ProcessingAccelerator),
        0x13 => Some(PciDeviceClass::NonEssentialInstrumentation),
        _ => None,
    }
}

/// The class code and, for classes that have subclasses, the subclass
/// code of `d`, as the PCI class-code table assigns them; `None` for the
/// reserved classes.
pub open spec fn class_codes(d: PciDeviceClass) -> Option<(int, Option<int>)> {
    match d {
        PciDeviceClass::Undefined(s) => Some((0x0, Some(match s {
            UndefinedSubclass::NonVgaCompatibleUnclassifiedDevice => 0x0,
            UndefinedSubclass::VgaCompatibleUnclassifiedDevice => 0x1,
        }))),
        PciDeviceClass::MassStorageController(s) => Some((0x1, Some(match s {
            MassStorageControllerSubclass::ScsiBus => 0x0,
            MassStorageControllerSubclass::Ide => 0x1,
            MassStorageControllerSubclass::FloppyDisk => 0x2,
            MassStorageControllerSubclass::IpiBus => 0x3,
            MassStorageControllerSubclass::Raid => 0x4,
            MassStorageControllerSubclass::Ata => 0x5,
            MassStorageControllerSubclass::Sata => 0x6,
            MassStorageControllerSubclass::SerialAttachedScsi => 0x7,
            MassStorageControllerSubclass::NonVolatileMemory => 0x8,
        }))),
        PciDeviceClass::NetworkController(s) => Some((0x2, Some(match s {
            NetworkControllerSubclass::Ethernet => 0x0,
            NetworkControllerSubclass::TokenRing => 0x1,
            NetworkControllerSubclass::Fddi => 0x2,
            NetworkControllerSubclass::Atm => 0x3,
            NetworkControllerSubclass::Isdn => 0x4,
            NetworkControllerSubclass::WorldFip => 0x5,
            NetworkControllerSubclass::PicmgMultimComputing => 0x6,
            NetworkControllerSubclass::Infiniband => 0x7,
            NetworkControllerSubclass::Fabric => 0x8,
        }))),
        PciDeviceClass::DisplayController(s) => Some((0x3, Some(match s {
            DisplayControllerSubclass::VgaCompatible => 0x0,
            DisplayControllerSubclass::Xga => 0x1,
            DisplayControllerSubclass::NotVgaCompatible3d => 0x2,
        }))),
        PciDeviceClass::MultimediaDevice(s) => Some((0x4, Some(match s {
            MultimediaControllerSubclass::MultimediaVideo => 0x0,
            MultimediaControllerSubclass::MultimediaAudio => 0x1,
            MultimediaControllerSubclass::ComputerTelephonyDevice => 0x2,
            MultimediaControllerSubclass::AudioDevice => 0x3,
        }))),
        PciDeviceClass::MemoryController(s) => Some((0x5, Some(match s {
            MemoryControllerSubclass::Ram => 0x0,
            MemoryControllerSubclass::Flash => 0x1,
        }))),
        PciDeviceClass::Bridge(s) => Some((0x6, Some(match s {
            BridgeSubclass::Host => 0x0,
            BridgeSubclass::Isa => 0x1,
            BridgeSubclass::Eisa => 0x2,
            BridgeSubclass::Mca => 0x3,
            BridgeSubclass::PciToPci => 0x4,
            BridgeSubclass::Pcmcia => 0x5,
            BridgeSubclass::NuBus => 0x6,
            BridgeSubclass::CardBus => 0x7,
            BridgeSubclass::RaceWay => 0x8,
            BridgeSubclass::PciToPci2 => 0x9,
            BridgeSubclass::InfiniBandToPciHost => 0xa,
        }))),
        PciDeviceClass::SimpleCommunicationController(s) => Some((0x7, Some(match s {
            SimpleCommunicationControllerSubclass::Serial => 0x0,
            SimpleCommunicationControllerSubclass::Parallel => 0x1,
            SimpleCommunicationControllerSubclass::MultiportSerial => 0x2,
            SimpleCommunicationControllerSubclass::Modem => 0x3,
            SimpleCommunicationControllerSubclass::Gpib => 0x4,
            SimpleCommunicationControllerSubclass::SmartCard => 0x5,
        }))),
        PciDeviceClass::BaseSystemPeripheral(s) => Some((0x8, Some(match s {
            BaseSystemPeripheralSubclass::Pic => 0x0,
            BaseSystemPeripheralSubclass::DmaController => 0x1,
            BaseSystemPeripheralSubclass::Timer => 0x2,
            BaseSystemPeripheralSubclass::RtcController => 0x3,
            BaseSystemPeripheralSubclass::PciHotPlugController => 0x4,
            BaseSystemPeripheralSubclass::SdHostController => 0x5,
            BaseSystemPeripheralSubclass::IoMmu => 0x6,
        }))),
        PciDeviceClass::InputDevice(s) => Some((0x9, Some(match s {
            InputDeviceControllerSubclass::Keyboard => 0x0,
            InputDeviceControllerSubclass::DigitizerPen => 0x1,
            InputDeviceControllerSubclass::Mouse => 0x2,
            InputDeviceControllerSubclass::Scanner => 0x3,
            InputDeviceControllerSubclass::Gameport => 0x4,
        }))),
        PciDeviceClass::DockingStation(s) => Some((0xa, Some(match s {
            DockingStationSubclass::Generic => 0x0,
        }))),
        PciDeviceClass::Processor(s) => Some((0xb, Some(match s {
            ProcessorSubclass::x386 => 0x0,
            ProcessorSubclass::x486 => 0x1,
            ProcessorSubclass::Pentium => 0x2,
            ProcessorSubclass::PentiumPro => 0x3,
            ProcessorSubclass::Alpha => 0x10,
            ProcessorSubclass::PowerPc => 0x20,
            ProcessorSubclass::Mips => 0x30,
            ProcessorSubclass::CoProcessor => 0x40,
        }))),
        PciDeviceClass::SerialBusController(s) => Some((0xc, Some(match s {
            SerialBusControllerSubclass::FireWire => 0x0,
            SerialBusControllerSubclass::AccessBus => 0x1,
            SerialBusControllerSubclass::Ssa => 0x2,
            SerialBusControllerSubclass::UsbController => 0x3,
            SerialBusControllerSubclass::FibreChannel => 0x4,
            SerialBusControllerSubclass::SmbusController => 0x5,
            SerialBusControllerSubclass::InfiniBand => 0x6,
            SerialBusControllerSubclass::IpmiInterface => 0x7,
            SerialBusControllerSubclass::SercosInterface => 0x8,
            SerialBusControllerSubclass::Canbus => 0x9,
        }))),
        PciDeviceClass::WirelessController(s) => Some((0xd, Some(match s {
            WirelessControllerSubclass::IrdaCompatible => 0x0,
            WirelessControllerSubclass::ConsumerIr => 0x1,
            WirelessControllerSubclass::Rf => 0x10,
            WirelessControllerSubclass::Bluetooth => 0x11,
            WirelessControllerSubclass::Broadband => 0x12,
            WirelessControllerSubclass::EthernetA => 0x20,
            WirelessControllerSubclass::EthernetB => 0x21,
        }))),
        PciDeviceClass::IntelligentIoController(s) => Some((0xe, Some(match s {
            IntelligentControllerSubclass::I20 => 0x0,
        }))),
        PciDeviceClass::SatelliteCommunicationController(s) => Some((0xf, Some(match s {
            SatelliteCommunicationControllerSubclass::Tv => 0x1,
            SatelliteCommunicationControllerSubclass::Audio => 0x2,
            SatelliteCommunicationControllerSubclass::Voice => 0x3,
            SatelliteCommunicationControllerSubclass::Data => 0x4,
        }))),
        PciDeviceClass::EncryptionController(s) => Some((0x10, Some(match s {
            EncryptionControllerSubclass::NetworkAndComputing => 0x0,
            EncryptionControllerSubclass::Entertainment => 0x10,
        }))),
        PciDeviceClass::DataAcquisitionAndSignalProcessingController(s) => Some((0x11, Some(match s {
            SignalProcessingControllerSubclass::DpioModules => 0x0,
            SignalProcessingControllerSubclass::PerformanceCounters => 0x1,
            SignalProcessingControllerSubclass::CommunicationSynchronizer => 0x10,
            SignalProcessingControllerSubclass::SignalProcessingManagement => 0x20,
        }))),
        PciDeviceClass::ProcessingAccelerator => Some((0x12, None)),
        PciDeviceClass::NonEssentialInstrumentation => Some((0x13, None)),
        PciDeviceClass::Unknown => None,
    }
}

/// Decoding a class code and a subclass code is the inverse of the table's
/// coding: whatever a pair decodes to carries exactly that class code and
/// (where the class has subclasses) that subclass code, and every class the
/// table codes is decoded from its codes.
pub proof fn lemma_parse_inverts_codes(class_id: u32, subclass_id: u32, d: PciDeviceClass)
    ensures
        spec_parse(class_id, subclass_id) matches Some(p) ==> class_codes(p) matches Some((c, sc)) && c
            == class_id && (sc matches Some(x) ==> x == subclass_id),
        spec_parse(class_id, subclass_id) != Some(PciDeviceClass::Unknown),
        class_codes(d) == Some((class_id as int, Some(subclass_id as int))) ==> spec_parse(class_id, subclass_id)
            == Some(d),
        class_codes(d) == Some((class_id as int, None::<int>)) ==> spec_parse(class_id, subclass_id) == Some(d),
{
}

impl PciDeviceClass {
    /// The class for a class code and a subclass code, or `None` for a pair
    /// the table does not list.
    pub fn try_parse(class_id: u32, subclass_id: u32) -> (c: Option<PciDeviceClass>)
        ensures
            c == spec_parse(class_id, subclass_id),
            c matches Some(d) ==> class_codes(d) matches Some((k, sk)) && k == class_id && (sk matches Some(x)
                ==> x == subclass_id),
    {
        match class_id {
            0x0 => match subclass_id {
                0x0 => Some(PciDeviceClass::Undefined(UndefinedSubclass::NonVgaCompatibleUnclassifiedDevice)),
                0x1 => Some(PciDeviceClass::Undefined(UndefinedSubclass::VgaCompatibleUnclassifiedDevice)),
                _ => None,
            },
            0x1 => match subclass_id {
                0x0 => Some(PciDeviceClass::MassStorageController(MassStorageControllerSubclass::ScsiBus)),
                0x1 => Some(PciDeviceClass::MassStorageController(MassStorageControllerSubclass::Ide)),
                0x2 => Some(PciDeviceClass::MassStorageController(MassStorageControllerSubclass::FloppyDisk)),
                0x3 => Some(PciDeviceClass::MassStorageController(MassStorageControllerSubclass::IpiBus)),
                0x4 => Some(PciDeviceClass::MassStorageController(MassStorageControllerSubclass::Raid)),
                0x5 => Some(PciDeviceClass::MassStorageController(MassStorageControllerSubclass::Ata)),
                0x6 => Some(PciDeviceClass::MassStorageController(MassStorageControllerSubclass::Sata)),
                0x7 => Some(PciDeviceClass::MassStorageController(MassStorageControllerSubclass::SerialAttachedScsi)),
                0x8 => Some(PciDeviceClass::MassStorageController(MassStorageControllerSubclass::NonVolatileMemory)),
                _ => None,
            },
            0x2 => match subclass_id {
                0x0 => Some(PciDeviceClass::NetworkController(NetworkControllerSubclass::Ethernet)),
                0x1 => Some(PciDeviceClass::NetworkController(NetworkControllerSubclass::TokenRing)),
                0x2 => Some(PciDeviceClass::NetworkController(NetworkControllerSubclass::Fddi)),
                0x3 => Some(PciDeviceClass::NetworkController(NetworkControllerSubclass::Atm)),
                0x4 => Some(PciDeviceClass::NetworkController(NetworkControllerSubclass::Isdn)),
                0x5 => Some(PciDeviceClass::NetworkController(NetworkControllerSubclass::WorldFip)),
                0x6 => Some(PciDeviceClass::NetworkController(NetworkControllerSubclass::PicmgMultimComputing)),
                0x7 => Some(PciDeviceClass::NetworkController(NetworkControllerSubclass::Infiniband)),
                0x8 => Some(PciDeviceClass::NetworkController(NetworkControllerSubclass::Fabric)),
                _ => None,
            },
            0x3 => match subclass_id {
                0x0 => Some(PciDeviceClass::DisplayController(DisplayControllerSubclass::VgaCompatible)),
                0x1 => Some(PciDeviceClass::DisplayController(DisplayControllerSubclass::Xga)),
                0x2 => Some(PciDeviceClass::DisplayController(DisplayControllerSubclass::NotVgaCompatible3d)),
                _ => None,
            },
            0x4 => match subclass_id {
                0x0 => Some(PciDeviceClass::MultimediaDevice(MultimediaControllerSubclass::MultimediaVideo)),
                0x1 => Some(PciDeviceClass::MultimediaDevice(MultimediaControllerSubclass::MultimediaAudio)),
                0x2 => Some(PciDeviceClass::MultimediaDevice(MultimediaControllerSubclass::ComputerTelephonyDevice)),
                0x3 => Some(PciDeviceClass::MultimediaDevice(MultimediaControllerSubclass::AudioDevice)),
                _ => None,
            },
            0x5 => match subclass_id {
                0x0 => Some(PciDeviceClass::MemoryController(MemoryControllerSubclass::Ram)),
                0x1 => Some(PciDeviceClass::MemoryController(MemoryControllerSubclass::Flash)),
                _ => None,
            },
            0x6 => match subclass_id {
                0x0 => Some(PciDeviceClass::Bridge(BridgeSubclass::Host)),
                0x1 => Some(PciDeviceClass::Bridge(BridgeSubclass::Isa)),
                0x2 => Some(PciDeviceClass::Bridge(BridgeSubclass::Eisa)),
                0x3 => Some(PciDeviceClass::Bridge(BridgeSubclass::Mca)),
                0x4 => Some(PciDeviceClass::Bridge(BridgeSubclass::PciToPci)),
                0x5 => Some(PciDeviceClass::Bridge(BridgeSubclass::Pcmcia)),
                0x6 => Some(PciDeviceClass::Bridge(BridgeSubclass::NuBus)),
                0x7 => Some(PciDeviceClass::Bridge(BridgeSubclass::CardBus)),
                0x8 => Some(PciDeviceClass::Bridge(BridgeSubclass::RaceWay)),
                0x9 => Some(PciDeviceClass::Bridge(BridgeSubclass::PciToPci2)),
                0xA => Some(PciDeviceClass::Bridge(BridgeSubclass::InfiniBandToPciHost)),
                _ => None,
            },
            0x7 => match subclass_id {
                0x0 => Some(PciDeviceClass::SimpleCommunicationController(SimpleCommunicationControllerSubclass::Serial)),
                0x1 => Some(PciDeviceClass::SimpleCommunicationController(SimpleCommunicationControllerSubclass::Parallel)),
                0x2 => Some(PciDeviceClass::SimpleCommunicationController(SimpleCommunicationControllerSubclass::MultiportSerial)),
                0x3 => Some(PciDeviceClass::SimpleCommunicationController(SimpleCommunicationControllerSubclass::Modem)),
                0x4 => Some(PciDeviceClass::SimpleCommunicationController(SimpleCommunicationControllerSubclass::Gpib)),
                0x5 => Some(PciDeviceClass::SimpleCommunicationController(SimpleCommunicationControllerSubclass::SmartCard)),
                _ => None,
            },
            0x8 => match subclass_id {
                0x0 => Some(PciDeviceClass::BaseSystemPeripheral(BaseSystemPeripheralSubclass::Pic)),
                0x1 => Some(PciDeviceClass::BaseSystemPeripheral(BaseSystemPeripheralSubclass::DmaController)),
                0x2 => Some(PciDeviceClass::BaseSystemPeripheral(BaseSystemPeripheralSubclass::Timer)),
                0x3 => Some(PciDeviceClass::BaseSystemPeripheral(BaseSystemPeripheralSubclass::RtcController)),
                0x4 => Some(PciDeviceClass::BaseSystemPeripheral(BaseSystemPeripheralSubclass::PciHotPlugController)),
                0x5 => Some(PciDeviceClass::BaseSystemPeripheral(BaseSystemPeripheralSubclass::SdHostController)),
                0x6 => Some(PciDeviceClass::BaseSystemPeripheral(BaseSystemPeripheralSubclass::IoMmu)),
                _ => None,
            },
            0x9 => match subclass_id {
                0x0 => Some(PciDeviceClass::InputDevice(InputDeviceControllerSubclass::Keyboard)),
                0x1 => Some(PciDeviceClass::InputDevice(InputDeviceControllerSubclass::DigitizerPen)),
                0x2 => Some(PciDeviceClass::InputDevice(InputDeviceControllerSubclass::Mouse)),
                0x3 => Some(PciDeviceClass::InputDevice(InputDeviceControllerSubclass::Scanner)),
                0x4 => Some(PciDeviceClass::InputDevice(InputDeviceControllerSubclass::Gameport)),
                _ => None,
            },
            0xA => match subclass_id {
                0x0 => Some(PciDeviceClass::DockingStation(DockingStationSubclass::Generic)),
                _ => None,
            },
            0xB => match subclass_id {
                0x0 => Some(PciDeviceClass::Processor(ProcessorSubclass::x386)),
                0x1 => Some(PciDeviceClass::Processor(ProcessorSubclass::x486)),
                0x2 => Some(PciDeviceClass::Processor(ProcessorSubclass::Pentium)),
                0x3 => Some(PciDeviceClass::Processor(ProcessorSubclass::PentiumPro)),
                0x10 => Some(PciDeviceClass::Processor(ProcessorSubclass::Alpha)),
                0x20 => Some(PciDeviceClass::Processor(ProcessorSubclass::PowerPc)),
                0x30 => Some(PciDeviceClass::Processor(ProcessorSubclass::Mips)),
                0x40 => Some(PciDeviceClass::Processor(ProcessorSubclass::CoProcessor)),
                _ => None,
            },
            0xC => match subclass_id {
                0x0 => Some(PciDeviceClass::SerialBusController(SerialBusControllerSubclass::FireWire)),
                0x1 => Some(PciDeviceClass::SerialBusController(SerialBusControllerSubclass::AccessBus)),
                0x2 => Some(PciDeviceClass::SerialBusController(SerialBusControllerSubclass::Ssa)),
                0x3 => Some(PciDeviceClass::SerialBusController(SerialBusControllerSubclass::UsbController)),
                0x4 => Some(PciDeviceClass::SerialBusController(SerialBusControllerSubclass::FibreChannel)),
                0x5 => Some(PciDeviceClass::SerialBusController(SerialBusControllerSubclass::SmbusController)),
                0x6 => Some(PciDeviceClass::SerialBusController(SerialBusControllerSubclass::InfiniBand)),
                0x7 => Some(PciDeviceClass::SerialBusController(SerialBusControllerSubclass::IpmiInterface)),
                0x8 => Some(PciDeviceClass::SerialBusController(SerialBusControllerSubclass::SercosInterface)),
                0x9 => Some(PciDeviceClass::SerialBusController(SerialBusControllerSubclass::Canbus)),
                _ => None,
            },
            0xD => match subclass_id {
                0x0 => Some(PciDeviceClass::WirelessController(WirelessControllerSubclass::IrdaCompatible)),
                0x1 => Some(PciDeviceClass::WirelessController(WirelessControllerSubclass::ConsumerIr)),
                0x10 => Some(PciDeviceClass::WirelessController(WirelessControllerSubclass::Rf)),
                0x11 => Some(PciDeviceClass::WirelessController(WirelessControllerSubclass::Bluetooth)),
                0x12 => Some(PciDeviceClass::WirelessController(WirelessControllerSubclass::Broadband)),
                0x20 => Some(PciDeviceClass::WirelessController(WirelessControllerSubclass::EthernetA)),
                0x21 => Some(PciDeviceClass::WirelessController(WirelessControllerSubclass::EthernetB)),
                _ => None,
            },
            0xE => match subclass_id {
                0x0 => Some(PciDeviceClass::IntelligentIoController(IntelligentControllerSubclass::I20)),
                _ => None,
            },
            0xF => match subclass_id {
                0x1 => Some(PciDeviceClass::SatelliteCommunicationController(SatelliteCommunicationControllerSubclass::Tv)),
                0x2 => Some(PciDeviceClass::SatelliteCommunicationController(SatelliteCommunicationControllerSubclass::Audio)),
                0x3 => Some(PciDeviceClass::SatelliteCommunicationController(SatelliteCommunicationControllerSubclass::Voice)),
                0x4 => Some(PciDeviceClass::SatelliteCommunicationController(SatelliteCommunicationControllerSubclass::Data)),
                _ => None,
            },
            0x10 => match subclass_id {
                0x0 => Some(PciDeviceClass::EncryptionController(EncryptionControllerSubclass::NetworkAndComputing)),
                0x10 => Some(PciDeviceClass::EncryptionController(EncryptionControllerSubclass::Entertainment)),
                _ => None,
            },
            0x11 => match subclass_id {
                0x0 => Some(PciDeviceClass::DataAcquisitionAndSignalProcessingController(SignalProcessingControllerSubclass::DpioModules)),
                0x1 => Some(PciDeviceClass::DataAcquisitionAndSignalProcessingController(SignalProcessingControllerSubclass::PerformanceCounters)),
                0x10 => Some(PciDeviceClass::DataAcquisitionAndSignalProcessingController(SignalProcessingControllerSubclass::CommunicationSynchronizer)),
                0x20 => Some(PciDeviceClass::DataAcquisitionAndSignalProcessingController(SignalProcessingControllerSubclass::SignalProcessingManagement)),
                _ => None,
            },
            0x12 => Some(PciDeviceClass::ProcessingAccelerator),
            0x13 => Some(PciDeviceClass::NonEssentialInstrumentation),
            _ => None,
        }
    }

    /// The class for a class code and a subclass code that the table lists.
    pub fn parse(class_id: u32, subclass_id: u32) -> (c: PciDeviceClass)
        requires
            spec_parse(class_id, subclass_id) is Some,
        ensures
            Some(c) == spec_parse(class_id, subclass_id),
    {
        match PciDeviceClass::try_parse(class_id, subclass_id) {
            Some(c) => c,
            None => PciDeviceClass::Unknown,
        }
    }
}

#[derive(Debug, Clone, Copy, PartialEq, Eq, Structural)]
pub enum UndefinedSubclass {
    NonVgaCompatibleUnclassifiedDevice,
    VgaCompatibleUnclassifiedDevice,
}

#[derive(Debug, Clone, Copy, PartialEq, Eq, Structural)]
pub enum MassStorageControllerSubclass {
    ScsiBus,
    Ide,
    FloppyDisk,
    IpiBus,
    Raid,
    Ata,
    Sata,
    SerialAttachedScsi,
    NonVolatileMemory,
}

#[derive(Debug, Clone, Copy, PartialEq, Eq, Structural)]
pub enum NetworkControllerSubclass {
    Ethernet,
    TokenRing,
    Fddi,
    Atm,
    Isdn,
    WorldFip,
    PicmgMultimComputing,
    Infiniband,
    Fabric,
}

#[derive(Debug, Clone, Copy, PartialEq, Eq, Structural)]
pub enum DisplayControllerSubclass {
    VgaCompatible,
    Xga,
    NotVgaCompatible3d,
}

#[derive(Debug, Clone, Copy, PartialEq, Eq, Structural)]
pub enum MultimediaControllerSubclass {
    MultimediaVideo,
    MultimediaAudio,
    ComputerTelephonyDevice,
    AudioDevice,
}

#[derive(Debug, Clone, Copy, PartialEq, Eq, Structural)]
pub enum MemoryControllerSubclass {
    Ram,
    Flash,
}

#[derive(Debug, Clone, Copy, PartialEq, Eq, Structural)]
pub enum BridgeSubclass {
    Host,
    Isa,
    Eisa,
    Mca,
    PciToPci,
    Pcmcia,
    NuBus,
    CardBus,
    RaceWay,
    PciToPci2,
    InfiniBandToPciHost,
}

#[derive(Debug, Clone, Copy, PartialEq, Eq, Structural)]
pub enum SimpleCommunicationControllerSubclass {
    Serial,
    Parallel,
    MultiportSerial,
    Modem,
    Gpib,
    SmartCard,
}

#[derive(Debug, Clone, Copy, PartialEq, Eq, Structural)]
pub enum BaseSystemPeripheralSubclass {
    Pic,
    DmaController,
    Timer,
    RtcController,
    PciHotPlugController,
    SdHostController,
    IoMmu,
}

#[derive(Debug, Clone, Copy, PartialEq, Eq, Structural)]
pub enum InputDeviceControllerSubclass {
    Keyboard,
    DigitizerPen,
    Mouse,
    Scanner,
    Gameport,
}

#[derive(Debug, Clone, Copy, PartialEq, Eq, Structural)]
pub enum DockingStationSubclass {
    Generic,
}

#[allow(nonstandard_style)]
#[derive(Debug, Clone, Copy, PartialEq, Eq, Structural)]
pub enum ProcessorSubclass {
    x386,
    x486,
    Pentium,
    PentiumPro,
    Alpha,
    PowerPc,
    Mips,
    CoProcessor,
}

#[derive(Debug, Clone, Copy, PartialEq, Eq, Structural)]
pub enum SerialBusControllerSubclass {
    FireWire,
    AccessBus,
    Ssa,
    UsbController,
    FibreChannel,
    SmbusController,
    InfiniBand,
    IpmiInterface,
    SercosInterface,
    Canbus,
}

#[derive(Debug, Clone, Copy, PartialEq, Eq, Structural)]
pub enum WirelessControllerSubclass {
    IrdaCompatible,
    ConsumerIr,
    Rf,
    Bluetooth,
    Broadband,
    EthernetA,
    EthernetB,
}

#[derive(Debug, Clone, Copy, PartialEq, Eq, Structural)]
pub enum IntelligentControllerSubclass {
    I20,
}

#[derive(Debug, Clone, Copy, PartialEq, Eq, Structural)]
pub enum SatelliteCommunicationControllerSubclass {
    Tv,
    Audio,
    Voice,
    Data,
}

#[derive(Debug, Clone, Copy, PartialEq, Eq, Structural)]
pub enum EncryptionControllerSubclass {
    NetworkAndComputing,
    Entertainment,
}

#[derive(Debug, Clone, Copy, PartialEq, Eq, Structural)]
pub enum SignalProcessingControllerSubclass {
    DpioModules,
    PerformanceCounters,
    CommunicationSynchronizer,
    SignalProcessingManagement,
}

} // verus!
