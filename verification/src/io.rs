//! The device model: devices and their properties, PCI addresses, the
//! predicates by which drivers claim devices, and the error types of the
//! device layer.
use vstd::prelude::*;
use crate::pci::{PciDevice, PciDeviceClass};

verus! {

/// Identifier of a device.
pub type DeviceId = u64;

/// Identifier of a driver.
pub type DriverId = u64;

/// Where a PCI function sits: bus, device and function number.
#[derive(Debug, Clone, Copy, PartialEq, Eq, Structural)]
pub struct PciAddress {
    pub bus: u16,
    pub device: u16,
    pub function: u16,
}

impl PciAddress {
    pub fn new(bus: u16, device: u16, function: u16) -> (a: Self)
        ensures
            a.bus == bus,
            a.device == device,
            a.function == function,
    {
        PciAddress { bus, device, function }
    }
}

/// Bus-specific properties of a device.
#[derive(Debug, Clone, Copy, PartialEq, Eq, Structural)]
pub enum DeviceProperties {
    PCI { address: PciAddress, inner_identificator: u64 },
}

/// A device known to the kernel.
#[derive(Debug)]
pub struct Device {
    pub id: DeviceId,
    pub vendor_id: u32,
    pub device_id: u32,
    pub properties: DeviceProperties,
    /// The driver bound to the device, by id.
    pub driver: Option<DriverId>,
    pub children: Vec<Device>,
    pub can_be_bus_controller: bool,
}

impl Device {
    /// Whether the device sits on the PCI bus.
    pub fn is_pci_device(&self) -> (b: bool)
        ensures
            b == (self.properties is PCI),
    {
        match self.properties {
            DeviceProperties::PCI { .. } => true,
        }
    }

    /// The PCI address of a PCI device.
    pub fn pci_address(&self) -> (a: PciAddress)
        requires
            self.properties is PCI,
        ensures
            self.properties == (DeviceProperties::PCI {
                address: a,
                inner_identificator: self.properties->inner_identificator,
            }),
    {
        match self.properties {
            DeviceProperties::PCI { address, .. } => address,
        }
    }

    /// The PCI function of a PCI device, as `scan` finds it at the device's
    /// address.
    pub fn to_pci_device<F: Fn(u32, u32, u32) -> Option<PciDevice>>(&self, scan: &F) -> (d: Option<PciDevice>)
        requires
            self.properties is PCI,
            call_requires(
                *scan,
                (
                    self.properties->address.bus as u32,
                    self.properties->address.device as u32,
                    self.properties->address.function as u32,
                ),
            ),
        ensures
            call_ensures(
                *scan,
                (
                    self.properties->address.bus as u32,
                    self.properties->address.device as u32,
                    self.properties->address.function as u32,
                ),
                d,
            ),
    {
        let address = self.pci_address();
        scan(address.bus as u32, address.device as u32, address.function as u32)
    }
}

/// How a driver tells which devices it handles.
#[derive(Debug, Clone, Copy, PartialEq, Eq, Structural)]
pub enum DriverPredicate {
    PciClass(PciDeviceClass),
    PciDeviceAndVendorId { vendor_id: u16, device_id: u16 },
}

impl DriverPredicate {
    /// Whether a PCI function satisfies the predicate.
    pub fn matches(&self, device: &PciDevice) -> (b: bool)
        ensures
            b == match *self {
                DriverPredicate::PciClass(c) => device.class == c,
                DriverPredicate::PciDeviceAndVendorId { vendor_id, device_id } => device.vendor_id
                    == vendor_id && device.device_id == device_id,
            },
    {
        match self {
            DriverPredicate::PciClass(c) => device.class == *c,
            DriverPredicate::PciDeviceAndVendorId { vendor_id, device_id } => device.vendor_id == *vendor_id
                && device.device_id == *device_id,
        }
    }
}

/// The kind of a device.
#[derive(Debug, Clone, Copy, PartialEq, Eq, Structural, Hash)]
pub enum DeviceType {
    Storage,
    Network,
    Input,
    Display,
    Bus,
}

/// Device-specific features.
#[derive(Debug, Clone, Copy, PartialEq, Eq, Structural)]
pub struct DeviceFeatures {
    pub supports_dma: bool,
    pub max_speed: Option<u32>,
}

/// Link state of a network device.
#[derive(Debug, Clone, Copy, PartialEq, Eq, Structural)]
pub enum NetworkState {
    Up,
    Down,
}

/// The kind of a bus.
#[derive(Debug, Clone, Copy, PartialEq, Eq, Structural)]
pub enum BusType {
    Ata,
    Pci,
    Usb,
}

/// The kind of a resource a bus hands out.
#[derive(Debug, Clone, Copy, PartialEq, Eq, Structural)]
pub enum ResourceType {
    Memory,
    IO,
}

/// A range of memory or I/O space.
#[derive(Debug, Clone, Copy, PartialEq, Eq, Structural)]
pub struct Resource {
    pub base: u64,
    pub size: u64,
}

/// Errors of a device.
#[derive(Debug, Clone, Copy, PartialEq, Eq, Structural)]
pub enum DeviceError {
    InitializationFailed,
    ShutdownFailed,
    UnsupportedOperation,
}

/// Errors of a driver.
#[derive(Debug, Clone, Copy, PartialEq, Eq, Structural)]
pub enum DriverError {
    AttachFailed,
    DetachFailed,
    InterruptHandlingFailed,
}

/// Errors of the device manager.
#[derive(Debug, Clone, Copy, PartialEq, Eq, Structural)]
pub enum DeviceManagerError {
    DeviceError(DeviceError),
    DriverError(DriverError),
    UnknownDevice,
    UnknownDriver,
}

impl From<DeviceError> for DeviceManagerError {
    fn from(e: DeviceError) -> (r: DeviceManagerError) {
        DeviceManagerError::DeviceError(e)
    }
}

impl vstd::std_specs::convert::FromSpecImpl<DeviceError> for DeviceManagerError {
    open spec fn obeys_from_spec() -> bool {
        true
    }

    open spec fn from_spec(e: DeviceError) -> DeviceManagerError {
        DeviceManagerError::DeviceError(e)
    }
}

impl From<DriverError> for DeviceManagerError {
    fn from(e: DriverError) -> (r: DeviceManagerError) {
        DeviceManagerError::DriverError(e)
    }
}

impl vstd::std_specs::convert::FromSpecImpl<DriverError> for DeviceManagerError {
    open spec fn obeys_from_spec() -> bool {
        true
    }

    open spec fn from_spec(e: DriverError) -> DeviceManagerError {
        DeviceManagerError::DriverError(e)
    }
}

/// The operations every driver offers: binding to a device, unbinding, and
/// telling which devices it handles.
pub trait DriverBase {
    fn attach(&self, device: &Device) -> Result<(), DriverError>;

    fn detach(&self, device: &Device) -> Result<(), DriverError>;

    fn supported_devices(&self) -> Result<DriverPredicate, DriverError>;
}

/// A driver of block devices: reads and writes fixed-size blocks.
pub trait BlockDriver: DriverBase {
    /// Whether the driver handles block devices; drivers of other kinds keep
    /// this default.
    fn supports_block_capabilities(&self) -> (r: bool)
        default_ensures
            !r,
    {
        false
    }

    fn read_block(&self, device_id: DeviceId, block_id: u64) -> Result<Vec<u8>, DriverError>;

    fn write_block(&self, device_id: DeviceId, block_id: u64, data: &[u8]) -> Result<(), DriverError>;

    fn block_size(&self) -> u64;
}

/// A driver of network devices: sends and receives packets.
pub trait NetworkDriver: DriverBase {
    /// Whether the driver handles network devices; drivers of other kinds
    /// keep this default.
    fn supports_network_capabilities(&self) -> (r: bool)
        default_ensures
            !r,
    {
        false
    }

    fn send_packet(&self, device: &Device, packet: &[u8]) -> Result<(), DriverError>;

    fn receive_packet(&self, device: &Device) -> Result<Option<Vec<u8>>, DriverError>;

    fn mac_address(&self, device: &Device) -> [u8; 6];

    fn set_state(&self, device: &Device, state: NetworkState) -> Result<(), DriverError>;
}

/// A driver of a bus: finds the devices behind a controller.
pub trait BusDriver: DriverBase {
    /// Whether the driver enumerates a bus; drivers of other kinds keep this
    /// default.
    fn supports_bus_capability(&self) -> (r: bool)
        default_ensures
            !r,
    {
        false
    }

    fn enumerate_devices(&self, device: &Device) -> Result<Vec<Device>, DriverError>;
}

/// A driver with all its capabilities.
pub trait Driver: DriverBase + BlockDriver + NetworkDriver + BusDriver {}

/// Access to the configuration space of PCI functions.
pub trait PciBusDriver {
    /// Reads a configuration register.
    fn read_config(&self, device: &Device, offset: u32) -> u32;

    /// Writes to a configuration register.
    fn write_config(&self, device: &Device, offset: u32, value: u32);

    /// Allocates a memory or I/O resource for a device.
    fn allocate_resource(&self, device: &Device, resource_type: ResourceType) -> Result<Resource, DriverError>;

    fn read_u8(address: PciAddress, offset: u32) -> u8;

    fn read_u16(address: PciAddress, offset: u32) -> u16;

    fn read_u32(address: PciAddress, offset: u32) -> u32;

    fn write_u8(address: PciAddress, offset: u32, value: u8);

    fn write_u16(address: PciAddress, offset: u32, value: u16);

    fn write_u32(address: PciAddress, offset: u32, value: u32);
}

} // verus!
