//! The tree of devices, from the root bus down.
use vstd::prelude::*;

verus! {

/// The tree of devices.
#[derive(Debug)]
pub struct DeviceTree {
    pub root: Device,
}

/// A node of the device tree.
#[derive(Debug)]
pub struct Device {
    pub name: String,
    pub type_: DeviceType,
    pub children: Vec<Device>,
    pub driver: DeviceDriver,
}

/// The driver bound to a node of the device tree.
#[derive(Debug, Clone, Copy, PartialEq, Eq, Structural)]
pub struct DeviceDriver {}

/// The kind of a node of the device tree.
#[derive(Debug, Clone, Copy, PartialEq, Eq, Structural)]
pub enum DeviceType {
    Device,
    Hub,
    Bus,
}

} // verus!
