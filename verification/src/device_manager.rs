//! Device manager: which drivers a device can take and which drivers hear an
//! interrupt line.
use vstd::prelude::*;
use crate::io::DriverId;
use crate::pci::{MassStorageControllerSubclass, PciDeviceClass};

verus! {

/// The drivers to notify, by interrupt line, in the order they registered.
#[verifier::external_body]
pub struct DeviceInterruptMap {
    map: hashbrown::HashMap<u8, Vec<DriverId>>,
}

/// No driver list at all.
pub open spec fn no_lists() -> Map<u8, Seq<u64>> {
    Map::empty()
}

/// The driver lists that `m` holds, by interrupt line.
pub uninterp spec fn interrupt_lists(m: DeviceInterruptMap) -> Map<u8, Seq<u64>>;

impl DeviceInterruptMap {
    /// An empty map: `hashbrown::HashMap::new` creates a map without entries.
    #[verifier::external_body]
    pub fn new() -> (map: DeviceInterruptMap)
        ensures
            interrupt_lists(map) == no_lists(),
    {
        DeviceInterruptMap { map: hashbrown::HashMap::new() }
    }

    /// A copy of the list of `irq`: `hashbrown::HashMap::get` finds the value
    /// stored under the key, or nothing when the key is absent.
    #[verifier::external_body]
    fn get(&self, irq: u8) -> (r: Option<Vec<DriverId>>)
        ensures
            match r {
                None => !interrupt_lists(*self).contains_key(irq),
                Some(l) => interrupt_lists(*self).contains_key(irq) && l@ == interrupt_lists(*self)[irq],
            },
    {
        self.map.get(&irq).cloned()
    }

    /// Stores `list` under `irq`: `hashbrown::HashMap::insert` replaces the
    /// value of a present key and adds an absent one.
    #[verifier::external_body]
    fn insert(&mut self, irq: u8, list: Vec<DriverId>)
        ensures
            interrupt_lists(*final(self)) == interrupt_lists(*old(self)).insert(irq, list@),
    {
        let _ = self.map.insert(irq, list);
    }

    /// The drivers to notify when `irq` fires, in registration order; none
    /// when no driver registered for it.
    pub fn drivers_for(&self, irq: u8) -> (r: Vec<DriverId>)
        ensures
            r@ == (if interrupt_lists(*self).contains_key(irq) {
                interrupt_lists(*self)[irq]
            } else {
                Seq::<u64>::empty()
            }),
    {
        match self.get(irq) {
            Some(list) => list,
            None => Vec::new(),
        }
    }
}

/// The lists after `driver` registered for `irq`: appended to the list of
/// `irq`, which is created when it does not exist yet.
pub open spec fn registered(lists: Map<u8, Seq<u64>>, driver: DriverId, irq: u8) -> Map<u8, Seq<u64>> {
    if lists.contains_key(irq) {
        lists.insert(irq, lists[irq].push(driver))
    } else {
        lists.insert(irq, seq![driver])
    }
}

/// Registers `driver` to be notified of the interrupt line `irq`. Always
/// succeeds.
pub fn register_device_interrupt(map: &mut DeviceInterruptMap, driver: DriverId, irq: u8) -> (r: bool)
    ensures
        r,
        interrupt_lists(*final(map)) == registered(interrupt_lists(*old(map)), driver, irq),
{
    match map.get(irq) {
        Some(mut list) => {
            list.push(driver);
            map.insert(irq, list);
        },
        None => {
            let mut list: Vec<DriverId> = Vec::new();
            list.push(driver);
            proof {
                assert(list@ =~= seq![driver]);
            }
            map.insert(irq, list);
        },
    }
    true
}

/// Registering a driver for one line leaves the lists of every other line as
/// they were.
pub proof fn lemma_register_keeps_other_lines(
    lists: Map<u8, Seq<u64>>,
    driver: DriverId,
    irq: u8,
    other: u8,
)
    requires
        other != irq,
    ensures
        registered(lists, driver, irq).contains_key(other) == lists.contains_key(other),
        lists.contains_key(other) ==> registered(lists, driver, irq)[other] == lists[other],
{
}

/// A registered driver is notified of its line, after the drivers that
/// registered before it.
pub proof fn lemma_register_appends(lists: Map<u8, Seq<u64>>, driver: DriverId, irq: u8)
    ensures
        registered(lists, driver, irq).contains_key(irq),
        registered(lists, driver, irq)[irq].last() == driver,
        registered(lists, driver, irq)[irq].drop_last() == (if lists.contains_key(irq) {
            lists[irq]
        } else {
            Seq::<u64>::empty()
        }),
{
    if lists.contains_key(irq) {
        assert(lists[irq].push(driver).drop_last() =~= lists[irq]);
    } else {
        assert(seq![driver].drop_last() =~= Seq::<u64>::empty());
    }
}

/// Whether a device of the PCI class `pci_class` can control a bus of its own
/// devices: IDE controllers can.
pub fn can_be_bus_controller(pci_class: PciDeviceClass) -> (r: bool)
    ensures
        r == (pci_class == PciDeviceClass::MassStorageController(MassStorageControllerSubclass::Ide)),
{
    match pci_class {
        PciDeviceClass::MassStorageController(MassStorageControllerSubclass::Ide) => true,
        _ => false,
    }
}

/// Whether a driver fits a device: bus drivers go to bus controllers, the
/// other drivers to the other devices.
pub fn driver_fits(device_can_be_bus_controller: bool, driver_supports_bus: bool) -> (r: bool)
    ensures
        r == (device_can_be_bus_controller == driver_supports_bus),
{
    !((device_can_be_bus_controller && !driver_supports_bus) || (!device_can_be_bus_controller
        && driver_supports_bus))
}

/// The interrupt vectors that devices may use: 32 to 255 but the system-call
/// vector 0x80.
pub fn device_interrupt_vectors() -> (r: Vec<u8>)
    ensures
        forall|v: u8| #[trigger] r@.contains(v) <==> (32 <= v && v != 0x80),
        forall|i: int, j: int| 0 <= i < j < r@.len() ==> r@[i] < r@[j],
{
    let mut out: Vec<u8> = Vec::new();
    let mut i: u16 = 32;
    while i <= 255
        invariant
            32 <= i <= 256,
            forall|v: u8| #[trigger] out@.contains(v) <==> (32 <= v < i && v != 0x80),
            forall|a: int, b: int| 0 <= a < b < out@.len() ==> out@[a] < out@[b],
            forall|a: int| 0 <= a < out@.len() ==> out@[a] < i,
        decreases 256 - i,
    {
        if i != 0x80 {
            let ghost before = out@;
            out.push(i as u8);
            proof {
                assert forall|v: u8| #[trigger] out@.contains(v) <==> (32 <= v < i + 1 && v != 0x80) by {
                    if 32 <= v < i + 1 && v != 0x80 && v != i {
                        assert(before.contains(v));
                        let k = choose|k: int| 0 <= k < before.len() && before[k] == v;
                        assert(out@[k] == v);
                    }
                    if v == i {
                        assert(out@[before.len() as int] == v);
                    }
                    if out@.contains(v) {
                        let k = choose|k: int| 0 <= k < out@.len() && out@[k] == v;
                        if k < before.len() {
                            assert(before[k] == v);
                            assert(before.contains(v));
                        }
                    }
                }
            }
        }
        i = i + 1;
    }
    out
}

} // verus!
