use moose::apic::{LocalApic, RegisterAccess};
use moose::arch::{cr0_value, cr4_value, efer_value, missing_cpu_feature, CpuFeatures, MissingFeature};
use moose::ata::{
    words_to_bytes, AtaBusDriver, AtaDiskDriver, AtaIdentityResponse, DiskProbe, IdentifyStatus,
    PhysicalRegionDescriptor, PortByteWrite, ATA_PRD_MARK_END,
};
use moose::clock::{
    frequency_from_window_ticks, tsc_frequency, HpetTimer, HyperVReferenceCounter, KvmClockTimer,
    PitTimer,
};
use moose::gdt::{setup_gdt, tss_selector, GlobalDescriptorTable, SegmentDescriptor, SegmentDescriptorAttributes, SegmentFlags};
use moose::hyperv::VmBusChannel;
use moose::idt::{init_idt, is_handled_exception, GateKind, Idt, IdtAttributes, IdtEntry, Idtr, PrivilegeLevel};
use moose::io::{Device, DeviceProperties, DriverError, PciAddress};
use moose::pci::Pci;

#[test]
fn pci_config_address_layout() {
    assert_eq!(Pci::config_address(1, 2, 3, 0x10), 0x8001_1310);
    assert_eq!(Pci::read_u16(0xAABB_CCDD, 2), 0xAABB);
    assert_eq!(Pci::read_u8(0xAABB_CCDD, 0), 0xDD);
}

#[test]
fn gdt_flat_segments() {
    let t = GlobalDescriptorTable::new();
    assert_eq!(t.kernel_mode_sixty_four_code_segment.attributes, 0x9B);
    assert_eq!(t.kernel_mode_sixty_four_data_segment.attributes, 0x93);
    assert_eq!(t.user_mode_sixty_four_code_segment.attributes, 0xFB);
    assert_eq!(t.user_mode_sixty_four_data_segment.attributes, 0xF3);
    let g = setup_gdt(0x1234_5678_9ABC);
    assert_eq!(g.tss_segments[0].base(), 0x1234_5678_9ABC);
    assert_eq!(tss_selector(1), (9 + 2) * 8 + 3);
}

#[test]
fn segment_descriptor_keeps_base_and_limit() {
    let a = SegmentDescriptorAttributes::new().with_present(true).with_executable(true);
    let d = SegmentDescriptor::new(0x00AB_CDEF, 0xF_1234, a, SegmentFlags::empty());
    assert_eq!(d.base_low, 0xCDEF);
    assert_eq!(d.base_mid, 0xAB);
    assert_eq!(d.base_high, 0x00);
    assert_eq!(d.limit_low, 0x1234);
    assert_eq!(d.flags_and_limit_high & 0xF, 0xF);
}

#[test]
fn idt_attributes_and_entries() {
    let a = IdtAttributes::new()
        .with_kind(GateKind::Trap)
        .with_privilege_level(PrivilegeLevel::Ring3)
        .with_present(true);
    assert_eq!(a.into_bits(), 0xEF);
    assert_eq!(a.kind(), GateKind::Trap);
    assert_eq!(a.privilege_level(), PrivilegeLevel::Ring3);
    assert!(a.present());
    let e = IdtEntry::kernel_mode_ring3_accessible_interrupt(0x1122_3344_5566_7788);
    assert_eq!(e.attributes, 0xEE);
    assert_eq!(e.offset_low, 0x7788);
    assert_eq!(e.selector, 5 << 3);
    assert_eq!(IdtEntry::absent().attributes, 0x6E);
    assert_eq!(Idtr::new(0x5000).limit, 4095);
    let mut idt = Idt::new();
    idt.set_handler(33, 0xDEAD_BEEF);
    assert_eq!(idt.entry(33).offset_low, 0xBEEF);
    assert_eq!(idt.entry(34), IdtEntry::absent());
}

#[test]
fn apic_register_access_modes() {
    let x2 = LocalApic::new(0, true);
    assert_eq!(x2.register_access(0xB0), RegisterAccess::Msr(0x80B));
    let mm = LocalApic::new(0xFEE0_0000, false);
    assert_eq!(mm.register_access(0xB0), RegisterAccess::Memory(0xFEE0_00B0));
    assert_eq!(LocalApic::isr_register(33), 0x110);
    assert!(LocalApic::is_isr(0b10, 33));
    assert!(!LocalApic::is_isr(0b01, 33));
    assert_eq!(LocalApic::base_address(0xFEE0_0900), 0xFEE0_0000);
    assert!(LocalApic::is_bootstrap_processor(0x900));
    assert_eq!(LocalApic::enabled_spurious_vector(0x0F), 0x10F);
    assert!(LocalApic::is_x2apic_supported(1 << 21));
}

#[test]
fn clock_calibration_math() {
    assert_eq!(tsc_frequency(1_000, 31_000), 3_000_000);
    assert_eq!(frequency_from_window_ticks(25), 2_500);
    assert!(PitTimer {}.present());
    assert_eq!(PitTimer::gate_enabled(0xFF), 0xFD);
    assert_eq!(PitTimer::gate_disabled(0xFF), 0xFC);
    assert!(PitTimer::countdown_finished(0x20));
    assert_eq!(PitTimer::countdown_bytes(), (0x9C, 0x2E));
    assert!(HyperVReferenceCounter::window_elapsed(10, 100_010));
    assert!(!HyperVReferenceCounter::window_elapsed(10, 100_009));
    assert_eq!(HpetTimer::period_fs(0x0098_9680_0000_0001), 10_000_000);
    assert_eq!(HpetTimer::ticks_to_wait(0), None);
    assert_eq!(HpetTimer::ticks_to_wait(10_000_000), Some(1_000_000));
    assert_eq!(HpetTimer::counter_enabled(0b100), 0b101);
    assert_eq!(HpetTimer::counter_disabled(0b101), 0b100);
    assert!(KvmClockTimer::snapshot_consistent(2, 2));
    assert!(!KvmClockTimer::snapshot_consistent(3, 3));
    assert!(!KvmClockTimer::snapshot_consistent(0, 0));
    assert!(!KvmClockTimer::snapshot_consistent(2, 4));
    let base = (10_000_000u64 << 32) / 0x8000_0000;
    assert_eq!(KvmClockTimer::window_ticks(0x8000_0000, 0), base);
    assert_eq!(KvmClockTimer::window_ticks(0x8000_0000, 1), base >> 1);
    assert_eq!(KvmClockTimer::window_ticks(0x8000_0000, -1), base << 1);
}

#[test]
fn identify_response_fields() {
    let mut raw = vec![0u8; 512];
    raw[52] = b'B';
    raw[53] = b'A';
    raw[98] = 0x00;
    raw[99] = 0x02;
    raw[114] = 0x78;
    raw[115] = 0x56;
    raw[116] = 0x34;
    raw[117] = 0x12;
    let r = AtaIdentityResponse::parse(&raw);
    assert_eq!(&r.model_number[0..2], b"AB");
    assert_eq!(r.capabilities, 0x0200);
    assert_eq!(r.capacity, 0x1234_5678);
    assert_eq!(words_to_bytes(&[0x1234, 0xABCD]), vec![0x34, 0x12, 0xCD, 0xAB]);
}

fn controller() -> Device {
    Device {
        id: 1,
        vendor_id: 0x8086,
        device_id: 0x7010,
        properties: DeviceProperties::PCI { address: PciAddress::new(0, 1, 1), inner_identificator: 0 },
        driver: None,
        children: vec![],
        can_be_bus_controller: true,
    }
}

#[test]
fn ata_probe_decisions() {
    assert_eq!(AtaBusDriver::identify_poll(0x01), IdentifyStatus::Error);
    assert_eq!(AtaBusDriver::identify_poll(0x58), IdentifyStatus::Ready);
    assert_eq!(AtaBusDriver::identify_poll(0x80), IdentifyStatus::Busy);
    assert!(AtaBusDriver::is_atapi(0x14, 0xEB));
    assert!(!AtaBusDriver::is_atapi(0x00, 0x00));
    let c = controller();
    assert!(AtaBusDriver::check_disk(0, 0, &c, &DiskProbe::NoDevice, 5).is_none());
    assert!(AtaBusDriver::check_disk(0, 0, &c, &DiskProbe::NotAta, 5).is_none());
    let no_dma = AtaIdentityResponse { model_number: vec![0; 40], capabilities: 0, capacity: 1 };
    assert!(AtaBusDriver::check_disk(0, 0, &c, &DiskProbe::Identified(no_dma), 5).is_none());
    let ok = AtaIdentityResponse { model_number: vec![0; 40], capabilities: 0x200, capacity: 1 };
    let d = AtaBusDriver::check_disk(1, 1, &c, &DiskProbe::Identified(ok), 5).unwrap();
    assert_eq!(d.id, 5);
    assert_eq!(d.vendor_id, 0x8086);
    assert_eq!(
        d.properties,
        DeviceProperties::PCI { address: PciAddress::new(0, 1, 1), inner_identificator: 0x101 }
    );
    assert!(!d.can_be_bus_controller);
}

#[test]
fn ata_command_sequences() {
    let cmds = AtaBusDriver::identify_commands(1, 1);
    assert_eq!(cmds[0], PortByteWrite { port: 0x176, value: 0xB0 });
    assert_eq!(cmds[5], PortByteWrite { port: 0x177, value: 0xEC });
    let lba = AtaDiskDriver::lba28_commands(0x1F0, 0x0012_3456);
    assert_eq!(lba[1], PortByteWrite { port: 0x1F3, value: 0x56 });
    assert_eq!(lba[2], PortByteWrite { port: 0x1F4, value: 0x34 });
    assert_eq!(lba[3], PortByteWrite { port: 0x1F5, value: 0x12 });
    let pio = AtaDiskDriver::pio_read_commands(0x1F0, 0x0102_0304_0506);
    assert_eq!(pio.len(), 9);
    assert_eq!(pio[1].value, 0x03);
    assert_eq!(pio[3].value, 0x01);
    assert_eq!(pio[6], PortByteWrite { port: 0x1F3, value: 0x05 });
    assert_eq!(pio[8], PortByteWrite { port: 0x1F7, value: 0x24 });
}

#[test]
fn ata_disk_attachment_values() {
    assert_eq!(AtaDiskDriver::bus_master_base(0xC001), Ok(0xC000));
    assert_eq!(AtaDiskDriver::bus_master_base(0xC000), Err(DriverError::AttachFailed));
    let slot = AtaDiskDriver::disk_slot(0x0101);
    assert_eq!((slot.bus, slot.drive), (1, 1));
    let st = AtaDiskDriver::disk_state(slot, 100, 0x9000, 0x3F4, 0x374, 0xC000, true);
    assert_eq!(AtaDiskDriver::get_io_base(&st), 0x170);
    assert_eq!(AtaDiskDriver::select_drive_value(&st), 0x50);
    assert_eq!(AtaDiskDriver::io_wait_port(&st), 0x170 + 0x374 + 2);
    assert_eq!(AtaDiskDriver::bus_master_ports(&st), (0xC000, 0xC002, 0xC004));
    assert!(AtaDiskDriver::transfer_done(0x08));
    assert!(!AtaDiskDriver::transfer_done(0x88));
    assert_eq!(AtaDiskDriver::cleared_bus_master_status(0x01), 0x07);
}

#[test]
fn prdt_cuts_buffer_at_pages() {
    let translate = |a: u64| Some(a + 0x1000_0000);
    let prdt = AtaDiskDriver::prepare_prdt(0x2F00, 512, 1, &translate).unwrap();
    assert_eq!(
        prdt,
        vec![
            PhysicalRegionDescriptor { buffer_physical_address: 0x1000_2F00, transfer_size: 256, mark_end: 0 },
            PhysicalRegionDescriptor { buffer_physical_address: 0x1000_3000, transfer_size: 256, mark_end: ATA_PRD_MARK_END },
        ]
    );
    let high = |a: u64| Some(a + 0x1_0000_0000);
    assert!(AtaDiskDriver::prepare_prdt(0x2000, 512, 1, &high).is_none());
    let unmapped = |_a: u64| None;
    assert!(AtaDiskDriver::prepare_prdt(0x2000, 512, 1, &unmapped).is_none());
}

#[test]
fn vmbus_framing() {
    let c = VmBusChannel::new(7, 3, 0x4000, 0x4000, 0x10_0000);
    assert_eq!(c.channel_size, 10);
    assert_eq!(c.tx_ring_pages, 5);
    assert_eq!(VmBusChannel::pages_needed(0x4000, 0x4000), 10);
    assert_eq!(c.gpadl_request().byte_count, 10 * 4096);
    assert_eq!(c.open_channel_request(9).outbound_page_offset, 5);
    let mut c2 = c;
    c2.initialize(9);
    assert_eq!((c2.gpadl_id, c2.channel_id), (9, 7));
    let f = VmBusChannel::packet_framing(2, 13);
    assert_eq!((f.padding, f.tx_len, f.packet_len_qword), (3, 40, 4));
    let r = VmBusChannel::received_packet_layout(2, 5).unwrap();
    assert_eq!((r.data_offset, r.data_len, r.consumed_len), (16, 24, 48));
    assert!(VmBusChannel::received_packet_layout(3, 2).is_none());
    let g = VmBusChannel::gpa_direct_layout(0x1F00, 0x200);
    assert_eq!((g.pfn_count, g.header_len, g.starting_byte_offset), (2, 48, 0xF00));
    assert!(VmBusChannel::has_data_to_process(0, 8));
    assert!(!VmBusChannel::has_data_to_process(8, 8));
}

#[test]
fn cpu_features_and_control_registers() {
    let all = CpuFeatures {
        has_64bit_mode: true,
        has_sse: true,
        has_sse2: true,
        has_pge: true,
        has_fsgsbase: true,
        has_execute_disable: true,
    };
    assert_eq!(missing_cpu_feature(all), None);
    assert_eq!(missing_cpu_feature(CpuFeatures { has_sse2: false, has_pge: false, ..all }), Some(MissingFeature::Sse2));
    assert_eq!(MissingFeature::NoExecute.message(), "CPU doesn't support NX/XD");
    assert_eq!(efer_value(0x500), 0xD00);
    assert_eq!(cr0_value(0x4), 0x22);
    assert_eq!(cr4_value(0), 0x10680);
}

#[test]
fn init_idt_installs_kernel_handlers() {
    let exceptions: Vec<u64> = (0..32u64).map(|v| 0x1000 + v).collect();
    let interrupts: Vec<u64> = (0..224u64).map(|i| 0xFFFF_8000_0000_0000 + i * 16).collect();
    let idt = init_idt(&exceptions, &interrupts, 0xDEAD_BEEF_0000);
    let page_fault = idt.entry(14);
    assert_eq!(page_fault, IdtEntry::kernel_mode_ring3_accessible_interrupt(0x1000 + 14));
    assert_eq!(page_fault.selector, 40);
    assert_eq!(page_fault.attributes, 0xEE);
    assert_eq!(idt.entry(1), IdtEntry::absent());
    assert_eq!(idt.entry(15), IdtEntry::absent());
    assert_eq!(idt.entry(31), IdtEntry::absent());
    assert_eq!(idt.entry(30), IdtEntry::kernel_mode_ring3_accessible_interrupt(0x1000 + 30));
    assert_eq!(idt.entry(33), IdtEntry::kernel_mode_ring3_accessible_interrupt(0xFFFF_8000_0000_0010));
    assert_eq!(idt.entry(0x80), IdtEntry::kernel_mode_ring3_accessible_interrupt(0xDEAD_BEEF_0000));
    assert_eq!(idt.entry(255), IdtEntry::kernel_mode_ring3_accessible_interrupt(0xFFFF_8000_0000_0000 + 223 * 16));
    assert!(is_handled_exception(8));
    assert!(!is_handled_exception(9));
}
