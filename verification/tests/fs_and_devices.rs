use moose::boot::{FramebufferInfo, LimineBootContext, LimineError, LimineResponses, MemoryMapEntry};
use moose::fat::{
    contiguous_runs, fat_entry_offset, link_clusters, next_in_chain, read_entry, scan_free_clusters,
    take_next_cluster, write_entry, BiosParameterBlock, EntryAllocation, EntryScanStep, Fat,
    FatSectorCache, FileSystemError, FreeEntrySearch, FAT_END_OF_FILE_MARK, FAT_FREE_ENTRY,
};
use moose::fat_file::{
    check_open_directory, check_open_file, clusters_for_extension, clusters_to_skip,
    extension_plan, first_cluster, read_plan, shrink_plan, write_plan, ReadStep, WriteStep,
};
use moose::net::{EtherType, Ipv4Addr};
use moose::syscall::write_syscall_text;
use moose::fat_listing::{entry_name, long_name_part, path_step, LongNameAssembly, ListingStep, PathStep};
use moose::terminal::{Font, Terminal};
use moose::vga::{Rgb, Vga};

fn bpb() -> BiosParameterBlock {
    BiosParameterBlock {
        bytes_per_sector: 512,
        sectors_per_cluster: 8,
        reserved_sector_count: 32,
        number_of_fats: 2,
        root_entries_count: 0,
        sectors_per_fat_32: 1000,
        root_directory_first_cluster: 2,
    }
}

#[test]
fn fat_volume_layout() {
    let fat = Fat::new(2048, bpb());
    assert_eq!(fat.fat_start_sector(), 32);
    assert_eq!(fat.root_dir_sectors(), 0);
    assert_eq!(fat.first_data_sector(), 32 + 2000);
    assert_eq!(fat.cluster_size(), 4096);
    assert_eq!(fat.convert_cluster_number_to_sector_number(2), 2032);
    assert_eq!(fat.convert_cluster_number_to_sector_number(5), 2032 + 24);
    assert_eq!(fat.fat_entry_sector(300), 32 + 2);
    assert_eq!(fat.fat_entry_disk_sector(300), 2048 + 32 + 2);
    assert_eq!(fat_entry_offset(300), (300 % 128) * 4);
}

#[test]
fn fat_entries_round_trip() {
    let mut sector = vec![0u8; 512];
    write_entry(&mut sector, 130, 0x0ABC_DEF1);
    assert_eq!(read_entry(&sector, 130), 0x0ABC_DEF1);
    assert_eq!(&sector[8..12], &[0xF1, 0xDE, 0xBC, 0x0A]);
    assert_eq!(read_entry(&sector, 131), 0);
    assert_eq!(next_in_chain(0x0FFF_FFF8), None);
    assert_eq!(next_in_chain(17), Some(17));
}

#[test]
fn fat_sector_cache_loads_once() {
    let mut c = FatSectorCache::empty();
    assert!(c.needs_load(40));
    c.store(40, vec![1u8; 512]);
    assert!(!c.needs_load(40));
    assert!(c.needs_load(41));
}

#[test]
fn chains_group_into_runs() {
    assert_eq!(contiguous_runs(&[5, 6, 7, 20]), vec![(5, 3), (20, 1)]);
    assert_eq!(contiguous_runs(&[]), vec![]);
    assert_eq!(contiguous_runs(&[9, 8, 9, 10]), vec![(9, 1), (8, 3)]);
    let runs = vec![(5, 2), (20, 1)];
    let mut current = None;
    let mut next = 0;
    let mut taken = vec![];
    while let Some(c) = take_next_cluster(&mut current, &runs, &mut next) {
        taken.push(c);
    }
    assert_eq!(taken, vec![5, 6, 20]);
}

#[test]
fn free_cluster_search_skips_reserved_entries() {
    let mut sector = vec![0xFFu8; 512];
    for e in [0usize, 1, 3, 4, 7] {
        sector[e * 4..e * 4 + 4].copy_from_slice(&[0, 0, 0, 0]);
    }
    let mut free = vec![];
    assert!(scan_free_clusters(0, &sector, 2, &mut free));
    assert_eq!(free, vec![(3, 0), (4, 0)]);
    let mut all = vec![];
    assert!(!scan_free_clusters(0, &sector, 10, &mut all));
    assert_eq!(all, vec![(3, 0), (4, 0), (7, 0)]);
    let mut none_wanted = vec![];
    assert!(scan_free_clusters(0, &sector, 0, &mut none_wanted));
    assert_eq!(none_wanted, vec![(3, 0)]);
    assert_eq!(
        link_clusters(&[(3, 0), (4, 0), (7, 0)]),
        vec![(3, 4), (4, 7), (7, FAT_END_OF_FILE_MARK)]
    );
}

#[test]
fn directory_entry_searches() {
    let mut s = FreeEntrySearch::new();
    assert_eq!(s.step(0, b'A', 2), EntryScanStep::Continue);
    assert_eq!(s.step(1, FAT_FREE_ENTRY, 2), EntryScanStep::Continue);
    assert_eq!(s.step(2, FAT_FREE_ENTRY, 2), EntryScanStep::Found(1));
    let mut t = FreeEntrySearch::new();
    assert_eq!(t.step(0, 0, 2), EntryScanStep::EndOfDirectory);
    let mut a = EntryAllocation::new();
    assert_eq!(a.step(10, 0, b'X', 2), None);
    assert_eq!(a.step(10, 1, 0, 2), None);
    assert_eq!(a.step(11, 0, FAT_FREE_ENTRY, 2), Some((10, 1)));
}

#[test]
fn read_plan_batches_adjacent_clusters() {
    let cs = 512;
    let plan = read_plan(100, 2000, 4096, cs, &[10, 11, 12, 13, 30]).unwrap();
    assert!(!plan.out_of_bounds);
    assert_eq!(
        plan.steps,
        vec![
            ReadStep::Partial { cluster: 10, from: 100, len: 412, to: 0 },
            ReadStep::Clusters { first: 11, count: 3, to: 412 },
            ReadStep::Partial { cluster: 30, from: 0, len: 52, to: 1948 },
        ]
    );
}

#[test]
fn read_plan_errors() {
    assert_eq!(read_plan(10, 100, 50, 512, &[3]).err(), Some(FileSystemError::ReadOutOfBounds));
    let short = read_plan(0, 1024, 4096, 512, &[3]).unwrap();
    assert!(short.out_of_bounds);
    assert_eq!(short.steps, vec![ReadStep::Clusters { first: 3, count: 1, to: 0 }]);
    assert_eq!(clusters_to_skip(1500, 512), 2);
}

#[test]
fn write_plan_merges_partial_clusters() {
    let plan = write_plan(100, 1000, 600, 512, &[7, 8]);
    assert_eq!(
        plan.steps,
        vec![
            WriteStep::Merge { cluster: 7, at: 100, len: 412, from: 0 },
            WriteStep::Whole { cluster: 8, from: 412 },
        ]
    );
    assert_eq!(plan.remaining, 76);
    assert_eq!(plan.new_file_size, Some(1100));
    let whole = write_plan(0, 512, 1024, 512, &[4, 5]);
    assert_eq!(whole.steps, vec![WriteStep::Whole { cluster: 4, from: 0 }]);
    assert_eq!(whole.new_file_size, None);
}

#[test]
fn extension_takes_one_byte_less_per_cluster() {
    assert_eq!(clusters_for_extension(1100, 512), 2);
    assert_eq!(extension_plan(1100, 50, 512, 3), vec![(511, 50), (511, 561), (77, 1072)]);
}

#[test]
fn shrink_and_open_checks() {
    assert_eq!(shrink_plan(1000, 1000, 512, &[2, 3]), Err(FileSystemError::InvalidArgument));
    assert_eq!(shrink_plan(1000, 600, 512, &[2, 3]), Ok(vec![]));
    assert_eq!(shrink_plan(2000, 100, 512, &[2, 3, 4, 5]), Ok(vec![(3, 0), (4, 0), (5, 0), (2, 0xFFFF_FFFF)]));
    assert_eq!(shrink_plan(2000, 600, 512, &[2]), Err(FileSystemError::InvalidArgument));
    assert_eq!(first_cluster(0x0001, 0x0002), 0x0001_0002);
    assert_eq!(check_open_file(true), Err(FileSystemError::NotAFile));
    assert_eq!(check_open_directory(false), Err(FileSystemError::NotADirectory));
    assert!(check_open_file(false).is_ok());
}

fn responses() -> LimineResponses {
    LimineResponses {
        base_revision_supported: true,
        stack_size: Some(4 << 20),
        paging_mode: Some(0),
        memory_map: Some(vec![MemoryMapEntry { base: 0, length: 0x1000, entry_type: 0 }]),
        hhdm_offset: Some(0xFFFF_8000_0000_0000),
        executable_virtual_base: Some(0xFFFF_FFFF_8000_0000),
        rsdp_address: Some(0xE_0000),
        framebuffers: Some(vec![FramebufferInfo {
            address: 0xFD00_0000,
            width: 1024,
            height: 768,
            pitch: 4096,
            bpp: 32,
            red_mask_shift: 16,
            green_mask_shift: 8,
            blue_mask_shift: 0,
        }]),
    }
}

#[test]
fn boot_context_from_responses() {
    let ctx = LimineBootContext::gather(responses()).ok().unwrap();
    assert_eq!(ctx.physical_memory_offset, 0xFFFF_8000_0000_0000);
    assert_eq!(ctx.framebuffer.width, 1024);
    assert_eq!(ctx.memory_map_entries.len(), 1);
}

#[test]
fn boot_context_errors_in_order() {
    let r = LimineResponses { base_revision_supported: false, ..responses() };
    assert_eq!(LimineBootContext::gather(r).err(), Some(LimineError::UnsupportedRevision));
    let r = LimineResponses { memory_map: None, hhdm_offset: None, ..responses() };
    assert_eq!(LimineBootContext::gather(r).err(), Some(LimineError::MemoryMapUnavailable));
    let r = LimineResponses { rsdp_address: None, ..responses() };
    assert_eq!(LimineBootContext::gather(r).err(), Some(LimineError::RsdpNotFound));
    let r = LimineResponses { framebuffers: Some(vec![]), ..responses() };
    assert_eq!(LimineBootContext::gather(r).err(), Some(LimineError::NoFramebufferAvailable));
    let r = LimineResponses { stack_size: None, ..responses() };
    assert!(LimineBootContext::gather(r).is_ok());
    assert_eq!(LimineError::HhdmNotProvided.message(), "HHDM was not provided");
}

#[test]
fn network_values() {
    assert_eq!(EtherType::from_value(0x0800), Some(EtherType::Ipv4));
    assert_eq!(Ipv4Addr::new([10, 0, 0, 1]).octets(), [10, 0, 0, 1]);
}

#[test]
fn terminal_draws_a_glyph() {
    let vga = Vga::new(64, 32, 32, 16, 8, 0);
    let mut glyphs = vec![vec![0u8; 16]; 128];
    glyphs['A' as usize][0] = 0x80;
    let font = Font::new(glyphs).unwrap();
    let mut t = Terminal::new(vga, font);
    t.print_str("A");
    let fg = Rgb::new(190, 190, 190).0;
    assert_eq!(t.vga().pixel(0, 0), fg);
    assert_eq!(t.vga().pixel(1, 0), 0);
}

#[test]
fn fat_entry_write_leaves_other_entries() {
    let mut sector: Vec<u8> = (0..512u32).map(|i| (i * 7 % 251) as u8).collect();
    let before_entry_5 = read_entry(&sector, 5);
    let before_entry_7 = read_entry(&sector, 135);
    write_entry(&mut sector, 6, 0xDEAD_BEEF);
    assert_eq!(read_entry(&sector, 6), 0xDEAD_BEEF);
    assert_eq!(read_entry(&sector, 134), 0xDEAD_BEEF);
    assert_eq!(read_entry(&sector, 5), before_entry_5);
    assert_eq!(read_entry(&sector, 135), before_entry_7);
}

#[test]
fn write_syscall_text_stops_at_zero() {
    assert_eq!(write_syscall_text(b"hello\0world"), b"hello".to_vec());
    assert_eq!(write_syscall_text(b"no terminator"), b"no terminator".to_vec());
    assert_eq!(write_syscall_text(b"\0abc"), Vec::<u8>::new());
    assert_eq!(write_syscall_text(b""), Vec::<u8>::new());
}

fn units(s: &str, n: usize) -> Vec<u16> {
    let mut v: Vec<u16> = s.encode_utf16().collect();
    if v.len() < n {
        v.push(0);
    }
    while v.len() < n {
        v.push(0xFFFF);
    }
    v
}

#[test]
fn long_name_part_decodes_to_first_zero() {
    assert_eq!(long_name_part(&units("hello", 5), &units("", 6), &units("", 2)), b"hello".to_vec());
    assert_eq!(long_name_part(&units("abcde", 5), &units("fghijk", 6), &units("lm", 2)), b"abcdefghijklm".to_vec());
    assert_eq!(long_name_part(&units("ab", 5), &units("zzzzzz", 6), &units("zz", 2)), b"ab".to_vec());
}

#[test]
fn long_name_part_encodes_utf8() {
    let part = long_name_part(&units("\u{e9}\u{20ac}x", 5), &units("", 6), &units("", 2));
    assert_eq!(part, vec![0xC3, 0xA9, 0xE2, 0x82, 0xAC, b'x']);
    assert_eq!(String::from_utf8(part).unwrap(), "\u{e9}\u{20ac}x");
}

#[test]
fn long_name_assembly_prepends_parts() {
    let mut assembly = LongNameAssembly::new();
    assembly.long_entry(b"lo.txt".to_vec());
    assembly.long_entry(b"Hel".to_vec());
    assert_eq!(assembly.name, b"Hello.txt".to_vec());
    match assembly.short_entry(b"HELLO   TXT") {
        ListingStep::File { long_name, long_entries } => {
            assert_eq!(long_name, Some(b"Hello.txt".to_vec()));
            assert_eq!(long_entries, 2);
        }
        other => panic!("unexpected {:?}", other),
    }
    assert!(!assembly.processing);
    assert!(assembly.name.is_empty());
    match assembly.short_entry(b"PLAIN   TXT") {
        ListingStep::File { long_name, long_entries } => {
            assert_eq!(long_name, None);
            assert_eq!(long_entries, 0);
        }
        other => panic!("unexpected {:?}", other),
    }
    assert!(matches!(assembly.short_entry(&[0xE5, b'A', b'B', b' ', b' ', b' ', b' ', b' ', b'T', b'X', b'T']), ListingStep::Skip));
    assert!(matches!(assembly.short_entry(&[0u8; 11]), ListingStep::End));
}

#[test]
fn long_name_entries_are_read_from_their_bytes() {
    let mut entry = [0u8; 32];
    entry[0] = 0x41;
    entry[1..11].copy_from_slice(&[b'a', 0, b'b', 0, 0x01, 0xD8, 0, 0, 0xFF, 0xFF]);
    entry[11] = 0x0F;
    entry[14..26].copy_from_slice(&[0xFF; 12]);
    entry[28..32].copy_from_slice(&[0x34, 0x12, 0xFF, 0xFF]);
    let chars = moose::fat_listing::long_name_chars(&entry).unwrap();
    assert_eq!(chars.name1, vec![0x61, 0x62, 0xD801, 0, 0xFFFF]);
    assert_eq!(chars.name2, vec![0xFFFF; 6]);
    assert_eq!(chars.name3, vec![0x1234, 0xFFFF]);
    assert!(!moose::fat_listing::is_decodable(&chars.name1));
    assert!(moose::fat_listing::is_decodable(&[0x61, 0, 0xD801]));
    entry[11] = 0x20;
    assert!(moose::fat_listing::long_name_chars(&entry).is_none());
}

#[test]
fn short_entry_size_is_stored_little_endian() {
    let entry: Vec<u8> = (0u8..32).collect();
    let r = moose::fat_listing::short_entry_with_size(&entry, 0x1234_5678);
    assert_eq!(&r[..28], &entry[..28]);
    assert_eq!(&r[28..], &[0x78, 0x56, 0x34, 0x12]);
}

#[test]
fn paths_split_at_slashes_and_names_are_found() {
    let parts = moose::fat_listing::split_path(b"dir/sub//file.txt/");
    assert_eq!(parts, vec![b"dir".to_vec(), b"sub".to_vec(), vec![], b"file.txt".to_vec(), vec![]]);
    assert_eq!(moose::fat_listing::split_path(b""), vec![Vec::<u8>::new()]);
    let names = vec![b"a".to_vec(), b"file.txt".to_vec(), b"file.txt".to_vec()];
    assert_eq!(moose::fat_listing::find_name(&names, b"file.txt"), Some(1));
    assert_eq!(moose::fat_listing::find_name(&names, b"missing"), None);
    let mut entry = [0u8; 32];
    entry[20] = 0x02;
    entry[21] = 0x01;
    entry[26] = 0x04;
    entry[27] = 0x03;
    assert_eq!(moose::fat_listing::entry_first_cluster(&entry), 0x0102_0304);
}

#[test]
fn path_steps_descend_or_find() {
    let mut dir = vec![0u8; 32];
    dir[..11].copy_from_slice(b"DOCS       ");
    dir[20] = 0x01;
    dir[26] = 0x05;
    let names = vec![b"readme.txt".to_vec(), entry_name(&None, &dir)];
    assert_eq!(names[1], b"DOCS       ".to_vec());
    let entries = vec![vec![0u8; 32], dir.clone()];
    assert_eq!(path_step(&names, &entries, b"DOCS       ", false), PathStep::Descend(1, 0x0001_0005));
    assert_eq!(path_step(&names, &entries, b"readme.txt", true), PathStep::Found(0));
    assert_eq!(path_step(&names, &entries, b"other", true), PathStep::NotHere);
    assert_eq!(entry_name(&Some(b"long name".to_vec()), &dir), b"long name".to_vec());
}

#[test]
fn terminal_on_a_tiny_framebuffer_draws_nothing() {
    let vga = Vga::new(4, 4, 32, 16, 8, 0);
    let font = Font::new(vec![vec![0u8; 16]; 128]).unwrap();
    let t = Terminal::new(vga, font);
    assert_eq!(t.vga().width(), 4);
    assert_eq!(t.vga().pixel(3, 3), 0);
}

#[test]
fn fill_rectangle_off_a_multiple_of_four_paints_past_its_end() {
    let mut vga = Vga::new(16, 2, 32, 16, 8, 0);
    vga.fill_rectangle(3, 0, 2, 1, Rgb(7));
    let row: Vec<u32> = (0..16).map(|x| vga.pixel(x, 0)).collect();
    assert_eq!(row, vec![0, 0, 0, 7, 7, 7, 7, 0, 0, 0, 0, 0, 0, 0, 0, 0]);
    vga.fill_rectangle(4, 1, 6, 1, Rgb(9));
    let row: Vec<u32> = (0..16).map(|x| vga.pixel(x, 1)).collect();
    assert_eq!(row, vec![0, 0, 0, 0, 9, 9, 9, 9, 9, 9, 0, 0, 0, 0, 0, 0]);
    let mut edge = Vga::new(5, 1, 32, 16, 8, 0);
    edge.fill_rectangle(3, 0, 2, 1, Rgb(5));
    assert_eq!((0..5).map(|x| edge.pixel(x, 0)).collect::<Vec<u32>>(), vec![0, 0, 0, 5, 5]);
}

#[test]
fn terminal_tells_which_strings_it_can_print() {
    let vga = Vga::new(64, 48, 32, 16, 8, 0);
    let font = Font::new(vec![vec![0u8; 16]; 128]).unwrap();
    let t = Terminal::new(vga, font);
    assert!(t.can_print("plain text\n"));
    assert!(t.can_print("\x1b[31mred\x1b[0m"));
    assert!(t.can_print("\x1b[38;5;200mcube"));
    assert!(!t.can_print("\x1b[38;5;3mlow"));
    assert!(!t.can_print("\x1b[300m"));
    assert!(!t.can_print("\x1b[11111111111111111m"));
}
