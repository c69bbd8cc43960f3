use pattern_scanner::process::{
    find_module, lowered_names_match, next_region, pid_action, position_of_lowered,
    process_name_matches, MemoryRegion, ModuleInfo, PidAction, RegionQuery, MEM_COMMIT,
    PAGE_EXECUTE_READ, PAGE_EXECUTE_READWRITE, PAGE_READONLY, PAGE_READWRITE,
};
use pattern_scanner::scanner::{
    plannable_region, read_plan, scan_regions, which_module, ChunkRead, ReadRequest, ScanResult,
    SCAN_CHUNK,
};
use pattern_scanner::{Error, Pattern};

fn module(name: &str, base: usize, size: usize) -> ModuleInfo {
    ModuleInfo { name: name.to_string(), base, size }
}

fn result(address: usize) -> ScanResult {
    ScanResult { address, module: None, offset: None }
}

/// Reads each planned chunk of `mem`, which starts at `base`.
fn fill(plan: &[ReadRequest], base: usize, mem: &[u8]) -> Vec<ChunkRead> {
    plan.iter()
        .map(|q| ChunkRead {
            address: q.address,
            data: Some(mem[q.address - base..q.address - base + q.size].to_vec()),
        })
        .collect()
}

fn addresses(rs: &[ScanResult]) -> Vec<usize> {
    rs.iter().map(|r| r.address).collect()
}

#[test]
fn add_moves_the_address_both_ways() {
    let r = result(0x1000);
    assert_eq!(r.add(0x10), 0x1010);
    assert_eq!(r.add(-0x10), 0xFF0);
    assert_eq!(r.add(0), 0x1000);
    assert_eq!(result(5).add(-10), usize::MAX - 4);
}

#[test]
fn rip_relative_adds_signed_displacement() {
    let r = result(0x1000);
    assert_eq!(r.rip_operand_address(7), 0x1003);
    assert_eq!(r.rip_relative_target(&[0x10, 0, 0, 0], 7), 0x1017);
    assert_eq!(r.rip_relative_target(&[0xF0, 0xFF, 0xFF, 0xFF], 7), 0x1007 - 0x10);
    assert_eq!(r.rip_relative_target(&[0x78, 0x56, 0x34, 0x12, 0xAA], 7), 0x1007 + 0x1234_5678);
    assert_eq!(r.rip_relative_target(&[0, 0, 0, 0x80], 7), 0x1007usize.wrapping_sub(0x8000_0000));
}

#[test]
fn which_module_names_the_first_holder() {
    let mods = vec![module("a.dll", 0x1000, 0x100), module("b.dll", 0x1080, 0x100)];
    assert_eq!(which_module(0x1010, &mods), (Some("a.dll".to_string()), Some(0x10)));
    assert_eq!(which_module(0x1090, &mods), (Some("a.dll".to_string()), Some(0x90)));
    assert_eq!(which_module(0x1100, &mods), (Some("b.dll".to_string()), Some(0x80)));
    assert_eq!(which_module(0x1180, &mods), (None, None));
    assert_eq!(which_module(0xFFF, &mods), (None, None));
}

#[test]
fn find_module_ignores_case() {
    let mods = vec![module("kernel32.dll", 1, 2), module("Client.DLL", 10, 20)];
    let m = find_module(&mods, "CLIENT.dll").unwrap();
    assert_eq!(m.name, "Client.DLL");
    assert_eq!(m.base, 10);
    assert_eq!(m.size, 20);
}

#[test]
fn find_module_reports_missing_name() {
    let mods = vec![module("kernel32.dll", 1, 2)];
    match find_module(&mods, "Client.dll") {
        Err(Error::ModuleNotFound(n)) => assert_eq!(n, "Client.dll"),
        other => panic!("unexpected {:?}", other),
    }
}

#[test]
fn process_names_match_ignoring_case_or_by_part() {
    assert!(process_name_matches("Notepad.EXE", "notepad.exe"));
    assert!(process_name_matches("notepad.exe", "NOTEPAD"));
    assert!(process_name_matches("cs2.exe", ""));
    assert!(!process_name_matches("notepad.exe", "game.exe"));
    assert!(!process_name_matches("pad", "notepad"));
}

#[test]
fn next_region_keeps_committed_readable_ranges() {
    let q = RegionQuery { base: 0x1000, size: 0x2000, state: MEM_COMMIT, protect: PAGE_READWRITE };
    let (r, next) = next_region(&q);
    assert_eq!(next, 0x3000);
    let r = r.unwrap();
    assert_eq!((r.base, r.size), (0x1000, 0x2000));
    let guarded = RegionQuery { protect: PAGE_READWRITE | 0x100, ..q };
    assert!(next_region(&guarded).0.is_none());
    let reserved = RegionQuery { state: 0x2000, protect: PAGE_EXECUTE_READ, ..q };
    assert!(next_region(&reserved).0.is_none());
    assert_eq!(next_region(&reserved).1, 0x3000);
}

#[test]
fn read_plan_chunks_each_region() {
    let regions = [
        MemoryRegion { base: 0x10_0000, size: 0x25000 },
        MemoryRegion { base: 0x90_0000, size: 0 },
        MemoryRegion { base: 0x50_0000, size: 0x10 },
    ];
    let plan = read_plan(&regions, 4);
    let got: Vec<(usize, usize)> = plan.iter().map(|q| (q.address, q.size)).collect();
    assert_eq!(
        got,
        vec![
            (0x10_0000, SCAN_CHUNK + 3),
            (0x11_0000, SCAN_CHUNK + 3),
            (0x12_0000, 0x5000),
            (0x50_0000, 0x10),
        ]
    );
}

#[test]
fn scan_reports_hits_with_modules() {
    let p = Pattern::from_ida("AA ? CC").unwrap();
    let reads = vec![
        ChunkRead { address: 0x1000, data: Some(vec![0, 0xAA, 1, 0xCC, 0xAA, 2, 0xCC, 0]) },
        ChunkRead { address: 0x5000, data: None },
        ChunkRead { address: 0x9000, data: Some(vec![0xAA, 3, 0xCC, 0]) },
    ];
    let mods = vec![module("game.exe", 0x1000, 0x4)];
    let rs = scan_regions(&p, &reads, &mods);
    assert_eq!(addresses(&rs), vec![0x1001, 0x1004, 0x9000]);
    assert_eq!(rs[0].module.as_deref(), Some("game.exe"));
    assert_eq!(rs[0].offset, Some(1));
    assert_eq!(rs[1].module, None);
    assert_eq!(rs[1].offset, None);
}

#[test]
fn scan_reports_a_match_at_the_end_of_a_read() {
    let p = Pattern::from_bytes(&[7, 8]);
    let reads = vec![ChunkRead { address: 0x100, data: Some(vec![7, 8, 0, 7, 8]) }];
    let rs = scan_regions(&p, &reads, &[]);
    assert_eq!(addresses(&rs), vec![0x100, 0x103]);
}

#[test]
fn scan_finds_a_match_ending_at_the_region_end() {
    let p = Pattern::from_ida("48 8B 05").unwrap();
    let region = MemoryRegion { base: 0x1000, size: 4 };
    let mem = [0x90, 0x48, 0x8B, 0x05];
    let plan = read_plan(&[region], p.len());
    let rs = scan_regions(&p, &fill(&plan, 0x1000, &mem), &[]);
    assert_eq!(addresses(&rs), vec![0x1001]);
}

#[test]
fn scan_reads_shorter_than_the_pattern_find_nothing() {
    let p = Pattern::from_bytes(&[1, 2, 3]);
    let reads = vec![ChunkRead { address: 0x100, data: Some(vec![1, 2]) }];
    assert!(scan_regions(&p, &reads, &[]).is_empty());
}

#[test]
fn scan_of_failed_reads_finds_nothing() {
    let p = Pattern::from_bytes(&[1]);
    let reads = vec![ChunkRead { address: 0x100, data: None }];
    assert!(scan_regions(&p, &reads, &[]).is_empty());
}

#[test]
fn chunked_scan_equals_whole_scan() {
    let base = 0x40_0000usize;
    let size = 2 * SCAN_CHUNK + 0x30;
    let mut mem = vec![0u8; size];
    let pat = [0xDE, 0xAD, 0xBE, 0xEF];
    // Hits inside a chunk, straddling each chunk boundary, near the end, and
    // ending at the region's last byte.
    for &at in [5usize, SCAN_CHUNK - 2, 2 * SCAN_CHUNK - 1, size - 10, size - 4].iter() {
        mem[at..at + 4].copy_from_slice(&pat);
    }
    let p = Pattern::from_bytes(&pat);
    let region = MemoryRegion { base, size };
    let plan = read_plan(&[region], p.len());
    assert_eq!(plan.len(), 3);
    let chunked = scan_regions(&p, &fill(&plan, base, &mem), &[]);
    let whole = scan_regions(&p, &[ChunkRead { address: base, data: Some(mem.clone()) }], &[]);
    assert_eq!(addresses(&chunked), addresses(&whole));
    assert_eq!(
        addresses(&chunked),
        vec![
            base + 5,
            base + SCAN_CHUNK - 2,
            base + 2 * SCAN_CHUNK - 1,
            base + size - 10,
            base + size - 4
        ]
    );
}

#[test]
fn region_constants_are_the_win32_values() {
    assert_eq!(MEM_COMMIT, windows::Win32::System::Memory::MEM_COMMIT.0);
    assert_eq!(PAGE_READONLY, windows::Win32::System::Memory::PAGE_READONLY.0);
    assert_eq!(PAGE_READWRITE, windows::Win32::System::Memory::PAGE_READWRITE.0);
    assert_eq!(PAGE_EXECUTE_READ, windows::Win32::System::Memory::PAGE_EXECUTE_READ.0);
    assert_eq!(PAGE_EXECUTE_READWRITE, windows::Win32::System::Memory::PAGE_EXECUTE_READWRITE.0);
}

#[test]
fn plannable_region_checks_the_address_space() {
    assert!(plannable_region(&MemoryRegion { base: 0x1000, size: 0x30000 }, 8));
    assert!(plannable_region(&MemoryRegion { base: usize::MAX, size: 0 }, usize::MAX));
    assert!(plannable_region(&MemoryRegion { base: usize::MAX - 0x10000, size: 0x20000 }, 8));
    assert!(!plannable_region(&MemoryRegion { base: usize::MAX - 0xFFFF, size: 0x20000 }, 8));
    assert!(!plannable_region(&MemoryRegion { base: 0, size: 0x10 }, usize::MAX));
}

#[test]
fn scanning_reads_one_by_one_equals_scanning_them_together() {
    let p = Pattern::from_ida("01 ? 03").unwrap();
    let make = || {
        vec![
            ChunkRead { address: 0x10, data: Some(vec![1, 9, 3, 1, 8, 3, 0]) },
            ChunkRead { address: 0x80, data: None },
            ChunkRead { address: 0x90, data: Some(vec![0, 1, 7, 3, 5]) },
        ]
    };
    let together = addresses(&scan_regions(&p, &make(), &[]));
    let mut one_by_one = Vec::new();
    for read in make() {
        one_by_one.extend(addresses(&scan_regions(&p, &[read], &[])));
    }
    assert_eq!(together, one_by_one);
    assert_eq!(together, vec![0x10, 0x13, 0x91]);
}

#[test]
fn scan_result_clone_keeps_every_field() {
    let r = ScanResult { address: 0x1234, module: Some("a.dll".to_string()), offset: Some(0x34) };
    let c = r.clone();
    assert_eq!((c.address, c.module, c.offset), (0x1234, Some("a.dll".to_string()), Some(0x34)));
}

#[test]
fn lowered_names_match_by_equality_or_part() {
    assert!(lowered_names_match("notepad.exe", "notepad.exe"));
    assert!(lowered_names_match("notepad.exe", "pad"));
    assert!(!lowered_names_match("notepad.exe", "Pad"));
    assert!(!lowered_names_match("pad", "notepad.exe"));
}

#[test]
fn position_of_lowered_finds_the_first_equal_name() {
    let names = vec!["a.dll".to_string(), "b.dll".to_string(), "b.dll".to_string()];
    assert_eq!(position_of_lowered(&names, "b.dll"), Some(1));
    assert_eq!(position_of_lowered(&names, "B.dll"), None);
    assert_eq!(position_of_lowered(&[], "a.dll"), None);
}

#[test]
fn pid_action_steps_the_search_for_a_process() {
    assert_eq!(pid_action(0, None, "game.exe"), PidAction::Skip);
    assert_eq!(pid_action(0, Some("game.exe"), "game.exe"), PidAction::Skip);
    assert_eq!(pid_action(42, None, "game.exe"), PidAction::Inspect);
    assert_eq!(pid_action(42, Some("Game.EXE"), "game.exe"), PidAction::Take);
    assert_eq!(pid_action(42, Some("notepad.exe"), "game.exe"), PidAction::Skip);
    assert_eq!(pid_action(42, Some(""), ""), PidAction::Skip);
}

#[test]
fn empty_pattern_hits_every_byte_read_and_nothing_past_it() {
    let p = Pattern::from_bytes(&[]);
    let reads = vec![ChunkRead { address: 0x100, data: Some(vec![5, 6]) }];
    assert_eq!(addresses(&scan_regions(&p, &reads, &[])), vec![0x100, 0x101]);
    let empty = vec![ChunkRead { address: 0x100, data: Some(vec![]) }];
    assert!(scan_regions(&p, &empty, &[]).is_empty());
}

#[test]
fn empty_pattern_chunked_scan_covers_each_byte_once() {
    let base = 0x7000usize;
    let size = SCAN_CHUNK + 2;
    let mem = vec![0u8; size];
    let p = Pattern::from_bytes(&[]);
    let plan = read_plan(&[MemoryRegion { base, size }], 0);
    let got: Vec<(usize, usize)> = plan.iter().map(|q| (q.address, q.size)).collect();
    assert_eq!(got, vec![(base, SCAN_CHUNK), (base + SCAN_CHUNK, 2)]);
    let rs = addresses(&scan_regions(&p, &fill(&plan, base, &mem), &[]));
    assert_eq!(rs, (base..base + size).collect::<Vec<usize>>());
}

#[test]
fn process_names_differing_in_ascii_case_match() {
    assert!(process_name_matches("CS2.EXE", "cs2.exe"));
    assert!(process_name_matches("cs2.exe", "Cs2.Exe"));
}
