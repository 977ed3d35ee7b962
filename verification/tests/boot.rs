use axiom_os::boot::{build_block, BootInfo, ElfSection, MemoryArea};
use axiom_os::error::AxiomOsErr;
use axiom_os::report::startup_report;

fn le32(x: u32) -> Vec<u8> {
    vec![x as u8, (x >> 8) as u8, (x >> 16) as u8, (x >> 24) as u8]
}

fn area(base_addr: u64, length: u64, typ: u32) -> MemoryArea {
    MemoryArea {
        base_addr,
        length,
        typ,
    }
}

fn section(addr: u64, size: u64, flags: u64) -> ElfSection {
    ElfSection {
        name_index: 1,
        section_type: 1,
        flags,
        addr,
        offset: 0,
        size,
    }
}

#[test]
fn memory_map_round_trip() {
    let areas = vec![
        area(0x100000, 0x1000, 1),
        area(0x9fc00, 0x400, 2),
        area(0xfeed0000, 0x10000, 1),
    ];
    let block = build_block(&areas, &Vec::new());
    let info = BootInfo::load(block).expect("well-formed block");
    let parsed = info.memory_map().expect("memory map present");
    assert_eq!(parsed, areas);
}

#[test]
fn elf_sections_round_trip() {
    let sections = vec![section(0x200000, 0x8000, 0x6), section(0x208000, 0x100, 0x2)];
    let block = build_block(&Vec::new(), &sections);
    let info = BootInfo::load(block).expect("well-formed block");
    let parsed = info.elf_sections().expect("section table present");
    assert_eq!(parsed, sections);
}

#[test]
fn concrete_single_area_block() {
    let areas = vec![area(0x100000, 0x1000, 1)];
    let block = build_block(&areas, &Vec::new());
    // header + one 32-byte memory-area record + sentinel
    assert_eq!(block.len(), 48);
    let info = BootInfo::load(block).expect("well-formed block");
    let parsed = info.memory_map().expect("memory map present");
    assert_eq!(parsed.len(), 1);
    assert_eq!(parsed[0].start_address(), 0x100000);
    assert_eq!(parsed[0].size(), 0x1000);
    assert_eq!(parsed[0].typ, 1);
    assert!(info.elf_sections().is_none());
    let (lines, err) = startup_report(&info);
    assert_eq!(err, Some(AxiomOsErr::CannotGetElfSectionTag));
    assert_eq!(
        lines,
        vec![
            "memory address:".to_string(),
            "    start: 0x100000, length: 0x1000".to_string(),
        ]
    );
}

#[test]
fn full_report_lines() {
    let areas = vec![area(0, 0, 1)];
    let sections = vec![section(0xdeadbeef, 0xcafe, 0x7)];
    let block = build_block(&areas, &sections);
    let info = BootInfo::load(block).expect("well-formed block");
    let (lines, err) = startup_report(&info);
    assert_eq!(err, None);
    assert_eq!(
        lines,
        vec![
            "memory address:".to_string(),
            "    start: 0x0, length: 0x0".to_string(),
            "kernel sections:".to_string(),
            "    addr: 0xdeadbeef, size: 0xcafe, flags: 0x7".to_string(),
            "Hello, AxiomOS!".to_string(),
        ]
    );
}

#[test]
fn missing_memory_map() {
    // a block holding only the sentinel record
    let mut block = Vec::new();
    block.extend(le32(16)); // total_size
    block.extend(le32(0)); // reserved
    block.extend(le32(0)); // sentinel type
    block.extend(le32(8)); // sentinel size
    let info = BootInfo::load(block).expect("well-formed block");
    assert!(info.memory_map().is_none());
    let (lines, err) = startup_report(&info);
    assert_eq!(err, Some(AxiomOsErr::CannotGetMemoryMapTag));
    assert!(lines.is_empty());
}

#[test]
fn tag_overruns_bound() {
    let mut block = Vec::new();
    block.extend(le32(24)); // total_size
    block.extend(le32(0));
    block.extend(le32(1)); // some unrecognized tag
    block.extend(le32(64)); // declared size overruns the 24-byte bound
    block.extend(le32(0));
    block.extend(le32(8));
    assert!(matches!(
        BootInfo::load(block),
        Err(AxiomOsErr::MalformedBootInfo)
    ));
}

#[test]
fn tag_size_below_header() {
    let mut block = Vec::new();
    block.extend(le32(24));
    block.extend(le32(0));
    block.extend(le32(1));
    block.extend(le32(4)); // smaller than the 8-byte record header
    block.extend(le32(0));
    block.extend(le32(8));
    assert!(matches!(
        BootInfo::load(block),
        Err(AxiomOsErr::MalformedBootInfo)
    ));
}

#[test]
fn missing_sentinel() {
    let mut block = Vec::new();
    block.extend(le32(16));
    block.extend(le32(0));
    block.extend(le32(1)); // ordinary record filling the block, no sentinel
    block.extend(le32(8));
    assert!(matches!(
        BootInfo::load(block),
        Err(AxiomOsErr::MalformedBootInfo)
    ));
}

#[test]
fn total_size_overruns_bytes() {
    let mut block = Vec::new();
    block.extend(le32(64)); // declares more than is there
    block.extend(le32(0));
    block.extend(le32(0));
    block.extend(le32(8));
    assert!(matches!(
        BootInfo::load(block),
        Err(AxiomOsErr::MalformedBootInfo)
    ));
}

#[test]
fn block_too_short() {
    assert!(matches!(
        BootInfo::load(vec![4, 0, 0]),
        Err(AxiomOsErr::MalformedBootInfo)
    ));
}

#[test]
fn undersized_memory_area_record() {
    let mut block = Vec::new();
    block.extend(le32(32));
    block.extend(le32(0));
    block.extend(le32(6)); // memory-area tag type
    block.extend(le32(16)); // too small for its payload
    block.extend(le32(0));
    block.extend(le32(0));
    block.extend(le32(0));
    block.extend(le32(8));
    assert!(matches!(
        BootInfo::load(block),
        Err(AxiomOsErr::MalformedBootInfo)
    ));
}

#[test]
fn unrecognized_tags_are_skipped() {
    // an unrecognized record between two memory areas, with padding
    let mut block = Vec::new();
    let areas = vec![area(0x1000, 0x100, 1), area(0x2000, 0x200, 2)];
    block.extend(le32(8 + 32 + 16 + 32 + 8));
    block.extend(le32(0));
    // first memory area
    block.extend(le32(6));
    block.extend(le32(32));
    block.extend(le32(0x1000));
    block.extend(le32(0));
    block.extend(le32(0x100));
    block.extend(le32(0));
    block.extend(le32(1));
    block.extend(le32(0));
    // unrecognized record of size 12, padded to 16
    block.extend(le32(42));
    block.extend(le32(12));
    block.extend(le32(7));
    block.extend(le32(0));
    // second memory area
    block.extend(le32(6));
    block.extend(le32(32));
    block.extend(le32(0x2000));
    block.extend(le32(0));
    block.extend(le32(0x200));
    block.extend(le32(0));
    block.extend(le32(2));
    block.extend(le32(0));
    // sentinel
    block.extend(le32(0));
    block.extend(le32(8));
    let info = BootInfo::load(block).expect("well-formed block");
    assert_eq!(info.memory_map().expect("memory map present"), areas);
}

#[test]
fn error_messages() {
    assert_eq!(
        AxiomOsErr::MalformedBootInfo.message(),
        "Malformed boot information"
    );
    assert_eq!(
        AxiomOsErr::CannotGetMemoryMapTag.message(),
        "Memory map tag required"
    );
    assert_eq!(
        AxiomOsErr::CannotGetElfSectionTag.message(),
        "Elf-sections tag required"
    );
}
