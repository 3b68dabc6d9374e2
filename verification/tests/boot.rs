use sparreal::boot::{
    find_acpi_rsdp, map_boot_regions, pick_earlycon, region_config, region_mappings, setup_allocator,
    AccessFlags, BootLayout, ConfigTableEntry, ConfigTableKind, ConsoleBase, MemAttributes, MemConfig,
    MemoryKind, MemoryRegion, RegionMapping, GB, MB,
};
use sparreal::layout::TableGeneric;
use sparreal::table::{FramAllocator, PageTable, Pte};

fn boot_layout() -> BootLayout {
    BootLayout {
        kernel_start: 0x4020_0000,
        code_start: 0x4020_0000,
        code_end: 0x4030_0000,
        code_vaddr: 0x8000_0000,
        debug_base: 0x0900_0123,
        normal_pte: Pte { paddr: 0, valid: true, is_huge: false, attrs: 0x711 },
        device_pte: Pte { paddr: 0, valid: true, is_huge: false, attrs: 0x401 },
    }
}

#[test]
fn boot_regions_are_mapped() {
    // one level of 4096 entries of one mebibyte each
    let l = TableGeneric { page_size: MB, level: 1, max_block_level: 0, index_bits: 12, table_len: 4096 };
    let mut t = PageTable::new(l, FramAllocator { start: 0x1000_0000, frame_count: 1 }).unwrap();
    assert_eq!(map_boot_regions(&mut t, boot_layout()), Ok(()));
    let mut w = t.walk_valid();
    let mut n = 0;
    let mut saw_code = false;
    let mut saw_uart = false;
    while let Some(info) = w.next() {
        n += 1;
        if info.pte.paddr == 0x4020_0000 && info.pte.attrs == 0x711 && info.vaddr != 0x4020_0000 {
            saw_code = true;
        }
        if info.pte.paddr == 0x0900_0000 {
            assert_eq!(info.pte.attrs, 0x401);
            saw_uart = true;
        }
    }
    // the gibibyte, two code pages of one mebibyte, and the UART page
    assert_eq!(n, (GB / MB) + 2 + 1);
    assert!(saw_code);
    assert!(saw_uart);
}

#[test]
fn boot_regions_stop_at_the_first_failure() {
    let l = TableGeneric { page_size: MB, level: 1, max_block_level: 0, index_bits: 12, table_len: 4096 };
    let mut t = PageTable::new(l, FramAllocator { start: 0x1000_0000, frame_count: 1 }).unwrap();
    // the code lands on the same entries as the kernel gibibyte
    let b = BootLayout { code_vaddr: 0x4000_0000, ..boot_layout() };
    assert!(map_boot_regions(&mut t, b).is_err());
}

#[test]
fn region_configs() {
    assert_eq!(
        region_config(MemoryKind::Mmio),
        MemConfig { access: AccessFlags { read: true, write: true, execute: false }, attrs: MemAttributes::Device }
    );
    assert_eq!(
        region_config(MemoryKind::Normal),
        MemConfig { access: AccessFlags { read: true, write: true, execute: true }, attrs: MemAttributes::Normal }
    );
    let regions = vec![
        MemoryRegion { physical_start: 0x4000_0000, size_in_bytes: 0x1000_0000, kind: MemoryKind::Normal },
        MemoryRegion { physical_start: 0x0900_0000, size_in_bytes: 0x1000, kind: MemoryKind::Mmio },
    ];
    let maps = region_mappings(&regions);
    assert_eq!(
        maps,
        vec![
            RegionMapping { paddr: 0x4000_0000, size: 0x1000_0000, config: region_config(MemoryKind::Normal), flush: false },
            RegionMapping { paddr: 0x0900_0000, size: 0x1000, config: region_config(MemoryKind::Mmio), flush: false },
        ]
    );
}

#[test]
fn the_last_acpi_entry_is_the_root() {
    let entries = vec![
        ConfigTableEntry { kind: ConfigTableKind::Acpi2, address: 0x1000 },
        ConfigTableEntry { kind: ConfigTableKind::Other, address: 0x2000 },
        ConfigTableEntry { kind: ConfigTableKind::Acpi1, address: 0x3000 },
        ConfigTableEntry { kind: ConfigTableKind::Other, address: 0x4000 },
    ];
    assert_eq!(find_acpi_rsdp(&entries), Some(0x3000));
    assert_eq!(find_acpi_rsdp(&entries[..2].to_vec()), Some(0x1000));
    assert_eq!(find_acpi_rsdp(&vec![ConfigTableEntry { kind: ConfigTableKind::Other, address: 1 }]), None);
}

#[test]
fn the_first_readable_console_is_taken() {
    let bases = vec![ConsoleBase::Missing, ConsoleBase::Unreadable, ConsoleBase::Found(0x900_0000), ConsoleBase::Found(0x1000)];
    assert_eq!(pick_earlycon(&bases), Some((2, 0x900_0000)));
    assert_eq!(pick_earlycon(&vec![ConsoleBase::Missing]), None);
    setup_allocator();
}
