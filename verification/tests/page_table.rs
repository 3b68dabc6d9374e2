use sparreal::layout::{Frame, TableGeneric};
use sparreal::table::{FramAllocator, MapConfig, PageTable, PagingError, Pte};
use sparreal::walker::{PteInfo, WalkConfig};

fn small_layout(max_block_level: usize) -> TableGeneric {
    TableGeneric { page_size: 0x1000, level: 2, max_block_level, index_bits: 2, table_len: 4 }
}

fn arm_layout() -> TableGeneric {
    TableGeneric { page_size: 0x1000, level: 4, max_block_level: 3, index_bits: 9, table_len: 512 }
}

fn template(attrs: u64) -> Pte {
    Pte { paddr: 0, valid: false, is_huge: false, attrs }
}

fn collect(t: &PageTable) -> Vec<PteInfo> {
    let mut w = t.walk_valid();
    let mut out = Vec::new();
    while let Some(info) = w.next() {
        out.push(info);
    }
    out
}

#[test]
fn level_size_of_each_level() {
    let l = arm_layout();
    assert_eq!(Frame::level_size(&l, 1), 0x1000);
    assert_eq!(Frame::level_size(&l, 2), 0x20_0000);
    assert_eq!(Frame::level_size(&l, 3), 0x4000_0000);
    assert_eq!(Frame::level_size(&l, 4), 0x80_0000_0000);
    // the size of an entry does not depend on where blocks are allowed
    let no_blocks = TableGeneric { max_block_level: 1, ..l };
    assert_eq!(Frame::level_size(&no_blocks, 3), 0x4000_0000);
    for level in 1..4 {
        assert_eq!(Frame::level_size(&l, level + 1), Frame::level_size(&l, level) << 9);
    }
}

#[test]
fn virt_to_index_of_each_level() {
    let l = arm_layout();
    let v = (4usize << 39) | (3 << 30) | (2 << 21) | (1 << 12);
    assert_eq!(v, 0x200_C040_1000);
    for level in 1..=4 {
        assert_eq!(Frame::virt_to_index(&l, v, level), level);
    }
    // an index and its level give back the address of the entry
    let mut base = 0;
    for level in (1..=4).rev() {
        base = Frame::reconstruct_vaddr(&l, Frame::virt_to_index(&l, v, level), level, base);
    }
    assert_eq!(base, v);
}

#[test]
fn entry_addresses() {
    let l = arm_layout();
    let f = Frame { paddr: 0x8000_0000 };
    assert_eq!(f.index_to_vaddr(&l, 3, 2, 0x1000), 0x1000 + 3 * 0x20_0000);
    assert_eq!(Frame::calculate_vaddr_for_entry(&l, 3, 1, 0x1000), 0x1000 + 3 * 0x1000);
    assert_eq!(Frame::calculate_vaddr_for_entry(&l, 2, 3, 0), 2 * 0x4000_0000);
    assert_eq!(Frame::reconstruct_vaddr(&l, 5, 1, 0x10_0000), 0x10_0000 + 5 * 0x1000);
    assert_eq!(Frame::reconstruct_vaddr(&l, 5, 4, 0), 5 * 0x80_0000_0000);
    // the three ways to compute an entry's address agree at every level
    for level in 1..=4 {
        for (index, base) in [(0, 0), (7, 0x20_0000), (511, 0x1000)] {
            let a = f.index_to_vaddr(&l, index, level, base);
            assert_eq!(a, Frame::calculate_vaddr_for_entry(&l, index, level, base));
            assert_eq!(a, Frame::reconstruct_vaddr(&l, index, level, base));
        }
    }
}

#[test]
fn new_needs_a_frame() {
    let l = small_layout(1);
    let r = PageTable::new(l, FramAllocator { start: 0x10_0000, frame_count: 0 });
    assert!(matches!(r, Err(PagingError::NoMemory)));
    let t = PageTable::new(l, FramAllocator { start: 0x10_0000, frame_count: 1 }).unwrap();
    assert_eq!(t.root_paddr_exec(), 0x10_0000);
    assert!(collect(&t).is_empty());
}

#[test]
fn map_checks_its_arguments() {
    let l = small_layout(1);
    let mut t = PageTable::new(l, FramAllocator { start: 0x10_0000, frame_count: 8 }).unwrap();
    let base = MapConfig { vaddr: 0, paddr: 0x20_0000, size: 0x1000, pte: template(1), allow_huge: false, flush: false };
    assert_eq!(t.map(&MapConfig { size: 0, ..base }), Err(PagingError::InvalidSize("Size cannot be zero")));
    assert_eq!(
        t.map(&MapConfig { vaddr: 0x10, ..base }),
        Err(PagingError::AlignmentError("Virtual address not page aligned"))
    );
    assert_eq!(
        t.map(&MapConfig { paddr: 0x20_0010, ..base }),
        Err(PagingError::AlignmentError("Physical address not page aligned"))
    );
    assert_eq!(
        t.map(&MapConfig { vaddr: usize::MAX - 0xfff, size: 0x2000, ..base }),
        Err(PagingError::AddressOverflow("Virtual or physical address overflow"))
    );
    assert_eq!(
        t.map(&MapConfig { paddr: usize::MAX - 0xfff, size: 0x2000, ..base }),
        Err(PagingError::AddressOverflow("Virtual or physical address overflow"))
    );
    assert!(collect(&t).is_empty());
}

#[test]
fn map_pages_and_walk_them_back() {
    let l = small_layout(1);
    let mut t = PageTable::new(l, FramAllocator { start: 0x10_0000, frame_count: 8 }).unwrap();
    let config = MapConfig { vaddr: 0, paddr: 0x20_0000, size: 0x2000, pte: template(5), allow_huge: false, flush: false };
    assert_eq!(t.map(&config), Ok(()));
    let entries = collect(&t);
    assert_eq!(
        entries,
        vec![
            PteInfo { level: 1, vaddr: 0, pte: Pte { paddr: 0x20_0000, valid: true, is_huge: false, attrs: 5 } },
            PteInfo { level: 1, vaddr: 0x1000, pte: Pte { paddr: 0x20_1000, valid: true, is_huge: false, attrs: 5 } },
        ]
    );
}

#[test]
fn map_part_of_a_page() {
    let l = small_layout(1);
    let mut t = PageTable::new(l, FramAllocator { start: 0x10_0000, frame_count: 8 }).unwrap();
    let config = MapConfig { vaddr: 0x3000, paddr: 0x5000, size: 0x10, pte: template(2), allow_huge: false, flush: false };
    assert_eq!(t.map(&config), Ok(()));
    let entries = collect(&t);
    assert_eq!(entries.len(), 1);
    assert_eq!(entries[0].pte, Pte { paddr: 0x5000, valid: true, is_huge: false, attrs: 2 });
}

#[test]
fn map_blocks_at_the_root() {
    let l = small_layout(2);
    let mut t = PageTable::new(l, FramAllocator { start: 0x10_0000, frame_count: 1 }).unwrap();
    let config = MapConfig { vaddr: 0x4000, paddr: 0x40_0000, size: 0x8000, pte: template(9), allow_huge: true, flush: false };
    assert_eq!(t.map(&config), Ok(()));
    let entries = collect(&t);
    assert_eq!(
        entries,
        vec![
            PteInfo { level: 2, vaddr: 0x4000, pte: Pte { paddr: 0x40_0000, valid: true, is_huge: true, attrs: 9 } },
            PteInfo { level: 2, vaddr: 0x8000, pte: Pte { paddr: 0x40_4000, valid: true, is_huge: true, attrs: 9 } },
        ]
    );
    assert_eq!(t.frame_count(), 1);
}

#[test]
fn mapping_a_page_twice_conflicts() {
    let l = small_layout(1);
    let mut t = PageTable::new(l, FramAllocator { start: 0x10_0000, frame_count: 8 }).unwrap();
    let config = MapConfig { vaddr: 0, paddr: 0x20_0000, size: 0x1000, pte: template(5), allow_huge: false, flush: false };
    assert_eq!(t.map(&config), Ok(()));
    let again = MapConfig { paddr: 0x30_0000, ..config };
    assert_eq!(t.map(&again), Err(PagingError::MappingConflict { vaddr: 0, paddr: 0x20_0000 }));
    assert_eq!(collect(&t).len(), 1);
}

#[test]
fn a_table_below_a_block_is_refused() {
    let l = small_layout(2);
    let mut t = PageTable::new(l, FramAllocator { start: 0x10_0000, frame_count: 8 }).unwrap();
    let block = MapConfig { vaddr: 0, paddr: 0x20_0000, size: 0x4000, pte: template(5), allow_huge: true, flush: false };
    assert_eq!(t.map(&block), Ok(()));
    let page = MapConfig { size: 0x1000, allow_huge: false, ..block };
    assert_eq!(t.map(&page), Err(PagingError::HierarchyError("Cannot create page table under huge page")));
    assert_eq!(
        collect(&t),
        vec![PteInfo { level: 2, vaddr: 0, pte: Pte { paddr: 0x20_0000, valid: true, is_huge: true, attrs: 5 } }]
    );
}

#[test]
fn running_out_of_frames() {
    let l = small_layout(1);
    let mut t = PageTable::new(l, FramAllocator { start: 0x10_0000, frame_count: 2 }).unwrap();
    // the two pages sit under two root entries, which need two leaf tables
    let config = MapConfig { vaddr: 0x3000, paddr: 0x20_0000, size: 0x2000, pte: template(5), allow_huge: false, flush: false };
    assert_eq!(t.map(&config), Err(PagingError::NoMemory));
    assert_eq!(t.frame_count(), 2);
    // the first page went in before the area ran out
    assert_eq!(collect(&t).len(), 1);
}

#[test]
fn walk_a_range_and_invalid_entries() {
    let l = small_layout(1);
    let mut t = PageTable::new(l, FramAllocator { start: 0x10_0000, frame_count: 8 }).unwrap();
    let config = MapConfig { vaddr: 0, paddr: 0x20_0000, size: 0x1000, pte: template(5), allow_huge: false, flush: false };
    assert_eq!(t.map(&config), Ok(()));
    let mut w = t.walk(WalkConfig { start_vaddr: 0, end_vaddr: 0x2000, visit_invalid: true });
    let mut out = Vec::new();
    while let Some(info) = w.next() {
        out.push(info);
    }
    // entry 0 of the leaf table under root entry 0 is valid, entry 1 is
    // invalid, and entry 2 stands for 0x2000, the end, which ends the walk
    assert_eq!(out.len(), 2);
    assert!(out[0].pte.valid);
    assert_eq!(out[1].level, 1);
    assert_eq!(out[1].vaddr, 0x1000);
    assert!(!out[1].pte.valid);
    assert_eq!(w.next(), None);

    let mut empty = t.walk(WalkConfig { start_vaddr: 0x2000, end_vaddr: 0x2000, visit_invalid: true });
    assert_eq!(empty.next(), None);
}

#[test]
fn usable_formats() {
    assert!(arm_layout().is_valid());
    assert!(small_layout(1).is_valid());
    assert!(!TableGeneric { page_size: 0x1800, ..arm_layout() }.is_valid());
    assert!(!TableGeneric { table_len: 500, ..arm_layout() }.is_valid());
    assert!(!TableGeneric { level: 0, ..arm_layout() }.is_valid());
    assert!(!TableGeneric { level: 8, ..arm_layout() }.is_valid());
}

#[test]
fn later_maps_keep_earlier_ones() {
    let l = small_layout(1);
    let mut t = PageTable::new(l, FramAllocator { start: 0x10_0000, frame_count: 8 }).unwrap();
    let first = MapConfig { vaddr: 0, paddr: 0x20_0000, size: 0x1000, pte: template(1), allow_huge: false, flush: false };
    let second = MapConfig { vaddr: 0x2000, paddr: 0x50_0000, size: 0x1000, pte: template(2), allow_huge: false, flush: false };
    assert_eq!(t.map(&first), Ok(()));
    assert_eq!(t.map(&second), Ok(()));
    // a failed map leaves both in place too
    assert!(t.map(&MapConfig { size: 0x2000, ..first }).is_err());
    let ptes: Vec<Pte> = collect(&t).iter().map(|i| i.pte).collect();
    assert_eq!(
        ptes,
        vec![
            Pte { paddr: 0x20_0000, valid: true, is_huge: false, attrs: 1 },
            Pte { paddr: 0x50_0000, valid: true, is_huge: false, attrs: 2 },
        ]
    );
}

#[test]
fn an_ended_walk_stays_ended() {
    let l = small_layout(1);
    let mut t = PageTable::new(l, FramAllocator { start: 0x10_0000, frame_count: 8 }).unwrap();
    let config = MapConfig { vaddr: 0x1000, paddr: 0x20_0000, size: 0x1000, pte: template(5), allow_huge: false, flush: false };
    assert_eq!(t.map(&config), Ok(()));
    let mut w = t.walk_valid();
    assert!(w.next().is_some());
    assert_eq!(w.next(), None);
    assert_eq!(w.next(), None);
}

#[test]
fn a_range_across_a_table_boundary() {
    let l = arm_layout();
    let mut t = PageTable::new(l, FramAllocator { start: 0x100_0000, frame_count: 64 }).unwrap();
    let config = MapConfig { vaddr: 0x1F_F000, paddr: 0x8000_0000, size: 0x2000, pte: template(3), allow_huge: false, flush: false };
    assert_eq!(t.map(&config), Ok(()));
    // the root, one table at level 3 and 2, and two leaf tables
    assert_eq!(t.frame_count(), 5);
    assert_eq!(
        collect(&t),
        vec![
            PteInfo { level: 1, vaddr: 0x1F_F000, pte: Pte { paddr: 0x8000_0000, valid: true, is_huge: false, attrs: 3 } },
            PteInfo { level: 1, vaddr: 0x20_0000, pte: Pte { paddr: 0x8000_1000, valid: true, is_huge: false, attrs: 3 } },
        ]
    );
}

#[test]
fn neighbouring_pages_share_tables() {
    let l = arm_layout();
    let mut t = PageTable::new(l, FramAllocator { start: 0x100_0000, frame_count: 64 }).unwrap();
    let first = MapConfig { vaddr: 0, paddr: 0x10_0000, size: 0x1000, pte: template(1), allow_huge: false, flush: false };
    assert_eq!(t.map(&first), Ok(()));
    assert_eq!(t.frame_count(), 4);
    let second = MapConfig { vaddr: 0x1000, paddr: 0x20_0000, ..first };
    assert_eq!(t.map(&second), Ok(()));
    assert_eq!(t.frame_count(), 4);
    assert_eq!(collect(&t).len(), 2);
}

#[test]
fn blocks_at_the_highest_level_that_fits() {
    let l = arm_layout();
    let mut t = PageTable::new(l, FramAllocator { start: 0x100_0000, frame_count: 64 }).unwrap();
    let config = MapConfig { vaddr: 0x20_0000, paddr: 0x4020_0000, size: 0x40_0000, pte: template(7), allow_huge: true, flush: false };
    assert_eq!(t.map(&config), Ok(()));
    // one table at level 3 and one at level 2 were needed
    assert_eq!(t.frame_count(), 3);
    assert_eq!(
        collect(&t),
        vec![
            PteInfo { level: 2, vaddr: 0x20_0000, pte: Pte { paddr: 0x4020_0000, valid: true, is_huge: true, attrs: 7 } },
            PteInfo { level: 2, vaddr: 0x40_0000, pte: Pte { paddr: 0x4040_0000, valid: true, is_huge: true, attrs: 7 } },
        ]
    );
    // a gibibyte at a gibibyte boundary is one block at level 3
    let gib = MapConfig { vaddr: 0x8000_0000, paddr: 0x8000_0000, size: 0x4000_0000, ..config };
    assert_eq!(t.map(&gib), Ok(()));
    assert_eq!(t.frame_count(), 3);
    assert_eq!(collect(&t)[2], PteInfo { level: 3, vaddr: 0x8000_0000, pte: Pte { paddr: 0x8000_0000, valid: true, is_huge: true, attrs: 7 } });
}

#[test]
fn no_table_below_a_two_mebibyte_block() {
    let l = arm_layout();
    let mut t = PageTable::new(l, FramAllocator { start: 0x100_0000, frame_count: 64 }).unwrap();
    let block = MapConfig { vaddr: 0x20_0000, paddr: 0x20_0000, size: 0x20_0000, pte: template(1), allow_huge: true, flush: false };
    assert_eq!(t.map(&block), Ok(()));
    let page = MapConfig { vaddr: 0x20_1000, paddr: 0x9000, size: 0x1000, pte: template(1), allow_huge: false, flush: false };
    assert_eq!(t.map(&page), Err(PagingError::HierarchyError("Cannot create page table under huge page")));
    assert_eq!(
        collect(&t),
        vec![PteInfo { level: 2, vaddr: 0x20_0000, pte: Pte { paddr: 0x20_0000, valid: true, is_huge: true, attrs: 1 } }]
    );
}

#[test]
fn an_empty_table_walked_with_invalid_entries() {
    let l = arm_layout();
    let t = PageTable::new(l, FramAllocator { start: 0x100_0000, frame_count: 1 }).unwrap();
    let mut w = t.walk(WalkConfig { start_vaddr: 0, end_vaddr: usize::MAX, visit_invalid: true });
    let mut out = Vec::new();
    while let Some(info) = w.next() {
        out.push(info);
    }
    assert_eq!(out.len(), 512);
    for (i, info) in out.iter().enumerate() {
        assert_eq!(info.level, 4);
        assert_eq!(info.vaddr, i << 39);
        assert!(!info.pte.valid);
    }
}

#[test]
fn a_walk_of_a_range_goes_into_the_tables_above_it() {
    let l = arm_layout();
    let mut t = PageTable::new(l, FramAllocator { start: 0x100_0000, frame_count: 64 }).unwrap();
    let config = MapConfig { vaddr: 0x20_0000, paddr: 0x30_0000, size: 0x1000, pte: template(4), allow_huge: false, flush: false };
    assert_eq!(t.map(&config), Ok(()));
    let mut w = t.walk(WalkConfig { start_vaddr: 0x20_0000, end_vaddr: 0x20_1000, visit_invalid: false });
    assert_eq!(
        w.next(),
        Some(PteInfo { level: 1, vaddr: 0x20_0000, pte: Pte { paddr: 0x30_0000, valid: true, is_huge: false, attrs: 4 } })
    );
    assert_eq!(w.next(), None);
    // a range that starts inside a table reaches the entries from its start on
    let mut w = t.walk(WalkConfig { start_vaddr: 0x10_0000, end_vaddr: 0x40_0000, visit_invalid: false });
    assert_eq!(w.next().map(|i| i.vaddr), Some(0x20_0000));
    assert_eq!(w.next(), None);
}

#[test]
fn a_walk_hands_out_entries_in_address_order() {
    let l = arm_layout();
    let mut t = PageTable::new(l, FramAllocator { start: 0x100_0000, frame_count: 64 }).unwrap();
    for (vaddr, paddr) in [(0usize, 0x50_0000usize), (0x20_0000, 0x60_0000), (0x1000, 0x70_0000)] {
        let config = MapConfig { vaddr, paddr, size: 0x1000, pte: template(1), allow_huge: false, flush: false };
        assert_eq!(t.map(&config), Ok(()));
    }
    let order: Vec<(usize, usize)> = collect(&t).iter().map(|i| (i.vaddr, i.pte.paddr)).collect();
    assert_eq!(order, vec![(0, 0x50_0000), (0x1000, 0x70_0000), (0x20_0000, 0x60_0000)]);
}

#[test]
fn the_frames_of_a_table() {
    let l = arm_layout();
    let mut t = PageTable::new(l, FramAllocator { start: 0x100_0000, frame_count: 64 }).unwrap();
    let config = MapConfig { vaddr: 0x1000, paddr: 0x30_0000, size: 0x1000, pte: template(6), allow_huge: false, flush: false };
    assert_eq!(t.map(&config), Ok(()));
    assert_eq!(t.frame_count(), 4);
    for i in 0..4 {
        assert_eq!(t.frame_paddr_at(i), 0x100_0000 + i * 0x1000);
        assert_eq!(t.frame_level(i), 4 - i);
    }
    // the root points to the table at level 3, and the leaf maps the page
    let root_entry = t.frame_entry(0, 0);
    assert_eq!(root_entry.paddr, t.frame_paddr_at(1));
    assert!(root_entry.valid && !root_entry.is_huge);
    assert_eq!(t.frame_entry(3, 1), Pte { paddr: 0x30_0000, valid: true, is_huge: false, attrs: 6 });
    assert!(!t.frame_entry(3, 0).valid);
}

#[test]
fn a_fresh_map_walks_back_page_by_page() {
    let l = arm_layout();
    let mut t = PageTable::new(l, FramAllocator { start: 0x100_0000, frame_count: 64 }).unwrap();
    let config = MapConfig { vaddr: 0x1F_D000, paddr: 0x7000_0000, size: 0x5000, pte: template(9), allow_huge: false, flush: false };
    assert_eq!(t.map(&config), Ok(()));
    let items = collect(&t);
    assert_eq!(items.len(), 5);
    for (k, info) in items.iter().enumerate() {
        assert_eq!(
            *info,
            PteInfo {
                level: 1,
                vaddr: 0x1F_D000 + k * 0x1000,
                pte: Pte { paddr: 0x7000_0000 + k * 0x1000, valid: true, is_huge: false, attrs: 9 },
            }
        );
    }
}
