//! The early boot mappings of the kernel and the choices made while the
//! firmware hands over: which ACPI table is the root one, which console is
//! used first, and how the memory regions are mapped.
use vstd::prelude::*;
use num_align::NumAlign;
use crate::table::{PageTable, MapConfig, Pte, PagingError, PageTableView, fits_blocks};

verus! {

/// One gibibyte.
pub const GB: usize = 0x4000_0000;
/// One mebibyte.
pub const MB: usize = 0x10_0000;

/// `align_down` of `num_align` on `usize`: `x - x % align`, the largest
/// multiple of `align` that is not above `x`. It divides by `align`, so
/// `align` must not be zero.
pub assume_specification[ <usize as NumAlign>::align_down ](x: usize, align: usize) -> (r: usize)
    requires
        align > 0,
    ensures
        r == x - x % align,
;

/// `align_up` of `num_align` on `usize`: `x` itself when it is a multiple
/// of `align`, else `x + align - x % align`, the next multiple above. It
/// divides by `align`, and for an `x` that is no multiple it adds `align`
/// to `x` before it subtracts, so that sum must fit in a `usize`.
pub assume_specification[ <usize as NumAlign>::align_up ](x: usize, align: usize) -> (r: usize)
    requires
        align > 0,
        x % align != 0 ==> x + align <= usize::MAX,
    ensures
        r == if x % align == 0 { x } else { (x + align - x % align) as usize },
;

/// Where the kernel sits when the boot page table is built.
#[derive(Clone, Copy, Debug)]
pub struct BootLayout {
    /// The start of the kernel image in physical memory.
    pub kernel_start: usize,
    /// The start and end of the kernel code in physical memory.
    pub code_start: usize,
    pub code_end: usize,
    /// The virtual address the kernel code is linked at.
    pub code_vaddr: usize,
    /// The base of the debug UART, or zero when there is none.
    pub debug_base: usize,
    /// The bits of the entries for normal memory and for the device.
    pub normal_pte: Pte,
    pub device_pte: Pte,
}

/// The physical end of the kernel code mapping: the code end rounded up to
/// two mebibytes.
pub open spec fn code_map_end(b: BootLayout) -> int {
    if b.code_end % ((2 * MB) as usize) == 0 { b.code_end as int } else { b.code_end + 2 * MB - b.code_end % ((2 * MB) as usize) }
}

/// What the boot page table maps, byte by byte: the gibibyte around the
/// start of the kernel onto itself, the kernel code (rounded up to two
/// mebibytes) at its link address, and the page of the debug UART onto itself.
pub open spec fn boot_mapped(t: PageTableView, b: BootLayout) -> bool {
    let ps = t.layout.page_size;
    let kstart = b.kernel_start - b.kernel_start % GB;
    let code_size = code_map_end(b) - b.code_start;
    let dbg = b.debug_base - b.debug_base % ps;
    &&& forall|v: usize| kstart <= v < kstart + GB
        ==> #[trigger] t.maps(v, v as int, b.normal_pte.attrs)
    &&& forall|v: usize| b.code_vaddr <= v < b.code_vaddr + code_size
        ==> #[trigger] t.maps(v, b.code_start + (v - b.code_vaddr), b.normal_pte.attrs)
    &&& b.debug_base != 0 ==> forall|v: usize| dbg <= v < dbg + ps
        ==> #[trigger] t.maps(v, v as int, b.device_pte.attrs)
}

/// The mapping of the gibibyte around the kernel start onto itself.
pub open spec fn kernel_map(b: BootLayout) -> MapConfig {
    let start = (b.kernel_start - b.kernel_start % GB) as usize;
    MapConfig { vaddr: start, paddr: start, size: GB, pte: b.normal_pte, allow_huge: true, flush: false }
}

/// The mapping of the kernel code at its link address.
pub open spec fn code_map(b: BootLayout) -> MapConfig {
    MapConfig {
        vaddr: b.code_vaddr,
        paddr: b.code_start,
        size: (code_map_end(b) - b.code_start) as usize,
        pte: b.normal_pte,
        allow_huge: true,
        flush: false,
    }
}

/// The mapping of the page of the debug UART onto itself.
pub open spec fn debug_map(b: BootLayout, page_size: usize) -> MapConfig {
    let start = (b.debug_base - b.debug_base % page_size) as usize;
    MapConfig { vaddr: start, paddr: start, size: page_size, pte: b.device_pte, allow_huge: true, flush: false }
}

/// The three boot mappings made in order on `t`, the first failure ending
/// them, and the table after.
pub open spec fn boot_map_result(t: PageTableView, b: BootLayout) -> (Result<(), PagingError>, PageTableView) {
    let (r1, t1) = t.map_result(kernel_map(b));
    if r1 is Err {
        (r1, t1)
    } else {
        let (r2, t2) = t1.map_result(code_map(b));
        if r2 is Err {
            (r2, t2)
        } else if b.debug_base != 0 {
            t2.map_result(debug_map(b, t.layout.page_size))
        } else {
            (Ok(()), t2)
        }
    }
}

/// Every address of the gibibyte around the kernel start translates
/// through an entry at level `lb` or above.
pub open spec fn kernel_in_blocks(t: PageTableView, b: BootLayout, lb: nat) -> bool {
    let kstart = b.kernel_start - b.kernel_start % GB;
    forall|x: usize| kstart <= x < kstart + GB
        ==> (#[trigger] t.translate(x) matches Some((_, l)) && l >= lb)
}

/// The kernel's blocks stay in every table that extends one that has them.
pub proof fn lemma_kernel_blocks_kept(t1: PageTableView, t2: PageTableView, b: BootLayout, lb: nat)
    requires
        t1.extends(t2),
        kernel_in_blocks(t1, b, lb),
    ensures
        kernel_in_blocks(t2, b, lb),
{
    let kstart = b.kernel_start - b.kernel_start % GB;
    assert forall|x: usize| kstart <= x < kstart + GB
        implies (#[trigger] t2.translate(x) matches Some((_, l)) && l >= lb) by {
        assert(t1.translate(x) matches Some((_, l)) && l >= lb);
        crate::table::lemma_extends_keeps_walk(t1, t2, 0, t1.layout.level as nat, x);
    }
}

/// Builds the early mappings of the kernel into `table`: the gibibyte
/// around the kernel start onto itself, the kernel code at its link
/// address, and, when there is a debug UART, its page onto itself. The
/// first mapping that fails stops the others and gives its error.
pub fn map_boot_regions(table: &mut PageTable, b: BootLayout) -> (r: Result<(), PagingError>)
    requires
        old(table)@.wf(),
        b.code_start <= b.code_end,
        b.code_end % ((2 * MB) as usize) != 0 ==> b.code_end + 2 * MB <= usize::MAX,
    ensures
        final(table)@.wf(),
        old(table)@.extends(final(table)@),
        r is Ok ==> boot_mapped(final(table)@, b),
        (r, final(table)@) == boot_map_result(old(table)@, b),
        forall|lb: nat|
            1 <= lb <= old(table)@.layout.max_block_level && lb <= old(table)@.layout.level
                && #[trigger] old(table)@.layout.level_size(lb) == GB
                && (r is Ok || (r == Err::<(), PagingError>(PagingError::NoMemory)
                    && old(table)@.frames.len() + (old(table)@.layout.level - lb) <= old(table)@.allocator.frame_count))
            ==> kernel_in_blocks(final(table)@, b, lb),
{
    let ghost t0 = table@;
    let page_size = table.layout().page_size;
    proof {
        crate::table::lemma_page_size_positive(table@.layout);
        crate::table::lemma_extends_refl(table@);
    }
    let start = b.kernel_start.align_down(GB);
    let size = GB;
    let kernel = MapConfig { vaddr: start, paddr: start, size, pte: b.normal_pte, allow_huge: true, flush: false };
    let rk = table.map(&kernel);
    proof {
        let ks = start as int;
        let k = b.kernel_start as int;
        let g = GB as int;
        vstd::arithmetic::div_mod::lemma_fundamental_div_mod(k, g);
        vstd::arithmetic::div_mod::lemma_mod_multiples_basic(k / g, g);
        assert(ks == (k / g) * g) by (nonlinear_arith)
            requires ks == k - k % g, k == g * (k / g) + k % g;
        crate::table::lemma_aligned_sum(ks, GB as int, GB as int);
        assert forall|lb: nat|
            1 <= lb <= t0.layout.max_block_level && lb <= t0.layout.level
                && #[trigger] t0.layout.level_size(lb) == GB
            implies fits_blocks(t0.layout, ks, ks, ks + GB, true, lb) by {}
    }
    match rk {
        Ok(()) => {},
        Err(e) => {
            proof {
                assert forall|lb: nat|
                    1 <= lb <= t0.layout.max_block_level && lb <= t0.layout.level
                        && #[trigger] t0.layout.level_size(lb) == GB
                        && (rk is Ok || (rk == Err::<(), PagingError>(PagingError::NoMemory)
                            && t0.frames.len() + (t0.layout.level - lb) <= t0.allocator.frame_count))
                    implies kernel_in_blocks(table@, b, lb) by {
                    assert(fits_blocks(t0.layout, start as int, start as int, start + GB, true, lb));
                }
            }
            return Err(e);
        },
    }
    let ghost t1 = table@;
    proof {
        assert forall|lb: nat|
            1 <= lb <= t0.layout.max_block_level && lb <= t0.layout.level
                && #[trigger] t0.layout.level_size(lb) == GB
            implies kernel_in_blocks(t1, b, lb) by {
            assert(fits_blocks(t0.layout, start as int, start as int, start + GB, true, lb));
            assert forall|x: usize| start <= x < start + GB
                implies (#[trigger] t1.translate(x) matches Some((_, l)) && l >= lb) by {
                assert(fits_blocks(t0.layout, kernel.vaddr as int, kernel.paddr as int,
                    kernel.vaddr + kernel.size, kernel.allow_huge, lb));
            }
        }
    }

    let code_start = b.code_start;
    let code_end = b.code_end.align_up(2 * MB);
    let size = code_end - code_start;
    let code = MapConfig { vaddr: b.code_vaddr, paddr: code_start, size, pte: b.normal_pte, allow_huge: true, flush: false };
    match table.map(&code) {
        Ok(()) => {},
        Err(e) => {
            proof {
                crate::table::lemma_extends_trans(t0, t1, table@);
                assert forall|lb: nat|
                    1 <= lb <= t0.layout.max_block_level && lb <= t0.layout.level
                        && #[trigger] t0.layout.level_size(lb) == GB
                    implies kernel_in_blocks(table@, b, lb) by {
                    assert(kernel_in_blocks(t1, b, lb));
                    lemma_kernel_blocks_kept(t1, table@, b, lb);
                }
            }
            return Err(e);
        },
    }
    let ghost t2 = table@;
    proof { crate::table::lemma_extends_trans(t0, t1, t2); }

    if b.debug_base != 0 {
        let start = b.debug_base.align_down(page_size);
        let size = page_size;
        let debug = MapConfig { vaddr: start, paddr: start, size, pte: b.device_pte, allow_huge: true, flush: false };
        let res = table.map(&debug);
        match res {
            Ok(()) => {},
            Err(e) => {
                proof {
                    crate::table::lemma_extends_trans(t0, t2, table@);
                    crate::table::lemma_extends_trans(t1, t2, table@);
                assert forall|lb: nat|
                    1 <= lb <= t0.layout.max_block_level && lb <= t0.layout.level
                        && #[trigger] t0.layout.level_size(lb) == GB
                    implies kernel_in_blocks(table@, b, lb) by {
                    assert(kernel_in_blocks(t1, b, lb));
                    lemma_kernel_blocks_kept(t1, table@, b, lb);
                }
                }
                return Err(e);
            },
        }
        proof {
            let u = res->Ok_0;
            assert(u == ());
            assert(res == Ok::<(), PagingError>(()));
            crate::table::lemma_extends_trans(t0, t2, table@);
        }
    }
    let ghost t3 = table@;
    proof {
        if b.debug_base != 0 {
            crate::table::lemma_extends_trans(t1, t2, t3);
        }
                assert forall|lb: nat|
                    1 <= lb <= t0.layout.max_block_level && lb <= t0.layout.level
                        && #[trigger] t0.layout.level_size(lb) == GB
                    implies kernel_in_blocks(t3, b, lb) by {
                    assert(kernel_in_blocks(t1, b, lb));
                    lemma_kernel_blocks_kept(t1, t3, b, lb);
                }
        let ps = t0.layout.page_size;
        if b.debug_base != 0 {
            let dbg = b.debug_base - b.debug_base % ps;
            assert forall|v: usize| dbg <= v < dbg + ps
                implies #[trigger] t3.maps(v, v as int, b.device_pte.attrs) by {
                assert(t3.maps(v, (dbg as usize) + (v - dbg), b.device_pte.attrs));
            }
        }
        let kstart = b.kernel_start - b.kernel_start % GB;
        assert forall|v: usize| kstart <= v < kstart + GB
            implies #[trigger] t3.maps(v, v as int, b.normal_pte.attrs) by {
            assert(t1.maps(v, kernel.paddr + (v - kernel.vaddr), kernel.pte.attrs));
            crate::table::lemma_extends_keeps_maps(t1, t3, v, v as int, b.normal_pte.attrs);
        }
        let code_size = code_map_end(b) - b.code_start;
        assert forall|v: usize| b.code_vaddr <= v < b.code_vaddr + code_size
            implies #[trigger] t3.maps(v, b.code_start + (v - b.code_vaddr), b.normal_pte.attrs) by {
            assert(t2.maps(v, code.paddr + (v - code.vaddr), code.pte.attrs));
            crate::table::lemma_extends_keeps_maps(t2, t3, v, b.code_start + (v - b.code_vaddr), b.normal_pte.attrs);
        }
    }
    Ok(())
}


/// What a region of the memory map holds, as far as its mapping goes.
#[derive(Clone, Copy, Debug, PartialEq, Eq, Structural)]
pub enum MemoryKind {
    /// Device registers.
    Mmio,
    /// Any other memory.
    Normal,
}

/// The accesses a mapping allows.
#[derive(Clone, Copy, Debug, PartialEq, Eq, Structural)]
pub struct AccessFlags {
    pub read: bool,
    pub write: bool,
    pub execute: bool,
}

/// The memory type of a mapping.
#[derive(Clone, Copy, Debug, PartialEq, Eq, Structural)]
pub enum MemAttributes {
    Normal,
    Device,
}

/// How a region is mapped.
#[derive(Clone, Copy, Debug, PartialEq, Eq, Structural)]
pub struct MemConfig {
    pub access: AccessFlags,
    pub attrs: MemAttributes,
}

/// A region of the memory map.
#[derive(Clone, Copy, Debug, PartialEq, Eq, Structural)]
pub struct MemoryRegion {
    pub physical_start: usize,
    pub size_in_bytes: usize,
    pub kind: MemoryKind,
}

/// One mapping that the kernel page table is to receive for a region: its
/// physical range, how it is mapped, and whether the TLB is flushed.
#[derive(Clone, Copy, Debug, PartialEq, Eq, Structural)]
pub struct RegionMapping {
    pub paddr: usize,
    pub size: usize,
    pub config: MemConfig,
    pub flush: bool,
}

/// How a region of the given kind is mapped: device registers are readable
/// and writable device memory, everything else is readable, writable and
/// executable normal memory.
pub open spec fn spec_region_config(kind: MemoryKind) -> MemConfig {
    match kind {
        MemoryKind::Mmio => MemConfig {
            access: AccessFlags { read: true, write: true, execute: false },
            attrs: MemAttributes::Device,
        },
        MemoryKind::Normal => MemConfig {
            access: AccessFlags { read: true, write: true, execute: true },
            attrs: MemAttributes::Normal,
        },
    }
}

/// How a region of the given kind is mapped.
pub fn region_config(kind: MemoryKind) -> (c: MemConfig)
    ensures
        c == spec_region_config(kind),
{
    match kind {
        MemoryKind::Mmio => MemConfig {
            access: AccessFlags { read: true, write: true, execute: false },
            attrs: MemAttributes::Device,
        },
        MemoryKind::Normal => MemConfig {
            access: AccessFlags { read: true, write: true, execute: true },
            attrs: MemAttributes::Normal,
        },
    }
}

/// The mapping that one region receives.
pub open spec fn spec_region_mapping(r: MemoryRegion) -> RegionMapping {
    RegionMapping { paddr: r.physical_start, size: r.size_in_bytes, config: spec_region_config(r.kind), flush: false }
}

/// The mappings that the kernel page table receives for the memory map, in
/// the order of the regions: each region whole, without a TLB flush.
pub fn region_mappings(regions: &Vec<MemoryRegion>) -> (maps: Vec<RegionMapping>)
    ensures
        maps@.len() == regions@.len(),
        forall|i: int| 0 <= i < regions@.len() ==> #[trigger] maps@[i] == spec_region_mapping(regions@[i]),
{
    let mut maps: Vec<RegionMapping> = Vec::new();
    let mut i: usize = 0;
    while i < regions.len()
        invariant
            i <= regions@.len(),
            maps@.len() == i,
            forall|j: int| 0 <= j < i ==> #[trigger] maps@[j] == spec_region_mapping(regions@[j]),
        decreases regions@.len() - i,
    {
        let region = regions[i];
        let config = region_config(region.kind);
        maps.push(RegionMapping { paddr: region.physical_start, size: region.size_in_bytes, config, flush: false });
        i = i + 1;
    }
    maps
}

/// What an entry of the firmware's configuration table holds.
#[derive(Clone, Copy, Debug, PartialEq, Eq, Structural)]
pub enum ConfigTableKind {
    /// The root of the ACPI 2.0 tables.
    Acpi2,
    /// The root of the ACPI 1.0 tables.
    Acpi1,
    /// Anything else.
    Other,
}

/// An entry of the firmware's configuration table.
#[derive(Clone, Copy, Debug, PartialEq, Eq, Structural)]
pub struct ConfigTableEntry {
    pub kind: ConfigTableKind,
    pub address: usize,
}

/// The address of the last ACPI root (of either version) in `entries`.
pub open spec fn last_rsdp(entries: Seq<ConfigTableEntry>) -> Option<usize>
    decreases entries.len(),
{
    if entries.len() == 0 {
        None
    } else if entries.last().kind != ConfigTableKind::Other {
        Some(entries.last().address)
    } else {
        last_rsdp(entries.drop_last())
    }
}

/// The last ACPI root of a configuration table is the address of its last
/// entry that is no other kind, and there is none exactly when every entry
/// is of another kind.
pub proof fn lemma_last_rsdp_is_last(entries: Seq<ConfigTableEntry>)
    ensures
        last_rsdp(entries) is None <==> forall|j: int| 0 <= j < entries.len() ==> (#[trigger] entries[j]).kind == ConfigTableKind::Other,
        last_rsdp(entries) matches Some(a) ==> exists|i: int|
            0 <= i < entries.len() && (#[trigger] entries[i]).kind != ConfigTableKind::Other
                && entries[i].address == a
                && forall|j: int| i < j < entries.len() ==> (#[trigger] entries[j]).kind == ConfigTableKind::Other,
    decreases entries.len(),
{
    if entries.len() > 0 {
        let d = entries.drop_last();
        lemma_last_rsdp_is_last(d);
        let n = entries.len() - 1;
        assert forall|j: int| 0 <= j < n implies #[trigger] entries[j] == d[j] by {}
        if entries.last().kind == ConfigTableKind::Other {
            assert(entries[n].kind == ConfigTableKind::Other);
            if let Some(a) = last_rsdp(d) {
                let i = choose|i: int|
                    0 <= i < d.len() && (#[trigger] d[i]).kind != ConfigTableKind::Other
                        && d[i].address == a
                        && forall|j: int| i < j < d.len() ==> (#[trigger] d[j]).kind == ConfigTableKind::Other;
                assert(entries[i] == d[i]);
                assert forall|j: int| i < j < entries.len() implies (#[trigger] entries[j]).kind == ConfigTableKind::Other by {
                    if j < n {
                        assert(entries[j] == d[j]);
                    }
                }
            }
            if last_rsdp(d) is None {
                assert forall|j: int| 0 <= j < entries.len() implies (#[trigger] entries[j]).kind == ConfigTableKind::Other by {
                    if j < n {
                        assert(entries[j] == d[j]);
                    }
                }
            } else {
                assert(exists|j: int| 0 <= j < d.len() && (#[trigger] d[j]).kind != ConfigTableKind::Other);
                let j = choose|j: int| 0 <= j < d.len() && (#[trigger] d[j]).kind != ConfigTableKind::Other;
                assert(entries[j] == d[j]);
            }
        } else {
            assert(entries[n] == entries.last());
        }
    }
}

/// The root of the ACPI tables that the firmware hands over: every ACPI
/// entry of the configuration table, 2.0 or 1.0, replaces the one found
/// before it, so the last one counts.
pub fn find_acpi_rsdp(entries: &Vec<ConfigTableEntry>) -> (rsdp: Option<usize>)
    ensures
        rsdp == last_rsdp(entries@),
        rsdp is None <==> forall|j: int| 0 <= j < entries@.len() ==> (#[trigger] entries@[j]).kind == ConfigTableKind::Other,
        rsdp matches Some(a) ==> exists|i: int|
            0 <= i < entries@.len() && (#[trigger] entries@[i]).kind != ConfigTableKind::Other
                && entries@[i].address == a
                && forall|j: int| i < j < entries@.len() ==> (#[trigger] entries@[j]).kind == ConfigTableKind::Other,
{
    let mut rsdp: Option<usize> = None;
    let mut i: usize = 0;
    while i < entries.len()
        invariant
            i <= entries@.len(),
            rsdp == last_rsdp(entries@.subrange(0, i as int)),
        decreases entries@.len() - i,
    {
        let entry = entries[i];
        proof {
            assert(entries@.subrange(0, i as int + 1).drop_last() =~= entries@.subrange(0, i as int));
        }
        if entry.kind == ConfigTableKind::Acpi2 {
            rsdp = Some(entry.address);
        } else if entry.kind == ConfigTableKind::Acpi1 {
            rsdp = Some(entry.address);
        }
        i = i + 1;
    }
    proof {
        assert(entries@.subrange(0, entries@.len() as int) =~= entries@);
        lemma_last_rsdp_is_last(entries@);
    }
    rsdp
}

/// What a serial console table says of the console's base address: none,
/// one that cannot be read, or the address.
#[derive(Clone, Copy, Debug, PartialEq, Eq, Structural)]
pub enum ConsoleBase {
    Missing,
    Unreadable,
    Found(usize),
}

/// The first console, in table order, whose base address can be read: its
/// position and address.
pub open spec fn first_console(bases: Seq<ConsoleBase>, from: int) -> Option<(usize, usize)>
    decreases bases.len() - from,
{
    if from < 0 || from >= bases.len() {
        None
    } else {
        match bases[from] {
            ConsoleBase::Found(addr) => Some((from as usize, addr)),
            _ => first_console(bases, from + 1),
        }
    }
}

/// The first readable console from `from` on is the readable console of
/// least position at or after `from`, and there is none exactly when no
/// console from there on can be read.
pub proof fn lemma_first_console_is_first(bases: Seq<ConsoleBase>, from: int)
    requires
        0 <= from,
        bases.len() <= usize::MAX,
    ensures
        first_console(bases, from) matches Some((i, a)) ==> {
            &&& from <= i < bases.len()
            &&& bases[i as int] == ConsoleBase::Found(a)
            &&& forall|j: int| from <= j < i ==> !(#[trigger] bases[j] is Found)
        },
        first_console(bases, from) is None <==> forall|j: int| from <= j < bases.len() ==> !(#[trigger] bases[j] is Found),
    decreases bases.len() - from,
{
    if from < bases.len() {
        lemma_first_console_is_first(bases, from + 1);
        if !(bases[from] is Found) {
            assert(first_console(bases, from) == first_console(bases, from + 1));
            if let Some((i, a)) = first_console(bases, from + 1) {
                assert forall|j: int| from <= j < i implies !(#[trigger] bases[j] is Found) by {
                    if j > from {
                        assert(!(bases[j] is Found));
                    }
                }
            }
            if first_console(bases, from + 1) is None {
                assert forall|j: int| from <= j < bases.len() implies !(#[trigger] bases[j] is Found) by {
                    if j > from {
                        assert(!(bases[j] is Found));
                    }
                }
            } else {
                let (i, a) = first_console(bases, from + 1).unwrap();
                assert(bases[i as int] is Found);
            }
        }
    }
}

/// The early console: the serial console tables are tried in order, and
/// the first whose base address can be read is taken.
pub fn pick_earlycon(bases: &Vec<ConsoleBase>) -> (r: Option<(usize, usize)>)
    ensures
        r == first_console(bases@, 0),
        r matches Some((i, a)) ==> {
            &&& i < bases@.len()
            &&& bases@[i as int] == ConsoleBase::Found(a)
            &&& forall|j: int| 0 <= j < i ==> !(#[trigger] bases@[j] is Found)
        },
        r is None <==> forall|j: int| 0 <= j < bases@.len() ==> !(#[trigger] bases@[j] is Found),
{
    proof {
        assert(bases@.len() == bases.len());
        lemma_first_console_is_first(bases@, 0);
    }
    let mut i: usize = 0;
    while i < bases.len()
        invariant
            i <= bases@.len(),
            first_console(bases@, 0) == first_console(bases@, i as int),
        decreases bases@.len() - i,
    {
        match bases[i] {
            ConsoleBase::Found(addr) => {
                proof {
                    assert(bases@.len() == bases.len());
                    lemma_first_console_is_first(bases@, 0);
                }
                return Some((i, addr));
            },
            _ => {},
        }
        i = i + 1;
    }
    None
}

/// Sets up the heap allocator of the kernel; with the allocator that the
/// platform brings there is nothing to do.
pub fn setup_allocator()
    ensures
        true,
{
}

} // verus!
