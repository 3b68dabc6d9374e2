//! A page table kept in frames that it allocates from a reserved physical
//! area, with mapping of address ranges and the walk that reads it back.
use vstd::prelude::*;
use crate::layout::{Frame, TableGeneric, table_span};

verus! {

/// One page-table entry: the physical address it holds, whether it is
/// valid, whether it maps a block, and the remaining bits of the format.
#[derive(Clone, Copy, Debug, PartialEq, Eq, Structural)]
pub struct Pte {
    pub paddr: usize,
    pub valid: bool,
    pub is_huge: bool,
    pub attrs: u64,
}

/// The entry whose bits are all zero.
pub open spec fn zero_pte() -> Pte {
    Pte { paddr: 0, valid: false, is_huge: false, attrs: 0 }
}

impl Pte {
    /// The entry whose bits are all zero, as a freshly cleared frame holds.
    pub fn zeroed() -> (pte: Pte)
        ensures
            pte == zero_pte(),
    {
        Pte { paddr: 0, valid: false, is_huge: false, attrs: 0 }
    }
}

/// Why a page-table operation failed, with the message of the check that
/// failed where there is one.
#[derive(Clone, Copy, Debug, PartialEq, Eq)]
pub enum PagingError {
    /// No frame was left for a new table.
    NoMemory,
    /// The size of a mapping was zero.
    InvalidSize(&'static str),
    /// An address was not aligned to the page size.
    AlignmentError(&'static str),
    /// The end of a range does not fit in an address.
    AddressOverflow(&'static str),
    /// A valid entry already sits where a new one was to go.
    MappingConflict { vaddr: usize, paddr: usize },
    /// A table was to be placed below a block entry.
    HierarchyError(&'static str),
}

/// What to map: `size` bytes from `vaddr` onto `paddr`. Every entry written
/// takes its bits from `pte`, except the address, valid and block bits.
#[derive(Clone, Copy, Debug)]
pub struct MapConfig {
    pub vaddr: usize,
    pub paddr: usize,
    pub size: usize,
    pub pte: Pte,
    pub allow_huge: bool,
    pub flush: bool,
}

/// One call of the mapping walk: the range `[start_vaddr, end_vaddr)` from
/// `start_paddr` on, in a table at `level`.
#[derive(Clone, Copy)]
struct MapRecursiveConfig {
    start_vaddr: usize,
    start_paddr: usize,
    end_vaddr: usize,
    level: usize,
    allow_huge: bool,
    flush: bool,
    pte_template: Pte,
}

/// The physical area that a page table takes its frames from:
/// `frame_count` frames of one page each, from `start` on.
#[derive(Clone, Copy, Debug)]
pub struct FramAllocator {
    pub start: usize,
    pub frame_count: usize,
}

/// One table frame: its level and its entries.
struct TableFrame {
    level: usize,
    entries: Vec<Pte>,
}

/// A multi-level page table. `bases` holds, for each frame, the first
/// address that its table stands for.
pub struct PageTable {
    layout: TableGeneric,
    allocator: FramAllocator,
    frames: Vec<TableFrame>,
    bases: Ghost<Seq<int>>,
}

/// The contents of one table frame.
pub struct FrameView {
    pub level: nat,
    pub entries: Seq<Pte>,
}

/// The contents of a page table: its format, its frame area, its frames in
/// the order they were allocated (the root first), and the first address
/// that the table of each frame stands for.
pub struct PageTableView {
    pub layout: TableGeneric,
    pub allocator: FramAllocator,
    pub frames: Seq<FrameView>,
    pub bases: Seq<int>,
}

impl View for PageTable {
    type V = PageTableView;

    closed spec fn view(&self) -> PageTableView {
        PageTableView {
            layout: self.layout,
            allocator: self.allocator,
            frames: self.frames@.map_values(|f: TableFrame| FrameView { level: f.level as nat, entries: f.entries@ }),
            bases: self.bases@,
        }
    }
}

impl PageTableView {
    /// The physical address of frame number `i` of the area.
    pub open spec fn frame_paddr(self, i: int) -> int {
        self.allocator.start + i * self.layout.page_size
    }

    /// The number of the frame that sits at `paddr`.
    pub open spec fn frame_at(self, paddr: usize) -> int {
        (paddr - self.allocator.start) / (self.layout.page_size as int)
    }

    /// `paddr` is the address of an allocated table frame at `level`.
    pub open spec fn is_table_of(self, paddr: usize, level: nat) -> bool {
        &&& self.allocator.start <= paddr
        &&& (paddr - self.allocator.start) % (self.layout.page_size as int) == 0
        &&& 0 <= self.frame_at(paddr) < self.frames.len()
        &&& self.frames[self.frame_at(paddr)].level == level
    }

    /// Every valid entry below the last level that is no block points to an
    /// allocated frame one level further down, whose table stands for the
    /// addresses of that entry.
    pub open spec fn pointers_wf(self) -> bool {
        forall|i: int, j: int|
            #![trigger self.frames[i].entries[j]]
            0 <= i < self.frames.len() && 0 <= j < self.frames[i].entries.len()
                && self.frames[i].entries[j].valid && !self.frames[i].entries[j].is_huge
                && self.frames[i].level > 1
                ==> self.is_table_of(self.frames[i].entries[j].paddr, (self.frames[i].level - 1) as nat)
                    && self.bases[self.frame_at(self.frames[i].entries[j].paddr)]
                        == self.bases[i] + j * self.layout.level_size(self.frames[i].level)
    }

    /// The table of frame `i` stands for the addresses from `bases[i]` on, a
    /// multiple of its span, and ends no later than the root table.
    pub open spec fn base_wf(self, i: int) -> bool {
        &&& 0 <= self.bases[i]
        &&& self.bases[i] % (table_span(self.layout, self.frames[i].level) as int) == 0
        &&& self.bases[i] + table_span(self.layout, self.frames[i].level)
            <= table_span(self.layout, self.layout.level as nat)
    }

    /// The table is well formed.
    pub open spec fn wf(self) -> bool {
        &&& self.layout.wf()
        &&& self.allocator.start + self.allocator.frame_count * self.layout.page_size <= usize::MAX
        &&& 1 <= self.frames.len() <= self.allocator.frame_count
        &&& self.frames[0].level == self.layout.level
        &&& forall|i: int| #![trigger self.frames[i]] 0 <= i < self.frames.len() ==> {
            &&& self.frames[i].entries.len() == self.layout.table_len
            &&& 1 <= self.frames[i].level <= self.layout.level
            &&& self.base_wf(i)
        }
        &&& self.bases.len() == self.frames.len()
        &&& self.bases[0] == 0
        &&& self.pointers_wf()
    }

    /// The entry that a walk for `vaddr` ends on, with the level of its
    /// table, starting at frame `fi` which is at `level`: a walk ends on an
    /// invalid entry (`None`), on a block entry or on an entry at level 1,
    /// and goes down through the others.
    pub open spec fn walk(self, fi: int, level: nat, vaddr: usize) -> Option<(Pte, nat)>
        decreases level,
    {
        if level == 0 || !(0 <= fi < self.frames.len()) {
            None
        } else {
            let idx = self.layout.index_of(vaddr, level) as int;
            if idx >= self.frames[fi].entries.len() {
                None
            } else {
                let e = self.frames[fi].entries[idx];
                if !e.valid {
                    None
                } else if e.is_huge || level == 1 {
                    Some((e, level))
                } else {
                    self.walk(self.frame_at(e.paddr), (level - 1) as nat, vaddr)
                }
            }
        }
    }

    /// The entry that translates `vaddr`, and the level of its table,
    /// walking from the root.
    pub open spec fn translate(self, vaddr: usize) -> Option<(Pte, nat)> {
        self.walk(0, self.layout.level as nat, vaddr)
    }

    /// The physical address that `vaddr` translates to: the address in the
    /// entry that translates it plus the offset of `vaddr` inside the span
    /// of that entry.
    pub open spec fn lookup(self, vaddr: usize) -> Option<int> {
        match self.translate(vaddr) {
            Some((e, level)) => Some(e.paddr + vaddr as int % (self.layout.level_size(level) as int)),
            None => None,
        }
    }

    /// A walk from frame `fi` at `level` takes `vaddr` to `paddr` through
    /// an entry with the bits `attrs`.
    pub open spec fn walk_maps(self, fi: int, level: nat, vaddr: usize, paddr: int, attrs: u64) -> bool {
        match self.walk(fi, level, vaddr) {
            Some((e, l)) => e.paddr + vaddr as int % (self.layout.level_size(l) as int) == paddr && e.attrs == attrs,
            None => false,
        }
    }

    /// A walk for `vaddr` from frame `fi` at `level` ends on an entry of a
    /// level-1 table that is no block.
    pub open spec fn walk_ends_at_leaf(self, fi: int, level: nat, vaddr: usize) -> bool {
        self.walk(fi, level, vaddr) matches Some((e, l)) && l == 1 && !e.is_huge
    }

    /// A walk for `vaddr` from frame `fi` at `level` ends on an entry of a
    /// table at level `lb` or above.
    pub open spec fn walk_level_at_least(self, fi: int, level: nat, vaddr: usize, lb: nat) -> bool {
        self.walk(fi, level, vaddr) matches Some((_, l)) && l >= lb
    }

    /// The table takes `vaddr` to `paddr` through an entry with the bits `attrs`.
    pub open spec fn maps(self, vaddr: usize, paddr: int, attrs: u64) -> bool {
        &&& self.lookup(vaddr) == Some(paddr)
        &&& self.translate(vaddr) matches Some((e, _)) && e.attrs == attrs
    }

    /// This table with entry `idx` of frame `fi` replaced by `e`.
    pub open spec fn with_entry(self, fi: int, idx: int, e: Pte) -> PageTableView {
        PageTableView {
            frames: self.frames.update(fi, FrameView {
                level: self.frames[fi].level,
                entries: self.frames[fi].entries.update(idx, e),
            }),
            ..self
        }
    }

    /// This table with a cleared frame for a table at `level` that stands
    /// for the addresses from `base` on, taken from the area.
    pub open spec fn with_new_frame(self, level: nat, base: int) -> PageTableView {
        PageTableView {
            frames: self.frames.push(FrameView {
                level,
                entries: Seq::new(self.layout.table_len as nat, |j: int| zero_pte()),
            }),
            bases: self.bases.push(base),
            ..self
        }
    }

    /// Maps the range `[v, end)` onto the physical range from `p` on in the
    /// table of frame `fi` at `level`, one entry of that table at a time:
    /// - a block entry where blocks are allowed at this level, the entry's
    ///   size fits in what is left, and it divides both addresses;
    /// - else an entry of the last level at level 1, for one page;
    /// - else, for the part of the range inside the entry, the table one
    ///   level down that the entry points to, which must not be a block; for
    ///   an invalid entry a cleared frame is taken from the area and the
    ///   entry pointed to it.
    /// An entry that is to be written but is already valid is a conflict.
    /// The first error ends the mapping; what was written before it stays.
    pub open spec fn map_range(self, fi: int, level: nat, v: int, end: int, p: int, allow_huge: bool, template: Pte)
        -> (Result<(), PagingError>, PageTableView)
        decreases level, (if v < end { end - v } else { 0 }),
    {
        let ls = self.layout.level_size(level) as int;
        let ps = self.layout.page_size as int;
        if level == 0 || v >= end || ls <= 0 || ps <= 0 || !(0 <= fi < self.frames.len()) {
            (Ok(()), self)
        } else {
            let idx = self.layout.index_of(v as usize, level) as int;
            let e = self.frames[fi].entries[idx];
            if allow_huge && level <= self.layout.max_block_level && ls <= end - v && v % ls == 0 && p % ls == 0 {
                if e.valid {
                    (Err(PagingError::MappingConflict { vaddr: v as usize, paddr: e.paddr }), self)
                } else {
                    self.with_entry(fi, idx, Pte { paddr: p as usize, valid: true, is_huge: true, ..template })
                        .map_range(fi, level, v + ls, end, p + ls, allow_huge, template)
                }
            } else if level == 1 {
                if e.valid {
                    (Err(PagingError::MappingConflict { vaddr: v as usize, paddr: e.paddr }), self)
                } else {
                    self.with_entry(fi, idx, Pte { paddr: p as usize, valid: true, is_huge: false, ..template })
                        .map_range(fi, level, v + ps, end, p + ps, allow_huge, template)
                }
            } else if e.valid && e.is_huge {
                (Err(PagingError::HierarchyError("Cannot create page table under huge page")), self)
            } else if !e.valid && self.frames.len() >= self.allocator.frame_count {
                (Err(PagingError::NoMemory), self)
            } else {
                let next = if v - v % ls + ls < end { v - v % ls + ls } else { end };
                let n = self.frames.len() as int;
                let child = if e.valid { self.frame_at(e.paddr) } else { n };
                let t1 = if e.valid {
                    self
                } else {
                    self.with_new_frame((level - 1) as nat, self.bases[fi] + idx * ls).with_entry(fi, idx,
                        Pte { paddr: self.frame_paddr(n) as usize, valid: true, is_huge: false, ..template })
                };
                let (r, t2) = t1.map_range(child, (level - 1) as nat, v, next, p, allow_huge, template);
                if r is Err {
                    (r, t2)
                } else {
                    t2.map_range(fi, level, next, end, p + (next - v), allow_huge, template)
                }
            }
        }
    }

    /// What `map` gives for `config` and the table after it: the error of
    /// the checks with the table unchanged, or the mapping of the range from
    /// the root.
    pub open spec fn map_result(self, config: MapConfig) -> (Result<(), PagingError>, PageTableView) {
        match map_check(self.layout, config) {
            Some(e) => (Err(e), self),
            None => self.map_range(0, self.layout.level as nat, config.vaddr as int, config.vaddr + config.size,
                config.paddr as int, config.allow_huge, config.pte),
        }
    }

    /// `new` keeps everything that this table holds: the same format and
    /// area, the same frames at the same levels (and maybe more), and every
    /// valid entry unchanged.
    pub open spec fn extends(self, new: PageTableView) -> bool {
        &&& new.layout == self.layout
        &&& new.allocator == self.allocator
        &&& self.frames.len() <= new.frames.len()
        &&& forall|i: int| #![trigger new.frames[i]] 0 <= i < self.frames.len() ==> {
            &&& new.frames[i].level == self.frames[i].level
            &&& new.frames[i].entries.len() == self.frames[i].entries.len()
        }
        &&& forall|i: int| 0 <= i < self.frames.len() ==> #[trigger] new.bases[i] == self.bases[i]
        &&& forall|i: int, j: int|
            #![trigger new.frames[i].entries[j]]
            0 <= i < self.frames.len() && 0 <= j < self.frames[i].entries.len()
                && self.frames[i].entries[j].valid
                ==> new.frames[i].entries[j] == self.frames[i].entries[j]
    }
}

/// Blocks are allowed, the format allows blocks at level `lb`, and the
/// range `[v, end)` and the physical start `p` are whole blocks of that level.
pub open spec fn fits_blocks(layout: TableGeneric, v: int, p: int, end: int, allow_huge: bool, lb: nat) -> bool {
    &&& allow_huge
    &&& 1 <= lb <= layout.max_block_level
    &&& lb <= layout.level
    &&& v % (layout.level_size(lb) as int) == 0
    &&& p % (layout.level_size(lb) as int) == 0
    &&& end % (layout.level_size(lb) as int) == 0
}

/// The highest level at or below `l` at which `fits_blocks` holds, or 0.
pub open spec fn top_block_level(layout: TableGeneric, v: int, p: int, end: int, allow_huge: bool, l: nat) -> nat
    decreases l,
{
    if l == 0 {
        0
    } else if fits_blocks(layout, v, p, end, allow_huge, l) {
        l
    } else {
        top_block_level(layout, v, p, end, allow_huge, (l - 1) as nat)
    }
}

/// The highest fitting level is at least every fitting level, and fits.
pub proof fn lemma_top_block_level(layout: TableGeneric, v: int, p: int, end: int, allow_huge: bool, l: nat, lb: nat)
    requires
        fits_blocks(layout, v, p, end, allow_huge, lb),
        lb <= l,
    ensures
        lb <= top_block_level(layout, v, p, end, allow_huge, l),
        fits_blocks(layout, v, p, end, allow_huge, top_block_level(layout, v, p, end, allow_huge, l)),
        top_block_level(layout, v, p, end, allow_huge, l) <= l,
    decreases l,
{
    if l > 0 && !fits_blocks(layout, v, p, end, allow_huge, l) {
        lemma_top_block_level(layout, v, p, end, allow_huge, (l - 1) as nat, lb);
    }
}

/// The error that the size and alignment checks give for `config`, if any.
pub open spec fn map_config_error(layout: TableGeneric, config: MapConfig) -> Option<PagingError> {
    if config.size == 0 {
        Some(PagingError::InvalidSize("Size cannot be zero"))
    } else if config.vaddr % layout.page_size != 0 {
        Some(PagingError::AlignmentError("Virtual address not page aligned"))
    } else if config.paddr % layout.page_size != 0 {
        Some(PagingError::AlignmentError("Physical address not page aligned"))
    } else {
        None
    }
}

/// The error that the checks at the start of `map` give for `config`, if
/// any: a zero size, then an unaligned virtual or physical address, then a
/// range whose end does not fit in an address.
pub open spec fn map_check(layout: TableGeneric, config: MapConfig) -> Option<PagingError> {
    if map_config_error(layout, config) is Some {
        map_config_error(layout, config)
    } else if config.vaddr + config.size > usize::MAX || config.paddr + config.size > usize::MAX {
        Some(PagingError::AddressOverflow("Virtual or physical address overflow"))
    } else {
        None
    }
}

/// Extending a table keeps every walk that ends on a valid entry.
pub proof fn lemma_extends_keeps_walk(t1: PageTableView, t2: PageTableView, fi: int, level: nat, vaddr: usize)
    requires
        t1.extends(t2),
        t1.walk(fi, level, vaddr) is Some,
    ensures
        t2.walk(fi, level, vaddr) == t1.walk(fi, level, vaddr),
    decreases level,
{
    let idx = t1.layout.index_of(vaddr, level) as int;
    let e = t1.frames[fi].entries[idx];
    assert(t2.frames[fi].entries[idx] == e);
    if e.valid && !e.is_huge && level != 1 {
        lemma_extends_keeps_walk(t1, t2, t1.frame_at(e.paddr), (level - 1) as nat, vaddr);
    }
}

/// Extending a table keeps every address it maps.
pub proof fn lemma_extends_keeps_maps(t1: PageTableView, t2: PageTableView, vaddr: usize, paddr: int, attrs: u64)
    requires
        t1.extends(t2),
        t1.maps(vaddr, paddr, attrs),
    ensures
        t2.maps(vaddr, paddr, attrs),
{
    lemma_extends_keeps_walk(t1, t2, 0, t1.layout.level as nat, vaddr);
}

/// Extending is transitive.
pub proof fn lemma_extends_trans(t1: PageTableView, t2: PageTableView, t3: PageTableView)
    requires
        t1.extends(t2),
        t2.extends(t3),
    ensures
        t1.extends(t3),
{
    assert forall|i: int, j: int|
        0 <= i < t1.frames.len() && 0 <= j < t1.frames[i].entries.len()
            && t1.frames[i].entries[j].valid
        implies #[trigger] t3.frames[i].entries[j] == t1.frames[i].entries[j] by {
        assert(t2.frames[i].entries[j] == t1.frames[i].entries[j]);
    }
}

/// A frame number below the area's size gives an address inside the area,
/// and the frame at that address is the same number again.
pub proof fn lemma_frame_paddr_roundtrip(t: PageTableView, n: int)
    requires
        t.layout.wf(),
        t.allocator.start + t.allocator.frame_count * t.layout.page_size <= usize::MAX,
        0 <= n < t.allocator.frame_count,
    ensures
        t.frame_paddr(n) + t.layout.page_size <= usize::MAX,
        t.frame_paddr(n) >= t.allocator.start,
        ((t.frame_paddr(n) - t.allocator.start) as int) % (t.layout.page_size as int) == 0,
        ((t.frame_paddr(n) - t.allocator.start) as int) / (t.layout.page_size as int) == n,
{
    let ps = t.layout.page_size as int;
    lemma_page_size_positive(t.layout);
    assert(n * ps + ps <= t.allocator.frame_count * ps) by (nonlinear_arith)
        requires n + 1 <= t.allocator.frame_count, ps > 0;
    assert(n * ps >= 0) by (nonlinear_arith)
        requires n >= 0, ps > 0;
    vstd::arithmetic::div_mod::lemma_mod_multiples_basic(n, ps);
    vstd::arithmetic::div_mod::lemma_div_multiples_vanish(n, ps);
    assert(n * ps == ps * n) by (nonlinear_arith);
}

/// The page size of a usable format is positive.
pub proof fn lemma_page_size_positive(layout: TableGeneric)
    requires
        layout.wf(),
    ensures
        layout.page_size > 0,
{
    let sh = layout.page_shift() as usize;
    assert((1usize << sh) > 0) by (bit_vector)
        requires sh < usize::BITS;
}

/// Writing into an invalid entry keeps a table well formed and extends it,
/// when the new entry, if it points to a table, points to one a level down.
pub proof fn lemma_fill_invalid_entry(t1: PageTableView, t2: PageTableView, fi: int, idx: int, e: Pte)
    requires
        t1.wf(),
        0 <= fi < t1.frames.len(),
        0 <= idx < t1.frames[fi].entries.len(),
        !t1.frames[fi].entries[idx].valid,
        t2 == t1.with_entry(fi, idx, e),
        e.valid && !e.is_huge && t1.frames[fi].level > 1 ==> t1.is_table_of(e.paddr, (t1.frames[fi].level - 1) as nat)
            && t1.bases[t1.frame_at(e.paddr)] == t1.bases[fi] + idx * t1.layout.level_size(t1.frames[fi].level),
    ensures
        t2.wf(),
        t1.extends(t2),
{
    assert forall|i: int, j: int|
        #![trigger t2.frames[i].entries[j]]
        0 <= i < t2.frames.len() && 0 <= j < t2.frames[i].entries.len()
            && t2.frames[i].entries[j].valid && !t2.frames[i].entries[j].is_huge
            && t2.frames[i].level > 1
        implies t2.is_table_of(t2.frames[i].entries[j].paddr, (t2.frames[i].level - 1) as nat)
            && t2.bases[t2.frame_at(t2.frames[i].entries[j].paddr)]
                == t2.bases[i] + j * t2.layout.level_size(t2.frames[i].level) by {
        if i == fi && j == idx {
        } else {
            assert(t2.frames[i].entries[j] == t1.frames[i].entries[j]);
        }
    }
    assert forall|i: int| #![trigger t2.frames[i]] 0 <= i < t2.frames.len() implies {
        &&& t2.frames[i].entries.len() == t2.layout.table_len
        &&& 1 <= t2.frames[i].level <= t2.layout.level
        &&& t2.base_wf(i)
    } by {
        assert(t1.frames[i].entries.len() == t1.layout.table_len);
        assert(t1.base_wf(i));
    }
}

/// The table below entry `idx` of frame `fi` stands for the addresses of
/// that entry, which start at a multiple of the entry size and end no
/// later than the root table.
pub proof fn lemma_child_base(t: PageTableView, fi: int, idx: int)
    requires
        t.wf(),
        0 <= fi < t.frames.len(),
        t.frames[fi].level > 1,
        0 <= idx < t.layout.table_len,
    ensures
        ({
            let l = t.frames[fi].level;
            let b = t.bases[fi] + idx * t.layout.level_size(l);
            &&& 0 <= b
            &&& b % (table_span(t.layout, (l - 1) as nat) as int) == 0
            &&& b + table_span(t.layout, (l - 1) as nat) <= table_span(t.layout, t.layout.level as nat)
            &&& table_span(t.layout, (l - 1) as nat) == t.layout.level_size(l)
        }),
{
    let l = t.frames[fi].level;
    assert(t.base_wf(fi));
    crate::layout::lemma_level_size(t.layout, l);
    crate::layout::lemma_entry_span(t.layout, l);
    crate::layout::lemma_entry_span(t.layout, (l - 1) as nat);
    let ls = t.layout.level_size(l) as int;
    let tl = t.layout.table_len as int;
    let b0 = t.bases[fi];
    vstd::arithmetic::power2::lemma_pow2_pos(t.layout.index_bits as nat);
    assert(tl * ls > 0) by (nonlinear_arith)
        requires tl > 0, ls > 0;
    vstd::arithmetic::div_mod::lemma_fundamental_div_mod(b0, tl * ls);
    let c = b0 / (tl * ls);
    assert(c >= 0) by (nonlinear_arith)
        requires b0 == (tl * ls) * c + b0 % (tl * ls), b0 % (tl * ls) == 0, b0 >= 0, tl * ls > 0;
    assert(b0 + idx * ls == (c * tl + idx) * ls) by (nonlinear_arith)
        requires b0 == (tl * ls) * c;
    vstd::arithmetic::div_mod::lemma_mod_multiples_basic(c * tl + idx, ls);
    assert(idx * ls + ls <= tl * ls && idx * ls >= 0) by (nonlinear_arith)
        requires 0 <= idx < tl, ls > 0;
}

/// `v` rounded up to a multiple of the page size.
pub open spec fn page_end(layout: TableGeneric, v: int) -> int {
    let ps = layout.page_size as int;
    if v % ps == 0 { v } else { v - v % ps + ps }
}

/// Rounding up to the page size keeps the order, does not go below, and a
/// page that starts below `e` ends no later than `e` rounded up.
pub proof fn lemma_page_end(layout: TableGeneric, v: int, e: int)
    requires
        layout.page_size > 0,
        0 <= v <= e,
    ensures
        e <= page_end(layout, e),
        page_end(layout, v) <= page_end(layout, e),
        v < e && v % (layout.page_size as int) == 0 ==> v + layout.page_size <= page_end(layout, e),
{
    let ps = layout.page_size as int;
    vstd::arithmetic::div_mod::lemma_fundamental_div_mod(v, ps);
    vstd::arithmetic::div_mod::lemma_fundamental_div_mod(e, ps);
    let qv = v / ps;
    let qe = e / ps;
    let rv = v % ps;
    let re = e % ps;
    assert(qv <= qe) by (nonlinear_arith)
        requires v == ps * qv + rv, e == ps * qe + re, 0 <= rv < ps, 0 <= re < ps, v <= e;
    assert(qv < qe || rv <= re) by (nonlinear_arith)
        requires v == ps * qv + rv, e == ps * qe + re, 0 <= rv < ps, 0 <= re < ps, v <= e, qv <= qe;
    if qv < qe {
        assert(ps * qv + ps <= ps * qe) by (nonlinear_arith)
            requires qv + 1 <= qe, ps > 0;
    }
    if v < e && rv == 0 && re == 0 {
        assert(qv < qe) by (nonlinear_arith)
            requires v == ps * qv, e == ps * qe, v < e, ps > 0;
        assert(ps * qv + ps <= ps * qe) by (nonlinear_arith)
            requires qv + 1 <= qe, ps > 0;
    }
}

/// Writing entry `j` of frame `g` leaves the walk from frame `fi` for `x`
/// as it was, when `x` lies in the addresses of `fi`'s table but outside
/// those of the entry written.
pub proof fn lemma_write_keeps_walk(t1: PageTableView, t2: PageTableView, g: int, j: int, e: Pte,
    fi: int, level: nat, x: usize)
    requires
        t1.wf(),
        0 <= g < t1.frames.len(),
        0 <= j < t1.frames[g].entries.len(),
        t2 == t1.with_entry(g, j, e),
        0 <= fi < t1.frames.len(),
        t1.frames[fi].level == level,
        t1.bases[fi] <= x < t1.bases[fi] + table_span(t1.layout, level),
        !(t1.bases[g] + j * t1.layout.level_size(t1.frames[g].level) <= x
            < t1.bases[g] + j * t1.layout.level_size(t1.frames[g].level) + t1.layout.level_size(t1.frames[g].level)),
    ensures
        t2.walk(fi, level, x) == t1.walk(fi, level, x),
    decreases level,
{
    let layout = t1.layout;
    assert(t1.base_wf(fi));
    assert(1 <= level <= layout.level);
    let idx = layout.index_of(x, level) as int;
    let ls = layout.level_size(level) as int;
    crate::layout::lemma_index_in_table(layout, level, t1.bases[fi], x);
    crate::layout::lemma_level_size(layout, level);
    crate::layout::lemma_level_shift_bounds(layout, level);
    crate::layout::lemma_masked_below(x >> (layout.index_shift(level) as usize), layout.index_bits);
    vstd::arithmetic::div_mod::lemma_fundamental_div_mod(x as int, ls);
    assert(t1.frames[fi].entries.len() == layout.table_len);
    assert(!(fi == g && idx == j));
    assert(t2.frames[fi].entries[idx] == t1.frames[fi].entries[idx]);
    let en = t1.frames[fi].entries[idx];
    if en.valid && !en.is_huge && level > 1 {
        let c = t1.frame_at(en.paddr);
        crate::layout::lemma_entry_span(layout, (level - 1) as nat);
        crate::layout::lemma_entry_span(layout, level);
        lemma_write_keeps_walk(t1, t2, g, j, e, c, (level - 1) as nat, x);
    }
}

/// Pointing an invalid entry of frame `g` to a new, cleared table leaves
/// every walk from an existing frame as it was: where it reads that entry,
/// it now ends on an invalid entry one level down.
pub proof fn lemma_new_table_keeps_walk(t1: PageTableView, t2: PageTableView, g: int, j: int, e: Pte, b: int,
    fi: int, level: nat, x: usize)
    requires
        t1.wf(),
        0 <= g < t1.frames.len(),
        t1.frames[g].level > 1,
        0 <= j < t1.layout.table_len,
        !t1.frames[g].entries[j].valid,
        e.valid,
        !e.is_huge,
        t1.frame_at(e.paddr) == t1.frames.len(),
        t2 == t1.with_new_frame((t1.frames[g].level - 1) as nat, b).with_entry(g, j, e),
        0 <= fi < t1.frames.len(),
        t1.frames[fi].level == level,
    ensures
        t2.walk(fi, level, x) == t1.walk(fi, level, x),
    decreases level,
{
    let layout = t1.layout;
    assert(1 <= level <= layout.level);
    let idx = layout.index_of(x, level) as int;
    crate::layout::lemma_level_shift_bounds(layout, level);
    crate::layout::lemma_masked_below(x >> (layout.index_shift(level) as usize), layout.index_bits);
    assert(t1.frames[fi].entries.len() == layout.table_len);
    let n = t1.frames.len() as int;
    if fi == g && idx == j {
        let l2 = (level - 1) as nat;
        crate::layout::lemma_level_shift_bounds(layout, l2);
        crate::layout::lemma_masked_below(x >> (layout.index_shift(l2) as usize), layout.index_bits);
        assert(t2.frames[g].entries[j] == e);
        assert(t2.frames[n].entries[layout.index_of(x, l2) as int] == zero_pte());
        assert(t2.walk(n, l2, x) is None);
        assert(t2.walk(fi, level, x) == t2.walk(n, l2, x));
    } else {
        assert(t2.frames[fi].entries[idx] == t1.frames[fi].entries[idx]);
        let en = t1.frames[fi].entries[idx];
        if en.valid && !en.is_huge && level > 1 {
            let c = t1.frame_at(en.paddr);
            lemma_new_table_keeps_walk(t1, t2, g, j, e, b, c, (level - 1) as nat, x);
        }
    }
}

/// Writing a last entry for the page or block at `vaddr` into frame `fi`,
/// whose table stands for addresses that hold `[sv, ev)`, leaves the
/// translation of every address outside `[sv, ev)` rounded up to the page
/// size as it was.
proof fn lemma_written_range_only(t0: PageTableView, t1: PageTableView, t2: PageTableView, fi: int, idx: int,
    e: Pte, vaddr: usize, sv: usize, ev: usize)
    requires
        t1.wf(),
        0 <= fi < t1.frames.len(),
        idx == t1.layout.index_of(vaddr, t1.frames[fi].level) as int,
        0 <= idx < t1.frames[fi].entries.len(),
        t2 == t1.with_entry(fi, idx, e),
        t1.bases[fi] <= sv <= vaddr < ev <= t1.bases[fi] + table_span(t1.layout, t1.frames[fi].level),
        vaddr as int % (t1.layout.level_size(t1.frames[fi].level) as int) == 0,
        vaddr + t1.layout.level_size(t1.frames[fi].level) <= ev
            || t1.layout.level_size(t1.frames[fi].level) == t1.layout.page_size,
        forall|x: usize| x < table_span(t0.layout, t0.layout.level as nat) && (x < sv || x >= page_end(t0.layout, ev as int))
            ==> #[trigger] t1.translate(x) == t0.translate(x),
        t0.layout == t1.layout,
    ensures
        forall|x: usize| x < table_span(t0.layout, t0.layout.level as nat) && (x < sv || x >= page_end(t0.layout, ev as int))
            ==> #[trigger] t2.translate(x) == t0.translate(x),
{
    let layout = t1.layout;
    let l = t1.frames[fi].level;
    assert(1 <= l <= layout.level);
    crate::layout::lemma_index_in_table(layout, l, t1.bases[fi], vaddr);
    crate::layout::lemma_level_size(layout, l);
    crate::layout::lemma_level_size(layout, 1);
    crate::table::lemma_page_end(layout, vaddr as int, ev as int);
    crate::table::lemma_page_end(layout, 0, ev as int);
    assert forall|x: usize| x < table_span(t0.layout, t0.layout.level as nat) && (x < sv || x >= page_end(t0.layout, ev as int))
        implies #[trigger] t2.translate(x) == t0.translate(x) by {
        assert(t1.translate(x) == t0.translate(x));
        lemma_write_keeps_walk(t1, t2, fi, idx, e, 0, layout.level as nat, x);
    }
}

/// What `map` ensures on success, for a table that mapped nothing, makes
/// its walk hand the pages of the range back in order.
proof fn lemma_map_walks_back(t0: PageTableView, t1: PageTableView, config: MapConfig, r: Result<(), PagingError>,
    root: usize)
    requires
        t1.wf(),
        t1.layout == t0.layout,
        t1.is_table_of(root, t1.layout.level as nat),
        t1.frame_at(root) == 0,
        map_check(t0.layout, config) is None,
        r is Ok ==> forall|x: usize|
            config.vaddr <= x < config.vaddr + config.size
            ==> #[trigger] t1.maps(x, config.paddr + (x - config.vaddr), config.pte.attrs),
        r is Ok && !config.allow_huge ==> forall|x: usize|
            config.vaddr <= x < config.vaddr + config.size
            ==> (#[trigger] t1.translate(x) matches Some((e, l)) && l == 1 && !e.is_huge),
        config.vaddr + config.size <= table_span(t0.layout, t0.layout.level as nat)
            ==> forall|x: usize|
                x < table_span(t0.layout, t0.layout.level as nat)
                && (x < config.vaddr || x >= page_end(t0.layout, config.vaddr + config.size))
                ==> #[trigger] t1.translate(x) == t0.translate(x),
    ensures
        r is Ok && !config.allow_huge
            && (forall|x: usize| #[trigger] t0.translate(x) is None)
            && config.size % t0.layout.page_size == 0
            && config.vaddr + config.size <= table_span(t0.layout, t0.layout.level as nat)
            && t0.layout.page_size >= 2
            && t0.layout.level <= crate::walker::MAX_WALK_DEPTH
            ==> crate::walker::walks_back_pages(t1, root, config),
{
    if r is Ok && !config.allow_huge
        && (forall|x: usize| #[trigger] t0.translate(x) is None)
        && config.size % t0.layout.page_size == 0
        && config.vaddr + config.size <= table_span(t0.layout, t0.layout.level as nat)
        && t0.layout.page_size >= 2
        && t0.layout.level <= crate::walker::MAX_WALK_DEPTH {
        crate::walker::lemma_fresh_map_walks_back(t0, t1, root, config);
    }
}

/// Every entry of `new` that is valid and was not valid in `old` (or lies
/// in a frame that `old` did not have) holds the bits `attrs`.
pub open spec fn written_with(old: PageTableView, new: PageTableView, attrs: u64) -> bool {
    forall|i: int, j: int|
        #![trigger new.frames[i].entries[j]]
        0 <= i < new.frames.len() && 0 <= j < new.frames[i].entries.len()
            && new.frames[i].entries[j].valid
            && !(i < old.frames.len() && j < old.frames[i].entries.len() && old.frames[i].entries[j].valid)
            ==> new.frames[i].entries[j].attrs == attrs
}

/// Writing an entry with the bits `attrs` writes with `attrs`, and so does
/// taking a cleared frame.
pub proof fn lemma_written_step(t1: PageTableView, fi: int, idx: int, e: Pte, level: nat, base: int)
    requires
        0 <= fi < t1.frames.len(),
        0 <= idx < t1.frames[fi].entries.len(),
    ensures
        written_with(t1, t1.with_entry(fi, idx, e), e.attrs),
        written_with(t1, t1.with_new_frame(level, base), e.attrs),
{
    let t2 = t1.with_entry(fi, idx, e);
    assert forall|i: int, j: int|
        0 <= i < t2.frames.len() && 0 <= j < t2.frames[i].entries.len()
            && t2.frames[i].entries[j].valid
            && !(i < t1.frames.len() && j < t1.frames[i].entries.len() && t1.frames[i].entries[j].valid)
        implies #[trigger] t2.frames[i].entries[j].attrs == e.attrs by {
        if !(i == fi && j == idx) {
            assert(t2.frames[i].entries[j] == t1.frames[i].entries[j]);
        }
    }
    let t3 = t1.with_new_frame(level, base);
    assert forall|i: int, j: int|
        0 <= i < t3.frames.len() && 0 <= j < t3.frames[i].entries.len()
            && t3.frames[i].entries[j].valid
            && !(i < t1.frames.len() && j < t1.frames[i].entries.len() && t1.frames[i].entries[j].valid)
        implies #[trigger] t3.frames[i].entries[j].attrs == e.attrs by {
        if i < t1.frames.len() {
            assert(t3.frames[i] == t1.frames[i]);
        } else {
            assert(t3.frames[i].entries[j] == zero_pte());
        }
    }
}

/// A table that is not changed writes with any bits.
pub proof fn lemma_written_refl(t: PageTableView, attrs: u64)
    ensures
        written_with(t, t, attrs),
{
}

/// Writing with `attrs` twice in a row writes with `attrs`.
pub proof fn lemma_written_trans(t0: PageTableView, t1: PageTableView, t2: PageTableView, attrs: u64)
    requires
        written_with(t0, t1, attrs),
        written_with(t1, t2, attrs),
        t1.extends(t2),
    ensures
        written_with(t0, t2, attrs),
{
    assert forall|i: int, j: int|
        0 <= i < t2.frames.len() && 0 <= j < t2.frames[i].entries.len()
            && t2.frames[i].entries[j].valid
            && !(i < t0.frames.len() && j < t0.frames[i].entries.len() && t0.frames[i].entries[j].valid)
        implies #[trigger] t2.frames[i].entries[j].attrs == attrs by {
        if i < t1.frames.len() && j < t1.frames[i].entries.len() && t1.frames[i].entries[j].valid {
            assert(t2.frames[i].entries[j] == t1.frames[i].entries[j]);
            assert(t1.frames[i].entries[j].attrs == attrs);
        }
    }
}

/// A multiple of `a` leaves a remainder by `big`, a multiple of `a`, at
/// least `a` below `big`.
pub proof fn lemma_mod_of_multiples(v: int, a: int, big: int)
    requires
        a > 0,
        big > 0,
        v >= 0,
        v % a == 0,
        big % a == 0,
    ensures
        v % big + a <= big,
{
    vstd::arithmetic::div_mod::lemma_fundamental_div_mod(v, a);
    vstd::arithmetic::div_mod::lemma_fundamental_div_mod(big, a);
    vstd::arithmetic::div_mod::lemma_fundamental_div_mod(v, big);
    let s = v / a;
    let q = big / a;
    let d = v / big;
    let r = v % big;
    assert(r == a * (s - q * d)) by (nonlinear_arith)
        requires v == a * s, big == a * q, v == big * d + r;
    assert(q > 0) by (nonlinear_arith)
        requires big == a * q, big > 0, a > 0;
    assert(s - q * d < q) by (nonlinear_arith)
        requires r == a * (s - q * d), r < big, big == a * q, a > 0;
    assert(a * (s - q * d) <= a * (q - 1)) by (nonlinear_arith)
        requires s - q * d <= q - 1, a > 0;
    assert(a * (q - 1) == big - a) by (nonlinear_arith)
        requires big == a * q;
}

/// Mapping one whole block of level `lb`, with blocks allowed, from a table
/// at `level` takes at most one new frame per level above `lb`, and runs out
/// of frames only when fewer than that many were free.
pub proof fn lemma_block_map_frames(t: PageTableView, fi: int, level: nat, v: int, p: int, lb: nat, template: Pte)
    requires
        t.layout.wf(),
        1 <= lb <= level <= t.layout.level,
        lb <= t.layout.max_block_level,
        v >= 0,
        v % (t.layout.level_size(lb) as int) == 0,
        p % (t.layout.level_size(lb) as int) == 0,
    ensures
        ({
            let (r, t2) = t.map_range(fi, level, v, v + t.layout.level_size(lb), p, true, template);
            &&& t2.allocator == t.allocator
            &&& t2.frames.len() <= t.frames.len() + (level - lb)
            &&& r == Err::<(), PagingError>(PagingError::NoMemory)
                ==> t.frames.len() + (level - lb) > t.allocator.frame_count
        }),
    decreases level,
{
    let layout = t.layout;
    let lsb = layout.level_size(lb) as int;
    let ls = layout.level_size(level) as int;
    let end = v + lsb;
    crate::layout::lemma_level_size_multiple(layout, lb, level);
    crate::layout::lemma_level_size(layout, level);
    if 0 <= fi < t.frames.len() {
        let idx = layout.index_of(v as usize, level) as int;
        let e = t.frames[fi].entries[idx];
        if true && level <= layout.max_block_level && ls <= end - v && v % ls == 0 && p % ls == 0 {
            if !e.valid {
                let t1 = t.with_entry(fi, idx, Pte { paddr: p as usize, valid: true, is_huge: true, ..template });
                assert(t1.map_range(fi, level, v + ls, end, p + ls, true, template) == (Ok::<(), PagingError>(()), t1));
            }
        } else {
            assert(level > lb);
            lemma_mod_of_multiples(v, lsb, ls);
            assert(v - v % ls + ls >= end);
            if !(e.valid && e.is_huge) && !(!e.valid && t.frames.len() >= t.allocator.frame_count) {
                let n = t.frames.len() as int;
                let child = if e.valid { t.frame_at(e.paddr) } else { n };
                let t1 = if e.valid {
                    t
                } else {
                    t.with_new_frame((level - 1) as nat, t.bases[fi] + idx * ls).with_entry(fi, idx,
                        Pte { paddr: t.frame_paddr(n) as usize, valid: true, is_huge: false, ..template })
                };
                lemma_block_map_frames(t1, child, (level - 1) as nat, v, p, lb, template);
                let (r, t2) = t1.map_range(child, (level - 1) as nat, v, end, p, true, template);
                if r is Ok {
                    assert(t2.map_range(fi, level, end, end, p + (end - v), true, template) == (Ok::<(), PagingError>(()), t2));
                }
            }
        }
    }
}

/// Sums of multiples of `m` are multiples of `m`, and so are differences.
pub proof fn lemma_aligned_sum(a: int, b: int, m: int)
    requires
        m > 0,
        a % m == 0,
        b % m == 0,
    ensures
        (a + b) % m == 0,
        (a - b) % m == 0,
{
    vstd::arithmetic::div_mod::lemma_fundamental_div_mod(a, m);
    vstd::arithmetic::div_mod::lemma_fundamental_div_mod(b, m);
    let qa = a / m;
    let qb = b / m;
    assert(a + b == (qa + qb) * m && a - b == (qa - qb) * m) by (nonlinear_arith)
        requires a == m * qa, b == m * qb;
    vstd::arithmetic::div_mod::lemma_mod_multiples_basic(qa + qb, m);
    vstd::arithmetic::div_mod::lemma_mod_multiples_basic(qa - qb, m);
}

/// Two different multiples of `m` lie at least `m` apart.
pub proof fn lemma_aligned_gap(a: int, b: int, m: int)
    requires
        m > 0,
        a % m == 0,
        b % m == 0,
        a < b,
    ensures
        a + m <= b,
{
    vstd::arithmetic::div_mod::lemma_fundamental_div_mod(a, m);
    vstd::arithmetic::div_mod::lemma_fundamental_div_mod(b, m);
    let qa = a / m;
    let qb = b / m;
    assert(a + m <= b) by (nonlinear_arith)
        requires a == m * qa, b == m * qb, a < b, m > 0;
}

/// Every table extends itself.
pub proof fn lemma_extends_refl(t: PageTableView)
    ensures
        t.extends(t),
{
}

/// Extending a table keeps the addresses from `sv` to `v` that a walk from
/// frame `fi` takes to the physical range from `sp` on.
proof fn lemma_keep_prefix(t1: PageTableView, t2: PageTableView, fi: int, level: nat, sv: usize, v: usize,
    sp: int, attrs: u64)
    requires
        t1.extends(t2),
        forall|x: usize| sv <= x < v ==> #[trigger] t1.walk_maps(fi, level, x, sp + (x - sv), attrs),
    ensures
        forall|x: usize| sv <= x < v ==> #[trigger] t2.walk_maps(fi, level, x, sp + (x - sv), attrs),
{
    assert forall|x: usize| sv <= x < v implies #[trigger] t2.walk_maps(fi, level, x, sp + (x - sv), attrs) by {
        assert(t1.walk_maps(fi, level, x, sp + (x - sv), attrs));
        lemma_extends_keeps_walk(t1, t2, fi, level, x);
    }
}

/// Extending a table keeps the addresses from `sv` to `v` whose walk from
/// frame `fi` ends at level 1.
proof fn lemma_keep_leaf_prefix(t1: PageTableView, t2: PageTableView, fi: int, level: nat, sv: usize, v: usize)
    requires
        t1.extends(t2),
        forall|x: usize| sv <= x < v ==> #[trigger] t1.walk_ends_at_leaf(fi, level, x),
    ensures
        forall|x: usize| sv <= x < v ==> #[trigger] t2.walk_ends_at_leaf(fi, level, x),
{
    assert forall|x: usize| sv <= x < v implies #[trigger] t2.walk_ends_at_leaf(fi, level, x) by {
        assert(t1.walk_ends_at_leaf(fi, level, x));
        lemma_extends_keeps_walk(t1, t2, fi, level, x);
    }
}

/// Extending a table keeps the addresses from `sv` to `v` whose walk from
/// frame `fi` ends at level `lb` or above.
proof fn lemma_keep_level_prefix(t1: PageTableView, t2: PageTableView, fi: int, level: nat, sv: usize, v: usize, lb: nat)
    requires
        t1.extends(t2),
        forall|x: usize| sv <= x < v ==> #[trigger] t1.walk_level_at_least(fi, level, x, lb),
    ensures
        forall|x: usize| sv <= x < v ==> #[trigger] t2.walk_level_at_least(fi, level, x, lb),
{
    assert forall|x: usize| sv <= x < v implies #[trigger] t2.walk_level_at_least(fi, level, x, lb) by {
        assert(t1.walk_level_at_least(fi, level, x, lb));
        lemma_extends_keeps_walk(t1, t2, fi, level, x);
    }
}

/// Writing a last entry at `level` for `vaddr` makes the walk for every
/// address of its span end at `level`.
proof fn lemma_entry_written_level(t1: PageTableView, t2: PageTableView, fi: int, level: nat, vaddr: usize, e: Pte, lb: nat)
    requires
        t1.wf(),
        0 <= fi < t1.frames.len(),
        t1.frames[fi].level == level,
        lb <= level,
        vaddr as int % (t1.layout.level_size(level) as int) == 0,
        e.valid,
        e.is_huge || level == 1,
        t2 == t1.with_entry(fi, t1.layout.index_of(vaddr, level) as int, e),
    ensures
        forall|x: usize| vaddr <= x < vaddr + t1.layout.level_size(level)
            ==> #[trigger] t2.walk_level_at_least(fi, level, x, lb),
{
    let layout = t1.layout;
    let ls = layout.level_size(level) as int;
    let idx = layout.index_of(vaddr, level) as int;
    assert(1 <= level <= layout.level);
    crate::layout::lemma_level_size(layout, level);
    crate::layout::lemma_level_shift_bounds(layout, level);
    crate::layout::lemma_masked_below(vaddr >> (layout.index_shift(level) as usize), layout.index_bits);
    assert(t1.frames[fi].entries.len() == layout.table_len);
    assert forall|x: usize| vaddr <= x < vaddr + t1.layout.level_size(level)
        implies #[trigger] t2.walk_level_at_least(fi, level, x, lb) by {
        crate::layout::lemma_same_block(x as int, vaddr as int, ls);
        crate::layout::lemma_index_same(layout, level, x, vaddr);
        assert(t2.frames[fi].entries[idx] == e);
        assert(t2.walk(fi, level, x) == Some((e, level)));
    }
}

/// Once the walks of `[v, next)` from the table that entry `index_of(v,
/// level)` of frame `fi` points to end at level `lb` or above, so do those
/// from frame `fi`.
proof fn lemma_through_table_level(t3: PageTableView, t4: PageTableView, fi: int, level: nat, v: usize, next: int, lb: nat)
    requires
        t3.wf(),
        t3.extends(t4),
        0 <= fi < t3.frames.len(),
        t3.frames[fi].level == level,
        2 <= level <= t3.layout.level,
        t3.frames[fi].entries[t3.layout.index_of(v, level) as int].valid,
        !t3.frames[fi].entries[t3.layout.index_of(v, level) as int].is_huge,
        v <= next <= v - v as int % (t3.layout.level_size(level) as int) + t3.layout.level_size(level),
        forall|x: usize| v <= x < next ==> #[trigger] t4.walk_level_at_least(
            t3.frame_at(t3.frames[fi].entries[t3.layout.index_of(v, level) as int].paddr), (level - 1) as nat, x, lb),
    ensures
        forall|x: usize| v <= x < next ==> #[trigger] t4.walk_level_at_least(fi, level, x, lb),
{
    let layout = t3.layout;
    let ls = layout.level_size(level) as int;
    let idx = layout.index_of(v, level) as int;
    let ptr = t3.frames[fi].entries[idx];
    let cf = t3.frame_at(ptr.paddr);
    crate::layout::lemma_level_size(layout, level);
    crate::layout::lemma_level_shift_bounds(layout, level);
    crate::layout::lemma_masked_below(v >> (layout.index_shift(level) as usize), layout.index_bits);
    assert(t3.frames[fi].entries.len() == layout.table_len);
    assert(t4.frames[fi].entries[idx] == ptr);
    assert forall|x: usize| v <= x < next implies #[trigger] t4.walk_level_at_least(fi, level, x, lb) by {
        crate::layout::lemma_same_block(x as int, v as int, ls);
        crate::layout::lemma_index_same(layout, level, x, v);
        assert(t4.walk_level_at_least(cf, (level - 1) as nat, x, lb));
        assert(t4.walk(fi, level, x) == t4.walk(cf, (level - 1) as nat, x));
    }
}

/// Writing a last entry (a block, or an entry at level 1) for `vaddr` into
/// an invalid entry of frame `fi` makes the addresses of the entry's span
/// from `vaddr` on translate through it, at the same offset from `sp` as
/// from `sv`; none of them was mapped before.
proof fn lemma_entry_written(t0: PageTableView, t1: PageTableView, t2: PageTableView, fi: int, level: nat,
    vaddr: usize, e: Pte, sv: int, sp: int, attrs: u64)
    requires
        t1.wf(),
        t0.extends(t1),
        0 <= fi < t1.frames.len(),
        t1.frames[fi].level == level,
        1 <= level <= t1.layout.level,
        vaddr as int % (t1.layout.level_size(level) as int) == 0,
        !t1.frames[fi].entries[t1.layout.index_of(vaddr, level) as int].valid,
        e.valid,
        e.is_huge || level == 1,
        e.paddr == sp + (vaddr - sv),
        e.attrs == attrs,
        t2 == t1.with_entry(fi, t1.layout.index_of(vaddr, level) as int, e),
    ensures
        forall|x: usize| vaddr <= x < vaddr + t1.layout.level_size(level)
            ==> #[trigger] t2.walk_maps(fi, level, x, sp + (x - sv), attrs),
        forall|x: usize| vaddr <= x < vaddr + t1.layout.level_size(level)
            ==> #[trigger] t0.walk(fi, level, x) is None,
        !e.is_huge ==> forall|x: usize| vaddr <= x < vaddr + t1.layout.level_size(level)
            ==> #[trigger] t2.walk_ends_at_leaf(fi, level, x),
{
    let layout = t1.layout;
    let ls = layout.level_size(level) as int;
    let idx = layout.index_of(vaddr, level) as int;
    crate::layout::lemma_level_size(layout, level);
    crate::layout::lemma_level_shift_bounds(layout, level);
    crate::layout::lemma_masked_below(vaddr >> (layout.index_shift(level) as usize), layout.index_bits);
    assert(t1.frames[fi].entries.len() == layout.table_len);
    assert forall|x: usize| vaddr <= x < vaddr + t1.layout.level_size(level)
        implies #[trigger] t2.walk_maps(fi, level, x, sp + (x - sv), attrs) by {
        crate::layout::lemma_same_block(x as int, vaddr as int, ls);
        crate::layout::lemma_index_same(layout, level, x, vaddr);
        assert(t2.frames[fi].entries[idx] == e);
        assert(t2.walk(fi, level, x) == Some((e, level)));
    }
    if !e.is_huge {
        assert forall|x: usize| vaddr <= x < vaddr + t1.layout.level_size(level)
            implies #[trigger] t2.walk_ends_at_leaf(fi, level, x) by {
            crate::layout::lemma_same_block(x as int, vaddr as int, ls);
            crate::layout::lemma_index_same(layout, level, x, vaddr);
            assert(t2.frames[fi].entries[idx] == e);
            assert(t2.walk(fi, level, x) == Some((e, level)));
        }
    }
    assert forall|x: usize| vaddr <= x < vaddr + t1.layout.level_size(level)
        implies #[trigger] t0.walk(fi, level, x) is None by {
        crate::layout::lemma_same_block(x as int, vaddr as int, ls);
        crate::layout::lemma_index_same(layout, level, x, vaddr);
        assert(t1.walk(fi, level, x) is None);
        if t0.walk(fi, level, x) is Some {
            lemma_extends_keeps_walk(t0, t1, fi, level, x);
        }
    }
}

/// Once the table that entry `index_of(v, level)` of frame `fi` points to
/// takes `[v, next)` to the physical range from `p` on, so does frame `fi`,
/// when `[v, next)` lies inside that entry's span; and the addresses that
/// the lower table did not map were not mapped from `fi` either.
proof fn lemma_through_table(t0: PageTableView, t3: PageTableView, t4: PageTableView, fi: int, level: nat,
    v: usize, next: int, p: int, sv: int, sp: int, attrs: u64, leaf: bool)
    requires
        t3.wf(),
        t0.extends(t3),
        t3.extends(t4),
        0 <= fi < t3.frames.len(),
        t3.frames[fi].level == level,
        2 <= level <= t3.layout.level,
        t3.frames[fi].entries[t3.layout.index_of(v, level) as int].valid,
        !t3.frames[fi].entries[t3.layout.index_of(v, level) as int].is_huge,
        v <= next <= v - v as int % (t3.layout.level_size(level) as int) + t3.layout.level_size(level),
        p == sp + (v - sv),
        forall|x: usize| v <= x < next ==> #[trigger] t4.walk_maps(
            t3.frame_at(t3.frames[fi].entries[t3.layout.index_of(v, level) as int].paddr), (level - 1) as nat,
            x, p + (x - v), attrs),
        forall|x: usize| v <= x < next ==> #[trigger] t3.walk(
            t3.frame_at(t3.frames[fi].entries[t3.layout.index_of(v, level) as int].paddr), (level - 1) as nat,
            x) is None,
        leaf ==> forall|x: usize| v <= x < next ==> #[trigger] t4.walk_ends_at_leaf(
            t3.frame_at(t3.frames[fi].entries[t3.layout.index_of(v, level) as int].paddr), (level - 1) as nat, x),
    ensures
        forall|x: usize| v <= x < next ==> #[trigger] t4.walk_maps(fi, level, x, sp + (x - sv), attrs),
        forall|x: usize| v <= x < next ==> #[trigger] t0.walk(fi, level, x) is None,
        leaf ==> forall|x: usize| v <= x < next ==> #[trigger] t4.walk_ends_at_leaf(fi, level, x),
{
    let layout = t3.layout;
    let ls = layout.level_size(level) as int;
    let idx = layout.index_of(v, level) as int;
    let ptr = t3.frames[fi].entries[idx];
    let cf = t3.frame_at(ptr.paddr);
    crate::layout::lemma_level_size(layout, level);
    crate::layout::lemma_level_shift_bounds(layout, level);
    crate::layout::lemma_masked_below(v >> (layout.index_shift(level) as usize), layout.index_bits);
    assert(t3.frames[fi].entries.len() == layout.table_len);
    assert(t4.frames[fi].entries[idx] == ptr);
    assert forall|x: usize| v <= x < next implies #[trigger] t4.walk_maps(fi, level, x, sp + (x - sv), attrs) by {
        crate::layout::lemma_same_block(x as int, v as int, ls);
        crate::layout::lemma_index_same(layout, level, x, v);
        assert(t4.walk_maps(cf, (level - 1) as nat, x, p + (x - v), attrs));
        assert(t4.walk(fi, level, x) == t4.walk(cf, (level - 1) as nat, x));
    }
    assert forall|x: usize| v <= x < next implies #[trigger] t0.walk(fi, level, x) is None by {
        crate::layout::lemma_same_block(x as int, v as int, ls);
        crate::layout::lemma_index_same(layout, level, x, v);
        assert(t3.walk(cf, (level - 1) as nat, x) is None);
        assert(t3.walk(fi, level, x) == t3.walk(cf, (level - 1) as nat, x));
        if t0.walk(fi, level, x) is Some {
            lemma_extends_keeps_walk(t0, t3, fi, level, x);
        }
    }
    if leaf {
        assert forall|x: usize| v <= x < next implies #[trigger] t4.walk_ends_at_leaf(fi, level, x) by {
            crate::layout::lemma_same_block(x as int, v as int, ls);
            crate::layout::lemma_index_same(layout, level, x, v);
            assert(t4.walk_ends_at_leaf(cf, (level - 1) as nat, x));
            assert(t4.walk(fi, level, x) == t4.walk(cf, (level - 1) as nat, x));
        }
    }
}

/// Entries that all have every bit clear.
fn zeroed_entries(len: usize) -> (entries: Vec<Pte>)
    ensures
        entries@.len() == len,
        forall|j: int| 0 <= j < len ==> #[trigger] entries@[j] == zero_pte(),
{
    let mut entries: Vec<Pte> = Vec::new();
    let mut i: usize = 0;
    while i < len
        invariant
            i <= len,
            entries@.len() == i,
            forall|j: int| 0 <= j < i ==> #[trigger] entries@[j] == zero_pte(),
        decreases len - i,
    {
        entries.push(Pte::zeroed());
        i = i + 1;
    }
    entries
}

impl PageTable {
    /// The format of this table.
    pub fn layout(&self) -> (layout: TableGeneric)
        ensures
            layout == self@.layout,
    {
        self.layout
    }

    /// Creates a page table whose root table is the first frame of
    /// `allocator`, cleared. Fails with `NoMemory` when the area holds no frame.
    pub fn new(layout: TableGeneric, allocator: FramAllocator) -> (r: Result<PageTable, PagingError>)
        requires
            layout.wf(),
            allocator.start + allocator.frame_count * layout.page_size <= usize::MAX,
        ensures
            r is Ok <==> allocator.frame_count > 0,
            r is Err ==> r->Err_0 == PagingError::NoMemory,
            r matches Ok(t) ==> {
                &&& t@.wf()
                &&& t@.layout == layout
                &&& t@.allocator == allocator
                &&& t@.frames.len() == 1
                &&& t.root_paddr() == allocator.start
                &&& forall|j: int| 0 <= j < layout.table_len ==> #[trigger] t@.frames[0].entries[j] == zero_pte()
                &&& forall|v: usize| #[trigger] t@.translate(v) is None
            },
    {
        if allocator.frame_count == 0 {
            return Err(PagingError::NoMemory);
        }
        let entries = zeroed_entries(layout.table_len);
        let mut frames: Vec<TableFrame> = Vec::new();
        frames.push(TableFrame { level: layout.level, entries });
        let bases: Ghost<Seq<int>> = Ghost(Seq::empty().push(0int));
        let t = PageTable { layout, allocator, frames, bases };
        proof {
            let v = t@;
            vstd::arithmetic::power2::lemma_pow2_pos(
                (layout.page_shift() + layout.index_bits * layout.level) as nat);
            assert(v.base_wf(0));
            assert(v.frames[0].entries == entries@);
            assert(forall|j: int| 0 <= j < v.frames[0].entries.len() ==> !v.frames[0].entries[j].valid);
            assert forall|a: usize| #[trigger] v.translate(a) is None by {
                crate::layout::lemma_masked_below(
                    a >> (layout.index_shift(layout.level as nat) as usize), layout.index_bits);
            }
        }
        Ok(t)
    }

    /// The physical address of the root table.
    pub closed spec fn root_paddr(self) -> usize {
        self.allocator.start
    }

    /// The root table is the first frame of the area, at the top level.
    pub proof fn lemma_root_is_table(&self)
        requires
            self@.wf(),
        ensures
            self@.is_table_of(self.root_paddr(), self@.layout.level as nat),
            self@.frame_at(self.root_paddr()) == 0,
    {
        lemma_page_size_positive(self.layout);
        let ps = self.layout.page_size as int;
        assert(0int / ps == 0);
        assert(0int % ps == 0);
        assert(self.root_paddr() - self@.allocator.start == 0);
    }

    /// The physical address of the root table.
    pub fn root_paddr_exec(&self) -> (paddr: usize)
        ensures
            paddr == self.root_paddr(),
    {
        self.allocator.start
    }

    /// The number of table frames taken from the area, the root first.
    pub fn frame_count(&self) -> (n: usize)
        ensures
            n == self@.frames.len(),
    {
        self.frames.len()
    }

    /// The physical address of table frame `i`.
    pub fn frame_paddr_at(&self, i: usize) -> (paddr: usize)
        requires
            self@.wf(),
            i < self@.frames.len(),
        ensures
            paddr == self@.frame_paddr(i as int),
    {
        proof {
            lemma_frame_paddr_roundtrip(self@, i as int);
        }
        self.allocator.start + i * self.layout.page_size
    }

    /// The level of table frame `i`.
    pub fn frame_level(&self, i: usize) -> (level: usize)
        requires
            i < self@.frames.len(),
        ensures
            level == self@.frames[i as int].level,
    {
        self.frames[i].level
    }

    /// Entry `j` of table frame `i`.
    pub fn frame_entry(&self, i: usize, j: usize) -> (pte: Pte)
        requires
            i < self@.frames.len(),
            j < self@.frames[i as int].entries.len(),
        ensures
            pte == self@.frames[i as int].entries[j as int],
    {
        self.frames[i].entries[j]
    }

    /// Checks the size and alignment of a mapping.
    fn validate_map_config(&self, config: &MapConfig) -> (r: Result<(), PagingError>)
        requires
            self@.wf(),
        ensures
            r == (match map_config_error(self@.layout, *config) {
                Some(e) => Err(e),
                None => Ok(()),
            }),
    {
        proof {
            lemma_page_size_positive(self.layout);
        }
        if config.size == 0 {
            return Err(PagingError::InvalidSize("Size cannot be zero"));
        }
        if config.vaddr % self.layout.page_size != 0 {
            return Err(PagingError::AlignmentError("Virtual address not page aligned"));
        }
        if config.paddr % self.layout.page_size != 0 {
            return Err(PagingError::AlignmentError("Physical address not page aligned"));
        }
        Ok(())
    }

    /// Maps `config.size` bytes from `config.vaddr` onto the physical range
    /// from `config.paddr` on, with the bits of `config.pte`.
    ///
    /// After the checks of `map_check`, the range is mapped from the root as
    /// `map_range` says; the mapping stops at the first entry that is already
    /// taken (`MappingConflict`), at a table that would sit below a block
    /// entry (`HierarchyError`), or when no frame is left (`NoMemory`).
    /// Entries written before such a stop stay written. Entries that were
    /// valid before are never changed. On success every address of the range
    /// translates to the same offset in the physical range, and none of them
    /// was mapped before.
    pub fn map(&mut self, config: &MapConfig) -> (r: Result<(), PagingError>)
        requires
            old(self)@.wf(),
        ensures
            final(self)@.wf(),
            old(self)@.extends(final(self)@),
            (r, final(self)@) == old(self)@.map_result(*config),
            written_with(old(self)@, final(self)@, config.pte.attrs),
            r is Ok ==> forall|lb: nat, x: usize|
                #![trigger fits_blocks(old(self)@.layout, config.vaddr as int, config.paddr as int,
                    config.vaddr + config.size, config.allow_huge, lb), final(self)@.translate(x)]
                fits_blocks(old(self)@.layout, config.vaddr as int, config.paddr as int,
                    config.vaddr + config.size, config.allow_huge, lb)
                    && config.vaddr <= x < config.vaddr + config.size
                ==> (final(self)@.translate(x) matches Some((_, l)) && l >= lb),
            forall|lb: nat|
                #[trigger] fits_blocks(old(self)@.layout, config.vaddr as int, config.paddr as int,
                    config.vaddr + config.size, config.allow_huge, lb)
                    && config.size == old(self)@.layout.level_size(lb)
                    && r == Err::<(), PagingError>(PagingError::NoMemory)
                ==> old(self)@.frames.len() + (old(self)@.layout.level - lb) > old(self)@.allocator.frame_count,
            map_check(old(self)@.layout, *config) matches Some(e) ==> r == Err::<(), PagingError>(e) && final(self)@ == old(self)@,
            map_check(old(self)@.layout, *config) is None ==> {
                &&& r is Ok ==> forall|x: usize|
                    config.vaddr <= x < config.vaddr + config.size
                    ==> #[trigger] final(self)@.maps(x, config.paddr + (x - config.vaddr), config.pte.attrs)
                &&& r is Ok ==> forall|x: usize|
                    config.vaddr <= x < config.vaddr + config.size
                    ==> #[trigger] old(self)@.translate(x) is None
                &&& r is Ok && !config.allow_huge ==> forall|x: usize|
                    config.vaddr <= x < config.vaddr + config.size
                    ==> (#[trigger] final(self)@.translate(x) matches Some((e, l)) && l == 1 && !e.is_huge)
                &&& r matches Err(e) ==> {
                    ||| e is MappingConflict
                    ||| e is HierarchyError
                    ||| (e is NoMemory && final(self)@.frames.len() == final(self)@.allocator.frame_count)
                }
                &&& r matches Err(PagingError::MappingConflict { vaddr, paddr }) ==> {
                    &&& config.vaddr <= vaddr < config.vaddr + config.size
                    &&& vaddr % old(self)@.layout.page_size == 0
                }
            },
            config.vaddr + config.size <= table_span(old(self)@.layout, old(self)@.layout.level as nat)
                ==> forall|x: usize|
                    x < table_span(old(self)@.layout, old(self)@.layout.level as nat)
                    && (x < config.vaddr || x >= page_end(old(self)@.layout, config.vaddr + config.size))
                    ==> #[trigger] final(self)@.translate(x) == old(self)@.translate(x),
            r is Ok && !config.allow_huge
                && (forall|x: usize| #[trigger] old(self)@.translate(x) is None)
                && config.size % old(self)@.layout.page_size == 0
                && config.vaddr + config.size <= table_span(old(self)@.layout, old(self)@.layout.level as nat)
                && old(self)@.layout.page_size >= 2
                && old(self)@.layout.level <= crate::walker::MAX_WALK_DEPTH
                ==> crate::walker::walks_back_pages(final(self)@, final(self).root_paddr(), *config),
    {
        proof {
            lemma_extends_refl(self@);
            lemma_written_refl(self@, config.pte.attrs);
        }
        match self.validate_map_config(config) {
            Ok(()) => {},
            Err(e) => {
                return Err(e);
            },
        }
        if config.vaddr.checked_add(config.size).is_none() || config.paddr.checked_add(config.size).is_none() {
            return Err(PagingError::AddressOverflow("Virtual or physical address overflow"));
        }
        let root = Frame { paddr: self.allocator.start };
        proof {
            lemma_page_size_positive(self.layout);
            assert(self@.frame_at(root.paddr) == 0);
        }
        let ghost t0 = self@;
        let rc = MapRecursiveConfig {
            start_vaddr: config.vaddr,
            start_paddr: config.paddr,
            end_vaddr: config.vaddr + config.size,
            level: self.layout.level,
            allow_huge: config.allow_huge,
            flush: config.flush,
            pte_template: config.pte,
        };
        let ghost top = top_block_level(t0.layout, config.vaddr as int, config.paddr as int,
            config.vaddr + config.size, config.allow_huge, t0.layout.level as nat);
        let r = self.map_range_recursive(root, rc, Ghost(top));
        proof {
            assert(t0.bases[t0.frame_at(root.paddr)] == 0);
            if r is Ok {
                assert forall|x: usize|
                    config.vaddr <= x < config.vaddr + config.size
                    implies #[trigger] self@.maps(x, config.paddr + (x - config.vaddr), config.pte.attrs) by {
                    assert(rc.start_vaddr <= x < rc.end_vaddr);
                    assert(self@.walk_maps(t0.frame_at(root.paddr), rc.level as nat, x,
                        rc.start_paddr + (x - rc.start_vaddr), rc.pte_template.attrs));
                }
                assert forall|lb: nat, x: usize|
                    #[trigger] fits_blocks(t0.layout, config.vaddr as int, config.paddr as int,
                        config.vaddr + config.size, config.allow_huge, lb)
                        && config.vaddr <= x < config.vaddr + config.size
                    implies (#[trigger] self@.translate(x) matches Some((_, l)) && l >= lb) by {
                    lemma_top_block_level(t0.layout, config.vaddr as int, config.paddr as int,
                        config.vaddr + config.size, config.allow_huge, t0.layout.level as nat, lb);
                    assert(rc.start_vaddr <= x < rc.end_vaddr);
                    assert(self@.walk_level_at_least(t0.frame_at(root.paddr), rc.level as nat, x, top));
                }
                if !config.allow_huge {
                    assert forall|x: usize|
                        config.vaddr <= x < config.vaddr + config.size
                        implies (#[trigger] self@.translate(x) matches Some((e, l)) && l == 1 && !e.is_huge) by {
                        assert(rc.start_vaddr <= x < rc.end_vaddr);
                        assert(self@.walk_ends_at_leaf(t0.frame_at(root.paddr), rc.level as nat, x));
                    }
                }
                assert forall|x: usize|
                    config.vaddr <= x < config.vaddr + config.size
                    implies #[trigger] t0.translate(x) is None by {
                    assert(rc.start_vaddr <= x < rc.end_vaddr);
                    assert(t0.walk(t0.frame_at(root.paddr), rc.level as nat, x) is None);
                }
            }
        }
        proof {
            self.lemma_root_is_table();
            lemma_map_walks_back(t0, self@, *config, r, self.root_paddr());
            assert forall|lb: nat|
                #[trigger] fits_blocks(t0.layout, config.vaddr as int, config.paddr as int,
                    config.vaddr + config.size, config.allow_huge, lb)
                    && config.size == t0.layout.level_size(lb)
                    && r == Err::<(), PagingError>(PagingError::NoMemory)
                implies t0.frames.len() + (t0.layout.level - lb) > t0.allocator.frame_count by {
                lemma_block_map_frames(t0, 0, t0.layout.level as nat, config.vaddr as int, config.paddr as int,
                    lb, config.pte);
            }
        }
        r
    }

    /// The number of the frame that `frame` names.
    fn frame_index(&self, frame: Frame, Ghost(level): Ghost<nat>) -> (fi: usize)
        requires
            self@.wf(),
            self@.is_table_of(frame.paddr, level),
        ensures
            fi == self@.frame_at(frame.paddr),
            fi < self@.frames.len(),
            self@.frames[fi as int].level == level,
    {
        proof {
            lemma_page_size_positive(self.layout);
        }
        (frame.paddr - self.allocator.start) / self.layout.page_size
    }

    /// Takes the next frame of the area, cleared, for a table at `level`.
    fn new_frame(&mut self, level: usize, Ghost(base): Ghost<int>) -> (r: Result<Frame, PagingError>)
        requires
            old(self)@.wf(),
            1 <= level < old(self)@.layout.level,
            0 <= base,
            base % (table_span(old(self)@.layout, level as nat) as int) == 0,
            base + table_span(old(self)@.layout, level as nat) <= table_span(old(self)@.layout, old(self)@.layout.level as nat),
        ensures
            final(self)@.wf(),
            old(self)@.extends(final(self)@),
            r matches Ok(f) ==> {
                &&& final(self)@ == old(self)@.with_new_frame(level as nat, base)
                &&& f.paddr == old(self)@.frame_paddr(old(self)@.frames.len() as int)
                &&& final(self)@.is_table_of(f.paddr, level as nat)
                &&& final(self)@.frame_at(f.paddr) == old(self)@.frames.len()
                &&& final(self)@.frames.len() == old(self)@.frames.len() + 1
                &&& forall|i: int| 0 <= i < old(self)@.frames.len() ==> #[trigger] final(self)@.frames[i] == old(self)@.frames[i]
            },
            r matches Err(e) ==> {
                &&& e == PagingError::NoMemory
                &&& final(self)@ == old(self)@
                &&& old(self)@.frames.len() == old(self)@.allocator.frame_count
            },
    {
        let n = self.frames.len();
        if n == self.allocator.frame_count {
            return Err(PagingError::NoMemory);
        }
        proof {
            lemma_frame_paddr_roundtrip(self@, n as int);
        }
        let paddr = self.allocator.start + n * self.layout.page_size;
        let entries = zeroed_entries(self.layout.table_len);
        let ghost before = self@;
        self.frames.push(TableFrame { level, entries });
        self.bases = Ghost(self.bases@.push(base));
        proof {
            let after = self@;
            assert(after.frames == before.frames.push(FrameView { level: level as nat, entries: entries@ }));
            assert(entries@ =~= Seq::new(before.layout.table_len as nat, |j: int| zero_pte()));
            assert(after == before.with_new_frame(level as nat, base));
            assert forall|i: int, j: int|
                #![trigger after.frames[i].entries[j]]
                0 <= i < after.frames.len() && 0 <= j < after.frames[i].entries.len()
                    && after.frames[i].entries[j].valid && !after.frames[i].entries[j].is_huge
                    && after.frames[i].level > 1
                implies after.is_table_of(after.frames[i].entries[j].paddr, (after.frames[i].level - 1) as nat)
                    && after.bases[after.frame_at(after.frames[i].entries[j].paddr)]
                        == after.bases[i] + j * after.layout.level_size(after.frames[i].level) by {
                assert(i < before.frames.len());
                assert(before.frames[i].entries[j] == after.frames[i].entries[j]);
            }
            assert forall|i: int| #![trigger after.frames[i]] 0 <= i < after.frames.len() implies {
                &&& after.frames[i].entries.len() == after.layout.table_len
                &&& 1 <= after.frames[i].level <= after.layout.level
                &&& after.base_wf(i)
            } by {
                if i < before.frames.len() {
                    assert(before.frames[i] == after.frames[i]);
                    assert(before.base_wf(i));
                }
            }
        }
        Ok(Frame { paddr })
    }

    /// Maps `[start_vaddr, end_vaddr)` onto the physical range from
    /// `start_paddr` on in the table `frame` at `level`, entry by entry: a
    /// block entry where blocks are allowed and fit, a last-level entry at
    /// level 1, and else the part of the range inside the entry in the table
    /// one level down (taken from the area when the entry is invalid). An
    /// entry that is already valid where a new one was to go is a conflict,
    /// and a block entry where a table was to go is a hierarchy error.
    #[verifier::rlimit(100)]
    fn map_range_recursive(&mut self, frame: Frame, config: MapRecursiveConfig, Ghost(lb): Ghost<nat>)
        -> (r: Result<(), PagingError>)
        requires
            old(self)@.wf(),
            1 <= config.level <= old(self)@.layout.level,
            old(self)@.is_table_of(frame.paddr, config.level as nat),
            config.start_vaddr % old(self)@.layout.page_size == 0,
            config.start_vaddr < config.end_vaddr
                ==> config.start_paddr + (config.end_vaddr - config.start_vaddr) <= usize::MAX,
        ensures
            final(self)@.wf(),
            old(self)@.extends(final(self)@),
            (r, final(self)@) == old(self)@.map_range(old(self)@.frame_at(frame.paddr), config.level as nat,
                config.start_vaddr as int, config.end_vaddr as int, config.start_paddr as int,
                config.allow_huge, config.pte_template),
            r is Ok ==> forall|x: usize|
                config.start_vaddr <= x < config.end_vaddr
                ==> #[trigger] final(self)@.walk_maps(old(self)@.frame_at(frame.paddr), config.level as nat, x,
                    config.start_paddr + (x - config.start_vaddr), config.pte_template.attrs),
            r is Ok ==> forall|x: usize|
                config.start_vaddr <= x < config.end_vaddr
                ==> #[trigger] old(self)@.walk(old(self)@.frame_at(frame.paddr), config.level as nat, x) is None,
            r is Ok && !config.allow_huge ==> forall|x: usize|
                config.start_vaddr <= x < config.end_vaddr
                ==> #[trigger] final(self)@.walk_ends_at_leaf(old(self)@.frame_at(frame.paddr), config.level as nat, x),
            r matches Err(e) ==> {
                ||| e is MappingConflict
                ||| e is HierarchyError
                ||| (e is NoMemory && final(self)@.frames.len() == final(self)@.allocator.frame_count)
            },
            r matches Err(PagingError::MappingConflict { vaddr, paddr }) ==> {
                &&& config.start_vaddr <= vaddr < config.end_vaddr
                &&& vaddr % old(self)@.layout.page_size == 0
            },
            written_with(old(self)@, final(self)@, config.pte_template.attrs),
            r is Ok && lb <= config.level && fits_blocks(old(self)@.layout, config.start_vaddr as int,
                config.start_paddr as int, config.end_vaddr as int, config.allow_huge, lb)
                ==> forall|x: usize| config.start_vaddr <= x < config.end_vaddr
                    ==> #[trigger] final(self)@.walk_level_at_least(old(self)@.frame_at(frame.paddr), config.level as nat, x, lb),
            old(self)@.bases[old(self)@.frame_at(frame.paddr)] <= config.start_vaddr
                && config.end_vaddr <= old(self)@.bases[old(self)@.frame_at(frame.paddr)]
                    + table_span(old(self)@.layout, config.level as nat)
                ==> forall|x: usize|
                    x < table_span(old(self)@.layout, old(self)@.layout.level as nat)
                    && (x < config.start_vaddr || x >= page_end(old(self)@.layout, config.end_vaddr as int))
                    ==> #[trigger] final(self)@.translate(x) == old(self)@.translate(x),
        decreases config.level,
    {
        let ghost t0 = self@;
        let ghost level = config.level as nat;
        let ghost ah = config.allow_huge;
        let ghost tmpl = config.pte_template;
        let ghost attrs = config.pte_template.attrs;
        let ps = self.layout.page_size;
        let fi = self.frame_index(frame, Ghost(level));
        let sv = config.start_vaddr;
        let ev = config.end_vaddr;
        let sp = config.start_paddr;
        proof {
            crate::layout::lemma_level_size(self.layout, level);
            lemma_extends_refl(self@);
            lemma_written_refl(self@, config.pte_template.attrs);
        }
        if sv >= ev {
            return Ok(());
        }
        let ghost span_all = table_span(t0.layout, t0.layout.level as nat);
        let ghost inside = t0.bases[fi as int] <= sv && ev <= t0.bases[fi as int] + table_span(t0.layout, level);
        let ghost fb = lb <= level && fits_blocks(t0.layout, sv as int, sp as int, ev as int, ah, lb);
        let ghost lsb = t0.layout.level_size(lb) as int;
        proof {
            if fb {
                crate::layout::lemma_level_size(t0.layout, lb);
            }
        }
        let mut vaddr = sv;
        let mut paddr = sp;
        while vaddr < ev
            invariant
                self@.wf(),
                t0 == old(self)@,
                t0.extends(self@),
                t0.wf(),
                ps == self@.layout.page_size,
                ps > 0,
                level == config.level,
                1 <= config.level <= self@.layout.level,
                fi == t0.frame_at(frame.paddr),
                fi < self@.frames.len(),
                self@.frames[fi as int].level == level,
                sv == config.start_vaddr,
                ev == config.end_vaddr,
                sp == config.start_paddr,
                ah == config.allow_huge,
                tmpl == config.pte_template,
                attrs == config.pte_template.attrs,
                sv < ev,
                sp + (ev - sv) <= usize::MAX,
                sv <= vaddr <= ev,
                vaddr % ps == 0 || vaddr == ev,
                paddr == sp + (vaddr - sv),
                span_all == table_span(t0.layout, t0.layout.level as nat),
                inside == (t0.bases[fi as int] <= sv && ev <= t0.bases[fi as int] + table_span(t0.layout, level)),
                self@.bases[fi as int] == t0.bases[fi as int],
                written_with(t0, self@, attrs),
                fb == (lb <= level && fits_blocks(t0.layout, sv as int, sp as int, ev as int, ah, lb)),
                lsb == t0.layout.level_size(lb) as int,
                fb ==> lsb > 0 && vaddr as int % lsb == 0 && paddr as int % lsb == 0 && ev as int % lsb == 0,
                fb ==> forall|x: usize| sv <= x < vaddr ==> #[trigger] self@.walk_level_at_least(fi as int, level, x, lb),
                inside ==> forall|x: usize| x < span_all && (x < sv || x >= page_end(t0.layout, ev as int))
                    ==> #[trigger] self@.translate(x) == t0.translate(x),
                forall|x: usize| sv <= x < vaddr
                    ==> #[trigger] self@.walk_maps(fi as int, level, x, sp + (x - sv), attrs),
                forall|x: usize| sv <= x < vaddr
                    ==> #[trigger] t0.walk(fi as int, level, x) is None,
                !ah ==> forall|x: usize| sv <= x < vaddr
                    ==> #[trigger] self@.walk_ends_at_leaf(fi as int, level, x),
                self@.map_range(fi as int, level, vaddr as int, ev as int, paddr as int, ah, tmpl)
                    == t0.map_range(fi as int, level, sv as int, ev as int, sp as int, ah, tmpl),
            decreases ev - vaddr,
        {
            let index = Frame::virt_to_index(&self.layout, vaddr, config.level);
            let level_size = Frame::level_size(&self.layout, config.level);
            let remaining_size = ev - vaddr;
            proof {
                crate::layout::lemma_level_size(self.layout, level);
            }
            let ghost t1 = self@;
            if config.allow_huge && config.level <= self.layout.max_block_level && level_size <= remaining_size
                && vaddr % level_size == 0 && paddr % level_size == 0 {
                let current = self.frames[fi].entries[index];
                if current.valid {
                    return Err(PagingError::MappingConflict { vaddr, paddr: current.paddr });
                }
                let mut new_pte = config.pte_template;
                new_pte.paddr = paddr;
                new_pte.valid = true;
                new_pte.is_huge = true;
                self.set_entry(fi, index, new_pte);
                proof {
                    lemma_fill_invalid_entry(t1, self@, fi as int, index as int, new_pte);
                    lemma_extends_trans(t0, t1, self@);
                    lemma_written_step(t1, fi as int, index as int, new_pte, 1, 0);
                    lemma_written_trans(t0, t1, self@, attrs);
                    lemma_entry_written(t0, t1, self@, fi as int, level, vaddr, new_pte, sv as int, sp as int, attrs);
                    lemma_keep_prefix(t1, self@, fi as int, level, sv, vaddr, sp as int, attrs);
                    crate::layout::lemma_next_block_aligned(vaddr as int, level_size as int, ps as int);
                    if fb {
                        lemma_entry_written_level(t1, self@, fi as int, level, vaddr, new_pte, lb);
                        lemma_keep_level_prefix(t1, self@, fi as int, level, sv, vaddr, lb);
                        crate::layout::lemma_level_size_multiple(t0.layout, lb, level);
                        lemma_aligned_sum(vaddr as int, level_size as int, lsb);
                        lemma_aligned_sum(paddr as int, level_size as int, lsb);
                    }
                    if inside {
                        lemma_written_range_only(t0, t1, self@, fi as int, index as int, new_pte, vaddr, sv, ev);
                    }
                    assert(new_pte == Pte { paddr: paddr, valid: true, is_huge: true, ..config.pte_template });
                }
                vaddr = vaddr + level_size;
                paddr = paddr + level_size;
                continue;
            }
            proof {
                if fb && lb == level {
                    lemma_aligned_gap(vaddr as int, ev as int, lsb);
                    assert(false);
                }
            }
            if config.level == 1 {
                let current = self.frames[fi].entries[index];
                if current.valid {
                    return Err(PagingError::MappingConflict { vaddr, paddr: current.paddr });
                }
                let mut new_pte = config.pte_template;
                new_pte.paddr = paddr;
                new_pte.valid = true;
                new_pte.is_huge = false;
                self.set_entry(fi, index, new_pte);
                proof {
                    lemma_fill_invalid_entry(t1, self@, fi as int, index as int, new_pte);
                    lemma_extends_trans(t0, t1, self@);
                    lemma_written_step(t1, fi as int, index as int, new_pte, 1, 0);
                    lemma_written_trans(t0, t1, self@, attrs);
                    lemma_entry_written(t0, t1, self@, fi as int, level, vaddr, new_pte, sv as int, sp as int, attrs);
                    lemma_keep_prefix(t1, self@, fi as int, level, sv, vaddr, sp as int, attrs);
                    if !ah {
                        lemma_keep_leaf_prefix(t1, self@, fi as int, level, sv, vaddr);
                    }
                    assert(new_pte == Pte { paddr: paddr, valid: true, is_huge: false, ..config.pte_template });
                    if inside {
                        lemma_written_range_only(t0, t1, self@, fi as int, index as int, new_pte, vaddr, sv, ev);
                    }
                }
                if remaining_size <= ps {
                    proof {
                        assert(self@.map_range(fi as int, level, vaddr + ps, ev as int, paddr + ps, ah, tmpl)
                            == (Ok::<(), PagingError>(()), self@));
                    }
                    return Ok(());
                }
                proof {
                    vstd::arithmetic::div_mod::lemma_mod_add_multiples_vanish(vaddr as int, ps as int);
                }
                vaddr = vaddr + ps;
                paddr = paddr + ps;
                continue;
            }
            let current = self.frames[fi].entries[index];
            let child = if current.valid {
                if current.is_huge {
                    return Err(PagingError::HierarchyError("Cannot create page table under huge page"));
                }
                Frame { paddr: current.paddr }
            } else {
                proof {
                    lemma_child_base(self@, fi as int, index as int);
                }
                let new_frame = match self.new_frame(config.level - 1, Ghost(t1.bases[fi as int] + index * level_size)) {
                    Ok(f) => f,
                    Err(e) => {
                        return Err(e);
                    },
                };
                let ghost t2 = self@;
                let mut new_pte = config.pte_template;
                new_pte.paddr = new_frame.paddr;
                new_pte.valid = true;
                new_pte.is_huge = false;
                self.set_entry(fi, index, new_pte);
                proof {
                    lemma_extends_trans(t0, t1, t2);
                    lemma_written_step(t1, fi as int, index as int, new_pte, (level - 1) as nat,
                        t1.bases[fi as int] + index * level_size);
                    lemma_written_trans(t0, t1, t2, attrs);
                    assert(t2.frames[fi as int].entries.len() == t2.layout.table_len);
                    lemma_written_step(t2, fi as int, index as int, new_pte, 1, 0);
                    lemma_written_trans(t0, t2, self@, attrs);
                    lemma_fill_invalid_entry(t2, self@, fi as int, index as int, new_pte);
                    lemma_extends_trans(t0, t2, self@);
                    lemma_extends_trans(t1, t2, self@);
                    assert(new_pte == Pte { paddr: t1.frame_paddr(t1.frames.len() as int) as usize,
                        valid: true, is_huge: false, ..config.pte_template });
                    assert forall|x: usize| x < span_all implies #[trigger] self@.translate(x) == t1.translate(x) by {
                        lemma_new_table_keeps_walk(t1, self@, fi as int, index as int, new_pte,
                            t1.bases[fi as int] + index * level_size, 0, t1.layout.level as nat, x);
                    }
                }
                new_frame
            };
            let ghost t3 = self@;
            let ghost cf = t3.frame_at(child.paddr);
            proof {
                assert(self@.frames[fi as int].entries[index as int].valid);
                assert(!self@.frames[fi as int].entries[index as int].is_huge);
                assert(self@.frames[fi as int].entries[index as int].paddr == child.paddr);
                assert(self@.is_table_of(child.paddr, (level - 1) as nat));
                if current.valid {
                    assert(t3 == t1);
                } else {
                    assert(cf == t1.frames.len());
                }
            }
            let boundary = level_size - vaddr % level_size;
            let next = if boundary < remaining_size { vaddr + boundary } else { ev };
            let child_config = MapRecursiveConfig {
                start_vaddr: vaddr,
                start_paddr: paddr,
                end_vaddr: next,
                level: config.level - 1,
                allow_huge: config.allow_huge,
                flush: config.flush,
                pte_template: config.pte_template,
            };
            proof {
                crate::layout::lemma_same_block(vaddr as int, vaddr as int, level_size as int);
                if fb {
                    crate::layout::lemma_level_size_multiple(t0.layout, lb, level);
                    if next < ev {
                        crate::layout::lemma_next_block_aligned(vaddr as int, level_size as int, lsb);
                    }
                    assert(fits_blocks(t3.layout, vaddr as int, paddr as int, next as int, ah, lb));
                }
            }
            let res = self.map_range_recursive(child, child_config, Ghost(lb));
            proof {
                lemma_extends_trans(t0, t3, self@);
                lemma_written_trans(t0, t3, self@, attrs);
                if inside {
                    crate::layout::lemma_index_in_table(t1.layout, level, t1.bases[fi as int], vaddr);
                    lemma_child_base(t1, fi as int, index as int);
                    lemma_page_end(t0.layout, next as int, ev as int);
                    assert(t3.bases[cf] == t1.bases[fi as int] + index * level_size);
                    assert forall|x: usize| x < span_all && (x < sv || x >= page_end(t0.layout, ev as int))
                        implies #[trigger] self@.translate(x) == t0.translate(x) by {
                        assert(self@.translate(x) == t3.translate(x));
                        assert(t3.translate(x) == t1.translate(x));
                    }
                }
            }
            match res {
                Ok(()) => {},
                Err(e) => {
                    return Err(e);
                },
            }
            proof {
                lemma_extends_trans(t1, t3, self@);
                lemma_through_table(t0, t3, self@, fi as int, level, vaddr, next as int, paddr as int,
                    sv as int, sp as int, attrs, !ah);
                lemma_keep_prefix(t1, self@, fi as int, level, sv, vaddr, sp as int, attrs);
                if !ah {
                    lemma_keep_leaf_prefix(t1, self@, fi as int, level, sv, vaddr);
                }
                if next < ev {
                    crate::layout::lemma_next_block_aligned(vaddr as int, level_size as int, ps as int);
                }
                if fb {
                    lemma_through_table_level(t3, self@, fi as int, level, vaddr, next as int, lb);
                    lemma_keep_level_prefix(t1, self@, fi as int, level, sv, vaddr, lb);
                    lemma_aligned_sum(next as int, vaddr as int, lsb);
                    lemma_aligned_sum(paddr as int, next - vaddr, lsb);
                }
            }
            vaddr = next;
            paddr = paddr + (next - child_config.start_vaddr);
        }
        Ok(())
    }

    /// Entry `index` of the table `frame` at `level`.
    pub(crate) fn entry_at(&self, frame: Frame, Ghost(level): Ghost<nat>, index: usize) -> (pte: Pte)
        requires
            self@.wf(),
            self@.is_table_of(frame.paddr, level),
            index < self@.layout.table_len,
        ensures
            pte == self@.frames[self@.frame_at(frame.paddr)].entries[index as int],
    {
        let fi = self.frame_index(frame, Ghost(level));
        self.frames[fi].entries[index]
    }

    /// Writes `pte` into entry `idx` of frame `fi`.
    fn set_entry(&mut self, fi: usize, idx: usize, pte: Pte)
        requires
            fi < old(self)@.frames.len(),
            idx < old(self)@.frames[fi as int].entries.len(),
        ensures
            final(self)@ == old(self)@.with_entry(fi as int, idx as int, pte),
    {
        let ghost before = self@;
        self.frames[fi].entries[idx] = pte;
        proof {
            assert(self@.frames =~= before.frames.update(fi as int, FrameView {
                level: before.frames[fi as int].level,
                entries: before.frames[fi as int].entries.update(idx as int, pte),
            }));
        }
    }
}

} // verus!
