//! The shape of a page-table format and the index arithmetic on it.
use vstd::prelude::*;
use vstd::std_specs::bits::u64_trailing_zeros;
use vstd::arithmetic::power2::{pow2, lemma_pow2_adds, lemma_pow2_pos, lemma_pow2_strictly_increases};

verus! {

/// The constants that describe one page-table format.
///
/// `level` is the number of table levels, the root table sits at level
/// `level` and level 1 holds the last entries of a walk. Levels up to
/// `max_block_level` may hold block (huge) entries.
#[derive(Clone, Copy, Debug)]
pub struct TableGeneric {
    pub page_size: usize,
    pub level: usize,
    pub max_block_level: usize,
    pub index_bits: usize,
    pub table_len: usize,
}

impl TableGeneric {
    /// log2 of the page size, as `page_size.trailing_zeros()` computes it.
    pub open spec fn page_shift(self) -> nat {
        u64_trailing_zeros(self.page_size as u64) as nat
    }

    /// The format is usable: the page size is a power of two, a table holds
    /// `2^index_bits` entries, and a full walk covers at most the bits of an address.
    pub open spec fn wf(self) -> bool {
        &&& self.page_shift() < usize::BITS
        &&& self.page_size == (1usize << self.page_shift())
        &&& self.index_bits < usize::BITS
        &&& self.table_len == (1usize << self.index_bits)
        &&& 1 <= self.level
        &&& self.page_shift() + self.index_bits * self.level <= usize::BITS
    }

    /// Whether the format is usable (`wf`).
    pub fn is_valid(&self) -> (ok: bool)
        ensures
            ok == self.wf(),
    {
        let shift = (self.page_size as u64).trailing_zeros() as usize;
        if shift >= usize::BITS as usize || self.index_bits >= usize::BITS as usize || self.level < 1 {
            return false;
        }
        if self.page_size != (1usize << shift) || self.table_len != (1usize << self.index_bits) {
            return false;
        }
        match self.index_bits.checked_mul(self.level) {
            Some(walk_bits) => walk_bits <= usize::BITS as usize - shift,
            None => false,
        }
    }

    /// The amount by which an address is shifted to find its index at
    /// `level`: the page shift plus `index_bits` for every level below.
    pub open spec fn index_shift(self, level: nat) -> nat {
        (self.page_shift() + (level - 1) * self.index_bits) as nat
    }

    /// `(1 << index_bits) - 1`.
    pub open spec fn index_mask(self) -> usize {
        ((1usize << self.index_bits) - 1) as usize
    }

    /// The index of `vaddr` in a table at `level`.
    pub open spec fn index_of(self, vaddr: usize, level: nat) -> usize {
        (vaddr >> (self.index_shift(level) as usize)) & self.index_mask()
    }

    /// The size that one entry of a table at `level` stands for: the page
    /// size at level 1, and `2^index_bits` times more for every level above.
    pub open spec fn level_size(self, level: nat) -> usize {
        self.page_size << ((self.index_bits * (level - 1)) as usize)
    }
}

/// The address that the entry at `index` of a table at `level` stands for,
/// in a table that starts at `base_vaddr`.
pub open spec fn entry_vaddr(layout: TableGeneric, index: usize, level: nat, base_vaddr: usize) -> int {
    base_vaddr + index * layout.level_size(level)
}

/// A page-table frame, named by the physical address it sits at.
#[derive(Clone, Copy, Debug)]
pub struct Frame {
    pub paddr: usize,
}

impl Frame {
    /// The size that an entry at `level` maps.
    pub fn level_size(layout: &TableGeneric, level: usize) -> (size: usize)
        requires
            layout.wf(),
            1 <= level <= layout.level,
        ensures
            size == layout.level_size(level as nat),
    {
        proof {
            lemma_level_shift_bounds(*layout, level as nat);
        }
        layout.page_size << (layout.index_bits * (level - 1))
    }

    /// The index of `vaddr` in a table at `level`.
    pub fn virt_to_index(layout: &TableGeneric, vaddr: usize, level: usize) -> (index: usize)
        requires
            layout.wf(),
            1 <= level <= layout.level,
        ensures
            index == layout.index_of(vaddr, level as nat),
            index < layout.table_len,
    {
        proof {
            lemma_level_shift_bounds(*layout, level as nat);
        }
        let page_shift = (layout.page_size as u64).trailing_zeros() as usize;
        let shift = page_shift + (level - 1) * layout.index_bits;
        proof {
            lemma_shl_one_positive(layout.index_bits);
        }
        let mask = (1usize << layout.index_bits) - 1;
        let index = (vaddr >> shift) & mask;
        proof {
            lemma_masked_below(vaddr >> shift, layout.index_bits);
        }
        index
    }

    /// The address that the entry at `index` of this table stands for.
    pub fn index_to_vaddr(&self, layout: &TableGeneric, index: usize, level: usize, base_vaddr: usize) -> (vaddr: usize)
        requires
            layout.wf(),
            1 <= level <= layout.level,
            entry_vaddr(*layout, index, level as nat, base_vaddr) <= usize::MAX,
        ensures
            vaddr == entry_vaddr(*layout, index, level as nat, base_vaddr),
    {
        let entry_size = Self::level_size(layout, level);
        base_vaddr + index * entry_size
    }

    /// The address that the entry at `index` of a table at `level` stands
    /// for: one page per entry at level 1, one level size per entry above.
    pub fn calculate_vaddr_for_entry(layout: &TableGeneric, index: usize, level: usize, base_vaddr: usize) -> (vaddr: usize)
        requires
            layout.wf(),
            1 <= level <= layout.level,
            entry_vaddr(*layout, index, level as nat, base_vaddr) <= usize::MAX,
        ensures
            vaddr == entry_vaddr(*layout, index, level as nat, base_vaddr),
    {
        if level == 1 {
            proof {
                lemma_level_size(*layout, 1);
            }
            base_vaddr + index * layout.page_size
        } else {
            let entry_size = Self::level_size(layout, level);
            base_vaddr + index * entry_size
        }
    }

    /// The full address of the entry at `index` of a table at `level` whose
    /// table stands for the addresses from `base_vaddr` on.
    pub fn reconstruct_vaddr(layout: &TableGeneric, index: usize, level: usize, base_vaddr: usize) -> (vaddr: usize)
        requires
            layout.wf(),
            1 <= level <= layout.level,
            entry_vaddr(*layout, index, level as nat, base_vaddr) <= usize::MAX,
        ensures
            vaddr == entry_vaddr(*layout, index, level as nat, base_vaddr),
    {
        if level == 1 {
            proof {
                lemma_level_size(*layout, 1);
            }
            base_vaddr + index * layout.page_size
        } else {
            let entry_size = Self::level_size(layout, level);
            base_vaddr + index * entry_size
        }
    }
}

/// The shift of every level stays inside an address.
pub proof fn lemma_level_shift_bounds(layout: TableGeneric, level: nat)
    requires
        layout.wf(),
        1 <= level <= layout.level,
    ensures
        layout.index_bits * (level - 1) == (level - 1) * layout.index_bits,
        layout.index_bits * (level - 1) < usize::BITS,
        layout.page_shift() + layout.index_bits * (level - 1) < usize::BITS,
        layout.page_shift() + layout.index_bits * level <= layout.page_shift() + layout.index_bits * layout.level,
{
    let b = layout.index_bits as int;
    let k = level - 1;
    assert(b * k == k * b) by (nonlinear_arith);
    assert(b * k + b <= b * layout.level) by (nonlinear_arith)
        requires 0 <= k, k + 1 <= layout.level, 0 <= b;
    assert(b * level <= b * layout.level) by (nonlinear_arith)
        requires level <= layout.level, 0 <= b;
    assert(b * level == b * k + b) by (nonlinear_arith)
        requires k == level - 1;
    if b == 0 {
        assert(b * k == 0) by (nonlinear_arith)
            requires b == 0;
    }
}

/// `2^(page_shift + index_bits * (level - 1))`: the span of one entry of a
/// table at `level`.
pub open spec fn entry_span(layout: TableGeneric, level: nat) -> nat {
    pow2((layout.page_shift() + layout.index_bits * (level - 1)) as nat)
}

/// `2^(page_shift + index_bits * level)`: the span of a whole table at `level`.
pub open spec fn table_span(layout: TableGeneric, level: nat) -> nat {
    pow2((layout.page_shift() + layout.index_bits * level) as nat)
}

/// The size of an entry at `level` is its span, a positive multiple of the
/// page size, and the page size itself at level 1.
pub proof fn lemma_level_size(layout: TableGeneric, level: nat)
    requires
        layout.wf(),
        1 <= level <= layout.level,
    ensures
        layout.page_size > 0,
        layout.page_size == pow2(layout.page_shift()),
        layout.level_size(level) as nat == entry_span(layout, level),
        layout.level_size(level) >= layout.page_size,
        layout.level_size(level) % layout.page_size == 0,
        level == 1 ==> layout.level_size(level) == layout.page_size,
{
    let sh = layout.page_shift() as usize;
    lemma_level_shift_bounds(layout, level);
    let k = (layout.index_bits * (level - 1)) as usize;
    let shk = (sh + k) as usize;
    assert(((1usize << sh) << k) == (1usize << shk)) by (bit_vector)
        requires shk == sh + k, sh + k < usize::BITS;
    vstd::bits::lemma_usize_pow2_no_overflow(sh as nat);
    vstd::bits::lemma_usize_pow2_no_overflow(shk as nat);
    vstd::bits::lemma_usize_shl_is_mul(1, sh);
    vstd::bits::lemma_usize_shl_is_mul(1, shk);
    lemma_pow2_adds(sh as nat, k as nat);
    lemma_pow2_pos(k as nat);
    lemma_pow2_pos(sh as nat);
    let p = pow2(sh as nat) as int;
    let q = pow2(k as nat) as int;
    assert(q * p >= p) by (nonlinear_arith)
        requires q >= 1, p > 0;
    assert(p * q == q * p) by (nonlinear_arith);
    vstd::arithmetic::div_mod::lemma_mod_multiples_basic(q, p);
    if level == 1 {
        assert(layout.index_bits * (level - 1) == 0) by (nonlinear_arith)
            requires level == 1;
        vstd::arithmetic::power2::lemma2_to64();
    }
}

/// The size of an entry at a higher level is a whole number of entries of
/// a lower level.
pub proof fn lemma_level_size_multiple(layout: TableGeneric, lo: nat, hi: nat)
    requires
        layout.wf(),
        1 <= lo <= hi <= layout.level,
    ensures
        layout.level_size(hi) as int == layout.level_size(lo) * pow2((layout.index_bits * (hi - lo)) as nat),
        layout.level_size(hi) % layout.level_size(lo) == 0,
        layout.level_size(hi) >= layout.level_size(lo),
        layout.level_size(lo) > 0,
{
    lemma_level_size(layout, lo);
    lemma_level_size(layout, hi);
    let b = layout.index_bits as int;
    let sh = layout.page_shift() as int;
    let d = (b * (hi - lo)) as nat;
    assert(b * (hi - 1) == b * (lo - 1) + b * (hi - lo)) by (nonlinear_arith);
    assert(b * (hi - lo) >= 0) by (nonlinear_arith)
        requires b >= 0, hi >= lo;
    lemma_pow2_adds((sh + b * (lo - 1)) as nat, d);
    lemma_pow2_pos(d);
    let x = layout.level_size(lo) as int;
    let q = pow2(d) as int;
    assert(x * q >= x) by (nonlinear_arith)
        requires q >= 1, x > 0;
    assert(x * q == q * x) by (nonlinear_arith);
    vstd::arithmetic::div_mod::lemma_mod_multiples_basic(q, x);
}

/// Bounds on spans: a table spans `table_len` entries of its level, which is
/// one entry of the level above, and no table spans more than the root
/// table, which spans at most the address space.
pub proof fn lemma_entry_span(layout: TableGeneric, level: nat)
    requires
        layout.wf(),
        1 <= level <= layout.level,
    ensures
        layout.table_len == pow2(layout.index_bits as nat),
        layout.table_len * entry_span(layout, level) == table_span(layout, level),
        level < layout.level ==> table_span(layout, level) == entry_span(layout, level + 1),
        table_span(layout, level) <= table_span(layout, layout.level as nat),
        table_span(layout, layout.level as nat) <= usize::MAX + 1,
{
    let sh = layout.page_shift() as nat;
    let bits = layout.index_bits as nat;
    lemma_level_shift_bounds(layout, level);
    vstd::bits::lemma_usize_pow2_no_overflow(bits);
    vstd::bits::lemma_usize_shl_is_mul(1, layout.index_bits);
    vstd::layout::unsigned_int_max_values();
    let k = (bits * (level - 1)) as nat;
    lemma_pow2_adds(bits, sh + k);
    assert(bits + (sh + k) == sh + bits * level) by (nonlinear_arith)
        requires k == bits * (level - 1);
    if level < layout.level {
        assert(bits * ((level + 1) - 1) == bits * level);
    }
    let here = (sh + bits * level) as nat;
    let top = (sh + bits * layout.level) as nat;
    if here < top {
        lemma_pow2_strictly_increases(here, top);
    }
    if top < usize::BITS {
        lemma_pow2_strictly_increases(top, usize::BITS as nat);
    }
}

/// Two addresses whose quotients by the size of an entry at `level` agree
/// have the same index at `level`.
pub proof fn lemma_index_same(layout: TableGeneric, level: nat, x: usize, v: usize)
    requires
        layout.wf(),
        1 <= level <= layout.level,
        x as int / (layout.level_size(level) as int) == v as int / (layout.level_size(level) as int),
    ensures
        layout.index_of(x, level) == layout.index_of(v, level),
{
    lemma_level_shift_bounds(layout, level);
    lemma_level_size(layout, level);
    let sh = layout.index_shift(level) as usize;
    vstd::bits::lemma_usize_shr_is_div(x, sh);
    vstd::bits::lemma_usize_shr_is_div(v, sh);
    assert(x >> sh == v >> sh);
}

/// An address in the block of `align` bytes that holds `v` has the same
/// quotient as `v`, and its remainder is its distance from the block's start;
/// the next block starts past `v`.
pub proof fn lemma_same_block(x: int, v: int, align: int)
    requires
        align > 0,
        v >= 0,
        v - v % align <= x < v - v % align + align,
    ensures
        x / align == v / align,
        x % align == x - (v - v % align),
        v < v - v % align + align,
        v - v % align == align * (v / align),
{
    vstd::arithmetic::div_mod::lemma_fundamental_div_mod(v, align);
    vstd::arithmetic::div_mod::lemma_fundamental_div_mod(x, align);
    let q = v / align;
    let qx = x / align;
    assert(qx == q) by (nonlinear_arith)
        requires x == align * qx + x % align, 0 <= x % align < align,
            align * q <= x < align * q + align, align > 0;
}

/// The start of the block after the one that holds `v` is a multiple of
/// `unit` when the block size is.
pub proof fn lemma_next_block_aligned(v: int, align: int, unit: int)
    requires
        align > 0,
        unit > 0,
        v >= 0,
        align % unit == 0,
    ensures
        (v - v % align + align) % unit == 0,
{
    vstd::arithmetic::div_mod::lemma_fundamental_div_mod(v, align);
    vstd::arithmetic::div_mod::lemma_fundamental_div_mod(align, unit);
    let q = v / align;
    let m = align / unit;
    assert(v - v % align + align == (m * (q + 1)) * unit) by (nonlinear_arith)
        requires v == align * q + v % align, align == unit * m;
    vstd::arithmetic::div_mod::lemma_mod_multiples_basic(m * (q + 1), unit);
}

/// In a table at `level` that stands for the addresses from `base` on, a
/// multiple of the table's span, the index of an address of that span
/// counts the entries from `base`, the entry at that index starts at the
/// address rounded down to the entry size, and that entry ends inside the span.
pub proof fn lemma_index_in_table(layout: TableGeneric, level: nat, base: int, x: usize)
    requires
        layout.wf(),
        1 <= level <= layout.level,
        base >= 0,
        base % (table_span(layout, level) as int) == 0,
        base <= x < base + table_span(layout, level),
    ensures
        layout.index_of(x, level) as int == (x - base) / (layout.level_size(level) as int),
        base + layout.index_of(x, level) * layout.level_size(level) == x - x as int % (layout.level_size(level) as int),
        x - x as int % (layout.level_size(level) as int) + layout.level_size(level) <= base + table_span(layout, level),
{
    lemma_level_shift_bounds(layout, level);
    lemma_level_size(layout, level);
    lemma_entry_span(layout, level);
    let ls = layout.level_size(level) as int;
    let t = layout.table_len as int;
    let ts = table_span(layout, level) as int;
    let sh = layout.index_shift(level) as usize;
    let bits = layout.index_bits;
    lemma_pow2_pos(bits as nat);
    assert(pow2(sh as nat) == ls);
    vstd::bits::lemma_usize_shr_is_div(x, sh);
    let y = x >> sh;
    assert(y == x as int / ls);
    vstd::bits::lemma_usize_pow2_no_overflow(bits as nat);
    vstd::bits::lemma_usize_shl_is_mul(1, bits);
    vstd::bits::lemma_usize_low_bits_mask_is_mod(y, bits as nat);
    assert(layout.index_mask() == vstd::bits::low_bits_mask(bits as nat) as usize);
    assert(layout.index_of(x, level) == y % (t as usize));
    vstd::arithmetic::div_mod::lemma_fundamental_div_mod(base, ts);
    let c = base / ts;
    assert(c >= 0) by (nonlinear_arith)
        requires base == ts * c + base % ts, base % ts == 0, base >= 0, ts > 0;
    let r = x - base;
    vstd::arithmetic::div_mod::lemma_fundamental_div_mod(r, ls);
    let q = r / ls;
    let rr = r % ls;
    assert(0 <= q < t) by (nonlinear_arith)
        requires r == ls * q + rr, 0 <= rr < ls, 0 <= r < t * ls, ls > 0;
    assert(x == (c * t + q) * ls + rr) by (nonlinear_arith)
        requires base == ts * c, ts == t * ls, r == ls * q + rr, x == base + r;
    vstd::arithmetic::div_mod::lemma_fundamental_div_mod_converse(x as int, ls, c * t + q, rr);
    vstd::arithmetic::div_mod::lemma_mod_multiples_vanish(c, q, t);
    assert(t * c == c * t) by (nonlinear_arith);
    vstd::arithmetic::div_mod::lemma_small_mod(q as nat, t as nat);
    assert(q * ls == ls * q) by (nonlinear_arith);
    assert(ls * q + ls <= t * ls) by (nonlinear_arith)
        requires q + 1 <= t, ls > 0;
}

/// `1 << bits` is at least one.
pub proof fn lemma_shl_one_positive(bits: usize)
    requires
        bits < usize::BITS,
    ensures
        (1usize << bits) >= 1,
{
    assert((1usize << bits) >= 1) by (bit_vector)
        requires bits < usize::BITS;
}

/// Masking with `2^bits - 1` leaves a value below `2^bits`.
pub proof fn lemma_masked_below(x: usize, bits: usize)
    requires
        bits < usize::BITS,
    ensures
        x & (((1usize << bits) - 1) as usize) < (1usize << bits),
{
    assert(x & (((1usize << bits) - 1) as usize) < (1usize << bits)) by (bit_vector)
        requires bits < usize::BITS;
}

} // verus!
