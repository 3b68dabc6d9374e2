//! Splitting a buffer into the scatter list of a streaming DMA mapping.
//!
//! The mapping itself is made by the platform, one call at a time: the
//! stream says which range to map next, and takes back the handle that the
//! platform returned, until the whole buffer is covered.
use vstd::prelude::*;

verus! {

/// A mapping that the platform made for part of a buffer: its device
/// address and the number of bytes it maps.
#[derive(Clone, Copy, Debug, PartialEq, Eq)]
pub struct DmaHandle {
    pub dma_addr: u64,
    pub size: usize,
}

/// One piece of a scatter list: the mapping, where the data starts inside
/// it, and how many bytes of the data it holds.
#[derive(Clone, Copy, Debug, PartialEq, Eq)]
pub struct ScatterEntry {
    pub handle: DmaHandle,
    pub offset: usize,
    pub size: usize,
}

/// A streaming DMA mapping of one buffer, built piece by piece.
pub struct DmaStream {
    scatter_list: Vec<ScatterEntry>,
    addr: usize,
    remain: usize,
    offset: usize,
}

/// `addr` rounded down to a multiple of `align` (a power of two).
pub open spec fn spec_align_down(addr: usize, align: usize) -> usize {
    addr & !((align - 1) as usize)
}

/// `addr` rounded down to a multiple of `align`, by clearing the low bits.
pub fn align_down(addr: usize, align: usize) -> (r: usize)
    requires
        align > 0,
    ensures
        r == spec_align_down(addr, align),
        r <= addr,
        align & ((align - 1) as usize) == 0 ==> r % align == 0 && addr - r < align,
{
    let r = addr & !(align - 1);
    proof {
        let m = !((align - 1) as usize);
        assert(addr & m <= addr) by (bit_vector);
        lemma_align_down_is_page(addr, align);
    }
    r
}

/// A power of two given by its bits is `2^n` for an `n` below the width.
pub proof fn lemma_pow2_exponent(a: usize) -> (n: nat)
    requires
        a > 0,
        a & ((a - 1) as usize) == 0,
    ensures
        n < usize::BITS,
        vstd::arithmetic::power2::pow2(n) == a,
    decreases a,
{
    if a == 1 {
        vstd::arithmetic::power2::lemma2_to64();
        0
    } else {
        let h = a / 2;
        assert(a % 2 == 0 && h > 0 && h & ((h - 1) as usize) == 0) by (bit_vector)
            requires a & ((a - 1) as usize) == 0, a > 1, h == a / 2;
        let m = lemma_pow2_exponent(h);
        vstd::arithmetic::power2::lemma_pow2_unfold(m + 1);
        vstd::layout::unsigned_int_max_values();
        assert(vstd::arithmetic::power2::pow2(m + 1) == a);
        if m + 1 >= usize::BITS {
            assert(m + 1 == usize::BITS);
            assert(a == usize::MAX + 1);
        }
        m + 1
    }
}

/// For a power of two `align`, rounding `addr` down gives the multiple of
/// `align` that is at most `addr` and less than `align` below it.
pub proof fn lemma_align_down_is_page(addr: usize, align: usize)
    requires
        align > 0,
    ensures
        align & ((align - 1) as usize) == 0 ==> {
            &&& spec_align_down(addr, align) <= addr
            &&& spec_align_down(addr, align) % align == 0
            &&& addr - spec_align_down(addr, align) < align
        },
{
    if align & ((align - 1) as usize) == 0 {
        let m = !((align - 1) as usize);
        let r = addr & m;
        let low = (align - 1) as usize;
        assert(addr & m <= addr) by (bit_vector);
        assert(r & low == 0) by (bit_vector)
            requires r == addr & m, m == !low;
        assert(addr - r == addr & low) by (bit_vector)
            requires r == addr & m, m == !low;
        assert(addr & low <= low) by (bit_vector);
        let n = lemma_pow2_exponent(align);
        vstd::bits::lemma_usize_low_bits_mask_is_mod(r, n);
        assert(vstd::bits::low_bits_mask(n) == low);
    }
}

/// The number of data bytes that a scatter list holds.
pub open spec fn scattered_bytes(list: Seq<ScatterEntry>) -> nat
    decreases list.len(),
{
    if list.len() == 0 {
        0
    } else {
        scattered_bytes(list.drop_last()) + list.last().size as nat
    }
}

impl DmaStream {
    /// The pieces made so far.
    pub closed spec fn entries(self) -> Seq<ScatterEntry> {
        self.scatter_list@
    }

    /// The address from which the next piece is to be mapped.
    pub closed spec fn next_addr(self) -> usize {
        self.addr
    }

    /// The number of data bytes that no piece holds yet.
    pub closed spec fn remaining(self) -> usize {
        self.remain
    }

    /// Where the data starts inside the next piece.
    pub closed spec fn next_offset(self) -> usize {
        self.offset
    }

    /// Starts a stream over the `len` bytes at `data_addr`. The list `tmp` is
    /// cleared and reused. The first piece is to be mapped from `data_addr`
    /// rounded down to the page size, and the data starts inside it at the
    /// distance of `data_addr` from that page boundary.
    pub fn new(data_addr: usize, len: usize, page_size: usize, tmp: Vec<ScatterEntry>) -> (s: DmaStream)
        requires
            page_size > 0,
        ensures
            s.entries() == Seq::<ScatterEntry>::empty(),
            scattered_bytes(s.entries()) + s.remaining() == len,
            s.next_addr() == spec_align_down(data_addr, page_size),
            s.remaining() == len,
            s.next_offset() == data_addr - spec_align_down(data_addr, page_size),
            page_size & ((page_size - 1) as usize) == 0 ==> {
                &&& s.next_addr() % page_size == 0
                &&& s.next_addr() <= data_addr
                &&& s.next_offset() < page_size
            },
    {
        let mut list = tmp;
        list.clear();
        let align_addr = align_down(data_addr, page_size);
        DmaStream { scatter_list: list, addr: align_addr, remain: len, offset: data_addr - align_addr }
    }

    /// The next range to map, as `(address, length)`, or `None` once the
    /// pieces hold the whole buffer.
    pub fn next_map_request(&self) -> (req: Option<(usize, usize)>)
        ensures
            self.remaining() == 0 ==> req is None,
            self.remaining() > 0 ==> req == Some((self.next_addr(), self.remaining())),
    {
        if self.remain > 0 {
            Some((self.addr, self.remain))
        } else {
            None
        }
    }

    /// Takes the handle that the platform returned for the last request and
    /// adds the piece it makes. The first piece skips the bytes before the
    /// data; the next request starts where the data of this piece ends.
    pub fn push_mapped(&mut self, handle: DmaHandle)
        requires
            old(self).remaining() > 0,
            handle.size >= old(self).next_offset(),
            handle.size - old(self).next_offset() <= old(self).remaining(),
            old(self).next_addr() + (handle.size - old(self).next_offset()) <= usize::MAX,
        ensures
            final(self).entries() == old(self).entries().push(ScatterEntry {
                handle,
                offset: old(self).next_offset(),
                size: (handle.size - old(self).next_offset()) as usize,
            }),
            final(self).remaining() == old(self).remaining() - (handle.size - old(self).next_offset()),
            final(self).next_addr() == old(self).next_addr() + (handle.size - old(self).next_offset()),
            final(self).next_offset() == 0,
            scattered_bytes(final(self).entries()) + final(self).remaining()
                == scattered_bytes(old(self).entries()) + old(self).remaining(),
    {
        let mut entry = ScatterEntry { offset: self.offset, size: handle.size, handle };
        if self.offset > 0 {
            entry.offset = self.offset;
            entry.size = entry.size - self.offset;
            self.offset = 0;
        }
        let mapped_size = entry.size;
        self.scatter_list.push(entry);
        self.remain = self.remain - mapped_size;
        self.addr = self.addr + mapped_size;
        proof {
            lemma_push_keeps_total(old(self).scatter_list@, entry);
        }
    }

    /// Where the data starts inside the next piece.
    pub fn pending_offset(&self) -> (offset: usize)
        ensures
            offset == self.next_offset(),
    {
        self.offset
    }

    /// The pieces of the mapping.
    pub fn scatter_list(&self) -> (list: &[ScatterEntry])
        ensures
            list@ == self.entries(),
    {
        self.scatter_list.as_slice()
    }
}

/// Adding a piece to a list adds its bytes to the bytes that the list holds.
pub proof fn lemma_push_keeps_total(list: Seq<ScatterEntry>, e: ScatterEntry)
    ensures
        scattered_bytes(list.push(e)) == scattered_bytes(list) + e.size,
{
    assert(list.push(e).drop_last() =~= list);
}

} // verus!
