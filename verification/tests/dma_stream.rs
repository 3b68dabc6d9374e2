use sparreal::dma::{align_down, DmaHandle, DmaStream, ScatterEntry};

#[test]
fn align_down_clears_low_bits() {
    assert_eq!(align_down(0x1234, 0x1000), 0x1000);
    assert_eq!(align_down(0x2000, 0x1000), 0x2000);
    assert_eq!(align_down(7, 1), 7);
}

#[test]
fn stream_over_an_unaligned_buffer() {
    let mut s = DmaStream::new(0x1010, 0x3000, 0x1000, Vec::new());
    assert_eq!(s.next_map_request(), Some((0x1000, 0x3000)));
    let first = DmaHandle { dma_addr: 0xa000, size: 0x2000 };
    s.push_mapped(first);
    assert_eq!(s.next_map_request(), Some((0x2ff0, 0x1010)));
    let second = DmaHandle { dma_addr: 0xc000, size: 0x1010 };
    s.push_mapped(second);
    assert_eq!(s.next_map_request(), None);
    assert_eq!(
        s.scatter_list(),
        &[
            ScatterEntry { handle: first, offset: 0x10, size: 0x1ff0 },
            ScatterEntry { handle: second, offset: 0, size: 0x1010 },
        ]
    );
    let total: usize = s.scatter_list().iter().map(|e| e.size).sum();
    assert_eq!(total, 0x3000);
}

#[test]
fn stream_reuses_and_clears_the_list() {
    let old = vec![ScatterEntry { handle: DmaHandle { dma_addr: 1, size: 1 }, offset: 0, size: 1 }];
    let s = DmaStream::new(0x2000, 0, 0x1000, old);
    assert!(s.scatter_list().is_empty());
    assert_eq!(s.next_map_request(), None);
}

#[test]
fn the_offset_applies_to_the_first_piece_only() {
    let mut s = DmaStream::new(0x3004, 0x10, 0x1000, Vec::new());
    assert_eq!(s.pending_offset(), 4);
    s.push_mapped(DmaHandle { dma_addr: 0x9000, size: 0x14 });
    assert_eq!(s.pending_offset(), 0);
    assert_eq!(s.next_map_request(), None);
    assert_eq!(s.scatter_list()[0], ScatterEntry { handle: DmaHandle { dma_addr: 0x9000, size: 0x14 }, offset: 4, size: 0x10 });
}
