use graph_layout::compression::{Compressed, Compressor};
use graph_layout::layout::{BytewiseCached, Hilbert, Tangle, ZOrder};

#[test]
fn encode_decode_byte() {
    let hilbert = Hilbert::new();
    for i in 0..(1u64 << 20) {
        assert_eq!(hilbert.entangle(hilbert.detangle(i)), i);
    }
}

#[test]
fn compress_decompress() {
    let source: Vec<u64> = vec![0, 1, 2, 4, 100, 123412, 1543245423];
    let compressed = Compressed::from(&source);
    let mut decompressor = compressed.decompress();
    let result = decompressor.collect();
    assert_eq!(result, source);
}

fn round_trip(source: &Vec<u64>) -> Vec<u64> {
    let compressed = Compressed::from(source);
    compressed.decompress().collect()
}

#[test]
fn compress_empty() {
    let source: Vec<u64> = vec![];
    assert_eq!(round_trip(&source), source);
    let compressed = Compressed::from(&source);
    let mut d = compressed.decompress();
    assert_eq!(d.size_hint(), (0, Some(0)));
    assert_eq!(d.next(), None);
}

#[test]
fn compress_width_boundaries() {
    let deltas: Vec<u64> = vec![1, 255, 256, 65535, 65536, (1u64 << 32) - 1, 1u64 << 32];
    for &delta in deltas.iter() {
        let source: Vec<u64> = vec![delta, 2 * delta, 2 * delta + 1];
        assert_eq!(round_trip(&source), source);
    }
    let mut running: Vec<u64> = Vec::new();
    let mut total: u64 = 0;
    for &delta in deltas.iter() {
        total += delta;
        running.push(total);
    }
    assert_eq!(round_trip(&running), running);
}

#[test]
fn compress_zero_and_large_deltas() {
    let source: Vec<u64> = vec![0, 0, 5, u64::MAX];
    assert_eq!(round_trip(&source), source);
}

#[test]
fn compress_decreasing_wraps() {
    let source: Vec<u64> = vec![1000, 3, 7, 2, u64::MAX, 0];
    assert_eq!(round_trip(&source), source);
}

#[test]
fn compressor_push_done() {
    let mut compressor = Compressor::new();
    compressor.push(10);
    compressor.push(300);
    compressor.push(70_000);
    let compressed = compressor.done();
    assert_eq!(compressed.decompress().collect(), vec![10, 300, 70_000]);
    let mut sized = Compressor::with_capacity(2);
    sized.push(1);
    sized.push(2);
    assert_eq!(sized.done().decompress().collect(), vec![1, 2]);
}

#[test]
fn size_hint_tracks_remaining() {
    let source: Vec<u64> = vec![0, 1, 2, 4, 100, 123412, 1543245423];
    let compressed = Compressed::from(&source);
    let mut d = compressed.decompress();
    assert_eq!(d.size_hint(), (7, Some(7)));
    assert_eq!(d.next(), Some(0));
    assert_eq!(d.next(), Some(1));
    assert_eq!(d.next(), Some(2));
    assert_eq!(d.size_hint(), (4, Some(4)));
    assert_eq!(d.collect(), vec![4, 100, 123412, 1543245423]);
    assert_eq!(d.size_hint(), (0, Some(0)));
    assert_eq!(d.next(), None);
}

#[test]
fn z_order_values() {
    let z = ZOrder::new();
    assert_eq!(z.entangle((0, 0)), 0);
    assert_eq!(z.entangle((1, 0)), 1);
    assert_eq!(z.entangle((0, 1)), 2);
    assert_eq!(z.entangle((3, 0)), 5);
    assert_eq!(z.entangle((0, 3)), 10);
    assert_eq!(z.entangle((1 << 8, 0)), 1 << 16);
    assert_eq!(z.entangle((0, 1 << 31)), 1 << 63);
    assert_eq!(z.entangle((u32::MAX, u32::MAX)), u64::MAX);
    assert_eq!(z.detangle(0x5555_5555_5555_5555), (u32::MAX, 0));
    assert_eq!(z.detangle(0xAAAA_AAAA_AAAA_AAAA), (0, u32::MAX));
    assert_eq!(z.detangle(6), (2, 1));
}

#[test]
fn z_order_bijection() {
    let z = ZOrder::new();
    for x in 0..1024u32 {
        for y in 0..1024u32 {
            let t = z.entangle((x, y));
            assert_eq!(z.detangle(t), (x, y));
        }
    }
    let samples: Vec<u32> = vec![0, 1, 255, 256, 65535, 65536, 0x1234_5678, 0xDEAD_BEEF, u32::MAX];
    for &x in samples.iter() {
        for &y in samples.iter() {
            assert_eq!(z.detangle(z.entangle((x, y))), (x, y));
        }
    }
    for &t in [0u64, 1, 0xFFFF, 0x1_0000, 0x0123_4567_89AB_CDEF, u64::MAX].iter() {
        assert_eq!(z.entangle(z.detangle(t)), t);
    }
}

#[test]
fn hilbert_first_cells_are_adjacent() {
    let h = Hilbert::new();
    let mut prev = h.detangle(0);
    for i in 1..4096u64 {
        let next = h.detangle(i);
        let dx = (next.0 as i64 - prev.0 as i64).abs();
        let dy = (next.1 as i64 - prev.1 as i64).abs();
        assert_eq!(dx + dy, 1);
        prev = next;
    }
}

#[test]
fn hilbert_bijection_samples() {
    let h = Hilbert::new();
    let samples: Vec<u32> = vec![0, 1, 7, 255, 256, 65535, 65536, 0x00FF_00FF, 0x1234_5678, 0xDEAD_BEEF, 0x8000_0000, u32::MAX];
    for &x in samples.iter() {
        for &y in samples.iter() {
            assert_eq!(h.detangle(h.entangle((x, y))), (x, y));
        }
    }
    for x in 0..256u32 {
        for y in 0..256u32 {
            let pair = (x << 24 | x, y << 16 | y);
            assert_eq!(h.detangle(h.entangle(pair)), pair);
        }
    }
    for &t in [0u64, 1, 0xFFFF, 0x1_0000, 0x0123_4567_89AB_CDEF, u64::MAX].iter() {
        assert_eq!(h.entangle(h.detangle(t)), t);
    }
}

#[test]
fn hilbert_corners() {
    let h = Hilbert::new();
    assert_eq!(h.entangle((0, 0)), 0);
    assert_eq!(h.detangle(0), (0, 0));
    assert_eq!(h.detangle(u64::MAX), (u32::MAX, 0));
    assert_eq!(h.entangle((u32::MAX, 0)), u64::MAX);
    let mut cached = BytewiseCached::new();
    assert_eq!(cached.detangle(u64::MAX), (u32::MAX, 0));
}

#[test]
fn cached_matches_stateless() {
    let h = Hilbert::new();
    let mut cached = BytewiseCached::new();
    for i in 0..5000u64 {
        let t = 0x0123_4567_0000_0000 + i;
        assert_eq!(cached.detangle(t), h.detangle(t));
    }
    let mut t: u64 = 0x9E37_79B9_7F4A_7C15;
    for _ in 0..5000 {
        t = t.wrapping_mul(6364136223846793005).wrapping_add(1442695040888963407);
        assert_eq!(cached.detangle(t), h.detangle(t));
        let other = t ^ (1u64 << 40);
        assert_eq!(cached.detangle(other), h.detangle(other));
    }
}

#[test]
fn bytewise_agrees_with_reference() {
    let h = Hilbert::new();
    let samples: Vec<u32> = vec![
        0, 1, 0x80, 0xFF, 0x100, 0x8000, 0xFFFF, 0x1_0000, 0x80_0000, 0xFF_FFFF, 0x100_0000,
        0x8000_0000, 0x1234_5678, 0x9ABC_DEF0, 0xDEAD_BEEF, u32::MAX,
    ];
    for &x in samples.iter() {
        for &y in samples.iter() {
            assert_eq!(h.entangle_bytewise((x, y)), Hilbert::bit_entangle((x, y)));
        }
    }
    for x in 0..256u32 {
        for y in 0..256u32 {
            let pair = (x << 24 | (y << 8), y << 24 | (x << 16) | 0x55);
            assert_eq!(h.entangle_bytewise(pair), Hilbert::bit_entangle(pair));
            let t = ((x as u64) << 56) | ((y as u64) << 40) | ((x as u64) << 20) | (y as u64);
            assert_eq!(h.detangle_bytewise(t), Hilbert::bit_detangle(t));
        }
    }
}

#[test]
fn width_tiers() {
    let cases: Vec<(u64, (usize, usize, usize))> = vec![
        (1, (0, 0, 0)),
        (255, (0, 0, 0)),
        (256, (1, 0, 0)),
        (65535, (1, 0, 0)),
        (65536, (0, 1, 0)),
        ((1u64 << 32) - 1, (0, 1, 0)),
        (1u64 << 32, (0, 0, 1)),
    ];
    for &(delta, counts) in cases.iter() {
        let mut compressor = Compressor::new();
        compressor.push(delta);
        let compressed = compressor.done();
        assert_eq!(compressed.overflow_counts(), counts);
        assert_eq!(compressed.decompress().collect(), vec![delta]);
    }
    let zero = Compressed::from(&vec![0u64]);
    assert_eq!(zero.overflow_counts(), (1, 0, 0));
}
