use pir_bench::buffer::make_buffer;
use pir_bench::scan::{combine_partials, parallel_chunk_len, scan};
use pir_bench::stats::Stats;

#[test]
fn scan_touches_every_byte() {
    // A changed byte must change the result, or the "touches everything"
    // claim the floor rests on is not true of this loop.
    let a = make_buffer(1024);
    let mut b = a.clone();
    let last = b.len() - 8;
    if let Some(v) = b.get_mut(last) {
        *v = v.wrapping_add(1);
    }
    assert_ne!(scan(&a), scan(&b));
}

#[test]
fn parallel_agrees_with_serial() {
    let buf = make_buffer(8 * 1024);
    // Chunking must not change the sum, or the parallel figure is measuring
    // a different computation from the serial one.
    for threads in [1usize, 2, 3, 4, 7] {
        let parallel = match parallel_chunk_len(buf.len(), threads) {
            None => scan(&buf),
            Some(per) => {
                let partials: Vec<u64> = buf.chunks(per).map(scan).collect();
                combine_partials(&partials)
            }
        };
        assert_eq!(scan(&buf), parallel, "threads={threads}");
    }
}

#[test]
fn buffer_is_not_uniform() {
    // A zeroed buffer can be backed by one shared page and would measure
    // the page table rather than memory.
    let b = make_buffer(4096);
    let first = b.first().copied().unwrap_or(0);
    assert!(b.iter().any(|&x| x != first));
}

#[test]
fn scan_reads_little_endian_words() {
    let mut buf = vec![0u8; 16];
    buf[0] = 1;
    buf[9] = 2;
    assert_eq!(scan(&buf), 1 + 2 * 256);
    buf[7] = 1;
    assert_eq!(scan(&buf), 1 + 2 * 256 + (1u64 << 56));
}

#[test]
fn scan_of_nothing_is_zero() {
    assert_eq!(scan(&[]), 0);
    assert_eq!(scan(&[9, 9, 9, 9, 9, 9, 9]), 0);
}

#[test]
fn scan_ignores_a_short_tail() {
    let mut buf = vec![1u8; 9];
    let before = scan(&buf);
    buf[8] = 200;
    assert_eq!(scan(&buf), before);
    assert_eq!(before, 0x0101_0101_0101_0101);
}

#[test]
fn scan_wraps_at_64_bits() {
    let buf = vec![0xffu8; 16];
    assert_eq!(scan(&buf), u64::MAX.wrapping_add(u64::MAX));
    assert_eq!(scan(&buf), u64::MAX - 1);
}

#[test]
fn scan_sees_every_byte_of_every_word() {
    let a = make_buffer(64);
    for p in 0..64 {
        let mut b = a.clone();
        b[p] = b[p].wrapping_add(77);
        assert_ne!(scan(&a), scan(&b), "byte {p}");
    }
}

#[test]
fn buffer_bytes_follow_the_lcg() {
    let b = make_buffer(20);
    assert_eq!(b.len(), 20);
    let mut state: u64 = 0x2545_F491_4F6C_DD1D;
    let mut expected = Vec::new();
    while expected.len() < 20 {
        state = state
            .wrapping_mul(6_364_136_223_846_793_005)
            .wrapping_add(1_442_695_040_888_963_407);
        for byte in state.to_le_bytes() {
            if expected.len() < 20 {
                expected.push(byte);
            }
        }
    }
    assert_eq!(b, expected);
    assert_eq!(make_buffer(0), Vec::<u8>::new());
    assert_eq!(make_buffer(3), expected[..3].to_vec());
}

#[test]
fn parallel_split_rounds_to_words() {
    assert_eq!(parallel_chunk_len(8192, 3), Some(2736));
    assert_eq!(parallel_chunk_len(8192, 2), Some(4096));
    assert_eq!(parallel_chunk_len(5, 2), Some(8));
    assert_eq!(parallel_chunk_len(100, 7), Some(16));
    assert_eq!(parallel_chunk_len(100, 1), None);
    assert_eq!(parallel_chunk_len(100, 0), None);
    assert_eq!(parallel_chunk_len(0, 4), None);
}

#[test]
fn parallel_agrees_with_serial_on_ragged_lengths() {
    for len in [1usize, 7, 8, 9, 63, 100, 1001] {
        let buf = make_buffer(len);
        for threads in 2..9usize {
            let per = parallel_chunk_len(len, threads).unwrap();
            let partials: Vec<u64> = buf.chunks(per).map(scan).collect();
            assert_eq!(combine_partials(&partials), scan(&buf), "len={len} threads={threads}");
        }
    }
}

#[test]
fn partials_combine_with_wrapping() {
    assert_eq!(combine_partials(&[]), 0);
    assert_eq!(combine_partials(&[1, 2, 3]), 6);
    assert_eq!(combine_partials(&[u64::MAX, 2]), 1);
}

#[test]
fn stats_pick_best_median_worst() {
    let s = Stats::from(vec![30, 10, 20]);
    assert_eq!((s.best, s.median, s.worst), (10, 20, 30));
    let s = Stats::from(vec![4, 1, 3, 2]);
    assert_eq!((s.best, s.median, s.worst), (1, 3, 4));
    let s = Stats::from(vec![7]);
    assert_eq!((s.best, s.median, s.worst), (7, 7, 7));
}

#[test]
fn stats_of_no_repeats_are_zero() {
    let s = Stats::from(Vec::new());
    assert_eq!((s.best, s.median, s.worst), (0, 0, 0));
    assert_eq!(s, Stats::default());
}

#[test]
fn stats_do_not_depend_on_order() {
    let a = Stats::from(vec![5, 9, 1, 9, 3]);
    let b = Stats::from(vec![9, 3, 9, 5, 1]);
    assert_eq!(a, b);
    assert_eq!((a.best, a.median, a.worst), (1, 5, 9));
}
