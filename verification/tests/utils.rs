use blas_rs::utils::cache::{sizes_from_reader, sizes_of_leaves, CacheLeaf};
use std::cell::RefCell;
use blas_rs::utils::noise::{SeedError, GOLDEN_GAMMA, MIX_MUL_1, MIX_MUL_2};
use blas_rs::utils::{get_cache_size, mat_transpose, Noise};

const SPLITMIX_ZERO_FIRST: u64 = 0xe220a8397b1dcdaf;
const SPLITMIX_ZERO_SECOND: u64 = 0x6e789e6aa1b965f4;
const SPLITMIX_ZERO_THIRD: u64 = 0x06c45d188009454f;

// ─── Noise ──────────────────────────────────────────────────────────────────

#[test]
fn with_seed_spreads_the_seed_over_the_lanes() {
    let noise = Noise::with_seed(1);
    assert_eq!(noise.state(), [1, GOLDEN_GAMMA, MIX_MUL_1, MIX_MUL_2]);
    let noise = Noise::with_seed(3);
    assert_eq!(
        noise.state(),
        [
            3,
            GOLDEN_GAMMA.wrapping_mul(3),
            MIX_MUL_1.wrapping_mul(3),
            MIX_MUL_2.wrapping_mul(3)
        ]
    );
}

#[test]
fn lanes_follow_splitmix64() {
    let mut noise = Noise::with_seed(0);
    assert_eq!(
        noise.next_u64s(),
        (SPLITMIX_ZERO_FIRST, SPLITMIX_ZERO_FIRST, SPLITMIX_ZERO_FIRST, SPLITMIX_ZERO_FIRST)
    );
    assert_eq!(
        noise.next_u64s(),
        (SPLITMIX_ZERO_SECOND, SPLITMIX_ZERO_SECOND, SPLITMIX_ZERO_SECOND, SPLITMIX_ZERO_SECOND)
    );
    assert_eq!(noise.next_u64s().3, SPLITMIX_ZERO_THIRD);
    assert_eq!(noise.state(), [GOLDEN_GAMMA.wrapping_mul(3); 4]);
}

#[test]
fn next_state_returns_the_advanced_state() {
    let mut noise = Noise::with_seed(0);
    assert_eq!(noise.next_state(), [GOLDEN_GAMMA; 4]);
    assert_eq!(noise.state(), [GOLDEN_GAMMA; 4]);
    let mut a = Noise::with_seed(42);
    let mut b = Noise::with_seed(42);
    for _ in 0..5 {
        let s = a.next_state();
        b.next_u64s();
        assert_eq!(s, b.state());
    }
    assert_eq!(a.state(), b.state());
}

#[test]
fn from_state_resumes_a_generator() {
    let mut a = Noise::with_seed(7);
    a.next_u64s();
    let mut b = Noise::from_state(a.state());
    assert_eq!(a.next_u64s(), b.next_u64s());
}

#[test]
fn init_gives_a_working_generator() {
    let mut noise = match Noise::init() {
        Ok(noise) => noise,
        Err(SeedError::OsRandomUnavailable) => return,
    };
    let before = noise.state();
    noise.next_state();
    let after = noise.state();
    for lane in 0..4 {
        assert_eq!(after[lane], before[lane].wrapping_add(GOLDEN_GAMMA));
    }
}

#[test]
fn from_source_takes_one_word_per_lane_in_order() {
    let next = RefCell::new(10u64);
    let counting = || -> Result<u64, ()> {
        let mut n = next.borrow_mut();
        *n += 1;
        Ok(*n)
    };
    let noise = Noise::from_source(counting).unwrap();
    assert_eq!(noise.state(), [11, 12, 13, 14]);
    // a source that fails on its third word seeds nothing
    let calls = RefCell::new(0u32);
    let failing = || -> Result<u64, &'static str> {
        let mut c = calls.borrow_mut();
        *c += 1;
        if *c == 3 {
            Err("unavailable")
        } else {
            Ok(7)
        }
    };
    assert!(Noise::from_source(failing).is_none());
    assert_eq!(*calls.borrow(), 3);
}

#[test]
fn fill_bytes_serializes_draws_little_endian() {
    let mut noise = Noise::with_seed(0);
    let mut buf = vec![0u8; 45];
    noise.fill_bytes(&mut buf);
    let first = SPLITMIX_ZERO_FIRST.to_le_bytes();
    for lane in 0..4 {
        assert_eq!(&buf[lane * 8..lane * 8 + 8], &first[..]);
    }
    let second = SPLITMIX_ZERO_SECOND.to_le_bytes();
    assert_eq!(&buf[32..40], &second[..]);
    assert_eq!(&buf[40..45], &second[..5]);
    // two draws were taken: the next one is the third
    assert_eq!(noise.next_u64s().0, SPLITMIX_ZERO_THIRD);
}

#[test]
fn fill_bytes_in_whole_draws_continues_the_stream() {
    let mut one = Noise::with_seed(11);
    let mut whole = vec![0u8; 100];
    one.fill_bytes(&mut whole);
    let mut two = Noise::with_seed(11);
    let mut head = vec![0u8; 64];
    let mut tail = vec![0u8; 36];
    two.fill_bytes(&mut head);
    two.fill_bytes(&mut tail);
    assert_eq!(&whole[..64], &head[..]);
    assert_eq!(&whole[64..], &tail[..]);
    assert_eq!(one.state(), two.state());
}

#[test]
fn fill_bytes_of_empty_buffer_draws_nothing() {
    let mut noise = Noise::with_seed(5);
    let before = noise.state();
    noise.fill_bytes(&mut []);
    assert_eq!(noise.state(), before);
}

#[test]
fn fill_i32_splits_words_into_halves() {
    let mut noise = Noise::with_seed(0);
    let mut buf = vec![0i32; 11];
    noise.fill_i32(&mut buf);
    let lo = SPLITMIX_ZERO_FIRST as u32 as i32;
    let hi = (SPLITMIX_ZERO_FIRST >> 32) as i32;
    assert_eq!(&buf[..8], &[lo, hi, lo, hi, lo, hi, lo, hi]);
    assert_eq!(buf[8], SPLITMIX_ZERO_SECOND as u32 as i32);
    assert_eq!(buf[9], (SPLITMIX_ZERO_SECOND >> 32) as i32);
    assert_eq!(buf[10], SPLITMIX_ZERO_SECOND as u32 as i32);
    assert_eq!(noise.next_u64s().1, SPLITMIX_ZERO_THIRD);
}

#[test]
fn fill_i32_reads_the_byte_stream_four_bytes_at_a_time() {
    let mut a = Noise::with_seed(99);
    let mut b = Noise::with_seed(99);
    let mut ints = vec![0i32; 24];
    let mut bytes = vec![0u8; 96];
    a.fill_i32(&mut ints);
    b.fill_bytes(&mut bytes);
    for k in 0..24 {
        let word = u32::from_le_bytes([bytes[4 * k], bytes[4 * k + 1], bytes[4 * k + 2], bytes[4 * k + 3]]);
        assert_eq!(ints[k] as u32, word);
    }
}

#[test]
fn fill_i32_scaled_lies_in_unit_interval() {
    let mut noise = Noise::with_seed(2024);
    let mut raw = vec![0i32; 10_007];
    noise.fill_i32(&mut raw);
    let scale = 1.0f32 / (1u64 << 31) as f32;
    assert!(raw.iter().all(|&v| (-1.0..=1.0).contains(&(v as f32 * scale))));
}

#[test]
fn bool_below_compares_the_xor_of_a_draw() {
    // seed 0 makes the four lanes equal, so their exclusive-or is 0
    let mut noise = Noise::with_seed(0);
    assert!(!noise.bool_below(0));
    assert!(noise.bool_below(1));
    let mut a = Noise::with_seed(8);
    let mut b = Noise::with_seed(8);
    let w = b.next_u64s();
    let x = (w.0 ^ w.2) ^ (w.1 ^ w.3);
    assert_eq!(a.bool_below(x), false);
    let mut c = Noise::with_seed(8);
    assert_eq!(c.bool_below(x.wrapping_add(1)), x != u64::MAX);
}

// ─── transpose ──────────────────────────────────────────────────────────────

#[test]
fn test_mat_transpose() {
    let rows = 1024;
    let cols = 1536;
    let size = rows * cols;

    let mut noise = Noise::with_seed(17);
    let mut raw = vec![0i32; size];
    noise.fill_i32(&mut raw);
    let scale = 1.0f32 / (1u64 << 31) as f32;
    let src: Vec<f32> = raw.iter().map(|&v| v as f32 * scale).collect();
    let mut dest = vec![0.0f32; size];

    mat_transpose(&src, &mut dest, rows, cols);

    for r in 0..rows {
        for c in 0..cols {
            assert_eq!(src[r * cols + c], dest[c * rows + r]);
        }
    }
}

#[test]
fn transpose_small_and_ragged() {
    let src: Vec<u32> = (0..6).collect(); // 2 by 3
    let mut dst = vec![0u32; 6];
    mat_transpose(&src, &mut dst, 2, 3);
    assert_eq!(dst, vec![0, 3, 1, 4, 2, 5]);
    let src: Vec<u32> = (0..(70 * 3)).collect(); // taller than a tile
    let mut dst = vec![0u32; 70 * 3];
    mat_transpose(&src, &mut dst, 70, 3);
    let mut back = vec![0u32; 70 * 3];
    mat_transpose(&dst, &mut back, 3, 70);
    assert_eq!(back, src);
    let mut none: Vec<u32> = Vec::new();
    mat_transpose(&[], &mut none, 0, 5);
    assert!(none.is_empty());
}

// ─── cache sizes ────────────────────────────────────────────────────────────

fn leaf(kind: u32, level: u32, ways: u32, partitions: u32, line: u32, sets: u32) -> CacheLeaf {
    (
        kind | (level << 5),
        ((ways - 1) << 22) | ((partitions - 1) << 12) | (line - 1),
        sets - 1,
    )
}

#[test]
fn cache_sizes_from_leaves() {
    let leaves = [
        leaf(1, 1, 12, 1, 64, 64),    // L1 data, 48 KiB
        leaf(2, 1, 8, 1, 64, 64),     // L1 instruction, ignored
        leaf(3, 2, 16, 1, 64, 2048),  // L2 unified, 2 MiB
        leaf(3, 3, 12, 1, 64, 40960), // L3 unified, 30 MiB
        (0, 0, 0),
        leaf(1, 1, 1, 1, 64, 1), // after the end, ignored
    ];
    assert_eq!(sizes_of_leaves(&leaves), (48, 2048, 30720));
    assert_eq!(sizes_of_leaves(&leaves[..2]), (48, 0, 0));
    assert_eq!(sizes_of_leaves(&[]), (0, 0, 0));
    // the largest fields a leaf can hold
    let huge = (0x21, u32::MAX, u32::MAX);
    assert_eq!(sizes_of_leaves(&[huge]), (((1u128 << 64) / 1024) as usize, 0, 0));
}

#[test]
fn sizes_from_reader_reads_sub_leaves_in_order_up_to_the_first_empty_one() {
    let leaves = [
        leaf(1, 1, 12, 1, 64, 64),    // L1 data, 48 KiB
        leaf(3, 2, 16, 1, 64, 2048),  // L2 unified, 2 MiB
        leaf(3, 3, 12, 1, 64, 40960), // L3 unified, 30 MiB
        (0, 0, 0),
        leaf(1, 1, 1, 1, 64, 1), // after the end, never read
    ];
    let asked = RefCell::new(Vec::new());
    let sizes = sizes_from_reader(|k: u32| {
        asked.borrow_mut().push(k);
        leaves[k as usize]
    });
    assert_eq!(sizes, (48, 2048, 30720));
    assert_eq!(*asked.borrow(), vec![0, 1, 2, 3]);
    // a processor that reports no cache at all
    assert_eq!(sizes_from_reader(|_: u32| (0, 0, 0)), (0, 0, 0));
}

#[test]
fn get_cache_size_is_stable() {
    let first = get_cache_size();
    assert_eq!(get_cache_size(), first);
}

fn splitmix64(state: &mut u64) -> u64 {
    *state = state.wrapping_add(0x9e3779b97f4a7c15);
    let mut z = *state;
    z = (z ^ (z >> 30)).wrapping_mul(0xbf58476d1ce4e5b9);
    z = (z ^ (z >> 27)).wrapping_mul(0x94d049bb133111eb);
    z ^ (z >> 31)
}

#[test]
fn each_lane_is_a_splitmix64_stream() {
    let seeds = [3u64, u64::MAX, 0x0123_4567_89ab_cdef, 1 << 63];
    let mut noise = Noise::from_state(seeds);
    let mut lanes = seeds;
    for _ in 0..10 {
        let (w0, w1, w2, w3) = noise.next_u64s();
        let w = [w0, w1, w2, w3];
        for l in 0..4 {
            assert_eq!(w[l], splitmix64(&mut lanes[l]));
        }
    }
}
