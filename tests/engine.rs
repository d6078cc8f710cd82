use manganese::catalog::TestKind;
use manganese::kernel::{run_kernel, LaneRng};
use manganese::pattern::{invert_vec, kernel_plan, kernel_values, SweepOp, SweepStep};
use manganese::sweep::{
    chunk_bounds, count_diff_bytes, fill_chunk_down, fill_chunk_up, run_plan, sweep,
    verify_chunk_down, verify_chunk_up,
};
use manganese::xorshift::{
    avx512_xorshift128plus, avx512_xorshift128plus_init, avx_xorshift128plus,
    avx_xorshift128plus_init, xorshift128plus, xorshift128plus_jump_onkeys, xorshift128plus_onkeys,
    Avx512Xorshift128PlusKey, AvxXorshift128PlusKey,
};

fn avx_rng(a: u64, b: u64) -> LaneRng {
    let mut key = AvxXorshift128PlusKey { part1: Vec::new(), part2: Vec::new() };
    avx_xorshift128plus_init(a, b, &mut key);
    LaneRng::Avx(key)
}

fn avx512_rng(a: u64, b: u64) -> LaneRng {
    let mut key = Avx512Xorshift128PlusKey { part1: Vec::new(), part2: Vec::new() };
    avx512_xorshift128plus_init(a, b, &mut key);
    LaneRng::Avx512(key)
}

fn uniform(op: SweepOp, v: &[u64]) -> SweepStep {
    SweepStep { op, even: v.to_vec(), odd: v.to_vec() }
}

#[test]
fn basic_tests_wide256_single_cpu_32k() {
    let mut buf = vec![0x1234u64; 32 * 1024 / 8];
    let mut rng = avx_rng(1, 2);
    let errors = run_kernel(&mut buf, 1, &mut rng, TestKind::BasicTests);
    assert!(errors.is_empty());
    assert!(buf.iter().all(|&w| w == 0xAAAA_AAAA_AAAA_AAAA));
    let plan = kernel_plan(TestKind::BasicTests, 4, &Vec::new());
    assert_eq!(plan.len(), 24);
    let ops: Vec<SweepOp> = plan.iter().take(4).map(|s| s.op).collect();
    assert_eq!(ops, vec![SweepOp::FillUp, SweepOp::VerifyUp, SweepOp::FillDown, SweepOp::VerifyDown]);
}

#[test]
fn walking1_wide512_four_workers_1m() {
    let mut buf = vec![0u64; 1024 * 1024 / 8];
    let mut rng = avx512_rng(5, 7);
    let errors = run_kernel(&mut buf, 4, &mut rng, TestKind::Walking1);
    assert!(errors.is_empty());
    assert!(buf.iter().all(|&w| w == !(1u64 << 63)));
    let plan = kernel_plan(TestKind::Walking1, 8, &Vec::new());
    assert_eq!(plan.len(), 256);
    let mut stepped = vec![0u64; 1024 * 1024 / 8];
    for k in 0..64 {
        assert_eq!(plan[4 * k].even, vec![1u64 << k; 8]);
        assert_eq!(plan[4 * k + 2].even, vec![!(1u64 << k); 8]);
        for step in &plan[4 * k..4 * k + 4] {
            assert!(sweep(&mut stepped, 4, 8, step).is_empty());
        }
        assert!(stepped.iter().all(|&w| w == !(1u64 << k)));
    }
}

#[test]
fn fault_injection_wide512_counts_one_byte() {
    let mut buf = vec![0u64; 0x20000 / 8];
    let v = vec![0xAAAA_AAAA_AAAA_AAAAu64; 8];
    let n = buf.len();
    fill_chunk_up(&mut buf, 0, 0, n, 8, &v, &v);
    let w = 0x12340 / 8;
    buf[w] = (buf[w] & !0xFF) | 0x55;
    let reports = verify_chunk_up(&buf, 0, 0, n, 8, &v, &v);
    assert_eq!(reports.len(), 1);
    assert_eq!(reports[0].offset, 0x12340);
    assert_eq!(reports[0].bytes, 1);
}

#[test]
fn fault_injection_wide256_counts_one_byte() {
    let mut buf = vec![0u64; 0x20000 / 8];
    let v = vec![0xAAAA_AAAA_AAAA_AAAAu64; 4];
    let n = buf.len();
    fill_chunk_up(&mut buf, 0, 0, n, 4, &v, &v);
    let w = 0x12340 / 8;
    buf[w] = (buf[w] & !0xFF) | 0x55;
    let reports = verify_chunk_down(&buf, 0, 0, n, 4, &v, &v);
    assert_eq!(reports.len(), 1);
    assert_eq!(reports[0].offset, 0x12340);
    assert_eq!(reports[0].bytes, 1);
}

#[test]
fn several_faults_reported_in_sweep_order() {
    let mut buf = vec![0u64; 64];
    let v = vec![0u64; 4];
    sweep(&mut buf, 2, 4, &uniform(SweepOp::FillUp, &v));
    buf[1] = 0xFF00_0000_0000_00FF;
    buf[60] = 0x0101_0101_0101_0101;
    let up = sweep(&mut buf, 2, 4, &uniform(SweepOp::VerifyUp, &v));
    assert_eq!(up.len(), 2);
    assert_eq!((up[0].offset, up[0].bytes), (0, 2));
    assert_eq!((up[1].offset, up[1].bytes), (480, 8));
    let down = sweep(&mut buf, 2, 4, &uniform(SweepOp::VerifyDown, &v));
    assert_eq!((down[0].offset, down[1].offset), (480, 0));
}

#[test]
fn fill_then_verify_is_clean() {
    let mut buf = vec![7u64; 128];
    let v = vec![0x0123_4567_89AB_CDEFu64, 1, 2, 3];
    let plan = vec![uniform(SweepOp::FillUp, &v), uniform(SweepOp::VerifyUp, &v)];
    assert!(run_plan(&mut buf, 4, 4, &plan).is_empty());
    assert_eq!(buf[5], 1);
    assert_eq!(buf[127], 3);
}

#[test]
fn inverse_fill_overwrites() {
    let mut buf = vec![0u64; 64];
    let v = vec![0x5555_0000_FFFF_1234u64; 4];
    let nv = invert_vec(&v);
    assert_eq!(nv, vec![!0x5555_0000_FFFF_1234u64; 4]);
    let plan = vec![
        uniform(SweepOp::FillUp, &v),
        uniform(SweepOp::FillUp, &nv),
        uniform(SweepOp::VerifyUp, &nv),
    ];
    assert!(run_plan(&mut buf, 2, 4, &plan).is_empty());
    assert!(buf.iter().all(|&w| w == !0x5555_0000_FFFF_1234u64));
}

#[test]
fn xor_with_ones_is_complement() {
    for p in [0u64, 1, 0xAA, 0x8000_0000_0000_0000, u64::MAX] {
        assert_eq!(invert_vec(&vec![p]), vec![p ^ u64::MAX]);
        assert_eq!(invert_vec(&vec![p]), vec![!p]);
    }
}

#[test]
fn every_kernel_reads_back_clean() {
    let kinds = manganese::catalog::kinds();
    for k in kinds {
        let mut buf = vec![0u64; 256];
        let mut rng = avx_rng(11, 13);
        assert!(run_kernel(&mut buf, 2, &mut rng, k).is_empty(), "{:?}", k);
        let mut buf = vec![0u64; 256];
        let mut rng = avx512_rng(11, 13);
        assert!(run_kernel(&mut buf, 4, &mut rng, k).is_empty(), "{:?}", k);
    }
}

#[test]
fn single_worker_matches_many_workers() {
    for k in manganese::catalog::kinds() {
        let mut a = vec![3u64; 512];
        let mut b = vec![3u64; 512];
        let mut ra = avx_rng(21, 22);
        let mut rb = avx_rng(21, 22);
        let ea = run_kernel(&mut a, 1, &mut ra, k);
        let eb = run_kernel(&mut b, 8, &mut rb, k);
        assert_eq!(ea, eb);
        assert_eq!(a, b);
    }
}

#[test]
fn checkerboard_alternates_slots() {
    let mut buf = vec![0u64; 32];
    let plan = kernel_plan(TestKind::Checkerboard, 4, &Vec::new());
    assert_eq!(plan.len(), 4);
    sweep(&mut buf, 1, 4, &plan[0]);
    assert_eq!(buf[0], 0x5555_5555_5555_5555);
    assert_eq!(buf[4], 0xAAAA_AAAA_AAAA_AAAA);
    sweep(&mut buf, 1, 4, &plan[2]);
    assert_eq!(buf[0], 0xAAAA_AAAA_AAAA_AAAA);
    assert_eq!(buf[7], 0x5555_5555_5555_5555);
}

#[test]
fn kernel_pattern_values() {
    assert_eq!(kernel_values(TestKind::MovingInversionsRight32)[1], 0x4000_0000_4000_0000);
    assert_eq!(kernel_values(TestKind::MovingInversionsLeft16)[15], 0x8000_8000_8000_8000);
    assert_eq!(kernel_values(TestKind::MovingInversionsRight8)[7], 0x0101_0101_0101_0101);
    assert_eq!(kernel_values(TestKind::MovingInversionsLeft4)[3], 0x8888_8888_8888_8888);
    assert_eq!(kernel_values(TestKind::MovingSaturationsRight16)[0], 0x8000_8000_8000_8000);
    assert_eq!(kernel_values(TestKind::MovingSaturationsLeft8)[2], 0x0004_0004_0004_0004);
    assert_eq!(kernel_values(TestKind::Walking0)[0], !1u64);
    assert_eq!(kernel_values(TestKind::AntiPatterns).len(), 34);
    let inv = kernel_values(TestKind::InverseDataPatterns);
    assert_eq!(inv.len(), 14);
    assert_eq!(inv[1], 0xFFFF_FFFF_FFFF_00FF);
    assert_eq!(inv[9], 0xFFFF_FFFF_0000_FFFF);
    assert_eq!(inv[13], 0x0000_0000_FFFF_FFFF);
    assert_eq!(kernel_plan(TestKind::AntiPatterns, 4, &Vec::new()).len(), 272);
    assert_eq!(kernel_plan(TestKind::MovingSaturationsRight16, 4, &Vec::new()).len(), 128);
}

#[test]
fn random_inversions_use_sixteen_draws() {
    let mut rng = avx_rng(3, 4);
    let mut buf = vec![0u64; 64];
    assert!(run_kernel(&mut buf, 1, &mut rng, TestKind::RandomInversions).is_empty());
    let mut key = AvxXorshift128PlusKey { part1: Vec::new(), part2: Vec::new() };
    avx_xorshift128plus_init(3, 4, &mut key);
    let mut last = Vec::new();
    for _ in 0..16 {
        last = avx_xorshift128plus(&mut key);
    }
    let inverted: Vec<u64> = last.iter().map(|x| !x).collect();
    assert_eq!(buf[0..4].to_vec(), inverted);
}

fn reference_step(s0: u64, s1: u64) -> (u64, u64, u64) {
    let mut a = s0;
    let b = s1;
    a ^= a << 23;
    let n1 = a ^ b ^ (a >> 18) ^ (b >> 5);
    (b, n1, n1.wrapping_add(b))
}

#[test]
fn scalar_xorshift_step() {
    let (mut s0, mut s1) = (1u64, 2u64);
    let out = xorshift128plus(&mut s0, &mut s1);
    let (e0, e1, eo) = reference_step(1, 2);
    assert_eq!((s0, s1, out), (e0, e1, eo));
    assert_eq!((s0, s1), (2, 0x80_0023));
    let (mut a, mut b) = (s0, s1);
    xorshift128plus_onkeys(&mut a, &mut b);
    assert_eq!((a, b), (reference_step(s0, s1).0, reference_step(s0, s1).1));
}

#[test]
fn lane_zero_follows_scalar_stream() {
    let mut key = Avx512Xorshift128PlusKey { part1: Vec::new(), part2: Vec::new() };
    avx512_xorshift128plus_init(0x1234, 0x5678, &mut key);
    let (mut s0, mut s1) = (0x1234u64, 0x5678u64);
    for _ in 0..100 {
        let v = avx512_xorshift128plus(&mut key);
        let x = xorshift128plus(&mut s0, &mut s1);
        assert_eq!(v[0], x);
    }
}

#[test]
fn lanes_are_jumped_seeds() {
    let mut key = AvxXorshift128PlusKey { part1: Vec::new(), part2: Vec::new() };
    avx_xorshift128plus_init(9, 10, &mut key);
    let (mut j0, mut j1) = (0u64, 0u64);
    xorshift128plus_jump_onkeys(9, 10, &mut j0, &mut j1);
    assert_eq!((key.part1[1], key.part2[1]), (j0, j1));
    assert_ne!((j0, j1), (9, 10));
    let (mut k0, mut k1) = (0u64, 0u64);
    xorshift128plus_jump_onkeys(j0, j1, &mut k0, &mut k1);
    assert_eq!((key.part1[2], key.part2[2]), (k0, k1));
}

#[test]
fn chunks_tile_the_buffer() {
    assert_eq!(chunk_bounds(64, 4, 0), (0, 16));
    assert_eq!(chunk_bounds(64, 4, 3), (48, 64));
    assert_eq!(chunk_bounds(64, 1, 0), (0, 64));
}

#[test]
fn fill_down_writes_same_words() {
    let mut a = vec![0u64; 32];
    let mut b = vec![0u64; 32];
    let even = vec![1u64, 2];
    let odd = vec![3u64, 4];
    fill_chunk_up(&mut a, 0, 4, 12, 2, &even, &odd);
    fill_chunk_down(&mut b, 0, 4, 12, 2, &even, &odd);
    assert_eq!(a, b);
    assert_eq!(&a[0..14], &[0, 0, 0, 0, 1, 2, 3, 4, 1, 2, 3, 4, 0, 0]);
}

#[test]
fn diff_bytes_counted_exactly() {
    assert_eq!(count_diff_bytes(0, 0), 0);
    assert_eq!(count_diff_bytes(0xFF, 0), 1);
    assert_eq!(count_diff_bytes(0x0100_0000_0000_0001, 0), 2);
    assert_eq!(count_diff_bytes(u64::MAX, 0), 8);
}
