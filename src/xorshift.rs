//! xorshift128+ pseudorandom generator, scalar and lane-parallel.
use vstd::prelude::*;

verus! {

/// One xorshift128+ state transition on a seed pair `(s[0], s[1])`.
pub open spec fn xs_step(s: (u64, u64)) -> (u64, u64) {
    let s1 = s.0;
    let s0 = s.1;
    let t = s1 ^ (s1 << 23u64);
    (s0, t ^ s0 ^ (t >> 18u64) ^ (s0 >> 5u64))
}

/// The value that xorshift128+ emits when leaving state `s`.
pub open spec fn xs_output(s: (u64, u64)) -> u64 {
    wrap_add(xs_step(s).1, s.1)
}

/// Addition modulo 2^64.
pub open spec fn wrap_add(a: u64, b: u64) -> u64 {
    if a + b > u64::MAX {
        (a + b - 0x1_0000_0000_0000_0000) as u64
    } else {
        (a + b) as u64
    }
}

/// The state after `n` transitions.
pub open spec fn xs_iter(s: (u64, u64), n: nat) -> (u64, u64)
    decreases n,
{
    if n == 0 {
        s
    } else {
        xs_step(xs_iter(s, (n - 1) as nat))
    }
}

/// Jump polynomial of xorshift128+, low word then high word.
pub const JUMP_LO: u64 = 0x8a5cd789635d2dff;

pub const JUMP_HI: u64 = 0x121fd2155c472f96;

/// Bit `b` (0 to 127) of the jump polynomial.
pub open spec fn jump_bit(b: nat) -> bool {
    if b < 64 {
        (JUMP_LO >> (b as u64)) & 1u64 == 1u64
    } else {
        (JUMP_HI >> ((b - 64) as u64)) & 1u64 == 1u64
    }
}

/// The jump accumulation over polynomial bits `b..128`, starting from the
/// accumulator `acc` and the running state `cur`.
pub open spec fn jump_from(acc: (u64, u64), cur: (u64, u64), b: nat) -> (u64, u64)
    decreases 128 - b,
{
    if b >= 128 {
        acc
    } else {
        let acc2 = if jump_bit(b) {
            (acc.0 ^ cur.0, acc.1 ^ cur.1)
        } else {
            acc
        };
        jump_from(acc2, xs_step(cur), b + 1)
    }
}

/// The state reached by advancing `s` with the jump polynomial.
pub open spec fn xs_jump(s: (u64, u64)) -> (u64, u64) {
    jump_from((0u64, 0u64), s, 0)
}

/// Seed of lane `k`: the lane-0 seed jumped `k` times.
pub open spec fn lane_seed(seed: (u64, u64), k: nat) -> (u64, u64)
    decreases k,
{
    if k == 0 {
        seed
    } else {
        xs_jump(lane_seed(seed, (k - 1) as nat))
    }
}

/// Lane states after `n` draws of the lane-parallel generator.
pub open spec fn lanes_after(lanes: Seq<(u64, u64)>, n: nat) -> Seq<(u64, u64)>
    decreases n,
{
    if n == 0 {
        lanes
    } else {
        lanes_after(lanes, (n - 1) as nat).map_values(|s: (u64, u64)| xs_step(s))
    }
}

/// Advances the seed pair by one xorshift128+ transition.
pub fn xorshift128plus_onkeys(s0: &mut u64, s1: &mut u64)
    ensures
        (*final(s0), *final(s1)) == xs_step((*old(s0), *old(s1))),
{
    let s1_val = *s0;
    let s0_val = *s1;
    let t = s1_val ^ (s1_val << 23u64);
    *s0 = s0_val;
    *s1 = t ^ s0_val ^ (t >> 18u64) ^ (s0_val >> 5u64);
}

/// Draws one value from the scalar generator.
pub fn xorshift128plus(s0: &mut u64, s1: &mut u64) -> (r: u64)
    ensures
        (*final(s0), *final(s1)) == xs_step((*old(s0), *old(s1))),
        r == xs_output((*old(s0), *old(s1))),
{
    let prev = *s1;
    xorshift128plus_onkeys(s0, s1);
    s1.wrapping_add(prev)
}

/// Writes to the outputs the state `(in1, in2)` advanced by the jump polynomial.
pub fn xorshift128plus_jump_onkeys(in1: u64, in2: u64, output1: &mut u64, output2: &mut u64)
    ensures
        (*final(output1), *final(output2)) == xs_jump((in1, in2)),
{
    let jump: [u64; 2] = [JUMP_LO, JUMP_HI];
    let mut a0: u64 = 0;
    let mut a1: u64 = 0;
    let mut c0: u64 = in1;
    let mut c1: u64 = in2;
    let mut w: usize = 0;
    while w < 2
        invariant
            w <= 2,
            jump@ == seq![JUMP_LO, JUMP_HI],
            jump_from((a0, a1), (c0, c1), (64 * w) as nat) == xs_jump((in1, in2)),
        decreases 2 - w,
    {
        let word = jump[w];
        let mut b: u64 = 0;
        while b < 64
            invariant
                b <= 64,
                w < 2,
                word == (if w == 0 { JUMP_LO } else { JUMP_HI }),
                jump@ == seq![JUMP_LO, JUMP_HI],
                jump_from((a0, a1), (c0, c1), (64 * w + b) as nat) == xs_jump((in1, in2)),
            decreases 64 - b,
        {
            let set = (word >> b) & 1u64 == 1u64;
            assert(set == jump_bit((64 * w + b) as nat));
            if set {
                a0 = a0 ^ c0;
                a1 = a1 ^ c1;
            }
            xorshift128plus_onkeys(&mut c0, &mut c1);
            b = b + 1;
        }
        w = w + 1;
    }
    *output1 = a0;
    *output2 = a1;
}


/// The lane seeds `0..n` derived from one seed pair.
pub open spec fn seeded_lanes(seed: (u64, u64), n: nat) -> Seq<(u64, u64)> {
    Seq::new(n, |k: int| lane_seed(seed, k as nat))
}

pub proof fn lemma_lanes_after_len(lanes: Seq<(u64, u64)>, n: nat)
    ensures
        lanes_after(lanes, n).len() == lanes.len(),
    decreases n,
{
    if n > 0 {
        lemma_lanes_after_len(lanes, (n - 1) as nat);
    }
}

/// The lane-parallel generator is the scalar generator run in every lane:
/// after `n` draws, lane 0 holds exactly the scalar state after `n` steps
/// from the same seed, so lane 0 emits the scalar stream.
pub proof fn lemma_lane_zero_tracks_scalar(seed: (u64, u64), width: nat, n: nat)
    requires
        width >= 1,
    ensures
        lanes_after(seeded_lanes(seed, width), n).len() == width,
        lanes_after(seeded_lanes(seed, width), n)[0] == xs_iter(seed, n),
        xs_output(lanes_after(seeded_lanes(seed, width), n)[0]) == xs_output(xs_iter(seed, n)),
    decreases n,
{
    if n > 0 {
        lemma_lane_zero_tracks_scalar(seed, width, (n - 1) as nat);
    }
}

/// Lane pairs of two equally long state vectors.
pub open spec fn zip_lanes(lo_words: Seq<u64>, hi_words: Seq<u64>) -> Seq<(u64, u64)> {
    Seq::new(lo_words.len(), |i: int| (lo_words[i], hi_words[i]))
}

/// Fills two state vectors with the seeds of lanes `0..n`.
fn seed_lanes(key1: u64, key2: u64, n: usize) -> (r: (Vec<u64>, Vec<u64>))
    requires
        n >= 1,
    ensures
        r.0@.len() == n,
        r.1@.len() == n,
        zip_lanes(r.0@, r.1@) == seeded_lanes((key1, key2), n as nat),
{
    let mut lo_words: Vec<u64> = Vec::new();
    let mut hi_words: Vec<u64> = Vec::new();
    lo_words.push(key1);
    hi_words.push(key2);
    let mut k: usize = 1;
    while k < n
        invariant
            1 <= k <= n,
            lo_words@.len() == k,
            hi_words@.len() == k,
            forall|i: int| 0 <= i < k ==> (#[trigger] lo_words@[i], hi_words@[i]) == lane_seed((key1, key2), i as nat),
        decreases n - k,
    {
        let mut o1: u64 = 0;
        let mut o2: u64 = 0;
        xorshift128plus_jump_onkeys(lo_words[k - 1], hi_words[k - 1], &mut o1, &mut o2);
        lo_words.push(o1);
        hi_words.push(o2);
        k = k + 1;
    }
    assert(zip_lanes(lo_words@, hi_words@) =~= seeded_lanes((key1, key2), n as nat));
    (lo_words, hi_words)
}

/// Advances every lane by one transition and returns the lane outputs.
fn step_lanes(lo_words: &mut Vec<u64>, hi_words: &mut Vec<u64>) -> (r: Vec<u64>)
    requires
        old(lo_words)@.len() == old(hi_words)@.len(),
    ensures
        final(lo_words)@.len() == old(lo_words)@.len(),
        final(hi_words)@.len() == old(lo_words)@.len(),
        zip_lanes(final(lo_words)@, final(hi_words)@) == zip_lanes(old(lo_words)@, old(hi_words)@).map_values(
            |s: (u64, u64)| xs_step(s),
        ),
        r@ == zip_lanes(old(lo_words)@, old(hi_words)@).map_values(|s: (u64, u64)| xs_output(s)),
{
    let ghost start = zip_lanes(lo_words@, hi_words@);
    let n = lo_words.len();
    let mut out: Vec<u64> = Vec::new();
    let mut i: usize = 0;
    while i < n
        invariant
            n == start.len(),
            lo_words@.len() == n,
            hi_words@.len() == n,
            0 <= i <= n,
            out@.len() == i,
            forall|j: int| 0 <= j < i ==> (#[trigger] lo_words@[j], hi_words@[j]) == xs_step(start[j]),
            forall|j: int| i <= j < n ==> (#[trigger] lo_words@[j], hi_words@[j]) == start[j],
            forall|j: int| 0 <= j < i ==> #[trigger] out@[j] == xs_output(start[j]),
        decreases n - i,
    {
        let mut a = lo_words[i];
        let mut b = hi_words[i];
        let v = xorshift128plus(&mut a, &mut b);
        lo_words.set(i, a);
        hi_words.set(i, b);
        out.push(v);
        i = i + 1;
    }
    assert(zip_lanes(lo_words@, hi_words@) =~= start.map_values(|s: (u64, u64)| xs_step(s)));
    assert(out@ =~= start.map_values(|s: (u64, u64)| xs_output(s)));
    out
}

/// Generator state for four 64-bit lanes (one 256-bit vector).
pub struct AvxXorshift128PlusKey {
    pub part1: Vec<u64>,
    pub part2: Vec<u64>,
}

impl AvxXorshift128PlusKey {
    pub open spec fn wf(&self) -> bool {
        self.part1@.len() == 4 && self.part2@.len() == 4
    }

    /// The `(s[0], s[1])` state of each lane.
    pub open spec fn lanes(&self) -> Seq<(u64, u64)> {
        zip_lanes(self.part1@, self.part2@)
    }
}

/// Generator state for eight 64-bit lanes (one 512-bit vector).
pub struct Avx512Xorshift128PlusKey {
    pub part1: Vec<u64>,
    pub part2: Vec<u64>,
}

impl Avx512Xorshift128PlusKey {
    pub open spec fn wf(&self) -> bool {
        self.part1@.len() == 8 && self.part2@.len() == 8
    }

    /// The `(s[0], s[1])` state of each lane.
    pub open spec fn lanes(&self) -> Seq<(u64, u64)> {
        zip_lanes(self.part1@, self.part2@)
    }
}

/// Seeds the four lanes: lane 0 with `(key1, key2)`, each further lane with
/// the previous one advanced by the jump polynomial.
pub fn avx_xorshift128plus_init(key1: u64, key2: u64, key: &mut AvxXorshift128PlusKey)
    ensures
        final(key).wf(),
        final(key).lanes() == seeded_lanes((key1, key2), 4),
{
    let (lo_words, hi_words) = seed_lanes(key1, key2, 4);
    key.part1 = lo_words;
    key.part2 = hi_words;
}

/// Draws one vector: every lane takes one xorshift128+ step and emits its value.
pub fn avx_xorshift128plus(key: &mut AvxXorshift128PlusKey) -> (r: Vec<u64>)
    requires
        old(key).wf(),
    ensures
        final(key).wf(),
        final(key).lanes() == old(key).lanes().map_values(|s: (u64, u64)| xs_step(s)),
        r@ == old(key).lanes().map_values(|s: (u64, u64)| xs_output(s)),
{
    step_lanes(&mut key.part1, &mut key.part2)
}

/// Seeds the eight lanes: lane 0 with `(key1, key2)`, each further lane with
/// the previous one advanced by the jump polynomial.
pub fn avx512_xorshift128plus_init(key1: u64, key2: u64, key: &mut Avx512Xorshift128PlusKey)
    ensures
        final(key).wf(),
        final(key).lanes() == seeded_lanes((key1, key2), 8),
{
    let (lo_words, hi_words) = seed_lanes(key1, key2, 8);
    key.part1 = lo_words;
    key.part2 = hi_words;
}

/// Draws one vector: every lane takes one xorshift128+ step and emits its value.
pub fn avx512_xorshift128plus(key: &mut Avx512Xorshift128PlusKey) -> (r: Vec<u64>)
    requires
        old(key).wf(),
    ensures
        final(key).wf(),
        final(key).lanes() == old(key).lanes().map_values(|s: (u64, u64)| xs_step(s)),
        r@ == old(key).lanes().map_values(|s: (u64, u64)| xs_output(s)),
{
    step_lanes(&mut key.part1, &mut key.part2)
}

} // verus!
