//! The pattern library: the values each kernel writes and the sequence of
//! fill and verify sweeps it performs with them.
use vstd::prelude::*;
use crate::catalog::TestKind;

verus! {

/// A byte replicated into all eight bytes of a 64-bit lane.
pub open spec fn byte_splat(b: u8) -> u64 {
    let x = b as u64;
    x | (x << 8u64) | (x << 16u64) | (x << 24u64) | (x << 32u64) | (x << 40u64) | (x << 48u64) | (x
        << 56u64)
}

/// A 16-bit value replicated into all four halfwords of a 64-bit lane.
pub open spec fn word_splat(w: u16) -> u64 {
    let x = w as u64;
    x | (x << 16u64) | (x << 32u64) | (x << 48u64)
}

/// A 32-bit value replicated into both halves of a 64-bit lane.
pub open spec fn dword_splat(d: u32) -> u64 {
    let x = d as u64;
    x | (x << 32u64)
}

pub fn splat_byte(b: u8) -> (r: u64)
    ensures
        r == byte_splat(b),
{
    let x = b as u64;
    x | (x << 8u64) | (x << 16u64) | (x << 24u64) | (x << 32u64) | (x << 40u64) | (x << 48u64) | (x
        << 56u64)
}

pub fn splat_word(w: u16) -> (r: u64)
    ensures
        r == word_splat(w),
{
    let x = w as u64;
    x | (x << 16u64) | (x << 32u64) | (x << 48u64)
}

pub fn splat_dword(d: u32) -> (r: u64)
    ensures
        r == dword_splat(d),
{
    let x = d as u64;
    x | (x << 32u64)
}

/// Inverting a pattern is XOR with all ones.
pub proof fn lemma_xor_ones_is_inverse(p: u64)
    ensures
        p ^ 0xFFFF_FFFF_FFFF_FFFFu64 == !p,
{
    assert(p ^ 0xFFFF_FFFF_FFFF_FFFFu64 == !p) by (bit_vector);
}

/// The bytes of the basic test.
pub open spec fn basic_bytes() -> Seq<u8> {
    seq![0x00u8, 0xFF, 0x0F, 0xF0, 0x55, 0xAA]
}

/// The hand-picked bytes of the anti-pattern test, each beside its complement.
pub open spec fn anti_bytes() -> Seq<u8> {
    seq![
        0x00u8, 0xFF, 0x0F, 0xF0, 0x55, 0xAA, 0x33, 0xCC,
        0x11, 0xEE, 0x22, 0xDD, 0x44, 0xBB, 0x66, 0x99,
        0x77, 0x88, 0x01, 0xFE, 0x02, 0xFD, 0x04, 0xFB,
        0x08, 0xF7, 0x10, 0xEF, 0x20, 0xDF, 0x40, 0xBF,
        0x80, 0x7F,
    ]
}

pub open spec fn byte_splats(bs: Seq<u8>) -> Seq<u64> {
    bs.map_values(|b: u8| byte_splat(b))
}

/// The inverse data patterns: all ones with one byte, halfword or word cleared.
pub open spec fn inverse_data_values() -> Seq<u64> {
    Seq::new(8, |i: int| !0u64 ^ (0xFFu64 << ((8 * i) as u64))) + Seq::new(
        4,
        |i: int| !0u64 ^ (0xFFFFu64 << ((16 * i) as u64)),
    ) + Seq::new(2, |i: int| !0u64 ^ (0xFFFF_FFFFu64 << ((32 * i) as u64)))
}

/// The 64-bit lane value of each iteration of a kernel whose patterns are
/// fixed. Random inversions draw theirs and the checkerboard has none.
pub open spec fn kernel_scalars(kind: TestKind) -> Seq<u64> {
    match kind {
        TestKind::BasicTests => byte_splats(basic_bytes()),
        TestKind::MovingInversionsLeft64 => Seq::new(64, |k: int| 1u64 << (k as u64)),
        TestKind::MovingInversionsRight32 => Seq::new(
            32,
            |k: int| dword_splat(0x8000_0000u32 >> (k as u32)),
        ),
        TestKind::MovingInversionsLeft16 => Seq::new(16, |k: int| word_splat(1u16 << (k as u16))),
        TestKind::MovingInversionsRight8 => Seq::new(8, |k: int| byte_splat(0x80u8 >> (k as u8))),
        TestKind::MovingInversionsLeft4 => Seq::new(4, |k: int| byte_splat(0x11u8 << (k as u8))),
        TestKind::MovingSaturationsRight16 => Seq::new(
            16,
            |k: int| word_splat(0x8000u16 >> (k as u16)),
        ),
        TestKind::MovingSaturationsLeft8 => Seq::new(8, |k: int| word_splat(1u16 << (k as u16))),
        TestKind::Walking1 => Seq::new(64, |k: int| 1u64 << (k as u64)),
        TestKind::Walking0 => Seq::new(64, |k: int| !(1u64 << (k as u64))),
        TestKind::AntiPatterns => byte_splats(anti_bytes()),
        TestKind::InverseDataPatterns => inverse_data_values(),
        TestKind::RandomInversions => Seq::empty(),
        TestKind::Checkerboard => Seq::empty(),
    }
}

fn splat_bytes(bs: &Vec<u8>) -> (r: Vec<u64>)
    ensures
        r@ == byte_splats(bs@),
{
    let mut r: Vec<u64> = Vec::new();
    let mut i: usize = 0;
    while i < bs.len()
        invariant
            0 <= i <= bs@.len(),
            r@.len() == i,
            forall|j: int| 0 <= j < i ==> #[trigger] r@[j] == byte_splat(bs@[j]),
        decreases bs@.len() - i,
    {
        r.push(splat_byte(bs[i]));
        i = i + 1;
    }
    assert(r@ =~= byte_splats(bs@));
    r
}

/// `1 << k` for `k` in `0..64`, each inverted when `invert` holds.
fn single_bits(invert: bool) -> (r: Vec<u64>)
    ensures
        r@ == Seq::new(64, |k: int| if invert { !(1u64 << (k as u64)) } else { 1u64 << (k as u64) }),
{
    let mut r: Vec<u64> = Vec::new();
    let mut k: u64 = 0;
    while k < 64
        invariant
            k <= 64,
            r@.len() == k,
            forall|j: int|
                0 <= j < k ==> #[trigger] r@[j] == (if invert {
                    !(1u64 << (j as u64))
                } else {
                    1u64 << (j as u64)
                }),
        decreases 64 - k,
    {
        let v = 1u64 << k;
        r.push(if invert { !v } else { v });
        k = k + 1;
    }
    assert(r@ =~= Seq::new(
        64,
        |k: int| if invert { !(1u64 << (k as u64)) } else { 1u64 << (k as u64) },
    ));
    r
}

/// Halfword splats of `1 << k` for `k` in `0..n`.
fn halfword_bits_left(n: u16) -> (r: Vec<u64>)
    requires
        n <= 16,
    ensures
        r@ == Seq::new(n as nat, |k: int| word_splat(1u16 << (k as u16))),
{
    let mut r: Vec<u64> = Vec::new();
    let mut k: u16 = 0;
    while k < n
        invariant
            k <= n <= 16,
            r@.len() == k,
            forall|j: int| 0 <= j < k ==> #[trigger] r@[j] == word_splat(1u16 << (j as u16)),
        decreases n - k,
    {
        r.push(splat_word(1u16 << k));
        k = k + 1;
    }
    assert(r@ =~= Seq::new(n as nat, |k: int| word_splat(1u16 << (k as u16))));
    r
}

/// The lane values of a kernel with fixed patterns, in iteration order.
pub fn kernel_values(kind: TestKind) -> (r: Vec<u64>)
    ensures
        r@ == kernel_scalars(kind),
{
    match kind {
        TestKind::BasicTests => splat_bytes(&vec![0x00u8, 0xFF, 0x0F, 0xF0, 0x55, 0xAA]),
        TestKind::AntiPatterns => splat_bytes(
            &vec![
                0x00u8, 0xFF, 0x0F, 0xF0, 0x55, 0xAA, 0x33, 0xCC,
                0x11, 0xEE, 0x22, 0xDD, 0x44, 0xBB, 0x66, 0x99,
                0x77, 0x88, 0x01, 0xFE, 0x02, 0xFD, 0x04, 0xFB,
                0x08, 0xF7, 0x10, 0xEF, 0x20, 0xDF, 0x40, 0xBF,
                0x80, 0x7F,
            ],
        ),
        TestKind::MovingInversionsLeft64 => single_bits(false),
        TestKind::Walking1 => single_bits(false),
        TestKind::Walking0 => single_bits(true),
        TestKind::MovingInversionsLeft16 => halfword_bits_left(16),
        TestKind::MovingSaturationsLeft8 => halfword_bits_left(8),
        TestKind::MovingInversionsRight32 => {
            let mut r: Vec<u64> = Vec::new();
            let mut k: u32 = 0;
            while k < 32
                invariant
                    k <= 32,
                    r@.len() == k,
                    forall|j: int|
                        0 <= j < k ==> #[trigger] r@[j] == dword_splat(0x8000_0000u32 >> (j as u32)),
                decreases 32 - k,
            {
                r.push(splat_dword(0x8000_0000u32 >> k));
                k = k + 1;
            }
            assert(r@ =~= kernel_scalars(kind));
            r
        },
        TestKind::MovingSaturationsRight16 => {
            let mut r: Vec<u64> = Vec::new();
            let mut k: u16 = 0;
            while k < 16
                invariant
                    k <= 16,
                    r@.len() == k,
                    forall|j: int|
                        0 <= j < k ==> #[trigger] r@[j] == word_splat(0x8000u16 >> (j as u16)),
                decreases 16 - k,
            {
                r.push(splat_word(0x8000u16 >> k));
                k = k + 1;
            }
            assert(r@ =~= kernel_scalars(kind));
            r
        },
        TestKind::MovingInversionsRight8 => {
            let mut r: Vec<u64> = Vec::new();
            let mut k: u8 = 0;
            while k < 8
                invariant
                    k <= 8,
                    r@.len() == k,
                    forall|j: int| 0 <= j < k ==> #[trigger] r@[j] == byte_splat(0x80u8 >> (j as u8)),
                decreases 8 - k,
            {
                r.push(splat_byte(0x80u8 >> k));
                k = k + 1;
            }
            assert(r@ =~= kernel_scalars(kind));
            r
        },
        TestKind::MovingInversionsLeft4 => {
            let mut r: Vec<u64> = Vec::new();
            let mut k: u8 = 0;
            while k < 4
                invariant
                    k <= 4,
                    r@.len() == k,
                    forall|j: int| 0 <= j < k ==> #[trigger] r@[j] == byte_splat(0x11u8 << (j as u8)),
                decreases 4 - k,
            {
                r.push(splat_byte(0x11u8 << k));
                k = k + 1;
            }
            assert(r@ =~= kernel_scalars(kind));
            r
        },
        TestKind::InverseDataPatterns => {
            let mut r: Vec<u64> = Vec::new();
            let mut i: u64 = 0;
            while i < 8
                invariant
                    i <= 8,
                    r@.len() == i,
                    forall|j: int| 0 <= j < i ==> #[trigger] r@[j] == !0u64 ^ (0xFFu64 << ((8 * j) as u64)),
                decreases 8 - i,
            {
                r.push(!0u64 ^ (0xFFu64 << (8 * i)));
                i = i + 1;
            }
            let mut i: u64 = 0;
            while i < 4
                invariant
                    i <= 4,
                    r@.len() == 8 + i,
                    forall|j: int| 0 <= j < 8 ==> #[trigger] r@[j] == !0u64 ^ (0xFFu64 << ((8 * j) as u64)),
                    forall|j: int|
                        8 <= j < 8 + i ==> #[trigger] r@[j] == !0u64 ^ (0xFFFFu64 << ((16 * (j - 8)) as u64)),
                decreases 4 - i,
            {
                r.push(!0u64 ^ (0xFFFFu64 << (16 * i)));
                i = i + 1;
            }
            let mut i: u64 = 0;
            while i < 2
                invariant
                    i <= 2,
                    r@.len() == 12 + i,
                    forall|j: int| 0 <= j < 8 ==> #[trigger] r@[j] == !0u64 ^ (0xFFu64 << ((8 * j) as u64)),
                    forall|j: int|
                        8 <= j < 12 ==> #[trigger] r@[j] == !0u64 ^ (0xFFFFu64 << ((16 * (j - 8)) as u64)),
                    forall|j: int|
                        12 <= j < 12 + i ==> #[trigger] r@[j] == !0u64 ^ (0xFFFF_FFFFu64 << ((32 * (j
                            - 12)) as u64)),
                decreases 2 - i,
            {
                r.push(!0u64 ^ (0xFFFF_FFFFu64 << (32 * i)));
                i = i + 1;
            }
            assert(r@ =~= kernel_scalars(kind));
            r
        },
        TestKind::RandomInversions => Vec::new(),
        TestKind::Checkerboard => Vec::new(),
    }
}


/// The four sweep primitives: a fill or a verify, in ascending or
/// descending address order within each chunk.
#[derive(Clone, Copy, Debug, PartialEq, Eq, Structural)]
pub enum SweepOp {
    FillUp,
    VerifyUp,
    FillDown,
    VerifyDown,
}

impl SweepOp {
    pub open spec fn is_fill(self) -> bool {
        self is FillUp || self is FillDown
    }
}

/// One sweep over the whole buffer. Vector slot `k` (counted from the buffer
/// base) gets `even` when `k` is even and `odd` when it is odd; each is one
/// vector, a 64-bit value per lane.
pub struct SweepStep {
    pub op: SweepOp,
    pub even: Vec<u64>,
    pub odd: Vec<u64>,
}

/// What a sweep step stands for.
pub struct StepView {
    pub op: SweepOp,
    pub even: Seq<u64>,
    pub odd: Seq<u64>,
}

impl View for SweepStep {
    type V = StepView;

    open spec fn view(&self) -> StepView {
        StepView { op: self.op, even: self.even@, odd: self.odd@ }
    }
}

pub open spec fn plan_view(steps: Seq<SweepStep>) -> Seq<StepView> {
    steps.map_values(|s: SweepStep| s@)
}

/// A scalar in every lane.
pub open spec fn splat(x: u64, lanes: nat) -> Seq<u64> {
    Seq::new(lanes, |_i: int| x)
}

/// The bitwise complement of a vector.
pub open spec fn invert(v: Seq<u64>) -> Seq<u64> {
    v.map_values(|x: u64| !x)
}

/// A step that writes or checks the same vector in every slot.
pub open spec fn uniform(op: SweepOp, v: Seq<u64>) -> StepView {
    StepView { op, even: v, odd: v }
}

/// Pattern, then its complement, both ascending.
pub open spec fn inversion_shape(v: Seq<u64>) -> Seq<StepView> {
    seq![
        uniform(SweepOp::FillUp, v),
        uniform(SweepOp::VerifyUp, v),
        uniform(SweepOp::FillUp, invert(v)),
        uniform(SweepOp::VerifyUp, invert(v)),
    ]
}

/// Pattern ascending, then descending.
pub open spec fn basic_shape(v: Seq<u64>) -> Seq<StepView> {
    seq![
        uniform(SweepOp::FillUp, v),
        uniform(SweepOp::VerifyUp, v),
        uniform(SweepOp::FillDown, v),
        uniform(SweepOp::VerifyDown, v),
    ]
}

/// Pattern, zeros, pattern, ones: every cell flips polarity around the pattern.
pub open spec fn saturation_shape(v: Seq<u64>, lanes: nat) -> Seq<StepView> {
    seq![
        uniform(SweepOp::FillUp, v),
        uniform(SweepOp::VerifyUp, v),
        uniform(SweepOp::FillUp, splat(0, lanes)),
        uniform(SweepOp::VerifyUp, splat(0, lanes)),
        uniform(SweepOp::FillUp, v),
        uniform(SweepOp::VerifyUp, v),
        uniform(SweepOp::FillUp, splat(!0u64, lanes)),
        uniform(SweepOp::VerifyUp, splat(!0u64, lanes)),
    ]
}

/// Pattern and complement ascending, then both descending.
pub open spec fn anti_shape(v: Seq<u64>) -> Seq<StepView> {
    seq![
        uniform(SweepOp::FillUp, v),
        uniform(SweepOp::VerifyUp, v),
        uniform(SweepOp::FillUp, invert(v)),
        uniform(SweepOp::VerifyUp, invert(v)),
        uniform(SweepOp::FillDown, v),
        uniform(SweepOp::VerifyDown, v),
        uniform(SweepOp::FillDown, invert(v)),
        uniform(SweepOp::VerifyDown, invert(v)),
    ]
}

/// The steps one iteration of `kind` performs with vector `v`.
pub open spec fn shape_of(kind: TestKind, v: Seq<u64>, lanes: nat) -> Seq<StepView> {
    match kind {
        TestKind::BasicTests => basic_shape(v),
        TestKind::MovingSaturationsRight16 => saturation_shape(v, lanes),
        TestKind::MovingSaturationsLeft8 => saturation_shape(v, lanes),
        TestKind::AntiPatterns => anti_shape(v),
        _ => inversion_shape(v),
    }
}

/// The iterations of `kind` over the vectors `vs`, one after another.
pub open spec fn shapes_of(kind: TestKind, vs: Seq<Seq<u64>>, lanes: nat) -> Seq<StepView>
    decreases vs.len(),
{
    if vs.len() == 0 {
        Seq::empty()
    } else {
        shapes_of(kind, vs.drop_last(), lanes) + shape_of(kind, vs.last(), lanes)
    }
}

/// 0x55 in even slots and 0xAA in odd ones, then the other way round.
pub open spec fn checkerboard_plan(lanes: nat) -> Seq<StepView> {
    let a = splat(byte_splat(0xAA), lanes);
    let b = splat(byte_splat(0x55), lanes);
    seq![
        StepView { op: SweepOp::FillUp, even: b, odd: a },
        StepView { op: SweepOp::VerifyUp, even: b, odd: a },
        StepView { op: SweepOp::FillUp, even: a, odd: b },
        StepView { op: SweepOp::VerifyUp, even: a, odd: b },
    ]
}

/// The sweeps of one call of the kernel of `kind` on vectors of `lanes`
/// lanes; `draws` are the generator's vectors, used by random inversions.
pub open spec fn kernel_plan_spec(kind: TestKind, lanes: nat, draws: Seq<Seq<u64>>) -> Seq<
    StepView,
> {
    match kind {
        TestKind::Checkerboard => checkerboard_plan(lanes),
        TestKind::RandomInversions => shapes_of(kind, draws, lanes),
        _ => shapes_of(kind, kernel_scalars(kind).map_values(|x: u64| splat(x, lanes)), lanes),
    }
}

fn splat_vec(x: u64, lanes: usize) -> (r: Vec<u64>)
    ensures
        r@ == splat(x, lanes as nat),
{
    let mut r: Vec<u64> = Vec::new();
    let mut i: usize = 0;
    while i < lanes
        invariant
            i <= lanes,
            r@.len() == i,
            forall|j: int| 0 <= j < i ==> #[trigger] r@[j] == x,
        decreases lanes - i,
    {
        r.push(x);
        i = i + 1;
    }
    assert(r@ =~= splat(x, lanes as nat));
    r
}

fn copy_vec(v: &Vec<u64>) -> (r: Vec<u64>)
    ensures
        r@ == v@,
{
    let mut r: Vec<u64> = Vec::new();
    let mut i: usize = 0;
    while i < v.len()
        invariant
            i <= v@.len(),
            r@ == v@.subrange(0, i as int),
        decreases v@.len() - i,
    {
        r.push(v[i]);
        i = i + 1;
        assert(r@ =~= v@.subrange(0, i as int));
    }
    assert(r@ =~= v@);
    r
}

/// The complement of a vector, lane by lane, taken as XOR with all ones.
pub fn invert_vec(v: &Vec<u64>) -> (r: Vec<u64>)
    ensures
        r@ == invert(v@),
{
    let mut r: Vec<u64> = Vec::new();
    let mut i: usize = 0;
    while i < v.len()
        invariant
            i <= v@.len(),
            r@.len() == i,
            forall|j: int| 0 <= j < i ==> #[trigger] r@[j] == !v@[j],
        decreases v@.len() - i,
    {
        let x = v[i];
        proof {
            lemma_xor_ones_is_inverse(x);
        }
        r.push(x ^ 0xFFFF_FFFF_FFFF_FFFFu64);
        i = i + 1;
    }
    assert(r@ =~= invert(v@));
    r
}

fn push_uniform(plan: &mut Vec<SweepStep>, op: SweepOp, v: &Vec<u64>)
    ensures
        plan_view(final(plan)@) == plan_view(old(plan)@).push(uniform(op, v@)),
{
    let step = SweepStep { op, even: copy_vec(v), odd: copy_vec(v) };
    plan.push(step);
    assert(plan_view(plan@) =~= plan_view(old(plan)@).push(uniform(op, v@)));
}

/// Appends the steps of one iteration of `kind` with vector `v`.
fn push_shape(plan: &mut Vec<SweepStep>, kind: TestKind, v: &Vec<u64>, lanes: usize)
    ensures
        plan_view(final(plan)@) == plan_view(old(plan)@) + shape_of(kind, v@, lanes as nat),
{
    let ghost start = plan_view(plan@);
    match kind {
        TestKind::BasicTests => {
            push_uniform(plan, SweepOp::FillUp, v);
            push_uniform(plan, SweepOp::VerifyUp, v);
            push_uniform(plan, SweepOp::FillDown, v);
            push_uniform(plan, SweepOp::VerifyDown, v);
        },
        TestKind::MovingSaturationsRight16 | TestKind::MovingSaturationsLeft8 => {
            let zeros = splat_vec(0, lanes);
            let ones = splat_vec(!0u64, lanes);
            push_uniform(plan, SweepOp::FillUp, v);
            push_uniform(plan, SweepOp::VerifyUp, v);
            push_uniform(plan, SweepOp::FillUp, &zeros);
            push_uniform(plan, SweepOp::VerifyUp, &zeros);
            push_uniform(plan, SweepOp::FillUp, v);
            push_uniform(plan, SweepOp::VerifyUp, v);
            push_uniform(plan, SweepOp::FillUp, &ones);
            push_uniform(plan, SweepOp::VerifyUp, &ones);
        },
        TestKind::AntiPatterns => {
            let nv = invert_vec(v);
            push_uniform(plan, SweepOp::FillUp, v);
            push_uniform(plan, SweepOp::VerifyUp, v);
            push_uniform(plan, SweepOp::FillUp, &nv);
            push_uniform(plan, SweepOp::VerifyUp, &nv);
            push_uniform(plan, SweepOp::FillDown, v);
            push_uniform(plan, SweepOp::VerifyDown, v);
            push_uniform(plan, SweepOp::FillDown, &nv);
            push_uniform(plan, SweepOp::VerifyDown, &nv);
        },
        _ => {
            let nv = invert_vec(v);
            push_uniform(plan, SweepOp::FillUp, v);
            push_uniform(plan, SweepOp::VerifyUp, v);
            push_uniform(plan, SweepOp::FillUp, &nv);
            push_uniform(plan, SweepOp::VerifyUp, &nv);
        },
    }
    assert(plan_view(plan@) =~= start + shape_of(kind, v@, lanes as nat));
}

/// The iterations of `kind` over the vectors `vs`.
fn shapes(kind: TestKind, vs: &Vec<Vec<u64>>, lanes: usize) -> (r: Vec<SweepStep>)
    ensures
        plan_view(r@) == shapes_of(kind, vs@.map_values(|v: Vec<u64>| v@), lanes as nat),
{
    let ghost views = vs@.map_values(|v: Vec<u64>| v@);
    let mut plan: Vec<SweepStep> = Vec::new();
    let mut i: usize = 0;
    while i < vs.len()
        invariant
            i <= vs@.len(),
            views == vs@.map_values(|v: Vec<u64>| v@),
            plan_view(plan@) == shapes_of(kind, views.subrange(0, i as int), lanes as nat),
        decreases vs@.len() - i,
    {
        push_shape(&mut plan, kind, &vs[i], lanes);
        proof {
            let pre = views.subrange(0, i as int + 1);
            assert(pre.drop_last() =~= views.subrange(0, i as int));
        }
        i = i + 1;
    }
    assert(views.subrange(0, vs@.len() as int) =~= views);
    plan
}

/// The sweeps of one call of the kernel of `kind` on vectors of `lanes`
/// lanes. Random inversions use `draws`, the generator's vectors, in order.
pub fn kernel_plan(kind: TestKind, lanes: usize, draws: &Vec<Vec<u64>>) -> (r: Vec<SweepStep>)
    ensures
        plan_view(r@) == kernel_plan_spec(
            kind,
            lanes as nat,
            draws@.map_values(|v: Vec<u64>| v@),
        ),
{
    match kind {
        TestKind::Checkerboard => {
            let a = splat_vec(splat_byte(0xAA), lanes);
            let b = splat_vec(splat_byte(0x55), lanes);
            let mut plan: Vec<SweepStep> = Vec::new();
            plan.push(SweepStep { op: SweepOp::FillUp, even: copy_vec(&b), odd: copy_vec(&a) });
            plan.push(SweepStep { op: SweepOp::VerifyUp, even: copy_vec(&b), odd: copy_vec(&a) });
            plan.push(SweepStep { op: SweepOp::FillUp, even: copy_vec(&a), odd: copy_vec(&b) });
            plan.push(SweepStep { op: SweepOp::VerifyUp, even: copy_vec(&a), odd: copy_vec(&b) });
            assert(plan_view(plan@) =~= checkerboard_plan(lanes as nat));
            plan
        },
        TestKind::RandomInversions => shapes(kind, draws, lanes),
        _ => {
            let xs = kernel_values(kind);
            let mut vs: Vec<Vec<u64>> = Vec::new();
            let mut i: usize = 0;
            while i < xs.len()
                invariant
                    i <= xs@.len(),
                    xs@ == kernel_scalars(kind),
                    vs@.len() == i,
                    forall|j: int| 0 <= j < i ==> (#[trigger] vs@[j])@ == splat(xs@[j], lanes as nat),
                decreases xs@.len() - i,
            {
                vs.push(splat_vec(xs[i], lanes));
                i = i + 1;
            }
            assert(vs@.map_values(|v: Vec<u64>| v@) =~= kernel_scalars(kind).map_values(
                |x: u64| splat(x, lanes as nat),
            ));
            shapes(kind, &vs, lanes)
        },
    }
}

} // verus!
