//! Running the fourteen kernels on a buffer, and why each one reads back
//! clean on a fault-free buffer.
use vstd::prelude::*;
use crate::catalog::TestKind;
use crate::hardware::InstructionSet;
use crate::xorshift::{
    avx512_xorshift128plus, avx512_xorshift128plus_init, avx_xorshift128plus,
    avx_xorshift128plus_init, lanes_after, seeded_lanes, lemma_lanes_after_len, xs_output, xs_step,
    Avx512Xorshift128PlusKey, AvxXorshift128PlusKey,
};
use crate::pattern::{kernel_plan, plan_view, byte_splat, invert, kernel_plan_spec, kernel_scalars, shape_of, shapes_of, splat, StepView};
use crate::sweep::{layout_ok, run_plan, sweep_effect, filled, lemma_fill_verify_fixpoint, lemma_run_keeps_len, plan_fits, run_spec, step_fits, Miscompare};

verus! {

/// Fills and verifies alternate, each verify checking the vectors of the
/// fill just before it.
pub open spec fn paired(plan: Seq<StepView>) -> bool {
    &&& plan.len() % 2 == 0
    &&& forall|m: int|
        0 <= m < plan.len() / 2 ==> {
            &&& (#[trigger] plan[2 * m]).op.is_fill()
            &&& !plan[2 * m + 1].op.is_fill()
            &&& plan[2 * m + 1].even == plan[2 * m].even
            &&& plan[2 * m + 1].odd == plan[2 * m].odd
        }
}

pub proof fn lemma_paired_concat(a: Seq<StepView>, b: Seq<StepView>)
    requires
        paired(a),
        paired(b),
    ensures
        paired(a + b),
{
    let c = a + b;
    assert forall|m: int| 0 <= m < c.len() / 2 implies {
        &&& (#[trigger] c[2 * m]).op.is_fill()
        &&& !c[2 * m + 1].op.is_fill()
        &&& c[2 * m + 1].even == c[2 * m].even
        &&& c[2 * m + 1].odd == c[2 * m].odd
    } by {
        if m < a.len() / 2 {
            assert(c[2 * m] == a[2 * m]);
            assert(c[2 * m + 1] == a[2 * m + 1]);
        } else {
            let k = m - a.len() / 2;
            assert(c[2 * m] == b[2 * k]);
            assert(c[2 * m + 1] == b[2 * k + 1]);
        }
    }
}

pub proof fn lemma_plan_fits_concat(a: Seq<StepView>, b: Seq<StepView>, lanes: nat)
    requires
        plan_fits(a, lanes),
        plan_fits(b, lanes),
    ensures
        plan_fits(a + b, lanes),
{
    assert forall|i: int| 0 <= i < (a + b).len() implies step_fits(
        #[trigger] (a + b)[i].even,
        (a + b)[i].odd,
        lanes,
    ) by {
        if i < a.len() {
            assert((a + b)[i] == a[i]);
        } else {
            assert((a + b)[i] == b[i - a.len()]);
        }
    }
}

/// One iteration of any kernel is paired and fits its vectors.
pub proof fn lemma_shape_paired(kind: TestKind, v: Seq<u64>, lanes: nat)
    requires
        v.len() == lanes,
        lanes >= 1,
    ensures
        paired(shape_of(kind, v, lanes)),
        plan_fits(shape_of(kind, v, lanes), lanes),
        shape_of(kind, v, lanes).len() > 0,
{
    let sh = shape_of(kind, v, lanes);
    assert(invert(v).len() == lanes);
    assert(splat(0, lanes).len() == lanes);
    assert(splat(!0u64, lanes).len() == lanes);
    assert forall|m: int| 0 <= m < sh.len() / 2 implies {
        &&& (#[trigger] sh[2 * m]).op.is_fill()
        &&& !sh[2 * m + 1].op.is_fill()
        &&& sh[2 * m + 1].even == sh[2 * m].even
        &&& sh[2 * m + 1].odd == sh[2 * m].odd
    } by {
        assert(m == 0 || m == 1 || m == 2 || m == 3);
    }
}

/// The iterations of a kernel over any vectors of the right width are
/// paired and fit.
pub proof fn lemma_shapes_paired(kind: TestKind, vs: Seq<Seq<u64>>, lanes: nat)
    requires
        lanes >= 1,
        forall|i: int| 0 <= i < vs.len() ==> (#[trigger] vs[i]).len() == lanes,
    ensures
        paired(shapes_of(kind, vs, lanes)),
        plan_fits(shapes_of(kind, vs, lanes), lanes),
        vs.len() > 0 ==> shapes_of(kind, vs, lanes).len() > 0,
    decreases vs.len(),
{
    if vs.len() > 0 {
        lemma_shapes_paired(kind, vs.drop_last(), lanes);
        lemma_shape_paired(kind, vs.last(), lanes);
        lemma_paired_concat(shapes_of(kind, vs.drop_last(), lanes), shape_of(kind, vs.last(), lanes));
        lemma_plan_fits_concat(
            shapes_of(kind, vs.drop_last(), lanes),
            shape_of(kind, vs.last(), lanes),
            lanes,
        );
    }
}

/// A paired plan reports nothing and leaves the buffer as its last fill
/// wrote it.
pub proof fn lemma_paired_run_clean(mem: Seq<u64>, plan: Seq<StepView>, lanes: nat)
    requires
        paired(plan),
        plan_fits(plan, lanes),
    ensures
        run_spec(mem, plan, lanes).1 == Seq::<Miscompare>::empty(),
        plan.len() > 0 ==> run_spec(mem, plan, lanes).0 == filled(
            mem.len(),
            plan.last().even,
            plan.last().odd,
            lanes,
        ),
        plan.len() == 0 ==> run_spec(mem, plan, lanes).0 == mem,
    decreases plan.len(),
{
    if plan.len() > 0 {
        let n = plan.len();
        let front = plan.drop_last().drop_last();
        let m = (n / 2 - 1) as int;
        assert(plan[2 * m].op.is_fill());
        assert(plan[n - 2] == plan[2 * m]);
        assert(paired(front)) by {
            assert forall|k: int| 0 <= k < front.len() / 2 implies {
                &&& (#[trigger] front[2 * k]).op.is_fill()
                &&& !front[2 * k + 1].op.is_fill()
                &&& front[2 * k + 1].even == front[2 * k].even
                &&& front[2 * k + 1].odd == front[2 * k].odd
            } by {
                assert(front[2 * k] == plan[2 * k]);
                assert(front[2 * k + 1] == plan[2 * k + 1]);
            }
        }
        assert(plan_fits(front, lanes)) by {
            assert forall|i: int| 0 <= i < front.len() implies step_fits(
                #[trigger] front[i].even,
                front[i].odd,
                lanes,
            ) by {
                assert(front[i] == plan[i]);
            }
        }
        lemma_paired_run_clean(mem, front, lanes);
        lemma_run_keeps_len(mem, front, lanes);
        let before = run_spec(mem, front, lanes);
        let fill = plan[n - 2];
        let check = plan[n - 1];
        assert(plan.drop_last().last() == fill);
        assert(step_fits(plan[n - 2].even, plan[n - 2].odd, lanes));
        assert(plan[n - 1] == plan[2 * m + 1]);
        lemma_fill_verify_fixpoint(before.0, fill, check, lanes);
        let e = Seq::<Miscompare>::empty();
        assert(e + e =~= e);
        let mid = run_spec(mem, plan.drop_last(), lanes);
        assert(plan.drop_last().drop_last() == front);
        assert(mid == (
            sweep_effect(before.0, fill, lanes).0,
            before.1 + sweep_effect(before.0, fill, lanes).1,
        ));
        assert(sweep_effect(before.0, fill, lanes).1 == e);
        assert(run_spec(mem, plan, lanes) == (
            sweep_effect(mid.0, check, lanes).0,
            mid.1 + sweep_effect(mid.0, check, lanes).1,
        ));
    }
}

/// Every kernel, run on any buffer with generator vectors of the right
/// width, reports no mismatch on a fault-free buffer, and leaves the buffer
/// as its last fill wrote it.
pub proof fn lemma_kernel_clean(kind: TestKind, lanes: nat, draws: Seq<Seq<u64>>, mem: Seq<u64>)
    requires
        lanes >= 1,
        forall|i: int| 0 <= i < draws.len() ==> (#[trigger] draws[i]).len() == lanes,
    ensures
        paired(kernel_plan_spec(kind, lanes, draws)),
        plan_fits(kernel_plan_spec(kind, lanes, draws), lanes),
        run_spec(mem, kernel_plan_spec(kind, lanes, draws), lanes).1 == Seq::<Miscompare>::empty(),
        kernel_plan_spec(kind, lanes, draws).len() > 0 ==> run_spec(
            mem,
            kernel_plan_spec(kind, lanes, draws),
            lanes,
        ).0 == filled(
            mem.len(),
            kernel_plan_spec(kind, lanes, draws).last().even,
            kernel_plan_spec(kind, lanes, draws).last().odd,
            lanes,
        ),
{
    let plan = kernel_plan_spec(kind, lanes, draws);
    match kind {
        TestKind::Checkerboard => {
            let a = splat(byte_splat(0xAA), lanes);
            let b = splat(byte_splat(0x55), lanes);
            assert(a.len() == lanes && b.len() == lanes);
            assert forall|m: int| 0 <= m < plan.len() / 2 implies {
                &&& (#[trigger] plan[2 * m]).op.is_fill()
                &&& !plan[2 * m + 1].op.is_fill()
                &&& plan[2 * m + 1].even == plan[2 * m].even
                &&& plan[2 * m + 1].odd == plan[2 * m].odd
            } by {
                assert(m == 0 || m == 1);
            }
        },
        TestKind::RandomInversions => {
            lemma_shapes_paired(kind, draws, lanes);
        },
        _ => {
            let vs = kernel_scalars(kind).map_values(|x: u64| splat(x, lanes));
            lemma_shapes_paired(kind, vs, lanes);
        },
    }
    lemma_paired_run_clean(mem, plan, lanes);
}


/// The pattern generator of a run, four lanes wide on the 256-bit path and
/// eight on the 512-bit path.
pub enum LaneRng {
    Avx(AvxXorshift128PlusKey),
    Avx512(Avx512Xorshift128PlusKey),
}

impl LaneRng {
    pub open spec fn wf(&self) -> bool {
        match self {
            LaneRng::Avx(k) => k.wf(),
            LaneRng::Avx512(k) => k.wf(),
        }
    }

    /// The state of every lane.
    pub open spec fn lane_states(&self) -> Seq<(u64, u64)> {
        match self {
            LaneRng::Avx(k) => k.lanes(),
            LaneRng::Avx512(k) => k.lanes(),
        }
    }

    /// 64-bit lanes per vector.
    pub open spec fn width(&self) -> nat {
        match self {
            LaneRng::Avx(_) => 4,
            LaneRng::Avx512(_) => 8,
        }
    }

    pub fn lanes(&self) -> (r: usize)
        ensures
            r == self.width(),
    {
        match self {
            LaneRng::Avx(_) => 4,
            LaneRng::Avx512(_) => 8,
        }
    }

    /// Draws one vector.
    pub fn draw(&mut self) -> (r: Vec<u64>)
        requires
            old(self).wf(),
        ensures
            final(self).wf(),
            final(self).width() == old(self).width(),
            final(self).lane_states() == old(self).lane_states().map_values(
                |s: (u64, u64)| xs_step(s),
            ),
            r@ == old(self).lane_states().map_values(|s: (u64, u64)| xs_output(s)),
            r@.len() == old(self).width(),
    {
        match self {
            LaneRng::Avx(k) => avx_xorshift128plus(k),
            LaneRng::Avx512(k) => avx512_xorshift128plus(k),
        }
    }
}

/// The generator of a run on path `isa`, its lane 0 seeded with
/// `(key1, key2)`; none without SIMD or with two zero seeds.
pub fn seeded_rng(isa: InstructionSet, key1: u64, key2: u64) -> (r: Option<LaneRng>)
    ensures
        r is Some <==> isa != InstructionSet::SSE && !(key1 == 0 && key2 == 0),
        r matches Some(g) ==> g.wf() && g.lane_states() == seeded_lanes((key1, key2), g.width())
            && (isa == InstructionSet::AVX512 ==> g.width() == 8) && (isa == InstructionSet::AVX2
            ==> g.width() == 4),
{
    if key1 == 0 && key2 == 0 {
        return None;
    }
    match isa {
        InstructionSet::AVX512 => {
            let mut k = Avx512Xorshift128PlusKey { part1: Vec::new(), part2: Vec::new() };
            avx512_xorshift128plus_init(key1, key2, &mut k);
            Some(LaneRng::Avx512(k))
        },
        InstructionSet::AVX2 => {
            let mut k = AvxXorshift128PlusKey { part1: Vec::new(), part2: Vec::new() };
            avx_xorshift128plus_init(key1, key2, &mut k);
            Some(LaneRng::Avx(k))
        },
        InstructionSet::SSE => None,
    }
}

/// The vector emitted by draw `i` from lane states `st`.
pub open spec fn nth_draw(st: Seq<(u64, u64)>, i: nat) -> Seq<u64> {
    lanes_after(st, i).map_values(|s: (u64, u64)| xs_output(s))
}

/// Random inversions draw sixteen vectors.
pub const RANDOM_DRAWS: usize = 16;

/// The generator vectors a call of the kernel of `kind` consumes.
pub open spec fn kernel_draws(kind: TestKind, st: Seq<(u64, u64)>) -> Seq<Seq<u64>> {
    if kind == TestKind::RandomInversions {
        Seq::new(RANDOM_DRAWS as nat, |i: int| nth_draw(st, i as nat))
    } else {
        Seq::empty()
    }
}

/// Draws `count` vectors in order.
pub fn draw_vectors(rng: &mut LaneRng, count: usize) -> (r: Vec<Vec<u64>>)
    requires
        old(rng).wf(),
    ensures
        final(rng).wf(),
        final(rng).width() == old(rng).width(),
        final(rng).lane_states() == lanes_after(old(rng).lane_states(), count as nat),
        r@.len() == count,
        forall|i: int| 0 <= i < count ==> (#[trigger] r@[i])@ == nth_draw(old(rng).lane_states(), i as nat),
{
    let ghost st = rng.lane_states();
    let mut r: Vec<Vec<u64>> = Vec::new();
    let mut i: usize = 0;
    while i < count
        invariant
            rng.wf(),
            rng.width() == old(rng).width(),
            st == old(rng).lane_states(),
            i <= count,
            rng.lane_states() == lanes_after(st, i as nat),
            r@.len() == i,
            forall|j: int| 0 <= j < i ==> (#[trigger] r@[j])@ == nth_draw(st, j as nat),
        decreases count - i,
    {
        let v = rng.draw();
        r.push(v);
        i = i + 1;
    }
    r
}

/// Runs one call of the kernel of `kind` over the buffer, split among
/// `workers` chunks, and returns every mismatch it found.
pub fn run_kernel(buf: &mut [u64], workers: usize, rng: &mut LaneRng, kind: TestKind) -> (r: Vec<
    Miscompare,
>)
    requires
        old(rng).wf(),
        layout_ok(old(buf)@.len(), workers as nat, old(rng).width()),
    ensures
        final(rng).wf(),
        final(rng).width() == old(rng).width(),
        (final(buf)@, r@) == run_spec(
            old(buf)@,
            kernel_plan_spec(
                kind,
                old(rng).width(),
                kernel_draws(kind, old(rng).lane_states()),
            ),
            old(rng).width(),
        ),
        kind == TestKind::RandomInversions ==> final(rng).lane_states() == lanes_after(
            old(rng).lane_states(),
            RANDOM_DRAWS as nat,
        ),
        kind != TestKind::RandomInversions ==> *final(rng) == *old(rng),
{
    let lanes = rng.lanes();
    let ghost st = rng.lane_states();
    let draws = if kind == TestKind::RandomInversions {
        draw_vectors(rng, RANDOM_DRAWS)
    } else {
        Vec::new()
    };
    let ghost dv = draws@.map_values(|v: Vec<u64>| v@);
    assert(dv =~= kernel_draws(kind, st));
    proof {
        assert forall|i: int| 0 <= i < dv.len() implies (#[trigger] dv[i]).len() == lanes by {
            lemma_lanes_after_len(st, i as nat);
        }
    }
    let plan = kernel_plan(kind, lanes, &draws);
    proof {
        lemma_kernel_clean(kind, lanes as nat, dv, buf@);
    }
    run_plan(buf, workers, lanes, &plan)
}

} // verus!
