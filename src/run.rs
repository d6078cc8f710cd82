//! The run: choosing the buffer size to pin, and the decisions of the outer
//! test loop, which the host drives by performing each action and reporting
//! the stop flag back.
use vstd::prelude::*;
use crate::catalog::TestDefinition;

verus! {

/// Errors that end a run before any test starts.
#[derive(Clone, Copy, Debug, PartialEq, Eq, Structural)]
pub enum EngineError {
    /// The host has no usable vector instruction set.
    NoSimd,
    /// No non-empty buffer could be allocated and pinned.
    NoMemoryPinned,
    /// A selection line names an unknown test or holds a bad token.
    BadConfigLine,
}

/// Step by which the requested size shrinks after a failed pin: 256 MiB.
pub const BACKOFF: usize = 0x1000_0000;

/// `x` rounded down to a multiple of `a`.
pub open spec fn round_down(x: nat, a: nat) -> nat {
    (x as int - (x as int) % (a as int)) as nat
}

/// The sizes to try, starting at `s`: each next one is the previous less the
/// backoff step, rounded down to the alignment, while it stays above zero.
pub open spec fn attempts_from(s: nat, a: nat) -> Seq<usize>
    decreases s,
{
    if s == 0 || a == 0 {
        Seq::empty()
    } else if s > BACKOFF && round_down((s - BACKOFF) as nat, a) < s {
        seq![s as usize] + attempts_from(round_down((s - BACKOFF) as nat, a), a)
    } else {
        seq![s as usize]
    }
}

proof fn lemma_round_down(x: nat, a: nat)
    requires
        a >= 1,
    ensures
        0 <= (x as int) % (a as int) <= x,
        round_down(x, a) == x - (x as int) % (a as int),
        round_down(x, a) <= x,
        (round_down(x, a) as int) % (a as int) == 0,
{
    vstd::arithmetic::div_mod::lemma_mod_bound(x as int, a as int);
    vstd::arithmetic::div_mod::lemma_fundamental_div_mod(x as int, a as int);
    vstd::arithmetic::div_mod::lemma_mod_multiples_basic(x as int / a as int, a as int);
    assert(round_down(x, a) == (x as int / a as int) * a) by (nonlinear_arith)
        requires
            x == a * (x as int / a as int) + x as int % a as int,
            round_down(x, a) == x - x as int % a as int,
    ;
}

/// The sizes to try to allocate and pin for a request of `bytes`, largest
/// first, each a positive multiple of `alignment`.
pub fn attempt_sizes(bytes: usize, alignment: usize) -> (r: Vec<usize>)
    requires
        alignment >= 1,
    ensures
        r@ == attempts_from(round_down(bytes as nat, alignment as nat), alignment as nat),
{
    let mut r: Vec<usize> = Vec::new();
    proof {
        lemma_round_down(bytes as nat, alignment as nat);
    }
    let mut s: usize = bytes - bytes % alignment;
    let ghost first = s as nat;
    while s > 0
        invariant
            alignment >= 1,
            first == round_down(bytes as nat, alignment as nat),
            r@ + attempts_from(s as nat, alignment as nat) == attempts_from(first, alignment as nat),
        decreases s,
    {
        r.push(s);
        if s > BACKOFF {
            let t = s - BACKOFF;
            proof {
                lemma_round_down(t as nat, alignment as nat);
            }
            s = t - t % alignment;
        } else {
            s = 0;
        }
    }
    assert(r@ + attempts_from(0, alignment as nat) =~= r@);
    r
}

/// A request smaller than one alignment unit, zero included, leaves nothing
/// to try, so no memory can be pinned.
pub proof fn lemma_small_request_pins_nothing(bytes: nat, alignment: nat)
    requires
        alignment >= 1,
        bytes < alignment,
    ensures
        attempts_from(round_down(bytes, alignment), alignment) == Seq::<usize>::empty(),
{
    vstd::arithmetic::div_mod::lemma_small_mod(bytes, alignment);
}

/// Every size tried is a positive multiple of the alignment, no larger than
/// where the attempts started.
pub proof fn lemma_attempts_aligned(s: nat, a: nat, i: int)
    requires
        a >= 1,
        (s as int) % (a as int) == 0,
        s <= usize::MAX,
        0 <= i < attempts_from(s, a).len(),
    ensures
        attempts_from(s, a)[i] > 0,
        attempts_from(s, a)[i] <= s,
        (attempts_from(s, a)[i] as int) % (a as int) == 0,
    decreases s,
{
    if s > BACKOFF && i > 0 {
        let t = round_down((s - BACKOFF) as nat, a);
        lemma_round_down((s - BACKOFF) as nat, a);
        assert(attempts_from(s, a)[i] == attempts_from(t, a)[i - 1]);
        lemma_attempts_aligned(t, a, i - 1);
    }
}

/// Pinning tried the sizes in order and succeeded at `pinned_at`, if ever:
/// the run gets that many bytes, or fails when nothing could be pinned.
pub fn pinned_size(sizes: &Vec<usize>, pinned_at: Option<usize>) -> (r: Result<usize, EngineError>)
    ensures
        pinned_at is Some && pinned_at.unwrap() < sizes@.len() ==> r == Ok::<usize, EngineError>(
            sizes@[pinned_at.unwrap() as int],
        ),
        !(pinned_at is Some && pinned_at.unwrap() < sizes@.len()) ==> r == Err::<usize, EngineError>(
            EngineError::NoMemoryPinned,
        ),
{
    match pinned_at {
        Some(i) => {
            if i < sizes.len() {
                Ok(sizes[i])
            } else {
                Err(EngineError::NoMemoryPinned)
            }
        },
        None => Err(EngineError::NoMemoryPinned),
    }
}

/// Nominal traffic of a selection, in buffer sizes:
/// the sum of `passes * iters * loops`.
pub open spec fn traffic(defs: Seq<TestDefinition>) -> int
    decreases defs.len(),
{
    if defs.len() == 0 {
        0
    } else {
        traffic(defs.drop_last()) + defs.last().passes * defs.last().iters * defs.last().loops
    }
}

proof fn lemma_traffic_monotone(defs: Seq<TestDefinition>, i: int)
    requires
        0 <= i <= defs.len(),
    ensures
        0 <= traffic(defs.subrange(0, i)) <= traffic(defs),
    decreases defs.len() - i,
{
    if i < defs.len() {
        lemma_traffic_monotone(defs, i + 1);
        assert(defs.subrange(0, i + 1).drop_last() =~= defs.subrange(0, i));
        assert(defs.subrange(0, i + 1).last() == defs[i]);
        lemma_traffic_nonneg(defs.subrange(0, i));
        let d = defs[i];
        assert(d.passes * d.iters * d.loops >= 0) by (nonlinear_arith);
    } else {
        assert(defs.subrange(0, i) =~= defs);
        lemma_traffic_nonneg(defs);
    }
}

proof fn lemma_traffic_nonneg(defs: Seq<TestDefinition>)
    ensures
        traffic(defs) >= 0,
    decreases defs.len(),
{
    if defs.len() > 0 {
        lemma_traffic_nonneg(defs.drop_last());
        let d = defs.last();
        assert(d.passes * d.iters * d.loops >= 0) by (nonlinear_arith);
    }
}

/// The descriptive counters of a catalog entry stay within the catalog's
/// largest values.
pub open spec fn counters_bounded(defs: Seq<TestDefinition>) -> bool {
    forall|i: int| 0 <= i < defs.len() ==> #[trigger] defs[i].passes <= 8 && defs[i].iters <= 64
}

/// The traffic of a selection, or `None` when it exceeds 128 bits.
pub fn traffic_units(defs: &[TestDefinition]) -> (r: Option<u128>)
    requires
        counters_bounded(defs@),
    ensures
        traffic(defs@) <= u128::MAX ==> r == Some(traffic(defs@) as u128),
        traffic(defs@) > u128::MAX ==> r is None,
{
    let mut total: u128 = 0;
    let mut i: usize = 0;
    while i < defs.len()
        invariant
            counters_bounded(defs@),
            i <= defs@.len(),
            total == traffic(defs@.subrange(0, i as int)),
        decreases defs@.len() - i,
    {
        proof {
            lemma_traffic_monotone(defs@, i as int + 1);
            assert(defs@.subrange(0, i as int + 1).drop_last() =~= defs@.subrange(0, i as int));
        }
        let d = defs[i];
        assert(d.passes <= 8 && d.iters <= 64);
        assert((d.passes as u128) * (d.iters as u128) <= 512) by (nonlinear_arith)
            requires
                d.passes <= 8,
                d.iters <= 64,
        ;
        let pi = (d.passes as u128) * (d.iters as u128);
        assert(pi * (d.loops as u128) <= 512 * 0x1_0000_0000_0000_0000) by (nonlinear_arith)
            requires
                pi <= 512,
                d.loops <= 0xFFFF_FFFF_FFFF_FFFF,
        ;
        let part = pi * (d.loops as u128);
        match total.checked_add(part) {
            Some(t) => {
                total = t;
            },
            None => {
                return None;
            },
        }
        i = i + 1;
    }
    assert(defs@.subrange(0, defs@.len() as int) =~= defs@);
    Some(total)
}

/// How a test is announced: with its call count when it runs more than
/// once, as skipped when it runs zero times.
#[derive(Clone, Copy, Debug, PartialEq, Eq, Structural)]
pub enum Banner {
    Running,
    RunningTimes(usize),
    Skipping,
}

pub fn banner(d: &TestDefinition) -> (r: Banner)
    ensures
        d.loops == 0 ==> r == Banner::Skipping,
        d.loops == 1 ==> r == Banner::Running,
        d.loops > 1 ==> r == Banner::RunningTimes(d.loops),
{
    if d.loops > 1 {
        Banner::RunningTimes(d.loops)
    } else if d.loops == 0 {
        Banner::Skipping
    } else {
        Banner::Running
    }
}

/// Where the outer loop stands: the test in hand, how many calls of its
/// kernel were made, and whether it was announced.
#[derive(Clone, Copy, Debug, PartialEq, Eq, Structural)]
pub struct RunCursor {
    pub test: usize,
    pub calls: usize,
    pub announced: bool,
}

/// What the host does next.
#[derive(Clone, Copy, Debug, PartialEq, Eq, Structural)]
pub enum RunAction {
    /// Announce test `i`.
    Announce(usize),
    /// Call the kernel of test `i` once.
    Invoke(usize),
    /// Move on to the next test.
    Advance,
    /// All tests ran: read the error counter and report the iteration.
    Summary,
    /// The stop flag is set: end the run.
    Stop,
}

/// The start of an outer iteration.
pub open spec fn cursor_start() -> RunCursor {
    RunCursor { test: 0, calls: 0, announced: false }
}

pub fn start_cursor() -> (r: RunCursor)
    ensures
        r == cursor_start(),
{
    RunCursor { test: 0, calls: 0, announced: false }
}

/// The outer loop's next decision, given the stop flag as just read. The
/// flag is read before every announcement and every kernel call, so once it
/// is seen no kernel is called again; a test with zero calls is announced
/// and never invoked.
pub fn next_action(defs: &[TestDefinition], cur: RunCursor, stop: bool) -> (r: (RunCursor, RunAction))
    requires
        cur.test <= defs@.len(),
    ensures
        r.0.test <= defs@.len(),
        stop ==> r == (cur, RunAction::Stop),
        !stop && cur.test == defs@.len() ==> r == (cursor_start(), RunAction::Summary),
        !stop && cur.test < defs@.len() && !cur.announced ==> r == (
            RunCursor { test: cur.test, calls: 0, announced: true },
            RunAction::Announce(cur.test),
        ),
        !stop && cur.test < defs@.len() && cur.announced && cur.calls < defs@[cur.test as int].loops
            ==> r == (
            RunCursor { test: cur.test, calls: (cur.calls + 1) as usize, announced: true },
            RunAction::Invoke(cur.test),
        ),
        !stop && cur.test < defs@.len() && cur.announced && cur.calls >= defs@[cur.test as int].loops
            ==> r == (
            RunCursor { test: (cur.test + 1) as usize, calls: 0, announced: false },
            RunAction::Advance,
        ),
{
    if stop {
        (cur, RunAction::Stop)
    } else if cur.test >= defs.len() {
        (start_cursor(), RunAction::Summary)
    } else if !cur.announced {
        (RunCursor { test: cur.test, calls: 0, announced: true }, RunAction::Announce(cur.test))
    } else if cur.calls < defs[cur.test].loops {
        (
            RunCursor { test: cur.test, calls: cur.calls + 1, announced: true },
            RunAction::Invoke(cur.test),
        )
    } else {
        (RunCursor { test: cur.test + 1, calls: 0, announced: false }, RunAction::Advance)
    }
}

/// A kernel is only ever called while its test has calls left: never once
/// the stop flag is seen, and never for a test with zero calls.
pub proof fn lemma_invoke_only_when_due(defs: Seq<TestDefinition>, cur: RunCursor, stop: bool, r: (RunCursor, RunAction), t: usize)
    requires
        cur.test <= defs.len(),
        r.1 == RunAction::Invoke(t),
        stop ==> r == (cur, RunAction::Stop),
        !stop && cur.test == defs.len() ==> r == (cursor_start(), RunAction::Summary),
        !stop && cur.test < defs.len() && !cur.announced ==> r == (
            RunCursor { test: cur.test, calls: 0, announced: true },
            RunAction::Announce(cur.test),
        ),
        !stop && cur.test < defs.len() && cur.announced && cur.calls < defs[cur.test as int].loops
            ==> r == (
            RunCursor { test: cur.test, calls: (cur.calls + 1) as usize, announced: true },
            RunAction::Invoke(cur.test),
        ),
        !stop && cur.test < defs.len() && cur.announced && cur.calls >= defs[cur.test as int].loops
            ==> r == (
            RunCursor { test: (cur.test + 1) as usize, calls: 0, announced: false },
            RunAction::Advance,
        ),
    ensures
        !stop,
        t == cur.test,
        t < defs.len(),
        cur.calls < defs[t as int].loops,
        defs[t as int].loops > 0,
{
}

} // verus!
