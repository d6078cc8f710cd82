//! The sweep primitives: fills and verifies of vector-aligned word ranges,
//! with byte-exact mismatch accounting, and their composition over the
//! per-worker chunks of a buffer.
use vstd::prelude::*;
use crate::pattern::{invert, plan_view, uniform, StepView, SweepOp, SweepStep};

verus! {

/// Number of nonzero bytes among the low `k` bytes of `x`.
pub open spec fn nonzero_bytes(x: u64, k: nat) -> nat
    decreases k,
{
    if k == 0 {
        0
    } else {
        nonzero_bytes(x, (k - 1) as nat) + if (x >> ((8 * (k - 1)) as u64)) & 0xFFu64 != 0 {
            1nat
        } else {
            0nat
        }
    }
}

/// Number of bytes in which two words differ.
pub open spec fn word_diff(a: u64, b: u64) -> nat {
    nonzero_bytes(a ^ b, 8)
}

pub proof fn lemma_nonzero_bytes_bound(x: u64, k: nat)
    ensures
        nonzero_bytes(x, k) <= k,
    decreases k,
{
    if k > 0 {
        lemma_nonzero_bytes_bound(x, (k - 1) as nat);
    }
}

pub proof fn lemma_equal_words_no_diff(a: u64, k: nat)
    requires
        k <= 8,
    ensures
        nonzero_bytes(a ^ a, k) == 0,
    decreases k,
{
    if k > 0 {
        lemma_equal_words_no_diff(a, (k - 1) as nat);
        let s = (8 * (k - 1)) as u64;
        assert(((a ^ a) >> s) & 0xFFu64 == 0) by (bit_vector);
    }
}

/// Counts the bytes in which `a` and `b` differ.
pub fn count_diff_bytes(a: u64, b: u64) -> (r: u64)
    ensures
        r == word_diff(a, b),
        r <= 8,
{
    let x = a ^ b;
    let mut n: u64 = 0;
    let mut k: u64 = 0;
    while k < 8
        invariant
            k <= 8,
            x == a ^ b,
            n == nonzero_bytes(x, k as nat),
            n <= k,
        decreases 8 - k,
    {
        proof {
            lemma_nonzero_bytes_bound(x, (k + 1) as nat);
        }
        if (x >> (8 * k)) & 0xFFu64 != 0 {
            n = n + 1;
        }
        k = k + 1;
    }
    n
}

/// A vector slot whose bytes did not all read back as written.
#[derive(Clone, Copy, Debug, PartialEq, Eq, Structural)]
pub struct Miscompare {
    /// Byte offset of the vector from the buffer base.
    pub offset: usize,
    /// Number of differing bytes in the vector.
    pub bytes: u64,
}

/// The expected value of absolute word `w` under a step's vectors.
pub open spec fn expected_word(even: Seq<u64>, odd: Seq<u64>, lanes: nat, w: int) -> u64 {
    if (w / lanes as int) % 2 == 0 {
        even[w % lanes as int]
    } else {
        odd[w % lanes as int]
    }
}

/// Both vectors of a step hold one value per lane.
pub open spec fn step_fits(even: Seq<u64>, odd: Seq<u64>, lanes: nat) -> bool {
    lanes >= 1 && even.len() == lanes && odd.len() == lanes
}

/// Differing bytes of lanes `0..l` of the vector at slice word `w0`, where
/// slice word `j` is absolute word `origin + j`.
pub open spec fn slot_diff_upto(
    mem: Seq<u64>,
    origin: int,
    w0: int,
    even: Seq<u64>,
    odd: Seq<u64>,
    lanes: nat,
    l: nat,
) -> nat
    decreases l,
{
    if l == 0 {
        0
    } else {
        slot_diff_upto(mem, origin, w0, even, odd, lanes, (l - 1) as nat) + word_diff(
            mem[w0 + l - 1],
            expected_word(even, odd, lanes, origin + w0 + l - 1),
        )
    }
}

/// Differing bytes of slice slot `s`.
pub open spec fn slot_diff(
    mem: Seq<u64>,
    origin: int,
    s: int,
    even: Seq<u64>,
    odd: Seq<u64>,
    lanes: nat,
) -> nat {
    slot_diff_upto(mem, origin, s * lanes, even, odd, lanes, lanes)
}

/// The report for slice slot `s`, if it differs.
pub open spec fn slot_report(
    mem: Seq<u64>,
    origin: int,
    s: int,
    even: Seq<u64>,
    odd: Seq<u64>,
    lanes: nat,
) -> Seq<Miscompare> {
    let d = slot_diff(mem, origin, s, even, odd, lanes);
    if d > 0 {
        seq![Miscompare { offset: ((origin + s * lanes) * 8) as usize, bytes: d as u64 }]
    } else {
        Seq::empty()
    }
}

/// Reports of slice slots `lo..hi` in ascending order.
pub open spec fn reports_up(
    mem: Seq<u64>,
    origin: int,
    even: Seq<u64>,
    odd: Seq<u64>,
    lanes: nat,
    lo: int,
    hi: int,
) -> Seq<Miscompare>
    decreases hi - lo,
{
    if hi <= lo {
        Seq::empty()
    } else {
        reports_up(mem, origin, even, odd, lanes, lo, hi - 1) + slot_report(
            mem,
            origin,
            hi - 1,
            even,
            odd,
            lanes,
        )
    }
}

/// Reports of slice slots `lo..hi` in descending order.
pub open spec fn reports_down(
    mem: Seq<u64>,
    origin: int,
    even: Seq<u64>,
    odd: Seq<u64>,
    lanes: nat,
    lo: int,
    hi: int,
) -> Seq<Miscompare>
    decreases hi - lo,
{
    if hi <= lo {
        Seq::empty()
    } else {
        reports_down(mem, origin, even, odd, lanes, lo + 1, hi) + slot_report(
            mem,
            origin,
            lo,
            even,
            odd,
            lanes,
        )
    }
}

/// The preconditions shared by the chunk primitives: the slice starts on a
/// vector boundary, `start..end` is a whole number of vectors inside it, and
/// byte offsets fit in `usize`.
pub open spec fn chunk_ok(
    len: nat,
    origin: nat,
    start: nat,
    end: nat,
    even: Seq<u64>,
    odd: Seq<u64>,
    lanes: nat,
) -> bool {
    &&& step_fits(even, odd, lanes)
    &&& origin % lanes == 0
    &&& start % lanes == 0
    &&& end % lanes == 0
    &&& start <= end <= len
    &&& (origin + len) * 8 <= usize::MAX
}

/// Counts the differing bytes of the vector at slice word `w0`.
fn compare_slot(
    buf: &[u64],
    origin: usize,
    w0: usize,
    even: &[u64],
    odd: &[u64],
    lanes: usize,
) -> (r: u64)
    requires
        step_fits(even@, odd@, lanes as nat),
        origin % lanes == 0,
        w0 % lanes == 0,
        w0 + lanes <= buf@.len(),
        (origin + buf@.len()) * 8 <= usize::MAX,
    ensures
        r == slot_diff_upto(buf@, origin as int, w0 as int, even@, odd@, lanes as nat, lanes as nat),
        r <= 8 * lanes,
{
    let slot = (origin + w0) / lanes;
    let v = if slot % 2 == 0 { even } else { odd };
    let mut n: u64 = 0;
    let mut l: usize = 0;
    while l < lanes
        invariant
            l <= lanes,
            step_fits(even@, odd@, lanes as nat),
            origin % lanes == 0,
            w0 % lanes == 0,
            w0 + lanes <= buf@.len(),
            (origin + buf@.len()) * 8 <= usize::MAX,
            slot == (origin + w0) / lanes as int,
            v@ == (if slot % 2 == 0 { even@ } else { odd@ }),
            n == slot_diff_upto(buf@, origin as int, w0 as int, even@, odd@, lanes as nat, l as nat),
            n <= 8 * l,
        decreases lanes - l,
    {
        proof {
            lemma_slot_lane(origin as int, w0 as int, l as int, lanes as int);
        }
        let d = count_diff_bytes(buf[w0 + l], v[l]);
        n = n + d;
        l = l + 1;
    }
    n
}


/// Word `w0 + l` of a vector that starts on a slot boundary lies in the same
/// slot, at lane `l`.
proof fn lemma_slot_lane(origin: int, w0: int, l: int, lanes: int)
    requires
        lanes >= 1,
        origin >= 0,
        w0 >= 0,
        0 <= l < lanes,
        origin % lanes == 0,
        w0 % lanes == 0,
    ensures
        (origin + w0 + l) / lanes == (origin + w0) / lanes,
        (origin + w0 + l) % lanes == l,
{
    let slot = (origin + w0) / lanes;
    assert((origin + w0) % lanes == 0) by {
        vstd::arithmetic::div_mod::lemma_add_mod_noop(origin, w0, lanes);
        vstd::arithmetic::div_mod::lemma_small_mod(0, lanes as nat);
    }
    vstd::arithmetic::div_mod::lemma_fundamental_div_mod(origin + w0, lanes);
    vstd::arithmetic::div_mod::lemma_div_multiples_vanish_fancy(slot, l, lanes);
    vstd::arithmetic::div_mod::lemma_mod_multiples_vanish(slot, l, lanes);
    vstd::arithmetic::div_mod::lemma_small_mod(l as nat, lanes as nat);
}

/// Between two multiples of `m`, the next multiple up fits.
proof fn lemma_next_multiple(a: int, b: int, m: int)
    requires
        m >= 1,
        a >= 0,
        a % m == 0,
        b % m == 0,
        a < b,
    ensures
        a + m <= b,
        (a + m) % m == 0,
        b >= m,
        (b - m) % m == 0,
{
    vstd::arithmetic::div_mod::lemma_fundamental_div_mod(a, m);
    vstd::arithmetic::div_mod::lemma_fundamental_div_mod(b, m);
    let qa = a / m;
    let qb = b / m;
    assert(qa < qb) by (nonlinear_arith)
        requires
            a == m * qa,
            b == m * qb,
            a < b,
            m >= 1,
    ;
    assert(m * qa + m <= m * qb) by (nonlinear_arith)
        requires
            qa < qb,
            m >= 1,
    ;
    vstd::arithmetic::div_mod::lemma_mod_add_multiples_vanish(a, m);
    vstd::arithmetic::div_mod::lemma_mod_sub_multiples_vanish(b, m);
}

/// Stores one vector at slice word `w0`: a single vector-wide, vector-aligned
/// write of the value its slot expects.
fn store_vec(
    buf: &mut [u64],
    origin: usize,
    w0: usize,
    even: &[u64],
    odd: &[u64],
    lanes: usize,
)
    requires
        step_fits(even@, odd@, lanes as nat),
        origin % lanes == 0,
        w0 % lanes == 0,
        w0 + lanes <= old(buf)@.len(),
        origin + old(buf)@.len() <= usize::MAX,
    ensures
        final(buf)@.len() == old(buf)@.len(),
        forall|w: int|
            w0 <= w < w0 + lanes ==> #[trigger] final(buf)@[w] == expected_word(
                even@,
                odd@,
                lanes as nat,
                origin + w,
            ),
        forall|w: int|
            0 <= w < old(buf)@.len() && !(w0 <= w < w0 + lanes) ==> #[trigger] final(buf)@[w]
                == old(buf)@[w],
{
    let slot = (origin + w0) / lanes;
    let v = if slot % 2 == 0 { even } else { odd };
    let mut l: usize = 0;
    while l < lanes
        invariant
            l <= lanes,
            step_fits(even@, odd@, lanes as nat),
            origin % lanes == 0,
            w0 % lanes == 0,
            w0 + lanes <= buf@.len(),
            buf@.len() == old(buf)@.len(),
            origin + buf@.len() <= usize::MAX,
            slot == (origin + w0) / lanes as int,
            v@ == (if slot % 2 == 0 { even@ } else { odd@ }),
            forall|w: int|
                w0 <= w < w0 + l ==> #[trigger] buf@[w] == expected_word(
                    even@,
                    odd@,
                    lanes as nat,
                    origin + w,
                ),
            forall|w: int|
                0 <= w < old(buf)@.len() && !(w0 <= w < w0 + l) ==> #[trigger] buf@[w] == old(
                    buf,
                )@[w],
        decreases lanes - l,
    {
        proof {
            lemma_slot_lane(origin as int, w0 as int, l as int, lanes as int);
        }
        buf[w0 + l] = v[l];
        l = l + 1;
    }
}

/// Writes every vector slot of `start..end` in ascending order.
pub fn fill_chunk_up(
    buf: &mut [u64],
    origin: usize,
    start: usize,
    end: usize,
    lanes: usize,
    even: &[u64],
    odd: &[u64],
)
    requires
        chunk_ok(
            old(buf)@.len(),
            origin as nat,
            start as nat,
            end as nat,
            even@,
            odd@,
            lanes as nat,
        ),
    ensures
        final(buf)@.len() == old(buf)@.len(),
        forall|w: int|
            start <= w < end ==> #[trigger] final(buf)@[w] == expected_word(
                even@,
                odd@,
                lanes as nat,
                origin + w,
            ),
        forall|w: int|
            0 <= w < old(buf)@.len() && !(start <= w < end) ==> #[trigger] final(buf)@[w] == old(
                buf,
            )@[w],
{
    let mut w0: usize = start;
    while w0 < end
        invariant
            chunk_ok(buf@.len(), origin as nat, start as nat, end as nat, even@, odd@, lanes as nat),
            buf@.len() == old(buf)@.len(),
            start <= w0 <= end,
            w0 % lanes == 0,
            forall|w: int|
                start <= w < w0 ==> #[trigger] buf@[w] == expected_word(
                    even@,
                    odd@,
                    lanes as nat,
                    origin + w,
                ),
            forall|w: int|
                0 <= w < old(buf)@.len() && !(start <= w < w0) ==> #[trigger] buf@[w] == old(
                    buf,
                )@[w],
        decreases end - w0,
    {
        proof {
            lemma_next_multiple(w0 as int, end as int, lanes as int);
        }
        store_vec(buf, origin, w0, even, odd, lanes);
        w0 = w0 + lanes;
    }
}


/// Writes every vector slot of `start..end` in descending order, from the
/// last slot down to the first.
pub fn fill_chunk_down(
    buf: &mut [u64],
    origin: usize,
    start: usize,
    end: usize,
    lanes: usize,
    even: &[u64],
    odd: &[u64],
)
    requires
        chunk_ok(
            old(buf)@.len(),
            origin as nat,
            start as nat,
            end as nat,
            even@,
            odd@,
            lanes as nat,
        ),
    ensures
        final(buf)@.len() == old(buf)@.len(),
        forall|w: int|
            start <= w < end ==> #[trigger] final(buf)@[w] == expected_word(
                even@,
                odd@,
                lanes as nat,
                origin + w,
            ),
        forall|w: int|
            0 <= w < old(buf)@.len() && !(start <= w < end) ==> #[trigger] final(buf)@[w] == old(
                buf,
            )@[w],
{
    let mut w0: usize = end;
    while w0 > start
        invariant
            chunk_ok(buf@.len(), origin as nat, start as nat, end as nat, even@, odd@, lanes as nat),
            buf@.len() == old(buf)@.len(),
            start <= w0 <= end,
            w0 % lanes == 0,
            forall|w: int|
                w0 <= w < end ==> #[trigger] buf@[w] == expected_word(
                    even@,
                    odd@,
                    lanes as nat,
                    origin + w,
                ),
            forall|w: int|
                0 <= w < old(buf)@.len() && !(w0 <= w < end) ==> #[trigger] buf@[w] == old(buf)@[w],
        decreases w0,
    {
        proof {
            lemma_next_multiple(start as int, w0 as int, lanes as int);
        }
        w0 = w0 - lanes;
        store_vec(buf, origin, w0, even, odd, lanes);
    }
}

/// Slot `s` of a run of `hi` slots starts and ends inside it.
proof fn lemma_slot_in_range(s: int, hi: int, lanes: int)
    requires
        0 <= s < hi,
        lanes >= 1,
    ensures
        s * lanes + lanes <= hi * lanes,
        (s * lanes) % lanes == 0,
        (s * lanes) / lanes == s,
        s * lanes >= 0,
{
    assert(s * lanes + lanes <= hi * lanes) by (nonlinear_arith)
        requires
            s < hi,
            lanes >= 1,
    ;
    assert(s * lanes >= 0) by (nonlinear_arith)
        requires
            s >= 0,
            lanes >= 1,
    ;
    vstd::arithmetic::div_mod::lemma_mod_multiples_basic(s, lanes);
    vstd::arithmetic::div_mod::lemma_div_multiples_vanish(s, lanes);
    assert(s * lanes == lanes * s) by (nonlinear_arith);
}

/// Reads back every vector slot of `start..end` in ascending order and
/// reports each one that differs from what its slot expects.
pub fn verify_chunk_up(
    buf: &[u64],
    origin: usize,
    start: usize,
    end: usize,
    lanes: usize,
    even: &[u64],
    odd: &[u64],
) -> (r: Vec<Miscompare>)
    requires
        chunk_ok(buf@.len(), origin as nat, start as nat, end as nat, even@, odd@, lanes as nat),
    ensures
        r@ == reports_up(
            buf@,
            origin as int,
            even@,
            odd@,
            lanes as nat,
            start as int / lanes as int,
            end as int / lanes as int,
        ),
{
    let lo = start / lanes;
    let hi = end / lanes;
    proof {
        vstd::arithmetic::div_mod::lemma_fundamental_div_mod(start as int, lanes as int);
        vstd::arithmetic::div_mod::lemma_fundamental_div_mod(end as int, lanes as int);
        vstd::arithmetic::div_mod::lemma_div_is_ordered(start as int, end as int, lanes as int);
    }
    let mut r: Vec<Miscompare> = Vec::new();
    let mut s: usize = lo;
    while s < hi
        invariant
            chunk_ok(buf@.len(), origin as nat, start as nat, end as nat, even@, odd@, lanes as nat),
            lo == start as int / lanes as int,
            hi == end as int / lanes as int,
            hi * lanes == end,
            lo <= s <= hi,
            r@ == reports_up(buf@, origin as int, even@, odd@, lanes as nat, lo as int, s as int),
        decreases hi - s,
    {
        proof {
            lemma_slot_in_range(s as int, hi as int, lanes as int);
        }
        let w0 = s * lanes;
        let d = compare_slot(buf, origin, w0, even, odd, lanes);
        if d > 0 {
            r.push(Miscompare { offset: (origin + w0) * 8, bytes: d });
        }
        s = s + 1;
        assert(r@ =~= reports_up(buf@, origin as int, even@, odd@, lanes as nat, lo as int, s as int));
    }
    r
}

/// Reads back every vector slot of `start..end` in descending order and
/// reports each one that differs from what its slot expects.
pub fn verify_chunk_down(
    buf: &[u64],
    origin: usize,
    start: usize,
    end: usize,
    lanes: usize,
    even: &[u64],
    odd: &[u64],
) -> (r: Vec<Miscompare>)
    requires
        chunk_ok(buf@.len(), origin as nat, start as nat, end as nat, even@, odd@, lanes as nat),
    ensures
        r@ == reports_down(
            buf@,
            origin as int,
            even@,
            odd@,
            lanes as nat,
            start as int / lanes as int,
            end as int / lanes as int,
        ),
{
    let lo = start / lanes;
    let hi = end / lanes;
    proof {
        vstd::arithmetic::div_mod::lemma_fundamental_div_mod(start as int, lanes as int);
        vstd::arithmetic::div_mod::lemma_fundamental_div_mod(end as int, lanes as int);
        vstd::arithmetic::div_mod::lemma_div_is_ordered(start as int, end as int, lanes as int);
    }
    proof {
        vstd::arithmetic::mul::lemma_mul_is_commutative(hi as int, lanes as int);
    }
    let mut r: Vec<Miscompare> = Vec::new();
    let mut s: usize = hi;
    while s > lo
        invariant
            chunk_ok(buf@.len(), origin as nat, start as nat, end as nat, even@, odd@, lanes as nat),
            lo == start as int / lanes as int,
            hi == end as int / lanes as int,
            hi * lanes == end,
            lo <= s <= hi,
            r@ == reports_down(buf@, origin as int, even@, odd@, lanes as nat, s as int, hi as int),
        decreases s,
    {
        proof {
            lemma_slot_in_range(s - 1, hi as int, lanes as int);
        }
        s = s - 1;
        let w0 = s * lanes;
        let d = compare_slot(buf, origin, w0, even, odd, lanes);
        if d > 0 {
            r.push(Miscompare { offset: (origin + w0) * 8, bytes: d });
        }
        assert(r@ =~= reports_down(buf@, origin as int, even@, odd@, lanes as nat, s as int, hi as int));
    }
    r
}


/// A buffer of `n` words that `workers` chunks of whole `lanes`-word vectors
/// tile exactly, with byte offsets that fit in `usize`.
pub open spec fn layout_ok(n: nat, workers: nat, lanes: nat) -> bool {
    &&& workers >= 1
    &&& lanes >= 1
    &&& n % (workers * lanes) == 0
    &&& n * 8 <= usize::MAX
}

/// Words per worker chunk.
pub open spec fn chunk_len(n: nat, workers: nat) -> nat {
    n / workers
}

/// Chunk `i` is the word range `[i * chunk, (i + 1) * chunk)`; each chunk
/// starts and ends on a vector boundary inside the buffer, so every access a
/// sweep makes is one whole aligned vector inside the buffer.
pub proof fn lemma_chunk_aligned(n: nat, workers: nat, lanes: nat, i: nat)
    requires
        layout_ok(n, workers, lanes),
        i < workers,
    ensures
        (i * chunk_len(n, workers)) % lanes == 0,
        ((i + 1) * chunk_len(n, workers)) % lanes == 0,
        (i + 1) * chunk_len(n, workers) <= n,
        chunk_len(n, workers) % lanes == 0,
        workers * chunk_len(n, workers) == n,
{
    let wl = (workers * lanes) as int;
    assert(wl >= 1) by (nonlinear_arith)
        requires
            wl == workers * lanes,
            workers >= 1,
            lanes >= 1,
    ;
    vstd::arithmetic::div_mod::lemma_fundamental_div_mod(n as int, wl);
    let q = n as int / wl;
    assert(n == workers * (lanes * q)) by (nonlinear_arith)
        requires
            n == wl * q,
            wl == workers * lanes,
    ;
    vstd::arithmetic::div_mod::lemma_div_multiples_vanish(lanes * q, workers as int);
    let c = chunk_len(n, workers);
    assert(c == lanes * q);
    assert(i * c == (i * q) * lanes) by (nonlinear_arith)
        requires
            c == lanes * q,
    ;
    assert((i + 1) * c == ((i + 1) * q) * lanes) by (nonlinear_arith)
        requires
            c == lanes * q,
    ;
    assert(c == q * lanes) by (nonlinear_arith)
        requires
            c == lanes * q,
    ;
    vstd::arithmetic::div_mod::lemma_mod_multiples_basic(i * q, lanes as int);
    vstd::arithmetic::div_mod::lemma_mod_multiples_basic((i + 1) * q, lanes as int);
    vstd::arithmetic::div_mod::lemma_mod_multiples_basic(q, lanes as int);
    assert((i + 1) * c <= workers * c) by (nonlinear_arith)
        requires
            i + 1 <= workers,
            c >= 0,
    ;
}

/// The chunks partition the buffer: distinct chunks do not overlap, and
/// every word lies in the chunk `w / chunk`, so the words the workers touch
/// are exactly the words of the buffer.
pub proof fn lemma_chunks_partition(n: nat, workers: nat, lanes: nat)
    requires
        layout_ok(n, workers, lanes),
        n > 0,
    ensures
        forall|i: nat, j: nat|
            i < j < workers ==> (#[trigger] ((i + 1) * chunk_len(n, workers))) <= #[trigger] (j
                * chunk_len(n, workers)),
        forall|w: nat|
            w < n ==> #[trigger] (w / chunk_len(n, workers)) < workers && (w / chunk_len(n, workers))
                * chunk_len(n, workers) <= w && w < (w / chunk_len(n, workers) + 1) * chunk_len(
                n,
                workers,
            ),
{
    let c = chunk_len(n, workers);
    lemma_chunk_aligned(n, workers, lanes, 0);
    assert(c > 0) by (nonlinear_arith)
        requires
            workers * c == n,
            n > 0,
    ;
    assert forall|i: nat, j: nat| i < j < workers implies (#[trigger] ((i + 1) * c)) <= #[trigger] (j
        * c) by {
        assert((i + 1) * c <= j * c) by (nonlinear_arith)
            requires
                i + 1 <= j,
                c >= 0,
        ;
    }
    assert forall|w: nat| w < n implies #[trigger] (w / c) < workers && (w / c) * c <= w && w < (w
        / c + 1) * c by {
        let i = w / c;
        vstd::arithmetic::div_mod::lemma_fundamental_div_mod(w as int, c as int);
        vstd::arithmetic::div_mod::lemma_mod_bound(w as int, c as int);
        assert(i * c <= w && w < (i + 1) * c) by (nonlinear_arith)
            requires
                w == c * i + (w as int) % (c as int),
                0 <= (w as int) % (c as int) < c,
        ;
        assert(i < workers) by (nonlinear_arith)
            requires
                i * c <= w,
                w < n,
                n == workers * c,
                c > 0,
        ;
    }
}

/// The word range `[start, end)` of chunk `i`.
pub fn chunk_bounds(n: usize, workers: usize, i: usize) -> (r: (usize, usize))
    requires
        workers >= 1,
        i < workers,
        n * 8 <= usize::MAX,
    ensures
        r.0 == i * chunk_len(n as nat, workers as nat),
        r.1 == (i + 1) * chunk_len(n as nat, workers as nat),
        r.1 <= n,
{
    let c = n / workers;
    proof {
        vstd::arithmetic::div_mod::lemma_fundamental_div_mod(n as int, workers as int);
        assert((i + 1) * c <= workers * c) by (nonlinear_arith)
            requires
                i + 1 <= workers,
        ;
        assert(workers * c <= n) by {
            vstd::arithmetic::div_mod::lemma_mod_bound(n as int, workers as int);
        }
        assert(i * c <= (i + 1) * c) by (nonlinear_arith);
    }
    (i * c, (i + 1) * c)
}

/// The buffer after a fill with a step's vectors.
pub open spec fn filled(n: nat, even: Seq<u64>, odd: Seq<u64>, lanes: nat) -> Seq<u64> {
    Seq::new(n, |w: int| expected_word(even, odd, lanes, w))
}

/// The effect of one sweep on a buffer: the new contents and the reports.
pub open spec fn sweep_effect(mem: Seq<u64>, st: StepView, lanes: nat) -> (Seq<u64>, Seq<Miscompare>) {
    match st.op {
        SweepOp::FillUp => (filled(mem.len(), st.even, st.odd, lanes), Seq::empty()),
        SweepOp::FillDown => (filled(mem.len(), st.even, st.odd, lanes), Seq::empty()),
        SweepOp::VerifyUp => (
            mem,
            reports_up(mem, 0, st.even, st.odd, lanes, 0, mem.len() as int / lanes as int),
        ),
        SweepOp::VerifyDown => (
            mem,
            reports_down(mem, 0, st.even, st.odd, lanes, 0, mem.len() as int / lanes as int),
        ),
    }
}

pub proof fn lemma_reports_up_concat(
    mem: Seq<u64>,
    origin: int,
    even: Seq<u64>,
    odd: Seq<u64>,
    lanes: nat,
    lo: int,
    mid: int,
    hi: int,
)
    requires
        lo <= mid <= hi,
    ensures
        reports_up(mem, origin, even, odd, lanes, lo, mid) + reports_up(
            mem,
            origin,
            even,
            odd,
            lanes,
            mid,
            hi,
        ) == reports_up(mem, origin, even, odd, lanes, lo, hi),
    decreases hi - mid,
{
    if hi > mid {
        lemma_reports_up_concat(mem, origin, even, odd, lanes, lo, mid, hi - 1);
        assert(reports_up(mem, origin, even, odd, lanes, lo, mid) + reports_up(
            mem,
            origin,
            even,
            odd,
            lanes,
            mid,
            hi,
        ) =~= reports_up(mem, origin, even, odd, lanes, lo, hi));
    } else {
        assert(reports_up(mem, origin, even, odd, lanes, lo, mid) + reports_up(
            mem,
            origin,
            even,
            odd,
            lanes,
            mid,
            hi,
        ) =~= reports_up(mem, origin, even, odd, lanes, lo, hi));
    }
}

pub proof fn lemma_reports_down_concat(
    mem: Seq<u64>,
    origin: int,
    even: Seq<u64>,
    odd: Seq<u64>,
    lanes: nat,
    lo: int,
    mid: int,
    hi: int,
)
    requires
        lo <= mid <= hi,
    ensures
        reports_down(mem, origin, even, odd, lanes, mid, hi) + reports_down(
            mem,
            origin,
            even,
            odd,
            lanes,
            lo,
            mid,
        ) == reports_down(mem, origin, even, odd, lanes, lo, hi),
    decreases mid - lo,
{
    if mid > lo {
        lemma_reports_down_concat(mem, origin, even, odd, lanes, lo + 1, mid, hi);
        assert(reports_down(mem, origin, even, odd, lanes, mid, hi) + reports_down(
            mem,
            origin,
            even,
            odd,
            lanes,
            lo,
            mid,
        ) =~= reports_down(mem, origin, even, odd, lanes, lo, hi));
    } else {
        assert(reports_down(mem, origin, even, odd, lanes, mid, hi) + reports_down(
            mem,
            origin,
            even,
            odd,
            lanes,
            lo,
            mid,
        ) =~= reports_down(mem, origin, even, odd, lanes, lo, hi));
    }
}


/// The boundary word of chunk `i`, and where it stands for `i == workers`.
proof fn lemma_boundary(n: nat, workers: nat, lanes: nat, i: nat)
    requires
        layout_ok(n, workers, lanes),
        i <= workers,
    ensures
        (i * chunk_len(n, workers)) % lanes == 0,
        i * chunk_len(n, workers) <= n,
        i < workers ==> i * chunk_len(n, workers) <= (i + 1) * chunk_len(n, workers),
        i == workers ==> i * chunk_len(n, workers) == n,
{
    if i < workers {
        lemma_chunk_aligned(n, workers, lanes, i);
        assert(i * chunk_len(n, workers) <= (i + 1) * chunk_len(n, workers)) by (nonlinear_arith);
    } else {
        lemma_chunk_aligned(n, workers, lanes, 0);
        vstd::arithmetic::div_mod::lemma_mod_self_0(lanes as int);
        assert(n % lanes == 0) by {
            vstd::arithmetic::div_mod::lemma_mod_multiples_basic(
                chunk_len(n, workers) as int / lanes as int * workers,
                lanes as int,
            );
            vstd::arithmetic::div_mod::lemma_fundamental_div_mod(
                chunk_len(n, workers) as int,
                lanes as int,
            );
            assert(n == (chunk_len(n, workers) as int / lanes as int * workers) * lanes) by (
            nonlinear_arith)
                requires
                    workers * chunk_len(n, workers) == n,
                    chunk_len(n, workers) == lanes * (chunk_len(n, workers) as int / lanes as int)
                        + chunk_len(n, workers) as int % lanes as int,
                    chunk_len(n, workers) as int % lanes as int == 0,
            ;
        }
    }
}

/// One sweep over the whole buffer, chunk by chunk: ascending sweeps take
/// the chunks in ascending order, descending sweeps in descending order.
pub fn sweep(buf: &mut [u64], workers: usize, lanes: usize, step: &SweepStep) -> (r: Vec<
    Miscompare,
>)
    requires
        layout_ok(old(buf)@.len(), workers as nat, lanes as nat),
        step_fits(step.even@, step.odd@, lanes as nat),
    ensures
        (final(buf)@, r@) == sweep_effect(old(buf)@, step@, lanes as nat),
{
    let n = buf.len();
    let ghost mem = buf@;
    let ghost c = chunk_len(n as nat, workers as nat);
    let even = step.even.as_slice();
    let odd = step.odd.as_slice();
    let mut r: Vec<Miscompare> = Vec::new();
    match step.op {
        SweepOp::FillUp => {
            let mut i: usize = 0;
            assert(0 * c == 0);
            while i < workers
                invariant
                    layout_ok(n as nat, workers as nat, lanes as nat),
                    step_fits(even@, odd@, lanes as nat),
                    buf@.len() == n,
                    c == chunk_len(n as nat, workers as nat),
                    i <= workers,
                    forall|w: int|
                        0 <= w < i * c ==> #[trigger] buf@[w] == expected_word(
                            even@,
                            odd@,
                            lanes as nat,
                            w,
                        ),
                decreases workers - i,
            {
                let (s, e) = chunk_bounds(n, workers, i);
                proof {
                    lemma_chunk_aligned(n as nat, workers as nat, lanes as nat, i as nat);
                    lemma_boundary(n as nat, workers as nat, lanes as nat, i as nat);
                }
                fill_chunk_up(buf, 0, s, e, lanes, even, odd);
                i = i + 1;
            }
            proof {
                lemma_boundary(n as nat, workers as nat, lanes as nat, workers as nat);
            }
            assert(buf@ =~= filled(n as nat, even@, odd@, lanes as nat));
        },
        SweepOp::FillDown => {
            let mut i: usize = workers;
            proof {
                lemma_boundary(n as nat, workers as nat, lanes as nat, workers as nat);
            }
            while i > 0
                invariant
                    layout_ok(n as nat, workers as nat, lanes as nat),
                    step_fits(even@, odd@, lanes as nat),
                    buf@.len() == n,
                    c == chunk_len(n as nat, workers as nat),
                    i <= workers,
                    forall|w: int|
                        i * c <= w < n ==> #[trigger] buf@[w] == expected_word(
                            even@,
                            odd@,
                            lanes as nat,
                            w,
                        ),
                decreases i,
            {
                i = i - 1;
                let (s, e) = chunk_bounds(n, workers, i);
                proof {
                    lemma_chunk_aligned(n as nat, workers as nat, lanes as nat, i as nat);
                    lemma_boundary(n as nat, workers as nat, lanes as nat, i as nat);
                    lemma_boundary(n as nat, workers as nat, lanes as nat, (i + 1) as nat);
                }
                fill_chunk_down(buf, 0, s, e, lanes, even, odd);
            }
            assert(buf@ =~= filled(n as nat, even@, odd@, lanes as nat));
        },
        SweepOp::VerifyUp => {
            let mut i: usize = 0;
            while i < workers
                invariant
                    layout_ok(n as nat, workers as nat, lanes as nat),
                    step_fits(even@, odd@, lanes as nat),
                    buf@ == mem,
                    mem.len() == n,
                    c == chunk_len(n as nat, workers as nat),
                    i <= workers,
                    r@ == reports_up(mem, 0, even@, odd@, lanes as nat, 0, (i * c) as int / lanes as int),
                decreases workers - i,
            {
                let (s, e) = chunk_bounds(n, workers, i);
                proof {
                    lemma_chunk_aligned(n as nat, workers as nat, lanes as nat, i as nat);
                    lemma_boundary(n as nat, workers as nat, lanes as nat, i as nat);
                    vstd::arithmetic::div_mod::lemma_div_is_ordered(s as int, e as int, lanes as int);
                    vstd::arithmetic::div_mod::lemma_div_is_ordered(0, s as int, lanes as int);
                    lemma_reports_up_concat(
                        mem,
                        0,
                        even@,
                        odd@,
                        lanes as nat,
                        0,
                        s as int / lanes as int,
                        e as int / lanes as int,
                    );
                }
                let mut part = verify_chunk_up(buf, 0, s, e, lanes, even, odd);
                r.append(&mut part);
                i = i + 1;
            }
            proof {
                lemma_boundary(n as nat, workers as nat, lanes as nat, workers as nat);
            }
        },
        SweepOp::VerifyDown => {
            let mut i: usize = workers;
            proof {
                lemma_boundary(n as nat, workers as nat, lanes as nat, workers as nat);
            }
            while i > 0
                invariant
                    layout_ok(n as nat, workers as nat, lanes as nat),
                    step_fits(even@, odd@, lanes as nat),
                    buf@ == mem,
                    mem.len() == n,
                    c == chunk_len(n as nat, workers as nat),
                    i <= workers,
                    r@ == reports_down(
                        mem,
                        0,
                        even@,
                        odd@,
                        lanes as nat,
                        (i * c) as int / lanes as int,
                        n as int / lanes as int,
                    ),
                decreases i,
            {
                i = i - 1;
                let (s, e) = chunk_bounds(n, workers, i);
                proof {
                    lemma_chunk_aligned(n as nat, workers as nat, lanes as nat, i as nat);
                    lemma_boundary(n as nat, workers as nat, lanes as nat, i as nat);
                    vstd::arithmetic::div_mod::lemma_div_is_ordered(s as int, e as int, lanes as int);
                    vstd::arithmetic::div_mod::lemma_div_is_ordered(e as int, n as int, lanes as int);
                    lemma_reports_down_concat(
                        mem,
                        0,
                        even@,
                        odd@,
                        lanes as nat,
                        s as int / lanes as int,
                        e as int / lanes as int,
                        n as int / lanes as int,
                    );
                }
                let mut part = verify_chunk_down(buf, 0, s, e, lanes, even, odd);
                r.append(&mut part);
            }
        },
    }
    r
}


/// Running a sequence of sweeps, one after another: the final buffer and
/// every report, in order.
pub open spec fn run_spec(mem: Seq<u64>, plan: Seq<StepView>, lanes: nat) -> (Seq<u64>, Seq<Miscompare>)
    decreases plan.len(),
{
    if plan.len() == 0 {
        (mem, Seq::empty())
    } else {
        let before = run_spec(mem, plan.drop_last(), lanes);
        let after = sweep_effect(before.0, plan.last(), lanes);
        (after.0, before.1 + after.1)
    }
}

/// Every step of a plan holds one value per lane in both vectors.
pub open spec fn plan_fits(plan: Seq<StepView>, lanes: nat) -> bool {
    forall|i: int| 0 <= i < plan.len() ==> step_fits(#[trigger] plan[i].even, plan[i].odd, lanes)
}

pub proof fn lemma_run_keeps_len(mem: Seq<u64>, plan: Seq<StepView>, lanes: nat)
    ensures
        run_spec(mem, plan, lanes).0.len() == mem.len(),
    decreases plan.len(),
{
    if plan.len() > 0 {
        lemma_run_keeps_len(mem, plan.drop_last(), lanes);
    }
}

/// Runs the sweeps of a plan over the buffer, in order, and returns every
/// report they made.
pub fn run_plan(buf: &mut [u64], workers: usize, lanes: usize, plan: &Vec<SweepStep>) -> (r: Vec<
    Miscompare,
>)
    requires
        layout_ok(old(buf)@.len(), workers as nat, lanes as nat),
        plan_fits(plan_view(plan@), lanes as nat),
    ensures
        (final(buf)@, r@) == run_spec(old(buf)@, plan_view(plan@), lanes as nat),
{
    let ghost mem = buf@;
    let ghost steps = plan_view(plan@);
    let mut r: Vec<Miscompare> = Vec::new();
    let mut i: usize = 0;
    while i < plan.len()
        invariant
            layout_ok(buf@.len(), workers as nat, lanes as nat),
            buf@.len() == mem.len(),
            steps == plan_view(plan@),
            plan_fits(steps, lanes as nat),
            i <= plan@.len(),
            (buf@, r@) == run_spec(mem, steps.subrange(0, i as int), lanes as nat),
        decreases plan@.len() - i,
    {
        proof {
            assert(step_fits(steps[i as int].even, steps[i as int].odd, lanes as nat));
        }
        let mut part = sweep(buf, workers, lanes, &plan[i]);
        r.append(&mut part);
        proof {
            assert(steps.subrange(0, i as int + 1).drop_last() =~= steps.subrange(0, i as int));
        }
        i = i + 1;
    }
    assert(steps.subrange(0, plan@.len() as int) =~= steps);
    r
}

/// In a freshly filled buffer every lane of slot `s` matches.
proof fn lemma_filled_slot_clean(
    n: nat,
    even: Seq<u64>,
    odd: Seq<u64>,
    lanes: nat,
    s: int,
    l: nat,
)
    requires
        step_fits(even, odd, lanes),
        0 <= s,
        s * lanes + lanes <= n,
        l <= lanes,
    ensures
        slot_diff_upto(filled(n, even, odd, lanes), 0, s * lanes, even, odd, lanes, l) == 0,
    decreases l,
{
    if l > 0 {
        lemma_filled_slot_clean(n, even, odd, lanes, s, (l - 1) as nat);
        let w = s * lanes + l - 1;
        let x = expected_word(even, odd, lanes, w);
        assert(filled(n, even, odd, lanes)[w] == x);
        lemma_equal_words_no_diff(x, 8);
    }
}

/// A verify right after a fill with the same vectors reports nothing, in
/// either direction.
pub proof fn lemma_filled_reads_back(n: nat, even: Seq<u64>, odd: Seq<u64>, lanes: nat, hi: int)
    requires
        step_fits(even, odd, lanes),
        0 <= hi <= n as int / lanes as int,
    ensures
        reports_up(filled(n, even, odd, lanes), 0, even, odd, lanes, 0, hi) == Seq::<
            Miscompare,
        >::empty(),
        reports_down(filled(n, even, odd, lanes), 0, even, odd, lanes, 0, hi) == Seq::<
            Miscompare,
        >::empty(),
    decreases hi,
{
    if hi > 0 {
        lemma_filled_reads_back(n, even, odd, lanes, hi - 1);
        vstd::arithmetic::div_mod::lemma_fundamental_div_mod(n as int, lanes as int);
        vstd::arithmetic::div_mod::lemma_mod_bound(n as int, lanes as int);
        assert((hi - 1) * lanes + lanes <= n) by (nonlinear_arith)
            requires
                hi <= n as int / lanes as int,
                n == lanes * (n as int / lanes as int) + n as int % lanes as int,
                n as int % lanes as int >= 0,
                lanes >= 1,
        ;
        lemma_filled_slot_clean(n, even, odd, lanes, hi - 1, lanes);
        assert forall|s: int| 0 <= s < hi implies slot_diff(
            filled(n, even, odd, lanes),
            0,
            s,
            even,
            odd,
            lanes,
        ) == 0 by {
            assert(s * lanes + lanes <= n) by (nonlinear_arith)
                requires
                    s < hi,
                    (hi - 1) * lanes + lanes <= n,
                    lanes >= 1,
            ;
            lemma_filled_slot_clean(n, even, odd, lanes, s, lanes);
        }
        lemma_reports_down_clean(filled(n, even, odd, lanes), even, odd, lanes, 0, hi);
    }
}

proof fn lemma_reports_down_clean(
    mem: Seq<u64>,
    even: Seq<u64>,
    odd: Seq<u64>,
    lanes: nat,
    lo: int,
    hi: int,
)
    requires
        0 <= lo <= hi,
        forall|s: int| 0 <= s < hi ==> slot_diff(mem, 0, s, even, odd, lanes) == 0,
    ensures
        reports_down(mem, 0, even, odd, lanes, lo, hi) == Seq::<Miscompare>::empty(),
    decreases hi - lo,
{
    if lo < hi {
        lemma_reports_down_clean(mem, even, odd, lanes, lo + 1, hi);
        assert(slot_diff(mem, 0, lo, even, odd, lanes) == 0);
        assert(reports_down(mem, 0, even, odd, lanes, lo, hi) =~= Seq::<Miscompare>::empty());
    }
}

/// Filling with a vector and then verifying the same vector, in any
/// directions, reports no mismatch and leaves the filled buffer.
pub proof fn lemma_fill_verify_fixpoint(mem: Seq<u64>, fill: StepView, check: StepView, lanes: nat)
    requires
        fill.op.is_fill(),
        !check.op.is_fill(),
        check.even == fill.even,
        check.odd == fill.odd,
        step_fits(fill.even, fill.odd, lanes),
    ensures
        sweep_effect(sweep_effect(mem, fill, lanes).0, check, lanes) == (
            filled(mem.len(), fill.even, fill.odd, lanes),
            Seq::<Miscompare>::empty(),
        ),
{
    let f = filled(mem.len(), fill.even, fill.odd, lanes);
    vstd::arithmetic::div_mod::lemma_div_pos_is_pos(mem.len() as int, lanes as int);
    lemma_filled_reads_back(mem.len(), fill.even, fill.odd, lanes, mem.len() as int / lanes as int);
}

/// A fill with the complement overwrites the previous fill completely: the
/// complement then reads back without a mismatch.
pub proof fn lemma_inverse_overwrites(mem: Seq<u64>, v: Seq<u64>, lanes: nat)
    requires
        v.len() == lanes,
        lanes >= 1,
    ensures
        run_spec(
            mem,
            seq![
                uniform(SweepOp::FillUp, v),
                uniform(SweepOp::FillUp, invert(v)),
                uniform(SweepOp::VerifyUp, invert(v)),
            ],
            lanes,
        ) == (filled(mem.len(), invert(v), invert(v), lanes), Seq::<Miscompare>::empty()),
{
    let plan = seq![
        uniform(SweepOp::FillUp, v),
        uniform(SweepOp::FillUp, invert(v)),
        uniform(SweepOp::VerifyUp, invert(v)),
    ];
    let first_step = seq![uniform(SweepOp::FillUp, v)];
    let two_steps = seq![uniform(SweepOp::FillUp, v), uniform(SweepOp::FillUp, invert(v))];
    assert(first_step.drop_last() =~= Seq::<StepView>::empty());
    assert(two_steps.drop_last() =~= first_step);
    assert(plan.drop_last() =~= two_steps);
    let e = Seq::<Miscompare>::empty();
    let m1 = filled(mem.len(), v, v, lanes);
    let m2 = filled(mem.len(), invert(v), invert(v), lanes);
    assert(e + e =~= e);
    assert(run_spec(mem, Seq::<StepView>::empty(), lanes) == (mem, e));
    assert(first_step.last() == uniform(SweepOp::FillUp, v));
    assert(run_spec(mem, first_step, lanes) == (m1, e));
    assert(m1.len() == mem.len());
    assert(run_spec(mem, two_steps, lanes) == (m2, e));
    lemma_fill_verify_fixpoint(
        m1,
        uniform(SweepOp::FillUp, invert(v)),
        uniform(SweepOp::VerifyUp, invert(v)),
        lanes,
    );
    assert(Seq::<Miscompare>::empty() + Seq::<Miscompare>::empty() + Seq::<Miscompare>::empty()
        =~= Seq::<Miscompare>::empty());
}


/// Bytes of words `0..n` that differ from what a step expects of them.
pub open spec fn words_diff(mem: Seq<u64>, even: Seq<u64>, odd: Seq<u64>, lanes: nat, n: int) -> nat
    decreases n,
{
    if n <= 0 {
        0
    } else {
        words_diff(mem, even, odd, lanes, n - 1) + word_diff(
            mem[n - 1],
            expected_word(even, odd, lanes, n - 1),
        )
    }
}

/// The differing bytes a list of reports accounts for.
pub open spec fn report_total(rs: Seq<Miscompare>) -> int
    decreases rs.len(),
{
    if rs.len() == 0 {
        0
    } else {
        report_total(rs.drop_last()) + rs.last().bytes
    }
}

proof fn lemma_report_total_concat(a: Seq<Miscompare>, b: Seq<Miscompare>)
    ensures
        report_total(a + b) == report_total(a) + report_total(b),
    decreases b.len(),
{
    if b.len() > 0 {
        lemma_report_total_concat(a, b.drop_last());
        assert((a + b).drop_last() =~= a + b.drop_last());
    } else {
        assert(a + b =~= a);
    }
}

proof fn lemma_slot_words(mem: Seq<u64>, even: Seq<u64>, odd: Seq<u64>, lanes: nat, w0: int, l: nat)
    requires
        w0 >= 0,
    ensures
        slot_diff_upto(mem, 0, w0, even, odd, lanes, l) == words_diff(mem, even, odd, lanes, w0 + l)
            - words_diff(mem, even, odd, lanes, w0),
    decreases l,
{
    if l > 0 {
        lemma_slot_words(mem, even, odd, lanes, w0, (l - 1) as nat);
    }
}

proof fn lemma_slot_report_total(mem: Seq<u64>, even: Seq<u64>, odd: Seq<u64>, lanes: nat, s: int)
    requires
        s >= 0,
        1 <= lanes <= 8,
    ensures
        report_total(slot_report(mem, 0, s, even, odd, lanes)) == words_diff(
            mem,
            even,
            odd,
            lanes,
            s * lanes + lanes,
        ) - words_diff(mem, even, odd, lanes, s * lanes),
{
    assert(s * lanes >= 0) by (nonlinear_arith)
        requires
            s >= 0,
    ;
    lemma_slot_words(mem, even, odd, lanes, s * lanes, lanes);
    let d = slot_diff(mem, 0, s, even, odd, lanes);
    lemma_slot_diff_bound(mem, 0, s * lanes, even, odd, lanes, lanes);
    let r = slot_report(mem, 0, s, even, odd, lanes);
    assert(d <= 64);
    if d > 0 {
        assert(r.drop_last() =~= Seq::<Miscompare>::empty());
        assert(r.last().bytes == d);
        assert(report_total(r) == report_total(r.drop_last()) + d);
    } else {
        assert(r =~= Seq::<Miscompare>::empty());
    }
}

proof fn lemma_slot_diff_bound(
    mem: Seq<u64>,
    origin: int,
    w0: int,
    even: Seq<u64>,
    odd: Seq<u64>,
    lanes: nat,
    l: nat,
)
    ensures
        slot_diff_upto(mem, origin, w0, even, odd, lanes, l) <= 8 * l,
    decreases l,
{
    if l > 0 {
        lemma_slot_diff_bound(mem, origin, w0, even, odd, lanes, (l - 1) as nat);
        lemma_nonzero_bytes_bound(
            mem[w0 + l - 1] ^ expected_word(even, odd, lanes, origin + w0 + l - 1),
            8,
        );
    }
}

/// The reports of an ascending or descending verify over slots `lo..hi`
/// account for every differing byte of those slots, each exactly once.
pub proof fn lemma_reports_count_every_byte(
    mem: Seq<u64>,
    even: Seq<u64>,
    odd: Seq<u64>,
    lanes: nat,
    lo: int,
    hi: int,
)
    requires
        0 <= lo <= hi,
        1 <= lanes <= 8,
    ensures
        report_total(reports_up(mem, 0, even, odd, lanes, lo, hi)) == words_diff(
            mem,
            even,
            odd,
            lanes,
            hi * lanes,
        ) - words_diff(mem, even, odd, lanes, lo * lanes),
        report_total(reports_down(mem, 0, even, odd, lanes, lo, hi)) == words_diff(
            mem,
            even,
            odd,
            lanes,
            hi * lanes,
        ) - words_diff(mem, even, odd, lanes, lo * lanes),
    decreases hi - lo,
{
    if lo < hi {
        assert((hi - 1) * lanes + lanes == hi * lanes) by (nonlinear_arith);
        assert(lo * lanes + lanes == (lo + 1) * lanes) by (nonlinear_arith);
        lemma_reports_count_every_byte(mem, even, odd, lanes, lo, hi - 1);
        lemma_reports_count_every_byte(mem, even, odd, lanes, lo + 1, hi);
        lemma_slot_report_total(mem, even, odd, lanes, hi - 1);
        lemma_slot_report_total(mem, even, odd, lanes, lo);
        lemma_report_total_concat(
            reports_up(mem, 0, even, odd, lanes, lo, hi - 1),
            slot_report(mem, 0, hi - 1, even, odd, lanes),
        );
        lemma_report_total_concat(
            reports_down(mem, 0, even, odd, lanes, lo + 1, hi),
            slot_report(mem, 0, lo, even, odd, lanes),
        );
    }
}

} // verus!
