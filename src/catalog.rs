//! The test kinds, their wire names and the per-ISA catalog of test definitions.
use vstd::prelude::*;
use vstd::string::StringSliceAdditionalSpecFns;
use crate::hardware::InstructionSet;

verus! {

/// The fourteen pattern tests.
#[derive(Clone, Copy, Debug, PartialEq, Eq, Structural, Hash)]
pub enum TestKind {
    BasicTests,
    RandomInversions,
    MovingInversionsLeft64,
    MovingInversionsRight32,
    MovingInversionsLeft16,
    MovingInversionsRight8,
    MovingInversionsLeft4,
    MovingSaturationsRight16,
    MovingSaturationsLeft8,
    Walking1,
    Walking0,
    Checkerboard,
    AntiPatterns,
    InverseDataPatterns,
}

/// The name under which a test is selected and reported.
pub open spec fn wire_name(k: TestKind) -> &'static str {
    match k {
        TestKind::BasicTests => "basic_tests",
        TestKind::RandomInversions => "random_inversions",
        TestKind::MovingInversionsLeft64 => "moving_inversions_left_64",
        TestKind::MovingInversionsRight32 => "moving_inversions_right_32",
        TestKind::MovingInversionsLeft16 => "moving_inversions_left_16",
        TestKind::MovingInversionsRight8 => "moving_inversions_right_8",
        TestKind::MovingInversionsLeft4 => "moving_inversions_left_4",
        TestKind::MovingSaturationsRight16 => "moving_saturations_right_16",
        TestKind::MovingSaturationsLeft8 => "moving_saturations_left_8",
        TestKind::Walking1 => "walking1",
        TestKind::Walking0 => "walking0",
        TestKind::Checkerboard => "checkerboard",
        TestKind::AntiPatterns => "anti_patterns",
        TestKind::InverseDataPatterns => "inverse_data_patterns",
    }
}

/// Every kind, in declaration order.
pub open spec fn all_kinds() -> Seq<TestKind> {
    seq![
        TestKind::BasicTests,
        TestKind::RandomInversions,
        TestKind::MovingInversionsLeft64,
        TestKind::MovingInversionsRight32,
        TestKind::MovingInversionsLeft16,
        TestKind::MovingInversionsRight8,
        TestKind::MovingInversionsLeft4,
        TestKind::MovingSaturationsRight16,
        TestKind::MovingSaturationsLeft8,
        TestKind::Walking1,
        TestKind::Walking0,
        TestKind::Checkerboard,
        TestKind::AntiPatterns,
        TestKind::InverseDataPatterns,
    ]
}

pub proof fn lemma_all_kinds_complete(k: TestKind)
    ensures
        all_kinds().contains(k),
{
    let a = all_kinds();
    match k {
        TestKind::BasicTests => assert(a[0] == k),
        TestKind::RandomInversions => assert(a[1] == k),
        TestKind::MovingInversionsLeft64 => assert(a[2] == k),
        TestKind::MovingInversionsRight32 => assert(a[3] == k),
        TestKind::MovingInversionsLeft16 => assert(a[4] == k),
        TestKind::MovingInversionsRight8 => assert(a[5] == k),
        TestKind::MovingInversionsLeft4 => assert(a[6] == k),
        TestKind::MovingSaturationsRight16 => assert(a[7] == k),
        TestKind::MovingSaturationsLeft8 => assert(a[8] == k),
        TestKind::Walking1 => assert(a[9] == k),
        TestKind::Walking0 => assert(a[10] == k),
        TestKind::Checkerboard => assert(a[11] == k),
        TestKind::AntiPatterns => assert(a[12] == k),
        TestKind::InverseDataPatterns => assert(a[13] == k),
    }
}

/// Every kind, in declaration order.
pub fn kinds() -> (r: Vec<TestKind>)
    ensures
        r@ == all_kinds(),
{
    let r = vec![
        TestKind::BasicTests,
        TestKind::RandomInversions,
        TestKind::MovingInversionsLeft64,
        TestKind::MovingInversionsRight32,
        TestKind::MovingInversionsLeft16,
        TestKind::MovingInversionsRight8,
        TestKind::MovingInversionsLeft4,
        TestKind::MovingSaturationsRight16,
        TestKind::MovingSaturationsLeft8,
        TestKind::Walking1,
        TestKind::Walking0,
        TestKind::Checkerboard,
        TestKind::AntiPatterns,
        TestKind::InverseDataPatterns,
    ];
    assert(r@ =~= all_kinds());
    r
}

/// Whether two byte strings are equal.
fn bytes_equal(a: &[u8], b: &[u8]) -> (r: bool)
    ensures
        r == (a@ == b@),
{
    if a.len() != b.len() {
        return false;
    }
    let mut i: usize = 0;
    while i < a.len()
        invariant
            a@.len() == b@.len(),
            0 <= i <= a@.len(),
            forall|j: int| 0 <= j < i ==> a@[j] == b@[j],
        decreases a@.len() - i,
    {
        if a[i] != b[i] {
            return false;
        }
        i = i + 1;
    }
    assert(a@ =~= b@);
    true
}

impl TestKind {
    /// The wire name of this kind.
    pub fn name(&self) -> (r: &'static str)
        ensures
            r == wire_name(*self),
    {
        match self {
            TestKind::BasicTests => "basic_tests",
            TestKind::RandomInversions => "random_inversions",
            TestKind::MovingInversionsLeft64 => "moving_inversions_left_64",
            TestKind::MovingInversionsRight32 => "moving_inversions_right_32",
            TestKind::MovingInversionsLeft16 => "moving_inversions_left_16",
            TestKind::MovingInversionsRight8 => "moving_inversions_right_8",
            TestKind::MovingInversionsLeft4 => "moving_inversions_left_4",
            TestKind::MovingSaturationsRight16 => "moving_saturations_right_16",
            TestKind::MovingSaturationsLeft8 => "moving_saturations_left_8",
            TestKind::Walking1 => "walking1",
            TestKind::Walking0 => "walking0",
            TestKind::Checkerboard => "checkerboard",
            TestKind::AntiPatterns => "anti_patterns",
            TestKind::InverseDataPatterns => "inverse_data_patterns",
        }
    }

    /// The kind whose wire name is `s`, if any.
    pub fn parse(s: &str) -> (r: Option<TestKind>)
        ensures
            r matches Some(k) ==> s.spec_bytes() == wire_name(k).spec_bytes(),
            r is None ==> forall|k: TestKind| s.spec_bytes() != #[trigger] wire_name(k).spec_bytes(),
    {
        let r = TestKind::parse_bytes(s.as_bytes());
        proof {
            lemma_kind_of_in(s.spec_bytes(), all_kinds());
            if r is None {
                assert forall|k: TestKind| s.spec_bytes() != #[trigger] wire_name(k).spec_bytes() by {
                    lemma_all_kinds_complete(k);
                    let j = all_kinds().index_of(k);
                    assert(all_kinds()[j] == k);
                }
            }
        }
        r
    }

    /// The kind whose wire name has the UTF-8 bytes `b`, if any.
    pub fn parse_bytes(b: &[u8]) -> (r: Option<TestKind>)
        ensures
            r == kind_of(b@),
    {
        let all = kinds();
        let mut i: usize = 0;
        assert(all@.subrange(0, 14) =~= all@);
        while i < all.len()
            invariant
                all@ == all_kinds(),
                0 <= i <= all@.len(),
                kind_of(b@) == kind_of_in(b@, all@.subrange(i as int, 14)),
            decreases all@.len() - i,
        {
            let k = all[i];
            proof {
                let rest = all@.subrange(i as int, 14);
                assert(rest[0] == k);
                assert(rest.drop_first() =~= all@.subrange(i as int + 1, 14));
            }
            if bytes_equal(b, k.name().as_bytes()) {
                return Some(k);
            }
            i = i + 1;
        }
        None
    }
}

/// The first of `ks` whose wire name is spelled by the bytes `b`.
pub open spec fn kind_of_in(b: Seq<u8>, ks: Seq<TestKind>) -> Option<TestKind>
    decreases ks.len(),
{
    if ks.len() == 0 {
        None
    } else if b == wire_name(ks[0]).spec_bytes() {
        Some(ks[0])
    } else {
        kind_of_in(b, ks.drop_first())
    }
}

/// The kind whose wire name is spelled by the bytes `b`.
pub open spec fn kind_of(b: Seq<u8>) -> Option<TestKind> {
    kind_of_in(b, all_kinds())
}

proof fn lemma_kind_of_in(b: Seq<u8>, ks: Seq<TestKind>)
    ensures
        kind_of_in(b, ks) matches Some(k) ==> b == wire_name(k).spec_bytes(),
        kind_of_in(b, ks) is None ==> forall|i: int| 0 <= i < ks.len() ==> b != wire_name(#[trigger] ks[i]).spec_bytes(),
    decreases ks.len(),
{
    if ks.len() > 0 {
        lemma_kind_of_in(b, ks.drop_first());
        if kind_of_in(b, ks) is None {
            assert forall|i: int| 0 <= i < ks.len() implies b != wire_name(#[trigger] ks[i]).spec_bytes() by {
                if i > 0 {
                    assert(ks[i] == ks.drop_first()[i - 1]);
                }
            }
        }
    }
}


/// A catalog entry. `passes` and `iters` only describe the traffic one call
/// generates (their product times the buffer size), for bandwidth figures;
/// `loops` is how many calls a run makes, zero meaning the test is skipped.
#[derive(Clone, Copy, Debug)]
pub struct TestDefinition {
    pub name: &'static str,
    pub passes: usize,
    pub iters: usize,
    pub loops: usize,
    pub kind: TestKind,
}

/// The canonical `(passes, iters, loops)` of each test.
pub open spec fn counts_of(k: TestKind) -> (usize, usize, usize) {
    match k {
        TestKind::BasicTests => (4, 6, 1),
        TestKind::RandomInversions => (4, 16, 1),
        TestKind::MovingInversionsLeft64 => (4, 64, 1),
        TestKind::MovingInversionsRight32 => (4, 32, 1),
        TestKind::MovingInversionsLeft16 => (4, 16, 1),
        TestKind::MovingInversionsRight8 => (4, 8, 1),
        TestKind::MovingInversionsLeft4 => (4, 4, 1),
        TestKind::MovingSaturationsRight16 => (8, 16, 1),
        TestKind::MovingSaturationsLeft8 => (8, 8, 1),
        TestKind::Walking1 => (4, 64, 1),
        TestKind::Walking0 => (4, 64, 1),
        TestKind::Checkerboard => (4, 1, 8),
        TestKind::AntiPatterns => (8, 34, 1),
        TestKind::InverseDataPatterns => (4, 14, 1),
    }
}

/// The catalog entry of a kind.
pub open spec fn def_of(k: TestKind) -> TestDefinition {
    TestDefinition {
        name: wire_name(k),
        passes: counts_of(k).0,
        iters: counts_of(k).1,
        loops: counts_of(k).2,
        kind: k,
    }
}

/// The catalog entry of a kind.
pub fn definition(k: TestKind) -> (r: TestDefinition)
    ensures
        r == def_of(k),
{
    let (passes, iters, loops): (usize, usize, usize) = match k {
        TestKind::BasicTests => (4, 6, 1),
        TestKind::RandomInversions => (4, 16, 1),
        TestKind::MovingInversionsLeft64 => (4, 64, 1),
        TestKind::MovingInversionsRight32 => (4, 32, 1),
        TestKind::MovingInversionsLeft16 => (4, 16, 1),
        TestKind::MovingInversionsRight8 => (4, 8, 1),
        TestKind::MovingInversionsLeft4 => (4, 4, 1),
        TestKind::MovingSaturationsRight16 => (8, 16, 1),
        TestKind::MovingSaturationsLeft8 => (8, 8, 1),
        TestKind::Walking1 => (4, 64, 1),
        TestKind::Walking0 => (4, 64, 1),
        TestKind::Checkerboard => (4, 1, 8),
        TestKind::AntiPatterns => (8, 34, 1),
        TestKind::InverseDataPatterns => (4, 14, 1),
    };
    TestDefinition { name: k.name(), passes, iters, loops, kind: k }
}

/// The whole catalog, in declaration order.
pub open spec fn catalog() -> Seq<TestDefinition> {
    all_kinds().map_values(|k: TestKind| def_of(k))
}

fn full_catalog() -> (r: Vec<TestDefinition>)
    ensures
        r@ == catalog(),
{
    let ks = kinds();
    let mut r: Vec<TestDefinition> = Vec::new();
    let mut i: usize = 0;
    while i < ks.len()
        invariant
            ks@ == all_kinds(),
            i <= ks@.len(),
            r@.len() == i,
            forall|j: int| 0 <= j < i ==> #[trigger] r@[j] == def_of(ks@[j]),
        decreases ks@.len() - i,
    {
        r.push(definition(ks[i]));
        i = i + 1;
    }
    assert(r@ =~= catalog());
    r
}

/// The catalog of the 256-bit path.
pub fn avx2_definitions() -> (r: Vec<TestDefinition>)
    ensures
        r@ == catalog(),
{
    full_catalog()
}

/// The catalog of the 512-bit path.
pub fn avx512_definitions() -> (r: Vec<TestDefinition>)
    ensures
        r@ == catalog(),
{
    full_catalog()
}

/// The catalog of a path; a host without SIMD has none.
pub open spec fn catalog_for(isa: InstructionSet) -> Seq<TestDefinition> {
    if isa == InstructionSet::SSE {
        Seq::empty()
    } else {
        catalog()
    }
}

/// The catalog of a path; none without SIMD.
pub fn get_test_definitions_for_isa(isa: InstructionSet) -> (r: Vec<TestDefinition>)
    ensures
        r@ == catalog_for(isa),
{
    match isa {
        InstructionSet::AVX512 => avx512_definitions(),
        InstructionSet::AVX2 => avx2_definitions(),
        InstructionSet::SSE => Vec::new(),
    }
}

/// One line of a test selection: a test and, optionally, its call count.
#[derive(Clone, Copy, Debug, PartialEq, Eq, Structural)]
pub struct TestConfigEntry {
    pub kind: TestKind,
    pub loops: Option<usize>,
}

/// Every kind, ordered by wire name.
pub open spec fn kinds_by_name() -> Seq<TestKind> {
    seq![
        TestKind::AntiPatterns,
        TestKind::BasicTests,
        TestKind::Checkerboard,
        TestKind::InverseDataPatterns,
        TestKind::MovingInversionsLeft16,
        TestKind::MovingInversionsLeft4,
        TestKind::MovingInversionsLeft64,
        TestKind::MovingInversionsRight32,
        TestKind::MovingInversionsRight8,
        TestKind::MovingSaturationsLeft8,
        TestKind::MovingSaturationsRight16,
        TestKind::RandomInversions,
        TestKind::Walking0,
        TestKind::Walking1,
    ]
}

/// The entry a selection line yields: the catalog entry with its call count
/// replaced when the line gives one.
pub open spec fn bound_entry(e: TestConfigEntry) -> TestDefinition {
    let d = def_of(e.kind);
    TestDefinition {
        loops: match e.loops {
            Some(n) => n,
            None => d.loops,
        },
        ..d
    }
}

/// The tests a run performs for a selection: with no selection the whole
/// catalog of the path ordered by name, else the selected tests in the
/// given order with their call counts. A host without SIMD has none.
pub open spec fn selection_spec(entries: Seq<TestConfigEntry>, isa: InstructionSet) -> Seq<
    TestDefinition,
> {
    if isa == InstructionSet::SSE {
        Seq::empty()
    } else if entries.len() == 0 {
        kinds_by_name().map_values(|k: TestKind| def_of(k))
    } else {
        entries.map_values(|e: TestConfigEntry| bound_entry(e))
    }
}

/// Binds a test selection to the catalog of a path.
pub fn build_tests_from_config(entries: &[TestConfigEntry], isa: InstructionSet) -> (r: Vec<
    TestDefinition,
>)
    ensures
        r@ == selection_spec(entries@, isa),
        forall|i: int| 0 <= i < r@.len() ==> (#[trigger] r@[i]).passes <= 8 && r@[i].iters <= 64,
{
    if isa == InstructionSet::SSE {
        return Vec::new();
    }
    let mut r: Vec<TestDefinition> = Vec::new();
    if entries.len() == 0 {
        let order = vec![
            TestKind::AntiPatterns,
            TestKind::BasicTests,
            TestKind::Checkerboard,
            TestKind::InverseDataPatterns,
            TestKind::MovingInversionsLeft16,
            TestKind::MovingInversionsLeft4,
            TestKind::MovingInversionsLeft64,
            TestKind::MovingInversionsRight32,
            TestKind::MovingInversionsRight8,
            TestKind::MovingSaturationsLeft8,
            TestKind::MovingSaturationsRight16,
            TestKind::RandomInversions,
            TestKind::Walking0,
            TestKind::Walking1,
        ];
        assert(order@ =~= kinds_by_name());
        let mut i: usize = 0;
        while i < order.len()
            invariant
                order@ == kinds_by_name(),
                i <= order@.len(),
                r@.len() == i,
                forall|j: int| 0 <= j < i ==> #[trigger] r@[j] == def_of(order@[j]),
            decreases order@.len() - i,
        {
            r.push(definition(order[i]));
            i = i + 1;
        }
        assert(r@ =~= selection_spec(entries@, isa));
        return r;
    }
    let mut i: usize = 0;
    while i < entries.len()
        invariant
            i <= entries@.len(),
            r@.len() == i,
            forall|j: int| 0 <= j < i ==> #[trigger] r@[j] == bound_entry(entries@[j]),
        decreases entries@.len() - i,
    {
        let e = entries[i];
        let d = definition(e.kind);
        let loops = match e.loops {
            Some(n) => n,
            None => d.loops,
        };
        r.push(TestDefinition { loops, ..d });
        i = i + 1;
    }
    assert(r@ =~= selection_spec(entries@, isa));
    r
}

/// Every test a run performs is nominal traffic of at least one buffer per
/// call: a test that is not skipped contributes at least one unit to the
/// bandwidth sum, and a skipped one contributes nothing.
pub proof fn lemma_traffic_positive(entries: Seq<TestConfigEntry>, isa: InstructionSet, i: int)
    requires
        0 <= i < selection_spec(entries, isa).len(),
    ensures
        selection_spec(entries, isa)[i].loops > 0 ==> selection_spec(entries, isa)[i].passes
            * selection_spec(entries, isa)[i].iters * selection_spec(entries, isa)[i].loops >= 1,
        selection_spec(entries, isa)[i].loops == 0 ==> selection_spec(entries, isa)[i].passes
            * selection_spec(entries, isa)[i].iters * selection_spec(entries, isa)[i].loops == 0,
{
    let d = selection_spec(entries, isa)[i];
    assert(d.passes >= 1 && d.iters >= 1);
    if d.loops > 0 {
        assert(d.passes * d.iters >= 1) by (nonlinear_arith)
            requires
                d.passes >= 1,
                d.iters >= 1,
        ;
        assert(d.passes * d.iters * d.loops >= 1) by (nonlinear_arith)
            requires
                d.passes * d.iters >= 1,
                d.loops >= 1,
        ;
    } else {
        assert(d.passes * d.iters * d.loops == 0) by (nonlinear_arith)
            requires
                d.loops == 0,
        ;
    }
}


/// `a` comes strictly before `b` in lexicographic order.
pub open spec fn lex_lt(a: Seq<char>, b: Seq<char>) -> bool {
    exists|i: int|
        0 <= i <= a.len() && i <= b.len() && #[trigger] a.subrange(0, i) == b.subrange(0, i) && ((i
            == a.len() && i < b.len()) || (i < a.len() && i < b.len() && (a[i] as u32) < (
        b[i] as u32)))
}

proof fn lemma_lt_at(a: Seq<char>, b: Seq<char>, i: int)
    requires
        0 <= i < a.len(),
        i < b.len(),
        forall|j: int| 0 <= j < i ==> a[j] == b[j],
        (a[i] as u32) < (b[i] as u32),
    ensures
        lex_lt(a, b),
{
    assert(a.subrange(0, i) =~= b.subrange(0, i));
}

proof fn lemma_names_in_order_0()
    ensures
        lex_lt("anti_patterns"@, "basic_tests"@),
{
    reveal_strlit("anti_patterns");
    reveal_strlit("basic_tests");
    lemma_lt_at("anti_patterns"@, "basic_tests"@, 0);
}

proof fn lemma_names_in_order_1()
    ensures
        lex_lt("basic_tests"@, "checkerboard"@),
{
    reveal_strlit("basic_tests");
    reveal_strlit("checkerboard");
    lemma_lt_at("basic_tests"@, "checkerboard"@, 0);
}

proof fn lemma_names_in_order_2()
    ensures
        lex_lt("checkerboard"@, "inverse_data_patterns"@),
{
    reveal_strlit("checkerboard");
    reveal_strlit("inverse_data_patterns");
    lemma_lt_at("checkerboard"@, "inverse_data_patterns"@, 0);
}

proof fn lemma_names_in_order_3()
    ensures
        lex_lt("inverse_data_patterns"@, "moving_inversions_left_16"@),
{
    reveal_strlit("inverse_data_patterns");
    reveal_strlit("moving_inversions_left_16");
    lemma_lt_at("inverse_data_patterns"@, "moving_inversions_left_16"@, 0);
}

proof fn lemma_names_in_order_4()
    ensures
        lex_lt("moving_inversions_left_16"@, "moving_inversions_left_4"@),
{
    reveal_strlit("moving_inversions_left_16");
    reveal_strlit("moving_inversions_left_4");
    lemma_lt_at("moving_inversions_left_16"@, "moving_inversions_left_4"@, 23);
}

proof fn lemma_names_in_order_5()
    ensures
        lex_lt("moving_inversions_left_4"@, "moving_inversions_left_64"@),
{
    reveal_strlit("moving_inversions_left_4");
    reveal_strlit("moving_inversions_left_64");
    lemma_lt_at("moving_inversions_left_4"@, "moving_inversions_left_64"@, 23);
}

proof fn lemma_names_in_order_6()
    ensures
        lex_lt("moving_inversions_left_64"@, "moving_inversions_right_32"@),
{
    reveal_strlit("moving_inversions_left_64");
    reveal_strlit("moving_inversions_right_32");
    lemma_lt_at("moving_inversions_left_64"@, "moving_inversions_right_32"@, 18);
}

proof fn lemma_names_in_order_7()
    ensures
        lex_lt("moving_inversions_right_32"@, "moving_inversions_right_8"@),
{
    reveal_strlit("moving_inversions_right_32");
    reveal_strlit("moving_inversions_right_8");
    lemma_lt_at("moving_inversions_right_32"@, "moving_inversions_right_8"@, 24);
}

proof fn lemma_names_in_order_8()
    ensures
        lex_lt("moving_inversions_right_8"@, "moving_saturations_left_8"@),
{
    reveal_strlit("moving_inversions_right_8");
    reveal_strlit("moving_saturations_left_8");
    lemma_lt_at("moving_inversions_right_8"@, "moving_saturations_left_8"@, 7);
}

proof fn lemma_names_in_order_9()
    ensures
        lex_lt("moving_saturations_left_8"@, "moving_saturations_right_16"@),
{
    reveal_strlit("moving_saturations_left_8");
    reveal_strlit("moving_saturations_right_16");
    lemma_lt_at("moving_saturations_left_8"@, "moving_saturations_right_16"@, 19);
}

proof fn lemma_names_in_order_10()
    ensures
        lex_lt("moving_saturations_right_16"@, "random_inversions"@),
{
    reveal_strlit("moving_saturations_right_16");
    reveal_strlit("random_inversions");
    lemma_lt_at("moving_saturations_right_16"@, "random_inversions"@, 0);
}

proof fn lemma_names_in_order_11()
    ensures
        lex_lt("random_inversions"@, "walking0"@),
{
    reveal_strlit("random_inversions");
    reveal_strlit("walking0");
    lemma_lt_at("random_inversions"@, "walking0"@, 0);
}

proof fn lemma_names_in_order_12()
    ensures
        lex_lt("walking0"@, "walking1"@),
{
    reveal_strlit("walking0");
    reveal_strlit("walking1");
    lemma_lt_at("walking0"@, "walking1"@, 7);
}

proof fn lemma_adjacent_names_ordered(k: int)
    requires
        0 <= k < 13,
    ensures
        lex_lt(wire_name(kinds_by_name()[k])@, wire_name(kinds_by_name()[k + 1])@),
{
    if k == 0 {
        lemma_names_in_order_0();
    }
    if k == 1 {
        lemma_names_in_order_1();
    }
    if k == 2 {
        lemma_names_in_order_2();
    }
    if k == 3 {
        lemma_names_in_order_3();
    }
    if k == 4 {
        lemma_names_in_order_4();
    }
    if k == 5 {
        lemma_names_in_order_5();
    }
    if k == 6 {
        lemma_names_in_order_6();
    }
    if k == 7 {
        lemma_names_in_order_7();
    }
    if k == 8 {
        lemma_names_in_order_8();
    }
    if k == 9 {
        lemma_names_in_order_9();
    }
    if k == 10 {
        lemma_names_in_order_10();
    }
    if k == 11 {
        lemma_names_in_order_11();
    }
    if k == 12 {
        lemma_names_in_order_12();
    }
}

proof fn lemma_kinds_by_name_complete(t: TestKind)
    ensures
        kinds_by_name().contains(t),
{
    let o = kinds_by_name();
    match t {
        TestKind::AntiPatterns => assert(o[0] == t),
        TestKind::BasicTests => assert(o[1] == t),
        TestKind::Checkerboard => assert(o[2] == t),
        TestKind::InverseDataPatterns => assert(o[3] == t),
        TestKind::MovingInversionsLeft16 => assert(o[4] == t),
        TestKind::MovingInversionsLeft4 => assert(o[5] == t),
        TestKind::MovingInversionsLeft64 => assert(o[6] == t),
        TestKind::MovingInversionsRight32 => assert(o[7] == t),
        TestKind::MovingInversionsRight8 => assert(o[8] == t),
        TestKind::MovingSaturationsLeft8 => assert(o[9] == t),
        TestKind::MovingSaturationsRight16 => assert(o[10] == t),
        TestKind::RandomInversions => assert(o[11] == t),
        TestKind::Walking0 => assert(o[12] == t),
        TestKind::Walking1 => assert(o[13] == t),
    }
}

/// With no selection, a run performs every test of the catalog exactly
/// once, in lexicographic order of the test names.
pub proof fn lemma_default_selection_sorted(isa: InstructionSet)
    requires
        isa != InstructionSet::SSE,
    ensures
        selection_spec(Seq::empty(), isa) == kinds_by_name().map_values(|t: TestKind| def_of(t)),
        forall|t: TestKind| #[trigger] kinds_by_name().contains(t),
        forall|k: int|
            0 <= k < 13 ==> lex_lt(
                (#[trigger] selection_spec(Seq::empty(), isa)[k]).name@,
                selection_spec(Seq::empty(), isa)[k + 1].name@,
            ),
{
    let sel = selection_spec(Seq::empty(), isa);
    assert(sel == kinds_by_name().map_values(|t: TestKind| def_of(t)));
    assert forall|t: TestKind| #[trigger] kinds_by_name().contains(t) by {
        lemma_kinds_by_name_complete(t);
    }
    assert forall|k: int| 0 <= k < 13 implies lex_lt(
        (#[trigger] sel[k]).name@,
        sel[k + 1].name@,
    ) by {
        lemma_adjacent_names_ordered(k);
        assert(sel[k].name == wire_name(kinds_by_name()[k]));
        assert(sel[k + 1].name == wire_name(kinds_by_name()[k + 1]));
    }
}

} // verus!
