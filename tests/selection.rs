use manganese::catalog::{
    avx2_definitions, avx512_definitions, build_tests_from_config, get_test_definitions_for_isa,
    TestConfigEntry, TestKind,
};
use manganese::config::{parse_config, BadConfigLine};
use manganese::hardware::{instruction_set_from_cpuid, lanes_for, InstructionSet};
use manganese::run::{
    attempt_sizes, banner, next_action, pinned_size, start_cursor, traffic_units, Banner,
    EngineError, RunAction, RunCursor, BACKOFF,
};

#[test]
fn config_binder_keeps_order_and_loops() {
    let entries = [
        TestConfigEntry { kind: TestKind::Walking1, loops: None },
        TestConfigEntry { kind: TestKind::Checkerboard, loops: Some(0) },
        TestConfigEntry { kind: TestKind::BasicTests, loops: Some(3) },
    ];
    let defs = build_tests_from_config(&entries, InstructionSet::AVX2);
    let names: Vec<&str> = defs.iter().map(|d| d.name).collect();
    assert_eq!(names, vec!["walking1", "checkerboard", "basic_tests"]);
    let loops: Vec<usize> = defs.iter().map(|d| d.loops).collect();
    assert_eq!(loops, vec![1, 0, 3]);
    assert_eq!((defs[2].passes, defs[2].iters), (4, 6));
}

#[test]
fn empty_selection_is_whole_catalog_by_name() {
    let defs = build_tests_from_config(&[], InstructionSet::AVX512);
    assert_eq!(defs.len(), 14);
    let names: Vec<&str> = defs.iter().map(|d| d.name).collect();
    let mut sorted = names.clone();
    sorted.sort();
    assert_eq!(names, sorted);
    assert_eq!(names[0], "anti_patterns");
    assert_eq!(names[13], "walking1");
}

#[test]
fn no_simd_has_no_tests() {
    assert!(build_tests_from_config(&[], InstructionSet::SSE).is_empty());
    assert!(get_test_definitions_for_isa(InstructionSet::SSE).is_empty());
    assert_eq!(get_test_definitions_for_isa(InstructionSet::AVX2).len(), 14);
}

#[test]
fn catalog_counters() {
    let defs = avx512_definitions();
    let d = defs.iter().find(|d| d.kind == TestKind::Checkerboard).unwrap();
    assert_eq!((d.passes, d.iters, d.loops), (4, 1, 8));
    let d = avx2_definitions().into_iter().find(|d| d.kind == TestKind::AntiPatterns).unwrap();
    assert_eq!((d.name, d.passes, d.iters, d.loops), ("anti_patterns", 8, 34, 1));
}

#[test]
fn traffic_of_default_selection() {
    let defs = build_tests_from_config(&[], InstructionSet::AVX2);
    assert_eq!(traffic_units(&defs), Some(1648));
    for d in &defs {
        assert!(d.passes * d.iters * d.loops >= 1);
    }
}

#[test]
fn skipped_test_adds_no_traffic_and_never_runs() {
    let entries = [TestConfigEntry { kind: TestKind::Walking0, loops: Some(0) }];
    let defs = build_tests_from_config(&entries, InstructionSet::AVX2);
    assert_eq!(traffic_units(&defs), Some(0));
    assert_eq!(banner(&defs[0]), Banner::Skipping);
    let (c1, a1) = next_action(&defs, start_cursor(), false);
    assert_eq!(a1, RunAction::Announce(0));
    let (c2, a2) = next_action(&defs, c1, false);
    assert_eq!(a2, RunAction::Advance);
    let (_, a3) = next_action(&defs, c2, false);
    assert_eq!(a3, RunAction::Summary);
}

#[test]
fn banners() {
    let defs = build_tests_from_config(
        &[
            TestConfigEntry { kind: TestKind::Checkerboard, loops: None },
            TestConfigEntry { kind: TestKind::Walking0, loops: None },
        ],
        InstructionSet::AVX2,
    );
    assert_eq!(banner(&defs[0]), Banner::RunningTimes(8));
    assert_eq!(banner(&defs[1]), Banner::Running);
}

#[test]
fn stop_flag_prevents_further_calls() {
    let defs = build_tests_from_config(
        &[TestConfigEntry { kind: TestKind::MovingInversionsLeft64, loops: Some(3) }],
        InstructionSet::AVX2,
    );
    let cur = RunCursor { test: 0, calls: 1, announced: true };
    let (next, act) = next_action(&defs, cur, false);
    assert_eq!(act, RunAction::Invoke(0));
    let (same, act) = next_action(&defs, next, true);
    assert_eq!(act, RunAction::Stop);
    assert_eq!(same, next);
}

#[test]
fn requests_below_one_unit_pin_nothing() {
    assert!(attempt_sizes(0, 4096 * 8).is_empty());
    assert!(attempt_sizes(4096 * 8 - 1, 4096 * 8).is_empty());
    assert_eq!(pinned_size(&attempt_sizes(100, 4096), None), Err(EngineError::NoMemoryPinned));
}

#[test]
fn backoff_sizes() {
    let a = 4 * 4096;
    let sizes = attempt_sizes(BACKOFF + BACKOFF / 2 + 5, a);
    assert_eq!(sizes, vec![BACKOFF + BACKOFF / 2, BACKOFF / 2]);
    assert_eq!(pinned_size(&sizes, Some(1)), Ok(BACKOFF / 2));
    assert_eq!(attempt_sizes(BACKOFF, a), vec![BACKOFF]);
}

#[test]
fn instruction_set_choice() {
    assert_eq!(instruction_set_from_cpuid((1 << 16) | (1 << 30) | (1 << 5)), InstructionSet::AVX512);
    assert_eq!(instruction_set_from_cpuid((1 << 16) | (1 << 5)), InstructionSet::AVX2);
    assert_eq!(instruction_set_from_cpuid(0), InstructionSet::SSE);
    assert_eq!(lanes_for(InstructionSet::AVX512), 8);
    assert_eq!(lanes_for(InstructionSet::AVX2), 4);
}

#[test]
fn kind_names_round_trip() {
    for k in manganese::catalog::kinds() {
        assert_eq!(TestKind::parse(k.name()), Some(k));
    }
    assert_eq!(TestKind::parse("walking2"), None);
    assert_eq!(TestKind::parse(""), None);
}

#[test]
fn comment_only_config_selects_default() {
    let text = b"# tests\n\n   \n\t# more\n";
    let entries = parse_config(text).unwrap();
    assert!(entries.is_empty());
    assert_eq!(build_tests_from_config(&entries, InstructionSet::AVX2).len(), 14);
    assert!(parse_config(b"").unwrap().is_empty());
}

#[test]
fn config_lines_parse() {
    let text = b"walking1\n  checkerboard loops=0  # none\r\nbasic_tests loops=2 loops=3\n";
    let entries = parse_config(text).unwrap();
    assert_eq!(
        entries,
        vec![
            TestConfigEntry { kind: TestKind::Walking1, loops: None },
            TestConfigEntry { kind: TestKind::Checkerboard, loops: Some(0) },
            TestConfigEntry { kind: TestKind::BasicTests, loops: Some(3) },
        ]
    );
}

#[test]
fn config_errors_name_the_line() {
    assert_eq!(parse_config(b"walking1\nwalking9\n"), Err(BadConfigLine { line: 2 }));
    assert_eq!(parse_config(b"# c\n\nwalking1 passes=2"), Err(BadConfigLine { line: 3 }));
    assert_eq!(parse_config(b"walking1 loops=x"), Err(BadConfigLine { line: 1 }));
    assert_eq!(parse_config(b"walking1 loops="), Err(BadConfigLine { line: 1 }));
    assert_eq!(
        parse_config(b"walking1 loops=99999999999999999999999"),
        Err(BadConfigLine { line: 1 })
    );
    assert_eq!(
        parse_config(b"walking1 loops=18446744073709551615").unwrap()[0].loops,
        Some(usize::MAX)
    );
}
