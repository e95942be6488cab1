use processor::anchor::{ProfileError, MAX_ANCHORS};
use processor::profile::{begin_profile, measure_block, DropTimer, Profiler};

fn fresh(start: u64) -> Profiler {
    let mut p = Profiler::new();
    begin_profile(&mut p, start);
    p
}

#[test]
fn nested_regions_split_exclusive_and_inclusive() {
    let mut p = fresh(0);
    let outer = measure_block(&mut p, 1, "outer", 0).unwrap();
    let inner = measure_block(&mut p, 2, "inner", 200_000).unwrap();
    assert_eq!(p.current_anchor, 2);
    inner.stop(&mut p, 500_000).unwrap();
    assert_eq!(p.current_anchor, 1);
    outer.stop(&mut p, 1_000_000).unwrap();
    assert_eq!(p.current_anchor, 0);
    let total = p.stop(1_000_000);
    assert_eq!(total, 1_000_000);

    let a1 = &p.anchors[1];
    assert_eq!(a1.hit_count, 1);
    assert_eq!(a1.tsc_elapsed_inclusive, 1_000_000);
    assert_eq!(a1.tsc_elapsed_exclusive, 700_000);
    assert_eq!(a1.label, "outer");
    let a2 = &p.anchors[2];
    assert_eq!(a2.hit_count, 1);
    assert_eq!(a2.tsc_elapsed_inclusive, 300_000);
    assert_eq!(a2.tsc_elapsed_exclusive, 300_000);
    assert_eq!(a2.label, "inner");
}

#[test]
fn leaf_region_has_equal_exclusive_and_inclusive() {
    let mut p = fresh(5);
    for (s, e) in [(10u64, 20u64), (30, 75)] {
        let t = measure_block(&mut p, 7, "leaf", s).unwrap();
        t.stop(&mut p, e).unwrap();
    }
    assert_eq!(p.anchors[7].tsc_elapsed_exclusive, 55);
    assert_eq!(p.anchors[7].tsc_elapsed_inclusive, 55);
}

#[test]
fn sequential_invocations_sum_their_elapsed_cycles() {
    let mut p = fresh(0);
    for (s, e) in [(0u64, 10u64), (20, 50), (60, 61)] {
        let t = measure_block(&mut p, 3, "loop body", s).unwrap();
        // a nested region does not change the hit count or inclusive total
        let c = measure_block(&mut p, 4, "child", s).unwrap();
        c.stop(&mut p, s).unwrap();
        t.stop(&mut p, e).unwrap();
    }
    assert_eq!(p.anchors[3].hit_count, 3);
    assert_eq!(p.anchors[3].tsc_elapsed_inclusive, 41);
    assert_eq!(p.anchors[4].hit_count, 3);
}

#[test]
fn recursion_counts_only_the_outermost_invocation() {
    let mut p = fresh(0);
    let outer = measure_block(&mut p, 1, "recurse", 0).unwrap();
    let inner = measure_block(&mut p, 1, "recurse", 10).unwrap();
    inner.stop(&mut p, 30).unwrap();
    outer.stop(&mut p, 100).unwrap();
    assert_eq!(p.anchors[1].hit_count, 2);
    assert_eq!(p.anchors[1].tsc_elapsed_inclusive, 100);
    assert_eq!(p.anchors[1].tsc_elapsed_exclusive, 100);
    let table_total = p
        .anchors
        .iter()
        .fold(0u64, |s, a| s.wrapping_add(a.tsc_elapsed_exclusive));
    assert_eq!(table_total, 0);
}

#[test]
fn label_mismatch_is_reported() {
    let mut p = fresh(0);
    let t = measure_block(&mut p, 1, "first", 0).unwrap();
    t.stop(&mut p, 10).unwrap();
    let t = measure_block(&mut p, 1, "second", 20).unwrap();
    assert_eq!(t.stop(&mut p, 30), Err(ProfileError::LabelMismatch));
    assert_eq!(p.anchors[1].hit_count, 1);
    assert_eq!(p.anchors[1].label, "first");
}

#[test]
fn same_label_accumulates() {
    let mut p = fresh(0);
    let t = measure_block(&mut p, 1, "same", 0).unwrap();
    t.stop(&mut p, 10).unwrap();
    let t = measure_block(&mut p, 1, "same", 20).unwrap();
    assert_eq!(t.stop(&mut p, 25), Ok(()));
    assert_eq!(p.anchors[1].hit_count, 2);
    assert_eq!(p.anchors[1].tsc_elapsed_inclusive, 15);
}

#[test]
fn reserved_and_out_of_range_ids_fail() {
    let mut p = fresh(0);
    assert!(matches!(measure_block(&mut p, 0, "root", 1), Err(ProfileError::InvalidId)));
    assert!(matches!(
        measure_block(&mut p, MAX_ANCHORS, "too far", 1),
        Err(ProfileError::OutOfRange)
    ));
    assert!(matches!(
        DropTimer::start(&mut p, usize::MAX, "far", 1),
        Err(ProfileError::OutOfRange)
    ));
    assert_eq!(p.current_anchor, 0);
    let last = measure_block(&mut p, MAX_ANCHORS - 1, "last slot", 1).unwrap();
    last.stop(&mut p, 2).unwrap();
    assert_eq!(p.anchors[MAX_ANCHORS - 1].hit_count, 1);
}

#[test]
fn total_time_is_conserved() {
    let mut p = fresh(100);
    let a = measure_block(&mut p, 1, "a", 110).unwrap();
    let b = measure_block(&mut p, 2, "b", 120).unwrap();
    let c = measure_block(&mut p, 3, "c", 125).unwrap();
    c.stop(&mut p, 140).unwrap();
    b.stop(&mut p, 150).unwrap();
    a.stop(&mut p, 170).unwrap();
    let d = measure_block(&mut p, 2, "b", 180).unwrap();
    d.stop(&mut p, 190).unwrap();
    let total = p.stop(200);
    assert_eq!(total, 100);
    let attributed: u64 = p.anchors[1..]
        .iter()
        .fold(0u64, |s, a| s.wrapping_add(a.tsc_elapsed_exclusive));
    // the gaps with no region open: 100..110, 170..180 and 190..200
    assert_eq!(attributed + 30, total);
    assert_eq!(p.anchors[0].tsc_elapsed_exclusive.wrapping_add(attributed), 0);
    assert_eq!(total.wrapping_add(p.anchors[0].tsc_elapsed_exclusive), 30);
}

#[test]
fn begin_resets_the_table() {
    let mut p = fresh(0);
    let t = measure_block(&mut p, 9, "x", 0).unwrap();
    t.stop(&mut p, 4).unwrap();
    p.stop(10);
    begin_profile(&mut p, 50);
    assert_eq!(p.tsc_start, 50);
    // the end stamp of the earlier session is kept
    assert_eq!(p.tsc_end, 10);
    assert_eq!(p.anchors.len(), MAX_ANCHORS);
    assert_eq!(p.anchors[9].hit_count, 0);
    assert_eq!(p.anchors[9].label, "");
    assert_eq!(p.anchors[0].tsc_elapsed_exclusive, 0);
}

#[test]
fn report_lists_hit_regions_in_table_order() {
    let mut p = fresh(0);
    let a = measure_block(&mut p, 4, "parent", 0).unwrap();
    let b = measure_block(&mut p, 2, "child", 10).unwrap();
    b.stop(&mut p, 30).unwrap();
    a.stop(&mut p, 100).unwrap();
    let rows = p.report();
    assert_eq!(rows.len(), 2);
    assert_eq!(rows[0].label, "child");
    assert_eq!(rows[0].hit_count, 1);
    assert_eq!(rows[0].exclusive, 20);
    assert_eq!(rows[0].inclusive, None);
    assert_eq!(rows[1].label, "parent");
    assert_eq!(rows[1].exclusive, 80);
    assert_eq!(rows[1].inclusive, Some(100));
}

#[test]
fn report_of_an_empty_session_is_empty() {
    let p = fresh(0);
    assert!(p.report().is_empty());
}

#[test]
fn new_profiler_has_no_stamps() {
    let p = Profiler::new();
    assert_eq!(p.tsc_start, 0);
    assert_eq!(p.tsc_end, 0);
    assert_eq!(p.current_anchor, 0);
}

#[test]
fn blank_anchor_is_empty() {
    let a = processor::anchor::Anchor::blank();
    assert_eq!(a.hit_count, 0);
    assert_eq!(a.label, "");
    assert_eq!(a.tsc_elapsed_inclusive, 0);
    assert_eq!(a.tsc_elapsed_exclusive, 0);
}
