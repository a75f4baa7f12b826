use calibration::bucket::{bucket, coarse_bucket};
use calibration::pipeline::run;
use calibration::registry::MarketRegistry;
use calibration::report::u64_string;
use calibration::stream::{assemble_stream, PageFile};
use calibration::types::{Config, Question, ResolutionValue, RunError, WagerEvent};

fn question(id: &str, close_time: Option<i64>, resolution: Option<&str>) -> Question {
    Question {
        id: String::from(id),
        created_time: 0,
        close_time,
        mechanism: Some(String::from("cpmm-1")),
        type_tag: None,
        resolution: resolution.map(|s| ResolutionValue::Text(String::from(s))),
        resolution_time: None,
    }
}

fn event(id: &str, question_id: &str, prob_after: u32, created_time: i64) -> WagerEvent {
    WagerEvent {
        id: String::from(id),
        question_id: String::from(question_id),
        answer: None,
        prob_before: 5000,
        prob_after,
        created_time,
        is_redemption: false,
        is_ante: false,
        is_cancelled: false,
    }
}

fn config() -> Config {
    Config { cutoff: 2000, granularity: 2, require_resolution_after_cutoff: false }
}

#[test]
fn bucket_boundaries() {
    assert_eq!(bucket(0), 0);
    assert_eq!(bucket(10000), 100);
    assert_eq!(bucket(5650), 57);
    assert_eq!(bucket(7300), 73);
}

#[test]
fn coarse_bucket_values() {
    assert_eq!(coarse_bucket(7300, 2), 74);
    assert_eq!(coarse_bucket(7300, 4), 72);
    assert_eq!(coarse_bucket(0, 4), 0);
    assert_eq!(coarse_bucket(10000, 4), 100);
    assert_eq!(coarse_bucket(10000, 2), 100);
}

#[test]
fn decimal_rendering() {
    assert_eq!(u64_string(0), "0");
    assert_eq!(u64_string(7), "7");
    assert_eq!(u64_string(10), "10");
    assert_eq!(u64_string(105), "105");
    assert_eq!(u64_string(98765), "98765");
}

#[test]
fn later_source_wins_on_merge() {
    let source_a = vec![question("q1", Some(7_000_000_000), Some("YES"))];
    let source_b = vec![question("q1", Some(7_000_000_000), Some("NO"))];
    let registry = MarketRegistry::load(vec![source_a, source_b]);
    let q = registry.get("q1").expect("q1 must be present");
    match &q.resolution {
        Some(ResolutionValue::Text(s)) => assert_eq!(s, "NO"),
        other => panic!("unexpected resolution {:?}", other.is_some()),
    }
}

#[test]
fn end_to_end_single_event() {
    let registry = MarketRegistry::load(vec![vec![question(
        "q1",
        Some(7_000_000_000),
        Some("YES"),
    )]]);
    let events = vec![event("b1", "q1", 7300, 1000)];
    let out = run(&registry, &events, &config()).expect("run must succeed");
    assert_eq!(out.total_events, 1);
    assert_eq!(out.orphaned_events, 0);
    for (i, cell) in out.full_histogram.iter().enumerate() {
        if i == 73 {
            assert_eq!(*cell, (1, 0));
        } else {
            assert_eq!(*cell, (0, 0));
        }
    }
    for (i, cell) in out.cutoff_histogram.iter().enumerate() {
        if i == 74 {
            assert_eq!(*cell, (1, 0));
        } else {
            assert_eq!(*cell, (0, 0));
        }
    }
    let lines: Vec<&str> = out.report.lines().collect();
    assert_eq!(lines.len(), 101);
    assert_eq!(lines[74], "74\t1\t0");
    assert_eq!(lines[0], "0\t0\t0");
    assert!(out.report.ends_with('\n'));
}

#[test]
fn invalid_resolution_aborts_the_run() {
    let mut q = question("q1", Some(7_000_000_000), Some("abcde"));
    q.resolution = Some(ResolutionValue::Text(String::from("abcde")));
    let registry = MarketRegistry::load(vec![vec![q]]);
    let mut e = event("b1", "q1", 7300, 1000);
    e.answer = Some(String::from("abcdefghijkl"));
    let events = vec![e];
    let r = run(&registry, &events, &config());
    assert_eq!(r.err(), Some(RunError::ResolutionInvalid));
}

#[test]
fn orphaned_events_are_counted_not_fatal() {
    let registry = MarketRegistry::load(vec![vec![question(
        "q1",
        Some(7_000_000_000),
        Some("YES"),
    )]]);
    let events = vec![
        event("b1", "unknown1", 5000, 100),
        event("b2", "q1", 7300, 200),
        event("b3", "unknown1", 2500, 300),
    ];
    let out = run(&registry, &events, &config()).expect("run must succeed");
    assert_eq!(out.total_events, 3);
    assert_eq!(out.orphaned_events, 2);
    assert_eq!(out.missing_question_ids.len(), 1);
    assert_eq!(out.missing_question_ids[0], "unknown1");
}

#[test]
fn ineligible_mechanism_and_short_duration_are_skipped() {
    let mut dpm = question("dpm", Some(7_000_000_000), Some("YES"));
    dpm.mechanism = Some(String::from("dpm-2"));
    let short = question("short", Some(1000), Some("YES"));
    let open_ended = question("open", None, Some("YES"));
    let registry = MarketRegistry::load(vec![vec![dpm, short, open_ended]]);
    let events = vec![
        event("b1", "dpm", 7300, 100),
        event("b2", "short", 7300, 100),
        event("b3", "open", 7300, 100),
    ];
    let out = run(&registry, &events, &config()).expect("run must succeed");
    let sum: u64 = out.full_histogram.iter().map(|c| c.0 + c.1).sum();
    assert_eq!(sum, 1);
    assert_eq!(out.full_histogram[73], (1, 0));
}

#[test]
fn histogram_sum_accounts_for_every_event() {
    let mut unresolved = question("u", Some(7_000_000_000), None);
    unresolved.resolution = None;
    let voided = question("v", Some(7_000_000_000), Some("CANCEL"));
    let yes = question("y", Some(7_000_000_000), Some("YES"));
    let no = question("n", Some(7_000_000_000), Some("NO"));
    let mut ineligible = question("i", Some(7_000_000_000), Some("YES"));
    ineligible.mechanism = Some(String::from("dpm-2"));
    let registry = MarketRegistry::load(vec![vec![unresolved, voided, yes, no, ineligible]]);
    let events = vec![
        event("b1", "u", 1000, 100),
        event("b2", "v", 2000, 100),
        event("b3", "y", 3000, 100),
        event("b4", "n", 4000, 100),
        event("b5", "i", 5000, 100),
        event("b6", "orphan", 6000, 100),
        event("b7", "y", 9000, 100),
    ];
    let out = run(&registry, &events, &config()).expect("run must succeed");
    let sum: u64 = out.full_histogram.iter().map(|c| c.0 + c.1).sum();
    // total 7, orphaned 1, ineligible 1, unresolved 1, voided 1
    assert_eq!(out.total_events, 7);
    assert_eq!(sum, 7 - 1 - 1 - 1 - 1);
}

#[test]
fn cutoff_snapshot_keeps_last_pre_cutoff_probability() {
    let registry = MarketRegistry::load(vec![vec![question(
        "q1",
        Some(7_000_000_000),
        Some("YES"),
    )]]);
    // Both events precede the cutoff; the later one decides the bucket.
    let events = vec![event("b1", "q1", 1000, 100), event("b2", "q1", 9000, 200)];
    let out = run(&registry, &events, &config()).expect("run must succeed");
    assert_eq!(out.cutoff_histogram[90], (1, 0));
    assert_eq!(out.cutoff_histogram[10], (0, 0));
    // An event after the cutoff leaves the snapshot alone.
    let events2 = vec![event("b1", "q1", 1000, 100), event("b2", "q1", 9000, 5000)];
    let out2 = run(&registry, &events2, &config()).expect("run must succeed");
    assert_eq!(out2.cutoff_histogram[10], (1, 0));
    assert_eq!(out2.cutoff_histogram[90], (0, 0));
}

#[test]
fn stream_order_decides_the_snapshot_not_arrival_order() {
    // Records are stored newest-first in a regular page; BetStream must
    // reverse them, so the chronologically later record wins.
    let registry = MarketRegistry::load(vec![vec![question(
        "q1",
        Some(7_000_000_000),
        Some("YES"),
    )]]);
    let page = PageFile {
        name: String::from("page-a.json"),
        records: vec![event("b2", "q1", 9000, 200), event("b1", "q1", 1000, 100)],
    };
    let stream = assemble_stream(vec![page], Vec::new());
    assert_eq!(stream[0].id, "b1");
    assert_eq!(stream[1].id, "b2");
    let out = run(&registry, &stream, &config()).expect("run must succeed");
    assert_eq!(out.cutoff_histogram[90], (1, 0));
}

#[test]
fn resolution_timestamp_flag_narrows_the_snapshot() {
    let mut q = question("q1", Some(7_000_000_000), Some("YES"));
    q.resolution_time = Some(1500);
    let registry = MarketRegistry::load(vec![vec![q]]);
    let events = vec![event("b1", "q1", 7300, 1000)];
    let cfg = Config { cutoff: 2000, granularity: 2, require_resolution_after_cutoff: true };
    let out = run(&registry, &events, &cfg).expect("run must succeed");
    // Resolution happened before the cutoff, so no candidate is kept.
    let cut_sum: u64 = out.cutoff_histogram.iter().map(|c| c.0 + c.1).sum();
    assert_eq!(cut_sum, 0);
    assert_eq!(out.full_histogram[73], (1, 0));
}
