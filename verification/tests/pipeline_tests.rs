use tti_stats::driver::{run_fold, Snapshot, PipelineError};
use tti_stats::hist::HistogramStore;
use tti_stats::stitch::{StitchConfig, StitchError};

fn cfg() -> StitchConfig {
    StitchConfig::new_default()
}

fn snap(ts: u64, services: Vec<(&str, Vec<u64>)>) -> Snapshot {
    Snapshot {
        timestamp: ts,
        services: services.into_iter().map(|(n, w)| (n.to_string(), w)).collect(),
    }
}

// Recording a single value and querying the 50th percentile returns the
// value rounded up to whole milliseconds.
#[test]
fn histogram_round_trip() {
    let mut store = HistogramStore::new_default();
    let name = "svc".to_string();
    store.record_sample(&name, 4200).unwrap();
    let i = store.find(&name).unwrap();
    let h = store.histogram(i);
    assert_eq!(h.inner.len(), 1);
    assert_eq!(h.inner.value_at_quantile(0.5), 5);
}

// An exact millisecond is not rounded further up.
#[test]
fn histogram_round_trip_exact_millisecond() {
    let mut store = HistogramStore::new_default();
    let name = "svc".to_string();
    store.record_sample(&name, 7000).unwrap();
    let i = store.find(&name).unwrap();
    assert_eq!(store.histogram(i).inner.value_at_quantile(0.5), 7);
}

// A value above the store's ceiling is refused.
#[test]
fn record_above_ceiling_fails() {
    let mut store = HistogramStore::new(10, 4);
    let name = "svc".to_string();
    assert!(store.record_sample(&name, 5_000).is_ok());
    assert!(store.record_sample(&name, 20_000).is_err());
}

// Service names are listed lexicographically, whatever order they were
// first seen in.
#[test]
fn service_order_is_lexicographic() {
    let snaps = vec![snap(
        100,
        vec![("zeta", vec![1000, 2000]), ("alpha", vec![3000, 4000]), ("mid", vec![5000, 6000])],
    )];
    let store = run_fold(snaps, &cfg(), u64::MAX, 4).unwrap();
    assert_eq!(store.service_count(), 3);
    assert_eq!(store.service_name(0), "alpha");
    assert_eq!(store.service_name(1), "mid");
    assert_eq!(store.service_name(2), "zeta");
}

// Identical inputs in any discovery order give the same result once
// timestamps differ: the fold sorts by timestamp first.
#[test]
fn fold_is_deterministic_across_discovery_order() {
    let a = || snap(900, vec![("svc", vec![1000, 2000, 3000])]);
    let b = || snap(1800, vec![("svc", vec![2000, 3000, 4000])]);
    let store1 = run_fold(vec![a(), b()], &cfg(), u64::MAX, 4).unwrap();
    let store2 = run_fold(vec![b(), a()], &cfg(), u64::MAX, 4).unwrap();
    assert_eq!(store1.service_count(), store2.service_count());
    let i1 = store1.find(&"svc".to_string()).unwrap();
    let i2 = store2.find(&"svc".to_string()).unwrap();
    assert_eq!(store1.histogram(i1).inner.len(), store2.histogram(i2).inner.len());
    assert_eq!(
        store1.histogram(i1).inner.value_at_quantile(0.99),
        store2.histogram(i2).inner.value_at_quantile(0.99)
    );
}

// A full run over a consistent shifted stream: the first window is taken
// verbatim, each later snapshot contributes exactly the newly finalized
// samples.
#[test]
fn fold_consistent_stream() {
    let base: Vec<u64> =
        vec![10_000, 20_000, 30_000, 40_000, 50_000, 60_000, 70_000, 80_000];
    let snaps = vec![
        snap(0, vec![("svc", base[0..4].to_vec())]),
        snap(900, vec![("svc", base[1..5].to_vec())]),
        snap(1800, vec![("svc", base[2..6].to_vec())]),
    ];
    let store = run_fold(snaps, &cfg(), u64::MAX, 4).unwrap();
    let i = store.find(&"svc".to_string()).unwrap();
    // Four verbatim samples, then one newly finalized sample per stitch.
    assert_eq!(store.histogram(i).inner.len(), 6);
}

// A service that skips a snapshot is still stitched against its own
// last-known window when it reappears.
#[test]
fn service_absent_from_middle_snapshot() {
    let snaps = vec![
        snap(0, vec![("svc", vec![1000, 2000, 3000])]),
        snap(900, vec![("other", vec![9000, 9000, 9000])]),
        snap(1800, vec![("svc", vec![3000, 4000, 5000])]),
    ];
    let store = run_fold(snaps, &cfg(), u64::MAX, 4).unwrap();
    let i = store.find(&"svc".to_string()).unwrap();
    // Three verbatim, then the two newly finalized samples of the
    // two-interval shift.
    assert_eq!(store.histogram(i).inner.len(), 5);
}

// A window-length mismatch between adjacent windows of one service
// aborts the run.
#[test]
fn fold_window_length_mismatch() {
    let snaps = vec![
        snap(0, vec![("svc", vec![1000, 2000, 3000])]),
        snap(900, vec![("svc", vec![1000, 2000])]),
    ];
    let err = match run_fold(snaps, &cfg(), u64::MAX, 4) {
        Ok(_) => panic!("expected the run to abort"),
        Err(e) => e,
    };
    match err {
        PipelineError::Stitch { service, current_ts, previous_ts, kind } => {
            assert_eq!(service, "svc");
            assert_eq!(current_ts, 900);
            assert_eq!(previous_ts, 0);
            assert_eq!(kind, StitchError::WindowLengthMismatch);
        }
        other => panic!("unexpected error {:?}", other),
    }
}

// A sample above the histogram ceiling aborts the run.
#[test]
fn fold_value_out_of_range() {
    let snaps = vec![snap(0, vec![("svc", vec![50_000])])];
    let err = match run_fold(snaps, &cfg(), 10, 4) {
        Ok(_) => panic!("expected the run to abort"),
        Err(e) => e,
    };
    match err {
        PipelineError::ValueOutOfRange { service, micros } => {
            assert_eq!(service, "svc");
            assert_eq!(micros, 50_000);
        }
        other => panic!("unexpected error {:?}", other),
    }
}
