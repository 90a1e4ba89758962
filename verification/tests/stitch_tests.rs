use tti_stats::stitch::{stitch, StitchConfig, StitchError};

fn cfg() -> StitchConfig {
    StitchConfig::new_default()
}

const INTERVAL: u64 = 900;

// Full overlap, nothing new: elapsed says no interval has passed.
#[test]
fn stitch_full_overlap() {
    let cur: Vec<u64> = vec![1000, 2000, 3000, 4000, 4900];
    let pre: Vec<u64> = vec![1000, 2000, 3000, 4000, 5100];
    let (out, err) = stitch(&cur, &pre, 0, &cfg()).unwrap();
    assert_eq!(out, Vec::<u64>::new());
    assert_eq!(err, 0);
}

// Partial overlap: the provisional boundary sample is merged
// conservatively (the higher of 4.9 and 5.1 milliseconds survives).
#[test]
fn stitch_partial_overlap() {
    let cur: Vec<u64> = vec![4000, 4900, 6000, 7000, 8000];
    let pre: Vec<u64> = vec![1000, 2000, 3000, 4000, 5100];
    let (out, err) = stitch(&cur, &pre, 3 * INTERVAL, &cfg()).unwrap();
    assert_eq!(out, vec![5100, 6000, 7000]);
    assert_eq!(err, 0);
}

// The same result under almost an interval of clock skew either way.
#[test]
fn stitch_partial_overlap_with_skew() {
    let cur: Vec<u64> = vec![4000, 4900, 6000, 7000, 8000];
    let pre: Vec<u64> = vec![1000, 2000, 3000, 4000, 5100];
    for elapsed in [3 * INTERVAL - 1, 4 * INTERVAL - 1] {
        let (out, err) = stitch(&cur, &pre, elapsed, &cfg()).unwrap();
        assert_eq!(out, vec![5100, 6000, 7000]);
        assert_eq!(err, 0);
    }
}

// Minimal overlap: only the boundary sample is shared.
#[test]
fn stitch_min_overlap() {
    let cur: Vec<u64> = vec![4900, 6000, 7000, 8000, 9000];
    let pre: Vec<u64> = vec![1000, 2000, 3000, 4000, 5100];
    let (out, err) = stitch(&cur, &pre, 4 * INTERVAL, &cfg()).unwrap();
    assert_eq!(out, vec![5100, 6000, 7000, 8000]);
    assert_eq!(err, 0);
}

// No possible overlap: the predecessor's provisional value is surfaced
// unmodified.
#[test]
fn stitch_no_possible_overlap() {
    let cur: Vec<u64> = vec![6000];
    let pre: Vec<u64> = vec![1000];
    let (out, err) = stitch(&cur, &pre, 5 * INTERVAL, &cfg()).unwrap();
    assert_eq!(out, vec![1000]);
    assert_eq!(err, 0);
}

// A window that looks shifted but matches nothing: the clock estimate
// loses to the no-overlap hypothesis, and the conservative merge keeps
// the window's own first sample because it is the higher one.
#[test]
fn stitch_confusing_overlap() {
    let cur: Vec<u64> = vec![6000, 7000, 8000, 9000, 10000];
    let pre: Vec<u64> = vec![1000, 2000, 3000, 4000, 5100];
    let (out, err) = stitch(&cur, &pre, 4 * INTERVAL, &cfg()).unwrap();
    assert_eq!(out, vec![6000, 7000, 8000, 9000]);
    assert_eq!(err, 0);
}

// Windows of different lengths are an error, not something to ignore.
#[test]
fn stitch_length_mismatch() {
    let cur: Vec<u64> = vec![1000, 2000];
    let pre: Vec<u64> = vec![1000];
    assert_eq!(
        stitch(&cur, &pre, INTERVAL, &cfg()).unwrap_err(),
        StitchError::WindowLengthMismatch
    );
}

// Windows that cannot be aligned within tolerance are a data-integrity
// error: every candidate alignment is off by seconds.
#[test]
fn stitch_reconciliation_error() {
    let cur: Vec<u64> = vec![1_000_000, 2_000_000, 3_000_000, 4_000_000];
    let pre: Vec<u64> = vec![9_000_000, 9_000_000, 9_000_000, 9_000_000];
    assert_eq!(
        stitch(&cur, &pre, INTERVAL, &cfg()).unwrap_err(),
        StitchError::ReconciliationError
    );
}

// The output never holds more samples than the current window.
#[test]
fn stitch_output_never_longer_than_window() {
    let windows: Vec<(Vec<u64>, Vec<u64>, u64)> = vec![
        (vec![1000, 2000, 3000], vec![4000, 5000, 6000], 0),
        (vec![1000, 2000, 3000], vec![1000, 2000, 3100], INTERVAL),
        (vec![7000], vec![1000], 10 * INTERVAL),
        (vec![4000, 4900, 6000, 7000, 8000], vec![1000, 2000, 3000, 4000, 5100], 3 * INTERVAL),
    ];
    for (cur, pre, elapsed) in windows {
        if let Ok((out, _)) = stitch(&cur, &pre, elapsed, &cfg()) {
            assert!(out.len() <= cur.len());
        }
    }
}

// A consistent stream: consecutive windows cut from one underlying
// sample sequence.  The stitched outputs tile the stream, with no gap
// and no duplicate.
#[test]
fn stitch_consistent_stream_tiles() {
    let base: Vec<u64> =
        vec![10_000, 20_000, 30_000, 40_000, 50_000, 60_000, 70_000, 80_000];
    let w1: Vec<u64> = base[0..4].to_vec();
    let w2: Vec<u64> = base[1..5].to_vec();
    let w3: Vec<u64> = base[2..6].to_vec();
    let (o2, e2) = stitch(&w2, &w1, INTERVAL, &cfg()).unwrap();
    let (o3, e3) = stitch(&w3, &w2, INTERVAL, &cfg()).unwrap();
    assert_eq!(e2, 0);
    assert_eq!(e3, 0);
    let mut tiled = o2.clone();
    tiled.extend(o3.iter().copied());
    // Exactly base[3..5): one copy of each sample between the two
    // provisional slots.
    assert_eq!(tiled, vec![40_000, 50_000]);
}
