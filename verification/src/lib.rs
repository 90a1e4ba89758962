//! Reconciliation of overlapping latency-sample windows.
//!
//! A monitoring source publishes, at a fixed cadence, sliding windows of
//! recent latency samples per service.  Consecutive windows overlap, the
//! clocks labelling them are skewed by up to about one sampling interval,
//! and the last sample of every window is provisional.  This crate infers
//! the true overlap between adjacent windows, emits only the genuinely new
//! samples, and accumulates them into per-service quantile histograms.
//!
//! Sample values are carried as integer microseconds so that the
//! reconciliation arithmetic is exact.

pub mod stitch;

pub mod text;

pub mod hist;

pub mod driver;
