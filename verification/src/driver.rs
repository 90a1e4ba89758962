//! The pipeline driver: orders snapshots by timestamp (stable, so
//! discovery order breaks ties), folds them through the stitcher while
//! each service carries its own last-known window, and records every
//! genuinely new sample into the histogram store.
use vstd::prelude::*;
use vstd::multiset::Multiset;

use crate::stitch::{
    stitch, stitch_spec, window_bounded, StitchConfig, StitchError, MAX_WINDOW_LEN,
};
use crate::hist::{ceil_ms, find_name, insert_pos, HistogramStore};

verus! {

/// One timestamped collection of per-service sample windows, as the
/// source delivered it: windows in microseconds, most recent sample
/// last, the last sample provisional.
pub struct Snapshot {
    /// Seconds; the label of the snapshot's arrival.
    pub timestamp: u64,
    /// Service name, window pairs, in file order.
    pub services: Vec<(String, Vec<u64>)>,
}

pub open spec fn window_wf(w: Seq<u64>) -> bool {
    1 <= w.len() <= MAX_WINDOW_LEN && window_bounded(w)
}

pub open spec fn snapshot_wf(s: Snapshot) -> bool {
    forall|i: int| 0 <= i < s.services@.len() ==> window_wf(#[trigger] s.services@[i].1@)
}

pub open spec fn snapshots_wf(s: Seq<Snapshot>) -> bool {
    forall|i: int| 0 <= i < s.len() ==> snapshot_wf(#[trigger] s[i])
}

/// Where a stable insertion by timestamp puts `x`: after every element
/// with a timestamp no larger than its own.
pub open spec fn stable_insert(s: Seq<Snapshot>, x: Snapshot) -> Seq<Snapshot>
    decreases s.len(),
{
    if s.len() == 0 {
        seq![x]
    } else if x.timestamp < s.last().timestamp {
        stable_insert(s.drop_last(), x).push(s.last())
    } else {
        s.push(x)
    }
}

/// The snapshots in ascending timestamp order, ties in discovery order.
pub open spec fn stable_sorted(s: Seq<Snapshot>) -> Seq<Snapshot>
    decreases s.len(),
{
    if s.len() == 0 {
        Seq::empty()
    } else {
        stable_insert(stable_sorted(s.drop_last()), s.last())
    }
}

pub open spec fn ts_sorted(s: Seq<Snapshot>) -> bool {
    forall|i: int, j: int| 0 <= i < j < s.len() ==> s[i].timestamp <= s[j].timestamp
}

proof fn lemma_stable_insert_ts_bound(s: Seq<Snapshot>, x: Snapshot, b: u64)
    requires
        forall|l: int| 0 <= l < s.len() ==> s[l].timestamp <= b,
        x.timestamp <= b,
    ensures
        forall|l: int|
            0 <= l < stable_insert(s, x).len() ==> #[trigger] stable_insert(s, x)[l].timestamp
                <= b,
    decreases s.len(),
{
    let r = stable_insert(s, x);
    if s.len() > 0 && x.timestamp < s.last().timestamp {
        lemma_stable_insert_ts_bound(s.drop_last(), x, b);
        let inner = stable_insert(s.drop_last(), x);
        assert forall|l: int| 0 <= l < r.len() implies #[trigger] r[l].timestamp <= b by {
            if l < inner.len() {
                assert(r[l] == inner[l]);
            } else {
                assert(r[l] == s.last());
            }
        }
    } else {
        assert forall|l: int| 0 <= l < r.len() implies #[trigger] r[l].timestamp <= b by {
            if l < s.len() {
                assert(r[l] == s[l]);
            } else {
                assert(r[l] == x);
            }
        }
    }
}

proof fn lemma_stable_insert_sorted(s: Seq<Snapshot>, x: Snapshot)
    requires
        ts_sorted(s),
    ensures
        ts_sorted(stable_insert(s, x)),
    decreases s.len(),
{
    if s.len() > 0 && x.timestamp < s.last().timestamp {
        lemma_stable_insert_sorted(s.drop_last(), x);
        lemma_stable_insert_ts_bound(s.drop_last(), x, s.last().timestamp);
    }
}

/// `stable_sorted` really sorts.
pub proof fn lemma_stable_sorted_sorted(s: Seq<Snapshot>)
    ensures
        ts_sorted(stable_sorted(s)),
    decreases s.len(),
{
    if s.len() > 0 {
        lemma_stable_sorted_sorted(s.drop_last());
        lemma_stable_insert_sorted(stable_sorted(s.drop_last()), s.last());
    }
}

proof fn lemma_stable_insert_wf(s: Seq<Snapshot>, x: Snapshot)
    requires
        snapshots_wf(s),
        snapshot_wf(x),
    ensures
        snapshots_wf(stable_insert(s, x)),
    decreases s.len(),
{
    if s.len() > 0 && x.timestamp < s.last().timestamp {
        lemma_stable_insert_wf(s.drop_last(), x);
    }
}

proof fn lemma_stable_sorted_wf(s: Seq<Snapshot>)
    requires
        snapshots_wf(s),
    ensures
        snapshots_wf(stable_sorted(s)),
    decreases s.len(),
{
    if s.len() > 0 {
        lemma_stable_sorted_wf(s.drop_last());
        lemma_stable_insert_wf(stable_sorted(s.drop_last()), s.last());
    }
}

proof fn lemma_stable_insert_split(s: Seq<Snapshot>, x: Snapshot, j: int)
    requires
        0 <= j <= s.len(),
        forall|l: int| j <= l < s.len() ==> s[l].timestamp > x.timestamp,
        j > 0 ==> s[j - 1].timestamp <= x.timestamp,
    ensures
        stable_insert(s, x) == s.insert(j, x),
    decreases s.len(),
{
    if j == s.len() {
        if s.len() == 0 {
            assert(stable_insert(s, x) =~= s.insert(j, x));
        } else {
            assert(stable_insert(s, x) =~= s.insert(j, x));
        }
    } else {
        assert(s.last().timestamp > x.timestamp);
        lemma_stable_insert_split(s.drop_last(), x, j);
        assert(stable_insert(s.drop_last(), x).push(s.last()) =~= s.insert(j, x));
    }
}

/// One record step of the store's model: round the sample up to whole
/// milliseconds and add it under `name`, creating the service at its
/// sorted position on first use; refuse a value above the ceiling.
pub open spec fn store_step(
    names: Seq<Seq<char>>,
    contents: Seq<Multiset<u64>>,
    name: Seq<char>,
    micros: u64,
    ceiling: u64,
) -> Option<(Seq<Seq<char>>, Seq<Multiset<u64>>)> {
    if ceil_ms(micros) > ceiling {
        None
    } else {
        let v = ceil_ms(micros) as u64;
        match find_name(names, name) {
            Some(i) => Some((names, contents.update(i, contents[i].insert(v)))),
            None => {
                let p = insert_pos(names, name);
                Some((names.insert(p, name), contents.insert(p, Multiset::empty().insert(v))))
            },
        }
    }
}

/// The store's model after recording the first `n` samples of `w` under
/// `name`; the error is the first refused sample.
pub open spec fn record_win(
    names: Seq<Seq<char>>,
    contents: Seq<Multiset<u64>>,
    name: Seq<char>,
    w: Seq<u64>,
    n: int,
    ceiling: u64,
) -> Result<(Seq<Seq<char>>, Seq<Multiset<u64>>), u64>
    decreases n,
{
    if n <= 0 {
        Ok((names, contents))
    } else {
        match record_win(names, contents, name, w, n - 1, ceiling) {
            Ok(p) => match store_step(p.0, p.1, name, w[n - 1], ceiling) {
                Some(q) => Ok(q),
                None => Err(w[n - 1]),
            },
            Err(e) => Err(e),
        }
    }
}

/// The window and timestamp a service was last seen with.
pub open spec fn assoc_find(t: Seq<(Seq<char>, Seq<u64>, u64)>, name: Seq<char>) -> Option<
    (Seq<u64>, u64),
>
    decreases t.len(),
{
    if t.len() <= 0 {
        None
    } else if t[0].0 == name {
        Some((t[0].1, t[0].2))
    } else {
        assoc_find(t.drop_first(), name)
    }
}

/// The last-seen table after a service reports a new window.
pub open spec fn assoc_update(
    t: Seq<(Seq<char>, Seq<u64>, u64)>,
    name: Seq<char>,
    w: Seq<u64>,
    ts: u64,
) -> Seq<(Seq<char>, Seq<u64>, u64)>
    decreases t.len(),
{
    if t.len() <= 0 {
        seq![(name, w, ts)]
    } else if t[0].0 == name {
        seq![(name, w, ts)] + t.drop_first()
    } else {
        seq![t[0]] + assoc_update(t.drop_first(), name, w, ts)
    }
}

/// How one `(service, window)` pair of a snapshot at `ts` transforms the
/// fold state.  A service seen before is stitched against its own
/// last-known window (so a service absent from the immediately preceding
/// snapshot is still reconciled against its last appearance, never
/// double-counted); a service seen first is taken verbatim.  The error
/// carries the service name, the two timestamps (or the refused sample)
/// and, for a stitch failure, its kind.
pub open spec fn fold_service(
    table: Seq<(Seq<char>, Seq<u64>, u64)>,
    names: Seq<Seq<char>>,
    contents: Seq<Multiset<u64>>,
    ts: u64,
    name: Seq<char>,
    w: Seq<u64>,
    cfg: StitchConfig,
    ceiling: u64,
) -> Result<
    (Seq<(Seq<char>, Seq<u64>, u64)>, Seq<Seq<char>>, Seq<Multiset<u64>>),
    (Seq<char>, u64, u64, Option<StitchError>),
> {
    let news = match assoc_find(table, name) {
        None => Ok(w),
        Some((pw, pts)) => match stitch_spec(w, pw, ts - pts, cfg) {
            Ok(p) => Ok(p.0),
            Err(k) => Err((name, ts, pts, Some(k))),
        },
    };
    match news {
        Err(e) => Err(e),
        Ok(ns) => match record_win(names, contents, name, ns, ns.len() as int, ceiling) {
            Ok(p) => Ok((assoc_update(table, name, w, ts), p.0, p.1)),
            Err(v) => Err((name, v, 0, None)),
        },
    }
}

/// The fold state after the first `n` services of one snapshot.
pub open spec fn fold_services(
    table: Seq<(Seq<char>, Seq<u64>, u64)>,
    names: Seq<Seq<char>>,
    contents: Seq<Multiset<u64>>,
    ts: u64,
    svcs: Seq<(String, Vec<u64>)>,
    n: int,
    cfg: StitchConfig,
    ceiling: u64,
) -> Result<
    (Seq<(Seq<char>, Seq<u64>, u64)>, Seq<Seq<char>>, Seq<Multiset<u64>>),
    (Seq<char>, u64, u64, Option<StitchError>),
>
    decreases n,
{
    if n <= 0 {
        Ok((table, names, contents))
    } else {
        match fold_services(table, names, contents, ts, svcs, n - 1, cfg, ceiling) {
            Ok(p) => fold_service(p.0, p.1, p.2, ts, svcs[n - 1].0@, svcs[n - 1].1@, cfg, ceiling),
            Err(e) => Err(e),
        }
    }
}

/// The fold state after the first `n` snapshots of a run.
pub open spec fn fold_snapshots(
    table: Seq<(Seq<char>, Seq<u64>, u64)>,
    names: Seq<Seq<char>>,
    contents: Seq<Multiset<u64>>,
    snaps: Seq<Snapshot>,
    n: int,
    cfg: StitchConfig,
    ceiling: u64,
) -> Result<
    (Seq<(Seq<char>, Seq<u64>, u64)>, Seq<Seq<char>>, Seq<Multiset<u64>>),
    (Seq<char>, u64, u64, Option<StitchError>),
>
    decreases n,
{
    if n <= 0 {
        Ok((table, names, contents))
    } else {
        match fold_snapshots(table, names, contents, snaps, n - 1, cfg, ceiling) {
            Ok(p) => fold_services(
                p.0,
                p.1,
                p.2,
                snaps[n - 1].timestamp,
                snaps[n - 1].services@,
                snaps[n - 1].services@.len() as int,
                cfg,
                ceiling,
            ),
            Err(e) => Err(e),
        }
    }
}

/// The whole run: sort the snapshots stably by timestamp, fold them
/// through the stitcher, and return the store's model — the service
/// names in lexicographic order and, for each, the multiset of
/// millisecond values its histogram accumulated.
pub open spec fn pipeline_spec(snaps: Seq<Snapshot>, cfg: StitchConfig, ceiling: u64) -> Result<
    (Seq<Seq<char>>, Seq<Multiset<u64>>),
    (Seq<char>, u64, u64, Option<StitchError>),
> {
    let sorted = stable_sorted(snaps);
    match fold_snapshots(
        Seq::empty(),
        Seq::empty(),
        Seq::empty(),
        sorted,
        sorted.len() as int,
        cfg,
        ceiling,
    ) {
        Ok(p) => Ok((p.1, p.2)),
        Err(e) => Err(e),
    }
}

proof fn lemma_record_win_err(
    names: Seq<Seq<char>>,
    contents: Seq<Multiset<u64>>,
    name: Seq<char>,
    w: Seq<u64>,
    n1: int,
    n2: int,
    ceiling: u64,
)
    requires
        n1 <= n2,
        record_win(names, contents, name, w, n1, ceiling) is Err,
    ensures
        record_win(names, contents, name, w, n2, ceiling) == record_win(
            names,
            contents,
            name,
            w,
            n1,
            ceiling,
        ),
    decreases n2 - n1,
{
    if n2 > n1 {
        lemma_record_win_err(names, contents, name, w, n1, n2 - 1, ceiling);
    }
}

proof fn lemma_fold_services_err(
    table: Seq<(Seq<char>, Seq<u64>, u64)>,
    names: Seq<Seq<char>>,
    contents: Seq<Multiset<u64>>,
    ts: u64,
    svcs: Seq<(String, Vec<u64>)>,
    n1: int,
    n2: int,
    cfg: StitchConfig,
    ceiling: u64,
)
    requires
        n1 <= n2,
        fold_services(table, names, contents, ts, svcs, n1, cfg, ceiling) is Err,
    ensures
        fold_services(table, names, contents, ts, svcs, n2, cfg, ceiling) == fold_services(
            table,
            names,
            contents,
            ts,
            svcs,
            n1,
            cfg,
            ceiling,
        ),
    decreases n2 - n1,
{
    if n2 > n1 {
        lemma_fold_services_err(table, names, contents, ts, svcs, n1, n2 - 1, cfg, ceiling);
    }
}

proof fn lemma_fold_snapshots_err(
    table: Seq<(Seq<char>, Seq<u64>, u64)>,
    names: Seq<Seq<char>>,
    contents: Seq<Multiset<u64>>,
    snaps: Seq<Snapshot>,
    n1: int,
    n2: int,
    cfg: StitchConfig,
    ceiling: u64,
)
    requires
        n1 <= n2,
        fold_snapshots(table, names, contents, snaps, n1, cfg, ceiling) is Err,
    ensures
        fold_snapshots(table, names, contents, snaps, n2, cfg, ceiling) == fold_snapshots(
            table,
            names,
            contents,
            snaps,
            n1,
            cfg,
            ceiling,
        ),
    decreases n2 - n1,
{
    if n2 > n1 {
        lemma_fold_snapshots_err(table, names, contents, snaps, n1, n2 - 1, cfg, ceiling);
    }
}

/// Sort the snapshots ascending by timestamp, stably: snapshots of equal
/// timestamp keep their discovery order.
pub fn sort_by_timestamp(snaps: Vec<Snapshot>) -> (r: Vec<Snapshot>)
    ensures
        r@ == stable_sorted(snaps@),
{
    let ghost orig = snaps@;
    let mut input = snaps;
    let mut out: Vec<Snapshot> = Vec::new();
    let ghost mut k: int = 0;
    while input.len() > 0
        invariant
            0 <= k <= orig.len(),
            input@ == orig.skip(k),
            out@ == stable_sorted(orig.take(k)),
        decreases input@.len(),
    {
        let x = input.remove(0);
        proof {
            assert(orig.skip(k).drop_first() =~= orig.skip(k + 1));
            assert(x == orig[k]);
        }
        let mut j = out.len();
        while j > 0 && out[j - 1].timestamp > x.timestamp
            invariant
                0 <= j <= out@.len(),
                forall|l: int| j <= l < out@.len() ==> out@[l].timestamp > x.timestamp,
            decreases j,
        {
            j = j - 1;
        }
        proof {
            lemma_stable_insert_split(out@, x, j as int);
            assert(orig.take(k + 1).drop_last() =~= orig.take(k));
            assert(orig.take(k + 1).last() == orig[k]);
        }
        out.insert(j, x);
        proof {
            k = k + 1;
        }
    }
    proof {
        assert(orig.take(k) =~= orig);
    }
    out
}

/// The last-seen table as the spec fold sees it.
pub open spec fn table_view(t: Seq<(String, Vec<u64>, u64)>) -> Seq<(Seq<char>, Seq<u64>, u64)> {
    t.map_values(|e: (String, Vec<u64>, u64)| (e.0@, e.1@, e.2))
}

proof fn lemma_assoc_find_at(t: Seq<(Seq<char>, Seq<u64>, u64)>, name: Seq<char>, i: int)
    requires
        0 <= i < t.len(),
        t[i].0 == name,
        forall|l: int| 0 <= l < i ==> t[l].0 != name,
    ensures
        assoc_find(t, name) == Some((t[i].1, t[i].2)),
    decreases i,
{
    if i > 0 {
        lemma_assoc_find_at(t.drop_first(), name, i - 1);
    }
}

proof fn lemma_assoc_find_none(t: Seq<(Seq<char>, Seq<u64>, u64)>, name: Seq<char>)
    requires
        forall|l: int| 0 <= l < t.len() ==> t[l].0 != name,
    ensures
        assoc_find(t, name) is None,
    decreases t.len(),
{
    if t.len() > 0 {
        lemma_assoc_find_none(t.drop_first(), name);
    }
}

proof fn lemma_assoc_update_at(
    t: Seq<(Seq<char>, Seq<u64>, u64)>,
    name: Seq<char>,
    w: Seq<u64>,
    ts: u64,
    i: int,
)
    requires
        0 <= i < t.len(),
        t[i].0 == name,
        forall|l: int| 0 <= l < i ==> t[l].0 != name,
    ensures
        assoc_update(t, name, w, ts) == t.update(i, (name, w, ts)),
    decreases i,
{
    if i == 0 {
        assert(seq![(name, w, ts)] + t.drop_first() =~= t.update(0, (name, w, ts)));
    } else {
        lemma_assoc_update_at(t.drop_first(), name, w, ts, i - 1);
        assert(seq![t[0]] + t.drop_first().update(i - 1, (name, w, ts)) =~= t.update(
            i,
            (name, w, ts),
        ));
    }
}

proof fn lemma_assoc_update_none(
    t: Seq<(Seq<char>, Seq<u64>, u64)>,
    name: Seq<char>,
    w: Seq<u64>,
    ts: u64,
)
    requires
        forall|l: int| 0 <= l < t.len() ==> t[l].0 != name,
    ensures
        assoc_update(t, name, w, ts) == t.push((name, w, ts)),
    decreases t.len(),
{
    if t.len() == 0 {
        assert(assoc_update(t, name, w, ts) =~= t.push((name, w, ts)));
    } else {
        lemma_assoc_update_none(t.drop_first(), name, w, ts);
        assert(seq![t[0]] + t.drop_first().push((name, w, ts)) =~= t.push((name, w, ts)));
    }
}

/// Index of a service in the last-seen table, if present.
fn table_find(table: &Vec<(String, Vec<u64>, u64)>, name: &String) -> (r: Option<usize>)
    ensures
        match r {
            Some(i) => i < table@.len() && table@[i as int].0@ == name@ && (forall|l: int|
                0 <= l < i ==> #[trigger] table@[l].0@ != name@) && assoc_find(
                table_view(table@),
                name@,
            ) == Some((table@[i as int].1@, table@[i as int].2)),
            None => (forall|l: int| 0 <= l < table@.len() ==> #[trigger] table@[l].0@ != name@)
                && assoc_find(table_view(table@), name@) is None,
        },
{
    let mut i: usize = 0;
    let n = table.len();
    while i < n
        invariant
            n == table@.len(),
            0 <= i <= n,
            forall|l: int| 0 <= l < i ==> #[trigger] table@[l].0@ != name@,
        decreases n - i,
    {
        if table[i].0 == *name {
            proof {
                lemma_assoc_find_at(table_view(table@), name@, i as int);
            }
            return Some(i);
        }
        i = i + 1;
    }
    proof {
        lemma_assoc_find_none(table_view(table@), name@);
    }
    None
}

/// Record every sample of `w`, in order, under `name`.
fn record_all(store: &mut HistogramStore, name: &String, w: &Vec<u64>) -> (r: Result<(), u64>)
    requires
        old(store).wf(),
    ensures
        final(store).wf(),
        final(store).spec_ceiling() == old(store).spec_ceiling(),
        match r {
            Ok(_) => record_win(
                old(store).service_names(),
                old(store).contents(),
                name@,
                w@,
                w@.len() as int,
                old(store).spec_ceiling(),
            ) == Ok::<_, u64>((final(store).service_names(), final(store).contents())),
            Err(v) => record_win(
                old(store).service_names(),
                old(store).contents(),
                name@,
                w@,
                w@.len() as int,
                old(store).spec_ceiling(),
            ) == Err::<(Seq<Seq<char>>, Seq<Multiset<u64>>), u64>(v),
        },
{
    let n = w.len();
    let mut i: usize = 0;
    while i < n
        invariant
            n == w@.len(),
            0 <= i <= n,
            store.wf(),
            store.spec_ceiling() == old(store).spec_ceiling(),
            record_win(
                old(store).service_names(),
                old(store).contents(),
                name@,
                w@,
                i as int,
                old(store).spec_ceiling(),
            ) == Ok::<_, u64>((store.service_names(), store.contents())),
        decreases n - i,
    {
        let v = w[i];
        match store.record_sample(name, v) {
            Ok(_) => {},
            Err(_) => {
                proof {
                    lemma_record_win_err(
                        old(store).service_names(),
                        old(store).contents(),
                        name@,
                        w@,
                        i + 1,
                        w@.len() as int,
                        old(store).spec_ceiling(),
                    );
                }
                return Err(v);
            },
        }
        i = i + 1;
    }
    Ok(())
}

/// Why a run was aborted.
#[derive(Debug)]
pub enum PipelineError {
    /// Stitching a service's window against its last-known one failed.
    Stitch { service: String, current_ts: u64, previous_ts: u64, kind: StitchError },
    /// A stitched sample was above what the histograms can track.
    ValueOutOfRange { service: String, micros: u64 },
}

/// Run the whole pipeline over in-memory snapshots: sort them stably by
/// timestamp, stitch every service's window against that service's
/// last-known window, and accumulate the genuinely new samples into a
/// histogram store with the given ceiling and precision.  The result is
/// exactly `pipeline_spec`.
#[verifier::rlimit(100)]
pub fn run_fold(snaps: Vec<Snapshot>, cfg: &StitchConfig, ceiling: u64, sigfig: u8) -> (r: Result<
    HistogramStore,
    PipelineError,
>)
    requires
        cfg.wf(),
        snapshots_wf(snaps@),
        2 <= ceiling,
        sigfig <= 5,
    ensures
        match r {
            Ok(store) => {
                &&& store.wf()
                &&& store.spec_ceiling() == ceiling
                &&& pipeline_spec(snaps@, *cfg, ceiling) == Ok::<
                    _,
                    (Seq<char>, u64, u64, Option<StitchError>),
                >((store.service_names(), store.contents()))
            },
            Err(e) => match e {
                PipelineError::Stitch { service, current_ts, previous_ts, kind } => pipeline_spec(
                    snaps@,
                    *cfg,
                    ceiling,
                ) == Err::<(Seq<Seq<char>>, Seq<Multiset<u64>>), _>(
                    (service@, current_ts, previous_ts, Some(kind)),
                ),
                PipelineError::ValueOutOfRange { service, micros } => pipeline_spec(
                    snaps@,
                    *cfg,
                    ceiling,
                ) == Err::<(Seq<Seq<char>>, Seq<Multiset<u64>>), _>((service@, micros, 0u64, None::<StitchError>)),
            },
        },
{
    let mut sorted = sort_by_timestamp(snaps);
    proof {
        lemma_stable_sorted_sorted(snaps@);
        lemma_stable_sorted_wf(snaps@);
    }
    let ghost sseq = sorted@;
    let mut store = HistogramStore::new(ceiling, sigfig);
    let mut table: Vec<(String, Vec<u64>, u64)> = Vec::new();
    let ghost mut k: int = 0;
    proof {
        assert(table_view(table@) =~= Seq::<(Seq<char>, Seq<u64>, u64)>::empty());
    }
    while sorted.len() > 0
        invariant
            cfg.wf(),
            2 <= ceiling,
            sseq == stable_sorted(snaps@),
            ts_sorted(sseq),
            snapshots_wf(sseq),
            0 <= k <= sseq.len(),
            sorted@ == sseq.skip(k),
            store.wf(),
            store.spec_ceiling() == ceiling,
            forall|l: int|
                #![trigger table@[l]]
                0 <= l < table@.len() ==> window_wf(table@[l].1@) && (k > 0 ==> table@[l].2
                    <= sseq[k - 1].timestamp),
            k == 0 ==> table@.len() == 0,
            fold_snapshots(
                Seq::empty(),
                Seq::empty(),
                Seq::empty(),
                sseq,
                k,
                *cfg,
                ceiling,
            ) == Ok::<_, (Seq<char>, u64, u64, Option<StitchError>)>(
                (table_view(table@), store.service_names(), store.contents()),
            ),
        decreases sorted@.len(),
    {
        let snap = sorted.remove(0);
        proof {
            assert(sseq.skip(k).drop_first() =~= sseq.skip(k + 1));
            assert(snap == sseq[k]);
        }
        let ts = snap.timestamp;
        let mut svcs = snap.services;
        let ghost sv = svcs@;
        let ghost t0 = table_view(table@);
        let ghost n0 = store.service_names();
        let ghost c0 = store.contents();
        let ghost mut m: int = 0;
        proof {
            assert(sv.skip(0) =~= sv);
            assert(forall|l: int|
                0 <= l < sv.len() ==> window_wf(#[trigger] sseq[k].services@[l].1@));
        }
        while svcs.len() > 0
            invariant
                cfg.wf(),
                2 <= ceiling,
                sseq == stable_sorted(snaps@),
                0 <= k < sseq.len(),
                ts == sseq[k].timestamp,
                sv == sseq[k].services@,
                fold_snapshots(Seq::empty(), Seq::empty(), Seq::empty(), sseq, k, *cfg, ceiling)
                    == Ok::<_, (Seq<char>, u64, u64, Option<StitchError>)>((t0, n0, c0)),
                0 <= m <= sv.len(),
                svcs@ == sv.skip(m),
                forall|l: int| 0 <= l < sv.len() ==> window_wf(#[trigger] sv[l].1@),
                store.wf(),
                store.spec_ceiling() == ceiling,
                forall|l: int|
                    #![trigger table@[l]]
                    0 <= l < table@.len() ==> window_wf(table@[l].1@) && table@[l].2 <= ts,
                fold_services(t0, n0, c0, ts, sv, m, *cfg, ceiling) == Ok::<
                    _,
                    (Seq<char>, u64, u64, Option<StitchError>),
                >((table_view(table@), store.service_names(), store.contents())),
            decreases svcs@.len(),
        {
            let (name, window) = svcs.remove(0);
            proof {
                assert(sv.skip(m).drop_first() =~= sv.skip(m + 1));
                assert((name, window) == sv[m]);
                assert(window_wf(window@));
            }
            let ghost tv = table_view(table@);
            let ghost pn = store.service_names();
            let ghost pc = store.contents();
            let found = table_find(&table, &name);
            match found {
                Some(i) => {
                    let prev_ts = table[i].2;
                    let ghost pw = table@[i as int].1@;
                    proof {
                        assert(assoc_find(tv, name@) == Some((pw, prev_ts)));
                        assert(prev_ts <= ts);
                    }
                    let news = {
                        let entry = &table[i];
                        stitch(&window, &entry.1, ts - prev_ts, cfg)
                    };
                    match news {
                        Ok(p) => {
                            let ghost ns = stitch_spec(
                                window@,
                                pw,
                                ts - prev_ts,
                                *cfg,
                            )->Ok_0.0;
                            proof {
                                assert(p.0@ == ns);
                            }
                            let outcome = record_all(&mut store, &name, &p.0);
                            match outcome {
                                Ok(_) => {},
                                Err(v) => {
                                    proof {
                                        let ev = (name@, v, 0u64, None::<StitchError>);
                                        assert(record_win(pn, pc, name@, ns, ns.len() as int,
                                            ceiling) == Err::<
                                            (Seq<Seq<char>>, Seq<Multiset<u64>>),
                                            u64,
                                        >(v));
                                        assert(fold_service(tv, pn, pc, ts, sv[m].0@, sv[m].1@,
                                            *cfg, ceiling) == Err::<
                                            (
                                                Seq<(Seq<char>, Seq<u64>, u64)>,
                                                Seq<Seq<char>>,
                                                Seq<Multiset<u64>>,
                                            ),
                                            _,
                                        >(ev));
                                        lemma_fold_services_err(
                                            t0, n0, c0, ts, sv, m + 1, sv.len() as int, *cfg,
                                            ceiling,
                                        );
                                        lemma_fold_snapshots_err(
                                            Seq::empty(), Seq::empty(), Seq::empty(), sseq, k + 1,
                                            sseq.len() as int, *cfg, ceiling,
                                        );
                                    }
                                    return Err(PipelineError::ValueOutOfRange {
                                        service: name,
                                        micros: v,
                                    });
                                },
                            }
                            let ghost traw = table@;
                            table[i] = (name, window, ts);
                            proof {
                                assert forall|l: int|
                                    #![trigger table@[l]]
                                    0 <= l < table@.len() implies window_wf(table@[l].1@)
                                    && table@[l].2 <= ts by {
                                    if l != i as int {
                                        assert(table@[l] == traw[l]);
                                        assert(window_wf(traw[l].1@) && traw[l].2 <= ts);
                                    }
                                }
                                lemma_assoc_update_at(tv, sv[m].0@, sv[m].1@, ts, i as int);
                                assert(table_view(table@) =~= tv.update(
                                    i as int,
                                    (sv[m].0@, sv[m].1@, ts),
                                ));
                                assert(fold_service(tv, pn, pc, ts, sv[m].0@, sv[m].1@, *cfg,
                                    ceiling) == Ok::<_, (Seq<char>, u64, u64, Option<StitchError>)>(
                                    (table_view(table@), store.service_names(), store.contents()),
                                ));
                                m = m + 1;
                            }
                        },
                        Err(e) => {
                            proof {
                                let ev = (name@, ts, prev_ts, Some(e));
                                assert(fold_service(tv, pn, pc, ts, sv[m].0@, sv[m].1@, *cfg,
                                    ceiling) == Err::<
                                    (
                                        Seq<(Seq<char>, Seq<u64>, u64)>,
                                        Seq<Seq<char>>,
                                        Seq<Multiset<u64>>,
                                    ),
                                    _,
                                >(ev));
                                lemma_fold_services_err(
                                    t0, n0, c0, ts, sv, m + 1, sv.len() as int, *cfg, ceiling,
                                );
                                lemma_fold_snapshots_err(
                                    Seq::empty(), Seq::empty(), Seq::empty(), sseq, k + 1,
                                    sseq.len() as int, *cfg, ceiling,
                                );
                            }
                            return Err(PipelineError::Stitch {
                                service: name,
                                current_ts: ts,
                                previous_ts: prev_ts,
                                kind: e,
                            });
                        },
                    }
                },
                None => {
                    let outcome = record_all(&mut store, &name, &window);
                    match outcome {
                        Ok(_) => {},
                        Err(v) => {
                            proof {
                                let ev = (name@, v, 0u64, None::<StitchError>);
                                assert(fold_service(tv, pn, pc, ts, sv[m].0@, sv[m].1@, *cfg,
                                    ceiling) == Err::<
                                    (
                                        Seq<(Seq<char>, Seq<u64>, u64)>,
                                        Seq<Seq<char>>,
                                        Seq<Multiset<u64>>,
                                    ),
                                    _,
                                >(ev));
                                lemma_fold_services_err(
                                    t0, n0, c0, ts, sv, m + 1, sv.len() as int, *cfg, ceiling,
                                );
                                lemma_fold_snapshots_err(
                                    Seq::empty(), Seq::empty(), Seq::empty(), sseq, k + 1,
                                    sseq.len() as int, *cfg, ceiling,
                                );
                            }
                            return Err(PipelineError::ValueOutOfRange {
                                service: name,
                                micros: v,
                            });
                        },
                    }
                    let ghost traw = table@;
                    table.push((name, window, ts));
                    proof {
                        assert forall|l: int|
                            #![trigger table@[l]]
                            0 <= l < table@.len() implies window_wf(table@[l].1@) && table@[l].2
                            <= ts by {
                            if l < traw.len() {
                                assert(table@[l] == traw[l]);
                                assert(window_wf(traw[l].1@) && traw[l].2 <= ts);
                            } else {
                                assert(table@[l] == (name, window, ts));
                            }
                        }
                        lemma_assoc_update_none(tv, sv[m].0@, sv[m].1@, ts);
                        assert(table_view(table@) =~= tv.push((sv[m].0@, sv[m].1@, ts)));
                        assert(fold_service(tv, pn, pc, ts, sv[m].0@, sv[m].1@, *cfg, ceiling)
                            == Ok::<_, (Seq<char>, u64, u64, Option<StitchError>)>(
                            (table_view(table@), store.service_names(), store.contents()),
                        ));
                        m = m + 1;
                    }
                },
            }
        }
        proof {
            assert(sv.skip(m) =~= Seq::<(String, Vec<u64>)>::empty());
            assert(m == sv.len());
            k = k + 1;
        }
    }
    proof {
        assert(sseq.skip(k) =~= Seq::<Snapshot>::empty());
        assert(k == sseq.len());
    }
    Ok(store)
}

} // verus!
