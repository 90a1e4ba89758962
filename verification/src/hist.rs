//! The histogram store: one quantile histogram per service, created
//! lazily, keyed by service name and kept in lexicographic name order so
//! that reporting is deterministic.  The histograms themselves are
//! hdrhistogram's; the store records latencies rounded up to whole
//! milliseconds, never under-counting.
use vstd::prelude::*;
use vstd::multiset::Multiset;

use crate::text::{lex_lt, lemma_lex_trans, lemma_lex_trichotomy};

verus! {

/// One service's quantile histogram.  Verus cannot declare
/// hdrhistogram's generic `Histogram` type itself (its generic parameter
/// is bound by an outside trait), so it is held opaquely in this
/// wrapper; the `inner` field is there for unverified reporting code to
/// query quantiles and summary statistics directly.
#[verifier::external_body]
pub struct ServiceHistogram {
    pub inner: hdrhistogram::Histogram<u64>,
}

/// What a histogram holds: the multiset of values recorded into it.
pub uninterp spec fn hist_recorded(h: ServiceHistogram) -> Multiset<u64>;

/// The highest value a histogram was created to track.
pub uninterp spec fn hist_ceiling(h: ServiceHistogram) -> u64;

/// Relies on hdrhistogram::Histogram::new_with_bounds: with a lowest
/// discernible value of 1, a ceiling of at least 2 and at most five
/// significant digits, creation succeeds, and the new histogram has
/// nothing recorded.
#[verifier::external_body]
fn new_histogram(ceiling: u64, sigfig: u8) -> (r: ServiceHistogram)
    requires
        2 <= ceiling,
        sigfig <= 5,
    ensures
        hist_recorded(r) == Multiset::<u64>::empty(),
        hist_ceiling(r) == ceiling,
{
    ServiceHistogram { inner: hdrhistogram::Histogram::new_with_bounds(1, ceiling, sigfig).unwrap() }
}

/// Relies on hdrhistogram::Histogram::record: a value no greater than
/// the ceiling the histogram was created with is always recorded; a
/// rejected value is above the ceiling and leaves the histogram
/// unchanged.
#[verifier::external_body]
fn hist_record(h: &mut ServiceHistogram, value: u64) -> (r: bool)
    ensures
        value <= hist_ceiling(*old(h)) ==> r,
        r ==> hist_recorded(*final(h)) == hist_recorded(*old(h)).insert(value) && hist_ceiling(
            *final(h),
        ) == hist_ceiling(*old(h)),
        !r ==> *final(h) == *old(h) && value > hist_ceiling(*old(h)),
{
    h.inner.record(value).is_ok()
}

/// A latency in microseconds rounded up to whole milliseconds.
pub open spec fn ceil_ms(micros: u64) -> int {
    micros as int / 1000 + if micros as int % 1000 == 0 {
        0int
    } else {
        1int
    }
}

/// Round a latency up to the next whole millisecond.
pub fn ceil_millis(micros: u64) -> (r: u64)
    ensures
        r as int == ceil_ms(micros),
{
    micros / 1000 + if micros % 1000 == 0 {
        0
    } else {
        1
    }
}

/// First index of `name` among `names`, if present.
pub open spec fn find_name(names: Seq<Seq<char>>, name: Seq<char>) -> Option<int>
    decreases names.len(),
{
    if names.len() <= 0 {
        None
    } else if names[0] == name {
        Some(0)
    } else {
        match find_name(names.drop_first(), name) {
            Some(j) => Some(j + 1),
            None => None,
        }
    }
}

proof fn lemma_find_name_none(names: Seq<Seq<char>>, name: Seq<char>)
    requires
        forall|l: int| 0 <= l < names.len() ==> names[l] != name,
    ensures
        find_name(names, name) is None,
    decreases names.len(),
{
    if names.len() > 0 {
        lemma_find_name_none(names.drop_first(), name);
    }
}

proof fn lemma_find_name_at(names: Seq<Seq<char>>, name: Seq<char>, i: int)
    requires
        0 <= i < names.len(),
        names[i] == name,
        forall|l: int| 0 <= l < i ==> names[l] != name,
    ensures
        find_name(names, name) == Some(i),
    decreases i,
{
    if i > 0 {
        lemma_find_name_at(names.drop_first(), name, i - 1);
    }
}

/// How many of the (sorted) names precede `name` in lexicographic
/// order: the position a new name lands at.
pub open spec fn insert_pos(names: Seq<Seq<char>>, name: Seq<char>) -> int
    decreases names.len(),
{
    if names.len() <= 0 {
        0
    } else if lex_lt(names[0], name) {
        1 + insert_pos(names.drop_first(), name)
    } else {
        0
    }
}

proof fn lemma_insert_pos_at(names: Seq<Seq<char>>, name: Seq<char>, pos: int)
    requires
        0 <= pos <= names.len(),
        forall|l: int| 0 <= l < pos ==> lex_lt(#[trigger] names[l], name),
        pos < names.len() ==> !lex_lt(names[pos], name),
    ensures
        insert_pos(names, name) == pos,
    decreases names.len(),
{
    if names.len() > 0 && pos > 0 {
        lemma_insert_pos_at(names.drop_first(), name, pos - 1);
    }
}

/// Why a sample could not be recorded.
#[derive(Clone, Copy, Debug, PartialEq, Eq, Structural)]
pub enum StoreError {
    /// The rounded value exceeds what the histograms can track.
    ValueOutOfRange,
}

/// One histogram per service, in strictly increasing name order.
pub struct HistogramStore {
    names: Vec<String>,
    hists: Vec<ServiceHistogram>,
    ceiling: u64,
    sigfig: u8,
}

impl HistogramStore {
    /// The service names held, in the order the store keeps them.
    pub closed spec fn service_names(&self) -> Seq<Seq<char>> {
        self.names@.map_values(|s: String| s@)
    }

    /// What each service's histogram holds, parallel to `service_names`.
    pub closed spec fn contents(&self) -> Seq<Multiset<u64>> {
        self.hists@.map_values(|h: ServiceHistogram| hist_recorded(h))
    }

    pub closed spec fn spec_ceiling(&self) -> u64 {
        self.ceiling
    }

    pub closed spec fn wf(&self) -> bool {
        &&& self.names@.len() == self.hists@.len()
        &&& 2 <= self.ceiling
        &&& self.sigfig <= 5
        &&& forall|i: int|
            0 <= i < self.hists@.len() ==> hist_ceiling(#[trigger] self.hists@[i]) == self.ceiling
        &&& forall|i: int, j: int|
            0 <= i < j < self.names@.len() ==> lex_lt(
                #[trigger] self.names@[i]@,
                #[trigger] self.names@[j]@,
            )
    }

    /// The store lists service names in strictly increasing
    /// lexicographic order, whatever order they were first recorded in.
    pub proof fn lemma_names_sorted(&self)
        requires
            self.wf(),
        ensures
            forall|i: int, j: int|
                0 <= i < j < self.service_names().len() ==> lex_lt(
                    #[trigger] self.service_names()[i],
                    #[trigger] self.service_names()[j],
                ),
    {
    }

    /// An empty store whose histograms will track values up to `ceiling`
    /// with `sigfig` significant decimal digits.
    pub fn new(ceiling: u64, sigfig: u8) -> (r: Self)
        requires
            2 <= ceiling,
            sigfig <= 5,
        ensures
            r.wf(),
            r.service_names() == Seq::<Seq<char>>::empty(),
            r.contents() == Seq::<Multiset<u64>>::empty(),
            r.spec_ceiling() == ceiling,
    {
        let r = HistogramStore { names: Vec::new(), hists: Vec::new(), ceiling, sigfig };
        proof {
            assert(r.service_names() =~= Seq::<Seq<char>>::empty());
            assert(r.contents() =~= Seq::<Multiset<u64>>::empty());
        }
        r
    }

    /// The reference configuration: four significant digits, the full
    /// 64-bit range.
    pub fn new_default() -> (r: Self)
        ensures
            r.wf(),
            r.service_names() == Seq::<Seq<char>>::empty(),
            r.contents() == Seq::<Multiset<u64>>::empty(),
            r.spec_ceiling() == u64::MAX,
    {
        Self::new(u64::MAX, 4)
    }

    pub fn service_count(&self) -> (r: usize)
        ensures
            r == self.service_names().len(),
    {
        self.names.len()
    }

    pub fn service_name(&self, i: usize) -> (r: &String)
        requires
            i < self.service_names().len(),
        ensures
            r@ == self.service_names()[i as int],
    {
        &self.names[i]
    }

    /// The histogram of the `i`-th service, for querying.
    pub fn histogram(&self, i: usize) -> (r: &ServiceHistogram)
        requires
            i < self.contents().len(),
        ensures
            hist_recorded(*r) == self.contents()[i as int],
    {
        &self.hists[i]
    }

    /// Index of a service's histogram, if any sample of it was recorded.
    pub fn find(&self, name: &String) -> (r: Option<usize>)
        ensures
            match r {
                Some(i) => i < self.service_names().len() && self.service_names()[i as int]
                    == name@ && find_name(self.service_names(), name@) == Some(i as int),
                None => find_name(self.service_names(), name@) is None && forall|l: int|
                    0 <= l < self.service_names().len() ==> self.service_names()[l] != name@,
            },
    {
        let mut i: usize = 0;
        let n = self.names.len();
        while i < n
            invariant
                n == self.names@.len(),
                0 <= i <= n,
                forall|l: int| 0 <= l < i ==> self.names@[l]@ != name@,
            decreases n - i,
        {
            if self.names[i] == *name {
                proof {
                    lemma_find_name_at(self.service_names(), name@, i as int);
                }
                return Some(i);
            }
            i = i + 1;
        }
        proof {
            lemma_find_name_none(self.service_names(), name@);
        }
        None
    }

    /// Record one latency sample, in microseconds, under a service name:
    /// the value is rounded up to whole milliseconds and added to the
    /// service's histogram, which is created on first use.  A value
    /// above the histograms' ceiling is refused and the store is left
    /// unchanged.
    #[verifier::rlimit(60)]
    pub fn record_sample(&mut self, name: &String, micros: u64) -> (r: Result<(), StoreError>)
        requires
            old(self).wf(),
        ensures
            final(self).wf(),
            final(self).spec_ceiling() == old(self).spec_ceiling(),
            r is Ok <==> ceil_ms(micros) <= old(self).spec_ceiling(),
            r is Err ==> *final(self) == *old(self),
            r is Ok ==> match find_name(old(self).service_names(), name@) {
                Some(i) => {
                    &&& final(self).service_names() == old(self).service_names()
                    &&& final(self).contents() == old(self).contents().update(
                        i,
                        old(self).contents()[i].insert(ceil_ms(micros) as u64),
                    )
                },
                None => {
                    let i = insert_pos(old(self).service_names(), name@);
                    &&& final(self).service_names() == old(self).service_names().insert(i, name@)
                    &&& final(self).contents() == old(self).contents().insert(
                        i,
                        Multiset::<u64>::empty().insert(ceil_ms(micros) as u64),
                    )
                },
            },
    {
        let value = ceil_millis(micros);
        if value > self.ceiling {
            return Err(StoreError::ValueOutOfRange);
        }
        match self.find(name) {
            Some(i) => {
                let ok = hist_record(&mut self.hists[i], value);
                proof {
                    assert(ok);
                    assert(final(self).contents() =~= old(self).contents().update(
                        i as int,
                        old(self).contents()[i as int].insert(value),
                    ));
                    assert(final(self).service_names() =~= old(self).service_names());
                    assert forall|l: int| 0 <= l < self.hists@.len() implies hist_ceiling(
                        #[trigger] self.hists@[l],
                    ) == self.ceiling by {
                        if l != i as int {
                            assert(self.hists@[l] == old(self).hists@[l]);
                        }
                    }
                }
                Ok(())
            },
            None => {
                let mut h = new_histogram(self.ceiling, self.sigfig);
                let ok = hist_record(&mut h, value);
                proof {
                    assert(ok);
                }
                // Insert at the position that keeps the names sorted.
                let n = self.names.len();
                let mut pos: usize = 0;
                while pos < n && crate::text::str_lt(self.names[pos].as_str(), name.as_str())
                    invariant
                        n == self.names@.len(),
                        0 <= pos <= n,
                        forall|l: int| 0 <= l < pos ==> lex_lt(#[trigger] self.names@[l]@, name@),
                    decreases n - pos,
                {
                    pos = pos + 1;
                }
                proof {
                    let names = self.service_names();
                    assert(forall|l: int| 0 <= l < names.len() ==> names[l] != name@);
                    lemma_insert_pos_at(names, name@, pos as int);
                    if pos < n {
                        lemma_lex_trichotomy(names[pos as int], name@);
                        assert(lex_lt(name@, names[pos as int]));
                        assert forall|l: int| pos <= l < names.len() implies lex_lt(
                            name@,
                            names[l],
                        ) by {
                            if l > pos {
                                lemma_lex_trans(name@, names[pos as int], names[l]);
                            }
                        }
                    }
                }
                self.names.insert(pos, name.clone());
                self.hists.insert(pos, h);
                proof {
                    assert(final(self).service_names() =~= old(self).service_names().insert(
                        pos as int,
                        name@,
                    ));
                    assert(final(self).contents() =~= old(self).contents().insert(
                        pos as int,
                        Multiset::<u64>::empty().insert(value),
                    ));
                    assert forall|l: int| 0 <= l < self.hists@.len() implies hist_ceiling(
                        #[trigger] self.hists@[l],
                    ) == self.ceiling by {
                        if l < pos as int {
                            assert(self.hists@[l] == old(self).hists@[l]);
                        } else if l > pos as int {
                            assert(self.hists@[l] == old(self).hists@[l - 1]);
                        }
                    }
                    assert forall|a: int, b: int|
                        0 <= a < b < self.names@.len() implies lex_lt(
                        #[trigger] self.names@[a]@,
                        #[trigger] self.names@[b]@,
                    ) by {
                        let p = pos as int;
                        let names = old(self).service_names();
                        if a < p {
                            assert(self.names@[a]@ == names[a]);
                        } else if a > p {
                            assert(self.names@[a]@ == names[a - 1]);
                        }
                        if b < p {
                            assert(self.names@[b]@ == names[b]);
                        } else if b > p {
                            assert(self.names@[b]@ == names[b - 1]);
                        }
                    }
                }
                Ok(())
            },
        }
    }
}

} // verus!
