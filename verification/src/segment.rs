//! The visit segmenter: consumes an ordered stream of timestamped
//! coordinates, classifies each one, and merges consecutive same-country
//! pings into visit intervals.
//!
//! One `Segmenter` owns one run: the classifier cache, the visit currently
//! open, and the ledger of closed visits. Unmatched pings are ignored: they
//! neither close nor extend the open visit. The host may drive `consume`
//! ping by ping (reporting progress between calls) or hand the whole
//! sequence to `segment_pings`.

use vstd::prelude::*;

use crate::catalog::Catalog;
use crate::catalog::CountryView;
use crate::classify::ClassifierCache;
use crate::classify::classify_spec;
use crate::classify::classify_with_cache;
use crate::classify::lemma_classify_from_props;
use crate::classify::lemma_sticky_cache_equivalence;
use crate::classify::non_overlapping;
use crate::classify::opt_int;
use crate::geometry::Point;
use crate::geometry::coord_in_range;
use crate::visit::Timestamp;
use crate::visit::Visit;
use crate::visit::VisitView;
use crate::visit::Visits;

verus! {

/// One timestamped coordinate of the location history, in WGS84 degrees at
/// the caller's fixed-point scale. The stream is expected in non-decreasing
/// timestamp order; the segmenter rejects violations.
#[derive(Clone, Copy, PartialEq, Eq, Structural, Debug)]
pub struct LocationPing {
    pub timestamp: Timestamp,
    pub longitude: i64,
    pub latitude: i64,
}

impl LocationPing {
    pub open spec fn wf(self) -> bool {
        &&& self.timestamp.wf()
        &&& coord_in_range(self.longitude as int)
        &&& coord_in_range(self.latitude as int)
    }
}

/// Segmentation failure: a ping arrived with a timestamp earlier than the
/// one before it.
#[derive(Clone, Copy, PartialEq, Eq, Structural, Debug)]
pub enum SegmentError {
    OrderingViolation,
}

/// What a segmentation run does with a ping that matches no country.
///
/// Ignoring the ping (the default) leaves the open visit open across the
/// gap; closing on the gap ends the open visit at the unmatched ping's
/// timestamp, so a crossing over open water splits the record in two.
#[derive(Clone, Copy, PartialEq, Eq, Structural, Debug)]
pub enum GapPolicy {
    IgnoreUnmatched,
    CloseOnGap,
}

/// The visit currently open: the country it is in (as a catalog index) and
/// when it began. Kept apart from the closed ledger so that no closed visit
/// is ever mutated.
#[derive(Clone, Copy, PartialEq, Eq, Structural, Debug)]
pub struct OpenVisit {
    pub country: usize,
    pub start: Timestamp,
}

/// The mathematical state of a segmentation run.
#[verifier::ext_equal]
pub ghost struct SegState {
    /// The sticky classifier cache, as a catalog index.
    pub cache: Option<int>,
    /// The open visit: country index and start time.
    pub current: Option<(int, Timestamp)>,
    /// The closed visits, in the order they were closed.
    pub closed: Seq<VisitView>,
    /// The timestamp of the last ping consumed, used to reject unordered input.
    pub last_seen: Option<Timestamp>,
}

/// The state a fresh segmenter starts in.
pub open spec fn seg_init() -> SegState {
    SegState { cache: None, current: None, closed: Seq::empty(), last_seen: None }
}

/// How one in-order ping advances a segmentation run:
/// - an unmatched ping is ignored, or closes the open visit, as the gap
///   policy says;
/// - a ping in the open visit's country is absorbed into it;
/// - a ping in a different country closes the open visit at this ping's
///   timestamp, appends it to the ledger, and opens a new visit here.
pub open spec fn seg_step(
    cats: Seq<CountryView>,
    policy: GapPolicy,
    s: SegState,
    ping: LocationPing,
) -> SegState {
    let r = classify_with_cache(cats, ping.longitude as int, ping.latitude as int, s.cache);
    let cache2 = if r is Some {
        r
    } else {
        s.cache
    };
    match r {
        None => match policy {
            GapPolicy::IgnoreUnmatched => SegState {
                cache: cache2,
                last_seen: Some(ping.timestamp),
                ..s
            },
            GapPolicy::CloseOnGap => {
                let closed2 = match s.current {
                    Some((cj, st)) => s.closed.push(
                        VisitView { country: cats[cj].name, start: st, end: Some(ping.timestamp) },
                    ),
                    None => s.closed,
                };
                SegState {
                    cache: cache2,
                    current: None,
                    closed: closed2,
                    last_seen: Some(ping.timestamp),
                }
            },
        },
        Some(ci) => {
            let open_country = match s.current {
                Some((cj, st)) => Some(cj),
                None => None,
            };
            if open_country == Some(ci) {
                SegState { cache: cache2, last_seen: Some(ping.timestamp), ..s }
            } else {
                let closed2 = match s.current {
                    Some((cj, st)) => s.closed.push(
                        VisitView { country: cats[cj].name, start: st, end: Some(ping.timestamp) },
                    ),
                    None => s.closed,
                };
                SegState {
                    cache: cache2,
                    current: Some((ci, ping.timestamp)),
                    closed: closed2,
                    last_seen: Some(ping.timestamp),
                }
            }
        },
    }
}

/// The ping is out of order with respect to the run so far.
pub open spec fn breaks_order(s: SegState, ping: LocationPing) -> bool {
    s.last_seen is Some && ping.timestamp.secs < s.last_seen->0.secs
}

/// The ledger a finished run hands off: the closed visits, then the still
/// open visit (if any) with no end.
pub open spec fn seg_finalize(cats: Seq<CountryView>, s: SegState) -> Seq<VisitView> {
    match s.current {
        Some((ci, st)) => s.closed.push(VisitView { country: cats[ci].name, start: st, end: None }),
        None => s.closed,
    }
}

/// The state after consuming the first `n` pings, starting cold.
pub open spec fn seg_run(
    cats: Seq<CountryView>,
    policy: GapPolicy,
    pings: Seq<LocationPing>,
    n: int,
) -> SegState
    decreases n,
{
    if n <= 0 {
        seg_init()
    } else {
        seg_step(cats, policy, seg_run(cats, policy, pings, n - 1), pings[n - 1])
    }
}

/// The pings arrive in non-decreasing timestamp order.
pub open spec fn pings_ordered(pings: Seq<LocationPing>) -> bool {
    forall|i: int|
        0 < i < pings.len() ==> (#[trigger] pings[i].timestamp.secs) >= pings[i - 1].timestamp.secs
}

/// One visit segmentation run.
#[derive(Debug)]
pub struct Segmenter {
    pub policy: GapPolicy,
    pub cache: ClassifierCache,
    pub current: Option<OpenVisit>,
    pub closed: Visits,
    pub last_seen: Option<Timestamp>,
}

impl View for Segmenter {
    type V = SegState;

    open spec fn view(&self) -> SegState {
        SegState {
            cache: opt_int(self.cache.last),
            current: match self.current {
                Some(ov) => Some((ov.country as int, ov.start)),
                None => None,
            },
            closed: self.closed.deep_view(),
            last_seen: self.last_seen,
        }
    }
}

impl Segmenter {
    /// Indices point into the catalog, every recorded timestamp is in range,
    /// and the open visit starts no later than the last ping seen.
    pub open spec fn wf(self, cats: Seq<CountryView>) -> bool {
        &&& self.cache.wf(cats)
        &&& match self@.current {
            Some((ci, st)) => {
                &&& 0 <= ci < cats.len()
                &&& st.wf()
                &&& self@.last_seen is Some
                &&& st.secs <= self@.last_seen->0.secs
            },
            None => true,
        }
        &&& match self@.last_seen {
            Some(t) => t.wf(),
            None => true,
        }
        &&& forall|i: int| 0 <= i < self@.closed.len() ==> (#[trigger] self@.closed[i]).wf()
    }

    /// A fresh run with the default policy: unmatched pings are ignored.
    pub fn new() -> (r: Segmenter)
        ensures
            r@ == seg_init(),
            r.policy == GapPolicy::IgnoreUnmatched,
            forall|cats: Seq<CountryView>| r.wf(cats),
    {
        Segmenter::with_policy(GapPolicy::IgnoreUnmatched)
    }

    /// A fresh run with the chosen unmatched-ping policy.
    pub fn with_policy(policy: GapPolicy) -> (r: Segmenter)
        ensures
            r@ == seg_init(),
            r.policy == policy,
            forall|cats: Seq<CountryView>| r.wf(cats),
    {
        let r = Segmenter {
            policy,
            cache: ClassifierCache::new(),
            current: None,
            closed: Vec::new(),
            last_seen: None,
        };
        proof {
            assert(r@ =~= seg_init());
        }
        r
    }

    /// Consumes one ping: classifies it (threading the sticky cache) and
    /// absorbs, ignores, or closes-and-opens visits accordingly. A ping
    /// older than the previous one is rejected and changes nothing.
    pub fn consume(&mut self, catalog: &Catalog, ping: &LocationPing) -> (r: Result<
        (),
        SegmentError,
    >)
        requires
            catalog.wf(),
            ping.wf(),
            old(self).wf(catalog@),
        ensures
            final(self).wf(catalog@),
            r is Err <==> breaks_order(old(self)@, *ping),
            r is Err ==> *final(self) == *old(self) && r == Result::<(), SegmentError>::Err(
                SegmentError::OrderingViolation,
            ),
            final(self).policy == old(self).policy,
            r is Ok ==> final(self)@ == seg_step(catalog@, old(self).policy, old(self)@, *ping),
    {
        if let Some(t) = self.last_seen {
            if ping.timestamp.secs < t.secs {
                return Err(SegmentError::OrderingViolation);
            }
        }
        let p = Point { x: ping.longitude, y: ping.latitude };
        let res = catalog.classify(&p, &mut self.cache);
        self.last_seen = Some(ping.timestamp);
        match res {
            None => {
                match self.policy {
                    GapPolicy::IgnoreUnmatched => {},
                    GapPolicy::CloseOnGap => {
                        if let Some(ov) = self.current {
                            let name = catalog.countries[ov.country].name.clone();
                            self.closed.push(
                                Visit { country: name, start: ov.start, end: Some(ping.timestamp) },
                            );
                        }
                        self.current = None;
                    },
                }
                proof {
                    assert(self@ =~= seg_step(catalog@, old(self).policy, old(self)@, *ping));
                }
                Ok(())
            },
            Some(ci) => {
                let same = match self.current {
                    Some(ov) => ov.country == ci,
                    None => false,
                };
                if !same {
                    if let Some(ov) = self.current {
                        let name = catalog.countries[ov.country].name.clone();
                        let closed_visit = Visit {
                            country: name,
                            start: ov.start,
                            end: Some(ping.timestamp),
                        };
                        self.closed.push(closed_visit);
                    }
                    self.current = Some(OpenVisit { country: ci, start: ping.timestamp });
                }
                proof {
                    assert(self@ =~= seg_step(catalog@, old(self).policy, old(self)@, *ping));
                }
                Ok(())
            },
        }
    }

    /// Hands the finished ledger off: the closed visits in order, then the
    /// still-open visit (if any) left open, signifying the trip is still in
    /// progress as of the last observed ping.
    pub fn into_ledger(self, catalog: &Catalog) -> (r: Visits)
        requires
            catalog.wf(),
            self.wf(catalog@),
        ensures
            r.deep_view() == seg_finalize(catalog@, self@),
            forall|i: int| 0 <= i < r@.len() ==> (#[trigger] r@[i])@.wf(),
    {
        let ghost gs = self@;
        let mut ledger = self.closed;
        if let Some(ov) = self.current {
            let name = catalog.countries[ov.country].name.clone();
            ledger.push(Visit { country: name, start: ov.start, end: None });
        }
        proof {
            assert(ledger.deep_view() =~= seg_finalize(catalog@, gs));
            assert forall|i: int| 0 <= i < ledger@.len() implies (#[trigger] ledger@[i])@.wf() by {
                assert(ledger@[i]@ == ledger.deep_view()[i]);
            }
        }
        ledger
    }
}

/// Segments a whole ping sequence against the catalog, starting cold and
/// ignoring unmatched pings (the default policy): classification, merging,
/// and final hand-off in one call. Returns the ledger, or the ordering
/// violation if the pings are not sorted.
pub fn segment_pings(catalog: &Catalog, pings: &Vec<LocationPing>) -> (r: Result<
    Visits,
    SegmentError,
>)
    requires
        catalog.wf(),
        forall|i: int| 0 <= i < pings@.len() ==> (#[trigger] pings@[i]).wf(),
    ensures
        r is Ok <==> pings_ordered(pings@),
        r is Ok ==> r->Ok_0.deep_view() == seg_finalize(
            catalog@,
            seg_run(catalog@, GapPolicy::IgnoreUnmatched, pings@, pings@.len() as int),
        ) && forall|i: int| 0 <= i < r->Ok_0@.len() ==> (#[trigger] r->Ok_0@[i])@.wf(),
{
    segment_pings_with_policy(catalog, pings, GapPolicy::IgnoreUnmatched)
}

/// As `segment_pings`, under the chosen unmatched-ping policy.
pub fn segment_pings_with_policy(
    catalog: &Catalog,
    pings: &Vec<LocationPing>,
    policy: GapPolicy,
) -> (r: Result<Visits, SegmentError>)
    requires
        catalog.wf(),
        forall|i: int| 0 <= i < pings@.len() ==> (#[trigger] pings@[i]).wf(),
    ensures
        r is Ok <==> pings_ordered(pings@),
        r is Ok ==> r->Ok_0.deep_view() == seg_finalize(
            catalog@,
            seg_run(catalog@, policy, pings@, pings@.len() as int),
        ) && forall|i: int| 0 <= i < r->Ok_0@.len() ==> (#[trigger] r->Ok_0@[i])@.wf(),
{
    let mut seg = Segmenter::with_policy(policy);
    let n = pings.len();
    let mut i: usize = 0;
    while i < n
        invariant
            n == pings@.len(),
            0 <= i <= n,
            catalog.wf(),
            forall|k: int| 0 <= k < pings@.len() ==> (#[trigger] pings@[k]).wf(),
            seg.wf(catalog@),
            seg.policy == policy,
            seg@ == seg_run(catalog@, policy, pings@, i as int),
            pings_ordered(pings@.take(i as int)),
            seg@.last_seen == if i == 0 {
                Option::<Timestamp>::None
            } else {
                Some(pings@[i as int - 1].timestamp)
            },
        decreases n - i,
    {
        let ping = pings[i];
        match seg.consume(catalog, &ping) {
            Ok(()) => {
                proof {
                    assert(pings_ordered(pings@.take(i as int + 1))) by {
                        assert(forall|k: int|
                            0 <= k < i as int ==> pings@.take(i as int + 1)[k] == pings@.take(
                                i as int,
                            )[k]);
                        assert(pings@.take(i as int + 1)[i as int] == pings@[i as int]);
                    }
                }
            },
            Err(e) => {
                proof {
                    assert(i > 0 && pings@[i as int].timestamp.secs < pings@[i as int
                        - 1].timestamp.secs);
                    assert(!pings_ordered(pings@));
                }
                return Err(e);
            },
        }
        i += 1;
    }
    proof {
        assert(pings@.take(n as int) =~= pings@);
    }
    Ok(seg.into_ledger(catalog))
}


/// The sticky cache of a running segmentation always points into the catalog.
proof fn lemma_seg_run_cache_valid(
    cats: Seq<CountryView>,
    policy: GapPolicy,
    pings: Seq<LocationPing>,
    n: int,
)
    ensures
        match seg_run(cats, policy, pings, n).cache {
            Some(i) => 0 <= i < cats.len(),
            None => true,
        },
    decreases n,
{
    if n > 0 {
        lemma_seg_run_cache_valid(cats, policy, pings, n - 1);
        let s = seg_run(cats, policy, pings, n - 1);
        let ping = pings[n - 1];
        let x = ping.longitude as int;
        let y = ping.latitude as int;
        if !(s.cache is Some && cats[s.cache->0].spec_contains(x, y)) {
            lemma_classify_from_props(cats, x, y, 0);
        }
    }
}

/// Sticky-cache equivalence over a whole run: against a non-overlapping
/// catalog, every step of a segmentation classifies its ping exactly as a
/// cold classifier would, whatever the cache holds at that point — warming
/// the cache changes the cost of a run, never its ledger.
pub proof fn lemma_run_sticky_equivalence(
    cats: Seq<CountryView>,
    policy: GapPolicy,
    pings: Seq<LocationPing>,
    n: int,
)
    requires
        non_overlapping(cats),
        0 <= n < pings.len(),
    ensures
        classify_with_cache(
            cats,
            pings[n].longitude as int,
            pings[n].latitude as int,
            seg_run(cats, policy, pings, n).cache,
        ) == classify_spec(cats, pings[n].longitude as int, pings[n].latitude as int),
{
    lemma_seg_run_cache_valid(cats, policy, pings, n);
    lemma_sticky_cache_equivalence(
        cats,
        pings[n].longitude as int,
        pings[n].latitude as int,
        seg_run(cats, policy, pings, n).cache,
    );
}

} // verus!
