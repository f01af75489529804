//! The point classifier: finds the country containing a coordinate, scanning
//! the catalog in its stored order (first match wins), with a single-slot
//! "sticky" cache that exploits the temporal locality of a trajectory.

use vstd::prelude::*;

use crate::catalog::Catalog;
use crate::catalog::CountryView;
use crate::catalog::catalog_wf;
use crate::catalog::lemma_bbox_prefilter_exact;
use crate::geometry::Point;

verus! {

/// The first country at or after index `i` that contains the point.
pub open spec fn classify_from(cats: Seq<CountryView>, x: int, y: int, i: int) -> Option<int>
    decreases cats.len() - i,
{
    if i < 0 || i >= cats.len() {
        None
    } else if cats[i].spec_contains(x, y) {
        Some(i)
    } else {
        classify_from(cats, x, y, i + 1)
    }
}

/// The cold classification result: the index of the first country in catalog
/// order whose bounding box and at least one polygon contain the point.
pub open spec fn classify_spec(cats: Seq<CountryView>, x: int, y: int) -> Option<int> {
    classify_from(cats, x, y, 0)
}

/// The classification result with a warm cache: the cached country is tested
/// first and returned on a hit; otherwise the full scan decides.
pub open spec fn classify_with_cache(
    cats: Seq<CountryView>,
    x: int,
    y: int,
    cache: Option<int>,
) -> Option<int> {
    if cache is Some && cats[cache->0].spec_contains(x, y) {
        cache
    } else {
        classify_spec(cats, x, y)
    }
}

/// The single-slot sticky cache: the index of the most recently matched
/// country, if any.
#[derive(Clone, Copy, PartialEq, Eq, Structural, Debug)]
pub struct ClassifierCache {
    pub last: Option<usize>,
}

/// An `Option<usize>` as its mathematical counterpart.
pub open spec fn opt_int(o: Option<usize>) -> Option<int> {
    match o {
        Some(i) => Some(i as int),
        None => None,
    }
}

impl ClassifierCache {
    /// The cached index, if present, points into the catalog.
    pub open spec fn wf(self, cats: Seq<CountryView>) -> bool {
        match self.last {
            Some(i) => i < cats.len(),
            None => true,
        }
    }

    /// A cold cache.
    pub fn new() -> (r: ClassifierCache)
        ensures
            r.last is None,
    {
        ClassifierCache { last: None }
    }
}

impl Catalog {
    /// Classifies the point: the sticky fast path first, then the full scan
    /// in catalog order. On a match the cache is updated to the matched
    /// country; on no match it is left alone.
    pub fn classify(&self, p: &Point, cache: &mut ClassifierCache) -> (r: Option<usize>)
        requires
            self.wf(),
            p.wf(),
            old(cache).wf(self@),
        ensures
            final(cache).wf(self@),
            opt_int(r) == classify_with_cache(self@, p.x as int, p.y as int, opt_int(
                old(cache).last,
            )),
            r is Some ==> final(cache).last == r,
            r is None ==> *final(cache) == *old(cache),
    {
        if let Some(i) = cache.last {
            if self.countries[i].contains(p) {
                return Some(i);
            }
        }
        let ghost x = p.x as int;
        let ghost y = p.y as int;
        let n = self.countries.len();
        let mut i: usize = 0;
        while i < n
            invariant
                n == self@.len(),
                0 <= i <= n,
                self.wf(),
                p.wf(),
                classify_spec(self@, x, y) == classify_from(self@, x, y, i as int),
                x == p.x as int,
                y == p.y as int,
                *cache == *old(cache),
                classify_with_cache(self@, x, y, opt_int(old(cache).last)) == classify_spec(
                    self@,
                    x,
                    y,
                ),
            decreases n - i,
        {
            if self.countries[i].contains(p) {
                cache.last = Some(i);
                return Some(i);
            }
            i += 1;
        }
        None
    }
}

/// No point of the plane lies in two distinct countries of the catalog:
/// their border polygons are pairwise disjoint.
pub open spec fn non_overlapping(cats: Seq<CountryView>) -> bool {
    forall|i: int, j: int, x: int, y: int|
        0 <= i < j < cats.len() ==> !(#[trigger] cats[i].spec_contains(x, y)
            && #[trigger] cats[j].spec_contains(x, y))
}

/// When nothing before `i` contains the point but `i` does, the scan from
/// `k` finds `i`.
proof fn lemma_classify_from_skip(cats: Seq<CountryView>, x: int, y: int, k: int, i: int)
    requires
        0 <= k <= i < cats.len(),
        cats[i].spec_contains(x, y),
        forall|j: int| k <= j < i ==> !(#[trigger] cats[j]).spec_contains(x, y),
    ensures
        classify_from(cats, x, y, k) == Some(i),
    decreases i - k,
{
    if k < i {
        lemma_classify_from_skip(cats, x, y, k + 1, i);
    }
}

/// Sticky-cache equivalence: over a non-overlapping catalog, classifying
/// with any warm cache that points into the catalog yields exactly the cold
/// result, whatever the cache holds — the cache can change only the cost of
/// classification, never its outcome.
pub proof fn lemma_sticky_cache_equivalence(
    cats: Seq<CountryView>,
    x: int,
    y: int,
    cache: Option<int>,
)
    requires
        non_overlapping(cats),
        cache is Some ==> 0 <= cache->0 < cats.len(),
    ensures
        classify_with_cache(cats, x, y, cache) == classify_spec(cats, x, y),
{
    if cache is Some {
        let i = cache->0;
        if cats[i].spec_contains(x, y) {
            assert forall|j: int| 0 <= j < i implies !(#[trigger] cats[j]).spec_contains(
                x,
                y,
            ) by {
                assert(!(cats[j].spec_contains(x, y) && cats[i].spec_contains(x, y)));
            }
            lemma_classify_from_skip(cats, x, y, 0, i);
        }
    }
}

/// A classification hit names a country that does contain the point, and
/// nothing earlier in the catalog contains it; a miss means no country
/// contains it.
pub proof fn lemma_classify_from_props(cats: Seq<CountryView>, x: int, y: int, k: int)
    requires
        0 <= k <= cats.len(),
    ensures
        match classify_from(cats, x, y, k) {
            Some(i) => k <= i < cats.len() && cats[i].spec_contains(x, y) && forall|j: int|
                k <= j < i ==> !(#[trigger] cats[j]).spec_contains(x, y),
            None => forall|j: int| k <= j < cats.len() ==> !(#[trigger] cats[j]).spec_contains(x, y),
        },
    decreases cats.len() - k,
{
    if k < cats.len() && !cats[k].spec_contains(x, y) {
        lemma_classify_from_props(cats, x, y, k + 1);
    }
}

/// Bounding-box pre-filter correctness for the whole catalog: for a point
/// strictly outside every country's bounding box, classification returns
/// none — the pre-filter alone decides, and it agrees with the polygon test.
pub proof fn lemma_outside_all_bboxes_unclassified(cats: Seq<CountryView>, x: int, y: int)
    requires
        catalog_wf(cats),
        forall|i: int| 0 <= i < cats.len() ==> !(#[trigger] cats[i]).bb.spec_contains(x, y),
    ensures
        classify_spec(cats, x, y) is None,
        forall|i: int| 0 <= i < cats.len() ==> !(#[trigger] cats[i]).polys_contain(x, y),
{
    assert forall|i: int| 0 <= i < cats.len() implies !(#[trigger] cats[i]).polys_contain(
        x,
        y,
    ) by {
        lemma_bbox_prefilter_exact(cats[i], x, y);
    }
    lemma_classify_from_props(cats, x, y, 0);
}

} // verus!
