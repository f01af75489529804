//! The boundary catalog: an ordered, immutable list of countries, each a
//! name, a bounding box, and a set of border polygons.
//!
//! The catalog is built once from upstream border records and read-only
//! afterward; its stored order is the scan and tie-break order of the
//! classifier.

use vstd::prelude::*;
use vstd::utf8::encode_utf8;

use crate::geometry::BoundingBox;
use crate::geometry::Point;
use crate::geometry::Polygon;
use crate::geometry::lemma_outside_bbox_not_in_ring;
use crate::geometry::ring_contains_pt;
use crate::geometry::ring_wf;

verus! {

/// Counts and name lengths are stored as 32-bit fields, so anything the
/// catalog owns must have fewer than 2^32 elements.
pub open spec fn fits_u32(n: int) -> bool {
    n < 4294967296
}

/// The mathematical content of a `Country`: its name as characters, its
/// bounding box, and its polygons as vertex sequences.
#[verifier::ext_equal]
pub ghost struct CountryView {
    pub name: Seq<char>,
    pub bb: BoundingBox,
    pub polys: Seq<Seq<Point>>,
}

impl CountryView {
    /// Coordinates are in range, the bounding box is ordered and encloses
    /// every vertex of every polygon, and all sizes fit their storage fields.
    pub open spec fn wf(self) -> bool {
        &&& self.bb.wf()
        &&& forall|k: int| 0 <= k < self.polys.len() ==> ring_wf(#[trigger] self.polys[k])
        &&& forall|k: int|
            0 <= k < self.polys.len() ==> self.bb.encloses_ring(#[trigger] self.polys[k])
        &&& fits_u32(encode_utf8(self.name).len() as int)
        &&& fits_u32(self.polys.len() as int)
        &&& forall|k: int| 0 <= k < self.polys.len() ==> fits_u32((#[trigger] self.polys[k]).len() as int)
    }

    /// The point lies inside at least one of the country's polygons:
    /// containment is the logical OR over the polygon set.
    pub open spec fn polys_contain(self, x: int, y: int) -> bool {
        exists|k: int| 0 <= k < self.polys.len() && ring_contains_pt(#[trigger] self.polys[k], x, y)
    }

    /// The classifier's per-country test: bounding box first, then polygons.
    pub open spec fn spec_contains(self, x: int, y: int) -> bool {
        self.bb.spec_contains(x, y) && self.polys_contain(x, y)
    }
}

/// One country's border record.
#[derive(Debug)]
pub struct Country {
    pub name: String,
    pub bb: BoundingBox,
    pub polygons: Vec<Polygon>,
}

impl View for Country {
    type V = CountryView;

    open spec fn view(&self) -> CountryView {
        CountryView { name: self.name@, bb: self.bb, polys: self.polygons.deep_view() }
    }
}

impl DeepView for Country {
    type V = CountryView;

    open spec fn deep_view(&self) -> CountryView {
        self.view()
    }
}

impl Country {
    pub open spec fn wf(self) -> bool {
        self@.wf()
    }

    /// Whether the point lies in this country: inside the bounding box and
    /// inside at least one border polygon.
    pub fn contains(&self, p: &Point) -> (r: bool)
        requires
            self.wf(),
            p.wf(),
        ensures
            r == self@.spec_contains(p.x as int, p.y as int),
    {
        if !self.bb.contains(p) {
            return false;
        }
        let n = self.polygons.len();
        let mut k: usize = 0;
        while k < n
            invariant
                n == self.polygons@.len(),
                0 <= k <= n,
                self.wf(),
                p.wf(),
                self.bb.spec_contains(p.x as int, p.y as int),
                forall|j: int|
                    0 <= j < k ==> !ring_contains_pt(
                        #[trigger] self@.polys[j],
                        p.x as int,
                        p.y as int,
                    ),
            decreases n - k,
        {
            proof {
                assert(self@.polys[k as int] == self.polygons@[k as int].ring@);
            }
            if self.polygons[k].contains(p) {
                proof {
                    assert(ring_contains_pt(self@.polys[k as int], p.x as int, p.y as int));
                }
                return true;
            }
            k += 1;
        }
        false
    }
}

/// The loaded, immutable set of country border records, in a significant
/// order: classification scans it front to back and the first match wins.
#[derive(Debug)]
pub struct Catalog {
    pub countries: Vec<Country>,
}

impl View for Catalog {
    type V = Seq<CountryView>;

    open spec fn view(&self) -> Seq<CountryView> {
        self.countries.deep_view()
    }
}

/// Every country is well-formed and the count fits its storage field.
pub open spec fn catalog_wf(cats: Seq<CountryView>) -> bool {
    &&& fits_u32(cats.len() as int)
    &&& forall|i: int| 0 <= i < cats.len() ==> (#[trigger] cats[i]).wf()
}

impl Catalog {
    pub open spec fn wf(self) -> bool {
        catalog_wf(self@)
    }

    /// The empty catalog: valid, classifies every point as unmatched.
    pub fn new() -> (r: Catalog)
        ensures
            r@ == Seq::<CountryView>::empty(),
            r.wf(),
    {
        let c = Catalog { countries: Vec::new() };
        proof {
            assert(c@ =~= Seq::<CountryView>::empty());
        }
        c
    }

    pub fn len(&self) -> (r: usize)
        ensures
            r == self@.len(),
    {
        self.countries.len()
    }
}

/// Bounding-box pre-filter correctness for one country: for a well-formed
/// country the box never rejects a point that some border polygon contains,
/// so the pre-filtered test agrees with the pure polygon test.
pub proof fn lemma_bbox_prefilter_exact(c: CountryView, x: int, y: int)
    requires
        c.wf(),
    ensures
        c.spec_contains(x, y) == c.polys_contain(x, y),
{
    if !c.bb.spec_contains(x, y) && c.polys_contain(x, y) {
        let k = choose|k: int|
            0 <= k < c.polys.len() && ring_contains_pt(#[trigger] c.polys[k], x, y);
        lemma_outside_bbox_not_in_ring(c.polys[k], c.bb, x, y);
    }
}

} // verus!
