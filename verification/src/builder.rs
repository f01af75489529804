//! Building the catalog from upstream border records: extracting the name
//! attribute and recomputing each country's bounding box from its vertices,
//! which is what establishes the catalog invariant.
//!
//! Policy for records without the name attribute: the record is skipped, not
//! kept with an empty name, and not fatal to the rest of the build.

use vstd::prelude::*;

use crate::catalog::Catalog;
use crate::catalog::Country;
use crate::catalog::CountryView;
use crate::catalog::fits_u32;
use crate::geometry::BoundingBox;
use crate::geometry::Point;
use crate::geometry::Polygon;
use crate::geometry::ring_wf;

verus! {

/// A record as the upstream border-source decoder hands it over: the
/// record's attribute table and its ring geometry.
#[derive(Debug)]
pub struct RawRecord {
    pub attributes: Vec<(String, String)>,
    pub rings: Vec<Polygon>,
}

/// Failure to build one country record.
#[derive(Clone, Copy, PartialEq, Eq, Structural, Debug)]
pub enum BuildError {
    /// The record's attribute table has no entry under the name key.
    MissingNameAttribute,
}

/// The smallest box containing both arguments.
pub open spec fn bb_join(a: BoundingBox, b: BoundingBox) -> BoundingBox {
    BoundingBox {
        xmin: if a.xmin <= b.xmin {
            a.xmin
        } else {
            b.xmin
        },
        xmax: if a.xmax >= b.xmax {
            a.xmax
        } else {
            b.xmax
        },
        ymin: if a.ymin <= b.ymin {
            a.ymin
        } else {
            b.ymin
        },
        ymax: if a.ymax >= b.ymax {
            a.ymax
        } else {
            b.ymax
        },
    }
}

/// The degenerate box holding exactly one point.
pub open spec fn pt_box(p: Point) -> BoundingBox {
    BoundingBox { xmin: p.x, xmax: p.x, ymin: p.y, ymax: p.y }
}

/// Extends the accumulated bounds by one point.
pub open spec fn extend_box(acc: Option<BoundingBox>, p: Point) -> Option<BoundingBox> {
    match acc {
        Some(b) => Some(bb_join(b, pt_box(p))),
        None => Some(pt_box(p)),
    }
}

/// Folds a ring's vertices into the accumulated bounds.
pub open spec fn ring_box(acc: Option<BoundingBox>, ring: Seq<Point>) -> Option<BoundingBox>
    decreases ring.len(),
{
    if ring.len() == 0 {
        acc
    } else {
        extend_box(ring_box(acc, ring.drop_last()), ring.last())
    }
}

/// Folds every ring of every polygon into the accumulated bounds.
pub open spec fn polys_box(acc: Option<BoundingBox>, polys: Seq<Seq<Point>>) -> Option<BoundingBox>
    decreases polys.len(),
{
    if polys.len() == 0 {
        acc
    } else {
        ring_box(polys_box(acc, polys.drop_last()), polys.last())
    }
}

/// The bounding box a country is built with: the tight bounds of all its
/// vertices, or the degenerate box at the origin when it has none.
pub open spec fn computed_bb(polys: Seq<Seq<Point>>) -> BoundingBox {
    match polys_box(None, polys) {
        Some(b) => b,
        None => BoundingBox { xmin: 0, xmax: 0, ymin: 0, ymax: 0 },
    }
}

/// `outer` contains all of `inner`.
pub open spec fn box_covers(outer: BoundingBox, inner: BoundingBox) -> bool {
    &&& outer.xmin <= inner.xmin
    &&& inner.xmax <= outer.xmax
    &&& outer.ymin <= inner.ymin
    &&& inner.ymax <= outer.ymax
}

/// The value under the first attribute whose key matches, if any.
pub open spec fn attr_lookup(attrs: Seq<(String, String)>, key: Seq<char>) -> Option<Seq<char>>
    decreases attrs.len(),
{
    if attrs.len() == 0 {
        None
    } else if attrs[0].0@ == key {
        Some(attrs[0].1@)
    } else {
        attr_lookup(attrs.drop_first(), key)
    }
}

/// The catalog the first `n` records build: one country per record whose
/// attribute table has the name key, in record order, with the bounding box
/// recomputed from the record's vertices; other records are skipped.
pub open spec fn build_spec(records: Seq<RawRecord>, key: Seq<char>, n: int) -> Seq<CountryView>
    decreases n,
{
    if n <= 0 {
        Seq::empty()
    } else {
        let prev = build_spec(records, key, n - 1);
        match attr_lookup(records[n - 1].attributes@, key) {
            None => prev,
            Some(name) => prev.push(
                CountryView {
                    name,
                    bb: computed_bb(records[n - 1].rings.deep_view()),
                    polys: records[n - 1].rings.deep_view(),
                },
            ),
        }
    }
}

/// Folding a ring keeps the bounds well-formed, keeps them covering what
/// they covered, and makes them enclose every vertex of the ring.
proof fn lemma_ring_box_props(acc: Option<BoundingBox>, ring: Seq<Point>)
    requires
        acc is Some ==> acc->0.wf(),
        ring_wf(ring),
    ensures
        ring_box(acc, ring) is Some <==> (acc is Some || ring.len() > 0),
        ring_box(acc, ring) is None ==> ring.len() == 0,
        ring_box(acc, ring) is Some ==> ring_box(acc, ring)->0.wf(),
        acc is Some && ring_box(acc, ring) is Some ==> box_covers(ring_box(acc, ring)->0, acc->0),
        ring_box(acc, ring) is Some ==> ring_box(acc, ring)->0.encloses_ring(ring),
    decreases ring.len(),
{
    if ring.len() > 0 {
        lemma_ring_box_props(acc, ring.drop_last());
        let b = ring_box(acc, ring)->0;
        assert forall|i: int| 0 <= i < ring.len() implies b.spec_contains(
            #[trigger] ring[i].x as int,
            ring[i].y as int,
        ) by {
            if i < ring.len() - 1 {
                assert(ring.drop_last()[i] == ring[i]);
            } else {
                assert(ring.last() == ring[i]);
            }
        }
    }
}

/// Folding all rings keeps the bounds well-formed and encloses every ring.
proof fn lemma_polys_box_props(acc: Option<BoundingBox>, polys: Seq<Seq<Point>>)
    requires
        acc is Some ==> acc->0.wf(),
        forall|k: int| 0 <= k < polys.len() ==> ring_wf(#[trigger] polys[k]),
    ensures
        polys_box(acc, polys) is Some ==> polys_box(acc, polys)->0.wf(),
        acc is Some ==> polys_box(acc, polys) is Some,
        polys_box(acc, polys) is None ==> acc is None && forall|k: int|
            0 <= k < polys.len() ==> (#[trigger] polys[k]).len() == 0,
        acc is Some && polys_box(acc, polys) is Some ==> box_covers(
            polys_box(acc, polys)->0,
            acc->0,
        ),
        forall|k: int|
            0 <= k < polys.len() && polys_box(acc, polys) is Some ==> polys_box(
                acc,
                polys,
            )->0.encloses_ring(#[trigger] polys[k]),
    decreases polys.len(),
{
    if polys.len() > 0 {
        let prev = polys_box(acc, polys.drop_last());
        lemma_polys_box_props(acc, polys.drop_last());
        lemma_ring_box_props(prev, polys.last());
        let b = polys_box(acc, polys)->0;
        assert forall|k: int|
            0 <= k < polys.len() && polys_box(acc, polys) is Some implies b.encloses_ring(
            #[trigger] polys[k],
        ) by {
            if k < polys.len() - 1 {
                assert(polys.drop_last()[k] == polys[k]);
                if prev is None {
                    assert(polys[k].len() == 0);
                } else {
                    assert(box_covers(b, prev->0)) by {
                        lemma_ring_box_props(prev, polys.last());
                    }
                    assert(prev->0.encloses_ring(polys[k]));
                    assert forall|i: int|
                        0 <= i < polys[k].len() implies b.spec_contains(
                        #[trigger] polys[k][i].x as int,
                        polys[k][i].y as int,
                    ) by {
                        assert(prev->0.spec_contains(polys[k][i].x as int, polys[k][i].y as int));
                    }
                }
            } else {
                assert(polys.last() == polys[k]);
            }
        }
        if polys_box(acc, polys) is None {
            assert forall|k: int| 0 <= k < polys.len() implies (#[trigger] polys[k]).len()
                == 0 by {
                if k < polys.len() - 1 {
                    assert(polys.drop_last()[k] == polys[k]);
                } else {
                    assert(polys.last() == polys[k]);
                }
            }
        }
    }
}

/// Looks a key up in a record's attribute table; the first match wins.
fn lookup_attribute<'a>(attributes: &'a Vec<(String, String)>, key: &String) -> (r: Option<
    &'a String,
>)
    ensures
        match r {
            Some(v) => attr_lookup(attributes@, key@) == Some(v@) && exists|i: int|
                0 <= i < attributes@.len() && (#[trigger] attributes@[i]).1@ == v@,
            None => attr_lookup(attributes@, key@) is None,
        },
{
    let n = attributes.len();
    let mut i: usize = 0;
    proof {
        assert(attributes@.skip(0) =~= attributes@);
    }
    while i < n
        invariant
            n == attributes@.len(),
            0 <= i <= n,
            attr_lookup(attributes@, key@) == attr_lookup(attributes@.skip(i as int), key@),
        decreases n - i,
    {
        proof {
            assert(attributes@.skip(i as int)[0] == attributes@[i as int]);
        }
        if attributes[i].0 == *key {
            return Some(&attributes[i].1);
        }
        proof {
            assert(attributes@.skip(i as int).drop_first() =~= attributes@.skip(i as int + 1));
        }
        i += 1;
    }
    proof {
        assert(attributes@.skip(n as int).len() == 0);
    }
    None
}

/// Builds one country from an upstream record: extracts the name attribute
/// under `name_key` and recomputes the bounding box from the vertices. A
/// record without the name attribute is refused.
pub fn build_record(record: &RawRecord, name_key: &String) -> (r: Result<Country, BuildError>)
    requires
        forall|k: int| 0 <= k < record.rings@.len() ==> ring_wf(#[trigger] record.rings@[k].ring@),
        fits_u32(record.rings@.len() as int),
        forall|k: int|
            0 <= k < record.rings@.len() ==> fits_u32((#[trigger] record.rings@[k]).ring@.len() as int),
        forall|i: int|
            0 <= i < record.attributes@.len() ==> fits_u32(vstd::utf8::encode_utf8(
                (#[trigger] record.attributes@[i]).1@,
            ).len() as int),
    ensures
        match r {
            Ok(c) => {
                &&& c.wf()
                &&& attr_lookup(record.attributes@, name_key@) == Some(c@.name)
                &&& c@.polys == record.rings.deep_view()
                &&& c@.bb == computed_bb(record.rings.deep_view())
            },
            Err(e) => {
                &&& e == BuildError::MissingNameAttribute
                &&& attr_lookup(record.attributes@, name_key@) is None
            },
        },
{
    let name = match lookup_attribute(&record.attributes, name_key) {
        Some(v) => v.clone(),
        None => {
            return Err(BuildError::MissingNameAttribute);
        },
    };
    let ghost polys = record.rings.deep_view();
    let nrings = record.rings.len();
    let mut acc: Option<BoundingBox> = None;
    let mut k: usize = 0;
    while k < nrings
        invariant
            nrings == record.rings@.len(),
            0 <= k <= nrings,
            polys == record.rings.deep_view(),
            forall|j: int| 0 <= j < polys.len() ==> ring_wf(#[trigger] polys[j]),
            acc == polys_box(None, polys.take(k as int)),
        decreases nrings - k,
    {
        let ring = &record.rings[k];
        let m = ring.ring.len();
        let mut i: usize = 0;
        proof {
            assert(polys.take(k as int + 1).drop_last() =~= polys.take(k as int));
            assert(polys.take(k as int + 1).last() == polys[k as int]);
            assert(polys[k as int] == ring.ring@);
        }
        while i < m
            invariant
                m == ring.ring@.len(),
                0 <= i <= m,
                acc == ring_box(polys_box(None, polys.take(k as int)), ring.ring@.take(i as int)),
                polys == record.rings.deep_view(),
                k < nrings,
                nrings == record.rings@.len(),
                forall|j: int| 0 <= j < polys.len() ==> ring_wf(#[trigger] polys[j]),
                polys[k as int] == ring.ring@,
            decreases m - i,
        {
            let p = ring.ring[i];
            proof {
                assert(ring.ring@.take(i as int + 1).drop_last() =~= ring.ring@.take(i as int));
                assert(ring.ring@.take(i as int + 1).last() == p);
            }
            acc = match acc {
                Some(b) => Some(
                    BoundingBox {
                        xmin: if b.xmin <= p.x {
                            b.xmin
                        } else {
                            p.x
                        },
                        xmax: if b.xmax >= p.x {
                            b.xmax
                        } else {
                            p.x
                        },
                        ymin: if b.ymin <= p.y {
                            b.ymin
                        } else {
                            p.y
                        },
                        ymax: if b.ymax >= p.y {
                            b.ymax
                        } else {
                            p.y
                        },
                    },
                ),
                None => Some(BoundingBox { xmin: p.x, xmax: p.x, ymin: p.y, ymax: p.y }),
            };
            i += 1;
        }
        proof {
            assert(ring.ring@.take(m as int) =~= ring.ring@);
        }
        k += 1;
    }
    proof {
        assert(polys.take(nrings as int) =~= polys);
    }
    let bb = match acc {
        Some(b) => b,
        None => BoundingBox { xmin: 0, xmax: 0, ymin: 0, ymax: 0 },
    };
    let country = Country { name, bb, polygons: record.clone_rings() };
    proof {
        lemma_polys_box_props(None, polys);
        let i = choose|i: int|
            0 <= i < record.attributes@.len() && (#[trigger] record.attributes@[i]).1@
                == country@.name;
        assert(fits_u32(vstd::utf8::encode_utf8(country@.name).len() as int));
        assert forall|k: int| 0 <= k < polys.len() implies fits_u32(
            (#[trigger] polys[k]).len() as int,
        ) by {
            assert(polys[k] == record.rings@[k].ring@);
        }
        assert(country@.polys == polys);
        assert(country.wf());
    }
    Ok(country)
}

impl RawRecord {
    /// A structurally equal copy of the ring geometry.
    fn clone_rings(&self) -> (r: Vec<Polygon>)
        ensures
            r.deep_view() == self.rings.deep_view(),
    {
        let n = self.rings.len();
        let mut out: Vec<Polygon> = Vec::new();
        let mut k: usize = 0;
        while k < n
            invariant
                n == self.rings@.len(),
                0 <= k <= n,
                out.deep_view() =~= self.rings.deep_view().take(k as int),
            decreases n - k,
        {
            let mut ring: Vec<Point> = Vec::new();
            let m = self.rings[k].ring.len();
            let mut i: usize = 0;
            while i < m
                invariant
                    k < n,
                    n == self.rings@.len(),
                    m == self.rings@[k as int].ring@.len(),
                    0 <= i <= m,
                    ring@ =~= self.rings@[k as int].ring@.take(i as int),
                decreases m - i,
            {
                ring.push(self.rings[k].ring[i]);
                i += 1;
            }
            proof {
                assert(ring@ =~= self.rings@[k as int].ring@);
            }
            let ghost before = out.deep_view();
            out.push(Polygon { ring });
            proof {
                assert(out.deep_view() =~~= before.push(self.rings@[k as int].ring@));
                assert(out.deep_view() =~~= self.rings.deep_view().take(k as int + 1));
            }
            k += 1;
        }
        proof {
            assert(out.deep_view() =~= self.rings.deep_view());
        }
        out
    }
}

/// Builds the whole catalog: one country per usable record, in record order;
/// records missing the name attribute are skipped.
pub fn build(records: &Vec<RawRecord>, name_key: &String) -> (r: Catalog)
    requires
        fits_u32(records@.len() as int),
        forall|j: int, k: int|
            0 <= j < records@.len() && 0 <= k < (#[trigger] records@[j]).rings@.len() ==> ring_wf(
                #[trigger] records@[j].rings@[k].ring@,
            ),
        forall|j: int| 0 <= j < records@.len() ==> fits_u32((#[trigger] records@[j]).rings@.len() as int),
        forall|j: int, k: int|
            0 <= j < records@.len() && 0 <= k < (#[trigger] records@[j]).rings@.len() ==> fits_u32(
                (#[trigger] records@[j].rings@[k]).ring@.len() as int,
            ),
        forall|j: int, i: int|
            0 <= j < records@.len() && 0 <= i < (#[trigger] records@[j]).attributes@.len()
                ==> fits_u32(vstd::utf8::encode_utf8(
                (#[trigger] records@[j].attributes@[i]).1@,
            ).len() as int),
    ensures
        r.wf(),
        r@ == build_spec(records@, name_key@, records@.len() as int),
        r@.len() <= records@.len(),
{
    let n = records.len();
    let mut countries: Vec<Country> = Vec::new();
    let mut j: usize = 0;
    while j < n
        invariant
            n == records@.len(),
            0 <= j <= n,
            countries@.len() <= j,
            countries.deep_view() == build_spec(records@, name_key@, j as int),
            forall|i: int| 0 <= i < countries@.len() ==> (#[trigger] countries.deep_view()[i]).wf(),
            forall|jj: int, k: int|
                0 <= jj < records@.len() && 0 <= k < (#[trigger] records@[jj]).rings@.len()
                    ==> ring_wf(#[trigger] records@[jj].rings@[k].ring@),
            forall|jj: int|
                0 <= jj < records@.len() ==> fits_u32((#[trigger] records@[jj]).rings@.len() as int),
            forall|jj: int, k: int|
                0 <= jj < records@.len() && 0 <= k < (#[trigger] records@[jj]).rings@.len()
                    ==> fits_u32((#[trigger] records@[jj].rings@[k]).ring@.len() as int),
            forall|jj: int, i: int|
                0 <= jj < records@.len() && 0 <= i < (#[trigger] records@[jj]).attributes@.len()
                    ==> fits_u32(vstd::utf8::encode_utf8(
                    (#[trigger] records@[jj].attributes@[i]).1@,
                ).len() as int),
        decreases n - j,
    {
        match build_record(&records[j], name_key) {
            Ok(c) => {
                let ghost before = countries.deep_view();
                countries.push(c);
                proof {
                    assert(countries.deep_view() =~= before.push(c@));
                }
            },
            Err(_) => {},
        }
        j += 1;
    }
    let cat = Catalog { countries };
    proof {
        assert(fits_u32(cat@.len() as int));
    }
    cat
}

} // verus!
