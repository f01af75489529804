//! The catalog codec: a versioned binary serialization of the catalog and
//! its inverse.
//!
//! Layout, all integers little-endian: `[version:u32][count:u32]`, then per
//! country `[name_len:u32][name bytes (UTF-8)][xmin,xmax,ymin,ymax: 8 bytes
//! each][polygon_count:u32]`, then per polygon `[point_count:u32][(x,y) pairs
//! of 8 bytes each][interior_ring_count:u32 = 0]`. Coordinate slots hold the
//! library's signed 64-bit fixed-point values. Interior-ring counts are
//! reserved and always zero. Decoding rejects a version mismatch, truncation,
//! counts implying more bytes than remain, trailing bytes, and records that
//! break the catalog invariant; no partial catalog is ever returned.

use vstd::prelude::*;
use vstd::bytes::lemma_auto_spec_u32_to_from_le_bytes;
use vstd::bytes::lemma_auto_spec_u64_to_from_le_bytes;
use vstd::bytes::spec_u32_from_le_bytes;
use vstd::bytes::spec_u32_to_le_bytes;
use vstd::bytes::spec_u64_from_le_bytes;
use vstd::bytes::spec_u64_to_le_bytes;
use vstd::bytes::u32_from_le_bytes;
use vstd::bytes::u32_to_le_bytes;
use vstd::bytes::u64_from_le_bytes;
use vstd::bytes::u64_to_le_bytes;
use vstd::slice::slice_subrange;
use vstd::utf8::decode_utf8;
use vstd::utf8::encode_utf8;
use vstd::utf8::encode_utf8_decode_utf8;
use vstd::utf8::encode_utf8_valid_utf8;
use vstd::utf8::valid_utf8;

use crate::catalog::Catalog;
use crate::catalog::Country;
use crate::catalog::CountryView;
use crate::catalog::catalog_wf;
use crate::catalog::fits_u32;
use crate::geometry::BoundingBox;
use crate::geometry::COORD_LIMIT;
use crate::geometry::Point;
use crate::geometry::Polygon;
use crate::geometry::ring_wf;

verus! {

/// The format version this library writes and the only one it reads.
pub const CATALOG_VERSION: u32 = 1;

/// Decoding failure: the blob is not a catalog this library wrote.
#[derive(Clone, Copy, PartialEq, Eq, Structural, Debug)]
pub enum CatalogError {
    /// Version mismatch, truncation, an impossible count, trailing bytes, or
    /// a record breaking the catalog invariant.
    CorruptCatalog,
}

// ---------------------------------------------------------------------------
// The encoding, as a mathematical function of the catalog.
// ---------------------------------------------------------------------------

pub open spec fn enc_u32(v: u32) -> Seq<u8> {
    spec_u32_to_le_bytes(v)
}

pub open spec fn enc_i64(v: i64) -> Seq<u8> {
    spec_u64_to_le_bytes(v as u64)
}

pub open spec fn enc_point(p: Point) -> Seq<u8> {
    enc_i64(p.x) + enc_i64(p.y)
}

pub open spec fn enc_points(ps: Seq<Point>) -> Seq<u8>
    decreases ps.len(),
{
    if ps.len() == 0 {
        Seq::empty()
    } else {
        enc_point(ps[0]) + enc_points(ps.drop_first())
    }
}

pub open spec fn enc_poly(ring: Seq<Point>) -> Seq<u8> {
    enc_u32(ring.len() as u32) + enc_points(ring) + enc_u32(0)
}

pub open spec fn enc_polys(polys: Seq<Seq<Point>>) -> Seq<u8>
    decreases polys.len(),
{
    if polys.len() == 0 {
        Seq::empty()
    } else {
        enc_poly(polys[0]) + enc_polys(polys.drop_first())
    }
}

pub open spec fn enc_country(c: CountryView) -> Seq<u8> {
    enc_u32(encode_utf8(c.name).len() as u32) + encode_utf8(c.name) + enc_i64(c.bb.xmin) + enc_i64(
        c.bb.xmax,
    ) + enc_i64(c.bb.ymin) + enc_i64(c.bb.ymax) + enc_u32(c.polys.len() as u32) + enc_polys(c.polys)
}

pub open spec fn enc_countries(cats: Seq<CountryView>) -> Seq<u8>
    decreases cats.len(),
{
    if cats.len() == 0 {
        Seq::empty()
    } else {
        enc_country(cats[0]) + enc_countries(cats.drop_first())
    }
}

pub open spec fn enc_catalog(cats: Seq<CountryView>) -> Seq<u8> {
    enc_u32(CATALOG_VERSION) + enc_u32(cats.len() as u32) + enc_countries(cats)
}

// ---------------------------------------------------------------------------
// The parser, as a mathematical function of the bytes.
// ---------------------------------------------------------------------------

pub open spec fn parse_u32(b: Seq<u8>, pos: int) -> Option<(u32, int)> {
    if 0 <= pos && pos + 4 <= b.len() {
        Some((spec_u32_from_le_bytes(b.subrange(pos, pos + 4)), pos + 4))
    } else {
        None
    }
}

pub open spec fn parse_i64(b: Seq<u8>, pos: int) -> Option<(i64, int)> {
    if 0 <= pos && pos + 8 <= b.len() {
        Some((spec_u64_from_le_bytes(b.subrange(pos, pos + 8)) as i64, pos + 8))
    } else {
        None
    }
}

pub open spec fn parse_points(b: Seq<u8>, pos: int, n: int) -> Option<(Seq<Point>, int)>
    decreases n,
{
    if n <= 0 {
        Some((Seq::empty(), pos))
    } else {
        match parse_i64(b, pos) {
            None => None,
            Some((x, p1)) => match parse_i64(b, p1) {
                None => None,
                Some((y, p2)) => match parse_points(b, p2, n - 1) {
                    None => None,
                    Some((rest, p3)) => Some((seq![Point { x, y }] + rest, p3)),
                },
            },
        }
    }
}

pub open spec fn parse_poly(b: Seq<u8>, pos: int) -> Option<(Seq<Point>, int)> {
    match parse_u32(b, pos) {
        None => None,
        Some((cnt, p1)) => match parse_points(b, p1, cnt as int) {
            None => None,
            Some((ps, p2)) => match parse_u32(b, p2) {
                None => None,
                Some((ir, p3)) => if ir == 0 {
                    Some((ps, p3))
                } else {
                    None
                },
            },
        },
    }
}

pub open spec fn parse_polys(b: Seq<u8>, pos: int, n: int) -> Option<(Seq<Seq<Point>>, int)>
    decreases n,
{
    if n <= 0 {
        Some((Seq::empty(), pos))
    } else {
        match parse_poly(b, pos) {
            None => None,
            Some((ring, p1)) => match parse_polys(b, p1, n - 1) {
                None => None,
                Some((rest, p2)) => Some((seq![ring] + rest, p2)),
            },
        }
    }
}

pub open spec fn parse_name(b: Seq<u8>, pos: int) -> Option<(Seq<char>, int)> {
    match parse_u32(b, pos) {
        None => None,
        Some((len, p1)) => if p1 + len <= b.len() {
            if valid_utf8(b.subrange(p1, p1 + len)) {
                Some((decode_utf8(b.subrange(p1, p1 + len)), p1 + len))
            } else {
                None
            }
        } else {
            None
        },
    }
}

pub open spec fn parse_country(b: Seq<u8>, pos: int) -> Option<(CountryView, int)> {
    match parse_name(b, pos) {
        None => None,
        Some((name, p1)) => match parse_i64(b, p1) {
            None => None,
            Some((xmin, p2)) => match parse_i64(b, p2) {
                None => None,
                Some((xmax, p3)) => match parse_i64(b, p3) {
                    None => None,
                    Some((ymin, p4)) => match parse_i64(b, p4) {
                        None => None,
                        Some((ymax, p5)) => match parse_u32(b, p5) {
                            None => None,
                            Some((cnt, p6)) => match parse_polys(b, p6, cnt as int) {
                                None => None,
                                Some((polys, p7)) => {
                                    let c = CountryView {
                                        name,
                                        bb: BoundingBox { xmin, xmax, ymin, ymax },
                                        polys,
                                    };
                                    if c.wf() {
                                        Some((c, p7))
                                    } else {
                                        None
                                    }
                                },
                            },
                        },
                    },
                },
            },
        },
    }
}

pub open spec fn parse_countries(b: Seq<u8>, pos: int, n: int) -> Option<(Seq<CountryView>, int)>
    decreases n,
{
    if n <= 0 {
        Some((Seq::empty(), pos))
    } else {
        match parse_country(b, pos) {
            None => None,
            Some((c, p1)) => match parse_countries(b, p1, n - 1) {
                None => None,
                Some((rest, p2)) => Some((seq![c] + rest, p2)),
            },
        }
    }
}

/// What decoding a blob yields: the catalog, or nothing if the blob is not
/// exactly a current-version encoding of a well-formed catalog.
pub open spec fn parse_catalog(b: Seq<u8>) -> Option<Seq<CountryView>> {
    match parse_u32(b, 0) {
        None => None,
        Some((ver, p1)) => if ver != CATALOG_VERSION {
            None
        } else {
            match parse_u32(b, p1) {
                None => None,
                Some((cnt, p2)) => match parse_countries(b, p2, cnt as int) {
                    None => None,
                    Some((cats, p3)) => if p3 == b.len() {
                        Some(cats)
                    } else {
                        None
                    },
                },
            }
        },
    }
}

// ---------------------------------------------------------------------------
// Encoding (executable).
// ---------------------------------------------------------------------------

/// Appending one point keeps the point-sequence encoding a concatenation.
proof fn lemma_enc_points_append(ps: Seq<Point>, p: Point)
    ensures
        enc_points(ps.push(p)) == enc_points(ps) + enc_point(p),
    decreases ps.len(),
{
    if ps.len() == 0 {
        assert(ps.push(p)[0] == p);
        assert(ps.push(p).drop_first() =~= Seq::<Point>::empty());
        assert(enc_points(ps.push(p)) == enc_point(p) + enc_points(ps.push(p).drop_first()));
        assert(enc_points(ps.push(p).drop_first()) == Seq::<u8>::empty());
        assert(enc_points(ps) == Seq::<u8>::empty());
        assert(enc_points(ps.push(p)) =~= enc_points(ps) + enc_point(p));
    } else {
        lemma_enc_points_append(ps.drop_first(), p);
        assert(ps.push(p).drop_first() =~= ps.drop_first().push(p));
        assert(ps.push(p)[0] == ps[0]);
        assert(enc_points(ps.push(p)) == enc_point(ps[0]) + enc_points(ps.push(p).drop_first()));
        assert(enc_points(ps.push(p).drop_first()) == enc_points(ps.drop_first()) + enc_point(p));
        assert(enc_points(ps) == enc_point(ps[0]) + enc_points(ps.drop_first()));
        assert(enc_point(ps[0]) + (enc_points(ps.drop_first()) + enc_point(p)) =~= (enc_point(
            ps[0],
        ) + enc_points(ps.drop_first())) + enc_point(p));
    }
}

proof fn lemma_enc_polys_append(polys: Seq<Seq<Point>>, ring: Seq<Point>)
    ensures
        enc_polys(polys.push(ring)) == enc_polys(polys) + enc_poly(ring),
    decreases polys.len(),
{
    if polys.len() == 0 {
        assert(polys.push(ring)[0] == ring);
        assert(polys.push(ring).drop_first() =~= Seq::<Seq<Point>>::empty());
        assert(enc_polys(polys.push(ring)) == enc_poly(ring) + enc_polys(
            polys.push(ring).drop_first(),
        ));
        assert(enc_polys(polys.push(ring).drop_first()) == Seq::<u8>::empty());
        assert(enc_polys(polys) == Seq::<u8>::empty());
        assert(enc_polys(polys.push(ring)) =~= enc_polys(polys) + enc_poly(ring));
    } else {
        lemma_enc_polys_append(polys.drop_first(), ring);
        assert(polys.push(ring).drop_first() =~= polys.drop_first().push(ring));
        assert(polys.push(ring)[0] == polys[0]);
        assert(enc_polys(polys.push(ring)) == enc_poly(polys[0]) + enc_polys(
            polys.push(ring).drop_first(),
        ));
        assert(enc_polys(polys.push(ring).drop_first()) == enc_polys(polys.drop_first())
            + enc_poly(ring));
        assert(enc_polys(polys) == enc_poly(polys[0]) + enc_polys(polys.drop_first()));
        assert(enc_poly(polys[0]) + (enc_polys(polys.drop_first()) + enc_poly(ring)) =~= (enc_poly(
            polys[0],
        ) + enc_polys(polys.drop_first())) + enc_poly(ring));
    }
}

proof fn lemma_enc_countries_append(cats: Seq<CountryView>, c: CountryView)
    ensures
        enc_countries(cats.push(c)) == enc_countries(cats) + enc_country(c),
    decreases cats.len(),
{
    if cats.len() == 0 {
        assert(cats.push(c)[0] == c);
        assert(cats.push(c).drop_first() =~= Seq::<CountryView>::empty());
        assert(enc_countries(cats.push(c)) == enc_country(c) + enc_countries(
            cats.push(c).drop_first(),
        ));
        assert(enc_countries(cats.push(c).drop_first()) == Seq::<u8>::empty());
        assert(enc_countries(cats) == Seq::<u8>::empty());
        assert(enc_countries(cats.push(c)) =~= enc_countries(cats) + enc_country(c));
    } else {
        lemma_enc_countries_append(cats.drop_first(), c);
        assert(cats.push(c).drop_first() =~= cats.drop_first().push(c));
        assert(cats.push(c)[0] == cats[0]);
        assert(enc_countries(cats.push(c)) == enc_country(cats[0]) + enc_countries(
            cats.push(c).drop_first(),
        ));
        assert(enc_countries(cats.push(c).drop_first()) == enc_countries(cats.drop_first())
            + enc_country(c));
        assert(enc_countries(cats) == enc_country(cats[0]) + enc_countries(cats.drop_first()));
        assert(enc_country(cats[0]) + (enc_countries(cats.drop_first()) + enc_country(c)) =~= (
        enc_country(cats[0]) + enc_countries(cats.drop_first())) + enc_country(c));
    }
}

/// Appends the little-endian bytes of a 32-bit count.
fn push_u32(out: &mut Vec<u8>, v: u32)
    ensures
        final(out)@ == old(out)@ + enc_u32(v),
{
    let mut bs = u32_to_le_bytes(v);
    out.append(&mut bs);
}

/// Appends the little-endian bytes of one coordinate.
fn push_i64(out: &mut Vec<u8>, v: i64)
    ensures
        final(out)@ == old(out)@ + enc_i64(v),
{
    let mut bs = u64_to_le_bytes(v as u64);
    out.append(&mut bs);
}

/// Appends a byte slice.
fn push_bytes(out: &mut Vec<u8>, bytes: &[u8])
    ensures
        final(out)@ == old(out)@ + bytes@,
{
    let n = bytes.len();
    let mut i: usize = 0;
    while i < n
        invariant
            n == bytes@.len(),
            0 <= i <= n,
            out@ == old(out)@ + bytes@.take(i as int),
        decreases n - i,
    {
        let b = *vstd::slice::slice_index_get(bytes, i);
        out.push(b);
        proof {
            assert(out@ =~= old(out)@ + bytes@.take(i as int + 1));
        }
        i += 1;
    }
    proof {
        assert(bytes@.take(n as int) =~= bytes@);
    }
}

/// Appends one polygon: point count, the points, and the reserved (always
/// zero) interior-ring count.
fn encode_poly_into(out: &mut Vec<u8>, poly: &Polygon)
    requires
        fits_u32(poly.ring@.len() as int),
    ensures
        final(out)@ == old(out)@ + enc_poly(poly.ring@),
{
    push_u32(out, poly.ring.len() as u32);
    let n = poly.ring.len();
    let mut i: usize = 0;
    while i < n
        invariant
            n == poly.ring@.len(),
            0 <= i <= n,
            out@ == old(out)@ + enc_u32(n as u32) + enc_points(poly.ring@.take(i as int)),
        decreases n - i,
    {
        let p = poly.ring[i];
        push_i64(out, p.x);
        push_i64(out, p.y);
        proof {
            lemma_enc_points_append(poly.ring@.take(i as int), p);
            assert(poly.ring@.take(i as int).push(p) =~= poly.ring@.take(i as int + 1));
            assert(out@ =~= old(out)@ + enc_u32(n as u32) + enc_points(
                poly.ring@.take(i as int + 1),
            ));
        }
        i += 1;
    }
    push_u32(out, 0);
    proof {
        assert(poly.ring@.take(n as int) =~= poly.ring@);
        assert(out@ =~= old(out)@ + enc_poly(poly.ring@));
    }
}

/// Appends one country record.
fn encode_country_into(out: &mut Vec<u8>, c: &Country)
    requires
        c.wf(),
    ensures
        final(out)@ == old(out)@ + enc_country(c@),
{
    let nb = c.name.as_str().as_bytes();
    push_u32(out, nb.len() as u32);
    push_bytes(out, nb);
    push_i64(out, c.bb.xmin);
    push_i64(out, c.bb.xmax);
    push_i64(out, c.bb.ymin);
    push_i64(out, c.bb.ymax);
    push_u32(out, c.polygons.len() as u32);
    let ghost mid = out@;
    let n = c.polygons.len();
    let mut k: usize = 0;
    while k < n
        invariant
            n == c.polygons@.len(),
            0 <= k <= n,
            c.wf(),
            out@ == mid + enc_polys(c@.polys.take(k as int)),
        decreases n - k,
    {
        proof {
            assert(c@.polys[k as int] == c.polygons@[k as int].ring@);
            assert(fits_u32(c.polygons@[k as int].ring@.len() as int));
        }
        encode_poly_into(out, &c.polygons[k]);
        proof {
            lemma_enc_polys_append(c@.polys.take(k as int), c@.polys[k as int]);
            assert(c@.polys.take(k as int).push(c@.polys[k as int]) =~= c@.polys.take(
                k as int + 1,
            ));
            assert(out@ =~= mid + enc_polys(c@.polys.take(k as int + 1)));
        }
        k += 1;
    }
    proof {
        assert(c@.polys.take(n as int) =~= c@.polys);
        assert(out@ =~= old(out)@ + enc_country(c@));
    }
}

impl Catalog {
    /// Serializes the catalog: deterministic, versioned, bit-exact.
    pub fn encode(&self) -> (r: Vec<u8>)
        requires
            self.wf(),
        ensures
            r@ == enc_catalog(self@),
    {
        let mut out: Vec<u8> = Vec::new();
        push_u32(&mut out, CATALOG_VERSION);
        push_u32(&mut out, self.countries.len() as u32);
        let ghost mid = out@;
        let n = self.countries.len();
        let mut k: usize = 0;
        while k < n
            invariant
                n == self.countries@.len(),
                0 <= k <= n,
                self.wf(),
                out@ == mid + enc_countries(self@.take(k as int)),
            decreases n - k,
        {
            proof {
                assert(self@[k as int] == self.countries@[k as int]@);
                assert(self@[k as int].wf());
            }
            encode_country_into(&mut out, &self.countries[k]);
            proof {
                lemma_enc_countries_append(self@.take(k as int), self@[k as int]);
                assert(self@.take(k as int).push(self@[k as int]) =~= self@.take(k as int + 1));
                assert(out@ =~= mid + enc_countries(self@.take(k as int + 1)));
            }
            k += 1;
        }
        proof {
            assert(self@.take(n as int) =~= self@);
            assert(out@ =~= enc_catalog(self@));
        }
        out
    }
}


// ---------------------------------------------------------------------------
// Decoding (executable).
// ---------------------------------------------------------------------------

/// Relies on core::str::from_utf8 and str::to_owned: conversion succeeds
/// exactly on valid UTF-8, and the returned string holds exactly the input
/// bytes.
#[verifier::external_body]
fn bytes_to_string(bytes: &[u8]) -> (r: Option<String>)
    ensures
        r is Some <==> valid_utf8(bytes@),
        r is Some ==> encode_utf8(r->0@) == bytes@,
{
    match core::str::from_utf8(bytes) {
        Ok(s) => Some(s.to_owned()),
        Err(_) => None,
    }
}

/// Reads one little-endian count.
fn read_u32(bytes: &Vec<u8>, pos: usize) -> (r: Option<(u32, usize)>)
    ensures
        match r {
            Some(v) => parse_u32(bytes@, pos as int) == Some((v.0, v.1 as int)) && v.1 == pos + 4,
            None => parse_u32(bytes@, pos as int) is None,
        },
{
    if bytes.len() < pos || bytes.len() - pos < 4 {
        return None;
    }
    let sub = slice_subrange(bytes.as_slice(), pos, pos + 4);
    let v = u32_from_le_bytes(sub);
    Some((v, pos + 4))
}

/// Reads one little-endian coordinate.
fn read_i64(bytes: &Vec<u8>, pos: usize) -> (r: Option<(i64, usize)>)
    ensures
        match r {
            Some(v) => parse_i64(bytes@, pos as int) == Some((v.0, v.1 as int)) && v.1 == pos + 8,
            None => parse_i64(bytes@, pos as int) is None,
        },
{
    if bytes.len() < pos || bytes.len() - pos < 8 {
        return None;
    }
    let sub = slice_subrange(bytes.as_slice(), pos, pos + 8);
    let v = u64_from_le_bytes(sub);
    Some((v as i64, pos + 8))
}

/// The decoding loop's bookkeeping: whatever parsing the remaining `rem`
/// points from `cur` yields, parsing all `n` points from `pos0` yields the
/// accumulated points plus it.
spec fn points_step_ok(
    b: Seq<u8>,
    pos0: int,
    n: int,
    acc: Seq<Point>,
    cur: int,
    rem: int,
) -> bool {
    match parse_points(b, cur, rem) {
        Some((rest, end)) => parse_points(b, pos0, n) == Some((acc + rest, end)),
        None => parse_points(b, pos0, n) is None,
    }
}

fn read_points(bytes: &Vec<u8>, pos: usize, n: u32) -> (r: Option<(Vec<Point>, usize)>)
    ensures
        match r {
            Some(v) => parse_points(bytes@, pos as int, n as int) == Some((v.0@, v.1 as int))
                && v.0@.len() == n,
            None => parse_points(bytes@, pos as int, n as int) is None,
        },
{
    let mut acc: Vec<Point> = Vec::new();
    let mut cur = pos;
    let mut i: u32 = 0;
    proof {
        if parse_points(bytes@, pos as int, n as int) is Some {
            let (rest0, end0) = parse_points(bytes@, pos as int, n as int)->0;
            assert(acc@ + rest0 =~= rest0);
        }
    }
    while i < n
        invariant
            0 <= i <= n,
            acc@.len() == i,
            points_step_ok(bytes@, pos as int, n as int, acc@, cur as int, n as int - i as int),
        decreases n - i,
    {
        let ghost rem = n as int - i as int;
        let ghost cur0 = cur as int;
        let (x, p1) = match read_i64(bytes, cur) {
            Some(v) => v,
            None => {
                return None;
            },
        };
        let (y, p2) = match read_i64(bytes, p1) {
            Some(v) => v,
            None => {
                return None;
            },
        };
        let pt = Point { x, y };
        proof {
            let b = bytes@;
            if parse_points(b, p2 as int, rem - 1) is Some {
                let (rest2, end) = parse_points(b, p2 as int, rem - 1)->0;
                assert(parse_points(b, cur0, rem) == Some((seq![pt] + rest2, end)));
                assert(acc@.push(pt) + rest2 =~= acc@ + (seq![pt] + rest2));
            }
        }
        acc.push(pt);
        cur = p2;
        i += 1;
    }
    proof {
        assert(parse_points(bytes@, cur as int, 0) == Some((Seq::<Point>::empty(), cur as int)));
        assert(acc@ + Seq::<Point>::empty() =~= acc@);
    }
    Some((acc, cur))
}

fn read_poly(bytes: &Vec<u8>, pos: usize) -> (r: Option<(Polygon, usize)>)
    ensures
        match r {
            Some(v) => parse_poly(bytes@, pos as int) == Some((v.0.ring@, v.1 as int)) && fits_u32(
                v.0.ring@.len() as int,
            ),
            None => parse_poly(bytes@, pos as int) is None,
        },
{
    let (cnt, p1) = match read_u32(bytes, pos) {
        Some(v) => v,
        None => {
            return None;
        },
    };
    let (ring, p2) = match read_points(bytes, p1, cnt) {
        Some(v) => v,
        None => {
            return None;
        },
    };
    let (ir, p3) = match read_u32(bytes, p2) {
        Some(v) => v,
        None => {
            return None;
        },
    };
    if ir != 0 {
        return None;
    }
    Some((Polygon { ring }, p3))
}

/// As `points_step_ok`, for the polygon list.
spec fn polys_step_ok(
    b: Seq<u8>,
    pos0: int,
    n: int,
    acc: Seq<Seq<Point>>,
    cur: int,
    rem: int,
) -> bool {
    match parse_polys(b, cur, rem) {
        Some((rest, end)) => parse_polys(b, pos0, n) == Some((acc + rest, end)),
        None => parse_polys(b, pos0, n) is None,
    }
}

fn read_polys(bytes: &Vec<u8>, pos: usize, n: u32) -> (r: Option<(Vec<Polygon>, usize)>)
    ensures
        match r {
            Some(v) => {
                &&& parse_polys(bytes@, pos as int, n as int) == Some((v.0.deep_view(), v.1 as int))
                &&& v.0@.len() == n
                &&& forall|k: int|
                    0 <= k < v.0@.len() ==> fits_u32((#[trigger] v.0.deep_view()[k]).len() as int)
            },
            None => parse_polys(bytes@, pos as int, n as int) is None,
        },
{
    let mut acc: Vec<Polygon> = Vec::new();
    let mut cur = pos;
    let mut i: u32 = 0;
    proof {
        if parse_polys(bytes@, pos as int, n as int) is Some {
            let (rest0, end0) = parse_polys(bytes@, pos as int, n as int)->0;
            assert(acc.deep_view() + rest0 =~~= rest0);
        }
    }
    while i < n
        invariant
            0 <= i <= n,
            acc@.len() == i,
            polys_step_ok(
                bytes@,
                pos as int,
                n as int,
                acc.deep_view(),
                cur as int,
                n as int - i as int,
            ),
            forall|k: int|
                0 <= k < acc@.len() ==> fits_u32((#[trigger] acc.deep_view()[k]).len() as int),
        decreases n - i,
    {
        let ghost rem = n as int - i as int;
        let ghost cur0 = cur as int;
        let (poly, p1) = match read_poly(bytes, cur) {
            Some(v) => v,
            None => {
                return None;
            },
        };
        proof {
            let b = bytes@;
            if parse_polys(b, p1 as int, rem - 1) is Some {
                let (rest2, end) = parse_polys(b, p1 as int, rem - 1)->0;
                assert(parse_polys(b, cur0, rem) == Some((seq![poly.ring@] + rest2, end)));
                assert(acc.deep_view().push(poly.ring@) + rest2 =~~= acc.deep_view() + (seq![
                    poly.ring@,
                ] + rest2));
            }
        }
        let ghost accv = acc.deep_view();
        acc.push(poly);
        proof {
            assert(acc.deep_view() =~~= accv.push(acc@[acc@.len() - 1].ring@));
        }
        cur = p1;
        i += 1;
    }
    proof {
        assert(parse_polys(bytes@, cur as int, 0) == Some(
            (Seq::<Seq<Point>>::empty(), cur as int),
        ));
        assert(acc.deep_view() + Seq::<Seq<Point>>::empty() =~~= acc.deep_view());
    }
    Some((acc, cur))
}

fn read_name(bytes: &Vec<u8>, pos: usize) -> (r: Option<(String, usize)>)
    ensures
        match r {
            Some(v) => parse_name(bytes@, pos as int) == Some((v.0@, v.1 as int)) && fits_u32(
                encode_utf8(v.0@).len() as int,
            ),
            None => parse_name(bytes@, pos as int) is None,
        },
{
    let (len, p1) = match read_u32(bytes, pos) {
        Some(v) => v,
        None => {
            return None;
        },
    };
    if bytes.len() - p1 < len as usize {
        return None;
    }
    let sub = slice_subrange(bytes.as_slice(), p1, p1 + len as usize);
    match bytes_to_string(sub) {
        Some(s) => {
            proof {
                encode_utf8_valid_utf8(s@);
                encode_utf8_decode_utf8(s@);
            }
            Some((s, p1 + len as usize))
        },
        None => None,
    }
}

/// Whether the record's bounding box is ordered, in range, and encloses
/// every vertex of every polygon.
fn check_country_geometry(c: &Country) -> (r: bool)
    ensures
        r == ({
            &&& c.bb.wf()
            &&& forall|k: int|
                0 <= k < c@.polys.len() ==> c.bb.encloses_ring(#[trigger] c@.polys[k])
        }),
{
    let bb = c.bb;
    let limit = COORD_LIMIT;
    if !(bb.xmin <= bb.xmax && bb.ymin <= bb.ymax && bb.xmin >= -limit && bb.xmin <= limit
        && bb.xmax >= -limit && bb.xmax <= limit && bb.ymin >= -limit && bb.ymin <= limit
        && bb.ymax >= -limit && bb.ymax <= limit) {
        return false;
    }
    let n = c.polygons.len();
    let mut k: usize = 0;
    while k < n
        invariant
            n == c.polygons@.len(),
            0 <= k <= n,
            forall|j: int| 0 <= j < k ==> c.bb.encloses_ring(#[trigger] c@.polys[j]),
        decreases n - k,
    {
        let m = c.polygons[k].ring.len();
        let mut i: usize = 0;
        while i < m
            invariant
                k < n,
                n == c.polygons@.len(),
                m == c.polygons@[k as int].ring@.len(),
                0 <= i <= m,
                forall|j: int|
                    0 <= j < i ==> c.bb.spec_contains(
                        #[trigger] c.polygons@[k as int].ring@[j].x as int,
                        c.polygons@[k as int].ring@[j].y as int,
                    ),
            decreases m - i,
        {
            let p = c.polygons[k].ring[i];
            if !c.bb.contains(&p) {
                proof {
                    assert(c@.polys[k as int] == c.polygons@[k as int].ring@);
                    assert(!c.bb.encloses_ring(c@.polys[k as int]));
                }
                return false;
            }
            i += 1;
        }
        proof {
            assert(c@.polys[k as int] == c.polygons@[k as int].ring@);
            assert(c.bb.encloses_ring(c@.polys[k as int]));
        }
        k += 1;
    }
    true
}

fn read_country(bytes: &Vec<u8>, pos: usize) -> (r: Option<(Country, usize)>)
    ensures
        match r {
            Some(v) => parse_country(bytes@, pos as int) == Some((v.0@, v.1 as int)) && v.0.wf(),
            None => parse_country(bytes@, pos as int) is None,
        },
{
    let (name, p1) = match read_name(bytes, pos) {
        Some(v) => v,
        None => {
            return None;
        },
    };
    let (xmin, p2) = match read_i64(bytes, p1) {
        Some(v) => v,
        None => {
            return None;
        },
    };
    let (xmax, p3) = match read_i64(bytes, p2) {
        Some(v) => v,
        None => {
            return None;
        },
    };
    let (ymin, p4) = match read_i64(bytes, p3) {
        Some(v) => v,
        None => {
            return None;
        },
    };
    let (ymax, p5) = match read_i64(bytes, p4) {
        Some(v) => v,
        None => {
            return None;
        },
    };
    let (cnt, p6) = match read_u32(bytes, p5) {
        Some(v) => v,
        None => {
            return None;
        },
    };
    let (polygons, p7) = match read_polys(bytes, p6, cnt) {
        Some(v) => v,
        None => {
            return None;
        },
    };
    let country = Country { name, bb: BoundingBox { xmin, xmax, ymin, ymax }, polygons };
    let ok = check_country_geometry(&country);
    proof {
        if country.bb.wf() && (forall|k: int|
            0 <= k < country@.polys.len() ==> country.bb.encloses_ring(#[trigger] country@.polys[k])) {
            assert forall|k: int| 0 <= k < country@.polys.len() implies ring_wf(
                #[trigger] country@.polys[k],
            ) by {
                let ringv = country@.polys[k];
                assert(country.bb.encloses_ring(ringv));
                assert forall|j: int| 0 <= j < ringv.len() implies (#[trigger] ringv[j]).wf() by {
                    assert(country.bb.spec_contains(ringv[j].x as int, ringv[j].y as int));
                }
            }
            assert(country@.wf());
        } else {
            assert(!country@.wf());
        }
    }
    if !ok {
        return None;
    }
    Some((country, p7))
}

/// As `points_step_ok`, for the country list.
spec fn countries_step_ok(
    b: Seq<u8>,
    pos0: int,
    n: int,
    acc: Seq<CountryView>,
    cur: int,
    rem: int,
) -> bool {
    match parse_countries(b, cur, rem) {
        Some((rest, end)) => parse_countries(b, pos0, n) == Some((acc + rest, end)),
        None => parse_countries(b, pos0, n) is None,
    }
}

impl Catalog {
    /// Deserializes a catalog blob: the inverse of `encode`. Fails with
    /// `CorruptCatalog` on anything that is not exactly a current-version
    /// encoding of a well-formed catalog; no partial catalog is returned.
    pub fn decode(bytes: &Vec<u8>) -> (r: Result<Catalog, CatalogError>)
        ensures
            match r {
                Ok(c) => parse_catalog(bytes@) == Some(c@) && c.wf(),
                Err(e) => parse_catalog(bytes@) is None && e == CatalogError::CorruptCatalog,
            },
    {
        let (ver, p1) = match read_u32(bytes, 0) {
            Some(v) => v,
            None => {
                return Err(CatalogError::CorruptCatalog);
            },
        };
        if ver != CATALOG_VERSION {
            return Err(CatalogError::CorruptCatalog);
        }
        let (cnt, p2) = match read_u32(bytes, p1) {
            Some(v) => v,
            None => {
                return Err(CatalogError::CorruptCatalog);
            },
        };
        let mut countries: Vec<Country> = Vec::new();
        let mut cur = p2;
        let mut i: u32 = 0;
        proof {
            if parse_countries(bytes@, p2 as int, cnt as int) is Some {
                let (rest0, end0) = parse_countries(bytes@, p2 as int, cnt as int)->0;
                assert(countries.deep_view() + rest0 =~~= rest0);
            }
        }
        while i < cnt
            invariant
                0 <= i <= cnt,
                countries@.len() == i,
                countries_step_ok(
                    bytes@,
                    p2 as int,
                    cnt as int,
                    countries.deep_view(),
                    cur as int,
                    cnt as int - i as int,
                ),
                forall|k: int| 0 <= k < countries@.len() ==> (#[trigger] countries@[k]).wf(),
                parse_catalog(bytes@) == (match parse_countries(bytes@, p2 as int, cnt as int) {
                    Some((cats, end)) => if end == bytes@.len() {
                        Some(cats)
                    } else {
                        None
                    },
                    None => None,
                }),
            decreases cnt - i,
        {
            let ghost rem = cnt as int - i as int;
            let ghost cur0 = cur as int;
            let (c, p) = match read_country(bytes, cur) {
                Some(v) => v,
                None => {
                    return Err(CatalogError::CorruptCatalog);
                },
            };
            proof {
                let b = bytes@;
                if parse_countries(b, p as int, rem - 1) is Some {
                    let (rest2, end) = parse_countries(b, p as int, rem - 1)->0;
                    assert(parse_countries(b, cur0, rem) == Some((seq![c@] + rest2, end)));
                    assert(countries.deep_view().push(c@) + rest2 =~~= countries.deep_view() + (
                    seq![c@] + rest2));
                }
            }
            let ghost accv = countries.deep_view();
            countries.push(c);
            proof {
                assert(countries.deep_view() =~~= accv.push(countries@[countries@.len() - 1]@));
            }
            cur = p;
            i += 1;
        }
        if cur != bytes.len() {
            return Err(CatalogError::CorruptCatalog);
        }
        proof {
            assert(parse_countries(bytes@, cur as int, 0) == Some(
                (Seq::<CountryView>::empty(), cur as int),
            ));
            assert(countries.deep_view() + Seq::<CountryView>::empty() =~~= countries.deep_view());
        }
        let cat = Catalog { countries };
        proof {
            assert(cat@ == cat.countries.deep_view());
            assert forall|k: int| 0 <= k < cat@.len() implies (#[trigger] cat@[k]).wf() by {
                assert(cat@[k] == cat.countries@[k]@);
            }
            assert(cat.wf());
            assert(parse_catalog(bytes@) == Some(cat@));
        }
        Ok(cat)
    }
}


// ---------------------------------------------------------------------------
// The round-trip law: decoding an encoding yields the original catalog.
// ---------------------------------------------------------------------------

proof fn lemma_parse_u32_inverts(b: Seq<u8>, pos: int, v: u32)
    requires
        0 <= pos,
        pos + 4 <= b.len(),
        b.subrange(pos, pos + 4) == enc_u32(v),
    ensures
        parse_u32(b, pos) == Some((v, pos + 4)),
{
    lemma_auto_spec_u32_to_from_le_bytes();
    assert(spec_u32_to_le_bytes(v).len() == 4);
    assert(spec_u32_from_le_bytes(spec_u32_to_le_bytes(v)) == v);
    assert(spec_u32_from_le_bytes(b.subrange(pos, pos + 4)) == v);
}

proof fn lemma_parse_i64_inverts(b: Seq<u8>, pos: int, v: i64)
    requires
        0 <= pos,
        pos + 8 <= b.len(),
        b.subrange(pos, pos + 8) == enc_i64(v),
    ensures
        parse_i64(b, pos) == Some((v, pos + 8)),
{
    lemma_auto_spec_u64_to_from_le_bytes();
    assert(spec_u64_to_le_bytes((v as u64)).len() == 8);
    assert(spec_u64_from_le_bytes(spec_u64_to_le_bytes((v as u64))) == v as u64);
    assert(spec_u64_from_le_bytes(b.subrange(pos, pos + 8)) == v as u64);
    assert(((v as u64) as i64) == v) by (bit_vector);
}

proof fn lemma_parse_points_inverts(b: Seq<u8>, pos: int, ps: Seq<Point>)
    requires
        0 <= pos,
        pos + enc_points(ps).len() <= b.len(),
        b.subrange(pos, pos + enc_points(ps).len()) == enc_points(ps),
    ensures
        parse_points(b, pos, ps.len() as int) == Some((ps, pos + enc_points(ps).len())),
    decreases ps.len(),
{
    lemma_auto_spec_u64_to_from_le_bytes();
    if ps.len() == 0 {
        assert(ps =~= Seq::<Point>::empty());
    } else {
        let p0 = ps[0];
        let rest = ps.drop_first();
        let e = enc_points(ps);
        let erest = enc_points(rest);
        assert(e == enc_point(p0) + erest);
        assert(enc_i64(p0.x).len() == 8 && enc_i64(p0.y).len() == 8);
        assert(e.len() == 16 + erest.len());
        assert(b.subrange(pos, pos + 8) =~= enc_i64(p0.x)) by {
            assert forall|i: int| 0 <= i < 8 implies b.subrange(pos, pos + 8)[i] == enc_i64(
                p0.x,
            )[i] by {
                assert(b.subrange(pos, pos + e.len())[i] == e[i]);
                assert(e[i] == enc_point(p0)[i]);
            }
        }
        lemma_parse_i64_inverts(b, pos, p0.x);
        assert(b.subrange(pos + 8, pos + 16) =~= enc_i64(p0.y)) by {
            assert forall|i: int| 0 <= i < 8 implies b.subrange(pos + 8, pos + 16)[i] == enc_i64(
                p0.y,
            )[i] by {
                assert(b.subrange(pos, pos + e.len())[i + 8] == e[i + 8]);
                assert(e[i + 8] == enc_point(p0)[i + 8]);
            }
        }
        lemma_parse_i64_inverts(b, pos + 8, p0.y);
        assert(b.subrange(pos + 16, pos + 16 + erest.len()) =~= erest) by {
            assert forall|i: int| 0 <= i < erest.len() implies b.subrange(
                pos + 16,
                pos + 16 + erest.len(),
            )[i] == erest[i] by {
                assert(b.subrange(pos, pos + e.len())[i + 16] == e[i + 16]);
                assert(e[i + 16] == erest[i]);
            }
        }
        lemma_parse_points_inverts(b, pos + 16, rest);
        assert(Point { x: p0.x, y: p0.y } == p0);
        assert(seq![p0] + rest =~= ps);
    }
}

proof fn lemma_parse_poly_inverts(b: Seq<u8>, pos: int, ring: Seq<Point>)
    requires
        0 <= pos,
        fits_u32(ring.len() as int),
        pos + enc_poly(ring).len() <= b.len(),
        b.subrange(pos, pos + enc_poly(ring).len()) == enc_poly(ring),
    ensures
        parse_poly(b, pos) == Some((ring, pos + enc_poly(ring).len())),
{
    lemma_auto_spec_u32_to_from_le_bytes();
    let e = enc_poly(ring);
    let cnt = ring.len() as u32;
    let ept = enc_points(ring);
    assert(e == enc_u32(cnt) + ept + enc_u32(0));
    assert(enc_u32(cnt).len() == 4 && enc_u32(0u32).len() == 4);
    assert(e.len() == 8 + ept.len());
    assert(b.subrange(pos, pos + 4) =~= enc_u32(cnt)) by {
        assert forall|i: int| 0 <= i < 4 implies b.subrange(pos, pos + 4)[i] == enc_u32(
            cnt,
        )[i] by {
            assert(b.subrange(pos, pos + e.len())[i] == e[i]);
        }
    }
    lemma_parse_u32_inverts(b, pos, cnt);
    assert(cnt as int == ring.len());
    assert(b.subrange(pos + 4, pos + 4 + ept.len()) =~= ept) by {
        assert forall|i: int| 0 <= i < ept.len() implies b.subrange(
            pos + 4,
            pos + 4 + ept.len(),
        )[i] == ept[i] by {
            assert(b.subrange(pos, pos + e.len())[i + 4] == e[i + 4]);
        }
    }
    lemma_parse_points_inverts(b, pos + 4, ring);
    let p2 = pos + 4 + ept.len();
    assert(b.subrange(p2, p2 + 4) =~= enc_u32(0u32)) by {
        assert forall|i: int| 0 <= i < 4 implies b.subrange(p2, p2 + 4)[i] == enc_u32(
            0u32,
        )[i] by {
            assert(b.subrange(pos, pos + e.len())[i + 4 + ept.len()] == e[i + 4 + ept.len()]);
        }
    }
    lemma_parse_u32_inverts(b, p2, 0);
}

proof fn lemma_parse_polys_inverts(b: Seq<u8>, pos: int, polys: Seq<Seq<Point>>)
    requires
        0 <= pos,
        forall|k: int| 0 <= k < polys.len() ==> fits_u32((#[trigger] polys[k]).len() as int),
        pos + enc_polys(polys).len() <= b.len(),
        b.subrange(pos, pos + enc_polys(polys).len()) == enc_polys(polys),
    ensures
        parse_polys(b, pos, polys.len() as int) == Some((polys, pos + enc_polys(polys).len())),
    decreases polys.len(),
{
    if polys.len() == 0 {
        assert(polys =~= Seq::<Seq<Point>>::empty());
    } else {
        let r0 = polys[0];
        let rest = polys.drop_first();
        let e = enc_polys(polys);
        let e0 = enc_poly(r0);
        let erest = enc_polys(rest);
        assert(e == e0 + erest);
        assert(e.len() == e0.len() + erest.len());
        assert(b.subrange(pos, pos + e0.len()) =~= e0) by {
            assert forall|i: int| 0 <= i < e0.len() implies b.subrange(pos, pos + e0.len())[i]
                == e0[i] by {
                assert(b.subrange(pos, pos + e.len())[i] == e[i]);
            }
        }
        lemma_parse_poly_inverts(b, pos, r0);
        assert(b.subrange(pos + e0.len(), pos + e0.len() + erest.len()) =~= erest) by {
            assert forall|i: int| 0 <= i < erest.len() implies b.subrange(
                pos + e0.len(),
                pos + e0.len() + erest.len(),
            )[i] == erest[i] by {
                assert(b.subrange(pos, pos + e.len())[i + e0.len()] == e[i + e0.len()]);
            }
        }
        lemma_parse_polys_inverts(b, pos + e0.len(), rest);
        assert(seq![r0] + rest =~= polys);
    }
}

proof fn lemma_parse_country_inverts(b: Seq<u8>, pos: int, c: CountryView)
    requires
        0 <= pos,
        c.wf(),
        pos + enc_country(c).len() <= b.len(),
        b.subrange(pos, pos + enc_country(c).len()) == enc_country(c),
    ensures
        parse_country(b, pos) == Some((c, pos + enc_country(c).len())),
{
    lemma_auto_spec_u32_to_from_le_bytes();
    lemma_auto_spec_u64_to_from_le_bytes();
    let e = enc_country(c);
    let nb = encode_utf8(c.name);
    let nlen = nb.len() as u32;
    let pcnt = c.polys.len() as u32;
    let epolys = enc_polys(c.polys);
    let a1 = enc_u32(nlen) + nb;
    let a2 = a1 + enc_i64(c.bb.xmin);
    let a3 = a2 + enc_i64(c.bb.xmax);
    let a4 = a3 + enc_i64(c.bb.ymin);
    let a5 = a4 + enc_i64(c.bb.ymax);
    let a6 = a5 + enc_u32(pcnt);
    assert(e == a6 + epolys);
    assert(enc_u32(nlen).len() == 4 && enc_u32(pcnt).len() == 4);
    assert(enc_i64(c.bb.xmin).len() == 8 && enc_i64(c.bb.xmax).len() == 8 && enc_i64(
        c.bb.ymin,
    ).len() == 8 && enc_i64(c.bb.ymax).len() == 8);
    assert(e.len() == 4 + nb.len() + 32 + 4 + epolys.len());
    assert forall|i: int| 0 <= i < e.len() implies b[pos + i] == e[i] by {
        assert(b.subrange(pos, pos + e.len())[i] == e[i]);
    }
    // name: length prefix, then the UTF-8 bytes
    assert(b.subrange(pos, pos + 4) =~= enc_u32(nlen)) by {
        assert forall|i: int| 0 <= i < 4 implies b.subrange(pos, pos + 4)[i] == enc_u32(
            nlen,
        )[i] by {
            assert(b[pos + i] == e[i]);
            assert(e[i] == a1[i]);
        }
    }
    lemma_parse_u32_inverts(b, pos, nlen);
    let p1 = pos + 4;
    assert(b.subrange(p1, p1 + nb.len()) =~= nb) by {
        assert forall|i: int| 0 <= i < nb.len() implies b.subrange(p1, p1 + nb.len())[i]
            == nb[i] by {
            assert(b[pos + (4 + i)] == e[4 + i]);
            assert(e[4 + i] == a1[4 + i]);
            assert(a1[4 + i] == nb[i]);
        }
    }
    encode_utf8_valid_utf8(c.name);
    encode_utf8_decode_utf8(c.name);
    assert(parse_name(b, pos) == Some((c.name, p1 + nb.len())));
    // bounding box: four coordinates
    let q1 = p1 + nb.len();
    assert(b.subrange(q1, q1 + 8) =~= enc_i64(c.bb.xmin)) by {
        assert forall|i: int| 0 <= i < 8 implies b.subrange(q1, q1 + 8)[i] == enc_i64(
            c.bb.xmin,
        )[i] by {
            let j = 4 + nb.len() + i;
            assert(b[pos + j] == e[j]);
            assert(e[j] == a2[j]);
            assert(a2[j] == enc_i64(c.bb.xmin)[i]);
        }
    }
    lemma_parse_i64_inverts(b, q1, c.bb.xmin);
    assert(b.subrange(q1 + 8, q1 + 16) =~= enc_i64(c.bb.xmax)) by {
        assert forall|i: int| 0 <= i < 8 implies b.subrange(q1 + 8, q1 + 16)[i] == enc_i64(
            c.bb.xmax,
        )[i] by {
            let j = 4 + nb.len() + 8 + i;
            assert(b[pos + j] == e[j]);
            assert(e[j] == a3[j]);
            assert(a3[j] == enc_i64(c.bb.xmax)[i]);
        }
    }
    lemma_parse_i64_inverts(b, q1 + 8, c.bb.xmax);
    assert(b.subrange(q1 + 16, q1 + 24) =~= enc_i64(c.bb.ymin)) by {
        assert forall|i: int| 0 <= i < 8 implies b.subrange(q1 + 16, q1 + 24)[i] == enc_i64(
            c.bb.ymin,
        )[i] by {
            let j = 4 + nb.len() + 16 + i;
            assert(b[pos + j] == e[j]);
            assert(e[j] == a4[j]);
            assert(a4[j] == enc_i64(c.bb.ymin)[i]);
        }
    }
    lemma_parse_i64_inverts(b, q1 + 16, c.bb.ymin);
    assert(b.subrange(q1 + 24, q1 + 32) =~= enc_i64(c.bb.ymax)) by {
        assert forall|i: int| 0 <= i < 8 implies b.subrange(q1 + 24, q1 + 32)[i] == enc_i64(
            c.bb.ymax,
        )[i] by {
            let j = 4 + nb.len() + 24 + i;
            assert(b[pos + j] == e[j]);
            assert(e[j] == a5[j]);
            assert(a5[j] == enc_i64(c.bb.ymax)[i]);
        }
    }
    lemma_parse_i64_inverts(b, q1 + 24, c.bb.ymax);
    // polygons: count, then each polygon
    let q2 = q1 + 32;
    assert(b.subrange(q2, q2 + 4) =~= enc_u32(pcnt)) by {
        assert forall|i: int| 0 <= i < 4 implies b.subrange(q2, q2 + 4)[i] == enc_u32(
            pcnt,
        )[i] by {
            let j = 4 + nb.len() + 32 + i;
            assert(b[pos + j] == e[j]);
            assert(e[j] == a6[j]);
            assert(a6[j] == enc_u32(pcnt)[i]);
        }
    }
    lemma_parse_u32_inverts(b, q2, pcnt);
    assert(pcnt as int == c.polys.len());
    let q3 = q2 + 4;
    assert(b.subrange(q3, q3 + epolys.len()) =~= epolys) by {
        assert forall|i: int| 0 <= i < epolys.len() implies b.subrange(q3, q3 + epolys.len())[i]
            == epolys[i] by {
            let j = 4 + nb.len() + 36 + i;
            assert(b[pos + j] == e[j]);
            assert(e[j] == epolys[i]);
        }
    }
    lemma_parse_polys_inverts(b, q3, c.polys);
    assert(BoundingBox { xmin: c.bb.xmin, xmax: c.bb.xmax, ymin: c.bb.ymin, ymax: c.bb.ymax }
        == c.bb);
    assert(CountryView { name: c.name, bb: c.bb, polys: c.polys } =~= c);
}

proof fn lemma_parse_countries_inverts(b: Seq<u8>, pos: int, cats: Seq<CountryView>)
    requires
        0 <= pos,
        forall|k: int| 0 <= k < cats.len() ==> (#[trigger] cats[k]).wf(),
        pos + enc_countries(cats).len() <= b.len(),
        b.subrange(pos, pos + enc_countries(cats).len()) == enc_countries(cats),
    ensures
        parse_countries(b, pos, cats.len() as int) == Some(
            (cats, pos + enc_countries(cats).len()),
        ),
    decreases cats.len(),
{
    if cats.len() == 0 {
        assert(cats =~= Seq::<CountryView>::empty());
    } else {
        let c0 = cats[0];
        let rest = cats.drop_first();
        let e = enc_countries(cats);
        let e0 = enc_country(c0);
        let erest = enc_countries(rest);
        assert(e == e0 + erest);
        assert(e.len() == e0.len() + erest.len());
        assert(b.subrange(pos, pos + e0.len()) =~= e0) by {
            assert forall|i: int| 0 <= i < e0.len() implies b.subrange(pos, pos + e0.len())[i]
                == e0[i] by {
                assert(b.subrange(pos, pos + e.len())[i] == e[i]);
            }
        }
        lemma_parse_country_inverts(b, pos, c0);
        assert(b.subrange(pos + e0.len(), pos + e0.len() + erest.len()) =~= erest) by {
            assert forall|i: int| 0 <= i < erest.len() implies b.subrange(
                pos + e0.len(),
                pos + e0.len() + erest.len(),
            )[i] == erest[i] by {
                assert(b.subrange(pos, pos + e.len())[i + e0.len()] == e[i + e0.len()]);
            }
        }
        lemma_parse_countries_inverts(b, pos + e0.len(), rest);
        assert(seq![c0] + rest =~= cats);
    }
}

/// Round trip: decoding an encoding gives back the catalog, structurally
/// unchanged, for any well-formed catalog — including the empty one, one
/// country, and countries of many polygons. Together with the contracts of
/// `encode` and `decode` this says `decode(encode(c))` returns `Ok` with
/// exactly `c`'s content.
pub proof fn lemma_round_trip(cats: Seq<CountryView>)
    requires
        catalog_wf(cats),
    ensures
        parse_catalog(enc_catalog(cats)) == Some(cats),
{
    lemma_auto_spec_u32_to_from_le_bytes();
    let b = enc_catalog(cats);
    let ecs = enc_countries(cats);
    assert(b == enc_u32(CATALOG_VERSION) + enc_u32(cats.len() as u32) + ecs);
    assert(enc_u32(CATALOG_VERSION).len() == 4 && enc_u32((cats.len() as u32)).len() == 4);
    assert(b.len() == 8 + ecs.len());
    assert(b.subrange(0, 4) =~= enc_u32(CATALOG_VERSION));
    lemma_parse_u32_inverts(b, 0, CATALOG_VERSION);
    assert(b.subrange(4, 8) =~= enc_u32((cats.len() as u32)));
    lemma_parse_u32_inverts(b, 4, cats.len() as u32);
    assert((cats.len() as u32) as int == cats.len());
    assert(b.subrange(8, 8 + ecs.len() as int) =~= ecs);
    lemma_parse_countries_inverts(b, 8, cats);
}

} // verus!
