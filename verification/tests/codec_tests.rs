//! The catalog codec: round trips and corruption handling.

use country_ledger::catalog::{Catalog, Country};
use country_ledger::codec::CatalogError;
use country_ledger::geometry::{BoundingBox, Point, Polygon};

fn sample_catalog() -> Catalog {
    let mainland = Polygon::new(vec![
        Point::new(0, 0),
        Point::new(10, 0),
        Point::new(10, 10),
        Point::new(0, 10),
    ]);
    let island = Polygon::new(vec![
        Point::new(-20, -20),
        Point::new(-10, -20),
        Point::new(-15, -12),
    ]);
    let archipelia = Country {
        name: "Archipelia".to_string(),
        bb: BoundingBox { xmin: -20, xmax: 10, ymin: -20, ymax: 10 },
        polygons: vec![mainland, island],
    };
    let pointless = Country {
        name: "Pointless".to_string(),
        bb: BoundingBox { xmin: 0, xmax: 0, ymin: 0, ymax: 0 },
        polygons: vec![],
    };
    Catalog { countries: vec![archipelia, pointless] }
}

fn assert_catalogs_equal(a: &Catalog, b: &Catalog) {
    assert_eq!(a.countries.len(), b.countries.len());
    for (ca, cb) in a.countries.iter().zip(b.countries.iter()) {
        assert_eq!(ca.name, cb.name);
        assert_eq!(ca.bb, cb.bb);
        assert_eq!(ca.polygons.len(), cb.polygons.len());
        for (pa, pb) in ca.polygons.iter().zip(cb.polygons.iter()) {
            assert_eq!(pa.ring, pb.ring);
        }
    }
}

#[test]
fn round_trip_empty_catalog() {
    let cat = Catalog::new();
    let blob = cat.encode();
    let back = Catalog::decode(&blob).expect("empty catalog must decode");
    assert_eq!(back.countries.len(), 0);
}

#[test]
fn round_trip_one_country() {
    let cat = Catalog {
        countries: vec![Country {
            name: "Wonderland".to_string(),
            bb: BoundingBox { xmin: 0, xmax: 10, ymin: 0, ymax: 10 },
            polygons: vec![Polygon::new(vec![
                Point::new(0, 0),
                Point::new(10, 0),
                Point::new(10, 10),
                Point::new(0, 10),
            ])],
        }],
    };
    let back = Catalog::decode(&cat.encode()).expect("must decode");
    assert_catalogs_equal(&cat, &back);
}

#[test]
fn round_trip_multi_polygon_and_non_ascii_name() {
    let mut cat = sample_catalog();
    cat.countries[1].name = "Côte d'Azur".to_string();
    let back = Catalog::decode(&cat.encode()).expect("must decode");
    assert_catalogs_equal(&cat, &back);
}

#[test]
fn encode_is_deterministic() {
    let cat = sample_catalog();
    assert_eq!(cat.encode(), cat.encode());
}

#[test]
fn decode_rejects_version_mismatch() {
    let cat = sample_catalog();
    let mut blob = cat.encode();
    blob[0] = blob[0].wrapping_add(1);
    assert!(matches!(Catalog::decode(&blob), Err(CatalogError::CorruptCatalog)));
}

#[test]
fn decode_rejects_truncation() {
    let cat = sample_catalog();
    let blob = cat.encode();
    for cut in [1, 5, 9, blob.len() / 2, blob.len() - 1] {
        let shorter: Vec<u8> = blob[..cut].to_vec();
        assert!(matches!(Catalog::decode(&shorter), Err(CatalogError::CorruptCatalog)));
    }
}

#[test]
fn decode_rejects_trailing_bytes() {
    let cat = sample_catalog();
    let mut blob = cat.encode();
    blob.push(0);
    assert!(matches!(Catalog::decode(&blob), Err(CatalogError::CorruptCatalog)));
}

#[test]
fn decode_rejects_impossible_count() {
    let cat = Catalog::new();
    let mut blob = cat.encode();
    // the count field claims more records than any bytes remain for
    blob[4] = 0xff;
    assert!(matches!(Catalog::decode(&blob), Err(CatalogError::CorruptCatalog)));
}

#[test]
fn decode_rejects_empty_input() {
    let blob: Vec<u8> = Vec::new();
    assert!(matches!(Catalog::decode(&blob), Err(CatalogError::CorruptCatalog)));
}

#[test]
fn decode_rejects_record_breaking_the_invariant() {
    let cat = Catalog {
        countries: vec![Country {
            name: "Tiltland".to_string(),
            bb: BoundingBox { xmin: 0, xmax: 4, ymin: 0, ymax: 4 },
            polygons: vec![Polygon::new(vec![
                Point::new(0, 0),
                Point::new(4, 0),
                Point::new(4, 4),
            ])],
        }],
    };
    let mut blob = cat.encode();
    // overwrite the stored xmax (second coordinate slot after the name) so the
    // box no longer encloses the vertices: name_len(4) + name(8) = 12, xmin at
    // 8 + 12, xmax at 8 + 12 + 8
    let xmax_at = 8 + 12 + 8;
    for i in 0..8 {
        blob[xmax_at + i] = 0;
    }
    assert!(matches!(Catalog::decode(&blob), Err(CatalogError::CorruptCatalog)));
}
