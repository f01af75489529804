//! Classification: bounding-box pre-filter, polygon containment, scan order,
//! and the sticky cache.

use country_ledger::catalog::{Catalog, Country};
use country_ledger::classify::ClassifierCache;
use country_ledger::geometry::{BoundingBox, Point, Polygon};

fn square_country(name: &str, x0: i64, x1: i64, y0: i64, y1: i64) -> Country {
    let ring = vec![
        Point::new(x0, y0),
        Point::new(x1, y0),
        Point::new(x1, y1),
        Point::new(x0, y1),
    ];
    Country {
        name: name.to_string(),
        bb: BoundingBox { xmin: x0, xmax: x1, ymin: y0, ymax: y1 },
        polygons: vec![Polygon::new(ring)],
    }
}

fn wonderland_catalog() -> Catalog {
    Catalog { countries: vec![square_country("Wonderland", 0, 10, 0, 10)] }
}

#[test]
fn classify_inside_returns_wonderland() {
    let cat = wonderland_catalog();
    let mut cache = ClassifierCache::new();
    let hit = cat.classify(&Point::new(5, 5), &mut cache);
    assert_eq!(hit, Some(0));
    assert_eq!(cat.countries[0].name, "Wonderland");
}

#[test]
fn classify_outside_returns_none() {
    let cat = wonderland_catalog();
    let mut cache = ClassifierCache::new();
    assert_eq!(cat.classify(&Point::new(50, 50), &mut cache), None);
}

#[test]
fn classify_point_outside_every_bbox_is_unmatched() {
    let cat = Catalog {
        countries: vec![
            square_country("Aland", 0, 10, 0, 10),
            square_country("Borduria", 20, 30, 0, 10),
        ],
    };
    let mut cache = ClassifierCache::new();
    // strictly outside both boxes on every side tried
    assert_eq!(cat.classify(&Point::new(15, 5), &mut cache), None);
    assert_eq!(cat.classify(&Point::new(-1, 5), &mut cache), None);
    assert_eq!(cat.classify(&Point::new(5, 11), &mut cache), None);
    assert_eq!(cat.classify(&Point::new(25, -2), &mut cache), None);
}

#[test]
fn classify_empty_catalog_is_unmatched() {
    let cat = Catalog::new();
    let mut cache = ClassifierCache::new();
    assert_eq!(cat.classify(&Point::new(0, 0), &mut cache), None);
    assert_eq!(cache.last, None);
}

#[test]
fn classify_first_match_wins() {
    let cat = Catalog {
        countries: vec![
            square_country("Aland", 0, 10, 0, 10),
            square_country("Borduria", 20, 30, 0, 10),
        ],
    };
    let mut cache = ClassifierCache::new();
    assert_eq!(cat.classify(&Point::new(5, 5), &mut cache), Some(0));
    assert_eq!(cat.classify(&Point::new(25, 5), &mut cache), Some(1));
}

#[test]
fn sticky_cache_matches_cold_results() {
    let cat = Catalog {
        countries: vec![
            square_country("Aland", 0, 10, 0, 10),
            square_country("Borduria", 20, 30, 0, 10),
        ],
    };
    let trajectory = vec![
        Point::new(5, 5),
        Point::new(6, 6),
        Point::new(25, 5),
        Point::new(26, 4),
        Point::new(15, 5),
        Point::new(7, 7),
    ];
    let mut warm = ClassifierCache::new();
    for p in &trajectory {
        let warm_hit = cat.classify(p, &mut warm);
        let mut cold = ClassifierCache::new();
        let cold_hit = cat.classify(p, &mut cold);
        assert_eq!(warm_hit, cold_hit);
    }
}

#[test]
fn cache_remembers_last_match_and_survives_misses() {
    let cat = wonderland_catalog();
    let mut cache = ClassifierCache::new();
    assert_eq!(cat.classify(&Point::new(5, 5), &mut cache), Some(0));
    assert_eq!(cache.last, Some(0));
    // a miss leaves the cache alone
    assert_eq!(cat.classify(&Point::new(50, 50), &mut cache), None);
    assert_eq!(cache.last, Some(0));
}

#[test]
fn triangle_containment_is_exact() {
    // triangle (0,0) (10,0) (0,10): inside below the diagonal x + y = 10
    let tri = Country {
        name: "Trigonia".to_string(),
        bb: BoundingBox { xmin: 0, xmax: 10, ymin: 0, ymax: 10 },
        polygons: vec![Polygon::new(vec![
            Point::new(0, 0),
            Point::new(10, 0),
            Point::new(0, 10),
        ])],
    };
    let cat = Catalog { countries: vec![tri] };
    let mut cache = ClassifierCache::new();
    assert_eq!(cat.classify(&Point::new(2, 2), &mut cache), Some(0));
    // inside the bounding box but outside the triangle
    assert_eq!(cat.classify(&Point::new(9, 9), &mut cache), None);
}

#[test]
fn multi_polygon_country_is_the_union_of_its_islands() {
    let mainland = Polygon::new(vec![
        Point::new(0, 0),
        Point::new(10, 0),
        Point::new(10, 10),
        Point::new(0, 10),
    ]);
    let island = Polygon::new(vec![
        Point::new(20, 20),
        Point::new(30, 20),
        Point::new(30, 30),
        Point::new(20, 30),
    ]);
    let country = Country {
        name: "Archipelia".to_string(),
        bb: BoundingBox { xmin: 0, xmax: 30, ymin: 0, ymax: 30 },
        polygons: vec![mainland, island],
    };
    let cat = Catalog { countries: vec![country] };
    let mut cache = ClassifierCache::new();
    assert_eq!(cat.classify(&Point::new(5, 5), &mut cache), Some(0));
    assert_eq!(cat.classify(&Point::new(25, 25), &mut cache), Some(0));
    // between the islands: inside the bounding box, outside both polygons
    assert_eq!(cat.classify(&Point::new(15, 15), &mut cache), None);
}
