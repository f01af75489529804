//! Segmentation: merging, transitions, unmatched pings, ordering violations,
//! and building the catalog from raw records.

use country_ledger::builder::{build, build_record, BuildError, RawRecord};
use country_ledger::catalog::{Catalog, Country};
use country_ledger::geometry::{BoundingBox, Point, Polygon};
use country_ledger::segment::{segment_pings, LocationPing, SegmentError, Segmenter};
use country_ledger::visit::Timestamp;

fn square_country(name: &str, x0: i64, x1: i64, y0: i64, y1: i64) -> Country {
    let ring = vec![
        Point::new(x0, y0),
        Point::new(x1, y0),
        Point::new(x1, y1),
        Point::new(x0, y1),
    ];
    Country {
        name: name.to_string(),
        bb: BoundingBox { xmin: x0, xmax: x1, ymin: y0, ymax: y1 },
        polygons: vec![Polygon::new(ring)],
    }
}

fn ab_catalog() -> Catalog {
    Catalog {
        countries: vec![
            square_country("Aland", 0, 10, 0, 10),
            square_country("Borduria", 20, 30, 0, 10),
        ],
    }
}

fn ping(secs: i64, lon: i64, lat: i64) -> LocationPing {
    LocationPing { timestamp: Timestamp::new(secs), longitude: lon, latitude: lat }
}

#[test]
fn two_pings_in_one_country_merge_into_one_open_visit() {
    let cat = ab_catalog();
    let pings = vec![ping(100, 5, 5), ping(200, 6, 6)];
    let ledger = segment_pings(&cat, &pings).expect("ordered pings");
    assert_eq!(ledger.len(), 1);
    assert_eq!(ledger[0].country, "Aland");
    assert_eq!(ledger[0].start.secs, 100);
    assert!(ledger[0].end.is_none());
}

#[test]
fn transition_closes_at_the_entering_timestamp() {
    let cat = ab_catalog();
    let pings = vec![ping(100, 5, 5), ping(200, 6, 6), ping(300, 25, 5), ping(400, 26, 6)];
    let ledger = segment_pings(&cat, &pings).expect("ordered pings");
    assert_eq!(ledger.len(), 2);
    assert_eq!(ledger[0].country, "Aland");
    assert_eq!(ledger[0].start.secs, 100);
    // the closing timestamp is the *entering* timestamp of the next visit,
    // not the last ping still classified as the old country
    assert_eq!(ledger[0].end.map(|t| t.secs), Some(300));
    assert_eq!(ledger[1].country, "Borduria");
    assert_eq!(ledger[1].start.secs, 300);
    assert!(ledger[1].end.is_none());
}

#[test]
fn unmatched_pings_are_ignored() {
    let cat = ab_catalog();
    // the middle ping is over open water: it neither closes nor extends
    let pings = vec![ping(100, 5, 5), ping(200, 15, 5), ping(300, 6, 6)];
    let ledger = segment_pings(&cat, &pings).expect("ordered pings");
    assert_eq!(ledger.len(), 1);
    assert_eq!(ledger[0].country, "Aland");
    assert_eq!(ledger[0].start.secs, 100);
    assert!(ledger[0].end.is_none());
}

#[test]
fn all_unmatched_yields_empty_ledger() {
    let cat = ab_catalog();
    let pings = vec![ping(100, 50, 50), ping(200, 60, 60)];
    let ledger = segment_pings(&cat, &pings).expect("ordered pings");
    assert!(ledger.is_empty());
}

#[test]
fn out_of_order_pings_are_rejected() {
    let cat = ab_catalog();
    let pings = vec![ping(200, 5, 5), ping(100, 6, 6)];
    assert_eq!(segment_pings(&cat, &pings), Err(SegmentError::OrderingViolation));
}

#[test]
fn consume_rejects_stale_ping_and_keeps_state() {
    let cat = ab_catalog();
    let mut seg = Segmenter::new();
    assert_eq!(seg.consume(&cat, &ping(200, 5, 5)), Ok(()));
    assert_eq!(seg.consume(&cat, &ping(100, 25, 5)), Err(SegmentError::OrderingViolation));
    // the rejected ping changed nothing: the visit is still Aland's, open
    let ledger = seg.into_ledger(&cat);
    assert_eq!(ledger.len(), 1);
    assert_eq!(ledger[0].country, "Aland");
    assert_eq!(ledger[0].start.secs, 200);
    assert!(ledger[0].end.is_none());
}

#[test]
fn equal_timestamps_are_accepted() {
    let cat = ab_catalog();
    let pings = vec![ping(100, 5, 5), ping(100, 25, 5)];
    let ledger = segment_pings(&cat, &pings).expect("non-decreasing is fine");
    assert_eq!(ledger.len(), 2);
    assert_eq!(ledger[0].end.map(|t| t.secs), Some(100));
}

#[test]
fn build_skips_records_missing_the_name_attribute() {
    let named = RawRecord {
        attributes: vec![
            ("CODE".to_string(), "WL".to_string()),
            ("NAME".to_string(), "Wonderland".to_string()),
        ],
        rings: vec![Polygon::new(vec![
            Point::new(0, 0),
            Point::new(10, 0),
            Point::new(10, 10),
            Point::new(0, 10),
        ])],
    };
    let nameless = RawRecord {
        attributes: vec![("CODE".to_string(), "XX".to_string())],
        rings: vec![Polygon::new(vec![Point::new(0, 0)])],
    };
    let records = vec![named, nameless];
    let cat = build(&records, &"NAME".to_string());
    assert_eq!(cat.countries.len(), 1);
    assert_eq!(cat.countries[0].name, "Wonderland");
}

#[test]
fn build_record_reports_the_missing_name() {
    let nameless = RawRecord { attributes: vec![], rings: vec![] };
    assert!(matches!(
        build_record(&nameless, &"NAME".to_string()),
        Err(BuildError::MissingNameAttribute)
    ));
}

#[test]
fn build_recomputes_a_tight_bounding_box() {
    let record = RawRecord {
        attributes: vec![("NAME".to_string(), "Trigonia".to_string())],
        rings: vec![
            Polygon::new(vec![Point::new(-5, 2), Point::new(7, -3), Point::new(1, 9)]),
        ],
    };
    let country = build_record(&record, &"NAME".to_string()).expect("named record");
    assert_eq!(country.bb, BoundingBox { xmin: -5, xmax: 7, ymin: -3, ymax: 9 });
}

#[test]
fn built_catalog_round_trips_and_classifies() {
    let record = RawRecord {
        attributes: vec![("NAME".to_string(), "Wonderland".to_string())],
        rings: vec![Polygon::new(vec![
            Point::new(0, 0),
            Point::new(10, 0),
            Point::new(10, 10),
            Point::new(0, 10),
        ])],
    };
    let records = vec![record];
    let cat = build(&records, &"NAME".to_string());
    let back = Catalog::decode(&cat.encode()).expect("round trip");
    let pings = vec![ping(100, 5, 5)];
    let ledger = segment_pings(&back, &pings).expect("ordered");
    assert_eq!(ledger.len(), 1);
    assert_eq!(ledger[0].country, "Wonderland");
}

#[test]
fn close_on_gap_splits_the_visit() {
    let cat = ab_catalog();
    let pings = vec![ping(100, 5, 5), ping(200, 15, 5), ping(300, 6, 6)];
    let ledger = country_ledger::segment::segment_pings_with_policy(
        &cat,
        &pings,
        country_ledger::segment::GapPolicy::CloseOnGap,
    )
    .expect("ordered pings");
    assert_eq!(ledger.len(), 2);
    assert_eq!(ledger[0].country, "Aland");
    assert_eq!(ledger[0].start.secs, 100);
    assert_eq!(ledger[0].end.map(|t| t.secs), Some(200));
    assert_eq!(ledger[1].country, "Aland");
    assert_eq!(ledger[1].start.secs, 300);
    assert!(ledger[1].end.is_none());
}
