//! Aggregation: grouping by year and by country, key order, bucket order,
//! determinism, date formatting, and visit comparison.

use country_ledger::aggregate::{group_by_country, group_by_year, SortBy, ViewModel, ViewMsg};
use country_ledger::visit::{Timestamp, Visit};

const T_2019_MAY_01: i64 = 1556668800;
const T_2019_JUN_01: i64 = 1559347200;
const T_2019_JUN_02: i64 = 1559433600;
const T_2020_JUN_01: i64 = 1590969600;
const T_2020_JUL_15: i64 = 1594771200;

fn visit(country: &str, start: i64, end: Option<i64>) -> Visit {
    Visit::new(
        country.to_string(),
        Timestamp::new(start),
        end.map(Timestamp::new),
    )
}

fn two_year_ledger() -> Vec<Visit> {
    vec![
        visit("Borduria", T_2019_MAY_01, Some(T_2019_JUN_01)),
        visit("Aland", T_2019_JUN_01, Some(T_2020_JUN_01)),
        visit("Borduria", T_2020_JUN_01, Some(T_2020_JUL_15)),
        visit("Aland", T_2020_JUL_15, None),
    ]
}

#[test]
fn group_by_year_keys_ascend_and_buckets_keep_ledger_order() {
    let ledger = two_year_ledger();
    let groups = group_by_year(&ledger);
    let keys: Vec<&str> = groups.iter().map(|g| g.0.as_str()).collect();
    assert_eq!(keys, vec!["2019", "2020"]);
    let y2019: Vec<&str> = groups[0].1.iter().map(|v| v.country.as_str()).collect();
    assert_eq!(y2019, vec!["Borduria", "Aland"]);
    let y2020: Vec<&str> = groups[1].1.iter().map(|v| v.country.as_str()).collect();
    assert_eq!(y2020, vec!["Borduria", "Aland"]);
    assert_eq!(groups[0].1[0].start.secs, T_2019_MAY_01);
}

#[test]
fn group_by_country_keys_are_alphabetical() {
    let ledger = two_year_ledger();
    let groups = group_by_country(&ledger);
    let keys: Vec<&str> = groups.iter().map(|g| g.0.as_str()).collect();
    assert_eq!(keys, vec!["Aland", "Borduria"]);
    let aland: Vec<i64> = groups[0].1.iter().map(|v| v.start.secs).collect();
    assert_eq!(aland, vec![T_2019_JUN_01, T_2020_JUL_15]);
    let borduria: Vec<i64> = groups[1].1.iter().map(|v| v.start.secs).collect();
    assert_eq!(borduria, vec![T_2019_MAY_01, T_2020_JUN_01]);
}

#[test]
fn regrouping_the_same_ledger_is_identical() {
    let ledger = two_year_ledger();
    let by_year_once = group_by_year(&ledger);
    let by_year_twice = group_by_year(&ledger);
    assert_eq!(by_year_once, by_year_twice);
    let by_country_once = group_by_country(&ledger);
    let by_country_twice = group_by_country(&ledger);
    assert_eq!(by_country_once, by_country_twice);
    // and the ledger itself is untouched
    assert_eq!(ledger.len(), 4);
}

#[test]
fn grouping_an_empty_ledger_yields_no_groups() {
    let ledger: Vec<Visit> = Vec::new();
    assert!(group_by_year(&ledger).is_empty());
    assert!(group_by_country(&ledger).is_empty());
}

#[test]
fn start_to_string_formats_the_calendar_day() {
    let v = visit("Aland", T_2019_MAY_01, None);
    assert_eq!(v.start_to_string(), "01 May 2019");
}

#[test]
fn end_to_string_is_empty_while_open() {
    let open = visit("Aland", T_2019_MAY_01, None);
    assert_eq!(open.end_to_string(), "");
    let closed = visit("Aland", T_2019_MAY_01, Some(T_2020_JUL_15));
    assert_eq!(closed.end_to_string(), "15 Jul 2020");
}

#[test]
fn year_key_comes_from_the_calendar_not_the_input() {
    // seconds before the epoch still land in the right calendar year
    let v = visit("Aland", -86400, None);
    let ledger = vec![v];
    let groups = group_by_year(&ledger);
    assert_eq!(groups[0].0, "1969");
}

#[test]
fn visit_equality_is_day_precision() {
    let morning = visit("Aland", T_2019_JUN_01, None);
    let evening = visit("Aland", T_2019_JUN_01 + 5 * 3600, None);
    assert_eq!(morning, evening);
    let next_day = visit("Aland", T_2019_JUN_02, None);
    assert_ne!(morning, next_day);
    let closed = visit("Aland", T_2019_JUN_01, Some(T_2019_JUN_02));
    assert_ne!(morning, closed);
}

#[test]
fn visit_order_is_country_then_start_day() {
    let a = visit("Aland", T_2020_JUL_15, None);
    let b = visit("Borduria", T_2019_MAY_01, None);
    assert!(a < b);
    let early = visit("Aland", T_2019_JUN_01, None);
    let late = visit("Aland", T_2019_JUN_02, None);
    assert!(early < late);
    let same_day_other_hour = visit("Aland", T_2019_JUN_01 + 3600, None);
    assert!(!(early < same_day_other_hour) && !(same_day_other_hour < early));
}

#[test]
fn view_model_switches_groupings() {
    let mut model = ViewModel::new();
    assert!(matches!(model.order, SortBy::Year));
    model.update(ViewMsg::UpdateView(two_year_ledger()));
    let by_year = model.grouped();
    assert_eq!(by_year[0].0, "2019");
    model.update(ViewMsg::SortChanged(SortBy::Country));
    let by_country = model.grouped();
    assert_eq!(by_country[0].0, "Aland");
    assert_eq!(model.visits.len(), 4);
}
