use swansong::report::{GuardInfo, GuardReport, Location};

fn info(file: &str, line: u32, column: u32, age: Option<u128>) -> GuardInfo {
    GuardInfo { location: Location { file: file.as_bytes().to_vec(), line, column }, age }
}

fn summary(r: &GuardReport) -> Vec<(String, u32, u32, usize, Option<u128>)> {
    r.entries()
        .iter()
        .map(|e| {
            let l = e.location();
            (String::from_utf8(l.file.clone()).unwrap(), l.line, l.column, e.count(), e.oldest_age())
        })
        .collect()
}

#[test]
fn empty_report() {
    let r = GuardReport::from_infos(vec![]);
    assert!(r.is_empty());
    assert_eq!(r.guard_count(), 0);
}

#[test]
fn report_aggregates_by_creation_site() {
    let empty = GuardReport::from_infos(vec![]);
    assert!(empty.is_empty());
    assert_eq!(empty.guard_count(), 0);

    let repeated_line = 20;
    let single_line = 22;
    let site = |line: u32| info("tests/guard_report.rs", line, 21, Some(1));
    let report = GuardReport::from_infos(vec![
        site(repeated_line),
        site(repeated_line),
        site(repeated_line),
        site(single_line),
    ]);
    assert_eq!(report.guard_count(), 4);
    assert_eq!(report.entries().len(), 2);
    let by_line = |line: u32| report.entries().iter().find(|e| e.location().line == line).unwrap();
    let repeated = by_line(repeated_line);
    assert_eq!(repeated.count(), 3);
    assert!(repeated.location().file.ends_with(b"guard_report.rs"));
    assert_eq!(by_line(single_line).count(), 1);

    let report = GuardReport::from_infos(vec![site(single_line)]);
    assert_eq!(report.guard_count(), 1);
    assert_eq!(report.entries()[0].location().line, single_line);
    assert!(GuardReport::from_infos(vec![]).is_empty());
}

#[test]
fn report_orders_sites_oldest_first() {
    let r = GuardReport::from_infos(vec![
        info("src/a.rs", 10, 5, Some(100)),
        info("src/b.rs", 3, 1, Some(300)),
        info("src/a.rs", 10, 5, Some(250)),
        info("src/a.rs", 11, 5, Some(50)),
    ]);
    assert!(!r.is_empty());
    assert_eq!(r.guard_count(), 4);
    assert_eq!(
        summary(&r),
        vec![
            ("src/b.rs".to_string(), 3, 1, 1, Some(300)),
            ("src/a.rs".to_string(), 10, 5, 2, Some(250)),
            ("src/a.rs".to_string(), 11, 5, 1, Some(50)),
        ]
    );
}

#[test]
fn equal_ages_order_by_location() {
    let r = GuardReport::from_infos(vec![
        info("src/b.rs", 1, 1, Some(7)),
        info("src/a.rs", 9, 9, Some(7)),
        info("src/a.rs", 2, 3, Some(7)),
        info("src/a.rs", 2, 1, Some(7)),
        info("src/ab.rs", 1, 1, Some(7)),
    ]);
    let s = summary(&r);
    let order: Vec<(String, u32, u32)> = s.into_iter().map(|(f, l, c, _, _)| (f, l, c)).collect();
    assert_eq!(
        order,
        vec![
            ("src/a.rs".to_string(), 2, 1),
            ("src/a.rs".to_string(), 2, 3),
            ("src/a.rs".to_string(), 9, 9),
            ("src/ab.rs".to_string(), 1, 1),
            ("src/b.rs".to_string(), 1, 1),
        ]
    );
}

#[test]
fn unknown_ages_come_last() {
    let r = GuardReport::from_infos(vec![
        info("x.rs", 1, 1, None),
        info("y.rs", 1, 1, Some(0)),
        info("x.rs", 1, 1, None),
    ]);
    assert_eq!(
        summary(&r),
        vec![("y.rs".to_string(), 1, 1, 1, Some(0)), ("x.rs".to_string(), 1, 1, 2, None)]
    );
    assert_eq!(r.guard_count(), 3);
}

#[test]
fn known_age_wins_over_unknown_at_one_site() {
    let r = GuardReport::from_infos(vec![info("x.rs", 4, 2, None), info("x.rs", 4, 2, Some(12))]);
    assert_eq!(summary(&r), vec![("x.rs".to_string(), 4, 2, 2, Some(12))]);
    let entries = r.into_entries();
    assert_eq!(entries.len(), 1);
}

#[test]
fn report_headline_counts_and_pluralises() {
    let none = GuardReport::from_infos(Vec::new());
    assert_eq!(none.headline(), "no outstanding guards");
    let one = GuardReport::from_infos(vec![info("a.rs", 1, 1, None)]);
    assert_eq!(one.headline(), "1 outstanding guard:");
    let many: Vec<GuardInfo> = (0..12).map(|k| info("a.rs", k, 1, None)).collect();
    assert_eq!(GuardReport::from_infos(many).headline(), "12 outstanding guards:");
    let hundred: Vec<GuardInfo> = (0..105).map(|k| info("b.rs", 1, 1, Some(k))).collect();
    assert_eq!(GuardReport::from_infos(hundred).headline(), "105 outstanding guards:");
}
