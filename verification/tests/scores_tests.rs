use toybox::scores::{
    default_saved_data, format_date, format_saved_data, get_date, parse_saved_data,
    place_score_to_save, SaveDataUnit,
};

fn unit(score: i32, date: &str) -> SaveDataUnit {
    SaveDataUnit { score, date: date.to_string() }
}

fn pairs(v: &[SaveDataUnit]) -> Vec<(i32, String)> {
    v.iter().map(|u| (u.score, u.date.clone())).collect()
}

#[test]
fn place_keeps_five_best_first() {
    let data = vec![unit(10, "a"), unit(30, "b"), unit(20, "c"), unit(5, "d"), unit(1, "e")];
    let r = place_score_to_save(25, "new".to_string(), data);
    assert_eq!(
        pairs(&r),
        vec![(30, "b".into()), (25, "new".into()), (20, "c".into()), (10, "a".into()), (5, "d".into())]
    );
}

#[test]
fn place_low_score_is_dropped() {
    let data = vec![unit(10, "a"), unit(30, "b"), unit(20, "c"), unit(5, "d"), unit(1, "e")];
    let r = place_score_to_save(0, "new".to_string(), data);
    assert_eq!(pairs(&r).len(), 5);
    assert!(r.iter().all(|u| u.date != "new"));
}

#[test]
fn place_ties_keep_the_old_first() {
    let data: Vec<SaveDataUnit> = Vec::new();
    let r = place_score_to_save(3, "x".to_string(), data);
    assert_eq!(pairs(&r), vec![(3, "x".into())]);
    let data = default_saved_data();
    let r = place_score_to_save(0, "today".to_string(), data);
    assert_eq!(r.len(), 5);
    assert!(r.iter().all(|u| u.score == 0 && u.date == "00.00.0000"));
}

#[test]
fn parse_reads_lines() {
    let r = parse_saved_data("12 1.2.2023\n40 3.4.2023\r\nbad line\n7\n  5   9.9.2020  extra\n-3 x\n");
    assert_eq!(
        pairs(&r),
        vec![(40, "3.4.2023".into()), (12, "1.2.2023".into()), (5, "9.9.2020".into()), (-3, "x".into())]
    );
}

#[test]
fn parse_keeps_five() {
    let r = parse_saved_data("1 a\n2 b\n3 c\n4 d\n5 e\n6 f\n6 g");
    assert_eq!(
        pairs(&r),
        vec![(6, "f".into()), (6, "g".into()), (5, "e".into()), (4, "d".into()), (3, "c".into())]
    );
}

#[test]
fn parse_rejects_out_of_range_scores() {
    let r = parse_saved_data("2147483648 a\n2147483647 b\n-2147483648 c\n+8 d\n");
    assert_eq!(pairs(&r), vec![(2147483647, "b".into()), (8, "d".into()), (-2147483648, "c".into())]);
}

#[test]
fn parse_empty() {
    assert!(parse_saved_data("").is_empty());
    assert!(parse_saved_data("\n\n").is_empty());
}

#[test]
fn format_writes_five_best() {
    let data = vec![unit(1, "a"), unit(9, "b"), unit(3, "c"), unit(4, "d"), unit(5, "e"), unit(2, "f")];
    assert_eq!(format_saved_data(data), "9 b\n5 e\n4 d\n3 c\n2 f\n");
    assert_eq!(format_saved_data(vec![]), "");
    assert_eq!(format_saved_data(vec![unit(-12, "z")]), "-12 z\n");
}

#[test]
fn save_then_load() {
    let data = vec![unit(1, "1.1.2020"), unit(90, "2.2.2021"), unit(-7, "3.3.2022"), unit(90, "4.4.2023")];
    let text = format_saved_data(data);
    let loaded = parse_saved_data(&text);
    assert_eq!(
        pairs(&loaded),
        vec![(90, "2.2.2021".into()), (90, "4.4.2023".into()), (1, "1.1.2020".into()), (-7, "3.3.2022".into())]
    );
}

#[test]
fn defaults() {
    let d = default_saved_data();
    assert_eq!(d.len(), 5);
    assert!(d.iter().all(|u| u.score == 0 && u.date == "00.00.0000"));
}

#[test]
fn dates_are_written_with_dots() {
    assert_eq!(format_date(5, 11, 2023), "5.11.2023");
    assert_eq!(format_date(31, 1, -44), "31.1.-44");
    let today = get_date().unwrap();
    let parts: Vec<&str> = today.split('.').collect();
    assert_eq!(parts.len(), 3);
    let d: u32 = parts[0].parse().unwrap();
    let m: u32 = parts[1].parse().unwrap();
    assert!((1..=31).contains(&d) && (1..=12).contains(&m));
}

use toybox::scores::initial_scores;

#[test]
fn initial_scores_from_file_or_defaults() {
    let (d, write) = initial_scores(None);
    assert!(write);
    assert_eq!(pairs(&d), vec![(0, "00.00.0000".to_string()); 5]);
    let (d, write) = initial_scores(Some("no scores here\n"));
    assert!(write);
    assert_eq!(d.len(), 5);
    let (d, write) = initial_scores(Some("3 a\n9 b\n"));
    assert!(!write);
    assert_eq!(pairs(&d), vec![(9, "b".into()), (3, "a".into())]);
}
