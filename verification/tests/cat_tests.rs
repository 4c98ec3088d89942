use toybox::cat::{line_print, parse_cat_args, CatArgsError, CatFlags, CatOptions, LinePrint};

fn args(v: &[&str]) -> Vec<String> {
    v.iter().map(|s| s.to_string()).collect()
}

#[test]
fn file_name_alone() {
    let o = parse_cat_args(&args(&["cat", "f.txt"])).unwrap();
    assert_eq!(o, CatOptions { flags: CatFlags { number: false, head: false, tail: false }, count: 0 });
}

#[test]
fn usage_errors() {
    assert_eq!(parse_cat_args(&args(&["cat"])), Err(CatArgsError::Usage));
    assert_eq!(parse_cat_args(&args(&["cat", "a", "-n", "3", "x"])), Err(CatArgsError::Usage));
}

#[test]
fn number_flag() {
    let o = parse_cat_args(&args(&["cat", "f", "-n"])).unwrap();
    assert_eq!(o.flags, CatFlags { number: true, head: false, tail: false });
}

#[test]
fn head_and_tail_take_a_count() {
    let o = parse_cat_args(&args(&["cat", "f", "-nh", "3"])).unwrap();
    assert_eq!(o, CatOptions { flags: CatFlags { number: true, head: true, tail: false }, count: 3 });
    let o = parse_cat_args(&args(&["cat", "f", "-t", "+12"])).unwrap();
    assert_eq!(o, CatOptions { flags: CatFlags { number: false, head: false, tail: true }, count: 12 });
    let o = parse_cat_args(&args(&["cat", "f", "-ht", "2"])).unwrap();
    assert_eq!(o.flags, CatFlags { number: false, head: true, tail: false });
}

#[test]
fn zero_count_means_six() {
    let o = parse_cat_args(&args(&["cat", "f", "-h", "0"])).unwrap();
    assert_eq!(o.count, 6);
}

#[test]
fn count_errors() {
    assert_eq!(parse_cat_args(&args(&["cat", "f", "-h"])), Err(CatArgsError::MissingCount));
    assert_eq!(parse_cat_args(&args(&["cat", "f", "-t", "x1"])), Err(CatArgsError::BadCount));
    assert_eq!(parse_cat_args(&args(&["cat", "f", "-t", "-1"])), Err(CatArgsError::BadCount));
    assert_eq!(parse_cat_args(&args(&["cat", "f", "-t", "4294967296"])), Err(CatArgsError::BadCount));
    assert_eq!(parse_cat_args(&args(&["cat", "f", "-t", ""])), Err(CatArgsError::BadCount));
    assert_eq!(parse_cat_args(&args(&["cat", "f", "-t", "+"])), Err(CatArgsError::BadCount));
}

#[test]
fn head_lines() {
    let o = CatOptions { flags: CatFlags { number: true, head: true, tail: false }, count: 2 };
    assert_eq!(line_print(o, 1, 5), LinePrint { numbered: true, shown: true });
    assert_eq!(line_print(o, 2, 5), LinePrint { numbered: true, shown: true });
    assert_eq!(line_print(o, 3, 5), LinePrint { numbered: false, shown: false });
}

#[test]
fn tail_lines() {
    let o = CatOptions { flags: CatFlags { number: false, head: false, tail: true }, count: 2 };
    assert_eq!(line_print(o, 3, 5), LinePrint { numbered: false, shown: false });
    assert_eq!(line_print(o, 4, 5), LinePrint { numbered: false, shown: true });
    assert_eq!(line_print(o, 5, 5), LinePrint { numbered: false, shown: true });
}

#[test]
fn plain_and_numbered_lines() {
    let plain = CatOptions { flags: CatFlags { number: false, head: false, tail: false }, count: 0 };
    assert_eq!(line_print(plain, 7, 9), LinePrint { numbered: false, shown: true });
    let numbered = CatOptions { flags: CatFlags { number: true, head: false, tail: false }, count: 0 };
    assert_eq!(line_print(numbered, 7, 9), LinePrint { numbered: true, shown: true });
}
