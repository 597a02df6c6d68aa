use oldest_line::line_details::parse_line;

const HASH: &str = "aaaaaaaaaaaaaaaaaaaaaaaaaaaaaaaaaaaaaaaa";

#[test]
fn parse_round_trip_basic() {
    let line = format!(
        "{} src/main.rs (Alice Smith 2020-01-01T00:00:00+00:00 1)fn main() {{}}",
        HASH
    );
    let d = parse_line(&line, "src/main.rs").expect("line should parse");
    assert_eq!(d.file_name, "src/main.rs");
    assert_eq!(d.original_filename, "src/main.rs");
    assert_eq!(d.commit_hash, HASH);
    assert_eq!(d.author, "Alice Smith");
    assert_eq!(d.code, "fn main() {}");
    assert_eq!(d.datetime.year, 2020);
    assert_eq!(d.datetime.month, 1);
    assert_eq!(d.datetime.day, 1);
    assert_eq!(d.datetime.hour, 0);
    assert_eq!(d.datetime.minute, 0);
    assert_eq!(d.datetime.second, 0);
    assert_eq!(d.datetime.offset_minutes, 0);
}

#[test]
fn parse_space_separator_and_compact_offset() {
    let line = format!("{} lib.rs (bob 1999-12-31 23:59:59 -0500 7)let x = y;", HASH);
    let d = parse_line(&line, "lib.rs").expect("line should parse");
    assert_eq!(d.author, "bob");
    assert_eq!(d.datetime.year, 1999);
    assert_eq!(d.datetime.month, 12);
    assert_eq!(d.datetime.day, 31);
    assert_eq!(d.datetime.hour, 23);
    assert_eq!(d.datetime.offset_minutes, -300);
    assert_eq!(d.code, "let x = y;");
}

#[test]
fn parse_trims_author_whitespace() {
    let line = format!("{} a.txt (  Jo Jo   2018-06-05T04:03:02+01:30 2)x", HASH);
    let d = parse_line(&line, "a.txt").expect("line should parse");
    assert_eq!(d.author, "Jo Jo");
    assert_eq!(d.datetime.offset_minutes, 90);
}

#[test]
fn parse_takes_last_delimiter_for_path() {
    // a path holding " (" itself: the greedy match keeps the later delimiter
    let line = format!("{} a (b (carol 2011-01-02T03:04:05+00:00 9)z", HASH);
    let d = parse_line(&line, "a (b").expect("line should parse");
    assert_eq!(d.original_filename, "a (b");
    assert_eq!(d.author, "carol");
}

#[test]
fn parse_rejects_short_line() {
    assert!(parse_line("too short", "f").is_none());
}

#[test]
fn parse_rejects_missing_hash_space() {
    let line = format!("{}Xsrc.rs (ann 2020-01-01T00:00:00+00:00 1)y", HASH);
    assert!(parse_line(&line, "src.rs").is_none());
}

#[test]
fn parse_rejects_bad_calendar_date() {
    let line = format!("{} f.rs (dave 2019-02-29T00:00:00+00:00 1)w", HASH);
    assert!(parse_line(&line, "f.rs").is_none());
    let line = format!("{} f.rs (dave 2019-13-01T00:00:00+00:00 1)w", HASH);
    assert!(parse_line(&line, "f.rs").is_none());
}

#[test]
fn parse_accepts_leap_day() {
    let line = format!("{} f.rs (erin 2020-02-29T12:00:00+00:00 1)w", HASH);
    let d = parse_line(&line, "f.rs").expect("2020 is a leap year");
    assert_eq!(d.datetime.day, 29);
}

#[test]
fn parse_rejects_missing_counter_paren() {
    let line = format!("{} f.rs (fred 2020-01-01T00:00:00+00:00 )w", HASH);
    assert!(parse_line(&line, "f.rs").is_none());
}

#[test]
fn parse_rejects_empty_code() {
    let line = format!("{} f.rs (gina 2020-01-01T00:00:00+00:00 1)", HASH);
    assert!(parse_line(&line, "f.rs").is_none());
}

#[test]
fn instant_matches_epoch_reference() {
    let line = format!("{} f.rs (hank 1970-01-01T00:00:00+00:00 1)x", HASH);
    let d = parse_line(&line, "f.rs").expect("line should parse");
    // Julian day number of 1970-01-01 is 2440588; 2440588 * 86400 seconds
    assert_eq!(d.datetime.instant_seconds(), 210_866_803_200);
}

#[test]
fn instant_normalizes_offsets() {
    let east = parse_line(
        &format!("{} f.rs (ivy 2020-01-01T12:00:00+02:00 1)x", HASH),
        "f.rs",
    )
    .unwrap();
    let utc = parse_line(
        &format!("{} f.rs (ivy 2020-01-01T10:00:00+00:00 1)x", HASH),
        "f.rs",
    )
    .unwrap();
    assert_eq!(east.datetime.instant_seconds(), utc.datetime.instant_seconds());
    assert!(!east.datetime.is_before(&utc.datetime));
    assert!(!utc.datetime.is_before(&east.datetime));
}

#[test]
fn default_record_is_undefined_sentinel() {
    let d = oldest_line::line_details::LineDetails::default();
    assert_eq!(d.file_name, "");
    assert_eq!(d.author, "");
    assert_eq!(d.datetime.year, 9999);
    assert_eq!(d.datetime.month, 12);
    assert_eq!(d.datetime.day, 31);
    assert_eq!(d.datetime.offset_minutes, -1439);
}
