use oldest_line::dispatch::dispatch;
use oldest_line::dispatch::is_work_message;
use oldest_line::process_files::process_files;
use oldest_line::reduce::finalize;
use oldest_line::reduce::find_oldest_line;
use oldest_line::reduce::RunningMinimum;
use oldest_line::line_details::parse_line;

const HASH: &str = "bbbbbbbbbbbbbbbbbbbbbbbbbbbbbbbbbbbbbbbb";

fn paths(names: &[&str]) -> Vec<String> {
    names.iter().map(|s| s.to_string()).collect()
}

#[test]
fn dispatch_round_robin_two_workers() {
    let files = paths(&["f1", "f2", "f3", "f4", "f5"]);
    let ignore = paths(&[]);
    let queues = dispatch(&files, &ignore, 2);
    assert_eq!(queues.len(), 2);
    assert_eq!(queues[0], paths(&["f1", "f3", "f5", "QUIT_TASK"]));
    assert_eq!(queues[1], paths(&["f2", "f4", "QUIT_TASK"]));
}

#[test]
fn dispatch_skips_ignored_paths() {
    let files = paths(&["keep1", "drop", "keep2", "keep3"]);
    let ignore = paths(&["drop"]);
    let queues = dispatch(&files, &ignore, 2);
    assert_eq!(queues[0], paths(&["keep1", "keep3", "QUIT_TASK"]));
    assert_eq!(queues[1], paths(&["keep2", "QUIT_TASK"]));
    for q in &queues {
        assert!(!q.contains(&"drop".to_string()));
    }
}

#[test]
fn dispatch_loads_differ_by_at_most_one() {
    let files = paths(&["a", "b", "c", "d", "e", "f", "g"]);
    let ignore = paths(&[]);
    let queues = dispatch(&files, &ignore, 3);
    let lens: Vec<usize> = queues.iter().map(|q| q.len() - 1).collect();
    assert_eq!(lens.iter().sum::<usize>(), 7);
    let max = lens.iter().max().unwrap();
    let min = lens.iter().min().unwrap();
    assert!(max - min <= 1);
}

#[test]
fn dispatch_empty_input_gives_sentinel_only_queues() {
    let queues = dispatch(&paths(&[]), &paths(&[]), 3);
    assert_eq!(queues.len(), 3);
    for q in queues {
        assert_eq!(q, paths(&["QUIT_TASK"]));
    }
}

#[test]
fn sentinel_is_not_work() {
    assert!(is_work_message(&"a.txt".to_string()));
    assert!(!is_work_message(&"QUIT_TASK".to_string()));
}

fn msg(line: String, file: &str) -> (String, String) {
    (line, file.to_string())
}

#[test]
fn reducer_publishes_only_improvements() {
    let l2019 = format!("{} b.txt (bea 2019-05-05T00:00:00+00:00 1)old line", HASH);
    let l2020 = format!("{} a.txt (abe 2020-01-01T00:00:00+00:00 1)new line", HASH);
    let l2021 = format!("{} c.txt (cal 2021-07-07T00:00:00+00:00 1)newest", HASH);
    let messages = vec![
        msg(l2020.clone(), "a.txt"),
        msg(l2021, "c.txt"),
        msg(l2019, "b.txt"),
        msg("QUIT_TASK".to_string(), "QUIT_TASK"),
        msg(l2020, "a.txt"),
    ];
    let results = find_oldest_line(&messages);
    // 2020 improves on nothing-yet, 2021 does not, 2019 improves; the
    // message after the sentinel is never read
    assert_eq!(results.len(), 2);
    assert_eq!(results[0].file_name, "a.txt");
    assert_eq!(results[1].file_name, "b.txt");
    let last = finalize(results);
    assert_eq!(last.file_name, "b.txt");
    assert_eq!(last.datetime.year, 2019);
}

#[test]
fn reducer_skips_unparseable_lines() {
    let good = format!("{} a.txt (ann 2018-03-03T03:03:03+00:00 1)ok", HASH);
    let messages = vec![
        msg("not an attribution line".to_string(), "a.txt"),
        msg(good, "a.txt"),
    ];
    let results = find_oldest_line(&messages);
    assert_eq!(results.len(), 1);
    assert_eq!(results[0].author, "ann");
}

#[test]
fn reducer_keeps_first_seen_on_tied_timestamps() {
    let first = format!("{} a.txt (abe 2020-01-01T00:00:00+00:00 1)first", HASH);
    let second = format!("{} b.txt (bea 2020-01-01T00:00:00+00:00 1)second", HASH);
    let messages = vec![msg(first, "a.txt"), msg(second, "b.txt")];
    let last = finalize(find_oldest_line(&messages));
    assert_eq!(last.file_name, "a.txt");
    assert_eq!(last.code, "first");
}

#[test]
fn running_minimum_reports_acceptance() {
    let older = parse_line(
        &format!("{} x (ann 2001-01-01T00:00:00+00:00 1)a", HASH),
        "x",
    )
    .unwrap();
    let newer = parse_line(
        &format!("{} y (bob 2005-01-01T00:00:00+00:00 1)b", HASH),
        "y",
    )
    .unwrap();
    let mut rm = RunningMinimum::new();
    assert!(rm.offer(newer.clone()));
    assert!(!rm.offer(newer));
    assert!(rm.offer(older));
    let best = rm.into_result();
    assert_eq!(best.author, "ann");
}

#[test]
fn pipeline_finds_oldest_across_two_files() {
    // the two-file scenario: a.txt's line is from 2020, b.txt's from 2019,
    // two workers, empty ignore set: the final record is b.txt's line
    let files = paths(&["a.txt", "b.txt"]);
    let outputs = vec![
        vec![format!("{} a.txt (abe 2020-01-01T00:00:00+00:00 1)newer", HASH)],
        vec![format!("{} b.txt (bea 2019-05-05T00:00:00+00:00 1)older", HASH)],
    ];
    let r = process_files(2, &files, &outputs, &paths(&[]));
    assert_eq!(r.file_name, "b.txt");
    assert_eq!(r.author, "bea");
    assert_eq!(r.datetime.year, 2019);
    assert_eq!(r.datetime.month, 5);
    assert_eq!(r.code, "older");
}

#[test]
fn pipeline_same_timestamp_under_reordered_inputs() {
    let la = format!("{} a.txt (abe 2014-02-02T02:02:02+00:00 1)a", HASH);
    let lb = format!("{} b.txt (bea 2012-06-06T06:06:06+00:00 1)b", HASH);
    let lc = format!("{} c.txt (cal 2013-09-09T09:09:09+00:00 1)c", HASH);
    let outs1 = vec![vec![la.clone()], vec![lb.clone()], vec![lc.clone()]];
    let outs2 = vec![vec![lc], vec![la], vec![lb]];
    let r1 = process_files(2, &paths(&["a.txt", "b.txt", "c.txt"]), &outs1, &paths(&[]));
    let r2 = process_files(2, &paths(&["c.txt", "a.txt", "b.txt"]), &outs2, &paths(&[]));
    assert_eq!(r1.datetime.instant_seconds(), r2.datetime.instant_seconds());
    assert_eq!(r1.datetime.year, 2012);
}

#[test]
fn pipeline_scans_every_line_of_a_file() {
    let files = paths(&["big.rs", "small.rs"]);
    let outputs = vec![
        vec![
            format!("{} big.rs (abe 2015-03-03T00:00:00+00:00 1)first line", HASH),
            format!("{} big.rs (bea 2003-11-11T00:00:00+00:00 2)middle line", HASH),
            format!("{} big.rs (cal 2010-01-01T00:00:00+00:00 3)last line", HASH),
        ],
        vec![format!("{} small.rs (dot 2008-08-08T00:00:00+00:00 1)only line", HASH)],
    ];
    let r = process_files(2, &files, &outputs, &paths(&[]));
    assert_eq!(r.file_name, "big.rs");
    assert_eq!(r.author, "bea");
    assert_eq!(r.datetime.year, 2003);
    assert_eq!(r.code, "middle line");
}

#[test]
fn pipeline_ignores_listed_file() {
    let files = paths(&["old.txt", "new.txt"]);
    let outputs = vec![
        vec![format!("{} old.txt (abe 1990-01-01T00:00:00+00:00 1)very old", HASH)],
        vec![format!("{} new.txt (bea 2020-01-01T00:00:00+00:00 1)recent", HASH)],
    ];
    let r = process_files(2, &files, &outputs, &paths(&["old.txt"]));
    assert_eq!(r.file_name, "new.txt");
}

#[test]
fn pipeline_empty_input_returns_undefined_record() {
    let r = process_files(3, &paths(&[]), &Vec::new(), &paths(&[]));
    assert_eq!(r.file_name, "");
    assert_eq!(r.commit_hash, "");
    assert_eq!(r.datetime.year, 9999);
}

#[test]
fn pipeline_unparseable_only_returns_undefined_record() {
    let files = paths(&["a.txt"]);
    let outputs = vec![vec!["gibberish".to_string()]];
    let r = process_files(1, &files, &outputs, &paths(&[]));
    assert_eq!(r.file_name, "");
    assert_eq!(r.datetime.year, 9999);
}
