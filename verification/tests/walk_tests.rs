use weight::walk::{MeasureError, Report, ReportError, Walk};
use weight::Weight;

fn record_for(path: &str, imports: &[&str], source: &str, size: usize) -> Weight {
    Weight {
        path: String::from(path),
        source: String::from(source),
        imports: imports.iter().map(|s| String::from(*s)).collect(),
        minified: String::from(source),
        size,
    }
}

type Fixture<'a> = &'a [(&'a str, &'a [&'a str], &'a str, usize)];

fn run(root: &str, files: Fixture) -> (Vec<String>, Result<Report, ReportError>) {
    let mut walk = Walk::new(root);
    let mut popped: Vec<String> = Vec::new();
    let mut steps: usize = 0;
    while let Some(p) = walk.next_pending() {
        steps += 1;
        assert!(steps <= 100, "traversal did not terminate");
        popped.push(p.clone());
        match files.iter().find(|f| f.0 == p) {
            Some((path, imports, source, size)) => {
                let fresh = walk.record(record_for(path, imports, source, *size));
                assert!(fresh, "a popped identity must be fresh");
            }
            None => walk.fail(MeasureError::Io),
        }
    }
    (popped, walk.finish())
}

#[test]
fn root_only_graph_yields_one_record() {
    let files: Fixture = &[("/p/r.ts", &[], "let x = 1;", 5)];
    let (popped, result) = run("/p/r.ts", files);
    assert_eq!(popped, vec![String::from("/p/r.ts")]);
    let report = result.expect("a root without imports must yield a report");
    assert_eq!(report.records.len(), 1);
    assert_eq!(report.records[0].path, "/p/r.ts");
    assert_eq!(report.total_len, 10);
    assert_eq!(report.total_size, 5);
}

#[test]
fn diamond_is_measured_once() {
    let a_imports: &[&str] = &["./c.ts"];
    let b_imports: &[&str] = &["./c.ts"];
    let r_imports: &[&str] = &["./a.ts", "./b.ts"];
    let files: Fixture = &[
        ("/p/r.ts", r_imports, "import a; import b;", 9),
        ("/p/a.ts", a_imports, "import c; // a", 7),
        ("/p/b.ts", b_imports, "import c; // b", 6),
        ("/p/c.ts", &[], "shared", 3),
    ];
    let (popped, result) = run("/p/r.ts", files);
    let c_count = popped.iter().filter(|p| p.as_str() == "/p/c.ts").count();
    assert_eq!(c_count, 1, "the shared file is measured exactly once");
    let report = result.expect("the diamond must yield a report");
    assert_eq!(report.records.len(), 4);
    let c_records = report
        .records
        .iter()
        .filter(|w| w.path.as_str() == "/p/c.ts")
        .count();
    assert_eq!(c_records, 1, "the shared file appears exactly once");
}

#[test]
fn cycle_terminates_with_each_file_once() {
    let a_imports: &[&str] = &["./b.ts"];
    let b_imports: &[&str] = &["./a.ts"];
    let files: Fixture = &[
        ("/p/a.ts", a_imports, "import b;", 4),
        ("/p/b.ts", b_imports, "import a;", 4),
    ];
    let (popped, result) = run("/p/a.ts", files);
    assert_eq!(popped.len(), 2);
    let report = result.expect("the cycle must yield a report");
    assert_eq!(report.records.len(), 2);
    assert_eq!(report.records[0].path, "/p/a.ts");
    assert_eq!(report.records[1].path, "/p/b.ts");
}

#[test]
fn self_import_is_not_re_enqueued() {
    let r_imports: &[&str] = &["./r.ts"];
    let files: Fixture = &[("/p/r.ts", r_imports, "import r;", 4)];
    let (popped, result) = run("/p/r.ts", files);
    assert_eq!(popped.len(), 1);
    let report = result.expect("a self-import must yield a report");
    assert_eq!(report.records.len(), 1);
}

#[test]
fn two_runs_agree() {
    let a_imports: &[&str] = &["./c.ts", "./c.ts"];
    let r_imports: &[&str] = &["./a.ts", "./c.ts"];
    let files: Fixture = &[
        ("/p/r.ts", r_imports, "r source", 11),
        ("/p/a.ts", a_imports, "a source", 12),
        ("/p/c.ts", &[], "c source", 13),
    ];
    let (popped_one, result_one) = run("/p/r.ts", files);
    let (popped_two, result_two) = run("/p/r.ts", files);
    assert_eq!(popped_one, popped_two);
    let report_one = result_one.expect("first run must yield a report");
    let report_two = result_two.expect("second run must yield a report");
    assert_eq!(report_one.total_len, report_two.total_len);
    assert_eq!(report_one.total_size, report_two.total_size);
    let paths_one: Vec<&str> = report_one.records.iter().map(|w| w.path.as_str()).collect();
    let paths_two: Vec<&str> = report_two.records.iter().map(|w| w.path.as_str()).collect();
    assert_eq!(paths_one, paths_two);
    let sizes_one: Vec<usize> = report_one.records.iter().map(|w| w.size).collect();
    let sizes_two: Vec<usize> = report_two.records.iter().map(|w| w.size).collect();
    assert_eq!(sizes_one, sizes_two);
}

#[test]
fn totals_are_exact_sums() {
    let r_imports: &[&str] = &["./a.ts", "./b.ts"];
    let files: Fixture = &[
        ("/p/r.ts", r_imports, "0123456789", 4),
        ("/p/a.ts", &[], "01234", 2),
        ("/p/b.ts", &[], "012", 3),
    ];
    let (_, result) = run("/p/r.ts", files);
    let report = result.expect("the fixture must yield a report");
    assert_eq!(report.total_len, 10 + 5 + 3);
    assert_eq!(report.total_size, 4 + 2 + 3);
    assert_ne!(report.total_len, report.total_size);
}

#[test]
fn total_len_counts_bytes_not_characters() {
    let files: Fixture = &[("/p/r.ts", &[], "é", 1)];
    let (_, result) = run("/p/r.ts", files);
    let report = result.expect("the fixture must yield a report");
    assert_eq!(report.total_len, 2, "a two-byte character counts two bytes");
}

#[test]
fn failure_yields_no_report() {
    let mut walk = Walk::new("/p/r.ts");
    let p = walk.next_pending().expect("the root is pending");
    assert_eq!(p, "/p/r.ts");
    walk.fail(MeasureError::Parse);
    assert!(walk.has_failed());
    assert!(walk.next_pending().is_none(), "a failed walk has nothing pending");
    match walk.finish() {
        Err(ReportError::Failed(MeasureError::Parse)) => {}
        _ => panic!("a failed run must surface its parse failure"),
    }
}

#[test]
fn first_failure_is_kept() {
    let mut walk = Walk::new("/p/r.ts");
    let _ = walk.next_pending();
    walk.fail(MeasureError::Io);
    walk.fail(MeasureError::Encoding);
    match walk.finish() {
        Err(ReportError::Failed(MeasureError::Io)) => {}
        _ => panic!("the first failure must be the one reported"),
    }
}

#[test]
fn missing_import_fails_the_run() {
    let r_imports: &[&str] = &["./gone.ts"];
    let files: Fixture = &[("/p/r.ts", r_imports, "import gone;", 5)];
    let (_, result) = run("/p/r.ts", files);
    match result {
        Err(ReportError::Failed(MeasureError::Io)) => {}
        _ => panic!("an unresolvable import must abort the run"),
    }
}

#[test]
fn each_failure_kind_is_surfaced() {
    let kinds = [
        MeasureError::Io,
        MeasureError::Resolution,
        MeasureError::Parse,
        MeasureError::Encoding,
    ];
    for kind in kinds {
        let mut walk = Walk::new("/p/r.ts");
        let _ = walk.next_pending();
        walk.fail(kind);
        match walk.finish() {
            Err(ReportError::Failed(e)) => assert_eq!(e, kind),
            _ => panic!("a failed run must surface its failure"),
        }
    }
}

#[test]
fn record_rejects_known_identity() {
    let mut walk = Walk::new("/p/r.ts");
    let p = walk.next_pending().expect("the root is pending");
    assert!(walk.record(record_for(&p, &[], "src", 1)));
    assert!(!walk.record(record_for(&p, &[], "src", 1)));
    assert_eq!(walk.visited_count(), 1);
    assert_eq!(walk.pending_count(), 0);
}

#[test]
fn record_normalizes_and_deduplicates_imports() {
    let r_imports: &[&str] = &["./a.ts", "a.ts", "./sub/../a.ts"];
    let files: Fixture = &[
        ("/p/r.ts", r_imports, "imports", 1),
        ("/p/a.ts", &[], "a", 1),
    ];
    let (popped, result) = run("/p/r.ts", files);
    assert_eq!(popped.len(), 2, "three spellings of one import resolve to one file");
    assert!(result.is_ok());
}

#[test]
fn oversized_totals_are_refused() {
    let r_imports: &[&str] = &["./a.ts"];
    let files: Fixture = &[
        ("/p/r.ts", r_imports, "r", usize::MAX),
        ("/p/a.ts", &[], "a", usize::MAX),
    ];
    let (_, result) = run("/p/r.ts", files);
    match result {
        Err(ReportError::TotalOverflow) => {}
        _ => panic!("totals past the machine word must be refused"),
    }
}
