use redup::aggregate::Aggregator;
use redup::discover::{roots_from_lines, Discoverer, WalkEntry};
use redup::report::{
    duplicate_sets, print_results, print_results_csv, print_results_db, print_results_text,
    OutputFormat, Rendered,
};

fn sample() -> Aggregator {
    let mut a = Aggregator::new();
    a.record(0xab, "/d/x".to_string());
    a.record(0x10, "/d/solo".to_string());
    a.record(0xab, "/d/y".to_string());
    a.record(0x20, "/d/p".to_string());
    a.record(0x20, "/d/q".to_string());
    a.record(0x20, "/d/r".to_string());
    a
}

fn strings(v: &[&str]) -> Vec<String> {
    v.iter().map(|s| s.to_string()).collect()
}

#[test]
fn text_lists_each_duplicate_set() {
    let lines = print_results_text(&sample(), false);
    assert_eq!(
        lines,
        strings(&["", "DUPLICATES FOUND!", "-", "/d/x", "/d/y", "-", "/d/p", "/d/q", "/d/r"])
    );
    let quiet = print_results_text(&sample(), true);
    assert_eq!(quiet, strings(&["-", "/d/x", "/d/y", "-", "/d/p", "/d/q", "/d/r"]));
}

#[test]
fn text_without_duplicates() {
    let mut a = Aggregator::new();
    a.record(1, "/only".to_string());
    assert_eq!(print_results_text(&a, false), strings(&["", "No Duplicates Found!"]));
    assert!(print_results_text(&a, true).is_empty());
    assert_eq!(print_results_text(&Aggregator::new(), false), strings(&["", "No Duplicates Found!"]));
}

#[test]
fn csv_rows_number_the_sets_from_one() {
    let rows = print_results_csv(&sample());
    let got: Vec<(u64, String, u64)> = rows.into_iter().map(|r| (r.fingerprint, r.path, r.group_id)).collect();
    assert_eq!(
        got,
        vec![
            (0xab, "/d/x".to_string(), 1),
            (0xab, "/d/y".to_string(), 1),
            (0x20, "/d/p".to_string(), 2),
            (0x20, "/d/q".to_string(), 2),
            (0x20, "/d/r".to_string(), 2),
        ]
    );
    assert!(print_results_csv(&Aggregator::new()).is_empty());
}

#[test]
fn db_gets_the_duplicate_sets() {
    let sets = print_results_db(&sample());
    assert_eq!(sets.len(), 2);
    assert_eq!(sets[0].fingerprint, 0xab);
    assert_eq!(sets[0].paths, strings(&["/d/x", "/d/y"]));
    assert_eq!(sets[1].fingerprint, 0x20);
    assert_eq!(sets[1].paths, strings(&["/d/p", "/d/q", "/d/r"]));
    assert_eq!(duplicate_sets(&sample()).len(), 2);
}

#[test]
fn print_results_follows_the_format() {
    let a = sample();
    match print_results(&a, OutputFormat::Text, true) {
        Rendered::Text(lines) => assert_eq!(lines.len(), 7),
        _ => panic!("text expected"),
    }
    match print_results(&a, OutputFormat::Csv, false) {
        Rendered::Csv(rows) => assert_eq!(rows.len(), 5),
        _ => panic!("rows expected"),
    }
    match print_results(&a, OutputFormat::Db, false) {
        Rendered::Db(sets) => assert_eq!(sets.len(), 2),
        _ => panic!("sets expected"),
    }
}

#[test]
fn discoverer_emits_files_only() {
    let mut d = Discoverer::new();
    assert_eq!(d.route(WalkEntry::Directory("/r".to_string())), None);
    assert_eq!(d.route(WalkEntry::File("/r/a".to_string())), Some("/r/a".to_string()));
    assert_eq!(
        d.route(WalkEntry::Unreadable { path: "/r/secret".to_string(), cause: "denied".to_string() }),
        None
    );
    assert_eq!(d.route(WalkEntry::File("/r/b".to_string())), Some("/r/b".to_string()));
    assert_eq!(d.files(), 2);
    assert_eq!(d.directories(), 1);
    assert_eq!(d.skipped(), 1);
}

#[test]
fn path_list_skips_empty_lines() {
    let roots = roots_from_lines(&strings(&["/a", "", "/b/c", ""]));
    assert_eq!(roots, strings(&["/a", "/b/c"]));
    assert!(roots_from_lines(&Vec::new()).is_empty());
}
