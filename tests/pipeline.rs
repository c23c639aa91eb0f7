use redup::aggregate::Aggregator;
use redup::driver::{Event, Phase, PipelineDriver, Wait};
use redup::fingerprint::{fingerprint, Fingerprinter};
use redup::gate::ConcurrencyGate;

/// A file as the runner would meet it: a path, and its content or none where
/// it cannot be read.
struct FakeFile {
    path: String,
    content: Option<Vec<u8>>,
}

fn file(path: &str, content: &str) -> FakeFile {
    FakeFile { path: path.to_string(), content: Some(content.as_bytes().to_vec()) }
}

fn unreadable(path: &str) -> FakeFile {
    FakeFile { path: path.to_string(), content: None }
}

/// Drives one run to its end. Finished tasks are completed in an order chosen
/// by `pick` from those in flight. Returns the driver and the largest number of
/// tasks that were ever in flight at once.
fn run(files: &[FakeFile], limit: usize, pick: &dyn Fn(usize, usize) -> usize) -> (PipelineDriver, usize) {
    let mut d = PipelineDriver::new(limit);
    let mut step = d.handle(Event::RootsOpened);
    let mut next_file = 0usize;
    let mut in_flight: Vec<String> = Vec::new();
    let mut max_in_flight = 0usize;
    let mut round = 0usize;
    loop {
        if let Some(p) = step.spawn.take() {
            in_flight.push(p);
            max_in_flight = max_in_flight.max(in_flight.len());
        }
        assert_eq!(in_flight.len(), d.in_flight());
        assert!(d.in_flight() <= d.limit());
        let ev = match step.next {
            Wait::Roots => panic!("roots already opened"),
            Wait::NextPath => {
                if next_file < files.len() {
                    next_file += 1;
                    Event::Discovered(files[next_file - 1].path.clone())
                } else {
                    Event::DiscoveryEnded
                }
            }
            Wait::Completion => {
                let i = pick(round, in_flight.len());
                round += 1;
                let path = in_flight.remove(i);
                let f = files.iter().find(|f| f.path == path).unwrap();
                let fp = f.content.as_ref().map(|c| fingerprint(c));
                Event::TaskFinished { path, fingerprint: fp }
            }
            Wait::Nothing => break,
        };
        step = d.handle(ev);
    }
    (d, max_in_flight)
}

fn first(_: usize, _: usize) -> usize {
    0
}

fn last(_: usize, n: usize) -> usize {
    n - 1
}

fn scrambled(round: usize, n: usize) -> usize {
    (round * 7 + 3) % n
}

fn sorted_groups(a: &Aggregator) -> Vec<Vec<String>> {
    let mut gs: Vec<Vec<String>> = a
        .groups()
        .iter()
        .map(|g| {
            let mut p = g.paths.clone();
            p.sort();
            p
        })
        .collect();
    gs.sort();
    gs
}

#[test]
fn three_files_one_duplicate_set() {
    let files = vec![file("/r/A", "hello"), file("/r/B", "hello"), file("/r/C", "world")];
    let (d, _) = run(&files, 100, &first);
    assert_eq!(d.phase(), Phase::Aggregated);
    let a = d.aggregator();
    let s = a.summary();
    assert_eq!(s.files_hashed, 3);
    assert_eq!(s.unique_fingerprints, 2);
    assert_eq!(s.duplicate_groups, 1);
    assert_eq!(s.duplicate_files, 2);
    let dups: Vec<&Vec<String>> = a.groups().iter().filter(|g| g.is_duplicate_set()).map(|g| &g.paths).collect();
    assert_eq!(dups.len(), 1);
    assert_eq!(dups[0], &vec!["/r/A".to_string(), "/r/B".to_string()]);
    let singles: Vec<&Vec<String>> = a.groups().iter().filter(|g| !g.is_duplicate_set()).map(|g| &g.paths).collect();
    assert_eq!(singles, vec![&vec!["/r/C".to_string()]]);
}

#[test]
fn empty_directory_gives_empty_map() {
    let (d, max) = run(&[], 100, &first);
    assert_eq!(d.phase(), Phase::Aggregated);
    assert_eq!(max, 0);
    let s = d.aggregator().summary();
    assert_eq!(s.files_hashed, 0);
    assert_eq!(s.unique_fingerprints, 0);
    assert_eq!(s.duplicate_groups, 0);
    assert_eq!(s.duplicate_files, 0);
    assert!(d.aggregator().groups().is_empty());
    assert_eq!(d.dispatched(), 0);
    assert_eq!(d.failed(), 0);
}

#[test]
fn two_hundred_fifty_files_limit_one_hundred() {
    let files: Vec<FakeFile> = (0..250).map(|i| file(&format!("/r/f{:03}", i), &format!("content {}", i))).collect();
    for pick in [&first as &dyn Fn(usize, usize) -> usize, &last, &scrambled] {
        let (d, max) = run(&files, 100, pick);
        assert_eq!(d.phase(), Phase::Aggregated);
        assert!(max <= 100);
        assert_eq!(max, 100);
        let a = d.aggregator();
        assert_eq!(a.files_hashed(), 250);
        assert_eq!(a.unique_fingerprints(), 250);
        assert_eq!(a.duplicate_groups(), 0);
        let mut all: Vec<String> = a.groups().iter().flat_map(|g| g.paths.clone()).collect();
        all.sort();
        all.dedup();
        assert_eq!(all.len(), 250);
        assert_eq!(d.dispatched(), 250);
    }
}

#[test]
fn unreadable_file_is_absent() {
    let files = vec![file("/r/a", "x"), unreadable("/r/locked"), file("/r/b", "x"), file("/r/c", "y")];
    let (d, _) = run(&files, 2, &scrambled);
    assert_eq!(d.phase(), Phase::Aggregated);
    assert_eq!(d.failed(), 1);
    let a = d.aggregator();
    assert_eq!(a.files_hashed(), 3);
    assert!(a.groups().iter().all(|g| !g.paths.iter().any(|p| p == "/r/locked")));
    assert_eq!(sorted_groups(a), vec![vec!["/r/a".to_string(), "/r/b".to_string()], vec!["/r/c".to_string()]]);
}

#[test]
fn concurrency_never_exceeds_limit() {
    let files: Vec<FakeFile> = (0..20).map(|i| file(&format!("/r/{}", i), "same")).collect();
    for limit in [1usize, 3, 7, 50] {
        let (d, max) = run(&files, limit, &scrambled);
        assert!(max <= limit);
        assert_eq!(max, limit.min(20));
        assert_eq!(d.aggregator().duplicate_groups(), 1);
        assert_eq!(d.aggregator().duplicate_files(), 20);
    }
}

#[test]
fn path_waits_for_a_permit_when_all_are_held() {
    let mut d = PipelineDriver::new(1);
    let s = d.handle(Event::RootsOpened);
    assert!(s.spawn.is_none());
    assert_eq!(s.next, Wait::NextPath);
    let s = d.handle(Event::Discovered("/a".to_string()));
    assert_eq!(s.spawn, Some("/a".to_string()));
    assert_eq!(s.next, Wait::NextPath);
    let s = d.handle(Event::Discovered("/b".to_string()));
    assert!(s.spawn.is_none());
    assert_eq!(s.next, Wait::Completion);
    assert_eq!(d.in_flight(), 1);
    let s = d.handle(Event::TaskFinished { path: "/a".to_string(), fingerprint: Some(5) });
    assert_eq!(s.spawn, Some("/b".to_string()));
    assert_eq!(s.next, Wait::NextPath);
    assert_eq!(d.in_flight(), 1);
    let s = d.handle(Event::DiscoveryEnded);
    assert_eq!(s.next, Wait::Completion);
    assert_eq!(d.phase(), Phase::Draining);
    let s = d.handle(Event::TaskFinished { path: "/b".to_string(), fingerprint: Some(5) });
    assert_eq!(s.next, Wait::Nothing);
    assert_eq!(d.phase(), Phase::Aggregated);
    let a = d.into_result().ok().unwrap();
    assert_eq!(a.groups().len(), 1);
    assert_eq!(a.groups()[0].fingerprint, 5);
    assert_eq!(a.groups()[0].paths, vec!["/a".to_string(), "/b".to_string()]);
}

#[test]
fn rerun_in_another_order_keeps_membership() {
    let files = vec![
        file("/r/1", "a"),
        file("/r/2", "b"),
        file("/r/3", "a"),
        file("/r/4", "c"),
        file("/r/5", "b"),
        file("/r/6", "a"),
    ];
    let (d1, _) = run(&files, 3, &first);
    let (d2, _) = run(&files, 3, &last);
    let (d3, _) = run(&files, 2, &scrambled);
    assert_eq!(sorted_groups(d1.aggregator()), sorted_groups(d2.aggregator()));
    assert_eq!(sorted_groups(d1.aggregator()), sorted_groups(d3.aggregator()));
    assert_eq!(d1.aggregator().duplicate_groups(), 2);
    assert_eq!(d1.aggregator().duplicate_files(), 5);
}

#[test]
fn unique_contents_give_only_singletons() {
    let files = vec![file("/u/1", "one"), file("/u/2", "two"), file("/u/3", "three")];
    let (d, _) = run(&files, 10, &scrambled);
    let a = d.aggregator();
    assert_eq!(a.unique_fingerprints(), 3);
    assert!(a.groups().iter().all(|g| g.paths.len() == 1));
    assert_eq!(a.duplicate_groups(), 0);
    assert_eq!(a.duplicate_files(), 0);
}

#[test]
fn missing_root_fails_the_run() {
    let mut d = PipelineDriver::new(4);
    let s = d.handle(Event::RootUnavailable { root: "/nope".to_string(), cause: "not found".to_string() });
    assert!(s.spawn.is_none());
    assert_eq!(s.next, Wait::Nothing);
    assert_eq!(d.phase(), Phase::Failed);
    assert_eq!(d.dispatched(), 0);
    match d.into_result() {
        Err(e) => {
            assert_eq!(e.root, "/nope");
            assert_eq!(e.cause, "not found");
        }
        Ok(_) => panic!("a missing root must fail the run"),
    }
}

#[test]
fn events_out_of_place_change_nothing() {
    let mut d = PipelineDriver::new(2);
    let s = d.handle(Event::Discovered("/x".to_string()));
    assert!(s.spawn.is_none());
    assert_eq!(s.next, Wait::Roots);
    assert_eq!(d.phase(), Phase::Idle);
    let s = d.handle(Event::TaskFinished { path: "/x".to_string(), fingerprint: Some(1) });
    assert_eq!(s.next, Wait::Roots);
    assert_eq!(d.aggregator().files_hashed(), 0);
    d.handle(Event::RootsOpened);
    d.handle(Event::DiscoveryEnded);
    assert_eq!(d.phase(), Phase::Aggregated);
    let s = d.handle(Event::RootsOpened);
    assert_eq!(s.next, Wait::Nothing);
    assert_eq!(d.phase(), Phase::Aggregated);
}

#[test]
fn cancel_stops_dispatch_and_drains() {
    let mut d = PipelineDriver::new(1);
    d.handle(Event::RootsOpened);
    d.handle(Event::Discovered("/a".to_string()));
    let s = d.handle(Event::Discovered("/b".to_string()));
    assert!(s.spawn.is_none());
    let s = d.handle(Event::Cancel);
    assert!(s.spawn.is_none());
    assert_eq!(s.next, Wait::Completion);
    assert!(d.cancelled());
    assert_eq!(d.phase(), Phase::Draining);
    let s = d.handle(Event::TaskFinished { path: "/a".to_string(), fingerprint: None });
    assert!(s.spawn.is_none());
    assert_eq!(s.next, Wait::Nothing);
    assert_eq!(d.phase(), Phase::Aggregated);
    assert_eq!(d.dispatched(), 1);
    assert_eq!(d.failed(), 1);
    assert_eq!(d.aggregator().files_hashed(), 0);
}

#[test]
fn identical_content_identical_fingerprint() {
    assert_eq!(fingerprint(b"hello"), fingerprint(b"hello"));
    assert_ne!(fingerprint(b"hello"), fingerprint(b"world"));
    assert_ne!(fingerprint(b"hello"), fingerprint(b"hellp"));
    assert_eq!(fingerprint(b""), Fingerprinter::new().finish());
}

#[test]
fn fingerprint_ignores_read_sizes() {
    let content: Vec<u8> = (0..30000u32).map(|i| (i * 31 % 251) as u8).collect();
    let whole = fingerprint(&content);
    for cut in [1usize, 100, 4096, 8191, 8192, 8193, 20000] {
        let mut f = Fingerprinter::new();
        for chunk in content.chunks(cut) {
            f.absorb(chunk);
        }
        assert_eq!(f.finish(), whole);
    }
    let mut f = Fingerprinter::new();
    f.absorb(&content[..5]);
    f.absorb(&[]);
    f.absorb(&content[5..]);
    assert_eq!(f.finish(), whole);
    let exact: Vec<u8> = vec![7u8; 8192];
    let mut f = Fingerprinter::new();
    f.absorb(&exact[..8000]);
    f.absorb(&exact[8000..]);
    assert_eq!(f.finish(), fingerprint(&exact));
}

#[test]
fn fingerprint_differs_on_one_changed_byte() {
    let a: Vec<u8> = vec![1u8; 20000];
    let mut b = a.clone();
    b[15000] = 2;
    assert_ne!(fingerprint(&a), fingerprint(&b));
    let mut c = a.clone();
    c.push(1);
    assert_ne!(fingerprint(&a), fingerprint(&c));
}

#[test]
fn aggregator_appends_in_arrival_order() {
    let mut a = Aggregator::new();
    a.record(9, "/m1".to_string());
    a.record(4, "/m2".to_string());
    a.record(9, "/m3".to_string());
    a.record(9, "/m4".to_string());
    let gs = a.groups();
    assert_eq!(gs.len(), 2);
    assert_eq!(gs[0].fingerprint, 9);
    assert_eq!(gs[0].paths, vec!["/m1".to_string(), "/m3".to_string(), "/m4".to_string()]);
    assert_eq!(gs[1].fingerprint, 4);
    assert_eq!(gs[1].paths, vec!["/m2".to_string()]);
    assert_eq!(a.files_hashed(), 4);
    assert_eq!(a.unique_fingerprints(), 2);
    assert_eq!(a.duplicate_groups(), 1);
    assert_eq!(a.duplicate_files(), 3);
}

#[test]
fn gate_grants_up_to_its_limit() {
    let mut g = ConcurrencyGate::new(2);
    assert_eq!(g.available(), 2);
    assert!(g.try_acquire());
    assert!(g.try_acquire());
    assert!(!g.try_acquire());
    assert_eq!(g.in_use(), 2);
    assert_eq!(g.available(), 0);
    g.release();
    assert_eq!(g.in_use(), 1);
    assert!(g.try_acquire());
    assert_eq!(g.limit(), 2);
}
