use file_searcher::record::SearchSuccess;
use file_searcher::walker::{
    stack_children, traverse_entry, Outcome, Pending, Probe, WalkError, Walker,
};

fn triples(found: &[SearchSuccess]) -> Vec<(String, usize, usize)> {
    found.iter().map(|m| (m.file_name.clone(), m.line, m.column)).collect()
}

fn file(name: &str, contents: &[u8]) -> Probe<&'static str> {
    Probe::File {
        base_name: Some(name.to_string()),
        full_path: format!("/r/{}", name),
        contents: Some(contents.to_vec()),
    }
}

fn dir(children: Vec<Option<&'static str>>) -> Probe<&'static str> {
    Probe::Directory { children: Some(children) }
}

fn next_path(walker: &Walker<&'static str>) -> Option<(&'static str, usize)> {
    walker.next_entry().map(|entry| (entry.path, entry.depth_remaining))
}

#[test]
fn stack_children_puts_first_child_last() {
    let stacked = stack_children(vec![Some("a"), None, Some("b"), Some("c")], 2);
    let paths: Vec<(&str, usize)> = stacked.iter().map(|p| (p.path, p.depth_remaining)).collect();
    assert_eq!(paths, vec![("c", 2), ("b", 2), ("a", 2)]);
}

#[test]
fn stack_children_of_empty_listing_is_empty() {
    let stacked = stack_children(Vec::<Option<&str>>::new(), 0);
    assert!(stacked.is_empty());
}

#[test]
fn pending_descends_only_with_budget() {
    assert!(Pending { path: "d", depth_remaining: 1 }.descends());
    assert!(!Pending { path: "d", depth_remaining: 0 }.descends());
}

#[test]
fn traverse_entry_scans_a_file_at_any_depth() {
    let step = traverse_entry(file("a.txt", b"hello world\ngoodbye\n"), 0, "hello");
    assert_eq!(step.outcome, Outcome::Scanned);
    assert!(step.descend.is_empty());
    assert_eq!(triples(&step.found), vec![("a.txt".to_string(), 1, 0)]);
}

#[test]
fn traverse_entry_falls_back_to_full_path() {
    let probe: Probe<&str> = Probe::File {
        base_name: None,
        full_path: "/r/..".to_string(),
        contents: Some(b"x\nfind me\n".to_vec()),
    };
    let step = traverse_entry(probe, 3, "me");
    assert_eq!(triples(&step.found), vec![("/r/..".to_string(), 2, 5)]);
}

#[test]
fn traverse_entry_file_that_does_not_open() {
    let probe: Probe<&str> =
        Probe::File { base_name: Some("a".to_string()), full_path: "/a".to_string(), contents: None };
    let step = traverse_entry(probe, 3, "a");
    assert_eq!(step.outcome, Outcome::FileOpenFailed);
    assert!(step.found.is_empty());
    assert!(step.descend.is_empty());
}

#[test]
fn traverse_entry_lists_directory_with_one_level_less() {
    let step = traverse_entry(dir(vec![Some("x"), Some("y")]), 3, "a");
    assert_eq!(step.outcome, Outcome::Listed);
    assert!(step.found.is_empty());
    let paths: Vec<(&str, usize)> =
        step.descend.iter().map(|p| (p.path, p.depth_remaining)).collect();
    assert_eq!(paths, vec![("y", 2), ("x", 2)]);
}

#[test]
fn traverse_entry_does_not_enter_directory_at_depth_zero() {
    let step = traverse_entry(dir(vec![Some("x"), Some("y")]), 0, "a");
    assert_eq!(step.outcome, Outcome::MaxDepthReached);
    assert!(step.descend.is_empty());
    assert!(step.found.is_empty());
}

#[test]
fn traverse_entry_directory_that_does_not_list() {
    let probe: Probe<&str> = Probe::Directory { children: None };
    let step = traverse_entry(probe, 2, "a");
    assert_eq!(step.outcome, Outcome::DirectoryListFailed);
    assert!(step.descend.is_empty());
    let probe: Probe<&str> = Probe::Directory { children: None };
    assert_eq!(traverse_entry(probe, 0, "a").outcome, Outcome::MaxDepthReached);
}

#[test]
fn traverse_entry_unreadable_and_other_contribute_nothing() {
    let step = traverse_entry(Probe::<&str>::Unreadable, 2, "a");
    assert_eq!(step.outcome, Outcome::EntryUnreadable);
    assert!(step.found.is_empty() && step.descend.is_empty());
    let step = traverse_entry(Probe::<&str>::Other, 2, "a");
    assert_eq!(step.outcome, Outcome::UnsupportedEntryKind);
    assert!(step.found.is_empty() && step.descend.is_empty());
}

#[test]
fn walker_refuses_unreadable_root() {
    let made = Walker::<&str>::new(None, 10, "x".to_string());
    assert!(matches!(made, Err(WalkError::RootDirectoryUnreadable)));
}

#[test]
fn walker_over_empty_root_is_done_at_once() {
    let mut walker = Walker::<&str>::new(Some(vec![]), 10, "x".to_string()).unwrap();
    assert!(walker.next_entry().is_none());
    assert_eq!(walker.advance(Probe::Other), None);
    assert!(walker.into_matches().is_empty());
}

#[test]
fn walker_single_file_hello() {
    let mut walker = Walker::new(Some(vec![Some("/r/a.txt")]), 10, "hello".to_string()).unwrap();
    assert_eq!(next_path(&walker), Some(("/r/a.txt", 10)));
    assert_eq!(walker.advance(file("a.txt", b"hello world\ngoodbye\n")), Some(Outcome::Scanned));
    assert!(walker.next_entry().is_none());
    assert_eq!(triples(&walker.into_matches()), vec![("a.txt".to_string(), 1, 0)]);
}

#[test]
fn walker_stops_at_depth_limit() {
    // The walk starts at /r itself with one level to spend.
    let mut walker = Walker::new(Some(vec![Some("/r")]), 1, "key".to_string()).unwrap();
    assert_eq!(next_path(&walker), Some(("/r", 1)));
    assert_eq!(
        walker.advance(dir(vec![Some("/r/top.txt"), Some("/r/sub")])),
        Some(Outcome::Listed)
    );
    assert_eq!(next_path(&walker), Some(("/r/top.txt", 0)));
    assert_eq!(walker.advance(file("top.txt", b"the key\n")), Some(Outcome::Scanned));
    assert_eq!(next_path(&walker), Some(("/r/sub", 0)));
    assert!(!walker.next_entry().unwrap().descends());
    // Even a listing handed in by mistake is not entered.
    assert_eq!(walker.advance(dir(vec![Some("/r/sub/sub2")])), Some(Outcome::MaxDepthReached));
    assert!(walker.next_entry().is_none());
    assert_eq!(triples(&walker.into_matches()), vec![("top.txt".to_string(), 1, 4)]);
}

#[test]
fn walker_visits_depth_first_in_listing_order() {
    let mut walker =
        Walker::new(Some(vec![Some("a"), Some("d"), Some("z")]), 2, "k".to_string()).unwrap();
    assert_eq!(next_path(&walker), Some(("a", 2)));
    assert_eq!(walker.advance(file("a", b"k\n")), Some(Outcome::Scanned));
    assert_eq!(next_path(&walker), Some(("d", 2)));
    assert_eq!(walker.advance(dir(vec![Some("d/1"), Some("d/e"), Some("d/2")])), Some(Outcome::Listed));
    assert_eq!(next_path(&walker), Some(("d/1", 1)));
    assert_eq!(walker.advance(file("1", b"-\n-k\n")), Some(Outcome::Scanned));
    assert_eq!(next_path(&walker), Some(("d/e", 1)));
    assert_eq!(walker.advance(dir(vec![Some("d/e/x")])), Some(Outcome::Listed));
    assert_eq!(next_path(&walker), Some(("d/e/x", 0)));
    assert_eq!(walker.advance(file("x", b"--k")), Some(Outcome::Scanned));
    assert_eq!(next_path(&walker), Some(("d/2", 1)));
    assert_eq!(walker.advance(file("2", b"none\n")), Some(Outcome::Scanned));
    assert_eq!(next_path(&walker), Some(("z", 2)));
    assert_eq!(walker.advance(file("z", b"\n\nk")), Some(Outcome::Scanned));
    assert!(walker.next_entry().is_none());
    assert_eq!(
        triples(&walker.into_matches()),
        vec![
            ("a".to_string(), 1, 0),
            ("1".to_string(), 2, 1),
            ("x".to_string(), 1, 2),
            ("z".to_string(), 3, 0)
        ]
    );
}

#[test]
fn walker_failed_entries_do_not_stop_siblings() {
    let mut walker = Walker::new(
        Some(vec![Some("bad"), None, Some("locked"), Some("link"), Some("closed"), Some("ok")]),
        5,
        "k".to_string(),
    )
    .unwrap();
    assert_eq!(next_path(&walker), Some(("bad", 5)));
    assert_eq!(walker.advance(Probe::Unreadable), Some(Outcome::EntryUnreadable));
    assert_eq!(next_path(&walker), Some(("locked", 5)));
    assert_eq!(
        walker.advance(Probe::Directory { children: None }),
        Some(Outcome::DirectoryListFailed)
    );
    assert_eq!(next_path(&walker), Some(("link", 5)));
    assert_eq!(walker.advance(Probe::Other), Some(Outcome::UnsupportedEntryKind));
    assert_eq!(next_path(&walker), Some(("closed", 5)));
    assert_eq!(
        walker.advance(Probe::File {
            base_name: Some("closed".to_string()),
            full_path: "closed".to_string(),
            contents: None
        }),
        Some(Outcome::FileOpenFailed)
    );
    assert_eq!(next_path(&walker), Some(("ok", 5)));
    assert_eq!(walker.advance(file("ok", b"k")), Some(Outcome::Scanned));
    assert!(walker.next_entry().is_none());
    assert_eq!(triples(&walker.into_matches()), vec![("ok".to_string(), 1, 0)]);
}

#[test]
fn walker_depth_zero_still_scans_root_files() {
    let mut walker =
        Walker::new(Some(vec![Some("f"), Some("d")]), 0, "k".to_string()).unwrap();
    assert_eq!(walker.advance(file("f", b"k\n")), Some(Outcome::Scanned));
    assert_eq!(walker.advance(dir(vec![Some("d/f")])), Some(Outcome::MaxDepthReached));
    assert!(walker.next_entry().is_none());
    assert_eq!(triples(&walker.into_matches()), vec![("f".to_string(), 1, 0)]);
}

#[test]
fn walker_same_probes_same_records() {
    let run = || {
        let mut walker = Walker::new(Some(vec![Some("d")]), 1, "ab".to_string()).unwrap();
        walker.advance(dir(vec![Some("d/1"), Some("d/2")]));
        walker.advance(file("1", b"ab\n"));
        walker.advance(file("2", b"cab\n"));
        triples(&walker.into_matches())
    };
    assert_eq!(run(), run());
    assert_eq!(run(), vec![("1".to_string(), 1, 0), ("2".to_string(), 1, 1)]);
}
