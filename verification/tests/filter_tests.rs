use dupfinder::filtering::DupFinder;
use dupfinder::record::EntryInfo;
use dupfinder::record::sized_records;
use dupfinder::bucket::group_by_size;
use dupfinder::pipeline::MemFile;
use dupfinder::pipeline::find_duplicates_in_memory;

fn finder(globs: &[&str], regex: Option<&str>) -> DupFinder {
    DupFinder::new(
        false,
        false,
        false,
        false,
        String::from("/base"),
        globs.iter().map(|g| String::from(*g)).collect(),
        regex.map(String::from),
    )
}

fn entry(path: &str, name: &str, depth: usize, is_file: bool, size: Option<u64>) -> EntryInfo {
    EntryInfo {
        path: String::from(path),
        name: Some(String::from(name)),
        depth,
        is_file,
        size,
    }
}

#[test]
fn no_filter_accepts_everything() {
    let f = finder(&[], None);
    assert!(f.should_include_file(&Some(String::from("anything.bin"))));
    assert!(f.should_include_file(&None));
}

#[test]
fn glob_filter_selects_by_name() {
    let f = finder(&["*.txt"], None);
    assert!(f.should_include_file(&Some(String::from("notes.txt"))));
    assert!(!f.should_include_file(&Some(String::from("photo.jpg"))));
    assert!(!f.should_include_file(&None));
}

#[test]
fn regex_filter_selects_by_name() {
    let f = finder(&[], Some(r"^data_[0-9]+$"));
    assert!(f.should_include_file(&Some(String::from("data_12"))));
    assert!(!f.should_include_file(&Some(String::from("data_x"))));
}

#[test]
fn glob_and_regex_are_combined_with_or() {
    let f = finder(&["*.txt"], Some(r"\.jpg$"));
    assert!(f.should_include_file(&Some(String::from("a.txt"))));
    assert!(f.should_include_file(&Some(String::from("b.jpg"))));
    assert!(!f.should_include_file(&Some(String::from("c.png"))));
}

#[test]
fn invalid_patterns_match_nothing() {
    let f = finder(&["["], None);
    assert!(!f.should_include_file(&Some(String::from("anything"))));
    let f = finder(&[], Some("("));
    assert!(!f.should_include_file(&Some(String::from("anything"))));
}

#[test]
fn oversized_glob_pattern_matches_nothing() {
    // A syntactically valid glob whose compiled form exceeds the regex
    // size limit: the build failure must count as "matches nothing", not
    // end the process.
    let huge = "a?".repeat(2_000_000);
    let f = finder(&[huge.as_str()], None);
    assert!(!f.should_include_file(&Some(String::from("x.txt"))));
}

#[test]
fn oversized_regex_pattern_matches_nothing() {
    let huge = format!("^{}$", "a?".repeat(2_000_000));
    let f = finder(&[], Some(huge.as_str()));
    assert!(!f.should_include_file(&Some(String::from("x.txt"))));
}

#[test]
fn glob_excludes_identical_jpg_pair_entirely() {
    // Identical .jpg contents, but the *.txt filter runs before size
    // bucketing: the pair reaches no stage at all.
    let f = finder(&["*.txt"], None);
    let entries = vec![
        entry("/base/x.jpg", "x.jpg", 1, true, Some(9)),
        entry("/base/y.jpg", "y.jpg", 1, true, Some(9)),
        entry("/base/z.txt", "z.txt", 1, true, Some(3)),
    ];
    let selected = f.select_candidates(true, entries);
    assert_eq!(selected.len(), 1);
    assert_eq!(selected[0].path, "/base/z.txt");

    let contents: &[(&str, &[u8])] =
        &[("/base/x.jpg", b"same bytes"), ("/base/y.jpg", b"same bytes"), ("/base/z.txt", b"abc")];
    let mut id: u64 = 0;
    let mut mem: Vec<MemFile> = Vec::new();
    for e in &selected {
        for (p, c) in contents {
            if *p == e.path {
                id += 1;
                mem.push(MemFile { path: e.path.clone(), storage_id: id, content: c.to_vec() });
            }
        }
    }
    let groups = find_duplicates_in_memory(&mem, false);
    assert_eq!(groups.len(), 0);
}

#[test]
fn non_recursive_skips_subdirectory_duplicates() {
    let f = finder(&[], None);
    let entries = vec![
        entry("/base/u.bin", "u.bin", 1, true, Some(7)),
        entry("/base/sub/d1.bin", "d1.bin", 2, true, Some(7)),
        entry("/base/sub/d2.bin", "d2.bin", 2, true, Some(7)),
    ];
    let selected = f.select_candidates(false, entries);
    assert_eq!(selected.len(), 1);
    assert_eq!(selected[0].path, "/base/u.bin");

    let mem: Vec<MemFile> = selected
        .iter()
        .enumerate()
        .map(|(i, e)| MemFile {
            path: e.path.clone(),
            storage_id: i as u64,
            content: b"7 bytes".to_vec(),
        })
        .collect();
    let groups = find_duplicates_in_memory(&mem, false);
    assert_eq!(groups.len(), 0);
}

#[test]
fn recursive_mode_keeps_subdirectory_entries() {
    let f = finder(&[], None);
    let entries = vec![
        entry("/base/sub/d1.bin", "d1.bin", 2, true, Some(7)),
        entry("/base/sub/d2.bin", "d2.bin", 2, true, Some(7)),
    ];
    let selected = f.select_candidates(true, entries);
    assert_eq!(selected.len(), 2);
}

#[test]
fn directories_and_unnamed_entries_are_skipped() {
    let f = finder(&["*.txt"], None);
    let entries = vec![
        entry("/base/d", "d", 1, false, None),
        entry("/base/a.txt", "a.txt", 1, true, Some(1)),
    ];
    let selected = f.select_candidates(true, entries);
    assert_eq!(selected.len(), 1);

    let f2 = finder(&["*"], None);
    let nameless = vec![EntryInfo {
        path: String::from("/base/odd"),
        name: None,
        depth: 1,
        is_file: true,
        size: Some(4),
    }];
    let selected = f2.select_candidates(true, nameless);
    assert_eq!(selected.len(), 0);
}

#[test]
fn sized_records_skips_failed_stats() {
    let entries = vec![
        entry("/base/a", "a", 1, true, Some(10)),
        entry("/base/b", "b", 1, true, None),
        entry("/base/c", "c", 1, true, Some(0)),
    ];
    let records = sized_records(entries);
    assert_eq!(records.len(), 2);
    assert_eq!(records[0].path, "/base/a");
    assert_eq!(records[0].size, 10);
    assert_eq!(records[1].path, "/base/c");
    assert_eq!(records[1].size, 0);
}

#[test]
fn size_bucketing_drops_empty_files_and_singletons() {
    let entries = vec![
        entry("/a", "a", 1, true, Some(3)),
        entry("/b", "b", 1, true, Some(3)),
        entry("/c", "c", 1, true, Some(5)),
        entry("/d", "d", 1, true, Some(0)),
        entry("/e", "e", 1, true, Some(0)),
    ];
    let records = sized_records(entries);
    let buckets = group_by_size(records);
    assert_eq!(buckets.len(), 1);
    assert_eq!(buckets[0].size, 3);
    assert_eq!(buckets[0].files.len(), 2);
    assert_eq!(buckets[0].files[0].path, "/a");
    assert_eq!(buckets[0].files[1].path, "/b");
}
