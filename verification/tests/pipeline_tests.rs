use dupfinder::pipeline::MemFile;
use dupfinder::pipeline::find_duplicates_in_memory;

fn mem(path: &str, storage_id: u64, content: &[u8]) -> MemFile {
    MemFile { path: String::from(path), storage_id, content: content.to_vec() }
}

#[test]
fn three_identical_files_one_group() {
    let files = vec![
        mem("a", 1, b"same content"),
        mem("b", 2, b"same content"),
        mem("c", 3, b"same content"),
    ];
    let groups = find_duplicates_in_memory(&files, true);
    assert_eq!(groups.len(), 1);
    assert_eq!(groups[0].files.len(), 3);
    assert_eq!(groups[0].files[0].path, "a");
    assert_eq!(groups[0].files[1].path, "b");
    assert_eq!(groups[0].files[2].path, "c");
}

#[test]
fn unique_files_zero_groups() {
    let files = vec![
        mem("a", 1, b"alpha"),
        mem("b", 2, b"bravo"),
        mem("c", 3, b"charlie file"),
    ];
    let groups = find_duplicates_in_memory(&files, true);
    assert_eq!(groups.len(), 0);
}

#[test]
fn empty_scan_zero_groups() {
    let files: Vec<MemFile> = Vec::new();
    let groups = find_duplicates_in_memory(&files, true);
    assert_eq!(groups.len(), 0);
}

#[test]
fn zero_byte_files_never_grouped() {
    let files = vec![mem("a", 1, b""), mem("b", 2, b""), mem("c", 3, b"")];
    let groups = find_duplicates_in_memory(&files, true);
    assert_eq!(groups.len(), 0);
}

#[test]
fn distinct_sizes_never_grouped() {
    let files = vec![
        mem("a", 1, b"aa"),
        mem("b", 2, b"aaa"),
        mem("c", 3, b"aa"),
    ];
    let groups = find_duplicates_in_memory(&files, true);
    assert_eq!(groups.len(), 1);
    assert_eq!(groups[0].files.len(), 2);
    assert_eq!(groups[0].files[0].path, "a");
    assert_eq!(groups[0].files[1].path, "c");
    for g in &groups {
        let s = g.files[0].size;
        for f in &g.files {
            assert_eq!(f.size, s);
        }
    }
}

#[test]
fn same_size_different_content_not_grouped() {
    let files = vec![mem("a", 1, b"abcd"), mem("b", 2, b"abce")];
    let groups = find_duplicates_in_memory(&files, true);
    assert_eq!(groups.len(), 0);
}

#[test]
fn hardlink_pair_excluded_when_disabled() {
    let files = vec![mem("a", 7, b"linked data"), mem("b", 7, b"linked data")];
    let groups = find_duplicates_in_memory(&files, false);
    assert_eq!(groups.len(), 0);
}

#[test]
fn hardlink_pair_included_when_enabled() {
    let files = vec![mem("a", 7, b"linked data"), mem("b", 7, b"linked data")];
    let groups = find_duplicates_in_memory(&files, true);
    assert_eq!(groups.len(), 1);
    assert_eq!(groups[0].files.len(), 2);
}

#[test]
fn hardlink_excluded_but_true_copy_kept() {
    let files = vec![
        mem("a", 7, b"linked data"),
        mem("b", 7, b"linked data"),
        mem("c", 9, b"linked data"),
    ];
    let groups = find_duplicates_in_memory(&files, false);
    assert_eq!(groups.len(), 1);
    assert_eq!(groups[0].files.len(), 2);
    assert_eq!(groups[0].files[0].path, "a");
    assert_eq!(groups[0].files[1].path, "c");
}

#[test]
fn large_files_past_partial_prefix_grouped() {
    let big1 = vec![0x5a_u8; 10000];
    let big2 = big1.clone();
    let mut big3 = big1.clone();
    big3[9999] = 0x5b;
    let files = vec![
        mem("a", 1, &big1),
        mem("b", 2, &big2),
        mem("c", 3, &big3),
    ];
    let groups = find_duplicates_in_memory(&files, true);
    assert_eq!(groups.len(), 1);
    assert_eq!(groups[0].files.len(), 2);
    assert_eq!(groups[0].files[0].path, "a");
    assert_eq!(groups[0].files[1].path, "b");
}

#[test]
fn two_distinct_groups_reported() {
    let files = vec![
        mem("a", 1, b"first pair"),
        mem("b", 2, b"second pair!"),
        mem("c", 3, b"first pair"),
        mem("d", 4, b"second pair!"),
        mem("e", 5, b"on its own"),
    ];
    let groups = find_duplicates_in_memory(&files, true);
    assert_eq!(groups.len(), 2);
    for g in &groups {
        assert_eq!(g.files.len(), 2);
    }
}
