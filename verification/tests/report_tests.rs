use dupfinder::record::FileRecord;
use dupfinder::record::DuplicateGroup;
use dupfinder::report::group_savings;
use dupfinder::report::compute_stats;
use dupfinder::report::summarize_groups;
use dupfinder::digest::partial_prefix_len;
use dupfinder::digest::digest_hex;
use dupfinder::pipeline::MemFile;
use dupfinder::pipeline::find_duplicates_in_memory;

fn group(paths: &[&str], size: u64) -> DuplicateGroup {
    let mut files = Vec::new();
    for p in paths {
        files.push(FileRecord::new(String::from(*p), size));
    }
    DuplicateGroup { files }
}

#[test]
fn savings_for_three_files_of_1024_bytes() {
    assert_eq!(group_savings(1024, 3), Some(2048));
}

#[test]
fn savings_keeps_one_copy() {
    assert_eq!(group_savings(10, 2), Some(10));
    assert_eq!(group_savings(0, 5), Some(0));
}

#[test]
fn savings_overflow_reported_as_none() {
    assert_eq!(group_savings(u64::MAX, 3), None);
    assert_eq!(group_savings(u64::MAX, 1), Some(0));
}

#[test]
fn stats_sum_over_groups() {
    let groups = vec![group(&["a", "b", "c"], 1024), group(&["d", "e"], 10)];
    let stats = compute_stats(&groups).expect("sums fit");
    assert_eq!(stats.total_duplicate_files, 5);
    assert_eq!(stats.deletable_files, 3);
    assert_eq!(stats.potential_space_savings, 2048 + 10);
}

#[test]
fn stats_of_no_groups_are_zero() {
    let groups: Vec<DuplicateGroup> = Vec::new();
    let stats = compute_stats(&groups).expect("empty sums fit");
    assert_eq!(stats.total_duplicate_files, 0);
    assert_eq!(stats.deletable_files, 0);
    assert_eq!(stats.potential_space_savings, 0);
}

#[test]
fn stats_overflow_reported_as_none() {
    let groups = vec![group(&["a", "b", "c"], u64::MAX)];
    assert!(compute_stats(&groups).is_none());
}

#[test]
fn summaries_number_groups_from_one() {
    let files = vec![
        MemFile { path: String::from("a"), storage_id: 1, content: b"pair one".to_vec() },
        MemFile { path: String::from("b"), storage_id: 2, content: b"pair one".to_vec() },
        MemFile { path: String::from("c"), storage_id: 3, content: b"pair two!".to_vec() },
        MemFile { path: String::from("d"), storage_id: 4, content: b"pair two!".to_vec() },
    ];
    let groups = find_duplicates_in_memory(&files, true);
    assert_eq!(groups.len(), 2);
    let summaries = summarize_groups(&groups);
    assert_eq!(summaries.len(), 2);
    assert_eq!(summaries[0].group_id, 1);
    assert_eq!(summaries[1].group_id, 2);
    assert_eq!(summaries[0].file_count, 2);
    assert_eq!(summaries[0].file_size, 8);
    let hex = summaries[0].md5_hash.clone().expect("full fingerprint present");
    assert_eq!(hex.len(), 32);
    assert!(hex.chars().all(|c| c.is_ascii_hexdigit()));
}

#[test]
fn summary_of_handmade_group_has_no_fingerprint() {
    let groups = vec![group(&["a", "b"], 7)];
    let summaries = summarize_groups(&groups);
    assert_eq!(summaries[0].md5_hash, None);
    assert_eq!(summaries[0].file_size, 7);
}

#[test]
fn group_accessors() {
    let g = group(&["a", "b", "c"], 42);
    assert_eq!(g.size(), 42);
    assert_eq!(g.len(), 3);
}

#[test]
fn partial_prefix_is_capped() {
    assert_eq!(partial_prefix_len(0), 0);
    assert_eq!(partial_prefix_len(100), 100);
    assert_eq!(partial_prefix_len(8192), 8192);
    assert_eq!(partial_prefix_len(100000), 8192);
}

#[test]
fn digest_hex_renders_two_digits_per_byte() {
    assert_eq!(digest_hex(&vec![]), "");
    assert_eq!(digest_hex(&vec![0x00, 0xff, 0x1a]), "00ff1a");
    assert_eq!(digest_hex(&vec![0xc3, 0xfc, 0xd3]), "c3fcd3");
}

#[test]
fn md5_of_known_input_matches_reference_digest() {
    let mut rec = FileRecord::new(String::from("x"), 26);
    rec.set_partial_hash(b"abcdefghijklmnopqrstuvwxyz");
    rec.set_full_hash(b"abcdefghijklmnopqrstuvwxyz");
    let partial = rec.partial_hash.clone().expect("set above");
    let full = rec.full_hash.clone().expect("set above");
    assert_eq!(digest_hex(&partial), "c3fcd3d76192e4007dfb496cca67e13b");
    assert_eq!(digest_hex(&full), "c3fcd3d76192e4007dfb496cca67e13b");
    assert_eq!(full.len(), 16);
}

#[test]
fn different_bytes_different_digests() {
    let mut r1 = FileRecord::new(String::from("x"), 3);
    r1.set_partial_hash(b"abc");
    let mut r2 = FileRecord::new(String::from("y"), 3);
    r2.set_partial_hash(b"abd");
    assert_ne!(r1.partial_hash, r2.partial_hash);
}
