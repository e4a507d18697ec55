use dupfinder::bucket::HashBucket;
use dupfinder::record::FileRecord;
use dupfinder::verify::PairEvidence;
use dupfinder::verify::verify_bucket;
use dupfinder::verify::verify_bucket_with_evidence;
use dupfinder::digest::bytes_equal;

fn record(path: &str, size: u64) -> FileRecord {
    FileRecord::new(String::from(path), size)
}

fn bucket_of(paths: &[&str], size: u64) -> HashBucket {
    let mut files = Vec::new();
    for p in paths {
        files.push(record(p, size));
    }
    HashBucket { size, hash: vec![0u8; 16], files }
}

#[test]
fn digest_collision_rejected_by_byte_verification() {
    // Two records sharing one fingerprint bucket whose contents differ:
    // byte verification must not report them as duplicates.
    let bucket = bucket_of(&["a", "b"], 4);
    let anchor = Some(b"AAAA".to_vec());
    let evidence = vec![PairEvidence { same_storage: false, content: Some(b"BBBB".to_vec()) }];
    let out = verify_bucket_with_evidence(bucket, anchor, evidence, true);
    assert!(out.is_none());
}

#[test]
fn byte_identical_pair_confirmed() {
    let bucket = bucket_of(&["a", "b"], 4);
    let anchor = Some(b"AAAA".to_vec());
    let evidence = vec![PairEvidence { same_storage: false, content: Some(b"AAAA".to_vec()) }];
    let out = verify_bucket_with_evidence(bucket, anchor, evidence, false);
    let g = out.expect("byte-identical pair should form a group");
    assert_eq!(g.files.len(), 2);
    assert_eq!(g.files[0].path, "a");
    assert_eq!(g.files[1].path, "b");
}

#[test]
fn unreadable_member_skipped() {
    let bucket = bucket_of(&["a", "b", "c"], 4);
    let anchor = Some(b"AAAA".to_vec());
    let evidence = vec![
        PairEvidence { same_storage: false, content: None },
        PairEvidence { same_storage: false, content: Some(b"AAAA".to_vec()) },
    ];
    let out = verify_bucket_with_evidence(bucket, anchor, evidence, true);
    let g = out.expect("the readable copy should still be confirmed");
    assert_eq!(g.files.len(), 2);
    assert_eq!(g.files[1].path, "c");
}

#[test]
fn unreadable_anchor_drops_bucket() {
    let bucket = bucket_of(&["a", "b"], 4);
    let evidence = vec![PairEvidence { same_storage: false, content: Some(b"AAAA".to_vec()) }];
    let out = verify_bucket_with_evidence(bucket, None, evidence, true);
    assert!(out.is_none());
}

#[test]
fn hardlink_evidence_respected() {
    let bucket = bucket_of(&["a", "b"], 4);
    let anchor = Some(b"AAAA".to_vec());
    let evidence = vec![PairEvidence { same_storage: true, content: Some(b"AAAA".to_vec()) }];
    let out = verify_bucket_with_evidence(bucket, anchor, evidence, false);
    assert!(out.is_none());

    let bucket = bucket_of(&["a", "b"], 4);
    let anchor = Some(b"AAAA".to_vec());
    let evidence = vec![PairEvidence { same_storage: true, content: Some(b"AAAA".to_vec()) }];
    let out = verify_bucket_with_evidence(bucket, anchor, evidence, true);
    assert!(out.is_some());
}

#[test]
fn verify_bucket_on_plain_contents() {
    // Paths that exist nowhere: the same-storage lookup fails, which must
    // count as "not the same file", so the pair is still confirmed.
    let bucket = bucket_of(&["dupfinder-test-missing-a", "dupfinder-test-missing-b"], 4);
    let anchor = Some(b"AAAA".to_vec());
    let contents = vec![Some(b"AAAA".to_vec())];
    let out = verify_bucket(bucket, anchor, contents, false);
    let g = out.expect("distinct missing paths are not one storage object");
    assert_eq!(g.files.len(), 2);
}

#[test]
fn bytes_equal_cases() {
    assert!(bytes_equal(b"", b""));
    assert!(bytes_equal(b"abc", b"abc"));
    assert!(!bytes_equal(b"abc", b"abd"));
    assert!(!bytes_equal(b"abc", b"abcd"));
    assert!(!bytes_equal(b"", b"x"));
}
