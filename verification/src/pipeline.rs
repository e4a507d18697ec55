//! The whole pipeline run over in-memory files: size partitioning, the
//! two digest stages, and byte-exact confirmation, sequenced exactly as a
//! disk scan runs them.  A caller with file contents in hand gets the
//! confirmed groups with the pipeline's guarantees proved end to end:
//! every reported member is byte-identical to its group's anchor and
//! carries the digests of its content and hashed prefix, no empty file
//! and no two files of different sizes are ever grouped, no path is
//! reported twice, hard-link pairs (two paths with one storage
//! identifier) are excluded when hard-link inclusion is off, and, digest
//! collisions aside, no duplicate pair goes unreported — landing whole
//! in one group whenever hard links are included.

use vstd::prelude::*;
use crate::record::FileRecord;
use crate::record::DuplicateGroup;
use crate::record::distinct_paths;
use crate::bucket::size_bucket_exact;
use crate::bucket::size_bucket_wf;
use crate::bucket::hash_bucket_wf;
use crate::bucket::hash_bucket_members_match;
use crate::bucket::HashBucket;
use crate::bucket::with_size;
use crate::bucket::with_digest;
use crate::bucket::refines_size_bucket;
use crate::bucket::refines_hash_bucket;
use crate::bucket::lemma_filter_members;
use crate::bucket::group_by_size;
use crate::bucket::group_by_partial_hash;
use crate::bucket::group_by_full_hash;
use crate::verify::PairEvidence;
use crate::verify::confirmed;
use crate::verify::confirmed_members;
use crate::verify::member_confirmed_from;
use crate::verify::verify_bucket_with_evidence;
use crate::verify::lemma_confirmed_members_sound;
use crate::verify::lemma_confirmed_members_complete;
use crate::verify::lemma_confirmed_members_distinct_paths;
use crate::digest::copy_bytes;

verus! {

/// One file held in memory: its path (unique within a scan), the
/// identifier of its storage object (two hard-linked paths share one),
/// and its content.
#[derive(Clone, Debug)]
pub struct MemFile {
    pub path: String,
    pub storage_id: u64,
    pub content: Vec<u8>,
}

/// Within one scan a path identifies a file.
pub open spec fn mem_distinct_paths(files: Seq<MemFile>) -> bool {
    forall|i1: int, i2: int|
        #![trigger files[i1], files[i2]]
        0 <= i1 < i2 < files.len() ==> files[i1].path@ != files[i2].path@
}

/// Some scanned file has this path.
pub open spec fn has_path(files: Seq<MemFile>, path: Seq<char>) -> bool {
    exists|p: int| 0 <= p < files.len() && (#[trigger] files[p]).path@ == path
}

/// The index of the scanned file with this path.
pub open spec fn path_index(files: Seq<MemFile>, path: Seq<char>) -> int {
    choose|p: int| 0 <= p < files.len() && (#[trigger] files[p]).path@ == path
}

/// The content of the scanned file with this path.
pub open spec fn content_of(files: Seq<MemFile>, path: Seq<char>) -> Seq<u8> {
    files[path_index(files, path)].content@
}

/// The storage identifier of the scanned file with this path.
pub open spec fn storage_of(files: Seq<MemFile>, path: Seq<char>) -> u64 {
    files[path_index(files, path)].storage_id
}

/// With distinct paths, a file's path leads back to its own index.
pub proof fn lemma_path_index_self(files: Seq<MemFile>, q: int)
    requires
        mem_distinct_paths(files),
        0 <= q < files.len(),
    ensures
        has_path(files, files[q].path@),
        path_index(files, files[q].path@) == q,
{
    assert(has_path(files, files[q].path@));
    let p = path_index(files, files[q].path@);
    assert(0 <= p < files.len() && files[p].path@ == files[q].path@);
    if p < q {
        assert(files[p].path@ != files[q].path@);
    }
    if q < p {
        assert(files[q].path@ != files[p].path@);
    }
}

fn find_mem_index(files: &Vec<MemFile>, path: &String) -> (r: Option<usize>)
    ensures
        match r {
            Some(p) => p < files@.len() && files@[p as int].path@ == path@,
            None => !has_path(files@, path@),
        },
{
    let mut j: usize = 0;
    while j < files.len()
        invariant
            j <= files@.len(),
            forall|m: int| 0 <= m < j ==> (#[trigger] files@[m]).path@ != path@,
        decreases files@.len() - j,
    {
        if files[j].path == *path {
            return Some(j);
        }
        j = j + 1;
    }
    None
}

/// The records a scan starts from agree with the scanned files: one
/// record per file, with its path, its content's byte length, and the
/// two fingerprints of its content.
pub open spec fn records_match_mem(files: Seq<MemFile>, records: Seq<FileRecord>) -> bool {
    &&& records.len() == files.len()
    &&& forall|q: int|
        0 <= q < files.len() ==> {
            let r = #[trigger] records[q];
            &&& r.path == files[q].path
            &&& r.size == files[q].content@.len()
            &&& r.partial_hash is Some
            &&& r.partial_hash.unwrap()@ == crate::digest::md5_of(
                crate::digest::partial_prefix_of(files[q].content@),
            )
            &&& r.full_hash is Some
            &&& r.full_hash.unwrap()@ == crate::digest::md5_of(files[q].content@)
        }
}

/// One group's guarantees against the scanned files: well-formed, paths
/// pairwise distinct and all present in the scan, every member of the
/// anchor's exact content and positive size, carrying the digests of its
/// content and of its hashed prefix, and, when hard links are excluded,
/// no member sharing the anchor's storage object.
pub open spec fn group_sound(
    files: Seq<MemFile>,
    include_hardlinks: bool,
    g: DuplicateGroup,
) -> bool {
    &&& g.wf()
    &&& distinct_paths(g.files@)
    &&& forall|ii: int|
        0 <= ii < g.files@.len() ==> {
            let m = #[trigger] g.files@[ii];
            &&& has_path(files, m.path@)
            &&& content_of(files, m.path@) == content_of(files, g.files@[0].path@)
            &&& m.size == content_of(files, m.path@).len()
            &&& m.size > 0
            &&& m.partial_hash is Some
            &&& m.partial_hash.unwrap()@ == crate::digest::md5_of(
                crate::digest::partial_prefix_of(content_of(files, m.path@)),
            )
            &&& m.full_hash is Some
            &&& m.full_hash.unwrap()@ == crate::digest::md5_of(content_of(files, m.path@))
        }
    &&& (!include_hardlinks ==> forall|ii: int|
        1 <= ii < g.files@.len() ==> storage_of(files, (#[trigger] g.files@[ii]).path@)
            != storage_of(files, g.files@[0].path@))
}

/// Every reported group is sound against the scanned files.
pub open spec fn groups_sound(
    files: Seq<MemFile>,
    include_hardlinks: bool,
    out: Seq<DuplicateGroup>,
) -> bool {
    forall|k: int| 0 <= k < out.len() ==> group_sound(files, include_hardlinks, #[trigger] out[k])
}

/// Two scanned files that the scan ought to report: distinct paths, the
/// same non-empty content, and, when hard links are excluded, distinct
/// storage objects.
pub open spec fn duplicate_pair(
    files: Seq<MemFile>,
    include_hardlinks: bool,
    i: int,
    j: int,
) -> bool {
    &&& 0 <= i < files.len()
    &&& 0 <= j < files.len()
    &&& i != j
    &&& files[i].content@ == files[j].content@
    &&& files[i].content@.len() > 0
    &&& (include_hardlinks || files[i].storage_id != files[j].storage_id)
}

/// Two scanned files with different contents but one full-content
/// digest.  Only such a collision can hide a duplicate pair from the
/// anchor-centred confirmation, by becoming the bucket's anchor itself.
pub open spec fn digest_collision_in(files: Seq<MemFile>) -> bool {
    exists|i: int, j: int|
        #![trigger files[i], files[j]]
        0 <= i < files.len() && 0 <= j < files.len() && files[i].content@ != files[j].content@
            && crate::digest::md5_of(files[i].content@) == crate::digest::md5_of(
            files[j].content@,
        )
}

/// Some reported group has a member of this path.
pub open spec fn some_group_contains(out: Seq<DuplicateGroup>, path: Seq<char>) -> bool {
    exists|k: int, ii: int|
        #![trigger out[k].files@[ii]]
        0 <= k < out.len() && 0 <= ii < out[k].files@.len() && out[k].files@[ii].path@ == path
}

/// The group has a member of this path.
pub open spec fn group_contains_path(g: DuplicateGroup, path: Seq<char>) -> bool {
    exists|ii: int| 0 <= ii < g.files@.len() && (#[trigger] g.files@[ii]).path@ == path
}

/// One single reported group holds both paths.
pub open spec fn some_group_contains_both(
    out: Seq<DuplicateGroup>,
    p1: Seq<char>,
    p2: Seq<char>,
) -> bool {
    exists|k: int|
        0 <= k < out.len() && group_contains_path(#[trigger] out[k], p1) && group_contains_path(
            out[k],
            p2,
        )
}

/// No path occurs in member slots of two different groups; with each
/// group's own path distinctness, no path is ever reported twice.
pub open spec fn groups_paths_disjoint(out: Seq<DuplicateGroup>) -> bool {
    forall|k1: int, k2: int, ii1: int, ii2: int|
        #![trigger out[k1].files@[ii1], out[k2].files@[ii2]]
        0 <= k1 < k2 < out.len() && 0 <= ii1 < out[k1].files@.len() && 0 <= ii2
            < out[k2].files@.len() ==> out[k1].files@[ii1].path@ != out[k2].files@[ii2].path@
}

/// No path occurs in two different final buckets.
pub open spec fn buckets_paths_disjoint(buckets: Seq<HashBucket>) -> bool {
    forall|m1: int, m2: int, ii1: int, ii2: int|
        #![trigger buckets[m1].files@[ii1], buckets[m2].files@[ii2]]
        0 <= m1 < m2 < buckets.len() && 0 <= ii1 < buckets[m1].files@.len() && 0 <= ii2
            < buckets[m2].files@.len() ==> buckets[m1].files@[ii1].path@
            != buckets[m2].files@[ii2].path@
}

/// The bucket holds members for both files of a pair, at two distinct
/// positions.
pub open spec fn bucket_has_pair(b: HashBucket, files: Seq<MemFile>, i: int, j: int) -> bool {
    exists|ii: int, jj: int|
        #![trigger b.files@[ii], b.files@[jj]]
        0 <= ii < b.files@.len() && 0 <= jj < b.files@.len() && ii != jj && b.files@[ii].path@
            == files[i].path@ && b.files@[jj].path@ == files[j].path@
}

/// Whenever hard links are included, a duplicate pair lands whole in one
/// group, digest collisions aside; with hard links excluded, the member
/// sharing the anchor's storage object may lawfully be left out, which
/// only `groups_complete` below bounds.
pub open spec fn groups_pair_together(
    files: Seq<MemFile>,
    include_hardlinks: bool,
    out: Seq<DuplicateGroup>,
) -> bool {
    forall|i: int, j: int|
        #[trigger] duplicate_pair(files, include_hardlinks, i, j) ==> digest_collision_in(files)
            || some_group_contains_both(out, files[i].path@, files[j].path@)
}

/// No duplicate pair goes unreported without a digest collision: either
/// some group holds one of the pair's paths, or two scanned files with
/// different contents share a full digest.
pub open spec fn groups_complete(
    files: Seq<MemFile>,
    include_hardlinks: bool,
    out: Seq<DuplicateGroup>,
) -> bool {
    forall|i: int, j: int|
        #[trigger] duplicate_pair(files, include_hardlinks, i, j) ==> digest_collision_in(files)
            || some_group_contains(out, files[i].path@) || some_group_contains(
            out,
            files[j].path@,
        )
}

/// Runs the whole pipeline over in-memory files: records are built and
/// fingerprinted, partitioned by size, re-partitioned by the prefix
/// digest and the full digest, and each surviving bucket is confirmed
/// byte for byte against its anchor.
#[verifier::rlimit(90)]
pub fn find_duplicates_in_memory(files: &Vec<MemFile>, include_hardlinks: bool) -> (out: Vec<
    DuplicateGroup,
>)
    requires
        mem_distinct_paths(files@),
    ensures
        groups_sound(files@, include_hardlinks, out@),
        groups_complete(files@, include_hardlinks, out@),
        groups_paths_disjoint(out@),
        include_hardlinks ==> groups_pair_together(files@, include_hardlinks, out@),
{
    let ghost filesg = files@;
    // Build one sized, fingerprinted record per file.
    let mut records: Vec<FileRecord> = Vec::new();
    let mut i: usize = 0;
    while i < files.len()
        invariant
            i <= files@.len(),
            mem_distinct_paths(files@),
            records@.len() == i,
            forall|q: int|
                0 <= q < i ==> {
                    let r = #[trigger] records@[q];
                    &&& r.path == files@[q].path
                    &&& r.size == files@[q].content@.len()
                    &&& r.partial_hash is Some
                    &&& r.partial_hash.unwrap()@ == crate::digest::md5_of(
                        crate::digest::partial_prefix_of(files@[q].content@),
                    )
                    &&& r.full_hash is Some
                    &&& r.full_hash.unwrap()@ == crate::digest::md5_of(files@[q].content@)
                },
        decreases files@.len() - i,
    {
        let f = &files[i];
        let mut r = crate::record::FileRecord::new(f.path.clone(), f.content.len() as u64);
        let plen: usize = crate::digest::partial_prefix_len(f.content.len() as u64);
        r.set_partial_hash(vstd::slice::slice_subrange(f.content.as_slice(), 0, plen));
        proof {
            assert(f.content@.subrange(0, plen as int) =~= crate::digest::partial_prefix_of(
                f.content@,
            ));
        }
        r.set_full_hash(f.content.as_slice());
        records.push(r);
        i = i + 1;
    }
    proof {
        assert(records_match_mem(filesg, records@));
        assert forall|i1: int, i2: int|
            #![trigger records@[i1], records@[i2]]
            0 <= i1 < i2 < records@.len() implies records@[i1].path@ != records@[i2].path@ by {
            assert(filesg[i1].path@ != filesg[i2].path@);
        }
        assert(distinct_paths(records@));
    }
    let ghost recs = records@;
    let size_buckets = group_by_size(records);
    let ghost sbs = size_buckets@;
    let partial_buckets = group_by_partial_hash(size_buckets);
    let ghost pbs = partial_buckets@;
    let mut full_buckets = group_by_full_hash(partial_buckets);
    let ghost fbs = full_buckets@;
    // Any two files with the same non-empty content survive all three
    // partitioning stages together: they share a size, a prefix digest
    // and a full digest, so some final bucket holds them both.
    proof {
        assert forall|i: int, j: int|
            #[trigger] duplicate_pair(filesg, include_hardlinks, i, j) implies exists|m: int|
            0 <= m < fbs.len() && #[trigger] bucket_has_pair(fbs[m], filesg, i, j) by {
            let c = filesg[i].content@;
            let ri = recs[i];
            let rj = recs[j];
            assert(ri.path@ == filesg[i].path@);
            assert(rj.path@ == filesg[j].path@);
            if i < j {
                assert(filesg[i].path@ != filesg[j].path@);
            } else {
                assert(filesg[j].path@ != filesg[i].path@);
            }
            assert(ri != rj);
            let sz = ri.size;
            assert(sz == c.len() && sz > 0);
            assert(rj.size == sz);
            assert(with_size(sz)(ri) && with_size(sz)(rj));
            Seq::lemma_filter_contains(recs, with_size(sz), i);
            Seq::lemma_filter_contains(recs, with_size(sz), j);
            let f1 = recs.filter(with_size(sz));
            let xi = choose|x: int| 0 <= x < f1.len() && f1[x] == ri;
            let xj = choose|x: int| 0 <= x < f1.len() && f1[x] == rj;
            assert(xi != xj);
            assert(f1.len() >= 2);
            let k1 = choose|k: int| 0 <= k < sbs.len() && (#[trigger] sbs[k]).size == sz;
            assert(sbs[k1].files@ == f1);
            let dp = crate::digest::md5_of(crate::digest::partial_prefix_of(c));
            assert(filesg[j].content@ == c);
            assert(ri.partial_hash.unwrap()@ == dp && rj.partial_hash.unwrap()@ == dp);
            assert(with_digest(false, dp)(ri) && with_digest(false, dp)(rj));
            Seq::lemma_filter_contains(sbs[k1].files@, with_digest(false, dp), xi);
            Seq::lemma_filter_contains(sbs[k1].files@, with_digest(false, dp), xj);
            let f2 = sbs[k1].files@.filter(with_digest(false, dp));
            let yi = choose|x: int| 0 <= x < f2.len() && f2[x] == ri;
            let yj = choose|x: int| 0 <= x < f2.len() && f2[x] == rj;
            assert(yi != yj);
            assert(f2.len() >= 2);
            let k2 = choose|k: int|
                0 <= k < pbs.len() && (#[trigger] pbs[k]).size == sbs[k1].size && pbs[k].hash@
                    == dp && pbs[k].files@ == f2;
            let df = crate::digest::md5_of(c);
            assert(ri.full_hash.unwrap()@ == df && rj.full_hash.unwrap()@ == df);
            assert(with_digest(true, df)(ri) && with_digest(true, df)(rj));
            Seq::lemma_filter_contains(pbs[k2].files@, with_digest(true, df), yi);
            Seq::lemma_filter_contains(pbs[k2].files@, with_digest(true, df), yj);
            let f3 = pbs[k2].files@.filter(with_digest(true, df));
            let zi = choose|x: int| 0 <= x < f3.len() && f3[x] == ri;
            let zj = choose|x: int| 0 <= x < f3.len() && f3[x] == rj;
            assert(zi != zj);
            assert(f3.len() >= 2);
            let k3 = choose|k: int|
                0 <= k < fbs.len() && (#[trigger] fbs[k]).size == pbs[k2].size && fbs[k].hash@
                    == df && fbs[k].files@ == f3;
            assert(fbs[k3].files@[zi] == ri && fbs[k3].files@[zj] == rj);
            assert(bucket_has_pair(fbs[k3], filesg, i, j));
        }
    }
    // No path reaches two final buckets: every bucket member traces back
    // to one scan record, records carry distinct paths, and the stages
    // keep buckets pairwise disjoint.
    proof {
        assert forall|k: int, ii: int|
            #![trigger fbs[k].files@[ii]]
            0 <= k < fbs.len() && 0 <= ii < fbs[k].files@.len() implies exists|q: int|
            0 <= q < recs.len() && #[trigger] recs[q] == fbs[k].files@[ii] by {
            assert(refines_hash_bucket(fbs[k], pbs, true));
            let j2 = choose|jx: int|
                0 <= jx < pbs.len() && fbs[k].size == (#[trigger] pbs[jx]).size && fbs[k].files@
                    == pbs[jx].files@.filter(with_digest(true, fbs[k].hash@));
            assert(refines_size_bucket(pbs[j2], sbs, false));
            let j1 = choose|jx: int|
                0 <= jx < sbs.len() && pbs[j2].size == (#[trigger] sbs[jx]).size && pbs[j2].files@
                    == sbs[jx].files@.filter(with_digest(false, pbs[j2].hash@));
            lemma_filter_members(pbs[j2].files@, with_digest(true, fbs[k].hash@));
            let q3 = choose|q: int|
                0 <= q < pbs[j2].files@.len() && #[trigger] pbs[j2].files@[q] == fbs[k].files@[ii];
            lemma_filter_members(sbs[j1].files@, with_digest(false, pbs[j2].hash@));
            let q2 = choose|q: int|
                0 <= q < sbs[j1].files@.len() && #[trigger] sbs[j1].files@[q]
                    == pbs[j2].files@[q3];
            assert(size_bucket_exact(sbs[j1], recs));
            lemma_filter_members(recs, with_size(sbs[j1].size));
            let q1 = choose|q: int|
                0 <= q < recs.len() && #[trigger] recs[q] == sbs[j1].files@[q2];
        }
        assert forall|m1: int, m2: int, ii1: int, ii2: int|
            #![trigger fbs[m1].files@[ii1], fbs[m2].files@[ii2]]
            0 <= m1 < m2 < fbs.len() && 0 <= ii1 < fbs[m1].files@.len() && 0 <= ii2
                < fbs[m2].files@.len() implies fbs[m1].files@[ii1].path@
            != fbs[m2].files@[ii2].path@ by {
            if fbs[m1].files@[ii1].path@ == fbs[m2].files@[ii2].path@ {
                let q1 = choose|q: int|
                    0 <= q < recs.len() && #[trigger] recs[q] == fbs[m1].files@[ii1];
                let q2 = choose|q: int|
                    0 <= q < recs.len() && #[trigger] recs[q] == fbs[m2].files@[ii2];
                if q1 < q2 {
                    assert(recs[q1].path@ != recs[q2].path@);
                }
                if q2 < q1 {
                    assert(recs[q2].path@ != recs[q1].path@);
                }
                assert(fbs[m1].files@[ii1] == fbs[m2].files@[ii2]);
            }
        }
        assert(buckets_paths_disjoint(fbs));
    }
    let mut out: Vec<DuplicateGroup> = Vec::new();
    let ghost mut bi: int = 0;
    while full_buckets.len() > 0
        invariant
            0 <= bi <= fbs.len(),
            full_buckets@ == fbs.subrange(bi, fbs.len() as int),
            mem_distinct_paths(filesg),
            filesg == files@,
            records_match_mem(filesg, recs),
            distinct_paths(recs),
            forall|k: int| 0 <= k < sbs.len() ==> size_bucket_exact(#[trigger] sbs[k], recs),
            forall|k: int| 0 <= k < sbs.len() ==> size_bucket_wf(#[trigger] sbs[k]),
            forall|k: int| 0 <= k < pbs.len() ==> refines_size_bucket(#[trigger] pbs[k], sbs, false),
            forall|k: int| 0 <= k < fbs.len() ==> hash_bucket_wf(#[trigger] fbs[k]),
            forall|k: int| 0 <= k < fbs.len() ==> refines_hash_bucket(#[trigger] fbs[k], pbs, true),
            forall|k: int|
                0 <= k < fbs.len() ==> hash_bucket_members_match(true, #[trigger] fbs[k]),
            groups_sound(filesg, include_hardlinks, out@),
            forall|i: int, j: int|
                #[trigger] duplicate_pair(filesg, include_hardlinks, i, j)
                    ==> digest_collision_in(filesg) || some_group_contains(
                    out@,
                    filesg[i].path@,
                ) || some_group_contains(out@, filesg[j].path@) || (exists|m: int|
                    bi <= m < fbs.len() && #[trigger] bucket_has_pair(fbs[m], filesg, i, j)),
            buckets_paths_disjoint(fbs),
            groups_paths_disjoint(out@),
            forall|k: int, ii: int, m: int, jj: int|
                #![trigger out@[k].files@[ii], fbs[m].files@[jj]]
                0 <= k < out@.len() && 0 <= ii < out@[k].files@.len() && bi <= m < fbs.len() && 0
                    <= jj < fbs[m].files@.len() ==> out@[k].files@[ii].path@
                    != fbs[m].files@[jj].path@,
            include_hardlinks ==> forall|i: int, j: int|
                #[trigger] duplicate_pair(filesg, include_hardlinks, i, j)
                    ==> digest_collision_in(filesg) || some_group_contains_both(
                    out@,
                    filesg[i].path@,
                    filesg[j].path@,
                ) || (exists|m: int|
                    bi <= m < fbs.len() && #[trigger] bucket_has_pair(fbs[m], filesg, i, j)),
        decreases full_buckets.len(),
    {
        let b = full_buckets.remove(0);
        proof {
            assert(b == fbs[bi]);
            assert(full_buckets@ =~= fbs.subrange(bi + 1, fbs.len() as int));
        }
        // Trace the bucket's files back to the scan's records.
        proof {
            assert(refines_hash_bucket(b, pbs, true));
            let j2 = choose|j: int|
                0 <= j < pbs.len() && b.size == (#[trigger] pbs[j]).size && b.files@
                    == pbs[j].files@.filter(with_digest(true, b.hash@));
            assert(refines_size_bucket(pbs[j2], sbs, false));
            let j1 = choose|j: int|
                0 <= j < sbs.len() && pbs[j2].size == (#[trigger] sbs[j]).size && pbs[j2].files@
                    == sbs[j].files@.filter(with_digest(false, pbs[j2].hash@));
            assert(size_bucket_exact(sbs[j1], recs));
            lemma_filter_members(recs, with_size(sbs[j1].size));
            lemma_filter_members(sbs[j1].files@, with_digest(false, pbs[j2].hash@));
            lemma_filter_members(pbs[j2].files@, with_digest(true, b.hash@));
            assert(distinct_paths(sbs[j1].files@));
            assert(distinct_paths(pbs[j2].files@));
            assert(distinct_paths(b.files@));
            assert forall|ii: int|
                #![trigger b.files@[ii]]
                0 <= ii < b.files@.len() implies exists|q: int|
                0 <= q < recs.len() && #[trigger] recs[q] == b.files@[ii] by {
                let q3 = choose|q: int|
                    0 <= q < pbs[j2].files@.len() && #[trigger] pbs[j2].files@[q] == b.files@[ii];
                let q2 = choose|q: int|
                    0 <= q < sbs[j1].files@.len() && #[trigger] sbs[j1].files@[q]
                        == pbs[j2].files@[q3];
                let q1 = choose|q: int|
                    0 <= q < recs.len() && #[trigger] recs[q] == sbs[j1].files@[q2];
            }
        }
        // What the scan knows about each bucket member.
        proof {
            assert forall|ii: int|
                #![trigger b.files@[ii]]
                0 <= ii < b.files@.len() implies (has_path(filesg, b.files@[ii].path@)
                && b.files@[ii].size == content_of(filesg, b.files@[ii].path@).len()
                && b.files@[ii].size > 0 && b.files@[ii].partial_hash is Some
                && b.files@[ii].partial_hash.unwrap()@ == crate::digest::md5_of(
                crate::digest::partial_prefix_of(content_of(filesg, b.files@[ii].path@)),
            ) && b.files@[ii].full_hash is Some && b.files@[ii].full_hash.unwrap()@
                == crate::digest::md5_of(content_of(filesg, b.files@[ii].path@))
                && crate::digest::md5_of(content_of(filesg, b.files@[ii].path@)) == b.hash@) by {
                let q = choose|q: int| 0 <= q < recs.len() && #[trigger] recs[q] == b.files@[ii];
                assert(filesg[q].path@ == b.files@[ii].path@);
                lemma_path_index_self(filesg, q);
                assert(path_index(filesg, b.files@[ii].path@) == q);
                assert(hash_bucket_wf(b));
                assert(hash_bucket_members_match(true, fbs[bi]));
                assert(crate::bucket::digest_view(true, b.files@[ii]) == Some(b.hash@));
                assert(recs[q].full_hash.unwrap()@ == crate::digest::md5_of(filesg[q].content@));
            }
        }
        // Look the anchor up and gather evidence about the rest.
        let anchor_content: Option<Vec<u8>> = match find_mem_index(files, &b.files[0].path) {
            Some(ai) => Some(copy_bytes(&files[ai].content)),
            None => None,
        };
        proof {
            if anchor_content is Some {
                let ai = choose|p: int|
                    0 <= p < filesg.len() && (#[trigger] filesg[p]).path@ == b.files@[0].path@;
            }
            assert(anchor_content is Some <==> has_path(filesg, b.files@[0].path@));
            assert(anchor_content is Some ==> anchor_content.unwrap()@ == content_of(
                filesg,
                b.files@[0].path@,
            ));
        }
        let ghost anchor_contentg = anchor_content;
        let mut evidence: Vec<PairEvidence> = Vec::new();
        let mut p: usize = 1;
        while p < b.files.len()
            invariant
                1 <= p <= b.files@.len(),
                mem_distinct_paths(filesg),
                filesg == files@,
                evidence@.len() == p - 1,
                forall|q: int|
                    #![trigger evidence@[q]]
                    0 <= q < p - 1 ==> {
                        let m = b.files@[q + 1];
                        let ev = evidence@[q];
                        &&& (ev.content is Some <==> has_path(filesg, m.path@))
                        &&& (ev.content is Some ==> ev.content.unwrap()@ == content_of(
                            filesg,
                            m.path@,
                        ))
                        &&& ((has_path(filesg, m.path@) && has_path(filesg, b.files@[0].path@))
                            ==> ev.same_storage == (storage_of(filesg, m.path@) == storage_of(
                            filesg,
                            b.files@[0].path@,
                        )))
                    },
            decreases b.files@.len() - p,
        {
            let mut same: bool = false;
            let ev_content: Option<Vec<u8>> = match find_mem_index(files, &b.files[p].path) {
                Some(mi) => {
                    match find_mem_index(files, &b.files[0].path) {
                        Some(ai) => {
                            same = files[ai].storage_id == files[mi].storage_id;
                        },
                        None => {},
                    }
                    Some(copy_bytes(&files[mi].content))
                },
                None => None,
            };
            proof {
                let m = b.files@[p as int];
                if has_path(filesg, m.path@) {
                    let mi0 = path_index(filesg, m.path@);
                    assert(0 <= mi0 < filesg.len() && filesg[mi0].path@ == m.path@);
                }
                if has_path(filesg, b.files@[0].path@) {
                    let ai0 = path_index(filesg, b.files@[0].path@);
                    assert(0 <= ai0 < filesg.len() && filesg[ai0].path@ == b.files@[0].path@);
                }
                assert forall|x1: int, x2: int|
                    0 <= x1 < filesg.len() && 0 <= x2 < filesg.len() && (#[trigger] filesg[x1]).path@
                        == (#[trigger] filesg[x2]).path@ implies x1 == x2 by {
                    if x1 < x2 {
                        assert(filesg[x1].path@ != filesg[x2].path@);
                    } else if x2 < x1 {
                        assert(filesg[x2].path@ != filesg[x1].path@);
                    }
                }
            }
            evidence.push(PairEvidence { same_storage: same, content: ev_content });
            p = p + 1;
        }
        let ghost evs = evidence@;
        let ghost others = b.files@.skip(1);
        let ghost bfull = b.files@;
        let ghost preout0 = out@;
        let verdict = verify_bucket_with_evidence(b, anchor_content, evidence, include_hardlinks);
        let ghost verdictg = verdict;
        match verdict {
            Some(g) => {
                proof {
                    let cm = confirmed_members(others, evs, include_hardlinks, anchor_contentg);
                    assert(g.files@ == seq![bfull[0]] + cm);
                    lemma_confirmed_members_sound(others, evs, include_hardlinks, anchor_contentg);
                    lemma_confirmed_members_distinct_paths(
                        others,
                        evs,
                        include_hardlinks,
                        anchor_contentg,
                    );
                    // the anchor itself was confirmed against: its lookup succeeded
                    assert(cm.len() >= 1);
                    assert(member_confirmed_from(
                        others,
                        evs,
                        include_hardlinks,
                        anchor_contentg,
                        cm[0],
                    ));
                    assert(anchor_contentg is Some);
                    // distinct paths within the group
                    assert forall|i1: int, i2: int|
                        #![trigger g.files@[i1], g.files@[i2]]
                        0 <= i1 < i2 < g.files@.len() implies g.files@[i1].path@
                        != g.files@[i2].path@ by {
                        if i1 == 0 {
                            assert(g.files@[i2] == cm[i2 - 1]);
                            assert(member_confirmed_from(
                                others,
                                evs,
                                include_hardlinks,
                                anchor_contentg,
                                cm[i2 - 1],
                            ));
                            let q = choose|q: int|
                                0 <= q < others.len() && cm[i2 - 1] == #[trigger] others[q]
                                    && confirmed(include_hardlinks, anchor_contentg, evs[q]);
                            assert(others[q] == bfull[q + 1]);
                            assert(bfull[0].path@ != bfull[q + 1].path@);
                        } else {
                            assert(g.files@[i1] == cm[i1 - 1]);
                            assert(g.files@[i2] == cm[i2 - 1]);
                        }
                    }
                    // member facts
                    assert forall|ii: int|
                        #![trigger g.files@[ii]]
                        0 <= ii < g.files@.len() implies (has_path(filesg, g.files@[ii].path@)
                        && content_of(filesg, g.files@[ii].path@) == content_of(
                        filesg,
                        g.files@[0].path@,
                    ) && g.files@[ii].size == content_of(filesg, g.files@[ii].path@).len()
                        && g.files@[ii].size > 0 && g.files@[ii].partial_hash is Some
                        && g.files@[ii].partial_hash.unwrap()@ == crate::digest::md5_of(
                        crate::digest::partial_prefix_of(content_of(filesg, g.files@[ii].path@)),
                    ) && g.files@[ii].full_hash is Some && g.files@[ii].full_hash.unwrap()@
                        == crate::digest::md5_of(content_of(filesg, g.files@[ii].path@))) by {
                        if ii == 0 {
                            assert(g.files@[0] == bfull[0]);
                            assert(has_path(filesg, bfull[0].path@));
                        } else {
                            assert(g.files@[ii] == cm[ii - 1]);
                            assert(member_confirmed_from(
                                others,
                                evs,
                                include_hardlinks,
                                anchor_contentg,
                                cm[ii - 1],
                            ));
                            let q = choose|q: int|
                                0 <= q < others.len() && cm[ii - 1] == #[trigger] others[q]
                                    && confirmed(include_hardlinks, anchor_contentg, evs[q]);
                            assert(others[q] == bfull[q + 1]);
                            assert(evs[q].content is Some);
                            assert(has_path(filesg, bfull[q + 1].path@));
                            assert(evs[q].content.unwrap()@ == content_of(
                                filesg,
                                bfull[q + 1].path@,
                            ));
                            assert(evs[q].content.unwrap()@ == anchor_contentg.unwrap()@);
                            assert(content_of(filesg, g.files@[ii].path@) == content_of(
                                filesg,
                                g.files@[0].path@,
                            ));
                        }
                    }
                    // hard-link exclusion
                    if !include_hardlinks {
                        assert forall|ii: int|
                            #![trigger g.files@[ii]]
                            1 <= ii < g.files@.len() implies storage_of(filesg, g.files@[ii].path@)
                            != storage_of(filesg, g.files@[0].path@) by {
                            assert(g.files@[ii] == cm[ii - 1]);
                            assert(member_confirmed_from(
                                others,
                                evs,
                                include_hardlinks,
                                anchor_contentg,
                                cm[ii - 1],
                            ));
                            let q = choose|q: int|
                                0 <= q < others.len() && cm[ii - 1] == #[trigger] others[q]
                                    && confirmed(include_hardlinks, anchor_contentg, evs[q]);
                            assert(!evs[q].same_storage);
                            assert(others[q] == bfull[q + 1]);
                            assert(has_path(filesg, bfull[q + 1].path@));
                            assert(has_path(filesg, bfull[0].path@));
                        }
                    }
                    assert(group_sound(filesg, include_hardlinks, g));
                }
                let ghost preout = out@;
                out.push(g);
                proof {
                    assert forall|k: int|
                        0 <= k < out@.len() implies group_sound(
                        filesg,
                        include_hardlinks,
                        #[trigger] out@[k],
                    ) by {
                        if k < preout.len() {
                            assert(out@[k] == preout[k]);
                        }
                    }
                }
            },
            None => {},
        }
        // A pair pending in this bucket is settled now: one of its files
        // enters the reported group, unless the anchor's content differs
        // from theirs, which is a full-digest collision.
        proof {
            let cm = confirmed_members(others, evs, include_hardlinks, anchor_contentg);
            assert(verdictg is Some ==> out@ == preout0.push(verdictg.unwrap()));
            assert(verdictg is None ==> out@ == preout0);
            if verdictg is Some {
                let g = verdictg.unwrap();
                lemma_confirmed_members_sound(others, evs, include_hardlinks, anchor_contentg);
                assert forall|ii: int|
                    #![trigger g.files@[ii]]
                    0 <= ii < g.files@.len() implies exists|jj: int|
                    0 <= jj < bfull.len() && g.files@[ii].path@ == (#[trigger] bfull[jj]).path@ by {
                    if ii == 0 {
                        assert(g.files@[0].path@ == bfull[0].path@);
                    } else {
                        assert(g.files@[ii] == cm[ii - 1]);
                        assert(member_confirmed_from(
                            others,
                            evs,
                            include_hardlinks,
                            anchor_contentg,
                            cm[ii - 1],
                        ));
                        let q = choose|q: int|
                            0 <= q < others.len() && cm[ii - 1] == #[trigger] others[q]
                                && confirmed(include_hardlinks, anchor_contentg, evs[q]);
                        assert(others[q] == bfull[q + 1]);
                        assert(g.files@[ii].path@ == bfull[q + 1].path@);
                    }
                }
                assert forall|k1: int, k2: int, ii1: int, ii2: int|
                    #![trigger out@[k1].files@[ii1], out@[k2].files@[ii2]]
                    0 <= k1 < k2 < out@.len() && 0 <= ii1 < out@[k1].files@.len() && 0 <= ii2
                        < out@[k2].files@.len() implies out@[k1].files@[ii1].path@
                    != out@[k2].files@[ii2].path@ by {
                    if k2 < preout0.len() {
                        assert(out@[k1] == preout0[k1]);
                        assert(out@[k2] == preout0[k2]);
                        assert(preout0[k1].files@[ii1].path@ != preout0[k2].files@[ii2].path@);
                    } else {
                        assert(out@[k1] == preout0[k1]);
                        assert(out@[k2] == g);
                        let jj = choose|jx: int|
                            0 <= jx < bfull.len() && g.files@[ii2].path@ == (
                            #[trigger] bfull[jx]).path@;
                        assert(fbs[bi].files@ == bfull);
                        assert(preout0[k1].files@[ii1].path@ != fbs[bi].files@[jj].path@);
                    }
                }
                assert forall|k: int, ii: int, m: int, jj: int|
                    #![trigger out@[k].files@[ii], fbs[m].files@[jj]]
                    0 <= k < out@.len() && 0 <= ii < out@[k].files@.len() && bi + 1 <= m
                        < fbs.len() && 0 <= jj < fbs[m].files@.len() implies out@[k].files@[
                    ii].path@ != fbs[m].files@[jj].path@ by {
                    if k < preout0.len() {
                        assert(out@[k] == preout0[k]);
                        assert(preout0[k].files@[ii].path@ != fbs[m].files@[jj].path@);
                    } else {
                        assert(out@[k] == g);
                        let jj1 = choose|jx: int|
                            0 <= jx < bfull.len() && g.files@[ii].path@ == (
                            #[trigger] bfull[jx]).path@;
                        assert(fbs[bi].files@ == bfull);
                        assert(fbs[bi].files@[jj1].path@ != fbs[m].files@[jj].path@);
                    }
                }
            }
            if include_hardlinks {
                assert forall|i: int, j: int|
                    #[trigger] duplicate_pair(filesg, include_hardlinks, i, j) implies (
                digest_collision_in(filesg) || some_group_contains_both(
                    out@,
                    filesg[i].path@,
                    filesg[j].path@,
                ) || (exists|m: int|
                    bi + 1 <= m < fbs.len() && #[trigger] bucket_has_pair(
                        fbs[m],
                        filesg,
                        i,
                        j,
                    ))) by {
                    if digest_collision_in(filesg) {
                    } else if some_group_contains_both(
                        preout0,
                        filesg[i].path@,
                        filesg[j].path@,
                    ) {
                        let k0 = choose|k0: int|
                            0 <= k0 < preout0.len() && group_contains_path(
                                #[trigger] preout0[k0],
                                filesg[i].path@,
                            ) && group_contains_path(preout0[k0], filesg[j].path@);
                        assert(out@[k0] == preout0[k0]);
                        assert(some_group_contains_both(out@, filesg[i].path@, filesg[j].path@));
                    } else {
                        let m = choose|m: int|
                            bi <= m < fbs.len() && #[trigger] bucket_has_pair(
                                fbs[m],
                                filesg,
                                i,
                                j,
                            );
                        if m > bi {
                        } else {
                            assert(bucket_has_pair(fbs[bi], filesg, i, j));
                            let (pii, pjj) = choose|pii: int, pjj: int|
                                0 <= pii < bfull.len() && 0 <= pjj < bfull.len() && pii != pjj
                                    && (#[trigger] bfull[pii]).path@ == filesg[i].path@ && (
                                #[trigger] bfull[pjj]).path@ == filesg[j].path@;
                            let apath = bfull[0].path@;
                            assert(has_path(filesg, apath));
                            assert(anchor_contentg is Some);
                            let ca = content_of(filesg, apath);
                            lemma_path_index_self(filesg, i);
                            lemma_path_index_self(filesg, j);
                            let c = filesg[i].content@;
                            assert(content_of(filesg, bfull[pii].path@) == c);
                            assert(filesg[j].content@ == c);
                            assert(content_of(filesg, bfull[pjj].path@) == c);
                            assert(crate::digest::md5_of(content_of(filesg, bfull[pii].path@))
                                == b.hash@);
                            assert(crate::digest::md5_of(ca) == b.hash@);
                            if ca == c {
                                assert(anchor_contentg.unwrap()@ == c);
                                if pii != 0 {
                                    let q = pii - 1;
                                    assert(others[q] == bfull[pii]);
                                    assert(evs[q].content is Some);
                                    assert(evs[q].content.unwrap()@ == anchor_contentg.unwrap()@);
                                    assert(confirmed(include_hardlinks, anchor_contentg, evs[q]));
                                    lemma_confirmed_members_complete(
                                        others,
                                        evs,
                                        include_hardlinks,
                                        anchor_contentg,
                                        q,
                                    );
                                    assert(cm.contains(others[q]));
                                }
                                if pjj != 0 {
                                    let q = pjj - 1;
                                    assert(others[q] == bfull[pjj]);
                                    assert(evs[q].content is Some);
                                    assert(evs[q].content.unwrap()@ == anchor_contentg.unwrap()@);
                                    assert(confirmed(include_hardlinks, anchor_contentg, evs[q]));
                                    lemma_confirmed_members_complete(
                                        others,
                                        evs,
                                        include_hardlinks,
                                        anchor_contentg,
                                        q,
                                    );
                                    assert(cm.contains(others[q]));
                                }
                                assert(cm.len() >= 1);
                                assert(verdictg is Some);
                                let g = verdictg.unwrap();
                                assert(g.files@ == seq![bfull[0]] + cm);
                                assert(out@[preout0.len() as int] == g);
                                if pii == 0 {
                                    assert(g.files@[0].path@ == filesg[i].path@);
                                    assert(group_contains_path(g, filesg[i].path@));
                                } else {
                                    let cidx = choose|x: int|
                                        0 <= x < cm.len() && cm[x] == others[pii - 1];
                                    assert(g.files@[cidx + 1] == bfull[pii]);
                                    assert(group_contains_path(g, filesg[i].path@));
                                }
                                if pjj == 0 {
                                    assert(g.files@[0].path@ == filesg[j].path@);
                                    assert(group_contains_path(g, filesg[j].path@));
                                } else {
                                    let cidx = choose|x: int|
                                        0 <= x < cm.len() && cm[x] == others[pjj - 1];
                                    assert(g.files@[cidx + 1] == bfull[pjj]);
                                    assert(group_contains_path(g, filesg[j].path@));
                                }
                                assert(some_group_contains_both(
                                    out@,
                                    filesg[i].path@,
                                    filesg[j].path@,
                                ));
                            } else {
                                let pa = path_index(filesg, apath);
                                assert(0 <= pa < filesg.len() && filesg[pa].path@ == apath);
                                assert(content_of(filesg, apath) == filesg[pa].content@);
                                assert(filesg[pa].content@ != filesg[i].content@);
                                assert(crate::digest::md5_of(filesg[pa].content@)
                                    == crate::digest::md5_of(filesg[i].content@));
                                assert(digest_collision_in(filesg));
                            }
                        }
                    }
                }
            }
            assert forall|i: int, j: int|
                #[trigger] duplicate_pair(filesg, include_hardlinks, i, j) implies (
            digest_collision_in(filesg) || some_group_contains(out@, filesg[i].path@)
                || some_group_contains(out@, filesg[j].path@) || (exists|m: int|
                bi + 1 <= m < fbs.len() && #[trigger] bucket_has_pair(fbs[m], filesg, i, j))) by {
                if digest_collision_in(filesg) {
                } else if some_group_contains(preout0, filesg[i].path@) {
                    let (k0, ii0) = choose|k0: int, ii0: int|
                        #![trigger preout0[k0].files@[ii0]]
                        0 <= k0 < preout0.len() && 0 <= ii0 < preout0[k0].files@.len()
                            && preout0[k0].files@[ii0].path@ == filesg[i].path@;
                    assert(out@[k0] == preout0[k0]);
                    assert(some_group_contains(out@, filesg[i].path@));
                } else if some_group_contains(preout0, filesg[j].path@) {
                    let (k0, ii0) = choose|k0: int, ii0: int|
                        #![trigger preout0[k0].files@[ii0]]
                        0 <= k0 < preout0.len() && 0 <= ii0 < preout0[k0].files@.len()
                            && preout0[k0].files@[ii0].path@ == filesg[j].path@;
                    assert(out@[k0] == preout0[k0]);
                    assert(some_group_contains(out@, filesg[j].path@));
                } else {
                    let m = choose|m: int|
                        bi <= m < fbs.len() && #[trigger] bucket_has_pair(fbs[m], filesg, i, j);
                    if m > bi {
                    } else {
                        assert(bucket_has_pair(fbs[bi], filesg, i, j));
                        let (pii, pjj) = choose|pii: int, pjj: int|
                            0 <= pii < bfull.len() && 0 <= pjj < bfull.len() && pii != pjj && (
                            #[trigger] bfull[pii]).path@ == filesg[i].path@ && (
                            #[trigger] bfull[pjj]).path@ == filesg[j].path@;
                        let apath = bfull[0].path@;
                        assert(has_path(filesg, apath));
                        assert(anchor_contentg is Some);
                        let ca = content_of(filesg, apath);
                        lemma_path_index_self(filesg, i);
                        lemma_path_index_self(filesg, j);
                        let c = filesg[i].content@;
                        assert(content_of(filesg, bfull[pii].path@) == c);
                        assert(filesg[j].content@ == c);
                        assert(content_of(filesg, bfull[pjj].path@) == c);
                        assert(crate::digest::md5_of(content_of(filesg, bfull[pii].path@))
                            == b.hash@);
                        assert(crate::digest::md5_of(ca) == b.hash@);
                        if ca == c {
                            let sti = storage_of(filesg, filesg[i].path@);
                            let stj = storage_of(filesg, filesg[j].path@);
                            assert(sti == filesg[i].storage_id);
                            assert(stj == filesg[j].storage_id);
                            assert(anchor_contentg.unwrap()@ == c);
                            if pii == 0 {
                                let q = pjj - 1;
                                assert(others[q] == bfull[pjj]);
                                assert(evs[q].content is Some);
                                assert(evs[q].content.unwrap()@ == anchor_contentg.unwrap()@);
                                if !include_hardlinks {
                                    assert(apath == filesg[i].path@);
                                    assert(evs[q].same_storage == (stj == sti));
                                }
                                assert(confirmed(include_hardlinks, anchor_contentg, evs[q]));
                                lemma_confirmed_members_complete(
                                    others,
                                    evs,
                                    include_hardlinks,
                                    anchor_contentg,
                                    q,
                                );
                                assert(cm.contains(others[q]));
                                assert(cm.len() >= 1);
                                assert(verdictg is Some);
                                let g = verdictg.unwrap();
                                assert(g.files@ == seq![bfull[0]] + cm);
                                assert(out@[preout0.len() as int] == g);
                                assert(g.files@[0].path@ == filesg[i].path@);
                                assert(some_group_contains(out@, filesg[i].path@));
                            } else if pjj == 0 {
                                let q = pii - 1;
                                assert(others[q] == bfull[pii]);
                                assert(evs[q].content is Some);
                                assert(evs[q].content.unwrap()@ == anchor_contentg.unwrap()@);
                                if !include_hardlinks {
                                    assert(apath == filesg[j].path@);
                                    assert(evs[q].same_storage == (sti == stj));
                                }
                                assert(confirmed(include_hardlinks, anchor_contentg, evs[q]));
                                lemma_confirmed_members_complete(
                                    others,
                                    evs,
                                    include_hardlinks,
                                    anchor_contentg,
                                    q,
                                );
                                assert(cm.contains(others[q]));
                                assert(cm.len() >= 1);
                                assert(verdictg is Some);
                                let g = verdictg.unwrap();
                                assert(g.files@ == seq![bfull[0]] + cm);
                                assert(out@[preout0.len() as int] == g);
                                assert(g.files@[0].path@ == filesg[j].path@);
                                assert(some_group_contains(out@, filesg[j].path@));
                            } else {
                                let qi = pii - 1;
                                let qj = pjj - 1;
                                assert(others[qi] == bfull[pii]);
                                assert(others[qj] == bfull[pjj]);
                                assert(evs[qi].content is Some);
                                assert(evs[qi].content.unwrap()@ == anchor_contentg.unwrap()@);
                                assert(evs[qj].content is Some);
                                assert(evs[qj].content.unwrap()@ == anchor_contentg.unwrap()@);
                                if confirmed(include_hardlinks, anchor_contentg, evs[qi]) {
                                    lemma_confirmed_members_complete(
                                        others,
                                        evs,
                                        include_hardlinks,
                                        anchor_contentg,
                                        qi,
                                    );
                                    assert(cm.contains(others[qi]));
                                    let cidx = choose|x: int|
                                        0 <= x < cm.len() && cm[x] == others[qi];
                                    assert(cm.len() >= 1);
                                    assert(verdictg is Some);
                                    let g = verdictg.unwrap();
                                    assert(g.files@ == seq![bfull[0]] + cm);
                                    assert(out@[preout0.len() as int] == g);
                                    assert(g.files@[cidx + 1] == bfull[pii]);
                                    assert(some_group_contains(out@, filesg[i].path@));
                                } else {
                                    assert(!include_hardlinks && evs[qi].same_storage);
                                    assert(evs[qi].same_storage == (sti == storage_of(
                                        filesg,
                                        apath,
                                    )));
                                    assert(evs[qj].same_storage == (stj == storage_of(
                                        filesg,
                                        apath,
                                    )));
                                    assert(sti != stj);
                                    assert(!evs[qj].same_storage);
                                    assert(confirmed(include_hardlinks, anchor_contentg, evs[qj]));
                                    lemma_confirmed_members_complete(
                                        others,
                                        evs,
                                        include_hardlinks,
                                        anchor_contentg,
                                        qj,
                                    );
                                    assert(cm.contains(others[qj]));
                                    let cidx = choose|x: int|
                                        0 <= x < cm.len() && cm[x] == others[qj];
                                    assert(cm.len() >= 1);
                                    assert(verdictg is Some);
                                    let g = verdictg.unwrap();
                                    assert(g.files@ == seq![bfull[0]] + cm);
                                    assert(out@[preout0.len() as int] == g);
                                    assert(g.files@[cidx + 1] == bfull[pjj]);
                                    assert(some_group_contains(out@, filesg[j].path@));
                                }
                            }
                        } else {
                            let pa = path_index(filesg, apath);
                            assert(0 <= pa < filesg.len() && filesg[pa].path@ == apath);
                            assert(content_of(filesg, apath) == filesg[pa].content@);
                            assert(filesg[pa].content@ != filesg[i].content@);
                            assert(crate::digest::md5_of(filesg[pa].content@)
                                == crate::digest::md5_of(filesg[i].content@));
                            assert(digest_collision_in(filesg));
                        }
                    }
                }
            }
            bi = bi + 1;
        }
    }
    out
}

/// Within a sound group every pairwise byte comparison agrees, not only
/// the comparisons against the anchor: each member's content equals the
/// anchor's, and byte-equality is transitive.
pub proof fn lemma_group_members_pairwise_equal(
    files: Seq<MemFile>,
    include_hardlinks: bool,
    g: DuplicateGroup,
    i: int,
    j: int,
)
    requires
        group_sound(files, include_hardlinks, g),
        0 <= i < g.files@.len(),
        0 <= j < g.files@.len(),
    ensures
        content_of(files, g.files@[i].path@) == content_of(files, g.files@[j].path@),
{
}

/// A scan of files whose contents are pairwise distinct reports no
/// groups: with nothing byte-identical there is nothing to confirm.
pub proof fn lemma_unique_contents_no_groups(
    files: Seq<MemFile>,
    include_hardlinks: bool,
    out: Seq<DuplicateGroup>,
)
    requires
        mem_distinct_paths(files),
        groups_sound(files, include_hardlinks, out),
        forall|i1: int, i2: int|
            #![trigger files[i1], files[i2]]
            0 <= i1 < i2 < files.len() ==> files[i1].content@ != files[i2].content@,
    ensures
        out.len() == 0,
{
    if out.len() > 0 {
        let g = out[0];
        assert(group_sound(files, include_hardlinks, g));
        let m0 = g.files@[0];
        let m1 = g.files@[1];
        assert(m0.path@ != m1.path@);
        assert(has_path(files, m0.path@));
        assert(has_path(files, m1.path@));
        let p0 = path_index(files, m0.path@);
        let p1 = path_index(files, m1.path@);
        assert(0 <= p0 < files.len() && files[p0].path@ == m0.path@);
        assert(0 <= p1 < files.len() && files[p1].path@ == m1.path@);
        assert(p0 != p1);
        assert(content_of(files, m1.path@) == content_of(files, m0.path@));
        if p0 < p1 {
            assert(files[p0].content@ != files[p1].content@);
        } else {
            assert(files[p1].content@ != files[p0].content@);
        }
    }
}

} // verus!
