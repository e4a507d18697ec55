//! The partitioning stages of the pipeline: files are bucketed by exact
//! size, then each bucket is re-partitioned by the partial fingerprint and
//! again by the full fingerprint.  Every stage discards empty files (size
//! stage), records whose fingerprint is missing (digest stages), and every
//! bucket with fewer than two members.

use vstd::prelude::*;
use crate::record::FileRecord;
use crate::record::distinct_paths;
use crate::digest::bytes_equal;
use crate::digest::copy_bytes;

verus! {

/// All files of one exact byte size, in discovery order.
#[derive(Clone, Debug)]
pub struct SizeBucket {
    pub size: u64,
    pub files: Vec<FileRecord>,
}

/// All files of one exact size sharing one fingerprint, in discovery order.
#[derive(Clone, Debug)]
pub struct HashBucket {
    pub size: u64,
    pub hash: Vec<u8>,
    pub files: Vec<FileRecord>,
}

/// The records belonging in a size bucket keyed by `s`.
pub open spec fn with_size(s: u64) -> spec_fn(FileRecord) -> bool {
    |r: FileRecord| r.size == s
}

/// A size bucket holds exactly the input's records of its size, which is
/// positive.
pub open spec fn size_bucket_exact(b: SizeBucket, input: Seq<FileRecord>) -> bool {
    &&& b.size > 0
    &&& b.files@ == input.filter(with_size(b.size))
}

/// A retained size bucket: a positive size, at least two members, every
/// member of the bucket's size.
pub open spec fn size_bucket_wf(b: SizeBucket) -> bool {
    &&& b.size > 0
    &&& b.files@.len() >= 2
    &&& forall|i: int| 0 <= i < b.files@.len() ==> (#[trigger] b.files@[i]).size == b.size
}

/// A retained fingerprint bucket: a positive size, at least two members,
/// every member of the bucket's size.
pub open spec fn hash_bucket_wf(b: HashBucket) -> bool {
    &&& b.size > 0
    &&& b.files@.len() >= 2
    &&& forall|i: int| 0 <= i < b.files@.len() ==> (#[trigger] b.files@[i]).size == b.size
}

/// The fingerprint a digest stage reads from a record: the full digest for
/// the last stage, the prefix digest before it; absent if not yet computed.
pub open spec fn digest_view(use_full: bool, r: FileRecord) -> Option<Seq<u8>> {
    if use_full {
        if r.full_hash is Some {
            Some(r.full_hash.unwrap()@)
        } else {
            None
        }
    } else {
        if r.partial_hash is Some {
            Some(r.partial_hash.unwrap()@)
        } else {
            None
        }
    }
}

/// The records belonging in a digest bucket keyed by `d`.
pub open spec fn with_digest(use_full: bool, d: Seq<u8>) -> spec_fn(FileRecord) -> bool {
    |r: FileRecord| digest_view(use_full, r) == Some(d)
}

/// Every member of the bucket carries the bucket's fingerprint.
pub open spec fn hash_bucket_members_match(use_full: bool, b: HashBucket) -> bool {
    forall|i: int|
        0 <= i < b.files@.len() ==> digest_view(use_full, #[trigger] b.files@[i]) == Some(b.hash@)
}

/// Two files of distinct sizes never share a size bucket: all members of
/// a retained bucket have the bucket's own size.
pub proof fn lemma_size_bucket_members_same_size(b: SizeBucket, i: int, j: int)
    requires
        size_bucket_wf(b),
        0 <= i < b.files@.len(),
        0 <= j < b.files@.len(),
    ensures
        b.files@[i].size == b.files@[j].size,
        b.files@[i].size > 0,
{
}

/// Two files of distinct sizes never share a fingerprint bucket either:
/// size equality remains a strict precondition downstream of size
/// bucketing.
pub proof fn lemma_hash_bucket_members_same_size(b: HashBucket, i: int, j: int)
    requires
        hash_bucket_wf(b),
        0 <= i < b.files@.len(),
        0 <= j < b.files@.len(),
    ensures
        b.files@[i].size == b.files@[j].size,
        b.files@[i].size > 0,
{
}

fn find_size_bucket(buckets: &Vec<SizeBucket>, size: u64) -> (r: Option<usize>)
    ensures
        match r {
            Some(j) => j < buckets@.len() && buckets@[j as int].size == size,
            None => forall|m: int|
                0 <= m < buckets@.len() ==> (#[trigger] buckets@[m]).size != size,
        },
{
    let mut j: usize = 0;
    while j < buckets.len()
        invariant
            j <= buckets@.len(),
            forall|m: int| 0 <= m < j ==> (#[trigger] buckets@[m]).size != size,
        decreases buckets@.len() - j,
    {
        if buckets[j].size == size {
            return Some(j);
        }
        j = j + 1;
    }
    None
}

fn find_digest_bucket(buckets: &Vec<HashBucket>, d: &Vec<u8>) -> (r: Option<usize>)
    ensures
        match r {
            Some(j) => j < buckets@.len() && buckets@[j as int].hash@ == d@,
            None => forall|m: int|
                0 <= m < buckets@.len() ==> (#[trigger] buckets@[m]).hash@ != d@,
        },
{
    let mut j: usize = 0;
    while j < buckets.len()
        invariant
            j <= buckets@.len(),
            forall|m: int| 0 <= m < j ==> (#[trigger] buckets@[m]).hash@ != d@,
        decreases buckets@.len() - j,
    {
        if bytes_equal(buckets[j].hash.as_slice(), d.as_slice()) {
            return Some(j);
        }
        j = j + 1;
    }
    None
}

/// First pass of size bucketing: every record with a positive size is
/// placed in the bucket of its exact size; singletons are kept for now.
#[verifier::rlimit(60)]
fn collect_size_buckets(files: Vec<FileRecord>) -> (buckets: Vec<SizeBucket>)
    ensures
        forall|k: int|
            0 <= k < buckets@.len() ==> size_bucket_exact(#[trigger] buckets@[k], files@),
        forall|k1: int, k2: int|
            0 <= k1 < k2 < buckets@.len() ==> buckets@[k1].size != buckets@[k2].size,
        forall|s: u64|
            #![trigger files@.filter(with_size(s))]
            s > 0 && files@.filter(with_size(s)).len() >= 1 ==> exists|k: int|
                0 <= k < buckets@.len() && (#[trigger] buckets@[k]).size == s,
{
    let mut files = files;
    let ghost input = files@;
    let mut buckets: Vec<SizeBucket> = Vec::new();
    let ghost mut i: int = 0;
    proof {
        assert forall|s: u64| true implies input.take(0).filter(with_size(s)).len() == 0 by {
            assert(input.take(0) =~= Seq::<FileRecord>::empty());
            reveal_with_fuel(Seq::filter, 2);
        }
    }
    while files.len() > 0
        invariant
            0 <= i <= input.len(),
            files@ == input.subrange(i, input.len() as int),
            forall|k: int|
                0 <= k < buckets@.len() ==> size_bucket_exact(
                    #[trigger] buckets@[k],
                    input.take(i),
                ),
            forall|k1: int, k2: int|
                0 <= k1 < k2 < buckets@.len() ==> buckets@[k1].size != buckets@[k2].size,
            forall|s: u64|
                #![trigger input.take(i).filter(with_size(s))]
                s > 0 && input.take(i).filter(with_size(s)).len() >= 1 ==> exists|k: int|
                    0 <= k < buckets@.len() && (#[trigger] buckets@[k]).size == s,
        decreases files.len(),
    {
        let r = files.remove(0);
        proof {
            assert(r == input[i]);
            assert(files@ =~= input.subrange(i + 1, input.len() as int));
            assert(input.take(i + 1) =~= input.take(i).push(r));
        }
        if r.size > 0 {
            let sz = r.size;
            match find_size_bucket(&buckets, sz) {
                Some(j) => {
                    let ghost pre = buckets@;
                    let mut b = buckets.remove(j);
                    b.files.push(r);
                    buckets.insert(j, b);
                    proof {
                        assert(buckets@ =~= pre.update(j as int, b));
                        assert(b.files@ == pre[j as int].files@.push(r));
                        assert forall|k: int| 0 <= k < buckets@.len() implies size_bucket_exact(
                            #[trigger] buckets@[k],
                            input.take(i + 1),
                        ) by {
                            if k == j {
                                input.take(i).lemma_filter_push(r, with_size(sz));
                                assert(with_size(sz)(r));
                            } else {
                                assert(buckets@[k] == pre[k]);
                                input.take(i).lemma_filter_push(r, with_size(pre[k].size));
                                assert(pre[k].size != sz);
                                assert(!with_size(pre[k].size)(r));
                            }
                        }
                        assert forall|s: u64|
                            s > 0 && input.take(i + 1).filter(with_size(s)).len()
                                >= 1 implies exists|k: int|
                            0 <= k < buckets@.len() && (#[trigger] buckets@[k]).size == s by {
                            input.take(i).lemma_filter_push(r, with_size(s));
                            if with_size(s)(r) {
                                assert(buckets@[j as int].size == s);
                            } else {
                                let k = choose|k: int|
                                    0 <= k < pre.len() && (#[trigger] pre[k]).size == s;
                                assert(buckets@[k].size == s);
                            }
                        }
                    }
                }
                None => {
                    let mut v: Vec<FileRecord> = Vec::new();
                    v.push(r);
                    let ghost pre = buckets@;
                    buckets.push(SizeBucket { size: sz, files: v });
                    proof {
                        let nb = buckets@[pre.len() as int];
                        assert(buckets@ =~= pre.push(nb));
                        assert(input.take(i).filter(with_size(sz)).len() == 0) by {
                            if input.take(i).filter(with_size(sz)).len() >= 1 {
                                let k = choose|k: int|
                                    0 <= k < pre.len() && (#[trigger] pre[k]).size == sz;
                            }
                        }
                        assert(input.take(i).filter(with_size(sz)) =~= Seq::<FileRecord>::empty());
                        assert(nb.files@ =~= Seq::<FileRecord>::empty().push(r));
                        assert forall|k: int| 0 <= k < buckets@.len() implies size_bucket_exact(
                            #[trigger] buckets@[k],
                            input.take(i + 1),
                        ) by {
                            if k < pre.len() {
                                assert(buckets@[k] == pre[k]);
                                input.take(i).lemma_filter_push(r, with_size(pre[k].size));
                                assert(pre[k].size != sz);
                                assert(!with_size(pre[k].size)(r));
                            } else {
                                input.take(i).lemma_filter_push(r, with_size(sz));
                                assert(with_size(sz)(r));
                            }
                        }
                        assert forall|s: u64|
                            s > 0 && input.take(i + 1).filter(with_size(s)).len()
                                >= 1 implies exists|k: int|
                            0 <= k < buckets@.len() && (#[trigger] buckets@[k]).size == s by {
                            input.take(i).lemma_filter_push(r, with_size(s));
                            if with_size(s)(r) {
                                assert(buckets@[pre.len() as int].size == s);
                            } else {
                                let k = choose|k: int|
                                    0 <= k < pre.len() && (#[trigger] pre[k]).size == s;
                                assert(buckets@[k].size == s);
                            }
                        }
                    }
                }
            }
        } else {
            proof {
                assert forall|k: int| 0 <= k < buckets@.len() implies size_bucket_exact(
                    #[trigger] buckets@[k],
                    input.take(i + 1),
                ) by {
                    input.take(i).lemma_filter_push(r, with_size(buckets@[k].size));
                    assert(!with_size(buckets@[k].size)(r));
                }
                assert forall|s: u64|
                    s > 0 && input.take(i + 1).filter(with_size(s)).len() >= 1 implies exists|
                    k: int,
                |
                    0 <= k < buckets@.len() && (#[trigger] buckets@[k]).size == s by {
                    input.take(i).lemma_filter_push(r, with_size(s));
                    assert(!with_size(s)(r));
                    let k = choose|k: int|
                        0 <= k < buckets@.len() && (#[trigger] buckets@[k]).size == s;
                }
            }
        }
        proof {
            i = i + 1;
        }
    }
    proof {
        assert(input.take(input.len() as int) =~= input);
    }
    buckets
}

/// Partitions candidate records by exact byte size.  Empty files carry no
/// duplicate information and are excluded unconditionally; buckets with a
/// single member are discarded.  Bucket membership keeps discovery order.
#[verifier::rlimit(60)]
pub fn group_by_size(files: Vec<FileRecord>) -> (out: Vec<SizeBucket>)
    ensures
        forall|k: int| 0 <= k < out@.len() ==> size_bucket_exact(#[trigger] out@[k], files@),
        forall|k: int| 0 <= k < out@.len() ==> size_bucket_wf(#[trigger] out@[k]),
        forall|k1: int, k2: int| 0 <= k1 < k2 < out@.len() ==> out@[k1].size != out@[k2].size,
        forall|s: u64|
            #![trigger files@.filter(with_size(s))]
            s > 0 && files@.filter(with_size(s)).len() >= 2 ==> exists|k: int|
                0 <= k < out@.len() && (#[trigger] out@[k]).size == s,
{
    let ghost input = files@;
    let mut buckets = collect_size_buckets(files);
    let ghost all = buckets@;
    let mut out: Vec<SizeBucket> = Vec::new();
    let ghost mut j: int = 0;
    while buckets.len() > 0
        invariant
            0 <= j <= all.len(),
            buckets@ == all.subrange(j, all.len() as int),
            forall|k: int| 0 <= k < all.len() ==> size_bucket_exact(#[trigger] all[k], input),
            forall|k1: int, k2: int|
                0 <= k1 < k2 < all.len() ==> all[k1].size != all[k2].size,
            forall|s: u64|
                #![trigger input.filter(with_size(s))]
                s > 0 && input.filter(with_size(s)).len() >= 1 ==> exists|k: int|
                    0 <= k < all.len() && (#[trigger] all[k]).size == s,
            forall|k: int|
                0 <= k < out@.len() ==> all.subrange(0, j).contains(#[trigger] out@[k]),
            forall|k: int| 0 <= k < out@.len() ==> (#[trigger] out@[k]).files@.len() >= 2,
            forall|k1: int, k2: int|
                0 <= k1 < k2 < out@.len() ==> out@[k1].size != out@[k2].size,
            forall|m: int|
                0 <= m < j && (#[trigger] all[m]).files@.len() >= 2 ==> out@.contains(all[m]),
        decreases buckets.len(),
    {
        let b = buckets.remove(0);
        proof {
            assert(b == all[j]);
            assert(buckets@ =~= all.subrange(j + 1, all.len() as int));
        }
        let ghost pre = out@;
        let keep = b.files.len() >= 2;
        if keep {
            out.push(b);
        }
        proof {
            assert forall|k: int| 0 <= k < out@.len() implies all.subrange(0, j + 1).contains(
                #[trigger] out@[k],
            ) by {
                if k < pre.len() {
                    assert(out@[k] == pre[k]);
                    let m = choose|m: int| 0 <= m < j && all.subrange(0, j)[m] == pre[k];
                    assert(all.subrange(0, j + 1)[m] == pre[k]);
                } else {
                    assert(out@[k] == all[j]);
                    assert(all.subrange(0, j + 1)[j] == all[j]);
                }
            }
            if keep {
                assert forall|k1: int, k2: int|
                    0 <= k1 < k2 < out@.len() implies out@[k1].size != out@[k2].size by {
                    if k2 == pre.len() {
                        let m = choose|m: int| 0 <= m < j && all.subrange(0, j)[m] == pre[k1];
                        assert(out@[k1] == all[m]);
                        assert(out@[k2] == all[j]);
                        assert(all[m].size != all[j].size);
                    }
                }
            }
            assert forall|m: int|
                0 <= m < j + 1 && (#[trigger] all[m]).files@.len() >= 2 implies out@.contains(
                all[m],
            ) by {
                if m < j {
                    let k = choose|k: int| 0 <= k < pre.len() && pre[k] == all[m];
                    assert(out@[k] == all[m]);
                } else {
                    assert(b == all[m]);
                    assert(keep);
                    assert(out@[pre.len() as int] == all[m]);
                }
            }
            j = j + 1;
        }
    }
    proof {
        assert forall|k: int| 0 <= k < out@.len() implies (size_bucket_exact(
            #[trigger] out@[k],
            input,
        ) && size_bucket_wf(out@[k])) by {
            assert(all.subrange(0, all.len() as int) =~= all);
            let m = choose|m: int| 0 <= m < all.len() && all[m] == out@[k];
            assert(size_bucket_exact(all[m], input));
            assert(out@[k].files@ == input.filter(with_size(out@[k].size)));
            assert forall|i2: int|
                0 <= i2 < out@[k].files@.len() implies (#[trigger] out@[k].files@[i2]).size
                == out@[k].size by {
                Seq::lemma_filter_pred(input, with_size(out@[k].size), i2);
            }
        }
        assert forall|s: u64|
            s > 0 && input.filter(with_size(s)).len() >= 2 implies exists|k: int|
            0 <= k < out@.len() && (#[trigger] out@[k]).size == s by {
            let m = choose|m: int| 0 <= m < all.len() && (#[trigger] all[m]).size == s;
            assert(all[m].files@ == input.filter(with_size(s)));
            assert(all[m].files@.len() >= 2);
            assert(out@.contains(all[m]));
            let k = choose|k: int| 0 <= k < out@.len() && out@[k] == all[m];
            assert(out@[k].size == s);
        }
    }
    out
}

fn digest_of<'a>(use_full: bool, r: &'a FileRecord) -> (d: Option<&'a Vec<u8>>)
    ensures
        match d {
            Some(v) => digest_view(use_full, *r) == Some(v@),
            None => digest_view(use_full, *r) is None,
        },
{
    if use_full {
        match &r.full_hash {
            Some(v) => Some(v),
            None => None,
        }
    } else {
        match &r.partial_hash {
            Some(v) => Some(v),
            None => None,
        }
    }
}

/// First pass of a digest stage over one bucket's files: records carrying
/// a fingerprint are re-bucketed by its exact value; records without one
/// (an unreadable file) are skipped; singletons are kept for now.
#[verifier::rlimit(60)]
fn collect_digest_buckets(size: u64, files: Vec<FileRecord>, use_full: bool) -> (buckets: Vec<
    HashBucket,
>)
    ensures
        forall|k: int|
            0 <= k < buckets@.len() ==> {
                &&& (#[trigger] buckets@[k]).size == size
                &&& buckets@[k].files@ == files@.filter(with_digest(use_full, buckets@[k].hash@))
            },
        forall|k1: int, k2: int|
            0 <= k1 < k2 < buckets@.len() ==> buckets@[k1].hash@ != buckets@[k2].hash@,
        forall|d: Seq<u8>|
            #![trigger files@.filter(with_digest(use_full, d))]
            files@.filter(with_digest(use_full, d)).len() >= 1 ==> exists|k: int|
                0 <= k < buckets@.len() && (#[trigger] buckets@[k]).hash@ == d,
{
    let mut files = files;
    let ghost input = files@;
    let mut buckets: Vec<HashBucket> = Vec::new();
    let ghost mut i: int = 0;
    proof {
        assert forall|d: Seq<u8>| true implies input.take(0).filter(
            with_digest(use_full, d),
        ).len() == 0 by {
            assert(input.take(0) =~= Seq::<FileRecord>::empty());
            reveal_with_fuel(Seq::filter, 2);
        }
    }
    while files.len() > 0
        invariant
            0 <= i <= input.len(),
            files@ == input.subrange(i, input.len() as int),
            forall|k: int|
                0 <= k < buckets@.len() ==> {
                    &&& (#[trigger] buckets@[k]).size == size
                    &&& buckets@[k].files@ == input.take(i).filter(
                        with_digest(use_full, buckets@[k].hash@),
                    )
                },
            forall|k1: int, k2: int|
                0 <= k1 < k2 < buckets@.len() ==> buckets@[k1].hash@ != buckets@[k2].hash@,
            forall|d: Seq<u8>|
                #![trigger input.take(i).filter(with_digest(use_full, d))]
                input.take(i).filter(with_digest(use_full, d)).len() >= 1 ==> exists|k: int|
                    0 <= k < buckets@.len() && (#[trigger] buckets@[k]).hash@ == d,
        decreases files.len(),
    {
        let r = files.remove(0);
        proof {
            assert(r == input[i]);
            assert(files@ =~= input.subrange(i + 1, input.len() as int));
            assert(input.take(i + 1) =~= input.take(i).push(r));
        }
        let d_opt = digest_of(use_full, &r);
        let j_opt: Option<usize> = match d_opt {
            Some(d) => find_digest_bucket(&buckets, d),
            None => None,
        };
        match d_opt {
            None => {
                proof {
                    assert forall|k: int|
                        0 <= k < buckets@.len() implies ((#[trigger] buckets@[k]).size == size
                        && buckets@[k].files@ == input.take(i + 1).filter(
                        with_digest(use_full, buckets@[k].hash@),
                    )) by {
                        input.take(i).lemma_filter_push(r, with_digest(use_full, buckets@[k].hash@));
                        assert(!with_digest(use_full, buckets@[k].hash@)(r));
                    }
                    assert forall|d: Seq<u8>|
                        input.take(i + 1).filter(with_digest(use_full, d)).len()
                            >= 1 implies exists|k: int|
                        0 <= k < buckets@.len() && (#[trigger] buckets@[k]).hash@ == d by {
                        input.take(i).lemma_filter_push(r, with_digest(use_full, d));
                        assert(!with_digest(use_full, d)(r));
                        let k = choose|k: int|
                            0 <= k < buckets@.len() && (#[trigger] buckets@[k]).hash@ == d;
                    }
                }
            }
            Some(d) => {
                let ghost dv = d@;
                proof {
                    assert(with_digest(use_full, dv)(r));
                }
                match j_opt {
                    Some(j) => {
                        let ghost pre = buckets@;
                        let mut b = buckets.remove(j);
                        b.files.push(r);
                        buckets.insert(j, b);
                        proof {
                            assert(buckets@ =~= pre.update(j as int, b));
                            assert(b.files@ == pre[j as int].files@.push(r));
                            assert forall|k: int|
                                0 <= k < buckets@.len() implies ((#[trigger] buckets@[k]).size
                                == size && buckets@[k].files@ == input.take(i + 1).filter(
                                with_digest(use_full, buckets@[k].hash@),
                            )) by {
                                if k == j {
                                    input.take(i).lemma_filter_push(r, with_digest(use_full, dv));
                                    assert(buckets@[k].hash@ == dv);
                                } else {
                                    assert(buckets@[k] == pre[k]);
                                    input.take(i).lemma_filter_push(
                                        r,
                                        with_digest(use_full, pre[k].hash@),
                                    );
                                    assert(pre[k].hash@ != dv);
                                    assert(!with_digest(use_full, pre[k].hash@)(r));
                                }
                            }
                            assert forall|d2: Seq<u8>|
                                input.take(i + 1).filter(with_digest(use_full, d2)).len()
                                    >= 1 implies exists|k: int|
                                0 <= k < buckets@.len() && (#[trigger] buckets@[k]).hash@
                                    == d2 by {
                                input.take(i).lemma_filter_push(r, with_digest(use_full, d2));
                                if d2 == dv {
                                    assert(buckets@[j as int].hash@ == d2);
                                } else {
                                    assert(!with_digest(use_full, d2)(r));
                                    let k = choose|k: int|
                                        0 <= k < pre.len() && (#[trigger] pre[k]).hash@ == d2;
                                    assert(buckets@[k].hash@ == d2);
                                }
                            }
                        }
                    }
                    None => {
                        let key = copy_bytes(d);
                        let mut v: Vec<FileRecord> = Vec::new();
                        v.push(r);
                        let ghost pre = buckets@;
                        buckets.push(HashBucket { size, hash: key, files: v });
                        proof {
                            let nb = buckets@[pre.len() as int];
                            assert(buckets@ =~= pre.push(nb));
                            assert(nb.hash@ == dv);
                            assert(input.take(i).filter(with_digest(use_full, dv)).len() == 0)
                                by {
                                if input.take(i).filter(with_digest(use_full, dv)).len() >= 1 {
                                    let k = choose|k: int|
                                        0 <= k < pre.len() && (#[trigger] pre[k]).hash@ == dv;
                                }
                            }
                            assert(input.take(i).filter(with_digest(use_full, dv)) =~= Seq::<
                                FileRecord,
                            >::empty());
                            assert(nb.files@ =~= Seq::<FileRecord>::empty().push(r));
                            assert forall|k: int|
                                0 <= k < buckets@.len() implies ((#[trigger] buckets@[k]).size
                                == size && buckets@[k].files@ == input.take(i + 1).filter(
                                with_digest(use_full, buckets@[k].hash@),
                            )) by {
                                if k < pre.len() {
                                    assert(buckets@[k] == pre[k]);
                                    input.take(i).lemma_filter_push(
                                        r,
                                        with_digest(use_full, pre[k].hash@),
                                    );
                                    assert(pre[k].hash@ != dv);
                                    assert(!with_digest(use_full, pre[k].hash@)(r));
                                } else {
                                    input.take(i).lemma_filter_push(r, with_digest(use_full, dv));
                                }
                            }
                            assert forall|d2: Seq<u8>|
                                input.take(i + 1).filter(with_digest(use_full, d2)).len()
                                    >= 1 implies exists|k: int|
                                0 <= k < buckets@.len() && (#[trigger] buckets@[k]).hash@
                                    == d2 by {
                                input.take(i).lemma_filter_push(r, with_digest(use_full, d2));
                                if d2 == dv {
                                    assert(buckets@[pre.len() as int].hash@ == d2);
                                } else {
                                    assert(!with_digest(use_full, d2)(r));
                                    let k = choose|k: int|
                                        0 <= k < pre.len() && (#[trigger] pre[k]).hash@ == d2;
                                    assert(buckets@[k].hash@ == d2);
                                }
                            }
                        }
                    }
                }
            }
        }
        proof {
            i = i + 1;
        }
    }
    proof {
        assert(input.take(input.len() as int) =~= input);
    }
    buckets
}

/// One digest stage over one bucket's files, with singleton pruning.
#[verifier::rlimit(60)]
fn rebucket_by_digest(size: u64, files: Vec<FileRecord>, use_full: bool) -> (out: Vec<HashBucket>)
    ensures
        forall|k: int|
            0 <= k < out@.len() ==> {
                &&& (#[trigger] out@[k]).size == size
                &&& out@[k].files@ == files@.filter(with_digest(use_full, out@[k].hash@))
                &&& out@[k].files@.len() >= 2
            },
        forall|k1: int, k2: int|
            0 <= k1 < k2 < out@.len() ==> out@[k1].hash@ != out@[k2].hash@,
        forall|d: Seq<u8>|
            #![trigger files@.filter(with_digest(use_full, d))]
            files@.filter(with_digest(use_full, d)).len() >= 2 ==> exists|k: int|
                0 <= k < out@.len() && (#[trigger] out@[k]).hash@ == d,
{
    let ghost input = files@;
    let mut buckets = collect_digest_buckets(size, files, use_full);
    let ghost all = buckets@;
    let mut out: Vec<HashBucket> = Vec::new();
    let ghost mut j: int = 0;
    while buckets.len() > 0
        invariant
            0 <= j <= all.len(),
            buckets@ == all.subrange(j, all.len() as int),
            forall|k: int|
                0 <= k < all.len() ==> {
                    &&& (#[trigger] all[k]).size == size
                    &&& all[k].files@ == input.filter(with_digest(use_full, all[k].hash@))
                },
            forall|k1: int, k2: int|
                0 <= k1 < k2 < all.len() ==> all[k1].hash@ != all[k2].hash@,
            forall|d: Seq<u8>|
                #![trigger input.filter(with_digest(use_full, d))]
                input.filter(with_digest(use_full, d)).len() >= 1 ==> exists|k: int|
                    0 <= k < all.len() && (#[trigger] all[k]).hash@ == d,
            forall|k: int|
                0 <= k < out@.len() ==> all.subrange(0, j).contains(#[trigger] out@[k]),
            forall|k: int| 0 <= k < out@.len() ==> (#[trigger] out@[k]).files@.len() >= 2,
            forall|k1: int, k2: int|
                0 <= k1 < k2 < out@.len() ==> out@[k1].hash@ != out@[k2].hash@,
            forall|m: int|
                0 <= m < j && (#[trigger] all[m]).files@.len() >= 2 ==> out@.contains(all[m]),
        decreases buckets.len(),
    {
        let b = buckets.remove(0);
        proof {
            assert(b == all[j]);
            assert(buckets@ =~= all.subrange(j + 1, all.len() as int));
        }
        let ghost pre = out@;
        let keep = b.files.len() >= 2;
        if keep {
            out.push(b);
        }
        proof {
            assert forall|k: int| 0 <= k < out@.len() implies all.subrange(0, j + 1).contains(
                #[trigger] out@[k],
            ) by {
                if k < pre.len() {
                    assert(out@[k] == pre[k]);
                    let m = choose|m: int| 0 <= m < j && all.subrange(0, j)[m] == pre[k];
                    assert(all.subrange(0, j + 1)[m] == pre[k]);
                } else {
                    assert(out@[k] == all[j]);
                    assert(all.subrange(0, j + 1)[j] == all[j]);
                }
            }
            if keep {
                assert forall|k1: int, k2: int|
                    0 <= k1 < k2 < out@.len() implies out@[k1].hash@ != out@[k2].hash@ by {
                    if k2 == pre.len() {
                        let m = choose|m: int| 0 <= m < j && all.subrange(0, j)[m] == pre[k1];
                        assert(out@[k1] == all[m]);
                        assert(out@[k2] == all[j]);
                        assert(all[m].hash@ != all[j].hash@);
                    }
                }
            }
            assert forall|m: int|
                0 <= m < j + 1 && (#[trigger] all[m]).files@.len() >= 2 implies out@.contains(
                all[m],
            ) by {
                if m < j {
                    let k = choose|k: int| 0 <= k < pre.len() && pre[k] == all[m];
                    assert(out@[k] == all[m]);
                } else {
                    assert(b == all[m]);
                    assert(keep);
                    assert(out@[pre.len() as int] == all[m]);
                }
            }
            j = j + 1;
        }
    }
    proof {
        assert forall|k: int|
            0 <= k < out@.len() implies ((#[trigger] out@[k]).size == size && out@[k].files@
            == input.filter(with_digest(use_full, out@[k].hash@)) && out@[k].files@.len() >= 2) by {
            assert(all.subrange(0, all.len() as int) =~= all);
            let m = choose|m: int| 0 <= m < all.len() && all[m] == out@[k];
        }
        assert forall|d: Seq<u8>|
            input.filter(with_digest(use_full, d)).len() >= 2 implies exists|k: int|
            0 <= k < out@.len() && (#[trigger] out@[k]).hash@ == d by {
            let m = choose|m: int| 0 <= m < all.len() && (#[trigger] all[m]).hash@ == d;
            assert(all[m].files@ == input.filter(with_digest(use_full, d)));
            assert(all[m].files@.len() >= 2);
            assert(out@.contains(all[m]));
            let k = choose|k: int| 0 <= k < out@.len() && out@[k] == all[m];
            assert(out@[k].hash@ == d);
        }
    }
    out
}

/// Filtering keeps every member a member of the source, and keeps paths
/// pairwise distinct.
pub proof fn lemma_filter_members(src: Seq<FileRecord>, pred: spec_fn(FileRecord) -> bool)
    ensures
        forall|i: int|
            #![trigger src.filter(pred)[i]]
            0 <= i < src.filter(pred).len() ==> exists|q: int|
                0 <= q < src.len() && #[trigger] src[q] == src.filter(pred)[i],
        distinct_paths(src) ==> distinct_paths(src.filter(pred)),
    decreases src.len(),
{
    reveal(Seq::filter);
    if src.len() == 0 {
    } else {
        let dl = src.drop_last();
        let sub = dl.filter(pred);
        let full = src.filter(pred);
        lemma_filter_members(dl, pred);
        assert forall|i: int| #![trigger full[i]] 0 <= i < full.len() implies exists|q: int|
            0 <= q < src.len() && #[trigger] src[q] == full[i] by {
            if i < sub.len() {
                assert(full[i] == sub[i]);
                let q = choose|q: int| 0 <= q < dl.len() && #[trigger] dl[q] == sub[i];
                assert(src[q] == sub[i]);
            } else {
                assert(full[i] == src[src.len() - 1]);
            }
        }
        if distinct_paths(src) {
            assert forall|i1: int, i2: int|
                #![trigger full[i1], full[i2]]
                0 <= i1 < i2 < full.len() implies full[i1].path@ != full[i2].path@ by {
                if i2 < sub.len() {
                    assert(full[i1] == sub[i1]);
                    assert(full[i2] == sub[i2]);
                } else {
                    assert(full[i2] == src.last());
                    assert(full[i1] == sub[i1]);
                    let q = choose|q: int| 0 <= q < dl.len() && #[trigger] dl[q] == sub[i1];
                    assert(src[q] == sub[i1]);
                    assert(src[q].path@ != src[src.len() - 1].path@);
                }
            }
        }
    }
}

/// The buckets partition their records: no record belongs to two of
/// them.  Buckets are the classes of a key mapping, so a digest stage
/// hands its successor pairwise disjoint buckets and gets pairwise
/// disjoint buckets back.
pub open spec fn buckets_disjoint(buckets: Seq<HashBucket>) -> bool {
    forall|k1: int, k2: int, i1: int, i2: int|
        #![trigger buckets[k1].files@[i1], buckets[k2].files@[i2]]
        0 <= k1 < k2 < buckets.len() && 0 <= i1 < buckets[k1].files@.len() && 0 <= i2
            < buckets[k2].files@.len() ==> buckets[k1].files@[i1] != buckets[k2].files@[i2]
}

/// The bucket refines one of the stage's input buckets: it holds exactly
/// that bucket's records carrying the bucket's fingerprint.
pub open spec fn refines_size_bucket(b: HashBucket, groups: Seq<SizeBucket>, use_full: bool) -> bool {
    exists|j: int|
        0 <= j < groups.len() && b.size == (#[trigger] groups[j]).size && b.files@
            == groups[j].files@.filter(with_digest(use_full, b.hash@))
}

/// The bucket refines one of the stage's input fingerprint buckets.
pub open spec fn refines_hash_bucket(b: HashBucket, groups: Seq<HashBucket>, use_full: bool) -> bool {
    exists|j: int|
        0 <= j < groups.len() && b.size == (#[trigger] groups[j]).size && b.files@
            == groups[j].files@.filter(with_digest(use_full, b.hash@))
}

/// Re-partitions every size bucket by the partial fingerprint.  Records
/// without one (an unreadable file) are skipped; buckets that fall under
/// two members are discarded; member order is preserved.
#[verifier::rlimit(80)]
pub fn group_by_partial_hash(groups: Vec<SizeBucket>) -> (out: Vec<HashBucket>)
    requires
        forall|j: int| 0 <= j < groups@.len() ==> size_bucket_wf(#[trigger] groups@[j]),
        forall|j1: int, j2: int|
            0 <= j1 < j2 < groups@.len() ==> groups@[j1].size != groups@[j2].size,
    ensures
        forall|k: int| 0 <= k < out@.len() ==> hash_bucket_wf(#[trigger] out@[k]),
        forall|k: int|
            0 <= k < out@.len() ==> hash_bucket_members_match(false, #[trigger] out@[k]),
        forall|k: int|
            0 <= k < out@.len() ==> refines_size_bucket(#[trigger] out@[k], groups@, false),
        forall|k1: int, k2: int|
            0 <= k1 < k2 < out@.len() ==> out@[k1].size != out@[k2].size || out@[k1].hash@
                != out@[k2].hash@,
        forall|m: int, d: Seq<u8>|
            #![trigger groups@[m].files@.filter(with_digest(false, d))]
            0 <= m < groups@.len() && groups@[m].files@.filter(with_digest(false, d)).len() >= 2
                ==> exists|k: int|
                0 <= k < out@.len() && (#[trigger] out@[k]).size == groups@[m].size
                    && out@[k].hash@ == d && out@[k].files@ == groups@[m].files@.filter(
                    with_digest(false, d),
                ),
        buckets_disjoint(out@),
{
    let mut groups = groups;
    let ghost input = groups@;
    let mut out: Vec<HashBucket> = Vec::new();
    let ghost mut j: int = 0;
    while groups.len() > 0
        invariant
            0 <= j <= input.len(),
            groups@ == input.subrange(j, input.len() as int),
            forall|m: int| 0 <= m < input.len() ==> size_bucket_wf(#[trigger] input[m]),
            forall|m1: int, m2: int|
                0 <= m1 < m2 < input.len() ==> input[m1].size != input[m2].size,
            forall|k: int| 0 <= k < out@.len() ==> hash_bucket_wf(#[trigger] out@[k]),
            forall|k: int|
                0 <= k < out@.len() ==> hash_bucket_members_match(false, #[trigger] out@[k]),
            forall|k: int|
                0 <= k < out@.len() ==> refines_size_bucket(
                    #[trigger] out@[k],
                    input.subrange(0, j),
                    false,
                ),
            forall|k1: int, k2: int|
                0 <= k1 < k2 < out@.len() ==> out@[k1].size != out@[k2].size || out@[k1].hash@
                    != out@[k2].hash@,
            buckets_disjoint(out@),
            forall|m: int, d: Seq<u8>|
                #![trigger input[m].files@.filter(with_digest(false, d))]
                0 <= m < j && input[m].files@.filter(with_digest(false, d)).len() >= 2
                    ==> exists|k: int|
                    0 <= k < out@.len() && (#[trigger] out@[k]).size == input[m].size
                        && out@[k].hash@ == d && out@[k].files@ == input[m].files@.filter(
                        with_digest(false, d),
                    ),
        decreases groups.len(),
    {
        let b = groups.remove(0);
        proof {
            assert(b == input[j]);
            assert(groups@ =~= input.subrange(j + 1, input.len() as int));
            assert(size_bucket_wf(b));
        }
        let sz = b.size;
        let ghost bfiles = b.files@;
        let mut batch = rebucket_by_digest(sz, b.files, false);
        let ghost batchv = batch@;
        let ghost pre = out@;
        out.append(&mut batch);
        proof {
            assert(out@ =~= pre + batchv);
            assert forall|k: int| 0 <= k < out@.len() implies (hash_bucket_wf(#[trigger] out@[k])
                && hash_bucket_members_match(false, out@[k]) && refines_size_bucket(
                out@[k],
                input.subrange(0, j + 1),
                false,
            )) by {
                if k < pre.len() {
                    assert(out@[k] == pre[k]);
                    let m = choose|m: int|
                        0 <= m < j && pre[k].size == (#[trigger] input.subrange(0, j)[m]).size
                            && pre[k].files@ == input.subrange(0, j)[m].files@.filter(
                            with_digest(false, pre[k].hash@),
                        );
                    assert(input.subrange(0, j + 1)[m] == input.subrange(0, j)[m]);
                } else {
                    let bb = out@[k];
                    assert(bb == batchv[k - pre.len()]);
                    assert(bb.size == sz);
                    assert(bb.files@ == bfiles.filter(with_digest(false, bb.hash@)));
                    assert(bb.files@.len() >= 2);
                    assert forall|i2: int|
                        0 <= i2 < bb.files@.len() implies ((#[trigger] bb.files@[i2]).size
                        == bb.size && digest_view(false, bb.files@[i2]) == Some(bb.hash@)) by {
                        Seq::lemma_filter_pred(bfiles, with_digest(false, bb.hash@), i2);
                        assert(bfiles.filter(with_digest(false, bb.hash@)).contains(
                            bb.files@[i2],
                        ));
                        Seq::lemma_filter_contains_rev(
                            bfiles,
                            with_digest(false, bb.hash@),
                            bb.files@[i2],
                        );
                        let ii = choose|ii: int|
                            0 <= ii < bfiles.len() && bfiles[ii] == bb.files@[i2];
                    }
                    assert(input.subrange(0, j + 1)[j] == input[j]);
                    assert(bb.size == input[j].size && bb.files@ == input[j].files@.filter(
                        with_digest(false, bb.hash@),
                    ));
                }
            }
            assert forall|k1: int, k2: int|
                0 <= k1 < k2 < out@.len() implies (out@[k1].size != out@[k2].size
                || out@[k1].hash@ != out@[k2].hash@) by {
                if k1 < pre.len() && k2 >= pre.len() {
                    let m = choose|m: int|
                        0 <= m < j && pre[k1].size == (#[trigger] input.subrange(0, j)[m]).size
                            && pre[k1].files@ == input.subrange(0, j)[m].files@.filter(
                            with_digest(false, pre[k1].hash@),
                        );
                    assert(out@[k1].size == input[m].size);
                    assert(out@[k2].size == sz);
                    assert(input[m].size != input[j].size);
                } else if k1 >= pre.len() {
                    assert(out@[k1] == batchv[k1 - pre.len()]);
                    assert(out@[k2] == batchv[k2 - pre.len()]);
                    assert(batchv[k1 - pre.len()].hash@ != batchv[k2 - pre.len()].hash@);
                }
            }
            assert forall|k1: int, k2: int, i1: int, i2: int|
                #![trigger out@[k1].files@[i1], out@[k2].files@[i2]]
                0 <= k1 < k2 < out@.len() && 0 <= i1 < out@[k1].files@.len() && 0 <= i2
                    < out@[k2].files@.len() implies out@[k1].files@[i1]
                != out@[k2].files@[i2] by {
                if k2 < pre.len() {
                    assert(out@[k1] == pre[k1]);
                    assert(out@[k2] == pre[k2]);
                    assert(pre[k1].files@[i1] != pre[k2].files@[i2]);
                } else if k1 >= pre.len() {
                    assert(out@[k1] == batchv[k1 - pre.len()]);
                    assert(out@[k2] == batchv[k2 - pre.len()]);
                    assert(out@[k1].files@ == bfiles.filter(with_digest(false, out@[k1].hash@)));
                    assert(out@[k2].files@ == bfiles.filter(with_digest(false, out@[k2].hash@)));
                    Seq::lemma_filter_pred(bfiles, with_digest(false, out@[k1].hash@), i1);
                    Seq::lemma_filter_pred(bfiles, with_digest(false, out@[k2].hash@), i2);
                    assert(out@[k1].hash@ != out@[k2].hash@);
                } else {
                    assert(out@[k1] == pre[k1]);
                    let m = choose|m: int|
                        0 <= m < j && pre[k1].size == (#[trigger] input.subrange(0, j)[m]).size
                            && pre[k1].files@ == input.subrange(0, j)[m].files@.filter(
                            with_digest(false, pre[k1].hash@),
                        );
                    assert(out@[k1].files@[i1].size == out@[k1].size);
                    assert(out@[k2].files@[i2].size == out@[k2].size);
                    assert(out@[k1].size == input[m].size);
                    assert(out@[k2].size == input[j as int].size);
                    assert(input[m].size != input[j as int].size);
                }
            }
            assert forall|m: int, d: Seq<u8>|
                0 <= m < j + 1 && (#[trigger] input[m].files@.filter(
                    with_digest(false, d),
                )).len() >= 2 implies exists|k: int|
                0 <= k < out@.len() && (#[trigger] out@[k]).size == input[m].size && out@[k].hash@
                    == d && out@[k].files@ == input[m].files@.filter(with_digest(false, d)) by {
                if m < j {
                    let k = choose|k: int|
                        0 <= k < pre.len() && (#[trigger] pre[k]).size == input[m].size
                            && pre[k].hash@ == d && pre[k].files@ == input[m].files@.filter(
                            with_digest(false, d),
                        );
                    assert(out@[k] == pre[k]);
                } else {
                    assert(bfiles.filter(with_digest(false, d)).len() >= 2);
                    let k = choose|k: int|
                        0 <= k < batchv.len() && (#[trigger] batchv[k]).hash@ == d;
                    assert(out@[pre.len() + k] == batchv[k]);
                    assert(out@[pre.len() + k].size == input[m].size);
                    assert(out@[pre.len() + k].files@ == input[m].files@.filter(
                        with_digest(false, d),
                    ));
                }
            }
            j = j + 1;
        }
    }
    proof {
        assert(input.subrange(0, input.len() as int) =~= input);
    }
    out
}

/// Re-partitions every partial-fingerprint bucket by the full fingerprint.
/// Records without one are skipped; buckets that fall under two members
/// are discarded; member order is preserved.
#[verifier::rlimit(80)]
pub fn group_by_full_hash(groups: Vec<HashBucket>) -> (out: Vec<HashBucket>)
    requires
        forall|j: int| 0 <= j < groups@.len() ==> hash_bucket_wf(#[trigger] groups@[j]),
        buckets_disjoint(groups@),
    ensures
        forall|k: int| 0 <= k < out@.len() ==> hash_bucket_wf(#[trigger] out@[k]),
        forall|k: int|
            0 <= k < out@.len() ==> hash_bucket_members_match(true, #[trigger] out@[k]),
        forall|k: int|
            0 <= k < out@.len() ==> refines_hash_bucket(#[trigger] out@[k], groups@, true),
        forall|m: int, d: Seq<u8>|
            #![trigger groups@[m].files@.filter(with_digest(true, d))]
            0 <= m < groups@.len() && groups@[m].files@.filter(with_digest(true, d)).len() >= 2
                ==> exists|k: int|
                0 <= k < out@.len() && (#[trigger] out@[k]).size == groups@[m].size
                    && out@[k].hash@ == d && out@[k].files@ == groups@[m].files@.filter(
                    with_digest(true, d),
                ),
        buckets_disjoint(out@),
{
    let mut groups = groups;
    let ghost input = groups@;
    let mut out: Vec<HashBucket> = Vec::new();
    let ghost mut j: int = 0;
    while groups.len() > 0
        invariant
            0 <= j <= input.len(),
            groups@ == input.subrange(j, input.len() as int),
            forall|m: int| 0 <= m < input.len() ==> hash_bucket_wf(#[trigger] input[m]),
            buckets_disjoint(input),
            forall|k: int| 0 <= k < out@.len() ==> hash_bucket_wf(#[trigger] out@[k]),
            forall|k: int|
                0 <= k < out@.len() ==> hash_bucket_members_match(true, #[trigger] out@[k]),
            buckets_disjoint(out@),
            forall|k: int|
                0 <= k < out@.len() ==> refines_hash_bucket(
                    #[trigger] out@[k],
                    input.subrange(0, j),
                    true,
                ),
            forall|m: int, d: Seq<u8>|
                #![trigger input[m].files@.filter(with_digest(true, d))]
                0 <= m < j && input[m].files@.filter(with_digest(true, d)).len() >= 2
                    ==> exists|k: int|
                    0 <= k < out@.len() && (#[trigger] out@[k]).size == input[m].size
                        && out@[k].hash@ == d && out@[k].files@ == input[m].files@.filter(
                        with_digest(true, d),
                    ),
        decreases groups.len(),
    {
        let b = groups.remove(0);
        proof {
            assert(b == input[j]);
            assert(groups@ =~= input.subrange(j + 1, input.len() as int));
            assert(hash_bucket_wf(b));
        }
        let sz = b.size;
        let ghost bfiles = b.files@;
        let mut batch = rebucket_by_digest(sz, b.files, true);
        let ghost batchv = batch@;
        let ghost pre = out@;
        out.append(&mut batch);
        proof {
            assert(out@ =~= pre + batchv);
            assert forall|k: int| 0 <= k < out@.len() implies (hash_bucket_wf(#[trigger] out@[k])
                && hash_bucket_members_match(true, out@[k]) && refines_hash_bucket(
                out@[k],
                input.subrange(0, j + 1),
                true,
            )) by {
                if k < pre.len() {
                    assert(out@[k] == pre[k]);
                    let m = choose|m: int|
                        0 <= m < j && pre[k].size == (#[trigger] input.subrange(0, j)[m]).size
                            && pre[k].files@ == input.subrange(0, j)[m].files@.filter(
                            with_digest(true, pre[k].hash@),
                        );
                    assert(input.subrange(0, j + 1)[m] == input.subrange(0, j)[m]);
                } else {
                    let bb = out@[k];
                    assert(bb == batchv[k - pre.len()]);
                    assert(bb.size == sz);
                    assert(bb.files@ == bfiles.filter(with_digest(true, bb.hash@)));
                    assert(bb.files@.len() >= 2);
                    assert forall|i2: int|
                        0 <= i2 < bb.files@.len() implies ((#[trigger] bb.files@[i2]).size
                        == bb.size && digest_view(true, bb.files@[i2]) == Some(bb.hash@)) by {
                        Seq::lemma_filter_pred(bfiles, with_digest(true, bb.hash@), i2);
                        assert(bfiles.filter(with_digest(true, bb.hash@)).contains(
                            bb.files@[i2],
                        ));
                        Seq::lemma_filter_contains_rev(
                            bfiles,
                            with_digest(true, bb.hash@),
                            bb.files@[i2],
                        );
                        let ii = choose|ii: int|
                            0 <= ii < bfiles.len() && bfiles[ii] == bb.files@[i2];
                    }
                    assert(input.subrange(0, j + 1)[j] == input[j]);
                    assert(bb.size == input[j].size && bb.files@ == input[j].files@.filter(
                        with_digest(true, bb.hash@),
                    ));
                }
            }
            assert forall|k1: int, k2: int, i1: int, i2: int|
                #![trigger out@[k1].files@[i1], out@[k2].files@[i2]]
                0 <= k1 < k2 < out@.len() && 0 <= i1 < out@[k1].files@.len() && 0 <= i2
                    < out@[k2].files@.len() implies out@[k1].files@[i1]
                != out@[k2].files@[i2] by {
                if k2 < pre.len() {
                    assert(out@[k1] == pre[k1]);
                    assert(out@[k2] == pre[k2]);
                    assert(pre[k1].files@[i1] != pre[k2].files@[i2]);
                } else if k1 >= pre.len() {
                    assert(out@[k1] == batchv[k1 - pre.len()]);
                    assert(out@[k2] == batchv[k2 - pre.len()]);
                    assert(out@[k1].files@ == bfiles.filter(with_digest(true, out@[k1].hash@)));
                    assert(out@[k2].files@ == bfiles.filter(with_digest(true, out@[k2].hash@)));
                    Seq::lemma_filter_pred(bfiles, with_digest(true, out@[k1].hash@), i1);
                    Seq::lemma_filter_pred(bfiles, with_digest(true, out@[k2].hash@), i2);
                    assert(out@[k1].hash@ != out@[k2].hash@);
                } else {
                    assert(out@[k1] == pre[k1]);
                    let m = choose|m: int|
                        0 <= m < j && pre[k1].size == (#[trigger] input.subrange(0, j)[m]).size
                            && pre[k1].files@ == input.subrange(0, j)[m].files@.filter(
                            with_digest(true, pre[k1].hash@),
                        );
                    lemma_filter_members(input[m].files@, with_digest(true, pre[k1].hash@));
                    assert(out@[k1].files@ == input[m].files@.filter(
                        with_digest(true, pre[k1].hash@),
                    ));
                    let q1 = choose|q: int|
                        0 <= q < input[m].files@.len() && #[trigger] input[m].files@[q]
                            == out@[k1].files@[i1];
                    assert(out@[k2].files@ == bfiles.filter(with_digest(true, out@[k2].hash@)));
                    lemma_filter_members(bfiles, with_digest(true, out@[k2].hash@));
                    let q2 = choose|q: int|
                        0 <= q < bfiles.len() && #[trigger] bfiles[q] == out@[k2].files@[i2];
                    assert(bfiles == input[j as int].files@);
                    assert(input[m].files@[q1] != input[j as int].files@[q2]);
                }
            }
            assert forall|m: int, d: Seq<u8>|
                0 <= m < j + 1 && (#[trigger] input[m].files@.filter(with_digest(true, d))).len()
                    >= 2 implies exists|k: int|
                0 <= k < out@.len() && (#[trigger] out@[k]).size == input[m].size && out@[k].hash@
                    == d && out@[k].files@ == input[m].files@.filter(with_digest(true, d)) by {
                if m < j {
                    let k = choose|k: int|
                        0 <= k < pre.len() && (#[trigger] pre[k]).size == input[m].size
                            && pre[k].hash@ == d && pre[k].files@ == input[m].files@.filter(
                            with_digest(true, d),
                        );
                    assert(out@[k] == pre[k]);
                } else {
                    assert(bfiles.filter(with_digest(true, d)).len() >= 2);
                    let k = choose|k: int|
                        0 <= k < batchv.len() && (#[trigger] batchv[k]).hash@ == d;
                    assert(out@[pre.len() + k] == batchv[k]);
                    assert(out@[pre.len() + k].size == input[m].size);
                    assert(out@[pre.len() + k].files@ == input[m].files@.filter(
                        with_digest(true, d),
                    ));
                }
            }
            j = j + 1;
        }
    }
    proof {
        assert(input.subrange(0, input.len() as int) =~= input);
    }
    out
}

} // verus!
