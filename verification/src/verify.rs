//! The final confirmation stage.  A fingerprint match is never taken as
//! proof of equality: each bucket's first member is the anchor, every
//! other member is compared byte for byte against it, and a pair that
//! refers to one storage object is excluded when hard-link inclusion is
//! off.  Callers supply the file contents; the confirmation logic itself
//! is verified.

use vstd::prelude::*;
use crate::record::FileRecord;
use crate::record::DuplicateGroup;
use crate::bucket::HashBucket;
use crate::bucket::hash_bucket_wf;
use crate::digest::bytes_equal;

verus! {

/// What the verifier learned about one non-anchor member of a bucket:
/// whether its path refers to the anchor's storage object, and its
/// content when it could be read.
#[derive(Clone, Debug)]
pub struct PairEvidence {
    pub same_storage: bool,
    pub content: Option<Vec<u8>>,
}

/// Relies on `same_file::is_same_file`: whether two paths refer to one
/// underlying file (same device and inode).  A failure to look either
/// path up counts as "not the same".  The outcome depends on the state of
/// the filesystem, so nothing is assumed about it.
#[verifier::external_body]
pub(crate) fn same_storage(path1: &str, path2: &str) -> bool {
    same_file::is_same_file(path1, path2).unwrap_or(false)
}

/// A non-anchor member is confirmed a duplicate exactly when the anchor's
/// content and its own were both read, they are byte-identical, and the
/// pair is not an excluded hard link.
pub open spec fn confirmed(
    include_hardlinks: bool,
    anchor: Option<Vec<u8>>,
    ev: PairEvidence,
) -> bool {
    &&& anchor is Some
    &&& ev.content is Some
    &&& ev.content.unwrap()@ == anchor.unwrap()@
    &&& (include_hardlinks || !ev.same_storage)
}

/// The non-anchor members that the evidence confirms, in bucket order.
pub open spec fn confirmed_members(
    files: Seq<FileRecord>,
    evidence: Seq<PairEvidence>,
    include_hardlinks: bool,
    anchor: Option<Vec<u8>>,
) -> Seq<FileRecord>
    decreases files.len(),
{
    if files.len() == 0 || evidence.len() == 0 {
        Seq::empty()
    } else {
        let rest = confirmed_members(
            files.drop_last(),
            evidence.drop_last(),
            include_hardlinks,
            anchor,
        );
        if confirmed(include_hardlinks, anchor, evidence.last()) {
            rest.push(files.last())
        } else {
            rest
        }
    }
}

/// The member is one of the listed files, at a position whose evidence
/// met the confirmation test.
pub open spec fn member_confirmed_from(
    files: Seq<FileRecord>,
    evidence: Seq<PairEvidence>,
    include_hardlinks: bool,
    anchor: Option<Vec<u8>>,
    m: FileRecord,
) -> bool {
    exists|p: int|
        0 <= p < files.len() && m == #[trigger] files[p] && confirmed(
            include_hardlinks,
            anchor,
            evidence[p],
        )
}

/// Every confirmed member is one of the bucket's own files, and its
/// evidence met the confirmation test.
pub proof fn lemma_confirmed_members_sound(
    files: Seq<FileRecord>,
    evidence: Seq<PairEvidence>,
    include_hardlinks: bool,
    anchor: Option<Vec<u8>>,
)
    requires
        files.len() == evidence.len(),
    ensures
        confirmed_members(files, evidence, include_hardlinks, anchor).len() <= files.len(),
        forall|i: int|
            #![trigger confirmed_members(files, evidence, include_hardlinks, anchor)[i]]
            0 <= i < confirmed_members(files, evidence, include_hardlinks, anchor).len()
                ==> member_confirmed_from(
                files,
                evidence,
                include_hardlinks,
                anchor,
                confirmed_members(files, evidence, include_hardlinks, anchor)[i],
            ),
    decreases files.len(),
{
    if files.len() == 0 {
    } else {
        let sub = confirmed_members(
            files.drop_last(),
            evidence.drop_last(),
            include_hardlinks,
            anchor,
        );
        let full = confirmed_members(files, evidence, include_hardlinks, anchor);
        lemma_confirmed_members_sound(
            files.drop_last(),
            evidence.drop_last(),
            include_hardlinks,
            anchor,
        );
        assert forall|i: int| #![trigger full[i]] 0 <= i < full.len() implies member_confirmed_from(
            files,
            evidence,
            include_hardlinks,
            anchor,
            full[i],
        ) by {
            if i < sub.len() {
                assert(member_confirmed_from(
                    files.drop_last(),
                    evidence.drop_last(),
                    include_hardlinks,
                    anchor,
                    sub[i],
                ));
                let p = choose|p: int|
                    0 <= p < files.drop_last().len() && sub[i] == #[trigger] files.drop_last()[p]
                        && confirmed(include_hardlinks, anchor, evidence.drop_last()[p]);
                assert(files.drop_last()[p] == files[p]);
                assert(evidence.drop_last()[p] == evidence[p]);
                assert(full[i] == files[p]);
            } else {
                assert(confirmed(include_hardlinks, anchor, evidence.last()));
                assert(full[i] == files[files.len() - 1]);
                assert(evidence[files.len() - 1] == evidence.last());
            }
        }
    }
}

/// Confirmation forgets nothing: a member whose evidence met the test is
/// among the confirmed members.
pub proof fn lemma_confirmed_members_complete(
    files: Seq<FileRecord>,
    evidence: Seq<PairEvidence>,
    include_hardlinks: bool,
    anchor: Option<Vec<u8>>,
    p: int,
)
    requires
        files.len() == evidence.len(),
        0 <= p < files.len(),
        confirmed(include_hardlinks, anchor, evidence[p]),
    ensures
        confirmed_members(files, evidence, include_hardlinks, anchor).contains(files[p]),
    decreases files.len(),
{
    let full = confirmed_members(files, evidence, include_hardlinks, anchor);
    let sub = confirmed_members(
        files.drop_last(),
        evidence.drop_last(),
        include_hardlinks,
        anchor,
    );
    if p == files.len() - 1 {
        assert(evidence.last() == evidence[p]);
        assert(full.last() == files[p]);
        assert(full[full.len() - 1] == files[p]);
    } else {
        assert(files.drop_last()[p] == files[p]);
        assert(evidence.drop_last()[p] == evidence[p]);
        lemma_confirmed_members_complete(
            files.drop_last(),
            evidence.drop_last(),
            include_hardlinks,
            anchor,
            p,
        );
        let idx = choose|idx: int| 0 <= idx < sub.len() && sub[idx] == files[p];
        assert(full[idx] == files[p]);
    }
}

/// Confirmation keeps paths distinct: the confirmed members are drawn
/// from distinct positions of the bucket, so when the bucket's files
/// carry pairwise distinct paths, so do the confirmed members.
pub proof fn lemma_confirmed_members_distinct_paths(
    files: Seq<FileRecord>,
    evidence: Seq<PairEvidence>,
    include_hardlinks: bool,
    anchor: Option<Vec<u8>>,
)
    requires
        files.len() == evidence.len(),
        crate::record::distinct_paths(files),
    ensures
        crate::record::distinct_paths(
            confirmed_members(files, evidence, include_hardlinks, anchor),
        ),
    decreases files.len(),
{
    if files.len() == 0 {
    } else {
        let dl = files.drop_last();
        let edl = evidence.drop_last();
        let sub = confirmed_members(dl, edl, include_hardlinks, anchor);
        let full = confirmed_members(files, evidence, include_hardlinks, anchor);
        lemma_confirmed_members_distinct_paths(dl, edl, include_hardlinks, anchor);
        lemma_confirmed_members_sound(dl, edl, include_hardlinks, anchor);
        assert forall|i1: int, i2: int|
            #![trigger full[i1], full[i2]]
            0 <= i1 < i2 < full.len() implies full[i1].path@ != full[i2].path@ by {
            if i2 < sub.len() {
                assert(full[i1] == sub[i1]);
                assert(full[i2] == sub[i2]);
            } else {
                assert(full[i2] == files.last());
                assert(full[i1] == sub[i1]);
                assert(member_confirmed_from(dl, edl, include_hardlinks, anchor, sub[i1]));
                let p = choose|p: int|
                    0 <= p < dl.len() && sub[i1] == #[trigger] dl[p] && confirmed(
                        include_hardlinks,
                        anchor,
                        edl[p],
                    );
                assert(dl[p] == files[p]);
                assert(files[p].path@ != files[files.len() - 1].path@);
            }
        }
    }
}

/// Confirms one fingerprint bucket from explicit evidence about each
/// non-anchor member.  The first member is the anchor and is always kept;
/// a non-anchor member joins the group exactly when its evidence is
/// confirmed; a group keeps bucket order and is dropped unless at least
/// one member was confirmed.
pub fn verify_bucket_with_evidence(
    bucket: HashBucket,
    anchor_content: Option<Vec<u8>>,
    evidence: Vec<PairEvidence>,
    include_hardlinks: bool,
) -> (out: Option<DuplicateGroup>)
    requires
        hash_bucket_wf(bucket),
        evidence@.len() == bucket.files@.len() - 1,
    ensures
        ({
            let members = confirmed_members(
                bucket.files@.skip(1),
                evidence@,
                include_hardlinks,
                anchor_content,
            );
            &&& (out is Some <==> members.len() >= 1)
            &&& (out is Some ==> out.unwrap().files@ == seq![bucket.files@[0]] + members)
            &&& (out is Some ==> out.unwrap().wf())
        }),
{
    let ghost others = bucket.files@.skip(1);
    let ghost evs = evidence@;
    let mut files = bucket.files;
    let mut evidence = evidence;
    let mut members: Vec<FileRecord> = Vec::new();
    let anchor_rec = files.remove(0);
    let ghost anchor_val = anchor_rec;
    members.push(anchor_rec);
    let ghost mut i: int = 0;
    proof {
        assert(files@ =~= others);
        assert(others.take(0) =~= Seq::<FileRecord>::empty());
        assert(evs.take(0) =~= Seq::<PairEvidence>::empty());
        assert(members@ =~= seq![anchor_val] + confirmed_members(
            others.take(0),
            evs.take(0),
            include_hardlinks,
            anchor_content,
        ));
    }
    while files.len() > 0
        invariant
            0 <= i <= others.len(),
            others.len() == evs.len(),
            files@ == others.subrange(i, others.len() as int),
            evidence@ == evs.subrange(i, evs.len() as int),
            members@ == seq![anchor_val] + confirmed_members(
                others.take(i),
                evs.take(i),
                include_hardlinks,
                anchor_content,
            ),
        decreases files.len(),
    {
        let r = files.remove(0);
        let ev = evidence.remove(0);
        proof {
            assert(r == others[i]);
            assert(ev == evs[i]);
            assert(files@ =~= others.subrange(i + 1, others.len() as int));
            assert(evidence@ =~= evs.subrange(i + 1, evs.len() as int));
        }
        let ok: bool = match (&anchor_content, &ev.content) {
            (Some(a), Some(c)) => {
                let be = bytes_equal(a.as_slice(), c.as_slice());
                be && (include_hardlinks || !ev.same_storage)
            },
            _ => false,
        };
        proof {
            assert(ok == confirmed(include_hardlinks, anchor_content, ev));
        }
        if ok {
            members.push(r);
        }
        proof {
            let t1 = others.take(i + 1);
            let e1 = evs.take(i + 1);
            assert(t1.drop_last() =~= others.take(i));
            assert(e1.drop_last() =~= evs.take(i));
            assert(t1.last() == others[i]);
            assert(e1.last() == evs[i]);
            assert(members@ =~= seq![anchor_val] + confirmed_members(
                t1,
                e1,
                include_hardlinks,
                anchor_content,
            ));
            i = i + 1;
        }
    }
    proof {
        assert(others.take(others.len() as int) =~= others);
        assert(evs.take(evs.len() as int) =~= evs);
    }
    if members.len() >= 2 {
        let g = DuplicateGroup { files: members };
        proof {
            lemma_confirmed_members_sound(others, evs, include_hardlinks, anchor_content);
            let cm = confirmed_members(others, evs, include_hardlinks, anchor_content);
            assert(g.files@[0] == bucket.files@[0]);
            assert(bucket.files@[0].size == bucket.size);
            assert forall|ii: int| 0 <= ii < g.files@.len() implies (#[trigger] g.files@[ii]).size
                == g.files@[0].size by {
                if ii >= 1 {
                    assert(g.files@[ii] == cm[ii - 1]);
                    assert(member_confirmed_from(
                        others,
                        evs,
                        include_hardlinks,
                        anchor_content,
                        cm[ii - 1],
                    ));
                    let p = choose|p: int|
                        0 <= p < others.len() && cm[ii - 1] == #[trigger] others[p] && confirmed(
                            include_hardlinks,
                            anchor_content,
                            evs[p],
                        );
                    assert(others[p] == bucket.files@[p + 1]);
                    assert(bucket.files@[p + 1].size == bucket.size);
                }
            }
        }
        Some(g)
    } else {
        None
    }
}

/// The evidence that plain contents give rise to when hard links are not
/// excluded: no pair is marked as sharing storage.
pub open spec fn evidence_of(contents: Seq<Option<Vec<u8>>>) -> Seq<PairEvidence> {
    Seq::new(contents.len(), |p: int| PairEvidence { same_storage: false, content: contents[p] })
}

/// The member is one of the listed files, at a position whose content was
/// read and equals the anchor's byte for byte.
pub open spec fn member_content_matches(
    others: Seq<FileRecord>,
    contents: Seq<Option<Vec<u8>>>,
    anchor: Option<Vec<u8>>,
    m: FileRecord,
) -> bool {
    exists|p: int|
        0 <= p < others.len() && m == #[trigger] others[p] && p < contents.len() && anchor is Some
            && contents[p] is Some && contents[p].unwrap()@ == anchor.unwrap()@
}

/// Confirms one fingerprint bucket against the contents read for its
/// members.  When hard-link inclusion is off, each pair is first checked
/// against the filesystem through `same_storage`, whose outcome depends
/// on the state of the disk; the contract therefore states what holds of
/// every outcome, and is exact when hard links are included.
pub fn verify_bucket(
    bucket: HashBucket,
    anchor_content: Option<Vec<u8>>,
    contents: Vec<Option<Vec<u8>>>,
    include_hardlinks: bool,
) -> (out: Option<DuplicateGroup>)
    requires
        hash_bucket_wf(bucket),
        contents@.len() == bucket.files@.len() - 1,
    ensures
        out is Some ==> out.unwrap().wf(),
        out is Some ==> out.unwrap().files@[0] == bucket.files@[0],
        out is Some ==> forall|ii: int|
            #![trigger out.unwrap().files@[ii]]
            1 <= ii < out.unwrap().files@.len() ==> member_content_matches(
                bucket.files@.skip(1),
                contents@,
                anchor_content,
                out.unwrap().files@[ii],
            ),
        include_hardlinks ==> ({
            let members = confirmed_members(
                bucket.files@.skip(1),
                evidence_of(contents@),
                true,
                anchor_content,
            );
            &&& (out is Some <==> members.len() >= 1)
            &&& (out is Some ==> out.unwrap().files@ == seq![bucket.files@[0]] + members)
        }),
{
    let ghost contentsg = contents@;
    let n = contents.len();
    let mut contents = contents;
    let mut evidence: Vec<PairEvidence> = Vec::new();
    let mut p: usize = 0;
    while p < n
        invariant
            p <= n,
            n == contentsg.len(),
            n == bucket.files@.len() - 1,
            hash_bucket_wf(bucket),
            contents@ == contentsg.subrange(p as int, contentsg.len() as int),
            evidence@.len() == p,
            forall|q: int|
                0 <= q < p ==> (#[trigger] evidence@[q]).content == contentsg[q],
            include_hardlinks ==> forall|q: int|
                0 <= q < p ==> (#[trigger] evidence@[q]).same_storage == false,
        decreases n - p,
    {
        let c = contents.remove(0);
        proof {
            assert(c == contentsg[p as int]);
            assert(contents@ =~= contentsg.subrange(p + 1 as int, contentsg.len() as int));
        }
        let same = if include_hardlinks {
            false
        } else {
            same_storage(bucket.files[0].path.as_str(), bucket.files[p + 1].path.as_str())
        };
        evidence.push(PairEvidence { same_storage: same, content: c });
        p = p + 1;
    }
    proof {
        if include_hardlinks {
            assert(evidence@ =~= evidence_of(contentsg));
        }
    }
    let ghost evs = evidence@;
    let out = verify_bucket_with_evidence(bucket, anchor_content, evidence, include_hardlinks);
    proof {
        if out is Some {
            let g = out.unwrap();
            let others = bucket.files@.skip(1);
            let cm = confirmed_members(others, evs, include_hardlinks, anchor_content);
            lemma_confirmed_members_sound(others, evs, include_hardlinks, anchor_content);
            assert forall|ii: int|
                #![trigger g.files@[ii]]
                1 <= ii < g.files@.len() implies member_content_matches(
                others,
                contentsg,
                anchor_content,
                g.files@[ii],
            ) by {
                assert(g.files@[ii] == cm[ii - 1]);
                assert(member_confirmed_from(
                    others,
                    evs,
                    include_hardlinks,
                    anchor_content,
                    cm[ii - 1],
                ));
                let q = choose|q: int|
                    0 <= q < others.len() && cm[ii - 1] == #[trigger] others[q] && confirmed(
                        include_hardlinks,
                        anchor_content,
                        evs[q],
                    );
                assert(evs[q].content == contentsg[q]);
                assert(g.files@[ii] == others[q]);
            }
        }
    }
    out
}

/// Byte-equality is transitive: when every member's content equals the
/// anchor's, every pairwise comparison between members agrees as well, so
/// an anchor-centred group is byte-identical throughout.
pub proof fn lemma_group_pairwise_byte_equal(contents: Seq<Seq<u8>>, anchor: Seq<u8>)
    requires
        forall|i: int| 0 <= i < contents.len() ==> #[trigger] contents[i] == anchor,
    ensures
        forall|i: int, j: int|
            #![trigger contents[i], contents[j]]
            0 <= i < contents.len() && 0 <= j < contents.len() ==> contents[i] == contents[j],
{
}

/// A fingerprint collision alone never yields a reported duplicate: a
/// member whose content differs from the anchor's fails the confirmation
/// test, whatever bucket the fingerprints put it in.
pub proof fn lemma_collision_not_confirmed(
    include_hardlinks: bool,
    anchor: Option<Vec<u8>>,
    ev: PairEvidence,
)
    requires
        anchor is Some,
        ev.content is Some,
        ev.content.unwrap()@ != anchor.unwrap()@,
    ensures
        !confirmed(include_hardlinks, anchor, ev),
{
}

/// A byte-identical pair sharing one storage object is excluded exactly
/// when hard-link inclusion is off, and confirmed when it is on.
pub proof fn lemma_hardlink_pair(anchor: Option<Vec<u8>>, ev: PairEvidence)
    requires
        ev.same_storage,
        anchor is Some,
        ev.content is Some,
        ev.content.unwrap()@ == anchor.unwrap()@,
    ensures
        !confirmed(false, anchor, ev),
        confirmed(true, anchor, ev),
{
}

} // verus!
