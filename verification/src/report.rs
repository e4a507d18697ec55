//! What a report of one scan is computed from: the per-group metadata and
//! the aggregate statistics, including the reclaimable space.  Rendering
//! (console text, serialized output, removal scripts) is left to callers;
//! every number they print is computed and pinned down here.

use vstd::prelude::*;
use vstd::arithmetic::mul::lemma_mul_nonnegative;
use crate::record::DuplicateGroup;
use crate::digest::hex_of;
use crate::digest::digest_hex;

verus! {

/// Bytes reclaimed by deleting all but one member of a group of `count`
/// files of `size` bytes each.
pub open spec fn spec_group_savings(size: u64, count: int) -> int {
    size * (count - 1)
}

/// The reclaimable space of one group: `size × (count − 1)`, or `None`
/// when that does not fit in 64 bits.
pub fn group_savings(size: u64, count: usize) -> (r: Option<u64>)
    requires
        count >= 1,
    ensures
        r is Some <==> spec_group_savings(size, count as int) <= u64::MAX,
        r is Some ==> r.unwrap() == spec_group_savings(size, count as int),
{
    let n: u64 = (count - 1) as u64;
    size.checked_mul(n)
}

/// Total number of files over all groups.
pub open spec fn total_files_of(groups: Seq<DuplicateGroup>) -> int
    decreases groups.len(),
{
    if groups.len() == 0 {
        0
    } else {
        total_files_of(groups.drop_last()) + groups.last().files@.len()
    }
}

/// Number of deletable files over all groups: each group keeps its first
/// member.
pub open spec fn deletable_of(groups: Seq<DuplicateGroup>) -> int
    decreases groups.len(),
{
    if groups.len() == 0 {
        0
    } else {
        deletable_of(groups.drop_last()) + groups.last().files@.len() - 1
    }
}

/// Total reclaimable bytes over all groups.
pub open spec fn savings_of(groups: Seq<DuplicateGroup>) -> int
    decreases groups.len(),
{
    if groups.len() == 0 {
        0
    } else {
        savings_of(groups.drop_last()) + spec_group_savings(
            groups.last().spec_size(),
            groups.last().files@.len() as int,
        )
    }
}

/// Each sum over a prefix of the groups is bounded by the sum over all of
/// them: every group contributes a non-negative amount.
pub proof fn lemma_sums_monotone(groups: Seq<DuplicateGroup>, i: int)
    requires
        0 <= i <= groups.len(),
        forall|k: int| 0 <= k < groups.len() ==> (#[trigger] groups[k]).wf(),
    ensures
        total_files_of(groups.take(i)) <= total_files_of(groups),
        deletable_of(groups.take(i)) <= deletable_of(groups),
        savings_of(groups.take(i)) <= savings_of(groups),
    decreases groups.len() - i,
{
    if i == groups.len() {
        assert(groups.take(i) =~= groups);
    } else {
        lemma_sums_monotone(groups, i + 1);
        let t1 = groups.take(i + 1);
        assert(t1.drop_last() =~= groups.take(i));
        assert(t1.last() == groups[i]);
        assert(groups[i].wf());
        lemma_mul_nonnegative(groups[i].spec_size() as int, groups[i].files@.len() - 1);
    }
}

/// The aggregate statistics of one scan's confirmed groups.
#[derive(Clone, Debug)]
pub struct ScanStats {
    pub total_duplicate_files: usize,
    pub deletable_files: usize,
    pub potential_space_savings: u64,
}

/// Computes the aggregate statistics, or `None` when a sum does not fit
/// the machine's integers.
#[verifier::rlimit(30)]
pub fn compute_stats(groups: &Vec<DuplicateGroup>) -> (r: Option<ScanStats>)
    requires
        forall|k: int| 0 <= k < groups@.len() ==> (#[trigger] groups@[k]).wf(),
    ensures
        r is Some <==> (total_files_of(groups@) <= usize::MAX && deletable_of(groups@)
            <= usize::MAX && savings_of(groups@) <= u64::MAX),
        r is Some ==> r.unwrap().total_duplicate_files == total_files_of(groups@),
        r is Some ==> r.unwrap().deletable_files == deletable_of(groups@),
        r is Some ==> r.unwrap().potential_space_savings == savings_of(groups@),
{
    let mut total_files: usize = 0;
    let mut deletable: usize = 0;
    let mut savings: u64 = 0;
    let mut i: usize = 0;
    while i < groups.len()
        invariant
            i <= groups@.len(),
            forall|k: int| 0 <= k < groups@.len() ==> (#[trigger] groups@[k]).wf(),
            total_files == total_files_of(groups@.take(i as int)),
            deletable == deletable_of(groups@.take(i as int)),
            savings == savings_of(groups@.take(i as int)),
        decreases groups@.len() - i,
    {
        let g = &groups[i];
        let glen = g.files.len();
        proof {
            assert(groups@[i as int].wf());
            let t1 = groups@.take(i + 1 as int);
            assert(t1.drop_last() =~= groups@.take(i as int));
            assert(t1.last() == groups@[i as int]);
        }
        let tf = match total_files.checked_add(glen) {
            Some(v) => v,
            None => {
                proof {
                    lemma_sums_monotone(groups@, i + 1 as int);
                }
                return None;
            },
        };
        let df = match deletable.checked_add(glen - 1) {
            Some(v) => v,
            None => {
                proof {
                    lemma_sums_monotone(groups@, i + 1 as int);
                }
                return None;
            },
        };
        let gs = match group_savings(g.files[0].size, glen) {
            Some(v) => v,
            None => {
                proof {
                    lemma_sums_monotone(groups@, i + 1 as int);
                    lemma_mul_nonnegative(
                        groups@[i as int].spec_size() as int,
                        groups@[i as int].files@.len() - 1,
                    );
                }
                return None;
            },
        };
        let sv = match savings.checked_add(gs) {
            Some(v) => v,
            None => {
                proof {
                    lemma_sums_monotone(groups@, i + 1 as int);
                }
                return None;
            },
        };
        total_files = tf;
        deletable = df;
        savings = sv;
        i = i + 1;
    }
    proof {
        assert(groups@.take(groups@.len() as int) =~= groups@);
    }
    Some(ScanStats { total_duplicate_files: total_files, deletable_files: deletable, potential_space_savings: savings })
}

/// The metadata reported for one confirmed group: its one-based number,
/// the common file size, the member count, and the anchor's full
/// fingerprint in hexadecimal when one was computed.
#[derive(Clone, Debug)]
pub struct GroupSummary {
    pub group_id: usize,
    pub file_size: u64,
    pub file_count: usize,
    pub md5_hash: Option<String>,
}

/// Summarizes every group for a report, numbering groups from one and
/// keeping their order.
pub fn summarize_groups(groups: &Vec<DuplicateGroup>) -> (r: Vec<GroupSummary>)
    requires
        forall|k: int| 0 <= k < groups@.len() ==> (#[trigger] groups@[k]).wf(),
    ensures
        r@.len() == groups@.len(),
        forall|k: int|
            0 <= k < groups@.len() ==> {
                &&& (#[trigger] r@[k]).group_id == k + 1
                &&& r@[k].file_size == groups@[k].spec_size()
                &&& r@[k].file_count == groups@[k].files@.len()
                &&& (r@[k].md5_hash is Some <==> groups@[k].files@[0].full_hash is Some)
                &&& (r@[k].md5_hash is Some ==> r@[k].md5_hash.unwrap()@ == hex_of(
                    groups@[k].files@[0].full_hash.unwrap()@,
                ))
            },
{
    let mut r: Vec<GroupSummary> = Vec::new();
    let mut i: usize = 0;
    while i < groups.len()
        invariant
            i <= groups@.len(),
            forall|k: int| 0 <= k < groups@.len() ==> (#[trigger] groups@[k]).wf(),
            r@.len() == i,
            forall|k: int|
                0 <= k < i ==> {
                    &&& (#[trigger] r@[k]).group_id == k + 1
                    &&& r@[k].file_size == groups@[k].spec_size()
                    &&& r@[k].file_count == groups@[k].files@.len()
                    &&& (r@[k].md5_hash is Some <==> groups@[k].files@[0].full_hash is Some)
                    &&& (r@[k].md5_hash is Some ==> r@[k].md5_hash.unwrap()@ == hex_of(
                        groups@[k].files@[0].full_hash.unwrap()@,
                    ))
                },
        decreases groups@.len() - i,
    {
        let g = &groups[i];
        proof {
            assert(groups@[i as int].wf());
        }
        let hash_hex: Option<String> = match &g.files[0].full_hash {
            Some(d) => Some(digest_hex(d)),
            None => None,
        };
        r.push(
            GroupSummary {
                group_id: i + 1,
                file_size: g.files[0].size,
                file_count: g.files.len(),
                md5_hash: hash_hex,
            },
        );
        i = i + 1;
    }
    r
}

} // verus!
