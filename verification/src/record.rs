//! The data model of one scan: directory entries as the walker reports
//! them, file records as the pipeline refines them, and confirmed duplicate
//! groups.

use vstd::prelude::*;
use crate::digest::md5_of;
use crate::digest::md5_digest;

verus! {

/// One directory entry as a walker reports it: its path, its bare file
/// name when one could be read, its depth below the scan root, whether it
/// is a regular file, and its size when it could be determined.
#[derive(Clone, Debug)]
pub struct EntryInfo {
    pub path: String,
    pub name: Option<String>,
    pub depth: usize,
    pub is_file: bool,
    pub size: Option<u64>,
}

/// One file under consideration.  The fingerprints start out absent and
/// are each written once by the corresponding pipeline stage; a full
/// fingerprint is only ever present together with a partial one.
#[derive(Clone, Debug)]
pub struct FileRecord {
    pub path: String,
    pub size: u64,
    pub partial_hash: Option<Vec<u8>>,
    pub full_hash: Option<Vec<u8>>,
}

impl FileRecord {
    /// A full fingerprint is computed only after a partial one.
    pub open spec fn wf(self) -> bool {
        self.full_hash is Some ==> self.partial_hash is Some
    }

    pub fn new(path: String, size: u64) -> (r: Self)
        ensures
            r.path == path,
            r.size == size,
            r.partial_hash is None,
            r.full_hash is None,
            r.wf(),
    {
        FileRecord { path, size, partial_hash: None, full_hash: None }
    }

    /// Records the digest of the file's leading bytes.  The fingerprint is
    /// write-once: it must still be absent.
    pub fn set_partial_hash(&mut self, prefix: &[u8])
        requires
            old(self).partial_hash is None,
        ensures
            final(self).path == old(self).path,
            final(self).size == old(self).size,
            final(self).full_hash == old(self).full_hash,
            final(self).partial_hash is Some,
            final(self).partial_hash.unwrap()@ == md5_of(prefix@),
            final(self).partial_hash.unwrap()@.len() == 16,
    {
        self.partial_hash = Some(md5_digest(prefix));
    }

    /// Records the digest of the file's whole content.  It is computed
    /// only after the partial fingerprint, and is write-once.
    pub fn set_full_hash(&mut self, content: &[u8])
        requires
            old(self).partial_hash is Some,
            old(self).full_hash is None,
        ensures
            final(self).path == old(self).path,
            final(self).size == old(self).size,
            final(self).partial_hash == old(self).partial_hash,
            final(self).full_hash is Some,
            final(self).full_hash.unwrap()@ == md5_of(content@),
            final(self).full_hash.unwrap()@.len() == 16,
            final(self).wf(),
    {
        self.full_hash = Some(md5_digest(content));
    }
}

/// The record that a sized entry gives rise to.
pub open spec fn record_of(e: EntryInfo) -> FileRecord {
    FileRecord { path: e.path, size: e.size.unwrap(), partial_hash: None, full_hash: None }
}

/// The optional record of an entry: present exactly when the entry's size
/// could be determined.
pub open spec fn record_opt_of(e: EntryInfo) -> Option<FileRecord> {
    if e.size is Some {
        Some(record_of(e))
    } else {
        None
    }
}

/// Turns entries into file records.  An entry whose size could not be
/// determined is skipped silently: a failed stat never aborts a scan.
pub fn sized_records(entries: Vec<EntryInfo>) -> (out: Vec<FileRecord>)
    ensures
        out@ == entries@.filter_map(|e: EntryInfo| record_opt_of(e)),
{
    let mut entries = entries;
    let ghost input = entries@;
    let mut out: Vec<FileRecord> = Vec::new();
    let ghost mut i: int = 0;
    proof {
        assert(input.take(0).filter_map(|e: EntryInfo| record_opt_of(e)) =~= Seq::<
            FileRecord,
        >::empty()) by {
            reveal_with_fuel(Seq::filter_map, 2);
        }
    }
    while entries.len() > 0
        invariant
            0 <= i <= input.len(),
            entries@ == input.subrange(i, input.len() as int),
            out@ == input.take(i).filter_map(|e: EntryInfo| record_opt_of(e)),
        decreases entries.len(),
    {
        let e = entries.remove(0);
        proof {
            assert(e == input[i]);
        }
        let has_size = e.size.is_some();
        if has_size {
            let size = match e.size {
                Some(s) => s,
                None => 0,
            };
            let r = FileRecord::new(e.path, size);
            proof {
                assert(r == record_of(input[i]));
            }
            out.push(r);
        }
        proof {
            Seq::lemma_filter_map_take_succ(input, |e: EntryInfo| record_opt_of(e), i);
            assert(entries@ =~= input.subrange(i + 1, input.len() as int));
            assert(out@ =~= input.take(i + 1).filter_map(|e: EntryInfo| record_opt_of(e)));
            i = i + 1;
        }
    }
    proof {
        assert(input.take(input.len() as int) =~= input);
    }
    out
}

/// An ordered set of files confirmed byte-identical.  The first member is
/// the kept representative; the rest are removable.
#[derive(Clone, Debug)]
pub struct DuplicateGroup {
    pub files: Vec<FileRecord>,
}

impl DuplicateGroup {
    /// A confirmed group has at least two members, all of the anchor's
    /// size, and none of them empty.
    pub open spec fn wf(self) -> bool {
        &&& self.files@.len() >= 2
        &&& self.files@[0].size > 0
        &&& forall|i: int|
            0 <= i < self.files@.len() ==> (#[trigger] self.files@[i]).size == self.files@[0].size
    }

    /// The common size of the group's members.
    pub open spec fn spec_size(self) -> u64 {
        self.files@[0].size
    }

    pub fn size(&self) -> (r: u64)
        requires
            self.wf(),
        ensures
            r == self.spec_size(),
    {
        self.files[0].size
    }

    pub fn len(&self) -> (r: usize)
        ensures
            r == self.files@.len(),
    {
        self.files.len()
    }
}

/// Within one scan a path identifies a file: no two records share one.
pub open spec fn distinct_paths(files: Seq<FileRecord>) -> bool {
    forall|i1: int, i2: int|
        #![trigger files[i1], files[i2]]
        0 <= i1 < i2 < files.len() ==> files[i1].path@ != files[i2].path@
}

/// Two members of one confirmed group always agree in size: size equality
/// is a strict precondition for everything downstream of size bucketing.
pub proof fn lemma_group_members_same_size(g: DuplicateGroup, i: int, j: int)
    requires
        g.wf(),
        0 <= i < g.files@.len(),
        0 <= j < g.files@.len(),
    ensures
        g.files@[i].size == g.files@[j].size,
        g.files@[i].size > 0,
{
}

} // verus!
