//! Scan configuration and candidate selection: which walker entries enter
//! the pipeline.  An entry is a candidate when it is a regular file, lies
//! within the requested depth, and its name passes the configured filter —
//! any of the glob patterns, or the regular expression, or every name when
//! no filter is configured.

use vstd::prelude::*;
use crate::record::EntryInfo;

verus! {

/// Whether a single glob pattern, compiled with default options, matches
/// the name.  A pattern that does not parse or compile matches nothing.
/// The outcome depends on the pattern and the name alone, fixed per
/// platform (globset's default escaping and separator handling follow
/// the build's target).
pub uninterp spec fn glob_matches(pattern: Seq<char>, name: Seq<char>) -> bool;

/// Relies on `globset::Glob` and `GlobSetBuilder`: one pattern is parsed,
/// built into a one-pattern set, and tested against the name.  Both the
/// parse and the build report failure (an unparseable pattern, or one
/// whose compiled form exceeds the regex size limit) as `Err`, never by
/// panicking, and such a pattern matches nothing.
#[verifier::external_body]
pub(crate) fn glob_match(pattern: &str, name: &str) -> (r: bool)
    ensures
        r == glob_matches(pattern@, name@),
{
    match globset::Glob::new(pattern) {
        Ok(g) => {
            let mut builder = globset::GlobSetBuilder::new();
            builder.add(g);
            match builder.build() {
                Ok(set) => set.is_match(name),
                Err(_) => false,
            }
        },
        Err(_) => false,
    }
}

/// Whether a regular expression matches the name somewhere.  A pattern
/// that does not parse matches nothing.  The outcome depends on the
/// pattern and the name alone.
pub uninterp spec fn regex_matches(pattern: Seq<char>, name: Seq<char>) -> bool;

/// Relies on `regex::Regex`: the pattern is compiled and searched for in
/// the name; a pattern that does not parse matches nothing.
#[verifier::external_body]
pub(crate) fn regex_match(pattern: &str, name: &str) -> (r: bool)
    ensures
        r == regex_matches(pattern@, name@),
{
    match regex::Regex::new(pattern) {
        Ok(re) => re.is_match(name),
        Err(_) => false,
    }
}

/// The configuration of one scan: how results are displayed, whether
/// hard-link pairs count as duplicates, the scan root, and the name
/// filter (glob patterns and a regular expression, either possibly
/// absent).
pub struct DupFinder {
    pub verbose: bool,
    pub show_size: bool,
    pub include_hardlinks: bool,
    pub relative_path: bool,
    pub base_path: String,
    pub glob_patterns: Vec<String>,
    pub regex_pattern: Option<String>,
}

impl DupFinder {
    pub fn new(
        verbose: bool,
        show_size: bool,
        include_hardlinks: bool,
        relative_path: bool,
        base_path: String,
        glob_patterns: Vec<String>,
        regex_pattern: Option<String>,
    ) -> (r: Self)
        ensures
            r.verbose == verbose,
            r.show_size == show_size,
            r.include_hardlinks == include_hardlinks,
            r.relative_path == relative_path,
            r.base_path == base_path,
            r.glob_patterns == glob_patterns,
            r.regex_pattern == regex_pattern,
    {
        DupFinder {
            verbose,
            show_size,
            include_hardlinks,
            relative_path,
            base_path,
            glob_patterns,
            regex_pattern,
        }
    }

    /// No filter is configured: every file is taken.
    pub open spec fn no_filter(self) -> bool {
        self.glob_patterns@.len() == 0 && self.regex_pattern is None
    }

    /// Whether the filter accepts a file of this name.  Without any
    /// configured filter every file is accepted, a file whose name could
    /// not be read is rejected, and otherwise the glob patterns and the
    /// regular expression are combined with "or".
    pub open spec fn entry_accepted(self, name: Option<String>) -> bool {
        if self.no_filter() {
            true
        } else if name is None {
            false
        } else {
            (exists|i: int|
                0 <= i < self.glob_patterns@.len() && glob_matches(
                    (#[trigger] self.glob_patterns@[i])@,
                    name.unwrap()@,
                )) || (self.regex_pattern is Some && regex_matches(
                self.regex_pattern.unwrap()@,
                name.unwrap()@,
            ))
        }
    }

    /// Decides whether a file of this name enters the scan.
    pub fn should_include_file(&self, name: &Option<String>) -> (r: bool)
        ensures
            r == self.entry_accepted(*name),
    {
        if self.glob_patterns.len() == 0 && self.regex_pattern.is_none() {
            return true;
        }
        let n: &String = match name {
            Some(n) => n,
            None => {
                return false;
            },
        };
        let mut i: usize = 0;
        while i < self.glob_patterns.len()
            invariant
                i <= self.glob_patterns@.len(),
                !self.no_filter(),
                *name is Some,
                *n == name.unwrap(),
                forall|m: int|
                    0 <= m < i ==> !glob_matches((#[trigger] self.glob_patterns@[m])@, n@),
            decreases self.glob_patterns@.len() - i,
        {
            if glob_match(self.glob_patterns[i].as_str(), n.as_str()) {
                proof {
                    assert(glob_matches((self.glob_patterns@[i as int])@, name.unwrap()@));
                }
                return true;
            }
            i = i + 1;
        }
        match &self.regex_pattern {
            Some(p) => {
                if regex_match(p.as_str(), n.as_str()) {
                    return true;
                }
            },
            None => {},
        }
        false
    }

    /// Whether an entry is a candidate for the pipeline: a regular file,
    /// within the requested depth, with an accepted name.
    pub open spec fn candidate_pred(self, recursive: bool) -> spec_fn(EntryInfo) -> bool {
        |e: EntryInfo| e.is_file && (recursive || e.depth <= 1) && self.entry_accepted(e.name)
    }

    /// Selects the walker entries that enter the pipeline, in discovery
    /// order.  With recursion off, only entries at depth one (immediate
    /// children of the root) are considered; name filtering happens here,
    /// before any size bucketing.
    pub fn select_candidates(&self, recursive: bool, entries: Vec<EntryInfo>) -> (out: Vec<
        EntryInfo,
    >)
        ensures
            out@ == entries@.filter(self.candidate_pred(recursive)),
    {
        let mut entries = entries;
        let ghost input = entries@;
        let mut out: Vec<EntryInfo> = Vec::new();
        let ghost mut i: int = 0;
        proof {
            assert(input.take(0) =~= Seq::<EntryInfo>::empty());
            assert(input.take(0).filter(self.candidate_pred(recursive)) =~= Seq::<
                EntryInfo,
            >::empty()) by {
                reveal_with_fuel(Seq::filter, 2);
            }
        }
        while entries.len() > 0
            invariant
                0 <= i <= input.len(),
                entries@ == input.subrange(i, input.len() as int),
                out@ == input.take(i).filter(self.candidate_pred(recursive)),
            decreases entries.len(),
        {
            let e = entries.remove(0);
            proof {
                assert(e == input[i]);
                assert(entries@ =~= input.subrange(i + 1, input.len() as int));
                assert(input.take(i + 1) =~= input.take(i).push(e));
            }
            let take_it = e.is_file && (recursive || e.depth <= 1) && self.should_include_file(
                &e.name,
            );
            proof {
                assert(take_it == self.candidate_pred(recursive)(e));
                input.take(i).lemma_filter_push(e, self.candidate_pred(recursive));
            }
            if take_it {
                out.push(e);
            }
            proof {
                i = i + 1;
            }
        }
        proof {
            assert(input.take(input.len() as int) =~= input);
        }
        out
    }
}

/// A file whose name the filter rejects is never selected: filtering
/// happens before size bucketing, so such a file reaches no stage at all.
pub proof fn lemma_rejected_never_candidate(
    f: DupFinder,
    recursive: bool,
    entries: Seq<EntryInfo>,
    e: EntryInfo,
)
    requires
        !f.entry_accepted(e.name),
    ensures
        !entries.filter(f.candidate_pred(recursive)).contains(e),
{
    let filtered = entries.filter(f.candidate_pred(recursive));
    if filtered.contains(e) {
        let i = choose|i: int| 0 <= i < filtered.len() && filtered[i] == e;
        Seq::lemma_filter_pred(entries, f.candidate_pred(recursive), i);
    }
}

/// With recursion off, an entry deeper than the root's immediate children
/// is never selected, whatever its name or content.
pub proof fn lemma_deep_entry_never_candidate(
    f: DupFinder,
    entries: Seq<EntryInfo>,
    e: EntryInfo,
)
    requires
        e.depth > 1,
    ensures
        !entries.filter(f.candidate_pred(false)).contains(e),
{
    let filtered = entries.filter(f.candidate_pred(false));
    if filtered.contains(e) {
        let i = choose|i: int| 0 <= i < filtered.len() && filtered[i] == e;
        Seq::lemma_filter_pred(entries, f.candidate_pred(false), i);
    }
}

} // verus!
