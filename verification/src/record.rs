//! The branch record: one parsed entry per local branch.

use vstd::prelude::*;

verus! {

/// Mathematical view of a [`BranchRecord`]: the same fields with the
/// strings abstracted to character sequences.
pub struct RecordView {
    pub name: Seq<char>,
    pub is_current: bool,
    pub has_upstream: bool,
    pub tracking_info: Seq<char>,
    pub last_commit_display: Seq<char>,
    pub last_commit_epoch: i64,
    pub pr_number: Option<u32>,
}

/// One local branch, as reported by the ref-listing tool and optionally
/// annotated with a pull-request number.
pub struct BranchRecord {
    /// Short ref name; the unique key within a listing.
    pub name: String,
    /// True for exactly the branch the repository head points to.
    pub is_current: bool,
    /// Whether a remote-tracking ref exists for this branch.
    pub has_upstream: bool,
    /// Free-text ahead/behind/gone descriptor; may be empty.
    pub tracking_info: String,
    /// Human-relative date string, display-only.
    pub last_commit_display: String,
    /// Seconds since the epoch for the branch tip commit; ordering key.
    pub last_commit_epoch: i64,
    /// Set when the PR lookup matched `name`; `None` is a valid state.
    pub pr_number: Option<u32>,
}

impl View for BranchRecord {
    type V = RecordView;

    open spec fn view(&self) -> RecordView {
        RecordView {
            name: self.name@,
            is_current: self.is_current,
            has_upstream: self.has_upstream,
            tracking_info: self.tracking_info@,
            last_commit_display: self.last_commit_display@,
            last_commit_epoch: self.last_commit_epoch,
            pr_number: self.pr_number,
        }
    }
}

/// The views of a sequence of records.
pub open spec fn views_of(v: Seq<BranchRecord>) -> Seq<RecordView> {
    v.map_values(|b: BranchRecord| b@)
}

/// `needle` occurs in `hay` starting at position `i`.
pub open spec fn matches_at(hay: Seq<char>, needle: Seq<char>, i: int) -> bool {
    0 <= i && i + needle.len() <= hay.len() && hay.subrange(i, i + needle.len() as int)
        == needle
}

/// `needle` occurs somewhere in `hay`.
pub open spec fn contains_seq(hay: Seq<char>, needle: Seq<char>) -> bool {
    exists|i: int| matches_at(hay, needle, i)
}

/// Whether `needle` occurs as a contiguous substring of `hay`.
pub fn contains_sub(hay: &str, needle: &str) -> (r: bool)
    ensures
        r == contains_seq(hay@, needle@),
{
    let hay_len = hay.unicode_len();
    let needle_len = needle.unicode_len();
    if needle_len > hay_len {
        assert(forall|i: int| !matches_at(hay@, needle@, i));
        return false;
    }
    let last_start = hay_len - needle_len;
    let mut i: usize = 0;
    while i <= last_start
        invariant
            hay_len == hay@.len(),
            needle_len == needle@.len(),
            needle_len <= hay_len,
            last_start == hay_len - needle_len,
            i <= last_start + 1,
            forall|k: int| 0 <= k < i ==> !matches_at(hay@, needle@, k),
        decreases last_start + 1 - i,
    {
        let mut j: usize = 0;
        let mut mismatch = false;
        while j < needle_len
            invariant
                hay_len == hay@.len(),
                needle_len == needle@.len(),
                i + needle_len <= hay_len,
                j <= needle_len,
                !mismatch ==> forall|m: int|
                    0 <= m < j ==> hay@[i + m] == needle@[m],
                mismatch ==> !matches_at(hay@, needle@, i as int),
            decreases needle_len - j,
        {
            if mismatch {
                j = needle_len;
            } else {
                if hay.get_char(i + j) != needle.get_char(j) {
                    assert(hay@.subrange(i as int, i + needle@.len()) != needle@) by {
                        assert(hay@.subrange(i as int, i + needle@.len())[j as int]
                            == hay@[i + j]);
                    }
                    mismatch = true;
                }
                j = j + 1;
            }
        }
        if !mismatch {
            assert(matches_at(hay@, needle@, i as int)) by {
                assert(hay@.subrange(i as int, i + needle@.len()) =~= needle@);
            }
            return true;
        }
        if i == last_start {
            assert(forall|k: int| matches_at(hay@, needle@, k) ==> 0 <= k <= last_start);
            return false;
        }
        i = i + 1;
    }
    assert(forall|k: int| matches_at(hay@, needle@, k) ==> 0 <= k <= last_start);
    false
}

impl BranchRecord {
    /// The display rule for a branch that has lost its upstream: it has no
    /// remote-tracking ref, or its tracking descriptor mentions "gone".
    pub open spec fn spec_is_stale(self) -> bool {
        !self.has_upstream || contains_seq(self.tracking_info@, "gone"@)
    }

    /// Whether the branch should be rendered as stale (dimmed).
    pub fn is_stale(&self) -> (r: bool)
        ensures
            r == self.spec_is_stale(),
    {
        !self.has_upstream || contains_sub(self.tracking_info.as_str(), "gone")
    }
}

} // verus!
