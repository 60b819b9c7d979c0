//! Building a branch listing out of the ref-listing tool's text and the
//! PR tool's name/number pairs.

use vstd::prelude::*;

use crate::epoch::epoch_of;
use crate::epoch::parse_epoch;
use crate::parse::blank;
use crate::parse::is_blank;
use crate::parse::lines_of;
use crate::parse::split_lines;
use crate::parse::split_on;
use crate::parse::split_str;
use crate::record::BranchRecord;
use crate::record::RecordView;
use crate::record::views_of;
use crate::sort::sort_by_recency;
use crate::sort::sort_desc;

verus! {

/// The number attached to `name`: that of the last pair whose first
/// component equals `name`, as collecting pairs into a map would keep.
pub open spec fn pr_lookup(prs: Seq<(String, u32)>, name: Seq<char>) -> Option<u32>
    decreases prs.len(),
{
    if prs.len() == 0 {
        None
    } else if prs.last().0@ == name {
        Some(prs.last().1)
    } else {
        pr_lookup(prs.drop_last(), name)
    }
}

/// Look a branch name up among the PR pairs.
#[verifier::loop_isolation(false)]
pub fn lookup_pr(prs: &Vec<(String, u32)>, name: &String) -> (r: Option<u32>)
    ensures
        r == pr_lookup(prs@, name@),
{
    let mut i: usize = prs.len();
    proof {
        assert(prs@.take(i as int) =~= prs@);
    }
    while i > 0
        invariant
            i <= prs@.len(),
            pr_lookup(prs@, name@) == pr_lookup(prs@.take(i as int), name@),
        decreases i,
    {
        proof {
            assert(prs@.take(i as int).last() == prs@[i - 1]);
            assert(prs@.take(i as int).drop_last() =~= prs@.take(i - 1));
        }
        if prs[i - 1].0 == *name {
            return Some(prs[i - 1].1);
        }
        i = i - 1;
    }
    None
}

/// The record a ref line describes: six pipe-delimited fields in the
/// order current-marker, name, tracking descriptor, relative date,
/// epoch, upstream short name. A line with any other field count
/// yields no record.
pub open spec fn record_of_line(line: Seq<char>, prs: Seq<(String, u32)>) -> Option<
    RecordView,
> {
    let fs = split_on(line, '|');
    if fs.len() == 6 {
        Some(
            RecordView {
                name: fs[1],
                is_current: !is_blank(fs[0]),
                has_upstream: !is_blank(fs[5]),
                tracking_info: fs[2],
                last_commit_display: fs[3],
                last_commit_epoch: epoch_of(fs[4]),
                pr_number: pr_lookup(prs, fs[1]),
            },
        )
    } else {
        None
    }
}

/// The view of an optional record.
pub open spec fn view_opt(r: Option<BranchRecord>) -> Option<RecordView> {
    match r {
        Some(b) => Some(b@),
        None => None,
    }
}

/// Parse one line of the ref-listing tool's output; a line that does
/// not split into exactly six fields is dropped.
pub fn parse_ref_line(line: &str, prs: &Vec<(String, u32)>) -> (r: Option<BranchRecord>)
    ensures
        view_opt(r) == record_of_line(line@, prs@),
{
    let fields = split_str(line, '|');
    proof {
        assert(fields.deep_view().len() == fields@.len());
    }
    if fields.len() != 6 {
        return None;
    }
    let is_current = !blank(fields[0].as_str());
    let has_upstream = !blank(fields[5].as_str());
    let last_commit_epoch = parse_epoch(fields[4].as_str());
    let pr_number = lookup_pr(prs, &fields[1]);
    let record = BranchRecord {
        name: fields[1].clone(),
        is_current,
        has_upstream,
        tracking_info: fields[2].clone(),
        last_commit_display: fields[3].clone(),
        last_commit_epoch,
        pr_number,
    };
    proof {
        let fs = split_on(line@, '|');
        assert(fields.deep_view()[0] == fields@[0]@);
        assert(fields.deep_view()[1] == fields@[1]@);
        assert(fields.deep_view()[2] == fields@[2]@);
        assert(fields.deep_view()[3] == fields@[3]@);
        assert(fields.deep_view()[4] == fields@[4]@);
        assert(fields.deep_view()[5] == fields@[5]@);
        assert(record@ == record_of_line(line@, prs@).unwrap());
    }
    Some(record)
}

/// The records of a sequence of ref lines, in input order, lines that
/// yield no record left out.
pub open spec fn records_of_lines(lines: Seq<Seq<char>>, prs: Seq<(String, u32)>) -> Seq<
    RecordView,
>
    decreases lines.len(),
{
    if lines.len() == 0 {
        Seq::<RecordView>::empty()
    } else {
        let rest = records_of_lines(lines.drop_last(), prs);
        match record_of_line(lines.last(), prs) {
            Some(rv) => rest.push(rv),
            None => rest,
        }
    }
}

/// The listing the ref-listing tool's whole output describes: every
/// well-formed line parsed, then the records ordered by recency with a
/// stable sort.
pub open spec fn listing_of(raw: Seq<char>, prs: Seq<(String, u32)>) -> Seq<RecordView> {
    sort_desc(records_of_lines(lines_of(raw), prs))
}

/// A line that yields no record (for instance one with the wrong field
/// count) leaves the parsed records exactly as if it were absent.
pub proof fn lemma_dropped_line_excluded(
    lines: Seq<Seq<char>>,
    prs: Seq<(String, u32)>,
    i: int,
)
    requires
        0 <= i < lines.len(),
        record_of_line(lines[i], prs) is None,
    ensures
        records_of_lines(lines, prs) == records_of_lines(lines.remove(i), prs),
    decreases lines.len(),
{
    if i == lines.len() - 1 {
        assert(lines.remove(i) =~= lines.drop_last());
    } else {
        let dl = lines.drop_last();
        lemma_dropped_line_excluded(dl, prs, i);
        assert(lines.remove(i).drop_last() =~= dl.remove(i));
        assert(lines.remove(i).last() == lines.last());
    }
}

/// Parse the ref-listing tool's whole output and order it by recency.
#[verifier::loop_isolation(false)]
pub fn build_listing(raw: &str, prs: &Vec<(String, u32)>) -> (r: Vec<BranchRecord>)
    ensures
        views_of(r@) == listing_of(raw@, prs@),
{
    let lines = split_lines(raw);
    let count: usize = lines.len();
    let mut recs: Vec<BranchRecord> = Vec::new();
    let mut i: usize = 0;
    proof {
        assert(lines.deep_view().take(0) =~= Seq::<Seq<char>>::empty());
        assert(views_of(recs@) =~= records_of_lines(lines.deep_view().take(0), prs@));
    }
    while i < count
        invariant
            i <= count,
            views_of(recs@) == records_of_lines(lines.deep_view().take(i as int), prs@),
        decreases count - i,
    {
        let parsed = parse_ref_line(lines[i].as_str(), prs);
        proof {
            assert(lines.deep_view()[i as int] == lines@[i as int]@);
        }
        match parsed {
            Some(b) => {
                let ghost bv = b@;
                recs.push(b);
                proof {
                    assert(views_of(recs@) =~= records_of_lines(
                        lines.deep_view().take(i as int),
                        prs@,
                    ).push(bv));
                }
            },
            None => {},
        }
        i = i + 1;
        proof {
            let dv = lines.deep_view();
            assert(dv.take(i as int).drop_last() =~= dv.take(i - 1));
            assert(dv.take(i as int).last() == dv[i - 1]);
            assert(views_of(recs@) == records_of_lines(dv.take(i as int), prs@));
        }
    }
    proof {
        assert(lines.deep_view().take(count as int) =~= lines.deep_view());
    }
    sort_by_recency(recs)
}

} // verus!
