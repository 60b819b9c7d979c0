use branch_picker::epoch::parse_epoch;
use branch_picker::listing::build_listing;
use branch_picker::listing::lookup_pr;
use branch_picker::listing::parse_ref_line;
use branch_picker::parse::blank;
use branch_picker::parse::split_lines;
use branch_picker::parse::split_str;
use branch_picker::prs::pr_pairs_from_json;
use branch_picker::record::contains_sub;
use branch_picker::record::BranchRecord;
use branch_picker::sort::sort_by_recency;

fn rec(name: &str, epoch: i64) -> BranchRecord {
    BranchRecord {
        name: name.to_string(),
        is_current: false,
        has_upstream: true,
        tracking_info: String::new(),
        last_commit_display: String::new(),
        last_commit_epoch: epoch,
        pr_number: None,
    }
}

#[test]
fn parse_epoch_plain_values() {
    assert_eq!(parse_epoch("1000"), 1000);
    assert_eq!(parse_epoch("0"), 0);
    assert_eq!(parse_epoch("-123"), -123);
    assert_eq!(parse_epoch("+5"), 5);
    assert_eq!(parse_epoch("007"), 7);
    assert_eq!(parse_epoch("0000000000000000000000001"), 1);
}

#[test]
fn parse_epoch_rejects_malformed() {
    assert_eq!(parse_epoch(""), 0);
    assert_eq!(parse_epoch("abc"), 0);
    assert_eq!(parse_epoch("12a"), 0);
    assert_eq!(parse_epoch(" 12"), 0);
    assert_eq!(parse_epoch("1 "), 0);
    assert_eq!(parse_epoch("+"), 0);
    assert_eq!(parse_epoch("-"), 0);
    assert_eq!(parse_epoch("--5"), 0);
    assert_eq!(parse_epoch("1.5"), 0);
}

#[test]
fn parse_epoch_range_limits() {
    assert_eq!(parse_epoch("9223372036854775807"), i64::MAX);
    assert_eq!(parse_epoch("9223372036854775808"), 0);
    assert_eq!(parse_epoch("-9223372036854775808"), i64::MIN);
    assert_eq!(parse_epoch("-9223372036854775809"), 0);
    assert_eq!(parse_epoch("99999999999999999999999"), 0);
}

#[test]
fn split_keeps_empty_fields() {
    let parts = split_str("a|b||c", '|');
    assert_eq!(parts, vec!["a", "b", "", "c"]);
    assert_eq!(split_str("", '|'), vec![""]);
    assert_eq!(split_str("|", '|'), vec!["", ""]);
}

#[test]
fn split_lines_like_std() {
    assert_eq!(split_lines("a\nb\n"), vec!["a", "b"]);
    assert_eq!(split_lines("a\r\nb"), vec!["a", "b"]);
    assert_eq!(split_lines(""), Vec::<String>::new());
    assert_eq!(split_lines("\n"), vec![""]);
    assert_eq!(split_lines("a"), vec!["a"]);
}

#[test]
fn blank_fields() {
    assert!(blank(""));
    assert!(blank(" \t "));
    assert!(!blank("*"));
    assert!(!blank(" x "));
    assert!(blank("\u{a0}\u{2003}\u{3000}"));
    assert!(!blank("\u{a0}y"));
}

#[test]
fn blank_matches_trim() {
    let samples = ["", " ", "\u{a0}", "\u{1680}\u{2028}", "*", " . ", "\u{200b}"];
    for s in samples {
        assert_eq!(blank(s), s.trim().is_empty());
    }
}

#[test]
fn unicode_blank_marker_fields() {
    let prs: Vec<(String, u32)> = Vec::new();
    let record = parse_ref_line("\u{a0}|name|t|d|5|\u{a0}", &prs).unwrap();
    assert!(!record.is_current);
    assert!(!record.has_upstream);
}

#[test]
fn substring_search() {
    assert!(contains_sub("ahead 1, gone", "gone"));
    assert!(!contains_sub("ahead 1", "gone"));
    assert!(contains_sub("gone", "gone"));
    assert!(!contains_sub("gon", "gone"));
}

#[test]
fn stale_rule() {
    let mut b = rec("a", 1);
    assert!(!b.is_stale());
    b.tracking_info = "[gone]".to_string();
    assert!(b.is_stale());
    let mut c = rec("b", 1);
    c.has_upstream = false;
    assert!(c.is_stale());
}

#[test]
fn wrong_field_count_is_dropped() {
    let prs: Vec<(String, u32)> = Vec::new();
    assert!(parse_ref_line("a|b|c|d|e", &prs).is_none());
    assert!(parse_ref_line("a|b|c|d|e|f|g", &prs).is_none());
    assert!(parse_ref_line("*|name|track|date|123|up", &prs).is_some());
    let listing = build_listing("a|b|c|d|e\n*|name|track|date|123|up\nx", &prs);
    assert_eq!(listing.len(), 1);
    assert_eq!(listing[0].name, "name");
}

#[test]
fn example_two_line_listing() {
    let prs: Vec<(String, u32)> = Vec::new();
    let raw = "|main|[gone]|2 days ago|1000|\n*|feature|ahead 1|1 hour ago|2000|origin/feature";
    let listing = build_listing(raw, &prs);
    assert_eq!(listing.len(), 2);
    assert_eq!(listing[0].name, "feature");
    assert!(listing[0].is_current);
    assert_eq!(listing[0].last_commit_epoch, 2000);
    assert!(listing[0].has_upstream);
    assert_eq!(listing[0].tracking_info, "ahead 1");
    assert_eq!(listing[0].last_commit_display, "1 hour ago");
    assert_eq!(listing[1].name, "main");
    assert!(!listing[1].is_current);
    assert_eq!(listing[1].last_commit_epoch, 1000);
    assert!(!listing[1].has_upstream);

    let app = branch_picker::App::new(listing, 5);
    assert_eq!(app.cursor(), Some(0));
    assert_eq!(app.branches()[0].name, "feature");
}

#[test]
fn pr_pairs_from_good_json() {
    let bytes = br#"[{"headRefName":"feature","number":42}]"#;
    let pairs = pr_pairs_from_json(bytes);
    assert_eq!(pairs, vec![("feature".to_string(), 42u32)]);

    let raw = "*|feature|ahead 1|1 hour ago|2000|origin/feature";
    let listing = build_listing(raw, &pairs);
    assert_eq!(listing[0].pr_number, Some(42));

    let none: Vec<(String, u32)> = Vec::new();
    let listing = build_listing(raw, &none);
    assert_eq!(listing[0].pr_number, None);
}

#[test]
fn pr_pairs_degrade_to_empty() {
    assert!(pr_pairs_from_json(b"not json").is_empty());
    assert!(pr_pairs_from_json(br#"{"headRefName":"x","number":1}"#).is_empty());
    assert!(pr_pairs_from_json(br#"[{"headRefName":"x"}]"#).is_empty());
    assert!(pr_pairs_from_json(br#"[{"number":1}]"#).is_empty());
    assert!(pr_pairs_from_json(br#"[{"headRefName":"x","number":-1}]"#).is_empty());
    assert!(pr_pairs_from_json(br#"[{"headRefName":"x","number":4294967296}]"#).is_empty());
    assert!(pr_pairs_from_json(br#"[{"headRefName":7,"number":1}]"#).is_empty());
    assert!(pr_pairs_from_json(br#"[]"#).is_empty());
}

#[test]
fn pr_pairs_ignore_extra_members() {
    let bytes = br#"[{"headRefName":"a","number":1,"title":"t"},{"headRefName":"b","number":2}]"#;
    let pairs = pr_pairs_from_json(bytes);
    assert_eq!(
        pairs,
        vec![("a".to_string(), 1u32), ("b".to_string(), 2u32)]
    );
}

#[test]
fn lookup_keeps_last_pair() {
    let prs = vec![("a".to_string(), 1u32), ("a".to_string(), 2u32)];
    assert_eq!(lookup_pr(&prs, &"a".to_string()), Some(2));
    assert_eq!(lookup_pr(&prs, &"b".to_string()), None);
}

#[test]
fn sort_is_descending_and_stable() {
    let input = vec![
        rec("old", 10),
        rec("tie_first", 50),
        rec("newest", 90),
        rec("tie_second", 50),
    ];
    let sorted = sort_by_recency(input);
    let names: Vec<&str> = sorted.iter().map(|b| b.name.as_str()).collect();
    assert_eq!(names, vec!["newest", "tie_first", "tie_second", "old"]);
}

#[test]
fn sort_keeps_tool_order_on_all_equal() {
    let input = vec![rec("a", 0), rec("b", 0), rec("c", 0)];
    let sorted = sort_by_recency(input);
    let names: Vec<&str> = sorted.iter().map(|b| b.name.as_str()).collect();
    assert_eq!(names, vec!["a", "b", "c"]);
}

#[test]
fn unparsable_epoch_sorts_last() {
    let prs: Vec<(String, u32)> = Vec::new();
    let raw = "|broken|t|d|oops|\n|fine|t|d|5|up";
    let listing = build_listing(raw, &prs);
    assert_eq!(listing.len(), 2);
    assert_eq!(listing[0].name, "fine");
    assert_eq!(listing[1].name, "broken");
    assert_eq!(listing[1].last_commit_epoch, 0);
}
