use wildcard::annotate::{
    annotate, on_pattern_or_subject_changed, spans_from_ranges, status_text, Bucket, MatchSpan,
};
use wildcard::pattern::{compile, options_from_flags, parse_pattern, MatchOptions, PatternMode};

fn offsets(spans: &[MatchSpan]) -> Vec<(usize, usize)> {
    spans.iter().map(|s| (s.start, s.end)).collect()
}

#[test]
fn six_letter_word_in_simple_mode() {
    let r = on_pattern_or_subject_changed("[a-z]{6}", "This is a test string", PatternMode::Simple);
    assert_eq!(r.count, 1);
    assert_eq!(offsets(&r.spans), vec![(15, 21)]);
    assert_eq!(r.spans[0].bucket, Bucket::First);
    assert_eq!(r.status_text, "1 match");
}

#[test]
fn case_insensitive_flag() {
    let r = on_pattern_or_subject_changed("te/i", "This is a TEST", PatternMode::Flagged);
    assert_eq!(r.count, 1);
    assert_eq!(offsets(&r.spans), vec![(10, 12)]);
    let r = on_pattern_or_subject_changed("te", "This is a TEST", PatternMode::Flagged);
    assert_eq!(r.count, 0);
    assert_eq!(r.status_text, "no matches");
}

#[test]
fn empty_pattern_reports_no_matches() {
    for mode in [PatternMode::Simple, PatternMode::Flagged] {
        let r = on_pattern_or_subject_changed("", "anything", mode);
        assert_eq!(r.count, 0);
        assert!(r.spans.is_empty());
        assert_eq!(r.status_text, "no matches");
    }
    let r = on_pattern_or_subject_changed("/i", "anything", PatternMode::Flagged);
    assert_eq!(r.count, 0);
    assert_eq!(r.status_text, "no matches");
}

#[test]
fn three_matches_alternate_buckets() {
    for mode in [PatternMode::Simple, PatternMode::Flagged] {
        let r = on_pattern_or_subject_changed("a", "banana", mode);
        assert_eq!(r.count, 3);
        assert_eq!(offsets(&r.spans), vec![(1, 2), (3, 4), (5, 6)]);
        let buckets: Vec<Bucket> = r.spans.iter().map(|s| s.bucket).collect();
        assert_eq!(buckets, vec![Bucket::First, Bucket::Second, Bucket::First]);
        assert_eq!(r.status_text, "3 matches");
    }
}

#[test]
fn malformed_pattern_matches_nothing() {
    for mode in [PatternMode::Simple, PatternMode::Flagged] {
        let m = compile("(", mode);
        assert!(!m.valid);
        let r = annotate(&m, m.body_len(), "((((");
        assert_eq!(r.count, 0);
        assert!(r.spans.is_empty());
        assert_eq!(r.status_text, "no matches");
    }
    let r = on_pattern_or_subject_changed("a[", "a[a[", PatternMode::Simple);
    assert_eq!(r.count, 0);
}

#[test]
fn valid_pattern_compiles() {
    let m = compile("b+/m", PatternMode::Flagged);
    assert!(m.valid);
    assert_eq!(m.spec.body, "b+");
    assert_eq!(m.body_len(), 2);
}

#[test]
fn spans_never_overlap_and_ascend() {
    let r = on_pattern_or_subject_changed("a*", "baaacaa", PatternMode::Simple);
    assert_eq!(offsets(&r.spans), vec![(0, 0), (1, 4), (5, 7)]);
    for w in r.spans.windows(2) {
        assert!(w[0].start < w[1].start);
        assert!(w[0].end <= w[1].start);
    }
    assert_eq!(r.count, 3);
}

#[test]
fn offsets_count_characters_not_bytes() {
    let r = on_pattern_or_subject_changed("é", "café é", PatternMode::Simple);
    assert_eq!(offsets(&r.spans), vec![(3, 4), (5, 6)]);
    let r = on_pattern_or_subject_changed("x", "日本x語x", PatternMode::Simple);
    assert_eq!(offsets(&r.spans), vec![(2, 3), (4, 5)]);
}

#[test]
fn ranges_become_character_spans() {
    let found = vec![(0usize, 2usize), (3, 5), (5, 8), (8, 9)];
    let spans = spans_from_ranges(&found, "éaé日x");
    assert_eq!(offsets(&spans), vec![(0, 1), (2, 3), (3, 4), (4, 5)]);
    assert_eq!(spans[2].bucket, Bucket::First);
    assert_eq!(spans[3].bucket, Bucket::Second);
    assert!(spans_from_ranges(&Vec::new(), "abc").is_empty());
}

#[test]
fn multi_line_anchors() {
    let r = on_pattern_or_subject_changed("^a", "a\na", PatternMode::Simple);
    assert_eq!(r.count, 2);
    let r = on_pattern_or_subject_changed("^a", "a\na", PatternMode::Flagged);
    assert_eq!(r.count, 1);
    let r = on_pattern_or_subject_changed("^a/m", "a\na", PatternMode::Flagged);
    assert_eq!(offsets(&r.spans), vec![(0, 1), (2, 3)]);
}

#[test]
fn status_messages() {
    assert_eq!(status_text(0, 3), "no matches");
    assert_eq!(status_text(4, 0), "no matches");
    assert_eq!(status_text(1, 2), "1 match");
    assert_eq!(status_text(4, 2), "4 matches");
}

#[test]
fn flags_split_on_first_slash() {
    let p = parse_pattern("a/b/i", PatternMode::Flagged);
    assert_eq!(p.body, "a");
    assert!(p.options.case_insensitive);
    assert!(!p.options.unicode);
    let p = parse_pattern("a/b/i", PatternMode::Simple);
    assert_eq!(p.body, "a/b/i");
    assert!(p.options.multi_line && p.options.unicode && !p.options.case_insensitive);
    let p = parse_pattern("abc", PatternMode::Flagged);
    assert_eq!(p.body, "abc");
    assert_eq!(p.options, options_from_flags(""));
}

#[test]
fn flag_letters() {
    let o = options_from_flags("mixsuUz");
    assert_eq!(
        o,
        MatchOptions {
            multi_line: true,
            case_insensitive: true,
            ignore_whitespace: true,
            dot_matches_new_line: true,
            unicode: true,
            swap_greed: true,
        }
    );
    let o = options_from_flags("q?");
    assert!(!o.multi_line && !o.case_insensitive && !o.ignore_whitespace);
    assert!(!o.dot_matches_new_line && !o.unicode && !o.swap_greed);
}
