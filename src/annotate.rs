//! Finding the matches of a compiled pattern in a subject text and turning
//! them into highlight spans with a status message.
use vstd::prelude::*;
use vstd::string::*;
use vstd::utf8::*;
use crate::i18n::{count_name, decimal, format_count, placeholder, replace_all, translate};
use crate::pattern::{compile, parses_as, pattern_builds, CompiledMatcher, MatchOptions, PatternMode};

verus! {

/// One of the two highlight styles that alternate over successive matches.
#[derive(Clone, Copy, Debug, PartialEq, Eq, Structural)]
pub enum Bucket {
    First,
    Second,
}

/// One match, as a half-open range of character offsets into the subject.
#[derive(Clone, Copy, Debug, PartialEq, Eq, Structural)]
pub struct MatchSpan {
    pub start: usize,
    pub end: usize,
    pub bucket: Bucket,
}

/// The outcome of one scan: the spans in scan order, their number, and the
/// message that reports it.
#[derive(Debug)]
pub struct AnnotationResult {
    pub spans: Vec<MatchSpan>,
    pub count: usize,
    pub status_text: String,
}

/// A UTF-8 continuation byte, which never begins a character.
pub open spec fn is_continuation(b: u8) -> bool {
    0x80 <= b < 0xc0
}

/// `b` is a byte offset in `bytes` at which a character begins, or its end.
pub open spec fn is_boundary(bytes: Seq<u8>, b: int) -> bool {
    0 <= b <= bytes.len() && (b == bytes.len() || !is_continuation(bytes[b]))
}

/// The number of characters that begin before byte offset `b`: the
/// character offset of a byte offset on a boundary.
pub open spec fn chars_before(bytes: Seq<u8>, b: int) -> nat
    decreases b,
{
    if b <= 0 {
        0
    } else {
        chars_before(bytes, b - 1) + if b - 1 < bytes.len() && !is_continuation(bytes[b - 1]) {
            1nat
        } else {
            0nat
        }
    }
}

/// Byte ranges as a forward scan for non-overlapping matches yields them:
/// each within the text and on boundaries, each starting after the one
/// before it starts and not before it ends.
pub open spec fn ranges_ordered(found: Seq<(usize, usize)>, bytes: Seq<u8>) -> bool {
    &&& forall|i: int|
        0 <= i < found.len() ==> found[i].0 <= found[i].1 && is_boundary(bytes, found[i].0 as int)
            && is_boundary(bytes, found[i].1 as int)
    &&& forall|i: int|
        0 <= i < found.len() - 1 ==> found[i].1 <= found[i + 1].0 && found[i].0 < found[i + 1].0
}

/// The bucket of the match with index `i` in scan order.
pub open spec fn bucket_for(i: int) -> Bucket {
    if i % 2 == 0 {
        Bucket::First
    } else {
        Bucket::Second
    }
}

/// The spans that byte ranges found in a text stand for.
pub open spec fn spans_of_ranges(found: Seq<(usize, usize)>, bytes: Seq<u8>) -> Seq<MatchSpan> {
    Seq::new(
        found.len(),
        |i: int|
            MatchSpan {
                start: chars_before(bytes, found[i].0 as int) as usize,
                end: chars_before(bytes, found[i].1 as int) as usize,
                bucket: bucket_for(i),
            },
    )
}

/// Spans in strictly ascending order of start, none overlapping the next.
pub open spec fn spans_ordered(spans: Seq<MatchSpan>) -> bool {
    &&& forall|i: int| 0 <= i < spans.len() ==> spans[i].start <= spans[i].end
    &&& forall|i: int|
        0 <= i < spans.len() - 1 ==> spans[i].start < spans[i + 1].start && spans[i].end
            <= spans[i + 1].start
}

/// The buckets alternate, starting with the first.
pub open spec fn buckets_alternate(spans: Seq<MatchSpan>) -> bool {
    forall|i: int| 0 <= i < spans.len() ==> (spans[i].bucket == Bucket::First <==> i % 2 == 0)
}

proof fn lemma_chars_before_at_most(bytes: Seq<u8>, b: int)
    requires
        b >= 0,
    ensures
        chars_before(bytes, b) <= b,
    decreases b,
{
    if b > 0 {
        lemma_chars_before_at_most(bytes, b - 1);
    }
}

proof fn lemma_chars_before_monotone(bytes: Seq<u8>, b1: int, b2: int)
    requires
        b1 <= b2,
    ensures
        chars_before(bytes, b1) <= chars_before(bytes, b2),
    decreases b2 - b1,
{
    if b1 < b2 {
        lemma_chars_before_monotone(bytes, b1, b2 - 1);
    }
}

proof fn lemma_chars_before_strict(bytes: Seq<u8>, b1: int, b2: int)
    requires
        0 <= b1 < b2,
        is_boundary(bytes, b1),
        b1 < bytes.len(),
    ensures
        chars_before(bytes, b1) < chars_before(bytes, b2),
{
    lemma_chars_before_monotone(bytes, b1 + 1, b2);
}

proof fn lemma_chars_before_prefix(x: Seq<u8>, y: Seq<u8>, b: int)
    requires
        0 <= b <= x.len(),
    ensures
        chars_before(x + y, b) == chars_before(x, b),
    decreases b,
{
    if b > 0 {
        lemma_chars_before_prefix(x, y, b - 1);
        assert((x + y)[b - 1] == x[b - 1]);
    }
}

proof fn lemma_chars_before_concat(x: Seq<u8>, y: Seq<u8>, j: int)
    requires
        0 <= j <= y.len(),
    ensures
        chars_before(x + y, x.len() + j) == chars_before(x, x.len() as int) + chars_before(y, j),
    decreases j,
{
    if j == 0 {
        lemma_chars_before_prefix(x, y, x.len() as int);
    } else {
        lemma_chars_before_concat(x, y, j - 1);
        assert((x + y)[x.len() + j - 1] == y[j - 1]);
    }
}

proof fn lemma_scalar_one_char(c: char)
    ensures
        chars_before(encode_scalar(c as u32), encode_scalar(c as u32).len() as int) == 1,
{
    let v = c as u32;
    let e = encode_scalar(v);
    assert(is_scalar(v)) by {
        char_is_scalar(c);
    }
    let c1 = last_continuation_byte(v);
    let c2 = second_last_continuation_byte(v);
    let c3 = third_last_continuation_byte(v);
    assert(0x80u8 <= (0x80u8 | ((v & 0x3F) as u8)) < 0xc0u8) by (bit_vector);
    assert(0x80u8 <= (0x80u8 | (((v >> 6) & 0x3F) as u8)) < 0xc0u8) by (bit_vector);
    assert(0x80u8 <= (0x80u8 | (((v >> 12) & 0x3F) as u8)) < 0xc0u8) by (bit_vector);
    assert(is_continuation(c1) && is_continuation(c2) && is_continuation(c3));
    if has_width_1_encoding(v) {
        assert(v <= 0x7f ==> ((v & 0x7F) as u8) < 0x80u8) by (bit_vector);
        assert(e == seq![leading_byte_width_1(v)]);
        assert(!is_continuation(e[0]));
        assert(chars_before(e, 0) == 0);
        assert(chars_before(e, 1) == 1);
    } else if has_width_2_encoding(v) {
        assert((0xC0u8 | (((v >> 6) & 0x1F) as u8)) >= 0xc0u8) by (bit_vector);
        assert(e == seq![leading_byte_width_2(v), c1]);
        assert(!is_continuation(e[0]));
        assert(chars_before(e, 0) == 0);
        assert(chars_before(e, 1) == 1);
        assert(chars_before(e, 2) == 1);
    } else if has_width_3_encoding(v) {
        assert((0xE0u8 | (((v >> 12) & 0x0F) as u8)) >= 0xc0u8) by (bit_vector);
        assert(e == seq![leading_byte_width_3(v), c2, c1]);
        assert(!is_continuation(e[0]));
        assert(chars_before(e, 0) == 0);
        assert(chars_before(e, 1) == 1);
        assert(chars_before(e, 2) == 1);
        assert(chars_before(e, 3) == 1);
    } else {
        assert((0xF0u8 | (((v >> 18) & 0x7) as u8)) >= 0xc0u8) by (bit_vector);
        assert(e == seq![leading_byte_width_4(v), c3, c2, c1]);
        assert(!is_continuation(e[0]));
        assert(chars_before(e, 0) == 0);
        assert(chars_before(e, 1) == 1);
        assert(chars_before(e, 2) == 1);
        assert(chars_before(e, 3) == 1);
        assert(chars_before(e, 4) == 1);
    }
}

/// In the UTF-8 bytes of a text, as many characters begin as the text has.
pub proof fn lemma_chars_in_encoding(s: Seq<char>)
    ensures
        chars_before(encode_utf8(s), encode_utf8(s).len() as int) == s.len(),
    decreases s.len(),
{
    if s.len() > 0 {
        let x = encode_scalar(s[0] as u32);
        let y = encode_utf8(s.drop_first());
        lemma_chars_in_encoding(s.drop_first());
        lemma_scalar_one_char(s[0]);
        lemma_chars_before_concat(x, y, y.len() as int);
    }
}

/// For byte ranges that a forward scan yields, the spans they stand for are
/// in strictly ascending order of start and do not overlap, and their
/// buckets alternate from the first.
pub proof fn lemma_spans_ordered(found: Seq<(usize, usize)>, bytes: Seq<u8>)
    requires
        ranges_ordered(found, bytes),
    ensures
        spans_ordered(spans_of_ranges(found, bytes)),
        buckets_alternate(spans_of_ranges(found, bytes)),
{
    let spans = spans_of_ranges(found, bytes);
    assert forall|i: int| 0 <= i < spans.len() implies spans[i].start <= spans[i].end by {
        lemma_chars_before_monotone(bytes, found[i].0 as int, found[i].1 as int);
        lemma_chars_before_at_most(bytes, found[i].1 as int);
    }
    assert forall|i: int| 0 <= i < spans.len() - 1 implies spans[i].start < spans[i + 1].start
        && spans[i].end <= spans[i + 1].start by {
        lemma_chars_before_strict(bytes, found[i].0 as int, found[i + 1].0 as int);
        lemma_chars_before_monotone(bytes, found[i].1 as int, found[i + 1].0 as int);
        lemma_chars_before_at_most(bytes, found[i + 1].0 as int);
    }
}

/// Every span ends within a text of `n` characters.
pub open spec fn spans_within(spans: Seq<MatchSpan>, n: nat) -> bool {
    forall|i: int| 0 <= i < spans.len() ==> spans[i].end <= n
}

/// The spans that byte ranges of a forward scan over a text stand for lie
/// within that text's characters.
pub proof fn lemma_spans_within(found: Seq<(usize, usize)>, s: Seq<char>)
    requires
        ranges_ordered(found, encode_utf8(s)),
    ensures
        spans_within(spans_of_ranges(found, encode_utf8(s)), s.len()),
{
    let bytes = encode_utf8(s);
    let spans = spans_of_ranges(found, bytes);
    lemma_chars_in_encoding(s);
    assert forall|i: int| 0 <= i < spans.len() implies spans[i].end <= s.len() by {
        lemma_chars_before_monotone(bytes, found[i].1 as int, bytes.len() as int);
        lemma_chars_before_at_most(bytes, found[i].1 as int);
    }
}

/// The byte ranges of the successive non-overlapping matches that the
/// regex crate finds for a pattern body under the given options in a text.
/// Its matching semantics decide; the answer depends on these alone.
pub uninterp spec fn regex_matches(body: Seq<char>, options: MatchOptions, haystack: Seq<char>) -> Seq<(usize, usize)>;

/// Relies on regex::RegexBuilder (`new`, the six option setters and `build`)
/// and on regex::Regex::find_iter, read through Match::start and Match::end.
/// The build fails exactly when the pattern is not accepted. Otherwise the
/// result is the byte ranges of the successive non-overlapping matches, each
/// `start <= end` on UTF-8 boundaries of the haystack; after an empty match
/// the next search begins one position further on, so starts rise.
#[verifier::external_body]
fn find_ranges(body: &str, options: MatchOptions, haystack: &str) -> (r: Result<Vec<(usize, usize)>, regex::Error>)
    ensures
        r is Ok <==> pattern_builds(body@, options),
        r is Ok ==> r->Ok_0@ == regex_matches(body@, options, haystack@),
        r is Ok ==> ranges_ordered(r->Ok_0@, haystack.spec_bytes()),
{
    let re = regex::RegexBuilder::new(body)
        .multi_line(options.multi_line)
        .case_insensitive(options.case_insensitive)
        .ignore_whitespace(options.ignore_whitespace)
        .dot_matches_new_line(options.dot_matches_new_line)
        .unicode(options.unicode)
        .swap_greed(options.swap_greed)
        .build()?;
    Ok(re.find_iter(haystack).map(|m| (m.start(), m.end())).collect())
}

/// Walks from byte offset `pos`, where `chars` characters have begun, on
/// to `target`, counting the characters that begin on the way.
fn advance(bytes: &[u8], pos: usize, chars: usize, target: usize) -> (r: (usize, usize))
    requires
        pos <= target <= bytes@.len(),
        chars == chars_before(bytes@, pos as int),
    ensures
        r.0 == target,
        r.1 == chars_before(bytes@, target as int),
{
    let mut pos = pos;
    let mut chars = chars;
    while pos < target
        invariant
            pos <= target <= bytes@.len(),
            chars == chars_before(bytes@, pos as int),
        decreases target - pos,
    {
        proof {
            lemma_chars_before_at_most(bytes@, pos as int);
        }
        if !(bytes[pos] >= 0x80 && bytes[pos] < 0xc0) {
            chars = chars + 1;
        }
        pos = pos + 1;
    }
    (pos, chars)
}

/// Turns byte ranges found in `subject` into character-offset spans, with
/// the buckets alternating from the first.
pub fn spans_from_ranges(found: &Vec<(usize, usize)>, subject: &str) -> (r: Vec<MatchSpan>)
    requires
        ranges_ordered(found@, subject.spec_bytes()),
    ensures
        r@ == spans_of_ranges(found@, subject.spec_bytes()),
        spans_ordered(r@),
        buckets_alternate(r@),
        spans_within(r@, subject@.len()),
{
    let bytes = subject.as_bytes();
    let ghost bs = subject.spec_bytes();
    let mut r: Vec<MatchSpan> = Vec::new();
    let mut pos: usize = 0;
    let mut chars: usize = 0;
    let mut i: usize = 0;
    while i < found.len()
        invariant
            bytes@ == bs,
            ranges_ordered(found@, bs),
            0 <= i <= found@.len(),
            i < found@.len() ==> pos <= found@[i as int].0,
            pos <= bs.len(),
            chars == chars_before(bs, pos as int),
            r@ == spans_of_ranges(found@, bs).take(i as int),
        decreases found@.len() - i,
    {
        let (start, end) = found[i];
        let (p1, c1) = advance(bytes, pos, chars, start);
        let (p2, c2) = advance(bytes, p1, c1, end);
        let span = MatchSpan {
            start: c1,
            end: c2,
            bucket: if i % 2 == 0 {
                Bucket::First
            } else {
                Bucket::Second
            },
        };
        r.push(span);
        pos = p2;
        chars = c2;
        i = i + 1;
        assert(r@ == spans_of_ranges(found@, bs).take(i as int));
    }
    assert(r@ == spans_of_ranges(found@, bs));
    proof {
        lemma_spans_ordered(found@, bs);
        lemma_spans_within(found@, subject@);
    }
    r
}

/// The status message: the localized "no matches" when the pattern body is
/// empty or nothing matched, else the match-count message for `count`.
pub fn status_text(count: usize, pattern_body_len: usize) -> (r: String)
    ensures
        pattern_body_len > 0 && count > 0 ==> exists|t: Seq<char>|
            r@ == replace_all(t, placeholder(count_name()), decimal(count as nat)),
{
    if pattern_body_len == 0 || count == 0 {
        proof {
            reveal_strlit("no matches");
        }
        translate("no matches")
    } else {
        format_count(count)
    }
}

/// Scans `subject` with the matcher. An empty pattern body, or a pattern
/// that did not compile, gives no spans; otherwise each match found, in scan
/// order, gives a span with its character offsets.
pub fn annotate(matcher: &CompiledMatcher, pattern_body_len: usize, subject: &str) -> (r: AnnotationResult)
    requires
        matcher.wf(),
    ensures
        r.count == r.spans@.len(),
        pattern_body_len == 0 || !matcher.is_valid() ==> r.spans@.len() == 0,
        pattern_body_len > 0 && matcher.is_valid() ==> r.spans@ == spans_of_ranges(
            regex_matches(matcher.spec.body@, matcher.spec.options, subject@),
            subject.spec_bytes(),
        ),
        spans_ordered(r.spans@),
        buckets_alternate(r.spans@),
        spans_within(r.spans@, subject@.len()),
        pattern_body_len > 0 && r.count > 0 ==> exists|t: Seq<char>|
            r.status_text@ == replace_all(t, placeholder(count_name()), decimal(r.count as nat)),
{
    let spans = if pattern_body_len == 0 || !matcher.valid {
        Vec::new()
    } else {
        match find_ranges(matcher.spec.body.as_str(), matcher.spec.options, subject) {
            Ok(found) => spans_from_ranges(&found, subject),
            Err(_) => Vec::new(),
        }
    };
    let count = spans.len();
    let status_text = status_text(count, pattern_body_len);
    AnnotationResult { spans, count, status_text }
}

/// What the host calls after every edit of the pattern or the subject: the
/// pattern is compiled afresh and the whole subject scanned again.
pub fn on_pattern_or_subject_changed(raw_pattern: &str, subject: &str, mode: PatternMode) -> (r: AnnotationResult)
    ensures
        exists|body: Seq<char>, options|
            #[trigger] parses_as(raw_pattern@, mode, body, options) && (body.len() == 0
                || !pattern_builds(body, options) ==> r.spans@.len() == 0) && (body.len() > 0
                && pattern_builds(body, options) ==> r.spans@ == spans_of_ranges(
                regex_matches(body, options, subject@),
                subject.spec_bytes(),
            )) && (body.len() > 0 && r.count > 0 ==> exists|t: Seq<char>|
                r.status_text@ == replace_all(t, placeholder(count_name()), decimal(r.count as nat))),
        r.count == r.spans@.len(),
        spans_ordered(r.spans@),
        buckets_alternate(r.spans@),
        spans_within(r.spans@, subject@.len()),
{
    let matcher = compile(raw_pattern, mode);
    let body_len = matcher.body_len();
    let r = annotate(&matcher, body_len, subject);
    assert(parses_as(raw_pattern@, mode, matcher.spec.body@, matcher.spec.options));
    r
}

} // verus!
