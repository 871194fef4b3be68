//! Turning the raw pattern input into a compiled matcher.
use vstd::prelude::*;
use vstd::string::*;

verus! {

/// The matcher options that a pattern is compiled with.
#[derive(Clone, Copy, Debug, PartialEq, Eq, Structural)]
pub struct MatchOptions {
    pub multi_line: bool,
    pub case_insensitive: bool,
    pub ignore_whitespace: bool,
    pub dot_matches_new_line: bool,
    pub unicode: bool,
    pub swap_greed: bool,
}

/// How the raw pattern input is read.
#[derive(Clone, Copy, Debug, PartialEq, Eq, Structural)]
pub enum PatternMode {
    /// The whole input is the pattern; it is always compiled multi-line.
    Simple,
    /// The input is `body/flags`; each known flag letter turns an option on.
    Flagged,
}

/// A pattern body with the options it is compiled with.
#[derive(Debug)]
pub struct PatternSpec {
    pub body: String,
    pub options: MatchOptions,
}

/// The options of simple mode: multi-line, with Unicode on as by default.
pub open spec fn simple_options() -> MatchOptions {
    MatchOptions {
        multi_line: true,
        case_insensitive: false,
        ignore_whitespace: false,
        dot_matches_new_line: false,
        unicode: true,
        swap_greed: false,
    }
}

/// The options that a flag string turns on; other characters are ignored.
pub open spec fn flag_options(flags: Seq<char>) -> MatchOptions {
    MatchOptions {
        multi_line: flags.contains('m'),
        case_insensitive: flags.contains('i'),
        ignore_whitespace: flags.contains('x'),
        dot_matches_new_line: flags.contains('s'),
        unicode: flags.contains('u'),
        swap_greed: flags.contains('U'),
    }
}

/// `k` is the position of the first `/` in `s`, or its length if it has none.
pub open spec fn is_first_slash(s: Seq<char>, k: int) -> bool {
    &&& 0 <= k <= s.len()
    &&& forall|j: int| 0 <= j < k ==> s[j] != '/'
    &&& k < s.len() ==> s[k] == '/'
}

/// The text after the separator at `k`, empty when there is none.
pub open spec fn flags_after(s: Seq<char>, k: int) -> Seq<char> {
    if k < s.len() {
        s.skip(k + 1)
    } else {
        Seq::empty()
    }
}

/// What a raw input reads as in the given mode: body and options.
pub open spec fn parses_as(raw: Seq<char>, mode: PatternMode, body: Seq<char>, options: MatchOptions) -> bool {
    match mode {
        PatternMode::Simple => body == raw && options == simple_options(),
        PatternMode::Flagged => exists|k: int|
            is_first_slash(raw, k) && body == raw.take(k) && options == flag_options(flags_after(raw, k)),
    }
}

/// Reads the options turned on by a flag string.
pub fn options_from_flags(flags: &str) -> (r: MatchOptions)
    ensures
        r == flag_options(flags@),
{
    let n = flags.unicode_len();
    let mut r = MatchOptions {
        multi_line: false,
        case_insensitive: false,
        ignore_whitespace: false,
        dot_matches_new_line: false,
        unicode: false,
        swap_greed: false,
    };
    let mut i: usize = 0;
    while i < n
        invariant
            n == flags@.len(),
            0 <= i <= n,
            r == flag_options(flags@.take(i as int)),
        decreases n - i,
    {
        let c = flags.get_char(i);
        proof {
            let t = flags@.take(i as int);
            let t1 = flags@.take(i as int + 1);
            assert(t1 == t.push(c));
            assert forall|d: char| t1.contains(d) <==> (t.contains(d) || d == c) by {
                if t1.contains(d) {
                    let j = choose|j: int| 0 <= j < t1.len() && t1[j] == d;
                    if j < t.len() {
                        assert(t[j] == d);
                    }
                }
                if t.contains(d) {
                    let j = choose|j: int| 0 <= j < t.len() && t[j] == d;
                    assert(t1[j] == d);
                }
                if d == c {
                    assert(t1[i as int] == d);
                }
            }
        }
        if c == 'm' {
            r.multi_line = true;
        } else if c == 'i' {
            r.case_insensitive = true;
        } else if c == 'x' {
            r.ignore_whitespace = true;
        } else if c == 's' {
            r.dot_matches_new_line = true;
        } else if c == 'u' {
            r.unicode = true;
        } else if c == 'U' {
            r.swap_greed = true;
        }
        i = i + 1;
    }
    assert(flags@.take(n as int) == flags@);
    r
}

/// Splits raw input into pattern body and options, as the mode reads it.
pub fn parse_pattern(raw: &str, mode: PatternMode) -> (r: PatternSpec)
    ensures
        parses_as(raw@, mode, r.body@, r.options),
{
    match mode {
        PatternMode::Simple => PatternSpec {
            body: String::from_str(raw),
            options: MatchOptions {
                multi_line: true,
                case_insensitive: false,
                ignore_whitespace: false,
                dot_matches_new_line: false,
                unicode: true,
                swap_greed: false,
            },
        },
        PatternMode::Flagged => {
            let n = raw.unicode_len();
            let mut k: usize = 0;
            while k < n && raw.get_char(k) != '/'
                invariant
                    n == raw@.len(),
                    0 <= k <= n,
                    forall|j: int| 0 <= j < k ==> raw@[j] != '/',
                decreases n - k,
            {
                k = k + 1;
            }
            let body = String::from_str(raw.substring_char(0, k));
            let flags = if k < n {
                raw.substring_char(k + 1, n)
            } else {
                ""
            };
            proof {
                reveal_strlit("");
                assert(is_first_slash(raw@, k as int));
                assert(flags@ == flags_after(raw@, k as int));
            }
            let options = options_from_flags(flags);
            PatternSpec { body, options }
        },
    }
}

/// A compiled regular expression of the regex crate.
#[verifier::external_type_specification]
#[verifier::external_body]
pub struct ExRegex(regex::Regex);

/// The error the regex crate reports for a pattern it cannot compile.
#[verifier::external_type_specification]
#[verifier::external_body]
pub struct ExRegexError(regex::Error);

/// Whether the regex crate accepts a pattern body under the given options.
/// Its grammar and size limits decide; the answer depends on these alone.
pub uninterp spec fn pattern_builds(body: Seq<char>, options: MatchOptions) -> bool;

/// Relies on regex::RegexBuilder (`new`, the six option setters and `build`):
/// it compiles the body with exactly these options, and fails exactly when
/// the pattern is not accepted.
#[verifier::external_body]
fn build_regex(body: &str, options: MatchOptions) -> (r: Result<regex::Regex, regex::Error>)
    ensures
        r is Ok <==> pattern_builds(body@, options),
{
    regex::RegexBuilder::new(body)
        .multi_line(options.multi_line)
        .case_insensitive(options.case_insensitive)
        .ignore_whitespace(options.ignore_whitespace)
        .dot_matches_new_line(options.dot_matches_new_line)
        .unicode(options.unicode)
        .swap_greed(options.swap_greed)
        .build()
}

/// A pattern together with whether it compiled. A matcher whose pattern
/// did not compile stands for a bad pattern and finds nothing.
#[derive(Debug)]
pub struct CompiledMatcher {
    pub spec: PatternSpec,
    pub valid: bool,
}

impl CompiledMatcher {
    /// The matcher compiled; it is not the one that stands for a bad pattern.
    pub open spec fn is_valid(&self) -> bool {
        self.valid
    }

    /// Its validity is what the regex crate says of its body and options.
    pub open spec fn wf(&self) -> bool {
        self.valid == pattern_builds(self.spec.body@, self.spec.options)
    }

    /// Length, in characters, of the pattern body.
    pub fn body_len(&self) -> (r: usize)
        ensures
            r == self.spec.body@.len(),
    {
        self.spec.body.as_str().unicode_len()
    }
}

/// Compiles raw pattern input. A malformed pattern is no error: it gives the
/// matcher that finds nothing.
pub fn compile(raw: &str, mode: PatternMode) -> (r: CompiledMatcher)
    ensures
        parses_as(raw@, mode, r.spec.body@, r.spec.options),
        r.wf(),
        r.is_valid() <==> pattern_builds(r.spec.body@, r.spec.options),
{
    let spec = parse_pattern(raw, mode);
    let valid = match build_regex(spec.body.as_str(), spec.options) {
        Ok(_) => true,
        Err(_) => false,
    };
    CompiledMatcher { spec, valid }
}

} // verus!
