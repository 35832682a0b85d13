//! Regular expressions used to split documents: compilation, match spans and
//! escaping of literal text. The engine is `fancy_regex`; what it computes is
//! stated here and relied upon by the splitting logic.

use vstd::prelude::*;
use vstd::string::StringSliceAdditionalSpecFns;
use vstd::utf8::{decode_utf8, is_char_boundary};

verus! {

#[verifier::external_type_specification]
#[verifier::external_body]
pub struct ExRegex(fancy_regex::Regex);

#[verifier::external_type_specification]
#[verifier::external_body]
pub struct ExRegexError(fancy_regex::Error);

/// Whether the regex engine accepts `pattern`.
pub uninterp spec fn regex_compiles(pattern: Seq<char>) -> bool;

/// Byte spans of the successive non-overlapping matches of `pattern` in
/// `haystack`, or `None` when the search fails at run time (for instance when
/// the backtracking limit is hit).
pub uninterp spec fn regex_spans(pattern: Seq<char>, haystack: Seq<char>) -> Option<Seq<(usize, usize)>>;

/// Match spans lie inside `bytes`, in order, without overlap, on character boundaries.
pub open spec fn spans_wf(spans: Seq<(usize, usize)>, bytes: Seq<u8>) -> bool {
    &&& forall|i: int| 0 <= i < spans.len() ==> #[trigger] spans[i].0 <= spans[i].1 <= bytes.len()
    &&& forall|i: int, j: int| 0 <= i < j < spans.len() ==> #[trigger] spans[i].1 <= #[trigger] spans[j].0
    &&& forall|i: int| 0 <= i < spans.len() ==> is_char_boundary(bytes, #[trigger] spans[i].0 as int)
            && is_char_boundary(bytes, spans[i].1 as int)
}

/// The haystack `bytes[start..end]` as characters.
pub open spec fn haystack(bytes: Seq<u8>, start: int, end: int) -> Seq<char> {
    decode_utf8(bytes.subrange(start, end))
}

/// A compiled pattern together with its source text.
pub struct CompiledPattern {
    source: String,
    regex: fancy_regex::Regex,
}

impl CompiledPattern {
    /// The source the pattern was compiled from.
    pub closed spec fn pattern(&self) -> Seq<char> {
        self.source@
    }
}

/// Compiles `pattern` with `fancy_regex::Regex::new`.
///
/// Trusted: the result is `Ok` exactly when the engine accepts the pattern
/// (a property of the pattern text alone), and the compiled value remembers
/// its source.
#[verifier::external_body]
pub(crate) fn compile(pattern: &str) -> (r: Result<CompiledPattern, fancy_regex::Error>)
    ensures
        r is Ok <==> regex_compiles(pattern@),
        r matches Ok(c) ==> c.pattern() == pattern@,
{
    match fancy_regex::Regex::new(pattern) {
        Ok(regex) => Ok(CompiledPattern { source: pattern.to_string(), regex }),
        Err(err) => Err(err),
    }
}

/// Runs `fancy_regex::Regex::find_iter` on `text[start..end]` and collects the
/// byte spans of the matches, relative to `start`.
///
/// Trusted: the spans are those named by [`regex_spans`] for the pattern and
/// the haystack; the iterator yields non-overlapping matches from left to
/// right, each a valid `&str` slice of the haystack (so on character
/// boundaries); the first run-time error ends the search with `Err`.
#[verifier::external_body]
pub(crate) fn find_spans(re: &CompiledPattern, text: &str, start: usize, end: usize) -> (r: Result<Vec<(usize, usize)>, fancy_regex::Error>)
    requires
        start <= end <= text.spec_bytes().len(),
        is_char_boundary(text.spec_bytes(), start as int),
        is_char_boundary(text.spec_bytes(), end as int),
    ensures
        r is Ok <==> regex_spans(re.pattern(), haystack(text.spec_bytes(), start as int, end as int)) is Some,
        r matches Ok(v) ==> regex_spans(re.pattern(), haystack(text.spec_bytes(), start as int, end as int)) == Some(v@),
        r matches Ok(v) ==> spans_wf(v@, text.spec_bytes().subrange(start as int, end as int)),
{
    re.regex.find_iter(&text[start..end]).map(|found| found.map(|m| (m.start(), m.end()))).collect()
}

/// Characters that `fancy_regex::escape` prefixes with a backslash.
pub open spec fn escape_is_special(c: char) -> bool {
    c == '\\' || c == '.' || c == '+' || c == '*' || c == '?' || c == '(' || c == ')' || c == '|'
        || c == '[' || c == ']' || c == '{' || c == '}' || c == '^' || c == '$' || c == '#'
}

/// How one character is written once escaping is under way.
pub open spec fn escape_char(c: char) -> Seq<char> {
    if c == '\n' {
        seq!['\\', 'n']
    } else if c == '\t' {
        seq!['\\', 't']
    } else if c == '\r' {
        seq!['\\', 'r']
    } else if escape_is_special(c) {
        seq!['\\', c]
    } else {
        seq![c]
    }
}

/// Every character of `t` written by [`escape_char`].
pub open spec fn escape_chars(t: Seq<char>) -> Seq<char>
    decreases t.len(),
{
    if t.len() == 0 {
        seq![]
    } else {
        escape_char(t[0]) + escape_chars(t.drop_first())
    }
}

/// The result of `fancy_regex::escape`: the text itself when it holds no
/// special character, else every character escaped.
pub open spec fn regex_escape(t: Seq<char>) -> Seq<char> {
    if exists|i: int| 0 <= i < t.len() && escape_is_special(#[trigger] t[i]) {
        escape_chars(t)
    } else {
        t
    }
}

/// Calls `fancy_regex::escape`.
///
/// Trusted: the result is as `fancy_regex::escape` writes it in its source:
/// unchanged when no byte is special, else `\`, `\n`, `\t`, `\r` and the
/// special characters escaped.
#[verifier::external_body]
pub(crate) fn escape(text: &str) -> (r: String)
    ensures
        r@ == regex_escape(text@),
{
    fancy_regex::escape(text).into_owned()
}

/// Renders a regex error as text with its `Display` impl.
#[verifier::external_body]
pub(crate) fn regex_error_text(err: &fancy_regex::Error) -> String {
    err.to_string()
}

} // verus!
