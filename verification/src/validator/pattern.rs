//! Regular-expression matching, through the `regex` crate.
use vstd::prelude::*;
use regex::Regex;

verus! {

/// `regex::Regex`, carried opaquely.
#[verifier::external_type_specification]
#[verifier::external_body]
pub struct ExRegex(Regex);

/// Whether `Regex::new(pattern)` succeeds.
pub uninterp spec fn regex_compiles(pattern: Seq<char>) -> bool;

/// What `Regex::captures(text)` gives on the expression compiled from
/// `pattern`: `None` when it does not match, else each group's matched
/// text, group 0 (the whole match) first.
pub uninterp spec fn regex_captures(pattern: Seq<char>, text: Seq<char>) -> Option<Seq<Option<Seq<char>>>>;

/// The groups `pattern` captures in `text`: `None` when the pattern does
/// not compile or does not match.
pub open spec fn pattern_captures(pattern: Seq<char>, text: Seq<char>) -> Option<Seq<Option<Seq<char>>>> {
    if regex_compiles(pattern) {
        regex_captures(pattern, text)
    } else {
        None
    }
}

/// The text of a group that matched, if it did.
pub open spec fn opt_view(o: Option<String>) -> Option<Seq<char>> {
    match o {
        Some(s) => Some(s@),
        None => None,
    }
}

/// `groups` holds the texts `g` names, group by group.
pub open spec fn groups_are(groups: Seq<Option<String>>, g: Seq<Option<Seq<char>>>) -> bool {
    &&& g.len() == groups.len()
    &&& forall|i: int|
        0 <= i < g.len() ==> match #[trigger] groups[i] {
            Some(s) => g[i] == Some(s@),
            None => g[i] is None,
        }
}

/// A compiled regular expression, with the pattern it was compiled from.
/// Only `compile` makes one.
pub struct CompiledPattern {
    source: String,
    re: Regex,
}

impl View for CompiledPattern {
    type V = Seq<char>;

    /// The pattern the expression was compiled from.
    closed spec fn view(&self) -> Seq<char> {
        self.source@
    }
}

/// `Regex::new`: succeeds exactly when `regex_compiles` says the pattern
/// compiles, and the result records the pattern.
#[verifier::external_body]
fn compile(pattern: &str) -> (r: Option<CompiledPattern>)
    ensures
        r is Some <==> regex_compiles(pattern@),
        r matches Some(p) ==> p@ == pattern@,
{
    let re = Regex::new(pattern).ok()?;
    Some(CompiledPattern { source: pattern.to_string(), re })
}

/// `Regex::captures` on `text`, each group's match as an owned string: the
/// contract says only that the result is the one `regex_captures` names for
/// the expression's pattern and the text.
#[verifier::external_body]
fn captures_in(p: &CompiledPattern, text: &str) -> (r: Option<Vec<Option<String>>>)
    ensures
        match r {
            None => regex_captures(p@, text@) is None,
            Some(groups) => regex_captures(p@, text@) matches Some(g) && groups_are(groups@, g),
        },
{
    let caps = p.re.captures(text)?;
    Some(caps.iter().map(|m| m.map(|m| m.as_str().to_string())).collect())
}

/// The groups `pattern` captures in `text` (see `pattern_captures`).
pub(crate) fn captures(pattern: &str, text: &str) -> (r: Option<Vec<Option<String>>>)
    ensures
        match r {
            None => pattern_captures(pattern@, text@) is None,
            Some(groups) => pattern_captures(pattern@, text@) matches Some(g) && groups_are(groups@, g),
        },
{
    match compile(pattern) {
        Some(p) => captures_in(&p, text),
        None => None,
    }
}

} // verus!
