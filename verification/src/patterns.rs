//! Shell-style glob patterns (the `glob` crate) as used by invalidation and
//! ignore lists: a pattern is kept as its source text and compiled on use.

use vstd::prelude::*;
use crate::text::push_str;

verus! {

/// The pattern text compiles (glob `Pattern::new` succeeds).
pub uninterp spec fn glob_valid(pattern: Seq<char>) -> bool;

/// The compiled pattern matches the path with the default match options.
pub uninterp spec fn glob_matches(pattern: Seq<char>, path: Seq<char>) -> bool;

/// The text of the error glob reports for a pattern that does not compile.
pub uninterp spec fn glob_error(pattern: Seq<char>) -> Seq<char>;

/// The text std's `Debug` writes for a string: quoted and escaped.
pub uninterp spec fn debug_quoted(s: Seq<char>) -> Seq<char>;

/// glob `Pattern::new(pattern)` then `Pattern::matches(path)`: `Err` with
/// the `PatternError` text when the pattern does not compile, else whether
/// it matches. Both results are named, not stated.
#[verifier::external_body]
pub(crate) fn glob_match(pattern: &str, path: &str) -> (r: Result<bool, String>)
    ensures
        r is Ok <==> glob_valid(pattern@),
        r matches Ok(b) ==> b == glob_matches(pattern@, path@),
        r matches Err(e) ==> e@ == glob_error(pattern@),
{
    match ::glob::Pattern::new(pattern) {
        Ok(p) => Ok(p.matches(path)),
        Err(e) => Err(e.to_string()),
    }
}

/// std `format!("{:?}", s)` for a string: the quoted, escaped text (named).
#[verifier::external_body]
pub(crate) fn debug_quote(s: &str) -> (r: String)
    ensures
        r@ == debug_quoted(s@),
{
    format!("{:?}", s)
}

/// A glob metacharacter that `Pattern::escape` wraps in brackets.
pub open spec fn is_glob_meta(c: char) -> bool {
    c == '?' || c == '*' || c == '[' || c == ']'
}

/// `s` with every metacharacter `?`, `*`, `[`, `]` wrapped in brackets.
pub open spec fn escape_spec(s: Seq<char>) -> Seq<char>
    decreases s.len(),
{
    if s.len() == 0 {
        Seq::empty()
    } else {
        let c = s.last();
        escape_spec(s.drop_last()) + if is_glob_meta(c) {
            seq!['[', c, ']']
        } else {
            seq![c]
        }
    }
}

/// glob `Pattern::escape`: surrounds each of `?`, `*`, `[`, `]` with
/// brackets and keeps every other character, so the pattern matches `s`
/// literally.
#[verifier::external_body]
pub(crate) fn glob_escape(s: &str) -> (r: String)
    ensures
        r@ == escape_spec(s@),
{
    ::glob::Pattern::escape(s)
}

/// Checks that a glob compiles; the error names the glob in the form
/// `invalid glob "<g>": <error>`.
pub fn check_glob(g: &str) -> (r: Result<(), String>)
    ensures
        r is Ok <==> glob_valid(g@),
        r matches Err(e) ==> e@ == "invalid glob "@ + debug_quoted(g@) + ": "@ + glob_error(g@),
{
    match glob_match(g, "") {
        Ok(_) => Ok(()),
        Err(e) => {
            let mut msg = String::from_str("invalid glob ");
            let q = debug_quote(g);
            push_str(&mut msg, q.as_str());
            push_str(&mut msg, ": ");
            push_str(&mut msg, e.as_str());
            Err(msg)
        },
    }
}

} // verus!
