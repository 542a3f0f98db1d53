//! Regular expressions, by their text.

use vstd::prelude::*;

verus! {

/// Why a text is no regular expression.
#[derive(Debug, Clone, PartialEq, Eq)]
pub enum PatternError {
    /// The text does not follow the syntax; with the explanation.
    Syntax(String),
    /// The expression would be larger than the limit, given in bytes.
    CompiledTooBig(usize),
    /// Any other reason.
    Other,
}

/// A `PatternError` as contracts see it.
pub enum PatternErrorView {
    Syntax(Seq<char>),
    CompiledTooBig(usize),
    Other,
}

impl View for PatternError {
    type V = PatternErrorView;

    open spec fn view(&self) -> PatternErrorView {
        match self {
            PatternError::Syntax(text) => PatternErrorView::Syntax(text@),
            PatternError::CompiledTooBig(limit) => PatternErrorView::CompiledTooBig(*limit),
            PatternError::Other => PatternErrorView::Other,
        }
    }
}

/// What comes of compiling `pattern` with `regex::Regex::new` and
/// searching `haystack` with the result by `regex::Regex::is_match`:
/// whether the expression matches somewhere in the haystack, or why
/// the pattern is no expression.
pub uninterp spec fn search_outcome(pattern: Seq<char>, haystack: Seq<char>) -> Result<bool, PatternErrorView>;

/// Whether `pattern` is a regular expression: whether
/// `regex::Regex::new` accepts it.
pub open spec fn is_pattern(pattern: Seq<char>) -> bool {
    search_outcome(pattern, Seq::empty()) is Ok
}

/// Whether the regular expression `pattern` matches somewhere in
/// `haystack`.
pub open spec fn finds(pattern: Seq<char>, haystack: Seq<char>) -> bool {
    search_outcome(pattern, haystack) == Ok::<bool, PatternErrorView>(true)
}

/// The outcome of a search as contracts see it.
pub open spec fn outcome_view(r: Result<bool, PatternError>) -> Result<bool, PatternErrorView> {
    match r {
        Ok(found) => Ok(found),
        Err(e) => Err(e@),
    }
}

/// Compiles `pattern` with `regex::Regex::new` and, where that gives
/// an expression, asks `regex::Regex::is_match` whether it matches
/// somewhere in `haystack`. A pattern that does not compile fails in
/// the same way whatever the haystack.
#[verifier::external_body]
pub(crate) fn search(pattern: &str, haystack: &str) -> (r: Result<bool, PatternError>)
    ensures
        outcome_view(r) == search_outcome(pattern@, haystack@),
        r is Err ==> forall|other: Seq<char>| search_outcome(pattern@, other) == outcome_view(r),
        r is Ok ==> forall|other: Seq<char>| search_outcome(pattern@, other) is Ok,
{
    match regex::Regex::new(pattern) {
        Ok(expression) => Ok(expression.is_match(haystack)),
        Err(regex::Error::Syntax(text)) => Err(PatternError::Syntax(text)),
        Err(regex::Error::CompiledTooBig(limit)) => Err(PatternError::CompiledTooBig(limit)),
        Err(_) => Err(PatternError::Other),
    }
}

/// Tells whether `pattern` is a regular expression, and why not where
/// it is none.
pub fn check_pattern(pattern: &str) -> (r: Result<(), PatternError>)
    ensures
        match r {
            Ok(_) => is_pattern(pattern@),
            Err(e) => search_outcome(pattern@, Seq::empty()) == Err::<bool, PatternErrorView>(e@),
        },
{
    proof {
        reveal_strlit("");
        assert(""@ == Seq::<char>::empty());
    }
    match search(pattern, "") {
        Ok(_) => Ok(()),
        Err(e) => Err(e),
    }
}

/// Tells whether `pattern` matches somewhere in `haystack`. A pattern
/// that is no regular expression matches nowhere.
pub fn is_found(pattern: &str, haystack: &str) -> (found: bool)
    ensures
        found == finds(pattern@, haystack@),
{
    match search(pattern, haystack) {
        Ok(found) => found,
        Err(_) => false,
    }
}

} // verus!
