//! The pattern to search lines for.

use vstd::prelude::*;
use vstd::string::StringExecFns;
use crate::pattern::{check_pattern, is_pattern, search_outcome, PatternError, PatternErrorView};

verus! {

/// `s` in lower case, as `str::to_lowercase` gives it.
pub uninterp spec fn lowercase(s: Seq<char>) -> Seq<char>;

/// `str::to_lowercase` gives the text in lower case, by the Unicode
/// rules for each character.
pub assume_specification[ str::to_lowercase ](s: &str) -> (r: String)
    ensures
        r@ == lowercase(s@),
;

/// The pattern that is searched for: `base`, in lower case where the
/// case of letters is to be ignored.
pub open spec fn pattern_text(base: Seq<char>, is_insensitive: bool) -> Seq<char> {
    if is_insensitive {
        lowercase(base)
    } else {
        base
    }
}

/// The pattern to search for, if it is a regular expression: `base`,
/// put in lower case where the case of letters is to be ignored.
pub fn extract_regex(base: &str, is_insensitive: bool) -> (r: Result<String, PatternError>)
    ensures
        match r {
            Ok(pattern) => pattern@ == pattern_text(base@, is_insensitive) && is_pattern(pattern@),
            Err(e) => search_outcome(pattern_text(base@, is_insensitive), Seq::empty()) == Err::<
                bool,
                PatternErrorView,
            >(e@),
        },
{
    let actual_base = if is_insensitive {
        base.to_lowercase()
    } else {
        String::from_str(base)
    };
    match check_pattern(actual_base.as_str()) {
        Ok(_) => Ok(actual_base),
        Err(e) => Err(e),
    }
}

} // verus!
