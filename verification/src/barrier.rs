//! What a dynamic part must not run over.
//!
//! A dynamic part stands for text that somebody else supplies. It stops in front of hidden
//! and relative segments (`.git`, `..`), of `node_modules` and of test directories, and it
//! does not end in a generated file.
use vstd::prelude::*;

use crate::text::{in_bytes, occurs_at};

verus! {

/// The rule for what stops a dynamic part when a text is matched.
pub const MATCH_BARRIER: &'static str = r"(/|^)(\.|/|(node_modules|__tests?__)(/|$))";

/// The rule for what stops a dynamic part when the constants that may follow are listed.
pub const CONSTANTS_BARRIER: &'static str = r"(/|^)(\.|(node_modules|__tests?__)(/|$))";

/// The rule for what a dynamic part must not end in.
pub const ARTIFACT: &'static str = r"\.d\.ts$|\.map$";

/// Whether a segment called `name` starts at character `k` of `text`.
pub open spec fn segment_at(text: Seq<char>, name: Seq<char>, k: int) -> bool {
    &&& occurs_at(text, name, k)
    &&& k + name.len() == text.len() || text[k + name.len()] == '/'
}

/// Whether what starts at character `k` stops a dynamic part in front of it. With `empty`,
/// an empty segment stops it too.
pub open spec fn barred_at(text: Seq<char>, k: int, empty: bool) -> bool {
    ||| 0 <= k < text.len() && text[k] == '.'
    ||| empty && 0 <= k < text.len() && text[k] == '/'
    ||| segment_at(text, "node_modules"@, k)
    ||| segment_at(text, "__test__"@, k)
    ||| segment_at(text, "__tests__"@, k)
}

/// Whether a dynamic part stops at character `k`: a barred segment starts there, at the
/// beginning of the text, or behind the slash that stands there.
pub open spec fn barrier_at(text: Seq<char>, k: int, empty: bool) -> bool {
    ||| k == 0 && barred_at(text, 0, empty)
    ||| 0 <= k < text.len() && text[k] == '/' && barred_at(text, k + 1, empty)
}

/// The first position at or after `from` at which a dynamic part stops.
pub open spec fn barrier_from(text: Seq<char>, empty: bool, from: int) -> Option<int>
    decreases text.len() - from + 1,
{
    if from > text.len() {
        None
    } else if barrier_at(text, from, empty) {
        Some(from)
    } else {
        barrier_from(text, empty, from + 1)
    }
}

/// The first position at which a dynamic part stops.
pub open spec fn first_barrier(text: Seq<char>, empty: bool) -> Option<int> {
    barrier_from(text, empty, 0)
}

/// Whether `text` ends in `suffix`.
pub open spec fn has_suffix(text: Seq<char>, suffix: Seq<char>) -> bool {
    suffix.len() <= text.len() && text.skip(text.len() - suffix.len()) == suffix
}

/// Where the ending of a generated file starts in `text`.
pub open spec fn artifact_start(text: Seq<char>) -> Option<int> {
    if has_suffix(text, ".d.ts"@) {
        Some(text.len() - ".d.ts"@.len())
    } else if has_suffix(text, ".map"@) {
        Some(text.len() - ".map"@.len())
    } else {
        None
    }
}

/// Whether `text` ends like a generated file.
pub open spec fn is_artifact(text: Seq<char>) -> bool {
    artifact_start(text) is Some
}

/// A byte position as an integer.
pub open spec fn position(at: Option<usize>) -> Option<int> {
    match at {
        Some(b) => Some(b as int),
        None => None,
    }
}

/// A result of [`barrier_from`] is the first barrier, and there is one if any stands there.
pub proof fn lemma_barrier_from(text: Seq<char>, empty: bool, from: int)
    requires
        0 <= from,
    ensures
        match barrier_from(text, empty, from) {
            Some(k) => {
                &&& from <= k <= text.len()
                &&& barrier_at(text, k, empty)
                &&& forall|j: int| from <= j < k ==> !#[trigger] barrier_at(text, j, empty)
            },
            None => forall|j: int|
                from <= j <= text.len() ==> !#[trigger] barrier_at(text, j, empty),
        },
    decreases text.len() - from + 1,
{
    if from <= text.len() && !barrier_at(text, from, empty) {
        lemma_barrier_from(text, empty, from + 1);
    }
}

/// The byte position at which the first match of one of the three rules starts in `text`.
///
/// Calls `regex::Regex::new`, `regex::Regex::find` and `regex::Match::start`. Claimed of
/// them: each of the three rules compiles, and the match that is found starts at the
/// leftmost character at which the rule matches, given as a byte offset. In the syntax of
/// the rules `xy` is `x` followed by `y`, `x|y` is either, `x?` is `x` or nothing, `\.` is a
/// dot, and without flags `^` and `$` are the beginning and the end of the whole text.
#[verifier::external_body]
fn find_start(rule: &str, text: &str) -> (res: Option<usize>)
    requires
        rule@ == MATCH_BARRIER@ || rule@ == CONSTANTS_BARRIER@ || rule@ == ARTIFACT@,
    ensures
        rule@ == MATCH_BARRIER@ ==> position(res) == in_bytes(text@, first_barrier(text@, true)),
        rule@ == CONSTANTS_BARRIER@ ==> position(res) == in_bytes(
            text@,
            first_barrier(text@, false),
        ),
        rule@ == ARTIFACT@ ==> position(res) == in_bytes(text@, artifact_start(text@)),
{
    regex::Regex::new(rule).unwrap().find(text).map(|found| found.start())
}

/// The byte position at which a dynamic part stops when `text` is matched.
pub fn match_barrier(text: &str) -> (res: Option<usize>)
    ensures
        position(res) == in_bytes(text@, first_barrier(text@, true)),
{
    find_start(MATCH_BARRIER, text)
}

/// The byte position at which a dynamic part stops when constants are listed.
pub fn constants_barrier(text: &str) -> (res: Option<usize>)
    ensures
        position(res) == in_bytes(text@, first_barrier(text@, false)),
{
    find_start(CONSTANTS_BARRIER, text)
}

/// Whether `text` ends like a generated file, which no dynamic part matches.
pub fn ends_in_artifact(text: &str) -> (res: bool)
    ensures
        res == is_artifact(text@),
{
    find_start(ARTIFACT, text).is_some()
}

} // verus!
