//! What holds of the directories that lead to a match.
//!
//! A search goes down to a directory where its text could match. A dynamic part stops in front
//! of a barrier, so a constant behind it that runs through a directory with a barrier in it is
//! only found once the text goes beyond that directory. Where no constant does so, every
//! directory that leads to a match could match.
use vstd::prelude::*;

use crate::barrier::{
    barred_at, barrier_at, first_barrier, has_suffix, is_artifact, lemma_barrier_from, segment_at,
};
use crate::matching::{
    answers, answers_at, constant_outcome, dynamic_outcome, outcome, parts_outcome, Outcome, Query,
};
use crate::matching_laws::{
    flattened, law_nesting_is_no_matter, lemma_flattened, lemma_no_barrier_at_end,
};
use crate::pattern::{choices, PatternView};
use crate::text::{find_in, has_prefix, lemma_find_from, occurs_at};

verus! {

/// Whether `text` leads to a directory: it is empty or ends in a slash.
pub open spec fn is_directory_text(text: Seq<char>) -> bool {
    text.len() == 0 || text.last() == '/'
}

/// Whether `constant` can be cut by no directory or holds no barrier: it holds no slash, or it
/// neither starts with a barred segment nor with a slash, and no slash in it is followed by a
/// barred segment.
pub open spec fn is_unbarred(constant: Seq<char>) -> bool {
    (forall|k: int| 0 <= k < constant.len() ==> #[trigger] constant[k] != '/') || first_barrier(
        constant,
        true,
    ) is None
}

/// Whether no slash of `constant` is followed by a barred segment.
pub open spec fn is_passable(constant: Seq<char>) -> bool {
    forall|k: int|
        0 <= k < constant.len() && #[trigger] constant[k] == '/' ==> !barred_at(
            constant,
            k + 1,
            true,
        )
}

/// Whether `part` is a constant that ends in a slash.
pub open spec fn ends_in_slash(part: PatternView) -> bool {
    part matches PatternView::Constant(c) && c.len() > 0 && c.last() == '/'
}

/// Whether `text` neither starts with a slash nor has two slashes in a row.
pub open spec fn has_no_empty_segment(text: Seq<char>) -> bool {
    &&& text.len() > 0 ==> text[0] != '/'
    &&& forall|i: int, j: int|
        0 <= i && j == i + 1 && j < text.len() ==> #[trigger] text[i] != '/' || #[trigger] text[j]
            != '/'
}

/// Whether each constant that stands right behind a dynamic part is unbarred.
pub open spec fn constants_are_unbarred(parts: Seq<PatternView>) -> bool {
    forall|i: int, j: int|
        0 <= i && j == i + 1 && j < parts.len() && #[trigger] parts[i] is Dynamic ==> (
        #[trigger] parts[j] matches PatternView::Constant(c) ==> is_unbarred(c))
}

/// Whether each constant that stands right behind a dynamic part is unbarred, or starts with a
/// slash and is passable. In the latter case the dynamic part stands first or right behind a
/// constant that ends in a slash, so that it stands for a segment that is not empty where no
/// segment is.
pub open spec fn constants_can_be_reached(parts: Seq<PatternView>) -> bool {
    forall|i: int, j: int|
        0 <= i && j == i + 1 && j < parts.len() && #[trigger] parts[i] is Dynamic ==> (
        #[trigger] parts[j] matches PatternView::Constant(c) ==> is_unbarred(c) || {
            &&& c.len() > 0 && c[0] == '/'
            &&& is_passable(c)
            &&& i == 0 || ends_in_slash(parts[i - 1])
        })
}

/// Where `constant` stands in `text`: at its beginning, or for the first time where it stands
/// behind a dynamic part.
pub open spec fn place_of(text: Seq<char>, constant: Seq<char>, behind: bool) -> Option<int> {
    if behind {
        find_in(text, constant)
    } else if has_prefix(text, constant) {
        Some(0)
    } else {
        None
    }
}

/// Whether no barrier stands in the text of a directory that ends between the characters `from`
/// and `to` of `text`.
pub open spec fn passes_clear(text: Seq<char>, from: int, to: int, empty: bool) -> bool {
    forall|m: int|
        from < m < to && text[m - 1] == '/' ==> first_barrier(#[trigger] text.take(m), empty)
            is None
}

/// Whether reading `text` along `parts`, no constant behind a dynamic part runs through a
/// directory with a barrier in it. With `behind`, a dynamic part stands before the parts. With
/// `empty`, an empty segment is a barrier too.
pub open spec fn runs_clear(
    parts: Seq<PatternView>,
    text: Seq<char>,
    behind: bool,
    empty: bool,
) -> bool
    decreases parts.len(),
{
    if parts.len() == 0 {
        true
    } else {
        match parts[0] {
            PatternView::Constant(constant) => match place_of(text, constant, behind) {
                Some(at) => {
                    &&& behind ==> passes_clear(text, at, at + constant.len(), empty)
                    &&& runs_clear(
                        parts.drop_first(),
                        text.skip(at + constant.len()),
                        false,
                        empty,
                    )
                },
                None => true,
            },
            PatternView::Dynamic => runs_clear(parts.drop_first(), text, true, empty),
            _ => true,
        }
    }
}

/// Whether no directory on the way to `value` hides it from a search along `parts`. The
/// constants alone may show it, the constants and the segments of `value`, or else how `value`
/// is read along the parts, of which the former two are special cases.
pub open spec fn leads_clear(parts: Seq<PatternView>, value: Seq<char>, empty: bool) -> bool {
    ||| constants_are_unbarred(parts)
    ||| has_no_empty_segment(value) && constants_can_be_reached(parts)
    ||| runs_clear(parts, value, false, empty)
}

/// Whether some choice of `pattern` matches `value` and no directory on the way hides it.
pub open spec fn matches_clearly(pattern: PatternView, value: Seq<char>, empty: bool) -> bool {
    exists|i: int|
        0 <= i < choices(pattern).len() && #[trigger] answers_at(pattern, Query::Match, value, i)
            && leads_clear(flattened(choices(pattern)[i]), value, empty)
}

/// How far a dynamic part may run on in `text`.
pub open spec fn limit(text: Seq<char>, empty: bool) -> int {
    match first_barrier(text, empty) {
        Some(offset) => offset,
        None => text.len() as int,
    }
}

/// How far a dynamic part that stands before may run on in `text`.
pub open spec fn offset_at(text: Seq<char>, behind: bool, empty: bool) -> Option<int> {
    if behind {
        Some(limit(text, empty))
    } else {
        None
    }
}

proof fn lemma_segment_of_start(
    text: Seq<char>,
    start: Seq<char>,
    name: Seq<char>,
    shift: int,
    k: int,
)
    requires
        start.len() > 0,
        start.last() == '/',
        name.len() > 0,
        name.last() != '/',
        segment_at(start, name, k),
        0 <= shift <= k,
        start.len() - shift <= text.len(),
        text.take(start.len() - shift) == start.skip(shift),
    ensures
        segment_at(text, name, k - shift),
{
    let n = name.len() as int;
    let cut = start.skip(shift);
    assert(start.subrange(k, k + n).last() == name.last());
    if k + n == start.len() {
        assert(start.subrange(k, k + n).last() == start.last());
    }
    assert(start[k + n] == '/');
    assert forall|i: int| 0 <= i < cut.len() implies #[trigger] text[i] == start[i + shift] by {
        assert(text.take(cut.len() as int)[i] == cut[i]);
    }
    assert(text[k + n - shift] == '/');
    assert(text.subrange(k - shift, k - shift + n) =~= start.subrange(k, k + n));
}

/// What bars a dynamic part in the text of a directory bars it in every text that goes on from
/// what is left of that text behind `shift`.
proof fn lemma_barred_of_start(text: Seq<char>, start: Seq<char>, shift: int, k: int)
    requires
        is_directory_text(start),
        barred_at(start, k, true),
        0 <= shift <= k,
        shift <= start.len(),
        start.len() - shift <= text.len(),
        text.take(start.len() - shift) == start.skip(shift),
    ensures
        barred_at(text, k - shift, true),
{
    reveal_strlit("node_modules");
    reveal_strlit("__test__");
    reveal_strlit("__tests__");
    let cut = start.skip(shift);
    assert forall|i: int| 0 <= i < cut.len() implies #[trigger] text[i] == start[i + shift] by {
        assert(text.take(cut.len() as int)[i] == cut[i]);
    }
    if segment_at(start, "node_modules"@, k) {
        lemma_segment_of_start(text, start, "node_modules"@, shift, k);
    } else if segment_at(start, "__test__"@, k) {
        lemma_segment_of_start(text, start, "__test__"@, shift, k);
    } else if segment_at(start, "__tests__"@, k) {
        lemma_segment_of_start(text, start, "__tests__"@, shift, k);
    } else {
        assert(text[k - shift] == start[k]);
    }
}

/// A barrier in the text of a directory is one in every text that goes on from it.
proof fn lemma_barrier_of_start(text: Seq<char>, start: Seq<char>, k: int)
    requires
        is_directory_text(start),
        has_prefix(text, start),
        barrier_at(start, k, true),
    ensures
        barrier_at(text, k, true),
{
    assert(start.skip(0) =~= start);
    if k == 0 && barred_at(start, 0, true) {
        lemma_barred_of_start(text, start, 0, 0);
    } else {
        lemma_barred_of_start(text, start, 0, k + 1);
        assert(text.take(start.len() as int)[k] == start[k]);
    }
}

/// A dynamic part runs no further in a text than in the text of a directory that leads there,
/// if it does not run on to the end of that.
pub proof fn lemma_limit_of_start(text: Seq<char>, start: Seq<char>, empty: bool)
    requires
        is_directory_text(start),
        has_prefix(text, start),
    ensures
        0 <= limit(text, true) <= text.len(),
        limit(start, true) <= limit(start, empty) <= start.len(),
        first_barrier(start, empty) is Some ==> limit(text, true) <= limit(start, empty)
            < start.len(),
        limit(text, true) == text.len() ==> limit(start, empty) == start.len(),
{
    lemma_barrier_from(text, true, 0);
    lemma_barrier_from(start, true, 0);
    lemma_barrier_from(start, empty, 0);
    lemma_no_barrier_at_end(text, true);
    lemma_no_barrier_at_end(start, empty);
    if let Some(k) = first_barrier(start, empty) {
        assert(barrier_at(start, k, true));
        lemma_barrier_of_start(text, start, k);
    }
}

/// The text of a directory is no generated file.
pub proof fn lemma_directory_is_no_artifact(text: Seq<char>)
    requires
        is_directory_text(text),
    ensures
        !is_artifact(text),
{
    reveal_strlit(".d.ts");
    reveal_strlit(".map");
    if has_suffix(text, ".d.ts"@) {
        assert(text.skip(text.len() - 5).last() == text.last());
    }
    if has_suffix(text, ".map"@) {
        assert(text.skip(text.len() - 4).last() == text.last());
    }
}

/// Where a constant stands in a text, it stands there in the text of a directory that leads
/// far enough. A directory that does not cuts the constant.
pub proof fn lemma_constant_of_start(
    text: Seq<char>,
    start: Seq<char>,
    constant: Seq<char>,
    behind: bool,
) -> (at: int)
    requires
        is_directory_text(start),
        has_prefix(text, start),
        constant_outcome(constant, text, offset_at(text, behind, true)) is Consumed,
    ensures
        occurs_at(text, constant, at),
        place_of(text, constant, behind) == Some(at),
        behind ==> at <= limit(text, true),
        !behind ==> at == 0,
        constant_outcome(constant, text, offset_at(text, behind, true)) == (Outcome::Consumed {
            remaining: text.skip(at + constant.len()),
            any_offset: None,
        }),
        at + constant.len() <= start.len() ==> {
            let (left, still) = (
                text.skip(at + constant.len()),
                start.skip(at + constant.len()),
            );
            &&& place_of(start, constant, behind) == Some(at)
            &&& is_directory_text(still)
            &&& has_prefix(left, still)
            &&& left.skip(still.len() as int) == text.skip(start.len() as int)
        },
        at + constant.len() > start.len() ==> {
            &&& place_of(start, constant, behind) is None
            &&& !behind ==> has_prefix(constant, start)
        },
{
    lemma_find_from(text, constant, 0);
    lemma_find_from(start, constant, 0);
    let at = place_of(text, constant, behind)->0;
    let (m, n) = (start.len() as int, at + constant.len());
    assert(!behind ==> text.subrange(0, n) =~= text.take(n));
    if behind {
        if let Some(k) = find_in(start, constant) {
            assert(text.take(m).subrange(k, k + constant.len()) =~= text.subrange(
                k,
                k + constant.len(),
            ));
            assert(occurs_at(text, constant, k));
        }
    }
    if n <= m {
        assert(text.take(m).subrange(at, n) =~= text.subrange(at, n));
        assert(occurs_at(start, constant, at));
        assert(!behind ==> start.take(n) =~= start.subrange(0, n));
        let (left, still) = (text.skip(n), start.skip(n));
        assert(left.take(still.len() as int) =~= text.take(m).skip(n));
        assert(still.len() > 0 ==> still.last() == start.last());
        assert(left.skip(still.len() as int) =~= text.skip(m));
    } else if !behind {
        assert(text.take(n).take(m) =~= text.take(m));
    }
    at
}

/// Where a directory cuts a constant that passes clear, nothing stops the dynamic part before
/// the constant in the text of the directory.
pub proof fn lemma_cut_constant(
    text: Seq<char>,
    start: Seq<char>,
    at: int,
    to: int,
    empty: bool,
)
    requires
        is_directory_text(start),
        has_prefix(text, start),
        0 <= at <= limit(text, true),
        start.len() < to,
        passes_clear(text, at, to, empty),
    ensures
        first_barrier(start, empty) is None,
{
    lemma_limit_of_start(text, start, empty);
    if start.len() > at {
        let m = start.len() as int;
        assert(text.take(m) == start);
        assert(text[m - 1] == text.take(m)[m - 1]);
    }
}

/// A constant that holds a barrier only where a dynamic part before it would be empty, or none
/// at all, passes clear.
proof fn lemma_passes_clear(text: Seq<char>, constant: Seq<char>, at: int)
    requires
        occurs_at(text, constant, at),
        at <= limit(text, true),
        is_unbarred(constant) || at > 0 && is_passable(constant),
    ensures
        passes_clear(text, at, at + constant.len(), true),
{
    let to = at + constant.len();
    assert forall|m: int| at < m < to && text[m - 1] == '/' implies first_barrier(
        #[trigger] text.take(m),
        true,
    ) is None by {
        let start = text.take(m);
        assert(start.last() == '/');
        assert(text.take(start.len() as int) =~= start);
        lemma_limit_of_start(text, start, true);
        if let Some(k) = first_barrier(start, true) {
            lemma_barrier_from(start, true, 0);
            let rest = start.skip(at);
            assert forall|i: int| 0 <= i < rest.len() implies #[trigger] constant[i] == start[i
                + at] by {
                assert(text.subrange(at, to)[i] == text[i + at]);
            }
            assert(constant[m - 1 - at] == '/');
            assert(constant.take(rest.len() as int) =~= rest);
            if k == 0 && barred_at(start, 0, true) {
                lemma_barred_of_start(constant, start, at, 0);
                assert(barrier_at(constant, 0, true));
            } else {
                lemma_barred_of_start(constant, start, at, k + 1);
                assert(constant[k - at] == '/');
                assert(barrier_at(constant, k - at, true));
            }
            lemma_barrier_from(constant, true, 0);
        }
    }
}

/// Whether a text that is read from part `n` on does not start with a slash because of what
/// stands before it.
spec fn starts_segment(parts: Seq<PatternView>, n: int) -> bool {
    n == 0 || ends_in_slash(parts[n - 1])
}

/// The reading of a match runs clear where the constants can be reached.
proof fn lemma_reached_runs_clear(
    parts: Seq<PatternView>,
    n: int,
    text: Seq<char>,
    behind: bool,
    segments: bool,
)
    requires
        0 <= n <= parts.len(),
        forall|i: int| 0 <= i < parts.len() ==> !(#[trigger] parts[i] is Concatenation),
        constants_are_unbarred(parts) || segments && constants_can_be_reached(parts),
        behind ==> n > 0 && parts[n - 1] is Dynamic,
        segments ==> forall|i: int, j: int|
            0 <= i && j == i + 1 && j < text.len() ==> #[trigger] text[i] != '/'
                || #[trigger] text[j] != '/',
        segments && text.len() > 0 && starts_segment(parts, n) ==> text[0] != '/',
        segments && text.len() > 0 && behind && starts_segment(parts, n - 1) ==> text[0] != '/',
        parts_outcome(parts.skip(n), text, offset_at(text, behind, true)).is_match(),
    ensures
        runs_clear(parts.skip(n), text, behind, true),
    decreases parts.len() - n,
{
    let ahead = parts.skip(n);
    let offset = offset_at(text, behind, true);
    if n < parts.len() {
        assert(ahead[0] == parts[n]);
        assert(!(parts[n] is Concatenation));
        assert(ahead.drop_first() =~= parts.skip(n + 1));
        match parts[n] {
            PatternView::Constant(constant) => {
                assert(outcome(ahead[0], text, offset) == constant_outcome(
                    constant,
                    text,
                    offset,
                ));
                let none = Seq::<char>::empty();
                assert(text.take(0) =~= none);
                let at = lemma_constant_of_start(text, none, constant, behind);
                let to = at + constant.len();
                let left = text.skip(to);
                assert(text.subrange(at, to) == constant);
                if behind {
                    assert(parts[n - 1] is Dynamic && parts[n] == PatternView::Constant(constant));
                    if !is_unbarred(constant) {
                        assert(text[at] == text.subrange(at, to)[0]);
                        assert(at > 0);
                    }
                    lemma_passes_clear(text, constant, at);
                }
                if segments {
                    assert forall|i: int, j: int|
                        0 <= i && j == i + 1 && j < left.len() implies #[trigger] left[i] != '/'
                        || #[trigger] left[j] != '/' by {
                        assert(text[to + i] != '/' || text[to + j] != '/');
                    }
                    if left.len() > 0 && starts_segment(parts, n + 1) {
                        assert(text.subrange(at, to).last() == text[to - 1]);
                        assert(text[to - 1] != '/' || text[to] != '/');
                        assert(left[0] == text[to]);
                    }
                }
                lemma_reached_runs_clear(parts, n + 1, left, false, segments);
            },
            PatternView::Dynamic => {
                assert(outcome(ahead[0], text, offset) == dynamic_outcome(text));
                lemma_reached_runs_clear(parts, n + 1, text, true, segments);
            },
            _ => {
                assert(outcome(ahead[0], text, offset) is Unnormalized);
            },
        }
    }
}

/// What is a barrier where empty segments are none is one where they are.
proof fn lemma_runs_clear_of_fewer(parts: Seq<PatternView>, text: Seq<char>, behind: bool)
    requires
        runs_clear(parts, text, behind, true),
    ensures
        runs_clear(parts, text, behind, false),
    decreases parts.len(),
{
    if parts.len() > 0 {
        let rest = parts.drop_first();
        match parts[0] {
            PatternView::Constant(constant) => {
                if let Some(at) = place_of(text, constant, behind) {
                    let to = at + constant.len();
                    if behind {
                        assert forall|m: int|
                            at < m < to && text[m - 1] == '/' implies first_barrier(
                            #[trigger] text.take(m),
                            false,
                        ) is None by {
                            lemma_barrier_from(text.take(m), true, 0);
                            lemma_barrier_from(text.take(m), false, 0);
                            if let Some(k) = first_barrier(text.take(m), false) {
                                assert(barrier_at(text.take(m), k, true));
                            }
                        }
                    }
                    lemma_runs_clear_of_fewer(rest, text.skip(to), false);
                }
            },
            PatternView::Dynamic => {
                lemma_runs_clear_of_fewer(rest, text, true);
            },
            _ => {},
        }
    }
}

/// The constants of a pattern show that the reading of a match runs clear: each right behind a
/// dynamic part is unbarred, or can be reached where no segment is empty.
pub proof fn law_reached_constants_run_clear(
    pattern: PatternView,
    value: Seq<char>,
    i: int,
    empty: bool,
)
    requires
        0 <= i < choices(pattern).len(),
        answers_at(pattern, Query::Match, value, i),
        leads_clear(flattened(choices(pattern)[i]), value, empty),
    ensures
        runs_clear(flattened(choices(pattern)[i]), value, false, empty),
{
    let choice = choices(pattern)[i];
    let parts = flattened(choice);
    if !runs_clear(parts, value, false, empty) {
        law_nesting_is_no_matter(choice, value, None);
        lemma_flattened(choice);
        assert(parts.skip(0) =~= parts);
        let segments = has_no_empty_segment(value) && constants_can_be_reached(parts);
        lemma_reached_runs_clear(parts, 0, value, false, segments);
        if !empty {
            lemma_runs_clear_of_fewer(parts, value, false);
        }
    }
}

/// Where reading `text` along `parts` ends in a match and runs clear, reading the text of a
/// directory that leads there may still come to one.
proof fn lemma_start_could_match(
    parts: Seq<PatternView>,
    text: Seq<char>,
    start: Seq<char>,
    behind: bool,
)
    requires
        forall|i: int| 0 <= i < parts.len() ==> !(#[trigger] parts[i] is Concatenation),
        runs_clear(parts, text, behind, true),
        is_directory_text(start),
        has_prefix(text, start),
        parts_outcome(parts, text, offset_at(text, behind, true)).is_match(),
    ensures
        parts_outcome(parts, start, offset_at(start, behind, true)).could_match(),
    decreases parts.len(),
{
    lemma_limit_of_start(text, start, true);
    if parts.len() > 0 {
        let rest = parts.drop_first();
        let (offset, earlier) = (offset_at(text, behind, true), offset_at(start, behind, true));
        assert forall|i: int| 0 <= i < rest.len() implies !(#[trigger] rest[i] is Concatenation) by {
            assert(!(parts[i + 1] is Concatenation));
        }
        match parts[0] {
            PatternView::Constant(constant) => {
                assert(outcome(parts[0], text, offset) == constant_outcome(constant, text, offset));
                assert(outcome(parts[0], start, earlier) == constant_outcome(
                    constant,
                    start,
                    earlier,
                ));
                let at = lemma_constant_of_start(text, start, constant, behind);
                let to = at + constant.len();
                if to <= start.len() {
                    lemma_start_could_match(rest, text.skip(to), start.skip(to), false);
                } else if behind {
                    lemma_cut_constant(text, start, at, to, true);
                }
            },
            PatternView::Dynamic => {
                assert(outcome(parts[0], text, offset) == dynamic_outcome(text));
                assert(outcome(parts[0], start, earlier) == dynamic_outcome(start));
                lemma_directory_is_no_artifact(start);
                lemma_start_could_match(rest, text, start, true);
            },
            _ => {
                assert(outcome(parts[0], text, offset) is Unnormalized);
            },
        }
    }
}

/// A directory that leads to a match could match, so that a search goes down to it. Left out
/// are only the values that every choice which matches them reads so that a constant behind a
/// dynamic part runs through a directory with a barrier in it, such as `a/b` for `"a"`, a
/// dynamic part and `"/b"`: behind `a`, the directory `a/` starts with an empty segment.
pub proof fn law_directories_of_a_match_could_match(
    pattern: PatternView,
    value: Seq<char>,
    directory: Seq<char>,
)
    requires
        matches_clearly(pattern, value, true),
        is_directory_text(directory),
        has_prefix(value, directory),
    ensures
        answers(pattern, Query::MatchOrOthers, directory),
{
    let i = choose|i: int|
        0 <= i < choices(pattern).len() && #[trigger] answers_at(pattern, Query::Match, value, i)
            && leads_clear(flattened(choices(pattern)[i]), value, true);
    let choice = choices(pattern)[i];
    law_reached_constants_run_clear(pattern, value, i, true);
    law_nesting_is_no_matter(choice, value, None);
    law_nesting_is_no_matter(choice, directory, None);
    lemma_flattened(choice);
    lemma_start_could_match(flattened(choice), value, directory, false);
    assert(answers_at(pattern, Query::MatchOrOthers, directory, i));
}

/// Where the reading of a match does not run clear, the text of some directory that leads there
/// cannot match.
proof fn lemma_hidden_directory(parts: Seq<PatternView>, text: Seq<char>, behind: bool) -> (start:
    Seq<char>)
    requires
        forall|i: int| 0 <= i < parts.len() ==> !(#[trigger] parts[i] is Concatenation),
        !runs_clear(parts, text, behind, true),
        parts_outcome(parts, text, offset_at(text, behind, true)).is_match(),
    ensures
        start.len() > 0,
        is_directory_text(start),
        has_prefix(text, start),
        !parts_outcome(parts, start, offset_at(start, behind, true)).could_match(),
    decreases parts.len(),
{
    let rest = parts.drop_first();
    let offset = offset_at(text, behind, true);
    assert forall|i: int| 0 <= i < rest.len() implies !(#[trigger] rest[i] is Concatenation) by {
        assert(!(parts[i + 1] is Concatenation));
    }
    assert(!(parts[0] is Concatenation));
    match parts[0] {
        PatternView::Constant(constant) => {
            assert(outcome(parts[0], text, offset) == constant_outcome(constant, text, offset));
            let none = Seq::<char>::empty();
            assert(text.take(0) =~= none);
            let at = lemma_constant_of_start(text, none, constant, behind);
            let to = at + constant.len();
            let left = text.skip(to);
            let start = if behind && !passes_clear(text, at, to, true) {
                let m = choose|m: int|
                    at < m < to && text[m - 1] == '/' && first_barrier(
                        #[trigger] text.take(m),
                        true,
                    ) is Some;
                text.take(m)
            } else {
                let still = lemma_hidden_directory(rest, left, false);
                assert((text.take(to) + still).last() == still.last());
                text.take(to) + still
            };
            assert(text.take(start.len() as int) =~= start) by {
                if start.len() > to {
                    let still = start.skip(to);
                    assert(still =~= left.take(start.len() - to));
                    assert(text.take(start.len() as int) =~= text.take(to) + left.take(
                        start.len() - to,
                    ));
                }
            }
            lemma_limit_of_start(text, start, true);
            let again = lemma_constant_of_start(text, start, constant, behind);
            let earlier = offset_at(start, behind, true);
            assert(outcome(parts[0], start, earlier) == constant_outcome(
                constant,
                start,
                earlier,
            ));
            start
        },
        PatternView::Dynamic => {
            assert(outcome(parts[0], text, offset) == dynamic_outcome(text));
            let start = lemma_hidden_directory(rest, text, true);
            lemma_directory_is_no_artifact(start);
            assert(outcome(parts[0], start, offset_at(start, behind, true)) == dynamic_outcome(
                start,
            ));
            start
        },
        _ => {
            assert(outcome(parts[0], text, offset) is Unnormalized);
            text
        },
    }
}

/// Whether `value` can be reached by choice `i` of `pattern`: every directory that leads there
/// could match it.
pub open spec fn is_reached_at(pattern: PatternView, value: Seq<char>, i: int) -> bool {
    forall|directory: Seq<char>|
        is_directory_text(directory) && has_prefix(value, directory) ==> #[trigger] answers_at(
            pattern,
            Query::MatchOrOthers,
            directory,
            i,
        )
}

/// A choice that matches a value could match every directory that leads there if and only if
/// no constant behind a dynamic part runs through a directory with a barrier in it.
pub proof fn law_reached_where_it_runs_clear(pattern: PatternView, value: Seq<char>, i: int)
    requires
        0 <= i < choices(pattern).len(),
        answers_at(pattern, Query::Match, value, i),
    ensures
        is_reached_at(pattern, value, i) == runs_clear(
            flattened(choices(pattern)[i]),
            value,
            false,
            true,
        ),
{
    let choice = choices(pattern)[i];
    let parts = flattened(choice);
    law_nesting_is_no_matter(choice, value, None);
    lemma_flattened(choice);
    if runs_clear(parts, value, false, true) {
        assert forall|directory: Seq<char>|
            is_directory_text(directory) && has_prefix(
                value,
                directory,
            ) implies #[trigger] answers_at(pattern, Query::MatchOrOthers, directory, i) by {
            law_nesting_is_no_matter(choice, directory, None);
            lemma_start_could_match(parts, value, directory, false);
        }
    } else {
        let directory = lemma_hidden_directory(parts, value, false);
        law_nesting_is_no_matter(choice, directory, None);
        assert(!answers_at(pattern, Query::MatchOrOthers, directory, i));
    }
}

} // verus!
