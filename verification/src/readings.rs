//! How a text is read along a pattern, told step by step.
//!
//! A reading is a row of marks: before each part, the character at which the reading stands and
//! whether a dynamic part is open there. The laws here tie every answer of a match, and every
//! constant that is listed, to such a reading.
use vstd::prelude::*;

use crate::barrier::{barrier_at, first_barrier, is_artifact, lemma_barrier_from};
use crate::constants::{
    all_constants, closed_before, constant_continuation, continuation, dynamic_continuation,
    next_list, open_at, parts_continuation, Continuation,
};
use crate::matching::{
    answers, answers_at, askable, constant_outcome, dynamic_outcome, first_answer, outcome,
    parts_outcome, unanswered_before, Outcome, Query,
};
use crate::matching_laws::{lemma_no_barrier_at_end, lemma_parts_outcome_add};
use crate::pattern::{choices, PatternView};
use crate::prefix_laws::{limit, offset_at};
use crate::search_laws::lemma_parts_continuation_add;
use crate::text::{find_in, has_prefix, lemma_find_from, occurs_at};

verus! {

/// A place in a reading: the character at which it stands, and whether a dynamic part is open
/// there, which may run on.
pub type Mark = (int, bool);

/// The parts of `pattern` in a row, with the concatenations inside it taken apart. One without
/// parts stays as it is.
pub open spec fn leaves(pattern: PatternView) -> Seq<PatternView>
    decreases pattern,
{
    match pattern {
        PatternView::Concatenation(list) => if list.len() == 0 {
            seq![pattern]
        } else {
            all_leaves(list)
        },
        _ => seq![pattern],
    }
}

/// The parts of each pattern of `list` in a row.
pub open spec fn all_leaves(list: Seq<PatternView>) -> Seq<PatternView>
    decreases list,
{
    if list.len() == 0 {
        Seq::empty()
    } else {
        leaves(list[0]) + all_leaves(list.drop_first())
    }
}

/// Whether no dynamic part stops in `text`.
pub open spec fn has_no_barrier(text: Seq<char>, empty: bool) -> bool {
    forall|k: int| 0 <= k <= text.len() ==> !#[trigger] barrier_at(text, k, empty)
}

/// Whether `constant` stands in `text` from character `k` on.
pub open spec fn stands_at(text: Seq<char>, constant: Seq<char>, k: int) -> bool {
    k + constant.len() <= text.len() && text.subrange(k, k + constant.len()) == constant
}

/// Whether reading `part` leads from one mark to the next.
/// - A constant stands right at the mark. Behind an open dynamic part, it stands at its first
///   occurrence from there on, and no barrier stands before it.
/// - A dynamic part opens where it is met, unless the rest of the text has no barrier and ends
///   like a generated file.
/// - A concatenation without parts changes nothing.
pub open spec fn is_step(
    part: PatternView,
    text: Seq<char>,
    mark: Mark,
    next: Mark,
    empty: bool,
) -> bool {
    let at = mark.0;
    let rest = text.skip(at);
    match part {
        PatternView::Constant(c) => if mark.1 {
            let from = next.0 - c.len();
            &&& !next.1
            &&& at <= from && stands_at(text, c, from)
            &&& forall|k: int| at <= k < from ==> !#[trigger] stands_at(text, c, k)
            &&& forall|k: int| 0 <= k < from - at ==> !#[trigger] barrier_at(rest, k, empty)
        } else {
            next == (at + c.len(), false) && stands_at(text, c, at)
        },
        PatternView::Dynamic => next == (at, true) && (!has_no_barrier(rest, empty)
            || !is_artifact(rest)),
        PatternView::Concatenation(list) => list.len() == 0 && next == mark,
        PatternView::Alternatives(_) => false,
    }
}

/// Whether `marks` are a reading of `text` along the first `n` of `parts`.
pub open spec fn is_reading(
    parts: Seq<PatternView>,
    text: Seq<char>,
    marks: Seq<Mark>,
    n: int,
    empty: bool,
) -> bool {
    &&& 0 <= n <= parts.len()
    &&& marks.len() == n + 1
    &&& marks[0] == (0int, false)
    &&& forall|i: int|
        0 <= i < n ==> is_step(#[trigger] parts[i], text, marks[i], marks[i + 1], empty)
}

/// Whether a reading that has come to `mark` has used up `text`: it stands at the end, or an
/// open dynamic part can run on to the end.
pub open spec fn is_used_up(text: Seq<char>, mark: Mark) -> bool {
    if mark.1 {
        has_no_barrier(text.skip(mark.0), true)
    } else {
        mark.0 == text.len()
    }
}

/// Whether `text` runs out at `mark` while `part` is read.
/// - A constant has been started and not finished. Behind an open dynamic part, it does not
///   stand in the rest, where nothing stops the dynamic part.
/// - What a dynamic part would take has no barrier and ends like a generated file.
pub open spec fn runs_out(part: PatternView, text: Seq<char>, mark: Mark, empty: bool) -> bool {
    let at = mark.0;
    let rest = text.skip(at);
    match part {
        PatternView::Constant(c) => if mark.1 {
            &&& has_no_barrier(rest, empty)
            &&& forall|k: int| at <= k ==> !#[trigger] stands_at(text, c, k)
        } else {
            rest.len() < c.len() && c.take(rest.len() as int) == rest
        },
        PatternView::Dynamic => has_no_barrier(rest, empty) && is_artifact(rest),
        _ => false,
    }
}

/// Whether `choice` is what `pattern` offers at position `i`.
pub open spec fn is_choice(pattern: PatternView, i: int, choice: PatternView) -> bool {
    match pattern {
        PatternView::Alternatives(list) => 0 <= i < list.len() && list[i] == choice,
        _ => i == 0 && choice == pattern,
    }
}

/// Whether a mark lies in `text`.
spec fn is_mark(text: Seq<char>, mark: Mark) -> bool {
    0 <= mark.0 <= text.len()
}

spec fn offset_of(text: Seq<char>, mark: Mark, empty: bool) -> Option<int> {
    offset_at(text.skip(mark.0), mark.1, empty)
}

proof fn lemma_limit(text: Seq<char>, empty: bool)
    ensures
        0 <= limit(text, empty) <= text.len(),
        forall|k: int| 0 <= k < limit(text, empty) ==> !#[trigger] barrier_at(text, k, empty),
        has_no_barrier(text, empty) == (first_barrier(text, empty) is None),
        has_no_barrier(text, empty) == (limit(text, empty) == text.len()),
        first_barrier(text, empty) is Some ==> barrier_at(text, limit(text, empty), empty),
{
    lemma_barrier_from(text, empty, 0);
    lemma_no_barrier_at_end(text, empty);
}

/// Standing in a text and standing in what is left of it.
proof fn lemma_stands(text: Seq<char>, at: int, constant: Seq<char>)
    requires
        0 <= at <= text.len(),
    ensures
        forall|k: int|
            at <= k ==> #[trigger] stands_at(text, constant, k) == occurs_at(
                text.skip(at),
                constant,
                k - at,
            ),
        forall|k: int|
            0 <= k ==> #[trigger] occurs_at(text.skip(at), constant, k) == stands_at(
                text,
                constant,
                k + at,
            ),
        stands_at(text, constant, at) == has_prefix(text.skip(at), constant),
{
    let n = constant.len() as int;
    let rest = text.skip(at);
    assert forall|k: int| at <= k implies #[trigger] stands_at(text, constant, k) == occurs_at(
        rest,
        constant,
        k - at,
    ) by {
        if k + n <= text.len() {
            assert(rest.subrange(k - at, k - at + n) =~= text.subrange(k, k + n));
        }
    }
    assert forall|k: int| 0 <= k implies #[trigger] occurs_at(rest, constant, k) == stands_at(
        text,
        constant,
        k + at,
    ) by {
        assert(stands_at(text, constant, k + at) == occurs_at(rest, constant, k + at - at));
    }
    if at + n <= text.len() {
        assert(rest.take(n) =~= text.subrange(at, at + n));
    }
}

/// A step is what comes of reading a single part.
proof fn lemma_step(part: PatternView, text: Seq<char>, mark: Mark, next: Mark, empty: bool)
    requires
        is_mark(text, mark),
        is_step(part, text, mark, next, empty),
    ensures
        is_mark(text, next),
        empty ==> outcome(part, text.skip(mark.0), offset_of(text, mark, true)) == (
        Outcome::Consumed {
            remaining: text.skip(next.0),
            any_offset: offset_of(text, next, true),
        }),
        !empty ==> continuation(part, text.skip(mark.0), offset_of(text, mark, false))
            == Continuation::Consumed(text.skip(next.0), offset_of(text, next, false)),
{
    let at = mark.0;
    let rest = text.skip(at);
    lemma_limit(rest, empty);
    match part {
        PatternView::Constant(c) => {
            lemma_stands(text, at, c);
            lemma_find_from(rest, c, 0);
            let from = next.0 - c.len();
            if mark.1 {
                assert(occurs_at(rest, c, from - at));
                let k = find_in(rest, c)->0;
                if k < from - at {
                    assert(stands_at(text, c, k + at));
                }
                assert(k == from - at);
                if k > limit(rest, empty) {
                    assert(barrier_at(rest, limit(rest, empty), empty));
                }
                assert(rest.skip(k + c.len()) =~= text.skip(next.0));
            } else {
                assert(rest.skip(c.len() as int) =~= text.skip(next.0));
            }
            assert(outcome(part, rest, offset_of(text, mark, true)) == constant_outcome(
                c,
                rest,
                offset_of(text, mark, true),
            ));
            assert(continuation(part, rest, offset_of(text, mark, false))
                == constant_continuation(c, rest, offset_of(text, mark, false)));
        },
        PatternView::Dynamic => {
            assert(outcome(part, rest, offset_of(text, mark, true)) == dynamic_outcome(rest));
            assert(continuation(part, rest, offset_of(text, mark, false)) == dynamic_continuation(
                rest,
            ));
        },
        PatternView::Concatenation(list) => {
            assert(outcome(part, rest, offset_of(text, mark, true)) == parts_outcome(
                list,
                rest,
                offset_of(text, mark, true),
            ));
            assert(continuation(part, rest, offset_of(text, mark, false)) == parts_continuation(
                list,
                rest,
                offset_of(text, mark, false),
            ));
        },
        _ => {},
    }
}

/// What comes of reading a single part where it is not a step.
proof fn lemma_no_step(part: PatternView, text: Seq<char>, mark: Mark, empty: bool) -> (next: Mark)
    requires
        is_mark(text, mark),
        part matches PatternView::Concatenation(list) ==> list.len() == 0,
    ensures
        !is_step(part, text, mark, next, empty) && empty ==> outcome(
            part,
            text.skip(mark.0),
            offset_of(text, mark, true),
        ) == (if part is Alternatives {
            Outcome::Unnormalized
        } else if runs_out(part, text, mark, true) {
            Outcome::Partial
        } else {
            Outcome::NoMatch
        }),
        !is_step(part, text, mark, next, empty) && !empty ==> continuation(
            part,
            text.skip(mark.0),
            offset_of(text, mark, false),
        ) == (if part is Alternatives {
            Continuation::Unnormalized
        } else if !runs_out(part, text, mark, false) {
            Continuation::NoMatch
        } else if part is Constant && !mark.1 {
            Continuation::Partial(
                part->Constant_0.skip(text.skip(mark.0).len() as int),
                true,
            )
        } else {
            Continuation::PartialDynamic
        }),
{
    let at = mark.0;
    let rest = text.skip(at);
    lemma_limit(rest, empty);
    match part {
        PatternView::Constant(c) => {
            lemma_stands(text, at, c);
            lemma_find_from(rest, c, 0);
            assert(outcome(part, rest, offset_of(text, mark, true)) == constant_outcome(
                c,
                rest,
                offset_of(text, mark, true),
            ));
            assert(continuation(part, rest, offset_of(text, mark, false))
                == constant_continuation(c, rest, offset_of(text, mark, false)));
            if mark.1 {
                match find_in(rest, c) {
                    Some(k) => {
                        let next = (at + k + c.len(), false);
                        assert(stands_at(text, c, k + at));
                        assert forall|j: int| at <= j < k + at implies !#[trigger] stands_at(
                            text,
                            c,
                            j,
                        ) by {
                            assert(!occurs_at(rest, c, j - at));
                        }
                        next
                    },
                    None => {
                        assert forall|j: int| at <= j implies !#[trigger] stands_at(text, c, j) by {
                            assert(!occurs_at(rest, c, j - at));
                        }
                        mark
                    },
                }
            } else {
                if has_prefix(c, rest) && rest.len() == c.len() {
                    assert(rest.take(c.len() as int) =~= rest);
                    assert(c.take(rest.len() as int) =~= c);
                }
                (at + c.len(), false)
            }
        },
        PatternView::Dynamic => {
            assert(outcome(part, rest, offset_of(text, mark, true)) == dynamic_outcome(rest));
            assert(continuation(part, rest, offset_of(text, mark, false)) == dynamic_continuation(
                rest,
            ));
            (at, true)
        },
        _ => mark,
    }
}

/// Whether none of `parts` is a concatenation with parts of its own.
spec fn all_apart(parts: Seq<PatternView>) -> bool {
    forall|i: int|
        0 <= i < parts.len() ==> (#[trigger] parts[i] matches PatternView::Concatenation(list)
            ==> list.len() == 0)
}

proof fn lemma_leaves(pattern: PatternView)
    ensures
        all_apart(leaves(pattern)),
        leaves(pattern).len() > 0,
    decreases pattern,
{
    if let PatternView::Concatenation(list) = pattern {
        lemma_all_leaves(list);
    }
}

proof fn lemma_all_leaves(list: Seq<PatternView>)
    ensures
        all_apart(all_leaves(list)),
        list.len() > 0 ==> all_leaves(list).len() > 0,
    decreases list,
{
    if list.len() > 0 {
        lemma_leaves(list[0]);
        lemma_all_leaves(list.drop_first());
    }
}

/// Reading along a pattern is reading along its leaves.
proof fn lemma_read_leaves(pattern: PatternView, value: Seq<char>, any_offset: Option<int>)
    ensures
        outcome(pattern, value, any_offset) == parts_outcome(leaves(pattern), value, any_offset),
        continuation(pattern, value, any_offset) == parts_continuation(
            leaves(pattern),
            value,
            any_offset,
        ),
    decreases pattern,
{
    let one = seq![pattern];
    assert(one.drop_first() =~= Seq::empty());
    assert(one[0] == pattern);
    if let Outcome::Consumed { remaining, any_offset: offset } = outcome(
        pattern,
        value,
        any_offset,
    ) {
        assert(parts_outcome(one.drop_first(), remaining, offset) == outcome(
            pattern,
            value,
            any_offset,
        ));
    }
    if let Continuation::Consumed(remaining, offset) = continuation(pattern, value, any_offset) {
        assert(parts_continuation(one.drop_first(), remaining, offset) == continuation(
            pattern,
            value,
            any_offset,
        ));
    }
    assert(parts_outcome(one, value, any_offset) == outcome(pattern, value, any_offset));
    assert(parts_continuation(one, value, any_offset) == continuation(pattern, value, any_offset));
    if let PatternView::Concatenation(list) = pattern {
        if list.len() > 0 {
            lemma_read_all_leaves(list, value, any_offset);
        }
    }
}

proof fn lemma_read_all_leaves(list: Seq<PatternView>, value: Seq<char>, any_offset: Option<int>)
    ensures
        parts_outcome(list, value, any_offset) == parts_outcome(
            all_leaves(list),
            value,
            any_offset,
        ),
        parts_continuation(list, value, any_offset) == parts_continuation(
            all_leaves(list),
            value,
            any_offset,
        ),
    decreases list,
{
    if list.len() > 0 {
        let rest = list.drop_first();
        lemma_read_leaves(list[0], value, any_offset);
        lemma_all_leaves(rest);
        lemma_parts_outcome_add(leaves(list[0]), all_leaves(rest), value, any_offset);
        lemma_parts_continuation_add(leaves(list[0]), all_leaves(rest), value, any_offset);
        if let Outcome::Consumed { remaining, any_offset: offset } = outcome(
            list[0],
            value,
            any_offset,
        ) {
            lemma_read_all_leaves(rest, remaining, offset);
        }
        if let Continuation::Consumed(remaining, offset) = continuation(
            list[0],
            value,
            any_offset,
        ) {
            lemma_read_all_leaves(rest, remaining, offset);
        }
        if list.len() == 1 {
            assert(all_leaves(rest) =~= Seq::empty());
        }
    }
}

/// A reading of the first parts leaves the rest of the parts to be read from its last mark on.
proof fn lemma_follow(
    parts: Seq<PatternView>,
    text: Seq<char>,
    marks: Seq<Mark>,
    n: int,
    empty: bool,
)
    requires
        is_reading(parts, text, marks, n, empty),
    ensures
        is_mark(text, marks[n]),
        empty ==> parts_outcome(parts, text, None) == parts_outcome(
            parts.skip(n),
            text.skip(marks[n].0),
            offset_of(text, marks[n], true),
        ),
        !empty ==> parts_continuation(parts, text, None) == parts_continuation(
            parts.skip(n),
            text.skip(marks[n].0),
            offset_of(text, marks[n], false),
        ),
    decreases n,
{
    if n == 0 {
        assert(parts.skip(0) =~= parts);
        assert(text.skip(0) =~= text);
    } else {
        let before = marks.drop_last();
        assert(is_reading(parts, text, before, n - 1, empty)) by {
            assert forall|i: int| 0 <= i < n - 1 implies is_step(
                #[trigger] parts[i],
                text,
                before[i],
                before[i + 1],
                empty,
            ) by {
                assert(is_step(parts[i], text, marks[i], marks[i + 1], empty));
            }
        }
        lemma_follow(parts, text, before, n - 1, empty);
        assert(before[n - 1] == marks[n - 1]);
        assert(is_step(parts[n - 1], text, marks[n - 1], marks[n - 1 + 1], empty));
        lemma_step(parts[n - 1], text, marks[n - 1], marks[n], empty);
        let ahead = parts.skip(n - 1);
        assert(ahead[0] == parts[n - 1]);
        assert(ahead.drop_first() =~= parts.skip(n));
    }
}

/// Whether reading `part` leads nowhere from `mark`.
spec fn is_stuck(part: PatternView, text: Seq<char>, mark: Mark, empty: bool) -> bool {
    forall|next: Mark| !#[trigger] is_step(part, text, mark, next, empty)
}

/// A text is read as far as it goes.
proof fn lemma_read(parts: Seq<PatternView>, text: Seq<char>, empty: bool) -> (marks: Seq<Mark>)
    requires
        all_apart(parts),
    ensures
        0 < marks.len() <= parts.len() + 1,
        is_reading(parts, text, marks, marks.len() - 1, empty),
        marks.len() <= parts.len() ==> is_stuck(
            parts[marks.len() - 1],
            text,
            marks[marks.len() - 1],
            empty,
        ),
{
    lemma_read_on(parts, text, seq![(0int, false)], empty)
}

proof fn lemma_read_on(
    parts: Seq<PatternView>,
    text: Seq<char>,
    so_far: Seq<Mark>,
    empty: bool,
) -> (marks: Seq<Mark>)
    requires
        all_apart(parts),
        so_far.len() > 0,
        is_reading(parts, text, so_far, so_far.len() - 1, empty),
    ensures
        0 < marks.len() <= parts.len() + 1,
        is_reading(parts, text, marks, marks.len() - 1, empty),
        marks.len() <= parts.len() ==> is_stuck(
            parts[marks.len() - 1],
            text,
            marks[marks.len() - 1],
            empty,
        ),
    decreases parts.len() + 1 - so_far.len(),
{
    let n = so_far.len() - 1;
    if n < parts.len() && !is_stuck(parts[n], text, so_far[n], empty) {
        let next = choose|next: Mark| #[trigger]
            is_step(parts[n], text, so_far[n], next, empty);
        let more = so_far.push(next);
        assert forall|i: int| 0 <= i < n + 1 implies is_step(
            #[trigger] parts[i],
            text,
            more[i],
            more[i + 1],
            empty,
        ) by {
            if i < n {
                assert(is_step(parts[i], text, so_far[i], so_far[i + 1], empty));
            }
        }
        lemma_read_on(parts, text, more, empty)
    } else {
        so_far
    }
}

/// Where no step is possible, reading on comes to an end.
proof fn lemma_stop(
    parts: Seq<PatternView>,
    text: Seq<char>,
    marks: Seq<Mark>,
    n: int,
    empty: bool,
)
    requires
        all_apart(parts),
        n < parts.len(),
        is_reading(parts, text, marks, n, empty),
        is_stuck(parts[n], text, marks[n], empty),
    ensures
        empty ==> parts_outcome(parts, text, None) == (if parts[n] is Alternatives {
            Outcome::Unnormalized
        } else if runs_out(parts[n], text, marks[n], true) {
            Outcome::Partial
        } else {
            Outcome::NoMatch
        }),
        !empty ==> parts_continuation(parts, text, None) == (if parts[n] is Alternatives {
            Continuation::Unnormalized
        } else if !runs_out(parts[n], text, marks[n], false) {
            Continuation::NoMatch
        } else if parts[n] is Constant && !marks[n].1 {
            Continuation::Partial(
                parts[n]->Constant_0.skip(text.skip(marks[n].0).len() as int),
                n + 1 == parts.len(),
            )
        } else {
            Continuation::PartialDynamic
        }),
{
    lemma_follow(parts, text, marks, n, empty);
    let ahead = parts.skip(n);
    assert(ahead[0] == parts[n]);
    assert(ahead.len() == parts.len() - n);
    let next = lemma_no_step(parts[n], text, marks[n], empty);
    assert(!is_step(parts[n], text, marks[n], next, empty));
}

/// Where a text runs out, no step is possible.
proof fn lemma_runs_out(part: PatternView, text: Seq<char>, mark: Mark, empty: bool)
    requires
        is_mark(text, mark),
        runs_out(part, text, mark, empty),
    ensures
        is_stuck(part, text, mark, empty),
{
    assert forall|next: Mark| !#[trigger] is_step(part, text, mark, next, empty) by {
        if let PatternView::Constant(c) = part {
            if is_step(part, text, mark, next, empty) {
                if mark.1 {
                    assert(stands_at(text, c, next.0 - c.len()));
                }
            }
        }
    }
}

/// The outcome of a choice tells how far the text is read along it: it is a match where the
/// reading comes through all parts and has used the text up, and may be the start of others
/// where an open dynamic part can run on or the text runs out on the way.
proof fn lemma_outcome_of_reading(
    choice: PatternView,
    value: Seq<char>,
    marks: Seq<Mark>,
    n: int,
)
    requires
        is_reading(leaves(choice), value, marks, n, true),
    ensures
        n == leaves(choice).len() ==> {
            &&& outcome(choice, value, None).is_match() == is_used_up(value, marks[n])
            &&& outcome(choice, value, None).could_match_others() == (marks[n].1 && is_used_up(
                value,
                marks[n],
            ))
        },
        n < leaves(choice).len() && runs_out(leaves(choice)[n], value, marks[n], true) ==> outcome(
            choice,
            value,
            None,
        ) is Partial,
{
    let parts = leaves(choice);
    lemma_leaves(choice);
    lemma_read_leaves(choice, value, None);
    lemma_follow(parts, value, marks, n, true);
    let rest = value.skip(marks[n].0);
    lemma_limit(rest, true);
    if n < parts.len() && runs_out(parts[n], value, marks[n], true) {
        lemma_runs_out(parts[n], value, marks[n], true);
        lemma_stop(parts, value, marks, n, true);
    }
}

proof fn lemma_answers_choice(
    pattern: PatternView,
    i: int,
    choice: PatternView,
    query: Query,
    value: Seq<char>,
)
    requires
        is_choice(pattern, i, choice),
    ensures
        0 <= i < choices(pattern).len(),
        answers_at(pattern, query, value, i) == outcome(choice, value, None).answers(query),
        answers_at(pattern, query, value, i) ==> answers(pattern, query, value),
{
    assert(choices(pattern)[i] == choice);
}

/// A text that can be read along all parts of a choice and is used up then is a match.
pub proof fn law_text_read_to_the_end_matches(
    pattern: PatternView,
    i: int,
    choice: PatternView,
    value: Seq<char>,
    marks: Seq<Mark>,
)
    requires
        is_choice(pattern, i, choice),
        is_reading(leaves(choice), value, marks, leaves(choice).len() as int, true),
        is_used_up(value, marks.last()),
    ensures
        answers(pattern, Query::Match, value),
        answers(pattern, Query::MatchOrOthers, value),
        marks.last().1 ==> answers(pattern, Query::Others, value),
{
    lemma_outcome_of_reading(choice, value, marks, leaves(choice).len() as int);
    lemma_answers_choice(pattern, i, choice, Query::Match, value);
    lemma_answers_choice(pattern, i, choice, Query::MatchOrOthers, value);
    lemma_answers_choice(pattern, i, choice, Query::Others, value);
}

/// A text that runs out while it is read along a choice could match others.
pub proof fn law_text_that_runs_out_could_match(
    pattern: PatternView,
    i: int,
    choice: PatternView,
    value: Seq<char>,
    marks: Seq<Mark>,
    n: int,
)
    requires
        is_choice(pattern, i, choice),
        n < leaves(choice).len(),
        is_reading(leaves(choice), value, marks, n, true),
        runs_out(leaves(choice)[n], value, marks[n], true),
    ensures
        answers(pattern, Query::Others, value),
        answers(pattern, Query::MatchOrOthers, value),
{
    lemma_outcome_of_reading(choice, value, marks, n);
    lemma_answers_choice(pattern, i, choice, Query::MatchOrOthers, value);
    lemma_answers_choice(pattern, i, choice, Query::Others, value);
}

/// What a reading shows: the position of a choice, the choice, and the marks.
pub type Shown = (int, PatternView, Seq<Mark>);

proof fn lemma_choice_at(pattern: PatternView, i: int)
    requires
        0 <= i < choices(pattern).len(),
    ensures
        is_choice(pattern, i, choices(pattern)[i]),
{
}

/// A match is read along all parts of a choice and is used up then.
pub proof fn law_match_is_read_to_the_end(pattern: PatternView, value: Seq<char>) -> (shown: Shown)
    requires
        answers(pattern, Query::Match, value),
    ensures
        ({
            let (i, choice, marks) = shown;
            &&& is_choice(pattern, i, choice)
            &&& is_reading(leaves(choice), value, marks, leaves(choice).len() as int, true)
            &&& is_used_up(value, marks.last())
        }),
{
    let i = choose|i: int|
        0 <= i < choices(pattern).len() && #[trigger] answers_at(pattern, Query::Match, value, i);
    let choice = choices(pattern)[i];
    let parts = leaves(choice);
    lemma_choice_at(pattern, i);
    lemma_leaves(choice);
    let marks = lemma_read(parts, value, true);
    let n = marks.len() - 1;
    lemma_read_leaves(choice, value, None);
    if n < parts.len() {
        lemma_stop(parts, value, marks, n, true);
    }
    lemma_outcome_of_reading(choice, value, marks, n);
    (i, choice, marks)
}

/// A text that could match others is read along a choice until it runs out, or along all parts
/// and a dynamic part at the end can run on.
pub proof fn law_start_of_others_is_read(pattern: PatternView, value: Seq<char>) -> (shown: Shown)
    requires
        answers(pattern, Query::Others, value),
    ensures
        ({
            let (i, choice, marks) = shown;
            let parts = leaves(choice);
            let n = marks.len() - 1;
            &&& is_choice(pattern, i, choice)
            &&& is_reading(parts, value, marks, n, true)
            &&& if n == parts.len() {
                marks.last().1 && is_used_up(value, marks.last())
            } else {
                runs_out(parts[n], value, marks.last(), true)
            }
        }),
{
    let i = choose|i: int|
        0 <= i < choices(pattern).len() && #[trigger] answers_at(pattern, Query::Others, value, i);
    let choice = choices(pattern)[i];
    let parts = leaves(choice);
    lemma_choice_at(pattern, i);
    lemma_leaves(choice);
    let marks = lemma_read(parts, value, true);
    let n = marks.len() - 1;
    lemma_read_leaves(choice, value, None);
    if n < parts.len() {
        lemma_stop(parts, value, marks, n, true);
    }
    lemma_outcome_of_reading(choice, value, marks, n);
    (i, choice, marks)
}

/// A pattern cannot be asked only where the reading of a choice comes to alternatives, and no
/// choice before it answers.
pub proof fn law_unaskable_is_read_into_alternatives(
    pattern: PatternView,
    query: Query,
    value: Seq<char>,
) -> (shown: Shown)
    requires
        !askable(pattern, query, value),
    ensures
        ({
            let (i, choice, marks) = shown;
            let n = marks.len() - 1;
            &&& is_choice(pattern, i, choice)
            &&& n < leaves(choice).len()
            &&& is_reading(leaves(choice), value, marks, n, true)
            &&& leaves(choice)[n] is Alternatives
            &&& forall|j: int, other: PatternView|
                j < i && #[trigger] is_choice(pattern, j, other) && !(other is Alternatives)
                    ==> !answers(other, query, value)
        }),
{
    let i = choose|i: int|
        0 <= i < choices(pattern).len() && #[trigger] unanswered_before(
            pattern,
            query,
            value,
            i,
        ) && outcome(choices(pattern)[i], value, None) is Unnormalized;
    let choice = choices(pattern)[i];
    let parts = leaves(choice);
    lemma_choice_at(pattern, i);
    lemma_leaves(choice);
    let marks = lemma_read(parts, value, true);
    let n = marks.len() - 1;
    lemma_read_leaves(choice, value, None);
    if n < parts.len() {
        lemma_stop(parts, value, marks, n, true);
    } else {
        lemma_follow(parts, value, marks, n, true);
    }
    assert forall|j: int, other: PatternView|
        j < i && #[trigger] is_choice(pattern, j, other) && !(other
            is Alternatives) implies !answers(other, query, value) by {
        lemma_answers_choice(pattern, j, other, query, value);
        assert(!answers_at(pattern, query, value, j));
        if answers(other, query, value) {
            let k = choose|k: int|
                0 <= k < choices(other).len() && #[trigger] answers_at(other, query, value, k);
            lemma_answers_choice(other, 0, other, query, value);
        }
    }
    (i, choice, marks)
}

/// A pattern answers with the first of its choices that answers by itself.
pub proof fn law_first_answer_is_first(
    pattern: PatternView,
    query: Query,
    value: Seq<char>,
    i: int,
    choice: PatternView,
)
    requires
        forall|j: int, other: PatternView|
            j <= i && #[trigger] is_choice(pattern, j, other) ==> !(other is Alternatives),
        is_choice(pattern, i, choice),
    ensures
        first_answer(pattern, query, value, i) == (answers(choice, query, value) && forall|
            j: int,
            other: PatternView,
        |
            j < i && #[trigger] is_choice(pattern, j, other) ==> !answers(other, query, value)),
        answers(choice, query, value) ==> answers(pattern, query, value),
{
    assert forall|j: int, other: PatternView|
        j <= i && #[trigger] is_choice(pattern, j, other) implies answers(other, query, value)
        == answers_at(pattern, query, value, j) by {
        lemma_answers_choice(pattern, j, other, query, value);
        assert(!(other is Alternatives));
        lemma_answers_choice(other, 0, other, query, value);
        if answers(other, query, value) {
            let k = choose|k: int|
                0 <= k < choices(other).len() && #[trigger] answers_at(other, query, value, k);
            assert(k == 0);
        }
    }
    lemma_answers_choice(pattern, i, choice, query, value);
    if first_answer(pattern, query, value, i) {
        assert forall|j: int, other: PatternView|
            j < i && #[trigger] is_choice(pattern, j, other) implies !answers(
            other,
            query,
            value,
        ) by {
            lemma_answers_choice(pattern, j, other, query, value);
            assert(!answers_at(pattern, query, value, j));
        }
    }
    if answers(choice, query, value) && forall|j: int, other: PatternView|
        j < i && #[trigger] is_choice(pattern, j, other) ==> !answers(other, query, value) {
        assert forall|j: int| 0 <= j < i implies !#[trigger] answers_at(
            pattern,
            query,
            value,
            j,
        ) by {
            lemma_choice_at(pattern, j);
            assert(is_choice(pattern, j, choices(pattern)[j]));
        }
    }
}

/// A pattern answers only where one of its choices does so by itself.
pub proof fn law_answer_is_of_a_choice(pattern: PatternView, query: Query, value: Seq<char>) -> (
    shown: (int, PatternView))
    requires
        answers(pattern, query, value),
    ensures
        is_choice(pattern, shown.0, shown.1),
        !(shown.1 is Alternatives),
        answers(shown.1, query, value),
{
    let i = choose|i: int|
        0 <= i < choices(pattern).len() && #[trigger] answers_at(pattern, query, value, i);
    let choice = choices(pattern)[i];
    lemma_choice_at(pattern, i);
    assert(!(choice is Alternatives)) by {
        if choice is Alternatives {
            assert(outcome(choice, value, None) is Unnormalized);
        }
    }
    lemma_answers_choice(choice, 0, choice, query, value);
    (i, choice)
}

/// What is read of a constant alone, and behind a dynamic part that may run on up to `limit`: it
/// is used up where it stands at the beginning, or for the first time up to `limit`. Else the
/// text runs out where it is a start of the constant, or ends before `limit` without it.
pub proof fn law_constant_is_read(c: Seq<char>, value: Seq<char>, limit: int)
    requires
        0 <= limit,
    ensures
        ({
            let alone = outcome(PatternView::Constant(c), value, None);
            &&& stands_at(value, c, 0) ==> alone == (Outcome::Consumed {
                remaining: value.skip(c.len() as int),
                any_offset: None,
            })
            &&& value.len() < c.len() && c.take(value.len() as int) == value ==> alone is Partial
            &&& !stands_at(value, c, 0) && !(value.len() < c.len() && c.take(value.len() as int)
                == value) ==> alone is NoMatch
        }),
        ({
            let behind = outcome(PatternView::Constant(c), value, Some(limit));
            &&& forall|k: int|
                0 <= k <= limit && #[trigger] stands_at(value, c, k) && (forall|j: int|
                    0 <= j < k ==> !#[trigger] stands_at(value, c, j)) ==> behind == (
                Outcome::Consumed { remaining: value.skip(k + c.len()), any_offset: None })
            &&& forall|k: int|
                limit < k && #[trigger] stands_at(value, c, k) && (forall|j: int|
                    0 <= j < k ==> !#[trigger] stands_at(value, c, j)) ==> behind is NoMatch
            &&& (forall|k: int| 0 <= k ==> !#[trigger] stands_at(value, c, k)) ==> if limit
                >= value.len() {
                behind is Partial
            } else {
                behind is NoMatch
            }
        }),
{
    lemma_stands(value, 0, c);
    assert(value.skip(0) =~= value);
    lemma_find_from(value, c, 0);
    assert(stands_at(value, c, 0) == has_prefix(value, c));
    assert forall|k: int| 0 <= k implies #[trigger] stands_at(value, c, k) == occurs_at(
        value,
        c,
        k,
    ) by {
        assert(stands_at(value, c, k) == occurs_at(value.skip(0), c, k - 0));
    }
    assert forall|k: int|
        0 <= k && #[trigger] stands_at(value, c, k) && (forall|j: int|
            0 <= j < k ==> !#[trigger] stands_at(value, c, j)) implies find_in(value, c)
        == Some(k) by {
        assert(occurs_at(value, c, k));
        let found = find_in(value, c)->0;
        if found < k {
            assert(stands_at(value, c, found));
        }
    }
    if find_in(value, c) is Some {
        assert(stands_at(value, c, find_in(value, c)->0));
    }
    if has_prefix(c, value) && value.len() == c.len() {
        assert(c.take(value.len() as int) =~= c);
        assert(value.take(c.len() as int) =~= value);
    }
}

/// A dynamic part is read alike whatever stands before it: it may run on up to the first
/// barrier, and where there is none, to the end of a text that does not end like a generated
/// file.
pub proof fn law_dynamic_is_read(value: Seq<char>, any_offset: Option<int>, k: int)
    requires
        0 <= k,
    ensures
        barrier_at(value, k, true) && (forall|j: int|
            0 <= j < k ==> !#[trigger] barrier_at(value, j, true)) ==> outcome(
            PatternView::Dynamic,
            value,
            any_offset,
        ) == (Outcome::Consumed { remaining: value, any_offset: Some(k) }),
        has_no_barrier(value, true) ==> outcome(PatternView::Dynamic, value, any_offset) == (
        if is_artifact(value) {
            Outcome::Partial
        } else {
            Outcome::Consumed { remaining: value, any_offset: Some(value.len() as int) }
        }),
        barrier_at(value, k, false) && (forall|j: int|
            0 <= j < k ==> !#[trigger] barrier_at(value, j, false)) ==> continuation(
            PatternView::Dynamic,
            value,
            any_offset,
        ) == Continuation::Consumed(value, Some(k)),
        has_no_barrier(value, false) ==> continuation(PatternView::Dynamic, value, any_offset) == (
        if is_artifact(value) {
            Continuation::PartialDynamic
        } else {
            Continuation::Consumed(value, Some(value.len() as int))
        }),
{
    lemma_limit(value, true);
    lemma_limit(value, false);
    lemma_barrier_from(value, true, 0);
    lemma_barrier_from(value, false, 0);
}

/// Concatenations are read one part after the other: two in a row are read along the second
/// from where the first has come to, and one without parts changes nothing.
pub proof fn law_concatenation_is_read_in_a_row(
    first: Seq<PatternView>,
    second: Seq<PatternView>,
    pattern: PatternView,
    value: Seq<char>,
    any_offset: Option<int>,
)
    ensures
        outcome(PatternView::Concatenation(first + second), value, any_offset) == match outcome(
            PatternView::Concatenation(first),
            value,
            any_offset,
        ) {
            Outcome::Consumed { remaining, any_offset: offset } => outcome(
                PatternView::Concatenation(second),
                remaining,
                offset,
            ),
            other => other,
        },
        outcome(PatternView::Concatenation(seq![pattern]), value, any_offset) == outcome(
            pattern,
            value,
            any_offset,
        ),
        outcome(PatternView::Concatenation(Seq::empty()), value, any_offset) == (
        Outcome::Consumed { remaining: value, any_offset }),
        continuation(PatternView::Concatenation(first + second), value, any_offset)
            == match continuation(PatternView::Concatenation(first), value, any_offset) {
            Continuation::Consumed(remaining, offset) => continuation(
                PatternView::Concatenation(second),
                remaining,
                offset,
            ),
            Continuation::Partial(rest, end) => Continuation::Partial(
                rest,
                end && second.len() == 0,
            ),
            other => other,
        },
        continuation(PatternView::Concatenation(seq![pattern]), value, any_offset) == continuation(
            pattern,
            value,
            any_offset,
        ),
        continuation(PatternView::Concatenation(Seq::empty()), value, any_offset)
            == Continuation::Consumed(value, any_offset),
{
    lemma_parts_outcome_add(first, second, value, any_offset);
    lemma_parts_continuation_add(first, second, value, any_offset);
    let one = seq![pattern];
    assert(one.drop_first() =~= Seq::empty());
    assert(one[0] == pattern);
    if let Outcome::Consumed { remaining, any_offset: offset } = outcome(
        pattern,
        value,
        any_offset,
    ) {
        assert(parts_outcome(one.drop_first(), remaining, offset) == outcome(
            pattern,
            value,
            any_offset,
        ));
    }
    if let Continuation::Consumed(remaining, offset) = continuation(pattern, value, any_offset) {
        assert(parts_continuation(one.drop_first(), remaining, offset) == continuation(
            pattern,
            value,
            any_offset,
        ));
    }
    assert(parts_outcome(one, value, any_offset) == outcome(pattern, value, any_offset));
    assert(parts_continuation(one, value, any_offset) == continuation(pattern, value, any_offset));
}

/// What is listed of a constant: where matching it ends inside the text, so does listing, with
/// the same text left. Where the text runs out in it, the rest of the constant is listed, with
/// the end of the pattern, or behind a dynamic part anything may follow.
pub proof fn law_constant_is_listed(c: Seq<char>, value: Seq<char>, any_offset: Option<int>)
    ensures
        ({
            let listed = continuation(PatternView::Constant(c), value, any_offset);
            match outcome(PatternView::Constant(c), value, any_offset) {
                Outcome::Consumed { remaining, any_offset: offset } => listed
                    == Continuation::Consumed(remaining, offset),
                Outcome::Partial => if any_offset is Some {
                    listed is PartialDynamic
                } else {
                    listed matches Continuation::Partial(rest, end) && end && value + rest == c
                },
                Outcome::NoMatch => listed is NoMatch,
                Outcome::Unnormalized => false,
            }
        }),
{
    if any_offset is None && has_prefix(c, value) {
        assert(value + c.skip(value.len() as int) =~= c);
    }
}

/// What a reading comes to answers the three queries: only where a text is used up it is a
/// match, and it may be the start of others where it has run out or a dynamic part may run on.
pub proof fn law_readings_answer(remaining: Seq<char>, limit: int)
    ensures
        (Outcome::Consumed { remaining, any_offset: None }).is_match() == (remaining.len() == 0),
        !(Outcome::Consumed { remaining, any_offset: None }).could_match_others(),
        (Outcome::Consumed { remaining, any_offset: Some(limit) }).is_match() == (limit
            == remaining.len()),
        (Outcome::Consumed { remaining, any_offset: Some(limit) }).could_match_others() == (limit
            == remaining.len()),
        !Outcome::Partial.is_match() && Outcome::Partial.could_match_others(),
        !Outcome::NoMatch.is_match() && !Outcome::NoMatch.could_match_others(),
        forall|read: Outcome| #[trigger]
            read.could_match() == (read.is_match() || read.could_match_others()),
        forall|read: Outcome|
            {
                &&& (#[trigger] read.answers(Query::Match)) == read.is_match()
                &&& read.answers(Query::Others) == read.could_match_others()
                &&& read.answers(Query::MatchOrOthers) == read.could_match()
            },
{
}

/// What a choice offers as the next constant: the rest of the constant in which the text runs
/// out, with whether it is the last part. Nothing more where the text is read to the end.
pub open spec fn is_offer(
    choice: PatternView,
    value: Seq<char>,
    marks: Seq<Mark>,
    offer: (Seq<char>, bool),
) -> bool {
    let parts = leaves(choice);
    let n = marks.len() - 1;
    let at = marks.last().0;
    &&& is_reading(parts, value, marks, n, false)
    &&& !marks.last().1
    &&& if n == parts.len() {
        at == value.len() && offer == (Seq::<char>::empty(), true)
    } else {
        &&& parts[n] matches PatternView::Constant(c)
        &&& offer.0.len() > 0
        &&& c == value.skip(at) + offer.0
        &&& offer.1 == (n + 1 == parts.len())
    }
}

/// Whether anything may follow `value` in `choice`: an open dynamic part can run on, or the text
/// runs out in or behind a dynamic part.
pub open spec fn is_open_ended(choice: PatternView, value: Seq<char>, marks: Seq<Mark>) -> bool {
    let parts = leaves(choice);
    let n = marks.len() - 1;
    &&& is_reading(parts, value, marks, n, false)
    &&& if n == parts.len() {
        marks.last().1 && has_no_barrier(value.skip(marks.last().0), false)
    } else {
        (parts[n] is Dynamic || marks.last().1) && runs_out(parts[n], value, marks.last(), false)
    }
}

proof fn lemma_offered(
    choice: PatternView,
    value: Seq<char>,
    marks: Seq<Mark>,
    offer: (Seq<char>, bool),
)
    requires
        is_offer(choice, value, marks, offer),
    ensures
        continuation(choice, value, None).constants() == seq![offer],
        !continuation(choice, value, None).is_open(),
        leaves(choice).len() == marks.len() - 1 || continuation(choice, value, None)
            == Continuation::Partial(offer.0, offer.1),
        leaves(choice).len() == marks.len() - 1 ==> !(continuation(choice, value, None)
            is Partial),
{
    let parts = leaves(choice);
    let n = marks.len() - 1;
    let mark = marks[n];
    lemma_leaves(choice);
    lemma_read_leaves(choice, value, None);
    lemma_follow(parts, value, marks, n, false);
    if n < parts.len() {
        let c = parts[n]->Constant_0;
        let rest = value.skip(mark.0);
        assert(c.take(rest.len() as int) =~= rest);
        assert(c.skip(rest.len() as int) =~= offer.0);
        assert(runs_out(parts[n], value, mark, false));
        lemma_runs_out(parts[n], value, mark, false);
        lemma_stop(parts, value, marks, n, false);
    }
    assert(continuation(choice, value, None).constants() =~= seq![offer]);
}

proof fn lemma_open_ended(choice: PatternView, value: Seq<char>, marks: Seq<Mark>)
    requires
        is_open_ended(choice, value, marks),
    ensures
        continuation(choice, value, None).is_open(),
{
    let parts = leaves(choice);
    let n = marks.len() - 1;
    let mark = marks[n];
    lemma_leaves(choice);
    lemma_read_leaves(choice, value, None);
    lemma_follow(parts, value, marks, n, false);
    lemma_limit(value.skip(mark.0), false);
    if n < parts.len() {
        lemma_runs_out(parts[n], value, mark, false);
        lemma_stop(parts, value, marks, n, false);
    }
}

/// Every choice is open, offers a constant, or has nothing to offer.
proof fn lemma_listed_choice(choice: PatternView, value: Seq<char>) -> (marks: Seq<Mark>)
    ensures
        continuation(choice, value, None).is_open() == is_open_ended(choice, value, marks),
        continuation(choice, value, None).constants().len() <= 1,
        continuation(choice, value, None).constants().len() == 1 ==> is_offer(
            choice,
            value,
            marks,
            continuation(choice, value, None).constants()[0],
        ),
{
    let parts = leaves(choice);
    lemma_leaves(choice);
    let marks = lemma_read(parts, value, false);
    let n = marks.len() - 1;
    let mark = marks[n];
    let rest = value.skip(mark.0);
    lemma_read_leaves(choice, value, None);
    lemma_follow(parts, value, marks, n, false);
    lemma_limit(rest, false);
    if n < parts.len() {
        lemma_stop(parts, value, marks, n, false);
        if let PatternView::Constant(c) = parts[n] {
            assert(runs_out(parts[n], value, mark, false) && !mark.1 ==> rest + c.skip(
                rest.len() as int,
            ) =~= c);
        }
    }
    marks
}

/// The constant that a single pattern offers is listed, unless the text is already a match.
pub proof fn law_offer_of_one_is_listed(
    choice: PatternView,
    value: Seq<char>,
    marks: Seq<Mark>,
    offer: (Seq<char>, bool),
)
    requires
        !(choice is Alternatives),
        is_offer(choice, value, marks, offer),
    ensures
        next_list(choice, value) == (if marks.len() == leaves(choice).len() + 1 {
            None
        } else {
            Some(seq![offer])
        }),
        next_list(PatternView::Alternatives(seq![choice]), value) == Some(seq![offer]),
{
    let list = seq![choice];
    lemma_offered(choice, value, marks, offer);
    assert(list.drop_last() =~= Seq::empty());
    assert(list.last() == choice);
    assert(all_constants(list.drop_last(), value) =~= Seq::empty());
    assert(all_constants(list, value) =~= seq![offer]);
    assert(closed_before(list, value, 1)) by {
        assert(!open_at(list, value, 0));
    }
}

/// There is no list where anything may follow.
pub proof fn law_open_end_has_no_list(choice: PatternView, value: Seq<char>, marks: Seq<Mark>)
    requires
        !(choice is Alternatives),
        is_open_ended(choice, value, marks),
    ensures
        next_list(choice, value) is None,
        next_list(PatternView::Alternatives(seq![choice]), value) is None,
{
    let list = seq![choice];
    lemma_open_ended(choice, value, marks);
    assert(open_at(list, value, 0));
}

/// What is listed of a single choice is what it offers. Without a list anything may follow, and
/// where the list is empty the choice offers nothing and nothing may follow.
pub proof fn law_list_of_one_is_offered(choice: PatternView, value: Seq<char>) -> (marks: Seq<Mark>)
    requires
        !(choice is Alternatives),
    ensures
        match next_list(PatternView::Alternatives(seq![choice]), value) {
            None => is_open_ended(choice, value, marks),
            Some(offers) => offers.len() <= 1 && (offers.len() == 1 ==> is_offer(
                choice,
                value,
                marks,
                offers[0],
            )),
        },
        next_list(choice, value) matches Some(offers) ==> {
            &&& offers.len() == 1
            &&& is_offer(choice, value, marks, offers[0])
            &&& marks.len() <= leaves(choice).len()
        },
{
    let list = seq![choice];
    let marks = lemma_listed_choice(choice, value);
    let reading = continuation(choice, value, None);
    assert(list.drop_last() =~= Seq::empty());
    assert(list.last() == choice);
    assert(all_constants(list.drop_last(), value) =~= Seq::empty());
    assert(all_constants(list, value) =~= reading.constants());
    assert(list[0] == choice);
    if reading.is_open() {
        assert(open_at(list, value, 0));
    } else {
        assert(closed_before(list, value, 1));
    }
    if let Continuation::Partial(rest, end) = reading {
        assert(reading.constants()[0] == (rest, end));
        if marks.len() == leaves(choice).len() + 1 {
            lemma_offered(choice, value, marks, (rest, end));
        }
    }
    marks
}

/// The lists of two rows of choices stand in a row, and there is no list where one has none.
pub proof fn law_lists_stand_in_a_row(
    first: Seq<PatternView>,
    second: Seq<PatternView>,
    value: Seq<char>,
)
    ensures
        next_list(PatternView::Alternatives(Seq::empty()), value) == Some(
            Seq::<(Seq<char>, bool)>::empty(),
        ),
        next_list(PatternView::Alternatives(first + second), value) == match (
            next_list(PatternView::Alternatives(first), value),
            next_list(PatternView::Alternatives(second), value),
        ) {
            (Some(a), Some(b)) => Some(a + b),
            _ => None,
        },
{
    let all = first + second;
    let n = first.len() as int;
    assert(closed_before(Seq::empty(), value, 0));
    lemma_all_constants_add(first, second, value);
    if closed_before(all, value, all.len() as int) {
        assert forall|j: int| 0 <= j < first.len() implies !#[trigger] open_at(first, value, j) by {
            assert(!open_at(all, value, j));
        }
        assert forall|j: int| 0 <= j < second.len() implies !#[trigger] open_at(
            second,
            value,
            j,
        ) by {
            assert(!open_at(all, value, n + j));
        }
    }
    if closed_before(first, value, n) && closed_before(second, value, second.len() as int) {
        assert forall|j: int| 0 <= j < all.len() implies !#[trigger] open_at(all, value, j) by {
            if j < n {
                assert(!open_at(first, value, j));
            } else {
                assert(!open_at(second, value, j - n));
            }
        }
    }
}

proof fn lemma_all_constants_add(
    first: Seq<PatternView>,
    second: Seq<PatternView>,
    value: Seq<char>,
)
    ensures
        all_constants(first + second, value) == all_constants(first, value) + all_constants(
            second,
            value,
        ),
    decreases second.len(),
{
    if second.len() == 0 {
        assert(first + second =~= first);
        assert(all_constants(first, value) + all_constants(second, value) =~= all_constants(
            first,
            value,
        ));
    } else {
        lemma_all_constants_add(first, second.drop_last(), value);
        assert((first + second).drop_last() =~= first + second.drop_last());
        assert(all_constants(first + second, value) =~= all_constants(first, value)
            + all_constants(second, value));
    }
}

} // verus!
