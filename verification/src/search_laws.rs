//! That a search loses no match.
use vstd::prelude::*;

use crate::constants::{
    all_constants, constant_continuation, continuation, dynamic_continuation, next_list, open_at,
    parts_continuation, Continuation,
};
use crate::lookup::{
    law_plan_covers_the_constants, lemma_step_path, planned_steps, step_path, CandidateView,
    LinkTarget, StepView,
};
use crate::matching::{
    answers, answers_at, constant_outcome, dynamic_outcome, outcome, parts_outcome, Query,
};
use crate::matching_laws::{all_flattened, flattened, law_nesting_is_no_matter, lemma_flattened};
use crate::pattern::{choices, PatternView};
use crate::prefix_laws::{
    is_directory_text, law_directories_of_a_match_could_match, law_reached_constants_run_clear,
    leads_clear, lemma_constant_of_start, lemma_cut_constant, lemma_directory_is_no_artifact,
    lemma_limit_of_start, matches_clearly, offset_at, runs_clear,
};
use crate::search::{
    answer_position, is_recorded, law_listing_is_complete, listed, offers_of, EntryView, Place,
};
use crate::text::has_prefix;

verus! {

/// Whether two readings are the same, but that `b` may end the pattern where `a` does not.
spec fn is_same_but_end(a: Continuation, b: Continuation) -> bool {
    match a {
        Continuation::Partial(rest, end) => b matches Continuation::Partial(other, last) && other
            == rest && (end ==> last),
        _ => a == b,
    }
}

/// Reading along two lists in a row is reading along the first and going on along the second.
pub proof fn lemma_parts_continuation_add(
    a: Seq<PatternView>,
    b: Seq<PatternView>,
    value: Seq<char>,
    any_offset: Option<int>,
)
    ensures
        parts_continuation(a + b, value, any_offset) == match parts_continuation(
            a,
            value,
            any_offset,
        ) {
            Continuation::Consumed(remaining, offset) => parts_continuation(b, remaining, offset),
            Continuation::Partial(rest, end) => Continuation::Partial(rest, end && b.len() == 0),
            other => other,
        },
    decreases a.len(),
{
    if a.len() == 0 {
        assert(a + b =~= b);
    } else {
        assert((a + b).drop_first() =~= a.drop_first() + b);
        assert((a + b)[0] == a[0]);
        if let Continuation::Consumed(remaining, offset) = continuation(a[0], value, any_offset) {
            lemma_parts_continuation_add(a.drop_first(), b, remaining, offset);
        }
    }
}

/// How the parts of a pattern are nested makes no difference to what may follow, but that an
/// empty concatenation may hide the end.
proof fn lemma_nested_continuation(
    pattern: PatternView,
    value: Seq<char>,
    any_offset: Option<int>,
)
    ensures
        is_same_but_end(
            continuation(pattern, value, any_offset),
            parts_continuation(flattened(pattern), value, any_offset),
        ),
    decreases pattern,
{
    if let PatternView::Concatenation(list) = pattern {
        lemma_nested_continuations(list, value, any_offset);
    } else {
        let one = seq![pattern];
        assert(one.drop_first() =~= Seq::empty());
        assert(one[0] == pattern);
        if let Continuation::Consumed(remaining, offset) = continuation(
            pattern,
            value,
            any_offset,
        ) {
            assert(parts_continuation(one.drop_first(), remaining, offset)
                == Continuation::Consumed(remaining, offset));
        }
        assert(parts_continuation(one, value, any_offset) == continuation(
            pattern,
            value,
            any_offset,
        ));
    }
}

proof fn lemma_nested_continuations(
    list: Seq<PatternView>,
    value: Seq<char>,
    any_offset: Option<int>,
)
    ensures
        is_same_but_end(
            parts_continuation(list, value, any_offset),
            parts_continuation(all_flattened(list), value, any_offset),
        ),
    decreases list,
{
    if list.len() > 0 {
        let rest = list.drop_first();
        lemma_nested_continuation(list[0], value, any_offset);
        lemma_parts_continuation_add(
            flattened(list[0]),
            all_flattened(rest),
            value,
            any_offset,
        );
        if let Continuation::Consumed(remaining, offset) = continuation(
            list[0],
            value,
            any_offset,
        ) {
            lemma_nested_continuations(rest, remaining, offset);
        }
        if list.len() == 1 {
            assert(all_flattened(rest) =~= Seq::empty());
        }
    }
}

/// Whether `reading` leads to all that `rest` is or starts with: anything may follow, or what
/// follows starts `rest` and is all of it where the pattern ends.
spec fn leads_to(reading: Continuation, rest: Seq<char>) -> bool {
    ||| reading.is_open()
    ||| reading matches Continuation::Partial(more, end) && has_prefix(rest, more) && (end ==> rest
        == more)
    ||| reading matches Continuation::Consumed(left, None) && left.len() == 0 && rest.len() == 0
}

/// Where reading `text` along `parts` ends in a match and runs clear, what may follow the text
/// of a directory leads to the rest of it.
proof fn lemma_start_leads_to(
    parts: Seq<PatternView>,
    text: Seq<char>,
    start: Seq<char>,
    behind: bool,
)
    requires
        forall|i: int| 0 <= i < parts.len() ==> !(#[trigger] parts[i] is Concatenation),
        runs_clear(parts, text, behind, false),
        is_directory_text(start),
        has_prefix(text, start),
        parts_outcome(parts, text, offset_at(text, behind, true)).is_match(),
    ensures
        leads_to(
            parts_continuation(parts, start, offset_at(start, behind, false)),
            text.skip(start.len() as int),
        ),
    decreases parts.len(),
{
    lemma_limit_of_start(text, start, false);
    let after = text.skip(start.len() as int);
    if parts.len() > 0 {
        let rest = parts.drop_first();
        let (offset, earlier) = (offset_at(text, behind, true), offset_at(start, behind, false));
        assert forall|i: int| 0 <= i < rest.len() implies !(#[trigger] rest[i] is Concatenation) by {
            assert(!(parts[i + 1] is Concatenation));
        }
        match parts[0] {
            PatternView::Constant(constant) => {
                assert(outcome(parts[0], text, offset) == constant_outcome(constant, text, offset));
                assert(continuation(parts[0], start, earlier) == constant_continuation(
                    constant,
                    start,
                    earlier,
                ));
                let at = lemma_constant_of_start(text, start, constant, behind);
                let to = at + constant.len();
                if to <= start.len() {
                    lemma_start_leads_to(rest, text.skip(to), start.skip(to), false);
                } else if behind {
                    lemma_cut_constant(text, start, at, to, false);
                } else {
                    let more = constant.skip(start.len() as int);
                    assert(after.take(more.len() as int) =~= text.take(to).skip(
                        start.len() as int,
                    ));
                    assert(text.take(to) =~= text.subrange(0, to));
                    assert(has_prefix(after, more));
                    if rest.len() == 0 {
                        assert(text.skip(to).len() == 0);
                        assert(after.take(more.len() as int) =~= after);
                    }
                }
            },
            PatternView::Dynamic => {
                assert(outcome(parts[0], text, offset) == dynamic_outcome(text));
                assert(continuation(parts[0], start, earlier) == dynamic_continuation(start));
                lemma_directory_is_no_artifact(start);
                lemma_start_leads_to(rest, text, start, true);
            },
            _ => {
                assert(outcome(parts[0], text, offset) is Unnormalized);
            },
        }
    }
}

/// A constant of one of the choices is among the constants of all.
proof fn lemma_all_constants_hold(
    list: Seq<PatternView>,
    value: Seq<char>,
    i: int,
    constant: (Seq<char>, bool),
)
    requires
        0 <= i < list.len(),
        continuation(list[i], value, None).constants().contains(constant),
    ensures
        all_constants(list, value).contains(constant),
    decreases list.len(),
{
    let front = list.drop_last();
    let before = all_constants(front, value);
    let now = continuation(list.last(), value, None).constants();
    if i < front.len() {
        lemma_all_constants_hold(front, value, i, constant);
        let k = choose|k: int| 0 <= k < before.len() && before[k] == constant;
        assert((before + now)[k] == constant);
    } else {
        let k = choose|k: int| 0 <= k < now.len() && now[k] == constant;
        assert((before + now)[before.len() + k] == constant);
    }
}

/// Whether `step` leads to `rest`: it is looked up as the end of a match, or lies below the
/// path of the step, in which the search goes on.
pub open spec fn step_leads_to(step: StepView, rest: Seq<char>) -> bool {
    ||| step.1 && step.0 == rest
    ||| !step.1 && has_prefix(rest, step.0) && rest.len() > step.0.len()
}

/// Replacing the listing of a directory by a plan loses no match: whatever behind the text of
/// the directory makes a match is looked up or lies below a path in which the search goes on.
/// Left out are only the values that every choice which matches them reads so that a constant
/// behind a dynamic part runs through a directory with a barrier in it, where an empty segment
/// is none, such as `a/../b` for a dynamic part and `"/../b"`.
pub proof fn law_plan_loses_no_match(pattern: PatternView, prefix: Seq<char>, rest: Seq<char>)
    requires
        planned_steps(pattern, prefix) is Some,
        is_directory_text(prefix),
        matches_clearly(pattern, prefix + rest, false),
    ensures
        exists|i: int|
            0 <= i < planned_steps(pattern, prefix)->0.len() && step_leads_to(
                #[trigger] planned_steps(pattern, prefix)->0[i],
                rest,
            ),
{
    let value = prefix + rest;
    let steps = planned_steps(pattern, prefix)->0;
    let constants = next_list(pattern, prefix)->0;
    let list = choices(pattern);
    let i = choose|i: int|
        0 <= i < choices(pattern).len() && #[trigger] answers_at(pattern, Query::Match, value, i)
            && leads_clear(flattened(choices(pattern)[i]), value, false);
    let choice = choices(pattern)[i];
    let parts = flattened(choice);
    let reading = continuation(choice, prefix, None);
    assert(value.take(prefix.len() as int) =~= prefix);
    assert(value.skip(prefix.len() as int) =~= rest);
    law_reached_constants_run_clear(pattern, value, i, false);
    law_nesting_is_no_matter(choice, value, None);
    lemma_flattened(choice);
    lemma_start_leads_to(parts, value, prefix, false);
    lemma_nested_continuation(choice, prefix, None);
    assert(leads_to(reading, rest));
    assert(!reading.is_open()) by {
        if pattern is Alternatives {
            assert(!open_at(list, prefix, i));
        }
    }
    let constant = match reading {
        Continuation::Partial(more, end) => (more, end),
        _ => (Seq::empty(), true),
    };
    assert(reading.constants()[0] == constant) by {
        assert(reading.constants() =~= seq![constant]);
    }
    assert(reading.constants().contains(constant));
    assert(constants.contains(constant)) by {
        if pattern is Alternatives {
            lemma_all_constants_hold(list, prefix, i, constant);
        } else {
            assert(constants[0] == constant);
        }
    }
    let k = choose|k: int| 0 <= k < constants.len() && constants[k] == constant;
    let path = step_path(constants[k]);
    lemma_step_path(constant);
    law_plan_covers_the_constants(pattern, prefix);
    assert(has_prefix(rest, constant.0)) by {
        if constant.0.len() == 0 {
            assert(rest.take(0) =~= constant.0);
        }
    }
    assert(has_prefix(rest, path)) by {
        assert(rest.take(constant.0.len() as int).take(path.len() as int) =~= rest.take(
            path.len() as int,
        ));
    }
    if path == rest {
        let j = choose|j: int| 0 <= j < steps.len() && steps[j] == (path, true);
        assert(step_leads_to(planned_steps(pattern, prefix)->0[j], rest));
    } else {
        assert(rest.len() > path.len()) by {
            assert(rest.len() == path.len() ==> rest.take(path.len() as int) =~= rest);
        }
        assert(!constant.1) by {
            if constant.1 {
                if rest.len() == 0 {
                    assert(rest =~= constant.0);
                }
            }
        }
        let j = choose|j: int| 0 <= j < steps.len() && steps[j] == (path, false);
        assert(step_leads_to(planned_steps(pattern, prefix)->0[j], rest));
    }
}

/// Whether `offer` leads to `value`: its text is all of it, or the search goes on with it
/// towards `value`.
pub open spec fn offer_leads_to(offer: CandidateView, value: Seq<char>) -> bool {
    if offer.effect is Descend {
        has_prefix(value, offer.text)
    } else {
        value == offer.text
    }
}

/// Listing a directory loses no match: whatever the directory or an entry of it offers that
/// leads to a match is reported or searched. Left out are only the values that every choice
/// which matches them reads so that a constant behind a dynamic part runs through a directory
/// with a barrier in it, such as `a/b` for `"a"`, a dynamic part and `"/b"`.
pub proof fn law_listing_loses_no_match(
    pattern: PatternView,
    place: Place,
    entries: Seq<EntryView>,
    value: Seq<char>,
)
    requires
        matches_clearly(pattern, value, true),
    ensures
        forall|j: int|
            0 <= j < place.relatives().len() && offer_leads_to(
                #[trigger] place.relatives()[j],
                value,
            ) ==> ({
                let offer = place.relatives()[j];
                is_recorded(
                    listed(pattern, place, entries),
                    answer_position(pattern, offer.query, offer.text),
                    offer,
                    LinkTarget::Broken,
                )
            }),
        forall|i: int, j: int|
            0 <= i < entries.len() && 0 <= j < offers_of(place.prefix, entries[i]).len()
                && offer_leads_to(#[trigger] offers_of(place.prefix, entries[i])[j], value) ==> ({
                let offer = offers_of(place.prefix, entries[i])[j];
                is_recorded(
                    listed(pattern, place, entries),
                    answer_position(pattern, offer.query, offer.text),
                    offer,
                    entries[i].target,
                )
            }),
{
    reveal_strlit("../");
    reveal_strlit("./");
    reveal_strlit("/");
    law_listing_is_complete(pattern, place, entries);
    assert forall|j: int|
        0 <= j < place.relatives().len() && offer_leads_to(
            #[trigger] place.relatives()[j],
            value,
        ) implies ({
        let offer = place.relatives()[j];
        answers(pattern, offer.query, offer.text)
    }) by {
        let offer = place.relatives()[j];
        if offer.effect is Descend {
            assert(offer.query == Query::MatchOrOthers && offer.text.last() == '/');
            law_directories_of_a_match_could_match(pattern, value, offer.text);
        }
    }
    assert forall|i: int, j: int|
        0 <= i < entries.len() && 0 <= j < offers_of(place.prefix, entries[i]).len()
            && offer_leads_to(#[trigger] offers_of(place.prefix, entries[i])[j], value) implies ({
        let offer = offers_of(place.prefix, entries[i])[j];
        answers(pattern, offer.query, offer.text)
    }) by {
        let offer = offers_of(place.prefix, entries[i])[j];
        if offer.effect is Descend {
            assert(offer.query == Query::MatchOrOthers && offer.text.last() == '/');
            law_directories_of_a_match_could_match(pattern, value, offer.text);
        }
    }
}

} // verus!
