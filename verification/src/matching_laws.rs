//! What holds of matching as a whole.
use vstd::prelude::*;
use vstd::seq_lib::group_to_multiset_ensures;

use crate::barrier::{barrier_at, first_barrier, is_artifact, lemma_barrier_from};
use crate::constants::{
    all_constants, continuation, listable, next_list, parts_continuation, Continuation,
};
use crate::language::{
    any_denotes, denotes, denotes_parts, lemma_choices_of, lemma_parts_join, lemma_parts_one,
    lemma_parts_split,
};
use crate::matching::{
    all_choiceless, answers, answers_at, askable, constant_outcome, dynamic_outcome, filterable,
    filtered, is_choiceless, kept, outcome, parts_outcome, Outcome, Query,
};
use crate::normalize::{is_atom, is_flat, law_normal_form_is_normal, normal_form};
use crate::pattern::{choices, parts, PatternView};
use crate::text::{find_in, has_prefix, lemma_find_from};

verus! {

proof fn lemma_flat_is_choiceless(pattern: PatternView)
    requires
        is_flat(pattern),
    ensures
        is_choiceless(pattern),
{
    if let PatternView::Concatenation(list) = pattern {
        assert forall|i: int| 0 <= i < list.len() implies is_choiceless(#[trigger] list[i]) by {
            assert(is_atom(parts(pattern)[i]));
        }
    }
}

/// A pattern without alternatives inside can be read along.
proof fn lemma_choiceless_outcome(
    pattern: PatternView,
    value: Seq<char>,
    any_offset: Option<int>,
)
    requires
        is_choiceless(pattern),
    ensures
        !(outcome(pattern, value, any_offset) is Unnormalized),
        !(continuation(pattern, value, any_offset) is Unnormalized),
    decreases pattern,
{
    if let PatternView::Concatenation(list) = pattern {
        lemma_choiceless_parts(list, value, any_offset);
    }
}

proof fn lemma_choiceless_parts(
    list: Seq<PatternView>,
    value: Seq<char>,
    any_offset: Option<int>,
)
    requires
        all_choiceless(list),
    ensures
        !(parts_outcome(list, value, any_offset) is Unnormalized),
        !(parts_continuation(list, value, any_offset) is Unnormalized),
    decreases list,
{
    if list.len() > 0 {
        assert(is_choiceless(list[0]));
        lemma_choiceless_outcome(list[0], value, any_offset);
        let rest = list.drop_first();
        assert forall|i: int| 0 <= i < rest.len() implies is_choiceless(#[trigger] rest[i]) by {
            assert(is_choiceless(list[i + 1]));
        }
        if let Outcome::Consumed { remaining, any_offset } = outcome(list[0], value, any_offset) {
            lemma_choiceless_parts(rest, remaining, any_offset);
        }
        if let Continuation::Consumed(remaining, any_offset) = continuation(
            list[0],
            value,
            any_offset,
        ) {
            lemma_choiceless_parts(rest, remaining, any_offset);
        }
    }
}

/// A pattern whose choices hold no alternatives inside can be asked everything, filtered,
/// and its constants can be listed.
pub proof fn law_choiceless_choices_can_be_asked(
    pattern: PatternView,
    query: Query,
    value: Seq<char>,
)
    requires
        all_choiceless(choices(pattern)),
    ensures
        askable(pattern, query, value),
        filterable(pattern, value),
        listable(pattern, value),
{
    let list = choices(pattern);
    assert forall|i: int| 0 <= i < list.len() implies !(outcome(
        #[trigger] list[i],
        value,
        None,
    ) is Unnormalized) && !(continuation(list[i], value, None) is Unnormalized) by {
        lemma_choiceless_outcome(list[i], value, None);
    }
    assert forall|i: int| 0 <= i < list.len() implies askable(
        #[trigger] choices(pattern)[i],
        Query::MatchOrOthers,
        value,
    ) by {
        assert(is_choiceless(list[i]));
        assert(choices(list[i]) =~= seq![list[i]]);
    }
}

/// No choice of a normalized pattern holds alternatives inside.
pub proof fn law_normalized_is_choiceless(pattern: PatternView)
    ensures
        all_choiceless(choices(normal_form(pattern))),
{
    let list = choices(normal_form(pattern));
    law_normal_form_is_normal(pattern);
    assert forall|i: int| 0 <= i < list.len() implies is_choiceless(#[trigger] list[i]) by {
        lemma_flat_is_choiceless(list[i]);
    }
}

/// A normalized pattern can be asked everything, filtered, and its constants can be listed.
pub proof fn law_normalized_can_be_asked(pattern: PatternView, query: Query, value: Seq<char>)
    ensures
        askable(normal_form(pattern), query, value),
        filterable(normal_form(pattern), value),
        listable(normal_form(pattern), value),
{
    law_normalized_is_choiceless(pattern);
    law_choiceless_choices_can_be_asked(normal_form(pattern), query, value);
}

/// A text could match where it is a match or could be the start of other matches.
pub proof fn law_could_match_is_match_or_others(pattern: PatternView, value: Seq<char>)
    ensures
        answers(pattern, Query::MatchOrOthers, value) == (answers(pattern, Query::Match, value)
            || answers(pattern, Query::Others, value)),
{
    let list = choices(pattern);
    if answers(pattern, Query::MatchOrOthers, value) {
        let i = choose|i: int|
            0 <= i < list.len() && #[trigger] answers_at(pattern, Query::MatchOrOthers, value, i);
        assert(answers_at(pattern, Query::Match, value, i) || answers_at(
            pattern,
            Query::Others,
            value,
            i,
        ));
    }
    if answers(pattern, Query::Match, value) {
        let i = choose|i: int|
            0 <= i < list.len() && #[trigger] answers_at(pattern, Query::Match, value, i);
        assert(answers_at(pattern, Query::MatchOrOthers, value, i));
    }
    if answers(pattern, Query::Others, value) {
        let i = choose|i: int|
            0 <= i < list.len() && #[trigger] answers_at(pattern, Query::Others, value, i);
        assert(answers_at(pattern, Query::MatchOrOthers, value, i));
    }
}

/// The two filters divide a list between them: what either keeps answers as it should, and
/// together they keep each pattern as often as the list holds it.
proof fn lemma_filters_divide(list: Seq<PatternView>, value: Seq<char>)
    ensures
        forall|i: int|
            0 <= i < kept(list, value, true).len() ==> answers(
                #[trigger] kept(list, value, true)[i],
                Query::MatchOrOthers,
                value,
            ),
        forall|i: int|
            0 <= i < kept(list, value, false).len() ==> !answers(
                #[trigger] kept(list, value, false)[i],
                Query::MatchOrOthers,
                value,
            ),
        kept(list, value, true).to_multiset().add(kept(list, value, false).to_multiset())
            == list.to_multiset(),
    decreases list.len(),
{
    broadcast use group_to_multiset_ensures;

    reveal(Seq::filter);
    let yes = kept(list, value, true);
    let no = kept(list, value, false);
    if list.len() == 0 {
        assert(yes.to_multiset().add(no.to_multiset()) =~= list.to_multiset());
    } else {
        let front = list.drop_last();
        lemma_filters_divide(front, value);
        assert(list =~= front.push(list.last()));
        let yes_before = kept(front, value, true);
        let no_before = kept(front, value, false);
        if answers(list.last(), Query::MatchOrOthers, value) {
            assert(yes == yes_before.push(list.last()));
            assert(no == no_before);
        } else {
            assert(yes == yes_before);
            assert(no == no_before.push(list.last()));
        }
        assert(yes.to_multiset().add(no.to_multiset()) =~= list.to_multiset());
    }
}

/// The choices of what a filter leaves of a pattern.
pub open spec fn choices_left(left: Option<PatternView>) -> Seq<PatternView> {
    match left {
        Some(pattern) => choices(pattern),
        None => Seq::empty(),
    }
}

/// Filtering a pattern for what could match and for what could not leaves each of its choices
/// in exactly one of the two results, on the side where it belongs.
pub proof fn law_filters_divide_the_choices(pattern: PatternView, value: Seq<char>)
    ensures
        choices_left(filtered(pattern, value, true)).to_multiset().add(
            choices_left(filtered(pattern, value, false)).to_multiset(),
        ) == choices(pattern).to_multiset(),
        forall|i: int|
            0 <= i < choices_left(filtered(pattern, value, true)).len() ==> answers(
                #[trigger] choices_left(filtered(pattern, value, true))[i],
                Query::MatchOrOthers,
                value,
            ),
        forall|i: int|
            0 <= i < choices_left(filtered(pattern, value, false)).len() ==> !answers(
                #[trigger] choices_left(filtered(pattern, value, false))[i],
                Query::MatchOrOthers,
                value,
            ),
{
    broadcast use group_to_multiset_ensures;

    let yes = choices_left(filtered(pattern, value, true));
    let no = choices_left(filtered(pattern, value, false));
    match pattern {
        PatternView::Alternatives(list) => {
            lemma_filters_divide(list, value);
            assert(yes =~= kept(list, value, true));
            assert(no =~= kept(list, value, false));
        },
        _ => {
            assert(yes.to_multiset().add(no.to_multiset()) =~= choices(pattern).to_multiset());
        },
    }
}

/// No barrier stands at the very end of a text.
pub proof fn lemma_no_barrier_at_end(text: Seq<char>, empty: bool)
    ensures
        !barrier_at(text, text.len() as int, empty),
{
    reveal_strlit("node_modules");
    reveal_strlit("__test__");
    reveal_strlit("__tests__");
}

/// A dynamic pattern matches the texts without a barrier that do not end like a generated
/// file, and each text without a barrier may be the start of a match.
pub proof fn law_dynamic_matches(value: Seq<char>)
    ensures
        answers(PatternView::Dynamic, Query::Match, value) == (first_barrier(value, true) is None
            && !is_artifact(value)),
        answers(PatternView::Dynamic, Query::MatchOrOthers, value) == (first_barrier(value, true)
            is None),
{
    let dynamic = PatternView::Dynamic;
    assert(choices(dynamic) =~= seq![dynamic]);
    lemma_no_barrier_at_end(value, true);
    lemma_barrier_from(value, true, 0);
    assert(answers_at(dynamic, Query::Match, value, 0) == outcome(
        dynamic,
        value,
        None,
    ).is_match());
    assert(answers_at(dynamic, Query::MatchOrOthers, value, 0) == outcome(
        dynamic,
        value,
        None,
    ).could_match());
}


/// The parts of `pattern` in a row, with the concatenations inside it taken apart.
pub open spec fn flattened(pattern: PatternView) -> Seq<PatternView>
    decreases pattern,
{
    match pattern {
        PatternView::Concatenation(list) => all_flattened(list),
        _ => seq![pattern],
    }
}

/// The parts of each pattern of `list` in a row.
pub open spec fn all_flattened(list: Seq<PatternView>) -> Seq<PatternView>
    decreases list,
{
    if list.len() == 0 {
        Seq::empty()
    } else {
        flattened(list[0]) + all_flattened(list.drop_first())
    }
}

/// Reading along two lists in a row is reading along the first and going on along the second.
pub proof fn lemma_parts_outcome_add(
    a: Seq<PatternView>,
    b: Seq<PatternView>,
    value: Seq<char>,
    any_offset: Option<int>,
)
    ensures
        parts_outcome(a + b, value, any_offset) == match parts_outcome(a, value, any_offset) {
            Outcome::Consumed { remaining, any_offset } => parts_outcome(b, remaining, any_offset),
            other => other,
        },
    decreases a.len(),
{
    if a.len() == 0 {
        assert(a + b =~= b);
    } else {
        assert((a + b).drop_first() =~= a.drop_first() + b);
        assert((a + b)[0] == a[0]);
        if let Outcome::Consumed { remaining, any_offset } = outcome(a[0], value, any_offset) {
            lemma_parts_outcome_add(a.drop_first(), b, remaining, any_offset);
        }
    }
}

/// How the parts of a pattern are nested makes no difference to matching.
pub proof fn law_nesting_is_no_matter(
    pattern: PatternView,
    value: Seq<char>,
    any_offset: Option<int>,
)
    ensures
        outcome(pattern, value, any_offset) == parts_outcome(
            flattened(pattern),
            value,
            any_offset,
        ),
    decreases pattern,
{
    if let PatternView::Concatenation(list) = pattern {
        lemma_nested_parts(list, value, any_offset);
    } else {
        let one = seq![pattern];
        assert(one.drop_first() =~= Seq::empty());
        assert(parts_outcome(one, value, any_offset) == match outcome(pattern, value, any_offset) {
            Outcome::Consumed { remaining, any_offset } => parts_outcome(
                one.drop_first(),
                remaining,
                any_offset,
            ),
            other => other,
        });
    }
}

proof fn lemma_nested_parts(list: Seq<PatternView>, value: Seq<char>, any_offset: Option<int>)
    ensures
        parts_outcome(list, value, any_offset) == parts_outcome(
            all_flattened(list),
            value,
            any_offset,
        ),
    decreases list,
{
    if list.len() > 0 {
        law_nesting_is_no_matter(list[0], value, any_offset);
        lemma_parts_outcome_add(
            flattened(list[0]),
            all_flattened(list.drop_first()),
            value,
            any_offset,
        );
        if let Outcome::Consumed { remaining, any_offset } = outcome(list[0], value, any_offset) {
            lemma_nested_parts(list.drop_first(), remaining, any_offset);
        }
    }
}

/// Whether a dynamic part may take the first `k` characters of `text`: no barrier stands
/// before that position.
pub open spec fn may_take(text: Seq<char>, k: int) -> bool {
    &&& 0 <= k <= text.len()
    &&& forall|j: int| 0 <= j < k ==> !#[trigger] barrier_at(text, j, true)
}

/// Whether `text` can be shared out among `parts`, constants and dynamic parts, in their
/// order: each constant gets itself, each dynamic part a piece without a barrier in it, and
/// a dynamic part at the end gets no ending of a generated file.
pub open spec fn shared_out(parts: Seq<PatternView>, text: Seq<char>) -> bool
    decreases parts.len(),
{
    if parts.len() == 0 {
        text.len() == 0
    } else {
        match parts[0] {
            PatternView::Constant(constant) => has_prefix(text, constant) && shared_out(
                parts.drop_first(),
                text.skip(constant.len() as int),
            ),
            PatternView::Dynamic => {
                &&& parts.len() == 1 ==> !is_artifact(text)
                &&& exists|k: int|
                    #[trigger] may_take(text, k) && shared_out(parts.drop_first(), text.skip(k))
            },
            _ => false,
        }
    }
}

/// Where reading along `parts` ends in a match, the text can be shared out among them, up to
/// what a dynamic part before them takes.
proof fn lemma_match_shared_out(
    parts: Seq<PatternView>,
    value: Seq<char>,
    any_offset: Option<int>,
) -> (k: int)
    requires
        forall|i: int| 0 <= i < parts.len() ==> !(#[trigger] parts[i] is Concatenation),
        parts_outcome(parts, value, any_offset).is_match(),
        any_offset matches Some(offset) ==> 0 <= offset <= value.len(),
    ensures
        0 <= k <= value.len(),
        any_offset is None ==> k == 0,
        any_offset matches Some(offset) ==> k <= offset,
        parts.len() == 0 && any_offset is Some ==> k == any_offset->0,
        shared_out(parts, value.skip(k)),
    decreases parts.len(),
{
    assert(value.skip(0) =~= value);
    if parts.len() == 0 {
        match any_offset {
            Some(offset) => offset,
            None => 0,
        }
    } else {
        let rest = parts.drop_first();
        assert forall|i: int| 0 <= i < rest.len() implies !(#[trigger] rest[i] is Concatenation) by {
            assert(!(parts[i + 1] is Concatenation));
        }
        match parts[0] {
            PatternView::Constant(constant) => {
                lemma_find_from(value, constant, 0);
                assert(outcome(parts[0], value, any_offset) == constant_outcome(
                    constant,
                    value,
                    any_offset,
                ));
                let index = match any_offset {
                    Some(_) => find_in(value, constant)->0,
                    None => 0,
                };
                let remaining = value.skip(index + constant.len());
                let taken = lemma_match_shared_out(rest, remaining, None);
                assert(remaining.skip(0) =~= remaining);
                assert(value.skip(index).skip(constant.len() as int) =~= remaining);
                assert(value.skip(index).take(constant.len() as int) =~= value.subrange(
                    index,
                    index + constant.len(),
                ));
                index
            },
            PatternView::Alternatives(_) => {
                assert(outcome(parts[0], value, any_offset) is Unnormalized);
                0
            },
            _ => {
                assert(parts[0] is Dynamic);
                lemma_barrier_from(value, true, 0);
                lemma_no_barrier_at_end(value, true);
                assert(outcome(parts[0], value, any_offset) == dynamic_outcome(value));
                let limit = match first_barrier(value, true) {
                    Some(at) => at,
                    None => value.len() as int,
                };
                let taken = lemma_match_shared_out(rest, value, Some(limit));
                assert(may_take(value, taken));
                0
            },
        }
    }
}

/// A text that can be shared out among `parts` is one that they stand for.
proof fn lemma_shared_out_denotes(parts: Seq<PatternView>, text: Seq<char>)
    requires
        shared_out(parts, text),
    ensures
        denotes_parts(parts, text),
    decreases parts.len(),
{
    if parts.len() > 0 {
        match parts[0] {
            PatternView::Constant(constant) => {
                let k = constant.len() as int;
                lemma_shared_out_denotes(parts.drop_first(), text.skip(k));
                assert(denotes(parts[0], text.take(k)));
            },
            _ => {
                let k = choose|k: int|
                    #[trigger] may_take(text, k) && shared_out(parts.drop_first(), text.skip(k));
                lemma_shared_out_denotes(parts.drop_first(), text.skip(k));
                assert(denotes(parts[0], text.take(k)));
            },
        }
    }
}

/// The parts of a pattern stand for what the pattern stands for.
proof fn lemma_flattened_texts(pattern: PatternView, text: Seq<char>)
    ensures
        denotes_parts(flattened(pattern), text) == denotes(pattern, text),
    decreases pattern,
{
    if let PatternView::Concatenation(list) = pattern {
        lemma_all_flattened_texts(list, text);
    } else {
        lemma_parts_one(pattern, text);
    }
}

proof fn lemma_all_flattened_texts(list: Seq<PatternView>, text: Seq<char>)
    ensures
        denotes_parts(all_flattened(list), text) == denotes_parts(list, text),
    decreases list,
{
    if list.len() > 0 {
        let rest = list.drop_first();
        let (a, b) = (flattened(list[0]), all_flattened(rest));
        if denotes_parts(a + b, text) {
            let k = lemma_parts_split(a, b, text);
            lemma_flattened_texts(list[0], text.take(k));
            lemma_all_flattened_texts(rest, text.skip(k));
            assert(denotes(list[0], text.take(k)));
        }
        if denotes_parts(list, text) {
            let k = choose|k: int|
                0 <= k <= text.len() && denotes(list[0], #[trigger] text.take(k))
                    && denotes_parts(rest, text.skip(k));
            lemma_flattened_texts(list[0], text.take(k));
            lemma_all_flattened_texts(rest, text.skip(k));
            lemma_parts_join(a, b, text, k);
        }
    }
}

/// No concatenation is left among the parts.
pub proof fn lemma_flattened(pattern: PatternView)
    ensures
        forall|i: int|
            0 <= i < flattened(pattern).len() ==> !(#[trigger] flattened(pattern)[i]
                is Concatenation),
    decreases pattern,
{
    if let PatternView::Concatenation(list) = pattern {
        lemma_all_flattened(list);
    }
}

pub proof fn lemma_all_flattened(list: Seq<PatternView>)
    ensures
        forall|i: int|
            0 <= i < all_flattened(list).len() ==> !(#[trigger] all_flattened(list)[i]
                is Concatenation),
    decreases list,
{
    if list.len() > 0 {
        lemma_flattened(list[0]);
        lemma_all_flattened(list.drop_first());
    }
}

/// A match keeps to the barriers: the text can be shared out among the parts of one of the
/// choices, and so it is a text that the pattern stands for.
pub proof fn law_match_keeps_to_barriers(pattern: PatternView, value: Seq<char>)
    requires
        answers(pattern, Query::Match, value),
    ensures
        exists|i: int|
            0 <= i < choices(pattern).len() && shared_out(
                flattened(#[trigger] choices(pattern)[i]),
                value,
            ),
        denotes(pattern, value),
{
    let list = choices(pattern);
    let i = choose|i: int|
        0 <= i < list.len() && #[trigger] answers_at(pattern, Query::Match, value, i);
    let choice = list[i];
    law_nesting_is_no_matter(choice, value, None);
    lemma_flattened(choice);
    let k = lemma_match_shared_out(flattened(choice), value, None);
    assert(value.skip(0) =~= value);
    assert(shared_out(flattened(choices(pattern)[i]), value));
    lemma_shared_out_denotes(flattened(choice), value);
    lemma_flattened_texts(choice, value);
    lemma_choices_of(pattern, value);
}

/// Whether `parts` are constants throughout.
pub open spec fn all_constant(parts: Seq<PatternView>) -> bool {
    forall|i: int| 0 <= i < parts.len() ==> #[trigger] parts[i] is Constant
}

/// The constants among `parts` in a row.
pub open spec fn constants_text(parts: Seq<PatternView>) -> Seq<char>
    decreases parts.len(),
{
    if parts.len() == 0 {
        Seq::empty()
    } else {
        parts[0]->Constant_0 + constants_text(parts.drop_first())
    }
}

/// Reading along constants is reading along the one constant that they make.
proof fn lemma_constants_outcome(parts: Seq<PatternView>, value: Seq<char>)
    requires
        all_constant(parts),
    ensures
        parts_outcome(parts, value, None) == constant_outcome(
            constants_text(parts),
            value,
            None,
        ),
    decreases parts.len(),
{
    let whole = constants_text(parts);
    if parts.len() == 0 {
        assert(value.take(0) =~= whole);
        assert(value.skip(0) =~= value);
    } else {
        let first = parts[0]->Constant_0;
        let rest = parts.drop_first();
        let after = constants_text(rest);
        assert forall|i: int| 0 <= i < rest.len() implies #[trigger] rest[i] is Constant by {
            assert(parts[i + 1] is Constant);
        }
        assert(parts[0] is Constant);
        assert(outcome(parts[0], value, None) == constant_outcome(first, value, None));
        if has_prefix(value, first) {
            let remaining = value.skip(first.len() as int);
            lemma_constants_outcome(rest, remaining);
            assert(value =~= first + remaining);
            if has_prefix(remaining, after) {
                assert(value.take(whole.len() as int) =~= whole);
                assert(value.skip(whole.len() as int) =~= remaining.skip(after.len() as int));
            } else {
                if has_prefix(value, whole) {
                    assert(remaining.take(after.len() as int) =~= value.take(
                        whole.len() as int,
                    ).skip(first.len() as int));
                    assert(whole.skip(first.len() as int) =~= after);
                }
                if has_prefix(after, remaining) {
                    assert(whole.take(value.len() as int) =~= value);
                }
                if has_prefix(whole, value) {
                    assert(after.take(remaining.len() as int) =~= whole.take(
                        value.len() as int,
                    ).skip(first.len() as int));
                }
            }
        } else {
            if has_prefix(value, whole) {
                assert(value.take(first.len() as int) =~= whole.take(first.len() as int));
                assert(whole.take(first.len() as int) =~= first);
            }
            if has_prefix(first, value) {
                assert(whole.take(value.len() as int) =~= first.take(value.len() as int));
            }
            if has_prefix(whole, value) {
                if value.len() < first.len() {
                    assert(whole.take(value.len() as int) =~= first.take(value.len() as int));
                } else {
                    assert(value.take(first.len() as int) =~= first);
                }
            }
        }
    }
}

/// A choice of constants alone matches the text that they make and nothing else, and the
/// texts that could match are those that it starts with.
pub proof fn law_constants_match_their_text(pattern: PatternView, i: int, value: Seq<char>)
    requires
        0 <= i < choices(pattern).len(),
        all_constant(flattened(choices(pattern)[i])),
    ensures
        ({
            let whole = constants_text(flattened(choices(pattern)[i]));
            &&& answers_at(pattern, Query::Match, value, i) == (value == whole)
            &&& answers_at(pattern, Query::Others, value, i) == (has_prefix(whole, value) && value
                != whole)
            &&& answers_at(pattern, Query::MatchOrOthers, value, i) == has_prefix(whole, value)
        }),
{
    let parts = flattened(choices(pattern)[i]);
    let whole = constants_text(parts);
    law_nesting_is_no_matter(choices(pattern)[i], value, None);
    lemma_constants_outcome(parts, value);
    if value == whole {
        assert(value.take(whole.len() as int) =~= whole);
    }
    if has_prefix(value, whole) {
        if value.len() == whole.len() {
            assert(value.take(whole.len() as int) =~= value);
        }
        if has_prefix(whole, value) {
            assert(whole.take(value.len() as int) =~= whole);
        }
    }
}

/// Whether `done` is read along `parts`: it is a text that they stand for, and where they
/// end in a dynamic part, so is every text that goes on from it.
spec fn is_read(parts: Seq<PatternView>, done: Seq<char>, any_offset: Option<int>) -> bool {
    match any_offset {
        Some(_) => forall|more: Seq<char>| denotes_parts(parts, #[trigger] (done + more)),
        None => denotes_parts(parts, done),
    }
}

/// What `parts` stand for, followed by what `pattern` stands for.
proof fn lemma_read_one(
    parts: Seq<PatternView>,
    done: Seq<char>,
    pattern: PatternView,
    text: Seq<char>,
)
    requires
        denotes_parts(parts, done),
        denotes(pattern, text),
    ensures
        denotes_parts(parts.push(pattern), done + text),
{
    let all = done + text;
    let k = done.len() as int;
    assert(all.take(k) =~= done);
    assert(all.skip(k) =~= text);
    lemma_parts_one(pattern, text);
    lemma_parts_join(parts, seq![pattern], all, k);
    assert(parts + seq![pattern] =~= parts.push(pattern));
}

/// Whether reading on along one more pattern leads where `reading` says: `done` and then
/// some of `value` are read, or `value` and what is left of the constant.
spec fn leads_on(
    parts: Seq<PatternView>,
    done: Seq<char>,
    value: Seq<char>,
    reading: Continuation,
) -> bool {
    match reading {
        Continuation::Consumed(remaining, any_offset) => exists|k: int|
            0 <= k <= value.len() && remaining == value.skip(k) && is_read(
                parts,
                done + #[trigger] value.take(k),
                any_offset,
            ),
        Continuation::Partial(rest, end) => end ==> denotes_parts(parts, done + value + rest),
        _ => true,
    }
}

proof fn lemma_continuation_leads_on(
    parts: Seq<PatternView>,
    done: Seq<char>,
    pattern: PatternView,
    value: Seq<char>,
    any_offset: Option<int>,
)
    requires
        is_read(parts, done, any_offset),
    ensures
        leads_on(parts.push(pattern), done, value, continuation(pattern, value, any_offset)),
    decreases pattern,
{
    let now = parts.push(pattern);
    assert(done + Seq::<char>::empty() =~= done);
    match pattern {
        PatternView::Constant(constant) => {
            lemma_find_from(value, constant, 0);
            let read = continuation(pattern, value, any_offset);
            if let Continuation::Consumed(remaining, _) = read {
                let index = match any_offset {
                    Some(_) => find_in(value, constant)->0,
                    None => 0,
                };
                let k = index + constant.len();
                let before = value.take(index);
                assert(denotes_parts(parts, done + before)) by {
                    assert(any_offset is None ==> done + before =~= done);
                }
                lemma_read_one(parts, done + before, pattern, constant);
                assert(value.take(k) =~= before + constant) by {
                    assert(value.subrange(index, k) =~= constant);
                }
                assert(done + value.take(k) =~= done + before + constant);
                assert(is_read(now, done + value.take(k), None));
            }
            if let Continuation::Partial(rest, _) = read {
                lemma_read_one(parts, done, pattern, constant);
                assert(done + value + rest =~= done + constant) by {
                    assert(constant.take(value.len() as int) + constant.skip(value.len() as int)
                        =~= constant);
                }
            }
        },
        PatternView::Dynamic => {
            assert(denotes_parts(parts, done)) by {
                assert(any_offset is Some ==> denotes_parts(
                    parts,
                    done + Seq::<char>::empty(),
                ));
            }
            assert(value.skip(0) =~= value);
            assert(done + value.take(0) =~= done);
            assert forall|more: Seq<char>| denotes_parts(now, #[trigger] (done + more)) by {
                lemma_read_one(parts, done, pattern, more);
            }
            assert(is_read(now, done + value.take(0), Some(0)));
        },
        PatternView::Alternatives(_) => {},
        PatternView::Concatenation(list) => {
            lemma_parts_lead_on(parts, done, list, value, any_offset);
            lemma_whole_leads_on(
                parts,
                list,
                done,
                value,
                parts_continuation(list, value, any_offset),
            );
        },
    }
}

/// A list of parts and their concatenation lead to the same.
proof fn lemma_whole_leads_on(
    parts: Seq<PatternView>,
    list: Seq<PatternView>,
    done: Seq<char>,
    value: Seq<char>,
    reading: Continuation,
)
    requires
        leads_on(parts + list, done, value, reading),
    ensures
        leads_on(parts.push(PatternView::Concatenation(list)), done, value, reading),
{
    let whole = PatternView::Concatenation(list);
    let now = parts.push(whole);
    assert(now =~= parts + seq![whole]);
    assert forall|text: Seq<char>| #[trigger] denotes_parts(parts + list, text) implies denotes_parts(
        now,
        text,
    ) by {
        let k = lemma_parts_split(parts, list, text);
        assert(denotes(whole, text.skip(k)));
        lemma_parts_one(whole, text.skip(k));
        lemma_parts_join(parts, seq![whole], text, k);
    }
    if let Continuation::Consumed(remaining, any_offset) = reading {
        let k = choose|k: int|
            0 <= k <= value.len() && remaining == value.skip(k) && is_read(
                parts + list,
                done + #[trigger] value.take(k),
                any_offset,
            );
        let read = done + value.take(k);
        if any_offset is Some {
            assert forall|more: Seq<char>| denotes_parts(now, #[trigger] (read + more)) by {
                assert(denotes_parts(parts + list, read + more));
            }
        }
        assert(is_read(now, done + value.take(k), any_offset));
    }
}

proof fn lemma_parts_lead_on(
    parts: Seq<PatternView>,
    done: Seq<char>,
    list: Seq<PatternView>,
    value: Seq<char>,
    any_offset: Option<int>,
)
    requires
        is_read(parts, done, any_offset),
    ensures
        leads_on(parts + list, done, value, parts_continuation(list, value, any_offset)),
    decreases list,
{
    if list.len() == 0 {
        assert(parts + list =~= parts);
        assert(value.skip(0) =~= value);
        assert(done + value.take(0) =~= done);
    } else {
        let rest = list.drop_first();
        let next = parts.push(list[0]);
        assert(next + rest =~= parts + list);
        lemma_continuation_leads_on(parts, done, list[0], value, any_offset);
        match continuation(list[0], value, any_offset) {
            Continuation::Consumed(remaining, offset) => {
                let k = choose|k: int|
                    0 <= k <= value.len() && remaining == value.skip(k) && is_read(
                        next,
                        done + #[trigger] value.take(k),
                        offset,
                    );
                let read = done + value.take(k);
                lemma_parts_lead_on(next, read, rest, remaining, offset);
                match parts_continuation(rest, remaining, offset) {
                    Continuation::Consumed(left, last) => {
                        let m = choose|m: int|
                            0 <= m <= remaining.len() && left == remaining.skip(m) && is_read(
                                next + rest,
                                read + #[trigger] remaining.take(m),
                                last,
                            );
                        assert(left =~= value.skip(k + m));
                        assert(read + remaining.take(m) =~= done + value.take(k + m));
                        assert(is_read(parts + list, done + value.take(k + m), last));
                    },
                    Continuation::Partial(more, end) => {
                        assert(read + remaining + more =~= done + value + more);
                    },
                    _ => {},
                }
            },
            Continuation::Partial(more, end) => {
                if end && list.len() == 1 {
                    assert(parts + list =~= next);
                }
            },
            _ => {},
        }
    }
}

/// What a choice offers as the end of a match makes a text that the choice stands for.
proof fn lemma_offer_completes(choice: PatternView, value: Seq<char>, offered: Seq<char>)
    requires
        continuation(choice, value, None).constants().contains((offered, true)),
    ensures
        denotes(choice, value + offered),
{
    let none = Seq::<PatternView>::empty();
    let start = Seq::<char>::empty();
    let reading = continuation(choice, value, None);
    lemma_continuation_leads_on(none, start, choice, value, None);
    assert(none.push(choice) =~= seq![choice]);
    assert(reading.constants()[0] == (offered, true));
    match reading {
        Continuation::Partial(rest, end) => {
            assert(start + value + rest =~= value + offered);
        },
        Continuation::Consumed(remaining, any_offset) => {
            let k = choose|k: int|
                0 <= k <= value.len() && remaining == value.skip(k) && is_read(
                    none.push(choice),
                    start + #[trigger] value.take(k),
                    any_offset,
                );
            assert(k == value.len());
            assert(start + value.take(k) =~= value + offered);
        },
        _ => {},
    }
    lemma_parts_one(choice, value + offered);
}

proof fn lemma_offers_complete(list: Seq<PatternView>, value: Seq<char>, offered: Seq<char>)
    requires
        all_constants(list, value).contains((offered, true)),
    ensures
        any_denotes(list, value + offered),
    decreases list.len(),
{
    if list.len() > 0 {
        let front = list.drop_last();
        let before = all_constants(front, value);
        let now = continuation(list.last(), value, None).constants();
        let i = choose|i: int|
            0 <= i < (before + now).len() && (before + now)[i] == (offered, true);
        if i < before.len() {
            assert(before[i] == (offered, true));
            lemma_offers_complete(front, value, offered);
            let j = choose|j: int|
                0 <= j < front.len() && denotes(#[trigger] front[j], value + offered);
            assert(denotes(list[j], value + offered));
        } else {
            assert(now[i - before.len()] == (offered, true));
            lemma_offer_completes(list.last(), value, offered);
            assert(denotes(list[list.len() - 1], value + offered));
        }
    }
}

/// A constant that is listed as the end of a match makes, behind the text, one that the
/// pattern stands for.
pub proof fn law_listed_ends_complete(pattern: PatternView, value: Seq<char>, offered: Seq<char>)
    requires
        next_list(pattern, value) is Some,
        next_list(pattern, value)->0.contains((offered, true)),
    ensures
        denotes(pattern, value + offered),
{
    match pattern {
        PatternView::Alternatives(list) => {
            lemma_offers_complete(list, value, offered);
        },
        _ => {
            let reading = continuation(pattern, value, None);
            assert(next_list(pattern, value)->0 =~= reading.constants());
            lemma_offer_completes(pattern, value, offered);
        },
    }
}

} // verus!
