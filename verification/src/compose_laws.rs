//! What holds of building, filtering and rendering patterns.
use vstd::prelude::*;
use vstd::std_specs::convert::FromSpec;

use crate::compose::{
    all_choices, any_holds_constant, appended, concatenated, extended, gathered, gathered_item,
    holds_constant, lemma_all_choices_add, lemma_all_choices_one, prepended, pushed, pushed_all,
    spliced,
};
use crate::display::{rendered, rendered_list};
use crate::matching::{
    all_choiceless, answers, filtered, is_choiceless, kept, Query,
};
use crate::pattern::{parts, Pattern, PatternView};

verus! {

/// Whether two constants meet where `a` ends and `b` starts.
pub open spec fn constants_meet(a: Seq<PatternView>, b: Seq<PatternView>) -> bool {
    a.len() > 0 && b.len() > 0 && a[a.len() - 1] is Constant && b[0] is Constant
}

/// Whether `all` are the parts of `a` and then those of `b`, where two constants that meet have
/// become one.
pub open spec fn is_glued(
    all: Seq<PatternView>,
    a: Seq<PatternView>,
    b: Seq<PatternView>,
) -> bool {
    let n = a.len();
    if constants_meet(a, b) {
        &&& all.len() + 1 == n + b.len()
        &&& forall|k: int| 0 <= k < n - 1 ==> #[trigger] all[k] == a[k]
        &&& all[n - 1] == PatternView::Constant(a[n - 1]->Constant_0 + b[0]->Constant_0)
        &&& forall|k: int| n <= k < all.len() ==> #[trigger] all[k] == b[k - n + 1]
    } else {
        &&& all.len() == n + b.len()
        &&& forall|k: int| 0 <= k < n ==> #[trigger] all[k] == a[k]
        &&& forall|k: int| n <= k < all.len() ==> #[trigger] all[k] == b[k - n]
    }
}

/// Adding items to a list keeps all items in their order and merges only two constants that
/// meet.
pub proof fn law_items_are_glued(list: Seq<PatternView>, part: PatternView, more: Seq<PatternView>)
    ensures
        is_glued(appended(list, part), list, seq![part]),
        is_glued(prepended(list, part), seq![part], list),
        is_glued(spliced(list, more), list, more),
{
    if more.len() > 0 {
        let first = appended(list, more[0]);
        assert(spliced(list, more) =~= first + more.drop_first());
    }
}

/// Pushing keeps the parts of both patterns in their order and merges only two constants that
/// meet. Two constants make a constant, and all else a concatenation.
pub proof fn law_push_glues(first: PatternView, second: PatternView)
    ensures
        match (first, second, pushed(first, second)) {
            (
                PatternView::Constant(a),
                PatternView::Constant(b),
                PatternView::Constant(both),
            ) => both == a + b,
            (_, _, PatternView::Concatenation(all)) => !(first is Constant && second is Constant)
                && is_glued(all, parts(first), parts(second)),
            _ => false,
        },
{
    match (first, second) {
        (PatternView::Concatenation(list), PatternView::Concatenation(more)) => {
            law_items_are_glued(list, first, more);
        },
        (PatternView::Concatenation(list), _) => {
            law_items_are_glued(list, second, list);
        },
        (_, PatternView::Concatenation(list)) => {
            law_items_are_glued(list, first, list);
        },
        _ => {},
    }
}

/// Concatenating is pushing one after the other: nothing makes a dynamic part, one pattern
/// stays as it is, and one more is pushed.
pub proof fn law_concat_pushes(items: Seq<PatternView>, last: PatternView)
    ensures
        concatenated(Seq::empty()) == PatternView::Dynamic,
        concatenated(seq![last]) == last,
        items.len() > 0 ==> concatenated(items.push(last)) == pushed(concatenated(items), last),
{
    assert(seq![last].drop_first() =~= Seq::empty());
    assert(pushed_all(last, seq![last].drop_first()) == last);
    if items.len() > 0 {
        lemma_pushed_all_last(items[0], items.drop_first(), last);
        assert(items.push(last).drop_first() =~= items.drop_first().push(last));
    }
}

proof fn lemma_pushed_all_last(pattern: PatternView, items: Seq<PatternView>, last: PatternView)
    ensures
        pushed_all(pattern, items.push(last)) == pushed(pushed_all(pattern, items), last),
    decreases items.len(),
{
    let all = items.push(last);
    if items.len() == 0 {
        assert(all.drop_first() =~= Seq::empty());
        assert(pushed_all(pushed(pattern, last), all.drop_first()) == pushed(pattern, last));
    } else {
        assert(all.drop_first() =~= items.drop_first().push(last));
        lemma_pushed_all_last(pushed(pattern, items[0]), items.drop_first(), last);
    }
}

/// Extending a concatenation takes the items over as they are, but that two constants that meet
/// merge. Extending any other pattern makes a concatenation of it and pushes the items onto it
/// one after the other.
pub proof fn law_extend_glues_or_pushes(
    pattern: PatternView,
    items: Seq<PatternView>,
    last: PatternView,
)
    ensures
        match (pattern, extended(pattern, items)) {
            (PatternView::Concatenation(list), PatternView::Concatenation(all)) => is_glued(
                all,
                list,
                items,
            ),
            (PatternView::Concatenation(_), _) => false,
            _ => {
                &&& extended(pattern, Seq::empty()) == PatternView::Concatenation(seq![pattern])
                &&& extended(pattern, items.push(last)) == pushed(extended(pattern, items), last)
            },
        },
{
    if let PatternView::Concatenation(list) = pattern {
        law_items_are_glued(list, last, items);
    } else {
        lemma_gathered_last(seq![pattern], items, last);
    }
}

proof fn lemma_gathered_last(
    list: Seq<PatternView>,
    items: Seq<PatternView>,
    last: PatternView,
)
    ensures
        gathered(list, items.push(last)) == gathered_item(gathered(list, items), last),
    decreases items.len(),
{
    let all = items.push(last);
    if items.len() == 0 {
        assert(all.drop_first() =~= Seq::empty());
        assert(gathered(gathered_item(list, last), all.drop_first()) == gathered_item(list, last));
    } else {
        assert(all.drop_first() =~= items.drop_first().push(last));
        lemma_gathered_last(gathered_item(list, items[0]), items.drop_first(), last);
    }
}

/// A choice between patterns holds them in their order, where alternatives are taken over one by
/// one.
pub proof fn law_choice_takes_alternatives_over(
    first: Seq<PatternView>,
    second: Seq<PatternView>,
    pattern: PatternView,
)
    ensures
        all_choices(Seq::empty()) == Seq::<PatternView>::empty(),
        all_choices(seq![pattern]) == (match pattern {
            PatternView::Alternatives(list) => list,
            _ => seq![pattern],
        }),
        all_choices(first + second) == all_choices(first) + all_choices(second),
{
    lemma_all_choices_one(pattern);
    lemma_all_choices_add(first, second);
}

/// A string made a pattern is a constant of the same text.
pub proof fn law_string_is_a_constant(text: String)
    ensures
        <Pattern as FromSpec<String>>::obeys_from_spec(),
        <Pattern as FromSpec<String>>::from_spec(text)@ == PatternView::Constant(text@),
{
}

/// A pattern holds a constant if one of its parts or choices does, however they are grouped.
pub proof fn law_constants_are_found_anywhere(
    text: Seq<char>,
    first: Seq<PatternView>,
    second: Seq<PatternView>,
    pattern: PatternView,
)
    ensures
        holds_constant(PatternView::Constant(text)),
        !holds_constant(PatternView::Dynamic),
        !holds_constant(PatternView::Concatenation(Seq::empty())),
        holds_constant(PatternView::Concatenation(seq![pattern])) == holds_constant(pattern),
        holds_constant(PatternView::Concatenation(first + second)) == (holds_constant(
            PatternView::Concatenation(first),
        ) || holds_constant(PatternView::Concatenation(second))),
        holds_constant(PatternView::Alternatives(first)) == holds_constant(
            PatternView::Concatenation(first),
        ),
{
    let one = seq![pattern];
    assert(one[0] == pattern);
    if holds_constant(pattern) {
        assert(any_holds_constant(one)) by {
            assert(holds_constant(one[0]));
        }
    }
    let all = first + second;
    if any_holds_constant(first) {
        let i = choose|i: int| 0 <= i < first.len() && holds_constant(#[trigger] first[i]);
        assert(holds_constant(all[i]));
    }
    if any_holds_constant(second) {
        let i = choose|i: int| 0 <= i < second.len() && holds_constant(#[trigger] second[i]);
        assert(holds_constant(all[first.len() + i]));
    }
    if any_holds_constant(all) {
        let i = choose|i: int| 0 <= i < all.len() && holds_constant(#[trigger] all[i]);
        if i < first.len() {
            assert(holds_constant(first[i]));
        } else {
            assert(holds_constant(second[i - first.len()]));
        }
    }
}

/// A pattern is without alternatives where it is none itself and all its parts are without, however
/// they are grouped.
pub proof fn law_alternatives_are_found_anywhere(
    text: Seq<char>,
    first: Seq<PatternView>,
    second: Seq<PatternView>,
    pattern: PatternView,
)
    ensures
        is_choiceless(PatternView::Constant(text)),
        is_choiceless(PatternView::Dynamic),
        !is_choiceless(PatternView::Alternatives(first)),
        is_choiceless(PatternView::Concatenation(Seq::empty())),
        is_choiceless(PatternView::Concatenation(seq![pattern])) == is_choiceless(pattern),
        is_choiceless(PatternView::Concatenation(first + second)) == (is_choiceless(
            PatternView::Concatenation(first),
        ) && is_choiceless(PatternView::Concatenation(second))),
        all_choiceless(first) == is_choiceless(PatternView::Concatenation(first)),
{
    let one = seq![pattern];
    assert(one[0] == pattern);
    if all_choiceless(one) {
        assert(is_choiceless(one[0]));
    }
    let all = first + second;
    if all_choiceless(all) {
        assert forall|i: int| 0 <= i < first.len() implies is_choiceless(#[trigger] first[i]) by {
            assert(is_choiceless(all[i]));
        }
        assert forall|i: int| 0 <= i < second.len() implies is_choiceless(#[trigger] second[i]) by {
            assert(is_choiceless(all[first.len() + i]));
        }
    }
    if all_choiceless(first) && all_choiceless(second) {
        assert forall|i: int| 0 <= i < all.len() implies is_choiceless(#[trigger] all[i]) by {
            if i < first.len() {
                assert(is_choiceless(first[i]));
            } else {
                assert(is_choiceless(second[i - first.len()]));
            }
        }
    }
}

/// A filter keeps just the alternatives that answer as wanted, in their order, as alternatives,
/// or nothing where there are none. Any other pattern it keeps or drops as a whole.
pub proof fn law_filter_keeps_in_order(pattern: PatternView, value: Seq<char>, wanted: bool) -> (
    places: Seq<int>)
    ensures
        match pattern {
            PatternView::Alternatives(list) => {
                &&& forall|i: int, j: int|
                    0 <= i < j < places.len() ==> #[trigger] places[i] < #[trigger] places[j]
                &&& forall|i: int|
                    0 <= i < places.len() ==> 0 <= #[trigger] places[i] < list.len()
                &&& forall|k: int|
                    0 <= k < list.len() ==> places.contains(k) == (answers(
                        #[trigger] list[k],
                        Query::MatchOrOthers,
                        value,
                    ) == wanted)
                &&& filtered(pattern, value, wanted) == if places.len() == 0 {
                    None
                } else {
                    Some(
                        PatternView::Alternatives(
                            Seq::new(places.len(), |i: int| list[places[i]]),
                        ),
                    )
                }
            },
            _ => filtered(pattern, value, wanted) == if answers(
                pattern,
                Query::MatchOrOthers,
                value,
            ) == wanted {
                Some(pattern)
            } else {
                None
            },
        },
{
    if let PatternView::Alternatives(list) = pattern {
        let places = lemma_kept_places(list, value, wanted);
        assert(kept(list, value, wanted) =~= Seq::new(places.len(), |i: int| list[places[i]]));
        places
    } else {
        Seq::empty()
    }
}

proof fn lemma_kept_places(list: Seq<PatternView>, value: Seq<char>, wanted: bool) -> (places: Seq<
    int,
>)
    ensures
        forall|i: int, j: int|
            0 <= i < j < places.len() ==> #[trigger] places[i] < #[trigger] places[j],
        forall|i: int| 0 <= i < places.len() ==> 0 <= #[trigger] places[i] < list.len(),
        forall|k: int|
            0 <= k < list.len() ==> places.contains(k) == (answers(
                #[trigger] list[k],
                Query::MatchOrOthers,
                value,
            ) == wanted),
        kept(list, value, wanted).len() == places.len(),
        forall|i: int|
            0 <= i < places.len() ==> kept(list, value, wanted)[i] == list[#[trigger] places[i]],
    decreases list.len(),
{
    reveal(Seq::filter);
    if list.len() == 0 {
        Seq::empty()
    } else {
        let front = list.drop_last();
        let n = front.len() as int;
        let before = lemma_kept_places(front, value, wanted);
        assert(list =~= front.push(list.last()));
        let places = if answers(list.last(), Query::MatchOrOthers, value) == wanted {
            before.push(n)
        } else {
            before
        };
        assert forall|k: int| 0 <= k < list.len() implies places.contains(k) == (answers(
            #[trigger] list[k],
            Query::MatchOrOthers,
            value,
        ) == wanted) by {
            if k < n {
                assert(front[k] == list[k]);
                if before.contains(k) {
                    let i = choose|i: int| 0 <= i < before.len() && before[i] == k;
                    assert(places[i] == k);
                }
                if places.contains(k) {
                    let i = choose|i: int| 0 <= i < places.len() && places[i] == k;
                    assert(before[i] == k);
                }
            } else {
                if places.len() > before.len() {
                    assert(places[before.len() as int] == n);
                } else if places.contains(k) {
                    let i = choose|i: int| 0 <= i < places.len() && places[i] == k;
                    assert(before[i] < n);
                }
            }
        }
        places
    }
}

/// The readable form: a constant in quotes, parts with a blank between them, choices in brackets
/// with a bar between them.
pub proof fn law_readable_form(
    text: Seq<char>,
    list: Seq<PatternView>,
    pattern: PatternView,
)
    ensures
        rendered(PatternView::Constant(text)) == seq!['"'] + text + seq!['"'],
        rendered(PatternView::Dynamic) == "<dynamic>"@,
        rendered(PatternView::Concatenation(Seq::empty())) == Seq::<char>::empty(),
        rendered(PatternView::Concatenation(seq![pattern])) == rendered(pattern),
        list.len() > 0 ==> rendered(PatternView::Concatenation(list.push(pattern))) == rendered(
            PatternView::Concatenation(list),
        ) + seq![' '] + rendered(pattern),
        rendered(PatternView::Alternatives(Seq::empty())) == seq!['(', ')'],
        rendered(PatternView::Alternatives(seq![pattern])) == seq!['('] + rendered(pattern) + seq![
            ')',
        ],
        list.len() > 0 ==> rendered(PatternView::Alternatives(list.push(pattern))) == rendered(
            PatternView::Alternatives(list),
        ).drop_last() + seq![' ', '|', ' '] + rendered(pattern) + seq![')'],
{
    reveal_strlit("\"");
    reveal_strlit("(");
    reveal_strlit(")");
    reveal_strlit(" ");
    reveal_strlit(" | ");
    assert("\""@ =~= seq!['"']);
    assert("("@ =~= seq!['(']);
    assert(")"@ =~= seq![')']);
    assert(" "@ =~= seq![' ']);
    assert(" | "@ =~= seq![' ', '|', ' ']);
    let none = Seq::<PatternView>::empty();
    assert(rendered_list(none, " "@) =~= Seq::empty());
    assert(rendered_list(none, " | "@) =~= Seq::empty());
    assert("("@ + rendered_list(none, " | "@) + ")"@ =~= seq!['(', ')']);
    let one = seq![pattern];
    assert(one[0] == pattern);
    assert(rendered_list(one, " "@) == rendered(pattern));
    assert(rendered_list(one, " | "@) == rendered(pattern));
    if list.len() > 0 {
        let all = list.push(pattern);
        assert(all.drop_last() =~= list);
        assert(all.last() == pattern);
        assert(rendered_list(all, " "@) == rendered_list(list, " "@) + " "@ + rendered(pattern));
        assert(rendered_list(all, " | "@) == rendered_list(list, " | "@) + " | "@ + rendered(
            pattern,
        ));
        assert(rendered(PatternView::Alternatives(list)).drop_last() =~= "("@ + rendered_list(
            list,
            " | "@,
        ));
        assert(rendered(PatternView::Alternatives(all)) =~= "("@ + rendered_list(list, " | "@)
            + " | "@ + rendered(pattern) + ")"@);
    }
}

} // verus!
