//! What holds of normalizing as a whole.
use vstd::prelude::*;

use crate::barrier::lemma_barrier_from;
use crate::compose::{all_choices, lemma_all_choices_add, lemma_all_choices_one};
use crate::matching::{
    all_choiceless, answers, answers_at, is_choiceless, outcome, parts_outcome, Outcome, Query,
};
use crate::matching_laws::{
    all_flattened, flattened, law_nesting_is_no_matter, lemma_all_flattened, lemma_flattened,
    lemma_parts_outcome_add,
};
use crate::normalize::{
    all_atoms, any_alternatives, combinations, extended_by, extended_by_all, is_atom, is_flat,
    is_normal, joined, law_normal_form_is_normal, lemma_merged_atom, merged_part, merged_parts,
    normal_form, normal_forms,
};
use crate::pattern::{choices, parts, PatternView};
use crate::text::{find_in, has_prefix, lemma_find_from, occurs_at};

verus! {

/// Whether nothing in `list` is left to merge: constants that are not empty and dynamic parts
/// take turns.
pub open spec fn is_merged(list: Seq<PatternView>) -> bool {
    &&& all_atoms(list)
    &&& forall|i: int|
        0 <= i < list.len() ==> (#[trigger] list[i] matches PatternView::Constant(c) ==> c.len()
            > 0)
    &&& forall|i: int, j: int|
        0 <= i && j == i + 1 && j < list.len() ==> (#[trigger] list[i] is Constant) != (
        #[trigger] list[j] is Constant)
}

/// Whether nothing is left to merge in any choice of `pattern`: each is a constant, a dynamic
/// part, or a merged concatenation of none or at least two.
pub open spec fn is_settled(pattern: PatternView) -> bool {
    forall|i: int|
        0 <= i < choices(pattern).len() ==> is_settled_choice(#[trigger] choices(pattern)[i])
}

/// Whether nothing is left to merge in `choice`.
pub open spec fn is_settled_choice(choice: PatternView) -> bool {
    match choice {
        PatternView::Constant(_) => true,
        PatternView::Dynamic => true,
        PatternView::Alternatives(_) => false,
        PatternView::Concatenation(list) => list.len() != 1 && is_merged(list),
    }
}

/// Merging an atom into a merged list gives a merged list.
proof fn lemma_merging_atom(list: Seq<PatternView>, part: PatternView)
    requires
        is_merged(list),
        is_atom(part),
    ensures
        is_merged(merged_part(list, part)),
{
    let res = merged_part(list, part);
    assert forall|i: int| 0 <= i < res.len() implies is_atom(#[trigger] res[i]) && (
    res[i] matches PatternView::Constant(c) ==> c.len() > 0) by {
        if i < list.len() {
            assert(is_atom(list[i]));
        }
    }
    assert forall|i: int, j: int| 0 <= i && j == i + 1 && j < res.len() implies (
    #[trigger] res[i] is Constant) != (#[trigger] res[j] is Constant) by {
        assert(is_atom(list[i]));
        if j < list.len() {
            assert((list[i] is Constant) != (list[j] is Constant));
        }
    }
}

/// Merging atoms into a merged list gives a merged list.
proof fn lemma_merging_atoms(list: Seq<PatternView>, more: Seq<PatternView>)
    requires
        is_merged(list),
        all_atoms(more),
    ensures
        is_merged(merged_parts(list, more)),
    decreases more.len(),
{
    if more.len() > 0 {
        lemma_merging_atoms(list, more.drop_last());
        assert(is_atom(more[more.len() - 1]));
        lemma_merging_atom(merged_parts(list, more.drop_last()), more.last());
    }
}

/// Merging flat patterns into a merged list gives a merged list.
proof fn lemma_merging_flat(list: Seq<PatternView>, more: Seq<PatternView>)
    requires
        is_merged(list),
        forall|i: int| 0 <= i < more.len() ==> is_flat(#[trigger] more[i]),
    ensures
        is_merged(merged_parts(list, more)),
    decreases more.len(),
{
    if more.len() > 0 {
        let before = merged_parts(list, more.drop_last());
        let last = more[more.len() - 1];
        lemma_merging_flat(list, more.drop_last());
        assert(is_flat(last));
        if last is Concatenation {
            lemma_merging_atoms(before, parts(last));
            assert(merged_part(before, last) == merged_parts(before, parts(last)));
        } else {
            assert(is_atom(parts(last)[0]));
            lemma_merging_atom(before, last);
        }
    }
}

/// A merged list as one pattern is settled.
proof fn lemma_joined_settled(list: Seq<PatternView>)
    requires
        is_merged(list),
    ensures
        is_settled_choice(joined(list)),
{
    if list.len() == 1 {
        assert(is_atom(list[0]));
    }
}

/// A merged list is what merging its parts gives.
proof fn lemma_merged_is_kept(list: Seq<PatternView>, n: int)
    requires
        is_merged(list),
        0 <= n <= list.len(),
    ensures
        merged_parts(Seq::empty(), list.take(n)) == list.take(n),
    decreases n,
{
    if n > 0 {
        lemma_merged_is_kept(list, n - 1);
        let part = list[n - 1];
        let before = list.take(n - 1);
        assert(is_atom(part));
        assert(list.take(n).drop_last() =~= before);
        assert(list.take(n) =~= before.push(part));
        if n > 1 {
            assert(is_atom(list[n - 2]));
            assert(before.last() == list[n - 2]);
            assert((list[n - 2] is Constant) != (list[n - 1] is Constant));
        }
        assert(merged_part(before, part) == before.push(part));
    } else {
        assert(list.take(0) =~= Seq::empty());
    }
}

/// Atoms are normal as they are.
proof fn lemma_atoms_kept(list: Seq<PatternView>)
    requires
        all_atoms(list),
    ensures
        normal_forms(list) == list,
        !any_alternatives(list),
{
    assert forall|i: int| 0 <= i < list.len() implies normal_forms(list)[i] == list[i] by {
        assert(is_atom(list[i]));
    }
    assert(normal_forms(list) =~= list);
    if any_alternatives(list) {
        let i = choose|i: int| 0 <= i < list.len() && #[trigger] list[i] is Alternatives;
        assert(is_atom(list[i]));
    }
}

/// Normalizing a flat pattern merges its parts.
proof fn lemma_flat_settles(pattern: PatternView)
    requires
        is_flat(pattern),
    ensures
        is_settled_choice(normal_form(pattern)),
{
    if let PatternView::Concatenation(list) = pattern {
        assert(all_atoms(list)) by {
            assert(parts(pattern) == list);
        }
        lemma_atoms_kept(list);
        assert(is_merged(Seq::empty()));
        lemma_merging_atoms(Seq::empty(), list);
        lemma_joined_settled(merged_parts(Seq::empty(), list));
    } else {
        assert(is_atom(parts(pattern)[0]));
    }
}

proof fn lemma_settled_choice_is_kept(choice: PatternView)
    requires
        is_settled_choice(choice),
    ensures
        normal_form(choice) == choice,
{
    if let PatternView::Concatenation(list) = choice {
        lemma_atoms_kept(list);
        lemma_merged_is_kept(list, list.len() as int);
        assert(list.take(list.len() as int) =~= list);
    }
}

/// Choices that are no alternatives themselves stay the choices that they are.
proof fn lemma_single_choices(list: Seq<PatternView>)
    requires
        forall|i: int| 0 <= i < list.len() ==> !(#[trigger] list[i] is Alternatives),
    ensures
        all_choices(list) == list,
    decreases list.len(),
{
    if list.len() > 0 {
        let last = list[list.len() - 1];
        lemma_single_choices(list.drop_last());
        assert(!(last is Alternatives));
        assert(all_choices(list) =~= list);
    } else {
        assert(all_choices(list) =~= list);
    }
}

/// Normalizing changes nothing where nothing is left to merge.
pub proof fn law_settled_is_kept(pattern: PatternView)
    requires
        is_settled(pattern),
    ensures
        normal_form(pattern) == pattern,
{
    if let PatternView::Alternatives(list) = pattern {
        assert forall|i: int| 0 <= i < list.len() implies normal_forms(list)[i] == list[i] && !(
        #[trigger] list[i] is Alternatives) by {
            assert(is_settled_choice(choices(pattern)[i]));
            lemma_settled_choice_is_kept(list[i]);
        }
        assert(normal_forms(list) =~= list);
        lemma_single_choices(list);
    } else {
        assert(is_settled_choice(choices(pattern)[0]));
        lemma_settled_choice_is_kept(pattern);
    }
}

/// Normalizing a pattern that is normal leaves nothing to merge.
pub proof fn law_normalizing_again_settles(pattern: PatternView)
    requires
        is_normal(pattern),
    ensures
        is_settled(normal_form(pattern)),
{
    if let PatternView::Alternatives(list) = pattern {
        let forms = normal_forms(list);
        assert forall|i: int| 0 <= i < forms.len() implies is_settled_choice(#[trigger] forms[i])
            && !(forms[i] is Alternatives) by {
            assert(is_flat(choices(pattern)[i]));
            lemma_flat_settles(list[i]);
        }
        lemma_single_choices(forms);
    } else {
        assert(is_flat(choices(pattern)[0]));
        lemma_flat_settles(pattern);
    }
}

/// Normalizing twice is final: a third time changes nothing.
pub proof fn law_normalizing_twice_is_final(pattern: PatternView)
    ensures
        normal_form(normal_form(normal_form(pattern))) == normal_form(normal_form(pattern)),
{
    law_normal_form_is_normal(pattern);
    law_normalizing_again_settles(normal_form(pattern));
    law_settled_is_kept(normal_form(normal_form(pattern)));
}

proof fn lemma_choiceless_settles(pattern: PatternView)
    requires
        is_choiceless(pattern),
    ensures
        is_settled_choice(normal_form(pattern)),
    decreases pattern,
{
    if let PatternView::Concatenation(list) = pattern {
        let forms = normal_forms(list);
        assert forall|i: int| 0 <= i < forms.len() implies is_settled_choice(#[trigger] forms[i])
            && is_flat(forms[i]) by {
            assert(is_choiceless(list[i]));
            lemma_choiceless_settles(list[i]);
        }
        if any_alternatives(forms) {
            let i = choose|i: int| 0 <= i < forms.len() && #[trigger] forms[i] is Alternatives;
            assert(is_settled_choice(forms[i]));
        }
        assert(is_merged(Seq::empty()));
        lemma_merging_flat(Seq::empty(), forms);
        lemma_joined_settled(merged_parts(Seq::empty(), forms));
    }
}

/// Whether no concatenation in `pattern` holds alternatives.
pub open spec fn is_choice_first(pattern: PatternView) -> bool
    decreases pattern,
{
    match pattern {
        PatternView::Constant(_) => true,
        PatternView::Dynamic => true,
        PatternView::Alternatives(list) => all_choice_first(list),
        PatternView::Concatenation(list) => all_choiceless(list),
    }
}

/// Whether no concatenation in the patterns of `list` holds alternatives.
pub open spec fn all_choice_first(list: Seq<PatternView>) -> bool
    decreases list,
{
    forall|i: int| 0 <= i < list.len() ==> is_choice_first(#[trigger] list[i])
}

/// The choices of settled patterns are settled.
proof fn lemma_all_choices_settled(list: Seq<PatternView>)
    requires
        forall|i: int| 0 <= i < list.len() ==> is_settled(#[trigger] list[i]),
    ensures
        forall|i: int|
            0 <= i < all_choices(list).len() ==> is_settled_choice(
                #[trigger] all_choices(list)[i],
            ),
    decreases list.len(),
{
    if list.len() > 0 {
        let front = list.drop_last();
        let last = list[list.len() - 1];
        let before = all_choices(front);
        let all = all_choices(list);
        assert forall|i: int| 0 <= i < front.len() implies is_settled(#[trigger] front[i]) by {
            assert(is_settled(list[i]));
        }
        lemma_all_choices_settled(front);
        assert forall|i: int| 0 <= i < all.len() implies is_settled_choice(#[trigger] all[i]) by {
            if i < before.len() {
                assert(all[i] == before[i]);
            } else {
                assert(is_settled(last));
                assert(all[i] == choices(last)[i - before.len()]);
            }
        }
    }
}

proof fn lemma_choice_first_settles(pattern: PatternView)
    requires
        is_choice_first(pattern),
    ensures
        is_settled(normal_form(pattern)),
    decreases pattern,
{
    if let PatternView::Alternatives(list) = pattern {
        let forms = normal_forms(list);
        assert forall|i: int| 0 <= i < forms.len() implies is_settled(#[trigger] forms[i]) by {
            assert(is_choice_first(list[i]));
            lemma_choice_first_settles(list[i]);
        }
        lemma_all_choices_settled(forms);
    } else {
        lemma_choiceless_settles(pattern);
    }
}

/// Where no concatenation holds alternatives, normalizing merges all there is to merge, and
/// doing it again changes nothing.
pub proof fn law_normalizing_merges(pattern: PatternView)
    requires
        is_choice_first(pattern),
    ensures
        is_settled(normal_form(pattern)),
        normal_form(normal_form(pattern)) == normal_form(pattern),
{
    lemma_choice_first_settles(pattern);
    law_settled_is_kept(normal_form(pattern));
}

/// Whether none of `list` is a concatenation.
spec fn all_single(list: Seq<PatternView>) -> bool {
    forall|i: int| 0 <= i < list.len() ==> !(#[trigger] list[i] is Concatenation)
}

/// Whether `any_offset`, where there is one, is a position in `value`.
spec fn is_offset(value: Seq<char>, any_offset: Option<int>) -> bool {
    any_offset matches Some(offset) ==> 0 <= offset <= value.len()
}

/// Whether `b` leaves at least the freedom that `a` does: where `a` has used up its pattern,
/// so has `b`, with the same text left and possibly a dynamic part that may run on.
spec fn is_as_free(a: Outcome, b: Outcome) -> bool {
    a matches Outcome::Consumed { remaining, any_offset } ==> {
        &&& is_offset(remaining, any_offset)
        &&& b matches Outcome::Consumed { remaining: left, any_offset: further }
        &&& left == remaining
        &&& further == any_offset || any_offset is None && is_offset(left, further)
    }
}

/// Whether reading along `b` leaves at least the freedom that reading along `a` does.
spec fn reads_as_freely(a: Seq<PatternView>, b: Seq<PatternView>) -> bool {
    forall|value: Seq<char>, any_offset: Option<int>|
        is_offset(value, any_offset) ==> is_as_free(
            #[trigger] parts_outcome(a, value, any_offset),
            parts_outcome(b, value, any_offset),
        )
}

/// One part more keeps the freedom.
proof fn lemma_part_as_free(
    part: PatternView,
    value: Seq<char>,
    any_offset: Option<int>,
    further: Option<int>,
)
    requires
        !(part is Concatenation),
        is_offset(value, any_offset),
        further == any_offset || any_offset is None && is_offset(value, further),
    ensures
        is_as_free(outcome(part, value, any_offset), outcome(part, value, further)),
{
    match part {
        PatternView::Constant(constant) => {
            lemma_find_from(value, constant, 0);
            if has_prefix(value, constant) {
                assert(value.subrange(0, constant.len() as int) =~= value.take(
                    constant.len() as int,
                ));
                assert(occurs_at(value, constant, 0));
            }
        },
        _ => {
            lemma_barrier_from(value, true, 0);
        },
    }
}

/// More parts keep the freedom.
proof fn lemma_parts_as_free(
    list: Seq<PatternView>,
    value: Seq<char>,
    any_offset: Option<int>,
    further: Option<int>,
)
    requires
        all_single(list),
        is_offset(value, any_offset),
        further == any_offset || any_offset is None && is_offset(value, further),
    ensures
        is_as_free(parts_outcome(list, value, any_offset), parts_outcome(list, value, further)),
    decreases list.len(),
{
    if list.len() > 0 {
        let rest = list.drop_first();
        assert(!(list[0] is Concatenation));
        assert forall|i: int| 0 <= i < rest.len() implies !(#[trigger] rest[i] is Concatenation) by {
            assert(!(list[i + 1] is Concatenation));
        }
        lemma_part_as_free(list[0], value, any_offset, further);
        if let Outcome::Consumed { remaining, any_offset: offset } = outcome(
            list[0],
            value,
            any_offset,
        ) {
            let after = outcome(list[0], value, further);
            lemma_parts_as_free(rest, remaining, offset, after->any_offset);
        }
    }
}

/// Two lists, each read as freely as another, in a row.
proof fn lemma_freely_add(
    a: Seq<PatternView>,
    b: Seq<PatternView>,
    c: Seq<PatternView>,
    d: Seq<PatternView>,
)
    requires
        reads_as_freely(a, c),
        reads_as_freely(b, d),
        all_single(b),
    ensures
        reads_as_freely(a + b, c + d),
{
    assert forall|value: Seq<char>, any_offset: Option<int>| is_offset(
        value,
        any_offset,
    ) implies is_as_free(
        #[trigger] parts_outcome(a + b, value, any_offset),
        parts_outcome(c + d, value, any_offset),
    ) by {
        lemma_parts_outcome_add(a, b, value, any_offset);
        lemma_parts_outcome_add(c, d, value, any_offset);
        let first = parts_outcome(a, value, any_offset);
        let second = parts_outcome(c, value, any_offset);
        assert(is_as_free(first, second));
        if let Outcome::Consumed { remaining, any_offset: offset } = first {
            let further = second->any_offset;
            lemma_parts_as_free(b, remaining, offset, further);
            assert(is_as_free(
                parts_outcome(b, remaining, further),
                parts_outcome(d, remaining, further),
            ));
        }
    }
}

proof fn lemma_freely_self(a: Seq<PatternView>)
    requires
        all_single(a),
    ensures
        reads_as_freely(a, a),
{
    assert forall|value: Seq<char>, any_offset: Option<int>| is_offset(
        value,
        any_offset,
    ) implies is_as_free(
        #[trigger] parts_outcome(a, value, any_offset),
        parts_outcome(a, value, any_offset),
    ) by {
        lemma_parts_as_free(a, value, any_offset, any_offset);
    }
}

proof fn lemma_freely_transitive(a: Seq<PatternView>, b: Seq<PatternView>, c: Seq<PatternView>)
    requires
        reads_as_freely(a, b),
        reads_as_freely(b, c),
    ensures
        reads_as_freely(a, c),
{
    assert forall|value: Seq<char>, any_offset: Option<int>| is_offset(
        value,
        any_offset,
    ) implies is_as_free(
        #[trigger] parts_outcome(a, value, any_offset),
        parts_outcome(c, value, any_offset),
    ) by {
        assert(is_as_free(
            parts_outcome(b, value, any_offset),
            parts_outcome(c, value, any_offset),
        ));
    }
}

proof fn lemma_one_outcome(part: PatternView, value: Seq<char>, any_offset: Option<int>)
    ensures
        parts_outcome(seq![part], value, any_offset) == outcome(part, value, any_offset),
{
    let one = seq![part];
    assert(one.drop_first() =~= Seq::empty());
    assert(one[0] == part);
    if let Outcome::Consumed { remaining, any_offset: offset } = outcome(part, value, any_offset) {
        assert(parts_outcome(one.drop_first(), remaining, offset) == outcome(
            part,
            value,
            any_offset,
        ));
    }
}

proof fn lemma_two_outcome(
    first: PatternView,
    second: PatternView,
    value: Seq<char>,
    any_offset: Option<int>,
)
    ensures
        parts_outcome(seq![first, second], value, any_offset) == match outcome(
            first,
            value,
            any_offset,
        ) {
            Outcome::Consumed { remaining, any_offset: offset } => outcome(
                second,
                remaining,
                offset,
            ),
            other => other,
        },
{
    assert(seq![first, second] =~= seq![first] + seq![second]);
    lemma_parts_outcome_add(seq![first], seq![second], value, any_offset);
    lemma_one_outcome(first, value, any_offset);
    if let Outcome::Consumed { remaining, any_offset: offset } = outcome(first, value, any_offset) {
        lemma_one_outcome(second, remaining, offset);
    }
}

/// Two constants in a row are no more free than the one constant that they make.
proof fn lemma_constants_freely(a: Seq<char>, b: Seq<char>)
    ensures
        reads_as_freely(
            seq![PatternView::Constant(a), PatternView::Constant(b)],
            seq![PatternView::Constant(a + b)],
        ),
{
    let (first, second) = (PatternView::Constant(a), PatternView::Constant(b));
    let both = PatternView::Constant(a + b);
    let two = seq![first, second];
    assert forall|value: Seq<char>, any_offset: Option<int>| is_offset(
        value,
        any_offset,
    ) implies is_as_free(
        #[trigger] parts_outcome(two, value, any_offset),
        parts_outcome(seq![both], value, any_offset),
    ) by {
        lemma_two_outcome(first, second, value, any_offset);
        lemma_one_outcome(both, value, any_offset);
        lemma_find_from(value, a, 0);
        lemma_find_from(value, a + b, 0);
        let index = match any_offset {
            Some(_) => find_in(value, a)->0,
            None => 0,
        };
        if parts_outcome(two, value, any_offset) is Consumed {
            let left = value.skip(index + a.len());
            assert(has_prefix(left, b));
            let n = index + (a + b).len();
            assert(value.subrange(index, index + a.len()) =~= a) by {
                assert(any_offset is None ==> value.take(a.len() as int) =~= value.subrange(
                    0,
                    a.len() as int,
                ));
            }
            assert(value.subrange(index, n) =~= a + left.take(b.len() as int));
            assert(occurs_at(value, a + b, index));
            assert(left.skip(b.len() as int) =~= value.skip(n));
            match any_offset {
                Some(_) => {
                    let at = find_in(value, a + b)->0;
                    assert(value.subrange(at, at + a.len()) =~= value.subrange(
                        at,
                        at + (a + b).len(),
                    ).take(a.len() as int));
                    assert((a + b).take(a.len() as int) =~= a);
                    assert(occurs_at(value, a, at));
                    assert(at == index);
                },
                None => {
                    assert(value.take(n) =~= value.subrange(0, n));
                },
            }
        }
    }
}

/// Merging an atom into a list leaves at least the freedom that adding it does.
proof fn lemma_merged_freely(list: Seq<PatternView>, part: PatternView)
    requires
        all_atoms(list),
        is_atom(part),
    ensures
        reads_as_freely(list.push(part), merged_part(list, part)),
{
    let all = list.push(part);
    assert(all =~= list + seq![part]);
    assert(all_single(list)) by {
        assert forall|i: int| 0 <= i < list.len() implies !(#[trigger] list[i]
            is Concatenation) by {
            assert(is_atom(list[i]));
        }
    }
    assert(all_single(all)) by {
        assert forall|i: int| 0 <= i < all.len() implies !(#[trigger] all[i] is Concatenation) by {
            if i < list.len() {
                assert(is_atom(list[i]));
            }
        }
    }
    let front = list.drop_last();
    if list.len() > 0 {
        let last = list[list.len() - 1];
        assert(is_atom(last));
        assert(list =~= front + seq![last]);
        assert(all =~= front + seq![last, part]);
        assert forall|i: int| 0 <= i < front.len() implies !(#[trigger] front[i]
            is Concatenation) by {
            assert(!(list[i] is Concatenation));
        }
        assert(all_single(seq![last, part]));
        lemma_freely_self(front);
    }
    match part {
        PatternView::Constant(constant) => {
            if constant.len() == 0 {
                assert forall|value: Seq<char>, any_offset: Option<int>| is_offset(
                    value,
                    any_offset,
                ) implies is_as_free(
                    #[trigger] parts_outcome(all, value, any_offset),
                    parts_outcome(list, value, any_offset),
                ) by {
                    lemma_parts_outcome_add(list, seq![part], value, any_offset);
                    lemma_parts_as_free(list, value, any_offset, any_offset);
                    if let Outcome::Consumed { remaining, any_offset: offset } = parts_outcome(
                        list,
                        value,
                        any_offset,
                    ) {
                        lemma_one_outcome(part, remaining, offset);
                        lemma_find_from(remaining, constant, 0);
                        assert(remaining.subrange(0, 0) =~= constant);
                        assert(occurs_at(remaining, constant, 0));
                        assert(remaining.take(0) =~= constant);
                        assert(remaining.skip(0) =~= remaining);
                    }
                }
            } else if list.len() > 0 && list.last() is Constant {
                let before = list.last()->Constant_0;
                lemma_constants_freely(before, constant);
                lemma_freely_add(
                    front,
                    seq![list.last(), part],
                    front,
                    seq![PatternView::Constant(before + constant)],
                );
                assert(merged_part(list, part) =~= front + seq![
                    PatternView::Constant(before + constant),
                ]);
            } else {
                lemma_freely_self(all);
            }
        },
        _ => {
            if list.len() > 0 && list.last() is Dynamic {
                let two = seq![list.last(), part];
                assert forall|value: Seq<char>, any_offset: Option<int>| is_offset(
                    value,
                    any_offset,
                ) implies is_as_free(
                    #[trigger] parts_outcome(two, value, any_offset),
                    parts_outcome(seq![list.last()], value, any_offset),
                ) by {
                    lemma_two_outcome(list.last(), part, value, any_offset);
                    lemma_one_outcome(list.last(), value, any_offset);
                    lemma_barrier_from(value, true, 0);
                }
                lemma_freely_add(front, two, front, seq![list.last()]);
            } else {
                lemma_freely_self(all);
            }
        },
    }
}

/// The parts in a row of a list with one more pattern at its end.
proof fn lemma_all_flattened_push(list: Seq<PatternView>, last: PatternView)
    ensures
        all_flattened(list.push(last)) == all_flattened(list) + flattened(last),
    decreases list.len(),
{
    let all = list.push(last);
    if list.len() == 0 {
        assert(all.drop_first() =~= Seq::empty());
        assert(all_flattened(all.drop_first()) =~= Seq::empty());
        assert(all_flattened(all) =~= all_flattened(list) + flattened(last));
    } else {
        assert(all.drop_first() =~= list.drop_first().push(last));
        lemma_all_flattened_push(list.drop_first(), last);
        assert(all_flattened(all) =~= all_flattened(list) + flattened(last));
    }
}

/// Merging patterns into a list leaves at least the freedom that adding their parts does.
proof fn lemma_all_merged_freely(list: Seq<PatternView>, more: Seq<PatternView>)
    requires
        all_atoms(list),
        forall|i: int| 0 <= i < more.len() ==> is_flat(#[trigger] more[i]),
    ensures
        all_atoms(merged_parts(list, more)),
        reads_as_freely(list + all_flattened(more), merged_parts(list, more)),
    decreases more,
{
    if more.len() == 0 {
        assert(list + all_flattened(more) =~= list);
        assert(all_single(list)) by {
            assert forall|i: int| 0 <= i < list.len() implies !(#[trigger] list[i]
                is Concatenation) by {
                assert(is_atom(list[i]));
            }
        }
        lemma_freely_self(list);
    } else {
        let front = more.drop_last();
        let last = more[more.len() - 1];
        assert(is_flat(last));
        assert(more =~= front.push(last));
        lemma_all_merged_freely(list, front);
        lemma_all_flattened_push(front, last);
        let so_far = list + all_flattened(front);
        let before = merged_parts(list, front);
        let added = flattened(last);
        assert(list + all_flattened(more) =~= so_far + added);
        lemma_flattened(last);
        assert(all_single(added));
        lemma_freely_self(added);
        lemma_freely_add(so_far, added, before, added);
        if let PatternView::Concatenation(parts_of_last) = last {
            assert(parts(last) == parts_of_last);
            assert forall|i: int| 0 <= i < parts_of_last.len() implies is_flat(
                #[trigger] parts_of_last[i],
            ) by {
                assert(is_atom(parts(last)[i]));
            }
            lemma_all_merged_freely(before, parts_of_last);
            assert(merged_part(before, last) == merged_parts(before, parts_of_last));
            assert(added == all_flattened(parts_of_last));
            lemma_freely_transitive(so_far + added, before + added, merged_parts(list, more));
        } else {
            assert(is_atom(parts(last)[0]));
            assert(before + added =~= before.push(last));
            lemma_merged_freely(before, last);
            lemma_merged_atom(before, last);
            lemma_freely_transitive(so_far + added, before + added, merged_parts(list, more));
        }
    }
}

/// Reading along the normal form of a pattern without alternatives leaves at least the freedom
/// that reading along the pattern does.
proof fn lemma_normal_form_freely(pattern: PatternView)
    requires
        is_choiceless(pattern),
    ensures
        reads_as_freely(flattened(pattern), flattened(normal_form(pattern))),
    decreases pattern,
{
    lemma_flattened(pattern);
    if let PatternView::Concatenation(list) = pattern {
        let forms = normal_forms(list);
        lemma_normal_forms_freely(list);
        assert forall|i: int| 0 <= i < forms.len() implies is_flat(#[trigger] forms[i]) && !(
        forms[i] is Alternatives) by {
            assert(is_choiceless(list[i]));
            lemma_choiceless_settles(list[i]);
        }
        assert(!any_alternatives(forms));
        let none = Seq::<PatternView>::empty();
        let merged = merged_parts(none, forms);
        lemma_all_merged_freely(none, forms);
        assert(none + all_flattened(forms) =~= all_flattened(forms));
        lemma_freely_transitive(all_flattened(list), all_flattened(forms), merged);
        lemma_atoms_flattened(merged);
        if merged.len() == 1 {
            assert(is_atom(merged[0]));
            assert(seq![merged[0]] =~= merged);
        }
        assert(flattened(joined(merged)) =~= merged);
    } else {
        lemma_freely_self(flattened(pattern));
    }
}

proof fn lemma_normal_forms_freely(list: Seq<PatternView>)
    requires
        all_choiceless(list),
    ensures
        reads_as_freely(all_flattened(list), all_flattened(normal_forms(list))),
    decreases list,
{
    let forms = normal_forms(list);
    if list.len() == 0 {
        assert(forms =~= list);
        lemma_freely_self(all_flattened(list));
    } else {
        let rest = list.drop_first();
        assert(is_choiceless(list[0]));
        assert forall|i: int| 0 <= i < rest.len() implies is_choiceless(#[trigger] rest[i]) by {
            assert(is_choiceless(list[i + 1]));
        }
        lemma_normal_form_freely(list[0]);
        lemma_normal_forms_freely(rest);
        lemma_all_flattened(rest);
        assert(forms.drop_first() =~= normal_forms(rest));
        lemma_freely_add(
            flattened(list[0]),
            all_flattened(rest),
            flattened(forms[0]),
            all_flattened(forms.drop_first()),
        );
    }
}

/// Atoms are the parts that they are.
proof fn lemma_atoms_flattened(list: Seq<PatternView>)
    requires
        all_atoms(list),
    ensures
        all_flattened(list) == list,
    decreases list.len(),
{
    if list.len() > 0 {
        let rest = list.drop_first();
        assert(is_atom(list[0]));
        assert forall|i: int| 0 <= i < rest.len() implies is_atom(#[trigger] rest[i]) by {
            assert(is_atom(list[i + 1]));
        }
        lemma_atoms_flattened(rest);
        assert(flattened(list[0]) =~= seq![list[0]]);
    }
    assert(all_flattened(list) =~= list);
}

/// A match shows that no alternatives stand inside the choice that matches.
proof fn lemma_match_is_choiceless(pattern: PatternView, value: Seq<char>, any_offset: Option<int>)
    requires
        outcome(pattern, value, any_offset) is Consumed,
    ensures
        is_choiceless(pattern),
    decreases pattern,
{
    if let PatternView::Concatenation(list) = pattern {
        lemma_matches_are_choiceless(list, value, any_offset);
    }
}

proof fn lemma_matches_are_choiceless(
    list: Seq<PatternView>,
    value: Seq<char>,
    any_offset: Option<int>,
)
    requires
        parts_outcome(list, value, any_offset) is Consumed,
    ensures
        all_choiceless(list),
    decreases list,
{
    if list.len() > 0 {
        lemma_match_is_choiceless(list[0], value, any_offset);
        if let Outcome::Consumed { remaining, any_offset: offset } = outcome(
            list[0],
            value,
            any_offset,
        ) {
            lemma_matches_are_choiceless(list.drop_first(), remaining, offset);
        }
        assert forall|i: int| 0 <= i < list.len() implies is_choiceless(#[trigger] list[i]) by {
            if i > 0 {
                assert(is_choiceless(list.drop_first()[i - 1]));
            }
        }
    }
}

/// A choice among those of a list is a choice of one of its patterns.
proof fn lemma_all_choices_hold(list: Seq<PatternView>, i: int) -> (j: int)
    requires
        0 <= i < list.len(),
        !(list[i] is Alternatives),
    ensures
        0 <= j < all_choices(list).len(),
        all_choices(list)[j] == list[i],
    decreases list.len(),
{
    let before = all_choices(list.drop_last());
    if i == list.len() - 1 {
        before.len() as int
    } else {
        let j = lemma_all_choices_hold(list.drop_last(), i);
        assert(all_choices(list)[j] == before[j]);
        j
    }
}

/// Normalizing loses no match: what matches a pattern matches its normal form.
pub proof fn law_normalizing_loses_no_match(pattern: PatternView, value: Seq<char>)
    requires
        answers(pattern, Query::Match, value),
    ensures
        answers(normal_form(pattern), Query::Match, value),
{
    let list = choices(pattern);
    let i = choose|i: int|
        0 <= i < list.len() && #[trigger] answers_at(pattern, Query::Match, value, i);
    let choice = list[i];
    let form = normal_form(choice);
    lemma_match_is_choiceless(choice, value, None);
    lemma_choiceless_settles(choice);
    lemma_normal_form_freely(choice);
    law_nesting_is_no_matter(choice, value, None);
    law_nesting_is_no_matter(form, value, None);
    assert(is_as_free(
        parts_outcome(flattened(choice), value, None),
        parts_outcome(flattened(form), value, None),
    ));
    assert(outcome(form, value, None).is_match());
    match pattern {
        PatternView::Alternatives(alternatives) => {
            let forms = normal_forms(alternatives);
            assert(forms[i] == form);
            let j = lemma_all_choices_hold(forms, i);
            assert(answers_at(normal_form(pattern), Query::Match, value, j));
        },
        _ => {
            assert(choices(form)[0] == form);
            assert(answers_at(normal_form(pattern), Query::Match, value, 0));
        },
    }
}

/// The signs of `parts` in a row: each character of a constant, and one sign for a dynamic part.
pub open spec fn signs(parts: Seq<PatternView>) -> Seq<Option<char>>
    decreases parts.len(),
{
    if parts.len() == 0 {
        Seq::empty()
    } else {
        signs(parts.drop_last()) + match parts.last() {
            PatternView::Constant(c) => Seq::new(c.len(), |i: int| Some(c[i])),
            PatternView::Dynamic => seq![None],
            _ => Seq::empty(),
        }
    }
}

/// `row` with the signs of `more` at its end, where no dynamic sign comes right behind another.
pub open spec fn squeezed_onto(row: Seq<Option<char>>, more: Seq<Option<char>>) -> Seq<Option<char>>
    decreases more.len(),
{
    if more.len() == 0 {
        row
    } else {
        let before = squeezed_onto(row, more.drop_last());
        if more.last() is None && before.len() > 0 && before.last() is None {
            before
        } else {
            before.push(more.last())
        }
    }
}

proof fn lemma_squeezed_add(
    row: Seq<Option<char>>,
    first: Seq<Option<char>>,
    second: Seq<Option<char>>,
)
    ensures
        squeezed_onto(row, first + second) == squeezed_onto(squeezed_onto(row, first), second),
    decreases second.len(),
{
    if second.len() == 0 {
        assert(first + second =~= first);
    } else {
        lemma_squeezed_add(row, first, second.drop_last());
        assert((first + second).drop_last() =~= first + second.drop_last());
    }
}

proof fn lemma_squeezed_last(row: Seq<Option<char>>, more: Seq<Option<char>>)
    requires
        more.len() > 0,
    ensures
        squeezed_onto(row, more).len() > 0,
        squeezed_onto(row, more).last() == more.last(),
{
}

/// Squeezing what has been squeezed changes nothing.
proof fn lemma_squeezed_twice(row: Seq<Option<char>>, more: Seq<Option<char>>)
    ensures
        squeezed_onto(row, squeezed_onto(Seq::empty(), more)) == squeezed_onto(row, more),
    decreases more.len(),
{
    let none = Seq::<Option<char>>::empty();
    if more.len() > 0 {
        let before = squeezed_onto(none, more.drop_last());
        let last = more.last();
        lemma_squeezed_twice(row, more.drop_last());
        if last is None && before.len() > 0 && before.last() is None {
            lemma_squeezed_last(row, before);
        } else {
            assert(before.push(last).drop_last() =~= before);
            assert(before.push(last).last() == last);
        }
    }
}

proof fn lemma_squeezed_chars(row: Seq<Option<char>>, c: Seq<char>, n: int)
    requires
        0 <= n <= c.len(),
    ensures
        squeezed_onto(row, Seq::new(n as nat, |i: int| Some(c[i]))) == row + Seq::new(
            n as nat,
            |i: int| Some(c[i]),
        ),
    decreases n,
{
    let all = Seq::new(n as nat, |i: int| Some(c[i]));
    if n > 0 {
        lemma_squeezed_chars(row, c, n - 1);
        assert(all.drop_last() =~= Seq::new((n - 1) as nat, |i: int| Some(c[i])));
    }
    assert(squeezed_onto(row, all) =~= row + all);
}

proof fn lemma_signs_add(a: Seq<PatternView>, b: Seq<PatternView>)
    ensures
        signs(a + b) == signs(a) + signs(b),
    decreases b.len(),
{
    if b.len() == 0 {
        assert(a + b =~= a);
        assert(signs(a) + signs(b) =~= signs(a));
    } else {
        lemma_signs_add(a, b.drop_last());
        assert((a + b).drop_last() =~= a + b.drop_last());
        assert(signs(a + b) =~= signs(a) + signs(b));
    }
}

/// The signs of a merged list end in a dynamic sign where the list ends in a dynamic part.
proof fn lemma_last_sign(list: Seq<PatternView>)
    requires
        is_merged(list),
    ensures
        (signs(list).len() > 0 && signs(list).last() is None) == (list.len() > 0 && list.last()
            is Dynamic),
{
    if list.len() > 0 {
        let last = list[list.len() - 1];
        assert(is_atom(last));
        if let PatternView::Constant(c) = last {
            assert(c.len() > 0);
        }
    }
}

/// Merging an atom squeezes its signs onto those that are there.
proof fn lemma_merged_signs(list: Seq<PatternView>, part: PatternView)
    requires
        is_merged(list),
        is_atom(part),
    ensures
        signs(merged_part(list, part)) == squeezed_onto(signs(list), signs(seq![part])),
{
    let row = signs(list);
    let one = seq![part];
    assert(one.drop_last() =~= Seq::empty());
    assert(signs(one.drop_last()) =~= Seq::empty());
    assert(one.last() == part);
    lemma_last_sign(list);
    match part {
        PatternView::Constant(c) => {
            let chars = Seq::new(c.len(), |i: int| Some(c[i]));
            lemma_squeezed_chars(row, c, c.len() as int);
            assert(signs(one) =~= chars);
            if c.len() == 0 {
                assert(row + chars =~= row);
            } else if list.len() > 0 && list.last() is Constant {
                let b = list.last()->Constant_0;
                let res = merged_part(list, part);
                assert(res.drop_last() =~= list.drop_last());
                assert(res.last() == PatternView::Constant(b + c));
                let both = Seq::new((b + c).len(), |i: int| Some((b + c)[i]));
                assert(both =~= Seq::new(b.len(), |i: int| Some(b[i])) + chars);
                assert(signs(res) =~= row + chars);
            } else {
                assert(list.push(part).drop_last() =~= list);
                assert(signs(list.push(part)) =~= row + chars);
            }
        },
        _ => {
            let none = seq![None::<char>];
            assert(signs(one) =~= none);
            assert(none.drop_last() =~= Seq::empty());
            assert(squeezed_onto(row, none.drop_last()) == row);
            if !(list.len() > 0 && list.last() is Dynamic) {
                assert(list.push(part).drop_last() =~= list);
                assert(signs(list.push(part)) =~= row + none);
                assert(row.push(None) =~= row + none);
            }
        },
    }
}

/// Merging patterns squeezes the signs of their parts onto those that are there.
proof fn lemma_all_merged_signs(list: Seq<PatternView>, more: Seq<PatternView>)
    requires
        is_merged(list),
        forall|i: int| 0 <= i < more.len() ==> is_flat(#[trigger] more[i]),
    ensures
        is_merged(merged_parts(list, more)),
        signs(merged_parts(list, more)) == squeezed_onto(signs(list), signs(all_flattened(more))),
    decreases more,
{
    if more.len() > 0 {
        let front = more.drop_last();
        let last = more[more.len() - 1];
        let before = merged_parts(list, front);
        assert(is_flat(last));
        assert(more =~= front.push(last));
        lemma_all_merged_signs(list, front);
        lemma_all_flattened_push(front, last);
        lemma_signs_add(all_flattened(front), flattened(last));
        lemma_squeezed_add(signs(list), signs(all_flattened(front)), signs(flattened(last)));
        if let PatternView::Concatenation(inner) = last {
            assert(parts(last) == inner);
            assert forall|i: int| 0 <= i < inner.len() implies is_flat(#[trigger] inner[i]) by {
                assert(is_atom(parts(last)[i]));
            }
            lemma_all_merged_signs(before, inner);
            assert(merged_part(before, last) == merged_parts(before, inner));
            assert(flattened(last) == all_flattened(inner));
        } else {
            assert(is_atom(parts(last)[0]));
            lemma_merging_atom(before, last);
            lemma_merged_signs(before, last);
            assert(flattened(last) =~= seq![last]);
        }
    }
}

/// Normalizing a pattern without alternatives keeps the characters of its constants and its
/// dynamic parts in their order, where dynamic parts right behind each other become one. A
/// single constant or dynamic part stays as it is, and no concatenation becomes an empty
/// constant.
pub proof fn law_normalizing_keeps_the_signs(pattern: PatternView)
    requires
        is_choiceless(pattern),
    ensures
        !(pattern is Concatenation) ==> normal_form(pattern) == pattern,
        pattern is Concatenation ==> normal_form(pattern) != PatternView::Constant(Seq::empty()),
        signs(flattened(normal_form(pattern))) == squeezed_onto(
            Seq::empty(),
            signs(flattened(pattern)),
        ),
        is_settled_choice(normal_form(pattern)),
    decreases pattern,
{
    let none = Seq::<PatternView>::empty();
    lemma_choiceless_settles(pattern);
    if let PatternView::Concatenation(list) = pattern {
        let forms = normal_forms(list);
        lemma_forms_keep_the_signs(list, Seq::empty());
        assert forall|i: int| 0 <= i < forms.len() implies is_flat(#[trigger] forms[i]) && !(
        forms[i] is Alternatives) by {
            assert(is_choiceless(list[i]));
            lemma_choiceless_settles(list[i]);
        }
        assert(!any_alternatives(forms));
        assert(is_merged(none));
        lemma_all_merged_signs(none, forms);
        let merged = merged_parts(none, forms);
        lemma_atoms_flattened(merged);
        if merged.len() == 1 {
            assert(is_atom(merged[0]));
            assert(seq![merged[0]] =~= merged);
        }
        assert(flattened(joined(merged)) =~= merged);
    } else {
        let one = seq![pattern];
        assert(is_merged(none));
        lemma_merged_signs(none, pattern);
        assert(signs(none) =~= Seq::empty());
        lemma_squeezed_once(pattern);
    }
}

/// The signs of a single part cannot be squeezed.
proof fn lemma_squeezed_once(part: PatternView)
    requires
        is_atom(part),
    ensures
        squeezed_onto(Seq::empty(), signs(seq![part])) == signs(seq![part]),
{
    let one = seq![part];
    let none = Seq::<Option<char>>::empty();
    assert(one.drop_last() =~= Seq::empty());
    assert(signs(one.drop_last()) =~= none);
    assert(one.last() == part);
    match part {
        PatternView::Constant(c) => {
            let chars = Seq::new(c.len(), |i: int| Some(c[i]));
            assert(signs(one) =~= chars);
            lemma_squeezed_chars(none, c, c.len() as int);
            assert(none + chars =~= chars);
        },
        _ => {
            let sign = seq![None::<char>];
            assert(signs(one) =~= sign);
            assert(sign.drop_last() =~= none);
            assert(squeezed_onto(none, sign.drop_last()) == none);
            assert(squeezed_onto(none, sign) =~= sign);
        },
    }
}

proof fn lemma_forms_keep_the_signs(list: Seq<PatternView>, row: Seq<Option<char>>)
    requires
        all_choiceless(list),
    ensures
        squeezed_onto(row, signs(all_flattened(normal_forms(list)))) == squeezed_onto(
            row,
            signs(all_flattened(list)),
        ),
    decreases list,
{
    let forms = normal_forms(list);
    if list.len() == 0 {
        assert(forms =~= list);
    } else {
        let rest = list.drop_first();
        assert(is_choiceless(list[0]));
        assert forall|i: int| 0 <= i < rest.len() implies is_choiceless(#[trigger] rest[i]) by {
            assert(is_choiceless(list[i + 1]));
        }
        assert(forms.drop_first() =~= normal_forms(rest));
        let (a, b) = (signs(flattened(list[0])), signs(all_flattened(rest)));
        let (c, d) = (signs(flattened(forms[0])), signs(all_flattened(forms.drop_first())));
        law_normalizing_keeps_the_signs(list[0]);
        lemma_squeezed_twice(row, a);
        lemma_forms_keep_the_signs(rest, squeezed_onto(row, a));
        lemma_squeezed_add(row, a, b);
        lemma_squeezed_add(row, c, d);
        lemma_signs_add(flattened(list[0]), all_flattened(rest));
        lemma_signs_add(flattened(forms[0]), all_flattened(forms.drop_first()));
    }
}

/// The normal form is a choice if and only if alternatives stand somewhere in the pattern.
pub proof fn law_normal_form_is_a_choice(pattern: PatternView)
    ensures
        (normal_form(pattern) is Alternatives) == !is_choiceless(pattern),
    decreases pattern,
{
    if is_choiceless(pattern) {
        lemma_choiceless_settles(pattern);
    } else if let PatternView::Concatenation(list) = pattern {
        let i = choose|i: int| 0 <= i < list.len() && !is_choiceless(#[trigger] list[i]);
        law_normal_form_is_a_choice(list[i]);
        assert(normal_forms(list)[i] is Alternatives);
    }
}

/// The choices of alternatives are normalized one by one and stand in their order, where those
/// of alternatives inside take their place.
pub proof fn law_alternatives_are_normalized_one_by_one(
    first: Seq<PatternView>,
    second: Seq<PatternView>,
    pattern: PatternView,
)
    ensures
        normal_form(PatternView::Alternatives(Seq::empty())) == PatternView::Alternatives(
            Seq::empty(),
        ),
        normal_form(PatternView::Alternatives(seq![pattern])) == (match normal_form(pattern) {
            PatternView::Alternatives(list) => PatternView::Alternatives(list),
            form => PatternView::Alternatives(seq![form]),
        }),
        match (
            normal_form(PatternView::Alternatives(first)),
            normal_form(PatternView::Alternatives(second)),
        ) {
            (PatternView::Alternatives(a), PatternView::Alternatives(b)) => normal_form(
                PatternView::Alternatives(first + second),
            ) == PatternView::Alternatives(a + b),
            _ => false,
        },
{
    let none = Seq::<PatternView>::empty();
    assert(normal_forms(none) =~= none);
    assert(all_choices(normal_forms(none)) =~= none);
    let one = seq![pattern];
    assert(normal_forms(one) =~= seq![normal_form(pattern)]);
    lemma_all_choices_one(normal_form(pattern));
    assert(normal_forms(first + second) =~= normal_forms(first) + normal_forms(second));
    lemma_all_choices_add(normal_forms(first), normal_forms(second));
}

/// In how many ways one choice can be taken from the normal form of each pattern of `list`.
pub open spec fn ways(list: Seq<PatternView>) -> int
    decreases list.len(),
{
    if list.len() == 0 {
        1
    } else {
        ways(list.drop_last()) * choices(normal_form(list.last())).len()
    }
}

/// Whether `picks` names a choice of the normal form of each pattern of `list`.
pub open spec fn is_pick(list: Seq<PatternView>, picks: Seq<int>) -> bool {
    &&& picks.len() == list.len()
    &&& forall|j: int|
        0 <= j < list.len() ==> 0 <= #[trigger] picks[j] < choices(normal_form(list[j])).len()
}

/// The place of a pick among all, where the pick from the first pattern changes fastest.
pub open spec fn pick_place(list: Seq<PatternView>, picks: Seq<int>) -> int
    decreases list.len(),
{
    if list.len() == 0 {
        0
    } else {
        pick_place(list.drop_last(), picks.drop_last()) + picks.last() * ways(list.drop_last())
    }
}

/// The parts of the picked choices in a row.
pub open spec fn picked_parts(list: Seq<PatternView>, picks: Seq<int>) -> Seq<PatternView>
    decreases list.len(),
{
    if list.len() == 0 {
        Seq::empty()
    } else {
        picked_parts(list.drop_last(), picks.drop_last()) + parts(
            choices(normal_form(list.last()))[picks.last()],
        )
    }
}

proof fn lemma_extended_place(
    prefixes: Seq<Seq<PatternView>>,
    tails: Seq<PatternView>,
    i: int,
    t: int,
)
    requires
        0 <= i < prefixes.len(),
        0 <= t < tails.len(),
    ensures
        extended_by_all(prefixes, tails).len() == prefixes.len() * tails.len(),
        0 <= i + t * prefixes.len() < prefixes.len() * tails.len(),
        extended_by_all(prefixes, tails)[i + t * prefixes.len()] == prefixes[i] + parts(tails[t]),
    decreases tails.len(),
{
    let n = prefixes.len() as int;
    let m = tails.len() as int;
    let front = tails.drop_last();
    let before = extended_by_all(prefixes, front);
    lemma_extended_len(prefixes, tails);
    lemma_extended_len(prefixes, front);
    assert(0 <= i + t * n < n * m) by (nonlinear_arith)
        requires
            0 <= i < n,
            0 <= t < m,
    ;
    assert(n * m == n * (m - 1) + n) by (nonlinear_arith);
    if t == m - 1 {
        assert(t * n == n * (m - 1)) by (nonlinear_arith)
            requires
                t == m - 1,
        ;
        assert(extended_by(prefixes, tails.last())[i] == prefixes[i] + parts(tails.last()));
    } else {
        lemma_extended_place(prefixes, front, i, t);
        assert(front[t] == tails[t]);
    }
}

proof fn lemma_extended_len(prefixes: Seq<Seq<PatternView>>, tails: Seq<PatternView>)
    ensures
        extended_by_all(prefixes, tails).len() == prefixes.len() * tails.len(),
    decreases tails.len(),
{
    let (n, m) = (prefixes.len() as int, tails.len() as int);
    if m > 0 {
        lemma_extended_len(prefixes, tails.drop_last());
        assert(n * m == n * (m - 1) + n) by (nonlinear_arith);
    } else {
        assert(n * m == 0) by (nonlinear_arith)
            requires
                m == 0,
        ;
    }
}

proof fn lemma_ways(list: Seq<PatternView>)
    ensures
        combinations(normal_forms(list)).len() == ways(list),
    decreases list.len(),
{
    let forms = normal_forms(list);
    if list.len() > 0 {
        assert(forms.drop_last() =~= normal_forms(list.drop_last()));
        assert(forms.last() == normal_form(list.last()));
        lemma_ways(list.drop_last());
        lemma_extended_len(combinations(forms.drop_last()), choices(forms.last()));
    }
}

proof fn lemma_picked(list: Seq<PatternView>, picks: Seq<int>)
    requires
        is_pick(list, picks),
    ensures
        0 <= pick_place(list, picks) < ways(list),
        combinations(normal_forms(list))[pick_place(list, picks)] == picked_parts(list, picks),
    decreases list.len(),
{
    let forms = normal_forms(list);
    lemma_ways(list);
    if list.len() > 0 {
        let front = list.drop_last();
        let fewer = picks.drop_last();
        let last = picks[picks.len() - 1];
        assert(0 <= last < choices(normal_form(list[list.len() - 1])).len());
        assert forall|j: int| 0 <= j < front.len() implies 0 <= #[trigger] fewer[j] < choices(
            normal_form(front[j]),
        ).len() by {
            assert(0 <= picks[j] < choices(normal_form(list[j])).len());
        }
        assert(forms.drop_last() =~= normal_forms(front));
        assert(forms.last() == normal_form(list.last()));
        lemma_picked(front, fewer);
        lemma_ways(front);
        lemma_extended_place(
            combinations(forms.drop_last()),
            choices(forms.last()),
            pick_place(front, fewer),
            last,
        );
    }
}

/// Where alternatives stand inside a concatenation, there is a choice for every way to take one
/// from the normal form of each part. It has just the parts of what was taken, in their order.
pub proof fn law_every_pick_is_a_choice(list: Seq<PatternView>, picks: Seq<int>)
    requires
        !is_choiceless(PatternView::Concatenation(list)),
        is_pick(list, picks),
    ensures
        match normal_form(PatternView::Concatenation(list)) {
            PatternView::Alternatives(all) => {
                let row = picked_parts(list, picks);
                let choice = all[pick_place(list, picks)];
                &&& all.len() == ways(list)
                &&& 0 <= pick_place(list, picks) < all.len()
                &&& choice == if row.len() == 1 {
                    row[0]
                } else {
                    PatternView::Concatenation(row)
                }
            },
            _ => false,
        },
{
    law_there_is_a_choice_for_each_way(list);
    lemma_picked(list, picks);
    let i = choose|i: int| 0 <= i < list.len() && !is_choiceless(#[trigger] list[i]);
    law_normal_form_is_a_choice(list[i]);
    assert(normal_forms(list)[i] is Alternatives);
}

/// Where alternatives stand inside a concatenation, there are just as many choices as ways to
/// take one from the normal form of each part.
pub proof fn law_there_is_a_choice_for_each_way(list: Seq<PatternView>)
    requires
        !is_choiceless(PatternView::Concatenation(list)),
    ensures
        match normal_form(PatternView::Concatenation(list)) {
            PatternView::Alternatives(all) => all.len() == ways(list),
            _ => false,
        },
{
    let i = choose|i: int| 0 <= i < list.len() && !is_choiceless(#[trigger] list[i]);
    law_normal_form_is_a_choice(list[i]);
    assert(normal_forms(list)[i] is Alternatives);
    lemma_ways(list);
}

/// Every choice that comes of alternatives inside a concatenation is a way to take one from the
/// normal form of each part.
pub proof fn law_every_choice_is_a_pick(list: Seq<PatternView>, k: int) -> (picks: Seq<int>)
    requires
        0 <= k < ways(list),
    ensures
        is_pick(list, picks),
        pick_place(list, picks) == k,
    decreases list.len(),
{
    if list.len() == 0 {
        Seq::empty()
    } else {
        let front = list.drop_last();
        let n = ways(front);
        let m = choices(normal_form(list.last())).len() as int;
        lemma_ways(front);
        assert(n > 0 && m > 0) by (nonlinear_arith)
            requires
                0 <= k < n * m,
                n >= 0,
                m >= 0,
        ;
        let (t, i) = (k / n, k % n);
        assert(0 <= i < n && 0 <= t < m && k == i + t * n) by (nonlinear_arith)
            requires
                0 <= k < n * m,
                n > 0,
                t == k / n,
                i == k % n,
        ;
        let fewer = law_every_choice_is_a_pick(front, i);
        let picks = fewer.push(t);
        assert(picks.drop_last() =~= fewer);
        assert forall|j: int| 0 <= j < list.len() implies 0 <= #[trigger] picks[j] < choices(
            normal_form(list[j]),
        ).len() by {
            if j < front.len() {
                assert(0 <= fewer[j] < choices(normal_form(front[j])).len());
            }
        }
        picks
    }
}

/// A choice of a pattern that holds no alternatives is, in its normal form, a choice of the
/// normal form.
proof fn lemma_choice_of_form(pattern: PatternView, choice: PatternView) -> (at: int)
    requires
        is_choiceless(choice),
        choices(pattern).contains(choice),
    ensures
        0 <= at < choices(normal_form(pattern)).len(),
        choices(normal_form(pattern))[at] == normal_form(choice),
{
    lemma_choiceless_settles(choice);
    let i = choose|i: int| 0 <= i < choices(pattern).len() && choices(pattern)[i] == choice;
    if let PatternView::Alternatives(list) = pattern {
        assert(normal_forms(list)[i] == normal_form(choice));
        lemma_all_choices_hold(normal_forms(list), i)
    } else {
        assert(choices(normal_form(choice))[0] == normal_form(choice));
        0
    }
}

proof fn lemma_picks_of_choices(list: Seq<PatternView>, taken: Seq<PatternView>) -> (picks: Seq<
    int,
>)
    requires
        taken.len() == list.len(),
        all_choiceless(taken),
        forall|j: int|
            0 <= j < list.len() ==> choices(list[j]).contains(#[trigger] taken[j]),
    ensures
        is_pick(list, picks),
        picked_parts(list, picks) == all_flattened(normal_forms(taken)),
        all_atoms(picked_parts(list, picks)),
    decreases list.len(),
{
    if list.len() == 0 {
        assert(normal_forms(taken) =~= taken);
        Seq::empty()
    } else {
        let front = list.drop_last();
        let fewer = taken.drop_last();
        let n = front.len() as int;
        let last = taken[n];
        assert(is_choiceless(taken[n]));
        assert forall|j: int| 0 <= j < front.len() implies choices(front[j]).contains(
            #[trigger] fewer[j],
        ) by {
            assert(choices(list[j]).contains(taken[j]));
        }
        assert forall|j: int| 0 <= j < fewer.len() implies is_choiceless(#[trigger] fewer[j]) by {
            assert(is_choiceless(taken[j]));
        }
        let before = lemma_picks_of_choices(front, fewer);
        let at = lemma_choice_of_form(list[n], last);
        let picks = before.push(at);
        assert(picks.drop_last() =~= before);
        assert forall|j: int| 0 <= j < list.len() implies 0 <= #[trigger] picks[j] < choices(
            normal_form(list[j]),
        ).len() by {
            if j < n {
                assert(0 <= before[j] < choices(normal_form(front[j])).len());
            }
        }
        let form = normal_form(last);
        lemma_choiceless_settles(last);
        assert(normal_forms(taken) =~= normal_forms(fewer).push(form));
        lemma_all_flattened_push(normal_forms(fewer), form);
        assert(all_atoms(parts(form))) by {
            if !(form is Concatenation) {
                assert(parts(form) =~= seq![form]);
            }
        }
        if let PatternView::Concatenation(inner) = form {
            lemma_atoms_flattened(inner);
        }
        assert(flattened(form) =~= parts(form));
        picks
    }
}

/// Normalizing loses no match where alternatives stand inside a concatenation: where one choice
/// is taken from each part and what was taken matches in a row, the normal form matches.
pub proof fn law_normalizing_loses_no_combination(
    list: Seq<PatternView>,
    taken: Seq<PatternView>,
    value: Seq<char>,
)
    requires
        taken.len() == list.len(),
        forall|j: int|
            0 <= j < list.len() ==> choices(list[j]).contains(#[trigger] taken[j]),
        answers(PatternView::Concatenation(taken), Query::Match, value),
    ensures
        answers(normal_form(PatternView::Concatenation(list)), Query::Match, value),
{
    let whole = PatternView::Concatenation(list);
    let row = PatternView::Concatenation(taken);
    let i = choose|i: int|
        0 <= i < choices(row).len() && #[trigger] answers_at(row, Query::Match, value, i);
    lemma_match_is_choiceless(row, value, None);
    if is_choiceless(whole) {
        assert(taken =~= list) by {
            assert forall|j: int| 0 <= j < list.len() implies #[trigger] taken[j] == list[j] by {
                assert(choices(list[j]).contains(taken[j]));
                assert(is_choiceless(list[j]));
            }
        }
        law_normalizing_loses_no_match(whole, value);
    } else {
        let picks = lemma_picks_of_choices(list, taken);
        law_every_pick_is_a_choice(list, picks);
        let parts_taken = picked_parts(list, picks);
        let all = choices(normal_form(whole));
        let k = pick_place(list, picks);
        let choice = all[k];
        lemma_normal_forms_freely(taken);
        lemma_atoms_flattened(parts_taken);
        if parts_taken.len() == 1 {
            assert(is_atom(parts_taken[0]));
            assert(seq![parts_taken[0]] =~= parts_taken);
        }
        assert(flattened(choice) =~= parts_taken);
        law_nesting_is_no_matter(row, value, None);
        law_nesting_is_no_matter(choice, value, None);
        assert(is_as_free(
            parts_outcome(all_flattened(taken), value, None),
            parts_outcome(parts_taken, value, None),
        ));
        assert(outcome(choice, value, None).is_match());
        assert(answers_at(normal_form(whole), Query::Match, value, k));
    }
}

} // verus!
