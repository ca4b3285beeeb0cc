//! The texts that a pattern stands for, and how the operations on patterns keep them.
//!
//! Here a dynamic part stands for every text. What matching adds to that, the barriers, is
//! the matter of the laws on matching.
use vstd::prelude::*;

use crate::compose::{
    all_choices, appended, concatenated, extended, gathered, gathered_item, prepended, pushed,
    pushed_all, spliced,
};
use crate::normalize::{
    all_atoms, all_joined, any_alternatives, combinations, extended_by, extended_by_all, is_atom,
    is_flat, joined, law_normal_form_is_normal, merged_part, merged_parts, normal_form,
    normal_forms,
};
use crate::pattern::{choices, parts, PatternView};

verus! {

/// Whether `text` is one of the texts that `pattern` stands for.
pub open spec fn denotes(pattern: PatternView, text: Seq<char>) -> bool
    decreases pattern,
{
    match pattern {
        PatternView::Constant(constant) => text == constant,
        PatternView::Dynamic => true,
        PatternView::Alternatives(list) => any_denotes(list, text),
        PatternView::Concatenation(list) => denotes_parts(list, text),
    }
}

/// Whether one of the patterns of `list` stands for `text`.
pub open spec fn any_denotes(list: Seq<PatternView>, text: Seq<char>) -> bool
    decreases list,
{
    exists|i: int| 0 <= i < list.len() && denotes(#[trigger] list[i], text)
}

/// Whether `text` is made of one text for each pattern of `list`, in their order.
pub open spec fn denotes_parts(list: Seq<PatternView>, text: Seq<char>) -> bool
    decreases list,
{
    if list.len() == 0 {
        text.len() == 0
    } else {
        exists|k: int|
            0 <= k <= text.len() && denotes(list[0], #[trigger] text.take(k)) && denotes_parts(
                list.drop_first(),
                text.skip(k),
            )
    }
}

/// Whether the two lists stand for the same texts.
pub open spec fn same_texts(a: Seq<PatternView>, b: Seq<PatternView>) -> bool {
    forall|text: Seq<char>| #[trigger] denotes_parts(a, text) == denotes_parts(b, text)
}

proof fn lemma_parts_cons(list: Seq<PatternView>, text: Seq<char>, k: int)
    requires
        list.len() > 0,
        0 <= k <= text.len(),
        denotes(list[0], text.take(k)),
        denotes_parts(list.drop_first(), text.skip(k)),
    ensures
        denotes_parts(list, text),
{
}

proof fn lemma_parts_uncons(list: Seq<PatternView>, text: Seq<char>) -> (k: int)
    requires
        list.len() > 0,
        denotes_parts(list, text),
    ensures
        0 <= k <= text.len(),
        denotes(list[0], text.take(k)),
        denotes_parts(list.drop_first(), text.skip(k)),
{
    choose|k: int|
        0 <= k <= text.len() && denotes(list[0], #[trigger] text.take(k)) && denotes_parts(
            list.drop_first(),
            text.skip(k),
        )
}

/// Two texts, one for each of two lists, make one for both lists in a row.
pub proof fn lemma_parts_join(
    a: Seq<PatternView>,
    b: Seq<PatternView>,
    text: Seq<char>,
    k: int,
)
    requires
        0 <= k <= text.len(),
        denotes_parts(a, text.take(k)),
        denotes_parts(b, text.skip(k)),
    ensures
        denotes_parts(a + b, text),
    decreases a.len(),
{
    if a.len() == 0 {
        assert(a + b =~= b);
        assert(text.skip(k) =~= text);
    } else {
        let j = lemma_parts_uncons(a, text.take(k));
        assert(text.take(k).take(j) =~= text.take(j));
        assert(text.take(k).skip(j) =~= text.skip(j).take(k - j));
        assert(text.skip(j).skip(k - j) =~= text.skip(k));
        lemma_parts_join(a.drop_first(), b, text.skip(j), k - j);
        assert((a + b).drop_first() =~= a.drop_first() + b);
        lemma_parts_cons(a + b, text, j);
    }
}

/// A text for two lists in a row is one for the first list and one for the second.
pub proof fn lemma_parts_split(a: Seq<PatternView>, b: Seq<PatternView>, text: Seq<char>) -> (k:
    int)
    requires
        denotes_parts(a + b, text),
    ensures
        0 <= k <= text.len(),
        denotes_parts(a, text.take(k)),
        denotes_parts(b, text.skip(k)),
    decreases a.len(),
{
    if a.len() == 0 {
        assert(a + b =~= b);
        assert(text.skip(0) =~= text);
        0
    } else {
        let j = lemma_parts_uncons(a + b, text);
        assert((a + b).drop_first() =~= a.drop_first() + b);
        let rest = lemma_parts_split(a.drop_first(), b, text.skip(j));
        let k = j + rest;
        assert(text.take(k).take(j) =~= text.take(j));
        assert(text.take(k).skip(j) =~= text.skip(j).take(rest));
        assert(text.skip(j).skip(rest) =~= text.skip(k));
        lemma_parts_cons(a, text.take(k), j);
        k
    }
}

/// Lists that stand for the same texts can replace each other.
proof fn lemma_same_add(
    a: Seq<PatternView>,
    b: Seq<PatternView>,
    c: Seq<PatternView>,
    d: Seq<PatternView>,
)
    requires
        same_texts(a, c),
        same_texts(b, d),
    ensures
        same_texts(a + b, c + d),
{
    assert forall|text: Seq<char>| #[trigger] denotes_parts(a + b, text) == denotes_parts(
        c + d,
        text,
    ) by {
        if denotes_parts(a + b, text) {
            let k = lemma_parts_split(a, b, text);
            lemma_parts_join(c, d, text, k);
        }
        if denotes_parts(c + d, text) {
            let k = lemma_parts_split(c, d, text);
            assert(denotes_parts(a, text.take(k)));
            assert(denotes_parts(b, text.skip(k)));
            lemma_parts_join(a, b, text, k);
        }
    }
}

/// A list with one pattern stands for what the pattern stands for.
pub proof fn lemma_parts_one(pattern: PatternView, text: Seq<char>)
    ensures
        denotes_parts(seq![pattern], text) == denotes(pattern, text),
{
    let one = seq![pattern];
    assert(one.drop_first() =~= Seq::empty());
    if denotes(pattern, text) {
        let k = text.len() as int;
        assert(text.take(k) =~= text);
        assert(denotes_parts(one.drop_first(), text.skip(k)));
        lemma_parts_cons(one, text, k);
    }
    if denotes_parts(one, text) {
        let k = lemma_parts_uncons(one, text);
        assert(text.take(k) =~= text);
    }
}

/// The parts of a pattern stand for what the pattern stands for.
pub proof fn lemma_parts_of(pattern: PatternView)
    ensures
        forall|text: Seq<char>| #[trigger] denotes_parts(parts(pattern), text) == denotes(pattern, text),
        same_texts(parts(pattern), seq![pattern]),
{
    assert forall|text: Seq<char>| #[trigger] denotes_parts(parts(pattern), text) == denotes(
        pattern,
        text,
    ) by {
        lemma_parts_one(pattern, text);
    }
    assert forall|text: Seq<char>| #[trigger] denotes_parts(parts(pattern), text) == denotes_parts(
        seq![pattern],
        text,
    ) by {
        lemma_parts_one(pattern, text);
    }
}

/// The choices of a pattern stand for what the pattern stands for.
pub proof fn lemma_choices_of(pattern: PatternView, text: Seq<char>)
    ensures
        any_denotes(choices(pattern), text) == denotes(pattern, text),
{
    if !(pattern is Alternatives) && denotes(pattern, text) {
        assert(denotes(choices(pattern)[0], text));
    }
}

/// A list joined to one pattern stands for what the list stands for.
proof fn lemma_joined(list: Seq<PatternView>, text: Seq<char>)
    ensures
        denotes(joined(list), text) == denotes_parts(list, text),
{
    if list.len() == 1 {
        lemma_parts_one(list[0], text);
        assert(seq![list[0]] =~= list);
    }
}

/// Two constants in a row are one constant.
proof fn lemma_constants_merge(a: Seq<char>, b: Seq<char>)
    ensures
        same_texts(
            seq![PatternView::Constant(a), PatternView::Constant(b)],
            seq![PatternView::Constant(a + b)],
        ),
{
    let first = seq![PatternView::Constant(a)];
    let second = seq![PatternView::Constant(b)];
    let two = seq![PatternView::Constant(a), PatternView::Constant(b)];
    let one = seq![PatternView::Constant(a + b)];
    assert(two =~= first + second);
    assert forall|text: Seq<char>| #[trigger] denotes_parts(two, text) == denotes_parts(one, text) by {
        lemma_parts_one(PatternView::Constant(a + b), text);
        if denotes_parts(two, text) {
            let k = lemma_parts_split(first, second, text);
            lemma_parts_one(PatternView::Constant(a), text.take(k));
            lemma_parts_one(PatternView::Constant(b), text.skip(k));
            assert(text =~= text.take(k) + text.skip(k));
        }
        if text == a + b {
            let k = a.len() as int;
            assert(text.take(k) =~= a);
            assert(text.skip(k) =~= b);
            lemma_parts_one(PatternView::Constant(a), text.take(k));
            lemma_parts_one(PatternView::Constant(b), text.skip(k));
            lemma_parts_join(first, second, text, k);
        }
    }
}

/// Two dynamic parts in a row are one dynamic part.
proof fn lemma_dynamics_merge()
    ensures
        same_texts(seq![PatternView::Dynamic, PatternView::Dynamic], seq![PatternView::Dynamic]),
{
    let one = seq![PatternView::Dynamic];
    let two = seq![PatternView::Dynamic, PatternView::Dynamic];
    assert(two =~= one + one);
    assert forall|text: Seq<char>| #[trigger] denotes_parts(two, text) == denotes_parts(one, text) by {
        lemma_parts_one(PatternView::Dynamic, text);
        lemma_parts_one(PatternView::Dynamic, text.take(0));
        lemma_parts_one(PatternView::Dynamic, text.skip(0));
        lemma_parts_join(one, one, text, 0);
    }
}

/// An empty constant adds nothing.
proof fn lemma_empty_constant()
    ensures
        same_texts(seq![PatternView::Constant(Seq::empty())], Seq::empty()),
{
    let one = seq![PatternView::Constant(Seq::empty())];
    assert forall|text: Seq<char>| #[trigger] denotes_parts(one, text) == denotes_parts(
        Seq::empty(),
        text,
    ) by {
        lemma_parts_one(PatternView::Constant(Seq::empty()), text);
        if text.len() == 0 {
            assert(text =~= Seq::empty());
        }
    }
}

proof fn lemma_same_refl(a: Seq<PatternView>)
    ensures
        same_texts(a, a),
{
}

/// Adding a constant at the end keeps the texts, merged or not.
proof fn lemma_constant_appended(list: Seq<PatternView>, constant: Seq<char>)
    requires
        list.len() > 0,
        list.last() is Constant,
    ensures
        same_texts(
            list.drop_last().push(PatternView::Constant(list.last()->Constant_0 + constant)),
            list.push(PatternView::Constant(constant)),
        ),
{
    let last = list.last()->Constant_0;
    let two = seq![PatternView::Constant(last), PatternView::Constant(constant)];
    let one = seq![PatternView::Constant(last + constant)];
    lemma_constants_merge(last, constant);
    lemma_same_refl(list.drop_last());
    lemma_same_add(list.drop_last(), two, list.drop_last(), one);
    assert(list.push(PatternView::Constant(constant)) =~= list.drop_last() + two);
    assert(list.drop_last().push(PatternView::Constant(last + constant)) =~= list.drop_last()
        + one);
}

/// Merging an atom into a list keeps the texts.
proof fn lemma_atom_merged(list: Seq<PatternView>, part: PatternView)
    requires
        is_atom(part),
    ensures
        same_texts(merged_part(list, part), list.push(part)),
{
    match part {
        PatternView::Constant(constant) => {
            if constant.len() == 0 {
                assert(constant =~= Seq::empty());
                lemma_empty_constant();
                lemma_same_refl(list);
                lemma_same_add(list, seq![part], list, Seq::empty());
                assert(list.push(part) =~= list + seq![part]);
                assert(list + Seq::<PatternView>::empty() =~= list);
            } else if list.len() > 0 && list.last() is Constant {
                lemma_constant_appended(list, constant);
            }
        },
        PatternView::Dynamic => {
            if list.len() > 0 && list.last() is Dynamic {
                lemma_dynamics_merge();
                lemma_same_refl(list.drop_last());
                lemma_same_add(
                    list.drop_last(),
                    seq![PatternView::Dynamic, PatternView::Dynamic],
                    list.drop_last(),
                    seq![PatternView::Dynamic],
                );
                assert(list.push(part) =~= list.drop_last() + seq![
                    PatternView::Dynamic,
                    PatternView::Dynamic,
                ]);
                assert(list =~= list.drop_last() + seq![PatternView::Dynamic]);
            }
        },
        _ => {},
    }
}

/// Merging atoms into a list keeps the texts.
proof fn lemma_atoms_merged(list: Seq<PatternView>, more: Seq<PatternView>)
    requires
        all_atoms(more),
    ensures
        same_texts(merged_parts(list, more), list + more),
    decreases more.len(),
{
    if more.len() == 0 {
        assert(list + more =~= list);
    } else {
        let before = merged_parts(list, more.drop_last());
        lemma_atoms_merged(list, more.drop_last());
        assert(is_atom(more.last()));
        lemma_atom_merged(before, more.last());
        lemma_same_refl(seq![more.last()]);
        lemma_same_add(before, seq![more.last()], list + more.drop_last(), seq![more.last()]);
        assert(before.push(more.last()) =~= before + seq![more.last()]);
        assert(list + more =~= list + more.drop_last() + seq![more.last()]);
    }
}

/// Merging flat patterns into a list keeps the texts.
proof fn lemma_flat_merged(list: Seq<PatternView>, more: Seq<PatternView>)
    requires
        forall|i: int| 0 <= i < more.len() ==> is_flat(#[trigger] more[i]),
    ensures
        same_texts(merged_parts(list, more), list + more),
    decreases more.len(),
{
    if more.len() == 0 {
        assert(list + more =~= list);
    } else {
        let before = merged_parts(list, more.drop_last());
        let last = more.last();
        lemma_flat_merged(list, more.drop_last());
        assert(is_flat(last));
        lemma_same_refl(before);
        lemma_parts_of(last);
        lemma_same_add(before, parts(last), before, seq![last]);
        if last is Concatenation {
            lemma_atoms_merged(before, parts(last));
            assert(merged_part(before, last) == merged_parts(before, parts(last)));
        } else {
            assert(is_atom(parts(last)[0]));
            lemma_atom_merged(before, last);
            assert(before.push(last) =~= before + seq![last]);
        }
        lemma_same_refl(seq![last]);
        lemma_same_add(before, seq![last], list + more.drop_last(), seq![last]);
        assert(list + more =~= list + more.drop_last() + seq![last]);
    }
}

/// Whether one of the lists stands for `text`.
pub open spec fn any_denotes_parts(lists: Seq<Seq<PatternView>>, text: Seq<char>) -> bool {
    exists|i: int| 0 <= i < lists.len() && denotes_parts(#[trigger] lists[i], text)
}

/// Lists extended by tails stand for a text of a list followed by a text of a tail.
proof fn lemma_extended_texts(
    prefixes: Seq<Seq<PatternView>>,
    tails: Seq<PatternView>,
    text: Seq<char>,
)
    ensures
        any_denotes_parts(extended_by_all(prefixes, tails), text) == exists|k: int|
            0 <= k <= text.len() && any_denotes_parts(prefixes, #[trigger] text.take(k))
                && any_denotes(tails, text.skip(k)),
    decreases tails.len(),
{
    let all = extended_by_all(prefixes, tails);
    if tails.len() > 0 {
        let before = extended_by_all(prefixes, tails.drop_last());
        let now = extended_by(prefixes, tails.last());
        lemma_extended_texts(prefixes, tails.drop_last(), text);
        lemma_parts_of(tails.last());
        if any_denotes_parts(all, text) {
            let i = choose|i: int| 0 <= i < all.len() && denotes_parts(#[trigger] all[i], text);
            if i < before.len() {
                assert(before[i] == all[i]);
                assert(any_denotes_parts(before, text));
                let k = choose|k: int|
                    0 <= k <= text.len() && any_denotes_parts(prefixes, #[trigger] text.take(k))
                        && any_denotes(tails.drop_last(), text.skip(k));
                let j = choose|j: int|
                    0 <= j < tails.drop_last().len() && denotes(
                        #[trigger] tails.drop_last()[j],
                        text.skip(k),
                    );
                assert(denotes(tails[j], text.skip(k)));
            } else {
                let j = i - before.len();
                assert(now[j] == all[i]);
                let k = lemma_parts_split(prefixes[j], parts(tails.last()), text);
                assert(any_denotes_parts(prefixes, text.take(k)));
                assert(denotes(tails[tails.len() - 1], text.skip(k)));
            }
        }
        if exists|k: int|
            0 <= k <= text.len() && any_denotes_parts(prefixes, #[trigger] text.take(k))
                && any_denotes(tails, text.skip(k)) {
            let k = choose|k: int|
                0 <= k <= text.len() && any_denotes_parts(prefixes, #[trigger] text.take(k))
                    && any_denotes(tails, text.skip(k));
            let j = choose|j: int|
                0 <= j < tails.len() && denotes(#[trigger] tails[j], text.skip(k));
            if j < tails.len() - 1 {
                assert(denotes(tails.drop_last()[j], text.skip(k)));
                assert(any_denotes_parts(before, text));
                let i = choose|i: int|
                    0 <= i < before.len() && denotes_parts(#[trigger] before[i], text);
                assert(all[i] == before[i]);
            } else {
                let i = choose|i: int|
                    0 <= i < prefixes.len() && denotes_parts(
                        #[trigger] prefixes[i],
                        text.take(k),
                    );
                lemma_parts_join(prefixes[i], parts(tails.last()), text, k);
                assert(all[before.len() + i] == now[i]);
            }
        }
    }
}

/// The combinations of a list stand for what the list stands for.
proof fn lemma_combinations_texts(list: Seq<PatternView>, text: Seq<char>)
    ensures
        any_denotes_parts(combinations(list), text) == denotes_parts(list, text),
    decreases list.len(),
{
    if list.len() == 0 {
        let all = combinations(list);
        assert(all[0] =~= list);
        if denotes_parts(list, text) {
            assert(denotes_parts(all[0], text));
        }
    } else {
        let front = list.drop_last();
        let last = list.last();
        lemma_extended_texts(combinations(front), choices(last), text);
        assert(list =~= front + seq![last]);
        if any_denotes_parts(combinations(list), text) {
            let k = choose|k: int|
                0 <= k <= text.len() && any_denotes_parts(
                    combinations(front),
                    #[trigger] text.take(k),
                ) && any_denotes(choices(last), text.skip(k));
            lemma_combinations_texts(front, text.take(k));
            lemma_choices_of(last, text.skip(k));
            lemma_parts_one(last, text.skip(k));
            lemma_parts_join(front, seq![last], text, k);
        }
        if denotes_parts(list, text) {
            let k = lemma_parts_split(front, seq![last], text);
            lemma_combinations_texts(front, text.take(k));
            lemma_choices_of(last, text.skip(k));
            lemma_parts_one(last, text.skip(k));
        }
    }
}

/// The choices of all patterns of a list stand for what one of them stands for.
pub proof fn lemma_all_choices_texts(list: Seq<PatternView>, text: Seq<char>)
    ensures
        any_denotes(all_choices(list), text) == any_denotes(list, text),
    decreases list.len(),
{
    if list.len() > 0 {
        let before = all_choices(list.drop_last());
        let now = choices(list.last());
        let all = all_choices(list);
        lemma_all_choices_texts(list.drop_last(), text);
        lemma_choices_of(list.last(), text);
        if any_denotes(all, text) {
            let i = choose|i: int| 0 <= i < all.len() && denotes(#[trigger] all[i], text);
            if i < before.len() {
                assert(denotes(before[i], text));
                let j = choose|j: int|
                    0 <= j < list.drop_last().len() && denotes(
                        #[trigger] list.drop_last()[j],
                        text,
                    );
                assert(denotes(list[j], text));
            } else {
                assert(denotes(now[i - before.len()], text));
                assert(denotes(list[list.len() - 1], text));
            }
        }
        if any_denotes(list, text) {
            let j = choose|j: int| 0 <= j < list.len() && denotes(#[trigger] list[j], text);
            if j < list.len() - 1 {
                assert(denotes(list.drop_last()[j], text));
                let i = choose|i: int|
                    0 <= i < before.len() && denotes(#[trigger] before[i], text);
                assert(denotes(all[i], text));
            } else {
                let i = choose|i: int| 0 <= i < now.len() && denotes(#[trigger] now[i], text);
                assert(denotes(all[before.len() + i], text));
            }
        }
    }
}

/// Lists whose patterns stand for the same texts, one by one, stand for the same texts.
proof fn lemma_parts_pointwise(a: Seq<PatternView>, b: Seq<PatternView>, text: Seq<char>)
    requires
        a.len() == b.len(),
        forall|i: int, t: Seq<char>|
            0 <= i < a.len() ==> #[trigger] denotes(a[i], t) == denotes(b[i], t),
        denotes_parts(a, text),
    ensures
        denotes_parts(b, text),
    decreases a.len(),
{
    if a.len() > 0 {
        let k = lemma_parts_uncons(a, text);
        assert(denotes(a[0], text.take(k)) == denotes(b[0], text.take(k)));
        assert forall|i: int, t: Seq<char>| 0 <= i < a.drop_first().len() implies #[trigger] denotes(
            a.drop_first()[i],
            t,
        ) == denotes(b.drop_first()[i], t) by {
            assert(denotes(a[i + 1], t) == denotes(b[i + 1], t));
        }
        lemma_parts_pointwise(a.drop_first(), b.drop_first(), text.skip(k));
        lemma_parts_cons(b, text, k);
    }
}

/// Normalizing a pattern keeps the texts that it stands for.
pub proof fn law_normal_form_keeps_texts(pattern: PatternView, text: Seq<char>)
    ensures
        denotes(normal_form(pattern), text) == denotes(pattern, text),
    decreases pattern,
{
    match pattern {
        PatternView::Constant(_) => {},
        PatternView::Dynamic => {},
        PatternView::Alternatives(list) => {
            let forms = normal_forms(list);
            assert forall|i: int| 0 <= i < list.len() implies #[trigger] denotes(forms[i], text)
                == denotes(list[i], text) by {
                law_normal_form_keeps_texts(list[i], text);
            }
            lemma_all_choices_texts(forms, text);
            if any_denotes(forms, text) {
                let i = choose|i: int| 0 <= i < forms.len() && denotes(#[trigger] forms[i], text);
                assert(denotes(list[i], text));
            }
            if any_denotes(list, text) {
                let i = choose|i: int| 0 <= i < list.len() && denotes(#[trigger] list[i], text);
                assert(denotes(forms[i], text));
            }
        },
        PatternView::Concatenation(list) => {
            let forms = normal_forms(list);
            assert forall|i: int, t: Seq<char>| 0 <= i < list.len() implies #[trigger] denotes(
                list[i],
                t,
            ) == denotes(forms[i], t) by {
                law_normal_form_keeps_texts(list[i], t);
            }
            assert forall|i: int, t: Seq<char>| 0 <= i < forms.len() implies #[trigger] denotes(
                forms[i],
                t,
            ) == denotes(list[i], t) by {}
            if denotes_parts(list, text) {
                lemma_parts_pointwise(list, forms, text);
            }
            if denotes_parts(forms, text) {
                lemma_parts_pointwise(forms, list, text);
            }
            if any_alternatives(forms) {
                let lists = combinations(forms);
                let all = all_joined(lists);
                lemma_combinations_texts(forms, text);
                if any_denotes(all, text) {
                    let i = choose|i: int| 0 <= i < all.len() && denotes(#[trigger] all[i], text);
                    lemma_joined(lists[i], text);
                    assert(denotes_parts(lists[i], text));
                }
                if any_denotes_parts(lists, text) {
                    let i = choose|i: int|
                        0 <= i < lists.len() && denotes_parts(#[trigger] lists[i], text);
                    lemma_joined(lists[i], text);
                    assert(denotes(all[i], text));
                }
            } else {
                assert forall|i: int| 0 <= i < forms.len() implies is_flat(#[trigger] forms[i]) by {
                    law_normal_form_is_normal(list[i]);
                    assert(is_flat(choices(forms[i])[0]));
                }
                lemma_flat_merged(Seq::empty(), forms);
                assert(Seq::<PatternView>::empty() + forms =~= forms);
                lemma_joined(merged_parts(Seq::empty(), forms), text);
            }
        },
    }
}

/// Adding a part at the end of a list, merged or not, adds its texts at the end.
proof fn lemma_appended_texts(list: Seq<PatternView>, part: PatternView)
    ensures
        same_texts(appended(list, part), list + seq![part]),
{
    assert(list.push(part) =~= list + seq![part]);
    if part is Constant && list.len() > 0 && list.last() is Constant {
        lemma_constant_appended(list, part->Constant_0);
    }
}

/// Adding a part at the start of a list, merged or not, adds its texts at the start.
proof fn lemma_prepended_texts(list: Seq<PatternView>, part: PatternView)
    ensures
        same_texts(prepended(list, part), seq![part] + list),
{
    if part is Constant && list.len() > 0 && list[0] is Constant {
        let (a, b) = (part->Constant_0, list[0]->Constant_0);
        let two = seq![PatternView::Constant(a), PatternView::Constant(b)];
        let one = seq![PatternView::Constant(a + b)];
        lemma_constants_merge(a, b);
        lemma_same_refl(list.drop_first());
        lemma_same_add(two, list.drop_first(), one, list.drop_first());
        assert(seq![part] + list =~= two + list.drop_first());
        assert(prepended(list, part) =~= one + list.drop_first());
    } else {
        assert(prepended(list, part) =~= seq![part] + list);
    }
}

/// Two lists in a row, merged or not, stand for their texts in a row.
proof fn lemma_spliced_texts(list: Seq<PatternView>, more: Seq<PatternView>)
    ensures
        same_texts(spliced(list, more), list + more),
{
    if more.len() == 0 {
        assert(list + more =~= list);
    } else {
        lemma_appended_texts(list, more[0]);
        lemma_same_refl(more.drop_first());
        lemma_same_add(
            appended(list, more[0]),
            more.drop_first(),
            list + seq![more[0]],
            more.drop_first(),
        );
        assert(list + more =~= list + seq![more[0]] + more.drop_first());
    }
}

/// Adding one pattern behind another stands for a text of the one followed by a text of the
/// other.
pub proof fn law_push_concatenates(first: PatternView, second: PatternView, text: Seq<char>)
    ensures
        denotes(pushed(first, second), text) == denotes_parts(seq![first, second], text),
{
    let both = seq![first, second];
    assert(both =~= seq![first] + seq![second]);
    lemma_parts_of(first);
    lemma_parts_of(second);
    lemma_same_add(parts(first), parts(second), seq![first], seq![second]);
    let all = parts(first) + parts(second);
    assert(denotes_parts(all, text) == denotes_parts(both, text));
    match (first, second) {
        (PatternView::Concatenation(list), PatternView::Concatenation(more)) => {
            lemma_spliced_texts(list, more);
            assert(denotes_parts(spliced(list, more), text) == denotes_parts(all, text));
        },
        (PatternView::Concatenation(list), _) => {
            lemma_appended_texts(list, second);
            assert(denotes_parts(appended(list, second), text) == denotes_parts(all, text));
        },
        (_, PatternView::Concatenation(list)) => {
            lemma_prepended_texts(list, first);
            assert(denotes_parts(prepended(list, first), text) == denotes_parts(all, text));
        },
        (PatternView::Constant(s), PatternView::Constant(t)) => {
            lemma_constants_merge(s, t);
            lemma_parts_one(PatternView::Constant(s + t), text);
        },
        _ => {},
    }
}

/// A pattern followed by each of the items stands for a text of each, in their order.
proof fn lemma_pushed_all_texts(pattern: PatternView, items: Seq<PatternView>, text: Seq<char>)
    ensures
        denotes(pushed_all(pattern, items), text) == denotes_parts(seq![pattern] + items, text),
    decreases items.len(),
{
    if items.len() == 0 {
        lemma_parts_one(pattern, text);
        assert(seq![pattern] + items =~= seq![pattern]);
    } else {
        let next = pushed(pattern, items[0]);
        let rest = items.drop_first();
        lemma_pushed_all_texts(next, rest, text);
        let both = seq![pattern, items[0]];
        assert forall|t: Seq<char>| #[trigger] denotes_parts(seq![next], t) == denotes_parts(
            both,
            t,
        ) by {
            lemma_parts_one(next, t);
            law_push_concatenates(pattern, items[0], t);
        }
        lemma_same_refl(rest);
        lemma_same_add(seq![next], rest, both, rest);
        assert(seq![pattern] + items =~= both + rest);
    }
}

/// Patterns one after the other stand for a text of each, in their order.
pub proof fn law_concat_concatenates(items: Seq<PatternView>, text: Seq<char>)
    requires
        items.len() > 0,
    ensures
        denotes(concatenated(items), text) == denotes_parts(items, text),
{
    lemma_pushed_all_texts(items[0], items.drop_first(), text);
    assert(seq![items[0]] + items.drop_first() =~= items);
}

proof fn lemma_gathered_texts(list: Seq<PatternView>, items: Seq<PatternView>)
    ensures
        same_texts(gathered(list, items), list + items),
    decreases items.len(),
{
    if items.len() == 0 {
        assert(list + items =~= list);
    } else {
        let item = items[0];
        let next = gathered_item(list, item);
        let rest = items.drop_first();
        lemma_gathered_texts(next, rest);
        lemma_same_refl(list);
        lemma_same_refl(rest);
        lemma_parts_of(item);
        lemma_same_add(list, parts(item), list, seq![item]);
        match item {
            PatternView::Concatenation(more) => {
                lemma_spliced_texts(list, more);
            },
            _ => {
                lemma_appended_texts(list, item);
            },
        }
        lemma_same_add(next, rest, list + seq![item], rest);
        assert(list + items =~= list + seq![item] + rest);
    }
}

/// A pattern extended by items stands for a text of the pattern and one of each item, in
/// their order.
pub proof fn law_extend_concatenates(
    pattern: PatternView,
    items: Seq<PatternView>,
    text: Seq<char>,
)
    ensures
        denotes(extended(pattern, items), text) == denotes_parts(seq![pattern] + items, text),
{
    lemma_parts_of(pattern);
    lemma_same_refl(items);
    lemma_same_add(parts(pattern), items, seq![pattern], items);
    let all = parts(pattern) + items;
    assert(denotes_parts(all, text) == denotes_parts(seq![pattern] + items, text));
    match pattern {
        PatternView::Concatenation(list) => {
            lemma_spliced_texts(list, items);
            assert(denotes_parts(spliced(list, items), text) == denotes_parts(all, text));
        },
        _ => {
            let list = gathered(seq![pattern], items);
            lemma_gathered_texts(seq![pattern], items);
            assert(denotes_parts(list, text) == denotes_parts(all, text));
        },
    }
}

/// The choice between patterns stands for the texts of each of them.
pub proof fn law_alternatives_choose(alts: Seq<PatternView>, text: Seq<char>)
    ensures
        denotes(PatternView::Alternatives(all_choices(alts)), text) == any_denotes(alts, text),
{
    lemma_all_choices_texts(alts, text);
}

} // verus!
