//! The normal form of a pattern: alternatives of concatenations of constants and dynamic parts.
use vstd::prelude::*;
use vstd::string::*;

use crate::compose::{all_choices, collect_choices};
use crate::pattern::{choices, clone_list, group_models, models, parts, Pattern, PatternView};

verus! {

/// Whether `pattern` is a constant or a dynamic part.
pub open spec fn is_atom(pattern: PatternView) -> bool {
    pattern is Constant || pattern is Dynamic
}

/// Whether all of `list` are constants or dynamic parts.
pub open spec fn all_atoms(list: Seq<PatternView>) -> bool {
    forall|i: int| 0 <= i < list.len() ==> is_atom(#[trigger] list[i])
}

/// Whether `pattern` is a constant, a dynamic part or a concatenation of such.
pub open spec fn is_flat(pattern: PatternView) -> bool {
    !(pattern is Alternatives) && all_atoms(parts(pattern))
}

/// Whether `pattern` is flat or a choice between flat patterns.
pub open spec fn is_normal(pattern: PatternView) -> bool {
    forall|i: int| 0 <= i < choices(pattern).len() ==> is_flat(#[trigger] choices(pattern)[i])
}

/// Whether alternatives are among `list`.
pub open spec fn any_alternatives(list: Seq<PatternView>) -> bool {
    exists|i: int| 0 <= i < list.len() && #[trigger] list[i] is Alternatives
}

/// Each of `prefixes`, followed by the parts of `tail`.
pub open spec fn extended_by(prefixes: Seq<Seq<PatternView>>, tail: PatternView) -> Seq<
    Seq<PatternView>,
> {
    Seq::new(prefixes.len(), |i: int| prefixes[i] + parts(tail))
}

/// For each of `tails` in turn, each of `prefixes` followed by the parts of it.
pub open spec fn extended_by_all(
    prefixes: Seq<Seq<PatternView>>,
    tails: Seq<PatternView>,
) -> Seq<Seq<PatternView>>
    decreases tails.len(),
{
    if tails.len() == 0 {
        Seq::empty()
    } else {
        extended_by_all(prefixes, tails.drop_last()) + extended_by(prefixes, tails.last())
    }
}

/// Every way to take one choice from each pattern of `list`, as the parts one gets. The
/// choice from the first pattern changes fastest.
pub open spec fn combinations(list: Seq<PatternView>) -> Seq<Seq<PatternView>>
    decreases list.len(),
{
    if list.len() == 0 {
        seq![Seq::empty()]
    } else {
        extended_by_all(combinations(list.drop_last()), choices(list.last()))
    }
}

/// `list` as one pattern: its only part, or the concatenation of its parts.
pub open spec fn joined(list: Seq<PatternView>) -> PatternView {
    if list.len() == 1 {
        list[0]
    } else {
        PatternView::Concatenation(list)
    }
}

/// Each of `lists` as one pattern.
pub open spec fn all_joined(lists: Seq<Seq<PatternView>>) -> Seq<PatternView> {
    Seq::new(lists.len(), |i: int| joined(lists[i]))
}

/// `list` with one more part, merged with the last one where both are constants or both are
/// dynamic. An empty constant adds nothing.
pub open spec fn merged_part(list: Seq<PatternView>, part: PatternView) -> Seq<PatternView>
    decreases part,
{
    match part {
        PatternView::Constant(c) => if c.len() == 0 {
            list
        } else if list.len() > 0 && list.last() is Constant {
            list.drop_last().push(PatternView::Constant(list.last()->Constant_0 + c))
        } else {
            list.push(part)
        },
        PatternView::Dynamic => if list.len() > 0 && list.last() is Dynamic {
            list
        } else {
            list.push(part)
        },
        PatternView::Concatenation(more) => merged_parts(list, more),
        PatternView::Alternatives(_) => list,
    }
}

/// `list` with more parts, each merged where it can be.
pub open spec fn merged_parts(list: Seq<PatternView>, more: Seq<PatternView>) -> Seq<PatternView>
    decreases more,
{
    if more.len() == 0 {
        list
    } else {
        merged_part(merged_parts(list, more.drop_last()), more.last())
    }
}

/// The normal form of `pattern`.
pub open spec fn normal_form(pattern: PatternView) -> PatternView
    decreases pattern,
{
    match pattern {
        PatternView::Constant(_) => pattern,
        PatternView::Dynamic => pattern,
        PatternView::Alternatives(list) => PatternView::Alternatives(
            all_choices(normal_forms(list)),
        ),
        PatternView::Concatenation(list) => {
            let forms = normal_forms(list);
            if any_alternatives(forms) {
                PatternView::Alternatives(all_joined(combinations(forms)))
            } else {
                joined(merged_parts(Seq::empty(), forms))
            }
        },
    }
}

/// The normal forms of `list`.
pub open spec fn normal_forms(list: Seq<PatternView>) -> Seq<PatternView>
    decreases list,
{
    Seq::new(
        list.len(),
        |i: int|
            if 0 <= i < list.len() {
                normal_form(list[i])
            } else {
                PatternView::Dynamic
            },
    )
}

/// The choices of normal patterns are flat.
proof fn lemma_all_choices_flat(list: Seq<PatternView>)
    requires
        forall|i: int| 0 <= i < list.len() ==> is_normal(#[trigger] list[i]),
    ensures
        forall|i: int| 0 <= i < all_choices(list).len() ==> is_flat(#[trigger] all_choices(list)[i]),
    decreases list.len(),
{
    if list.len() > 0 {
        lemma_all_choices_flat(list.drop_last());
        let before = all_choices(list.drop_last());
        assert forall|i: int| 0 <= i < all_choices(list).len() implies is_flat(
            #[trigger] all_choices(list)[i],
        ) by {
            if i < before.len() {
                assert(all_choices(list)[i] == before[i]);
            } else {
                assert(is_normal(list.last()));
                assert(all_choices(list)[i] == choices(list.last())[i - before.len()]);
            }
        }
    }
}

/// Flat tails extend lists of atoms to lists of atoms.
proof fn lemma_extended_by_all_atoms(prefixes: Seq<Seq<PatternView>>, tails: Seq<PatternView>)
    requires
        forall|i: int| 0 <= i < prefixes.len() ==> all_atoms(#[trigger] prefixes[i]),
        forall|i: int| 0 <= i < tails.len() ==> is_flat(#[trigger] tails[i]),
    ensures
        forall|i: int|
            0 <= i < extended_by_all(prefixes, tails).len() ==> all_atoms(
                #[trigger] extended_by_all(prefixes, tails)[i],
            ),
    decreases tails.len(),
{
    if tails.len() > 0 {
        lemma_extended_by_all_atoms(prefixes, tails.drop_last());
        let before = extended_by_all(prefixes, tails.drop_last());
        let now = extended_by(prefixes, tails.last());
        assert forall|i: int| 0 <= i < extended_by_all(prefixes, tails).len() implies all_atoms(
            #[trigger] extended_by_all(prefixes, tails)[i],
        ) by {
            if i < before.len() {
                assert(extended_by_all(prefixes, tails)[i] == before[i]);
            } else {
                let j = i - before.len();
                assert(extended_by_all(prefixes, tails)[i] == now[j]);
                assert(all_atoms(prefixes[j]));
                assert(is_flat(tails.last()));
            }
        }
    }
}

/// The combinations of normal patterns are lists of atoms.
proof fn lemma_combinations_atoms(list: Seq<PatternView>)
    requires
        forall|i: int| 0 <= i < list.len() ==> is_normal(#[trigger] list[i]),
    ensures
        forall|i: int|
            0 <= i < combinations(list).len() ==> all_atoms(#[trigger] combinations(list)[i]),
    decreases list.len(),
{
    if list.len() > 0 {
        lemma_combinations_atoms(list.drop_last());
        assert(is_normal(list.last()));
        lemma_extended_by_all_atoms(combinations(list.drop_last()), choices(list.last()));
    }
}

/// Merging an atom into a list of atoms gives a list of atoms.
pub proof fn lemma_merged_atom(list: Seq<PatternView>, part: PatternView)
    requires
        all_atoms(list),
        is_atom(part),
    ensures
        all_atoms(merged_part(list, part)),
{
    let res = merged_part(list, part);
    assert forall|i: int| 0 <= i < res.len() implies is_atom(#[trigger] res[i]) by {
        if i < list.len() - 1 {
            assert(res[i] == list[i]);
        }
    }
}

/// Merging atoms into a list of atoms gives a list of atoms.
proof fn lemma_merged_atoms(list: Seq<PatternView>, more: Seq<PatternView>)
    requires
        all_atoms(list),
        all_atoms(more),
    ensures
        all_atoms(merged_parts(list, more)),
    decreases more.len(),
{
    if more.len() > 0 {
        lemma_merged_atoms(list, more.drop_last());
        assert(is_atom(more.last()));
        lemma_merged_atom(merged_parts(list, more.drop_last()), more.last());
    }
}

/// Merging flat patterns into a list of atoms gives a list of atoms.
proof fn lemma_merged_flat(list: Seq<PatternView>, more: Seq<PatternView>)
    requires
        all_atoms(list),
        forall|i: int| 0 <= i < more.len() ==> is_flat(#[trigger] more[i]),
    ensures
        all_atoms(merged_parts(list, more)),
    decreases more.len(),
{
    if more.len() > 0 {
        lemma_merged_flat(list, more.drop_last());
        assert(is_flat(more.last()));
        if more.last() is Concatenation {
            let before = merged_parts(list, more.drop_last());
            lemma_merged_atoms(before, parts(more.last()));
            assert(merged_part(before, more.last()) == merged_parts(before, parts(more.last())));
        } else {
            assert(is_atom(parts(more.last())[0]));
            lemma_merged_atom(merged_parts(list, more.drop_last()), more.last());
        }
    }
}

/// A list of atoms as one pattern is flat.
proof fn lemma_joined_flat(list: Seq<PatternView>)
    requires
        all_atoms(list),
    ensures
        is_flat(joined(list)),
{
    if list.len() == 1 {
        assert(is_atom(list[0]));
    }
}

/// Where a normal pattern is no choice, it is flat.
proof fn lemma_normal_flat(pattern: PatternView)
    requires
        is_normal(pattern),
        !(pattern is Alternatives),
    ensures
        is_flat(pattern),
{
    assert(is_flat(choices(pattern)[0]));
}

/// The normal form is normal.
pub proof fn law_normal_form_is_normal(pattern: PatternView)
    ensures
        is_normal(normal_form(pattern)),
    decreases pattern,
{
    match pattern {
        PatternView::Constant(_) => {},
        PatternView::Dynamic => {},
        PatternView::Alternatives(list) => {
            let forms = normal_forms(list);
            assert forall|i: int| 0 <= i < forms.len() implies is_normal(#[trigger] forms[i]) by {
                law_normal_form_is_normal(list[i]);
            }
            lemma_all_choices_flat(forms);
        },
        PatternView::Concatenation(list) => {
            let forms = normal_forms(list);
            assert forall|i: int| 0 <= i < forms.len() implies is_normal(#[trigger] forms[i]) by {
                law_normal_form_is_normal(list[i]);
            }
            if any_alternatives(forms) {
                lemma_combinations_atoms(forms);
                let all = combinations(forms);
                assert forall|i: int| 0 <= i < all_joined(all).len() implies is_flat(
                    #[trigger] all_joined(all)[i],
                ) by {
                    lemma_joined_flat(all[i]);
                }
            } else {
                assert forall|i: int| 0 <= i < forms.len() implies is_flat(#[trigger] forms[i]) by {
                    lemma_normal_flat(forms[i]);
                }
                lemma_merged_flat(Seq::empty(), forms);
                lemma_joined_flat(merged_parts(Seq::empty(), forms));
            }
        },
    }
}

/// The models of lists of patterns.
pub open spec fn list_models(lists: Seq<Vec<Pattern>>) -> Seq<Seq<PatternView>> {
    Seq::new(lists.len(), |i: int| models(lists[i]@))
}

proof fn lemma_list_models_push(lists: Seq<Vec<Pattern>>, list: Vec<Pattern>)
    ensures
        list_models(lists.push(list)) == list_models(lists).push(models(list@)),
{
    assert(list_models(lists.push(list)) =~= list_models(lists).push(models(list@)));
}

/// Adds `part` to `list`, merged where it can be.
fn add_part(part: Pattern, list: &mut Vec<Pattern>)
    requires
        is_flat(part@),
    ensures
        models(final(list)@) == merged_part(models(old(list)@), part@),
    decreases part,
{
    broadcast use group_models;

    match part {
        Pattern::Constant(c) => {
            if !c.as_str().is_empty() {
                match list.pop() {
                    Some(Pattern::Constant(last)) => {
                        let mut last: String = last;
                        last.append(c.as_str());
                        list.push(Pattern::Constant(last));
                    },
                    Some(last) => {
                        list.push(last);
                        list.push(Pattern::Constant(c));
                    },
                    None => {
                        list.push(Pattern::Constant(c));
                    },
                }
            }
        },
        Pattern::Dynamic => {
            let ends_dynamic = match list.last() {
                Some(Pattern::Dynamic) => true,
                _ => false,
            };
            if !ends_dynamic {
                list.push(Pattern::Dynamic);
            }
        },
        Pattern::Concatenation(more) => {
            assert forall|i: int| 0 <= i < more@.len() implies is_flat((#[trigger] more@[i])@) by {
                assert(is_atom(parts(part@)[i]));
            }
            add_parts(more, list);
        },
        Pattern::Alternatives(_) => {},
    }
}

/// Adds each of `more` to `list`, merged where it can be.
fn add_parts(more: Vec<Pattern>, list: &mut Vec<Pattern>)
    requires
        forall|i: int| 0 <= i < more@.len() ==> is_flat((#[trigger] more@[i])@),
    ensures
        models(final(list)@) == merged_parts(models(old(list)@), models(more@)),
    decreases more,
{
    let ghost all = models(more@);
    let ghost before = models(list@);
    assert(all.take(0) =~= Seq::empty());
    for part in iter: more
        invariant
            iter.seq() == more@,
            all == models(more@),
            forall|i: int| 0 <= i < more@.len() ==> is_flat((#[trigger] more@[i])@),
            models(list@) == merged_parts(before, all.take(iter.index())),
    {
        broadcast use group_models;

        proof {
            let i = iter.index();
            assert(part == more@[i]);
            assert(all.take(i + 1).drop_last() =~= all.take(i));
            assert(all.take(i + 1).last() == part@);
        }
        add_part(part, list);
    }
    assert(all.take(all.len() as int) =~= all);
}

/// `list` as one pattern: its only part, or the concatenation of its parts.
fn join(list: Vec<Pattern>) -> (res: Pattern)
    ensures
        res@ == joined(models(list@)),
{
    broadcast use group_models;

    let mut list: Vec<Pattern> = list;
    if list.len() == 1 {
        list.swap_remove(0)
    } else {
        Pattern::Concatenation(list)
    }
}

/// Each of `lists` as one pattern.
fn join_all(lists: Vec<Vec<Pattern>>) -> (res: Vec<Pattern>)
    ensures
        models(res@) == all_joined(list_models(lists@)),
{
    let ghost all = all_joined(list_models(lists@));
    let mut res: Vec<Pattern> = Vec::new();
    for list in iter: lists
        invariant
            iter.seq() == lists@,
            all == all_joined(list_models(lists@)),
            models(res@) =~= all.take(iter.index()),
    {
        broadcast use group_models;

        res.push(join(list));
    }
    res
}

/// For each of `tails` in turn, each of `prefixes` followed by the parts of it.
fn extend_by_all(prefixes: &Vec<Vec<Pattern>>, tails: &Vec<Pattern>) -> (res: Vec<Vec<Pattern>>)
    ensures
        list_models(res@) == extended_by_all(list_models(prefixes@), models(tails@)),
{
    let ghost heads = list_models(prefixes@);
    let ghost ends = models(tails@);
    let mut res: Vec<Vec<Pattern>> = Vec::new();
    let mut j: usize = 0;
    assert(ends.take(0) =~= Seq::empty());
    assert(list_models(res@) =~= Seq::empty());
    while j < tails.len()
        invariant
            j <= tails.len(),
            heads == list_models(prefixes@),
            ends == models(tails@),
            list_models(res@) == extended_by_all(heads, ends.take(j as int)),
        decreases tails.len() - j,
    {
        broadcast use group_models;

        let ghost before = list_models(res@);
        let ghost tail = ends[j as int];
        let mut i: usize = 0;
        while i < prefixes.len()
            invariant
                i <= prefixes.len(),
                j < tails.len(),
                heads == list_models(prefixes@),
                tail == tails@[j as int]@,
                list_models(res@) =~= before + extended_by(heads, tail).take(i as int),
            decreases prefixes.len() - i,
        {
            broadcast use group_models;

            let mut list: Vec<Pattern> = clone_list(&prefixes[i]);
            if let Pattern::Concatenation(more) = &tails[j] {
                let mut more: Vec<Pattern> = clone_list(more);
                list.append(&mut more);
            } else {
                list.push(tails[j].clone());
            }
            proof {
                lemma_list_models_push(res@, list);
                assert(models(list@) =~= extended_by(heads, tail)[i as int]);
            }
            res.push(list);
            i += 1;
        }
        proof {
            assert(extended_by(heads, tail).take(i as int) =~= extended_by(heads, tail));
            assert(ends.take(j + 1).drop_last() =~= ends.take(j as int));
        }
        j += 1;
    }
    assert(ends.take(j as int) =~= ends);
    res
}

/// Every way to take one choice from each pattern of `list`, as the parts one gets.
fn combine(list: Vec<Pattern>) -> (res: Vec<Vec<Pattern>>)
    ensures
        list_models(res@) == combinations(models(list@)),
{
    let ghost all = models(list@);
    let mut res: Vec<Vec<Pattern>> = Vec::new();
    res.push(Vec::new());
    assert(all.take(0) =~= Seq::empty());
    assert(models(res@[0]@) =~= Seq::empty());
    assert(list_models(res@) =~= seq![Seq::empty()]);
    for part in iter: list
        invariant
            iter.seq() == list@,
            all == models(list@),
            list_models(res@) == combinations(all.take(iter.index())),
    {
        broadcast use group_models;

        proof {
            let i = iter.index();
            assert(all.take(i + 1).drop_last() =~= all.take(i));
            assert(all.take(i + 1).last() == part@);
        }
        let ghost model = part@;
        let tails: Vec<Pattern> = if let Pattern::Alternatives(tails) = part {
            tails
        } else {
            let mut tails: Vec<Pattern> = Vec::new();
            tails.push(part);
            tails
        };
        assert(models(tails@) =~= choices(model));
        res = extend_by_all(&res, &tails);
    }
    assert(all.take(all.len() as int) =~= all);
    res
}

/// Whether alternatives are among `list`.
fn has_alternatives(list: &Vec<Pattern>) -> (res: bool)
    ensures
        res == any_alternatives(models(list@)),
{
    broadcast use group_models;

    let mut i: usize = 0;
    while i < list.len()
        invariant
            i <= list.len(),
            forall|j: int| 0 <= j < i ==> !(#[trigger] models(list@)[j] is Alternatives),
        decreases list.len() - i,
    {
        broadcast use group_models;

        if let Pattern::Alternatives(_) = &list[i] {
            assert(models(list@)[i as int] is Alternatives);
            return true;
        }
        assert(!(models(list@)[i as int] is Alternatives));
        i += 1;
    }
    false
}

/// The normal forms of `list`.
fn normalize_list(list: Vec<Pattern>) -> (res: Vec<Pattern>)
    ensures
        models(res@) == normal_forms(models(list@)),
    decreases list,
{
    let ghost all = normal_forms(models(list@));
    let mut res: Vec<Pattern> = Vec::new();
    for part in iter: list
        invariant
            iter.seq() == list@,
            all == normal_forms(models(list@)),
            models(res@) =~= all.take(iter.index()),
    {
        broadcast use group_models;

        assert(part == list@[iter.index()]);
        res.push(normalized(part));
    }
    res
}

/// The normal form of `pattern`.
fn normalized(pattern: Pattern) -> (res: Pattern)
    ensures
        res@ == normal_form(pattern@),
    decreases pattern,
{
    broadcast use group_models;

    match pattern {
        Pattern::Constant(c) => Pattern::Constant(c),
        Pattern::Dynamic => Pattern::Dynamic,
        Pattern::Alternatives(list) => Pattern::Alternatives(collect_choices(normalize_list(list))),
        Pattern::Concatenation(list) => {
            let ghost inner = models(list@);
            let list: Vec<Pattern> = normalize_list(list);
            if has_alternatives(&list) {
                Pattern::Alternatives(join_all(combine(list)))
            } else {
                assert forall|i: int| 0 <= i < list@.len() implies is_flat((#[trigger] list@[i])@) by {
                    assert(normal_forms(inner)[i] == models(list@)[i]);
                    law_normal_form_is_normal(inner[i]);
                    lemma_normal_flat(models(list@)[i]);
                }
                let mut merged: Vec<Pattern> = Vec::new();
                add_parts(list, &mut merged);
                join(merged)
            }
        },
    }
}

impl Pattern {
    /// Orders this pattern into alternatives of concatenations of constants and dynamic parts,
    /// and merges neighbouring parts when no alternatives are involved.
    pub fn normalize(&mut self)
        ensures
            final(self)@ == normal_form(old(self)@),
            is_normal(final(self)@),
    {
        let mut pattern: Pattern = Pattern::Dynamic;
        std::mem::swap(self, &mut pattern);
        proof {
            law_normal_form_is_normal(pattern@);
        }
        *self = normalized(pattern);
    }
}

} // verus!
