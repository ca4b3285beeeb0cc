//! Building patterns from other patterns.
use vstd::prelude::*;
use vstd::std_specs::iter::IteratorSpec;
use vstd::string::*;

use crate::pattern::{choices, group_models, models, Pattern, PatternView};

verus! {

/// The choices of each pattern of `list`, in the order of the list.
pub open spec fn all_choices(list: Seq<PatternView>) -> Seq<PatternView>
    decreases list.len(),
{
    if list.len() == 0 {
        Seq::empty()
    } else {
        all_choices(list.drop_last()) + choices(list.last())
    }
}

/// `list` with one more part at its end, merged with the last one where both are constants.
pub open spec fn appended(list: Seq<PatternView>, part: PatternView) -> Seq<PatternView> {
    if part is Constant && list.len() > 0 && list.last() is Constant {
        list.drop_last().push(
            PatternView::Constant(list.last()->Constant_0 + part->Constant_0),
        )
    } else {
        list.push(part)
    }
}

/// `list` with one more part at its start, merged with the first one where both are constants.
pub open spec fn prepended(list: Seq<PatternView>, part: PatternView) -> Seq<PatternView> {
    if part is Constant && list.len() > 0 && list[0] is Constant {
        list.update(0, PatternView::Constant(part->Constant_0 + list[0]->Constant_0))
    } else {
        list.insert(0, part)
    }
}

/// The two lists in a row, merged where constants meet.
pub open spec fn spliced(list: Seq<PatternView>, more: Seq<PatternView>) -> Seq<PatternView> {
    if more.len() == 0 {
        list
    } else {
        appended(list, more[0]) + more.drop_first()
    }
}

/// `first` followed by `second`.
pub open spec fn pushed(first: PatternView, second: PatternView) -> PatternView {
    match (first, second) {
        (PatternView::Concatenation(list), PatternView::Concatenation(more)) =>
            PatternView::Concatenation(spliced(list, more)),
        (PatternView::Concatenation(list), _) => PatternView::Concatenation(appended(list, second)),
        (_, PatternView::Concatenation(list)) => PatternView::Concatenation(prepended(list, first)),
        (PatternView::Constant(s), PatternView::Constant(t)) => PatternView::Constant(s + t),
        _ => PatternView::Concatenation(seq![first, second]),
    }
}

/// `pattern` followed by each of the items.
pub open spec fn pushed_all(pattern: PatternView, items: Seq<PatternView>) -> PatternView
    decreases items.len(),
{
    if items.len() == 0 {
        pattern
    } else {
        pushed_all(pushed(pattern, items[0]), items.drop_first())
    }
}

/// The items one after the other. No item at all makes a dynamic pattern.
pub open spec fn concatenated(items: Seq<PatternView>) -> PatternView {
    if items.len() == 0 {
        PatternView::Dynamic
    } else {
        pushed_all(items[0], items.drop_first())
    }
}

/// `list` with the item at its end, as its parts where it is a concatenation, merged where
/// constants meet.
pub open spec fn gathered_item(list: Seq<PatternView>, item: PatternView) -> Seq<PatternView> {
    match item {
        PatternView::Concatenation(more) => spliced(list, more),
        _ => appended(list, item),
    }
}

/// `list` with each of the items at its end.
pub open spec fn gathered(list: Seq<PatternView>, items: Seq<PatternView>) -> Seq<PatternView>
    decreases items.len(),
{
    if items.len() == 0 {
        list
    } else {
        gathered(gathered_item(list, items[0]), items.drop_first())
    }
}

/// `pattern` followed by the items, as a concatenation. The items of a concatenation are
/// taken over as they are, but for the first one, which may merge.
pub open spec fn extended(pattern: PatternView, items: Seq<PatternView>) -> PatternView {
    match pattern {
        PatternView::Concatenation(list) => PatternView::Concatenation(spliced(list, items)),
        _ => PatternView::Concatenation(gathered(seq![pattern], items)),
    }
}

/// Whether a constant stands anywhere in `pattern`.
pub open spec fn holds_constant(pattern: PatternView) -> bool
    decreases pattern,
{
    match pattern {
        PatternView::Constant(_) => true,
        PatternView::Dynamic => false,
        PatternView::Alternatives(list) => any_holds_constant(list),
        PatternView::Concatenation(list) => any_holds_constant(list),
    }
}

/// Whether a constant stands anywhere in one of the patterns.
pub open spec fn any_holds_constant(list: Seq<PatternView>) -> bool
    decreases list,
{
    exists|i: int| 0 <= i < list.len() && holds_constant(#[trigger] list[i])
}

/// Adds `part` at the end of `list`, merged with the last part where both are constants.
pub fn concatenation_push_or_merge_item(list: &mut Vec<Pattern>, part: Pattern)
    ensures
        models(final(list)@) == appended(models(old(list)@), part@),
{
    broadcast use group_models;

    if let Pattern::Constant(s) = part {
        match list.pop() {
            Some(Pattern::Constant(last)) => {
                let mut last: String = last;
                last.append(s.as_str());
                list.push(Pattern::Constant(last));
            },
            Some(last) => {
                list.push(last);
                list.push(Pattern::Constant(s));
            },
            None => {
                list.push(Pattern::Constant(s));
            },
        }
    } else {
        list.push(part);
    }
}

/// Adds `part` at the start of `list`, merged with the first part where both are constants.
pub fn concatenation_push_front_or_merge_item(list: &mut Vec<Pattern>, part: Pattern)
    ensures
        models(final(list)@) == prepended(models(old(list)@), part@),
{
    broadcast use group_models;

    if let Pattern::Constant(s) = part {
        let mut s: String = s;
        if list.len() > 0 {
            if let Pattern::Constant(first) = &list[0] {
                s.append(first.as_str());
                list[0] = Pattern::Constant(s);
                return ;
            }
        }
        list.insert(0, Pattern::Constant(s));
    } else {
        list.insert(0, part);
    }
}

/// Adds the items at the end of `list`. The first one is merged with the last part where
/// both are constants.
pub fn concatenation_extend_or_merge_items(
    list: &mut Vec<Pattern>,
    iter: impl Iterator<Item = Pattern>,
)
    requires
        iter.obeys_prophetic_iter_laws(),
        iter.decrease() is Some,
    ensures
        models(final(list)@) == spliced(models(old(list)@), models(iter.remaining())),
{
    broadcast use group_models;

    let mut rest = iter;
    if let Some(first) = rest.next() {
        concatenation_push_or_merge_item(list, first);
        proof {
            let all = iter.remaining();
            assert(all =~= seq![first] + all.drop_first());
            assert(models(all).drop_first() =~= models(all.drop_first()));
        }
        loop
            invariant
                rest.obeys_prophetic_iter_laws(),
                rest.decrease() is Some,
                models(list@) + models(rest.remaining()) == spliced(
                    models(old(list)@),
                    models(iter.remaining()),
                ),
            ensures
                models(list@) == spliced(models(old(list)@), models(iter.remaining())),
            decreases rest.decrease()->0,
        {
            broadcast use group_models;

            let ghost ahead = models(rest.remaining());
            match rest.next() {
                Some(item) => {
                    list.push(item);
                    assert(ahead.drop_first() =~= models(rest.remaining()));
                    assert(seq![item@] + ahead.drop_first() =~= ahead);
                },
                None => {
                    break ;
                },
            }
        }
    }
}

/// The choices of two lists in a row are those of the one and those of the other.
pub proof fn lemma_all_choices_add(a: Seq<PatternView>, b: Seq<PatternView>)
    ensures
        all_choices(a + b) == all_choices(a) + all_choices(b),
    decreases b.len(),
{
    if b.len() == 0 {
        assert(a + b =~= a);
        assert(all_choices(a) + all_choices(b) =~= all_choices(a));
    } else {
        lemma_all_choices_add(a, b.drop_last());
        assert((a + b).drop_last() =~= a + b.drop_last());
        assert(all_choices(a + b) =~= all_choices(a) + all_choices(b));
    }
}

/// The choices of a single pattern.
pub proof fn lemma_all_choices_one(pattern: PatternView)
    ensures
        all_choices(seq![pattern]) == choices(pattern),
{
    let one = seq![pattern];
    assert(one.drop_last() =~= Seq::empty());
    assert(all_choices(one.drop_last()) + choices(one.last()) =~= choices(pattern));
}

/// What is ahead of an iterator that is about to hand out `first`.
proof fn lemma_ahead(all: Seq<Pattern>, first: Pattern)
    requires
        all.len() > 0,
        all[0] == first,
    ensures
        models(all).len() > 0,
        models(all)[0] == first@,
        models(all).drop_first() == models(all.drop_first()),
        models(all) == seq![first@] + models(all.drop_first()),
{
    broadcast use group_models;

    assert(models(all).drop_first() =~= models(all.drop_first()));
    assert(models(all) =~= seq![first@] + models(all.drop_first()));
}

/// The choices of each pattern of `list`, in the order of the list.
pub(crate) fn collect_choices(list: Vec<Pattern>) -> (res: Vec<Pattern>)
    ensures
        models(res@) == all_choices(models(list@)),
{
    broadcast use group_models;

    let ghost all = models(list@);
    let mut res: Vec<Pattern> = Vec::new();
    assert(all.take(0) =~= Seq::empty());
    for alt in iter: list
        invariant
            iter.seq() == list@,
            all == models(list@),
            models(res@) == all_choices(all.take(iter.index())),
    {
        broadcast use group_models;

        proof {
            let i = iter.index();
            assert(all.take(i + 1).drop_last() =~= all.take(i));
            assert(all.take(i + 1).last() == alt@);
        }
        if let Pattern::Alternatives(inner) = alt {
            let mut inner: Vec<Pattern> = inner;
            res.append(&mut inner);
        } else {
            let ghost before = models(res@);
            res.push(alt);
            assert(before.push(alt@) =~= before + choices(alt@));
        }
    }
    assert(all.take(all.len() as int) =~= all);
    res
}

/// The list with `pattern` alone.
fn single(pattern: Pattern) -> (res: Vec<Pattern>)
    ensures
        res@ == seq![pattern],
        models(res@) == seq![pattern@],
{
    let mut res: Vec<Pattern> = Vec::new();
    res.push(pattern);
    assert(models(res@) =~= seq![pattern@]);
    res
}

/// `first` followed by `second`.
fn push_onto(first: Pattern, second: Pattern) -> (res: Pattern)
    ensures
        res@ == pushed(first@, second@),
{
    broadcast use group_models;

    match (first, second) {
        (Pattern::Concatenation(list), Pattern::Concatenation(more)) => {
            let mut list: Vec<Pattern> = list;
            concatenation_extend_or_merge_items(&mut list, more.into_iter());
            Pattern::Concatenation(list)
        },
        (Pattern::Concatenation(list), second) => {
            let mut list: Vec<Pattern> = list;
            concatenation_push_or_merge_item(&mut list, second);
            Pattern::Concatenation(list)
        },
        (first, Pattern::Concatenation(list)) => {
            let mut list: Vec<Pattern> = list;
            concatenation_push_front_or_merge_item(&mut list, first);
            Pattern::Concatenation(list)
        },
        (Pattern::Constant(s), Pattern::Constant(t)) => {
            let mut s: String = s;
            s.append(t.as_str());
            Pattern::Constant(s)
        },
        (first, second) => {
            let ghost both = seq![first@, second@];
            let mut list: Vec<Pattern> = single(first);
            list.push(second);
            assert(models(list@) =~= both);
            Pattern::Concatenation(list)
        },
    }
}

impl Pattern {
    /// The text of a constant.
    pub fn into_string(self) -> (res: Option<String>)
        ensures
            match res {
                Some(s) => self@ == PatternView::Constant(s@),
                None => !(self@ is Constant),
            },
    {
        match self {
            Pattern::Constant(s) => Some(s),
            _ => None,
        }
    }

    /// Whether a constant stands anywhere in this pattern.
    pub fn has_constant_parts(&self) -> (res: bool)
        ensures
            res == holds_constant(self@),
        decreases self,
    {
        match self {
            Pattern::Constant(_) => true,
            Pattern::Dynamic => false,
            Pattern::Alternatives(list) => any_constant_parts(list),
            Pattern::Concatenation(list) => any_constant_parts(list),
        }
    }

    /// Adds the items at the end of this pattern.
    pub fn extend(&mut self, concatenated: impl Iterator<Item = Pattern>)
        requires
            concatenated.obeys_prophetic_iter_laws(),
            concatenated.decrease() is Some,
        ensures
            final(self)@ == extended(old(self)@, models(concatenated.remaining())),
    {
        broadcast use group_models;

        let mut this: Pattern = Pattern::Dynamic;
        std::mem::swap(self, &mut this);
        if let Pattern::Concatenation(list) = this {
            let mut list: Vec<Pattern> = list;
            concatenation_extend_or_merge_items(&mut list, concatenated);
            *self = Pattern::Concatenation(list);
        } else {
            let ghost start = this@;
            let mut list: Vec<Pattern> = single(this);
            let mut rest = concatenated;
            loop
                invariant
                    rest.obeys_prophetic_iter_laws(),
                    rest.decrease() is Some,
                    gathered(models(list@), models(rest.remaining())) == gathered(
                        seq![start],
                        models(concatenated.remaining()),
                    ),
                ensures
                    models(list@) == gathered(seq![start], models(concatenated.remaining())),
                decreases rest.decrease()->0,
            {
                broadcast use group_models;

                let ghost before = rest;
                match rest.next() {
                    Some(item) => {
                        proof {
                            lemma_ahead(before.remaining(), item);
                        }
                        if let Pattern::Concatenation(more) = item {
                            concatenation_extend_or_merge_items(&mut list, more.into_iter());
                        } else {
                            concatenation_push_or_merge_item(&mut list, item);
                        }
                    },
                    None => {
                        break ;
                    },
                }
            }
            *self = Pattern::Concatenation(list);
        }
    }

    /// Adds `pat` at the end of this pattern.
    pub fn push(&mut self, pat: Pattern)
        ensures
            final(self)@ == pushed(old(self)@, pat@),
    {
        let mut this: Pattern = Pattern::Dynamic;
        std::mem::swap(self, &mut this);
        *self = push_onto(this, pat);
    }

    /// Adds `pat` at the start of this pattern.
    pub fn push_front(&mut self, pat: Pattern)
        ensures
            final(self)@ == pushed(pat@, old(self)@),
    {
        let mut this: Pattern = Pattern::Dynamic;
        std::mem::swap(self, &mut this);
        *self = push_onto(pat, this);
    }

    /// The choice between the patterns. Alternatives among them are taken over one by one.
    pub fn alternatives(alts: impl Iterator<Item = Pattern>) -> (res: Self)
        requires
            alts.obeys_prophetic_iter_laws(),
            alts.decrease() is Some,
        ensures
            res@ == PatternView::Alternatives(all_choices(models(alts.remaining()))),
    {
        let mut list: Vec<Pattern> = Vec::new();
        let mut rest = alts;
        assert(models(list@) + all_choices(models(rest.remaining())) =~= all_choices(
            models(alts.remaining()),
        ));
        loop
            invariant
                rest.obeys_prophetic_iter_laws(),
                rest.decrease() is Some,
                models(list@) + all_choices(models(rest.remaining())) == all_choices(
                    models(alts.remaining()),
                ),
            ensures
                models(list@) == all_choices(models(alts.remaining())),
            decreases rest.decrease()->0,
        {
            broadcast use group_models;

            let ghost before = rest;
            let ghost so_far = models(list@);
            match rest.next() {
                Some(alt) => {
                    proof {
                        lemma_ahead(before.remaining(), alt);
                        lemma_all_choices_add(seq![alt@], models(rest.remaining()));
                        lemma_all_choices_one(alt@);
                        assert(so_far + (choices(alt@) + all_choices(models(rest.remaining())))
                            =~= (so_far + choices(alt@)) + all_choices(models(rest.remaining())));
                    }
                    let ghost model = alt@;
                    if let Pattern::Alternatives(inner) = alt {
                        let mut inner: Vec<Pattern> = inner;
                        list.append(&mut inner);
                    } else {
                        list.push(alt);
                    }
                    assert(models(list@) =~= so_far + choices(model));
                },
                None => {
                    assert(models(list@) + all_choices(models(rest.remaining())) =~= models(list@));
                    break ;
                },
            }
        }
        Pattern::Alternatives(list)
    }

    /// The patterns one after the other. No pattern at all makes a dynamic one.
    pub fn concat(items: impl Iterator<Item = Pattern>) -> (res: Self)
        requires
            items.obeys_prophetic_iter_laws(),
            items.decrease() is Some,
        ensures
            res@ == concatenated(models(items.remaining())),
    {
        broadcast use group_models;

        let mut rest = items;
        match rest.next() {
            Some(first) => {
                proof {
                    lemma_ahead(items.remaining(), first);
                }
                let mut current: Pattern = first;
                loop
                    invariant
                        rest.obeys_prophetic_iter_laws(),
                        rest.decrease() is Some,
                        pushed_all(current@, models(rest.remaining())) == concatenated(
                            models(items.remaining()),
                        ),
                    ensures
                        current@ == concatenated(models(items.remaining())),
                    decreases rest.decrease()->0,
                {
                    broadcast use group_models;

                    let ghost before = rest;
                    match rest.next() {
                        Some(item) => {
                            proof {
                                lemma_ahead(before.remaining(), item);
                            }
                            current.push(item);
                        },
                        None => {
                            break ;
                        },
                    }
                }
                current
            },
            None => Pattern::default(),
        }
    }
}

/// Whether a constant stands anywhere in one of the patterns.
fn any_constant_parts(list: &Vec<Pattern>) -> (res: bool)
    ensures
        res == any_holds_constant(models(list@)),
    decreases list,
{
    let mut i: usize = 0;
    while i < list.len()
        invariant
            i <= list.len(),
            forall|j: int| 0 <= j < i ==> !holds_constant(#[trigger] models(list@)[j]),
        decreases list.len() - i,
    {
        broadcast use group_models;

        if list[i].has_constant_parts() {
            assert(holds_constant(models(list@)[i as int]));
            return true;
        }
        assert(!holds_constant(models(list@)[i as int]));
        i += 1;
    }
    false
}

impl From<String> for Pattern {
    fn from(s: String) -> (res: Self) {
        Pattern::Constant(s)
    }
}

impl vstd::std_specs::convert::FromSpecImpl<String> for Pattern {
    open spec fn obeys_from_spec() -> bool {
        true
    }

    open spec fn from_spec(s: String) -> Self {
        Pattern::Constant(s)
    }
}

} // verus!
