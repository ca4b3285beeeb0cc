//! The pattern type and its mathematical model.
use vstd::prelude::*;

verus! {

/// A pattern over request strings.
#[derive(PartialEq, Eq, PartialOrd, Ord, Hash, Debug)]
pub enum Pattern {
    /// Exactly this text.
    Constant(String),
    /// Any text, apart from what the matching rules forbid.
    Dynamic,
    /// Any one of these patterns.
    Alternatives(Vec<Pattern>),
    /// These patterns, one after the other.
    Concatenation(Vec<Pattern>),
}

/// The mathematical model of a [`Pattern`].
pub enum PatternView {
    Constant(Seq<char>),
    Dynamic,
    Alternatives(Seq<PatternView>),
    Concatenation(Seq<PatternView>),
}

impl Pattern {
    /// The model of this pattern: the same tree over mathematical sequences.
    pub open spec fn model(self) -> PatternView
        decreases self,
    {
        match self {
            Pattern::Constant(s) => PatternView::Constant(s@),
            Pattern::Dynamic => PatternView::Dynamic,
            Pattern::Alternatives(list) => PatternView::Alternatives(models(list@)),
            Pattern::Concatenation(list) => PatternView::Concatenation(models(list@)),
        }
    }
}

/// The models of a list of patterns.
pub open spec fn models(list: Seq<Pattern>) -> Seq<PatternView>
    decreases list,
{
    Seq::new(
        list.len(),
        |i: int|
            if 0 <= i < list.len() {
                list[i].model()
            } else {
                PatternView::Dynamic
            },
    )
}

impl View for Pattern {
    type V = PatternView;

    open spec fn view(&self) -> PatternView {
        self.model()
    }
}

/// The patterns that `pattern` chooses from: its alternatives, or itself alone.
pub open spec fn choices(pattern: PatternView) -> Seq<PatternView> {
    match pattern {
        PatternView::Alternatives(list) => list,
        _ => seq![pattern],
    }
}

/// The parts that `pattern` is made of: those of a concatenation, or itself alone.
pub open spec fn parts(pattern: PatternView) -> Seq<PatternView> {
    match pattern {
        PatternView::Concatenation(list) => list,
        _ => seq![pattern],
    }
}

/// The models of a list stand in the order of the list.
pub broadcast proof fn lemma_models_index(list: Seq<Pattern>, i: int)
    requires
        0 <= i < list.len(),
    ensures
        #[trigger] models(list)[i] == list[i].model(),
{
}

pub broadcast proof fn lemma_models_len(list: Seq<Pattern>)
    ensures
        #[trigger] models(list).len() == list.len(),
{
}

pub broadcast proof fn lemma_models_push(list: Seq<Pattern>, item: Pattern)
    ensures
        #[trigger] models(list.push(item)) == models(list).push(item@),
{
    assert(models(list.push(item)) =~= models(list).push(item@));
}

pub broadcast proof fn lemma_models_add(a: Seq<Pattern>, b: Seq<Pattern>)
    ensures
        #[trigger] models(a + b) == models(a) + models(b),
{
    assert(models(a + b) =~= models(a) + models(b));
}

pub broadcast proof fn lemma_models_subrange(list: Seq<Pattern>, i: int, j: int)
    requires
        0 <= i <= j <= list.len(),
    ensures
        #[trigger] models(list.subrange(i, j)) == models(list).subrange(i, j),
{
    assert(models(list.subrange(i, j)) =~= models(list).subrange(i, j));
}

pub broadcast proof fn lemma_models_update(list: Seq<Pattern>, i: int, item: Pattern)
    requires
        0 <= i < list.len(),
    ensures
        #[trigger] models(list.update(i, item)) == models(list).update(i, item@),
{
    assert(models(list.update(i, item)) =~= models(list).update(i, item@));
}

pub broadcast proof fn lemma_models_insert(list: Seq<Pattern>, i: int, item: Pattern)
    requires
        0 <= i <= list.len(),
    ensures
        #[trigger] models(list.insert(i, item)) == models(list).insert(i, item@),
{
    assert(models(list.insert(i, item)) =~= models(list).insert(i, item@));
}

pub broadcast proof fn lemma_models_empty()
    ensures
        #[trigger] models(Seq::empty()) == Seq::<PatternView>::empty(),
{
    assert(models(Seq::empty()) =~= Seq::<PatternView>::empty());
}

/// How the models of a list follow the operations on the list.
pub broadcast group group_models {
    lemma_models_index,
    lemma_models_len,
    lemma_models_push,
    lemma_models_add,
    lemma_models_subrange,
    lemma_models_update,
    lemma_models_insert,
    lemma_models_empty,
}

/// The copy of a list of patterns.
pub(crate) fn clone_list(list: &Vec<Pattern>) -> (res: Vec<Pattern>)
    ensures
        models(res@) == models(list@),
    decreases list,
{
    let mut res: Vec<Pattern> = Vec::new();
    let mut i: usize = 0;
    while i < list.len()
        invariant
            i <= list.len(),
            models(res@) =~= models(list@).take(i as int),
        decreases list.len() - i,
    {
        broadcast use group_models;

        res.push(list[i].clone());
        i += 1;
    }
    res
}

impl Clone for Pattern {
    fn clone(&self) -> (res: Self)
        ensures
            res@ == self@,
        decreases self,
    {
        match self {
            Pattern::Constant(s) => Pattern::Constant(s.clone()),
            Pattern::Dynamic => Pattern::Dynamic,
            Pattern::Alternatives(list) => Pattern::Alternatives(clone_list(list)),
            Pattern::Concatenation(list) => Pattern::Concatenation(clone_list(list)),
        }
    }
}

impl Default for Pattern {
    fn default() -> (res: Self)
        ensures
            res@ == PatternView::Dynamic,
    {
        Pattern::Dynamic
    }
}

} // verus!
