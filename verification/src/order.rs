//! What a search reports, and the order in which it reports it.
use vstd::prelude::*;
use vstd::relations::{
    antisymmetric, reflexive, sorted_by, strongly_connected, total_ordering, transitive,
};
use vstd::seq_lib::{group_to_multiset_ensures, lemma_sorted_unique};
use vstd::utf8::encode_utf8;

use crate::text::lemma_encode_injective;

verus! {

/// Something that matches a pattern: the text that matches, and a number that stands for the
/// path that was found.
#[derive(Debug, PartialEq, Eq, PartialOrd, Ord)]
pub enum PatternMatch {
    File(String, u64),
    Directory(String, u64),
}

/// The mathematical model of a [`PatternMatch`].
pub enum PatternMatchView {
    File(Seq<char>, u64),
    Directory(Seq<char>, u64),
}

impl View for PatternMatch {
    type V = PatternMatchView;

    open spec fn view(&self) -> PatternMatchView {
        match *self {
            PatternMatch::File(text, path) => PatternMatchView::File(text@, path),
            PatternMatch::Directory(text, path) => PatternMatchView::Directory(text@, path),
        }
    }
}

impl PatternMatchView {
    /// The text that matches.
    pub open spec fn text(self) -> Seq<char> {
        match self {
            PatternMatchView::File(text, _) => text,
            PatternMatchView::Directory(text, _) => text,
        }
    }

    /// The path that was found.
    pub open spec fn path(self) -> u64 {
        match self {
            PatternMatchView::File(_, path) => path,
            PatternMatchView::Directory(_, path) => path,
        }
    }
}

impl Clone for PatternMatch {
    fn clone(&self) -> (res: Self)
        ensures
            res@ == self@,
    {
        match self {
            PatternMatch::File(text, path) => PatternMatch::File(text.clone(), *path),
            PatternMatch::Directory(text, path) => PatternMatch::Directory(text.clone(), *path),
        }
    }
}

/// All that a search reports.
#[derive(Debug, PartialEq, Eq)]
pub struct PatternMatches(pub Vec<PatternMatch>);

/// A match with the position of the alternative that it matches.
pub type Ranked = (int, PatternMatchView);

/// The models of a list of matches.
pub open spec fn match_models(list: Seq<PatternMatch>) -> Seq<PatternMatchView> {
    Seq::new(list.len(), |i: int| list[i]@)
}

/// The models of a list of matches with their positions.
pub open spec fn ranked_models(list: Seq<(usize, PatternMatch)>) -> Seq<Ranked> {
    Seq::new(list.len(), |i: int| (list[i].0 as int, list[i].1@))
}

/// Whether `a` does not come after `b` in the order of their bytes.
pub open spec fn bytes_precede(a: Seq<u8>, b: Seq<u8>) -> bool
    decreases a.len(),
{
    if a.len() == 0 {
        true
    } else if b.len() == 0 {
        false
    } else if a[0] != b[0] {
        a[0] < b[0]
    } else {
        bytes_precede(a.drop_first(), b.drop_first())
    }
}

/// Whether match `a` does not come after match `b`: files come first, then the texts count,
/// then the paths.
pub open spec fn match_precedes(a: PatternMatchView, b: PatternMatchView) -> bool {
    if a is File != b is File {
        a is File
    } else if a.text() != b.text() {
        bytes_precede(encode_utf8(a.text()), encode_utf8(b.text()))
    } else {
        a.path() <= b.path()
    }
}

/// Whether `a` does not come after `b`: the positions count first, then the matches.
pub open spec fn precedes(a: Ranked, b: Ranked) -> bool {
    if a.0 != b.0 {
        a.0 < b.0
    } else {
        match_precedes(a.1, b.1)
    }
}

/// The order of what is reported.
pub open spec fn ranking() -> spec_fn(Ranked, Ranked) -> bool {
    |a: Ranked, b: Ranked| precedes(a, b)
}

/// `list` in order.
pub open spec fn in_order(list: Seq<Ranked>) -> Seq<Ranked> {
    list.sort_by(ranking())
}

proof fn lemma_bytes_total(a: Seq<u8>, b: Seq<u8>)
    ensures
        bytes_precede(a, b) || bytes_precede(b, a),
        bytes_precede(a, b) && bytes_precede(b, a) ==> a == b,
        bytes_precede(a, a),
    decreases a.len(),
{
    if a.len() > 0 {
        lemma_bytes_total(a.drop_first(), a.drop_first());
    }
    if a.len() == 0 && b.len() == 0 {
        assert(a =~= b);
    }
    if a.len() > 0 && b.len() > 0 && a[0] == b[0] {
        lemma_bytes_total(a.drop_first(), b.drop_first());
        if a.drop_first() == b.drop_first() {
            assert(a =~= seq![a[0]] + a.drop_first());
            assert(b =~= seq![b[0]] + b.drop_first());
        }
    }
}

proof fn lemma_bytes_transitive(a: Seq<u8>, b: Seq<u8>, c: Seq<u8>)
    requires
        bytes_precede(a, b),
        bytes_precede(b, c),
    ensures
        bytes_precede(a, c),
    decreases a.len(),
{
    if a.len() > 0 && b.len() > 0 && c.len() > 0 && a[0] == b[0] && b[0] == c[0] {
        lemma_bytes_transitive(a.drop_first(), b.drop_first(), c.drop_first());
    }
}

/// Any two reports are ordered one way, and only equal ones both ways.
pub proof fn law_ranking_is_total()
    ensures
        total_ordering(ranking()),
{
    let leq = ranking();
    assert forall|a: Ranked| #[trigger] leq(a, a) by {}
    assert forall|a: Ranked, b: Ranked| #[trigger] leq(a, b) && #[trigger] leq(b, a) implies a == b by {
        if a.1.text() != b.1.text() {
            lemma_bytes_total(encode_utf8(a.1.text()), encode_utf8(b.1.text()));
            lemma_encode_injective(a.1.text(), b.1.text());
        }
    }
    assert forall|a: Ranked, b: Ranked, c: Ranked| #[trigger]
        leq(a, b) && #[trigger] leq(b, c) implies leq(a, c) by {
        let (s, t, u) = (encode_utf8(a.1.text()), encode_utf8(b.1.text()), encode_utf8(c.1.text()));
        if bytes_precede(s, t) && bytes_precede(t, u) {
            lemma_bytes_transitive(s, t, u);
        }
        if bytes_precede(s, t) && bytes_precede(t, s) {
            lemma_bytes_total(s, t);
            if s == t {
                lemma_encode_injective(a.1.text(), b.1.text());
            }
        }
    }
    assert forall|a: Ranked, b: Ranked| #[trigger] leq(a, b) || #[trigger] leq(b, a) by {
        lemma_bytes_total(encode_utf8(a.1.text()), encode_utf8(b.1.text()));
    }
    assert(reflexive(leq));
    assert(antisymmetric(leq));
    assert(transitive(leq));
    assert(strongly_connected(leq));
}

/// What is reported in order is sorted and holds what was there before, as often as before.
pub proof fn law_in_order(list: Seq<Ranked>)
    ensures
        in_order(list).to_multiset() == list.to_multiset(),
        forall|i: int, j: int|
            0 <= i < j < list.len() ==> precedes(#[trigger] in_order(list)[i], #[trigger] in_order(list)[j]),
{
    broadcast use group_to_multiset_ensures;

    law_ranking_is_total();
    list.lemma_sort_by_ensures(ranking());
    assert(in_order(list).to_multiset().len() == list.to_multiset().len());
    let leq = ranking();
    assert forall|i: int, j: int| 0 <= i < j < list.len() implies precedes(
        #[trigger] in_order(list)[i],
        #[trigger] in_order(list)[j],
    ) by {
        assert(leq(in_order(list)[i], in_order(list)[j]));
    }
}

/// Whether `a` does not come after `b` in the order of their bytes.
fn text_precedes(a: &str, b: &str) -> (res: bool)
    ensures
        res == bytes_precede(encode_utf8(a@), encode_utf8(b@)),
{
    let x = a.as_bytes();
    let y = b.as_bytes();
    let mut i: usize = 0;
    assert(x@.skip(0) =~= x@);
    assert(y@.skip(0) =~= y@);
    while i < x.len() && i < y.len() && x[i] == y[i]
        invariant
            i <= x@.len(),
            i <= y@.len(),
            bytes_precede(x@, y@) == bytes_precede(x@.skip(i as int), y@.skip(i as int)),
        decreases x@.len() - i,
    {
        assert(x@.skip(i as int).drop_first() =~= x@.skip(i + 1));
        assert(y@.skip(i as int).drop_first() =~= y@.skip(i + 1));
        i += 1;
    }
    if i == x.len() {
        true
    } else if i == y.len() {
        false
    } else {
        x[i] < y[i]
    }
}

/// Whether match `a` does not come after match `b`.
fn before_match(a: &PatternMatch, b: &PatternMatch) -> (res: bool)
    ensures
        res == match_precedes(a@, b@),
{
    match (a, b) {
        (PatternMatch::File(_, _), PatternMatch::Directory(_, _)) => true,
        (PatternMatch::Directory(_, _), PatternMatch::File(_, _)) => false,
        (PatternMatch::File(s, p), PatternMatch::File(t, q)) => if *s == *t {
            *p <= *q
        } else {
            text_precedes(s.as_str(), t.as_str())
        },
        (PatternMatch::Directory(s, p), PatternMatch::Directory(t, q)) => if *s == *t {
            *p <= *q
        } else {
            text_precedes(s.as_str(), t.as_str())
        },
    }
}

/// Whether `a` does not come after `b`.
fn before(a: &(usize, PatternMatch), b: &(usize, PatternMatch)) -> (res: bool)
    ensures
        res == precedes((a.0 as int, a.1@), (b.0 as int, b.1@)),
{
    if a.0 != b.0 {
        a.0 < b.0
    } else {
        before_match(&a.1, &b.1)
    }
}

/// Puts `item` behind all that does not come after it.
fn insert_in_order(list: &mut Vec<(usize, PatternMatch)>, item: (usize, PatternMatch))
    requires
        sorted_by(ranked_models(old(list)@), ranking()),
    ensures
        sorted_by(ranked_models(final(list)@), ranking()),
        ranked_models(final(list)@).to_multiset() == ranked_models(old(list)@).to_multiset().insert(
            (item.0 as int, item.1@),
        ),
{
    let ghost models = ranked_models(list@);
    let ghost new = (item.0 as int, item.1@);
    let ghost leq = ranking();
    proof {
        law_ranking_is_total();
    }
    let mut low: usize = 0;
    let mut high: usize = list.len();
    while low < high
        invariant
            low <= high <= list.len(),
            models == ranked_models(list@),
            new == (item.0 as int, item.1@),
            leq == ranking(),
            total_ordering(leq),
            sorted_by(models, leq),
            forall|i: int| 0 <= i < low ==> leq(#[trigger] models[i], new),
            forall|i: int| high <= i < models.len() ==> leq(new, #[trigger] models[i]),
        decreases high - low,
    {
        let middle: usize = low + (high - low) / 2;
        let ghost pivot = models[middle as int];
        assert(pivot == (list@[middle as int].0 as int, list@[middle as int].1@));
        assert(leq(pivot, new) == precedes(pivot, new));
        assert(leq(pivot, new) || leq(new, pivot));
        if before(&list[middle], &item) {
            assert forall|i: int| 0 <= i < middle + 1 implies leq(#[trigger] models[i], new) by {
                if i < middle {
                    assert(leq(models[i], pivot));
                }
            }
            low = middle + 1;
        } else {
            assert forall|i: int| middle <= i < models.len() implies leq(new, #[trigger] models[i]) by {
                if i > middle {
                    assert(leq(pivot, models[i]));
                }
            }
            high = middle;
        }
    }
    list.insert(low, item);
    proof {
        broadcast use group_to_multiset_ensures;

        assert(ranked_models(list@) =~= models.insert(low as int, new));
    }
}

/// Puts the reports in order.
pub(crate) fn sort(list: Vec<(usize, PatternMatch)>) -> (res: Vec<(usize, PatternMatch)>)
    ensures
        ranked_models(res@) == in_order(ranked_models(list@)),
{
    broadcast use group_to_multiset_ensures;

    let ghost all = ranked_models(list@);
    let mut res: Vec<(usize, PatternMatch)> = Vec::new();
    assert(all.take(0) =~= Seq::empty());
    assert(ranked_models(res@) =~= Seq::empty());
    for item in iter: list
        invariant
            iter.seq() == list@,
            all == ranked_models(list@),
            sorted_by(ranked_models(res@), ranking()),
            ranked_models(res@).to_multiset() == all.take(iter.index()).to_multiset(),
    {
        proof {
            broadcast use group_to_multiset_ensures;

            let i = iter.index();
            assert(all.take(i + 1) =~= all.take(i).push((item.0 as int, item.1@)));
        }
        insert_in_order(&mut res, item);
    }
    proof {
        assert(all.take(all.len() as int) =~= all);
        law_ranking_is_total();
        all.lemma_sort_by_ensures(ranking());
        lemma_sorted_unique(ranked_models(res@), in_order(all), ranking());
    }
    res
}

} // verus!
