//! Finding the files and directories that match a pattern.
//!
//! A search walks a directory tree, which is somebody else's work. What it makes of an answer
//! and in which order it reports the matches is decided here.
//!
//! A search for a pattern in a directory, where `prefix` is the text that leads there:
//! - [`planned`](crate::lookup::planned) tells whether a finite list of paths is enough. If
//!   so, each of them is looked up, and the answer goes to [`Search::record_probe`] or
//!   [`Search::record_descent`].
//! - If not, the directory is listed, and [`list_directory`] holds what it offers against the
//!   pattern. [`wants_target`] tells of which links the target is to be read before.
//! - The searches in [`Search::nested`] are made in turn, and [`finish`] puts it all together.
use vstd::prelude::*;
use vstd::seq_lib::group_to_multiset_ensures;

use crate::lookup::{
    candidate_models, entry_candidates, entry_offers, goes_on_from, law_candidates_go_on,
    law_planned_ends_complete, law_planned_searches_go_on, planned_steps, relative_candidates,
    relatives, Candidate, CandidateView, Effect, EntryKind, LinkTarget, Step,
};
use crate::matching::{answers, answers_at, askable, first_answer, Query};
use crate::matching_laws::law_normalized_can_be_asked;
use crate::normalize::normal_form;
use crate::order::{
    in_order, law_in_order, match_models, ranked_models, sort, PatternMatch, PatternMatchView, PatternMatches,
    Ranked,
};
use crate::pattern::{Pattern, PatternView};
use crate::text::{concat, has_prefix};

verus! {

/// A search to be made below the current one.
#[derive(Debug, PartialEq, Eq)]
pub struct Request {
    /// The directory to search in.
    pub path: u64,
    /// The text that leads there.
    pub prefix: String,
    /// Whether the search must not leave the directory upwards.
    pub force: bool,
}

/// The mathematical model of a [`Request`].
pub struct RequestView {
    pub path: u64,
    pub prefix: Seq<char>,
    pub force: bool,
}

impl View for Request {
    type V = RequestView;

    open spec fn view(&self) -> RequestView {
        RequestView { path: self.path, prefix: self.prefix@, force: self.force }
    }
}

/// What a search has come to: what it reports and the searches below it, each with the
/// position of the alternative that led there.
#[derive(Debug, PartialEq, Eq)]
pub struct Search {
    pub results: Vec<(usize, PatternMatch)>,
    pub nested: Vec<(usize, Request)>,
}

/// The mathematical model of a [`Search`].
pub struct SearchView {
    pub results: Seq<Ranked>,
    pub nested: Seq<(int, RequestView)>,
}

/// The models of a list of requests with their positions.
pub open spec fn request_models(list: Seq<(usize, Request)>) -> Seq<(int, RequestView)> {
    Seq::new(list.len(), |i: int| (list[i].0 as int, list[i].1@))
}

impl View for Search {
    type V = SearchView;

    open spec fn view(&self) -> SearchView {
        SearchView {
            results: ranked_models(self.results@),
            nested: request_models(self.nested@),
        }
    }
}

impl SearchView {
    /// This search with one more report.
    pub open spec fn reporting(self, position: int, found: PatternMatchView) -> SearchView {
        SearchView { results: self.results.push((position, found)), nested: self.nested }
    }

    /// This search with one more search below it.
    pub open spec fn descending(self, position: int, request: RequestView) -> SearchView {
        SearchView { results: self.results, nested: self.nested.push((position, request)) }
    }

    /// This search after the pattern has answered for `candidate`, whose link, if it is one,
    /// points to `target`.
    pub open spec fn recording(
        self,
        position: int,
        candidate: CandidateView,
        target: LinkTarget,
    ) -> SearchView {
        let file = PatternMatchView::File(candidate.text, candidate.path);
        let directory = PatternMatchView::Directory(candidate.text, candidate.path);
        match candidate.effect {
            Effect::File => self.reporting(position, file),
            Effect::Directory => self.reporting(position, directory),
            Effect::Link { directory_only } => match target {
                LinkTarget::Directory => self.reporting(position, directory),
                LinkTarget::File => if directory_only {
                    self
                } else {
                    self.reporting(position, file)
                },
                LinkTarget::Broken => self,
            },
            Effect::Descend { force } => self.descending(
                position,
                RequestView { path: candidate.path, prefix: candidate.text, force },
            ),
        }
    }
}

/// What is reported of a path that was looked up.
pub open spec fn probe_report(
    text: Seq<char>,
    path: u64,
    kind: EntryKind,
    target: LinkTarget,
) -> Option<PatternMatchView> {
    match (kind, target) {
        (EntryKind::File, _) => Some(PatternMatchView::File(text, path)),
        (EntryKind::Directory, _) => Some(PatternMatchView::Directory(text, path)),
        (EntryKind::Symlink, LinkTarget::File) => Some(PatternMatchView::File(text, path)),
        (EntryKind::Symlink, LinkTarget::Directory) => Some(
            PatternMatchView::Directory(text, path),
        ),
        _ => None,
    }
}

/// Whether a path that was looked up counts: a search that must not leave its directory
/// takes only what is inside.
pub fn admits(force: bool, inside: bool) -> (res: bool)
    ensures
        res == (force ==> inside),
{
    !force || inside
}

impl Search {
    /// A search that has found nothing yet.
    pub fn new() -> (res: Self)
        ensures
            res@ == (SearchView { results: Seq::empty(), nested: Seq::empty() }),
    {
        let res = Search { results: Vec::new(), nested: Vec::new() };
        assert(res@.results =~= Seq::empty());
        assert(res@.nested =~= Seq::empty());
        res
    }

    /// Adds a report.
    fn report(&mut self, position: usize, found: PatternMatch)
        ensures
            final(self)@ == old(self)@.reporting(position as int, found@),
    {
        let ghost before = self@;
        self.results.push((position, found));
        assert(self@.results =~= before.results.push((position as int, found@)));
    }

    /// Adds a search below this one.
    fn descend(&mut self, position: usize, request: Request)
        ensures
            final(self)@ == old(self)@.descending(position as int, request@),
    {
        let ghost before = self@;
        self.nested.push((position, request));
        assert(self@.nested =~= before.nested.push((position as int, request@)));
    }

    /// Takes in that the pattern has answered for `candidate`, whose link, if it is one,
    /// points to `target`.
    pub fn record(&mut self, position: usize, candidate: Candidate, target: LinkTarget)
        ensures
            final(self)@ == old(self)@.recording(position as int, candidate@, target),
    {
        let text: String = candidate.text;
        let path: u64 = candidate.path;
        match candidate.effect {
            Effect::File => self.report(position, PatternMatch::File(text, path)),
            Effect::Directory => self.report(position, PatternMatch::Directory(text, path)),
            Effect::Link { directory_only } => match target {
                LinkTarget::Directory => self.report(position, PatternMatch::Directory(text, path)),
                LinkTarget::File => if !directory_only {
                    self.report(position, PatternMatch::File(text, path))
                },
                LinkTarget::Broken => {},
            },
            Effect::Descend { force } => self.descend(
                position,
                Request { path, prefix: text, force },
            ),
        }
    }

    /// Takes in what was found at the path of a step that the pattern ends with.
    pub fn record_probe(
        &mut self,
        prefix: &str,
        step: &Step,
        path: u64,
        kind: EntryKind,
        target: LinkTarget,
    )
        ensures
            final(self)@ == (match probe_report(prefix@ + step.path@, path, kind, target) {
                Some(found) => old(self)@.reporting(0, found),
                None => old(self)@,
            }),
    {
        let text: String = concat(prefix, step.path.as_str());
        match (kind, target) {
            (EntryKind::File, _) => self.report(0, PatternMatch::File(text, path)),
            (EntryKind::Directory, _) => self.report(0, PatternMatch::Directory(text, path)),
            (EntryKind::Symlink, LinkTarget::File) => self.report(0, PatternMatch::File(text, path)),
            (EntryKind::Symlink, LinkTarget::Directory) => self.report(
                0,
                PatternMatch::Directory(text, path),
            ),
            _ => {},
        }
    }

    /// Takes in that the search goes on below the path of a step.
    pub fn record_descent(&mut self, prefix: &str, step: &Step, path: u64, force: bool)
        ensures
            final(self)@ == old(self)@.descending(
                0,
                RequestView { path, prefix: prefix@ + step.path@, force },
            ),
    {
        let text: String = concat(prefix, step.path.as_str());
        self.descend(0, Request { path, prefix: text, force })
    }

    /// Whether what the only search below finds is all there is to report.
    pub fn is_delegated(&self) -> (res: bool)
        ensures
            res == (self@.results.len() == 0 && self@.nested.len() == 1),
    {
        self.results.len() == 0 && self.nested.len() == 1
    }
}

/// The first choice of `pattern` that answers `query` for `value`.
pub open spec fn answer_position(pattern: PatternView, query: Query, value: Seq<char>) -> int {
    choose|i: int| first_answer(pattern, query, value, i)
}

/// There is only one first answer.
proof fn lemma_answer_position(pattern: PatternView, query: Query, value: Seq<char>, i: int)
    requires
        first_answer(pattern, query, value, i),
    ensures
        answer_position(pattern, query, value) == i,
        answers(pattern, query, value),
{
    let j = answer_position(pattern, query, value);
    assert(first_answer(pattern, query, value, j));
    if i < j {
        assert(!answers_at(pattern, query, value, i));
    }
    if j < i {
        assert(!answers_at(pattern, query, value, j));
    }
}

/// Whether each of the candidates can be held against `pattern`.
pub open spec fn all_askable(pattern: PatternView, candidates: Seq<CandidateView>) -> bool {
    forall|i: int|
        0 <= i < candidates.len() ==> askable(
            pattern,
            (#[trigger] candidates[i]).query,
            candidates[i].text,
        )
}

impl SearchView {
    /// This search after `candidate` was held against `pattern`.
    pub open spec fn considering(
        self,
        pattern: PatternView,
        candidate: CandidateView,
        target: LinkTarget,
    ) -> SearchView {
        if answers(pattern, candidate.query, candidate.text) {
            self.recording(
                answer_position(pattern, candidate.query, candidate.text),
                candidate,
                target,
            )
        } else {
            self
        }
    }

    /// This search after the candidates were held against `pattern`, in their order.
    pub open spec fn considering_all(
        self,
        pattern: PatternView,
        candidates: Seq<CandidateView>,
        target: LinkTarget,
    ) -> SearchView
        decreases candidates.len(),
    {
        if candidates.len() == 0 {
            self
        } else {
            self.considering_all(pattern, candidates.drop_last(), target).considering(
                pattern,
                candidates.last(),
                target,
            )
        }
    }
}

/// An entry of a directory.
#[derive(Debug, PartialEq, Eq)]
pub struct Entry {
    pub key: String,
    pub kind: EntryKind,
    pub path: u64,
    /// What the entry points to, if it is a link.
    pub target: LinkTarget,
}

/// The mathematical model of an [`Entry`].
pub struct EntryView {
    pub key: Seq<char>,
    pub kind: EntryKind,
    pub path: u64,
    pub target: LinkTarget,
}

impl View for Entry {
    type V = EntryView;

    open spec fn view(&self) -> EntryView {
        EntryView { key: self.key@, kind: self.kind, path: self.path, target: self.target }
    }
}

/// The models of a list of entries.
pub open spec fn entry_models(list: Seq<Entry>) -> Seq<EntryView> {
    Seq::new(list.len(), |i: int| list[i]@)
}

/// What an entry of a directory offers.
pub open spec fn offers_of(prefix: Seq<char>, entry: EntryView) -> Seq<CandidateView> {
    entry_offers(prefix, entry.key, entry.kind, entry.path)
}

/// A directory that is searched: the text that leads there, whether the search is forced to
/// stay there, the directory and its parent.
pub struct Place {
    pub prefix: Seq<char>,
    pub force: bool,
    pub here: u64,
    pub parent: u64,
}

impl Place {
    /// What the directory offers without being listed.
    pub open spec fn relatives(self) -> Seq<CandidateView> {
        relative_candidates(self.prefix, self.force, self.here, self.parent)
    }
}

/// What comes of a directory with these entries.
pub open spec fn listed(pattern: PatternView, place: Place, entries: Seq<EntryView>) -> SearchView
    decreases entries.len(),
{
    if entries.len() == 0 {
        SearchView { results: Seq::empty(), nested: Seq::empty() }.considering_all(
            pattern,
            place.relatives(),
            LinkTarget::Broken,
        )
    } else {
        listed(pattern, place, entries.drop_last()).considering_all(
            pattern,
            offers_of(place.prefix, entries.last()),
            entries.last().target,
        )
    }
}

/// Whether all that the directory and its entries offer can be held against `pattern`.
pub open spec fn is_searchable(pattern: PatternView, place: Place, entries: Seq<EntryView>) -> bool {
    &&& all_askable(pattern, place.relatives())
    &&& forall|i: int|
        0 <= i < entries.len() ==> all_askable(
            pattern,
            offers_of(place.prefix, #[trigger] entries[i]),
        )
}

impl Search {
    /// Holds the candidates against `pattern`, in their order. Where one is a link, it points
    /// to `target`.
    pub fn consider(&mut self, pattern: &Pattern, candidates: Vec<Candidate>, target: LinkTarget)
        requires
            all_askable(pattern@, candidate_models(candidates@)),
        ensures
            final(self)@ == old(self)@.considering_all(
                pattern@,
                candidate_models(candidates@),
                target,
            ),
    {
        let ghost items = candidates@;
        let ghost all = candidate_models(items);
        let ghost start = self@;
        for candidate in iter: candidates
            invariant
                iter.seq() == items,
                all == candidate_models(items),
                all_askable(pattern@, all),
                self@ == start.considering_all(pattern@, all.take(iter.index()), target),
        {
            let ghost k = iter.index();
            proof {
                assert(all[k] == candidate@);
                assert(all.take(k + 1).drop_last() =~= all.take(k));
                assert(all.take(k + 1).last() == all[k]);
            }
            if let Some(position) = candidate.position(pattern) {
                proof {
                    lemma_answer_position(
                        pattern@,
                        candidate@.query,
                        candidate@.text,
                        position as int,
                    );
                }
                self.record(position, candidate, target);
            }
        }
        assert(all.take(all.len() as int) =~= all);
    }
}

/// Whether the target of the link called `key` makes a difference to the search.
pub fn wants_target(pattern: &Pattern, prefix: &str, key: &str) -> (res: bool)
    requires
        all_askable(pattern@, entry_offers(prefix@, key@, EntryKind::Symlink, 0)),
    ensures
        res == exists|i: int|
            0 <= i < entry_offers(prefix@, key@, EntryKind::Symlink, 0).len() && ({
                let offer = #[trigger] entry_offers(prefix@, key@, EntryKind::Symlink, 0)[i];
                answers(pattern@, offer.query, offer.text)
            }),
{
    let candidates: Vec<Candidate> = entry_candidates(prefix, key, EntryKind::Symlink, 0);
    let ghost all = candidate_models(candidates@);
    let mut i: usize = 0;
    while i < candidates.len()
        invariant
            i <= candidates.len(),
            all == candidate_models(candidates@),
            all == entry_offers(prefix@, key@, EntryKind::Symlink, 0),
            all_askable(pattern@, all),
            forall|j: int|
                0 <= j < i ==> !answers(pattern@, (#[trigger] all[j]).query, all[j].text),
        decreases candidates.len() - i,
    {
        assert(all[i as int] == candidates@[i as int]@);
        if let Some(position) = candidates[i].position(pattern) {
            proof {
                lemma_answer_position(
                    pattern@,
                    all[i as int].query,
                    all[i as int].text,
                    position as int,
                );
            }
            return true;
        }
        i += 1;
    }
    false
}

/// What comes of the directory `here`, whose parent is `parent` and which `prefix` leads to,
/// with these entries. With `force`, the search must not leave the directory upwards.
pub fn list_directory(
    pattern: &Pattern,
    prefix: &str,
    force: bool,
    here: u64,
    parent: u64,
    entries: &Vec<Entry>,
) -> (res: Search)
    requires
        is_searchable(
            pattern@,
            (Place { prefix: prefix@, force, here, parent }),
            entry_models(entries@),
        ),
    ensures
        res@ == listed(
            pattern@,
            (Place { prefix: prefix@, force, here, parent }),
            entry_models(entries@),
        ),
{
    let ghost place = Place { prefix: prefix@, force, here, parent };
    let ghost all = entry_models(entries@);
    let mut search = Search::new();
    search.consider(pattern, relatives(prefix, force, here, parent), LinkTarget::Broken);
    let mut i: usize = 0;
    assert(all.take(0) =~= Seq::empty());
    while i < entries.len()
        invariant
            i <= entries.len(),
            all == entry_models(entries@),
            place == (Place { prefix: prefix@, force, here, parent }),
            is_searchable(pattern@, place, all),
            search@ == listed(pattern@, place, all.take(i as int)),
        decreases entries.len() - i,
    {
        let entry = &entries[i];
        proof {
            assert(all[i as int] == entry@);
            assert(all.take(i + 1).drop_last() =~= all.take(i as int));
            assert(all.take(i + 1).last() == entry@);
        }
        let candidates: Vec<Candidate> = entry_candidates(
            prefix,
            entry.key.as_str(),
            entry.kind,
            entry.path,
        );
        search.consider(pattern, candidates, entry.target);
        i += 1;
    }
    assert(all.take(i as int) =~= all);
    search
}

/// A normalized pattern can be searched for in every directory.
pub proof fn law_normalized_is_searchable(
    pattern: PatternView,
    place: Place,
    entries: Seq<EntryView>,
)
    ensures
        is_searchable(normal_form(pattern), place, entries),
{
    assert forall|candidates: Seq<CandidateView>| #[trigger] all_askable(
        normal_form(pattern),
        candidates,
    ) by {
        assert forall|i: int| 0 <= i < candidates.len() implies askable(
            normal_form(pattern),
            (#[trigger] candidates[i]).query,
            candidates[i].text,
        ) by {
            law_normalized_can_be_asked(pattern, candidates[i].query, candidates[i].text);
        }
    }
}

/// Where no candidate of an entry answers, the target of the entry makes no difference.
pub proof fn law_unwanted_target_is_no_matter(
    search: SearchView,
    pattern: PatternView,
    candidates: Seq<CandidateView>,
    target: LinkTarget,
)
    requires
        forall|i: int|
            0 <= i < candidates.len() ==> !answers(
                pattern,
                (#[trigger] candidates[i]).query,
                candidates[i].text,
            ),
    ensures
        search.considering_all(pattern, candidates, target) == search,
    decreases candidates.len(),
{
    if candidates.len() > 0 {
        let last = candidates[candidates.len() - 1];
        law_unwanted_target_is_no_matter(search, pattern, candidates.drop_last(), target);
    }
}

/// Whether a report of a search goes on from `prefix` and is a match of `pattern`.
pub open spec fn is_founded(pattern: PatternView, prefix: Seq<char>, report: Ranked) -> bool {
    &&& has_prefix(report.1.text(), prefix)
    &&& answers(pattern, Query::Match, report.1.text())
}

/// Whether a search below another goes on from `prefix` by at least one character, and is
/// forced where `force` is.
pub open spec fn is_below(prefix: Seq<char>, force: bool, request: RequestView) -> bool {
    &&& has_prefix(request.prefix, prefix)
    &&& request.prefix.len() > prefix.len()
    &&& force ==> request.force
}

/// Whether a search below another may lead to a match.
pub open spec fn is_narrower(
    pattern: PatternView,
    prefix: Seq<char>,
    force: bool,
    nested: (int, RequestView),
) -> bool {
    &&& is_below(prefix, force, nested.1)
    &&& answers(pattern, Query::MatchOrOthers, nested.1.prefix)
}

/// Whether all that a search has come to is founded.
pub open spec fn all_founded(
    pattern: PatternView,
    prefix: Seq<char>,
    force: bool,
    search: SearchView,
) -> bool {
    &&& forall|i: int|
        0 <= i < search.results.len() ==> is_founded(pattern, prefix, #[trigger] search.results[i])
    &&& forall|i: int|
        0 <= i < search.nested.len() ==> is_narrower(
            pattern,
            prefix,
            force,
            #[trigger] search.nested[i],
        )
}

/// Whether recording a candidate keeps a search founded.
spec fn is_sound(prefix: Seq<char>, force: bool, candidate: CandidateView) -> bool {
    &&& goes_on_from(prefix, candidate)
    &&& match candidate.effect {
        Effect::Descend { force: forced } => candidate.query == Query::MatchOrOthers && (force
            ==> forced),
        _ => candidate.query == Query::Match,
    }
}

proof fn lemma_considering_founded(
    pattern: PatternView,
    prefix: Seq<char>,
    force: bool,
    search: SearchView,
    candidates: Seq<CandidateView>,
    target: LinkTarget,
)
    requires
        all_founded(pattern, prefix, force, search),
        forall|i: int|
            0 <= i < candidates.len() ==> is_sound(prefix, force, #[trigger] candidates[i]),
    ensures
        all_founded(
            pattern,
            prefix,
            force,
            search.considering_all(pattern, candidates, target),
        ),
    decreases candidates.len(),
{
    if candidates.len() > 0 {
        let last = candidates[candidates.len() - 1];
        lemma_considering_founded(
            pattern,
            prefix,
            force,
            search,
            candidates.drop_last(),
            target,
        );
        assert(is_sound(prefix, force, last));
    }
}

/// Whatever a directory holds, what is reported of it goes on from the text that led there and
/// is a match. Each search below has a longer text, which may be the start of a match, and
/// stays in its directory where this one is forced to.
pub proof fn law_listing_is_founded(pattern: PatternView, place: Place, entries: Seq<EntryView>)
    requires
        forall|i: int| 0 <= i < entries.len() ==> (#[trigger] entries[i]).key.len() > 0,
    ensures
        all_founded(pattern, place.prefix, place.force, listed(pattern, place, entries)),
    decreases entries.len(),
{
    let (prefix, force) = (place.prefix, place.force);
    if entries.len() == 0 {
        let start = SearchView { results: Seq::empty(), nested: Seq::empty() };
        let offers = place.relatives();
        let (key, kind) = (seq!['a'], EntryKind::Other);
        law_candidates_go_on(prefix, force, place.here, place.parent, key, kind, 0);
        assert forall|i: int| 0 <= i < offers.len() implies is_sound(
            prefix,
            force,
            #[trigger] offers[i],
        ) by {}
        lemma_considering_founded(pattern, prefix, force, start, offers, LinkTarget::Broken);
    } else {
        let last = entries[entries.len() - 1];
        let front = entries.drop_last();
        law_listing_is_founded(pattern, place, front);
        let offers = offers_of(prefix, last);
        law_candidates_go_on(prefix, force, 0, 0, last.key, last.kind, last.path);
        assert forall|i: int| 0 <= i < offers.len() implies is_sound(
            prefix,
            force,
            #[trigger] offers[i],
        ) by {}
        lemma_considering_founded(
            pattern,
            prefix,
            force,
            listed(pattern, place, front),
            offers,
            last.target,
        );
    }
}

/// Whatever stands at the path of a planned step, what is reported of it goes on from the text
/// that led to the directory and is a match. A search below such a path has a longer text.
pub proof fn law_planned_is_founded(
    pattern: PatternView,
    prefix: Seq<char>,
    force: bool,
    i: int,
    path: u64,
    kind: EntryKind,
    target: LinkTarget,
)
    requires
        planned_steps(pattern, prefix) is Some,
        0 <= i < planned_steps(pattern, prefix)->0.len(),
    ensures
        ({
            let step = planned_steps(pattern, prefix)->0[i];
            let text = prefix + step.0;
            if step.1 {
                probe_report(text, path, kind, target) matches Some(found) ==> is_founded(
                    pattern,
                    prefix,
                    (0, found),
                )
            } else {
                is_below(prefix, force, RequestView { path, prefix: text, force })
            }
        }),
{
    let step = planned_steps(pattern, prefix)->0[i];
    assert((prefix + step.0).take(prefix.len() as int) =~= prefix);
    if step.1 {
        law_planned_ends_complete(pattern, prefix, i);
    } else {
        law_planned_searches_go_on(pattern, prefix, i);
    }
}

/// Whether `path` is the directory that is searched or one of its entries.
pub open spec fn is_within(place: Place, entries: Seq<EntryView>, path: u64) -> bool {
    path == place.here || exists|j: int|
        0 <= j < entries.len() && (#[trigger] entries[j]).path == path
}

/// Whether all that a search has come to is the directory or one of its entries.
pub open spec fn all_within(place: Place, entries: Seq<EntryView>, search: SearchView) -> bool {
    &&& forall|i: int|
        0 <= i < search.results.len() ==> is_within(
            place,
            entries,
            (#[trigger] search.results[i]).1.path(),
        )
    &&& forall|i: int|
        0 <= i < search.nested.len() ==> is_within(
            place,
            entries,
            (#[trigger] search.nested[i]).1.path,
        )
}

proof fn lemma_considering_within(
    pattern: PatternView,
    place: Place,
    entries: Seq<EntryView>,
    search: SearchView,
    candidates: Seq<CandidateView>,
    target: LinkTarget,
)
    requires
        all_within(place, entries, search),
        forall|i: int|
            0 <= i < candidates.len() ==> is_within(
                place,
                entries,
                (#[trigger] candidates[i]).path,
            ),
    ensures
        all_within(place, entries, search.considering_all(pattern, candidates, target)),
    decreases candidates.len(),
{
    if candidates.len() > 0 {
        let last = candidates[candidates.len() - 1];
        let front = candidates.drop_last();
        lemma_considering_within(pattern, place, entries, search, front, target);
        let before = search.considering_all(pattern, front, target);
        let after = before.considering(pattern, last, target);
        assert(is_within(place, entries, last.path));
        assert(all_within(place, entries, before));
        assert forall|i: int| 0 <= i < after.results.len() implies is_within(
            place,
            entries,
            (#[trigger] after.results[i]).1.path(),
        ) by {
            if i < before.results.len() {
                assert(after.results[i] == before.results[i]);
            }
        }
        assert forall|i: int| 0 <= i < after.nested.len() implies is_within(
            place,
            entries,
            (#[trigger] after.nested[i]).1.path,
        ) by {
            if i < before.nested.len() {
                assert(after.nested[i] == before.nested[i]);
            }
        }
    }
}

/// Where a search is forced, all that it reports or searches below is the directory itself or
/// an entry of it.
pub proof fn law_forced_listing_stays(pattern: PatternView, place: Place, entries: Seq<EntryView>)
    requires
        place.force,
    ensures
        all_within(place, entries, listed(pattern, place, entries)),
    decreases entries.len(),
{
    if entries.len() == 0 {
        let start = SearchView { results: Seq::empty(), nested: Seq::empty() };
        let offers = place.relatives();
        lemma_considering_within(pattern, place, entries, start, offers, LinkTarget::Broken);
    } else {
        let last = entries[entries.len() - 1];
        let front = entries.drop_last();
        let before = listed(pattern, place, front);
        let offers = offers_of(place.prefix, last);
        law_forced_listing_stays(pattern, place, front);
        assert forall|path: u64| is_within(place, front, path) implies #[trigger] is_within(
            place,
            entries,
            path,
        ) by {
            if path != place.here {
                let j = choose|j: int|
                    0 <= j < front.len() && (#[trigger] front[j]).path == path;
                assert(entries[j].path == path);
            }
        }
        assert(is_within(place, entries, last.path));
        lemma_considering_within(pattern, place, entries, before, offers, last.target);
    }
}

/// Whether `search` holds what `candidate` comes to where the pattern answers for it at
/// `position`.
pub open spec fn is_recorded(
    search: SearchView,
    position: int,
    candidate: CandidateView,
    target: LinkTarget,
) -> bool {
    let file = PatternMatchView::File(candidate.text, candidate.path);
    let directory = PatternMatchView::Directory(candidate.text, candidate.path);
    match candidate.effect {
        Effect::File => search.results.contains((position, file)),
        Effect::Directory => search.results.contains((position, directory)),
        Effect::Link { directory_only } => match target {
            LinkTarget::Directory => search.results.contains((position, directory)),
            LinkTarget::File => directory_only || search.results.contains((position, file)),
            LinkTarget::Broken => true,
        },
        Effect::Descend { force } => search.nested.contains(
            (position, RequestView { path: candidate.path, prefix: candidate.text, force }),
        ),
    }
}

/// Whether `search` goes on from `before` without losing anything.
spec fn keeps_all(before: SearchView, search: SearchView) -> bool {
    &&& before.results.is_prefix_of(search.results)
    &&& before.nested.is_prefix_of(search.nested)
}

proof fn lemma_recorded_is_kept(
    before: SearchView,
    search: SearchView,
    position: int,
    candidate: CandidateView,
    target: LinkTarget,
)
    requires
        keeps_all(before, search),
        is_recorded(before, position, candidate, target),
    ensures
        is_recorded(search, position, candidate, target),
{
    assert forall|report: Ranked| #[trigger] before.results.contains(report) implies search.results.contains(
        report,
    ) by {
        let i = before.results.index_of(report);
        assert(search.results[i] == report);
    }
    assert forall|nested: (int, RequestView)| #[trigger]
        before.nested.contains(nested) implies search.nested.contains(nested) by {
        let i = before.nested.index_of(nested);
        assert(search.nested[i] == nested);
    }
}

/// Holding candidates against a pattern records each that it answers for.
proof fn lemma_considering_records(
    search: SearchView,
    pattern: PatternView,
    candidates: Seq<CandidateView>,
    target: LinkTarget,
)
    ensures
        keeps_all(search, search.considering_all(pattern, candidates, target)),
        forall|i: int|
            0 <= i < candidates.len() && answers(
                pattern,
                (#[trigger] candidates[i]).query,
                candidates[i].text,
            ) ==> is_recorded(
                search.considering_all(pattern, candidates, target),
                answer_position(pattern, candidates[i].query, candidates[i].text),
                candidates[i],
                target,
            ),
    decreases candidates.len(),
{
    if candidates.len() > 0 {
        let front = candidates.drop_last();
        let last = candidates[candidates.len() - 1];
        let before = search.considering_all(pattern, front, target);
        let after = search.considering_all(pattern, candidates, target);
        let at = answer_position(pattern, last.query, last.text);
        lemma_considering_records(search, pattern, front, target);
        assert(after == before.considering(pattern, last, target));
        assert(keeps_all(before, after));
        assert(keeps_all(search, after));
        if answers(pattern, last.query, last.text) {
            assert(after == before.recording(at, last, target));
            if after.results.len() > before.results.len() {
                assert(after.results.contains(after.results[before.results.len() as int]));
            }
            if after.nested.len() > before.nested.len() {
                assert(after.nested.contains(after.nested[before.nested.len() as int]));
            }
            assert(is_recorded(after, at, last, target));
        }
        assert forall|i: int|
            0 <= i < candidates.len() && answers(
                pattern,
                (#[trigger] candidates[i]).query,
                candidates[i].text,
            ) implies is_recorded(
            after,
            answer_position(pattern, candidates[i].query, candidates[i].text),
            candidates[i],
            target,
        ) by {
            if i < front.len() {
                assert(front[i] == candidates[i]);
                lemma_recorded_is_kept(
                    before,
                    after,
                    answer_position(pattern, front[i].query, front[i].text),
                    front[i],
                    target,
                );
            }
        }
    } else {
        assert(search.results.is_prefix_of(search.results));
    }
}

/// Nothing in a directory is passed over: whatever the directory or an entry of it offers and
/// the pattern answers for is reported or searched.
pub proof fn law_listing_is_complete(
    pattern: PatternView,
    place: Place,
    entries: Seq<EntryView>,
)
    ensures
        forall|j: int|
            0 <= j < place.relatives().len() ==> ({
                let offer = #[trigger] place.relatives()[j];
                answers(pattern, offer.query, offer.text) ==> is_recorded(
                    listed(pattern, place, entries),
                    answer_position(pattern, offer.query, offer.text),
                    offer,
                    LinkTarget::Broken,
                )
            }),
        forall|i: int, j: int|
            0 <= i < entries.len() && 0 <= j < offers_of(place.prefix, entries[i]).len() ==> ({
                let offer = #[trigger] offers_of(place.prefix, entries[i])[j];
                answers(pattern, offer.query, offer.text) ==> is_recorded(
                    listed(pattern, place, entries),
                    answer_position(pattern, offer.query, offer.text),
                    offer,
                    entries[i].target,
                )
            }),
    decreases entries.len(),
{
    let after = listed(pattern, place, entries);
    if entries.len() == 0 {
        let start = SearchView { results: Seq::empty(), nested: Seq::empty() };
        lemma_considering_records(start, pattern, place.relatives(), LinkTarget::Broken);
    } else {
        let front = entries.drop_last();
        let last = entries[entries.len() - 1];
        let before = listed(pattern, place, front);
        law_listing_is_complete(pattern, place, front);
        lemma_considering_records(before, pattern, offers_of(place.prefix, last), last.target);
        assert forall|j: int| 0 <= j < place.relatives().len() implies ({
            let offer = #[trigger] place.relatives()[j];
            answers(pattern, offer.query, offer.text) ==> is_recorded(
                after,
                answer_position(pattern, offer.query, offer.text),
                offer,
                LinkTarget::Broken,
            )
        }) by {
            let offer = place.relatives()[j];
            if answers(pattern, offer.query, offer.text) {
                let at = answer_position(pattern, offer.query, offer.text);
                lemma_recorded_is_kept(before, after, at, offer, LinkTarget::Broken);
            }
        }
        assert forall|i: int, j: int|
            0 <= i < entries.len() && 0 <= j < offers_of(place.prefix, entries[i]).len() implies ({
            let offer = #[trigger] offers_of(place.prefix, entries[i])[j];
            answers(pattern, offer.query, offer.text) ==> is_recorded(
                after,
                answer_position(pattern, offer.query, offer.text),
                offer,
                entries[i].target,
            )
        }) by {
            let offer = offers_of(place.prefix, entries[i])[j];
            if answers(pattern, offer.query, offer.text) && i < front.len() {
                let at = answer_position(pattern, offer.query, offer.text);
                assert(offers_of(place.prefix, front[i])[j] == offer);
                lemma_recorded_is_kept(before, after, at, offer, entries[i].target);
            }
        }
    }
}

/// Each match with the same position.
pub open spec fn ranked_at(position: int, list: Seq<PatternMatchView>) -> Seq<Ranked> {
    Seq::new(list.len(), |i: int| (position, list[i]))
}

/// What the searches below have found, each match with the position of its search.
pub open spec fn all_ranked(nested: Seq<(int, Seq<PatternMatchView>)>) -> Seq<Ranked>
    decreases nested.len(),
{
    if nested.len() == 0 {
        Seq::empty()
    } else {
        all_ranked(nested.drop_last()) + ranked_at(nested.last().0, nested.last().1)
    }
}

/// The matches without their positions.
pub open spec fn unranked(list: Seq<Ranked>) -> Seq<PatternMatchView> {
    Seq::new(list.len(), |i: int| list[i].1)
}

/// All that is reported: what the only search below has found where nothing else is there,
/// or else all matches in order.
pub open spec fn finished(results: Seq<Ranked>, nested: Seq<(int, Seq<PatternMatchView>)>) -> Seq<
    PatternMatchView,
> {
    if results.len() == 0 && nested.len() == 1 {
        nested[0].1
    } else {
        unranked(in_order(results + all_ranked(nested)))
    }
}

/// Reports that are the same but for their order are the same without their positions, but
/// for their order.
proof fn lemma_unranked_multiset(a: Seq<Ranked>, b: Seq<Ranked>)
    requires
        a.to_multiset() == b.to_multiset(),
    ensures
        unranked(a).to_multiset() == unranked(b).to_multiset(),
    decreases a.len(),
{
    broadcast use group_to_multiset_ensures;

    assert(a.len() == b.len()) by {
        assert(a.to_multiset().len() == a.len());
        assert(b.to_multiset().len() == b.len());
    }
    if a.len() == 0 {
        assert(unranked(a) =~= unranked(b));
    } else {
        let last = a.last();
        assert(a =~= a.drop_last().push(last));
        assert(a.to_multiset().count(last) > 0);
        assert(b.contains(last));
        let j = choose|j: int| 0 <= j < b.len() && b[j] == last;
        let rest = b.remove(j);
        assert(a.drop_last().to_multiset() =~= rest.to_multiset());
        lemma_unranked_multiset(a.drop_last(), rest);
        assert(unranked(a) =~= unranked(a.drop_last()).push(last.1));
        assert(unranked(rest) =~= unranked(b).remove(j));
        assert(unranked(b)[j] == last.1);
        assert(unranked(a).to_multiset() =~= unranked(b).to_multiset());
    }
}

/// Nothing that was found is lost or made up: what is reported in the end is what the search
/// and the searches below it have found, as often as they have found it.
pub proof fn law_finish_keeps_all(results: Seq<Ranked>, nested: Seq<(int, Seq<PatternMatchView>)>)
    ensures
        finished(results, nested).to_multiset() == unranked(
            results + all_ranked(nested),
        ).to_multiset(),
{
    let all = results + all_ranked(nested);
    if results.len() == 0 && nested.len() == 1 {
        assert(all_ranked(nested.drop_last()) =~= Seq::empty());
        assert(unranked(all) =~= nested[0].1);
    } else {
        law_in_order(all);
        lemma_unranked_multiset(in_order(all), all);
    }
}

/// Whether all of `list` go on from `prefix` and are matches of `pattern`.
pub open spec fn are_matches(
    pattern: PatternView,
    prefix: Seq<char>,
    list: Seq<PatternMatchView>,
) -> bool {
    forall|i: int|
        0 <= i < list.len() ==> is_founded(pattern, prefix, (0, #[trigger] list[i]))
}

proof fn lemma_all_ranked(nested: Seq<(int, Seq<PatternMatchView>)>, k: int) -> (found: (int, int))
    requires
        0 <= k < all_ranked(nested).len(),
    ensures
        0 <= found.0 < nested.len(),
        0 <= found.1 < nested[found.0].1.len(),
        all_ranked(nested)[k].1 == nested[found.0].1[found.1],
    decreases nested.len(),
{
    let before = all_ranked(nested.drop_last());
    if k < before.len() {
        lemma_all_ranked(nested.drop_last(), k)
    } else {
        (nested.len() - 1, k - before.len())
    }
}

/// Where all that a search reports itself goes on from the text that led to the directory and
/// is a match, and the searches below it go on from longer texts and find nothing but matches,
/// all that is reported in the end goes on from that text and is a match.
pub proof fn law_all_found_are_matches(
    pattern: PatternView,
    prefix: Seq<char>,
    search: SearchView,
    nested: Seq<(int, Seq<PatternMatchView>)>,
)
    requires
        nested.len() == search.nested.len(),
        forall|i: int|
            0 <= i < search.results.len() ==> is_founded(
                pattern,
                prefix,
                #[trigger] search.results[i],
            ),
        forall|i: int|
            0 <= i < nested.len() ==> {
                &&& is_below(prefix, false, (#[trigger] search.nested[i]).1)
                &&& are_matches(pattern, search.nested[i].1.prefix, nested[i].1)
            },
    ensures
        are_matches(pattern, prefix, finished(search.results, nested)),
{
    broadcast use group_to_multiset_ensures;

    let all = unranked(search.results + all_ranked(nested));
    let found = finished(search.results, nested);
    assert forall|k: int| 0 <= k < all.len() implies is_founded(
        pattern,
        prefix,
        (0, #[trigger] all[k]),
    ) by {
        let n = search.results.len() as int;
        if k < n {
            assert(is_founded(pattern, prefix, search.results[k]));
        } else {
            let (i, j) = lemma_all_ranked(nested, k - n);
            let item = nested[i].1[j];
            let below = search.nested[i].1.prefix;
            assert(are_matches(pattern, below, nested[i].1));
            assert(is_founded(pattern, below, (0, item)));
            assert(item.text().take(prefix.len() as int) =~= below.take(prefix.len() as int)) by {
                assert(item.text().take(below.len() as int).take(prefix.len() as int)
                    =~= item.text().take(prefix.len() as int));
            }
        }
    }
    law_finish_keeps_all(search.results, nested);
    assert forall|k: int| 0 <= k < found.len() implies is_founded(
        pattern,
        prefix,
        (0, #[trigger] found[k]),
    ) by {
        assert(found.to_multiset().count(found[k]) > 0) by {
            assert(found.contains(found[k]));
        }
        assert(all.contains(found[k]));
    }
}

/// The models of what the searches below have found.
pub open spec fn nested_models(list: Seq<(usize, PatternMatches)>) -> Seq<
    (int, Seq<PatternMatchView>),
> {
    Seq::new(list.len(), |i: int| (list[i].0 as int, match_models(list[i].1.0@)))
}

/// All that is reported, from the reports of a search and what the searches below it have
/// found, each with its position.
pub fn finish(results: Vec<(usize, PatternMatch)>, nested: Vec<(usize, PatternMatches)>) -> (res:
    PatternMatches)
    ensures
        match_models(res.0@) == finished(ranked_models(results@), nested_models(nested@)),
{
    let ghost all = nested_models(nested@);
    let ghost first = ranked_models(results@);
    let mut results: Vec<(usize, PatternMatch)> = results;
    let mut nested: Vec<(usize, PatternMatches)> = nested;
    if results.len() == 0 && nested.len() == 1 {
        let (_position, found) = nested.swap_remove(0);
        return found;
    }
    assert(all.take(0) =~= Seq::empty());
    assert(first + all_ranked(all.take(0)) =~= first);
    let ghost searches = nested@;
    for search in outer: nested
        invariant
            outer.seq() == searches,
            all == nested_models(searches),
            ranked_models(results@) == first + all_ranked(all.take(outer.index())),
    {
        let ghost k = outer.index();
        let ghost so_far = ranked_models(results@);
        let (position, found) = search;
        let ghost here = ranked_at(position as int, match_models(found.0@));
        proof {
            assert(all[k] == (position as int, match_models(found.0@)));
            assert(all.take(k + 1).drop_last() =~= all.take(k));
            assert(all.take(k + 1).last() == all[k]);
        }
        let ghost matches = found.0@;
        for item in inner: found.0
            invariant
                inner.seq() == matches,
                here == ranked_at(position as int, match_models(matches)),
                ranked_models(results@) =~= so_far + here.take(inner.index()),
        {
            let ghost before = ranked_models(results@);
            let ghost j = inner.index();
            assert(here[j] == (position as int, item@));
            assert(here.take(j + 1) =~= here.take(j).push(here[j]));
            results.push((position, item));
            assert(ranked_models(results@) =~= before.push(here[j]));
        }
        assert(here.take(here.len() as int) =~= here);
        assert(so_far + here =~= first + all_ranked(all.take(k + 1)));
    }
    assert(all.take(all.len() as int) =~= all);
    let sorted: Vec<(usize, PatternMatch)> = sort(results);
    let ghost ordered = ranked_models(sorted@);
    let ghost items = sorted@;
    let mut res: Vec<PatternMatch> = Vec::new();
    for item in iter: sorted
        invariant
            iter.seq() == items,
            ordered == ranked_models(items),
            match_models(res@) =~= unranked(ordered).take(iter.index()),
    {
        let ghost before = match_models(res@);
        let ghost j = iter.index();
        let ghost all = unranked(ordered);
        assert(all[j] == item.1@);
        assert(all.take(j + 1) =~= all.take(j).push(all[j]));
        res.push(item.1);
        assert(match_models(res@) =~= before.push(all[j]));
    }
    PatternMatches(res)
}

} // verus!
