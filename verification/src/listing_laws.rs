//! What a search reports of what it finds, told by prefix, name and kind.
use vstd::prelude::*;
use vstd::seq_lib::group_to_multiset_ensures;
use vstd::utf8::encode_utf8;

use crate::constants::next_list;
use crate::lookup::{
    all_lead_on, descend_candidate, directory_candidate, entry_offers, is_step_for, lemma_steps_of,
    link_candidate, planned_steps, relative_candidates, step_path, steps_of,
    upward_candidates, with_step, with_steps_for, CandidateView, Effect, EntryKind, LinkTarget,
    StepView,
};
use crate::matching::{answers, answers_at, first_answer, unanswered_before, Query};
use crate::order::{bytes_precede, in_order, law_in_order, PatternMatchView, Ranked};
use crate::pattern::{choices, PatternView};
use crate::search::{
    all_ranked, answer_position, finished, listed, offers_of, probe_report, ranked_at, unranked,
    EntryView, Place, RequestView, SearchView,
};
use crate::text::{last_slash, lemma_last_slash, without_final_slash};

verus! {

/// What is reported where `text` is a match: what was found, with the position of the first
/// choice that matches.
pub open spec fn reported(pattern: PatternView, text: Seq<char>, found: PatternMatchView) -> Seq<
    Ranked,
> {
    if answers(pattern, Query::Match, text) {
        seq![(answer_position(pattern, Query::Match, text), found)]
    } else {
        Seq::empty()
    }
}

/// What is searched where `text` could match: the directory that it leads to, with the position
/// of the first choice that could match.
pub open spec fn searched(
    pattern: PatternView,
    text: Seq<char>,
    path: u64,
    force: bool,
) -> Seq<(int, RequestView)> {
    if answers(pattern, Query::MatchOrOthers, text) {
        seq![
            (
                answer_position(pattern, Query::MatchOrOthers, text),
                RequestView { path, prefix: text, force },
            ),
        ]
    } else {
        Seq::empty()
    }
}

/// The position that goes with an answer is that of the first choice that answers.
pub proof fn law_answer_position_is_first(pattern: PatternView, query: Query, value: Seq<char>)
    requires
        answers(pattern, query, value),
    ensures
        first_answer(pattern, query, value, answer_position(pattern, query, value)),
{
    let i = choose|i: int|
        0 <= i < choices(pattern).len() && #[trigger] answers_at(pattern, query, value, i);
    let k = lemma_first(pattern, query, value, i);
    assert(first_answer(pattern, query, value, k));
}

proof fn lemma_first(pattern: PatternView, query: Query, value: Seq<char>, i: int) -> (k: int)
    requires
        0 <= i < choices(pattern).len(),
        answers_at(pattern, query, value, i),
    ensures
        first_answer(pattern, query, value, k),
    decreases i,
{
    if unanswered_before(pattern, query, value, i) {
        i
    } else {
        let j = choose|j: int| 0 <= j < i && #[trigger] answers_at(pattern, query, value, j);
        lemma_first(pattern, query, value, j)
    }
}

/// What `search` holds is `before` with these reports and searches at its end.
spec fn is_grown(
    search: SearchView,
    before: SearchView,
    results: Seq<Ranked>,
    nested: Seq<(int, RequestView)>,
) -> bool {
    &&& search.results == before.results + results
    &&& search.nested == before.nested + nested
}

proof fn lemma_consider_none(search: SearchView, pattern: PatternView, target: LinkTarget)
    ensures
        search.considering_all(pattern, Seq::empty(), target) == search,
{
}

proof fn lemma_consider_last(
    search: SearchView,
    pattern: PatternView,
    candidates: Seq<CandidateView>,
    last: CandidateView,
    target: LinkTarget,
)
    ensures
        search.considering_all(pattern, candidates.push(last), target) == search.considering_all(
            pattern,
            candidates,
            target,
        ).considering(pattern, last, target),
{
    assert(candidates.push(last).drop_last() =~= candidates);
}

/// A candidate for a directory is reported where it matches.
proof fn lemma_consider_directory(
    search: SearchView,
    pattern: PatternView,
    text: Seq<char>,
    path: u64,
    target: LinkTarget,
)
    ensures
        is_grown(
            search.considering(pattern, directory_candidate(text, path), target),
            search,
            reported(pattern, text, PatternMatchView::Directory(text, path)),
            Seq::empty(),
        ),
{
    let after = search.considering(pattern, directory_candidate(text, path), target);
    assert(after.results =~= search.results + reported(
        pattern,
        text,
        PatternMatchView::Directory(text, path),
    ));
    assert(after.nested =~= search.nested + Seq::empty());
}

/// A candidate for a search is searched where it could match.
proof fn lemma_consider_descend(
    search: SearchView,
    pattern: PatternView,
    text: Seq<char>,
    path: u64,
    force: bool,
    target: LinkTarget,
)
    ensures
        is_grown(
            search.considering(pattern, descend_candidate(text, path, force), target),
            search,
            Seq::empty(),
            searched(pattern, text, path, force),
        ),
{
    let after = search.considering(pattern, descend_candidate(text, path, force), target);
    assert(after.results =~= search.results + Seq::empty());
    assert(after.nested =~= search.nested + searched(pattern, text, path, force));
}

/// The text of an entry, which does not end in a slash.
pub open spec fn entry_text(prefix: Seq<char>, key: Seq<char>) -> Seq<char> {
    let whole = prefix + key;
    if whole.len() > 0 && whole[whole.len() - 1] == '/' {
        whole.take(whole.len() - 1)
    } else {
        whole
    }
}

/// What an entry adds to the listing of a directory.
/// - A file is reported where prefix and name match.
/// - A directory is reported where they match, with and without a slash at the end, and is
///   searched, without leaving it, where they could match with the slash.
/// - A link is reported as what it points to, and is not searched.
/// - Nothing else is reported or searched.
pub proof fn law_entry_is_listed(
    pattern: PatternView,
    place: Place,
    entries: Seq<EntryView>,
    entry: EntryView,
)
    ensures
        ({
            let before = listed(pattern, place, entries);
            let after = listed(pattern, place, entries.push(entry));
            let path = entry.path;
            let whole = place.prefix + entry.key;
            let text = entry_text(place.prefix, entry.key);
            let slashed = text.push('/');
            let directory = reported(pattern, text, PatternMatchView::Directory(text, path))
                + reported(pattern, slashed, PatternMatchView::Directory(slashed, path));
            &&& after.results == before.results + match (entry.kind, entry.target) {
                (EntryKind::File, _) => reported(
                    pattern,
                    whole,
                    PatternMatchView::File(whole, path),
                ),
                (EntryKind::Directory, _) => directory,
                (EntryKind::Symlink, LinkTarget::Directory) => directory,
                (EntryKind::Symlink, LinkTarget::File) => reported(
                    pattern,
                    text,
                    PatternMatchView::File(text, path),
                ),
                (EntryKind::Symlink, LinkTarget::Broken) => Seq::empty(),
                (EntryKind::Other, _) => Seq::empty(),
            }
            &&& after.nested == before.nested + if entry.kind == EntryKind::Directory {
                searched(pattern, slashed, path, true)
            } else {
                Seq::empty()
            }
        }),
{
    reveal_strlit("/");
    let before = listed(pattern, place, entries);
    let after = listed(pattern, place, entries.push(entry));
    let (path, target) = (entry.path, entry.target);
    let whole = place.prefix + entry.key;
    let text = entry_text(place.prefix, entry.key);
    let slashed = text.push('/');
    assert(entries.push(entry).drop_last() =~= entries);
    assert(text =~= without_final_slash(whole));
    assert(slashed =~= text + "/"@);
    let none = Seq::<CandidateView>::empty();
    let offers = offers_of(place.prefix, entry);
    lemma_consider_none(before, pattern, target);
    match entry.kind {
        EntryKind::File => {
            let only = CandidateView {
                text: whole,
                query: Query::Match,
                effect: Effect::File,
                path,
            };
            lemma_consider_last(before, pattern, none, only, target);
            assert(offers =~= none.push(only));
            assert(after.results =~= before.results + reported(
                pattern,
                whole,
                PatternMatchView::File(whole, path),
            ));
            assert(after.nested =~= before.nested + Seq::empty());
        },
        EntryKind::Directory => {
            let one = directory_candidate(text, path);
            let two = directory_candidate(slashed, path);
            let three = descend_candidate(slashed, path, true);
            lemma_consider_last(before, pattern, none, one, target);
            lemma_consider_last(before, pattern, none.push(one), two, target);
            lemma_consider_last(before, pattern, none.push(one).push(two), three, target);
            assert(offers =~= none.push(one).push(two).push(three));
            let a = before.considering(pattern, one, target);
            let b = a.considering(pattern, two, target);
            lemma_consider_directory(before, pattern, text, path, target);
            lemma_consider_directory(a, pattern, slashed, path, target);
            lemma_consider_descend(b, pattern, slashed, path, true, target);
            assert(after.results =~= before.results + (reported(
                pattern,
                text,
                PatternMatchView::Directory(text, path),
            ) + reported(pattern, slashed, PatternMatchView::Directory(slashed, path))));
            assert(after.nested =~= before.nested + searched(pattern, slashed, path, true));
        },
        EntryKind::Symlink => {
            let one = link_candidate(text, path, false);
            let two = link_candidate(slashed, path, true);
            lemma_consider_last(before, pattern, none, one, target);
            lemma_consider_last(before, pattern, none.push(one), two, target);
            assert(offers =~= none.push(one).push(two));
            assert(after.nested =~= before.nested + Seq::empty());
            let both = reported(pattern, text, PatternMatchView::Directory(text, path))
                + reported(pattern, slashed, PatternMatchView::Directory(slashed, path));
            match target {
                LinkTarget::Directory => {
                    assert(after.results =~= before.results + both);
                },
                LinkTarget::File => {
                    assert(after.results =~= before.results + reported(
                        pattern,
                        text,
                        PatternMatchView::File(text, path),
                    ));
                },
                LinkTarget::Broken => {
                    assert(after.results =~= before.results + Seq::empty());
                },
            }
        },
        EntryKind::Other => {
            assert(offers =~= none);
            assert(after.results =~= before.results + Seq::empty());
            assert(after.nested =~= before.nested + Seq::empty());
        },
    }
}

/// What a directory adds to its listing without any entry.
/// - Unless the search is forced to stay, the parent is reported where the prefix with `..` or
///   `../` matches, and is searched where it could match with `../`.
/// - The directory itself is reported where the prefix with `.` matches.
/// - It is reported where the prefix with `./` matches, and searched where it could. Behind a
///   prefix that is not empty, `/` counts as `./` does. A search that is forced remains so.
pub proof fn law_directory_itself_is_listed(pattern: PatternView, place: Place)
    ensures
        ({
            let (here, parent, force) = (place.here, place.parent, place.force);
            let up = place.prefix + seq!['.', '.'];
            let over = place.prefix + seq!['.', '.', '/'];
            let dot = place.prefix.push('.');
            let slash = place.prefix.push('/');
            let within = place.prefix + seq!['.', '/'];
            let none = Seq::<(int, RequestView)>::empty();
            let all = listed(pattern, place, Seq::empty());
            &&& all.results == (if force {
                Seq::empty()
            } else {
                reported(pattern, up, PatternMatchView::Directory(up, parent)) + reported(
                    pattern,
                    over,
                    PatternMatchView::Directory(over, parent),
                )
            }) + reported(pattern, dot, PatternMatchView::Directory(dot, here)) + (
            if place.prefix.len() == 0 {
                Seq::empty()
            } else {
                reported(pattern, slash, PatternMatchView::Directory(slash, here))
            }) + reported(pattern, within, PatternMatchView::Directory(within, here))
            &&& all.nested == (if force {
                none
            } else {
                searched(pattern, over, parent, false)
            }) + (if place.prefix.len() == 0 {
                none
            } else {
                searched(pattern, slash, here, force)
            }) + searched(pattern, within, here, force)
        }),
{
    reveal_strlit("..");
    reveal_strlit("../");
    reveal_strlit(".");
    reveal_strlit("./");
    reveal_strlit("/");
    let (here, parent, force) = (place.here, place.parent, place.force);
    let prefix = place.prefix;
    let up = prefix + seq!['.', '.'];
    let over = prefix + seq!['.', '.', '/'];
    let dot = prefix.push('.');
    let slash = prefix.push('/');
    let within = prefix + seq!['.', '/'];
    assert(up =~= prefix + ".."@);
    assert(over =~= prefix + "../"@);
    assert(dot =~= prefix + "."@);
    assert(slash =~= prefix + "/"@);
    assert(within =~= prefix + "./"@);
    assert(prefix.len() == 0 ==> within =~= "./"@);
    let broken = LinkTarget::Broken;
    let start = SearchView { results: Seq::empty(), nested: Seq::empty() };
    let none = Seq::<CandidateView>::empty();
    lemma_consider_none(start, pattern, broken);
    let (u1, u2, u3) = (
        directory_candidate(up, parent),
        directory_candidate(over, parent),
        descend_candidate(over, parent, false),
    );
    let upward = upward_candidates(prefix, force, parent);
    let top = start.considering_all(pattern, upward, broken);
    if force {
        assert(upward =~= none);
        assert(top.results =~= Seq::empty());
        assert(top.nested =~= Seq::empty());
    } else {
        lemma_consider_last(start, pattern, none, u1, broken);
        lemma_consider_last(start, pattern, none.push(u1), u2, broken);
        lemma_consider_last(start, pattern, none.push(u1).push(u2), u3, broken);
        assert(upward =~= none.push(u1).push(u2).push(u3));
        let a = start.considering(pattern, u1, broken);
        let b = a.considering(pattern, u2, broken);
        lemma_consider_directory(start, pattern, up, parent, broken);
        lemma_consider_directory(a, pattern, over, parent, broken);
        lemma_consider_descend(b, pattern, over, parent, false, broken);
        assert(top.results =~= reported(pattern, up, PatternMatchView::Directory(up, parent))
            + reported(pattern, over, PatternMatchView::Directory(over, parent)));
        assert(top.nested =~= searched(pattern, over, parent, false));
    }
    let all = relative_candidates(prefix, force, here, parent);
    let (s1, s2, s3, s4, s5) = (
        directory_candidate(dot, here),
        directory_candidate(slash, here),
        descend_candidate(slash, here, force),
        directory_candidate(within, here),
        descend_candidate(within, here, force),
    );
    let c1 = top.considering(pattern, s1, broken);
    lemma_consider_last(start, pattern, upward, s1, broken);
    lemma_consider_directory(top, pattern, dot, here, broken);
    if prefix.len() == 0 {
        let c4 = c1.considering(pattern, s4, broken);
        lemma_consider_last(start, pattern, upward.push(s1), s4, broken);
        lemma_consider_last(start, pattern, upward.push(s1).push(s4), s5, broken);
        lemma_consider_directory(c1, pattern, within, here, broken);
        lemma_consider_descend(c4, pattern, within, here, force, broken);
        assert(all =~= upward.push(s1).push(s4).push(s5));
    } else {
        let c2 = c1.considering(pattern, s2, broken);
        let c3 = c2.considering(pattern, s3, broken);
        let c4 = c3.considering(pattern, s4, broken);
        let two = upward.push(s1).push(s2);
        lemma_consider_last(start, pattern, upward.push(s1), s2, broken);
        lemma_consider_last(start, pattern, two, s3, broken);
        lemma_consider_last(start, pattern, two.push(s3), s4, broken);
        lemma_consider_last(start, pattern, two.push(s3).push(s4), s5, broken);
        lemma_consider_directory(c1, pattern, slash, here, broken);
        lemma_consider_descend(c2, pattern, slash, here, force, broken);
        lemma_consider_directory(c3, pattern, within, here, broken);
        lemma_consider_descend(c4, pattern, within, here, force, broken);
        assert(all =~= two.push(s3).push(s4).push(s5));
    }
    let done = listed(pattern, place, Seq::empty());
    assert(done == start.considering_all(pattern, all, broken));
    let empty = Seq::<Ranked>::empty();
    assert(done.results =~= top.results + reported(
        pattern,
        dot,
        PatternMatchView::Directory(dot, here),
    ) + (if prefix.len() == 0 {
        empty
    } else {
        reported(pattern, slash, PatternMatchView::Directory(slash, here))
    }) + reported(pattern, within, PatternMatchView::Directory(within, here)));
    assert(done.nested =~= top.nested + (if prefix.len() == 0 {
        Seq::empty()
    } else {
        searched(pattern, slash, here, force)
    }) + searched(pattern, within, here, force));
}

/// Candidates are held against a pattern one after the other, and one for which it does not
/// answer changes nothing.
pub proof fn law_candidates_are_considered_in_a_row(
    search: SearchView,
    pattern: PatternView,
    first: Seq<CandidateView>,
    second: Seq<CandidateView>,
    candidate: CandidateView,
    target: LinkTarget,
)
    ensures
        search.considering_all(pattern, Seq::empty(), target) == search,
        search.considering_all(pattern, first + second, target) == search.considering_all(
            pattern,
            first,
            target,
        ).considering_all(pattern, second, target),
        search.considering_all(pattern, seq![candidate], target) == (if answers(
            pattern,
            candidate.query,
            candidate.text,
        ) {
            search.recording(
                answer_position(pattern, candidate.query, candidate.text),
                candidate,
                target,
            )
        } else {
            search
        }),
    decreases second.len(),
{
    let none = Seq::<CandidateView>::empty();
    lemma_consider_last(search, pattern, none, candidate, target);
    assert(none.push(candidate) =~= seq![candidate]);
    if second.len() == 0 {
        assert(first + second =~= first);
    } else {
        law_candidates_are_considered_in_a_row(
            search,
            pattern,
            first,
            second.drop_last(),
            candidate,
            target,
        );
        assert((first + second).drop_last() =~= first + second.drop_last());
    }
}

/// What is recorded of a candidate: one that stands for a file or a directory is reported as
/// that, a link as what it points to, and all else becomes a search. Nothing that was there is
/// lost.
pub proof fn law_candidate_is_recorded_by_its_effect(
    search: SearchView,
    position: int,
    candidate: CandidateView,
    target: LinkTarget,
)
    ensures
        ({
            let after = search.recording(position, candidate, target);
            let file = (position, PatternMatchView::File(candidate.text, candidate.path));
            let directory = (
                position,
                PatternMatchView::Directory(candidate.text, candidate.path),
            );
            match candidate.effect {
                Effect::File => after.results == search.results.push(file) && after.nested
                    == search.nested,
                Effect::Directory => after.results == search.results.push(directory)
                    && after.nested == search.nested,
                Effect::Link { directory_only } => after.nested == search.nested && after.results
                    == (if target == LinkTarget::Directory {
                    search.results.push(directory)
                } else if target == LinkTarget::File && !directory_only {
                    search.results.push(file)
                } else {
                    search.results
                }),
                Effect::Descend { force } => after.results == search.results && after.nested
                    == search.nested.push(
                    (
                        position,
                        RequestView { path: candidate.path, prefix: candidate.text, force },
                    ),
                ),
            }
        }),
{
}

/// What is reported of a path that was looked up is of the kind that stands there: a file, a
/// directory, or what a link points to, with the text and the path that were looked up. Nothing
/// else is reported.
pub proof fn law_probe_reports_what_stands_there(
    text: Seq<char>,
    path: u64,
    kind: EntryKind,
    target: LinkTarget,
)
    ensures
        ({
            let report = probe_report(text, path, kind, target);
            let is_file = kind == EntryKind::File || kind == EntryKind::Symlink && target
                == LinkTarget::File;
            let is_directory = kind == EntryKind::Directory || kind == EntryKind::Symlink
                && target == LinkTarget::Directory;
            &&& is_file ==> report == Some(PatternMatchView::File(text, path))
            &&& is_directory ==> report == Some(PatternMatchView::Directory(text, path))
            &&& !is_file && !is_directory ==> report is None
        }),
{
}

/// What is looked up is reported as it would be if the directory were listed, where its name
/// does not end in a slash and is a match.
pub proof fn law_probing_agrees_with_listing(
    pattern: PatternView,
    place: Place,
    entries: Seq<EntryView>,
    entry: EntryView,
)
    requires
        entry.key.len() > 0,
        entry.key.last() != '/',
        answers(pattern, Query::Match, place.prefix + entry.key),
    ensures
        ({
            let text = place.prefix + entry.key;
            let results = listed(pattern, place, entries.push(entry)).results;
            probe_report(text, entry.path, entry.kind, entry.target) matches Some(found)
                ==> results.contains((answer_position(pattern, Query::Match, text), found))
        }),
{
    let text = place.prefix + entry.key;
    let before = listed(pattern, place, entries).results;
    let results = listed(pattern, place, entries.push(entry)).results;
    law_entry_is_listed(pattern, place, entries, entry);
    assert(text.last() == entry.key.last());
    assert(entry_text(place.prefix, entry.key) == text);
    if let Some(found) = probe_report(text, entry.path, entry.kind, entry.target) {
        assert(reported(pattern, text, found)[0] == (
            answer_position(pattern, Query::Match, text),
            found,
        ));
        assert(results[before.len() as int] == (
            answer_position(pattern, Query::Match, text),
            found,
        ));
    }
}

/// The target of a link matters if and only if its text matches, with or without a slash at the
/// end.
pub proof fn law_target_matters_for_a_match(
    pattern: PatternView,
    prefix: Seq<char>,
    key: Seq<char>,
    path: u64,
)
    ensures
        ({
            let text = entry_text(prefix, key);
            let offers = entry_offers(prefix, key, EntryKind::Symlink, path);
            (exists|i: int|
                0 <= i < offers.len() && answers(
                    pattern,
                    (#[trigger] offers[i]).query,
                    offers[i].text,
                )) == (answers(pattern, Query::Match, text) || answers(
                pattern,
                Query::Match,
                text.push('/'),
            ))
        }),
{
    reveal_strlit("/");
    let text = entry_text(prefix, key);
    let offers = entry_offers(prefix, key, EntryKind::Symlink, path);
    assert(text =~= without_final_slash(prefix + key));
    assert(text.push('/') =~= text + "/"@);
    assert(offers[0] == link_candidate(text, path, false));
    assert(offers[1] == link_candidate(text.push('/'), path, true));
}

/// What is held against a pattern for an entry: prefix and name for a file, and for a directory or
/// a link both without and with a slash at the end. A directory is also searched.
pub proof fn law_entry_offers_its_text(
    prefix: Seq<char>,
    key: Seq<char>,
    kind: EntryKind,
    path: u64,
    i: int,
)
    ensures
        ({
            let offers = entry_offers(prefix, key, kind, path);
            let text = entry_text(prefix, key);
            &&& offers.len() == match kind {
                EntryKind::File => 1,
                EntryKind::Directory => 3,
                EntryKind::Symlink => 2,
                EntryKind::Other => 0int,
            }
            &&& 0 <= i < offers.len() ==> {
                let offer = offers[i];
                &&& offer.path == path
                &&& offer.text == if kind == EntryKind::File {
                    prefix + key
                } else if i == 0 {
                    text
                } else {
                    text.push('/')
                }
                &&& offer.query == if i < 2 {
                    Query::Match
                } else {
                    Query::MatchOrOthers
                }
                &&& match offer.effect {
                    Effect::File => kind == EntryKind::File,
                    Effect::Directory => kind == EntryKind::Directory && i < 2,
                    Effect::Link { directory_only } => kind == EntryKind::Symlink
                        && directory_only == (i == 1),
                    Effect::Descend { force } => kind == EntryKind::Directory && i == 2 && force,
                }
            }
        }),
{
    reveal_strlit("/");
    let text = entry_text(prefix, key);
    assert(text =~= without_final_slash(prefix + key));
    assert(text.push('/') =~= text + "/"@);
}

/// What is held against a pattern for a directory itself goes in pairs or alone: each text that is
/// searched where it could match is reported where it matches, and only `..` and `.` are not
/// searched. There is nothing else.
pub proof fn law_directory_offers_itself(
    prefix: Seq<char>,
    force: bool,
    here: u64,
    parent: u64,
    i: int,
)
    requires
        0 <= i < relative_candidates(prefix, force, here, parent).len(),
    ensures
        ({
            let offers = relative_candidates(prefix, force, here, parent);
            let offer = offers[i];
            let up = if force {
                0
            } else {
                3int
            };
            let n = if prefix.len() == 0 {
                3
            } else {
                5int
            };
            let added = if !force && i == 0 {
                seq!['.', '.']
            } else if i < up {
                seq!['.', '.', '/']
            } else if i == up {
                seq!['.']
            } else if prefix.len() > 0 && i < up + 3 {
                seq!['/']
            } else {
                seq!['.', '/']
            };
            let searched = i == 2 && !force || i == up + 2 || i == up + 4;
            &&& offers.len() == up + n
            &&& offer.text == prefix + added
            &&& offer.path == if i < up {
                parent
            } else {
                here
            }
            &&& if searched {
                offer.query == Query::MatchOrOthers && offer.effect == (Effect::Descend {
                    force: force,
                })
            } else {
                offer.query == Query::Match && offer.effect == Effect::Directory
            }
        }),
{
    reveal_strlit("..");
    reveal_strlit("../");
    reveal_strlit(".");
    reveal_strlit("./");
    reveal_strlit("/");
    assert(prefix + seq!['.', '.'] =~= prefix + ".."@);
    assert(prefix + seq!['.', '.', '/'] =~= prefix + "../"@);
    assert(prefix + seq!['.'] =~= prefix + "."@);
    assert(prefix + seq!['/'] =~= prefix + "/"@);
    assert(prefix + seq!['.', '/'] =~= prefix + "./"@);
    assert(prefix.len() == 0 ==> prefix + seq!['.', '/'] =~= "./"@);
}

/// Whether `constant` leads to `path`: it is all of it where the pattern ends with it, or else
/// the longest start of it that ends in a slash.
pub open spec fn constant_leads_to(constant: (Seq<char>, bool), path: Seq<char>) -> bool {
    if constant.1 {
        path == constant.0
    } else {
        &&& 0 < path.len() <= constant.0.len()
        &&& path == constant.0.take(path.len() as int)
        &&& path[path.len() - 1] == '/'
        &&& forall|k: int|
            path.len() <= k < constant.0.len() ==> #[trigger] constant.0[k] != '/'
    }
}

/// Whether `step` is made for `constant` in a search for `pattern` behind `prefix`: its path is
/// looked up where it makes a match, and searched where the pattern goes on behind the constant.
pub open spec fn is_made_for(
    pattern: PatternView,
    prefix: Seq<char>,
    constant: (Seq<char>, bool),
    step: StepView,
) -> bool {
    &&& constant_leads_to(constant, step.0)
    &&& if step.1 {
        answers(pattern, Query::Match, prefix + step.0)
    } else {
        !constant.1
    }
}

proof fn lemma_made_for(
    pattern: PatternView,
    prefix: Seq<char>,
    constant: (Seq<char>, bool),
    step: StepView,
)
    requires
        constant.1 || last_slash(constant.0) is Some,
    ensures
        is_made_for(pattern, prefix, constant, step) == is_step_for(
            pattern,
            prefix,
            constant,
            step,
        ),
{
    let text = constant.0;
    if !constant.1 {
        lemma_last_slash(text);
        let n = last_slash(text)->0 + 1;
        let path = step_path(constant);
        assert(path == text.take(n));
        if constant_leads_to(constant, step.0) {
            let m = step.0.len() as int;
            assert(text[m - 1] == step.0[m - 1]);
            assert(m == n);
        }
        if step.0 == path {
            assert(path[n - 1] == text[n - 1]);
            assert(constant_leads_to(constant, step.0));
        }
    }
}

proof fn lemma_step_sources(
    pattern: PatternView,
    prefix: Seq<char>,
    constants: Seq<(Seq<char>, bool)>,
) -> (sources: Seq<int>)
    requires
        all_lead_on(constants),
    ensures
        sources.len() == steps_of(pattern, prefix, constants).len(),
        forall|i: int|
            0 <= i < sources.len() ==> {
                &&& 0 <= #[trigger] sources[i] < constants.len()
                &&& is_step_for(
                    pattern,
                    prefix,
                    constants[sources[i]],
                    steps_of(pattern, prefix, constants)[i],
                )
                &&& forall|c: int|
                    0 <= c < sources[i] ==> !is_step_for(
                        pattern,
                        prefix,
                        #[trigger] constants[c],
                        steps_of(pattern, prefix, constants)[i],
                    )
            },
        forall|i: int, j: int|
            0 <= i < j < sources.len() ==> #[trigger] sources[i] <= #[trigger] sources[j] && (
            sources[i] == sources[j] ==> steps_of(pattern, prefix, constants)[i].1),
    decreases constants.len(),
{
    let now = steps_of(pattern, prefix, constants);
    if constants.len() == 0 {
        Seq::empty()
    } else {
        let front = constants.drop_last();
        let n = front.len() as int;
        let last = constants[n];
        assert forall|i: int| 0 <= i < front.len() implies (#[trigger] front[i]).1 || last_slash(
            front[i].0,
        ) is Some by {
            assert(constants[i].1 || last_slash(constants[i].0) is Some);
        }
        let before = steps_of(pattern, prefix, front);
        let old = lemma_step_sources(pattern, prefix, front);
        let path = step_path(last);
        let matches = answers(pattern, Query::Match, prefix + path);
        let probed = if matches {
            with_step(before, (path, true))
        } else {
            before
        };
        assert(now == with_steps_for(before, pattern, prefix, last));
        lemma_steps_of(pattern, prefix, front);
        let some = if probed.len() > before.len() {
            old.push(n)
        } else {
            old
        };
        let sources = if now.len() > probed.len() {
            some.push(n)
        } else {
            some
        };
        assert forall|i: int| 0 <= i < sources.len() implies {
            &&& 0 <= #[trigger] sources[i] < constants.len()
            &&& is_step_for(pattern, prefix, constants[sources[i]], now[i])
            &&& forall|c: int|
                0 <= c < sources[i] ==> !is_step_for(
                    pattern,
                    prefix,
                    #[trigger] constants[c],
                    now[i],
                )
        } by {
            if i < old.len() {
                assert(now[i] == before[i]);
                assert(0 <= old[i] < front.len());
                assert(front[old[i]] == constants[old[i]]);
                assert forall|c: int| 0 <= c < sources[i] implies !is_step_for(
                    pattern,
                    prefix,
                    #[trigger] constants[c],
                    now[i],
                ) by {
                    assert(!is_step_for(pattern, prefix, front[c], before[i]));
                }
            } else {
                assert(!before.contains(now[i])) by {
                    if now[i].1 {
                        assert(now[i] == (path, true));
                    } else {
                        assert(now[i] == (path, false));
                        assert(!probed.contains(now[i]));
                        if before.contains(now[i]) {
                            let k = choose|k: int| 0 <= k < before.len() && before[k] == now[i];
                            assert(probed[k] == now[i]);
                        }
                    }
                }
                assert forall|c: int| 0 <= c < sources[i] implies !is_step_for(
                    pattern,
                    prefix,
                    #[trigger] constants[c],
                    now[i],
                ) by {
                    if is_step_for(pattern, prefix, constants[c], now[i]) {
                        assert(is_step_for(pattern, prefix, front[c], now[i]));
                    }
                }
            }
        }
        assert forall|i: int, j: int| 0 <= i < j < sources.len() implies #[trigger] sources[i]
            <= #[trigger] sources[j] && (sources[i] == sources[j] ==> now[i].1) by {
            if j < old.len() {
                assert(old[i] <= old[j]);
            } else if i < old.len() {
                assert(0 <= old[i] < front.len());
            }
        }
        sources
    }
}

/// A search is planned if and only if there is a list of constants and each of them ends the
/// pattern or holds a slash. The steps are those that are made for the constants, each once, in
/// the order of the constants, and what is looked up comes before what is searched.
pub proof fn law_plan_is_made_for_the_constants(pattern: PatternView, prefix: Seq<char>) -> (
    sources: Seq<int>)
    ensures
        (planned_steps(pattern, prefix) is Some) == match next_list(pattern, prefix) {
            Some(constants) => forall|i: int|
                0 <= i < constants.len() ==> (#[trigger] constants[i]).1 || exists|k: int|
                    0 <= k < constants[i].0.len() && #[trigger] constants[i].0[k] == '/',
            None => false,
        },
        planned_steps(pattern, prefix) matches Some(steps) ==> {
            let constants = next_list(pattern, prefix)->0;
            &&& steps.no_duplicates()
            &&& forall|i: int, step: StepView|
                0 <= i < constants.len() && #[trigger] is_made_for(
                    pattern,
                    prefix,
                    constants[i],
                    step,
                ) ==> steps.contains(step)
            &&& sources.len() == steps.len()
            &&& forall|i: int|
                0 <= i < steps.len() ==> {
                    &&& 0 <= #[trigger] sources[i] < constants.len()
                    &&& is_made_for(pattern, prefix, constants[sources[i]], steps[i])
                    &&& forall|c: int|
                        0 <= c < sources[i] ==> !is_made_for(
                            pattern,
                            prefix,
                            #[trigger] constants[c],
                            steps[i],
                        )
                }
            &&& forall|i: int, j: int|
                0 <= i < j < steps.len() ==> #[trigger] sources[i] <= #[trigger] sources[j] && (
                sources[i] == sources[j] ==> steps[i].1)
        },
{
    if let Some(constants) = next_list(pattern, prefix) {
        assert forall|i: int| 0 <= i < constants.len() implies (last_slash(constants[i].0) is Some)
            == exists|k: int|
            0 <= k < constants[i].0.len() && #[trigger] constants[i].0[k] == '/' by {
            lemma_last_slash(constants[i].0);
            if let Some(k) = last_slash(constants[i].0) {
                assert(constants[i].0[k] == '/');
            }
        }
        if all_lead_on(constants) {
            let steps = planned_steps(pattern, prefix)->0;
            lemma_steps_of(pattern, prefix, constants);
            let sources = lemma_step_sources(pattern, prefix, constants);
            assert forall|i: int, step: StepView| 0 <= i < constants.len() implies is_step_for(
                pattern,
                prefix,
                constants[i],
                step,
            ) == #[trigger] is_made_for(pattern, prefix, constants[i], step) by {
                assert(constants[i].1 || last_slash(constants[i].0) is Some);
                lemma_made_for(pattern, prefix, constants[i], step);
            }
            assert forall|i: int| 0 <= i < steps.len() implies {
                &&& 0 <= #[trigger] sources[i] < constants.len()
                &&& is_made_for(pattern, prefix, constants[sources[i]], steps[i])
                &&& forall|c: int|
                    0 <= c < sources[i] ==> !is_made_for(
                        pattern,
                        prefix,
                        #[trigger] constants[c],
                        steps[i],
                    )
            } by {
                assert(is_made_for(pattern, prefix, constants[sources[i]], steps[i]));
                assert forall|c: int| 0 <= c < sources[i] implies !is_made_for(
                    pattern,
                    prefix,
                    #[trigger] constants[c],
                    steps[i],
                ) by {
                    assert(!is_step_for(pattern, prefix, constants[c], steps[i]));
                }
            }
            assert forall|i: int, step: StepView|
                0 <= i < constants.len() && #[trigger] is_made_for(
                    pattern,
                    prefix,
                    constants[i],
                    step,
                ) implies steps.contains(step) by {
                assert(is_step_for(pattern, prefix, constants[i], step));
            }
            sources
        } else {
            let i = choose|i: int|
                0 <= i < constants.len() && !((#[trigger] constants[i]).1 || last_slash(
                    constants[i].0,
                ) is Some);
            assert(!(constants[i].1 || exists|k: int|
                0 <= k < constants[i].0.len() && #[trigger] constants[i].0[k] == '/'));
            Seq::empty()
        }
    } else {
        Seq::empty()
    }
}

/// One row of bytes comes before another if and only if it is the start of it, or has the lower
/// byte where they differ first.
pub proof fn law_bytes_are_ordered_like_words(a: Seq<u8>, b: Seq<u8>, k: int)
    requires
        0 <= k <= a.len(),
        k <= b.len(),
        a.take(k) == b.take(k),
        k < a.len() && k < b.len() ==> a[k] != b[k],
    ensures
        bytes_precede(a, b) == (k == a.len() || k < b.len() && a[k] < b[k]),
    decreases k,
{
    if k > 0 {
        assert(a[0] == a.take(k)[0] && b[0] == b.take(k)[0]);
        let (c, d) = (a.drop_first(), b.drop_first());
        assert(c.take(k - 1) =~= a.take(k).drop_first());
        assert(d.take(k - 1) =~= b.take(k).drop_first());
        law_bytes_are_ordered_like_words(c, d, k - 1);
    }
}

/// Whether report `a` may stand before report `b`: by position, then files before directories,
/// then by the bytes of the text, then by path.
pub open spec fn may_stand_before(a: Ranked, b: Ranked) -> bool {
    ||| a.0 < b.0
    ||| a.0 == b.0 && match (a.1, b.1) {
        (PatternMatchView::File(..), PatternMatchView::Directory(..)) => true,
        (PatternMatchView::Directory(..), PatternMatchView::File(..)) => false,
        (PatternMatchView::File(s, p), PatternMatchView::File(t, q)) => if s == t {
            p <= q
        } else {
            bytes_precede(encode_utf8(s), encode_utf8(t))
        },
        (PatternMatchView::Directory(s, p), PatternMatchView::Directory(t, q)) => if s == t {
            p <= q
        } else {
            bytes_precede(encode_utf8(s), encode_utf8(t))
        },
    }
}

/// What the searches below have found counts with the position of its search.
pub proof fn law_found_below_keeps_its_position(
    nested: Seq<(int, Seq<PatternMatchView>)>,
    position: int,
    list: Seq<PatternMatchView>,
)
    ensures
        all_ranked(Seq::empty()) == Seq::<Ranked>::empty(),
        all_ranked(nested.push((position, list))) == all_ranked(nested) + Seq::new(
            list.len(),
            |i: int| (position, list[i]),
        ),
{
    assert(nested.push((position, list)).drop_last() =~= nested);
    assert(ranked_at(position, list) =~= Seq::new(list.len(), |i: int| (position, list[i])));
}

/// What a search reports in the end is what it and the searches below it have found, in order.
/// Where a single search below is all there is, what that has found is taken over as it is.
pub proof fn law_all_found_is_reported_in_order(
    results: Seq<Ranked>,
    nested: Seq<(int, Seq<PatternMatchView>)>,
    position: int,
    list: Seq<PatternMatchView>,
) -> (ranked: Seq<Ranked>)
    ensures
        finished(Seq::empty(), seq![(position, list)]) == list,
        !(results.len() == 0 && nested.len() == 1) ==> {
            &&& ranked.to_multiset() == (results + all_ranked(nested)).to_multiset()
            &&& ranked.len() == finished(results, nested).len()
            &&& forall|i: int|
                0 <= i < ranked.len() ==> finished(results, nested)[i] == (#[trigger] ranked[i]).1
            &&& forall|i: int, j: int|
                0 <= i < j < ranked.len() ==> may_stand_before(
                    #[trigger] ranked[i],
                    #[trigger] ranked[j],
                )
        },
{
    broadcast use group_to_multiset_ensures;

    let all = results + all_ranked(nested);
    law_in_order(all);
    let ranked = in_order(all);
    assert(ranked.len() == all.len()) by {
        assert(ranked.to_multiset().len() == ranked.len());
        assert(all.to_multiset().len() == all.len());
    }
    assert(unranked(ranked).len() == ranked.len());
    ranked
}

} // verus!
