//! That the models of values hold what the values hold, and what the words for texts mean.
use vstd::prelude::*;
use vstd::utf8::encode_utf8;

use crate::barrier::position;
use crate::constants::{constant_models, Continuation, NextConstantUntilResult};
use crate::lookup::{candidate_models, step_models, Candidate, CandidateView, Step};
use crate::matching::{MatchResult, Outcome};
use crate::order::{
    match_models, ranked_models, PatternMatch, PatternMatchView, PatternMatches,
};
use crate::pattern::{choices, models, parts, Pattern, PatternView};
use crate::search::{
    entry_models, nested_models, request_models, Entry, EntryView, Request, RequestView, Search,
};
use crate::text::{
    byte_offset, find_in, has_prefix, in_bytes, in_chars, is_position, last_slash,
    lemma_char_position, lemma_find_from, lemma_last_slash, occurs_at, without_final_slash,
};

verus! {

/// The model of a pattern has its shape, with the same texts and the same parts in their order.
pub proof fn law_pattern_model_is_faithful(pattern: Pattern, list: Seq<Pattern>, i: int)
    ensures
        match (pattern, pattern@) {
            (Pattern::Constant(text), PatternView::Constant(model)) => model == text@,
            (Pattern::Dynamic, PatternView::Dynamic) => true,
            (Pattern::Alternatives(inner), PatternView::Alternatives(model)) => model == models(
                inner@,
            ),
            (Pattern::Concatenation(inner), PatternView::Concatenation(model)) => model == models(
                inner@,
            ),
            _ => false,
        },
        models(list).len() == list.len(),
        0 <= i < list.len() ==> models(list)[i] == list[i]@,
{
}

/// The models of lists hold the models of their items in their order.
pub proof fn law_list_models_are_faithful(
    constants: Seq<(&str, bool)>,
    steps: Seq<Step>,
    candidates: Seq<Candidate>,
    requests: Seq<(usize, Request)>,
    entries: Seq<Entry>,
    matches: Seq<PatternMatch>,
    ranked: Seq<(usize, PatternMatch)>,
    nested: Seq<(usize, PatternMatches)>,
    i: int,
)
    ensures
        constant_models(constants).len() == constants.len(),
        0 <= i < constants.len() ==> constant_models(constants)[i] == (
            constants[i].0@,
            constants[i].1,
        ),
        step_models(steps).len() == steps.len(),
        0 <= i < steps.len() ==> step_models(steps)[i] == (steps[i].path@, steps[i].until_end),
        candidate_models(candidates).len() == candidates.len(),
        0 <= i < candidates.len() ==> candidate_models(candidates)[i] == candidates[i]@,
        request_models(requests).len() == requests.len(),
        0 <= i < requests.len() ==> request_models(requests)[i] == (
            requests[i].0 as int,
            requests[i].1@,
        ),
        entry_models(entries).len() == entries.len(),
        0 <= i < entries.len() ==> entry_models(entries)[i] == entries[i]@,
        match_models(matches).len() == matches.len(),
        0 <= i < matches.len() ==> match_models(matches)[i] == matches[i]@,
        ranked_models(ranked).len() == ranked.len(),
        0 <= i < ranked.len() ==> ranked_models(ranked)[i] == (ranked[i].0 as int, ranked[i].1@),
        nested_models(nested).len() == nested.len(),
        0 <= i < nested.len() ==> nested_models(nested)[i] == (
            nested[i].0 as int,
            match_models(nested[i].1.0@),
        ),
{
}

/// The models of what a search handles hold all that it does.
pub proof fn law_search_models_are_faithful(
    candidate: Candidate,
    request: Request,
    entry: Entry,
    search: Search,
    found: PatternMatch,
)
    ensures
        candidate@ == (CandidateView {
            text: candidate.text@,
            query: candidate.query,
            effect: candidate.effect,
            path: candidate.path,
        }),
        request@ == (RequestView {
            path: request.path,
            prefix: request.prefix@,
            force: request.force,
        }),
        entry@ == (EntryView {
            key: entry.key@,
            kind: entry.kind,
            path: entry.path,
            target: entry.target,
        }),
        search@.results == ranked_models(search.results@),
        search@.nested == request_models(search.nested@),
        match (found, found@) {
            (PatternMatch::File(text, path), PatternMatchView::File(model, same)) => model == text@
                && same == path,
            (
                PatternMatch::Directory(text, path),
                PatternMatchView::Directory(model, same),
            ) => model == text@ && same == path,
            _ => false,
        },
        found@.text() == match found {
            PatternMatch::File(text, _) => text@,
            PatternMatch::Directory(text, _) => text@,
        },
        found@.path() == match found {
            PatternMatch::File(_, path) => path,
            PatternMatch::Directory(_, path) => path,
        },
{
}

/// The models of readings hold the same text, and the same place in it counted in characters.
pub proof fn law_reading_models_are_faithful(
    read: MatchResult,
    listed: NextConstantUntilResult,
    k: int,
    at: usize,
)
    ensures
        match (read, read@) {
            (MatchResult::NoMatch, Outcome::NoMatch) => true,
            (MatchResult::Partial, Outcome::Partial) => true,
            (
                MatchResult::Consumed { remaining, any_offset },
                Outcome::Consumed { remaining: left, any_offset: offset },
            ) => {
                &&& left == remaining@
                &&& (any_offset is None) == (offset is None)
                &&& any_offset == Some(at) && 0 <= k <= left.len() && at == encode_utf8(
                    left.take(k),
                ).len() ==> offset == Some(k)
            },
            _ => false,
        },
        match (listed, listed@) {
            (NextConstantUntilResult::NoMatch, Continuation::NoMatch) => true,
            (NextConstantUntilResult::PartialDynamic, Continuation::PartialDynamic) => true,
            (
                NextConstantUntilResult::Partial(rest, end),
                Continuation::Partial(more, last),
            ) => more == rest@ && last == end,
            (
                NextConstantUntilResult::Consumed(remaining, any_offset),
                Continuation::Consumed(left, offset),
            ) => {
                &&& left == remaining@
                &&& (any_offset is None) == (offset is None)
                &&& any_offset == Some(at) && 0 <= k <= left.len() && at == encode_utf8(
                    left.take(k),
                ).len() ==> offset == Some(k)
            },
            _ => false,
        },
{
    if let MatchResult::Consumed { remaining, .. } = read {
        if 0 <= k <= remaining@.len() {
            lemma_char_position(remaining@, k);
        }
    }
    if let NextConstantUntilResult::Consumed(remaining, _) = listed {
        if 0 <= k <= remaining@.len() {
            lemma_char_position(remaining@, k);
        }
    }
}

/// A place in a text is as many bytes as the characters before it take, and the same place again
/// when it is counted back.
pub proof fn law_places_are_counted_in_bytes(before: Seq<char>, after: Seq<char>, at: usize)
    ensures
        byte_offset(before + after, before.len() as int) == encode_utf8(before).len(),
        in_bytes(before + after, Some(before.len() as int)) == Some(
            encode_utf8(before).len() as int,
        ),
        in_bytes(before, None) is None,
        position(Some(at)) == Some(at as int),
        position(None) is None,
        at == encode_utf8(before).len() ==> {
            &&& is_position(before + after, at as int)
            &&& in_chars(before + after, Some(at)) == Some(before.len() as int)
        },
        in_chars(before, None) is None,
{
    let all = before + after;
    assert(all.take(before.len() as int) =~= before);
    lemma_char_position(all, before.len() as int);
}

/// A text starts with another if and only if it is that text and some more.
pub proof fn law_start_and_rest(start: Seq<char>, rest: Seq<char>, text: Seq<char>)
    ensures
        has_prefix(start + rest, start),
        (start + rest).skip(start.len() as int) == rest,
        has_prefix(text, start) == (start.len() <= text.len() && text == start + text.skip(
            start.len() as int,
        )),
{
    assert((start + rest).take(start.len() as int) =~= start);
    assert((start + rest).skip(start.len() as int) =~= rest);
    if start.len() <= text.len() {
        assert(text.take(start.len() as int) + text.skip(start.len() as int) =~= text);
        if text == start + text.skip(start.len() as int) {
            assert(text.take(start.len() as int) =~= start);
        }
    }
}

/// What is found is found where it stands for the first time, and is found wherever it stands.
pub proof fn law_first_occurrence_is_found(before: Seq<char>, needle: Seq<char>, after: Seq<char>)
    ensures
        match find_in(before + needle + after, needle) {
            Some(k) => {
                &&& 0 <= k <= before.len()
                &&& (before + needle + after).subrange(k, k + needle.len()) == needle
                &&& forall|j: int|
                    0 <= j < k ==> #[trigger] (before + needle + after).subrange(
                        j,
                        j + needle.len(),
                    ) != needle
            },
            None => false,
        },
{
    let all = before + needle + after;
    let n = needle.len() as int;
    lemma_find_from(all, needle, 0);
    assert(all.subrange(before.len() as int, before.len() + n) =~= needle);
    assert(occurs_at(all, needle, before.len() as int));
    if let Some(k) = find_in(all, needle) {
        assert forall|j: int| 0 <= j < k implies #[trigger] all.subrange(j, j + n) != needle by {
            assert(!occurs_at(all, needle, j));
        }
    }
}

/// What is found stands there: where a text does not hold another, nothing is found.
pub proof fn law_found_text_stands_there(text: Seq<char>, needle: Seq<char>)
    ensures
        find_in(text, needle) matches Some(k) ==> 0 <= k <= text.len() - needle.len()
            && text.subrange(k, k + needle.len()) == needle,
{
    lemma_find_from(text, needle, 0);
}

/// The last slash is the one that no slash follows, and a single slash at the end can be left
/// off.
pub proof fn law_last_slash_is_last(before: Seq<char>, after: Seq<char>)
    requires
        forall|i: int| 0 <= i < after.len() ==> #[trigger] after[i] != '/',
    ensures
        last_slash(before.push('/') + after) == Some(before.len() as int),
        last_slash(after) is None,
        without_final_slash(before.push('/')) == before,
        without_final_slash(after) == after,
{
    let all = before.push('/') + after;
    let n = before.len() as int;
    lemma_last_slash(all);
    lemma_last_slash(after);
    assert(all[n] == '/');
    if let Some(k) = last_slash(all) {
        if k > n {
            assert(all[k] == after[k - n - 1]);
        }
    }
    assert(before.push('/').drop_last() =~= before);
    if after.len() > 0 {
        assert(after[after.len() - 1] != '/');
    }
}

/// Only alternatives are a choice, and only a concatenation has parts. All else is its only choice
/// and its only part.
pub proof fn law_choices_and_parts(pattern: PatternView, list: Seq<PatternView>)
    ensures
        choices(PatternView::Alternatives(list)) == list,
        parts(PatternView::Concatenation(list)) == list,
        !(pattern is Alternatives) ==> choices(pattern) == seq![pattern],
        !(pattern is Concatenation) ==> parts(pattern) == seq![pattern],
{
}

} // verus!
