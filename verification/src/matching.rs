//! Matching a text against a pattern.
use vstd::prelude::*;
use vstd::utf8::encode_utf8;

use crate::barrier::{
    ends_in_artifact, first_barrier, is_artifact, lemma_barrier_from, match_barrier,
};
use crate::pattern::{choices, group_models, models, Pattern, PatternView};
use crate::text::{
    byte_len, char_position, find, find_in, has_prefix, in_chars, is_position,
    lemma_byte_offset_ends, lemma_byte_offset_monotone, lemma_char_position, lemma_find_from,
    lemma_position, strip_prefix, tail_at,
};

verus! {

/// What comes of reading a text along a pattern, from the left.
pub enum Outcome {
    /// The text differs from the pattern.
    NoMatch,
    /// The text ends before the pattern does: what is there may be the start of a match.
    Partial,
    /// The pattern was used up. `remaining` is the text that is left. Where the pattern ends
    /// in a dynamic part, that part may run on up to character `any_offset` of `remaining`.
    Consumed { remaining: Seq<char>, any_offset: Option<int> },
    /// Alternatives stand inside the pattern, so that it cannot be read along.
    Unnormalized,
}

/// What a match is asked for.
#[derive(Clone, Copy, PartialEq, Eq, Structural, Debug)]
pub enum Query {
    /// Is the text a match?
    Match,
    /// Is the text the start of other matches?
    Others,
    /// Is the text a match, or the start of one?
    MatchOrOthers,
}

impl Outcome {
    /// Whether the text is a match.
    pub open spec fn is_match(self) -> bool {
        match self {
            Outcome::Consumed { remaining, any_offset: Some(offset) } => offset == remaining.len(),
            Outcome::Consumed { remaining, any_offset: None } => remaining.len() == 0,
            _ => false,
        }
    }

    /// Whether the text may be the start of matches other than itself.
    pub open spec fn could_match_others(self) -> bool {
        match self {
            Outcome::Partial => true,
            Outcome::Consumed { remaining, any_offset: Some(offset) } => offset == remaining.len(),
            _ => false,
        }
    }

    /// Whether the text is a match or may be the start of one.
    pub open spec fn could_match(self) -> bool {
        match self {
            Outcome::Partial => true,
            Outcome::Consumed { remaining, any_offset: Some(offset) } => offset == remaining.len(),
            Outcome::Consumed { remaining, any_offset: None } => remaining.len() == 0,
            _ => false,
        }
    }

    /// The answer to `query`.
    pub open spec fn answers(self, query: Query) -> bool {
        match query {
            Query::Match => self.is_match(),
            Query::Others => self.could_match_others(),
            Query::MatchOrOthers => self.could_match(),
        }
    }
}

/// Reads `value` along a constant. Behind a dynamic part, the constant may stand anywhere up
/// to `any_offset`, and its first occurrence counts.
pub open spec fn constant_outcome(
    constant: Seq<char>,
    value: Seq<char>,
    any_offset: Option<int>,
) -> Outcome {
    match any_offset {
        Some(offset) => match find_in(value, constant) {
            Some(index) => if index <= offset {
                Outcome::Consumed {
                    remaining: value.skip(index + constant.len()),
                    any_offset: None,
                }
            } else {
                Outcome::NoMatch
            },
            None => if offset >= value.len() {
                Outcome::Partial
            } else {
                Outcome::NoMatch
            },
        },
        None => if has_prefix(value, constant) {
            Outcome::Consumed { remaining: value.skip(constant.len() as int), any_offset: None }
        } else if has_prefix(constant, value) {
            Outcome::Partial
        } else {
            Outcome::NoMatch
        },
    }
}

/// Reads `value` along a dynamic part, which may run on up to the first barrier.
pub open spec fn dynamic_outcome(value: Seq<char>) -> Outcome {
    match first_barrier(value, true) {
        Some(offset) => Outcome::Consumed { remaining: value, any_offset: Some(offset) },
        None => if is_artifact(value) {
            Outcome::Partial
        } else {
            Outcome::Consumed { remaining: value, any_offset: Some(value.len() as int) }
        },
    }
}

/// Reads `value` along `pattern`. With `any_offset`, a dynamic part stands before the
/// pattern and may run on up to that character.
pub open spec fn outcome(pattern: PatternView, value: Seq<char>, any_offset: Option<int>) -> Outcome
    decreases pattern,
{
    match pattern {
        PatternView::Constant(constant) => constant_outcome(constant, value, any_offset),
        PatternView::Dynamic => dynamic_outcome(value),
        PatternView::Alternatives(_) => Outcome::Unnormalized,
        PatternView::Concatenation(parts) => parts_outcome(parts, value, any_offset),
    }
}

/// Reads `value` along `parts`, one after the other.
pub open spec fn parts_outcome(
    parts: Seq<PatternView>,
    value: Seq<char>,
    any_offset: Option<int>,
) -> Outcome
    decreases parts,
{
    if parts.len() == 0 {
        Outcome::Consumed { remaining: value, any_offset }
    } else {
        match outcome(parts[0], value, any_offset) {
            Outcome::Consumed { remaining, any_offset } => parts_outcome(
                parts.drop_first(),
                remaining,
                any_offset,
            ),
            other => other,
        }
    }
}

/// Whether choice `i` of `pattern` answers `query` for `value`.
pub open spec fn answers_at(pattern: PatternView, query: Query, value: Seq<char>, i: int) -> bool {
    outcome(choices(pattern)[i], value, None).answers(query)
}

/// Whether some choice of `pattern` answers `query` for `value`.
pub open spec fn answers(pattern: PatternView, query: Query, value: Seq<char>) -> bool {
    exists|i: int|
        0 <= i < choices(pattern).len() && #[trigger] answers_at(pattern, query, value, i)
}

/// Whether no choice before `i` answers `query` for `value`.
pub open spec fn unanswered_before(
    pattern: PatternView,
    query: Query,
    value: Seq<char>,
    i: int,
) -> bool {
    forall|j: int| 0 <= j < i ==> !#[trigger] answers_at(pattern, query, value, j)
}

/// Whether `i` is the first choice of `pattern` that answers `query` for `value`.
pub open spec fn first_answer(pattern: PatternView, query: Query, value: Seq<char>, i: int) -> bool {
    &&& 0 <= i < choices(pattern).len()
    &&& answers_at(pattern, query, value, i)
    &&& unanswered_before(pattern, query, value, i)
}

/// Whether `query` can be put to `pattern` for `value`: up to the first choice that answers
/// it, no choice is read into alternatives that stand inside it.
pub open spec fn askable(pattern: PatternView, query: Query, value: Seq<char>) -> bool {
    forall|i: int|
        0 <= i < choices(pattern).len() && #[trigger] unanswered_before(pattern, query, value, i)
            ==> !(outcome(choices(pattern)[i], value, None) is Unnormalized)
}

/// Whether alternatives stand nowhere in `pattern`.
pub open spec fn is_choiceless(pattern: PatternView) -> bool
    decreases pattern,
{
    match pattern {
        PatternView::Constant(_) => true,
        PatternView::Dynamic => true,
        PatternView::Alternatives(_) => false,
        PatternView::Concatenation(list) => all_choiceless(list),
    }
}

/// Whether alternatives stand nowhere in the patterns of `list`.
pub open spec fn all_choiceless(list: Seq<PatternView>) -> bool
    decreases list,
{
    forall|i: int| 0 <= i < list.len() ==> is_choiceless(#[trigger] list[i])
}

/// The patterns of `list` for which it holds, or does not hold, that `value` is a match or
/// the start of one, in the order of the list.
pub open spec fn kept(list: Seq<PatternView>, value: Seq<char>, wanted: bool) -> Seq<PatternView> {
    list.filter(|alt: PatternView| answers(alt, Query::MatchOrOthers, value) == wanted)
}

/// What is left of `pattern` when it is cut down to the alternatives for which it holds, or
/// does not hold, that `value` is a match or the start of one.
pub open spec fn filtered(pattern: PatternView, value: Seq<char>, wanted: bool) -> Option<
    PatternView,
> {
    match pattern {
        PatternView::Alternatives(list) => if kept(list, value, wanted).len() == 0 {
            None
        } else {
            Some(PatternView::Alternatives(kept(list, value, wanted)))
        },
        _ => if answers(pattern, Query::MatchOrOthers, value) == wanted {
            Some(pattern)
        } else {
            None
        },
    }
}

/// Whether `pattern` can be filtered by `value`: each alternative, or the pattern itself, can
/// be asked.
pub open spec fn filterable(pattern: PatternView, value: Seq<char>) -> bool {
    forall|i: int|
        0 <= i < choices(pattern).len() ==> askable(
            #[trigger] choices(pattern)[i],
            Query::MatchOrOthers,
            value,
        )
}

/// What comes of reading a text along a pattern.
pub enum MatchResult<'a> {
    NoMatch,
    Partial,
    Consumed { remaining: &'a str, any_offset: Option<usize> },
}

impl<'a> View for MatchResult<'a> {
    type V = Outcome;

    open spec fn view(&self) -> Outcome {
        match *self {
            MatchResult::NoMatch => Outcome::NoMatch,
            MatchResult::Partial => Outcome::Partial,
            MatchResult::Consumed { remaining, any_offset } => Outcome::Consumed {
                remaining: remaining@,
                any_offset: in_chars(remaining@, any_offset),
            },
        }
    }
}

impl<'a> MatchResult<'a> {
    /// The offset, where there is one, is a position in the text that is left.
    pub open spec fn wf(self) -> bool {
        match self {
            MatchResult::Consumed { remaining, any_offset: Some(b) } => is_position(
                remaining@,
                b as int,
            ),
            _ => true,
        }
    }

    /// Whether the text is a match.
    pub fn is_match(&self) -> (res: bool)
        requires
            self.wf(),
        ensures
            res == self@.is_match(),
    {
        match self {
            MatchResult::NoMatch => false,
            MatchResult::Partial => false,
            MatchResult::Consumed { remaining: rem, any_offset } => {
                if let Some(offset) = any_offset {
                    proof {
                        lemma_at_end(rem@, *offset as int);
                    }
                    *offset == byte_len(rem)
                } else {
                    rem.is_empty()
                }
            },
        }
    }

    /// Whether the text may be the start of matches other than itself.
    pub fn could_match_others(&self) -> (res: bool)
        requires
            self.wf(),
        ensures
            res == self@.could_match_others(),
    {
        match self {
            MatchResult::NoMatch => false,
            MatchResult::Partial => true,
            MatchResult::Consumed { remaining: rem, any_offset } => {
                if let Some(offset) = any_offset {
                    proof {
                        lemma_at_end(rem@, *offset as int);
                    }
                    *offset == byte_len(rem)
                } else {
                    false
                }
            },
        }
    }

    /// Whether the text is a match or may be the start of one.
    pub fn could_match(&self) -> (res: bool)
        requires
            self.wf(),
        ensures
            res == self@.could_match(),
    {
        match self {
            MatchResult::NoMatch => false,
            MatchResult::Partial => true,
            MatchResult::Consumed { remaining: rem, any_offset } => {
                if let Some(offset) = any_offset {
                    proof {
                        lemma_at_end(rem@, *offset as int);
                    }
                    *offset == byte_len(rem)
                } else {
                    rem.is_empty()
                }
            },
        }
    }
}

/// A position is at the end in bytes where it is at the end in characters.
pub proof fn lemma_at_end(text: Seq<char>, b: int)
    requires
        is_position(text, b),
    ensures
        (b == encode_utf8(text).len()) == (char_position(text, b) == text.len()),
        (b >= encode_utf8(text).len()) == (char_position(text, b) >= text.len()),
{
    let k = char_position(text, b);
    lemma_position(text, b);
    lemma_byte_offset_ends(text);
    lemma_byte_offset_monotone(text, k, text.len() as int);
}

/// What stands in `value` behind the first occurrence of `constant`, where that starts at byte
/// `offset` at the latest. The outer option says whether `constant` occurs at all, the inner
/// one whether it does so early enough.
pub(crate) fn rest_behind<'a>(value: &'a str, constant: &str, offset: usize) -> (res: Option<
    Option<&'a str>,
>)
    requires
        is_position(value@, offset as int),
    ensures
        match find_in(value@, constant@) {
            Some(k) => if k <= char_position(value@, offset as int) {
                res matches Some(Some(rest)) && rest@ == value@.skip(k + constant@.len())
            } else {
                res matches Some(None)
            },
            None => res is None,
        },
{
    let ghost limit = char_position(value@, offset as int);
    proof {
        lemma_position(value@, offset as int);
        lemma_find_from(value@, constant@, 0);
    }
    let index = match find(value, constant) {
        Some(index) => index,
        None => {
            return None;
        },
    };
    let ghost k = find_in(value@, constant@)->0;
    proof {
        if k <= limit {
            lemma_byte_offset_monotone(value@, k, limit);
        } else {
            lemma_byte_offset_monotone(value@, limit, k);
        }
    }
    if index > offset {
        return Some(None);
    }
    let tail = tail_at(value, index, Ghost(k));
    proof {
        let n = constant@.len() as int;
        assert(tail@.take(n) =~= value@.subrange(k, k + n));
        assert(tail@.skip(n) =~= value@.skip(k + n));
    }
    Some(strip_prefix(tail, constant))
}

impl Pattern {
    /// Reads `value` along this pattern.
    pub fn match_internal<'a>(&self, value: &'a str, any_offset: Option<usize>) -> (res: MatchResult<
        'a,
    >)
        requires
            any_offset matches Some(b) ==> is_position(value@, b as int),
            !(outcome(self@, value@, in_chars(value@, any_offset)) is Unnormalized),
        ensures
            res.wf(),
            res@ == outcome(self@, value@, in_chars(value@, any_offset)),
        decreases self,
    {
        match self {
            Pattern::Constant(c) => {
                if let Some(offset) = any_offset {
                    proof {
                        lemma_at_end(value@, offset as int);
                    }
                    match rest_behind(value, c.as_str(), offset) {
                        Some(Some(remaining)) => {
                            MatchResult::Consumed { remaining, any_offset: None }
                        },
                        Some(None) => MatchResult::NoMatch,
                        None => if offset >= byte_len(value) {
                            MatchResult::Partial
                        } else {
                            MatchResult::NoMatch
                        },
                    }
                } else if let Some(remaining) = strip_prefix(value, c.as_str()) {
                    MatchResult::Consumed { remaining, any_offset: None }
                } else if strip_prefix(c.as_str(), value).is_some() {
                    MatchResult::Partial
                } else {
                    MatchResult::NoMatch
                }
            },
            Pattern::Dynamic => {
                if let Some(start) = match_barrier(value) {
                    proof {
                        let k = first_barrier(value@, true)->0;
                        lemma_barrier_from(value@, true, 0);
                        lemma_char_position(value@, k);
                    }
                    MatchResult::Consumed { remaining: value, any_offset: Some(start) }
                } else if ends_in_artifact(value) {
                    MatchResult::Partial
                } else {
                    proof {
                        lemma_byte_offset_ends(value@);
                        lemma_char_position(value@, value@.len() as int);
                    }
                    MatchResult::Consumed { remaining: value, any_offset: Some(byte_len(value)) }
                }
            },
            Pattern::Alternatives(_) => {
                // Ruled out: the outcome would be `Unnormalized`.
                MatchResult::NoMatch
            },
            Pattern::Concatenation(list) => {
                let ghost parts = models(list@);
                let mut rest: &'a str = value;
                let mut any: Option<usize> = any_offset;
                let mut i: usize = 0;
                assert(parts.skip(0) =~= parts);
                while i < list.len()
                    invariant
                        i <= list.len(),
                        parts == models(list@),
                        any matches Some(b) ==> is_position(rest@, b as int),
                        outcome(self@, value@, in_chars(value@, any_offset)) == parts_outcome(
                            parts.skip(i as int),
                            rest@,
                            in_chars(rest@, any),
                        ),
                        !(outcome(self@, value@, in_chars(value@, any_offset)) is Unnormalized),
                        decreases_to!(self => list),
                    decreases list.len() - i,
                {
                    broadcast use group_models;

                    assert(parts.skip(i as int).drop_first() =~= parts.skip(i + 1));
                    assert(parts.skip(i as int)[0] == list@[i as int].model());
                    match list[i].match_internal(rest, any) {
                        MatchResult::NoMatch => {
                            return MatchResult::NoMatch;
                        },
                        MatchResult::Partial => {
                            return MatchResult::Partial;
                        },
                        MatchResult::Consumed { remaining, any_offset: new_any } => {
                            rest = remaining;
                            any = new_any;
                        },
                    }
                    i += 1;
                }
                MatchResult::Consumed { remaining: rest, any_offset: any }
            },
        }
    }
}

impl<'a> MatchResult<'a> {
    /// The answer to `query`.
    pub fn answers(&self, query: Query) -> (res: bool)
        requires
            self.wf(),
        ensures
            res == self@.answers(query),
    {
        match query {
            Query::Match => self.is_match(),
            Query::Others => self.could_match_others(),
            Query::MatchOrOthers => self.could_match(),
        }
    }
}

impl Pattern {
    /// The first choice of this pattern that answers `query` for `value`.
    pub(crate) fn first_position(&self, query: Query, value: &str) -> (res: Option<usize>)
        requires
            askable(self@, query, value@),
        ensures
            match res {
                Some(i) => first_answer(self@, query, value@, i as int),
                None => !answers(self@, query, value@),
            },
    {
        if let Pattern::Alternatives(list) = self {
            let mut i: usize = 0;
            while i < list.len()
                invariant
                    i <= list.len(),
                    *self == Pattern::Alternatives(*list),
                    askable(self@, query, value@),
                    unanswered_before(self@, query, value@, i as int),
                decreases list.len() - i,
            {
                broadcast use group_models;

                assert(choices(self@)[i as int] == list@[i as int].model());
                if list[i].match_internal(value, None).answers(query) {
                    assert(answers_at(self@, query, value@, i as int));
                    return Some(i);
                }
                assert(!answers_at(self@, query, value@, i as int));
                i += 1;
            }
            assert(choices(self@).len() == list@.len());
            None
        } else {
            assert(unanswered_before(self@, query, value@, 0));
            if self.match_internal(value, None).answers(query) {
                assert(answers_at(self@, query, value@, 0));
                Some(0)
            } else {
                assert(!answers_at(self@, query, value@, 0));
                None
            }
        }
    }

    /// Whether `value` matches this pattern.
    pub fn is_match(&self, value: &str) -> (res: bool)
        requires
            askable(self@, Query::Match, value@),
        ensures
            res == answers(self@, Query::Match, value@),
    {
        self.first_position(Query::Match, value).is_some()
    }

    /// Which alternative, the first one, `value` matches.
    pub fn match_position(&self, value: &str) -> (res: Option<usize>)
        requires
            askable(self@, Query::Match, value@),
        ensures
            match res {
                Some(i) => first_answer(self@, Query::Match, value@, i as int),
                None => !answers(self@, Query::Match, value@),
            },
    {
        self.first_position(Query::Match, value)
    }

    /// Whether `value` may be the start of matches other than itself.
    pub fn could_match_others(&self, value: &str) -> (res: bool)
        requires
            askable(self@, Query::Others, value@),
        ensures
            res == answers(self@, Query::Others, value@),
    {
        self.first_position(Query::Others, value).is_some()
    }

    /// Whether `value` matches this pattern or may be the start of a match.
    pub fn could_match(&self, value: &str) -> (res: bool)
        requires
            askable(self@, Query::MatchOrOthers, value@),
        ensures
            res == answers(self@, Query::MatchOrOthers, value@),
    {
        self.first_position(Query::MatchOrOthers, value).is_some()
    }

    /// Which alternative, the first one, `value` matches or may be the start of a match of.
    pub fn could_match_position(&self, value: &str) -> (res: Option<usize>)
        requires
            askable(self@, Query::MatchOrOthers, value@),
        ensures
            match res {
                Some(i) => first_answer(self@, Query::MatchOrOthers, value@, i as int),
                None => !answers(self@, Query::MatchOrOthers, value@),
            },
    {
        self.first_position(Query::MatchOrOthers, value)
    }

    /// This pattern cut down to the alternatives for which it holds, or does not hold, that
    /// `value` is a match or the start of one.
    fn filter(&self, value: &str, wanted: bool) -> (res: Option<Pattern>)
        requires
            filterable(self@, value@),
        ensures
            match res {
                Some(pattern) => filtered(self@, value@, wanted) == Some(pattern@),
                None => filtered(self@, value@, wanted) is None,
            },
    {
        if let Pattern::Alternatives(list) = self {
            let ghost alts = models(list@);
            let mut new_list: Vec<Pattern> = Vec::new();
            let mut i: usize = 0;
            assert(alts.take(0) =~= Seq::empty());
            while i < list.len()
                invariant
                    i <= list.len(),
                    alts == models(list@),
                    alts.len() == list@.len(),
                    self@ == PatternView::Alternatives(alts),
                    filterable(self@, value@),
                    models(new_list@) == kept(alts.take(i as int), value@, wanted),
                decreases list.len() - i,
            {
                broadcast use group_models;

                reveal(Seq::filter);
                assert(alts.take(i + 1).drop_last() =~= alts.take(i as int));
                assert(alts[i as int] == list@[i as int].model());
                assert(choices(self@)[i as int] == alts[i as int]);
                if list[i].could_match(value) == wanted {
                    new_list.push(list[i].clone());
                }
                i += 1;
            }
            assert(alts.take(i as int) =~= alts);
            if new_list.is_empty() {
                None
            } else {
                Some(Pattern::Alternatives(new_list))
            }
        } else {
            assert(choices(self@)[0] == self@);
            if self.could_match(value) == wanted {
                Some(self.clone())
            } else {
                None
            }
        }
    }

    /// The alternatives that `value` matches or may be the start of a match of.
    pub fn filter_could_match(&self, value: &str) -> (res: Option<Pattern>)
        requires
            filterable(self@, value@),
        ensures
            match res {
                Some(pattern) => filtered(self@, value@, true) == Some(pattern@),
                None => filtered(self@, value@, true) is None,
            },
    {
        self.filter(value, true)
    }

    /// The alternatives that `value` neither matches nor may be the start of a match of.
    pub fn filter_could_not_match(&self, value: &str) -> (res: Option<Pattern>)
        requires
            filterable(self@, value@),
        ensures
            match res {
                Some(pattern) => filtered(self@, value@, false) == Some(pattern@),
                None => filtered(self@, value@, false) is None,
            },
    {
        self.filter(value, false)
    }
}

impl Pattern {
    /// Whether no choice holds alternatives inside, so that the pattern can be asked
    /// everything.
    pub fn can_be_asked(&self) -> (res: bool)
        ensures
            res == all_choiceless(choices(self@)),
    {
        broadcast use group_models;

        if let Pattern::Alternatives(list) = self {
            are_choiceless(list)
        } else {
            let res = self.is_choiceless();
            assert(choices(self@)[0] == self@);
            res
        }
    }

    /// Whether alternatives stand nowhere in the pattern.
    fn is_choiceless(&self) -> (res: bool)
        ensures
            res == is_choiceless(self@),
        decreases self,
    {
        match self {
            Pattern::Constant(_) => true,
            Pattern::Dynamic => true,
            Pattern::Alternatives(_) => false,
            Pattern::Concatenation(list) => are_choiceless(list),
        }
    }
}

/// Whether alternatives stand nowhere in the patterns of `list`.
fn are_choiceless(list: &Vec<Pattern>) -> (res: bool)
    ensures
        res == all_choiceless(models(list@)),
    decreases list,
{
    broadcast use group_models;

    let ghost all = models(list@);
    let mut i: usize = 0;
    while i < list.len()
        invariant
            i <= list.len(),
            all == models(list@),
            forall|j: int| 0 <= j < i ==> is_choiceless(#[trigger] all[j]),
        decreases list.len() - i,
    {
        broadcast use group_models;

        assert(all[i as int] == list@[i as int]@);
        if !list[i].is_choiceless() {
            return false;
        }
        i += 1;
    }
    true
}

} // verus!
