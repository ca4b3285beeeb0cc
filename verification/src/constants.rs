//! The constants with which a text can go on towards a match.
use vstd::prelude::*;

use crate::barrier::{
    constants_barrier, ends_in_artifact, first_barrier, is_artifact, lemma_barrier_from,
};
use crate::matching::{lemma_at_end, rest_behind};
use crate::pattern::{choices, group_models, models, Pattern, PatternView};
use crate::text::{
    byte_len, find_in, has_prefix, in_chars, is_position, lemma_byte_offset_ends,
    lemma_char_position, strip_prefix,
};

verus! {

/// What comes of reading a text along a pattern, up to the constant that it ends in.
pub enum Continuation {
    /// The text differs from the pattern.
    NoMatch,
    /// The text ends inside a dynamic part, so that anything may follow.
    PartialDynamic,
    /// The text ends inside a constant, of which this is left. The flag says whether the
    /// pattern ends with that constant.
    Partial(Seq<char>, bool),
    /// The pattern was used up: the text that is left, and how far a dynamic part at the end
    /// of the pattern may run on in it.
    Consumed(Seq<char>, Option<int>),
    /// Alternatives stand inside the pattern, so that it cannot be read along.
    Unnormalized,
}

/// Reads `value` along a constant, at `any_offset` at the latest behind a dynamic part.
pub open spec fn constant_continuation(
    constant: Seq<char>,
    value: Seq<char>,
    any_offset: Option<int>,
) -> Continuation {
    match any_offset {
        Some(offset) => match find_in(value, constant) {
            Some(index) => if index <= offset {
                Continuation::Consumed(value.skip(index + constant.len()), None)
            } else {
                Continuation::NoMatch
            },
            None => if offset >= value.len() {
                Continuation::PartialDynamic
            } else {
                Continuation::NoMatch
            },
        },
        None => if has_prefix(value, constant) {
            Continuation::Consumed(value.skip(constant.len() as int), None)
        } else if has_prefix(constant, value) {
            Continuation::Partial(constant.skip(value.len() as int), true)
        } else {
            Continuation::NoMatch
        },
    }
}

/// Reads `value` along a dynamic part, which may run on up to the first barrier.
pub open spec fn dynamic_continuation(value: Seq<char>) -> Continuation {
    match first_barrier(value, false) {
        Some(offset) => Continuation::Consumed(value, Some(offset)),
        None => if is_artifact(value) {
            Continuation::PartialDynamic
        } else {
            Continuation::Consumed(value, Some(value.len() as int))
        },
    }
}

/// Reads `value` along `pattern`, at `any_offset` at the latest behind a dynamic part.
pub open spec fn continuation(
    pattern: PatternView,
    value: Seq<char>,
    any_offset: Option<int>,
) -> Continuation
    decreases pattern,
{
    match pattern {
        PatternView::Constant(constant) => constant_continuation(constant, value, any_offset),
        PatternView::Dynamic => dynamic_continuation(value),
        PatternView::Alternatives(_) => Continuation::Unnormalized,
        PatternView::Concatenation(parts) => parts_continuation(parts, value, any_offset),
    }
}

/// Reads `value` along `parts`, one after the other. A constant ends the whole only where
/// it stands in the last part.
pub open spec fn parts_continuation(
    parts: Seq<PatternView>,
    value: Seq<char>,
    any_offset: Option<int>,
) -> Continuation
    decreases parts,
{
    if parts.len() == 0 {
        Continuation::Consumed(value, any_offset)
    } else {
        match continuation(parts[0], value, any_offset) {
            Continuation::Consumed(remaining, any_offset) => parts_continuation(
                parts.drop_first(),
                remaining,
                any_offset,
            ),
            Continuation::Partial(rest, end) => Continuation::Partial(
                rest,
                end && parts.len() == 1,
            ),
            other => other,
        }
    }
}

impl Continuation {
    /// Whether anything may follow the text.
    pub open spec fn is_open(self) -> bool {
        match self {
            Continuation::PartialDynamic => true,
            Continuation::Consumed(remaining, Some(offset)) => offset == remaining.len(),
            _ => false,
        }
    }

    /// The constants with which the text can go on: what is left of the constant that it
    /// ends in, or nothing more where it is a match.
    pub open spec fn constants(self) -> Seq<(Seq<char>, bool)> {
        match self {
            Continuation::Partial(rest, end) => seq![(rest, end)],
            Continuation::Consumed(remaining, None) => if remaining.len() == 0 {
                seq![(Seq::empty(), true)]
            } else {
                Seq::empty()
            },
            _ => Seq::empty(),
        }
    }
}

/// The constants of each of the alternatives, in their order.
pub open spec fn all_constants(list: Seq<PatternView>, value: Seq<char>) -> Seq<(Seq<char>, bool)>
    decreases list.len(),
{
    if list.len() == 0 {
        Seq::empty()
    } else {
        all_constants(list.drop_last(), value) + continuation(list.last(), value, None).constants()
    }
}

/// Whether anything may follow `value` in alternative `i`.
pub open spec fn open_at(list: Seq<PatternView>, value: Seq<char>, i: int) -> bool {
    continuation(list[i], value, None).is_open()
}

/// Whether nothing is open before alternative `i`.
pub open spec fn closed_before(list: Seq<PatternView>, value: Seq<char>, i: int) -> bool {
    forall|j: int| 0 <= j < i ==> !#[trigger] open_at(list, value, j)
}

/// The constants with which `value` can go on towards a match of `pattern`, each with
/// whether the match ends with it. There is no such list where anything may follow. Where
/// `pattern` is no choice, there is none either unless `value` ends inside a constant.
pub open spec fn next_list(pattern: PatternView, value: Seq<char>) -> Option<
    Seq<(Seq<char>, bool)>,
> {
    match pattern {
        PatternView::Alternatives(list) => if closed_before(list, value, list.len() as int) {
            Some(all_constants(list, value))
        } else {
            None
        },
        _ => match continuation(pattern, value, None) {
            Continuation::Partial(rest, end) => Some(seq![(rest, end)]),
            _ => None,
        },
    }
}

/// Whether the constants of `pattern` can be listed for `value`: up to the first choice that
/// is open, no choice is read into alternatives that stand inside it.
pub open spec fn listable(pattern: PatternView, value: Seq<char>) -> bool {
    forall|i: int|
        0 <= i < choices(pattern).len() && #[trigger] closed_before(choices(pattern), value, i)
            ==> !(continuation(choices(pattern)[i], value, None) is Unnormalized)
}

/// The model of a list of constants.
pub open spec fn constant_models(list: Seq<(&str, bool)>) -> Seq<(Seq<char>, bool)> {
    Seq::new(list.len(), |i: int| (list[i].0@, list[i].1))
}

/// What comes of reading a text along a pattern, up to the constant that it ends in.
pub enum NextConstantUntilResult<'a, 'b> {
    NoMatch,
    PartialDynamic,
    Partial(&'a str, bool),
    Consumed(&'b str, Option<usize>),
}

impl<'a, 'b> View for NextConstantUntilResult<'a, 'b> {
    type V = Continuation;

    open spec fn view(&self) -> Continuation {
        match *self {
            NextConstantUntilResult::NoMatch => Continuation::NoMatch,
            NextConstantUntilResult::PartialDynamic => Continuation::PartialDynamic,
            NextConstantUntilResult::Partial(rest, end) => Continuation::Partial(rest@, end),
            NextConstantUntilResult::Consumed(remaining, any_offset) => Continuation::Consumed(
                remaining@,
                in_chars(remaining@, any_offset),
            ),
        }
    }
}

impl<'a, 'b> NextConstantUntilResult<'a, 'b> {
    /// The offset, where there is one, is a position in the text that is left.
    pub open spec fn wf(self) -> bool {
        match self {
            NextConstantUntilResult::Consumed(remaining, Some(b)) => is_position(
                remaining@,
                b as int,
            ),
            _ => true,
        }
    }
}

impl Pattern {
    /// Reads `value` along this pattern.
    pub fn next_constants_internal<'a, 'b>(
        &'a self,
        value: &'b str,
        any_offset: Option<usize>,
    ) -> (res: NextConstantUntilResult<'a, 'b>)
        requires
            any_offset matches Some(b) ==> is_position(value@, b as int),
            !(continuation(self@, value@, in_chars(value@, any_offset)) is Unnormalized),
        ensures
            res.wf(),
            res@ == continuation(self@, value@, in_chars(value@, any_offset)),
        decreases self,
    {
        match self {
            Pattern::Constant(c) => {
                if let Some(offset) = any_offset {
                    proof {
                        lemma_at_end(value@, offset as int);
                    }
                    match rest_behind(value, c.as_str(), offset) {
                        Some(Some(rest)) => NextConstantUntilResult::Consumed(rest, None),
                        Some(None) => NextConstantUntilResult::NoMatch,
                        None => if offset >= byte_len(value) {
                            NextConstantUntilResult::PartialDynamic
                        } else {
                            NextConstantUntilResult::NoMatch
                        },
                    }
                } else if let Some(stripped) = strip_prefix(value, c.as_str()) {
                    NextConstantUntilResult::Consumed(stripped, None)
                } else if let Some(stripped) = strip_prefix(c.as_str(), value) {
                    NextConstantUntilResult::Partial(stripped, true)
                } else {
                    NextConstantUntilResult::NoMatch
                }
            },
            Pattern::Dynamic => {
                if let Some(start) = constants_barrier(value) {
                    proof {
                        lemma_barrier_from(value@, false, 0);
                        lemma_char_position(value@, first_barrier(value@, false)->0);
                    }
                    NextConstantUntilResult::Consumed(value, Some(start))
                } else if ends_in_artifact(value) {
                    NextConstantUntilResult::PartialDynamic
                } else {
                    proof {
                        lemma_byte_offset_ends(value@);
                        lemma_char_position(value@, value@.len() as int);
                    }
                    NextConstantUntilResult::Consumed(value, Some(byte_len(value)))
                }
            },
            Pattern::Alternatives(_) => {
                // Ruled out: the outcome would be `Unnormalized`.
                NextConstantUntilResult::NoMatch
            },
            Pattern::Concatenation(list) => {
                let ghost parts = models(list@);
                let ghost whole = continuation(self@, value@, in_chars(value@, any_offset));
                let mut rest: &'b str = value;
                let mut any: Option<usize> = any_offset;
                let mut i: usize = 0;
                assert(parts.skip(0) =~= parts);
                while i < list.len()
                    invariant
                        i <= list.len(),
                        parts == models(list@),
                        whole == continuation(self@, value@, in_chars(value@, any_offset)),
                        any matches Some(b) ==> is_position(rest@, b as int),
                        whole == parts_continuation(
                            parts.skip(i as int),
                            rest@,
                            in_chars(rest@, any),
                        ),
                        !(whole is Unnormalized),
                        decreases_to!(self => list),
                    decreases list.len() - i,
                {
                    broadcast use group_models;

                    assert(parts.skip(i as int).drop_first() =~= parts.skip(i + 1));
                    assert(parts.skip(i as int)[0] == list@[i as int].model());
                    match list[i].next_constants_internal(rest, any) {
                        NextConstantUntilResult::NoMatch => {
                            return NextConstantUntilResult::NoMatch;
                        },
                        NextConstantUntilResult::PartialDynamic => {
                            return NextConstantUntilResult::PartialDynamic;
                        },
                        NextConstantUntilResult::Partial(r, end) => {
                            return NextConstantUntilResult::Partial(r, end && i + 1 == list.len());
                        },
                        NextConstantUntilResult::Consumed(new_value, new_any) => {
                            rest = new_value;
                            any = new_any;
                        },
                    }
                    i += 1;
                }
                NextConstantUntilResult::Consumed(rest, any)
            },
        }
    }

    /// The constants with which `value` can go on towards a match, each with whether the
    /// match ends with it, or `None` where there is no such list.
    pub fn next_constants<'a>(&'a self, value: &str) -> (res: Option<Vec<(&'a str, bool)>>)
        requires
            listable(self@, value@),
        ensures
            match res {
                Some(list) => next_list(self@, value@) == Some(constant_models(list@)),
                None => next_list(self@, value@) is None,
            },
    {
        if let Pattern::Alternatives(list) = self {
            let ghost alts = models(list@);
            let mut results: Vec<(&'a str, bool)> = Vec::new();
            let mut i: usize = 0;
            assert(alts.take(0) =~= Seq::empty());
            assert(constant_models(results@) =~= Seq::empty());
            while i < list.len()
                invariant
                    i <= list.len(),
                    alts == models(list@),
                    alts.len() == list@.len(),
                    self@ == PatternView::Alternatives(alts),
                    listable(self@, value@),
                    closed_before(alts, value@, i as int),
                    constant_models(results@) == all_constants(alts.take(i as int), value@),
                decreases list.len() - i,
            {
                broadcast use group_models;

                let ghost before = constant_models(results@);
                proof {
                    assert(choices(self@) == alts);
                    assert(alts[i as int] == list@[i as int].model());
                    assert(alts.take(i + 1).drop_last() =~= alts.take(i as int));
                    assert(alts.take(i + 1).last() == alts[i as int]);
                }
                let found = list[i].next_constants_internal(value, None);
                let ghost more = found@.constants();
                match found {
                    NextConstantUntilResult::NoMatch => {},
                    NextConstantUntilResult::PartialDynamic => {
                        assert(open_at(alts, value@, i as int));
                        return None;
                    },
                    NextConstantUntilResult::Partial(s, end) => {
                        results.push((s, end));
                    },
                    NextConstantUntilResult::Consumed(rem, None) => {
                        if rem.is_empty() {
                            proof {
                                reveal_strlit("");
                                assert(""@ =~= Seq::empty());
                            }
                            results.push(("", true));
                        }
                    },
                    NextConstantUntilResult::Consumed(rem, Some(any)) => {
                        proof {
                            lemma_at_end(rem@, any as int);
                        }
                        if any == byte_len(rem) {
                            // Anything can follow: there are no constants only.
                            assert(open_at(alts, value@, i as int));
                            return None;
                        }
                    },
                }
                proof {
                    assert(!open_at(alts, value@, i as int));
                    assert(constant_models(results@) =~= before + more);
                }
                i += 1;
            }
            assert(alts.take(i as int) =~= alts);
            Some(results)
        } else {
            proof {
                assert(choices(self@)[0] == self@);
                assert(closed_before(choices(self@), value@, 0));
            }
            match self.next_constants_internal(value, None) {
                NextConstantUntilResult::NoMatch => None,
                NextConstantUntilResult::PartialDynamic => None,
                NextConstantUntilResult::Partial(s, e) => {
                    let mut results: Vec<(&'a str, bool)> = Vec::new();
                    results.push((s, e));
                    assert(constant_models(results@) =~= seq![(s@, e)]);
                    Some(results)
                },
                NextConstantUntilResult::Consumed(_, _) => None,
            }
        }
    }
}

} // verus!
