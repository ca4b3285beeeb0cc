//! What a search for the matches of a pattern looks at in a directory.
//!
//! Where a finite list of paths is enough, [`planned`] gives the [`Step`]s to look up. Where it
//! is not, the directory is listed, and each [`Candidate`] that [`relatives`] and
//! [`entry_candidates`] give is held against the pattern. Paths are known by number.
use vstd::prelude::*;

use crate::constants::{constant_models, listable, next_list};
use crate::matching::{all_choiceless, answers, askable, first_answer, Query};
use crate::matching_laws::{law_choiceless_choices_can_be_asked, law_normalized_is_choiceless};
use crate::normalize::normal_form;
use crate::pattern::{choices, Pattern, PatternView};
use crate::text::{
    concat, has_prefix, has_slash, last_slash, lemma_last_slash, through_last_slash, trim_final_slash,
    without_final_slash,
};

verus! {

/// A path to look up, seen from the directory of the search.
#[derive(Debug, PartialEq, Eq)]
pub struct Step {
    pub path: String,
    /// Whether the path is looked up as the end of a match. If not, the search goes on below
    /// it.
    pub until_end: bool,
}

/// The path of a step, and whether it is looked up as the end of a match.
pub type StepView = (Seq<char>, bool);

/// The models of a list of steps.
pub open spec fn step_models(list: Seq<Step>) -> Seq<StepView> {
    Seq::new(list.len(), |i: int| (list[i].path@, list[i].until_end))
}

/// The path to which a constant that may follow leads: all of it where the pattern ends with
/// it, or else up to its last slash.
pub open spec fn step_path(constant: (Seq<char>, bool)) -> Seq<char> {
    if constant.1 {
        constant.0
    } else {
        constant.0.take(last_slash(constant.0)->0 + 1)
    }
}

/// The steps with one more, if it is not among them.
pub open spec fn with_step(steps: Seq<StepView>, step: StepView) -> Seq<StepView> {
    if steps.contains(step) {
        steps
    } else {
        steps.push(step)
    }
}

/// The steps with those for one more constant: its path is the end of a match where it makes
/// one behind `prefix`, and the search goes on below it where the pattern does.
pub open spec fn with_steps_for(
    steps: Seq<StepView>,
    pattern: PatternView,
    prefix: Seq<char>,
    constant: (Seq<char>, bool),
) -> Seq<StepView> {
    let path = step_path(constant);
    let probed = if answers(pattern, Query::Match, prefix + path) {
        with_step(steps, (path, true))
    } else {
        steps
    };
    if constant.1 {
        probed
    } else {
        with_step(probed, (path, false))
    }
}

/// The steps for the constants that may follow behind `prefix`, each once.
pub open spec fn steps_of(
    pattern: PatternView,
    prefix: Seq<char>,
    constants: Seq<(Seq<char>, bool)>,
) -> Seq<StepView>
    decreases constants.len(),
{
    if constants.len() == 0 {
        Seq::empty()
    } else {
        with_steps_for(
            steps_of(pattern, prefix, constants.drop_last()),
            pattern,
            prefix,
            constants.last(),
        )
    }
}

/// Whether each of the constants is the end of the pattern or names at least a directory.
pub open spec fn all_lead_on(constants: Seq<(Seq<char>, bool)>) -> bool {
    forall|i: int|
        0 <= i < constants.len() ==> (#[trigger] constants[i]).1 || last_slash(constants[i].0) is Some
}

/// The steps that replace listing the directory, where there is a finite list of them.
pub open spec fn planned_steps(pattern: PatternView, prefix: Seq<char>) -> Option<Seq<StepView>> {
    match next_list(pattern, prefix) {
        Some(constants) => if all_lead_on(constants) {
            Some(steps_of(pattern, prefix, constants))
        } else {
            None
        },
        None => None,
    }
}

/// Whether a search can be planned: the constants of `pattern` can be listed, and where each
/// of them leads on, the path of each can be held against the pattern.
pub open spec fn plannable(pattern: PatternView, prefix: Seq<char>) -> bool {
    &&& listable(pattern, prefix)
    &&& next_list(pattern, prefix) matches Some(constants) ==> (all_lead_on(constants) ==> forall|
        i: int,
    |
        0 <= i < constants.len() ==> askable(
            pattern,
            Query::Match,
            prefix + step_path(#[trigger] constants[i]),
        ))
}

/// The steps that replace listing the directory, where there is a finite list of them.
pub fn planned(pattern: &Pattern, prefix: &str) -> (res: Option<Vec<Step>>)
    requires
        plannable(pattern@, prefix@),
    ensures
        match res {
            Some(steps) => planned_steps(pattern@, prefix@) == Some(step_models(steps@)),
            None => planned_steps(pattern@, prefix@) is None,
        },
{
    let constants = match pattern.next_constants(prefix) {
        Some(constants) => constants,
        None => {
            return None;
        },
    };
    let ghost all = constant_models(constants@);
    let mut i: usize = 0;
    while i < constants.len()
        invariant
            i <= constants.len(),
            all == constant_models(constants@),
            next_list(pattern@, prefix@) == Some(all),
            forall|j: int| 0 <= j < i ==> (#[trigger] all[j]).1 || last_slash(all[j].0) is Some,
        decreases constants.len() - i,
    {
        let (text, until_end) = constants[i];
        assert(all[i as int] == (text@, until_end));
        if !until_end && !has_slash(text) {
            return None;
        }
        i += 1;
    }
    assert(all_lead_on(all));
    let mut steps: Vec<Step> = Vec::new();
    let mut i: usize = 0;
    assert(all.take(0) =~= Seq::empty());
    assert(step_models(steps@) =~= Seq::empty());
    while i < constants.len()
        invariant
            i <= constants.len(),
            all == constant_models(constants@),
            all_lead_on(all),
            forall|j: int|
                0 <= j < all.len() ==> askable(
                    pattern@,
                    Query::Match,
                    prefix@ + step_path(#[trigger] all[j]),
                ),
            step_models(steps@) == steps_of(pattern@, prefix@, all.take(i as int)),
        decreases constants.len() - i,
    {
        let (text, until_end) = constants[i];
        let ghost constant = all[i as int];
        assert(constant == (text@, until_end));
        let path: String = if until_end {
            text.to_owned()
        } else {
            match through_last_slash(text) {
                Some(head) => head.to_owned(),
                None => text.to_owned(),
            }
        };
        assert(path@ == step_path(constant));
        proof {
            assert(all.take(i + 1).drop_last() =~= all.take(i as int));
            assert(all.take(i + 1).last() == constant);
        }
        if pattern.is_match(concat(prefix, path.as_str()).as_str()) {
            add_step(&mut steps, &path, true);
        }
        if !until_end {
            add_step(&mut steps, &path, false);
        }
        i += 1;
    }
    assert(all.take(i as int) =~= all);
    Some(steps)
}

/// Adds a step if it is not among the steps.
fn add_step(steps: &mut Vec<Step>, path: &String, until_end: bool)
    ensures
        step_models(final(steps)@) == with_step(step_models(old(steps)@), (path@, until_end)),
{
    let ghost models = step_models(steps@);
    let ghost step = (path@, until_end);
    let mut i: usize = 0;
    while i < steps.len()
        invariant
            i <= steps.len(),
            steps@ == old(steps)@,
            models == step_models(steps@),
            step == (path@, until_end),
            forall|j: int| 0 <= j < i ==> #[trigger] models[j] != step,
        decreases steps.len() - i,
    {
        let known = &steps[i];
        assert(models[i as int] == (known.path@, known.until_end));
        if known.until_end == until_end && known.path == *path {
            assert(models[i as int] == step);
            return ;
        }
        i += 1;
    }
    assert(!models.contains(step));
    steps.push(Step { path: path.clone(), until_end });
    assert(step_models(steps@) =~= models.push(step));
}

/// What kind of thing an entry of a directory is.
#[derive(Clone, Copy, PartialEq, Eq, Structural, Debug)]
pub enum EntryKind {
    File,
    Directory,
    Symlink,
    Other,
}

/// What a symbolic link points to.
#[derive(Clone, Copy, PartialEq, Eq, Structural, Debug)]
pub enum LinkTarget {
    /// The link cannot be followed.
    Broken,
    File,
    Directory,
}

/// What is done when the pattern answers for a candidate.
#[derive(Clone, Copy, PartialEq, Eq, Structural, Debug)]
pub enum Effect {
    /// It is reported as a file.
    File,
    /// It is reported as a directory.
    Directory,
    /// It is reported as what the link points to.
    Link { directory_only: bool },
    /// The search goes on below it.
    Descend { force: bool },
}

/// A text to hold against the pattern, and what to do if the pattern answers.
#[derive(Debug, PartialEq, Eq)]
pub struct Candidate {
    pub text: String,
    pub query: Query,
    pub effect: Effect,
    /// The path that the text leads to.
    pub path: u64,
}

/// The mathematical model of a [`Candidate`].
pub struct CandidateView {
    pub text: Seq<char>,
    pub query: Query,
    pub effect: Effect,
    pub path: u64,
}

impl View for Candidate {
    type V = CandidateView;

    open spec fn view(&self) -> CandidateView {
        CandidateView {
            text: self.text@,
            query: self.query,
            effect: self.effect,
            path: self.path,
        }
    }
}

/// The models of a list of candidates.
pub open spec fn candidate_models(list: Seq<Candidate>) -> Seq<CandidateView> {
    Seq::new(list.len(), |i: int| list[i]@)
}

/// A directory that is reported where `text` is a match.
pub open spec fn directory_candidate(text: Seq<char>, path: u64) -> CandidateView {
    CandidateView { text, query: Query::Match, effect: Effect::Directory, path }
}

/// A directory that is searched where `text` may be the start of a match.
pub open spec fn descend_candidate(text: Seq<char>, path: u64, force: bool) -> CandidateView {
    CandidateView { text, query: Query::MatchOrOthers, effect: Effect::Descend { force }, path }
}

/// A link that is reported where `text` is a match.
pub open spec fn link_candidate(text: Seq<char>, path: u64, directory_only: bool) -> CandidateView {
    CandidateView { text, query: Query::Match, effect: Effect::Link { directory_only }, path }
}

/// The ways up from a directory, which a search that is forced to stay there does not take.
pub open spec fn upward_candidates(prefix: Seq<char>, force: bool, parent: u64) -> Seq<
    CandidateView,
> {
    if force {
        Seq::empty()
    } else {
        seq![
            directory_candidate(prefix + ".."@, parent),
            directory_candidate(prefix + "../"@, parent),
            descend_candidate(prefix + "../"@, parent, false),
        ]
    }
}

/// The ways to stay in a directory. A search that is forced to stay there remains so.
pub open spec fn staying_candidates(prefix: Seq<char>, force: bool, here: u64) -> Seq<
    CandidateView,
> {
    if prefix.len() == 0 {
        seq![
            directory_candidate(prefix + "."@, here),
            directory_candidate("./"@, here),
            descend_candidate("./"@, here, force),
        ]
    } else {
        seq![
            directory_candidate(prefix + "."@, here),
            directory_candidate(prefix + "/"@, here),
            descend_candidate(prefix + "/"@, here, force),
            directory_candidate(prefix + "./"@, here),
            descend_candidate(prefix + "./"@, here, force),
        ]
    }
}

/// What a directory offers without being listed: itself and its parent.
pub open spec fn relative_candidates(
    prefix: Seq<char>,
    force: bool,
    here: u64,
    parent: u64,
) -> Seq<CandidateView> {
    upward_candidates(prefix, force, parent) + staying_candidates(prefix, force, here)
}

/// What an entry of a directory offers. A directory is searched, and that search stays in it.
/// A link is reported and not followed.
pub open spec fn entry_offers(
    prefix: Seq<char>,
    key: Seq<char>,
    kind: EntryKind,
    path: u64,
) -> Seq<CandidateView> {
    let text = without_final_slash(prefix + key);
    match kind {
        EntryKind::File => seq![
            CandidateView { text: prefix + key, query: Query::Match, effect: Effect::File, path },
        ],
        EntryKind::Directory => seq![
            directory_candidate(text, path),
            directory_candidate(text + "/"@, path),
            descend_candidate(text + "/"@, path, true),
        ],
        EntryKind::Symlink => seq![
            link_candidate(text, path, false),
            link_candidate(text + "/"@, path, true),
        ],
        EntryKind::Other => Seq::empty(),
    }
}

/// What a directory offers without being listed: itself and its parent.
pub fn relatives(prefix: &str, force: bool, here: u64, parent: u64) -> (res: Vec<Candidate>)
    ensures
        candidate_models(res@) == relative_candidates(prefix@, force, here, parent),
{
    let mut res: Vec<Candidate> = Vec::new();
    if !force {
        res.push(
            Candidate {
                text: concat(prefix, ".."),
                query: Query::Match,
                effect: Effect::Directory,
                path: parent,
            },
        );
        res.push(
            Candidate {
                text: concat(prefix, "../"),
                query: Query::Match,
                effect: Effect::Directory,
                path: parent,
            },
        );
        res.push(
            Candidate {
                text: concat(prefix, "../"),
                query: Query::MatchOrOthers,
                effect: Effect::Descend { force: false },
                path: parent,
            },
        );
    }
    assert(candidate_models(res@) =~= upward_candidates(prefix@, force, parent));
    res.push(
        Candidate {
            text: concat(prefix, "."),
            query: Query::Match,
            effect: Effect::Directory,
            path: here,
        },
    );
    if prefix.is_empty() {
        res.push(
            Candidate {
                text: "./".to_owned(),
                query: Query::Match,
                effect: Effect::Directory,
                path: here,
            },
        );
        res.push(
            Candidate {
                text: "./".to_owned(),
                query: Query::MatchOrOthers,
                effect: Effect::Descend { force },
                path: here,
            },
        );
    } else {
        res.push(
            Candidate {
                text: concat(prefix, "/"),
                query: Query::Match,
                effect: Effect::Directory,
                path: here,
            },
        );
        res.push(
            Candidate {
                text: concat(prefix, "/"),
                query: Query::MatchOrOthers,
                effect: Effect::Descend { force },
                path: here,
            },
        );
        res.push(
            Candidate {
                text: concat(prefix, "./"),
                query: Query::Match,
                effect: Effect::Directory,
                path: here,
            },
        );
        res.push(
            Candidate {
                text: concat(prefix, "./"),
                query: Query::MatchOrOthers,
                effect: Effect::Descend { force },
                path: here,
            },
        );
    }
    assert(candidate_models(res@) =~= relative_candidates(prefix@, force, here, parent));
    res
}

/// What an entry of a directory offers.
pub fn entry_candidates(prefix: &str, key: &str, kind: EntryKind, path: u64) -> (res: Vec<Candidate>)
    ensures
        candidate_models(res@) == entry_offers(prefix@, key@, kind, path),
{
    let mut res: Vec<Candidate> = Vec::new();
    let whole: String = concat(prefix, key);
    match kind {
        EntryKind::File => {
            res.push(
                Candidate { text: whole, query: Query::Match, effect: Effect::File, path },
            );
        },
        EntryKind::Directory => {
            let text: String = trim_final_slash(whole.as_str()).to_owned();
            let slashed: String = concat(text.as_str(), "/");
            res.push(
                Candidate { text, query: Query::Match, effect: Effect::Directory, path },
            );
            res.push(
                Candidate {
                    text: slashed.clone(),
                    query: Query::Match,
                    effect: Effect::Directory,
                    path,
                },
            );
            res.push(
                Candidate {
                    text: slashed,
                    query: Query::MatchOrOthers,
                    effect: Effect::Descend { force: true },
                    path,
                },
            );
        },
        EntryKind::Symlink => {
            let text: String = trim_final_slash(whole.as_str()).to_owned();
            let slashed: String = concat(text.as_str(), "/");
            res.push(
                Candidate {
                    text,
                    query: Query::Match,
                    effect: Effect::Link { directory_only: false },
                    path,
                },
            );
            res.push(
                Candidate {
                    text: slashed,
                    query: Query::Match,
                    effect: Effect::Link { directory_only: true },
                    path,
                },
            );
        },
        EntryKind::Other => {},
    }
    assert(candidate_models(res@) =~= entry_offers(prefix@, key@, kind, path));
    res
}

impl Candidate {
    /// The first alternative of `pattern` that answers for this candidate.
    pub fn position(&self, pattern: &Pattern) -> (res: Option<usize>)
        requires
            askable(pattern@, self@.query, self@.text),
        ensures
            match res {
                Some(i) => first_answer(pattern@, self@.query, self@.text, i as int),
                None => !answers(pattern@, self@.query, self@.text),
            },
    {
        pattern.first_position(self.query, self.text.as_str())
    }
}

/// A search that is forced to stay in its directory does not leave it upwards: all that the
/// directory offers without being listed leads to the directory itself, and every search that
/// comes of it, or of an entry, is forced in turn.
pub proof fn law_forced_search_stays(
    prefix: Seq<char>,
    here: u64,
    parent: u64,
    key: Seq<char>,
    kind: EntryKind,
    path: u64,
)
    ensures
        forall|i: int|
            0 <= i < relative_candidates(prefix, true, here, parent).len() ==> ({
                let offer = #[trigger] relative_candidates(prefix, true, here, parent)[i];
                offer.path == here && (offer.effect matches Effect::Descend { force } ==> force)
            }),
        forall|i: int|
            0 <= i < entry_offers(prefix, key, kind, path).len() ==> ({
                let offer = #[trigger] entry_offers(prefix, key, kind, path)[i];
                offer.path == path && (offer.effect matches Effect::Descend { force } ==> force)
            }),
{
}

/// Whether `candidate` goes on from `prefix`, and by at least one character where the search
/// goes on with it.
pub open spec fn goes_on_from(prefix: Seq<char>, candidate: CandidateView) -> bool {
    &&& has_prefix(candidate.text, prefix)
    &&& candidate.effect is Descend ==> candidate.text.len() > prefix.len()
}

/// All that is held against the pattern goes on from the text that led to the directory, and
/// the text of every search below is longer.
pub proof fn law_candidates_go_on(
    prefix: Seq<char>,
    force: bool,
    here: u64,
    parent: u64,
    key: Seq<char>,
    kind: EntryKind,
    path: u64,
)
    requires
        key.len() > 0,
    ensures
        forall|i: int|
            0 <= i < relative_candidates(prefix, force, here, parent).len() ==> goes_on_from(
                prefix,
                #[trigger] relative_candidates(prefix, force, here, parent)[i],
            ),
        forall|i: int|
            0 <= i < entry_offers(prefix, key, kind, path).len() ==> goes_on_from(
                prefix,
                #[trigger] entry_offers(prefix, key, kind, path)[i],
            ),
{
    reveal_strlit("..");
    reveal_strlit("../");
    reveal_strlit(".");
    reveal_strlit("./");
    reveal_strlit("/");
    let n = prefix.len() as int;
    let text = without_final_slash(prefix + key);
    assert((prefix + ".."@).take(n) =~= prefix);
    assert((prefix + "../"@).take(n) =~= prefix);
    assert((prefix + "."@).take(n) =~= prefix);
    assert((prefix + "/"@).take(n) =~= prefix);
    assert((prefix + "./"@).take(n) =~= prefix);
    assert(n == 0 ==> "./"@.take(n) =~= prefix);
    assert((prefix + key).take(n) =~= prefix);
    assert(text.take(n) =~= prefix);
    assert((text + "/"@).take(n) =~= prefix);
}

/// All that is reported of what a directory or an entry offers is a match.
pub proof fn law_reports_are_matches(
    prefix: Seq<char>,
    force: bool,
    here: u64,
    parent: u64,
    key: Seq<char>,
    kind: EntryKind,
    path: u64,
)
    ensures
        forall|i: int|
            0 <= i < relative_candidates(prefix, force, here, parent).len() ==> ({
                let offer = #[trigger] relative_candidates(prefix, force, here, parent)[i];
                offer.effect is Descend || offer.query == Query::Match
            }),
        forall|i: int|
            0 <= i < entry_offers(prefix, key, kind, path).len() ==> ({
                let offer = #[trigger] entry_offers(prefix, key, kind, path)[i];
                offer.effect is Descend || offer.query == Query::Match
            }),
{
}

/// Whether a directory is among the offers that is reported where the text of `offer` is a
/// match.
pub open spec fn is_offered_itself(offers: Seq<CandidateView>, offer: CandidateView) -> bool {
    offers.contains(directory_candidate(offer.text, offer.path))
}

/// A directory in which the search goes on is itself held against the pattern.
pub proof fn law_searched_directories_are_offered(
    prefix: Seq<char>,
    force: bool,
    here: u64,
    parent: u64,
    key: Seq<char>,
    kind: EntryKind,
    path: u64,
)
    ensures
        forall|i: int|
            0 <= i < relative_candidates(prefix, force, here, parent).len() && (
            #[trigger] relative_candidates(prefix, force, here, parent)[i]).effect is Descend
                ==> is_offered_itself(
                relative_candidates(prefix, force, here, parent),
                relative_candidates(prefix, force, here, parent)[i],
            ),
        forall|i: int|
            0 <= i < entry_offers(prefix, key, kind, path).len() && (#[trigger] entry_offers(
                prefix,
                key,
                kind,
                path,
            )[i]).effect is Descend ==> is_offered_itself(
                entry_offers(prefix, key, kind, path),
                entry_offers(prefix, key, kind, path)[i],
            ),
{
    let near = relative_candidates(prefix, force, here, parent);
    assert forall|i: int| 0 <= i < near.len() && (#[trigger] near[i]).effect is Descend implies is_offered_itself(
        near,
        near[i],
    ) by {
        assert(i > 0);
        assert(near[i - 1] == directory_candidate(near[i].text, near[i].path));
    }
    let offers = entry_offers(prefix, key, kind, path);
    assert forall|i: int| 0 <= i < offers.len() && (#[trigger] offers[i]).effect is Descend implies is_offered_itself(
        offers,
        offers[i],
    ) by {
        assert(i > 0);
        assert(offers[i - 1] == directory_candidate(offers[i].text, offers[i].path));
    }
}

/// Whether a step is one for `constant`.
pub open spec fn is_step_for(
    pattern: PatternView,
    prefix: Seq<char>,
    constant: (Seq<char>, bool),
    step: StepView,
) -> bool {
    &&& step.0 == step_path(constant)
    &&& if step.1 {
        answers(pattern, Query::Match, prefix + step.0)
    } else {
        !constant.1
    }
}

proof fn lemma_with_step(steps: Seq<StepView>, step: StepView)
    requires
        steps.no_duplicates(),
    ensures
        with_step(steps, step).no_duplicates(),
        forall|other: StepView| #[trigger]
            with_step(steps, step).contains(other) == (steps.contains(other) || other == step),
{
    let now = with_step(steps, step);
    if !steps.contains(step) {
        assert(now[steps.len() as int] == step);
        assert forall|other: StepView| #[trigger] now.contains(other) == (steps.contains(other)
            || other == step) by {
            if steps.contains(other) {
                let i = choose|i: int| 0 <= i < steps.len() && steps[i] == other;
                assert(now[i] == other);
            }
            if now.contains(other) {
                let i = choose|i: int| 0 <= i < now.len() && now[i] == other;
                if i < steps.len() {
                    assert(steps[i] == other);
                }
            }
        }
    }
}

/// The steps for the constants are the steps for each of them, and each stands there once.
pub proof fn lemma_steps_of(
    pattern: PatternView,
    prefix: Seq<char>,
    constants: Seq<(Seq<char>, bool)>,
)
    ensures
        steps_of(pattern, prefix, constants).no_duplicates(),
        forall|step: StepView| #[trigger]
            steps_of(pattern, prefix, constants).contains(step) == exists|i: int|
                0 <= i < constants.len() && is_step_for(
                    pattern,
                    prefix,
                    #[trigger] constants[i],
                    step,
                ),
    decreases constants.len(),
{
    let now = steps_of(pattern, prefix, constants);
    if constants.len() > 0 {
        let front = constants.drop_last();
        let last = constants[constants.len() - 1];
        let before = steps_of(pattern, prefix, front);
        let path = step_path(last);
        let matches = answers(pattern, Query::Match, prefix + path);
        let probed = if matches {
            with_step(before, (path, true))
        } else {
            before
        };
        lemma_steps_of(pattern, prefix, front);
        lemma_with_step(before, (path, true));
        lemma_with_step(probed, (path, false));
        assert forall|step: StepView| #[trigger] now.contains(step) == exists|i: int|
            0 <= i < constants.len() && is_step_for(
                pattern,
                prefix,
                #[trigger] constants[i],
                step,
            ) by {
            assert(now.contains(step) == (before.contains(step) || is_step_for(
                pattern,
                prefix,
                last,
                step,
            )));
            if before.contains(step) {
                let i = choose|i: int|
                    0 <= i < front.len() && is_step_for(
                        pattern,
                        prefix,
                        #[trigger] front[i],
                        step,
                    );
                assert(is_step_for(pattern, prefix, constants[i], step));
            }
            if exists|i: int|
                0 <= i < constants.len() && is_step_for(
                    pattern,
                    prefix,
                    #[trigger] constants[i],
                    step,
                ) {
                let i = choose|i: int|
                    0 <= i < constants.len() && is_step_for(
                        pattern,
                        prefix,
                        #[trigger] constants[i],
                        step,
                    );
                if i < front.len() {
                    assert(is_step_for(pattern, prefix, front[i], step));
                }
            }
        }
    }
}

/// The path of a constant that leads on is the start of it. Where the pattern goes on behind
/// the constant, the path ends in a slash.
pub proof fn lemma_step_path(constant: (Seq<char>, bool))
    requires
        constant.1 || last_slash(constant.0) is Some,
    ensures
        has_prefix(constant.0, step_path(constant)),
        !constant.1 ==> step_path(constant).len() > 0 && step_path(constant).last() == '/',
{
    let text = constant.0;
    if constant.1 {
        assert(text.take(text.len() as int) =~= text);
    } else {
        lemma_last_slash(text);
    }
}

/// Where a finite list of paths replaces listing the directory, nothing is done twice. The
/// path to which a constant leads is looked up as the end of a match if and only if it makes
/// one, and the search goes on below it where the pattern goes on behind the constant.
pub proof fn law_plan_covers_the_constants(pattern: PatternView, prefix: Seq<char>)
    requires
        planned_steps(pattern, prefix) is Some,
    ensures
        ({
            let steps = planned_steps(pattern, prefix)->0;
            let constants = next_list(pattern, prefix)->0;
            &&& steps.no_duplicates()
            &&& forall|i: int|
                0 <= i < constants.len() ==> ({
                    let path = step_path(#[trigger] constants[i]);
                    &&& has_prefix(constants[i].0, path)
                    &&& steps.contains((path, true)) == answers(
                        pattern,
                        Query::Match,
                        prefix + path,
                    )
                    &&& !constants[i].1 ==> steps.contains((path, false))
                })
        }),
{
    let constants = next_list(pattern, prefix)->0;
    let steps = steps_of(pattern, prefix, constants);
    lemma_steps_of(pattern, prefix, constants);
    assert forall|i: int| 0 <= i < constants.len() implies ({
        let path = step_path(#[trigger] constants[i]);
        &&& has_prefix(constants[i].0, path)
        &&& steps.contains((path, true)) == answers(pattern, Query::Match, prefix + path)
        &&& !constants[i].1 ==> steps.contains((path, false))
    }) by {
        let path = step_path(constants[i]);
        lemma_step_path(constants[i]);
        if answers(pattern, Query::Match, prefix + path) {
            assert(is_step_for(pattern, prefix, constants[i], (path, true)));
        }
        if !constants[i].1 {
            assert(is_step_for(pattern, prefix, constants[i], (path, false)));
        }
    }
}

/// A path that is looked up as the end of a match makes one, behind the text that led to the
/// directory.
pub proof fn law_planned_ends_complete(pattern: PatternView, prefix: Seq<char>, i: int)
    requires
        planned_steps(pattern, prefix) is Some,
        0 <= i < planned_steps(pattern, prefix)->0.len(),
        planned_steps(pattern, prefix)->0[i].1,
    ensures
        answers(pattern, Query::Match, prefix + planned_steps(pattern, prefix)->0[i].0),
{
    let constants = next_list(pattern, prefix)->0;
    let steps = steps_of(pattern, prefix, constants);
    lemma_steps_of(pattern, prefix, constants);
    assert(steps.contains(steps[i]));
}

/// A path below which a planned search goes on is not empty and ends in a slash.
pub proof fn law_planned_searches_go_on(pattern: PatternView, prefix: Seq<char>, i: int)
    requires
        planned_steps(pattern, prefix) is Some,
        0 <= i < planned_steps(pattern, prefix)->0.len(),
        !planned_steps(pattern, prefix)->0[i].1,
    ensures
        planned_steps(pattern, prefix)->0[i].0.len() > 0,
        planned_steps(pattern, prefix)->0[i].0.last() == '/',
{
    let constants = next_list(pattern, prefix)->0;
    let steps = steps_of(pattern, prefix, constants);
    lemma_steps_of(pattern, prefix, constants);
    assert(steps.contains(steps[i]));
    let j = choose|j: int|
        0 <= j < constants.len() && is_step_for(
            pattern,
            prefix,
            #[trigger] constants[j],
            steps[i],
        );
    lemma_step_path(constants[j]);
}

/// A search for a pattern whose choices hold no alternatives inside can be planned.
pub proof fn law_choiceless_is_plannable(pattern: PatternView, prefix: Seq<char>)
    requires
        all_choiceless(choices(pattern)),
    ensures
        plannable(pattern, prefix),
{
    law_choiceless_choices_can_be_asked(pattern, Query::Match, prefix);
    if let Some(constants) = next_list(pattern, prefix) {
        assert forall|i: int| 0 <= i < constants.len() implies askable(
            pattern,
            Query::Match,
            prefix + step_path(#[trigger] constants[i]),
        ) by {
            let text = prefix + step_path(constants[i]);
            law_choiceless_choices_can_be_asked(pattern, Query::Match, text);
        }
    }
}

/// A search for a normalized pattern can be planned.
pub proof fn law_normalized_is_plannable(pattern: PatternView, prefix: Seq<char>)
    ensures
        plannable(normal_form(pattern), prefix),
{
    law_normalized_is_choiceless(pattern);
    law_choiceless_is_plannable(normal_form(pattern), prefix);
}

} // verus!
