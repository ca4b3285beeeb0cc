use resolve_pattern::barrier::{constants_barrier, ends_in_artifact, match_barrier};
use resolve_pattern::matching::{MatchResult, Query};
use resolve_pattern::pattern::Pattern;

fn constant(text: &str) -> Pattern {
    Pattern::Constant(text.to_string())
}

fn concatenation(parts: Vec<Pattern>) -> Pattern {
    Pattern::Concatenation(parts)
}

#[test]
fn barriers_are_given_in_bytes() {
    assert_eq!(match_barrier(""), None);
    assert_eq!(match_barrier("dir/file.js"), None);
    assert_eq!(match_barrier(".git"), Some(0));
    assert_eq!(match_barrier("dir/.git"), Some(3));
    assert_eq!(match_barrier("é/.git"), Some(2));
    assert_eq!(match_barrier("a/b/../c"), Some(3));
    assert_eq!(match_barrier("node_modules"), Some(0));
    assert_eq!(match_barrier("node_modules/a"), Some(0));
    assert_eq!(match_barrier("node_modules2"), None);
    assert_eq!(match_barrier("my_node_modules"), None);
    assert_eq!(match_barrier("x/__test__/y"), Some(1));
    assert_eq!(match_barrier("__tests__"), Some(0));
    assert_eq!(match_barrier("__tests"), None);
    assert_eq!(match_barrier("a\n/.b"), Some(2));
    assert_eq!(match_barrier("node_modules\n"), None);
}

#[test]
fn empty_segments_stop_a_match_only() {
    assert_eq!(match_barrier("/"), Some(0));
    assert_eq!(match_barrier("a//b"), Some(1));
    assert_eq!(constants_barrier("/"), None);
    assert_eq!(constants_barrier("a//b"), None);
    assert_eq!(constants_barrier("a//.b"), Some(2));
    assert_eq!(constants_barrier("ü/node_modules/x"), Some(2));
    assert_eq!(constants_barrier("__tests__/x"), Some(0));
}

#[test]
fn generated_files_are_told_by_their_ending() {
    assert!(ends_in_artifact("file.d.ts"));
    assert!(ends_in_artifact("dir/file.js.map"));
    assert!(ends_in_artifact(".map"));
    assert!(!ends_in_artifact("file.d.tsx"));
    assert!(!ends_in_artifact("file.map/x"));
    assert!(!ends_in_artifact("file.map\n"));
    assert!(!ends_in_artifact("filexd.ts"));
    assert!(!ends_in_artifact(""));
}

#[test]
fn a_constant_matches_its_text_alone() {
    let pat = constant("src/é.js");
    assert!(pat.is_match("src/é.js"));
    assert!(!pat.is_match("src/é"));
    assert!(!pat.is_match("src/é.js/"));
    assert!(pat.could_match(""));
    assert!(pat.could_match("src/é"));
    assert!(pat.could_match("src/é.js"));
    assert!(!pat.could_match("src/e"));
    assert!(pat.could_match_others("src/"));
    assert!(!pat.could_match_others("src/é.js"));
}

#[test]
fn constants_in_a_row_are_one_constant() {
    let pat = concatenation(vec![
        constant("./"),
        concatenation(vec![constant(""), constant("a")]),
        constant("b"),
    ]);
    for text in ["", ".", "./", "./a"] {
        assert!(pat.could_match(text));
        assert!(pat.could_match_others(text));
        assert!(!pat.is_match(text));
    }
    assert!(pat.is_match("./ab"));
    assert!(!pat.could_match_others("./ab"));
    assert!(!pat.could_match("./b"));
    assert!(!pat.could_match("./abc"));
}

#[test]
fn nesting_makes_no_difference() {
    let flat = concatenation(vec![constant("./"), Pattern::Dynamic, constant(".js")]);
    let nested = concatenation(vec![
        concatenation(vec![constant("./"), concatenation(vec![Pattern::Dynamic])]),
        concatenation(vec![]),
        constant(".js"),
    ]);
    for text in ["", "./", "./a", "./a.js", "./.a.js", "./a.js.js", "../a.js"] {
        assert_eq!(flat.is_match(text), nested.is_match(text));
        assert_eq!(flat.could_match(text), nested.could_match(text));
        assert_eq!(flat.could_match_others(text), nested.could_match_others(text));
    }
}

#[test]
fn dynamic_parts_find_the_first_occurrence() {
    let pat = concatenation(vec![Pattern::Dynamic, constant(".js")]);
    assert!(pat.is_match("naïve.js"));
    assert!(!pat.is_match("a.js.js"));
    assert!(!pat.could_match("a.js.js"));
    assert!(pat.could_match("a"));
    assert!(pat.could_match_others("a"));
    assert!(!pat.could_match_others("a.js"));
    let pat = concatenation(vec![Pattern::Dynamic, constant("ü"), Pattern::Dynamic]);
    assert!(pat.is_match("naïveüx"));
    assert!(pat.is_match("ü"));
    assert!(!pat.is_match("u"));
}

#[test]
fn a_constant_may_stand_at_the_barrier() {
    let pat = concatenation(vec![Pattern::Dynamic, constant("/../index.js")]);
    assert!(pat.is_match("dir/../index.js"));
    assert!(!pat.is_match("dir/../../index.js"));
    assert!(!pat.is_match("é/../x/../index.js"));
}

#[test]
fn directories_that_lead_to_a_match_could_match() {
    let pat = concatenation(vec![constant("./"), Pattern::Dynamic, constant(".js")]);
    let value = "./lib/sub/index.js";
    assert!(pat.is_match(value));
    for directory in ["", "./", "./lib/", "./lib/sub/"] {
        assert!(pat.could_match(directory));
    }
    // A constant that starts with a slash may stand behind a segment that is not empty.
    let pat = concatenation(vec![constant("./pages/"), Pattern::Dynamic, constant("/a/page.js")]);
    assert!(pat.is_match("./pages/x/a/page.js"));
    for directory in ["", "./", "./pages/", "./pages/x/", "./pages/x/a/"] {
        assert!(pat.could_match(directory));
    }
    // Where the dynamic part stands for nothing, the directory starts with an empty segment.
    let pat = concatenation(vec![constant("a"), Pattern::Dynamic, constant("/b")]);
    assert!(pat.is_match("a/b"));
    assert!(!pat.could_match("a/"));
}

#[test]
fn positions_name_the_first_alternative() {
    let pat = Pattern::Alternatives(vec![
        constant("b"),
        constant("ab"),
        concatenation(vec![constant("a"), Pattern::Dynamic]),
        constant("ab"),
    ]);
    assert_eq!(pat.match_position("b"), Some(0));
    assert_eq!(pat.match_position("ab"), Some(1));
    assert_eq!(pat.match_position("ac"), Some(2));
    assert_eq!(pat.match_position("c"), None);
    assert_eq!(pat.could_match_position(""), Some(0));
    assert_eq!(pat.could_match_position("a"), Some(1));
    assert_eq!(pat.could_match_position("c"), None);
    assert_eq!(constant("a").match_position("a"), Some(0));
    assert_eq!(constant("a").match_position("b"), None);
    assert_eq!(constant("ab").could_match_position("a"), Some(0));
    assert_eq!(constant("ab").could_match_position("b"), None);
    assert_eq!(Pattern::Alternatives(vec![]).match_position(""), None);
}

#[test]
fn could_match_is_match_or_others() {
    let pat = Pattern::Alternatives(vec![
        constant("ab"),
        concatenation(vec![constant("x"), Pattern::Dynamic]),
    ]);
    for text in ["", "a", "ab", "abc", "x", "xy", "xa.map", "x/.y", "y"] {
        assert_eq!(
            pat.could_match(text),
            pat.is_match(text) || pat.could_match_others(text)
        );
        assert_eq!(pat.is_match(text), pat.match_position(text).is_some());
        assert_eq!(pat.could_match(text), pat.could_match_position(text).is_some());
    }
    assert!(!pat.is_match("xa.map"));
    assert!(pat.could_match_others("xa.map"));
}

#[test]
fn filters_divide_the_alternatives() {
    let ab = constant("ab");
    let ac = constant("ac");
    let open = concatenation(vec![constant("x"), Pattern::Dynamic]);
    let pat = Pattern::Alternatives(vec![ab.clone(), open.clone(), ac.clone()]);
    assert_eq!(
        pat.filter_could_match("a"),
        Some(Pattern::Alternatives(vec![ab.clone(), ac.clone()]))
    );
    assert_eq!(
        pat.filter_could_not_match("a"),
        Some(Pattern::Alternatives(vec![open.clone()]))
    );
    assert_eq!(pat.filter_could_match("q"), None);
    assert_eq!(pat.filter_could_not_match("q"), Some(pat.clone()));
    assert_eq!(pat.filter_could_match(""), Some(pat.clone()));
    assert_eq!(pat.filter_could_not_match(""), None);
}

#[test]
fn filters_keep_a_single_pattern_or_drop_it() {
    let pat = constant("ab");
    assert_eq!(pat.filter_could_match("a"), Some(pat.clone()));
    assert_eq!(pat.filter_could_not_match("a"), None);
    assert_eq!(pat.filter_could_match("b"), None);
    assert_eq!(pat.filter_could_not_match("b"), Some(pat.clone()));
}

#[test]
fn an_earlier_answer_spares_the_rest() {
    // The second alternative cannot be read along, and is not.
    let pat = Pattern::Alternatives(vec![
        constant("a"),
        Pattern::Alternatives(vec![constant("b")]),
    ]);
    assert!(!pat.can_be_asked());
    assert!(pat.is_match("a"));
    assert_eq!(pat.match_position("a"), Some(0));
}

#[test]
fn single_readings_tell_what_is_left() {
    let pat = concatenation(vec![constant("ü"), Pattern::Dynamic]);
    match pat.match_internal("üa/.b", None) {
        MatchResult::Consumed { remaining, any_offset } => {
            assert_eq!(remaining, "a/.b");
            assert_eq!(any_offset, Some(1));
        }
        _ => panic!("the pattern is used up"),
    }
    assert!(matches!(pat.match_internal("", None), MatchResult::Partial));
    assert!(matches!(pat.match_internal("u", None), MatchResult::NoMatch));
    match constant("b").match_internal("abc", Some(3)) {
        MatchResult::Consumed { remaining, any_offset } => {
            assert_eq!(remaining, "c");
            assert_eq!(any_offset, None);
        }
        _ => panic!("the pattern is used up"),
    }
    assert!(matches!(constant("b").match_internal("abc", Some(0)), MatchResult::NoMatch));
    assert!(matches!(constant("d").match_internal("abc", Some(3)), MatchResult::Partial));
    assert!(matches!(constant("d").match_internal("abc", Some(2)), MatchResult::NoMatch));
}

#[test]
fn readings_answer_queries() {
    let open = MatchResult::Consumed { remaining: "ab", any_offset: Some(2) };
    assert!(open.is_match() && open.could_match_others() && open.could_match());
    let stopped = MatchResult::Consumed { remaining: "ab", any_offset: Some(1) };
    assert!(!stopped.is_match() && !stopped.could_match_others() && !stopped.could_match());
    let done = MatchResult::Consumed { remaining: "", any_offset: None };
    assert!(done.is_match() && !done.could_match_others() && done.could_match());
    let partial = MatchResult::Partial;
    assert!(!partial.answers(Query::Match));
    assert!(partial.answers(Query::Others));
    assert!(partial.answers(Query::MatchOrOthers));
    assert!(!MatchResult::NoMatch.answers(Query::MatchOrOthers));
}
