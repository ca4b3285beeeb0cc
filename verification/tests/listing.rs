use resolve_pattern::constants::NextConstantUntilResult;
use resolve_pattern::pattern::Pattern;

fn constant(text: &str) -> Pattern {
    Pattern::Constant(text.to_string())
}

fn concatenation(parts: Vec<Pattern>) -> Pattern {
    Pattern::Concatenation(parts)
}

#[test]
fn a_finished_alternative_adds_nothing_more() {
    let pat = Pattern::Alternatives(vec![constant("ab"), constant("a"), constant("b")]);
    assert_eq!(pat.next_constants("a"), Some(vec![("b", true), ("", true)]));
    assert_eq!(pat.next_constants("c"), Some(vec![]));
}

#[test]
fn a_finished_single_pattern_has_no_list() {
    assert_eq!(constant("ab").next_constants("ab"), None);
    assert_eq!(constant("ab").next_constants("b"), None);
    assert_eq!(constant("ab").next_constants(""), Some(vec![("ab", true)]));
}

#[test]
fn an_open_alternative_leaves_no_list() {
    let pat = Pattern::Alternatives(vec![
        constant("ab"),
        concatenation(vec![constant("a"), Pattern::Dynamic]),
    ]);
    assert_eq!(pat.next_constants("a"), None);
    assert_eq!(pat.next_constants(""), Some(vec![("ab", true), ("a", false)]));
    // Behind a barrier the dynamic part is not open any more.
    assert_eq!(pat.next_constants("a/.b"), Some(vec![]));
    // A generated file may be the start of another name.
    assert_eq!(pat.next_constants("ax.map"), None);
}

#[test]
fn empty_segments_leave_a_dynamic_part_open() {
    let pat = Pattern::Alternatives(vec![Pattern::Dynamic]);
    assert_eq!(pat.next_constants("a//"), None);
    assert_eq!(pat.next_constants("a/.."), Some(vec![]));
}

#[test]
fn constants_behind_a_dynamic_part() {
    let pat = concatenation(vec![Pattern::Dynamic, constant("é"), constant("xy")]);
    assert_eq!(pat.next_constants("aé"), Some(vec![("xy", true)]));
    assert_eq!(pat.next_constants("aéx"), Some(vec![("y", true)]));
    assert_eq!(pat.next_constants("aéy"), None);
    assert_eq!(pat.next_constants("a"), None);
}

#[test]
fn the_end_is_told_by_the_last_part() {
    let pat = concatenation(vec![constant("ab"), constant("cd")]);
    assert_eq!(pat.next_constants("a"), Some(vec![("b", false)]));
    assert_eq!(pat.next_constants("abc"), Some(vec![("d", true)]));
    let nested = concatenation(vec![constant("ab"), concatenation(vec![])]);
    assert_eq!(nested.next_constants("a"), Some(vec![("b", false)]));
}

#[test]
fn listed_ends_complete_a_match() {
    let pat = Pattern::Alternatives(vec![
        constant("./index.js"),
        concatenation(vec![constant("./"), constant("lib.js")]),
        constant("./"),
    ]);
    let listed = pat.next_constants("./").unwrap();
    assert_eq!(
        listed,
        vec![("index.js", true), ("lib.js", true), ("", true)]
    );
    for (text, end) in listed {
        assert!(end);
        assert!(pat.is_match(&format!("./{}", text)));
    }
}

#[test]
fn single_listings_tell_what_is_left() {
    let pat = concatenation(vec![constant("ü"), Pattern::Dynamic]);
    assert!(matches!(
        pat.next_constants_internal("üa//.b", None),
        NextConstantUntilResult::Consumed("a//.b", Some(2))
    ));
    assert!(matches!(
        pat.next_constants_internal("", None),
        NextConstantUntilResult::Partial("ü", false)
    ));
    assert!(matches!(
        pat.next_constants_internal("u", None),
        NextConstantUntilResult::NoMatch
    ));
    assert!(matches!(
        constant("d").next_constants_internal("abc", Some(3)),
        NextConstantUntilResult::PartialDynamic
    ));
    assert!(matches!(
        constant("b").next_constants_internal("abc", Some(1)),
        NextConstantUntilResult::Consumed("c", None)
    ));
    assert!(matches!(
        constant("c").next_constants_internal("abc", Some(1)),
        NextConstantUntilResult::NoMatch
    ));
}
