use resolve_pattern::pattern::Pattern;

fn constant(text: &str) -> Pattern {
    Pattern::Constant(text.to_string())
}

fn normalized(pat: &Pattern) -> Pattern {
    let mut pat = pat.clone();
    pat.normalize();
    pat
}

#[test]
fn single_patterns_are_normal() {
    assert_eq!(normalized(&constant("a")), constant("a"));
    assert_eq!(normalized(&constant("")), constant(""));
    assert_eq!(normalized(&Pattern::Dynamic), Pattern::Dynamic);
    assert_eq!(
        normalized(&Pattern::Concatenation(vec![])),
        Pattern::Concatenation(vec![])
    );
    assert_eq!(
        normalized(&Pattern::Alternatives(vec![])),
        Pattern::Alternatives(vec![])
    );
}

#[test]
fn neighbours_are_merged() {
    let pat = Pattern::Concatenation(vec![
        constant("a"),
        constant(""),
        Pattern::Concatenation(vec![constant("b"), Pattern::Dynamic]),
        Pattern::Dynamic,
        constant("é"),
    ]);
    assert_eq!(
        normalized(&pat),
        Pattern::Concatenation(vec![constant("ab"), Pattern::Dynamic, constant("é")])
    );
}

#[test]
fn a_single_part_stands_alone() {
    assert_eq!(
        normalized(&Pattern::Concatenation(vec![constant("a"), constant("b")])),
        constant("ab")
    );
    assert_eq!(
        normalized(&Pattern::Concatenation(vec![constant(""), Pattern::Dynamic])),
        Pattern::Dynamic
    );
    assert_eq!(
        normalized(&Pattern::Concatenation(vec![constant("")])),
        Pattern::Concatenation(vec![])
    );
}

#[test]
fn nested_alternatives_are_taken_apart() {
    let pat = Pattern::Alternatives(vec![
        constant("a"),
        Pattern::Alternatives(vec![
            constant("b"),
            Pattern::Alternatives(vec![constant("c"), Pattern::Dynamic]),
        ]),
    ]);
    assert_eq!(
        normalized(&pat),
        Pattern::Alternatives(vec![constant("a"), constant("b"), constant("c"), Pattern::Dynamic])
    );
}

#[test]
fn no_choice_leaves_nothing() {
    let pat = Pattern::Concatenation(vec![constant("a"), Pattern::Alternatives(vec![])]);
    assert_eq!(normalized(&pat), Pattern::Alternatives(vec![]));
}

#[test]
fn normalizing_twice_is_final() {
    let pat = Pattern::Concatenation(vec![
        Pattern::Alternatives(vec![constant("a"), constant("b")]),
        constant("/"),
        constant("c"),
    ]);
    let once = normalized(&pat);
    assert_eq!(
        once,
        Pattern::Alternatives(vec![
            Pattern::Concatenation(vec![constant("a"), constant("/"), constant("c")]),
            Pattern::Concatenation(vec![constant("b"), constant("/"), constant("c")]),
        ])
    );
    let twice = normalized(&once);
    assert_eq!(
        twice,
        Pattern::Alternatives(vec![constant("a/c"), constant("b/c")])
    );
    assert_eq!(normalized(&twice), twice);
}

#[test]
fn normalizing_loses_no_match() {
    let pat = Pattern::Concatenation(vec![Pattern::Dynamic, constant("a"), constant("b")]);
    let normal = normalized(&pat);
    assert!(pat.is_match("xab"));
    assert!(normal.is_match("xab"));
    // The merged constant is found where its first half alone leads astray.
    assert!(!pat.is_match("axab"));
    assert!(normal.is_match("axab"));
    // An empty constant ends a dynamic part until it is merged away.
    let pat = Pattern::Concatenation(vec![Pattern::Dynamic, constant("")]);
    assert!(pat.is_match(""));
    assert!(!pat.is_match("a"));
    assert!(normalized(&pat).is_match(""));
    assert!(normalized(&pat).is_match("a"));
}

#[test]
fn the_normal_form_can_be_asked() {
    let pat = Pattern::Concatenation(vec![
        constant("./"),
        Pattern::Alternatives(vec![
            Pattern::Concatenation(vec![constant("lib/"), Pattern::Dynamic]),
            constant("index"),
        ]),
        Pattern::Alternatives(vec![constant(".js"), constant(".ts")]),
    ]);
    assert!(!pat.can_be_asked());
    let normal = normalized(&pat);
    assert!(normal.can_be_asked());
    assert_eq!(normal.match_position("./lib/a.js"), Some(0));
    assert_eq!(normal.match_position("./index.js"), Some(1));
    assert_eq!(normal.match_position("./lib/a.ts"), Some(2));
    assert_eq!(normal.match_position("./index.ts"), Some(3));
    assert_eq!(normal.match_position("./index.css"), None);
}

#[test]
fn alternatives_in_alternatives_are_merged_at_once() {
    let pat = Pattern::Alternatives(vec![
        Pattern::Alternatives(vec![
            Pattern::Concatenation(vec![constant("a"), constant("b")]),
            Pattern::Dynamic,
        ]),
        Pattern::Concatenation(vec![Pattern::Dynamic, Pattern::Dynamic, constant("c")]),
    ]);
    let once = normalized(&pat);
    assert_eq!(
        once,
        Pattern::Alternatives(vec![
            constant("ab"),
            Pattern::Dynamic,
            Pattern::Concatenation(vec![Pattern::Dynamic, constant("c")]),
        ])
    );
    assert_eq!(normalized(&once), once);
}
