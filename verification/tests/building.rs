use resolve_pattern::compose::{
    concatenation_extend_or_merge_items, concatenation_push_front_or_merge_item,
    concatenation_push_or_merge_item,
};
use resolve_pattern::pattern::Pattern;

fn constant(text: &str) -> Pattern {
    Pattern::Constant(text.to_string())
}

fn concatenation(parts: Vec<Pattern>) -> Pattern {
    Pattern::Concatenation(parts)
}

#[test]
fn default_is_dynamic() {
    assert_eq!(Pattern::default(), Pattern::Dynamic);
}

#[test]
fn clone_is_equal() {
    let pat = Pattern::Alternatives(vec![
        concatenation(vec![constant("a"), Pattern::Dynamic]),
        constant("é"),
    ]);
    assert_eq!(pat.clone(), pat);
}

#[test]
fn from_and_into_string_round_trip() {
    let pat = Pattern::from("src/é.ts".to_string());
    assert_eq!(pat, constant("src/é.ts"));
    assert_eq!(pat.into_string(), Some("src/é.ts".to_string()));
}

#[test]
fn into_string_of_others_is_none() {
    assert_eq!(Pattern::Dynamic.into_string(), None);
    assert_eq!(concatenation(vec![constant("a")]).into_string(), None);
    assert_eq!(Pattern::Alternatives(vec![constant("a")]).into_string(), None);
}

#[test]
fn constant_parts_are_found_at_any_depth() {
    assert!(constant("").has_constant_parts());
    assert!(!Pattern::Dynamic.has_constant_parts());
    assert!(!concatenation(vec![]).has_constant_parts());
    assert!(!Pattern::Alternatives(vec![Pattern::Dynamic, concatenation(vec![Pattern::Dynamic])])
        .has_constant_parts());
    assert!(Pattern::Alternatives(vec![
        Pattern::Dynamic,
        concatenation(vec![Pattern::Dynamic, constant("x")]),
    ])
    .has_constant_parts());
}

#[test]
fn items_merge_at_the_end_of_a_list() {
    let mut list = vec![Pattern::Dynamic, constant("a")];
    concatenation_push_or_merge_item(&mut list, constant("b"));
    assert_eq!(list, vec![Pattern::Dynamic, constant("ab")]);
    concatenation_push_or_merge_item(&mut list, Pattern::Dynamic);
    concatenation_push_or_merge_item(&mut list, Pattern::Dynamic);
    assert_eq!(
        list,
        vec![Pattern::Dynamic, constant("ab"), Pattern::Dynamic, Pattern::Dynamic]
    );
}

#[test]
fn items_merge_at_the_front_of_a_list() {
    let mut list = vec![constant("b"), Pattern::Dynamic];
    concatenation_push_front_or_merge_item(&mut list, constant("a"));
    assert_eq!(list, vec![constant("ab"), Pattern::Dynamic]);
    concatenation_push_front_or_merge_item(&mut list, Pattern::Dynamic);
    concatenation_push_front_or_merge_item(&mut list, constant("c"));
    assert_eq!(
        list,
        vec![constant("c"), Pattern::Dynamic, constant("ab"), Pattern::Dynamic]
    );
}

#[test]
fn only_the_first_of_more_items_merges() {
    let mut list = vec![constant("a")];
    concatenation_extend_or_merge_items(
        &mut list,
        vec![constant("b"), constant("c"), constant("d")].into_iter(),
    );
    assert_eq!(list, vec![constant("ab"), constant("c"), constant("d")]);
    concatenation_extend_or_merge_items(&mut list, Vec::new().into_iter());
    assert_eq!(list, vec![constant("ab"), constant("c"), constant("d")]);
}

#[test]
fn push_merges_constants() {
    let mut pat = constant("a");
    pat.push(constant("b"));
    assert_eq!(pat, constant("ab"));
    pat.push(Pattern::Dynamic);
    assert_eq!(pat, concatenation(vec![constant("ab"), Pattern::Dynamic]));
    pat.push(constant("c"));
    pat.push(concatenation(vec![constant("d"), Pattern::Dynamic]));
    assert_eq!(
        pat,
        concatenation(vec![constant("ab"), Pattern::Dynamic, constant("cd"), Pattern::Dynamic])
    );
}

#[test]
fn push_onto_a_single_pattern_takes_the_list_over() {
    let mut pat = constant("a");
    pat.push(concatenation(vec![constant("b"), Pattern::Dynamic]));
    assert_eq!(pat, concatenation(vec![constant("ab"), Pattern::Dynamic]));
    let mut pat = Pattern::Alternatives(vec![]);
    pat.push(concatenation(vec![]));
    assert_eq!(pat, concatenation(vec![Pattern::Alternatives(vec![])]));
}

#[test]
fn push_front_is_push_the_other_way_round() {
    let items = vec![
        constant("a"),
        Pattern::Dynamic,
        concatenation(vec![constant("b"), Pattern::Dynamic]),
        concatenation(vec![Pattern::Dynamic, constant("c")]),
        Pattern::Alternatives(vec![constant("d")]),
        concatenation(vec![]),
    ];
    for first in &items {
        for second in &items {
            let mut front = second.clone();
            front.push_front(first.clone());
            let mut back = first.clone();
            back.push(second.clone());
            assert_eq!(front, back);
        }
    }
}

#[test]
fn extend_a_concatenation_merges_the_first_item() {
    let mut pat = concatenation(vec![Pattern::Dynamic, constant("a")]);
    pat.extend(vec![constant("b"), constant("c")].into_iter());
    assert_eq!(
        pat,
        concatenation(vec![Pattern::Dynamic, constant("ab"), constant("c")])
    );
}

#[test]
fn extend_a_single_pattern_makes_a_concatenation() {
    let mut pat = constant("a");
    pat.extend(
        vec![
            constant("b"),
            Pattern::Dynamic,
            concatenation(vec![constant("c"), constant("d")]),
        ]
        .into_iter(),
    );
    assert_eq!(
        pat,
        concatenation(vec![constant("ab"), Pattern::Dynamic, constant("c"), constant("d")])
    );
    let mut pat = Pattern::Dynamic;
    pat.extend(Vec::new().into_iter());
    assert_eq!(pat, concatenation(vec![Pattern::Dynamic]));
}

#[test]
fn alternatives_are_taken_apart_once() {
    let inner = Pattern::Alternatives(vec![constant("c")]);
    let pat = Pattern::alternatives(
        vec![
            constant("a"),
            Pattern::Alternatives(vec![constant("b"), inner.clone()]),
            Pattern::Dynamic,
        ]
        .into_iter(),
    );
    assert_eq!(
        pat,
        Pattern::Alternatives(vec![constant("a"), constant("b"), inner, Pattern::Dynamic])
    );
    assert_eq!(
        Pattern::alternatives(Vec::new().into_iter()),
        Pattern::Alternatives(vec![])
    );
}

#[test]
fn concat_pushes_the_items() {
    let pat = Pattern::concat(
        vec![constant("./"), constant("src/"), Pattern::Dynamic, constant(".js")].into_iter(),
    );
    assert_eq!(
        pat,
        concatenation(vec![constant("./src/"), Pattern::Dynamic, constant(".js")])
    );
    assert_eq!(Pattern::concat(vec![constant("a")].into_iter()), constant("a"));
    assert_eq!(Pattern::concat(Vec::new().into_iter()), Pattern::Dynamic);
}

#[test]
fn what_is_pushed_matches_in_a_row() {
    let mut pat = concatenation(vec![constant("./"), Pattern::Dynamic]);
    pat.push(constant(".js"));
    assert!(pat.is_match("./index.js"));
    assert!(!pat.is_match("./index"));
}

#[test]
fn to_string_writes_every_kind() {
    let pat = Pattern::Alternatives(vec![
        concatenation(vec![constant("./"), Pattern::Dynamic, constant(".js")]),
        constant("é"),
        Pattern::Alternatives(vec![]),
        concatenation(vec![]),
    ]);
    assert_eq!(pat.to_string(), "(\"./\" <dynamic> \".js\" | \"é\" | () | )");
    assert_eq!(Pattern::Dynamic.to_string(), "<dynamic>");
    assert_eq!(constant("").to_string(), "\"\"");
}
