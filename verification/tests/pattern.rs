use resolve_pattern::pattern::Pattern;

fn constant(text: &str) -> Pattern {
    Pattern::Constant(text.to_string())
}

#[test]
fn normalize() {
    let a = Pattern::Constant("a".to_string());
    let b = Pattern::Constant("b".to_string());
    let c = Pattern::Constant("c".to_string());
    let s = Pattern::Constant("/".to_string());
    let d = Pattern::Dynamic;
    {
        let mut p = Pattern::Concatenation(vec![
            Pattern::Alternatives(vec![a.clone(), b.clone()]),
            s.clone(),
            c.clone(),
        ]);
        p.normalize();
        assert_eq!(
            p,
            Pattern::Alternatives(vec![
                Pattern::Concatenation(vec![a.clone(), s.clone(), c.clone()]),
                Pattern::Concatenation(vec![b.clone(), s.clone(), c.clone()]),
            ])
        );
    }

    {
        let mut p = Pattern::Concatenation(vec![
            Pattern::Alternatives(vec![a.clone(), b.clone(), d.clone()]),
            s.clone(),
            Pattern::Alternatives(vec![b.clone(), c.clone(), d.clone()]),
        ]);
        p.normalize();

        assert_eq!(
            p,
            Pattern::Alternatives(vec![
                Pattern::Concatenation(vec![a.clone(), s.clone(), b.clone()]),
                Pattern::Concatenation(vec![b.clone(), s.clone(), b.clone()]),
                Pattern::Concatenation(vec![d.clone(), s.clone(), b.clone()]),
                Pattern::Concatenation(vec![a.clone(), s.clone(), c.clone()]),
                Pattern::Concatenation(vec![b.clone(), s.clone(), c.clone()]),
                Pattern::Concatenation(vec![d.clone(), s.clone(), c.clone()]),
                Pattern::Concatenation(vec![a.clone(), s.clone(), d.clone()]),
                Pattern::Concatenation(vec![b.clone(), s.clone(), d.clone()]),
                Pattern::Concatenation(vec![d.clone(), s.clone(), d.clone()]),
            ])
        );
    }
}

#[test]
fn is_match() {
    let pat = Pattern::Concatenation(vec![
        Pattern::Constant(".".to_string()),
        Pattern::Constant("/".to_string()),
        Pattern::Dynamic,
        Pattern::Constant(".js".to_string()),
    ]);
    assert!(pat.could_match(""));
    assert!(pat.could_match("./"));
    assert!(!pat.is_match("./"));
    assert!(pat.is_match("./index.js"));
    assert!(!pat.is_match("./index"));

    // forbidden:
    assert!(!pat.is_match("./../index.js"));
    assert!(!pat.is_match("././index.js"));
    assert!(!pat.is_match("./.git/index.js"));
    assert!(!pat.is_match("./inner/../index.js"));
    assert!(!pat.is_match("./inner/./index.js"));
    assert!(!pat.is_match("./inner/.git/index.js"));
    assert!(!pat.could_match("./../"));
    assert!(!pat.could_match("././"));
    assert!(!pat.could_match("./.git/"));
    assert!(!pat.could_match("./inner/../"));
    assert!(!pat.could_match("./inner/./"));
    assert!(!pat.could_match("./inner/.git/"));
}

fn check_dynamic_match(pat: Pattern) {
    assert!(pat.could_match(""));
    assert!(pat.is_match("index.js"));

    // forbidden:
    assert!(!pat.could_match("./"));
    assert!(!pat.is_match("./"));
    assert!(!pat.could_match("."));
    assert!(!pat.is_match("."));
    assert!(!pat.could_match("../"));
    assert!(!pat.is_match("../"));
    assert!(!pat.could_match(".."));
    assert!(!pat.is_match(".."));
    assert!(!pat.is_match("./../index.js"));
    assert!(!pat.is_match("././index.js"));
    assert!(!pat.is_match("./.git/index.js"));
    assert!(!pat.is_match("./inner/../index.js"));
    assert!(!pat.is_match("./inner/./index.js"));
    assert!(!pat.is_match("./inner/.git/index.js"));
    assert!(!pat.could_match("./../"));
    assert!(!pat.could_match("././"));
    assert!(!pat.could_match("./.git/"));
    assert!(!pat.could_match("./inner/../"));
    assert!(!pat.could_match("./inner/./"));
    assert!(!pat.could_match("./inner/.git/"));
    assert!(!pat.could_match("/"));
    assert!(!pat.could_match("dir//"));
    assert!(!pat.could_match("dir//dir"));
    assert!(!pat.could_match("dir///dir"));
    assert!(!pat.could_match("/"));
    assert!(!pat.could_match("//"));

    assert!(!pat.could_match("node_modules"));
    assert!(!pat.could_match("node_modules/package"));
    assert!(!pat.could_match("nested/node_modules"));
    assert!(!pat.could_match("nested/node_modules/package"));

    // forbidden match
    assert!(pat.could_match("file.map"));
    assert!(!pat.is_match("file.map"));
    assert!(pat.is_match("file.map/file.js"));
    assert!(!pat.is_match("file.d.ts"));
    assert!(!pat.is_match("file.d.ts.map"));
    assert!(!pat.is_match("file.d.ts.map"));
    assert!(!pat.is_match("dir/file.d.ts.map"));
    assert!(!pat.is_match("dir/inner/file.d.ts.map"));
    assert!(pat.could_match("dir/inner/file.d.ts.map"));
}

#[test]
fn dynamic_match_dynamic() {
    check_dynamic_match(Pattern::Dynamic);
}

#[test]
fn dynamic_match_dynamic_concat() {
    check_dynamic_match(Pattern::Concatenation(vec![Pattern::Dynamic, constant(".js")]));
}

#[test]
fn next_constants_dynamic() {
    assert_eq!(Pattern::Dynamic.next_constants("feijf"), None);
}

#[test]
fn next_constants_dynamic_concat() {
    let pat = Pattern::Concatenation(vec![Pattern::Dynamic, constant(".js")]);
    assert_eq!(pat.next_constants("hello."), None);
}

#[test]
fn next_constants_constant() {
    let pat = constant("Hello World");
    assert_eq!(pat.next_constants("Hello "), Some(vec![("World", true)]));
}

#[test]
fn next_constants_alternatives() {
    let pat = Pattern::Alternatives(vec![constant("Hello World"), constant("Hello All")]);
    assert_eq!(pat.next_constants("Hello "), Some(vec![("World", true), ("All", true)]));
}

#[test]
fn next_constants_alternatives_non_end() {
    let pat = Pattern::Alternatives(vec![
        constant("Hello World"),
        constant("Hello All"),
        Pattern::Concatenation(vec![constant("Hello more"), Pattern::Dynamic]),
    ]);
    assert_eq!(
        pat.next_constants("Hello "),
        Some(vec![("World", true), ("All", true), ("more", false)])
    );
}
