use resolve_pattern::lookup::{
    entry_candidates, planned, relatives, Candidate, Effect, EntryKind, LinkTarget, Step,
};
use resolve_pattern::matching::Query;
use resolve_pattern::order::{PatternMatch, PatternMatches};
use resolve_pattern::pattern::Pattern;
use resolve_pattern::search::{
    admits, finish, list_directory, wants_target, Entry, Request, Search,
};

fn constant(text: &str) -> Pattern {
    Pattern::Constant(text.to_string())
}

fn step(path: &str, until_end: bool) -> Step {
    Step { path: path.to_string(), until_end }
}

fn file(text: &str, path: u64) -> PatternMatch {
    PatternMatch::File(text.to_string(), path)
}

fn directory(text: &str, path: u64) -> PatternMatch {
    PatternMatch::Directory(text.to_string(), path)
}

fn request(path: u64, prefix: &str, force: bool) -> Request {
    Request { path, prefix: prefix.to_string(), force }
}

fn entry(key: &str, kind: EntryKind, path: u64) -> Entry {
    Entry { key: key.to_string(), kind, path, target: LinkTarget::Broken }
}

fn candidate(text: &str, query: Query, effect: Effect, path: u64) -> Candidate {
    Candidate { text: text.to_string(), query, effect, path }
}

fn scripts() -> Pattern {
    Pattern::Concatenation(vec![constant("./"), Pattern::Dynamic, constant(".js")])
}

#[test]
fn a_finite_list_of_paths_is_planned() {
    let pat = Pattern::Alternatives(vec![
        constant("./a.js"),
        constant("./lib/é/"),
        Pattern::Concatenation(vec![constant("./lib/é/x"), Pattern::Dynamic]),
        constant("./a.js"),
        Pattern::Concatenation(vec![constant("./sub/"), Pattern::Dynamic]),
    ]);
    assert_eq!(
        planned(&pat, "./"),
        Some(vec![
            step("a.js", true),
            step("lib/é/", true),
            step("lib/é/", false),
            step("sub/", true),
            step("sub/", false),
        ])
    );
}

#[test]
fn a_directory_that_ends_one_match_may_start_another() {
    let pat = Pattern::Alternatives(vec![
        constant("./lib/"),
        Pattern::Concatenation(vec![constant("./lib/x"), Pattern::Dynamic]),
    ]);
    assert!(pat.is_match("./lib/xa"));
    assert_eq!(
        planned(&pat, "./"),
        Some(vec![step("lib/", true), step("lib/", false)])
    );
    let entries = vec![entry("xa", EntryKind::File, 4)];
    let below = list_directory(&pat, "./lib/", false, 3, 1, &entries);
    assert_eq!(below.results, vec![(1, file("./lib/xa", 4))]);
}

#[test]
fn a_directory_that_is_searched_is_looked_up_where_it_matches() {
    let pat = Pattern::Alternatives(vec![Pattern::Concatenation(vec![
        constant("./lib/"),
        Pattern::Dynamic,
    ])]);
    assert!(pat.is_match("./lib/"));
    assert_eq!(
        planned(&pat, "./"),
        Some(vec![step("lib/", true), step("lib/", false)])
    );
    let pat = Pattern::Concatenation(vec![constant("./lib/"), Pattern::Dynamic, constant("x")]);
    assert!(!pat.is_match("./lib/"));
    assert_eq!(planned(&pat, "./"), Some(vec![step("lib/", false)]));
}

#[test]
fn only_matches_are_planned_as_ends() {
    let pat = Pattern::Alternatives(vec![Pattern::Concatenation(vec![
        Pattern::Dynamic,
        constant("/lib/"),
        constant("a.map"),
    ])]);
    assert_eq!(pat.next_constants("d/lib/"), Some(vec![("a.map", true)]));
    assert!(!pat.is_match("d/lib/a.map"));
    assert_eq!(planned(&pat, "d/lib/"), Some(vec![]));
    // An empty segment stops a match, but not the listing of constants.
    let pat = Pattern::Alternatives(vec![Pattern::Concatenation(vec![
        Pattern::Dynamic,
        constant("lib/"),
        constant("a"),
    ])]);
    assert_eq!(pat.next_constants("d//lib/"), Some(vec![("a", true)]));
    assert!(!pat.is_match("d//lib/a"));
    assert_eq!(planned(&pat, "d//lib/"), Some(vec![]));
}

#[test]
fn a_plan_leads_to_every_match() {
    let pat = Pattern::Alternatives(vec![
        constant("./a.js"),
        Pattern::Concatenation(vec![constant("./lib/"), Pattern::Dynamic, constant(".js")]),
        Pattern::Concatenation(vec![constant("./sub/b"), Pattern::Dynamic]),
    ]);
    let steps = planned(&pat, "./").unwrap();
    for rest in ["a.js", "lib/x.js", "lib/y/z.js", "sub/b", "sub/bc/d"] {
        assert!(pat.is_match(&format!("./{}", rest)));
        assert!(steps.iter().any(|step| if step.until_end {
            step.path == rest
        } else {
            rest.starts_with(step.path.as_str()) && rest.len() > step.path.len()
        }));
    }
}

#[test]
fn a_constant_without_a_slash_cannot_be_planned() {
    let pat = Pattern::Alternatives(vec![
        constant("./a.js"),
        Pattern::Concatenation(vec![constant("./lib"), Pattern::Dynamic]),
    ]);
    assert_eq!(planned(&pat, "./"), None);
    assert_eq!(planned(&scripts(), "./"), None);
    assert_eq!(planned(&scripts(), "."), Some(vec![step("/", false)]));
}

#[test]
fn a_directory_offers_itself_and_its_parent() {
    let up = Effect::Descend { force: false };
    assert_eq!(
        relatives("", false, 1, 2),
        vec![
            candidate("..", Query::Match, Effect::Directory, 2),
            candidate("../", Query::Match, Effect::Directory, 2),
            candidate("../", Query::MatchOrOthers, up, 2),
            candidate(".", Query::Match, Effect::Directory, 1),
            candidate("./", Query::Match, Effect::Directory, 1),
            candidate("./", Query::MatchOrOthers, up, 1),
        ]
    );
    let stay = Effect::Descend { force: true };
    assert_eq!(
        relatives("a", true, 1, 2),
        vec![
            candidate("a.", Query::Match, Effect::Directory, 1),
            candidate("a/", Query::Match, Effect::Directory, 1),
            candidate("a/", Query::MatchOrOthers, stay, 1),
            candidate("a./", Query::Match, Effect::Directory, 1),
            candidate("a./", Query::MatchOrOthers, stay, 1),
        ]
    );
}

#[test]
fn an_entry_offers_what_its_kind_allows() {
    assert_eq!(
        entry_candidates("./", "é.js", EntryKind::File, 7),
        vec![candidate("./é.js", Query::Match, Effect::File, 7)]
    );
    let down = Effect::Descend { force: true };
    assert_eq!(
        entry_candidates("./", "lib", EntryKind::Directory, 7),
        vec![
            candidate("./lib", Query::Match, Effect::Directory, 7),
            candidate("./lib/", Query::Match, Effect::Directory, 7),
            candidate("./lib/", Query::MatchOrOthers, down, 7),
        ]
    );
    assert_eq!(
        entry_candidates("", "lib/", EntryKind::Directory, 7)[0],
        candidate("lib", Query::Match, Effect::Directory, 7)
    );
    let either = Effect::Link { directory_only: false };
    let below = Effect::Link { directory_only: true };
    assert_eq!(
        entry_candidates("", "link", EntryKind::Symlink, 7),
        vec![
            candidate("link", Query::Match, either, 7),
            candidate("link/", Query::Match, below, 7),
        ]
    );
    assert_eq!(entry_candidates("", "x", EntryKind::Other, 7), vec![]);
}

#[test]
fn candidates_are_held_against_the_pattern() {
    let pat = Pattern::Alternatives(vec![constant("b"), constant("ab")]);
    let matching = candidate("ab", Query::Match, Effect::File, 0);
    assert_eq!(matching.position(&pat), Some(1));
    let partial = candidate("a", Query::Match, Effect::File, 0);
    assert_eq!(partial.position(&pat), None);
    let start = candidate("a", Query::MatchOrOthers, Effect::File, 0);
    assert_eq!(start.position(&pat), Some(1));
}

#[test]
fn a_directory_is_searched_by_its_entries() {
    let entries = vec![
        entry("index.js", EntryKind::File, 10),
        entry("index.css", EntryKind::File, 11),
        entry("lib", EntryKind::Directory, 12),
        entry("node_modules", EntryKind::Directory, 13),
        entry("socket", EntryKind::Other, 14),
    ];
    let search = list_directory(&scripts(), "./", false, 1, 2, &entries);
    assert_eq!(search.results, vec![(0, file("./index.js", 10))]);
    assert_eq!(search.nested, vec![(0, request(12, "./lib/", true))]);
    let top = list_directory(&scripts(), "", false, 1, 2, &entries);
    assert_eq!(top.results, vec![]);
    assert_eq!(top.nested, vec![(0, request(1, "./", false))]);
    assert!(top.is_delegated());
}

#[test]
fn a_forced_search_does_not_go_up() {
    let pat = Pattern::Alternatives(vec![
        Pattern::Concatenation(vec![constant("./"), Pattern::Dynamic]),
        constant("../a"),
        constant("./../a"),
        constant(".."),
    ]);
    let free = list_directory(&pat, "", false, 1, 2, &vec![]);
    assert_eq!(free.results, vec![(3, directory("..", 2)), (0, directory("./", 1))]);
    assert_eq!(
        free.nested,
        vec![(1, request(2, "../", false)), (0, request(1, "./", false))]
    );
    let forced = list_directory(&pat, "", true, 1, 2, &vec![]);
    assert_eq!(forced.results, vec![(0, directory("./", 1))]);
    assert_eq!(forced.nested, vec![(0, request(1, "./", true))]);
    // The search that comes of it does not leave the directory either.
    let below = list_directory(&pat, "./", true, 1, 2, &vec![]);
    assert_eq!(below.results, vec![]);
    assert_eq!(below.nested, vec![]);
    let leaving = list_directory(&pat, "./", false, 1, 2, &vec![]);
    assert_eq!(leaving.nested, vec![(2, request(2, "./../", false))]);
}

#[test]
fn links_are_reported_and_not_followed() {
    let open = Pattern::Concatenation(vec![constant("./"), Pattern::Dynamic]);
    let mut link = entry("l", EntryKind::Symlink, 5);
    link.target = LinkTarget::Directory;
    let mut entries = vec![link];
    let search = list_directory(&open, "./", true, 1, 2, &entries);
    assert_eq!(
        search.results,
        vec![(0, directory("./l", 5)), (0, directory("./l/", 5))]
    );
    assert_eq!(search.nested, vec![]);
    // A link that is no match is not reported, though the pattern may go on below it.
    assert!(scripts().could_match("./l/"));
    assert!(!scripts().is_match("./l/"));
    let search = list_directory(&scripts(), "./", true, 1, 2, &entries);
    assert_eq!(search.results, vec![]);
    assert_eq!(search.nested, vec![]);
    entries[0].target = LinkTarget::File;
    let search = list_directory(&open, "./", true, 1, 2, &entries);
    assert_eq!(search.results, vec![(0, file("./l", 5))]);
    entries[0].target = LinkTarget::Broken;
    let search = list_directory(&open, "./", true, 1, 2, &entries);
    assert_eq!(search.results, vec![]);
}

#[test]
fn targets_are_wanted_where_they_matter() {
    assert!(wants_target(&constant("./l"), "./", "l"));
    assert!(wants_target(&constant("./l/"), "./", "l"));
    assert!(wants_target(&scripts(), "./", "l.js"));
    assert!(!wants_target(&scripts(), "./", "l"));
    assert!(!wants_target(&constant("./m"), "./", "l"));
    assert!(!wants_target(&scripts(), "./", ".l"));
}

#[test]
fn what_was_looked_up_is_reported_by_its_kind() {
    let mut search = Search::new();
    let ends = step("é.js", true);
    search.record_probe("./", &ends, 3, EntryKind::File, LinkTarget::Broken);
    search.record_probe("./", &ends, 4, EntryKind::Directory, LinkTarget::Broken);
    search.record_probe("./", &ends, 5, EntryKind::Symlink, LinkTarget::File);
    search.record_probe("./", &ends, 6, EntryKind::Symlink, LinkTarget::Directory);
    search.record_probe("./", &ends, 7, EntryKind::Symlink, LinkTarget::Broken);
    search.record_probe("./", &ends, 8, EntryKind::Other, LinkTarget::File);
    assert_eq!(
        search.results,
        vec![
            (0, file("./é.js", 3)),
            (0, directory("./é.js", 4)),
            (0, file("./é.js", 5)),
            (0, directory("./é.js", 6)),
        ]
    );
    search.record_descent("./", &step("lib/", false), 9, true);
    assert_eq!(search.nested, vec![(0, request(9, "./lib/", true))]);
    assert!(!search.is_delegated());
}

#[test]
fn only_what_is_inside_counts_for_a_forced_search() {
    assert!(admits(false, false));
    assert!(admits(false, true));
    assert!(!admits(true, false));
    assert!(admits(true, true));
}

#[test]
fn one_candidate_is_recorded_by_its_effect() {
    let mut search = Search::new();
    let below = Effect::Link { directory_only: true };
    search.record(2, candidate("a", Query::Match, Effect::File, 1), LinkTarget::Broken);
    search.record(3, candidate("b/", Query::Match, below, 1), LinkTarget::File);
    search.record(
        4,
        candidate("c/", Query::MatchOrOthers, Effect::Descend { force: true }, 9),
        LinkTarget::Broken,
    );
    assert_eq!(search.results, vec![(2, file("a", 1))]);
    assert_eq!(search.nested, vec![(4, request(9, "c/", true))]);
}

#[test]
fn reports_are_sorted_like_tuples() {
    let results = vec![
        (1, file("a", 0)),
        (0, directory("a", 0)),
        (0, file("é", 2)),
        (0, file("z", 9)),
        (0, file("z", 1)),
        (0, file("z/a", 0)),
        (0, file("Z", 0)),
    ];
    let below = PatternMatches(vec![file("y", 0), directory("0", 0)]);
    let mut expected = results.clone();
    expected.push((0, file("y", 0)));
    expected.push((0, directory("0", 0)));
    expected.sort();
    let expected: Vec<PatternMatch> = expected.into_iter().map(|(_, found)| found).collect();
    let PatternMatches(found) = finish(results, vec![(0, below)]);
    assert_eq!(found, expected);
    assert_eq!(
        found,
        vec![
            file("Z", 0),
            file("y", 0),
            file("z", 1),
            file("z", 9),
            file("z/a", 0),
            file("é", 2),
            directory("0", 0),
            directory("a", 0),
            file("a", 0),
        ]
    );
}

#[test]
fn a_single_search_below_is_handed_on_as_it_is() {
    let below = PatternMatches(vec![file("b", 0), file("a", 0)]);
    let PatternMatches(found) = finish(vec![], vec![(3, below)]);
    assert_eq!(found, vec![file("b", 0), file("a", 0)]);
    let first = PatternMatches(vec![file("b", 0), file("a", 0)]);
    let second = PatternMatches(vec![file("c", 0)]);
    let PatternMatches(found) = finish(vec![], vec![(3, first), (1, second)]);
    assert_eq!(found, vec![file("c", 0), file("a", 0), file("b", 0)]);
    let PatternMatches(found) = finish(vec![], vec![]);
    assert_eq!(found, vec![]);
}

#[test]
fn a_listing_leads_to_every_match() {
    let pat = Pattern::Concatenation(vec![
        constant("./"),
        Pattern::Dynamic,
        constant("/lib/index.js"),
    ]);
    let value = "./x/lib/index.js";
    assert!(pat.is_match(value));
    let top = list_directory(&pat, "", false, 1, 2, &vec![]);
    assert_eq!(top.nested, vec![(0, request(1, "./", false))]);
    let entries = vec![entry("x", EntryKind::Directory, 3)];
    let first = list_directory(&pat, "./", false, 1, 2, &entries);
    assert_eq!(first.nested, vec![(0, request(3, "./x/", true))]);
    let entries = vec![entry("lib", EntryKind::Directory, 4)];
    let second = list_directory(&pat, "./x/", true, 3, 1, &entries);
    assert_eq!(second.nested, vec![(0, request(4, "./x/lib/", true))]);
    let entries = vec![entry("index.js", EntryKind::File, 5)];
    let third = list_directory(&pat, "./x/lib/", true, 4, 3, &entries);
    assert_eq!(third.results, vec![(0, file(value, 5))]);
}

#[test]
fn a_plan_may_pass_over_what_runs_through_a_barrier() {
    let pat = Pattern::Alternatives(vec![Pattern::Concatenation(vec![
        Pattern::Dynamic,
        constant("/../b"),
    ])]);
    assert!(pat.is_match("a/../b"));
    assert!(!pat.could_match("a/../"));
    assert_eq!(planned(&pat, "a/../"), Some(vec![]));
}

#[test]
fn the_directory_itself_is_reported_where_it_matches() {
    let pat = Pattern::Alternatives(vec![
        constant("a/"),
        constant("a./"),
        Pattern::Concatenation(vec![constant("b"), Pattern::Dynamic]),
        Pattern::Concatenation(vec![constant("a"), Pattern::Dynamic]),
    ]);
    let search = list_directory(&pat, "a", true, 1, 2, &vec![]);
    assert_eq!(
        search.results,
        vec![(0, directory("a/", 1)), (1, directory("a./", 1))]
    );
    assert_eq!(
        search.nested,
        vec![(0, request(1, "a/", true)), (1, request(1, "a./", true))]
    );
}
