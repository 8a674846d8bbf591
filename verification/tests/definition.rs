use maple_core::definition::{
    build_full_regexp, definitions_and_references, get_definition_rules, is_comment,
    DefinitionKind, DefinitionRegexp, DefinitionRules, DefinitionSearchResult, Definitions,
    LanguageRules, MatchKind, Occurrences,
};
use maple_core::rg::{Match, Word};

fn kind(s: &str) -> DefinitionKind {
    DefinitionKind(s.to_string())
}

fn regexps(rs: &[&str]) -> DefinitionRegexp {
    DefinitionRegexp(rs.iter().map(|r| r.to_string()).collect())
}

fn mat(path: &str, line_number: u64, line: &str) -> Match {
    Match {
        path: path.to_string(),
        line_number,
        column: 1,
        line: line.to_string(),
    }
}

fn sample_rules() -> LanguageRules {
    let js = DefinitionRules(vec![
        (kind("function"), regexps(&["function\\\\s+JJJ\\\\b", "JJJ\\\\s*=\\\\s*function"])),
        (kind("variable"), regexps(&["\\\\s*JJJ\\\\s*=[^=]"])),
    ]);
    let rust = DefinitionRules(vec![(kind("function"), regexps(&["fn\\\\s+JJJ"]))]);
    LanguageRules(vec![
        ("javascript".to_string(), js),
        ("rust".to_string(), rust),
    ])
}

#[test]
fn test_match_kind_display_and_from() {
    let k: MatchKind = MatchKind::from(kind("function"));
    assert_eq!(k.to_display_string(), "function");
    assert_eq!(MatchKind::Reference.to_display_string(), "refs");
    assert_eq!(MatchKind::Occurrence.to_display_string(), "grep");
    assert!(k == MatchKind::Definition(kind("function")));
    assert!(k != MatchKind::Reference);
    assert_eq!(kind("type").as_ref(), "type");
}

#[test]
fn test_definition_regexp_iter() {
    let r = regexps(&["a", "b"]);
    let v: Vec<&String> = r.iter().collect();
    assert_eq!(v, vec!["a", "b"]);
}

#[test]
fn test_get_definition_rules_by_language_and_extension() {
    let rules = sample_rules();
    let rust = get_definition_rules(&rules, "rust").expect("rust rules");
    assert_eq!(rust.0.len(), 1);
    let js = get_definition_rules(&rules, "js").expect("js maps to javascript");
    assert_eq!(js.0.len(), 2);
    assert!(get_definition_rules(&rules, "javascript").is_some());
    assert!(get_definition_rules(&rules, "go").is_none());
    assert!(get_definition_rules(&LanguageRules(vec![]), "js").is_none());
}

#[test]
fn test_later_language_rules_override_earlier_ones() {
    let first = DefinitionRules(vec![(kind("function"), regexps(&["one"]))]);
    let second = DefinitionRules(vec![(kind("function"), regexps(&["two"]))]);
    let rules = LanguageRules(vec![("c".to_string(), first), ("c".to_string(), second)]);
    let word = Word { raw: "w".to_string() };
    assert_eq!(
        build_full_regexp(&rules, "c", &kind("function"), &word),
        Some("two".to_string())
    );
}

#[test]
fn test_build_full_regexp_replaces_placeholders() {
    let rules = sample_rules();
    let word = Word { raw: "foo".to_string() };
    assert_eq!(
        build_full_regexp(&rules, "js", &kind("function"), &word),
        Some("function\\s+foo\\b|foo\\s*=\\s*function".to_string())
    );
    assert_eq!(
        build_full_regexp(&rules, "rust", &kind("function"), &word),
        Some("fn\\s+foo".to_string())
    );
    assert_eq!(build_full_regexp(&rules, "rust", &kind("variable"), &word), None);
    assert_eq!(build_full_regexp(&rules, "go", &kind("function"), &word), None);
    let empty = LanguageRules(vec![(
        "x".to_string(),
        DefinitionRules(vec![(kind("k"), regexps(&[]))]),
    )]);
    assert_eq!(build_full_regexp(&empty, "x", &kind("k"), &word), Some(String::new()));
}

#[test]
fn test_is_comment_skips_leading_white_space() {
    let comments = ["//", "#"];
    assert!(is_comment(&mat("a.rs", 1, "   // foo"), &comments));
    assert!(is_comment(&mat("a.rs", 1, "\t# foo"), &comments));
    assert!(!is_comment(&mat("a.rs", 1, "let x = 1; // foo"), &comments));
    assert!(!is_comment(&mat("a.rs", 1, "/ x"), &comments));
    assert!(!is_comment(&mat("a.rs", 1, "   // foo"), &[]));
}

#[test]
fn test_flatten_and_occurrences() {
    let defs = Definitions {
        defs: vec![
            DefinitionSearchResult {
                kind: kind("function"),
                matches: vec![mat("a", 1, "fn foo"), mat("a", 9, "fn foo2")],
            },
            DefinitionSearchResult { kind: kind("type"), matches: vec![] },
            DefinitionSearchResult { kind: kind("const"), matches: vec![mat("b", 2, "const FOO")] },
        ],
    };
    let flat = defs.flatten();
    assert_eq!(flat.len(), 3);
    assert!(flat[0] == mat("a", 1, "fn foo"));
    assert!(flat[2] == mat("b", 2, "const FOO"));

    let mut occ = Occurrences(vec![mat("a", 1, "fn foo"), mat("c", 3, "foo()"), mat("c", 4, "foo")]);
    assert!(occ.contains(&mat("c", 3, "foo()")));
    assert!(!occ.contains(&mat("c", 3, "foo( )")));
    occ.retain(|m| m.line_number != 3);
    let inner = occ.into_inner();
    assert_eq!(inner.len(), 2);
    assert!(inner[0] == mat("a", 1, "fn foo"));
    assert!(inner[1] == mat("c", 4, "foo"));
}

#[test]
fn test_definitions_and_references_split() {
    let defs = Definitions {
        defs: vec![
            DefinitionSearchResult {
                kind: kind("function"),
                matches: vec![mat("a", 1, "fn foo"), mat("a", 9, "fn foobar")],
            },
            DefinitionSearchResult { kind: kind("const"), matches: vec![mat("b", 2, "const FOOBAR")] },
        ],
    };
    let occ = Occurrences(vec![mat("a", 1, "fn foo"), mat("c", 3, "foo()"), mat("d", 5, "foo + 1")]);
    let res = definitions_and_references(defs, occ);
    assert_eq!(res.len(), 2);
    let funcs = res
        .iter()
        .find(|(k, _)| *k == MatchKind::Definition(kind("function")))
        .expect("function definitions");
    assert_eq!(funcs.1.len(), 1);
    assert!(funcs.1[0] == mat("a", 1, "fn foo"));
    let refs = res
        .iter()
        .find(|(k, _)| *k == MatchKind::Reference)
        .expect("references");
    assert_eq!(refs.1.len(), 2);
    assert!(refs.1[0] == mat("c", 3, "foo()"));
    assert!(refs.1[1] == mat("d", 5, "foo + 1"));
    assert!(res.iter().all(|(k, _)| *k != MatchKind::Definition(kind("const"))));
}

#[test]
fn test_definitions_and_references_never_empty() {
    let res = definitions_and_references(Definitions { defs: vec![] }, Occurrences(vec![]));
    assert_eq!(res.len(), 1);
    assert!(res[0].0 == MatchKind::Reference);
    assert!(res[0].1.is_empty());
}

#[test]
fn test_later_result_of_a_kind_overrides() {
    let defs = Definitions {
        defs: vec![
            DefinitionSearchResult { kind: kind("function"), matches: vec![mat("a", 1, "x")] },
            DefinitionSearchResult { kind: kind("function"), matches: vec![mat("a", 2, "y")] },
        ],
    };
    let occ = Occurrences(vec![mat("a", 1, "x"), mat("a", 2, "y")]);
    let res = definitions_and_references(defs, occ);
    assert_eq!(res.len(), 2);
    let funcs = res
        .iter()
        .find(|(k, _)| *k == MatchKind::Definition(kind("function")))
        .unwrap();
    assert_eq!(funcs.1.len(), 1);
    assert!(funcs.1[0] == mat("a", 2, "y"));
}
