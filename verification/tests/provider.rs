use maple_core::provider::{
    join_path, non_empty_indices, parse_current_line, preview_syntax, preview_target_path,
    projects_path, query_action, PreviewSyntax, Project, ProjectsProvider, QueryAction,
};
use maple_core::text::str_equal;

fn project(name: &str, path: &str) -> Project {
    Project { name: name.to_string(), path: path.to_string() }
}

#[test]
fn test_new_provider_is_empty() {
    let p: ProjectsProvider<u32> = ProjectsProvider::new();
    assert!(p.projects.is_empty());
    assert!(p.searcher_control.is_none());
}

#[test]
fn test_take_searcher_control() {
    let mut p: ProjectsProvider<u32> = ProjectsProvider::new();
    p.searcher_control = Some(7);
    assert_eq!(p.take_searcher_control(), Some(7));
    assert_eq!(p.searcher_control, None);
    assert_eq!(p.take_searcher_control(), None);
}

#[test]
fn test_projects_path() {
    assert_eq!(projects_path("/home/u/.local/share/vimclap"), "/home/u/.local/share/vimclap/projects");
    assert_eq!(projects_path("/data/"), "/data/projects");
    assert_eq!(projects_path(""), "projects");
}

#[test]
fn test_join_path() {
    assert_eq!(join_path("/a", "b"), "/a/b");
    assert_eq!(join_path("/a", "/b"), "/b");
    assert_eq!(join_path("/a", ""), "/a/");
    assert_eq!(join_path("/a/", "b/c"), "/a/b/c");
}

#[test]
fn test_entry_lines_and_names() {
    let mut p: ProjectsProvider<()> = ProjectsProvider::new();
    p.projects.push(project("clap", "/src/clap"));
    p.projects.push(project("verus", "/src/verus"));
    assert_eq!(p.entry_lines(), vec!["clap\t/src/clap", "verus\t/src/verus"]);
    assert_eq!(p.source_names(), vec!["clap", "verus"]);
    assert_eq!(project("a", "b").entry_line(), "a\tb");
}

#[test]
fn test_parse_current_line() {
    assert_eq!(parse_current_line("clap\t/src/clap"), Some("/src/clap".to_string()));
    assert_eq!(parse_current_line("a\tb\tc"), Some("b\tc".to_string()));
    assert_eq!(parse_current_line("no tab"), None);
    assert_eq!(parse_current_line("tail\t"), Some(String::new()));
    assert_eq!(parse_current_line(""), None);
}

#[test]
fn test_query_action() {
    assert_eq!(query_action(""), QueryAction::InitializeProvider);
    assert_eq!(query_action("cl"), QueryAction::ProcessQuery);
}

#[test]
fn test_preview_target_path() {
    assert_eq!(preview_target_path("/d/projects", ""), None);
    assert_eq!(preview_target_path("/d/projects", "clap"), Some("/d/projects/clap".to_string()));
}

#[test]
fn test_non_empty_indices() {
    let v = vec![vec![1, 2], vec![], vec![3], vec![]];
    assert_eq!(non_empty_indices(v), vec![vec![1, 2], vec![3]]);
    assert_eq!(non_empty_indices(vec![]), Vec::<Vec<usize>>::new());
}

#[test]
fn test_str_equal() {
    assert!(str_equal("abc", "abc"));
    assert!(!str_equal("abc", "abd"));
    assert!(!str_equal("ab", "abc"));
    assert!(str_equal("", ""));
}

#[test]
fn test_preview_syntax() {
    assert_eq!(preview_syntax(true, false), PreviewSyntax::Projects);
    assert_eq!(preview_syntax(false, true), PreviewSyntax::OfFile);
    assert_eq!(preview_syntax(false, false), PreviewSyntax::NoSyntax);
}
