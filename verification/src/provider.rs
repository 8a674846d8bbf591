//! Decisions and text of the projects provider: the list of known projects,
//! their display lines, and the paths it previews.

use crate::text::{str_starts_with, string_views};
use vstd::prelude::*;

verus! {

/// A project: a name and the directory it lives in.
#[derive(Debug)]
pub struct Project {
    pub name: String,
    pub path: String,
}

/// The state of the projects provider. `C` is the handle of a running
/// searcher.
#[derive(Debug)]
pub struct ProjectsProvider<C> {
    pub projects: Vec<Project>,
    pub searcher_control: Option<C>,
}

/// What the provider does with the current query.
#[derive(Clone, Copy, Debug, PartialEq, Eq, Structural)]
pub enum QueryAction {
    /// The query is empty: list all projects.
    InitializeProvider,
    /// Filter the projects by the query.
    ProcessQuery,
}

/// The syntax to highlight a preview with.
#[derive(Clone, Copy, Debug, PartialEq, Eq, Structural)]
pub enum PreviewSyntax {
    /// The syntax of the projects list, for a directory.
    Projects,
    /// The syntax that the file's name calls for.
    OfFile,
    /// No syntax: the path is neither a directory nor a file.
    NoSyntax,
}

/// `name` joined to the directory `base` as a path is: an absolute `name`
/// replaces `base`, and a separator is put between them unless `base` is
/// empty or already ends in one.
pub open spec fn joined_path(base: Seq<char>, name: Seq<char>) -> Seq<char> {
    if name.len() > 0 && name[0] == '/' {
        name
    } else if base.len() == 0 || base.last() == '/' {
        base + name
    } else {
        base + seq!['/'] + name
    }
}

/// The line that lists a project: its name, a tab and its path.
pub open spec fn entry_line(p: Project) -> Seq<char> {
    p.name@ + seq!['\t'] + p.path@
}

/// The text after the first tab of `s`, if `s` has a tab.
pub open spec fn after_first_tab(s: Seq<char>) -> Option<Seq<char>>
    decreases s.len(),
{
    if s.len() == 0 {
        None
    } else if s[0] == '\t' {
        Some(s.drop_first())
    } else {
        after_first_tab(s.drop_first())
    }
}

/// The action for a query.
pub open spec fn action_for(query: Seq<char>) -> QueryAction {
    if query.len() == 0 {
        QueryAction::InitializeProvider
    } else {
        QueryAction::ProcessQuery
    }
}

/// Whether a list of match indices is not empty.
pub open spec fn has_indices() -> spec_fn(Vec<usize>) -> bool {
    |v: Vec<usize>| v@.len() > 0
}

/// Joins `name` to the directory `base` as a path.
pub fn join_path(base: &str, name: &str) -> (r: String)
    ensures
        r@ == joined_path(base@, name@),
{
    if str_starts_with(name, "/") {
        proof {
            reveal_strlit("/");
            assert(name@[0] == "/"@[0]);
        }
        return String::from_str(name);
    }
    proof {
        reveal_strlit("/");
        if name@.len() > 0 {
            assert(name@[0] != '/') by {
                if name@[0] == '/' {
                    assert("/"@.is_prefix_of(name@));
                }
            }
        }
    }
    let n = base.unicode_len();
    let mut r = String::from_str(base);
    if n > 0 && base.get_char(n - 1) != '/' {
        r.append("/");
    }
    r.append(name);
    r
}

/// The directory that holds the projects, inside the data directory.
pub fn projects_path(data_dir: &str) -> (r: String)
    ensures
        r@ == joined_path(data_dir@, "projects"@),
{
    join_path(data_dir, "projects")
}

/// The action for the current query: list everything when it is empty,
/// filter otherwise.
pub fn query_action(query: &str) -> (r: QueryAction)
    ensures
        r == action_for(query@),
{
    if query.is_empty() {
        QueryAction::InitializeProvider
    } else {
        QueryAction::ProcessQuery
    }
}

/// The project named on a display line: the text after its first tab.
pub fn parse_current_line(curline: &str) -> (r: Option<String>)
    ensures
        match r {
            Some(x) => after_first_tab(curline@) == Some(x@),
            None => after_first_tab(curline@) is None,
        },
{
    let n = curline.unicode_len();
    let mut i: usize = 0;
    proof {
        assert(curline@.skip(0) =~= curline@);
    }
    while i < n
        invariant
            n == curline@.len(),
            i <= n,
            after_first_tab(curline@) == after_first_tab(curline@.skip(i as int)),
        decreases n - i,
    {
        if curline.get_char(i) == '\t' {
            let rest = curline.substring_char(i + 1, n);
            proof {
                assert(curline@.skip(i as int).drop_first() =~= curline@.subrange(
                    i + 1,
                    n as int,
                ));
            }
            return Some(String::from_str(rest));
        }
        proof {
            assert(curline@.skip(i as int).drop_first() =~= curline@.skip(i + 1));
        }
        i += 1;
    }
    None
}

/// The path to preview for the project on the current line, inside the
/// projects directory; nothing when the line names no project.
pub fn preview_target_path(projects_dir: &str, project: &str) -> (r: Option<String>)
    ensures
        match r {
            Some(x) => project@.len() > 0 && x@ == joined_path(projects_dir@, project@),
            None => project@.len() == 0,
        },
{
    if project.is_empty() {
        None
    } else {
        Some(join_path(projects_dir, project))
    }
}

/// The syntax of a preview: the projects syntax for a directory, the file's
/// own for a file, none otherwise.
pub fn preview_syntax(is_dir: bool, is_file: bool) -> (r: PreviewSyntax)
    ensures
        r == (if is_dir {
            PreviewSyntax::Projects
        } else if is_file {
            PreviewSyntax::OfFile
        } else {
            PreviewSyntax::NoSyntax
        }),
{
    if is_dir {
        PreviewSyntax::Projects
    } else if is_file {
        PreviewSyntax::OfFile
    } else {
        PreviewSyntax::NoSyntax
    }
}

/// The lists of match indices that are not empty, in order.
pub fn non_empty_indices(indices: Vec<Vec<usize>>) -> (r: Vec<Vec<usize>>)
    ensures
        r@ == indices@.filter(has_indices()),
{
    let ghost orig = indices@;
    let n = indices.len();
    let mut rest = indices;
    let mut kept: Vec<Vec<usize>> = Vec::new();
    let mut i: usize = 0;
    while i < n
        invariant
            n == orig.len(),
            i <= n,
            rest@ == orig.skip(i as int),
            kept@ == orig.take(i as int).filter(has_indices()),
        decreases n - i,
    {
        let e = rest.remove(0);
        proof {
            assert(e == orig[i as int]);
            assert(rest@ =~= orig.skip(i + 1));
            assert(orig.take(i + 1) =~= orig.take(i as int).push(e));
            orig.take(i as int).lemma_filter_push(e, has_indices());
        }
        if e.len() > 0 {
            kept.push(e);
        }
        i += 1;
    }
    proof {
        assert(orig.take(n as int) =~= orig);
    }
    kept
}

impl Project {
    /// The line that lists this project: its name, a tab and its path.
    pub fn entry_line(&self) -> (r: String)
        ensures
            r@ == entry_line(*self),
    {
        let mut r = self.name.clone();
        r.append("\t");
        r.append(self.path.as_str());
        proof {
            reveal_strlit("\t");
        }
        r
    }
}

impl<C> ProjectsProvider<C> {
    /// A provider with no projects and no running searcher.
    pub fn new() -> (r: Self)
        ensures
            r.projects@.len() == 0,
            r.searcher_control is None,
    {
        ProjectsProvider { projects: Vec::new(), searcher_control: None }
    }

    /// The display lines of all projects, in order.
    pub fn entry_lines(&self) -> (r: Vec<String>)
        ensures
            r@.len() == self.projects@.len(),
            forall|i: int| 0 <= i < r@.len() ==> r@[i]@ == entry_line(#[trigger] self.projects@[i]),
    {
        let n = self.projects.len();
        let mut out: Vec<String> = Vec::new();
        let mut i: usize = 0;
        while i < n
            invariant
                n == self.projects@.len(),
                i <= n,
                out@.len() == i,
                forall|j: int|
                    0 <= j < i ==> out@[j]@ == entry_line(#[trigger] self.projects@[j]),
            decreases n - i,
        {
            out.push(self.projects[i].entry_line());
            i += 1;
        }
        out
    }

    /// The names of all projects, in order: what a query is matched against.
    pub fn source_names(&self) -> (r: Vec<String>)
        ensures
            string_views(r@) == self.projects@.map_values(|p: Project| p.name@),
    {
        let n = self.projects.len();
        let mut out: Vec<String> = Vec::new();
        let mut i: usize = 0;
        while i < n
            invariant
                n == self.projects@.len(),
                i <= n,
                string_views(out@) == self.projects@.take(i as int).map_values(
                    |p: Project| p.name@,
                ),
            decreases n - i,
        {
            out.push(self.projects[i].name.clone());
            proof {
                assert(self.projects@.take(i + 1).map_values(|p: Project| p.name@)
                    =~= self.projects@.take(i as int).map_values(|p: Project| p.name@).push(
                    self.projects@[i as int].name@,
                ));
                assert(string_views(out@) =~= string_views(out@.drop_last()).push(out@.last()@));
            }
            i += 1;
        }
        proof {
            assert(self.projects@.take(n as int) =~= self.projects@);
        }
        out
    }

    /// Takes the handle of the running searcher, leaving none; the caller
    /// stops the searcher.
    pub fn take_searcher_control(&mut self) -> (r: Option<C>)
        ensures
            r == old(self).searcher_control,
            final(self).searcher_control is None,
            final(self).projects == old(self).projects,
    {
        self.searcher_control.take()
    }
}

} // verus!
