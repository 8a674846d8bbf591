//! Definition rules of languages and the split of search matches into
//! definitions and references.

use crate::projects::select;
use crate::rg::{Match, MatchView, Word};
use crate::text::{
    join_strings, joined, replaced, str_equal, str_replace, string_views, trimmed_start,
};
use vstd::prelude::*;
use vstd::std_specs::cmp::PartialEqSpecImpl;
use vstd::std_specs::convert::FromSpecImpl;
use vstd::std_specs::iter::IteratorSpec;

verus! {

broadcast use vstd::seq_lib::group_seq_properties;

/// The kind of a definition, such as `function` or `type`.
#[derive(Debug, Eq, Hash)]
pub struct DefinitionKind(pub String);

impl View for DefinitionKind {
    type V = Seq<char>;

    open spec fn view(&self) -> Seq<char> {
        self.0@
    }
}

impl Clone for DefinitionKind {
    fn clone(&self) -> (r: Self)
        ensures
            r == *self,
    {
        DefinitionKind(self.0.clone())
    }
}

impl PartialEq for DefinitionKind {
    fn eq(&self, other: &Self) -> (r: bool) {
        self.0 == other.0
    }
}

impl PartialEqSpecImpl for DefinitionKind {
    open spec fn obeys_eq_spec() -> bool {
        true
    }

    open spec fn eq_spec(&self, other: &DefinitionKind) -> bool {
        self@ == other@
    }
}

impl DefinitionKind {
    /// The kind's name.
    pub fn as_ref(&self) -> (r: &str)
        ensures
            r@ == self@,
    {
        self.0.as_str()
    }
}

/// Kind of a match found by the search.
#[derive(Debug, Eq, Hash)]
pub enum MatchKind {
    /// Matched by a definition rule of the given kind.
    Definition(DefinitionKind),
    /// An occurrence that is no definition.
    Reference,
    /// A plain text match, found when the rules found nothing.
    Occurrence,
}

/// The plain content of a [`MatchKind`].
pub enum MatchKindView {
    Definition(Seq<char>),
    Reference,
    Occurrence,
}

impl View for MatchKind {
    type V = MatchKindView;

    open spec fn view(&self) -> MatchKindView {
        match self {
            MatchKind::Definition(k) => MatchKindView::Definition(k@),
            MatchKind::Reference => MatchKindView::Reference,
            MatchKind::Occurrence => MatchKindView::Occurrence,
        }
    }
}

impl Clone for MatchKind {
    fn clone(&self) -> (r: Self)
        ensures
            r == *self,
    {
        match self {
            MatchKind::Definition(k) => MatchKind::Definition(k.clone()),
            MatchKind::Reference => MatchKind::Reference,
            MatchKind::Occurrence => MatchKind::Occurrence,
        }
    }
}

impl PartialEq for MatchKind {
    fn eq(&self, other: &Self) -> (r: bool) {
        match (self, other) {
            (MatchKind::Definition(a), MatchKind::Definition(b)) => a.0 == b.0,
            (MatchKind::Reference, MatchKind::Reference) => true,
            (MatchKind::Occurrence, MatchKind::Occurrence) => true,
            _ => false,
        }
    }
}

impl PartialEqSpecImpl for MatchKind {
    open spec fn obeys_eq_spec() -> bool {
        true
    }

    open spec fn eq_spec(&self, other: &MatchKind) -> bool {
        self@ == other@
    }
}

impl From<DefinitionKind> for MatchKind {
    fn from(def_kind: DefinitionKind) -> (r: Self) {
        MatchKind::Definition(def_kind)
    }
}

impl FromSpecImpl<DefinitionKind> for MatchKind {
    open spec fn obeys_from_spec() -> bool {
        true
    }

    open spec fn from_spec(def_kind: DefinitionKind) -> MatchKind {
        MatchKind::Definition(def_kind)
    }
}

/// The text that names a match kind to users.
pub open spec fn kind_text(k: MatchKindView) -> Seq<char> {
    match k {
        MatchKindView::Definition(name) => name,
        MatchKindView::Reference => "refs"@,
        MatchKindView::Occurrence => "grep"@,
    }
}

impl MatchKind {
    /// The text that names this kind: the definition kind's name, `refs` or
    /// `grep`.
    pub fn to_display_string(&self) -> (r: String)
        ensures
            r@ == kind_text(self@),
    {
        match self {
            MatchKind::Definition(k) => k.0.clone(),
            MatchKind::Reference => String::from_str("refs"),
            MatchKind::Occurrence => String::from_str("grep"),
        }
    }
}

/// The regular expressions of one definition kind.
#[derive(Clone, Debug)]
pub struct DefinitionRegexp(pub Vec<String>);

impl View for DefinitionRegexp {
    type V = Seq<Seq<char>>;

    open spec fn view(&self) -> Seq<Seq<char>> {
        string_views(self.0@)
    }
}

impl DefinitionRegexp {
    /// An iterator over the regular expressions, in their order.
    pub fn iter(&self) -> (r: std::slice::Iter<'_, String>)
        ensures
            r.remaining() == self.0@.as_ref(),
    {
        let s = self.0.as_slice();
        proof {
            broadcast use vstd::std_specs::slice::axiom_spec_slice_iter;
        }
        s.iter()
    }
}


/// The map that a list of pairs describes: a later pair of a key overrides
/// an earlier one.
pub open spec fn pairs_map<K, V>(s: Seq<(K, V)>) -> Map<K, V>
    decreases s.len(),
{
    if s.len() == 0 {
        Map::empty()
    } else {
        pairs_map(s.drop_last()).insert(s.last().0, s.last().1)
    }
}

proof fn lemma_pairs_map_last<K, V>(s: Seq<(K, V)>, k: K, j: int)
    requires
        0 <= j < s.len(),
        s[j].0 == k,
        forall|x: int| j < x < s.len() ==> s[x].0 != k,
    ensures
        pairs_map(s).contains_key(k),
        pairs_map(s)[k] == s[j].1,
    decreases s.len(),
{
    if j < s.len() - 1 {
        lemma_pairs_map_last(s.drop_last(), k, j);
    }
}

proof fn lemma_pairs_map_absent<K, V>(s: Seq<(K, V)>, k: K)
    requires
        forall|x: int| 0 <= x < s.len() ==> s[x].0 != k,
    ensures
        !pairs_map(s).contains_key(k),
    decreases s.len(),
{
    if s.len() > 0 {
        lemma_pairs_map_absent(s.drop_last(), k);
    }
}

/// Definition rules of a language: the regular expressions of each
/// definition kind.
#[derive(Clone, Debug)]
pub struct DefinitionRules(pub Vec<(DefinitionKind, DefinitionRegexp)>);

/// The plain pairs of a list of definition rules.
pub open spec fn rule_pairs(s: Seq<(DefinitionKind, DefinitionRegexp)>) -> Seq<
    (Seq<char>, Seq<Seq<char>>),
> {
    s.map_values(|p: (DefinitionKind, DefinitionRegexp)| (p.0@, p.1@))
}

impl View for DefinitionRules {
    type V = Map<Seq<char>, Seq<Seq<char>>>;

    open spec fn view(&self) -> Map<Seq<char>, Seq<Seq<char>>> {
        pairs_map(rule_pairs(self.0@))
    }
}

impl DefinitionRules {
    /// The regular expressions of `kind`, if the rules have that kind.
    fn kind_rules_for(&self, kind: &DefinitionKind) -> (r: Option<&DefinitionRegexp>)
        ensures
            match r {
                Some(x) => self@.contains_key(kind@) && x@ == self@[kind@],
                None => !self@.contains_key(kind@),
            },
    {
        let ghost ps = rule_pairs(self.0@);
        let n = self.0.len();
        let mut i = n;
        while i > 0
            invariant
                n == self.0@.len(),
                ps == rule_pairs(self.0@),
                i <= n,
                forall|x: int| i <= x < n ==> ps[x].0 != kind@,
            decreases i,
        {
            i -= 1;
            if self.0[i].0 == *kind {
                proof {
                    lemma_pairs_map_last(ps, kind@, i as int);
                }
                return Some(&self.0[i].1);
            }
        }
        proof {
            lemma_pairs_map_absent(ps, kind@);
        }
        None
    }
}

/// Definition rules of every language, by the language's ripgrep name.
pub struct LanguageRules(pub Vec<(String, DefinitionRules)>);

/// The plain pairs of a list of language rules.
pub open spec fn language_pairs(s: Seq<(String, DefinitionRules)>) -> Seq<
    (Seq<char>, Map<Seq<char>, Seq<Seq<char>>>),
> {
    s.map_values(|p: (String, DefinitionRules)| (p.0@, p.1@))
}

impl View for LanguageRules {
    type V = Map<Seq<char>, Map<Seq<char>, Seq<Seq<char>>>>;

    open spec fn view(&self) -> Map<Seq<char>, Map<Seq<char>, Seq<Seq<char>>>> {
        pairs_map(language_pairs(self.0@))
    }
}

impl LanguageRules {
    /// The rules of the language `lang`, if there are any.
    fn rules_for(&self, lang: &str) -> (r: Option<&DefinitionRules>)
        ensures
            match r {
                Some(x) => self@.contains_key(lang@) && x@ == self@[lang@],
                None => !self@.contains_key(lang@),
            },
    {
        let ghost ps = language_pairs(self.0@);
        let n = self.0.len();
        let mut i = n;
        while i > 0
            invariant
                n == self.0@.len(),
                ps == language_pairs(self.0@),
                i <= n,
                forall|x: int| i <= x < n ==> ps[x].0 != lang@,
            decreases i,
        {
            i -= 1;
            if str_equal(self.0[i].0.as_str(), lang) {
                proof {
                    lemma_pairs_map_last(ps, lang@, i as int);
                }
                return Some(&self.0[i].1);
            }
        }
        proof {
            lemma_pairs_map_absent(ps, lang@);
        }
        None
    }
}

/// The language that a file extension stands for, where it differs.
pub open spec fn extension_language(ext: Seq<char>) -> Option<Seq<char>> {
    if ext == "js"@ {
        Some("javascript"@)
    } else {
        None
    }
}

fn language_of_extension(ext: &str) -> (r: Option<&'static str>)
    ensures
        match r {
            Some(l) => extension_language(ext@) == Some(l@),
            None => extension_language(ext@) is None,
        },
{
    if str_equal(ext, "js") {
        Some("javascript")
    } else {
        None
    }
}

/// The rules that apply to `lang`: its own, or else those of the language
/// its extension stands for.
pub open spec fn rules_of(
    rules: Map<Seq<char>, Map<Seq<char>, Seq<Seq<char>>>>,
    lang: Seq<char>,
) -> Option<Map<Seq<char>, Seq<Seq<char>>>> {
    if rules.contains_key(lang) {
        Some(rules[lang])
    } else {
        match extension_language(lang) {
            Some(l) => if rules.contains_key(l) {
                Some(rules[l])
            } else {
                None
            },
            None => None,
        }
    }
}

/// Returns the definition rules given `lang`, a ripgrep language name or a
/// file extension.
pub fn get_definition_rules<'a>(rules: &'a LanguageRules, lang: &str) -> (r: Option<
    &'a DefinitionRules,
>)
    ensures
        match r {
            Some(x) => rules_of(rules@, lang@) == Some(x@),
            None => rules_of(rules@, lang@) is None,
        },
{
    match rules.rules_for(lang) {
        Some(r) => Some(r),
        None => match language_of_extension(lang) {
            Some(l) => rules.rules_for(l),
            None => None,
        },
    }
}

/// A rule's regular expression made ready for ripgrep: escaped backslashes
/// are unescaped and the placeholder `JJJ` becomes the word.
pub open spec fn instantiated(regexp: Seq<char>, word: Seq<char>) -> Seq<char> {
    replaced(replaced(regexp, "\\\\"@, "\\"@), "JJJ"@, word)
}

/// The full regular expression for `kind` in `lang`: the alternatives of the
/// kind's rules, each instantiated with `word`.
pub open spec fn full_regexp(
    rules: Map<Seq<char>, Map<Seq<char>, Seq<Seq<char>>>>,
    lang: Seq<char>,
    kind: Seq<char>,
    word: Seq<char>,
) -> Option<Seq<char>> {
    match rules_of(rules, lang) {
        Some(d) => if d.contains_key(kind) {
            Some(joined(d[kind].map_values(|x: Seq<char>| instantiated(x, word)), "|"@))
        } else {
            None
        },
        None => None,
    }
}

/// Builds the regular expression that finds the definitions of `word` of
/// kind `kind` in `lang`, if the rules cover them.
pub fn build_full_regexp(
    rules: &LanguageRules,
    lang: &str,
    kind: &DefinitionKind,
    word: &Word,
) -> (r: Option<String>)
    ensures
        match r {
            Some(x) => full_regexp(rules@, lang@, kind@, word.raw@) == Some(x@),
            None => full_regexp(rules@, lang@, kind@, word.raw@) is None,
        },
{
    let defs = get_definition_rules(rules, lang)?;
    let regexps = defs.kind_rules_for(kind)?;
    let n = regexps.0.len();
    let mut parts: Vec<String> = Vec::new();
    let mut i: usize = 0;
    proof {
        reveal_strlit("\\\\");
        reveal_strlit("JJJ");
    }
    while i < n
        invariant
            n == regexps.0@.len(),
            i <= n,
            parts@.len() == i,
            "\\\\"@.len() > 0,
            "JJJ"@.len() > 0,
            forall|j: int| 0 <= j < i ==> parts@[j]@ == instantiated(regexps.0@[j]@, word.raw@),
        decreases n - i,
    {
        let unescaped = str_replace(regexps.0[i].as_str(), "\\\\", "\\");
        let part = str_replace(unescaped.as_str(), "JJJ", word.raw.as_str());
        parts.push(part);
        i += 1;
    }
    let r = join_strings(&parts, "|");
    proof {
        assert(string_views(parts@) =~= regexps@.map_values(
            |x: Seq<char>| instantiated(x, word.raw@),
        ));
    }
    Some(r)
}

/// Returns true if the matched line is a comment: it starts, after its
/// leading white space, with one of the comment markers.
pub fn is_comment(mat: &Match, comments: &[&str]) -> (r: bool)
    ensures
        r == exists|i: int|
            0 <= i < comments@.len() && (#[trigger] comments@[i])@.is_prefix_of(
                trimmed_start(mat.line@),
            ),
{
    let n = comments.len();
    let mut i: usize = 0;
    while i < n
        invariant
            n == comments@.len(),
            i <= n,
            forall|j: int|
                0 <= j < i ==> !(#[trigger] comments@[j])@.is_prefix_of(trimmed_start(mat.line@)),
        decreases n - i,
    {
        if mat.line_starts_with(comments[i]) {
            return true;
        }
        i += 1;
    }
    false
}


/// Search results of a specific definition kind.
#[derive(Clone, Debug)]
pub struct DefinitionSearchResult {
    pub kind: DefinitionKind,
    pub matches: Vec<Match>,
}

/// The search results of all definition kinds.
#[derive(Clone, Debug)]
pub struct Definitions {
    pub defs: Vec<DefinitionSearchResult>,
}

/// The matches of all results, result after result.
pub open spec fn all_matches(defs: Seq<DefinitionSearchResult>) -> Seq<Match>
    decreases defs.len(),
{
    if defs.len() == 0 {
        Seq::empty()
    } else {
        all_matches(defs.drop_last()) + defs.last().matches@
    }
}

impl Definitions {
    /// All matches of all kinds, in order, in one list.
    pub fn flatten(&self) -> (r: Vec<Match>)
        ensures
            r@ == all_matches(self.defs@),
    {
        let n = self.defs.len();
        let mut out: Vec<Match> = Vec::new();
        let mut i: usize = 0;
        while i < n
            invariant
                n == self.defs@.len(),
                i <= n,
                out@ == all_matches(self.defs@.take(i as int)),
            decreases n - i,
        {
            let ms = &self.defs[i].matches;
            let m = ms.len();
            let mut j: usize = 0;
            let ghost base = out@;
            while j < m
                invariant
                    m == ms@.len(),
                    j <= m,
                    out@ == base + ms@.take(j as int),
                decreases m - j,
            {
                out.push(ms[j].clone());
                proof {
                    assert(ms@.take(j + 1) =~= ms@.take(j as int).push(ms@[j as int]));
                }
                j += 1;
            }
            proof {
                assert(ms@.take(m as int) =~= ms@);
                assert(self.defs@.take(i + 1).drop_last() =~= self.defs@.take(i as int));
            }
            i += 1;
        }
        proof {
            assert(self.defs@.take(n as int) =~= self.defs@);
        }
        out
    }
}

/// Whether some match of `s` has the content `m`.
pub open spec fn has_match(s: Seq<Match>, m: MatchView) -> bool {
    exists|i: int| 0 <= i < s.len() && (#[trigger] s[i])@ == m
}

/// Whether a match is among those of `s`.
pub open spec fn among(s: Seq<Match>) -> spec_fn(Match) -> bool {
    |m: Match| has_match(s, m@)
}

/// Whether a match is outside those of `s`.
pub open spec fn not_among(s: Seq<Match>) -> spec_fn(Match) -> bool {
    |m: Match| !has_match(s, m@)
}

/// Whether some match of `v` has the content `m`.
fn contains_match(v: &Vec<Match>, m: &Match) -> (r: bool)
    ensures
        r == has_match(v@, m@),
{
    let n = v.len();
    let mut i: usize = 0;
    while i < n
        invariant
            n == v@.len(),
            i <= n,
            forall|j: int| 0 <= j < i ==> (#[trigger] v@[j])@ != m@,
        decreases n - i,
    {
        if v[i] == *m {
            return true;
        }
        i += 1;
    }
    false
}

/// `after` keeps, in order, the items of `before` on which `f` answered true;
/// `f` was asked once about each item.
pub open spec fn retained_by<F: Fn(&Match) -> bool>(after: Seq<Match>, before: Seq<Match>, f: F) -> bool {
    exists|keep: Seq<bool>|
        {
            &&& keep.len() == before.len()
            &&& forall|i: int| 0 <= i < before.len() ==> f.ensures((&before[i],), #[trigger] keep[i])
            &&& after == select(before, keep)
        }
}

/// Occurrences of the searched word.
#[derive(Clone, Debug)]
pub struct Occurrences(pub Vec<Match>);

impl Occurrences {
    /// Whether some occurrence is the match `m`.
    pub fn contains(&self, m: &Match) -> (r: bool)
        ensures
            r == has_match(self.0@, m@),
    {
        contains_match(&self.0, m)
    }

    /// Keeps the occurrences on which `f` answers true.
    pub fn retain<F: Fn(&Match) -> bool>(&mut self, f: F)
        requires
            forall|m: &Match| f.requires((m,)),
        ensures
            retained_by(final(self).0@, old(self).0@, f),
    {
        let mut rest: Vec<Match> = Vec::new();
        std::mem::swap(&mut rest, &mut self.0);
        let ghost orig = rest@;
        let n = rest.len();
        let mut kept: Vec<Match> = Vec::new();
        let ghost mut keep: Seq<bool> = Seq::empty();
        let mut i: usize = 0;
        while i < n
            invariant
                n == orig.len(),
                i <= n,
                forall|m: &Match| f.requires((m,)),
                rest@ == orig.skip(i as int),
                keep.len() == i,
                forall|j: int| 0 <= j < i ==> f.ensures((&orig[j],), #[trigger] keep[j]),
                kept@ == select(orig.take(i as int), keep),
            decreases n - i,
        {
            let e = rest.remove(0);
            let b = f(&e);
            proof {
                assert(e == orig[i as int]);
                assert(orig.take(i + 1).drop_last() =~= orig.take(i as int));
                assert(rest@ =~= orig.skip(i + 1));
                lemma_select_prefix_extend(orig.take(i as int), keep, b);
                keep = keep.push(b);
                assert(orig.take(i + 1) =~= orig.take(i as int).push(e));
            }
            if b {
                kept.push(e);
            }
            i += 1;
        }
        proof {
            assert(orig.take(n as int) =~= orig);
        }
        self.0 = kept;
    }

    /// The occurrences as a list.
    pub fn into_inner(self) -> (r: Vec<Match>)
        ensures
            r@ == self.0@,
    {
        self.0
    }
}

proof fn lemma_select_prefix_extend<A>(s: Seq<A>, keep: Seq<bool>, b: bool)
    requires
        keep.len() == s.len(),
    ensures
        forall|x: A|
            #[trigger] select(s.push(x), keep.push(b)) == if b {
                select(s, keep).push(x)
            } else {
                select(s, keep)
            },
{
    assert forall|x: A|
        #[trigger] select(s.push(x), keep.push(b)) == if b {
            select(s, keep).push(x)
        } else {
            select(s, keep)
        } by {
        lemma_select_keep_prefix(s, keep, keep.push(b));
        assert(s.push(x).drop_last() =~= s);
    }
}

proof fn lemma_select_keep_prefix<A>(s: Seq<A>, k1: Seq<bool>, k2: Seq<bool>)
    requires
        k1.len() >= s.len(),
        k2.len() >= s.len(),
        forall|i: int| 0 <= i < s.len() ==> k1[i] == k2[i],
    ensures
        select(s, k1) == select(s, k2),
    decreases s.len(),
{
    if s.len() > 0 {
        lemma_select_keep_prefix(s.drop_last(), k1, k2);
    }
}


proof fn lemma_select_is_filter<A>(s: Seq<A>, keep: Seq<bool>, p: spec_fn(A) -> bool)
    requires
        keep.len() == s.len(),
        forall|i: int| 0 <= i < s.len() ==> keep[i] == p(s[i]),
    ensures
        select(s, keep) == s.filter(p),
    decreases s.len(),
{
    reveal_with_fuel(Seq::filter, 1);
    if s.len() > 0 {
        let t = s.drop_last();
        lemma_select_keep_prefix(t, keep, keep.take(t.len() as int));
        lemma_select_is_filter(t, keep.take(t.len() as int), p);
    }
}

/// The matches of `matches` that are among those of `pool`, in order.
fn keep_among(matches: Vec<Match>, pool: &Vec<Match>) -> (r: Vec<Match>)
    ensures
        r@ == matches@.filter(among(pool@)),
{
    let ghost orig = matches@;
    let n = matches.len();
    let mut rest = matches;
    let mut kept: Vec<Match> = Vec::new();
    let mut i: usize = 0;
    while i < n
        invariant
            n == orig.len(),
            i <= n,
            rest@ == orig.skip(i as int),
            kept@ == orig.take(i as int).filter(among(pool@)),
        decreases n - i,
    {
        let e = rest.remove(0);
        let b = contains_match(pool, &e);
        proof {
            assert(e == orig[i as int]);
            assert(rest@ =~= orig.skip(i + 1));
            assert(orig.take(i + 1) =~= orig.take(i as int).push(e));
            orig.take(i as int).lemma_filter_push(e, among(pool@));
        }
        if b {
            kept.push(e);
        }
        i += 1;
    }
    proof {
        assert(orig.take(n as int) =~= orig);
    }
    kept
}

/// `r` lists, under distinct kinds, exactly the entries of the map `m`.
pub open spec fn lists_map(r: Seq<(MatchKind, Vec<Match>)>, m: Map<MatchKindView, Seq<Match>>) -> bool {
    &&& forall|i: int, j: int| 0 <= i < j < r.len() ==> (#[trigger] r[i]).0@ != (#[trigger] r[j]).0@
    &&& forall|i: int|
        0 <= i < r.len() ==> m.contains_key((#[trigger] r[i]).0@) && m[r[i].0@] == r[i].1@
    &&& forall|k: MatchKindView|
        m.contains_key(k) ==> exists|i: int| 0 <= i < r.len() && (#[trigger] r[i]).0@ == k
}

/// Enters `v` under the kind `k`, replacing what was listed under it.
fn insert_kind(
    res: &mut Vec<(MatchKind, Vec<Match>)>,
    k: MatchKind,
    v: Vec<Match>,
    Ghost(m): Ghost<Map<MatchKindView, Seq<Match>>>,
)
    requires
        lists_map(old(res)@, m),
    ensures
        lists_map(final(res)@, m.insert(k@, v@)),
{
    let ghost r0 = res@;
    let ghost kv = k@;
    let ghost vv = v@;
    let n = res.len();
    let mut i: usize = 0;
    while i < n
        invariant
            n == res@.len(),
            res@ == r0,
            kv == k@,
            vv == v@,
            lists_map(r0, m),
            i <= n,
            forall|j: int| 0 <= j < i ==> (#[trigger] r0[j]).0@ != kv,
        decreases n - i,
    {
        if res[i].0 == k {
            res.set(i, (k, v));
            proof {
                let r1 = res@;
                let m1 = m.insert(kv, vv);
                assert(r1 == r0.update(i as int, r1[i as int]));
                assert forall|a: int, b: int| 0 <= a < b < r1.len() implies (#[trigger] r1[a]).0@
                    != (#[trigger] r1[b]).0@ by {
                    assert(r0[a].0@ != r0[b].0@);
                }
                assert forall|a: int| 0 <= a < r1.len() implies m1.contains_key(
                    (#[trigger] r1[a]).0@,
                ) && m1[r1[a].0@] == r1[a].1@ by {
                    if a != i {
                        assert(r0[a].0@ != r0[i as int].0@);
                    }
                }
                assert forall|key: MatchKindView| m1.contains_key(key) implies exists|a: int|
                    0 <= a < r1.len() && (#[trigger] r1[a]).0@ == key by {
                    if key == kv {
                        assert(r1[i as int].0@ == key);
                    } else {
                        let a = choose|a: int| 0 <= a < r0.len() && (#[trigger] r0[a]).0@ == key;
                        assert(a != i);
                        assert(r1[a].0@ == key);
                    }
                }
            }
            return ;
        }
        i += 1;
    }
    res.push((k, v));
    proof {
        let r1 = res@;
        let m1 = m.insert(kv, vv);
        assert forall|a: int, b: int| 0 <= a < b < r1.len() implies (#[trigger] r1[a]).0@ != (
        #[trigger] r1[b]).0@ by {
            if b < r0.len() {
                assert(r0[a].0@ != r0[b].0@);
            } else {
                assert(r0[a].0@ != kv);
            }
        }
        assert forall|a: int| 0 <= a < r1.len() implies m1.contains_key((#[trigger] r1[a]).0@)
            && m1[r1[a].0@] == r1[a].1@ by {
            if a < r0.len() {
                assert(r1[a] == r0[a]);
                assert(r0[a].0@ != kv);
            }
        }
        assert forall|key: MatchKindView| m1.contains_key(key) implies exists|a: int|
            0 <= a < r1.len() && (#[trigger] r1[a]).0@ == key by {
            if key == kv {
                assert(r1[r0.len() as int].0@ == key);
            } else {
                let a = choose|a: int| 0 <= a < r0.len() && (#[trigger] r0[a]).0@ == key;
                assert(r1[a] == r0[a]);
            }
        }
    }
}

/// The definitions that are also occurrences.
pub open spec fn positive_defs(defs: Seq<DefinitionSearchResult>, occ: Seq<Match>) -> Seq<Match> {
    all_matches(defs).filter(among(occ))
}

/// Each kind of `defs` mapped to its matches among `positive`; kinds left
/// with no match are left out, and a later result of a kind overrides an
/// earlier one.
pub open spec fn definition_map(defs: Seq<DefinitionSearchResult>, positive: Seq<Match>) -> Map<
    MatchKindView,
    Seq<Match>,
>
    decreases defs.len(),
{
    if defs.len() == 0 {
        Map::empty()
    } else {
        let m = definition_map(defs.drop_last(), positive);
        let d = defs.last();
        let kept = d.matches@.filter(among(positive));
        if kept.len() == 0 {
            m
        } else {
            m.insert(MatchKindView::Definition(d.kind@), kept)
        }
    }
}

/// The matches by kind: each definition kind with its definitions that are
/// also occurrences, and under `Reference` the occurrences that are no
/// definition.
pub open spec fn classified(defs: Seq<DefinitionSearchResult>, occ: Seq<Match>) -> Map<
    MatchKindView,
    Seq<Match>,
> {
    definition_map(defs, positive_defs(defs, occ)).insert(
        MatchKindView::Reference,
        occ.filter(not_among(all_matches(defs))),
    )
}

/// Splits the matches of a search into definitions and references. Of the
/// definitions, only those that are also occurrences are kept, by kind;
/// the occurrences that are no definition become the references.
pub fn definitions_and_references(definitions: Definitions, occurrences: Occurrences) -> (r: Vec<
    (MatchKind, Vec<Match>),
>)
    ensures
        lists_map(r@, classified(definitions.defs@, occurrences.0@)),
{
    let ghost defs0 = definitions.defs@;
    let ghost occ0 = occurrences.0@;
    let defs = definitions.flatten();
    let n = defs.len();
    let mut positive: Vec<Match> = Vec::new();
    let mut i: usize = 0;
    while i < n
        invariant
            n == defs@.len(),
            i <= n,
            occurrences.0@ == occ0,
            positive@ == defs@.take(i as int).filter(among(occ0)),
        decreases n - i,
    {
        let b = occurrences.contains(&defs[i]);
        proof {
            assert(defs@.take(i + 1) =~= defs@.take(i as int).push(defs@[i as int]));
            defs@.take(i as int).lemma_filter_push(defs@[i as int], among(occ0));
        }
        if b {
            positive.push(defs[i].clone());
        }
        i += 1;
    }
    proof {
        assert(defs@.take(n as int) =~= defs@);
    }
    let Definitions { defs: results } = definitions;
    let k = results.len();
    let mut rest = results;
    let mut res: Vec<(MatchKind, Vec<Match>)> = Vec::new();
    let mut j: usize = 0;
    while j < k
        invariant
            k == defs0.len(),
            j <= k,
            rest@ == defs0.skip(j as int),
            lists_map(res@, definition_map(defs0.take(j as int), positive@)),
        decreases k - j,
    {
        let DefinitionSearchResult { kind, matches } = rest.remove(0);
        proof {
            assert(defs0[j as int].kind == kind && defs0[j as int].matches == matches);
            assert(rest@ =~= defs0.skip(j + 1));
            assert(defs0.take(j + 1).drop_last() =~= defs0.take(j as int));
        }
        let kept = keep_among(matches, &positive);
        if kept.len() > 0 {
            insert_kind(
                &mut res,
                MatchKind::Definition(kind),
                kept,
                Ghost(definition_map(defs0.take(j as int), positive@)),
            );
        }
        j += 1;
    }
    proof {
        assert(defs0.take(k as int) =~= defs0);
    }
    let mut occ = occurrences;
    let not_a_definition = |m: &Match| -> (b: bool)
        ensures
            b == !has_match(defs@, m@),
        { !contains_match(&defs, m) };
    occ.retain(not_a_definition);
    proof {
        let keep = choose|keep: Seq<bool>|
            {
                &&& keep.len() == occ0.len()
                &&& forall|i: int|
                    0 <= i < occ0.len() ==> not_a_definition.ensures((&occ0[i],), #[trigger] keep[i])
                &&& occ.0@ == select(occ0, keep)
            };
        lemma_select_is_filter(occ0, keep, not_among(defs@));
    }
    insert_kind(&mut res, MatchKind::Reference, occ.into_inner(), Ghost(definition_map(defs0, positive@)));
    res
}


proof fn lemma_definition_map_entries(
    defs: Seq<DefinitionSearchResult>,
    positive: Seq<Match>,
    key: MatchKindView,
)
    requires
        definition_map(defs, positive).contains_key(key),
    ensures
        key is Definition,
        definition_map(defs, positive)[key].len() > 0,
        forall|i: int|
            0 <= i < definition_map(defs, positive)[key].len() ==> has_match(
                positive,
                (#[trigger] definition_map(defs, positive)[key][i])@,
            ),
    decreases defs.len(),
{
    let d = defs.last();
    let kept = d.matches@.filter(among(positive));
    if kept.len() > 0 && key == MatchKindView::Definition(d.kind@) {
        assert forall|i: int| 0 <= i < kept.len() implies has_match(positive, (#[trigger] kept[i])@) by {
            d.matches@.lemma_filter_pred(among(positive), i);
        }
    } else {
        lemma_definition_map_entries(defs.drop_last(), positive, key);
    }
}

/// What the split answers is never empty: the references are always listed,
/// so a search that found definitions or occurrences never falls back to a
/// plain text search.
pub proof fn lemma_references_always_listed(
    r: Seq<(MatchKind, Vec<Match>)>,
    defs: Seq<DefinitionSearchResult>,
    occ: Seq<Match>,
)
    requires
        lists_map(r, classified(defs, occ)),
    ensures
        r.len() > 0,
        exists|i: int| 0 <= i < r.len() && (#[trigger] r[i]).0@ == MatchKindView::Reference,
{
    assert(classified(defs, occ).contains_key(MatchKindView::Reference));
}

/// Every match listed under a definition kind is both a definition and an
/// occurrence, and no kind is left with an empty list.
pub proof fn lemma_listed_definitions_are_occurrences(
    defs: Seq<DefinitionSearchResult>,
    occ: Seq<Match>,
    key: MatchKindView,
    i: int,
)
    requires
        classified(defs, occ).contains_key(key),
        key != MatchKindView::Reference,
        0 <= i < classified(defs, occ)[key].len(),
    ensures
        key is Definition,
        has_match(occ, classified(defs, occ)[key][i]@),
        has_match(all_matches(defs), classified(defs, occ)[key][i]@),
{
    let pos = positive_defs(defs, occ);
    let all = all_matches(defs);
    lemma_definition_map_entries(defs, pos, key);
    let m = classified(defs, occ)[key][i];
    assert(definition_map(defs, pos)[key][i] == m);
    let j = choose|j: int| 0 <= j < pos.len() && (#[trigger] pos[j])@ == m@;
    all.lemma_filter_pred(among(occ), j);
    assert(pos.contains(pos[j]));
    all.lemma_filter_contains_rev(among(occ), pos[j]);
    let a = choose|a: int| 0 <= a < all.len() && all[a] == pos[j];
    assert(all[a]@ == m@);
}

/// The references are exactly the occurrences that are no definition, in
/// their order.
pub proof fn lemma_references_are_not_definitions(
    defs: Seq<DefinitionSearchResult>,
    occ: Seq<Match>,
    i: int,
)
    requires
        0 <= i < classified(defs, occ)[MatchKindView::Reference].len(),
    ensures
        !has_match(all_matches(defs), classified(defs, occ)[MatchKindView::Reference][i]@),
        occ.contains(classified(defs, occ)[MatchKindView::Reference][i]),
{
    let refs = occ.filter(not_among(all_matches(defs)));
    assert(classified(defs, occ)[MatchKindView::Reference] == refs);
    occ.lemma_filter_pred(not_among(all_matches(defs)), i);
    assert(refs.contains(refs[i]));
    occ.lemma_filter_contains_rev(not_among(all_matches(defs)), refs[i]);
}

/// Filters by two predicates that agree on every element give the same list.
proof fn lemma_filter_congruent(s: Seq<Match>, p: spec_fn(Match) -> bool, q: spec_fn(Match) -> bool)
    requires
        forall|i: int| 0 <= i < s.len() ==> p(s[i]) == q(s[i]),
    ensures
        s.filter(p) == s.filter(q),
    decreases s.len(),
{
    reveal_with_fuel(Seq::filter, 1);
    if s.len() > 0 {
        lemma_filter_congruent(s.drop_last(), p, q);
    }
}

/// Every match of every result is in the flattened list.
proof fn lemma_all_matches_members(defs: Seq<DefinitionSearchResult>)
    ensures
        forall|l: int, t: int|
            0 <= l < defs.len() && 0 <= t < defs[l].matches@.len() ==> all_matches(defs).contains(
                #[trigger] defs[l].matches@[t],
            ),
    decreases defs.len(),
{
    if defs.len() > 0 {
        let d = defs.drop_last();
        lemma_all_matches_members(d);
        let pre = all_matches(d);
        let last = defs.last().matches@;
        assert(all_matches(defs) == pre + last);
        assert forall|l: int, t: int|
            0 <= l < defs.len() && 0 <= t < defs[l].matches@.len() implies all_matches(
            defs,
        ).contains(#[trigger] defs[l].matches@[t]) by {
            if l < d.len() {
                assert(d[l] == defs[l]);
                assert(pre.contains(d[l].matches@[t]));
                let a = choose|a: int| 0 <= a < pre.len() && pre[a] == d[l].matches@[t];
                assert(all_matches(defs)[a] == pre[a]);
            } else {
                assert(all_matches(defs)[pre.len() + t] == last[t]);
            }
        }
    }
}

/// Whether some match of the flattened list has the content `v`: exactly
/// when some result of `defs` has a match with that content.
proof fn lemma_is_definition(defs: Seq<DefinitionSearchResult>, v: MatchView)
    ensures
        has_match(all_matches(defs), v) <==> exists|l: int, t: int|
            0 <= l < defs.len() && 0 <= t < defs[l].matches@.len() && (#[trigger] defs[l].matches@[t])@
                == v,
    decreases defs.len(),
{
    lemma_all_matches_members(defs);
    let all = all_matches(defs);
    if has_match(all, v) {
        let d = defs.drop_last();
        let pre = all_matches(d);
        let last = defs.last().matches@;
        assert(all == pre + last);
        let a = choose|a: int| 0 <= a < all.len() && (#[trigger] all[a])@ == v;
        if a < pre.len() {
            assert(all[a] == pre[a]);
            assert(has_match(pre, v));
            lemma_is_definition(d, v);
            let (l, t) = choose|l: int, t: int|
                0 <= l < d.len() && 0 <= t < d[l].matches@.len() && (#[trigger] d[l].matches@[t])@
                    == v;
            assert(d[l] == defs[l]);
            assert(defs[l].matches@[t]@ == v);
        } else {
            let l: int = defs.len() - 1;
            let t: int = a - pre.len();
            assert(all[a] == last[t]);
            assert(defs[l].matches@[t]@ == v);
        }
    }
    if exists|l: int, t: int|
        0 <= l < defs.len() && 0 <= t < defs[l].matches@.len() && (#[trigger] defs[l].matches@[t])@
            == v {
        let (l, t) = choose|l: int, t: int|
            0 <= l < defs.len() && 0 <= t < defs[l].matches@.len() && (#[trigger] defs[l].matches@[t])@
                == v;
        assert(all.contains(defs[l].matches@[t]));
        let a = choose|a: int| 0 <= a < all.len() && all[a] == defs[l].matches@[t];
        assert(all[a]@ == v);
    }
}

/// The references are exactly the occurrences, in their order, whose
/// content is that of no match of any definition result: an occurrence is
/// dropped only when it is itself a definition.
pub proof fn lemma_references_complete(defs: Seq<DefinitionSearchResult>, occ: Seq<Match>)
    ensures
        classified(defs, occ).contains_key(MatchKindView::Reference),
        classified(defs, occ)[MatchKindView::Reference] == occ.filter(
            |m: Match|
                !exists|l: int, t: int|
                    0 <= l < defs.len() && 0 <= t < defs[l].matches@.len() && (
                    #[trigger] defs[l].matches@[t])@ == m@,
        ),
{
    let p = |m: Match|
        !exists|l: int, t: int|
            0 <= l < defs.len() && 0 <= t < defs[l].matches@.len() && (
            #[trigger] defs[l].matches@[t])@ == m@;
    assert forall|i: int| 0 <= i < occ.len() implies not_among(all_matches(defs))(occ[i]) == p(
        occ[i],
    ) by {
        lemma_is_definition(defs, occ[i]@);
    }
    lemma_filter_congruent(occ, not_among(all_matches(defs)), p);
}

/// A result's matches among the positive definitions are exactly its
/// matches that are occurrences.
proof fn lemma_kept_is_occurrences(defs: Seq<DefinitionSearchResult>, occ: Seq<Match>, l: int)
    requires
        0 <= l < defs.len(),
    ensures
        defs[l].matches@.filter(among(positive_defs(defs, occ))) == defs[l].matches@.filter(
            |m: Match| exists|k: int| 0 <= k < occ.len() && (#[trigger] occ[k])@ == m@,
        ),
{
    let ms = defs[l].matches@;
    let all = all_matches(defs);
    let pos = positive_defs(defs, occ);
    let q = |m: Match| exists|k: int| 0 <= k < occ.len() && (#[trigger] occ[k])@ == m@;
    lemma_all_matches_members(defs);
    assert forall|t: int| 0 <= t < ms.len() implies among(pos)(ms[t]) == q(ms[t]) by {
        let m = ms[t];
        if has_match(pos, m@) {
            let p = choose|p: int| 0 <= p < pos.len() && (#[trigger] pos[p])@ == m@;
            all.lemma_filter_pred(among(occ), p);
        }
        if q(m) {
            assert(has_match(occ, m@));
            assert(all.contains(defs[l].matches@[t]));
            let a = choose|a: int| 0 <= a < all.len() && all[a] == m;
            all.lemma_filter_contains(among(occ), a);
            let p = choose|p: int| 0 <= p < pos.len() && pos[p] == m;
            assert(pos[p]@ == m@);
        }
    }
    lemma_filter_congruent(ms, among(pos), q);
}

/// The value of a kind in the definition map is what the last result of
/// that kind with kept matches keeps.
proof fn lemma_definition_map_value(
    defs: Seq<DefinitionSearchResult>,
    pos: Seq<Match>,
    kept: spec_fn(int) -> Seq<Match>,
    j: int,
)
    requires
        0 <= j < defs.len(),
        forall|l: int| 0 <= l < defs.len() ==> #[trigger] kept(l) == defs[l].matches@.filter(among(pos)),
        kept(j).len() > 0,
        forall|l: int|
            j < l < defs.len() && defs[l].kind@ == defs[j].kind@ ==> (#[trigger] kept(l)).len() == 0,
    ensures
        definition_map(defs, pos).contains_key(MatchKindView::Definition(defs[j].kind@)),
        definition_map(defs, pos)[MatchKindView::Definition(defs[j].kind@)] == kept(j),
    decreases defs.len(),
{
    let last = defs.len() - 1;
    assert(kept(last) == defs.last().matches@.filter(among(pos)));
    if j < last {
        let d = defs.drop_last();
        assert forall|l: int| 0 <= l < d.len() implies #[trigger] kept(l) == d[l].matches@.filter(
            among(pos),
        ) by {
            assert(d[l] == defs[l]);
        }
        lemma_definition_map_value(d, pos, kept, j);
    }
}

/// A kind is a key of the definition map exactly when some result of that
/// kind keeps a match.
proof fn lemma_definition_map_keys(
    defs: Seq<DefinitionSearchResult>,
    pos: Seq<Match>,
    key: MatchKindView,
)
    ensures
        definition_map(defs, pos).contains_key(key) <==> exists|l: int|
            0 <= l < defs.len() && MatchKindView::Definition((#[trigger] defs[l]).kind@) == key
                && defs[l].matches@.filter(among(pos)).len() > 0,
    decreases defs.len(),
{
    if defs.len() > 0 {
        let d = defs.drop_last();
        lemma_definition_map_keys(d, pos, key);
        if exists|l: int|
            0 <= l < d.len() && MatchKindView::Definition((#[trigger] d[l]).kind@) == key
                && d[l].matches@.filter(among(pos)).len() > 0 {
            let l = choose|l: int|
                0 <= l < d.len() && MatchKindView::Definition((#[trigger] d[l]).kind@) == key
                    && d[l].matches@.filter(among(pos)).len() > 0;
            assert(d[l] == defs[l]);
        }
        if exists|l: int|
            0 <= l < defs.len() && MatchKindView::Definition((#[trigger] defs[l]).kind@) == key
                && defs[l].matches@.filter(among(pos)).len() > 0 {
            let l = choose|l: int|
                0 <= l < defs.len() && MatchKindView::Definition((#[trigger] defs[l]).kind@) == key
                    && defs[l].matches@.filter(among(pos)).len() > 0;
            if l < d.len() {
                assert(d[l] == defs[l]);
            }
        }
    }
}

/// Every definition that is also an occurrence is kept. For a kind, the
/// last result of that kind with such matches gives its list: all of that
/// result's matches that are occurrences, in order; a kind is listed exactly
/// when some result of that kind has such matches. Besides the definition
/// kinds, only `Reference` is listed, never `Occurrence`.
pub proof fn lemma_definitions_complete(defs: Seq<DefinitionSearchResult>, occ: Seq<Match>, j: int)
    requires
        0 <= j < defs.len(),
        defs[j].matches@.filter(
            |m: Match| exists|k: int| 0 <= k < occ.len() && (#[trigger] occ[k])@ == m@,
        ).len() > 0,
        forall|l: int|
            j < l < defs.len() && defs[l].kind@ == defs[j].kind@ ==> (#[trigger] defs[l]).matches@.filter(
                |m: Match| exists|k: int| 0 <= k < occ.len() && (#[trigger] occ[k])@ == m@,
            ).len() == 0,
    ensures
        classified(defs, occ).contains_key(MatchKindView::Definition(defs[j].kind@)),
        classified(defs, occ)[MatchKindView::Definition(defs[j].kind@)] == defs[j].matches@.filter(
            |m: Match| exists|k: int| 0 <= k < occ.len() && (#[trigger] occ[k])@ == m@,
        ),
{
    let pos = positive_defs(defs, occ);
    let kept = |l: int| defs[l].matches@.filter(among(pos));
    assert forall|l: int| 0 <= l < defs.len() implies #[trigger] kept(l) == defs[l].matches@.filter(
        |m: Match| exists|k: int| 0 <= k < occ.len() && (#[trigger] occ[k])@ == m@,
    ) by {
        lemma_kept_is_occurrences(defs, occ, l);
    }
    lemma_definition_map_value(defs, pos, kept, j);
}

/// The listed kinds: `Reference` always, `Occurrence` never, and a
/// definition kind exactly when some result of that kind has a match that
/// is also an occurrence.
pub proof fn lemma_listed_kinds(defs: Seq<DefinitionSearchResult>, occ: Seq<Match>, name: Seq<char>)
    ensures
        classified(defs, occ).contains_key(MatchKindView::Reference),
        !classified(defs, occ).contains_key(MatchKindView::Occurrence),
        classified(defs, occ).contains_key(MatchKindView::Definition(name)) <==> exists|l: int|
            0 <= l < defs.len() && (#[trigger] defs[l]).kind@ == name && exists|t: int|
                0 <= t < defs[l].matches@.len() && exists|k: int|
                    0 <= k < occ.len() && (#[trigger] occ[k])@ == (#[trigger] defs[l].matches@[t])@,
{
    let pos = positive_defs(defs, occ);
    lemma_definition_map_keys(defs, pos, MatchKindView::Occurrence);
    lemma_definition_map_keys(defs, pos, MatchKindView::Definition(name));
    assert forall|l: int| 0 <= l < defs.len() implies (defs[l].matches@.filter(among(pos)).len() > 0
        <==> exists|t: int|
        0 <= t < defs[l].matches@.len() && exists|k: int|
            0 <= k < occ.len() && (#[trigger] occ[k])@ == (#[trigger] defs[l].matches@[t])@) by {
        lemma_kept_is_occurrences(defs, occ, l);
        let q = |m: Match| exists|k: int| 0 <= k < occ.len() && (#[trigger] occ[k])@ == m@;
        let ms = defs[l].matches@;
        if ms.filter(q).len() > 0 {
            ms.lemma_filter_pred(q, 0);
            assert(ms.filter(q).contains(ms.filter(q)[0]));
            ms.lemma_filter_contains_rev(q, ms.filter(q)[0]);
            let t = choose|t: int| 0 <= t < ms.len() && ms[t] == ms.filter(q)[0];
            assert(q(ms[t]));
        }
        if exists|t: int|
            0 <= t < ms.len() && exists|k: int| 0 <= k < occ.len() && (#[trigger] occ[k])@ == (
            #[trigger] ms[t])@ {
            let t = choose|t: int|
                0 <= t < ms.len() && exists|k: int|
                    0 <= k < occ.len() && (#[trigger] occ[k])@ == (#[trigger] ms[t])@;
            assert(q(ms[t]));
            ms.lemma_filter_contains(q, t);
        }
    }
}

/// The full regular expression of a covered kind has one alternative per
/// rule of that kind, in the rules' order: the `i`-th rule with its escaped
/// backslashes unescaped and `JJJ` replaced by the word.
pub proof fn lemma_full_regexp_alternatives(
    rules: Map<Seq<char>, Map<Seq<char>, Seq<Seq<char>>>>,
    lang: Seq<char>,
    kind: Seq<char>,
    word: Seq<char>,
    d: Map<Seq<char>, Seq<Seq<char>>>,
)
    requires
        rules_of(rules, lang) == Some(d),
        d.contains_key(kind),
    ensures
        full_regexp(rules, lang, kind, word) == Some(
            joined(
                Seq::new(
                    d[kind].len(),
                    |i: int| replaced(replaced(d[kind][i], "\\\\"@, "\\"@), "JJJ"@, word),
                ),
                "|"@,
            ),
        ),
{
    assert(d[kind].map_values(|x: Seq<char>| instantiated(x, word)) =~= Seq::new(
        d[kind].len(),
        |i: int| replaced(replaced(d[kind][i], "\\\\"@, "\\"@), "JJJ"@, word),
    ));
}

} // verus!
