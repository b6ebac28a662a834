//! Which npm packages first-party code reaches, read off the imports of its source and of the
//! installed packages.
use vstd::prelude::*;
use crate::cut;
use crate::cut::Class;
use crate::depgraph::{DepGraph, DepGraphM};
use crate::finding;
use crate::finding::{
    Ecosystem, Occurrence, OccurrenceM, ReachVerdict, ReachVerdictM, Reachability, ReachabilityM,
    VulnFinding, VulnFindingM,
};
use crate::reach;
use crate::reach::{SourceFile, SourceFileM};
use crate::report::{FleetReport, FleetReportM};
use crate::text;
use crate::value;

verus! {

// --- Imports in a text ---

/// The text in quotes that starts at `start`, after white space and opening brackets.
pub open spec fn quoted_at(s: Seq<char>, start: int) -> Option<Seq<char>> {
    let i = cut::run_end(s, start, Class::Gap);
    if i >= s.len() || !cut::in_class(Class::Quote, s[i]) {
        None
    } else {
        match text::seek(s, seq![s[i]], i + 1) {
            Some(j) => Some(s.subrange(i + 1, j)),
            None => None,
        }
    }
}

/// The text in quotes that starts at `start`, after white space and opening brackets.
pub fn quoted_after(s: &Vec<char>, start: usize) -> (r: Option<String>)
    ensures
        r.deep_view() == quoted_at(s@, start as int),
{
    if start >= s.len() {
        return None;
    }
    let i: usize = cut::run(s, start, Class::Gap);
    if i >= s.len() || !cut::is_in(Class::Quote, s[i]) {
        return None;
    }
    let mut quote: Vec<char> = Vec::new();
    quote.push(s[i]);
    assert(quote@ =~= seq![s@[i as int]]);
    match text::find(s, &quote, i + 1) {
        Some(j) => Some(text::text_of(s, i + 1, j)),
        None => None,
    }
}

/// The package that a module specifier names; none for a path.
pub open spec fn package_in(spec_text: Seq<char>) -> Option<Seq<char>> {
    if spec_text.len() == 0 || spec_text[0] == '.' || spec_text[0] == '/' {
        None
    } else if spec_text[0] == '@' {
        let parts = text::split_on(spec_text.skip(1), '/');
        if parts.len() < 2 || parts[0].len() == 0 || parts[1].len() == 0 {
            None
        } else {
            Some("@"@ + parts[0] + "/"@ + parts[1])
        }
    } else {
        let first = text::split_on(spec_text, '/')[0];
        if first.len() == 0 {
            None
        } else {
            Some(first)
        }
    }
}

/// The package that a module specifier names; none for a path.
pub fn bare_package(spec_text: &str) -> (r: Option<String>)
    ensures
        r.deep_view() == package_in(spec_text@),
{
    let v: Vec<char> = text::chars(spec_text);
    if v.len() == 0 || v[0] == '.' || v[0] == '/' {
        return None;
    }
    if v[0] == '@' {
        assert(v@.skip(1) =~= v@.subrange(1, v@.len() as int));
        let scoped: String = text::text_of(&v, 1, v.len());
        let parts: Vec<String> = cut::split(scoped.as_str(), '/');
        let ghost all = parts.deep_view();
        assert(all.len() == parts.len());
        if parts.len() < 2 {
            return None;
        }
        assert(all[0] == parts[0]@ && all[1] == parts[1]@);
        if parts[0].as_str().is_empty() || parts[1].as_str().is_empty() {
            return None;
        }
        let mut r: String = text::join("@", parts[0].as_str());
        r.append("/");
        r.append(parts[1].as_str());
        Some(r)
    } else {
        let parts: Vec<String> = cut::split(spec_text, '/');
        assert(parts.deep_view()[0] == parts[0]@);
        if parts[0].as_str().is_empty() {
            None
        } else {
            Some(parts[0].clone())
        }
    }
}

/// The packages named after the keyword at the places `at`.
pub open spec fn packages_at(s: Seq<char>, keyword: Seq<char>, at: Seq<int>) -> Seq<Seq<char>>
    decreases at.len(),
{
    if at.len() == 0 {
        Seq::empty()
    } else {
        let front = packages_at(s, keyword, at.drop_last());
        match quoted_at(s, at.last() + keyword.len()) {
            Some(q) => match package_in(q) {
                Some(p) => front.push(p),
                None => front,
            },
            None => front,
        }
    }
}

/// The packages named after a keyword wherever it stands.
pub open spec fn packages_after(s: Seq<char>, keyword: Seq<char>) -> Seq<Seq<char>> {
    packages_at(s, keyword, cut::hits(s, keyword, 0))
}

/// The packages that a text imports.
pub open spec fn imported_packages(s: Seq<char>) -> Seq<Seq<char>> {
    value::text_set(
        packages_after(s, "require("@) + packages_after(s, "from "@) + packages_after(s, "import("@)
            + packages_after(s, "from\t"@),
    )
}

fn collect_after(s: &Vec<char>, keyword: &str) -> (r: Vec<String>)
    requires
        keyword@.len() > 0,
    ensures
        r.deep_view() == packages_after(s@, keyword@),
{
    let k: Vec<char> = text::chars(keyword);
    let at: Vec<usize> = cut::find_all(s, &k);
    let ghost all = cut::hits(s@, keyword@, 0);
    let mut r: Vec<String> = Vec::new();
    let mut i: usize = 0;
    proof {
        assert(all.take(0) =~= Seq::empty());
        assert(r.deep_view() =~= Seq::empty());
    }
    while i < at.len()
        invariant
            i <= at.len(),
            k@ == keyword@,
            all == cut::hits(s@, keyword@, 0),
            at.len() == all.len(),
            forall|j: int|
                0 <= j < at.len() ==> at[j] == #[trigger] all[j] && at[j] + k.len() <= s.len(),
            r.deep_view() == packages_at(s@, keyword@, all.take(i as int)),
        decreases at.len() - i,
    {
        proof {
            assert(all.take(i + 1).drop_last() =~= all.take(i as int));
            assert(at[i as int] == all[i as int]);
        }
        if let Some(q) = quoted_after(s, at[i] + k.len()) {
            if let Some(p) = bare_package(q.as_str()) {
                let ghost before = r.deep_view();
                r.push(p);
                assert(r.deep_view() =~= before.push(p@));
            }
        }
        i += 1;
    }
    assert(all.take(i as int) =~= all);
    r
}

/// The packages that JavaScript text imports: what is in quotes after `require(`, `from` or
/// `import(`, reduced to the package.
pub fn import_packages(t: &str) -> (r: Vec<String>)
    ensures
        r.deep_view() == imported_packages(t@),
{
    let s: Vec<char> = text::chars(t);
    proof {
        reveal_strlit("require(");
        reveal_strlit("from ");
        reveal_strlit("import(");
        reveal_strlit("from\t");
    }
    let mut all: Vec<String> = collect_after(&s, "require(");
    value::append(&mut all, collect_after(&s, "from "));
    value::append(&mut all, collect_after(&s, "import("));
    value::append(&mut all, collect_after(&s, "from\t"));
    value::sort_texts(all)
}

// --- The import graph of a repository ---

/// What a [`InstalledSource`] stands for.
#[verifier::ext_equal]
pub struct InstalledSourceM {
    pub name: Seq<char>,
    pub files: Seq<SourceFileM>,
}

/// The files of an installed package, without what is installed inside it.
#[derive(Debug, PartialEq)]
pub struct InstalledSource {
    pub name: String,
    pub files: Vec<SourceFile>,
}

impl DeepView for InstalledSource {
    type V = InstalledSourceM;

    open spec fn deep_view(&self) -> InstalledSourceM {
        InstalledSourceM {
            name: self.name@,
            files: self.files.deep_view(),
        }
    }
}

/// Files of first-party source.
pub open spec fn source_extension(e: Seq<char>) -> bool {
    e == "js"@ || e == "mjs"@ || e == "cjs"@ || e == "ts"@ || e == "tsx"@ || e == "jsx"@
}

/// Files of installed packages that are read.
pub open spec fn dependency_extension(e: Seq<char>) -> bool {
    e == "js"@ || e == "mjs"@ || e == "cjs"@
}

pub open spec fn file_counts(f: SourceFileM, own: bool) -> bool {
    match reach::extension_of(f.name) {
        Some(e) => if own {
            source_extension(e)
        } else {
            dependency_extension(e)
        },
        None => false,
    }
}

/// Whether a file is read for imports; `own` for first-party source.
pub fn is_counted(name: &str, own: bool) -> (r: bool)
    ensures
        r == file_counts((SourceFileM { name: name@, text: Seq::empty() }), own),
{
    match reach::extension(name) {
        Some(e) => {
            let s: &str = e.as_str();
            let plain: bool = text::same(s, "js") || text::same(s, "mjs") || text::same(s, "cjs");
            plain || (own && (text::same(s, "ts") || text::same(s, "tsx") || text::same(s, "jsx")))
        },
        None => false,
    }
}

/// The packages that the files import, in the order of the files.
pub open spec fn imports_of(files: Seq<SourceFileM>, own: bool) -> Seq<Seq<char>>
    decreases files.len(),
{
    if files.len() == 0 {
        Seq::empty()
    } else {
        let front = imports_of(files.drop_last(), own);
        if file_counts(files.last(), own) {
            front + imported_packages(files.last().text)
        } else {
            front
        }
    }
}

fn collect_imports(files: &Vec<SourceFile>, own: bool) -> (r: Vec<String>)
    ensures
        r.deep_view() == imports_of(files.deep_view(), own),
{
    let ghost all = files.deep_view();
    let mut r: Vec<String> = Vec::new();
    let mut i: usize = 0;
    proof {
        assert(all.take(0) =~= Seq::empty());
        assert(r.deep_view() =~= Seq::empty());
    }
    while i < files.len()
        invariant
            i <= files.len(),
            all == files.deep_view(),
            r.deep_view() == imports_of(all.take(i as int), own),
        decreases files.len() - i,
    {
        proof {
            assert(all.take(i + 1).drop_last() =~= all.take(i as int));
            assert(all.take(i + 1).last() == files[i as int].deep_view());
        }
        if is_counted(files[i].name.as_str(), own) {
            value::append(&mut r, import_packages(files[i].text.as_str()));
        }
        i += 1;
    }
    assert(all.take(i as int) =~= all);
    r
}

/// The packages that first-party source imports.
pub fn first_party_imports(files: &Vec<SourceFile>) -> (r: Vec<String>)
    ensures
        r.deep_view() == value::text_set(imports_of(files.deep_view(), true)),
{
    value::sort_texts(collect_imports(files, true))
}

/// The names without one of them.
pub open spec fn others(names: Seq<Seq<char>>, name: Seq<char>) -> Seq<Seq<char>>
    decreases names.len(),
{
    if names.len() == 0 {
        Seq::empty()
    } else if names.last() == name {
        others(names.drop_last(), name)
    } else {
        others(names.drop_last(), name).push(names.last())
    }
}

fn without_name(names: &Vec<String>, name: &str) -> (r: Vec<String>)
    ensures
        r.deep_view() == others(names.deep_view(), name@),
{
    let ghost all = names.deep_view();
    let mut r: Vec<String> = Vec::new();
    let mut i: usize = 0;
    proof {
        assert(all.take(0) =~= Seq::empty());
        assert(r.deep_view() =~= Seq::empty());
    }
    while i < names.len()
        invariant
            i <= names.len(),
            all == names.deep_view(),
            r.deep_view() == others(all.take(i as int), name@),
        decreases names.len() - i,
    {
        proof {
            assert(all.take(i + 1).drop_last() =~= all.take(i as int));
        }
        if !text::same(names[i].as_str(), name) {
            let ghost before = r.deep_view();
            let x: String = names[i].clone();
            r.push(x);
            assert(r.deep_view() =~= before.push(x@));
        }
        i += 1;
    }
    assert(all.take(i as int) =~= all);
    r
}

/// A graph with the imports of installed packages, each from the others.
pub open spec fn with_packages(g: DepGraphM, pkgs: Seq<InstalledSourceM>) -> DepGraphM
    decreases pkgs.len(),
{
    if pkgs.len() == 0 {
        g
    } else {
        let p = pkgs.last();
        with_packages(g, pkgs.drop_last()).with_edges(p.name, others(imports_of(p.files, false), p.name))
    }
}

/// Adds the imports of installed packages to the graph.
pub fn package_graph(graph: &mut DepGraph, pkgs: &Vec<InstalledSource>)
    ensures
        final(graph).deep_view() == with_packages(old(graph).deep_view(), pkgs.deep_view()),
{
    let ghost all = pkgs.deep_view();
    let ghost start = graph.deep_view();
    let mut i: usize = 0;
    assert(all.take(0) =~= Seq::empty());
    while i < pkgs.len()
        invariant
            i <= pkgs.len(),
            all == pkgs.deep_view(),
            graph.deep_view() == with_packages(start, all.take(i as int)),
        decreases pkgs.len() - i,
    {
        proof {
            assert(all.take(i + 1).drop_last() =~= all.take(i as int));
            assert(all.take(i + 1).last() == pkgs[i as int].deep_view());
        }
        let names: Vec<String> = collect_imports(&pkgs[i].files, false);
        let deps: Vec<String> = without_name(&names, pkgs[i].name.as_str());
        graph.add_edges(pkgs[i].name.as_str(), deps);
        i += 1;
    }
    assert(all.take(i as int) =~= all);
}

/// The name that stands for first-party code in the graph.
pub const ENTRY: &'static str = "(entry)";

/// The import graph of a repository, and whether its packages are installed.
#[derive(Debug)]
pub struct Analysis {
    pub graph: DepGraph,
    pub has_node_modules: bool,
}

/// The import graph of a repository: what its source imports, and what each installed package
/// imports.
pub open spec fn import_graph(
    files: Seq<SourceFileM>,
    installed: Option<Seq<InstalledSourceM>>,
) -> DepGraphM {
    let g = (DepGraphM { root: ENTRY@, edges: Map::empty() }).with_edges(
        ENTRY@,
        value::text_set(imports_of(files, true)),
    );
    match installed {
        Some(p) => with_packages(g, p),
        None => g,
    }
}

/// Reads the import graph of a repository off its source and off its installed packages,
/// where there are any.
pub fn analyze(files: &Vec<SourceFile>, installed: &Option<Vec<InstalledSource>>) -> (r: Analysis)
    ensures
        r.graph.deep_view() == import_graph(files.deep_view(), installed.deep_view()),
        r.has_node_modules == installed is Some,
{
    let mut graph: DepGraph = DepGraph::new(ENTRY.to_owned());
    graph.add_edges(ENTRY, first_party_imports(files));
    match installed {
        Some(p) => {
            package_graph(&mut graph, p);
            Analysis { graph, has_node_modules: true }
        },
        None => Analysis { graph, has_node_modules: false },
    }
}

/// The name of the package in a directory below the packages; none for the directory itself.
pub open spec fn package_named(rel: Seq<char>) -> Option<Seq<char>> {
    let s = Seq::new(
        rel.len(),
        |i: int|
            if rel[i] == '\\' {
                '/'
            } else {
                rel[i]
            },
    );
    if s.len() == 0 {
        None
    } else {
        Some(s)
    }
}

/// The name of the package in a directory, given its path below the packages.
pub fn package_name_of(rel: &str) -> (r: Option<String>)
    ensures
        r.deep_view() == package_named(rel@),
{
    let v: Vec<char> = text::chars(rel);
    let mut s: String = String::new();
    let mut i: usize = 0;
    while i < v.len()
        invariant
            i <= v.len(),
            v@ == rel@,
            s@.len() == i,
            forall|j: int|
                0 <= j < i ==> #[trigger] s@[j] == (if rel@[j] == '\\' {
                    '/'
                } else {
                    rel@[j]
                }),
        decreases v.len() - i,
    {
        let c: char = v[i];
        s.push(
            if c == '\\' {
                '/'
            } else {
                c
            },
        );
        i += 1;
    }
    if v.len() == 0 {
        None
    } else {
        assert(s@ =~= package_named(rel@)->0);
        Some(s)
    }
}

/// What a directory below the packages is.
#[derive(Debug, Clone, Copy, PartialEq, Eq, Structural)]
pub enum PackageDir {
    /// Hidden: passed over.
    Hidden,
    /// A scope: each directory in it is a package.
    Scope,
    /// A package.
    Package,
}

/// What a directory below the packages is, by its name.
pub fn package_dir(name: &str) -> (r: PackageDir)
    ensures
        r == (if name@.len() > 0 && name@[0] == '.' {
            PackageDir::Hidden
        } else if name@.len() > 0 && name@[0] == '@' {
            PackageDir::Scope
        } else {
            PackageDir::Package
        }),
{
    let v: Vec<char> = text::chars(name);
    if v.len() > 0 && v[0] == '.' {
        PackageDir::Hidden
    } else if v.len() > 0 && v[0] == '@' {
        PackageDir::Scope
    } else {
        PackageDir::Package
    }
}

// --- Verdicts ---

/// Whether a package is reached.
#[verifier::ext_equal]
pub enum ReachM {
    Reachable { witness: Seq<Seq<char>> },
    NotReachable,
    Unknown,
}

/// Whether a package is reached.
#[derive(Debug, PartialEq)]
pub enum Reach {
    /// Reached from first-party code through these imports.
    Reachable { witness: Vec<String> },
    /// The packages are installed, and no import leads there.
    NotReachable,
    /// Not decided.
    Unknown,
}

impl DeepView for Reach {
    type V = ReachM;

    open spec fn deep_view(&self) -> ReachM {
        match self {
            Reach::Reachable { witness } => ReachM::Reachable { witness: witness.deep_view() },
            Reach::NotReachable => ReachM::NotReachable,
            Reach::Unknown => ReachM::Unknown,
        }
    }
}

/// What [`assess`] may say.
#[derive(Debug, Clone, Copy, PartialEq, Eq, Structural)]
pub struct Options {
    /// Whether what is not reached is said to be unreachable.
    pub prune: bool,
}

/// Whether a package is reached: where a chain of imports leads there, that chain without the
/// entry; else unreachable where that may be said and the packages are installed.
pub open spec fn reach_in(
    g: DepGraphM,
    has_node_modules: bool,
    package: Seq<char>,
    prune: bool,
) -> ReachM {
    let chain = g.chain(package);
    if chain.len() > 0 {
        ReachM::Reachable { witness: chain.skip(1) }
    } else if prune && has_node_modules {
        ReachM::NotReachable
    } else {
        ReachM::Unknown
    }
}

impl Analysis {
    /// Whether a package is reached.
    pub fn reach(&self, package: &str, opts: &Options) -> (r: Reach)
        ensures
            r.deep_view() == reach_in(
                self.graph.deep_view(),
                self.has_node_modules,
                package@,
                opts.prune,
            ),
            r.deep_view() matches ReachM::Reachable { witness } ==> self.graph.deep_view().leads_to(
                seq![self.graph.deep_view().root] + witness,
                package@,
            ),
    {
        let chain: Vec<String> = self.graph.chain_to(package);
        let ghost all = chain.deep_view();
        assert(all.len() == chain.len());
        if chain.len() > 0 {
            let mut witness: Vec<String> = Vec::new();
            let mut i: usize = 1;
            assert(witness.deep_view() =~= all.subrange(1, 1));
            while i < chain.len()
                invariant
                    1 <= i <= chain.len(),
                    all == chain.deep_view(),
                    witness.deep_view() == all.subrange(1, i as int),
                decreases chain.len() - i,
            {
                let ghost before = witness.deep_view();
                let name: String = chain[i].clone();
                witness.push(name);
                i += 1;
                assert(witness.deep_view() =~= before.push(name@));
                assert(all.subrange(1, i as int) =~= all.subrange(1, i - 1).push(all[i - 1]));
            }
            assert(all.skip(1) =~= all.subrange(1, all.len() as int));
            assert(seq![self.graph.deep_view().root] + all.skip(1) =~= all);
            Reach::Reachable { witness }
        } else if opts.prune && self.has_node_modules {
            Reach::NotReachable
        } else {
            Reach::Unknown
        }
    }
}

/// The better of two: reached comes first, then not decided.
pub open spec fn merged(a: Option<ReachM>, b: ReachM) -> ReachM {
    match a {
        Some(ReachM::Reachable { witness }) => ReachM::Reachable { witness },
        Some(ReachM::Unknown) => if b is Reachable {
            b
        } else {
            ReachM::Unknown
        },
        Some(ReachM::NotReachable) | None => b,
    }
}

/// The better of two: reached comes first, then not decided.
pub fn merge(a: Option<Reach>, b: Reach) -> (r: Reach)
    ensures
        r.deep_view() == merged(a.deep_view(), b.deep_view()),
{
    match a {
        Some(Reach::Reachable { witness }) => Reach::Reachable { witness },
        Some(Reach::Unknown) => match b {
            Reach::Reachable { witness } => Reach::Reachable { witness },
            _ => Reach::Unknown,
        },
        Some(Reach::NotReachable) => b,
        None => b,
    }
}

/// The import graph of one repository.
#[derive(Debug)]
pub struct RepoImports {
    pub repo: String,
    pub analysis: Analysis,
}

#[verifier::ext_equal]
pub struct RepoImportsM {
    pub repo: Seq<char>,
    pub graph: DepGraphM,
    pub has_node_modules: bool,
}

impl DeepView for RepoImports {
    type V = RepoImportsM;

    open spec fn deep_view(&self) -> RepoImportsM {
        RepoImportsM {
            repo: self.repo@,
            graph: self.analysis.graph.deep_view(),
            has_node_modules: self.analysis.has_node_modules,
        }
    }
}

/// The first of the repositories with the name.
pub open spec fn imports_for(repos: Seq<RepoImportsM>, repo: Seq<char>) -> Option<RepoImportsM>
    decreases repos.len(),
{
    if repos.len() == 0 {
        None
    } else {
        match imports_for(repos.drop_last(), repo) {
            Some(r) => Some(r),
            None => if repos.last().repo == repo {
                Some(repos.last())
            } else {
                None
            },
        }
    }
}

proof fn lemma_imports_stay(repos: Seq<RepoImportsM>, n: int, repo: Seq<char>)
    requires
        0 <= n <= repos.len(),
        imports_for(repos.take(n), repo) is Some,
    ensures
        imports_for(repos, repo) == imports_for(repos.take(n), repo),
    decreases repos.len(),
{
    if n < repos.len() {
        assert(repos.drop_last().take(n) =~= repos.take(n));
        lemma_imports_stay(repos.drop_last(), n, repo);
    } else {
        assert(repos.take(n) =~= repos);
    }
}

fn find_imports<'a>(repos: &'a Vec<RepoImports>, repo: &str) -> (r: Option<&'a RepoImports>)
    ensures
        match r {
            Some(x) => imports_for(repos.deep_view(), repo@) == Some(x.deep_view()),
            None => imports_for(repos.deep_view(), repo@) is None,
        },
{
    let ghost all = repos.deep_view();
    let mut i: usize = 0;
    assert(all.take(0) =~= Seq::empty());
    while i < repos.len()
        invariant
            i <= repos.len(),
            all == repos.deep_view(),
            imports_for(all.take(i as int), repo@) is None,
        decreases repos.len() - i,
    {
        assert(all.take(i + 1).drop_last() =~= all.take(i as int));
        if text::same(repos[i].repo.as_str(), repo) {
            proof {
                lemma_imports_stay(all, i + 1, repo@);
            }
            return Some(&repos[i]);
        }
        i += 1;
    }
    assert(all.take(i as int) =~= all);
    None
}

/// The best verdict over the occurrences in repositories that are known.
pub open spec fn best_reach(
    occurrences: Seq<OccurrenceM>,
    repos: Seq<RepoImportsM>,
    prune: bool,
) -> Option<ReachM>
    decreases occurrences.len(),
{
    if occurrences.len() == 0 {
        None
    } else {
        let front = best_reach(occurrences.drop_last(), repos, prune);
        match occurrences.last() {
            OccurrenceM::InRepo { repo, package, .. } => match imports_for(repos, repo) {
                Some(x) => Some(
                    merged(front, reach_in(x.graph, x.has_node_modules, package, prune)),
                ),
                None => front,
            },
            OccurrenceM::Toolchain { .. } => front,
        }
    }
}

pub open spec fn verdict_of(r: ReachM) -> ReachVerdictM {
    match r {
        ReachM::Reachable { witness } => ReachVerdictM::Reachable { witness },
        ReachM::NotReachable => ReachVerdictM::NotReachable,
        ReachM::Unknown => ReachVerdictM::Unknown {
            reason: "import-graph: package not reached from first-party source"@,
        },
    }
}

/// The best verdict for a finding over its repositories; none where no repository is known.
pub fn best_verdict(finding: &VulnFinding, repos: &Vec<RepoImports>, opts: &Options) -> (r: Option<
    ReachVerdict,
>)
    ensures
        r.deep_view() == (match best_reach(
            finding.deep_view().occurrences,
            repos.deep_view(),
            opts.prune,
        ) {
            Some(x) => Some(verdict_of(x)),
            None => None,
        }),
{
    let occurrences: &Vec<Occurrence> = &finding.occurrences;
    let ghost all = occurrences.deep_view();
    let mut best: Option<Reach> = None;
    let mut i: usize = 0;
    assert(all.take(0) =~= Seq::empty());
    while i < occurrences.len()
        invariant
            i <= occurrences.len(),
            all == occurrences.deep_view(),
            best.deep_view() == best_reach(all.take(i as int), repos.deep_view(), opts.prune),
        decreases occurrences.len() - i,
    {
        proof {
            assert(all.take(i + 1).drop_last() =~= all.take(i as int));
            assert(all.take(i + 1).last() == occurrences[i as int].deep_view());
        }
        if let Occurrence::InRepo { repo, package, .. } = &occurrences[i] {
            if let Some(x) = find_imports(repos, repo.0.as_str()) {
                let one: Reach = x.analysis.reach(package.as_str(), opts);
                best = Some(merge(best, one));
            }
        }
        i += 1;
    }
    assert(all.take(i as int) =~= all);
    match best {
        Some(Reach::Reachable { witness }) => Some(ReachVerdict::Reachable { witness }),
        Some(Reach::NotReachable) => Some(ReachVerdict::NotReachable),
        Some(Reach::Unknown) => Some(
            ReachVerdict::Unknown {
                reason: "import-graph: package not reached from first-party source".to_owned(),
            },
        ),
        None => None,
    }
}

/// A finding as judged from the import graphs; only one of npm is.
pub open spec fn assessed(f: VulnFindingM, repos: Seq<RepoImportsM>, prune: bool) -> VulnFindingM {
    if f.ecosystem != Ecosystem::Npm {
        f
    } else {
        match best_reach(f.occurrences, repos, prune) {
            None => f,
            Some(r) => VulnFindingM {
                reachable: finding::legacy_bool(verdict_of(r)),
                reachability: Some(
                    ReachabilityM {
                        verdict: verdict_of(r),
                        config: "import-graph"@,
                        engine: "fleetreach-npm-imports"@,
                        targets: Seq::empty(),
                        witness: None,
                    },
                ),
                ..f
            },
        }
    }
}

/// Judges each npm vulnerability from the import graphs of the repositories.
pub fn assess(report: &mut FleetReport, repos: &Vec<RepoImports>, opts: &Options)
    ensures
        final(report).deep_view() == (FleetReportM {
            vulnerabilities: old(report).deep_view().vulnerabilities.map_values(
                |f: VulnFindingM| assessed(f, repos.deep_view(), opts.prune),
            ),
            ..old(report).deep_view()
        }),
{
    let ghost all = report.vulnerabilities.deep_view();
    let ghost want = all.map_values(
        |f: VulnFindingM| assessed(f, repos.deep_view(), opts.prune),
    );
    let mut vulns: Vec<VulnFinding> = Vec::new();
    std::mem::swap(&mut vulns, &mut report.vulnerabilities);
    let mut out: Vec<VulnFinding> = Vec::new();
    let ghost mut n: int = 0;
    assert(out.deep_view() =~= want.take(0));
    for v in it: vulns
        invariant
            it.seq() == vulns@,
            all == vulns.deep_view(),
            want == all.map_values(
                |f: VulnFindingM| assessed(f, repos.deep_view(), opts.prune),
            ),
            n == it.index(),
            n <= all.len(),
            out.deep_view() == want.take(n),
    {
        let ghost before = out.deep_view();
        let ghost was = v.deep_view();
        let mut f: VulnFinding = v;
        if f.ecosystem == Ecosystem::Npm {
            if let Some(verdict) = best_verdict(&f, repos, opts) {
                f.reachable = match &verdict {
                    ReachVerdict::Reachable { .. } => Some(true),
                    ReachVerdict::NotReachable => Some(false),
                    ReachVerdict::Unknown { .. } => None,
                };
                let targets: Vec<String> = Vec::new();
                assert(targets.deep_view() =~= Seq::empty());
                f.reachability = Some(
                    Reachability {
                        verdict,
                        config: "import-graph".to_owned(),
                        engine: "fleetreach-npm-imports".to_owned(),
                        targets,
                        witness: None,
                    },
                );
            }
        }
        proof {
            assert(f.deep_view() == assessed(was, repos.deep_view(), opts.prune));
            assert(all[n] == was);
        }
        out.push(f);
        proof {
            assert(out.deep_view() =~= before.push(f.deep_view()));
            assert(want.take(n + 1) =~= want.take(n).push(want[n]));
            n = n + 1;
        }
    }
    assert(want.take(n) =~= want);
    report.vulnerabilities = out;
}

/// Nothing is said to be unreachable unless that was asked for.
pub proof fn unreachable_only_on_request(
    occurrences: Seq<OccurrenceM>,
    repos: Seq<RepoImportsM>,
)
    ensures
        best_reach(occurrences, repos, false) != Some(ReachM::NotReachable),
    decreases occurrences.len(),
{
    if occurrences.len() > 0 {
        unreachable_only_on_request(occurrences.drop_last(), repos);
    }
}

/// A finding is unreachable only where the packages of every repository that it is in, and
/// that is known, are installed and no import leads there.
pub proof fn unreachable_means_reached_nowhere(
    occurrences: Seq<OccurrenceM>,
    repos: Seq<RepoImportsM>,
    prune: bool,
    i: int,
)
    requires
        best_reach(occurrences, repos, prune) == Some(ReachM::NotReachable),
        0 <= i < occurrences.len(),
    ensures
        occurrences[i] matches OccurrenceM::InRepo { repo, package, .. } ==> (imports_for(
            repos,
            repo,
        ) matches Some(x) ==> x.has_node_modules && x.graph.chain(package).len() == 0),
    decreases occurrences.len(),
{
    let l = occurrences.drop_last();
    if i < l.len() {
        assert(l[i] == occurrences[i]);
        if best_reach(l, repos, prune) == Some(ReachM::NotReachable) {
            unreachable_means_reached_nowhere(l, repos, prune, i);
        } else {
            lemma_none_known(l, repos, prune, i);
        }
    }
}

proof fn lemma_none_known(
    occurrences: Seq<OccurrenceM>,
    repos: Seq<RepoImportsM>,
    prune: bool,
    i: int,
)
    requires
        0 <= i < occurrences.len(),
        best_reach(occurrences, repos, prune) is None,
    ensures
        occurrences[i] matches OccurrenceM::InRepo { repo, .. } ==> imports_for(repos, repo) is None,
    decreases occurrences.len(),
{
    let l = occurrences.drop_last();
    if i < l.len() {
        assert(l[i] == occurrences[i]);
        lemma_none_known(l, repos, prune, i);
    }
}

/// The first repository of a name is the one that counts; there is none exactly where no
/// repository has the name.
pub proof fn the_first_repository_counts(repos: Seq<RepoImportsM>, name: Seq<char>, i: int)
    requires
        0 <= i <= repos.len(),
        i < repos.len() ==> repos[i].repo == name,
        forall|k: int| 0 <= k < i ==> (#[trigger] repos[k]).repo != name,
    ensures
        imports_for(repos, name) == (if i < repos.len() {
            Some(repos[i])
        } else {
            None
        }),
    decreases repos.len(),
{
    if repos.len() > 0 {
        let l = repos.drop_last();
        let n = l.len() as int;
        assert forall|k: int| 0 <= k < n implies #[trigger] l[k] == repos[k] by {}
        assert(repos[n] == repos.last());
        if i < repos.len() {
            the_first_repository_counts(l, name, i);
        } else {
            the_first_repository_counts(l, name, n);
        }
    }
}

/// Whether an occurrence is in a repository whose imports are known, and a chain of them leads
/// to its package.
pub open spec fn led_to(o: OccurrenceM, repos: Seq<RepoImportsM>) -> bool {
    o matches OccurrenceM::InRepo { repo, package, .. } && imports_for(repos, repo) matches Some(x)
        && x.graph.chain(package).len() > 0
}

/// Whether an occurrence is in a repository whose imports are known.
pub open spec fn is_known(o: OccurrenceM, repos: Seq<RepoImportsM>) -> bool {
    o matches OccurrenceM::InRepo { repo, .. } && imports_for(repos, repo) is Some
}

/// Whether an occurrence is in a repository whose imports are known and whose packages are
/// installed.
pub open spec fn is_complete(o: OccurrenceM, repos: Seq<RepoImportsM>) -> bool {
    o matches OccurrenceM::InRepo { repo, .. } && imports_for(repos, repo) matches Some(x)
        && x.has_node_modules
}

/// A package is reached exactly where a chain of imports leads to it in some repository that is
/// known, whatever the others say, and the witness is the first such chain without its entry. It
/// is unreachable exactly where that may be said, some repository is known, and in each that is
/// known the packages are installed and no chain leads there. Where no repository is known there
/// is no verdict.
pub proof fn reached_anywhere_is_reached(
    occurrences: Seq<OccurrenceM>,
    repos: Seq<RepoImportsM>,
    prune: bool,
)
    ensures
        best_reach(occurrences, repos, prune) is None <==> forall|i: int|
            0 <= i < occurrences.len() ==> !is_known(#[trigger] occurrences[i], repos),
        (best_reach(occurrences, repos, prune) matches Some(r) && r is Reachable) <==> exists|i: int|
            0 <= i < occurrences.len() && led_to(#[trigger] occurrences[i], repos),
        best_reach(occurrences, repos, prune) == Some(ReachM::NotReachable) <==> prune && (exists|
            i: int,
        |
            0 <= i < occurrences.len() && is_known(#[trigger] occurrences[i], repos)) && (forall|
            i: int,
        |
            0 <= i < occurrences.len() && is_known(#[trigger] occurrences[i], repos) ==> is_complete(
                occurrences[i],
                repos,
            ) && !led_to(occurrences[i], repos)),
        forall|i: int|
            0 <= i < occurrences.len() && led_to(#[trigger] occurrences[i], repos) && (forall|k: int|
                0 <= k < i ==> !led_to(#[trigger] occurrences[k], repos)) ==> best_reach(
                occurrences,
                repos,
                prune,
            ) == Some(
                ReachM::Reachable {
                    witness: imports_for(repos, occurrences[i]->InRepo_repo)->0.graph.chain(
                        occurrences[i]->InRepo_package,
                    ).skip(1),
                },
            ),
    decreases occurrences.len(),
{
    if occurrences.len() > 0 {
        let l = occurrences.drop_last();
        let n = l.len() as int;
        let o = occurrences.last();
        reached_anywhere_is_reached(l, repos, prune);
        assert forall|k: int| 0 <= k < n implies #[trigger] occurrences[k] == l[k] by {}
        assert(occurrences[n] == o);
        let front = best_reach(l, repos, prune);
        let all = best_reach(occurrences, repos, prune);
        if exists|i: int| 0 <= i < l.len() && led_to(#[trigger] l[i], repos) {
            let i = choose|i: int| 0 <= i < l.len() && led_to(#[trigger] l[i], repos);
            assert(led_to(occurrences[i], repos));
        }
        if exists|i: int| 0 <= i < l.len() && is_known(#[trigger] l[i], repos) {
            let i = choose|i: int| 0 <= i < l.len() && is_known(#[trigger] l[i], repos);
            assert(is_known(occurrences[i], repos));
        }
        if exists|i: int| 0 <= i < occurrences.len() && led_to(#[trigger] occurrences[i], repos) {
            let i = choose|i: int|
                0 <= i < occurrences.len() && led_to(#[trigger] occurrences[i], repos);
            if i < n {
                assert(led_to(l[i], repos));
            }
        }
        if forall|i: int|
            0 <= i < occurrences.len() && is_known(#[trigger] occurrences[i], repos) ==> is_complete(
                occurrences[i],
                repos,
            ) && !led_to(occurrences[i], repos) {
            assert forall|i: int|
                0 <= i < l.len() && is_known(#[trigger] l[i], repos) implies is_complete(
                l[i],
                repos,
            ) && !led_to(l[i], repos) by {
                assert(is_known(occurrences[i], repos));
            }
            assert(is_known(occurrences[n], repos) ==> is_complete(occurrences[n], repos));
        } else {
            let i = choose|i: int|
                0 <= i < occurrences.len() && is_known(#[trigger] occurrences[i], repos) && !(
                is_complete(occurrences[i], repos) && !led_to(occurrences[i], repos));
            if i < n {
                assert(is_known(l[i], repos));
            }
        }
        if forall|i: int|
            0 <= i < occurrences.len() ==> !is_known(#[trigger] occurrences[i], repos) {
            assert forall|i: int| 0 <= i < l.len() implies !is_known(#[trigger] l[i], repos) by {
                assert(!is_known(occurrences[i], repos));
            }
            assert(!is_known(occurrences[n], repos));
        } else {
            let i = choose|i: int|
                0 <= i < occurrences.len() && is_known(#[trigger] occurrences[i], repos);
            if i < n {
                assert(is_known(l[i], repos));
            }
        }
        assert forall|i: int|
            0 <= i < occurrences.len() && led_to(#[trigger] occurrences[i], repos) && (forall|k: int|
                0 <= k < i ==> !led_to(#[trigger] occurrences[k], repos)) implies all == Some(
            ReachM::Reachable {
                witness: imports_for(repos, occurrences[i]->InRepo_repo)->0.graph.chain(
                    occurrences[i]->InRepo_package,
                ).skip(1),
            },
        ) by {
            if i < n {
                assert(l[i] == occurrences[i]);
                assert forall|k: int| 0 <= k < i implies !led_to(#[trigger] l[k], repos) by {
                    assert(!led_to(occurrences[k], repos));
                }
            } else {
                assert forall|k: int| 0 <= k < l.len() implies !led_to(#[trigger] l[k], repos) by {
                    assert(!led_to(occurrences[k], repos));
                }
            }
        }
    }
}

/// A finding of npm is given what the import graphs say of it: reached, unreachable, or not
/// decided. Nothing else changes, and a finding of another ecosystem, or one of which no
/// repository is known, stays as it is.
pub proof fn a_judgement_changes_nothing_else(
    f: VulnFindingM,
    repos: Seq<RepoImportsM>,
    prune: bool,
)
    ensures
        f.ecosystem != Ecosystem::Npm || best_reach(f.occurrences, repos, prune) is None
            ==> assessed(f, repos, prune) == f,
        f.ecosystem == Ecosystem::Npm ==> (best_reach(f.occurrences, repos, prune) matches Some(r)
            ==> {
            let g = assessed(f, repos, prune);
            &&& g == (VulnFindingM {
                reachable: g.reachable,
                reachability: g.reachability,
                ..f
            })
            &&& g.reachability is Some
            &&& r matches ReachM::Reachable { witness } ==> g.reachable == Some(true)
                && g.reachability->0.verdict == (ReachVerdictM::Reachable { witness })
            &&& r is NotReachable ==> g.reachable == Some(false)
                && g.reachability->0.verdict is NotReachable
            &&& r is Unknown ==> g.reachable is None && g.reachability->0.verdict is Unknown
        }),
{
}

/// A specifier names its package whatever path inside it follows. One that starts as a path does
/// names none.
pub proof fn a_specifier_names_its_package(name: Seq<char>, rest: Seq<char>)
    requires
        name.len() > 0,
        !name.contains('/'),
        name[0] != '.',
        name[0] != '@',
    ensures
        package_in(name) == Some(name),
        package_in(name.push('/') + rest) == Some(name),
        package_in(seq!['.'] + rest) is None,
        package_in(seq!['/'] + rest) is None,
{
    assert(name[0] != '/') by {
        if name[0] == '/' {
            assert(name.contains('/'));
        }
    }
    cut::lemma_split_plain(name, '/');
    cut::lemma_split_joined(name, rest, '/');
    let long = name.push('/') + rest;
    assert(long[0] == name[0]);
    assert(text::split_on(long, '/')[0] == text::split_on(name, '/')[0]);
}

/// A scoped specifier names its scope and the package in it, whatever path inside it follows.
pub proof fn a_scoped_specifier_names_its_package(
    scope: Seq<char>,
    name: Seq<char>,
    rest: Seq<char>,
)
    requires
        scope.len() > 0,
        name.len() > 0,
        !scope.contains('/'),
        !name.contains('/'),
    ensures
        package_in(seq!['@'] + scope.push('/') + name) == Some(seq!['@'] + scope.push('/') + name),
        package_in(seq!['@'] + scope.push('/') + name.push('/') + rest) == Some(
            seq!['@'] + scope.push('/') + name,
        ),
        package_in(seq!['@'] + scope) is None,
{
    reveal_strlit("@");
    reveal_strlit("/");
    cut::lemma_split_plain(scope, '/');
    cut::lemma_split_plain(name, '/');
    cut::lemma_split_joined(scope, name, '/');
    cut::lemma_split_joined(name, rest, '/');
    cut::lemma_split_joined(scope, name.push('/') + rest, '/');
    let whole = seq!['@'] + scope.push('/') + name;
    let long = seq!['@'] + scope.push('/') + name.push('/') + rest;
    assert(whole.skip(1) =~= scope.push('/') + name);
    assert(long.skip(1) =~= scope.push('/') + (name.push('/') + rest));
    assert((seq!['@'] + scope).skip(1) =~= scope);
    assert("@"@ + scope + "/"@ + name =~= whole);
    let parts = text::split_on(long.skip(1), '/');
    assert(parts =~= seq![scope] + (seq![name] + text::split_on(rest, '/')));
    assert(parts[0] == scope && parts[1] == name);
}

/// First-party source is read in JavaScript and TypeScript, installed packages in JavaScript
/// only.
pub proof fn packages_are_read_in_javascript(e: Seq<char>)
    ensures
        dependency_extension(e) <==> e == "js"@ || e == "mjs"@ || e == "cjs"@,
        source_extension(e) <==> dependency_extension(e) || e == "ts"@ || e == "tsx"@ || e
            == "jsx"@,
{
}

/// What the files import is what each of those that count imports.
pub proof fn imports_come_from_the_files(files: Seq<SourceFileM>, own: bool, p: Seq<char>)
    ensures
        imports_of(files, own).contains(p) <==> exists|i: int|
            0 <= i < files.len() && file_counts(#[trigger] files[i], own) && imported_packages(
                files[i].text,
            ).contains(p),
    decreases files.len(),
{
    if files.len() > 0 {
        let l = files.drop_last();
        let n = l.len() as int;
        imports_come_from_the_files(l, own, p);
        assert(files[n] == files.last());
        assert forall|k: int| 0 <= k < n implies #[trigger] files[k] == l[k] by {}
        let front = imports_of(l, own);
        let back = imported_packages(files.last().text);
        let all = imports_of(files, own);
        if front.contains(p) {
            let j = choose|j: int| 0 <= j < front.len() && front[j] == p;
            assert(all[j] == p);
            let i = choose|i: int|
                0 <= i < l.len() && file_counts(#[trigger] l[i], own) && imported_packages(
                    l[i].text,
                ).contains(p);
            assert(files[i] == l[i]);
        }
        if file_counts(files.last(), own) && back.contains(p) {
            let j = choose|j: int| 0 <= j < back.len() && back[j] == p;
            assert(all[front.len() + j] == p);
        }
        if all.contains(p) && !front.contains(p) {
            let j = choose|j: int| 0 <= j < all.len() && all[j] == p;
            if j < front.len() {
                assert(front[j] == p);
            } else {
                assert(back[j - front.len()] == p);
            }
            assert(file_counts(files[n], own));
        }
        if exists|i: int|
            0 <= i < files.len() && file_counts(#[trigger] files[i], own) && imported_packages(
                files[i].text,
            ).contains(p) {
            let i = choose|i: int|
                0 <= i < files.len() && file_counts(#[trigger] files[i], own) && imported_packages(
                    files[i].text,
                ).contains(p);
            if i < n {
                assert(l[i] == files[i]);
            }
        }
    }
}

/// A package is not counted among its own imports; all its other imports are.
pub proof fn a_package_does_not_import_itself(names: Seq<Seq<char>>, name: Seq<char>)
    ensures
        others(names, name) == names.filter(|n: Seq<char>| n != name),
    decreases names.len(),
{
    reveal(Seq::filter);
    if names.len() > 0 {
        a_package_does_not_import_itself(names.drop_last(), name);
    }
}

proof fn lemma_packages_at(s: Seq<char>, keyword: Seq<char>, at: Seq<int>, k: int, p: Seq<char>)
    requires
        0 <= k < at.len(),
        quoted_at(s, at[k] + keyword.len()) matches Some(q) && package_in(q) == Some(p),
    ensures
        packages_at(s, keyword, at).contains(p),
    decreases at.len(),
{
    let l = at.drop_last();
    let front = packages_at(s, keyword, l);
    let all = packages_at(s, keyword, at);
    if k < l.len() {
        assert(l[k] == at[k]);
        lemma_packages_at(s, keyword, l, k, p);
        let j = choose|j: int| 0 <= j < front.len() && front[j] == p;
        assert(all[j] == p);
    } else {
        assert(all[front.len() as int] == p);
    }
}

/// A package that is required in quotes is among what a text imports.
pub proof fn a_required_package_is_imported(
    before: Seq<char>,
    mark: char,
    spec_text: Seq<char>,
    after: Seq<char>,
)
    requires
        !before.contains('r'),
        mark == '\'' || mark == '"',
        !spec_text.contains(mark),
        package_in(spec_text) is Some,
    ensures
        imported_packages(
            before + "require("@ + (seq![mark] + spec_text + (seq![mark] + after)),
        ).contains(package_in(spec_text)->0),
{
    reveal_strlit("require(");
    let kw = "require("@;
    let behind = seq![mark] + spec_text + (seq![mark] + after);
    let s = before + kw + behind;
    let p = package_in(spec_text)->0;
    let n = before.len() as int;
    text::lemma_seek(s, kw, 0);
    assert(s.subrange(n, n + 8) =~= kw);
    assert(text::occurs_at(s, kw, n));
    let i = text::seek(s, kw, 0)->0;
    if i < n {
        assert(s.subrange(i, i + 8)[0] == s[i]);
        assert(before[i] == 'r');
    }
    assert(i == n);
    let at = cut::hits(s, kw, 0);
    assert(at[0] == n);
    assert(at.len() > 0);
    let q = n + 8;
    assert(s[q] == mark);
    assert(!text::white(mark));
    cut::lemma_run_end_at(s, q, q, Class::Gap);
    let e = q + 1 + spec_text.len();
    text::lemma_seek(s, seq![mark], q + 1);
    assert(s.subrange(e, e + 1) =~= seq![mark]);
    assert(text::occurs_at(s, seq![mark], e));
    let j = text::seek(s, seq![mark], q + 1)->0;
    if j < e {
        assert(s.subrange(j, j + 1)[0] == s[j]);
        assert(s[j] == spec_text[j - q - 1]);
    }
    assert(j == e);
    assert(s.subrange(q + 1, e) =~= spec_text);
    assert(quoted_at(s, q) == Some(spec_text));
    lemma_packages_at(s, kw, at, 0, p);
    let found = packages_after(s, kw);
    let all = packages_after(s, "require("@) + packages_after(s, "from "@) + packages_after(
        s,
        "import("@,
    ) + packages_after(s, "from\t"@);
    let k = choose|k: int| 0 <= k < found.len() && found[k] == p;
    assert(all[k] == p);
    value::lemma_text_set(all);
}

} // verus!
