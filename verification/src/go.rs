//! Go modules: what a manifest requires and replaces, and findings from the messages of the
//! vulnerability checker. A call trace shows that code is reached; its absence shows nothing.
use vstd::prelude::*;
use crate::cut;
use crate::finding;
use crate::finding::{
    DepSource, DepSourceM, DependencyKind, Ecosystem, Exploitability, Occurrence, OccurrenceM,
    ReachVerdict, ReachVerdictM, Reachability, ReachabilityM, RepoId, VulnFinding, VulnFindingM,
};
use crate::severity::Severity;
use crate::text;
use crate::textmap::TextMap;
use crate::tier_c;
use crate::value;
use crate::value::Plain;
use crate::version;
use crate::version::{ComparatorM, Version, VersionM, VersionReq};

verus! {

// --- Versions ---

/// The text without the letter that marks a version.
pub open spec fn unmarked(v: Seq<char>) -> Seq<char> {
    match cut::after_prefix(v, "v"@) {
        Some(s) => s,
        None => v,
    }
}

/// The text without the letter that marks a version.
pub fn strip_v(v: &str) -> (r: String)
    ensures
        r@ == unmarked(v@),
{
    match cut::strip_prefix(v, "v") {
        Some(s) => s,
        None => v.to_owned(),
    }
}

/// The version of a Go module that a text spells.
pub open spec fn go_version(raw: Seq<char>) -> Option<VersionM> {
    version::semver_version(unmarked(raw))
}

/// Reads the version of a Go module, with or without the letter that marks it.
pub fn parse_go_version(raw: &str) -> (r: Option<Version>)
    ensures
        r.deep_view() == go_version(raw@),
{
    Version::parse(strip_v(raw).as_str())
}

// --- Manifests ---

/// What a [`RequiredModule`] stands for.
#[verifier::ext_equal]
pub struct RequiredModuleM {
    pub path: Seq<char>,
    pub version: Seq<char>,
    pub indirect: bool,
}

/// A module that a manifest requires.
#[derive(Debug, PartialEq)]
pub struct RequiredModule {
    pub path: String,
    pub version: String,
    /// Marked as not required directly.
    pub indirect: bool,
}

impl DeepView for RequiredModule {
    type V = RequiredModuleM;

    open spec fn deep_view(&self) -> RequiredModuleM {
        RequiredModuleM {
            path: self.path@,
            version: self.version@,
            indirect: self.indirect,
        }
    }
}

impl Plain for RequiredModule {
    fn copy(&self) -> (r: RequiredModule) {
        RequiredModule {
            path: self.path.clone(),
            version: self.version.clone(),
            indirect: self.indirect,
        }
    }

    fn same(&self, other: &RequiredModule) -> (r: bool) {
        self.path == other.path
            && self.version == other.version
            && self.indirect == other.indirect
    }
}

impl Clone for RequiredModule {
    fn clone(&self) -> (r: RequiredModule)
        ensures
            r.deep_view() == self.deep_view(),
    {
        self.copy()
    }
}

/// What a [`Replace`] stands for.
#[verifier::ext_equal]
pub struct ReplaceM {
    pub from_path: Seq<char>,
    pub from_version: Option<Seq<char>>,
    pub to_path: Seq<char>,
    pub to_version: Option<Seq<char>>,
}

/// A module that a manifest replaces by another, or by a local path where the other has no version.
#[derive(Debug, PartialEq)]
pub struct Replace {
    pub from_path: String,
    /// The version that is replaced; every version where there is none.
    pub from_version: Option<String>,
    pub to_path: String,
    pub to_version: Option<String>,
}

impl DeepView for Replace {
    type V = ReplaceM;

    open spec fn deep_view(&self) -> ReplaceM {
        ReplaceM {
            from_path: self.from_path@,
            from_version: self.from_version.deep_view(),
            to_path: self.to_path@,
            to_version: self.to_version.deep_view(),
        }
    }
}

impl Plain for Replace {
    fn copy(&self) -> (r: Replace) {
        Replace {
            from_path: self.from_path.clone(),
            from_version: self.from_version.copy(),
            to_path: self.to_path.clone(),
            to_version: self.to_version.copy(),
        }
    }

    fn same(&self, other: &Replace) -> (r: bool) {
        self.from_path == other.from_path
            && self.from_version.same(&other.from_version)
            && self.to_path == other.to_path
            && self.to_version.same(&other.to_version)
    }
}

impl Clone for Replace {
    fn clone(&self) -> (r: Replace)
        ensures
            r.deep_view() == self.deep_view(),
    {
        self.copy()
    }
}

/// What reading a manifest line by line has come to: whether a block is open, and the entries
/// of the directive so far.
#[verifier::ext_equal]
pub struct Entries {
    pub open: bool,
    pub found: Seq<Seq<char>>,
}

/// One more line read.
pub open spec fn next_line(e: Entries, raw: Seq<char>, directive: Seq<char>) -> Entries {
    let line = cut::trimmed(raw);
    if line.len() == 0 {
        e
    } else if e.open {
        if line[0] == ')' {
            Entries { open: false, ..e }
        } else {
            Entries { found: e.found.push(line), ..e }
        }
    } else if text::occurs_at(line, directive + " ("@, 0) {
        Entries { open: true, ..e }
    } else {
        match cut::after_prefix(line, directive + " "@) {
            Some(rest) => Entries { found: e.found.push(rest), ..e },
            None => e,
        }
    }
}

/// The entries of a directive: the lines of its blocks, and what follows it on a line of its
/// own.
pub open spec fn entries_in(lines: Seq<Seq<char>>, directive: Seq<char>) -> Entries
    decreases lines.len(),
{
    if lines.len() == 0 {
        Entries { open: false, found: Seq::empty() }
    } else {
        next_line(entries_in(lines.drop_last(), directive), lines.last(), directive)
    }
}

fn entries(go_mod: &str, directive: &str) -> (r: Vec<String>)
    ensures
        r.deep_view() == entries_in(cut::lines_of(go_mod@), directive@).found,
{
    let lines: Vec<String> = cut::lines(go_mod);
    let ghost all = lines.deep_view();
    let block: String = text::join(directive, " (");
    let single: String = text::join(directive, " ");
    let mut found: Vec<String> = Vec::new();
    let mut open: bool = false;
    let mut i: usize = 0;
    proof {
        assert(all.take(0) =~= Seq::empty());
        assert(found.deep_view() =~= Seq::empty());
    }
    while i < lines.len()
        invariant
            i <= lines.len(),
            all == lines.deep_view(),
            block@ == directive@ + " ("@,
            single@ == directive@ + " "@,
            (Entries { open, found: found.deep_view() }) == entries_in(
                all.take(i as int),
                directive@,
            ),
        decreases lines.len() - i,
    {
        proof {
            assert(all.take(i + 1).drop_last() =~= all.take(i as int));
        }
        let line: String = cut::trim(lines[i].as_str());
        let v: Vec<char> = text::chars(line.as_str());
        let ghost before = found.deep_view();
        if v.len() > 0 {
            if open {
                if v[0] == ')' {
                    open = false;
                } else {
                    found.push(line);
                    assert(found.deep_view() =~= before.push(line@));
                }
            } else if cut::starts_with(line.as_str(), block.as_str()) {
                open = true;
            } else {
                if let Some(rest) = cut::strip_prefix(line.as_str(), single.as_str()) {
                    found.push(rest);
                    assert(found.deep_view() =~= before.push(rest@));
                }
            }
        }
        i += 1;
    }
    assert(all.take(i as int) =~= all);
    found
}

/// The module that an entry requires: its first word, its second as the version, and whether
/// it is marked.
pub open spec fn required_in(entry: Seq<char>) -> Option<RequiredModuleM> {
    let words = cut::words_of(cut::before_mark(entry, "//"@));
    if words.len() == 0 {
        None
    } else {
        Some(
            RequiredModuleM {
                path: words[0],
                version: if words.len() > 1 {
                    words[1]
                } else {
                    Seq::empty()
                },
                indirect: text::occurs(entry, "// indirect"@),
            },
        )
    }
}

/// The module that an entry requires.
pub fn parse_require(entry: &str) -> (r: Option<RequiredModule>)
    ensures
        r.deep_view() == required_in(entry@),
{
    let words: Vec<String> = cut::words(cut::before(entry, "//").as_str());
    let ghost all = words.deep_view();
    assert(all.len() == words.len());
    if words.len() == 0 {
        return None;
    }
    assert(all[0] == words[0]@);
    let version: String = if words.len() > 1 {
        assert(all[1] == words[1]@);
        words[1].clone()
    } else {
        let none: String = String::new();
        assert(none@ =~= Seq::empty());
        none
    };
    Some(
        RequiredModule {
            path: words[0].clone(),
            version,
            indirect: text::contains(entry, "// indirect"),
        },
    )
}

pub open spec fn all_required(entries: Seq<Seq<char>>) -> Seq<RequiredModuleM>
    decreases entries.len(),
{
    if entries.len() == 0 {
        Seq::empty()
    } else {
        let front = all_required(entries.drop_last());
        match required_in(entries.last()) {
            Some(m) => front.push(m),
            None => front,
        }
    }
}

/// What a manifest requires, in order.
pub open spec fn requires_in(go_mod: Seq<char>) -> Seq<RequiredModuleM> {
    all_required(entries_in(cut::lines_of(go_mod), "require"@).found)
}

/// What a manifest requires, from single lines and from blocks, in order.
pub fn required_modules(go_mod: &str) -> (r: Vec<RequiredModule>)
    ensures
        r.deep_view() == requires_in(go_mod@),
{
    let list: Vec<String> = entries(go_mod, "require");
    let ghost all = list.deep_view();
    let mut out: Vec<RequiredModule> = Vec::new();
    let mut i: usize = 0;
    proof {
        assert(all.take(0) =~= Seq::empty());
        assert(out.deep_view() =~= Seq::empty());
    }
    while i < list.len()
        invariant
            i <= list.len(),
            all == list.deep_view(),
            out.deep_view() == all_required(all.take(i as int)),
        decreases list.len() - i,
    {
        assert(all.take(i + 1).drop_last() =~= all.take(i as int));
        if let Some(m) = parse_require(list[i].as_str()) {
            let ghost before = out.deep_view();
            out.push(m);
            assert(out.deep_view() =~= before.push(m.deep_view()));
        }
        i += 1;
    }
    assert(all.take(i as int) =~= all);
    out
}

/// The second word, where there is one.
pub open spec fn second(words: Seq<Seq<char>>) -> Option<Seq<char>> {
    if words.len() > 1 {
        Some(words[1])
    } else {
        None
    }
}

/// What an entry replaces: path and version before the arrow, path and version after it.
pub open spec fn replaced_in(entry: Seq<char>) -> Option<ReplaceM> {
    match cut::halves(cut::before_mark(entry, "//"@), "=>"@) {
        Some((left, right)) => {
            let l = cut::words_of(left);
            let r = cut::words_of(right);
            if l.len() == 0 || r.len() == 0 {
                None
            } else {
                Some(
                    ReplaceM {
                        from_path: l[0],
                        from_version: second(l),
                        to_path: r[0],
                        to_version: second(r),
                    },
                )
            }
        },
        None => None,
    }
}

fn second_of(words: &Vec<String>) -> (r: Option<String>)
    ensures
        r.deep_view() == second(words.deep_view()),
{
    let ghost all = words.deep_view();
    assert(all.len() == words.len());
    if words.len() > 1 {
        assert(all[1] == words[1]@);
        Some(words[1].clone())
    } else {
        None
    }
}

/// What an entry replaces.
pub fn parse_replace(entry: &str) -> (r: Option<Replace>)
    ensures
        r.deep_view() == replaced_in(entry@),
{
    match cut::split_once(cut::before(entry, "//").as_str(), "=>") {
        Some((left, right)) => {
            let l: Vec<String> = cut::words(left.as_str());
            let r: Vec<String> = cut::words(right.as_str());
            let ghost (a, b) = (l.deep_view(), r.deep_view());
            assert(a.len() == l.len() && b.len() == r.len());
            if l.len() == 0 || r.len() == 0 {
                return None;
            }
            assert(a[0] == l[0]@ && b[0] == r[0]@);
            Some(
                Replace {
                    from_path: l[0].clone(),
                    from_version: second_of(&l),
                    to_path: r[0].clone(),
                    to_version: second_of(&r),
                },
            )
        },
        None => None,
    }
}

pub open spec fn all_replaced(entries: Seq<Seq<char>>) -> Seq<ReplaceM>
    decreases entries.len(),
{
    if entries.len() == 0 {
        Seq::empty()
    } else {
        let front = all_replaced(entries.drop_last());
        match replaced_in(entries.last()) {
            Some(m) => front.push(m),
            None => front,
        }
    }
}

/// What a manifest replaces, in order.
pub open spec fn replaces_in(go_mod: Seq<char>) -> Seq<ReplaceM> {
    all_replaced(entries_in(cut::lines_of(go_mod), "replace"@).found)
}

/// What a manifest replaces, from single lines and from blocks, in order.
pub fn replace_directives(go_mod: &str) -> (r: Vec<Replace>)
    ensures
        r.deep_view() == replaces_in(go_mod@),
{
    let list: Vec<String> = entries(go_mod, "replace");
    let ghost all = list.deep_view();
    let mut out: Vec<Replace> = Vec::new();
    let mut i: usize = 0;
    proof {
        assert(all.take(0) =~= Seq::empty());
        assert(out.deep_view() =~= Seq::empty());
    }
    while i < list.len()
        invariant
            i <= list.len(),
            all == list.deep_view(),
            out.deep_view() == all_replaced(all.take(i as int)),
        decreases list.len() - i,
    {
        assert(all.take(i + 1).drop_last() =~= all.take(i as int));
        if let Some(m) = parse_replace(list[i].as_str()) {
            let ghost before = out.deep_view();
            out.push(m);
            assert(out.deep_view() =~= before.push(m.deep_view()));
        }
        i += 1;
    }
    assert(all.take(i as int) =~= all);
    out
}

/// The module that a line declares.
pub open spec fn declared_in(raw: Seq<char>) -> Option<Seq<char>> {
    match cut::after_prefix(cut::trimmed(raw), "module "@) {
        Some(rest) => {
            let words = cut::words_of(rest);
            if words.len() > 0 {
                Some(words[0])
            } else {
                None
            }
        },
        None => None,
    }
}

/// The module that the first line to declare one declares.
pub open spec fn first_declared(lines: Seq<Seq<char>>) -> Option<Seq<char>>
    decreases lines.len(),
{
    if lines.len() == 0 {
        None
    } else {
        match first_declared(lines.drop_last()) {
            Some(m) => Some(m),
            None => declared_in(lines.last()),
        }
    }
}

proof fn lemma_declared_stays(lines: Seq<Seq<char>>, n: int)
    requires
        0 <= n <= lines.len(),
        first_declared(lines.take(n)) is Some,
    ensures
        first_declared(lines) == first_declared(lines.take(n)),
    decreases lines.len(),
{
    if n < lines.len() {
        assert(lines.drop_last().take(n) =~= lines.take(n));
        lemma_declared_stays(lines.drop_last(), n);
    } else {
        assert(lines.take(n) =~= lines);
    }
}

/// The module that a manifest declares.
pub fn main_module(go_mod: &str) -> (r: Option<String>)
    ensures
        r.deep_view() == first_declared(cut::lines_of(go_mod@)),
{
    let lines: Vec<String> = cut::lines(go_mod);
    let ghost all = lines.deep_view();
    let mut i: usize = 0;
    assert(all.take(0) =~= Seq::empty());
    while i < lines.len()
        invariant
            i <= lines.len(),
            all == lines.deep_view(),
            all == cut::lines_of(go_mod@),
            first_declared(all.take(i as int)) is None,
        decreases lines.len() - i,
    {
        assert(all.take(i + 1).drop_last() =~= all.take(i as int));
        if let Some(rest) = cut::strip_prefix(cut::trim(lines[i].as_str()).as_str(), "module ") {
            let words: Vec<String> = cut::words(rest.as_str());
            let ghost w = words.deep_view();
            assert(w.len() == words.len());
            if words.len() > 0 {
                assert(w[0] == words[0]@);
                proof {
                    lemma_declared_stays(all, i + 1);
                }
                return Some(words[0].clone());
            }
        }
        i += 1;
    }
    assert(all.take(i as int) =~= all);
    None
}

/// The paths that are required directly.
pub open spec fn direct_paths(required: Seq<RequiredModuleM>) -> Seq<Seq<char>>
    decreases required.len(),
{
    if required.len() == 0 {
        Seq::empty()
    } else if required.last().indirect {
        direct_paths(required.drop_last())
    } else {
        direct_paths(required.drop_last()).push(required.last().path)
    }
}

/// The direct modules: what is required directly, and the main module.
pub open spec fn direct_set_of(
    required: Seq<RequiredModuleM>,
    main: Option<Seq<char>>,
) -> Seq<Seq<char>> {
    value::text_set(
        match main {
            Some(m) => direct_paths(required).push(m),
            None => direct_paths(required),
        },
    )
}

/// The direct modules of a manifest whose requirements were read.
pub fn direct_set(required: &Vec<RequiredModule>, go_mod: &str) -> (r: Vec<String>)
    ensures
        r.deep_view() == direct_set_of(
            required.deep_view(),
            first_declared(cut::lines_of(go_mod@)),
        ),
{
    let ghost all = required.deep_view();
    let mut out: Vec<String> = Vec::new();
    let mut i: usize = 0;
    proof {
        assert(all.take(0) =~= Seq::empty());
        assert(out.deep_view() =~= Seq::empty());
    }
    while i < required.len()
        invariant
            i <= required.len(),
            all == required.deep_view(),
            out.deep_view() == direct_paths(all.take(i as int)),
        decreases required.len() - i,
    {
        assert(all.take(i + 1).drop_last() =~= all.take(i as int));
        if !required[i].indirect {
            let ghost before = out.deep_view();
            let p: String = required[i].path.clone();
            out.push(p);
            assert(out.deep_view() =~= before.push(p@));
        }
        i += 1;
    }
    assert(all.take(i as int) =~= all);
    if let Some(m) = main_module(go_mod) {
        let ghost before = out.deep_view();
        out.push(m);
        assert(out.deep_view() =~= before.push(m@));
    }
    value::sort_texts(out)
}

/// The direct modules of a manifest: its main module and what it requires directly.
pub fn direct_modules(go_mod: &str) -> (r: Vec<String>)
    ensures
        r.deep_view() == direct_set_of(
            requires_in(go_mod@),
            first_declared(cut::lines_of(go_mod@)),
        ),
{
    let required: Vec<RequiredModule> = required_modules(go_mod);
    direct_set(&required, go_mod)
}

/// A module is direct exactly where it is the main module or is required without the mark.
pub proof fn direct_means_required_directly(
    required: Seq<RequiredModuleM>,
    main: Option<Seq<char>>,
    path: Seq<char>,
)
    ensures
        direct_set_of(required, main).contains(path) == (main == Some(path) || exists|i: int|
            0 <= i < required.len() && !(#[trigger] required[i]).indirect && required[i].path
                == path),
{
    let p = direct_paths(required);
    lemma_direct_paths(required, path);
    match main {
        Some(m) => {
            value::lemma_text_set(p.push(m));
            if p.contains(path) {
                let i = choose|i: int| 0 <= i < p.len() && p[i] == path;
                assert(p.push(m)[i] == path);
            }
            assert(p.push(m)[p.len() as int] == m);
            if p.push(m).contains(path) && m != path {
                let i = choose|i: int| 0 <= i < p.push(m).len() && p.push(m)[i] == path;
                assert(p[i] == path);
            }
        },
        None => {
            value::lemma_text_set(p);
        },
    }
}

proof fn lemma_direct_paths(required: Seq<RequiredModuleM>, path: Seq<char>)
    ensures
        direct_paths(required).contains(path) == exists|i: int|
            0 <= i < required.len() && !(#[trigger] required[i]).indirect && required[i].path
                == path,
    decreases required.len(),
{
    if required.len() > 0 {
        let l = required.drop_last();
        let p = direct_paths(l);
        lemma_direct_paths(l, path);
        if p.contains(path) {
            let i = choose|i: int|
                0 <= i < l.len() && !(#[trigger] l[i]).indirect && l[i].path == path;
            assert(required[i] == l[i]);
            let k = choose|k: int| 0 <= k < p.len() && p[k] == path;
            assert(p.push(required.last().path)[k] == path);
        }
        if !required.last().indirect {
            let q = p.push(required.last().path);
            assert(q[p.len() as int] == required.last().path);
            if required.last().path == path {
                assert(!required[required.len() - 1].indirect);
            }
            if q.contains(path) && required.last().path != path {
                let k = choose|k: int| 0 <= k < q.len() && q[k] == path;
                assert(p[k] == path);
            }
        }
        if exists|i: int|
            0 <= i < required.len() && !(#[trigger] required[i]).indirect && required[i].path
                == path {
            let i = choose|i: int|
                0 <= i < required.len() && !(#[trigger] required[i]).indirect && required[i].path
                    == path;
            if i < l.len() {
                assert(l[i] == required[i]);
            }
        }
    }
}

pub open spec fn kind_of(direct: Seq<Seq<char>>, module: Seq<char>) -> DependencyKind {
    if direct.contains(module) {
        DependencyKind::Direct
    } else {
        DependencyKind::Transitive
    }
}

/// Whether a module is a direct dependency.
pub fn dep_kind(direct: &Vec<String>, module: &str) -> (r: DependencyKind)
    ensures
        r == kind_of(direct.deep_view(), module@),
{
    if value::holds_text(direct, module) {
        DependencyKind::Direct
    } else {
        DependencyKind::Transitive
    }
}

pub open spec fn vuln_url(id: Seq<char>) -> Seq<char> {
    "https://pkg.go.dev/vuln/"@ + id
}

/// The page about an advisory.
pub fn go_vuln_url(id: &str) -> (r: String)
    ensures
        r@ == vuln_url(id@),
{
    text::join("https://pkg.go.dev/vuln/", id)
}

// --- Symbols ---

/// What a [`Symbols`] stands for.
#[verifier::ext_equal]
pub struct SymbolsM {
    pub path: Seq<char>,
    pub symbols: Seq<Seq<char>>,
}

/// The symbols of one import path.
#[derive(Debug, PartialEq)]
pub struct Symbols {
    pub path: String,
    pub symbols: Vec<String>,
}

impl DeepView for Symbols {
    type V = SymbolsM;

    open spec fn deep_view(&self) -> SymbolsM {
        SymbolsM {
            path: self.path@,
            symbols: self.symbols.deep_view(),
        }
    }
}

pub open spec fn symbols_of(path: Seq<char>, symbols: Seq<Seq<char>>) -> Seq<Seq<char>> {
    Seq::new(symbols.len(), |i: int| path + "."@ + symbols[i])
}

pub open spec fn all_symbols(imports: Seq<SymbolsM>) -> Seq<Seq<char>>
    decreases imports.len(),
{
    if imports.len() == 0 {
        Seq::empty()
    } else {
        all_symbols(imports.drop_last()) + symbols_of(imports.last().path, imports.last().symbols)
    }
}

/// The symbols, each after its import path, in order and each once.
pub fn render_symbols(imports: &Vec<Symbols>) -> (r: Vec<String>)
    ensures
        r.deep_view() == value::text_set(all_symbols(imports.deep_view())),
{
    let ghost all = imports.deep_view();
    let mut out: Vec<String> = Vec::new();
    let mut i: usize = 0;
    proof {
        assert(all.take(0) =~= Seq::empty());
        assert(out.deep_view() =~= Seq::empty());
    }
    while i < imports.len()
        invariant
            i <= imports.len(),
            all == imports.deep_view(),
            out.deep_view() == all_symbols(all.take(i as int)),
        decreases imports.len() - i,
    {
        let one: &Symbols = &imports[i];
        proof {
            assert(all.take(i + 1).drop_last() =~= all.take(i as int));
            assert(all.take(i + 1).last() == one.deep_view());
        }
        let ghost start = out.deep_view();
        let ghost want = symbols_of(one.path@, one.symbols.deep_view());
        let mut k: usize = 0;
        assert(start + want.take(0) =~= start);
        while k < one.symbols.len()
            invariant
                k <= one.symbols.len(),
                want == symbols_of(one.path@, one.symbols.deep_view()),
                out.deep_view() == start + want.take(k as int),
            decreases one.symbols.len() - k,
        {
            let ghost before = out.deep_view();
            let mut s: String = text::join(one.path.as_str(), ".");
            s.append(one.symbols[k].as_str());
            out.push(s);
            k += 1;
            proof {
                assert(out.deep_view() =~= before.push(s@));
                assert(want.take(k as int) =~= want.take(k - 1).push(want[k - 1]));
                assert(out.deep_view() =~= start + want.take(k as int));
            }
        }
        assert(want.take(k as int) =~= want);
        i += 1;
    }
    assert(all.take(i as int) =~= all);
    value::sort_texts(out)
}

// --- Messages of the checker ---

/// What a [`ScanConfig`] stands for.
#[verifier::ext_equal]
pub struct ScanConfigM {
    pub scan_level: Option<Seq<char>>,
    pub scan_mode: Option<Seq<char>>,
    pub scanner_version: Option<Seq<char>>,
}

/// How the checker was run.
#[derive(Debug, PartialEq)]
pub struct ScanConfig {
    pub scan_level: Option<String>,
    pub scan_mode: Option<String>,
    pub scanner_version: Option<String>,
}

impl DeepView for ScanConfig {
    type V = ScanConfigM;

    open spec fn deep_view(&self) -> ScanConfigM {
        ScanConfigM {
            scan_level: self.scan_level.deep_view(),
            scan_mode: self.scan_mode.deep_view(),
            scanner_version: self.scanner_version.deep_view(),
        }
    }
}

/// What a [`SbomModule`] stands for.
#[verifier::ext_equal]
pub struct SbomModuleM {
    pub path: Seq<char>,
    pub version: Option<Seq<char>>,
}

/// A module of the build.
#[derive(Debug, PartialEq)]
pub struct SbomModule {
    pub path: String,
    pub version: Option<String>,
}

impl DeepView for SbomModule {
    type V = SbomModuleM;

    open spec fn deep_view(&self) -> SbomModuleM {
        SbomModuleM {
            path: self.path@,
            version: self.version.deep_view(),
        }
    }
}

/// What a [`Frame`] stands for.
#[verifier::ext_equal]
pub struct FrameM {
    pub module: Option<Seq<char>>,
    pub version: Option<Seq<char>>,
    pub package: Option<Seq<char>>,
    pub function: Option<Seq<char>>,
    pub receiver: Option<Seq<char>>,
}

/// One frame of a trace.
#[derive(Debug, PartialEq)]
pub struct Frame {
    pub module: Option<String>,
    pub version: Option<String>,
    pub package: Option<String>,
    pub function: Option<String>,
    pub receiver: Option<String>,
}

impl DeepView for Frame {
    type V = FrameM;

    open spec fn deep_view(&self) -> FrameM {
        FrameM {
            module: self.module.deep_view(),
            version: self.version.deep_view(),
            package: self.package.deep_view(),
            function: self.function.deep_view(),
            receiver: self.receiver.deep_view(),
        }
    }
}

impl Plain for Frame {
    fn copy(&self) -> (r: Frame) {
        Frame {
            module: self.module.copy(),
            version: self.version.copy(),
            package: self.package.copy(),
            function: self.function.copy(),
            receiver: self.receiver.copy(),
        }
    }

    fn same(&self, other: &Frame) -> (r: bool) {
        self.module.same(&other.module)
            && self.version.same(&other.version)
            && self.package.same(&other.package)
            && self.function.same(&other.function)
            && self.receiver.same(&other.receiver)
    }
}

/// What a [`Finding`] stands for.
#[verifier::ext_equal]
pub struct FindingM {
    pub osv: Option<Seq<char>>,
    pub fixed_version: Option<Seq<char>>,
    pub trace: Seq<FrameM>,
}

/// What the checker found: the frames from the vulnerable symbol outward.
#[derive(Debug, PartialEq)]
pub struct Finding {
    pub osv: Option<String>,
    pub fixed_version: Option<String>,
    pub trace: Vec<Frame>,
}

impl DeepView for Finding {
    type V = FindingM;

    open spec fn deep_view(&self) -> FindingM {
        FindingM {
            osv: self.osv.deep_view(),
            fixed_version: self.fixed_version.deep_view(),
            trace: self.trace.deep_view(),
        }
    }
}

impl Plain for Finding {
    fn copy(&self) -> (r: Finding) {
        Finding {
            osv: self.osv.copy(),
            fixed_version: self.fixed_version.copy(),
            trace: self.trace.copy(),
        }
    }

    fn same(&self, other: &Finding) -> (r: bool) {
        self.osv.same(&other.osv)
            && self.fixed_version.same(&other.fixed_version)
            && self.trace.same(&other.trace)
    }
}

/// What a [`Import`] stands for.
#[verifier::ext_equal]
pub struct ImportM {
    pub path: Seq<char>,
    pub symbols: Option<Seq<Seq<char>>>,
}

/// The vulnerable symbols of an import path.
#[derive(Debug, PartialEq)]
pub struct Import {
    pub path: String,
    pub symbols: Option<Vec<String>>,
}

impl DeepView for Import {
    type V = ImportM;

    open spec fn deep_view(&self) -> ImportM {
        ImportM {
            path: self.path@,
            symbols: self.symbols.deep_view(),
        }
    }
}

impl Plain for Import {
    fn copy(&self) -> (r: Import) {
        Import {
            path: self.path.clone(),
            symbols: self.symbols.copy(),
        }
    }

    fn same(&self, other: &Import) -> (r: bool) {
        self.path == other.path
            && self.symbols.same(&other.symbols)
    }
}

/// The imports of all affected entries, in order; one that names none adds nothing.
pub open spec fn imports_in(affected: Seq<Option<Seq<ImportM>>>) -> Seq<ImportM>
    decreases affected.len(),
{
    if affected.len() == 0 {
        Seq::empty()
    } else {
        imports_in(affected.drop_last()) + (match affected.last() {
            Some(list) => list,
            None => Seq::empty(),
        })
    }
}

/// The imports of all affected entries of an advisory, in order.
pub fn all_imports(affected: Vec<Option<Vec<Import>>>) -> (r: Vec<Import>)
    ensures
        r.deep_view() == imports_in(affected.deep_view()),
{
    let ghost all = affected.deep_view();
    let mut out: Vec<Import> = Vec::new();
    let ghost mut n: int = 0;
    proof {
        assert(all.take(0) =~= Seq::empty());
        assert(out.deep_view() =~= Seq::empty());
    }
    for x in it: affected
        invariant
            it.seq() == affected@,
            all == affected.deep_view(),
            n == it.index(),
            n <= all.len(),
            out.deep_view() == imports_in(all.take(n)),
    {
        proof {
            assert(all.take(n + 1).drop_last() =~= all.take(n));
            assert(all.take(n + 1).last() == x.deep_view());
        }
        match x {
            Some(list) => {
                value::append(&mut out, list);
            },
            None => {
                assert(out.deep_view() =~= out.deep_view() + Seq::<ImportM>::empty());
            },
        }
        proof {
            n = n + 1;
        }
    }
    assert(all.take(n) =~= all);
    out
}

/// What a [`OsvEntry`] stands for.
#[verifier::ext_equal]
pub struct OsvEntryM {
    pub id: Seq<char>,
    pub aliases: Option<Seq<Seq<char>>>,
    pub summary: Option<Seq<char>>,
    pub imports: Seq<ImportM>,
}

/// An advisory, with the imports that each of its entries names.
#[derive(Debug, PartialEq)]
pub struct OsvEntry {
    pub id: String,
    pub aliases: Option<Vec<String>>,
    pub summary: Option<String>,
    /// The imports of all affected entries, in order.
    pub imports: Vec<Import>,
}

impl DeepView for OsvEntry {
    type V = OsvEntryM;

    open spec fn deep_view(&self) -> OsvEntryM {
        OsvEntryM {
            id: self.id@,
            aliases: self.aliases.deep_view(),
            summary: self.summary.deep_view(),
            imports: self.imports.deep_view(),
        }
    }
}

impl Plain for OsvEntry {
    fn copy(&self) -> (r: OsvEntry) {
        OsvEntry {
            id: self.id.clone(),
            aliases: self.aliases.copy(),
            summary: self.summary.copy(),
            imports: self.imports.copy(),
        }
    }

    fn same(&self, other: &OsvEntry) -> (r: bool) {
        self.id == other.id
            && self.aliases.same(&other.aliases)
            && self.summary.same(&other.summary)
            && self.imports.same(&other.imports)
    }
}

/// What a [`Message`] stands for.
#[verifier::ext_equal]
pub struct MessageM {
    pub config: Option<ScanConfigM>,
    pub sbom: Option<Seq<SbomModuleM>>,
    pub osv: Option<OsvEntryM>,
    pub finding: Option<FindingM>,
}

/// One message: at most one of the parts is set.
#[derive(Debug, PartialEq)]
pub struct Message {
    pub config: Option<ScanConfig>,
    pub sbom: Option<Vec<SbomModule>>,
    pub osv: Option<OsvEntry>,
    pub finding: Option<Finding>,
}

impl DeepView for Message {
    type V = MessageM;

    open spec fn deep_view(&self) -> MessageM {
        MessageM {
            config: self.config.deep_view(),
            sbom: self.sbom.deep_view(),
            osv: self.osv.deep_view(),
            finding: self.finding.deep_view(),
        }
    }
}

/// What the messages come to.
#[verifier::ext_equal]
pub struct Gathered {
    pub scope: Seq<char>,
    pub engine: Seq<char>,
    pub modules: Map<Seq<char>, Seq<char>>,
    pub osvs: Map<Seq<char>, OsvEntryM>,
    pub findings: Seq<FindingM>,
}

pub open spec fn or_text(t: Option<Seq<char>>, other: Seq<char>) -> Seq<char> {
    match t {
        Some(x) => x,
        None => other,
    }
}

pub open spec fn with_config(g: Gathered, c: ScanConfigM) -> Gathered {
    Gathered {
        scope: or_text(c.scan_mode, "source"@) + "/"@ + or_text(c.scan_level, "symbol"@),
        engine: match c.scanner_version {
            Some(v) => "govulncheck@"@ + v,
            None => g.engine,
        },
        ..g
    }
}

pub open spec fn with_modules(
    m: Map<Seq<char>, Seq<char>>,
    modules: Seq<SbomModuleM>,
) -> Map<Seq<char>, Seq<char>>
    decreases modules.len(),
{
    if modules.len() == 0 {
        m
    } else {
        let front = with_modules(m, modules.drop_last());
        match modules.last().version {
            Some(v) => front.insert(modules.last().path, v),
            None => front,
        }
    }
}

/// One more message read. Later parts replace earlier ones of the same name.
pub open spec fn with_message(g: Gathered, m: MessageM) -> Gathered {
    let g1 = match m.config {
        Some(c) => with_config(g, c),
        None => g,
    };
    let g2 = match m.sbom {
        Some(s) => Gathered { modules: with_modules(g1.modules, s), ..g1 },
        None => g1,
    };
    let g3 = match m.osv {
        Some(o) => Gathered { osvs: g2.osvs.insert(o.id, o), ..g2 },
        None => g2,
    };
    match m.finding {
        Some(f) => Gathered { findings: g3.findings.push(f), ..g3 },
        None => g3,
    }
}

pub open spec fn gathered(messages: Seq<MessageM>) -> Gathered
    decreases messages.len(),
{
    if messages.len() == 0 {
        Gathered {
            scope: "source/symbol"@,
            engine: "govulncheck"@,
            modules: Map::empty(),
            osvs: Map::empty(),
            findings: Seq::empty(),
        }
    } else {
        with_message(gathered(messages.drop_last()), messages.last())
    }
}

/// How deep a finding goes.
#[derive(Debug, Clone, Copy, PartialEq, Eq, Structural)]
pub enum Depth {
    /// The module is there.
    Module,
    /// A vulnerable package is imported.
    Package,
    /// A vulnerable symbol is called.
    Symbol,
}

pub open spec fn depth_of(f: FindingM) -> Depth {
    if f.trace.len() > 0 && f.trace[0].function is Some {
        Depth::Symbol
    } else if f.trace.len() > 0 && f.trace[0].package is Some {
        Depth::Package
    } else {
        Depth::Module
    }
}

pub open spec fn depth_rank(d: Depth) -> int {
    match d {
        Depth::Module => 0,
        Depth::Package => 1,
        Depth::Symbol => 2,
    }
}

/// How deep a finding goes, by its first frame.
pub fn depth(f: &Finding) -> (r: Depth)
    ensures
        r == depth_of(f.deep_view()),
{
    let ghost t = f.trace.deep_view();
    assert(t.len() == f.trace.len());
    if f.trace.len() > 0 {
        assert(t[0] == f.trace[0].deep_view());
        if f.trace[0].function.is_some() {
            return Depth::Symbol;
        }
        if f.trace[0].package.is_some() {
            return Depth::Package;
        }
    }
    Depth::Module
}

fn rank_depth(d: Depth) -> (r: u8)
    ensures
        r == depth_rank(d),
{
    match d {
        Depth::Module => 0,
        Depth::Package => 1,
        Depth::Symbol => 2,
    }
}

/// The last of the deepest findings.
pub open spec fn deepest(group: Seq<FindingM>) -> FindingM
    decreases group.len(),
{
    if group.len() <= 1 {
        group[0]
    } else {
        let front = deepest(group.drop_last());
        if depth_rank(depth_of(group.last())) >= depth_rank(depth_of(front)) {
            group.last()
        } else {
            front
        }
    }
}

/// What a frame is called: its package, or else its module, with what is called there.
pub open spec fn label_of(f: FrameM) -> Seq<char> {
    let place = match f.package {
        Some(p) => p,
        None => or_text(f.module, "?"@),
    };
    match f.function {
        Some(func) => match f.receiver {
            Some(recv) => place + "."@ + recv + "."@ + func,
            None => place + "."@ + func,
        },
        None => place,
    }
}

/// What a frame is called.
pub fn frame_label(f: &Frame) -> (r: String)
    ensures
        r@ == label_of(f.deep_view()),
{
    let mut r: String = match &f.package {
        Some(p) => p.clone(),
        None => match &f.module {
            Some(m) => m.clone(),
            None => "?".to_owned(),
        },
    };
    if let Some(func) = &f.function {
        r.append(".");
        if let Some(recv) = &f.receiver {
            r.append(recv.as_str());
            r.append(".");
        }
        r.append(func.as_str());
    }
    r
}

/// The call chain of a finding, from the entry point to the vulnerable symbol.
pub open spec fn witness_of(f: FindingM) -> Seq<Seq<char>> {
    Seq::new(f.trace.len(), |i: int| label_of(f.trace[f.trace.len() - 1 - i]))
}

/// The call chain of a finding, from the entry point to the vulnerable symbol.
pub fn witness(f: &Finding) -> (r: Vec<String>)
    ensures
        r.deep_view() == witness_of(f.deep_view()),
{
    let ghost t = f.trace.deep_view();
    let ghost want = witness_of(f.deep_view());
    let mut r: Vec<String> = Vec::new();
    let mut i: usize = f.trace.len();
    proof {
        assert(t.len() == f.trace.len());
        assert(r.deep_view() =~= want.take(0));
    }
    while i > 0
        invariant
            i <= f.trace.len(),
            t == f.trace.deep_view(),
            t.len() == f.trace.len(),
            want == witness_of(f.deep_view()),
            r.deep_view() == want.take(t.len() - i),
        decreases i,
    {
        i -= 1;
        let ghost before = r.deep_view();
        let label: String = frame_label(&f.trace[i]);
        r.push(label);
        proof {
            assert(t[i as int] == f.trace[i as int].deep_view());
            assert(label@ == want[t.len() - 1 - i]);
            assert(r.deep_view() =~= before.push(label@));
            assert(want.take(t.len() - i) =~= want.take(t.len() - i - 1).push(
                want[t.len() - 1 - i],
            ));
        }
    }
    assert(want.take(t.len() as int) =~= want);
    r
}

/// The verdict for a group: reached where a symbol is called, else unknown. Never unreachable.
pub open spec fn verdict_of(f: FindingM) -> ReachVerdictM {
    match depth_of(f) {
        Depth::Symbol => ReachVerdictM::Reachable { witness: witness_of(f) },
        Depth::Package => ReachVerdictM::Unknown { reason: "imported, not confirmed called"@ },
        Depth::Module => ReachVerdictM::Unknown { reason: "present, not imported"@ },
    }
}

/// The module of the first finding whose first frame names one.
pub open spec fn first_module(group: Seq<FindingM>) -> Option<Seq<char>>
    decreases group.len(),
{
    if group.len() == 0 {
        None
    } else {
        match first_module(group.drop_last()) {
            Some(m) => Some(m),
            None => if group.last().trace.len() > 0 {
                group.last().trace[0].module
            } else {
                None
            },
        }
    }
}

/// The version of the first finding whose first frame names one.
pub open spec fn first_version(group: Seq<FindingM>) -> Option<Seq<char>>
    decreases group.len(),
{
    if group.len() == 0 {
        None
    } else {
        match first_version(group.drop_last()) {
            Some(m) => Some(m),
            None => if group.last().trace.len() > 0 {
                group.last().trace[0].version
            } else {
                None
            },
        }
    }
}

/// The fixed version of the first finding that names one.
pub open spec fn first_fix(group: Seq<FindingM>) -> Option<Seq<char>>
    decreases group.len(),
{
    if group.len() == 0 {
        None
    } else {
        match first_fix(group.drop_last()) {
            Some(m) => Some(m),
            None => group.last().fixed_version,
        }
    }
}

/// What is safe: at least the fixed version, where one is named.
pub open spec fn patched_by(group: Seq<FindingM>) -> Seq<Seq<ComparatorM>> {
    match first_fix(group) {
        Some(v) => if unmarked(v).len() > 0 {
            version::at_least_text(unmarked(v))
        } else {
            Seq::empty()
        },
        None => Seq::empty(),
    }
}

/// The installed version as the build or the trace gives it.
pub open spec fn installed_text(
    group: Seq<FindingM>,
    modules: Map<Seq<char>, Seq<char>>,
    module: Seq<char>,
) -> Option<Seq<char>> {
    if modules.dom().contains(module) {
        Some(modules[module])
    } else {
        first_version(group)
    }
}

pub open spec fn import_symbols(i: ImportM) -> SymbolsM {
    SymbolsM {
        path: i.path,
        symbols: match i.symbols {
            Some(s) => s,
            None => Seq::empty(),
        },
    }
}

/// The symbols that an advisory names.
pub open spec fn affected_symbols_of(o: OsvEntryM) -> Seq<Seq<char>> {
    value::text_set(all_symbols(Seq::new(o.imports.len(), |i: int| import_symbols(o.imports[i]))))
}

/// The symbols that an advisory names.
pub fn affected_symbols(o: &OsvEntry) -> (r: Vec<String>)
    ensures
        r.deep_view() == affected_symbols_of(o.deep_view()),
{
    let ghost all = o.imports.deep_view();
    let ghost want = Seq::new(all.len(), |i: int| import_symbols(all[i]));
    let mut list: Vec<Symbols> = Vec::new();
    let mut i: usize = 0;
    assert(list.deep_view() =~= want.take(0));
    while i < o.imports.len()
        invariant
            i <= o.imports.len(),
            all == o.imports.deep_view(),
            want == Seq::new(all.len(), |i: int| import_symbols(all[i])),
            list.deep_view() == want.take(i as int),
        decreases o.imports.len() - i,
    {
        let ghost before = list.deep_view();
        assert(all[i as int] == o.imports[i as int].deep_view());
        let symbols: Vec<String> = match &o.imports[i].symbols {
            Some(s) => s.copy(),
            None => {
                let none: Vec<String> = Vec::new();
                assert(none.deep_view() =~= Seq::empty());
                none
            },
        };
        let one = Symbols { path: o.imports[i].path.clone(), symbols };
        list.push(one);
        i += 1;
        proof {
            assert(list.deep_view() =~= before.push(one.deep_view()));
            assert(one.deep_view() == want[i - 1]);
            assert(want.take(i as int) =~= want.take(i - 1).push(want[i - 1]));
        }
    }
    assert(want.take(i as int) =~= want);
    assert(want == Seq::new(
        o.deep_view().imports.len(),
        |i: int| import_symbols(o.deep_view().imports[i]),
    ));
    render_symbols(&list)
}

pub open spec fn osv_of(osvs: Map<Seq<char>, OsvEntryM>, id: Seq<char>) -> Option<OsvEntryM> {
    if osvs.dom().contains(id) {
        Some(osvs[id])
    } else {
        None
    }
}

/// The finding for an installed version of a module.
pub open spec fn finding_at(
    id: Seq<char>,
    group: Seq<FindingM>,
    g: Gathered,
    repo: Seq<char>,
    direct: Seq<Seq<char>>,
    module: Seq<char>,
    installed: VersionM,
) -> VulnFindingM {
    let osv = osv_of(g.osvs, id);
    VulnFindingM {
        advisory_id: id,
        aliases: match osv {
            Some(o) => match o.aliases {
                Some(a) => a,
                None => Seq::empty(),
            },
            None => Seq::empty(),
        },
        ecosystem: Ecosystem::Go,
        title: match osv {
            Some(o) => or_text(o.summary, id),
            None => id,
        },
        severity: Severity::Unknown,
        cvss_score: None,
        url: Some(vuln_url(id)),
        occurrences: seq![
            OccurrenceM::InRepo {
                repo,
                package: module,
                installed,
                patched: patched_by(group),
                dependency_kind: kind_of(direct, module),
                dependency_path: Seq::empty(),
                active: None,
                source: DepSourceM::CratesIo,
            },
        ],
        affected_functions: match osv {
            Some(o) => affected_symbols_of(o),
            None => Seq::empty(),
        },
        reachable: None,
        reachability: Some(
            ReachabilityM {
                verdict: verdict_of(deepest(group)),
                config: g.scope,
                engine: g.engine,
                targets: Seq::empty(),
                witness: None,
            },
        ),
        exploit: Exploitability { kev: false, epss: None },
    }
}

/// What becomes of the findings about one advisory.
#[verifier::ext_equal]
pub enum BuiltM {
    /// A finding.
    Found(VulnFindingM),
    /// Nothing: no module or no version is named.
    Nothing,
    /// Nothing, though a version is named: it cannot be read.
    Unreadable { module: Seq<char>, version: Seq<char> },
}

/// What becomes of the findings about one advisory.
pub open spec fn built(
    id: Seq<char>,
    group: Seq<FindingM>,
    g: Gathered,
    repo: Seq<char>,
    direct: Seq<Seq<char>>,
) -> BuiltM {
    match first_module(group) {
        None => BuiltM::Nothing,
        Some(module) => match installed_text(group, g.modules, module) {
            None => BuiltM::Nothing,
            Some(raw) => match go_version(raw) {
                None => BuiltM::Unreadable { module, version: raw },
                Some(v) => BuiltM::Found(finding_at(id, group, g, repo, direct, module, v)),
            },
        },
    }
}

/// What a [`Dropped`] stands for.
#[verifier::ext_equal]
pub struct DroppedM {
    pub id: Seq<char>,
    pub module: Seq<char>,
    pub version: Seq<char>,
}

/// An advisory that was reported for a version that cannot be read.
#[derive(Debug, PartialEq)]
pub struct Dropped {
    pub id: String,
    pub module: String,
    pub version: String,
}

impl DeepView for Dropped {
    type V = DroppedM;

    open spec fn deep_view(&self) -> DroppedM {
        DroppedM {
            id: self.id@,
            module: self.module@,
            version: self.version@,
        }
    }
}

/// What becomes of the findings about one advisory.
#[derive(Debug)]
pub enum Built {
    Found(VulnFinding),
    Nothing,
    Unreadable { module: String, version: String },
}

impl DeepView for Built {
    type V = BuiltM;

    open spec fn deep_view(&self) -> BuiltM {
        match self {
            Built::Found(f) => BuiltM::Found(f.deep_view()),
            Built::Nothing => BuiltM::Nothing,
            Built::Unreadable { module, version } => BuiltM::Unreadable {
                module: module@,
                version: version@,
            },
        }
    }
}

/// What the messages come to.
#[derive(Debug)]
pub struct Gather {
    pub scope: String,
    pub engine: String,
    pub modules: TextMap<String>,
    pub osvs: TextMap<OsvEntry>,
    pub findings: Vec<Finding>,
}

impl DeepView for Gather {
    type V = Gathered;

    open spec fn deep_view(&self) -> Gathered {
        Gathered {
            scope: self.scope@,
            engine: self.engine@,
            modules: self.modules.deep_view(),
            osvs: self.osvs.deep_view(),
            findings: self.findings.deep_view(),
        }
    }
}

fn text_or(t: &Option<String>, other: &str) -> (r: String)
    ensures
        r@ == or_text(t.deep_view(), other@),
{
    match t {
        Some(x) => x.clone(),
        None => other.to_owned(),
    }
}

fn add_modules(m: TextMap<String>, modules: &Vec<SbomModule>) -> (r: TextMap<String>)
    ensures
        r.deep_view() == with_modules(m.deep_view(), modules.deep_view()),
{
    let ghost all = modules.deep_view();
    let ghost start = m.deep_view();
    let mut r: TextMap<String> = m;
    let mut i: usize = 0;
    assert(all.take(0) =~= Seq::empty());
    while i < modules.len()
        invariant
            i <= modules.len(),
            all == modules.deep_view(),
            r.deep_view() == with_modules(start, all.take(i as int)),
        decreases modules.len() - i,
    {
        proof {
            assert(all.take(i + 1).drop_last() =~= all.take(i as int));
            assert(all.take(i + 1).last() == modules[i as int].deep_view());
        }
        if let Some(v) = &modules[i].version {
            r = r.insert(modules[i].path.clone(), v.clone());
        }
        i += 1;
    }
    assert(all.take(i as int) =~= all);
    r
}

/// Reads the messages of the checker.
pub fn gather(messages: &Vec<Message>) -> (r: Gather)
    ensures
        r.deep_view() == gathered(messages.deep_view()),
{
    let ghost all = messages.deep_view();
    let mut scope: String = "source/symbol".to_owned();
    let mut engine: String = "govulncheck".to_owned();
    let mut modules: TextMap<String> = TextMap::new();
    let mut osvs: TextMap<OsvEntry> = TextMap::new();
    let mut findings: Vec<Finding> = Vec::new();
    let mut i: usize = 0;
    proof {
        assert(all.take(0) =~= Seq::empty());
        assert(findings.deep_view() =~= Seq::empty());
    }
    while i < messages.len()
        invariant
            i <= messages.len(),
            all == messages.deep_view(),
            (Gathered {
                scope: scope@,
                engine: engine@,
                modules: modules.deep_view(),
                osvs: osvs.deep_view(),
                findings: findings.deep_view(),
            }) == gathered(all.take(i as int)),
        decreases messages.len() - i,
    {
        let m: &Message = &messages[i];
        proof {
            assert(all.take(i + 1).drop_last() =~= all.take(i as int));
            assert(all.take(i + 1).last() == m.deep_view());
        }
        if let Some(c) = &m.config {
            let mut s: String = text_or(&c.scan_mode, "source");
            s.append("/");
            s.append(text_or(&c.scan_level, "symbol").as_str());
            scope = s;
            if let Some(v) = &c.scanner_version {
                engine = text::join("govulncheck@", v.as_str());
            }
        }
        if let Some(s) = &m.sbom {
            modules = add_modules(modules, s);
        }
        if let Some(o) = &m.osv {
            osvs = osvs.insert(o.id.clone(), o.copy());
        }
        if let Some(f) = &m.finding {
            let ghost before = findings.deep_view();
            let one: Finding = f.copy();
            findings.push(one);
            assert(findings.deep_view() =~= before.push(one.deep_view()));
        }
        i += 1;
    }
    assert(all.take(i as int) =~= all);
    Gather { scope, engine, modules, osvs, findings }
}

proof fn lemma_module_stays(group: Seq<FindingM>, n: int)
    requires
        0 <= n <= group.len(),
        first_module(group.take(n)) is Some,
    ensures
        first_module(group) == first_module(group.take(n)),
    decreases group.len(),
{
    if n < group.len() {
        assert(group.drop_last().take(n) =~= group.take(n));
        lemma_module_stays(group.drop_last(), n);
    } else {
        assert(group.take(n) =~= group);
    }
}

proof fn lemma_version_stays(group: Seq<FindingM>, n: int)
    requires
        0 <= n <= group.len(),
        first_version(group.take(n)) is Some,
    ensures
        first_version(group) == first_version(group.take(n)),
    decreases group.len(),
{
    if n < group.len() {
        assert(group.drop_last().take(n) =~= group.take(n));
        lemma_version_stays(group.drop_last(), n);
    } else {
        assert(group.take(n) =~= group);
    }
}

proof fn lemma_fix_stays(group: Seq<FindingM>, n: int)
    requires
        0 <= n <= group.len(),
        first_fix(group.take(n)) is Some,
    ensures
        first_fix(group) == first_fix(group.take(n)),
    decreases group.len(),
{
    if n < group.len() {
        assert(group.drop_last().take(n) =~= group.take(n));
        lemma_fix_stays(group.drop_last(), n);
    } else {
        assert(group.take(n) =~= group);
    }
}

fn find_module(group: &Vec<Finding>) -> (r: Option<String>)
    ensures
        r.deep_view() == first_module(group.deep_view()),
{
    let ghost all = group.deep_view();
    let mut i: usize = 0;
    assert(all.take(0) =~= Seq::empty());
    while i < group.len()
        invariant
            i <= group.len(),
            all == group.deep_view(),
            first_module(all.take(i as int)) is None,
        decreases group.len() - i,
    {
        let f: &Finding = &group[i];
        proof {
            assert(all.take(i + 1).drop_last() =~= all.take(i as int));
            assert(all.take(i + 1).last() == f.deep_view());
            assert(f.trace.deep_view().len() == f.trace.len());
        }
        if f.trace.len() > 0 {
            assert(f.trace.deep_view()[0] == f.trace[0].deep_view());
            if let Some(m) = &f.trace[0].module {
                proof {
                    lemma_module_stays(all, i + 1);
                }
                return Some(m.clone());
            }
        }
        i += 1;
    }
    assert(all.take(i as int) =~= all);
    None
}

fn find_version(group: &Vec<Finding>) -> (r: Option<String>)
    ensures
        r.deep_view() == first_version(group.deep_view()),
{
    let ghost all = group.deep_view();
    let mut i: usize = 0;
    assert(all.take(0) =~= Seq::empty());
    while i < group.len()
        invariant
            i <= group.len(),
            all == group.deep_view(),
            first_version(all.take(i as int)) is None,
        decreases group.len() - i,
    {
        let f: &Finding = &group[i];
        proof {
            assert(all.take(i + 1).drop_last() =~= all.take(i as int));
            assert(all.take(i + 1).last() == f.deep_view());
            assert(f.trace.deep_view().len() == f.trace.len());
        }
        if f.trace.len() > 0 {
            assert(f.trace.deep_view()[0] == f.trace[0].deep_view());
            if let Some(m) = &f.trace[0].version {
                proof {
                    lemma_version_stays(all, i + 1);
                }
                return Some(m.clone());
            }
        }
        i += 1;
    }
    assert(all.take(i as int) =~= all);
    None
}

fn find_patched(group: &Vec<Finding>) -> (r: Vec<VersionReq>)
    ensures
        r.deep_view() == patched_by(group.deep_view()),
        first_fix(group.deep_view()) matches Some(t) ==> (go_version(t) matches Some(f) ==> (r.len()
            > 0 ==> version::starts_at(r.deep_view()[0], f))),
{
    let ghost all = group.deep_view();
    let mut i: usize = 0;
    assert(all.take(0) =~= Seq::empty());
    while i < group.len()
        invariant
            i <= group.len(),
            all == group.deep_view(),
            first_fix(all.take(i as int)) is None,
        decreases group.len() - i,
    {
        proof {
            assert(all.take(i + 1).drop_last() =~= all.take(i as int));
            assert(all.take(i + 1).last() == group[i as int].deep_view());
        }
        if let Some(v) = &group[i].fixed_version {
            proof {
                lemma_fix_stays(all, i + 1);
            }
            let bare: String = strip_v(v.as_str());
            if !bare.as_str().is_empty() {
                let r: Vec<VersionReq> = version::require_at_least(bare.as_str());
                proof {
                    if let Some(f) = go_version(v@) {
                        assert(version::spells(bare@, f));
                    }
                }
                return r;
            }
            let none: Vec<VersionReq> = Vec::new();
            assert(none.deep_view() =~= Seq::empty());
            return none;
        }
        i += 1;
    }
    assert(all.take(i as int) =~= all);
    let none: Vec<VersionReq> = Vec::new();
    assert(none.deep_view() =~= Seq::empty());
    none
}

fn find_deepest(group: &Vec<Finding>) -> (r: &Finding)
    requires
        group.len() > 0,
    ensures
        r.deep_view() == deepest(group.deep_view()),
{
    let ghost all = group.deep_view();
    let mut best: usize = 0;
    let mut i: usize = 1;
    assert(all.take(1)[0] == group[0].deep_view());
    while i < group.len()
        invariant
            1 <= i <= group.len(),
            best < i,
            all == group.deep_view(),
            group[best as int].deep_view() == deepest(all.take(i as int)),
        decreases group.len() - i,
    {
        proof {
            assert(all.take(i + 1).drop_last() =~= all.take(i as int));
            assert(all.take(i + 1).last() == group[i as int].deep_view());
        }
        if rank_depth(depth(&group[i])) >= rank_depth(depth(&group[best])) {
            best = i;
        }
        i += 1;
    }
    assert(all.take(i as int) =~= all);
    &group[best]
}

proof fn lemma_module_means_some(group: Seq<FindingM>)
    requires
        first_module(group) is Some,
    ensures
        group.len() > 0,
{
}

/// Makes the finding about one advisory from what the checker found about it.
pub fn build_finding(
    id: &str,
    group: &Vec<Finding>,
    g: &Gather,
    repo: &RepoId,
    direct: &Vec<String>,
) -> (r: Built)
    ensures
        r.deep_view() == built(
            id@,
            group.deep_view(),
            g.deep_view(),
            repo.deep_view(),
            direct.deep_view(),
        ),
        r.deep_view() matches BuiltM::Found(x) && x.occurrences[0] matches OccurrenceM::InRepo {
            installed,
            ..
        } && (first_fix(group.deep_view()) matches Some(t) ==> go_version(t) is Some)
            && tier_c::before_fix(
            installed,
            match first_fix(group.deep_view()) {
                Some(t) => go_version(t),
                None => None,
            },
        ) ==> finding::vulnerable(r.deep_view()->Found_0.occurrences[0]),
{
    let module: String = match find_module(group) {
        Some(m) => m,
        None => {
            return Built::Nothing;
        },
    };
    proof {
        lemma_module_means_some(group.deep_view());
        assert(group.deep_view().len() == group.len());
    }
    let raw: Option<String> = match g.modules.get(module.as_str()) {
        Some(v) => Some(v.clone()),
        None => find_version(group),
    };
    let raw: String = match raw {
        Some(v) => v,
        None => {
            return Built::Nothing;
        },
    };
    let installed: Version = match parse_go_version(raw.as_str()) {
        Some(v) => v,
        None => {
            return Built::Unreadable { module, version: raw };
        },
    };
    let top: &Finding = find_deepest(group);
    let verdict: ReachVerdict = match depth(top) {
        Depth::Symbol => ReachVerdict::Reachable { witness: witness(top) },
        Depth::Package => ReachVerdict::Unknown {
            reason: "imported, not confirmed called".to_owned(),
        },
        Depth::Module => ReachVerdict::Unknown { reason: "present, not imported".to_owned() },
    };
    let no_texts: Vec<String> = Vec::new();
    let no_path: Vec<String> = Vec::new();
    let no_targets: Vec<String> = Vec::new();
    proof {
        assert(no_texts.deep_view() =~= Seq::empty());
        assert(no_path.deep_view() =~= Seq::empty());
        assert(no_targets.deep_view() =~= Seq::empty());
    }
    let mut aliases: Vec<String> = no_texts;
    let mut title: String = id.to_owned();
    let mut functions: Vec<String> = Vec::new();
    assert(functions.deep_view() =~= Seq::empty());
    if let Some(o) = g.osvs.get(id) {
        if let Some(a) = &o.aliases {
            aliases = a.copy();
        }
        if let Some(s) = &o.summary {
            title = s.clone();
        }
        functions = affected_symbols(o);
    }
    let dependency_kind: DependencyKind = dep_kind(direct, module.as_str());
    let patched: Vec<VersionReq> = find_patched(group);
    proof {
        use_type_invariant(&installed);
        let v = installed.deep_view();
        if let Some(t) = first_fix(group.deep_view()) {
            if let Some(f) = go_version(t) {
                version::numbers_decide_first(v, f);
                if tier_c::before_fix(v, Some(f)) && patched.len() > 0 {
                    assert(!version::semver_satisfies(patched.deep_view()[0], v));
                }
                assert(tier_c::before_fix(v, Some(f)) ==> !finding::safe(patched.deep_view(), v));
            }
        } else {
            assert(!finding::safe(patched.deep_view(), v));
        }
    }
    let occurrence = Occurrence::InRepo {
        repo: repo.copy(),
        package: module,
        installed,
        patched,
        dependency_kind,
        dependency_path: no_path,
        active: None,
        source: DepSource::CratesIo,
    };
    let mut occurrences: Vec<Occurrence> = Vec::new();
    occurrences.push(occurrence);
    assert(occurrences.deep_view() =~= seq![occurrence.deep_view()]);
    Built::Found(
        VulnFinding {
            advisory_id: id.to_owned(),
            aliases,
            ecosystem: Ecosystem::Go,
            title,
            severity: Severity::Unknown,
            cvss_score: None,
            url: Some(go_vuln_url(id)),
            occurrences,
            affected_functions: functions,
            reachable: None,
            reachability: Some(
                Reachability {
                    verdict,
                    config: g.scope.clone(),
                    engine: g.engine.clone(),
                    targets: no_targets,
                    witness: None,
                },
            ),
            exploit: Exploitability { kev: false, epss: None },
        },
    )
}

/// The findings about one advisory, in order.
pub open spec fn about(findings: Seq<FindingM>, id: Seq<char>) -> Seq<FindingM>
    decreases findings.len(),
{
    if findings.len() == 0 {
        Seq::empty()
    } else if findings.last().osv == Some(id) {
        about(findings.drop_last(), id).push(findings.last())
    } else {
        about(findings.drop_last(), id)
    }
}

/// The advisories that the findings are about, in the order of the findings.
pub open spec fn ids_in(findings: Seq<FindingM>) -> Seq<Seq<char>>
    decreases findings.len(),
{
    if findings.len() == 0 {
        Seq::empty()
    } else {
        let front = ids_in(findings.drop_last());
        match findings.last().osv {
            Some(id) => front.push(id),
            None => front,
        }
    }
}

/// The findings for the advisories, in order.
pub open spec fn found_for(
    ids: Seq<Seq<char>>,
    g: Gathered,
    repo: Seq<char>,
    direct: Seq<Seq<char>>,
) -> Seq<VulnFindingM>
    decreases ids.len(),
{
    if ids.len() == 0 {
        Seq::empty()
    } else {
        let front = found_for(ids.drop_last(), g, repo, direct);
        match built(ids.last(), about(g.findings, ids.last()), g, repo, direct) {
            BuiltM::Found(f) => front.push(f),
            _ => front,
        }
    }
}

/// The advisories that were dropped, in order.
pub open spec fn dropped_for(
    ids: Seq<Seq<char>>,
    g: Gathered,
    repo: Seq<char>,
    direct: Seq<Seq<char>>,
) -> Seq<DroppedM>
    decreases ids.len(),
{
    if ids.len() == 0 {
        Seq::empty()
    } else {
        let front = dropped_for(ids.drop_last(), g, repo, direct);
        match built(ids.last(), about(g.findings, ids.last()), g, repo, direct) {
            BuiltM::Unreadable { module, version } => front.push(
                DroppedM { id: ids.last(), module, version },
            ),
            _ => front,
        }
    }
}

fn collect_about(findings: &Vec<Finding>, id: &str) -> (r: Vec<Finding>)
    ensures
        r.deep_view() == about(findings.deep_view(), id@),
{
    let ghost all = findings.deep_view();
    let mut r: Vec<Finding> = Vec::new();
    let mut i: usize = 0;
    proof {
        assert(all.take(0) =~= Seq::empty());
        assert(r.deep_view() =~= Seq::empty());
    }
    while i < findings.len()
        invariant
            i <= findings.len(),
            all == findings.deep_view(),
            r.deep_view() == about(all.take(i as int), id@),
        decreases findings.len() - i,
    {
        proof {
            assert(all.take(i + 1).drop_last() =~= all.take(i as int));
            assert(all.take(i + 1).last() == findings[i as int].deep_view());
        }
        if text::is_text(&findings[i].osv, id) {
            let ghost before = r.deep_view();
            let f: Finding = findings[i].copy();
            r.push(f);
            assert(r.deep_view() =~= before.push(f.deep_view()));
        }
        i += 1;
    }
    assert(all.take(i as int) =~= all);
    r
}

fn collect_ids(findings: &Vec<Finding>) -> (r: Vec<String>)
    ensures
        r.deep_view() == ids_in(findings.deep_view()),
{
    let ghost all = findings.deep_view();
    let mut r: Vec<String> = Vec::new();
    let mut i: usize = 0;
    proof {
        assert(all.take(0) =~= Seq::empty());
        assert(r.deep_view() =~= Seq::empty());
    }
    while i < findings.len()
        invariant
            i <= findings.len(),
            all == findings.deep_view(),
            r.deep_view() == ids_in(all.take(i as int)),
        decreases findings.len() - i,
    {
        proof {
            assert(all.take(i + 1).drop_last() =~= all.take(i as int));
            assert(all.take(i + 1).last() == findings[i as int].deep_view());
        }
        if let Some(id) = &findings[i].osv {
            let ghost before = r.deep_view();
            let name: String = id.clone();
            r.push(name);
            assert(r.deep_view() =~= before.push(name@));
        }
        i += 1;
    }
    assert(all.take(i as int) =~= all);
    r
}

/// What the messages of the checker say of a repository: the findings, one for an advisory and
/// in the order of the advisories, and the advisories that were dropped because the installed
/// version cannot be read.
pub fn parse_findings(messages: &Vec<Message>, repo: &RepoId, direct: &Vec<String>) -> (r: (
    Vec<VulnFinding>,
    Vec<Dropped>,
))
    ensures
        ({
            let g = gathered(messages.deep_view());
            let ids = value::text_set(ids_in(g.findings));
            &&& r.0.deep_view() == found_for(ids, g, repo.deep_view(), direct.deep_view())
            &&& r.1.deep_view() == dropped_for(ids, g, repo.deep_view(), direct.deep_view())
        }),
{
    let g: Gather = gather(messages);
    let ids: Vec<String> = value::sort_texts(collect_ids(&g.findings));
    let ghost all = ids.deep_view();
    let mut found: Vec<VulnFinding> = Vec::new();
    let mut dropped: Vec<Dropped> = Vec::new();
    let mut i: usize = 0;
    proof {
        assert(all.take(0) =~= Seq::empty());
        assert(found.deep_view() =~= Seq::empty());
        assert(dropped.deep_view() =~= Seq::empty());
    }
    while i < ids.len()
        invariant
            i <= ids.len(),
            all == ids.deep_view(),
            found.deep_view() == found_for(
                all.take(i as int),
                g.deep_view(),
                repo.deep_view(),
                direct.deep_view(),
            ),
            dropped.deep_view() == dropped_for(
                all.take(i as int),
                g.deep_view(),
                repo.deep_view(),
                direct.deep_view(),
            ),
        decreases ids.len() - i,
    {
        assert(all.take(i + 1).drop_last() =~= all.take(i as int));
        let group: Vec<Finding> = collect_about(&g.findings, ids[i].as_str());
        let ghost (before, gone) = (found.deep_view(), dropped.deep_view());
        match build_finding(ids[i].as_str(), &group, &g, repo, direct) {
            Built::Found(f) => {
                found.push(f);
                assert(found.deep_view() =~= before.push(f.deep_view()));
            },
            Built::Nothing => {},
            Built::Unreadable { module, version } => {
                let d = Dropped { id: ids[i].clone(), module, version };
                dropped.push(d);
                assert(dropped.deep_view() =~= gone.push(d.deep_view()));
            },
        }
        i += 1;
    }
    assert(all.take(i as int) =~= all);
    (found, dropped)
}

/// The checker never makes a finding unreachable.
pub proof fn checker_never_proves_absence(
    ids: Seq<Seq<char>>,
    g: Gathered,
    repo: Seq<char>,
    direct: Seq<Seq<char>>,
    i: int,
)
    requires
        0 <= i < found_for(ids, g, repo, direct).len(),
    ensures
        found_for(ids, g, repo, direct)[i].reachability matches Some(r) && !(
        r.verdict is NotReachable),
    decreases ids.len(),
{
    let front = found_for(ids.drop_last(), g, repo, direct);
    if i < front.len() {
        checker_never_proves_absence(ids.drop_last(), g, repo, direct, i);
    }
}

/// A call of a vulnerable symbol anywhere among the findings about an advisory makes the
/// verdict one of being reached, with that call chain or a later one as the witness.
pub proof fn a_called_symbol_is_reached(group: Seq<FindingM>, i: int)
    requires
        0 <= i < group.len(),
        depth_of(group[i]) == Depth::Symbol,
    ensures
        verdict_of(deepest(group)) is Reachable,
    decreases group.len(),
{
    lemma_deepest(group, i);
}

proof fn lemma_deepest(group: Seq<FindingM>, i: int)
    requires
        0 <= i < group.len(),
    ensures
        depth_rank(depth_of(deepest(group))) >= depth_rank(depth_of(group[i])),
    decreases group.len(),
{
    if group.len() > 1 && i < group.len() - 1 {
        assert(group.drop_last()[i] == group[i]);
        lemma_deepest(group.drop_last(), i);
    }
}

proof fn lemma_first_fix(group: Seq<FindingM>, i: int)
    requires
        0 <= i <= group.len(),
        i < group.len() ==> group[i].fixed_version is Some,
        forall|k: int| 0 <= k < i ==> (#[trigger] group[k]).fixed_version is None,
    ensures
        first_fix(group) == (if i < group.len() {
            group[i].fixed_version
        } else {
            None
        }),
    decreases group.len(),
{
    if group.len() > 0 {
        let l = group.drop_last();
        let n = l.len() as int;
        assert forall|k: int| 0 <= k < n implies #[trigger] l[k] == group[k] by {}
        assert(group[n] == group.last());
        if i < group.len() {
            lemma_first_fix(l, i);
        } else {
            lemma_first_fix(l, n);
            assert(group[n].fixed_version is None);
        }
    }
}

/// The first fix that is named among the findings about an advisory is the only bound of what is
/// safe: where it spells a version that is exactly one bound, from that version on. Where none
/// is named nothing is safe.
pub proof fn the_first_fix_is_the_only_bound(group: Seq<FindingM>, i: int)
    requires
        0 <= i <= group.len(),
        i < group.len() ==> group[i].fixed_version is Some,
        forall|k: int| 0 <= k < i ==> (#[trigger] group[k]).fixed_version is None,
    ensures
        i == group.len() ==> patched_by(group).len() == 0,
        i < group.len() ==> patched_by(group).len() <= 1,
        i < group.len() && go_version(group[i].fixed_version->0) is Some && unmarked(
            group[i].fixed_version->0,
        ).len() > 0 ==> tier_c::only_from(
            patched_by(group),
            go_version(group[i].fixed_version->0)->0,
        ),
{
    lemma_first_fix(group, i);
}

/// Whether a finding is about a call: its first frame names a function.
pub open spec fn is_called(f: FindingM) -> bool {
    f.trace.len() > 0 && f.trace[0].function is Some
}

/// Whether a finding is about an import: its first frame names a package.
pub open spec fn is_imported(f: FindingM) -> bool {
    f.trace.len() > 0 && f.trace[0].package is Some
}

proof fn lemma_deepest_at(group: Seq<FindingM>) -> (i: int)
    requires
        group.len() > 0,
    ensures
        0 <= i < group.len(),
        deepest(group) == group[i],
        forall|k: int|
            0 <= k < group.len() ==> depth_rank(depth_of(#[trigger] group[k])) <= depth_rank(
                depth_of(group[i]),
            ),
        forall|k: int|
            i < k < group.len() ==> depth_rank(depth_of(#[trigger] group[k])) < depth_rank(
                depth_of(group[i]),
            ),
    decreases group.len(),
{
    if group.len() == 1 {
        0
    } else {
        let l = group.drop_last();
        let n = l.len() as int;
        let i = lemma_deepest_at(l);
        assert forall|k: int| 0 <= k < n implies #[trigger] l[k] == group[k] by {}
        assert(group[n] == group.last());
        if depth_rank(depth_of(group[n])) >= depth_rank(depth_of(l[i])) {
            assert forall|k: int| 0 <= k < group.len() implies depth_rank(
                depth_of(#[trigger] group[k]),
            ) <= depth_rank(depth_of(group[n])) by {
                if k < n {
                    assert(depth_rank(depth_of(l[k])) <= depth_rank(depth_of(l[i])));
                }
            }
            n
        } else {
            assert forall|k: int| i < k < group.len() implies depth_rank(
                depth_of(#[trigger] group[k]),
            ) < depth_rank(depth_of(group[i])) by {
                if k < n {
                    assert(depth_rank(depth_of(l[k])) < depth_rank(depth_of(l[i])));
                }
            }
            assert forall|k: int| 0 <= k < group.len() implies depth_rank(
                depth_of(#[trigger] group[k]),
            ) <= depth_rank(depth_of(group[i])) by {
                if k < n {
                    assert(depth_rank(depth_of(l[k])) <= depth_rank(depth_of(l[i])));
                }
            }
            i
        }
    }
}

/// An advisory is reached exactly where some finding about it is about a call, and the witness is
/// the chain of the last such finding. Else nothing is decided: it is imported where some finding
/// is about an import, and merely present where none is.
pub proof fn a_call_decides(group: Seq<FindingM>)
    requires
        group.len() > 0,
    ensures
        verdict_of(deepest(group)) is Reachable <==> exists|i: int|
            0 <= i < group.len() && is_called(#[trigger] group[i]),
        verdict_of(deepest(group)) is Unknown <==> forall|i: int|
            0 <= i < group.len() ==> !is_called(#[trigger] group[i]),
        forall|i: int|
            0 <= i < group.len() && is_called(#[trigger] group[i]) && (forall|k: int|
                i < k < group.len() ==> !is_called(#[trigger] group[k])) ==> verdict_of(
                deepest(group),
            ) == (ReachVerdictM::Reachable { witness: witness_of(group[i]) }),
        (forall|i: int| 0 <= i < group.len() ==> !is_called(#[trigger] group[i])) ==> verdict_of(
            deepest(group),
        ) == (ReachVerdictM::Unknown {
            reason: if exists|i: int| 0 <= i < group.len() && is_imported(#[trigger] group[i]) {
                "imported, not confirmed called"@
            } else {
                "present, not imported"@
            },
        }),
{
    let m = lemma_deepest_at(group);
    assert forall|i: int| 0 <= i < group.len() implies is_called(#[trigger] group[i]) == (depth_rank(
        depth_of(group[i]),
    ) == 2) by {}
    assert forall|i: int|
        0 <= i < group.len() && is_called(#[trigger] group[i]) && (forall|k: int|
            i < k < group.len() ==> !is_called(#[trigger] group[k])) implies verdict_of(
        deepest(group),
    ) == (ReachVerdictM::Reachable { witness: witness_of(group[i]) }) by {
        assert(depth_rank(depth_of(group[i])) <= depth_rank(depth_of(group[m])));
        assert(is_called(group[m]));
        if m < i {
            assert(depth_rank(depth_of(group[i])) < depth_rank(depth_of(group[m])));
        } else if i < m {
            assert(!is_called(group[m]));
        }
    }
    if exists|i: int| 0 <= i < group.len() && is_called(#[trigger] group[i]) {
        let i = choose|i: int| 0 <= i < group.len() && is_called(#[trigger] group[i]);
        assert(depth_rank(depth_of(group[i])) <= depth_rank(depth_of(group[m])));
    } else {
        assert(!is_called(group[m]));
        if exists|i: int| 0 <= i < group.len() && is_imported(#[trigger] group[i]) {
            let i = choose|i: int| 0 <= i < group.len() && is_imported(#[trigger] group[i]);
            assert(!is_called(group[i]));
            assert(depth_rank(depth_of(group[i])) <= depth_rank(depth_of(group[m])));
        } else {
            assert(!is_imported(group[m]));
        }
    }
}

/// A call chain goes from the entry point to the vulnerable symbol: it is the trace backwards,
/// frame by frame. A frame is called by its package or else its module, and by the function that
/// is called there, after its receiver where it has one.
pub proof fn a_chain_ends_at_the_symbol(f: FindingM, k: int)
    requires
        0 <= k < f.trace.len(),
    ensures
        witness_of(f).len() == f.trace.len(),
        ({
            let frame = f.trace[k];
            let name = witness_of(f)[f.trace.len() - 1 - k];
            let place = if frame.package is Some {
                frame.package->0
            } else if frame.module is Some {
                frame.module->0
            } else {
                seq!['?']
            };
            &&& frame.function is None ==> name == place
            &&& frame.function is Some && frame.receiver is None ==> name == place.push('.')
                + frame.function->0
            &&& frame.function is Some && frame.receiver is Some ==> name == (place.push('.')
                + frame.receiver->0).push('.') + frame.function->0
        }),
{
    reveal_strlit("?");
    reveal_strlit(".");
    assert("?"@ =~= seq!['?']);
    let frame = f.trace[k];
    let place = if frame.package is Some {
        frame.package->0
    } else if frame.module is Some {
        frame.module->0
    } else {
        seq!['?']
    };
    assert(place + "."@ =~= place.push('.'));
    if frame.function is Some && frame.receiver is Some {
        assert(place + "."@ + frame.receiver->0 + "."@ =~= (place.push('.')
            + frame.receiver->0).push('.'));
    }
}

/// The installed version of a module is the one that the build lists, and only without it the
/// first one that a trace names.
pub proof fn the_build_knows_the_version(
    group: Seq<FindingM>,
    modules: Map<Seq<char>, Seq<char>>,
    module: Seq<char>,
    i: int,
)
    requires
        0 <= i <= group.len(),
        i < group.len() ==> group[i].trace.len() > 0 && group[i].trace[0].version is Some,
        forall|k: int|
            0 <= k < i ==> (#[trigger] group[k]).trace.len() == 0 || group[k].trace[0].version is None,
    ensures
        modules.dom().contains(module) ==> installed_text(group, modules, module) == Some(
            modules[module],
        ),
        !modules.dom().contains(module) ==> installed_text(group, modules, module) == (if i
            < group.len() {
            group[i].trace[0].version
        } else {
            None
        }),
    decreases group.len(),
{
    if group.len() > 0 {
        let l = group.drop_last();
        let n = l.len() as int;
        assert forall|k: int| 0 <= k < n implies #[trigger] l[k] == group[k] by {}
        assert(group[n] == group.last());
        if i < group.len() {
            the_build_knows_the_version(l, modules, module, i);
        } else {
            the_build_knows_the_version(l, modules, module, n);
            assert(group[n].trace.len() == 0 || group[n].trace[0].version is None);
        }
    }
}

/// The findings about an advisory are those that name it, in their order.
pub proof fn about_means_named(findings: Seq<FindingM>, id: Seq<char>)
    ensures
        about(findings, id) == findings.filter(|f: FindingM| f.osv == Some(id)),
    decreases findings.len(),
{
    reveal(Seq::filter);
    if findings.len() > 0 {
        about_means_named(findings.drop_last(), id);
    }
}

/// Every advisory of a list is told of: it has a finding where the module and its version can be
/// read, and is named as dropped where the version cannot; there is nothing else.
pub proof fn every_advisory_is_found_or_dropped(
    ids: Seq<Seq<char>>,
    g: Gathered,
    repo: Seq<char>,
    direct: Seq<Seq<char>>,
)
    ensures
        found_for(ids, g, repo, direct) == ids.filter(
            |id: Seq<char>| built(id, about(g.findings, id), g, repo, direct) is Found,
        ).map_values(
            |id: Seq<char>| built(id, about(g.findings, id), g, repo, direct)->Found_0,
        ),
        dropped_for(ids, g, repo, direct).map_values(|d: DroppedM| d.id) == ids.filter(
            |id: Seq<char>| built(id, about(g.findings, id), g, repo, direct) is Unreadable,
        ),
    decreases ids.len(),
{
    reveal(Seq::filter);
    let p = |id: Seq<char>| built(id, about(g.findings, id), g, repo, direct) is Found;
    let f = |id: Seq<char>| built(id, about(g.findings, id), g, repo, direct)->Found_0;
    let q = |id: Seq<char>| built(id, about(g.findings, id), g, repo, direct) is Unreadable;
    let h = |d: DroppedM| d.id;
    if ids.len() > 0 {
        let l = ids.drop_last();
        let id = ids.last();
        every_advisory_is_found_or_dropped(l, g, repo, direct);
        if p(id) {
            assert(ids.filter(p).map_values(f) =~= l.filter(p).map_values(f).push(f(id)));
        }
        if q(id) {
            assert(dropped_for(ids, g, repo, direct).map_values(h) =~= dropped_for(
                l,
                g,
                repo,
                direct,
            ).map_values(h).push(id));
        }
    } else {
        assert(ids.filter(p).map_values(f) =~= Seq::empty());
        assert(dropped_for(ids, g, repo, direct).map_values(h) =~= ids.filter(q));
    }
}

/// A finding that is made is about the module that the first trace to name one names, at the
/// version that is installed, with what is known of the advisory, and its dependency is direct
/// exactly where the module is.
pub proof fn a_made_finding_tells_of_its_module(
    id: Seq<char>,
    group: Seq<FindingM>,
    g: Gathered,
    repo: Seq<char>,
    direct: Seq<Seq<char>>,
)
    ensures
        built(id, group, g, repo, direct) matches BuiltM::Found(x) ==> {
            &&& x.advisory_id == id
            &&& x.ecosystem == Ecosystem::Go
            &&& x.severity == Severity::Unknown
            &&& x.occurrences.len() == 1
            &&& x.occurrences[0] matches OccurrenceM::InRepo {
                repo: at,
                package,
                installed,
                patched,
                dependency_kind,
                ..
            } && at == repo && first_module(group) == Some(package) && (installed_text(
                group,
                g.modules,
                package,
            ) matches Some(raw) && go_version(raw) == Some(installed)) && patched == patched_by(
                group,
            ) && (dependency_kind == DependencyKind::Direct <==> direct.contains(package))
            &&& !g.osvs.dom().contains(id) ==> x.title == id && x.aliases.len() == 0
                && x.affected_functions.len() == 0
            &&& g.osvs.dom().contains(id) && g.osvs[id].summary is Some ==> Some(x.title)
                == g.osvs[id].summary
            &&& g.osvs.dom().contains(id) && g.osvs[id].summary is None ==> x.title == id
            &&& g.osvs.dom().contains(id) && g.osvs[id].aliases is Some ==> Some(x.aliases)
                == g.osvs[id].aliases
        },
{
}

/// A text that is one word.
pub open spec fn is_word(s: Seq<char>) -> bool {
    s.len() > 0 && forall|i: int| 0 <= i < s.len() ==> !text::white(#[trigger] s[i])
}

proof fn lemma_uncommented(s: Seq<char>)
    requires
        !text::occurs(s, "//"@),
    ensures
        cut::before_mark(s, "//"@) == s,
        !text::occurs(s, "// indirect"@),
{
    reveal_strlit("//");
    reveal_strlit("// indirect");
    text::lemma_seek(s, "//"@, 0);
    if let Some(i) = text::seek(s, "//"@, 0) {
        assert(text::occurs_at(s, "//"@, i));
    }
    if text::occurs(s, "// indirect"@) {
        let i = choose|i: int| text::occurs_at(s, "// indirect"@, i);
        let t = s.subrange(i, i + 11);
        assert(t[0] == s[i] && t[1] == s[i + 1]);
        assert(s.subrange(i, i + 2) =~= "//"@);
        assert(text::occurs_at(s, "//"@, i));
    }
}

/// A requirement is its module and its version, and is direct unless a comment says otherwise.
pub proof fn a_requirement_is_read(path: Seq<char>, version: Seq<char>)
    requires
        is_word(path),
        is_word(version),
        !text::occurs(path.push(' ') + version, "//"@),
    ensures
        required_in(path.push(' ') + version) == Some(
            RequiredModuleM { path, version, indirect: false },
        ),
        required_in((path.push(' ') + version).push(' ') + "// indirect"@) == Some(
            RequiredModuleM { path, version, indirect: true },
        ),
{
    reveal_strlit("//");
    reveal_strlit("// indirect");
    let plain = path.push(' ') + version;
    assert(text::white(' '));
    cut::lemma_words_plain(path);
    cut::lemma_words_plain(version);
    cut::lemma_words_joined(path, ' ', version);
    assert(cut::words_of(plain) =~= seq![path, version]);
    lemma_uncommented(plain);
    let spaced = plain.push(' ');
    let marked = spaced + "// indirect"@;
    let n = spaced.len() as int;
    text::lemma_seek(marked, "//"@, 0);
    assert(marked.subrange(n, n + 2) =~= "//"@);
    assert(text::occurs_at(marked, "//"@, n));
    let i = text::seek(marked, "//"@, 0)->0;
    if i < n {
        let t = marked.subrange(i, i + 2);
        assert(t[0] == marked[i] && t[1] == marked[i + 1]);
        assert(marked[i] == spaced[i]);
        assert(i != n - 1);
        assert(marked[i + 1] == spaced[i + 1]);
        assert(i + 1 != n - 1);
        assert(plain.subrange(i, i + 2) =~= "//"@);
        assert(text::occurs_at(plain, "//"@, i));
    }
    assert(i == n);
    assert(marked.take(n) =~= spaced);
    cut::lemma_words_joined(plain, ' ', Seq::empty());
    assert(plain.push(' ') + Seq::<char>::empty() =~= spaced);
    assert(cut::words_of(spaced) =~= seq![path, version]);
    assert(marked.subrange(n, n + 11) =~= "// indirect"@);
    assert(text::occurs_at(marked, "// indirect"@, n));
}

/// A requirement says the same on a line of its own and in a block.
pub proof fn a_block_says_what_a_line_says(entry: Seq<char>)
    requires
        entry.len() > 0,
        !text::white(entry[0]),
        !text::white(entry.last()),
        entry[0] != '(',
        entry[0] != ')',
    ensures
        entries_in(seq!["require "@ + entry], "require"@) == (Entries {
            open: false,
            found: seq![entry],
        }),
        entries_in(seq!["require ("@, entry, ")"@], "require"@) == (Entries {
            open: false,
            found: seq![entry],
        }),
{
    reveal_strlit("require ");
    reveal_strlit("require (");
    reveal_strlit("require");
    reveal_strlit(" (");
    reveal_strlit(" ");
    reveal_strlit(")");
    reveal_with_fuel(entries_in, 5);
    assert("require"@ + " ("@ =~= "require ("@);
    assert("require"@ + " "@ =~= "require "@);
    let line = "require "@ + entry;
    assert(line[0] == 'r' && line.last() == entry.last());
    assert(!text::white('r') && !text::white('(') && !text::white(')'));
    cut::lemma_trimmed_plain(line);
    cut::lemma_trimmed_plain("require ("@);
    cut::lemma_trimmed_plain(entry);
    cut::lemma_trimmed_plain(")"@);
    if text::occurs_at(line, "require ("@, 0) {
        assert(line.subrange(0, 9)[8] == line[8]);
    }
    assert(line.subrange(0, 8) =~= "require "@);
    assert(line.skip(8) =~= entry);
    let one = seq![line];
    assert(one.drop_last() =~= Seq::empty());
    let none = Entries { open: false, found: Seq::empty() };
    assert(next_line(none, line, "require"@).found =~= seq![entry]);
    let block = seq!["require ("@, entry, ")"@];
    assert(block.drop_last() =~= seq!["require ("@, entry]);
    assert(block.drop_last().drop_last() =~= seq!["require ("@]);
    assert(block.drop_last().drop_last().drop_last() =~= Seq::empty());
    assert("require ("@.subrange(0, 9) =~= "require ("@);
    let open = Entries { open: true, found: Seq::empty() };
    assert(next_line(none, "require ("@, "require"@) == open);
    assert(next_line(open, entry, "require"@).found =~= seq![entry]);
}

/// A replacement is read as what it replaces and what it puts there, a local path without a
/// version.
pub proof fn a_replacement_is_read(
    from: Seq<char>,
    to: Seq<char>,
    version: Seq<char>,
)
    requires
        is_word(from),
        is_word(to),
        is_word(version),
        !from.contains('='),
        !text::occurs(from.push(' ') + "=>"@ + (seq![' '] + (to.push(' ') + version)), "//"@),
        !text::occurs(from.push(' ') + "=>"@ + (seq![' '] + to), "//"@),
    ensures
        replaced_in(from.push(' ') + "=>"@ + (seq![' '] + (to.push(' ') + version))) == Some(
            ReplaceM {
                from_path: from,
                from_version: None,
                to_path: to,
                to_version: Some(version),
            },
        ),
        replaced_in(from.push(' ') + "=>"@ + (seq![' '] + to)) == Some(
            ReplaceM { from_path: from, from_version: None, to_path: to, to_version: None },
        ),
{
    reveal_strlit("=>");
    let left = from.push(' ');
    let long = seq![' '] + (to.push(' ') + version);
    let short = seq![' '] + to;
    assert(text::white(' '));
    if left.contains('=') {
        let i = choose|i: int| 0 <= i < left.len() && left[i] == '=';
        assert(from[i] == '=');
    }
    lemma_uncommented(left + "=>"@ + long);
    lemma_uncommented(left + "=>"@ + short);
    cut::lemma_halves_at(left, "=>"@, long);
    cut::lemma_halves_at(left, "=>"@, short);
    cut::lemma_words_plain(from);
    cut::lemma_words_plain(to);
    cut::lemma_words_plain(version);
    let none = Seq::<char>::empty();
    cut::lemma_words_joined(from, ' ', none);
    assert(from.push(' ') + none =~= left);
    assert(cut::words_of(left) =~= seq![from]);
    cut::lemma_words_joined(to, ' ', version);
    cut::lemma_words_joined(none, ' ', to.push(' ') + version);
    cut::lemma_words_joined(none, ' ', to);
    assert(none.push(' ') =~= seq![' ']);
    assert(cut::words_of(none) =~= Seq::<Seq<char>>::empty());
    assert(cut::words_of(long) =~= seq![to, version]);
    assert(cut::words_of(short) =~= seq![to]);
}

/// Every finding of the messages is kept, in their order.
pub proof fn every_finding_is_gathered(messages: Seq<MessageM>)
    ensures
        gathered(messages).findings == messages.filter(
            |m: MessageM| m.finding is Some,
        ).map_values(|m: MessageM| m.finding->0),
    decreases messages.len(),
{
    reveal(Seq::filter);
    let p = |m: MessageM| m.finding is Some;
    let f = |m: MessageM| m.finding->0;
    if messages.len() > 0 {
        let l = messages.drop_last();
        every_finding_is_gathered(l);
        if p(messages.last()) {
            assert(messages.filter(p).map_values(f) =~= l.filter(p).map_values(f).push(
                f(messages.last()),
            ));
        }
    } else {
        assert(messages.filter(p).map_values(f) =~= Seq::empty());
    }
}

/// The last message about an advisory counts; an advisory that no message is about is not known.
pub proof fn the_last_advisory_counts(messages: Seq<MessageM>, id: Seq<char>, i: int)
    requires
        -1 <= i < messages.len(),
        i >= 0 ==> messages[i].osv is Some && messages[i].osv->0.id == id,
        forall|k: int|
            i < k < messages.len() ==> !((#[trigger] messages[k]).osv is Some
                && messages[k].osv->0.id == id),
    ensures
        i >= 0 ==> gathered(messages).osvs.dom().contains(id) && Some(gathered(messages).osvs[id])
            == messages[i].osv,
        i == -1 ==> !gathered(messages).osvs.dom().contains(id),
    decreases messages.len(),
{
    if messages.len() > 0 {
        let l = messages.drop_last();
        assert forall|k: int| 0 <= k < l.len() implies #[trigger] l[k] == messages[k] by {}
        assert(messages[l.len() as int] == messages.last());
        if i < messages.len() - 1 {
            the_last_advisory_counts(l, id, i);
        }
    }
}

/// The requirements and replacements of a manifest are those of its entries, in order; an entry
/// that names nothing is passed over.
pub proof fn every_entry_counts(entries: Seq<Seq<char>>)
    ensures
        all_required(entries) == entries.filter(|e: Seq<char>| required_in(e) is Some).map_values(
            |e: Seq<char>| required_in(e)->0,
        ),
        all_replaced(entries) == entries.filter(|e: Seq<char>| replaced_in(e) is Some).map_values(
            |e: Seq<char>| replaced_in(e)->0,
        ),
    decreases entries.len(),
{
    reveal(Seq::filter);
    let p = |e: Seq<char>| required_in(e) is Some;
    let f = |e: Seq<char>| required_in(e)->0;
    let q = |e: Seq<char>| replaced_in(e) is Some;
    let h = |e: Seq<char>| replaced_in(e)->0;
    if entries.len() > 0 {
        let l = entries.drop_last();
        let e = entries.last();
        every_entry_counts(l);
        if p(e) {
            assert(entries.filter(p).map_values(f) =~= l.filter(p).map_values(f).push(f(e)));
        }
        if q(e) {
            assert(entries.filter(q).map_values(h) =~= l.filter(q).map_values(h).push(h(e)));
        }
    } else {
        assert(entries.filter(p).map_values(f) =~= Seq::empty());
        assert(entries.filter(q).map_values(h) =~= Seq::empty());
    }
}

/// The symbols that are looked for are those that the imports name, each after its import path.
pub proof fn every_symbol_is_looked_for(imports: Seq<SymbolsM>, t: Seq<char>)
    ensures
        all_symbols(imports).contains(t) <==> exists|i: int, k: int|
            0 <= i < imports.len() && 0 <= k < imports[i].symbols.len() && t
                == imports[i].path.push('.') + #[trigger] imports[i].symbols[k],
    decreases imports.len(),
{
    if imports.len() > 0 {
        reveal_strlit(".");
        let l = imports.drop_last();
        let n = l.len() as int;
        every_symbol_is_looked_for(l, t);
        assert(imports[n] == imports.last());
        assert forall|i: int| 0 <= i < n implies #[trigger] imports[i] == l[i] by {}
        let front = all_symbols(l);
        let last = imports.last();
        let back = symbols_of(last.path, last.symbols);
        let all = all_symbols(imports);
        assert(last.path + "."@ =~= last.path.push('.'));
        if front.contains(t) {
            let j = choose|j: int| 0 <= j < front.len() && front[j] == t;
            assert(all[j] == t);
            let (i, k) = choose|i: int, k: int|
                0 <= i < l.len() && 0 <= k < l[i].symbols.len() && t == l[i].path.push('.')
                    + #[trigger] l[i].symbols[k];
            assert(t == imports[i].path.push('.') + imports[i].symbols[k]);
        }
        if all.contains(t) && !front.contains(t) {
            let j = choose|j: int| 0 <= j < all.len() && all[j] == t;
            if j < front.len() {
                assert(front[j] == t);
            }
            let k = j - front.len();
            assert(back[k] == t);
            assert(t == imports[n].path.push('.') + imports[n].symbols[k]);
        }
        if exists|i: int, k: int|
            0 <= i < imports.len() && 0 <= k < imports[i].symbols.len() && t
                == imports[i].path.push('.') + #[trigger] imports[i].symbols[k] {
            let (i, k) = choose|i: int, k: int|
                0 <= i < imports.len() && 0 <= k < imports[i].symbols.len() && t
                    == imports[i].path.push('.') + #[trigger] imports[i].symbols[k];
            if i < n {
                assert(t == l[i].path.push('.') + l[i].symbols[k]);
            } else {
                assert(back[k] == t);
                assert(all[front.len() + k] == t);
            }
        }
    }
}

/// The letter that marks a version is left out, and only that: a text without it stays as it is.
pub proof fn the_mark_is_optional(s: Seq<char>)
    requires
        s.len() == 0 || s[0] != 'v',
    ensures
        unmarked(seq!['v'] + s) == s,
        unmarked(s) == s,
        go_version(seq!['v'] + s) == go_version(s),
{
    reveal_strlit("v");
    let m = seq!['v'] + s;
    assert(m.subrange(0, 1) =~= "v"@);
    assert(m.skip(1) =~= s);
    if text::occurs_at(s, "v"@, 0) {
        assert(s.subrange(0, 1)[0] == s[0]);
    }
}

} // verus!
