//! Matching Go modules against a mirror of the vulnerability database, with nothing built: the
//! manifest gives the modules, the advisories their ranges.
use vstd::prelude::*;
use crate::cut;
use crate::finding;
use crate::finding::{
    DepSource, DepSourceM, DependencyKind, Ecosystem, Exploitability, Occurrence, OccurrenceM,
    ReachVerdict, ReachVerdictM, Reachability, ReachabilityM, RepoId, VulnFinding, VulnFindingM,
};
use crate::go;
use crate::go::{Replace, ReplaceM, RequiredModule, RequiredModuleM, Symbols, SymbolsM};
use crate::order;
use crate::order::{Order, Rel};
use crate::osv;
use crate::osv::{
    ByAdvisoryAndPackage, Event, EventM, Match, Package, PackageM, Range, RangeM, RawEvent,
    RawEventM, RawRange, RawRangeM, Scheme,
};
use crate::severity::Severity;
use crate::text;
use crate::textmap::TextMap;
use crate::tier_c;
use crate::value;
use crate::value::Plain;
use crate::version;
use crate::version::{Version, VersionM, VersionReq};

verus! {

/// The path of a mirror that a `file://` location names; none for any other location.
pub fn offline_db_path(db: &str) -> (r: Option<String>)
    ensures
        r.deep_view() == cut::after_prefix(db@, "file://"@),
{
    cut::strip_prefix(db, "file://")
}

// --- Ranges ---

/// Go versions in ranges. A lower bound without a pre-release counts by its numbers alone, as
/// versions made from a commit are pre-releases of what they come after.
pub struct GoVersions;

impl Order for GoVersions {
    type M = VersionM;

    type Item = Version;

    open spec fn key(m: VersionM) -> Seq<int> {
        version::version_key(m)
    }

    fn rel(a: &Version, b: &Version) -> (r: Rel) {
        a.rel(b)
    }
}

/// The version that a bound means; `0` is the start of all versions.
pub open spec fn go_bound(t: Seq<char>) -> Option<VersionM> {
    if t == "0"@ {
        Some(version::release(0, 0, 0))
    } else {
        go::go_version(t)
    }
}

/// The numbers of `a` are not below those of `b`.
pub open spec fn numbers_reach(a: VersionM, b: VersionM) -> bool {
    a.major > b.major || (a.major == b.major && (a.minor > b.minor || (a.minor == b.minor && a.patch
        >= b.patch)))
}

pub open spec fn go_reached(v: VersionM, introduced: VersionM) -> bool {
    if introduced.pre.len() == 0 {
        numbers_reach(v, introduced)
    } else {
        version::version_le(introduced, v)
    }
}

impl Scheme for GoVersions {
    open spec fn bound(t: Seq<char>) -> Option<VersionM> {
        go_bound(t)
    }

    open spec fn reached(v: VersionM, introduced: VersionM) -> bool {
        go_reached(v, introduced)
    }

    fn copy_version(v: &Version) -> (r: Version) {
        v.clone()
    }

    fn parse_bound(t: &str) -> (r: Option<Version>) {
        if text::same(t, "0") {
            Some(Version::new(0, 0, 0))
        } else {
            go::parse_go_version(t)
        }
    }

    fn at_or_after_introduced(v: &Version, introduced: &Version) -> (r: bool) {
        if introduced.pre().is_empty() {
            v.major() > introduced.major() || (v.major() == introduced.major() && (v.minor()
                > introduced.minor() || (v.minor() == introduced.minor() && v.patch()
                >= introduced.patch())))
        } else {
            !v.before(introduced)
        }
    }
}

/// A range that starts at `0` starts before every version, also before one made from a commit.
pub proof fn zero_starts_before_everything(v: VersionM)
    ensures
        go_bound("0"@) matches Some(b) && go_reached(v, b),
{
}

/// A lower bound that is itself made from a commit keeps the order of commits.
pub proof fn commit_bounds_keep_their_order(v: VersionM, introduced: VersionM)
    requires
        introduced.pre.len() > 0,
        version::version_lt(v, introduced),
    ensures
        !go_reached(v, introduced),
{
    order::lemma_lex_total(version::version_key(v), version::version_key(introduced));
}

pub open spec fn go_event(e: RawEventM) -> EventM {
    EventM { introduced: e.introduced, fixed: e.fixed, last_affected: e.last_affected }
}

/// A range of a record; only semantic versions are evaluated.
pub open spec fn go_range(r: RawRangeM) -> RangeM {
    RangeM {
        matchable: r.kind == Some("SEMVER"@),
        events: Seq::new(r.events.len(), |i: int| go_event(r.events[i])),
    }
}

pub open spec fn go_ranges(r: Seq<RawRangeM>) -> Seq<RangeM> {
    Seq::new(r.len(), |i: int| go_range(r[i]))
}

/// What the ranges say of a version.
pub open spec fn go_match(v: VersionM, ranges: Seq<RawRangeM>) -> Match<VersionM> {
    osv::match_of::<GoVersions>(v, osv::parsed_ranges::<GoVersions>(go_ranges(ranges)))
}

fn read_range(r: &RawRange) -> (out: Range)
    ensures
        out.deep_view() == go_range(r.deep_view()),
{
    let ghost want = go_range(r.deep_view()).events;
    let mut events: Vec<Event> = Vec::new();
    let mut i: usize = 0;
    assert(events.deep_view() =~= want.take(0));
    while i < r.events.len()
        invariant
            i <= r.events.len(),
            want == go_range(r.deep_view()).events,
            events.deep_view() == want.take(i as int),
        decreases r.events.len() - i,
    {
        let ghost before = events.deep_view();
        let raw: &RawEvent = &r.events[i];
        let e = Event {
            introduced: raw.introduced.copy(),
            fixed: raw.fixed.copy(),
            last_affected: raw.last_affected.copy(),
        };
        events.push(e);
        i += 1;
        proof {
            assert(events.deep_view() =~= before.push(e.deep_view()));
            assert(e.deep_view() == want[i - 1]);
            assert(want.take(i as int) =~= want.take(i - 1).push(want[i - 1]));
        }
    }
    assert(want.take(i as int) =~= want);
    Range { matchable: text::is_text(&r.kind, "SEMVER"), events }
}

/// Matches a version against the ranges of a record.
pub fn affected_fixed(v: &Version, ranges: &Vec<RawRange>) -> (r: Match<Version>)
    ensures
        r.deep_view() == go_match(v.deep_view(), ranges.deep_view()),
{
    let ghost want = go_ranges(ranges.deep_view());
    let mut list: Vec<Range> = Vec::new();
    let mut i: usize = 0;
    assert(list.deep_view() =~= want.take(0));
    while i < ranges.len()
        invariant
            i <= ranges.len(),
            want == go_ranges(ranges.deep_view()),
            list.deep_view() == want.take(i as int),
        decreases ranges.len() - i,
    {
        let ghost before = list.deep_view();
        let one: Range = read_range(&ranges[i]);
        list.push(one);
        i += 1;
        proof {
            assert(list.deep_view() =~= before.push(one.deep_view()));
            assert(want.take(i as int) =~= want.take(i - 1).push(want[i - 1]));
        }
    }
    assert(want.take(i as int) =~= want);
    osv::affected_fixed::<GoVersions>(v, &list)
}

// --- Records ---

/// What a [`GoImport`] stands for.
#[verifier::ext_equal]
pub struct GoImportM {
    pub path: Option<Seq<char>>,
    pub symbols: Option<Seq<Seq<char>>>,
}

/// The vulnerable symbols of an import path; of the module itself where no path is named.
#[derive(Debug, PartialEq)]
pub struct GoImport {
    pub path: Option<String>,
    pub symbols: Option<Vec<String>>,
}

impl DeepView for GoImport {
    type V = GoImportM;

    open spec fn deep_view(&self) -> GoImportM {
        GoImportM {
            path: self.path.deep_view(),
            symbols: self.symbols.deep_view(),
        }
    }
}

/// What a [`GoAffected`] stands for.
#[verifier::ext_equal]
pub struct GoAffectedM {
    pub package: PackageM,
    pub ranges: Seq<RawRangeM>,
    pub imports: Seq<GoImportM>,
}

/// One affected package of a record.
#[derive(Debug, PartialEq)]
pub struct GoAffected {
    pub package: Package,
    pub ranges: Vec<RawRange>,
    pub imports: Vec<GoImport>,
}

impl DeepView for GoAffected {
    type V = GoAffectedM;

    open spec fn deep_view(&self) -> GoAffectedM {
        GoAffectedM {
            package: self.package.deep_view(),
            ranges: self.ranges.deep_view(),
            imports: self.imports.deep_view(),
        }
    }
}

/// What a [`GoRecord`] stands for.
#[verifier::ext_equal]
pub struct GoRecordM {
    pub id: Seq<char>,
    pub aliases: Option<Seq<Seq<char>>>,
    pub summary: Option<Seq<char>>,
    pub affected: Seq<GoAffectedM>,
}

/// An advisory.
#[derive(Debug, PartialEq)]
pub struct GoRecord {
    pub id: String,
    pub aliases: Option<Vec<String>>,
    pub summary: Option<String>,
    pub affected: Vec<GoAffected>,
}

impl DeepView for GoRecord {
    type V = GoRecordM;

    open spec fn deep_view(&self) -> GoRecordM {
        GoRecordM {
            id: self.id@,
            aliases: self.aliases.deep_view(),
            summary: self.summary.deep_view(),
            affected: self.affected.deep_view(),
        }
    }
}

/// What a [`ModuleIndex`] stands for.
#[verifier::ext_equal]
pub struct ModuleIndexM {
    pub path: Seq<char>,
    pub vulns: Seq<Seq<char>>,
}

/// The advisories about one module.
#[derive(Debug, PartialEq)]
pub struct ModuleIndex {
    pub path: String,
    pub vulns: Vec<String>,
}

impl DeepView for ModuleIndex {
    type V = ModuleIndexM;

    open spec fn deep_view(&self) -> ModuleIndexM {
        ModuleIndexM {
            path: self.path@,
            vulns: self.vulns.deep_view(),
        }
    }
}

pub open spec fn go_import(i: GoImportM, module: Seq<char>) -> SymbolsM {
    SymbolsM {
        path: match i.path {
            Some(p) => p,
            None => module,
        },
        symbols: match i.symbols {
            Some(s) => s,
            None => Seq::empty(),
        },
    }
}

/// The symbols that an entry names for a module.
pub open spec fn symbols_for(a: GoAffectedM, module: Seq<char>) -> Seq<Seq<char>> {
    value::text_set(
        go::all_symbols(Seq::new(a.imports.len(), |i: int| go_import(a.imports[i], module))),
    )
}

impl GoAffected {
    /// The symbols that the entry names for a module.
    pub fn symbols(&self, module: &str) -> (r: Vec<String>)
        ensures
            r.deep_view() == symbols_for(self.deep_view(), module@),
    {
        let ghost all = self.imports.deep_view();
        let ghost want = Seq::new(all.len(), |i: int| go_import(all[i], module@));
        let mut list: Vec<Symbols> = Vec::new();
        let mut i: usize = 0;
        assert(list.deep_view() =~= want.take(0));
        while i < self.imports.len()
            invariant
                i <= self.imports.len(),
                all == self.imports.deep_view(),
                want == Seq::new(all.len(), |i: int| go_import(all[i], module@)),
                list.deep_view() == want.take(i as int),
            decreases self.imports.len() - i,
        {
            let ghost before = list.deep_view();
            assert(all[i as int] == self.imports[i as int].deep_view());
            let path: String = match &self.imports[i].path {
                Some(p) => p.clone(),
                None => module.to_owned(),
            };
            let symbols: Vec<String> = match &self.imports[i].symbols {
                Some(s) => s.copy(),
                None => {
                    let none: Vec<String> = Vec::new();
                    assert(none.deep_view() =~= Seq::empty());
                    none
                },
            };
            let one = Symbols { path, symbols };
            list.push(one);
            i += 1;
            proof {
                assert(list.deep_view() =~= before.push(one.deep_view()));
                assert(one.deep_view() == want[i - 1]);
                assert(want.take(i as int) =~= want.take(i - 1).push(want[i - 1]));
            }
        }
        proof {
            assert(want.take(i as int) =~= want);
            assert(want == Seq::new(
                self.deep_view().imports.len(),
                |i: int| go_import(self.deep_view().imports[i], module@),
            ));
        }
        go::render_symbols(&list)
    }
}

/// Whether an entry is about the Go module.
pub open spec fn is_about(a: GoAffectedM, module: Seq<char>) -> bool {
    a.package.ecosystem == Some("Go"@) && a.package.name == Some(module)
}

/// The first entry about the module.
pub open spec fn entry_about(affected: Seq<GoAffectedM>, module: Seq<char>) -> Option<GoAffectedM>
    decreases affected.len(),
{
    if affected.len() == 0 {
        None
    } else {
        match entry_about(affected.drop_last(), module) {
            Some(a) => Some(a),
            None => if is_about(affected.last(), module) {
                Some(affected.last())
            } else {
                None
            },
        }
    }
}

proof fn lemma_entry_stays(affected: Seq<GoAffectedM>, module: Seq<char>, n: int)
    requires
        0 <= n <= affected.len(),
        entry_about(affected.take(n), module) is Some,
    ensures
        entry_about(affected, module) == entry_about(affected.take(n), module),
    decreases affected.len(),
{
    if n < affected.len() {
        assert(affected.drop_last().take(n) =~= affected.take(n));
        lemma_entry_stays(affected.drop_last(), module, n);
    } else {
        assert(affected.take(n) =~= affected);
    }
}

fn find_entry<'a>(affected: &'a Vec<GoAffected>, module: &str) -> (r: Option<&'a GoAffected>)
    ensures
        match r {
            Some(a) => entry_about(affected.deep_view(), module@) == Some(a.deep_view()),
            None => entry_about(affected.deep_view(), module@) is None,
        },
{
    let ghost all = affected.deep_view();
    let mut i: usize = 0;
    assert(all.take(0) =~= Seq::empty());
    while i < affected.len()
        invariant
            i <= affected.len(),
            all == affected.deep_view(),
            entry_about(all.take(i as int), module@) is None,
        decreases affected.len() - i,
    {
        proof {
            assert(all.take(i + 1).drop_last() =~= all.take(i as int));
            assert(all.take(i + 1).last() == affected[i as int].deep_view());
        }
        if text::is_text(&affected[i].package.ecosystem, "Go") && text::is_text(
            &affected[i].package.name,
            module,
        ) {
            proof {
                lemma_entry_stays(all, module@, i + 1);
            }
            return Some(&affected[i]);
        }
        i += 1;
    }
    assert(all.take(i as int) =~= all);
    None
}

pub open spec fn module_verdict() -> ReachabilityM {
    ReachabilityM {
        verdict: ReachVerdictM::Unknown {
            reason: "module-level scan (no toolchain): version match only"@,
        },
        config: "module-level"@,
        engine: "fleetreach-tier-c"@,
        targets: Seq::empty(),
        witness: None,
    }
}

/// The finding for an affected module.
pub open spec fn module_finding(
    osv: GoRecordM,
    entry: GoAffectedM,
    fixed: Option<VersionM>,
    module: Seq<char>,
    installed: VersionM,
    kind: DependencyKind,
    repo: Seq<char>,
) -> VulnFindingM {
    VulnFindingM {
        advisory_id: osv.id,
        aliases: match osv.aliases {
            Some(a) => a,
            None => Seq::empty(),
        },
        ecosystem: Ecosystem::Go,
        title: go::or_text(osv.summary, osv.id),
        severity: Severity::Unknown,
        cvss_score: None,
        url: Some(go::vuln_url(osv.id)),
        occurrences: seq![
            OccurrenceM::InRepo {
                repo,
                package: module,
                installed,
                patched: match fixed {
                    Some(f) => version::at_least_version(f),
                    None => Seq::empty(),
                },
                dependency_kind: kind,
                dependency_path: Seq::empty(),
                active: None,
                source: DepSourceM::CratesIo,
            },
        ],
        affected_functions: symbols_for(entry, module),
        reachable: None,
        reachability: Some(module_verdict()),
        exploit: Exploitability { kev: false, epss: None },
    }
}

/// The finding for a module, where the advisory affects the installed version.
pub open spec fn matched(
    osv: GoRecordM,
    module: Seq<char>,
    installed: VersionM,
    declared: Seq<char>,
    direct: Seq<Seq<char>>,
    repo: Seq<char>,
) -> Option<VulnFindingM> {
    match entry_about(osv.affected, module) {
        None => None,
        Some(entry) => match go_match(installed, entry.ranges) {
            Match::NotAffected => None,
            Match::Affected { fixed } => Some(
                module_finding(
                    osv,
                    entry,
                    fixed,
                    module,
                    installed,
                    go::kind_of(direct, declared),
                    repo,
                ),
            ),
        },
    }
}

/// Makes a finding where the advisory affects the installed version of the module. Whether the
/// dependency is direct goes by the path that the manifest declares.
pub fn match_module(
    osv: &GoRecord,
    module: &str,
    installed: &Version,
    declared: &str,
    direct: &Vec<String>,
    repo: &RepoId,
) -> (r: Option<VulnFinding>)
    ensures
        r.deep_view() == matched(
            osv.deep_view(),
            module@,
            installed.deep_view(),
            declared@,
            direct.deep_view(),
            repo.deep_view(),
        ),
        entry_about(osv.deep_view().affected, module@) matches Some(entry) && go_match(
            installed.deep_view(),
            entry.ranges,
        ) matches Match::Affected { fixed } && tier_c::before_fix(installed.deep_view(), fixed)
            ==> (r.deep_view() matches Some(x) && finding::vulnerable(x.occurrences[0])),
{
    let entry: &GoAffected = match find_entry(&osv.affected, module) {
        Some(a) => a,
        None => {
            return None;
        },
    };
    match affected_fixed(installed, &entry.ranges) {
        Match::NotAffected => None,
        Match::Affected { fixed } => {
            let patched: Vec<VersionReq> = match &fixed {
                Some(f) => version::require_version(f),
                None => {
                    let none: Vec<VersionReq> = Vec::new();
                    assert(none.deep_view() =~= Seq::empty());
                    none
                },
            };
            proof {
                use_type_invariant(installed);
                let safe = patched.deep_view();
                if let Some(f) = fixed.deep_view() {
                    version::numbers_decide_first(installed.deep_view(), f);
                    if tier_c::before_fix(installed.deep_view(), Some(f)) {
                        assert(!version::semver_satisfies(safe[0], installed.deep_view()));
                        assert(!finding::safe(safe, installed.deep_view()));
                    }
                }
            }
            let aliases: Vec<String> = match &osv.aliases {
                Some(a) => a.copy(),
                None => {
                    let none: Vec<String> = Vec::new();
                    assert(none.deep_view() =~= Seq::empty());
                    none
                },
            };
            let title: String = match &osv.summary {
                Some(s) => s.clone(),
                None => osv.id.clone(),
            };
            let no_path: Vec<String> = Vec::new();
            let no_targets: Vec<String> = Vec::new();
            proof {
                assert(no_path.deep_view() =~= Seq::empty());
                assert(no_targets.deep_view() =~= Seq::empty());
            }
            let occurrence = Occurrence::InRepo {
                repo: repo.copy(),
                package: module.to_owned(),
                installed: installed.clone(),
                patched,
                dependency_kind: go::dep_kind(direct, declared),
                dependency_path: no_path,
                active: None,
                source: DepSource::CratesIo,
            };
            let mut occurrences: Vec<Occurrence> = Vec::new();
            occurrences.push(occurrence);
            assert(occurrences.deep_view() =~= seq![occurrence.deep_view()]);
            Some(
                VulnFinding {
                    advisory_id: osv.id.clone(),
                    aliases,
                    ecosystem: Ecosystem::Go,
                    title,
                    severity: Severity::Unknown,
                    cvss_score: None,
                    url: Some(go::go_vuln_url(osv.id.as_str())),
                    occurrences,
                    affected_functions: entry.symbols(module),
                    reachable: None,
                    reachability: Some(
                        Reachability {
                            verdict: ReachVerdict::Unknown {
                                reason:
                                    "module-level scan (no toolchain): version match only".to_owned(),
                            },
                            config: "module-level".to_owned(),
                            engine: "fleetreach-tier-c".to_owned(),
                            targets: no_targets,
                            witness: None,
                        },
                    ),
                    exploit: Exploitability { kev: false, epss: None },
                },
            )
        },
    }
}

// --- Replacements ---

pub open spec fn replaces(r: ReplaceM, path: Seq<char>, version: Seq<char>) -> bool {
    r.from_path == path && match r.from_version {
        Some(v) => v == version,
        None => true,
    }
}

/// The first directive that replaces the module.
pub open spec fn first_replace(
    list: Seq<ReplaceM>,
    path: Seq<char>,
    version: Seq<char>,
) -> Option<ReplaceM>
    decreases list.len(),
{
    if list.len() == 0 {
        None
    } else {
        match first_replace(list.drop_last(), path, version) {
            Some(r) => Some(r),
            None => if replaces(list.last(), path, version) {
                Some(list.last())
            } else {
                None
            },
        }
    }
}

/// What a module resolves to: itself, or what replaces it; nothing where that is a local path.
pub open spec fn effective(list: Seq<ReplaceM>, path: Seq<char>, version: Seq<char>) -> Option<
    (Seq<char>, Seq<char>),
> {
    match first_replace(list, path, version) {
        None => Some((path, version)),
        Some(r) => match r.to_version {
            Some(v) => Some((r.to_path, v)),
            None => None,
        },
    }
}

proof fn lemma_replace_stays(list: Seq<ReplaceM>, path: Seq<char>, version: Seq<char>, n: int)
    requires
        0 <= n <= list.len(),
        first_replace(list.take(n), path, version) is Some,
    ensures
        first_replace(list, path, version) == first_replace(list.take(n), path, version),
    decreases list.len(),
{
    if n < list.len() {
        assert(list.drop_last().take(n) =~= list.take(n));
        lemma_replace_stays(list.drop_last(), path, version, n);
    } else {
        assert(list.take(n) =~= list);
    }
}

/// What a module resolves to under the directives.
pub fn apply_replace(list: &Vec<Replace>, path: &str, version: &str) -> (r: Option<
    (String, String),
>)
    ensures
        r.deep_view() == effective(list.deep_view(), path@, version@),
{
    let ghost all = list.deep_view();
    let mut i: usize = 0;
    assert(all.take(0) =~= Seq::empty());
    while i < list.len()
        invariant
            i <= list.len(),
            all == list.deep_view(),
            first_replace(all.take(i as int), path@, version@) is None,
        decreases list.len() - i,
    {
        proof {
            assert(all.take(i + 1).drop_last() =~= all.take(i as int));
            assert(all.take(i + 1).last() == list[i as int].deep_view());
        }
        let version_fits: bool = match &list[i].from_version {
            Some(v) => text::same(v.as_str(), version),
            None => true,
        };
        if text::same(list[i].from_path.as_str(), path) && version_fits {
            proof {
                lemma_replace_stays(all, path@, version@, i + 1);
            }
            return match &list[i].to_version {
                Some(v) => Some((list[i].to_path.clone(), v.clone())),
                None => None,
            };
        }
        i += 1;
    }
    assert(all.take(i as int) =~= all);
    Some((path.to_owned(), version.to_owned()))
}

// --- The mirror ---

/// The bytes of a name that can stand as a part of a path.
pub open spec fn safe_char(c: char) -> bool {
    cut::lower_letter(c) || cut::upper_letter(c) || cut::digit(c) || c == '.' || c == '_' || c
        == '-'
}

/// An advisory id that can stand as a file name.
pub open spec fn safe_id(id: Seq<char>) -> bool {
    id.len() > 0 && id != ".."@ && forall|i: int| 0 <= i < id.len() ==> safe_char(#[trigger] id[i])
}

/// Whether an advisory id can stand as a file name.
pub fn is_safe_advisory_id(id: &str) -> (r: bool)
    ensures
        r == safe_id(id@),
{
    let v: Vec<char> = text::chars(id);
    if v.len() == 0 || text::same(id, "..") {
        return false;
    }
    let mut i: usize = 0;
    while i < v.len()
        invariant
            i <= v.len(),
            v@ == id@,
            forall|j: int| 0 <= j < i ==> safe_char(#[trigger] v@[j]),
        decreases v.len() - i,
    {
        let c: char = v[i];
        if !(('a' <= c && c <= 'z') || ('A' <= c && c <= 'Z') || ('0' <= c && c <= '9') || c == '.'
            || c == '_' || c == '-') {
            assert(!safe_char(v@[i as int]));
            return false;
        }
        i += 1;
    }
    true
}

/// A safe id names a file in the directory itself: it has no separator, and is neither empty
/// nor the directory above.
pub proof fn safe_id_stays_in_its_directory(id: Seq<char>)
    requires
        safe_id(id),
    ensures
        !id.contains('/'),
        !id.contains('\\'),
        !id.contains('\0'),
        id != ".."@,
        id.len() > 0,
{
    if id.contains('/') {
        let i = choose|i: int| 0 <= i < id.len() && id[i] == '/';
        assert(safe_char(id[i]));
    }
    if id.contains('\\') {
        let i = choose|i: int| 0 <= i < id.len() && id[i] == '\\';
        assert(safe_char(id[i]));
    }
    if id.contains('\0') {
        let i = choose|i: int| 0 <= i < id.len() && id[i] == '\0';
        assert(safe_char(id[i]));
    }
}

/// The index by module; of several entries for a module the last counts.
pub open spec fn indexed(modules: Seq<ModuleIndexM>) -> Map<Seq<char>, Seq<Seq<char>>>
    decreases modules.len(),
{
    if modules.len() == 0 {
        Map::empty()
    } else {
        indexed(modules.drop_last()).insert(modules.last().path, modules.last().vulns)
    }
}

/// The index by module.
pub fn module_index(modules: &Vec<ModuleIndex>) -> (r: TextMap<Vec<String>>)
    ensures
        r.deep_view() == indexed(modules.deep_view()),
{
    let ghost all = modules.deep_view();
    let mut r: TextMap<Vec<String>> = TextMap::new();
    let mut i: usize = 0;
    assert(all.take(0) =~= Seq::empty());
    while i < modules.len()
        invariant
            i <= modules.len(),
            all == modules.deep_view(),
            r.deep_view() == indexed(all.take(i as int)),
        decreases modules.len() - i,
    {
        proof {
            assert(all.take(i + 1).drop_last() =~= all.take(i as int));
            assert(all.take(i + 1).last() == modules[i as int].deep_view());
        }
        r = r.insert(modules[i].path.clone(), modules[i].vulns.copy());
        i += 1;
    }
    assert(all.take(i as int) =~= all);
    r
}

pub open spec fn safe_ids(ids: Seq<Seq<char>>) -> Seq<Seq<char>>
    decreases ids.len(),
{
    if ids.len() == 0 {
        Seq::empty()
    } else if safe_id(ids.last()) {
        safe_ids(ids.drop_last()).push(ids.last())
    } else {
        safe_ids(ids.drop_last())
    }
}

pub open spec fn ids_for(
    index: Map<Seq<char>, Seq<Seq<char>>>,
    names: Seq<Seq<char>>,
) -> Seq<Seq<char>>
    decreases names.len(),
{
    if names.len() == 0 {
        Seq::empty()
    } else {
        ids_for(index, names.drop_last()) + safe_ids(index[names.last()])
    }
}

/// The advisories that the index refers to and that can be read: safe ids, each once.
pub open spec fn ids_to_load(index: Map<Seq<char>, Seq<Seq<char>>>) -> Seq<Seq<char>> {
    value::text_set(ids_for(index, osv::sorted_names(index)))
}

fn collect_safe(ids: &Vec<String>) -> (r: Vec<String>)
    ensures
        r.deep_view() == safe_ids(ids.deep_view()),
{
    let ghost all = ids.deep_view();
    let mut r: Vec<String> = Vec::new();
    let mut i: usize = 0;
    proof {
        assert(all.take(0) =~= Seq::empty());
        assert(r.deep_view() =~= Seq::empty());
    }
    while i < ids.len()
        invariant
            i <= ids.len(),
            all == ids.deep_view(),
            r.deep_view() == safe_ids(all.take(i as int)),
        decreases ids.len() - i,
    {
        assert(all.take(i + 1).drop_last() =~= all.take(i as int));
        if is_safe_advisory_id(ids[i].as_str()) {
            let ghost before = r.deep_view();
            let id: String = ids[i].clone();
            r.push(id);
            assert(r.deep_view() =~= before.push(id@));
        }
        i += 1;
    }
    assert(all.take(i as int) =~= all);
    r
}

/// The advisories that the index refers to and that can be read: safe ids, each once.
pub fn advisories_to_load(index: &TextMap<Vec<String>>) -> (r: Vec<String>)
    ensures
        r.deep_view() == ids_to_load(index.deep_view()),
{
    let names: &Vec<String> = index.names();
    let ghost all = names.deep_view();
    let mut out: Vec<String> = Vec::new();
    let mut i: usize = 0;
    proof {
        osv::lemma_sorted_names(index.deep_view(), all);
        assert(all.take(0) =~= Seq::empty());
        assert(out.deep_view() =~= Seq::empty());
    }
    while i < names.len()
        invariant
            i <= names.len(),
            all == names.deep_view(),
            forall|n: Seq<char>| #[trigger]
                index.deep_view().dom().contains(n) == all.contains(n),
            out.deep_view() == ids_for(index.deep_view(), all.take(i as int)),
        decreases names.len() - i,
    {
        proof {
            assert(all.take(i + 1).drop_last() =~= all.take(i as int));
            assert(all[i as int] == names[i as int]@);
            assert(all.contains(all[i as int]));
        }
        if let Some(ids) = index.get(names[i].as_str()) {
            value::append(&mut out, collect_safe(ids));
        }
        i += 1;
    }
    assert(all.take(i as int) =~= all);
    value::sort_texts(out)
}

/// A mirror of the vulnerability database: which advisories are about a module, and the
/// advisories.
#[derive(Debug)]
pub struct GoDb {
    pub index: TextMap<Vec<String>>,
    pub advisories: TextMap<GoRecord>,
}

#[verifier::ext_equal]
pub struct GoDbM {
    pub index: Map<Seq<char>, Seq<Seq<char>>>,
    pub advisories: Map<Seq<char>, GoRecordM>,
}

impl DeepView for GoDb {
    type V = GoDbM;

    open spec fn deep_view(&self) -> GoDbM {
        GoDbM { index: self.index.deep_view(), advisories: self.advisories.deep_view() }
    }
}

// --- Scanning ---

/// The findings for a module from the advisories in order; those that the mirror lacks are
/// passed over.
pub open spec fn matched_ids(
    db: GoDbM,
    ids: Seq<Seq<char>>,
    module: Seq<char>,
    installed: VersionM,
    declared: Seq<char>,
    direct: Seq<Seq<char>>,
    repo: Seq<char>,
) -> Seq<VulnFindingM>
    decreases ids.len(),
{
    if ids.len() == 0 {
        Seq::empty()
    } else {
        let front = matched_ids(db, ids.drop_last(), module, installed, declared, direct, repo);
        if db.advisories.dom().contains(ids.last()) {
            match matched(
                db.advisories[ids.last()],
                module,
                installed,
                declared,
                direct,
                repo,
            ) {
                Some(f) => front.push(f),
                None => front,
            }
        } else {
            front
        }
    }
}

/// The findings for a required module: what it resolves to is matched, where its version can
/// be read.
pub open spec fn matched_module(
    db: GoDbM,
    m: RequiredModuleM,
    list: Seq<ReplaceM>,
    direct: Seq<Seq<char>>,
    repo: Seq<char>,
) -> Seq<VulnFindingM> {
    match effective(list, m.path, m.version) {
        None => Seq::empty(),
        Some((path, raw)) => match go::go_version(raw) {
            None => Seq::empty(),
            Some(v) => if db.index.dom().contains(path) {
                matched_ids(db, db.index[path], path, v, m.path, direct, repo)
            } else {
                Seq::empty()
            },
        },
    }
}

pub open spec fn matched_modules(
    db: GoDbM,
    required: Seq<RequiredModuleM>,
    list: Seq<ReplaceM>,
    direct: Seq<Seq<char>>,
    repo: Seq<char>,
) -> Seq<VulnFindingM>
    decreases required.len(),
{
    if required.len() == 0 {
        Seq::empty()
    } else {
        matched_modules(db, required.drop_last(), list, direct, repo) + matched_module(
            db,
            required.last(),
            list,
            direct,
            repo,
        )
    }
}

/// What a [`Unmatchable`] stands for.
#[verifier::ext_equal]
pub struct UnmatchableM {
    pub module: Seq<char>,
    pub version: Seq<char>,
}

/// A module whose version cannot be read, so that nothing is known of it.
#[derive(Debug, PartialEq)]
pub struct Unmatchable {
    pub module: String,
    pub version: String,
}

impl DeepView for Unmatchable {
    type V = UnmatchableM;

    open spec fn deep_view(&self) -> UnmatchableM {
        UnmatchableM {
            module: self.module@,
            version: self.version@,
        }
    }
}

/// The modules that cannot be matched because their version cannot be read.
pub open spec fn unmatchable_in(
    required: Seq<RequiredModuleM>,
    list: Seq<ReplaceM>,
) -> Seq<UnmatchableM>
    decreases required.len(),
{
    if required.len() == 0 {
        Seq::empty()
    } else {
        let front = unmatchable_in(required.drop_last(), list);
        match effective(list, required.last().path, required.last().version) {
            Some((_, raw)) => if go::go_version(raw) is None {
                front.push(UnmatchableM { module: required.last().path, version: raw })
            } else {
                front
            },
            None => front,
        }
    }
}

/// The findings of a manifest, one for an advisory and an affected module, in the order of the
/// advisories.
pub open spec fn offline_findings(
    db: GoDbM,
    go_mod: Seq<char>,
    repo: Seq<char>,
) -> Seq<VulnFindingM> {
    let required = go::requires_in(go_mod);
    let direct = go::direct_set_of(required, go::first_declared(cut::lines_of(go_mod)));
    osv::ordered_findings(matched_modules(db, required, go::replaces_in(go_mod), direct, repo))
}

fn collect_matched(
    db: &GoDb,
    ids: &Vec<String>,
    module: &str,
    installed: &Version,
    declared: &str,
    direct: &Vec<String>,
    repo: &RepoId,
) -> (r: Vec<VulnFinding>)
    ensures
        r.deep_view() == matched_ids(
            db.deep_view(),
            ids.deep_view(),
            module@,
            installed.deep_view(),
            declared@,
            direct.deep_view(),
            repo.deep_view(),
        ),
{
    let ghost all = ids.deep_view();
    let mut r: Vec<VulnFinding> = Vec::new();
    let mut i: usize = 0;
    proof {
        assert(all.take(0) =~= Seq::empty());
        assert(r.deep_view() =~= Seq::empty());
    }
    while i < ids.len()
        invariant
            i <= ids.len(),
            all == ids.deep_view(),
            r.deep_view() == matched_ids(
                db.deep_view(),
                all.take(i as int),
                module@,
                installed.deep_view(),
                declared@,
                direct.deep_view(),
                repo.deep_view(),
            ),
        decreases ids.len() - i,
    {
        assert(all.take(i + 1).drop_last() =~= all.take(i as int));
        if let Some(osv) = db.advisories.get(ids[i].as_str()) {
            if let Some(f) = match_module(osv, module, installed, declared, direct, repo) {
                let ghost before = r.deep_view();
                r.push(f);
                assert(r.deep_view() =~= before.push(f.deep_view()));
            }
        }
        i += 1;
    }
    assert(all.take(i as int) =~= all);
    r
}

/// Matches what a manifest requires against the mirror. Gives the findings, one for an advisory
/// and an affected module and in order, and the modules that could not be matched.
pub fn scan_offline(go_mod: &str, db: &GoDb, repo: &RepoId) -> (r: (
    Vec<VulnFinding>,
    Vec<Unmatchable>,
))
    ensures
        r.0.deep_view() == offline_findings(db.deep_view(), go_mod@, repo.deep_view()),
        r.1.deep_view() == unmatchable_in(go::requires_in(go_mod@), go::replaces_in(go_mod@)),
{
    let required: Vec<RequiredModule> = go::required_modules(go_mod);
    let direct: Vec<String> = go::direct_set(&required, go_mod);
    let list: Vec<Replace> = go::replace_directives(go_mod);
    let ghost all = required.deep_view();
    let mut out: Vec<VulnFinding> = Vec::new();
    let mut gone: Vec<Unmatchable> = Vec::new();
    let mut i: usize = 0;
    proof {
        assert(all.take(0) =~= Seq::empty());
        assert(out.deep_view() =~= Seq::empty());
        assert(gone.deep_view() =~= Seq::empty());
    }
    while i < required.len()
        invariant
            i <= required.len(),
            all == required.deep_view(),
            out.deep_view() == matched_modules(
                db.deep_view(),
                all.take(i as int),
                list.deep_view(),
                direct.deep_view(),
                repo.deep_view(),
            ),
            gone.deep_view() == unmatchable_in(all.take(i as int), list.deep_view()),
        decreases required.len() - i,
    {
        let m: &RequiredModule = &required[i];
        let ghost start = out.deep_view();
        proof {
            assert(all.take(i + 1).drop_last() =~= all.take(i as int));
            assert(all.take(i + 1).last() == m.deep_view());
            assert(start + Seq::empty() =~= start);
        }
        if let Some((path, raw)) = apply_replace(&list, m.path.as_str(), m.version.as_str()) {
            match go::parse_go_version(raw.as_str()) {
                None => {
                    let ghost before = gone.deep_view();
                    let u = Unmatchable { module: m.path.clone(), version: raw };
                    gone.push(u);
                    assert(gone.deep_view() =~= before.push(u.deep_view()));
                },
                Some(installed) => {
                    if let Some(ids) = db.index.get(path.as_str()) {
                        let more: Vec<VulnFinding> = collect_matched(
                            db,
                            ids,
                            path.as_str(),
                            &installed,
                            m.path.as_str(),
                            &direct,
                            repo,
                        );
                        value::append(&mut out, more);
                    }
                },
            }
        }
        i += 1;
    }
    assert(all.take(i as int) =~= all);
    osv::sort_dedup_findings(&mut out);
    (out, gone)
}

/// A module that a local path replaces is not matched.
pub proof fn local_replacement_is_not_matched(
    db: GoDbM,
    m: RequiredModuleM,
    list: Seq<ReplaceM>,
    direct: Seq<Seq<char>>,
    repo: Seq<char>,
)
    requires
        first_replace(list, m.path, m.version) matches Some(r) && r.to_version is None,
    ensures
        matched_module(db, m, list, direct, repo).len() == 0,
{
}

/// A module is either matched, or replaced by a local path, or named as one that cannot be
/// matched: nothing is passed over in silence.
pub proof fn unreadable_versions_are_named(
    required: Seq<RequiredModuleM>,
    list: Seq<ReplaceM>,
    i: int,
)
    requires
        0 <= i < required.len(),
        effective(list, required[i].path, required[i].version) matches Some((_, raw))
            && go::go_version(raw) is None,
    ensures
        exists|k: int|
            0 <= k < unmatchable_in(required, list).len() && (#[trigger] unmatchable_in(
                required,
                list,
            )[k]).module == required[i].path,
    decreases required.len(),
{
    let l = required.drop_last();
    let u = unmatchable_in(required, list);
    if i < l.len() {
        assert(l[i] == required[i]);
        unreadable_versions_are_named(l, list, i);
        let k = choose|k: int|
            0 <= k < unmatchable_in(l, list).len() && (#[trigger] unmatchable_in(l, list)[k]).module
                == l[i].path;
        assert(u[k] == unmatchable_in(l, list)[k]);
    } else {
        assert(u[u.len() - 1].module == required[i].path);
    }
}

proof fn lemma_matched_ids(
    db: GoDbM,
    ids: Seq<Seq<char>>,
    module: Seq<char>,
    installed: VersionM,
    declared: Seq<char>,
    direct: Seq<Seq<char>>,
    repo: Seq<char>,
)
    ensures
        osv::all_version_matches(
            matched_ids(db, ids, module, installed, declared, direct, repo),
            Ecosystem::Go,
            repo,
        ),
    decreases ids.len(),
{
    if ids.len() > 0 {
        lemma_matched_ids(db, ids.drop_last(), module, installed, declared, direct, repo);
    }
}

proof fn lemma_matched_modules(
    db: GoDbM,
    required: Seq<RequiredModuleM>,
    list: Seq<ReplaceM>,
    direct: Seq<Seq<char>>,
    repo: Seq<char>,
)
    ensures
        osv::all_version_matches(
            matched_modules(db, required, list, direct, repo),
            Ecosystem::Go,
            repo,
        ),
    decreases required.len(),
{
    if required.len() > 0 {
        lemma_matched_modules(db, required.drop_last(), list, direct, repo);
        let m = required.last();
        if let Some((path, raw)) = effective(list, m.path, m.version) {
            if let Some(v) = go::go_version(raw) {
                lemma_matched_ids(db, db.index[path], path, v, m.path, direct, repo);
            }
        }
    }
}

/// A version match never proves that code cannot run: every finding of a scan is undecided. It
/// is at one place, in the repository that was scanned.
pub proof fn version_match_is_unknown(db: GoDbM, go_mod: Seq<char>, repo: Seq<char>)
    ensures
        osv::all_version_matches(offline_findings(db, go_mod, repo), Ecosystem::Go, repo),
{
    let required = go::requires_in(go_mod);
    let direct = go::direct_set_of(required, go::first_declared(cut::lines_of(go_mod)));
    let s = matched_modules(db, required, go::replaces_in(go_mod), direct, repo);
    lemma_matched_modules(db, required, go::replaces_in(go_mod), direct, repo);
    osv::lemma_ordered_matches(s, Ecosystem::Go, repo);
}

/// After scanning, no advisory is there twice for a module, and they are in order.
pub proof fn offline_findings_are_distinct(db: GoDbM, go_mod: Seq<char>, repo: Seq<char>)
    ensures
        order::strictly_sorted::<ByAdvisoryAndPackage>(offline_findings(db, go_mod, repo)),
{
    let required = go::requires_in(go_mod);
    let direct = go::direct_set_of(required, go::first_declared(cut::lines_of(go_mod)));
    osv::ordered_findings_are_distinct(
        matched_modules(db, required, go::replaces_in(go_mod), direct, repo),
    );
}

proof fn lemma_module_matched(
    db: GoDbM,
    required: Seq<RequiredModuleM>,
    list: Seq<ReplaceM>,
    direct: Seq<Seq<char>>,
    repo: Seq<char>,
    i: int,
    f: VulnFindingM,
)
    requires
        0 <= i < required.len(),
        matched_module(db, required[i], list, direct, repo).contains(f),
    ensures
        matched_modules(db, required, list, direct, repo).contains(f),
    decreases required.len(),
{
    let front = matched_modules(db, required.drop_last(), list, direct, repo);
    let last = matched_module(db, required.last(), list, direct, repo);
    if i < required.len() - 1 {
        lemma_module_matched(db, required.drop_last(), list, direct, repo, i, f);
        let k = choose|k: int| 0 <= k < front.len() && front[k] == f;
        assert((front + last)[k] == f);
    } else {
        let k = choose|k: int| 0 <= k < last.len() && last[k] == f;
        assert((front + last)[front.len() + k] == f);
    }
}

/// Every required module that an advisory affects has a finding of that advisory.
pub proof fn every_affected_module_has_a_finding(
    db: GoDbM,
    go_mod: Seq<char>,
    repo: Seq<char>,
    i: int,
    f: VulnFindingM,
)
    requires
        0 <= i < go::requires_in(go_mod).len(),
        matched_module(
            db,
            go::requires_in(go_mod)[i],
            go::replaces_in(go_mod),
            go::direct_set_of(
                go::requires_in(go_mod),
                go::first_declared(cut::lines_of(go_mod)),
            ),
            repo,
        ).contains(f),
    ensures
        exists|j: int|
            0 <= j < offline_findings(db, go_mod, repo).len() && (#[trigger] offline_findings(
                db,
                go_mod,
                repo,
            )[j]).advisory_id == f.advisory_id && osv::first_package(
                offline_findings(db, go_mod, repo)[j],
            ) == osv::first_package(f),
{
    let required = go::requires_in(go_mod);
    let direct = go::direct_set_of(required, go::first_declared(cut::lines_of(go_mod)));
    let s = matched_modules(db, required, go::replaces_in(go_mod), direct, repo);
    lemma_module_matched(db, required, go::replaces_in(go_mod), direct, repo, i, f);
    osv::ordered_findings_are_distinct(s);
    let h = choose|h: int| 0 <= h < s.len() && s[h] == f;
    let u = osv::ordered_findings(s);
    let j = choose|j: int|
        0 <= j < u.len() && (#[trigger] u[j]).advisory_id == s[h].advisory_id
            && osv::first_package(u[j]) == osv::first_package(s[h]);
    assert(u == offline_findings(db, go_mod, repo));
    assert(offline_findings(db, go_mod, repo)[j].advisory_id == f.advisory_id);
}

proof fn lemma_from_id(
    db: GoDbM,
    ids: Seq<Seq<char>>,
    module: Seq<char>,
    installed: VersionM,
    declared: Seq<char>,
    direct: Seq<Seq<char>>,
    repo: Seq<char>,
    x: VulnFindingM,
) -> (a: int)
    requires
        matched_ids(db, ids, module, installed, declared, direct, repo).contains(x),
    ensures
        0 <= a < ids.len(),
        db.advisories.dom().contains(ids[a]),
        matched(db.advisories[ids[a]], module, installed, declared, direct, repo) == Some(x),
    decreases ids.len(),
{
    let all = matched_ids(db, ids, module, installed, declared, direct, repo);
    let l = ids.drop_last();
    let front = matched_ids(db, l, module, installed, declared, direct, repo);
    let i = choose|i: int| 0 <= i < all.len() && all[i] == x;
    if i < front.len() {
        assert(front[i] == x);
        let a = lemma_from_id(db, l, module, installed, declared, direct, repo, x);
        assert(l[a] == ids[a]);
        a
    } else {
        ids.len() - 1
    }
}

proof fn lemma_from_module(
    db: GoDbM,
    required: Seq<RequiredModuleM>,
    list: Seq<ReplaceM>,
    direct: Seq<Seq<char>>,
    repo: Seq<char>,
    x: VulnFindingM,
) -> (p: int)
    requires
        matched_modules(db, required, list, direct, repo).contains(x),
    ensures
        0 <= p < required.len(),
        matched_module(db, required[p], list, direct, repo).contains(x),
    decreases required.len(),
{
    let all = matched_modules(db, required, list, direct, repo);
    let l = required.drop_last();
    let front = matched_modules(db, l, list, direct, repo);
    let i = choose|i: int| 0 <= i < all.len() && all[i] == x;
    if i < front.len() {
        assert(front[i] == x);
        let p = lemma_from_module(db, l, list, direct, repo, x);
        assert(l[p] == required[p]);
        p
    } else {
        let back = matched_module(db, required.last(), list, direct, repo);
        assert(back[i - front.len()] == x);
        required.len() - 1
    }
}

proof fn lemma_id_stays(
    db: GoDbM,
    ids: Seq<Seq<char>>,
    module: Seq<char>,
    installed: VersionM,
    declared: Seq<char>,
    direct: Seq<Seq<char>>,
    repo: Seq<char>,
    a: int,
)
    requires
        0 <= a < ids.len(),
        db.advisories.dom().contains(ids[a]),
    ensures
        matched(db.advisories[ids[a]], module, installed, declared, direct, repo) matches Some(x)
            ==> matched_ids(db, ids, module, installed, declared, direct, repo).contains(x),
    decreases ids.len(),
{
    if let Some(x) = matched(db.advisories[ids[a]], module, installed, declared, direct, repo) {
        let l = ids.drop_last();
        let all = matched_ids(db, ids, module, installed, declared, direct, repo);
        let front = matched_ids(db, l, module, installed, declared, direct, repo);
        if a < l.len() {
            assert(l[a] == ids[a]);
            lemma_id_stays(db, l, module, installed, declared, direct, repo, a);
            let i = choose|i: int| 0 <= i < front.len() && front[i] == x;
            assert(all[i] == x);
        } else {
            assert(all[front.len() as int] == x);
        }
    }
}

/// Whether `i` is the first entry of a record about the Go module.
pub open spec fn first_about(affected: Seq<GoAffectedM>, module: Seq<char>, i: int) -> bool {
    &&& 0 <= i < affected.len()
    &&& affected[i].package.ecosystem == Some("Go"@)
    &&& affected[i].package.name == Some(module)
    &&& forall|k: int|
        0 <= k < i ==> !((#[trigger] affected[k]).package.ecosystem == Some("Go"@)
            && affected[k].package.name == Some(module))
}

/// The first entry of a record about a Go module is the one that counts; there is none exactly
/// where no entry is about it.
pub proof fn the_first_entry_counts(affected: Seq<GoAffectedM>, module: Seq<char>)
    ensures
        entry_about(affected, module) is Some ==> exists|i: int| #[trigger]
            first_about(affected, module, i) && entry_about(affected, module) == Some(affected[i]),
        entry_about(affected, module) is None ==> forall|i: int| !first_about(affected, module, i),
        forall|i: int| #[trigger]
            first_about(affected, module, i) ==> entry_about(affected, module) == Some(affected[i]),
    decreases affected.len(),
{
    if affected.len() > 0 {
        let l = affected.drop_last();
        let n = l.len() as int;
        the_first_entry_counts(l, module);
        assert(affected[n] == affected.last());
        assert forall|k: int| 0 <= k < n implies #[trigger] affected[k] == l[k] by {}
        match entry_about(l, module) {
            Some(_) => {
                let i = choose|i: int| #[trigger]
                    first_about(l, module, i) && entry_about(l, module) == Some(l[i]);
                assert forall|k: int| 0 <= k < i implies !((#[trigger] affected[k]).package.ecosystem
                    == Some("Go"@) && affected[k].package.name == Some(module)) by {
                    assert(l[k] == affected[k]);
                }
                assert(first_about(affected, module, i));
                assert forall|m: int| #[trigger] first_about(affected, module, m) implies m
                    == i by {
                    if m < i {
                        assert(affected[m].package.name == Some(module));
                    } else if i < m {
                        assert(affected[i].package.name == Some(module));
                    }
                }
            },
            None => {
                lemma_no_entry(l, module);
                if is_about(affected.last(), module) {
                    assert forall|k: int|
                        0 <= k < n implies !((#[trigger] affected[k]).package.ecosystem == Some(
                        "Go"@,
                    ) && affected[k].package.name == Some(module)) by {
                        assert(!is_about(l[k], module));
                    }
                    assert(first_about(affected, module, n));
                }
                assert forall|m: int| #[trigger] first_about(affected, module, m) implies m
                    == n by {
                    if m < n {
                        assert(!is_about(l[m], module));
                    }
                }
            },
        }
    }
}

proof fn lemma_no_entry(affected: Seq<GoAffectedM>, module: Seq<char>)
    requires
        entry_about(affected, module) is None,
    ensures
        forall|k: int| 0 <= k < affected.len() ==> !is_about(#[trigger] affected[k], module),
    decreases affected.len(),
{
    if affected.len() > 0 {
        let l = affected.drop_last();
        lemma_no_entry(l, module);
        assert forall|k: int| 0 <= k < affected.len() implies !is_about(
            #[trigger] affected[k],
            module,
        ) by {
            if k < l.len() {
                assert(!is_about(l[k], module));
            }
        }
    }
}

/// Whether a directive replaces a module at a version: it names the module, and that version or
/// none.
pub open spec fn names_module(r: ReplaceM, path: Seq<char>, version: Seq<char>) -> bool {
    r.from_path == path && (r.from_version is None || r.from_version == Some(version))
}

/// The first directive that names a module at a version decides what it resolves to: another
/// module, or nothing where it is a local path. Where none does it is the module itself.
pub proof fn the_first_directive_decides(
    list: Seq<ReplaceM>,
    path: Seq<char>,
    version: Seq<char>,
    i: int,
)
    requires
        0 <= i <= list.len(),
        i < list.len() ==> names_module(list[i], path, version),
        forall|k: int| 0 <= k < i ==> !names_module(#[trigger] list[k], path, version),
    ensures
        i == list.len() ==> effective(list, path, version) == Some((path, version)),
        i < list.len() && list[i].to_version is None ==> effective(list, path, version) is None,
        i < list.len() && list[i].to_version is Some ==> effective(list, path, version) == Some(
            (list[i].to_path, list[i].to_version->0),
        ),
{
    lemma_first_replace(list, path, version, i);
}

proof fn lemma_first_replace(list: Seq<ReplaceM>, path: Seq<char>, version: Seq<char>, i: int)
    requires
        0 <= i <= list.len(),
        i < list.len() ==> names_module(list[i], path, version),
        forall|k: int| 0 <= k < i ==> !names_module(#[trigger] list[k], path, version),
    ensures
        first_replace(list, path, version) == (if i < list.len() {
            Some(list[i])
        } else {
            None
        }),
    decreases list.len(),
{
    if list.len() > 0 {
        let l = list.drop_last();
        assert forall|k: int| 0 <= k < l.len() implies #[trigger] l[k] == list[k] by {}
        assert(list[l.len() as int] == list.last());
        assert(replaces(list.last(), path, version) == names_module(list.last(), path, version));
        if i < list.len() {
            lemma_first_replace(l, path, version, i);
        } else {
            lemma_first_replace(l, path, version, l.len() as int);
            assert(!names_module(list[l.len() as int], path, version));
        }
    }
}

/// Whether a finding comes of a module that is required and an advisory of the mirror that
/// affects it: it is about what the module resolves to, at the version of that, and nothing is
/// safe but from the fix on.
pub open spec fn comes_of(
    db: GoDbM,
    list: Seq<ReplaceM>,
    m: RequiredModuleM,
    a: int,
    repo: Seq<char>,
    x: VulnFindingM,
) -> bool {
    &&& effective(list, m.path, m.version) matches Some((path, raw)) && go::go_version(raw) matches Some(
        v,
    ) && db.index.dom().contains(path) && 0 <= a < db.index[path].len()
        && db.advisories.dom().contains(db.index[path][a]) && {
        let record = db.advisories[db.index[path][a]];
        &&& entry_about(record.affected, path) matches Some(entry) && go_match(v, entry.ranges)
            matches Match::Affected { fixed } && (x.occurrences[0] matches OccurrenceM::InRepo {
            repo: at,
            package,
            installed,
            patched,
            active,
            ..
        } && at == repo && package == path && installed == v && active is None && (match fixed {
            Some(f) => tier_c::only_from(patched, f),
            None => patched.len() == 0,
        }))
        &&& x.advisory_id == record.id
        &&& record.aliases matches Some(l) ==> x.aliases == l
        &&& record.aliases is None ==> x.aliases.len() == 0
        &&& record.summary matches Some(t) ==> x.title == t
        &&& record.summary is None ==> x.title == record.id
    }
    &&& x.occurrences.len() == 1
    &&& x.severity == Severity::Unknown
    &&& x.cvss_score is None
    &&& !x.exploit.kev
    &&& x.exploit.epss is None
}

/// Every finding of a scan comes of a required module and an advisory that affects it. Where
/// that names a fix, what is safe is one bound from the fix on; where it names none, nothing is.
pub proof fn every_finding_is_a_hit(db: GoDbM, go_mod: Seq<char>, repo: Seq<char>, j: int)
    requires
        0 <= j < offline_findings(db, go_mod, repo).len(),
    ensures
        exists|p: int, a: int|
            0 <= p < go::requires_in(go_mod).len() && #[trigger] comes_of(
                db,
                go::replaces_in(go_mod),
                go::requires_in(go_mod)[p],
                a,
                repo,
                offline_findings(db, go_mod, repo)[j],
            ),
{
    let required = go::requires_in(go_mod);
    let list = go::replaces_in(go_mod);
    let direct = go::direct_set_of(required, go::first_declared(cut::lines_of(go_mod)));
    let s = matched_modules(db, required, list, direct, repo);
    let x = offline_findings(db, go_mod, repo)[j];
    osv::ordered_findings_are_distinct(s);
    assert(s.contains(osv::ordered_findings(s)[j]));
    let p = lemma_from_module(db, required, list, direct, repo, x);
    let m = required[p];
    let (path, raw) = effective(list, m.path, m.version)->0;
    let v = go::go_version(raw)->0;
    let a = lemma_from_id(db, db.index[path], path, v, m.path, direct, repo, x);
    assert(comes_of(db, list, required[p], a, repo, x));
}

/// Every advisory of the mirror that affects what a required module resolves to has a finding of
/// it.
pub proof fn every_hit_has_a_finding(
    db: GoDbM,
    go_mod: Seq<char>,
    repo: Seq<char>,
    p: int,
    a: int,
)
    requires
        0 <= p < go::requires_in(go_mod).len(),
        effective(
            go::replaces_in(go_mod),
            go::requires_in(go_mod)[p].path,
            go::requires_in(go_mod)[p].version,
        ) matches Some((path, raw)) && go::go_version(raw) matches Some(v)
            && db.index.dom().contains(path) && 0 <= a < db.index[path].len()
            && db.advisories.dom().contains(db.index[path][a]) && (entry_about(
            db.advisories[db.index[path][a]].affected,
            path,
        ) matches Some(entry) && go_match(v, entry.ranges) is Affected),
    ensures
        effective(
            go::replaces_in(go_mod),
            go::requires_in(go_mod)[p].path,
            go::requires_in(go_mod)[p].version,
        ) matches Some((path, raw)) ==> exists|j: int|
            0 <= j < offline_findings(db, go_mod, repo).len() && (#[trigger] offline_findings(
                db,
                go_mod,
                repo,
            )[j]).advisory_id == db.advisories[db.index[path][a]].id && osv::first_package(
                offline_findings(db, go_mod, repo)[j],
            ) == path,
{
    let required = go::requires_in(go_mod);
    let list = go::replaces_in(go_mod);
    let direct = go::direct_set_of(required, go::first_declared(cut::lines_of(go_mod)));
    let m = required[p];
    let (path, raw) = effective(list, m.path, m.version)->0;
    let v = go::go_version(raw)->0;
    let ids = db.index[path];
    let x = matched(db.advisories[ids[a]], path, v, m.path, direct, repo)->0;
    lemma_id_stays(db, ids, path, v, m.path, direct, repo, a);
    every_affected_module_has_a_finding(db, go_mod, repo, p, x);
    let j = choose|j: int|
        0 <= j < offline_findings(db, go_mod, repo).len() && (#[trigger] offline_findings(
            db,
            go_mod,
            repo,
        )[j]).advisory_id == x.advisory_id && osv::first_package(
            offline_findings(db, go_mod, repo)[j],
        ) == osv::first_package(x);
    assert(offline_findings(db, go_mod, repo)[j].advisory_id == db.advisories[ids[a]].id);
}

/// A release bound has been reached exactly where the numbers have, also by a version made from a
/// commit before the release; and a version is before a fix where its numbers are.
pub proof fn numbers_reach_a_release(v: VersionM, b: VersionM)
    ensures
        b.pre.len() == 0 ==> (GoVersions::reached(v, b) <==> !version::numbers_below(v, b)),
        version::numbers_below(v, b) ==> osv::lt::<GoVersions>(v, b),
        version::numbers_below(b, v) ==> !osv::lt::<GoVersions>(v, b),
        b.pre.len() > 0 && version::numbers_below(b, v) ==> GoVersions::reached(v, b),
{
    version::numbers_decide_first(v, b);
    version::numbers_decide_first(b, v);
}

/// The advisories that are loaded are those that the index refers to for some module and that
/// can stand as file names.
pub proof fn every_safe_advisory_is_loaded(
    index: Map<Seq<char>, Seq<Seq<char>>>,
    names: Seq<Seq<char>>,
    id: Seq<char>,
)
    ensures
        ids_for(index, names).contains(id) <==> safe_id(id) && exists|i: int|
            0 <= i < names.len() && index[#[trigger] names[i]].contains(id),
    decreases names.len(),
{
    if names.len() > 0 {
        let l = names.drop_last();
        let n = l.len() as int;
        every_safe_advisory_is_loaded(index, l, id);
        assert(names[n] == names.last());
        assert forall|i: int| 0 <= i < n implies #[trigger] names[i] == l[i] by {}
        let own = index[names.last()];
        lemma_safe_ids(own, id);
        let front = ids_for(index, l);
        let back = safe_ids(own);
        let all = ids_for(index, names);
        if front.contains(id) {
            let j = choose|j: int| 0 <= j < front.len() && front[j] == id;
            assert(all[j] == id);
            let i = choose|i: int| 0 <= i < l.len() && index[#[trigger] l[i]].contains(id);
            assert(index[names[i]].contains(id));
        }
        if back.contains(id) {
            let j = choose|j: int| 0 <= j < back.len() && back[j] == id;
            assert(all[front.len() + j] == id);
            assert(index[names[n]].contains(id));
        }
        if all.contains(id) {
            let j = choose|j: int| 0 <= j < all.len() && all[j] == id;
            if j < front.len() {
                assert(front[j] == id);
            } else {
                assert(back[j - front.len()] == id);
            }
        }
        if exists|i: int| 0 <= i < names.len() && index[#[trigger] names[i]].contains(id) {
            let i = choose|i: int| 0 <= i < names.len() && index[#[trigger] names[i]].contains(id);
            if i < n {
                assert(index[l[i]].contains(id));
            }
        }
    }
}

proof fn lemma_safe_ids(ids: Seq<Seq<char>>, id: Seq<char>)
    ensures
        safe_ids(ids).contains(id) <==> safe_id(id) && ids.contains(id),
    decreases ids.len(),
{
    if ids.len() > 0 {
        let l = ids.drop_last();
        lemma_safe_ids(l, id);
        let front = safe_ids(l);
        let all = safe_ids(ids);
        if front.contains(id) {
            let j = choose|j: int| 0 <= j < front.len() && front[j] == id;
            assert(all[j] == id);
            let k = choose|k: int| 0 <= k < l.len() && l[k] == id;
            assert(ids[k] == id);
        }
        if all.contains(id) && !front.contains(id) {
            let j = choose|j: int| 0 <= j < all.len() && all[j] == id;
            if j < front.len() {
                assert(front[j] == id);
            }
            assert(ids[l.len() as int] == id);
        }
        if ids.contains(id) && safe_id(id) {
            let k = choose|k: int| 0 <= k < ids.len() && ids[k] == id;
            if k < l.len() {
                assert(l[k] == id);
            } else {
                assert(all[front.len() as int] == id);
            }
        }
    }
}

/// Only the range kind of semantic versions is evaluated, and an event keeps its bounds.
pub proof fn only_semantic_ranges_match(r: RawRangeM)
    ensures
        go_range(r).matchable <==> r.kind == Some("SEMVER"@),
        go_range(r).events.len() == r.events.len(),
        forall|i: int|
            0 <= i < r.events.len() ==> (#[trigger] go_range(r).events[i]).introduced
                == r.events[i].introduced && go_range(r).events[i].fixed == r.events[i].fixed
                && go_range(r).events[i].last_affected == r.events[i].last_affected,
{
}

/// The last entry of an index for a module counts, and nothing else is indexed.
pub proof fn the_last_index_entry_counts(modules: Seq<ModuleIndexM>, path: Seq<char>, i: int)
    requires
        -1 <= i < modules.len(),
        i >= 0 ==> modules[i].path == path,
        forall|k: int| i < k < modules.len() ==> (#[trigger] modules[k]).path != path,
    ensures
        i >= 0 ==> indexed(modules).dom().contains(path) && indexed(modules)[path]
            == modules[i].vulns,
        i == -1 ==> !indexed(modules).dom().contains(path),
    decreases modules.len(),
{
    if modules.len() > 0 {
        let l = modules.drop_last();
        assert forall|k: int| 0 <= k < l.len() implies #[trigger] l[k] == modules[k] by {}
        assert(modules[l.len() as int] == modules.last());
        if i < modules.len() - 1 {
            the_last_index_entry_counts(l, path, i);
        }
    }
}

} // verus!
