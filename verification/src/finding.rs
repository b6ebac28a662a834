//! The findings of a scan: what is vulnerable, where, and how it was judged.
use vstd::prelude::*;
use crate::score::Score;
use crate::severity::Severity;
use crate::value::Plain;
use crate::version;
use crate::version::{ComparatorM, Version, VersionM, VersionReq};

verus! {

/// The package ecosystem that a finding comes from.
#[derive(Debug, Clone, Copy, PartialEq, Eq, PartialOrd, Ord, Hash, Structural)]
pub enum Ecosystem {
    Cargo,
    Go,
    Npm,
    Pypi,
    RubyGems,
    Packagist,
    NuGet,
    Julia,
    Swift,
    Hex,
    Maven,
    GitHubActions,
}

/// The place of an ecosystem in their order.
pub open spec fn ecosystem_rank(e: Ecosystem) -> int {
    match e {
        Ecosystem::Cargo => 0,
        Ecosystem::Go => 1,
        Ecosystem::Npm => 2,
        Ecosystem::Pypi => 3,
        Ecosystem::RubyGems => 4,
        Ecosystem::Packagist => 5,
        Ecosystem::NuGet => 6,
        Ecosystem::Julia => 7,
        Ecosystem::Swift => 8,
        Ecosystem::Hex => 9,
        Ecosystem::Maven => 10,
        Ecosystem::GitHubActions => 11,
    }
}

impl Ecosystem {
    pub fn is_cargo(&self) -> (r: bool)
        ensures
            r == (*self == Ecosystem::Cargo),
    {
        *self == Ecosystem::Cargo
    }

    /// The place of the ecosystem in their order.
    pub fn rank(self) -> (r: u8)
        ensures
            r == ecosystem_rank(self),
    {
        match self {
            Ecosystem::Cargo => 0,
            Ecosystem::Go => 1,
            Ecosystem::Npm => 2,
            Ecosystem::Pypi => 3,
            Ecosystem::RubyGems => 4,
            Ecosystem::Packagist => 5,
            Ecosystem::NuGet => 6,
            Ecosystem::Julia => 7,
            Ecosystem::Swift => 8,
            Ecosystem::Hex => 9,
            Ecosystem::Maven => 10,
            Ecosystem::GitHubActions => 11,
        }
    }
}

impl Default for Ecosystem {
    fn default() -> (r: Ecosystem)
        ensures
            r == Ecosystem::Cargo,
    {
        Ecosystem::Cargo
    }
}

/// The name by which a fleet knows a repository.
#[derive(Debug, PartialEq, Eq, Hash, PartialOrd, Ord)]
pub struct RepoId(pub String);

impl DeepView for RepoId {
    type V = Seq<char>;

    open spec fn deep_view(&self) -> Seq<char> {
        self.0@
    }
}

impl Plain for RepoId {
    fn copy(&self) -> (r: RepoId) {
        RepoId(self.0.clone())
    }

    fn same(&self, other: &RepoId) -> (r: bool) {
        self.0 == other.0
    }
}

impl Clone for RepoId {
    fn clone(&self) -> (r: RepoId)
        ensures
            r.deep_view() == self.deep_view(),
    {
        self.copy()
    }
}

/// Whether the project itself asks for a package, or another package does.
#[derive(Debug, Clone, Copy, PartialEq, Eq, Hash, Structural)]
pub enum DependencyKind {
    Direct,
    Transitive,
}

/// What a [`DepSource`] stands for.
#[verifier::ext_equal]
pub enum DepSourceM {
    CratesIo,
    Git {
        url: Seq<char>,
        rev: Option<Seq<char>>,
    },
    Path,
    OtherRegistry {
        url: Seq<char>,
    },
}

/// Where a dependency is fetched from.
#[derive(Debug, PartialEq, Eq)]
pub enum DepSource {
    /// The default registry.
    CratesIo,
    /// A git checkout, at `rev` where it is pinned.
    Git {
        url: String,
        rev: Option<String>,
    },
    /// A directory on disk.
    Path,
    /// A registry of its own.
    OtherRegistry {
        url: String,
    },
}

impl DeepView for DepSource {
    type V = DepSourceM;

    open spec fn deep_view(&self) -> DepSourceM {
        match self {
            DepSource::CratesIo => DepSourceM::CratesIo,
            DepSource::Git { url, rev } => DepSourceM::Git {
                url: url@,
                rev: rev.deep_view(),
            },
            DepSource::Path => DepSourceM::Path,
            DepSource::OtherRegistry { url } => DepSourceM::OtherRegistry {
                url: url@,
            },
        }
    }
}

impl Plain for DepSource {
    fn copy(&self) -> (r: DepSource) {
        match self {
            DepSource::CratesIo => DepSource::CratesIo,
            DepSource::Git { url, rev } => DepSource::Git {
                url: url.clone(),
                rev: rev.copy(),
            },
            DepSource::Path => DepSource::Path,
            DepSource::OtherRegistry { url } => DepSource::OtherRegistry {
                url: url.clone(),
            },
        }
    }

    fn same(&self, other: &DepSource) -> (r: bool) {
        match self {
            DepSource::CratesIo => match other {
                DepSource::CratesIo => true,
                _ => false,
            },
            DepSource::Git { url, rev } => match other {
                DepSource::Git { url: other_url, rev: other_rev } => *url == *other_url
                    && rev.same(other_rev),
                _ => false,
            },
            DepSource::Path => match other {
                DepSource::Path => true,
                _ => false,
            },
            DepSource::OtherRegistry { url } => match other {
                DepSource::OtherRegistry { url: other_url } => *url == *other_url,
                _ => false,
            },
        }
    }
}

impl Clone for DepSource {
    fn clone(&self) -> (r: DepSource)
        ensures
            r.deep_view() == self.deep_view(),
    {
        self.copy()
    }
}

impl DepSource {
    pub fn is_crates_io(&self) -> (r: bool)
        ensures
            r == (self.deep_view() == DepSourceM::CratesIo),
    {
        match self {
            DepSource::CratesIo => true,
            _ => false,
        }
    }
}

impl Default for DepSource {
    fn default() -> (r: DepSource)
        ensures
            r.deep_view() == DepSourceM::CratesIo,
    {
        DepSource::CratesIo
    }
}

/// What a [`Occurrence`] stands for.
#[verifier::ext_equal]
#[allow(inconsistent_fields)]
pub enum OccurrenceM {
    InRepo {
        repo: Seq<char>,
        package: Seq<char>,
        installed: VersionM,
        patched: Seq<Seq<ComparatorM>>,
        dependency_kind: DependencyKind,
        dependency_path: Seq<Seq<char>>,
        active: Option<bool>,
        source: DepSourceM,
    },
    Toolchain {
        channel: Seq<char>,
        installed: Option<VersionM>,
        patched: Seq<Seq<ComparatorM>>,
    },
}

/// One place where an advisory applies.
#[derive(Debug, PartialEq)]
#[allow(inconsistent_fields)]
pub enum Occurrence {
    /// A package in a repository.
    InRepo {
        repo: RepoId,
        package: String,
        installed: Version,
        /// The safe versions: those that match any of these. Empty means that no fix is
        /// published.
        patched: Vec<VersionReq>,
        dependency_kind: DependencyKind,
        /// Names from the project down to the package, empty when not known.
        dependency_path: Vec<String>,
        /// Whether the package is really built, `None` when not known.
        active: Option<bool>,
        source: DepSource,
    },
    /// The toolchain itself.
    Toolchain {
        channel: String,
        installed: Option<Version>,
        patched: Vec<VersionReq>,
    },
}

impl DeepView for Occurrence {
    type V = OccurrenceM;

    open spec fn deep_view(&self) -> OccurrenceM {
        match self {
            Occurrence::InRepo { repo, package, installed, patched, dependency_kind, dependency_path, active, source } => OccurrenceM::InRepo {
                repo: repo.deep_view(),
                package: package@,
                installed: installed.deep_view(),
                patched: patched.deep_view(),
                dependency_kind: *dependency_kind,
                dependency_path: dependency_path.deep_view(),
                active: *active,
                source: source.deep_view(),
            },
            Occurrence::Toolchain { channel, installed, patched } => OccurrenceM::Toolchain {
                channel: channel@,
                installed: installed.deep_view(),
                patched: patched.deep_view(),
            },
        }
    }
}

impl Plain for Occurrence {
    fn copy(&self) -> (r: Occurrence) {
        match self {
            Occurrence::InRepo { repo, package, installed, patched, dependency_kind, dependency_path, active, source } => Occurrence::InRepo {
                repo: repo.copy(),
                package: package.clone(),
                installed: installed.copy(),
                patched: patched.copy(),
                dependency_kind: *dependency_kind,
                dependency_path: dependency_path.copy(),
                active: *active,
                source: source.copy(),
            },
            Occurrence::Toolchain { channel, installed, patched } => Occurrence::Toolchain {
                channel: channel.clone(),
                installed: installed.copy(),
                patched: patched.copy(),
            },
        }
    }

    fn same(&self, other: &Occurrence) -> (r: bool) {
        match self {
            Occurrence::InRepo { repo, package, installed, patched, dependency_kind, dependency_path, active, source } => match other {
                Occurrence::InRepo { repo: other_repo, package: other_package, installed: other_installed, patched: other_patched, dependency_kind: other_dependency_kind, dependency_path: other_dependency_path, active: other_active, source: other_source } => repo.same(other_repo)
                    && *package == *other_package
                    && installed.same(other_installed)
                    && patched.same(other_patched)
                    && *dependency_kind == *other_dependency_kind
                    && dependency_path.same(other_dependency_path)
                    && *active == *other_active
                    && source.same(other_source),
                _ => false,
            },
            Occurrence::Toolchain { channel, installed, patched } => match other {
                Occurrence::Toolchain { channel: other_channel, installed: other_installed, patched: other_patched } => *channel == *other_channel
                    && installed.same(other_installed)
                    && patched.same(other_patched),
                _ => false,
            },
        }
    }
}

impl Clone for Occurrence {
    fn clone(&self) -> (r: Occurrence)
        ensures
            r.deep_view() == self.deep_view(),
    {
        self.copy()
    }
}

/// Whether a version is in a set of safe versions: it satisfies one of the requirements.
pub open spec fn safe(patched: Seq<Seq<ComparatorM>>, v: VersionM) -> bool {
    exists|i: int|
        0 <= i < patched.len() && version::semver_satisfies(#[trigger] patched[i], v)
}

/// An occurrence is vulnerable unless its version is known to be safe.
pub open spec fn vulnerable(o: OccurrenceM) -> bool {
    match o {
        OccurrenceM::InRepo { installed, patched, .. } => !safe(patched, installed),
        OccurrenceM::Toolchain { installed, patched, .. } => match installed {
            Some(v) => !safe(patched, v),
            None => true,
        },
    }
}

/// Whether `v` satisfies any of the requirements.
pub fn is_safe(patched: &Vec<VersionReq>, v: &Version) -> (r: bool)
    ensures
        r == safe(patched.deep_view(), v.deep_view()),
{
    let mut i: usize = 0;
    while i < patched.len()
        invariant
            i <= patched.len(),
            forall|j: int|
                0 <= j < i ==> !version::semver_satisfies(
                    #[trigger] patched.deep_view()[j],
                    v.deep_view(),
                ),
        decreases patched.len() - i,
    {
        if patched[i].matches(v) {
            assert(version::semver_satisfies(patched.deep_view()[i as int], v.deep_view()));
            return true;
        }
        i += 1;
    }
    false
}

impl Occurrence {
    /// Whether the installed version is not known to be safe.
    pub fn is_vulnerable(&self) -> (r: bool)
        ensures
            r == vulnerable(self.deep_view()),
    {
        match self {
            Occurrence::InRepo { installed, patched, .. } => !is_safe(patched, installed),
            Occurrence::Toolchain { installed, patched, .. } => match installed {
                Some(v) => !is_safe(patched, v),
                None => true,
            },
        }
    }
}

/// With no published fix, every installed version is vulnerable.
pub proof fn no_fix_is_vulnerable(o: OccurrenceM)
    requires
        match o {
            OccurrenceM::InRepo { patched, .. } => patched.len() == 0,
            OccurrenceM::Toolchain { patched, .. } => patched.len() == 0,
        },
    ensures
        vulnerable(o),
{
}

/// How likely an advisory is to be used in an attack.
#[derive(Debug, Clone, Copy, PartialEq)]
pub struct Exploitability {
    /// Known to be exploited.
    pub kev: bool,
    /// The estimated probability of exploitation.
    pub epss: Option<Score>,
}

impl Default for Exploitability {
    fn default() -> (r: Exploitability)
        ensures
            r == (Exploitability { kev: false, epss: None }),
    {
        Exploitability { kev: false, epss: None }
    }
}

impl Plain for Exploitability {
    fn copy(&self) -> (r: Exploitability) {
        *self
    }

    fn same(&self, other: &Exploitability) -> (r: bool) {
        self.kev == other.kev && self.epss.same(&other.epss)
    }
}

impl DeepView for Exploitability {
    type V = Exploitability;

    open spec fn deep_view(&self) -> Exploitability {
        *self
    }
}

pub fn is_false(value: &bool) -> (r: bool)
    ensures
        r == !*value,
{
    !*value
}

/// What a [`ReachVerdict`] stands for.
#[verifier::ext_equal]
pub enum ReachVerdictM {
    Reachable {
        witness: Seq<Seq<char>>,
    },
    NotReachable,
    Unknown {
        reason: Seq<char>,
    },
}

/// What an engine found about whether the vulnerable code can run.
#[derive(Debug, PartialEq)]
pub enum ReachVerdict {
    /// A path of calls or imports leads there.
    Reachable {
        witness: Vec<String>,
    },
    /// It is proved that nothing leads there.
    NotReachable,
    /// Not decided.
    Unknown {
        reason: String,
    },
}

impl DeepView for ReachVerdict {
    type V = ReachVerdictM;

    open spec fn deep_view(&self) -> ReachVerdictM {
        match self {
            ReachVerdict::Reachable { witness } => ReachVerdictM::Reachable {
                witness: witness.deep_view(),
            },
            ReachVerdict::NotReachable => ReachVerdictM::NotReachable,
            ReachVerdict::Unknown { reason } => ReachVerdictM::Unknown {
                reason: reason@,
            },
        }
    }
}

impl Plain for ReachVerdict {
    fn copy(&self) -> (r: ReachVerdict) {
        match self {
            ReachVerdict::Reachable { witness } => ReachVerdict::Reachable {
                witness: witness.copy(),
            },
            ReachVerdict::NotReachable => ReachVerdict::NotReachable,
            ReachVerdict::Unknown { reason } => ReachVerdict::Unknown {
                reason: reason.clone(),
            },
        }
    }

    fn same(&self, other: &ReachVerdict) -> (r: bool) {
        match self {
            ReachVerdict::Reachable { witness } => match other {
                ReachVerdict::Reachable { witness: other_witness } => witness.same(other_witness),
                _ => false,
            },
            ReachVerdict::NotReachable => match other {
                ReachVerdict::NotReachable => true,
                _ => false,
            },
            ReachVerdict::Unknown { reason } => match other {
                ReachVerdict::Unknown { reason: other_reason } => *reason == *other_reason,
                _ => false,
            },
        }
    }
}

impl Clone for ReachVerdict {
    fn clone(&self) -> (r: ReachVerdict)
        ensures
            r.deep_view() == self.deep_view(),
    {
        self.copy()
    }
}

/// What a [`Reachability`] stands for.
#[verifier::ext_equal]
pub struct ReachabilityM {
    pub verdict: ReachVerdictM,
    pub config: Seq<char>,
    pub engine: Seq<char>,
    pub targets: Seq<Seq<char>>,
    pub witness: Option<Seq<char>>,
}

/// A verdict with what it holds for.
#[derive(Debug, PartialEq)]
pub struct Reachability {
    pub verdict: ReachVerdict,
    /// The configuration that the verdict holds for.
    pub config: String,
    pub engine: String,
    pub targets: Vec<String>,
    /// A digest that makes the verdict checkable again.
    pub witness: Option<String>,
}

impl DeepView for Reachability {
    type V = ReachabilityM;

    open spec fn deep_view(&self) -> ReachabilityM {
        ReachabilityM {
            verdict: self.verdict.deep_view(),
            config: self.config@,
            engine: self.engine@,
            targets: self.targets.deep_view(),
            witness: self.witness.deep_view(),
        }
    }
}

impl Plain for Reachability {
    fn copy(&self) -> (r: Reachability) {
        Reachability {
            verdict: self.verdict.copy(),
            config: self.config.clone(),
            engine: self.engine.clone(),
            targets: self.targets.copy(),
            witness: self.witness.copy(),
        }
    }

    fn same(&self, other: &Reachability) -> (r: bool) {
        self.verdict.same(&other.verdict)
            && self.config == other.config
            && self.engine == other.engine
            && self.targets.same(&other.targets)
            && self.witness.same(&other.witness)
    }
}

impl Clone for Reachability {
    fn clone(&self) -> (r: Reachability)
        ensures
            r.deep_view() == self.deep_view(),
    {
        self.copy()
    }
}

/// What a version match alone says of reachability: nothing.
pub open spec fn tier_c_unknown_m(reason: Seq<char>) -> ReachabilityM {
    ReachabilityM {
        verdict: ReachVerdictM::Unknown { reason },
        config: "package-level"@,
        engine: "fleetreach-tier-c"@,
        targets: Seq::empty(),
        witness: None,
    }
}

pub open spec fn legacy_bool(v: ReachVerdictM) -> Option<bool> {
    match v {
        ReachVerdictM::Reachable { .. } => Some(true),
        ReachVerdictM::NotReachable => Some(false),
        ReachVerdictM::Unknown { .. } => None,
    }
}

impl Reachability {
    /// The verdict of a scan that only matched versions: unknown, never unreachable.
    pub fn tier_c_unknown(reason: &str) -> (r: Reachability)
        ensures
            r.deep_view() == tier_c_unknown_m(reason@),
    {
        let targets: Vec<String> = Vec::new();
        assert(targets.deep_view() =~= Seq::<Seq<char>>::empty());
        Reachability {
            verdict: ReachVerdict::Unknown { reason: reason.to_owned() },
            config: "package-level".to_owned(),
            engine: "fleetreach-tier-c".to_owned(),
            targets,
            witness: None,
        }
    }

    /// The verdict as a flag, `None` where it is not decided.
    pub fn as_legacy_bool(&self) -> (r: Option<bool>)
        ensures
            r == legacy_bool(self.deep_view().verdict),
    {
        match self.verdict {
            ReachVerdict::Reachable { .. } => Some(true),
            ReachVerdict::NotReachable => Some(false),
            ReachVerdict::Unknown { .. } => None,
        }
    }
}

/// What a [`VulnFinding`] stands for.
#[verifier::ext_equal]
pub struct VulnFindingM {
    pub advisory_id: Seq<char>,
    pub aliases: Seq<Seq<char>>,
    pub ecosystem: Ecosystem,
    pub title: Seq<char>,
    pub severity: Severity,
    pub cvss_score: Option<Score>,
    pub url: Option<Seq<char>>,
    pub occurrences: Seq<OccurrenceM>,
    pub affected_functions: Seq<Seq<char>>,
    pub reachable: Option<bool>,
    pub reachability: Option<ReachabilityM>,
    pub exploit: Exploitability,
}

/// One advisory and every place where it applies.
#[derive(Debug, PartialEq)]
pub struct VulnFinding {
    pub advisory_id: String,
    pub aliases: Vec<String>,
    pub ecosystem: Ecosystem,
    pub title: String,
    pub severity: Severity,
    pub cvss_score: Option<Score>,
    pub url: Option<String>,
    pub occurrences: Vec<Occurrence>,
    pub affected_functions: Vec<String>,
    /// Whether the source seems to use it; `None` when not known.
    pub reachable: Option<bool>,
    pub reachability: Option<Reachability>,
    pub exploit: Exploitability,
}

impl DeepView for VulnFinding {
    type V = VulnFindingM;

    open spec fn deep_view(&self) -> VulnFindingM {
        VulnFindingM {
            advisory_id: self.advisory_id@,
            aliases: self.aliases.deep_view(),
            ecosystem: self.ecosystem,
            title: self.title@,
            severity: self.severity,
            cvss_score: self.cvss_score,
            url: self.url.deep_view(),
            occurrences: self.occurrences.deep_view(),
            affected_functions: self.affected_functions.deep_view(),
            reachable: self.reachable,
            reachability: self.reachability.deep_view(),
            exploit: self.exploit,
        }
    }
}

impl Plain for VulnFinding {
    fn copy(&self) -> (r: VulnFinding) {
        VulnFinding {
            advisory_id: self.advisory_id.clone(),
            aliases: self.aliases.copy(),
            ecosystem: self.ecosystem,
            title: self.title.clone(),
            severity: self.severity,
            cvss_score: self.cvss_score,
            url: self.url.copy(),
            occurrences: self.occurrences.copy(),
            affected_functions: self.affected_functions.copy(),
            reachable: self.reachable,
            reachability: self.reachability.copy(),
            exploit: self.exploit,
        }
    }

    fn same(&self, other: &VulnFinding) -> (r: bool) {
        self.advisory_id == other.advisory_id
            && self.aliases.same(&other.aliases)
            && self.ecosystem == other.ecosystem
            && self.title == other.title
            && self.severity == other.severity
            && self.cvss_score == other.cvss_score
            && self.url.same(&other.url)
            && self.occurrences.same(&other.occurrences)
            && self.affected_functions.same(&other.affected_functions)
            && self.reachable == other.reachable
            && self.reachability.same(&other.reachability)
            && self.exploit.same(&other.exploit)
    }
}

impl Clone for VulnFinding {
    fn clone(&self) -> (r: VulnFinding)
        ensures
            r.deep_view() == self.deep_view(),
    {
        self.copy()
    }
}

/// What a warning is about.
#[derive(Debug, Clone, Copy, PartialEq, Eq, PartialOrd, Ord, Hash, Structural)]
pub enum WarnKind {
    Unmaintained,
    Yanked,
    Unsound,
    Notice,
}

/// The place of a kind in their order.
pub open spec fn warn_rank(k: WarnKind) -> int {
    match k {
        WarnKind::Unmaintained => 0,
        WarnKind::Yanked => 1,
        WarnKind::Unsound => 2,
        WarnKind::Notice => 3,
    }
}

impl WarnKind {
    /// The place of the kind in their order.
    pub fn rank(self) -> (r: u8)
        ensures
            r == warn_rank(self),
    {
        match self {
            WarnKind::Unmaintained => 0,
            WarnKind::Yanked => 1,
            WarnKind::Unsound => 2,
            WarnKind::Notice => 3,
        }
    }
}

/// What a [`WarnFinding`] stands for.
#[verifier::ext_equal]
pub struct WarnFindingM {
    pub kind: WarnKind,
    pub advisory_id: Option<Seq<char>>,
    pub title: Seq<char>,
    pub occurrences: Seq<OccurrenceM>,
}

/// One warning and every place where it applies.
#[derive(Debug, PartialEq)]
pub struct WarnFinding {
    pub kind: WarnKind,
    pub advisory_id: Option<String>,
    pub title: String,
    pub occurrences: Vec<Occurrence>,
}

impl DeepView for WarnFinding {
    type V = WarnFindingM;

    open spec fn deep_view(&self) -> WarnFindingM {
        WarnFindingM {
            kind: self.kind,
            advisory_id: self.advisory_id.deep_view(),
            title: self.title@,
            occurrences: self.occurrences.deep_view(),
        }
    }
}

impl Plain for WarnFinding {
    fn copy(&self) -> (r: WarnFinding) {
        WarnFinding {
            kind: self.kind,
            advisory_id: self.advisory_id.copy(),
            title: self.title.clone(),
            occurrences: self.occurrences.copy(),
        }
    }

    fn same(&self, other: &WarnFinding) -> (r: bool) {
        self.kind == other.kind
            && self.advisory_id.same(&other.advisory_id)
            && self.title == other.title
            && self.occurrences.same(&other.occurrences)
    }
}

impl Clone for WarnFinding {
    fn clone(&self) -> (r: WarnFinding)
        ensures
            r.deep_view() == self.deep_view(),
    {
        self.copy()
    }
}

/// An occurrence is vulnerable exactly where its version is not known or satisfies none of the
/// requirements for what is safe.
pub proof fn safe_means_required(o: OccurrenceM)
    ensures
        o matches OccurrenceM::InRepo { installed, patched, .. } ==> (vulnerable(o) <==> forall|i: int|
            0 <= i < patched.len() ==> !version::semver_satisfies(#[trigger] patched[i], installed)),
        o matches OccurrenceM::Toolchain { installed, patched, .. } ==> (vulnerable(o)
            <==> installed is None || forall|i: int|
            0 <= i < patched.len() ==> !version::semver_satisfies(
                #[trigger] patched[i],
                installed->0,
            )),
{
}

/// What is decided is given as a flag: reached or not; what is not decided has none, and a match
/// of versions alone is never decided.
pub proof fn only_a_verdict_is_a_flag(v: ReachVerdictM, reason: Seq<char>)
    ensures
        legacy_bool(v) == Some(true) <==> v is Reachable,
        legacy_bool(v) == Some(false) <==> v is NotReachable,
        legacy_bool(v) is None <==> v is Unknown,
        legacy_bool(tier_c_unknown_m(reason).verdict) is None,
        tier_c_unknown_m(reason).verdict == (ReachVerdictM::Unknown { reason }),
        tier_c_unknown_m(reason).witness is None,
{
}

/// Ecosystems and kinds of warnings have places of their own in their orders.
pub proof fn places_are_distinct(a: Ecosystem, b: Ecosystem, k: WarnKind, l: WarnKind)
    ensures
        ecosystem_rank(a) == ecosystem_rank(b) <==> a == b,
        warn_rank(k) == warn_rank(l) <==> k == l,
        a != Ecosystem::Cargo ==> ecosystem_rank(Ecosystem::Cargo) < ecosystem_rank(a),
        k != WarnKind::Unmaintained ==> warn_rank(WarnKind::Unmaintained) < warn_rank(k),
{
}

} // verus!
