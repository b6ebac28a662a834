//! Putting the results of single repositories together: which ecosystem a repository belongs
//! to, what its scan comes to, and the data of the whole fleet.
use vstd::prelude::*;
use crate::config::{Config, ConfigM, Repo};
use crate::finding::{
    Ecosystem, Occurrence, OccurrenceM, RepoId, VulnFinding, VulnFindingM, WarnFinding,
    WarnFindingM,
};
use crate::osv::{TierCScan, TierCScanM};
use crate::outcome::{RepoOutcome, RepoOutcomeM, ScanStatus, ScanStatusM};
use crate::text;
use crate::value;
use crate::value::Plain;
use crate::version::{Version, VersionM};

verus! {

/// What a [`ScanData`] stands for.
#[verifier::ext_equal]
pub struct ScanDataM {
    pub vulnerabilities: Seq<VulnFindingM>,
    pub warnings: Seq<WarnFindingM>,
    pub outcomes: Seq<RepoOutcomeM>,
    pub skipped_unparseable: u32,
}

/// The findings of a fleet before they are folded, with how each repository fared.
#[derive(Debug, PartialEq)]
pub struct ScanData {
    pub vulnerabilities: Vec<VulnFinding>,
    pub warnings: Vec<WarnFinding>,
    pub outcomes: Vec<RepoOutcome>,
    /// How many installed packages were skipped because their version could not be read.
    pub skipped_unparseable: u32,
}

impl DeepView for ScanData {
    type V = ScanDataM;

    open spec fn deep_view(&self) -> ScanDataM {
        ScanDataM {
            vulnerabilities: self.vulnerabilities.deep_view(),
            warnings: self.warnings.deep_view(),
            outcomes: self.outcomes.deep_view(),
            skipped_unparseable: self.skipped_unparseable,
        }
    }
}

impl Plain for ScanData {
    fn copy(&self) -> (r: ScanData) {
        ScanData {
            vulnerabilities: self.vulnerabilities.copy(),
            warnings: self.warnings.copy(),
            outcomes: self.outcomes.copy(),
            skipped_unparseable: self.skipped_unparseable,
        }
    }

    fn same(&self, other: &ScanData) -> (r: bool) {
        self.vulnerabilities.same(&other.vulnerabilities)
            && self.warnings.same(&other.warnings)
            && self.outcomes.same(&other.outcomes)
            && self.skipped_unparseable == other.skipped_unparseable
    }
}

impl Clone for ScanData {
    fn clone(&self) -> (r: ScanData)
        ensures
            r.deep_view() == self.deep_view(),
    {
        self.copy()
    }
}

/// What a [`Toolchain`] stands for.
#[verifier::ext_equal]
pub struct ToolchainM {
    pub channel: Seq<char>,
    pub version: VersionM,
}

/// An installed toolchain, scanned beside the repositories.
#[derive(Debug, PartialEq)]
pub struct Toolchain {
    pub channel: String,
    pub version: Version,
}

impl DeepView for Toolchain {
    type V = ToolchainM;

    open spec fn deep_view(&self) -> ToolchainM {
        ToolchainM {
            channel: self.channel@,
            version: self.version.deep_view(),
        }
    }
}

impl Plain for Toolchain {
    fn copy(&self) -> (r: Toolchain) {
        Toolchain {
            channel: self.channel.clone(),
            version: self.version.copy(),
        }
    }

    fn same(&self, other: &Toolchain) -> (r: bool) {
        self.channel == other.channel
            && self.version.same(&other.version)
    }
}

impl Clone for Toolchain {
    fn clone(&self) -> (r: Toolchain)
        ensures
            r.deep_view() == self.deep_view(),
    {
        self.copy()
    }
}

/// What a [`BuiltPackage`] stands for.
#[verifier::ext_equal]
pub struct BuiltPackageM {
    pub name: Seq<char>,
    pub version: VersionM,
}

/// A package that a build compiles.
#[derive(Debug, PartialEq)]
pub struct BuiltPackage {
    pub name: String,
    pub version: Version,
}

impl DeepView for BuiltPackage {
    type V = BuiltPackageM;

    open spec fn deep_view(&self) -> BuiltPackageM {
        BuiltPackageM {
            name: self.name@,
            version: self.version.deep_view(),
        }
    }
}

impl Plain for BuiltPackage {
    fn copy(&self) -> (r: BuiltPackage) {
        BuiltPackage {
            name: self.name.clone(),
            version: self.version.copy(),
        }
    }

    fn same(&self, other: &BuiltPackage) -> (r: bool) {
        self.name == other.name
            && self.version.same(&other.version)
    }
}

/// What a [`RepoScan`] stands for.
#[verifier::ext_equal]
pub struct RepoScanM {
    pub vulnerabilities: Seq<VulnFindingM>,
    pub warnings: Seq<WarnFindingM>,
}

/// The findings of one lockfile, or of a toolchain.
#[derive(Debug, PartialEq)]
pub struct RepoScan {
    pub vulnerabilities: Vec<VulnFinding>,
    pub warnings: Vec<WarnFinding>,
}

impl DeepView for RepoScan {
    type V = RepoScanM;

    open spec fn deep_view(&self) -> RepoScanM {
        RepoScanM {
            vulnerabilities: self.vulnerabilities.deep_view(),
            warnings: self.warnings.deep_view(),
        }
    }
}

/// What a [`RepoResult`] stands for.
#[verifier::ext_equal]
pub struct RepoResultM {
    pub vulnerabilities: Seq<VulnFindingM>,
    pub warnings: Seq<WarnFindingM>,
    pub outcome: RepoOutcomeM,
    pub skipped_unparseable: u32,
}

/// The findings of one repository and how it fared.
#[derive(Debug, PartialEq)]
pub struct RepoResult {
    pub vulnerabilities: Vec<VulnFinding>,
    pub warnings: Vec<WarnFinding>,
    pub outcome: RepoOutcome,
    /// How many installed packages were skipped because their version could not be read.
    pub skipped_unparseable: u32,
}

impl DeepView for RepoResult {
    type V = RepoResultM;

    open spec fn deep_view(&self) -> RepoResultM {
        RepoResultM {
            vulnerabilities: self.vulnerabilities.deep_view(),
            warnings: self.warnings.deep_view(),
            outcome: self.outcome.deep_view(),
            skipped_unparseable: self.skipped_unparseable,
        }
    }
}

// --- Results ---

pub open spec fn scanned_result(
    repo: Seq<char>,
    vulnerabilities: Seq<VulnFindingM>,
    warnings: Seq<WarnFindingM>,
) -> RepoResultM {
    RepoResultM {
        vulnerabilities,
        warnings,
        outcome: RepoOutcomeM {
            repo,
            status: ScanStatusM::Scanned {
                vulns: vulnerabilities.len() as usize,
                warnings: warnings.len() as usize,
            },
        },
        skipped_unparseable: 0,
    }
}

pub open spec fn errored_result(repo: Seq<char>, reason: Seq<char>) -> RepoResultM {
    RepoResultM {
        vulnerabilities: Seq::empty(),
        warnings: Seq::empty(),
        outcome: RepoOutcomeM { repo, status: ScanStatusM::Errored { reason } },
        skipped_unparseable: 0,
    }
}

impl RepoResult {
    /// A repository that was read, with its findings.
    pub fn scanned(
        repo: &RepoId,
        vulnerabilities: Vec<VulnFinding>,
        warnings: Vec<WarnFinding>,
    ) -> (r: RepoResult)
        ensures
            r.deep_view() == scanned_result(
                repo.deep_view(),
                vulnerabilities.deep_view(),
                warnings.deep_view(),
            ),
    {
        proof {
            assert(vulnerabilities.deep_view().len() == vulnerabilities.len());
            assert(warnings.deep_view().len() == warnings.len());
        }
        let outcome = RepoOutcome {
            repo: repo.copy(),
            status: ScanStatus::Scanned {
                vulns: vulnerabilities.len(),
                warnings: warnings.len(),
            },
        };
        RepoResult { vulnerabilities, warnings, outcome, skipped_unparseable: 0 }
    }

    /// The same result, with the count of packages that were skipped.
    pub fn with_skipped(self, skipped_unparseable: u32) -> (r: RepoResult)
        ensures
            r.deep_view() == (RepoResultM { skipped_unparseable, ..self.deep_view() }),
    {
        RepoResult {
            vulnerabilities: self.vulnerabilities,
            warnings: self.warnings,
            outcome: self.outcome,
            skipped_unparseable,
        }
    }

    /// A repository that could not be read: a gap, never a clean result.
    pub fn errored(repo: &RepoId, reason: String) -> (r: RepoResult)
        ensures
            r.deep_view() == errored_result(repo.deep_view(), reason@),
    {
        let vulnerabilities: Vec<VulnFinding> = Vec::new();
        let warnings: Vec<WarnFinding> = Vec::new();
        proof {
            assert(vulnerabilities.deep_view() =~= Seq::empty());
            assert(warnings.deep_view() =~= Seq::empty());
        }
        RepoResult {
            vulnerabilities,
            warnings,
            outcome: RepoOutcome { repo: repo.copy(), status: ScanStatus::Errored { reason } },
            skipped_unparseable: 0,
        }
    }
}

// --- Ecosystems ---

/// Which manifests a repository has at its root.
#[derive(Debug, Clone, Copy, PartialEq, Eq, Structural)]
pub struct Manifests {
    pub cargo_lock: bool,
    pub go_mod: bool,
    pub package_lock: bool,
    /// Any lockfile of Python.
    pub python_lock: bool,
    pub gemfile_lock: bool,
    pub composer_lock: bool,
    pub packages_lock: bool,
    pub julia_manifest: bool,
    pub package_resolved: bool,
    pub mix_lock: bool,
    pub gradle_lockfile: bool,
    pub pom_xml: bool,
    /// A directory of workflows.
    pub workflows: bool,
}

/// The ecosystem that a repository is scanned as: the one that the configuration gives, else
/// that of the first manifest in a fixed order, else Cargo.
pub open spec fn ecosystem_of(given: Option<Ecosystem>, m: Manifests) -> Ecosystem {
    match given {
        Some(e) => e,
        None => if m.cargo_lock {
            Ecosystem::Cargo
        } else if m.go_mod {
            Ecosystem::Go
        } else if m.package_lock {
            Ecosystem::Npm
        } else if m.python_lock {
            Ecosystem::Pypi
        } else if m.gemfile_lock {
            Ecosystem::RubyGems
        } else if m.composer_lock {
            Ecosystem::Packagist
        } else if m.packages_lock {
            Ecosystem::NuGet
        } else if m.julia_manifest {
            Ecosystem::Julia
        } else if m.package_resolved {
            Ecosystem::Swift
        } else if m.mix_lock {
            Ecosystem::Hex
        } else if m.gradle_lockfile || m.pom_xml {
            Ecosystem::Maven
        } else if m.workflows {
            Ecosystem::GitHubActions
        } else {
            Ecosystem::Cargo
        },
    }
}

/// The ecosystem that a repository is scanned as.
pub fn effective_ecosystem(given: Option<Ecosystem>, m: &Manifests) -> (r: Ecosystem)
    ensures
        r == ecosystem_of(given, *m),
{
    if let Some(e) = given {
        return e;
    }
    if m.cargo_lock {
        return Ecosystem::Cargo;
    }
    if m.go_mod {
        return Ecosystem::Go;
    }
    if m.package_lock {
        return Ecosystem::Npm;
    }
    if m.python_lock {
        return Ecosystem::Pypi;
    }
    if m.gemfile_lock {
        return Ecosystem::RubyGems;
    }
    if m.composer_lock {
        return Ecosystem::Packagist;
    }
    if m.packages_lock {
        return Ecosystem::NuGet;
    }
    if m.julia_manifest {
        return Ecosystem::Julia;
    }
    if m.package_resolved {
        return Ecosystem::Swift;
    }
    if m.mix_lock {
        return Ecosystem::Hex;
    }
    if m.gradle_lockfile || m.pom_xml {
        return Ecosystem::Maven;
    }
    if m.workflows {
        return Ecosystem::GitHubActions;
    }
    Ecosystem::Cargo
}

/// A lockfile of Cargo decides, whatever else there is, unless the configuration says
/// otherwise.
pub proof fn cargo_lock_wins(m: Manifests)
    requires
        m.cargo_lock,
    ensures
        ecosystem_of(None, m) == Ecosystem::Cargo,
{
}

/// A repository counts as one of workflows only where it has no manifest at all.
pub proof fn workflows_come_last(m: Manifests)
    requires
        ecosystem_of(None, m) == Ecosystem::GitHubActions,
    ensures
        !m.cargo_lock && !m.go_mod && !m.package_lock && !m.python_lock && !m.gemfile_lock
            && !m.composer_lock && !m.packages_lock && !m.julia_manifest && !m.package_resolved
            && !m.mix_lock && !m.gradle_lockfile && !m.pom_xml,
{
}

/// Whether the advisories of an ecosystem are loaded: where some repository belongs to it, and
/// for Go only where its own checker is not there.
pub open spec fn mirror_needed(
    ecosystems: Seq<Ecosystem>,
    e: Ecosystem,
    has_govulncheck: bool,
) -> bool {
    ecosystems.contains(e) && e != Ecosystem::Cargo && !(e == Ecosystem::Go && has_govulncheck)
}

/// Whether the advisories of an ecosystem are loaded.
pub fn needs_mirror(ecosystems: &Vec<Ecosystem>, e: Ecosystem, has_govulncheck: bool) -> (r: bool)
    ensures
        r == mirror_needed(ecosystems@, e, has_govulncheck),
{
    if e == Ecosystem::Cargo || (e == Ecosystem::Go && has_govulncheck) {
        return false;
    }
    let mut i: usize = 0;
    while i < ecosystems.len()
        invariant
            i <= ecosystems.len(),
            e != Ecosystem::Cargo && !(e == Ecosystem::Go && has_govulncheck),
            forall|j: int| 0 <= j < i ==> ecosystems@[j] != e,
        decreases ecosystems.len() - i,
    {
        if ecosystems[i] == e {
            assert(ecosystems@[i as int] == e);
            return true;
        }
        i += 1;
    }
    false
}

// --- Repositories matched against a mirror of advisories ---

/// The ecosystems whose lockfiles are matched against a mirror, with nothing built.
#[derive(Debug, Clone, Copy, PartialEq, Eq, Structural)]
pub enum Feeder {
    Npm,
    Pypi,
    RubyGems,
    Packagist,
    NuGet,
    Julia,
    Swift,
    Hex,
    Maven,
    GitHubActions,
}

/// The feeder of an ecosystem, where it has one.
pub open spec fn feeder_for(e: Ecosystem) -> Option<Feeder> {
    match e {
        Ecosystem::Npm => Some(Feeder::Npm),
        Ecosystem::Pypi => Some(Feeder::Pypi),
        Ecosystem::RubyGems => Some(Feeder::RubyGems),
        Ecosystem::Packagist => Some(Feeder::Packagist),
        Ecosystem::NuGet => Some(Feeder::NuGet),
        Ecosystem::Julia => Some(Feeder::Julia),
        Ecosystem::Swift => Some(Feeder::Swift),
        Ecosystem::Hex => Some(Feeder::Hex),
        Ecosystem::Maven => Some(Feeder::Maven),
        Ecosystem::GitHubActions => Some(Feeder::GitHubActions),
        Ecosystem::Cargo | Ecosystem::Go => None,
    }
}

/// The feeder of an ecosystem, where it has one.
pub fn feeder_of(e: Ecosystem) -> (r: Option<Feeder>)
    ensures
        r == feeder_for(e),
{
    match e {
        Ecosystem::Npm => Some(Feeder::Npm),
        Ecosystem::Pypi => Some(Feeder::Pypi),
        Ecosystem::RubyGems => Some(Feeder::RubyGems),
        Ecosystem::Packagist => Some(Feeder::Packagist),
        Ecosystem::NuGet => Some(Feeder::NuGet),
        Ecosystem::Julia => Some(Feeder::Julia),
        Ecosystem::Swift => Some(Feeder::Swift),
        Ecosystem::Hex => Some(Feeder::Hex),
        Ecosystem::Maven => Some(Feeder::Maven),
        Ecosystem::GitHubActions => Some(Feeder::GitHubActions),
        Ecosystem::Cargo | Ecosystem::Go => None,
    }
}

pub open spec fn no_mirror_text(f: Feeder) -> Seq<char> {
    match f {
        Feeder::Npm =>
            "npm repo (package-lock.json): no OSV DB mirror for the toolchain-free matcher (pass --npm-vuln-db=file://<dir>, e.g. an unzipped osv.dev npm export)"@,
        Feeder::Pypi =>
            "PyPI repo (uv.lock/poetry.lock/Pipfile.lock): no OSV DB mirror for the toolchain-free matcher (pass --pypi-vuln-db=file://<path>, e.g. the osv.dev PyPI export all.zip or an unzipped directory)"@,
        Feeder::RubyGems =>
            "RubyGems repo (Gemfile.lock): no OSV DB mirror for the toolchain-free matcher (pass --rubygems-vuln-db=file://<path>, e.g. the osv.dev RubyGems export all.zip or an unzipped directory)"@,
        Feeder::Packagist =>
            "Packagist repo (composer.lock): no OSV DB mirror for the toolchain-free matcher (pass --packagist-vuln-db=file://<path>, e.g. the osv.dev Packagist export all.zip or an unzipped directory)"@,
        Feeder::NuGet =>
            "NuGet repo (packages.lock.json): no OSV DB mirror for the toolchain-free matcher (pass --nuget-vuln-db=file://<path>, e.g. the osv.dev NuGet export all.zip or an unzipped directory)"@,
        Feeder::Julia =>
            "Julia repo (Manifest.toml): no OSV DB mirror for the toolchain-free matcher (pass --julia-vuln-db=file://<path>, e.g. the osv.dev Julia export all.zip or an unzipped directory)"@,
        Feeder::Swift =>
            "Swift repo (Package.resolved): no OSV DB mirror for the toolchain-free matcher (pass --swift-vuln-db=file://<path>, e.g. the osv.dev SwiftURL export all.zip or an unzipped directory)"@,
        Feeder::Hex =>
            "Hex repo (mix.lock): no OSV DB mirror for the toolchain-free matcher (pass --hex-vuln-db=file://<path>, e.g. the osv.dev Hex export all.zip or an unzipped directory)"@,
        Feeder::Maven =>
            "Maven repo (gradle.lockfile/pom.xml): no OSV DB mirror for the toolchain-free matcher (pass --maven-vuln-db=file://<path>, e.g. the osv.dev Maven export all.zip or an unzipped directory)"@,
        Feeder::GitHubActions =>
            "GitHub Actions repo (.github/workflows): no OSV DB mirror for the toolchain-free matcher (pass --ghactions-vuln-db=file://<path>, e.g. the osv.dev GitHub Actions export all.zip or an unzipped directory)"@,
    }
}

/// What is reported where no mirror was given.
pub fn no_mirror(f: Feeder) -> (r: String)
    ensures
        r@ == no_mirror_text(f),
{
    let s: &str = match f {
        Feeder::Npm =>
            "npm repo (package-lock.json): no OSV DB mirror for the toolchain-free matcher (pass --npm-vuln-db=file://<dir>, e.g. an unzipped osv.dev npm export)",
        Feeder::Pypi =>
            "PyPI repo (uv.lock/poetry.lock/Pipfile.lock): no OSV DB mirror for the toolchain-free matcher (pass --pypi-vuln-db=file://<path>, e.g. the osv.dev PyPI export all.zip or an unzipped directory)",
        Feeder::RubyGems =>
            "RubyGems repo (Gemfile.lock): no OSV DB mirror for the toolchain-free matcher (pass --rubygems-vuln-db=file://<path>, e.g. the osv.dev RubyGems export all.zip or an unzipped directory)",
        Feeder::Packagist =>
            "Packagist repo (composer.lock): no OSV DB mirror for the toolchain-free matcher (pass --packagist-vuln-db=file://<path>, e.g. the osv.dev Packagist export all.zip or an unzipped directory)",
        Feeder::NuGet =>
            "NuGet repo (packages.lock.json): no OSV DB mirror for the toolchain-free matcher (pass --nuget-vuln-db=file://<path>, e.g. the osv.dev NuGet export all.zip or an unzipped directory)",
        Feeder::Julia =>
            "Julia repo (Manifest.toml): no OSV DB mirror for the toolchain-free matcher (pass --julia-vuln-db=file://<path>, e.g. the osv.dev Julia export all.zip or an unzipped directory)",
        Feeder::Swift =>
            "Swift repo (Package.resolved): no OSV DB mirror for the toolchain-free matcher (pass --swift-vuln-db=file://<path>, e.g. the osv.dev SwiftURL export all.zip or an unzipped directory)",
        Feeder::Hex =>
            "Hex repo (mix.lock): no OSV DB mirror for the toolchain-free matcher (pass --hex-vuln-db=file://<path>, e.g. the osv.dev Hex export all.zip or an unzipped directory)",
        Feeder::Maven =>
            "Maven repo (gradle.lockfile/pom.xml): no OSV DB mirror for the toolchain-free matcher (pass --maven-vuln-db=file://<path>, e.g. the osv.dev Maven export all.zip or an unzipped directory)",
        Feeder::GitHubActions =>
            "GitHub Actions repo (.github/workflows): no OSV DB mirror for the toolchain-free matcher (pass --ghactions-vuln-db=file://<path>, e.g. the osv.dev GitHub Actions export all.zip or an unzipped directory)",
    };
    s.to_owned()
}

pub open spec fn bad_mirror_text(f: Feeder) -> Seq<char> {
    match f {
        Feeder::Npm => "npm OSV DB: "@,
        Feeder::Pypi => "PyPI OSV DB: "@,
        Feeder::RubyGems => "RubyGems OSV DB: "@,
        Feeder::Packagist => "Packagist OSV DB: "@,
        Feeder::NuGet => "NuGet OSV DB: "@,
        Feeder::Julia => "Julia OSV DB: "@,
        Feeder::Swift => "Swift OSV DB: "@,
        Feeder::Hex => "Hex OSV DB: "@,
        Feeder::Maven => "Maven OSV DB: "@,
        Feeder::GitHubActions => "GitHub Actions OSV DB: "@,
    }
}

/// What stands before the reason why a mirror could not be loaded.
pub fn bad_mirror(f: Feeder) -> (r: String)
    ensures
        r@ == bad_mirror_text(f),
{
    let s: &str = match f {
        Feeder::Npm => "npm OSV DB: ",
        Feeder::Pypi => "PyPI OSV DB: ",
        Feeder::RubyGems => "RubyGems OSV DB: ",
        Feeder::Packagist => "Packagist OSV DB: ",
        Feeder::NuGet => "NuGet OSV DB: ",
        Feeder::Julia => "Julia OSV DB: ",
        Feeder::Swift => "Swift OSV DB: ",
        Feeder::Hex => "Hex OSV DB: ",
        Feeder::Maven => "Maven OSV DB: ",
        Feeder::GitHubActions => "GitHub Actions OSV DB: ",
    };
    s.to_owned()
}

pub open spec fn bad_scan_text(f: Feeder) -> Seq<char> {
    match f {
        Feeder::Npm => "npm tier-c scan: "@,
        Feeder::Pypi => "pypi tier-c scan: "@,
        Feeder::RubyGems => "rubygems tier-c scan: "@,
        Feeder::Packagist => "packagist tier-c scan: "@,
        Feeder::NuGet => "nuget tier-c scan: "@,
        Feeder::Julia => "julia tier-c scan: "@,
        Feeder::Swift => "swift tier-c scan: "@,
        Feeder::Hex => "hex tier-c scan: "@,
        Feeder::Maven => "maven tier-c scan: "@,
        Feeder::GitHubActions => "github-actions tier-c scan: "@,
    }
}

/// What stands before the reason why a repository could not be matched.
pub fn bad_scan(f: Feeder) -> (r: String)
    ensures
        r@ == bad_scan_text(f),
{
    let s: &str = match f {
        Feeder::Npm => "npm tier-c scan: ",
        Feeder::Pypi => "pypi tier-c scan: ",
        Feeder::RubyGems => "rubygems tier-c scan: ",
        Feeder::Packagist => "packagist tier-c scan: ",
        Feeder::NuGet => "nuget tier-c scan: ",
        Feeder::Julia => "julia tier-c scan: ",
        Feeder::Swift => "swift tier-c scan: ",
        Feeder::Hex => "hex tier-c scan: ",
        Feeder::Maven => "maven tier-c scan: ",
        Feeder::GitHubActions => "github-actions tier-c scan: ",
    };
    s.to_owned()
}

/// How matching a repository against a mirror went.
#[derive(Debug)]
pub enum MirrorScan {
    /// No mirror was given.
    NoMirror,
    /// The mirror could not be loaded.
    BadMirror(String),
    /// The repository could not be read.
    Failed(String),
    Found(TierCScan),
}

#[verifier::ext_equal]
pub enum MirrorScanM {
    NoMirror,
    BadMirror(Seq<char>),
    Failed(Seq<char>),
    Found(TierCScanM),
}

impl DeepView for MirrorScan {
    type V = MirrorScanM;

    open spec fn deep_view(&self) -> MirrorScanM {
        match self {
            MirrorScan::NoMirror => MirrorScanM::NoMirror,
            MirrorScan::BadMirror(e) => MirrorScanM::BadMirror(e@),
            MirrorScan::Failed(e) => MirrorScanM::Failed(e@),
            MirrorScan::Found(s) => MirrorScanM::Found(s.deep_view()),
        }
    }
}

/// The result for a repository matched against a mirror: what was found, or else a gap.
pub open spec fn mirror_result(f: Feeder, repo: Seq<char>, s: MirrorScanM) -> RepoResultM {
    match s {
        MirrorScanM::NoMirror => errored_result(repo, no_mirror_text(f)),
        MirrorScanM::BadMirror(e) => errored_result(repo, bad_mirror_text(f) + e),
        MirrorScanM::Failed(e) => errored_result(repo, bad_scan_text(f) + e),
        MirrorScanM::Found(s) => RepoResultM {
            skipped_unparseable: s.skipped_unparseable,
            ..scanned_result(repo, s.findings, Seq::empty())
        },
    }
}

/// The result for a repository matched against a mirror.
pub fn scan_mirror_repo(f: Feeder, repo: &RepoId, s: MirrorScan) -> (r: RepoResult)
    ensures
        r.deep_view() == mirror_result(f, repo.deep_view(), s.deep_view()),
{
    match s {
        MirrorScan::NoMirror => RepoResult::errored(repo, no_mirror(f)),
        MirrorScan::BadMirror(e) => RepoResult::errored(
            repo,
            text::join(bad_mirror(f).as_str(), e.as_str()),
        ),
        MirrorScan::Failed(e) => RepoResult::errored(
            repo,
            text::join(bad_scan(f).as_str(), e.as_str()),
        ),
        MirrorScan::Found(s) => {
            let none: Vec<WarnFinding> = Vec::new();
            assert(none.deep_view() =~= Seq::empty());
            RepoResult::scanned(repo, s.findings, none).with_skipped(s.skipped_unparseable)
        },
    }
}

/// A repository that could not be matched is a gap.
pub proof fn unmatched_is_a_gap(f: Feeder, repo: Seq<char>, s: MirrorScanM)
    ensures
        (mirror_result(f, repo, s).outcome.status is Errored) == !(s is Found),
        mirror_result(f, repo, s).outcome.repo == repo,
{
}

// --- Go repositories ---

/// How the scan of a Go repository went.
#[derive(Debug)]
pub enum GoScanned {
    /// Its checker ran.
    Checked(Vec<VulnFinding>),
    CheckFailed(String),
    /// There is no checker and no mirror.
    NoMirror,
    BadMirror(String),
    /// It was matched against a mirror.
    Matched(Vec<VulnFinding>),
    MatchFailed(String),
}

#[verifier::ext_equal]
pub enum GoScannedM {
    Checked(Seq<VulnFindingM>),
    CheckFailed(Seq<char>),
    NoMirror,
    BadMirror(Seq<char>),
    Matched(Seq<VulnFindingM>),
    MatchFailed(Seq<char>),
}

impl DeepView for GoScanned {
    type V = GoScannedM;

    open spec fn deep_view(&self) -> GoScannedM {
        match self {
            GoScanned::Checked(v) => GoScannedM::Checked(v.deep_view()),
            GoScanned::CheckFailed(e) => GoScannedM::CheckFailed(e@),
            GoScanned::NoMirror => GoScannedM::NoMirror,
            GoScanned::BadMirror(e) => GoScannedM::BadMirror(e@),
            GoScanned::Matched(v) => GoScannedM::Matched(v.deep_view()),
            GoScanned::MatchFailed(e) => GoScannedM::MatchFailed(e@),
        }
    }
}

pub open spec fn no_go_text() -> Seq<char> {
    "Go repo (go.mod): no govulncheck available (needs --allow-untrusted-builds and a govulncheck binary via --govulncheck <path> or PATH), and no offline DB mirror for the toolchain-free Tier-C fallback (pass --go-vuln-db=file://<mirror>)"@
}

/// The result for a Go repository: what was found, or else a gap.
pub open spec fn go_result(repo: Seq<char>, s: GoScannedM) -> RepoResultM {
    match s {
        GoScannedM::Checked(v) => scanned_result(repo, v, Seq::empty()),
        GoScannedM::Matched(v) => scanned_result(repo, v, Seq::empty()),
        GoScannedM::CheckFailed(e) => errored_result(repo, "govulncheck: "@ + e),
        GoScannedM::NoMirror => errored_result(repo, no_go_text()),
        GoScannedM::BadMirror(e) => errored_result(repo, "tier-c offline DB: "@ + e),
        GoScannedM::MatchFailed(e) => errored_result(repo, "tier-c offline scan: "@ + e),
    }
}

/// The result for a Go repository.
pub fn scan_go_repo(repo: &RepoId, s: GoScanned) -> (r: RepoResult)
    ensures
        r.deep_view() == go_result(repo.deep_view(), s.deep_view()),
{
    let none: Vec<WarnFinding> = Vec::new();
    assert(none.deep_view() =~= Seq::empty());
    match s {
        GoScanned::Checked(v) => RepoResult::scanned(repo, v, none),
        GoScanned::Matched(v) => RepoResult::scanned(repo, v, none),
        GoScanned::CheckFailed(e) => RepoResult::errored(
            repo,
            text::join("govulncheck: ", e.as_str()),
        ),
        GoScanned::NoMirror => RepoResult::errored(
            repo,
            "Go repo (go.mod): no govulncheck available (needs --allow-untrusted-builds and a govulncheck binary via --govulncheck <path> or PATH), and no offline DB mirror for the toolchain-free Tier-C fallback (pass --go-vuln-db=file://<mirror>)".to_owned(),
        ),
        GoScanned::BadMirror(e) => RepoResult::errored(
            repo,
            text::join("tier-c offline DB: ", e.as_str()),
        ),
        GoScanned::MatchFailed(e) => RepoResult::errored(
            repo,
            text::join("tier-c offline scan: ", e.as_str()),
        ),
    }
}

// --- Cargo repositories ---

/// An occurrence marked with whether its package is built.
pub open spec fn marked(o: OccurrenceM, built: Seq<BuiltPackageM>) -> OccurrenceM {
    match o {
        OccurrenceM::InRepo {
            repo,
            package,
            installed,
            patched,
            dependency_kind,
            dependency_path,
            active,
            source,
        } => OccurrenceM::InRepo {
            repo,
            package,
            installed,
            patched,
            dependency_kind,
            dependency_path,
            active: Some(built.contains(BuiltPackageM { name: package, version: installed })),
            source,
        },
        OccurrenceM::Toolchain { .. } => o,
    }
}

pub open spec fn all_marked(s: Seq<OccurrenceM>, built: Seq<BuiltPackageM>) -> Seq<OccurrenceM> {
    Seq::new(s.len(), |i: int| marked(s[i], built))
}

/// A scan with every occurrence in a repository marked.
pub open spec fn scan_marked(s: RepoScanM, built: Seq<BuiltPackageM>) -> RepoScanM {
    RepoScanM {
        vulnerabilities: Seq::new(
            s.vulnerabilities.len(),
            |i: int|
                VulnFindingM {
                    occurrences: all_marked(s.vulnerabilities[i].occurrences, built),
                    ..s.vulnerabilities[i]
                },
        ),
        warnings: Seq::new(
            s.warnings.len(),
            |i: int|
                WarnFindingM {
                    occurrences: all_marked(s.warnings[i].occurrences, built),
                    ..s.warnings[i]
                },
        ),
    }
}

fn mark_occurrences(v: Vec<Occurrence>, built: &Vec<BuiltPackage>) -> (r: Vec<Occurrence>)
    ensures
        r.deep_view() == all_marked(v.deep_view(), built.deep_view()),
{
    let ghost all = v.deep_view();
    let ghost want = all_marked(all, built.deep_view());
    let mut out: Vec<Occurrence> = Vec::new();
    let ghost mut n: int = 0;
    assert(out.deep_view() =~= want.take(0));
    for o in it: v
        invariant
            it.seq() == v@,
            all == v.deep_view(),
            want == all_marked(all, built.deep_view()),
            n == it.index(),
            n <= all.len(),
            out.deep_view() == want.take(n),
    {
        let ghost before = out.deep_view();
        let ghost was = o.deep_view();
        let next: Occurrence = match o {
            Occurrence::InRepo {
                repo,
                package,
                installed,
                patched,
                dependency_kind,
                dependency_path,
                active,
                source,
            } => {
                let key = BuiltPackage { name: package.clone(), version: installed.clone() };
                let is_built: bool = value::holds(built, &key);
                Occurrence::InRepo {
                    repo,
                    package,
                    installed,
                    patched,
                    dependency_kind,
                    dependency_path,
                    active: Some(is_built),
                    source,
                }
            },
            Occurrence::Toolchain { channel, installed, patched } => Occurrence::Toolchain {
                channel,
                installed,
                patched,
            },
        };
        proof {
            assert(next.deep_view() == marked(was, built.deep_view()));
            assert(all[n] == was);
        }
        out.push(next);
        proof {
            assert(out.deep_view() =~= before.push(next.deep_view()));
            assert(want.take(n + 1) =~= want.take(n).push(want[n]));
            n = n + 1;
        }
    }
    assert(want.take(n) =~= want);
    out
}

/// Marks every occurrence in a repository with whether its package is built.
pub fn annotate_built(scan: &mut RepoScan, built: &Vec<BuiltPackage>)
    ensures
        final(scan).deep_view() == scan_marked(old(scan).deep_view(), built.deep_view()),
{
    let ghost start = scan.deep_view();
    let ghost want = scan_marked(start, built.deep_view());
    let mut vulns: Vec<VulnFinding> = Vec::new();
    std::mem::swap(&mut vulns, &mut scan.vulnerabilities);
    let mut out: Vec<VulnFinding> = Vec::new();
    let ghost mut n: int = 0;
    assert(out.deep_view() =~= want.vulnerabilities.take(0));
    for v in it: vulns
        invariant
            it.seq() == vulns@,
            start.vulnerabilities == vulns.deep_view(),
            want == scan_marked(start, built.deep_view()),
            n == it.index(),
            n <= start.vulnerabilities.len(),
            out.deep_view() == want.vulnerabilities.take(n),
    {
        let ghost before = out.deep_view();
        let ghost was = v.deep_view();
        let mut f: VulnFinding = v;
        let mut occ: Vec<Occurrence> = Vec::new();
        std::mem::swap(&mut occ, &mut f.occurrences);
        f.occurrences = mark_occurrences(occ, built);
        proof {
            assert(start.vulnerabilities[n] == was);
            assert(f.deep_view() == want.vulnerabilities[n]);
        }
        out.push(f);
        proof {
            assert(out.deep_view() =~= before.push(f.deep_view()));
            assert(want.vulnerabilities.take(n + 1) =~= want.vulnerabilities.take(n).push(
                want.vulnerabilities[n],
            ));
            n = n + 1;
        }
    }
    assert(want.vulnerabilities.take(n) =~= want.vulnerabilities);
    let mut warns: Vec<WarnFinding> = Vec::new();
    std::mem::swap(&mut warns, &mut scan.warnings);
    let mut wout: Vec<WarnFinding> = Vec::new();
    let ghost mut m: int = 0;
    assert(wout.deep_view() =~= want.warnings.take(0));
    for w in it: warns
        invariant
            it.seq() == warns@,
            start.warnings == warns.deep_view(),
            want == scan_marked(start, built.deep_view()),
            m == it.index(),
            m <= start.warnings.len(),
            wout.deep_view() == want.warnings.take(m),
    {
        let ghost before = wout.deep_view();
        let ghost was = w.deep_view();
        let mut f: WarnFinding = w;
        let mut occ: Vec<Occurrence> = Vec::new();
        std::mem::swap(&mut occ, &mut f.occurrences);
        f.occurrences = mark_occurrences(occ, built);
        proof {
            assert(start.warnings[m] == was);
            assert(f.deep_view() == want.warnings[m]);
        }
        wout.push(f);
        proof {
            assert(wout.deep_view() =~= before.push(f.deep_view()));
            assert(want.warnings.take(m + 1) =~= want.warnings.take(m).push(want.warnings[m]));
            m = m + 1;
        }
    }
    assert(want.warnings.take(m) =~= want.warnings);
    scan.vulnerabilities = out;
    scan.warnings = wout;
}

/// How reading one lockfile went. A read one may come with what its project builds.
#[derive(Debug)]
pub enum LockfileScan {
    Read { scan: RepoScan, built: Option<Vec<BuiltPackage>> },
    Unreadable(String),
}

#[verifier::ext_equal]
pub enum LockfileScanM {
    Read { scan: RepoScanM, built: Option<Seq<BuiltPackageM>> },
    Unreadable(Seq<char>),
}

impl DeepView for LockfileScan {
    type V = LockfileScanM;

    open spec fn deep_view(&self) -> LockfileScanM {
        match self {
            LockfileScan::Read { scan, built } => LockfileScanM::Read {
                scan: scan.deep_view(),
                built: built.deep_view(),
            },
            LockfileScan::Unreadable(e) => LockfileScanM::Unreadable(e@),
        }
    }
}

/// What a lockfile that was read contributes.
pub open spec fn contribution(l: LockfileScanM) -> RepoScanM {
    match l {
        LockfileScanM::Read { scan, built } => match built {
            Some(b) => scan_marked(scan, b),
            None => scan,
        },
        LockfileScanM::Unreadable(_) => RepoScanM {
            vulnerabilities: Seq::empty(),
            warnings: Seq::empty(),
        },
    }
}

pub open spec fn gathered_vulns(lockfiles: Seq<LockfileScanM>) -> Seq<VulnFindingM>
    decreases lockfiles.len(),
{
    if lockfiles.len() == 0 {
        Seq::empty()
    } else {
        gathered_vulns(lockfiles.drop_last()) + contribution(lockfiles.last()).vulnerabilities
    }
}

pub open spec fn gathered_warns(lockfiles: Seq<LockfileScanM>) -> Seq<WarnFindingM>
    decreases lockfiles.len(),
{
    if lockfiles.len() == 0 {
        Seq::empty()
    } else {
        gathered_warns(lockfiles.drop_last()) + contribution(lockfiles.last()).warnings
    }
}

/// The reason of the first lockfile that could not be read.
pub open spec fn first_unreadable(lockfiles: Seq<LockfileScanM>) -> Option<Seq<char>>
    decreases lockfiles.len(),
{
    if lockfiles.len() == 0 {
        None
    } else {
        match first_unreadable(lockfiles.drop_last()) {
            Some(e) => Some(e),
            None => match lockfiles.last() {
                LockfileScanM::Unreadable(e) => Some(e),
                LockfileScanM::Read { .. } => None,
            },
        }
    }
}

/// What was met on a walk through a repository.
#[derive(Debug)]
pub enum WalkEntry {
    /// A file, by its path and its own name.
    File { path: String, name: String },
    /// Anything else.
    Other,
    /// A place that could not be read.
    Unreadable(String),
}

pub enum WalkEntryM {
    File { path: Seq<char>, name: Seq<char> },
    Other,
    Unreadable(Seq<char>),
}

impl DeepView for WalkEntry {
    type V = WalkEntryM;

    open spec fn deep_view(&self) -> WalkEntryM {
        match self {
            WalkEntry::File { path, name } => WalkEntryM::File { path: path@, name: name@ },
            WalkEntry::Other => WalkEntryM::Other,
            WalkEntry::Unreadable(e) => WalkEntryM::Unreadable(e@),
        }
    }
}

/// The lockfiles among what was met, in its order.
pub open spec fn lockfiles_in(entries: Seq<WalkEntryM>) -> Seq<Seq<char>>
    decreases entries.len(),
{
    if entries.len() == 0 {
        Seq::empty()
    } else {
        let front = lockfiles_in(entries.drop_last());
        match entries.last() {
            WalkEntryM::File { path, name } => if name == "Cargo.lock"@ {
                front.push(path)
            } else {
                front
            },
            _ => front,
        }
    }
}

/// What could not be read, in its order.
pub open spec fn unreadable_in(entries: Seq<WalkEntryM>) -> Seq<Seq<char>>
    decreases entries.len(),
{
    if entries.len() == 0 {
        Seq::empty()
    } else {
        let front = unreadable_in(entries.drop_last());
        match entries.last() {
            WalkEntryM::Unreadable(e) => front.push(e),
            _ => front,
        }
    }
}

/// The lockfiles of a repository: what a walk met where it is searched as a whole, else the
/// one at its root, where that is there.
pub open spec fn lockfiles_of(
    glob: bool,
    at_root: Option<Seq<char>>,
    entries: Seq<WalkEntryM>,
) -> Seq<Seq<char>> {
    if glob {
        lockfiles_in(entries)
    } else {
        match at_root {
            Some(path) => seq![path],
            None => Seq::empty(),
        }
    }
}

/// What could not be read of a repository. Only a walk can miss something.
pub open spec fn unread_of(glob: bool, entries: Seq<WalkEntryM>) -> Seq<Seq<char>> {
    if glob {
        unreadable_in(entries)
    } else {
        Seq::empty()
    }
}

/// The lockfiles of a repository, and what could not be read: the lockfile at its root, where
/// that is there, or where the repository is searched as a whole those that a walk met. A place
/// that could not be read may hold a lockfile.
pub fn discover_lockfiles(
    repo: &Repo,
    at_root: Option<String>,
    entries: Vec<WalkEntry>,
) -> (r: (Vec<String>, Vec<String>))
    ensures
        r.0.deep_view() == lockfiles_of(
            repo.deep_view().glob,
            at_root.deep_view(),
            entries.deep_view(),
        ),
        r.1.deep_view() == unread_of(repo.deep_view().glob, entries.deep_view()),
{
    if repo.glob {
        return sort_walk(entries);
    }
    let mut paths: Vec<String> = Vec::new();
    let errors: Vec<String> = Vec::new();
    if let Some(path) = at_root {
        paths.push(path);
        assert(paths.deep_view() =~= seq![path@]);
    } else {
        assert(paths.deep_view() =~= Seq::empty());
    }
    assert(errors.deep_view() =~= Seq::empty());
    (paths, errors)
}

fn sort_walk(entries: Vec<WalkEntry>) -> (r: (Vec<String>, Vec<String>))
    ensures
        r.0.deep_view() == lockfiles_in(entries.deep_view()),
        r.1.deep_view() == unreadable_in(entries.deep_view()),
{
    let ghost all = entries.deep_view();
    let mut paths: Vec<String> = Vec::new();
    let mut errors: Vec<String> = Vec::new();
    let ghost mut n: int = 0;
    proof {
        assert(all.take(0) =~= Seq::empty());
        assert(paths.deep_view() =~= Seq::empty());
        assert(errors.deep_view() =~= Seq::empty());
    }
    for e in it: entries
        invariant
            it.seq() == entries@,
            all == entries.deep_view(),
            n == it.index(),
            n <= all.len(),
            paths.deep_view() == lockfiles_in(all.take(n)),
            errors.deep_view() == unreadable_in(all.take(n)),
    {
        proof {
            assert(all.take(n + 1).drop_last() =~= all.take(n));
            assert(all.take(n + 1).last() == e.deep_view());
        }
        match e {
            WalkEntry::File { path, name } => if text::same(name.as_str(), "Cargo.lock") {
                let ghost before = paths.deep_view();
                paths.push(path);
                assert(paths.deep_view() =~= before.push(path@));
            },
            WalkEntry::Other => {},
            WalkEntry::Unreadable(x) => {
                let ghost before = errors.deep_view();
                errors.push(x);
                assert(errors.deep_view() =~= before.push(x@));
            },
        }
        proof {
            n = n + 1;
        }
    }
    assert(all.take(n) =~= all);
    (paths, errors)
}

/// The texts with a separator between them.
pub open spec fn joined(parts: Seq<Seq<char>>, sep: Seq<char>) -> Seq<char>
    decreases parts.len(),
{
    if parts.len() == 0 {
        Seq::empty()
    } else if parts.len() == 1 {
        parts[0]
    } else {
        joined(parts.drop_last(), sep) + sep + parts.last()
    }
}

/// The texts with a separator between them.
pub fn join_all(parts: &Vec<String>, sep: &str) -> (r: String)
    ensures
        r@ == joined(parts.deep_view(), sep@),
{
    let ghost all = parts.deep_view();
    let mut r: String = String::new();
    let mut i: usize = 0;
    proof {
        assert(all.take(0) =~= Seq::empty());
        assert(r@ =~= Seq::empty());
    }
    while i < parts.len()
        invariant
            i <= parts.len(),
            all == parts.deep_view(),
            r@ == joined(all.take(i as int), sep@),
        decreases parts.len() - i,
    {
        assert(all.take(i + 1).drop_last() =~= all.take(i as int));
        if i > 0 {
            r.append(sep);
        }
        r.append(parts[i].as_str());
        proof {
            if i == 0 {
                assert(r@ =~= all[0]);
            }
        }
        i += 1;
    }
    assert(all.take(i as int) =~= all);
    r
}

/// Why a Cargo repository is a gap, if it is one: a directory that could not be read, no
/// lockfile at all, or the first lockfile that could not be read.
pub open spec fn cargo_gap(
    path: Seq<char>,
    walk_errors: Seq<Seq<char>>,
    lockfiles: Seq<LockfileScanM>,
) -> Option<Seq<char>> {
    if walk_errors.len() > 0 {
        Some("could not fully walk "@ + path + ": "@ + joined(walk_errors, "; "@))
    } else if lockfiles.len() == 0 {
        Some("no Cargo.lock found under "@ + path)
    } else {
        first_unreadable(lockfiles)
    }
}

/// The result for a Cargo repository. A gap keeps what was found.
pub open spec fn cargo_result(
    repo: Seq<char>,
    path: Seq<char>,
    walk_errors: Seq<Seq<char>>,
    lockfiles: Seq<LockfileScanM>,
) -> RepoResultM {
    let vulnerabilities = gathered_vulns(lockfiles);
    let warnings = gathered_warns(lockfiles);
    match cargo_gap(path, walk_errors, lockfiles) {
        Some(reason) => RepoResultM {
            vulnerabilities,
            warnings,
            outcome: RepoOutcomeM { repo, status: ScanStatusM::Errored { reason } },
            skipped_unparseable: 0,
        },
        None => scanned_result(repo, vulnerabilities, warnings),
    }
}

/// The result for a Cargo repository, given what walking it and reading its lockfiles gave.
pub fn scan_cargo_repo(
    repo: &RepoId,
    path: &str,
    walk_errors: &Vec<String>,
    lockfiles: Vec<LockfileScan>,
) -> (r: RepoResult)
    ensures
        r.deep_view() == cargo_result(
            repo.deep_view(),
            path@,
            walk_errors.deep_view(),
            lockfiles.deep_view(),
        ),
{
    let ghost all = lockfiles.deep_view();
    let mut error: Option<String> = None;
    let mut unreadable: Option<String> = None;
    proof {
        assert(walk_errors.deep_view().len() == walk_errors.len());
        assert(lockfiles.deep_view().len() == lockfiles.len());
    }
    if walk_errors.len() > 0 {
        let mut e: String = text::join("could not fully walk ", path);
        e.append(": ");
        e.append(join_all(walk_errors, "; ").as_str());
        error = Some(e);
    } else if lockfiles.len() == 0 {
        error = Some(text::join("no Cargo.lock found under ", path));
    }
    let mut vulnerabilities: Vec<VulnFinding> = Vec::new();
    let mut warnings: Vec<WarnFinding> = Vec::new();
    let ghost mut n: int = 0;
    proof {
        assert(all.take(0) =~= Seq::empty());
        assert(vulnerabilities.deep_view() =~= Seq::empty());
        assert(warnings.deep_view() =~= Seq::empty());
    }
    for l in it: lockfiles
        invariant
            it.seq() == lockfiles@,
            all == lockfiles.deep_view(),
            n == it.index(),
            n <= all.len(),
            vulnerabilities.deep_view() == gathered_vulns(all.take(n)),
            warnings.deep_view() == gathered_warns(all.take(n)),
            unreadable.deep_view() == first_unreadable(all.take(n)),
    {
        proof {
            assert(all.take(n + 1).drop_last() =~= all.take(n));
            assert(all.take(n + 1).last() == l.deep_view());
        }
        match l {
            LockfileScan::Read { scan, built } => {
                let mut s: RepoScan = scan;
                if let Some(b) = &built {
                    annotate_built(&mut s, b);
                }
                value::append(&mut vulnerabilities, s.vulnerabilities);
                value::append(&mut warnings, s.warnings);
            },
            LockfileScan::Unreadable(e) => {
                if unreadable.is_none() {
                    unreadable = Some(e);
                }
                proof {
                    assert(gathered_vulns(all.take(n + 1)) =~= gathered_vulns(all.take(n)));
                    assert(gathered_warns(all.take(n + 1)) =~= gathered_warns(all.take(n)));
                }
            },
        }
        proof {
            n = n + 1;
        }
    }
    assert(all.take(n) =~= all);
    let gap: Option<String> = match error {
        Some(e) => Some(e),
        None => unreadable,
    };
    match gap {
        Some(reason) => RepoResult {
            outcome: RepoOutcome { repo: repo.copy(), status: ScanStatus::Errored { reason } },
            vulnerabilities,
            warnings,
            skipped_unparseable: 0,
        },
        None => RepoResult::scanned(repo, vulnerabilities, warnings),
    }
}

/// A Cargo repository counts as read only where every directory and every lockfile was read,
/// and there was one.
pub proof fn read_means_everything_was_read(
    repo: Seq<char>,
    path: Seq<char>,
    walk_errors: Seq<Seq<char>>,
    lockfiles: Seq<LockfileScanM>,
    i: int,
)
    requires
        cargo_result(repo, path, walk_errors, lockfiles).outcome.status is Scanned,
        0 <= i < lockfiles.len(),
    ensures
        walk_errors.len() == 0,
        lockfiles.len() > 0,
        lockfiles[i] is Read,
{
    lemma_none_unreadable(lockfiles, i);
}

proof fn lemma_none_unreadable(lockfiles: Seq<LockfileScanM>, i: int)
    requires
        first_unreadable(lockfiles) is None,
        0 <= i < lockfiles.len(),
    ensures
        lockfiles[i] is Read,
    decreases lockfiles.len(),
{
    if i < lockfiles.len() - 1 {
        assert(lockfiles.drop_last()[i] == lockfiles[i]);
        lemma_none_unreadable(lockfiles.drop_last(), i);
    }
}

/// What one lockfile gives is kept, whatever becomes of the others.
pub proof fn a_gap_keeps_findings(
    repo: Seq<char>,
    path: Seq<char>,
    walk_errors: Seq<Seq<char>>,
    lockfiles: Seq<LockfileScanM>,
    i: int,
    f: VulnFindingM,
)
    requires
        0 <= i < lockfiles.len(),
        contribution(lockfiles[i]).vulnerabilities.contains(f),
    ensures
        cargo_result(repo, path, walk_errors, lockfiles).vulnerabilities.contains(f),
    decreases lockfiles.len(),
{
    let l = lockfiles.drop_last();
    let a = gathered_vulns(l);
    let b = contribution(lockfiles.last()).vulnerabilities;
    if i < l.len() {
        assert(l[i] == lockfiles[i]);
        a_gap_keeps_findings(repo, path, walk_errors, l, i, f);
        let k = choose|k: int| 0 <= k < a.len() && a[k] == f;
        assert((a + b)[k] == f);
    } else {
        let k = choose|k: int| 0 <= k < b.len() && b[k] == f;
        assert((a + b)[a.len() + k] == f);
    }
}

// --- The fleet ---

pub open spec fn fleet_vulns(results: Seq<RepoResultM>) -> Seq<VulnFindingM>
    decreases results.len(),
{
    if results.len() == 0 {
        Seq::empty()
    } else {
        fleet_vulns(results.drop_last()) + results.last().vulnerabilities
    }
}

pub open spec fn fleet_warns(results: Seq<RepoResultM>) -> Seq<WarnFindingM>
    decreases results.len(),
{
    if results.len() == 0 {
        Seq::empty()
    } else {
        fleet_warns(results.drop_last()) + results.last().warnings
    }
}

pub open spec fn fleet_skipped(results: Seq<RepoResultM>) -> int
    decreases results.len(),
{
    if results.len() == 0 {
        0
    } else {
        fleet_skipped(results.drop_last()) + results.last().skipped_unparseable
    }
}

pub open spec fn fleet_outcomes(results: Seq<RepoResultM>) -> Seq<RepoOutcomeM> {
    Seq::new(results.len(), |i: int| results[i].outcome)
}

/// The data of a fleet: the results of its repositories in their order, then what was found
/// in the toolchain.
pub open spec fn fleet_data(results: Seq<RepoResultM>, toolchain: Option<RepoScanM>) -> ScanDataM {
    ScanDataM {
        vulnerabilities: fleet_vulns(results) + (match toolchain {
            Some(t) => t.vulnerabilities,
            None => Seq::empty(),
        }),
        warnings: fleet_warns(results) + (match toolchain {
            Some(t) => t.warnings,
            None => Seq::empty(),
        }),
        outcomes: fleet_outcomes(results),
        skipped_unparseable: fleet_skipped(results) as u32,
    }
}

proof fn lemma_skipped_grows(results: Seq<RepoResultM>, n: int)
    requires
        0 <= n <= results.len(),
    ensures
        0 <= fleet_skipped(results.take(n)) <= fleet_skipped(results),
    decreases results.len(),
{
    if n < results.len() {
        assert(results.drop_last().take(n) =~= results.take(n));
        lemma_skipped_grows(results.drop_last(), n);
    } else {
        assert(results.take(n) =~= results);
        if results.len() > 0 {
            lemma_skipped_grows(results.drop_last(), results.len() - 1);
            assert(results.drop_last().take(results.len() - 1) =~= results.drop_last());
        }
    }
}

/// Puts the results of the repositories together, in their order, and adds what was found in the
/// toolchain.
pub fn scan_fleet(results: Vec<RepoResult>, toolchain: Option<RepoScan>) -> (r: ScanData)
    requires
        fleet_skipped(results.deep_view()) <= u32::MAX,
    ensures
        r.deep_view() == fleet_data(results.deep_view(), toolchain.deep_view()),
{
    let ghost all = results.deep_view();
    let mut vulnerabilities: Vec<VulnFinding> = Vec::new();
    let mut warnings: Vec<WarnFinding> = Vec::new();
    let mut outcomes: Vec<RepoOutcome> = Vec::new();
    let mut skipped_unparseable: u32 = 0;
    let ghost mut n: int = 0;
    proof {
        assert(all.take(0) =~= Seq::empty());
        assert(vulnerabilities.deep_view() =~= Seq::empty());
        assert(warnings.deep_view() =~= Seq::empty());
        assert(outcomes.deep_view() =~= fleet_outcomes(all.take(0)));
    }
    for x in it: results
        invariant
            it.seq() == results@,
            all == results.deep_view(),
            fleet_skipped(all) <= u32::MAX,
            n == it.index(),
            n <= all.len(),
            vulnerabilities.deep_view() == fleet_vulns(all.take(n)),
            warnings.deep_view() == fleet_warns(all.take(n)),
            outcomes.deep_view() == fleet_outcomes(all.take(n)),
            skipped_unparseable == fleet_skipped(all.take(n)),
    {
        proof {
            assert(all.take(n + 1).drop_last() =~= all.take(n));
            assert(all.take(n + 1).last() == x.deep_view());
            lemma_skipped_grows(all, n + 1);
        }
        let ghost before = outcomes.deep_view();
        let ghost was = x.deep_view();
        value::append(&mut vulnerabilities, x.vulnerabilities);
        value::append(&mut warnings, x.warnings);
        outcomes.push(x.outcome);
        skipped_unparseable = skipped_unparseable + x.skipped_unparseable;
        proof {
            assert(outcomes.deep_view() =~= before.push(was.outcome));
            assert(fleet_outcomes(all.take(n + 1)) =~= fleet_outcomes(all.take(n)).push(
                was.outcome,
            ));
            n = n + 1;
        }
    }
    assert(all.take(n) =~= all);
    match toolchain {
        Some(t) => {
            value::append(&mut vulnerabilities, t.vulnerabilities);
            value::append(&mut warnings, t.warnings);
        },
        None => {
            proof {
                assert(fleet_vulns(all) + Seq::empty() =~= fleet_vulns(all));
                assert(fleet_warns(all) + Seq::empty() =~= fleet_warns(all));
            }
        },
    }
    ScanData { vulnerabilities, warnings, outcomes, skipped_unparseable }
}

/// There is one result for each configured repository, in the order of the configuration.
pub open spec fn covers(config: ConfigM, results: Seq<RepoResultM>) -> bool {
    results.len() == config.repos.len() && forall|i: int|
        0 <= i < results.len() ==> (#[trigger] results[i]).outcome.repo == config.repos[i].id
}

fn is_covered(config: &Config, results: &Vec<RepoResult>) -> (r: bool)
    ensures
        r == covers(config.deep_view(), results.deep_view()),
{
    let ghost c = config.deep_view();
    let ghost all = results.deep_view();
    if results.len() != config.repos.len() {
        assert(all.len() != c.repos.len());
        return false;
    }
    let mut i: usize = 0;
    while i < results.len()
        invariant
            i <= results.len(),
            results.len() == config.repos.len(),
            c == config.deep_view(),
            all == results.deep_view(),
            forall|j: int| 0 <= j < i ==> (#[trigger] all[j]).outcome.repo == c.repos[j].id,
        decreases results.len() - i,
    {
        proof {
            assert(all[i as int] == results[i as int].deep_view());
            assert(c.repos[i as int] == config.repos[i as int].deep_view());
        }
        if !results[i].outcome.repo.same(&config.repos[i].id) {
            return false;
        }
        i += 1;
    }
    true
}

/// Whether the packages that were skipped in all can be counted.
fn is_countable(results: &Vec<RepoResult>) -> (r: bool)
    ensures
        r == (fleet_skipped(results.deep_view()) <= u32::MAX),
{
    let ghost all = results.deep_view();
    let mut total: u64 = 0;
    let mut i: usize = 0;
    assert(all.take(0) =~= Seq::empty());
    while i < results.len()
        invariant
            i <= results.len(),
            all == results.deep_view(),
            total == fleet_skipped(all.take(i as int)),
            total <= u32::MAX,
        decreases results.len() - i,
    {
        proof {
            assert(all.take(i + 1).drop_last() =~= all.take(i as int));
            assert(all.take(i + 1).last() == results[i as int].deep_view());
            lemma_skipped_grows(all, i + 1);
        }
        total = total + results[i].skipped_unparseable as u64;
        if total > 0xffff_ffff {
            return false;
        }
        i += 1;
    }
    assert(all.take(i as int) =~= all);
    true
}

/// The data of a configured fleet: its repositories have one outcome each, in the order of the
/// configuration. Nothing where a result is missing or of another repository, or where what was
/// skipped cannot be counted.
pub fn scan_configured(
    config: &Config,
    results: Vec<RepoResult>,
    toolchain: Option<RepoScan>,
) -> (r: Option<ScanData>)
    ensures
        r.deep_view() == (if covers(config.deep_view(), results.deep_view()) && fleet_skipped(
            results.deep_view(),
        ) <= u32::MAX {
            Some(fleet_data(results.deep_view(), toolchain.deep_view()))
        } else {
            None
        }),
        r.deep_view() matches Some(d) ==> d.outcomes.len() == config.deep_view().repos.len()
            && forall|i: int|
            0 <= i < d.outcomes.len() ==> (#[trigger] d.outcomes[i]).repo
                == config.deep_view().repos[i].id,
{
    if is_covered(config, &results) && is_countable(&results) {
        Some(scan_fleet(results, toolchain))
    } else {
        None
    }
}

/// Every result has one outcome, in the order of the results.
pub proof fn every_repository_has_an_outcome(
    results: Seq<RepoResultM>,
    toolchain: Option<RepoScanM>,
    i: int,
)
    requires
        0 <= i < results.len(),
    ensures
        fleet_data(results, toolchain).outcomes.len() == results.len(),
        fleet_data(results, toolchain).outcomes[i] == results[i].outcome,
{
}

/// No finding of a repository is lost.
pub proof fn no_finding_is_lost(
    results: Seq<RepoResultM>,
    toolchain: Option<RepoScanM>,
    i: int,
    f: VulnFindingM,
)
    requires
        0 <= i < results.len(),
        results[i].vulnerabilities.contains(f),
    ensures
        fleet_data(results, toolchain).vulnerabilities.contains(f),
{
    lemma_vuln_kept(results, i, f);
    let a = fleet_vulns(results);
    let b = match toolchain {
        Some(t) => t.vulnerabilities,
        None => Seq::empty(),
    };
    let k = choose|k: int| 0 <= k < a.len() && a[k] == f;
    assert((a + b)[k] == f);
}

proof fn lemma_vuln_kept(results: Seq<RepoResultM>, i: int, f: VulnFindingM)
    requires
        0 <= i < results.len(),
        results[i].vulnerabilities.contains(f),
    ensures
        fleet_vulns(results).contains(f),
    decreases results.len(),
{
    let l = results.drop_last();
    let a = fleet_vulns(l);
    let b = results.last().vulnerabilities;
    if i < l.len() {
        assert(l[i] == results[i]);
        lemma_vuln_kept(l, i, f);
        let k = choose|k: int| 0 <= k < a.len() && a[k] == f;
        assert((a + b)[k] == f);
    } else {
        let k = choose|k: int| 0 <= k < b.len() && b[k] == f;
        assert((a + b)[a.len() + k] == f);
    }
}

/// What the configuration says decides; else the first manifest that is there does, in the order
/// of Cargo, Go, npm, Python, Ruby, PHP, .NET, Julia, Swift, Elixir, Java, and workflows. Where
/// there is none at all the repository is one of Cargo.
pub proof fn the_first_manifest_decides(given: Option<Ecosystem>, m: Manifests)
    ensures
        given matches Some(e) ==> ecosystem_of(given, m) == e,
        given is None ==> {
            let e = ecosystem_of(given, m);
            let rust = m.cargo_lock;
            let go = rust || m.go_mod;
            let npm = go || m.package_lock;
            let python = npm || m.python_lock;
            let ruby = python || m.gemfile_lock;
            let php = ruby || m.composer_lock;
            let dotnet = php || m.packages_lock;
            let julia = dotnet || m.julia_manifest;
            let swift = julia || m.package_resolved;
            let elixir = swift || m.mix_lock;
            let java = elixir || m.gradle_lockfile || m.pom_xml;
            &&& e == Ecosystem::Go <==> m.go_mod && !rust
            &&& e == Ecosystem::Npm <==> m.package_lock && !go
            &&& e == Ecosystem::Pypi <==> m.python_lock && !npm
            &&& e == Ecosystem::RubyGems <==> m.gemfile_lock && !python
            &&& e == Ecosystem::Packagist <==> m.composer_lock && !ruby
            &&& e == Ecosystem::NuGet <==> m.packages_lock && !php
            &&& e == Ecosystem::Julia <==> m.julia_manifest && !dotnet
            &&& e == Ecosystem::Swift <==> m.package_resolved && !julia
            &&& e == Ecosystem::Hex <==> m.mix_lock && !swift
            &&& e == Ecosystem::Maven <==> (m.gradle_lockfile || m.pom_xml) && !elixir
            &&& e == Ecosystem::GitHubActions <==> m.workflows && !java
            &&& e == Ecosystem::Cargo <==> m.cargo_lock || (!java && !m.workflows)
        },
{
}

/// A mirror is loaded for exactly the ecosystems that are there and are matched against one:
/// never for Cargo, and for Go only where its checker is missing.
pub proof fn a_mirror_is_loaded_where_it_is_used(
    ecosystems: Seq<Ecosystem>,
    e: Ecosystem,
    has_govulncheck: bool,
)
    ensures
        mirror_needed(ecosystems, e, has_govulncheck) ==> exists|i: int|
            0 <= i < ecosystems.len() && #[trigger] ecosystems[i] == e,
        !mirror_needed(ecosystems, Ecosystem::Cargo, has_govulncheck),
        !mirror_needed(ecosystems, Ecosystem::Go, true),
        forall|i: int|
            0 <= i < ecosystems.len() && #[trigger] ecosystems[i] == e && feeder_for(e) is Some
                ==> mirror_needed(ecosystems, e, has_govulncheck),
        forall|i: int|
            0 <= i < ecosystems.len() && #[trigger] ecosystems[i] == Ecosystem::Go
                ==> mirror_needed(ecosystems, Ecosystem::Go, false),
{
}

/// Every ecosystem but Cargo and Go has a feeder, and no two have the same.
pub proof fn every_ecosystem_has_its_own_feeder(a: Ecosystem, b: Ecosystem)
    ensures
        feeder_for(a) is None <==> a == Ecosystem::Cargo || a == Ecosystem::Go,
        feeder_for(a) is Some && feeder_for(a) == feeder_for(b) ==> a == b,
        a == Ecosystem::Hex <==> feeder_for(a) == Some(Feeder::Hex),
        a == Ecosystem::GitHubActions <==> feeder_for(a) == Some(Feeder::GitHubActions),
        a == Ecosystem::Npm <==> feeder_for(a) == Some(Feeder::Npm),
        a == Ecosystem::Pypi <==> feeder_for(a) == Some(Feeder::Pypi),
        a == Ecosystem::RubyGems <==> feeder_for(a) == Some(Feeder::RubyGems),
        a == Ecosystem::Packagist <==> feeder_for(a) == Some(Feeder::Packagist),
        a == Ecosystem::NuGet <==> feeder_for(a) == Some(Feeder::NuGet),
        a == Ecosystem::Julia <==> feeder_for(a) == Some(Feeder::Julia),
        a == Ecosystem::Swift <==> feeder_for(a) == Some(Feeder::Swift),
        a == Ecosystem::Maven <==> feeder_for(a) == Some(Feeder::Maven),
{
}

/// A repository that was matched keeps its findings and the count of what was skipped, and is
/// counted as having them; one that was not has none.
pub proof fn a_match_keeps_its_findings(f: Feeder, repo: Seq<char>, s: MirrorScanM)
    ensures
        s matches MirrorScanM::Found(x) ==> {
            let r = mirror_result(f, repo, s);
            &&& r.vulnerabilities == x.findings
            &&& r.warnings.len() == 0
            &&& r.skipped_unparseable == x.skipped_unparseable
            &&& r.outcome.status == (ScanStatusM::Scanned {
                vulns: x.findings.len() as usize,
                warnings: 0,
            })
        },
        !(s is Found) ==> mirror_result(f, repo, s).vulnerabilities.len() == 0 && mirror_result(
            f,
            repo,
            s,
        ).skipped_unparseable == 0,
{
}

/// A Go repository counts as read exactly where it was checked or matched, with what was found;
/// everything else is a gap without findings.
pub proof fn a_failed_check_is_a_gap(repo: Seq<char>, s: GoScannedM)
    ensures
        go_result(repo, s).outcome.repo == repo,
        go_result(repo, s).outcome.status is Scanned <==> s is Checked || s is Matched,
        s matches GoScannedM::Checked(v) ==> go_result(repo, s).vulnerabilities == v,
        s matches GoScannedM::Matched(v) ==> go_result(repo, s).vulnerabilities == v,
        !(s is Checked) && !(s is Matched) ==> go_result(repo, s).vulnerabilities.len() == 0
            && go_result(repo, s).outcome.status is Errored,
        go_result(repo, s).warnings.len() == 0,
        go_result(repo, s).skipped_unparseable == 0,
{
}

/// Marking says of each occurrence in a repository whether its package is built at its very
/// version, and changes nothing else of the scan.
pub proof fn built_means_that_very_version(s: RepoScanM, built: Seq<BuiltPackageM>, i: int, k: int)
    requires
        0 <= i < s.vulnerabilities.len(),
        0 <= k < s.vulnerabilities[i].occurrences.len(),
    ensures
        scan_marked(s, built).vulnerabilities.len() == s.vulnerabilities.len(),
        scan_marked(s, built).warnings.len() == s.warnings.len(),
        scan_marked(s, built).vulnerabilities[i].occurrences.len()
            == s.vulnerabilities[i].occurrences.len(),
        scan_marked(s, built).vulnerabilities[i] == (VulnFindingM {
            occurrences: scan_marked(s, built).vulnerabilities[i].occurrences,
            ..s.vulnerabilities[i]
        }),
        s.vulnerabilities[i].occurrences[k] is Toolchain ==> scan_marked(
            s,
            built,
        ).vulnerabilities[i].occurrences[k] == s.vulnerabilities[i].occurrences[k],
        s.vulnerabilities[i].occurrences[k] matches OccurrenceM::InRepo {
            repo,
            package,
            installed,
            patched,
            dependency_kind,
            dependency_path,
            active,
            source,
        } ==> {
            let yes = exists|b: int|
                0 <= b < built.len() && (#[trigger] built[b]).name == package && built[b].version
                    == installed;
            scan_marked(s, built).vulnerabilities[i].occurrences[k] == OccurrenceM::InRepo {
                repo,
                package,
                installed,
                patched,
                dependency_kind,
                dependency_path,
                active: Some(yes),
                source,
            }
        },
{
    if let OccurrenceM::InRepo { package, installed, .. } = s.vulnerabilities[i].occurrences[k] {
        let x = BuiltPackageM { name: package, version: installed };
        if exists|b: int|
            0 <= b < built.len() && (#[trigger] built[b]).name == package && built[b].version
                == installed {
            let b = choose|b: int|
                0 <= b < built.len() && (#[trigger] built[b]).name == package && built[b].version
                    == installed;
            assert(built[b] == x);
        }
        if built.contains(x) {
            let b = choose|b: int| 0 <= b < built.len() && built[b] == x;
            assert(built[b].name == package && built[b].version == installed);
        }
    }
}

/// A Cargo repository is a gap exactly where something could not be walked, no lockfile is there,
/// or one could not be read. The reason of the first that could not be read is given.
pub proof fn a_cargo_gap_is_never_clean(
    repo: Seq<char>,
    path: Seq<char>,
    walk_errors: Seq<Seq<char>>,
    lockfiles: Seq<LockfileScanM>,
)
    ensures
        cargo_result(repo, path, walk_errors, lockfiles).outcome.repo == repo,
        cargo_result(repo, path, walk_errors, lockfiles).outcome.status is Errored <==> (
        walk_errors.len() > 0 || lockfiles.len() == 0 || exists|i: int|
            0 <= i < lockfiles.len() && (#[trigger] lockfiles[i]) is Unreadable),
        cargo_result(repo, path, walk_errors, lockfiles).outcome.status is Scanned ==> cargo_result(
            repo,
            path,
            walk_errors,
            lockfiles,
        ).outcome.status == (ScanStatusM::Scanned {
            vulns: cargo_result(repo, path, walk_errors, lockfiles).vulnerabilities.len() as usize,
            warnings: cargo_result(repo, path, walk_errors, lockfiles).warnings.len() as usize,
        }),
        forall|i: int|
            0 <= i < lockfiles.len() && walk_errors.len() == 0 && (forall|k: int|
                0 <= k < i ==> (#[trigger] lockfiles[k]) is Read) ==> (
            #[trigger] lockfiles[i] matches LockfileScanM::Unreadable(e) ==> cargo_result(
                repo,
                path,
                walk_errors,
                lockfiles,
            ).outcome.status == (ScanStatusM::Errored { reason: e })),
{
    lemma_first_unreadable(lockfiles);
}

proof fn lemma_first_unreadable(lockfiles: Seq<LockfileScanM>)
    ensures
        first_unreadable(lockfiles) is Some <==> exists|i: int|
            0 <= i < lockfiles.len() && (#[trigger] lockfiles[i]) is Unreadable,
        forall|i: int|
            0 <= i < lockfiles.len() && (forall|k: int|
                0 <= k < i ==> (#[trigger] lockfiles[k]) is Read) ==> (
            #[trigger] lockfiles[i] matches LockfileScanM::Unreadable(e) ==> first_unreadable(
                lockfiles,
            ) == Some(e)),
    decreases lockfiles.len(),
{
    if lockfiles.len() > 0 {
        let l = lockfiles.drop_last();
        let n = l.len() as int;
        lemma_first_unreadable(l);
        assert(lockfiles[n] == lockfiles.last());
        assert forall|k: int| 0 <= k < n implies #[trigger] lockfiles[k] == l[k] by {}
        if first_unreadable(l) is Some {
            let i = choose|i: int| 0 <= i < l.len() && (#[trigger] l[i]) is Unreadable;
            assert(lockfiles[i] is Unreadable);
        }
        assert forall|i: int|
            0 <= i < lockfiles.len() && (forall|k: int|
                0 <= k < i ==> (#[trigger] lockfiles[k]) is Read) implies (
        #[trigger] lockfiles[i] matches LockfileScanM::Unreadable(e) ==> first_unreadable(lockfiles)
            == Some(e)) by {
            if let LockfileScanM::Unreadable(e) = lockfiles[i] {
                if i < n {
                    assert(l[i] == lockfiles[i]);
                    assert forall|k: int| 0 <= k < i implies (#[trigger] l[k]) is Read by {
                        assert(lockfiles[k] is Read);
                    }
                } else {
                    if first_unreadable(l) is Some {
                        let q = choose|q: int| 0 <= q < l.len() && (#[trigger] l[q]) is Unreadable;
                        assert(lockfiles[q] is Read);
                    }
                }
            }
        }
        if exists|i: int| 0 <= i < lockfiles.len() && (#[trigger] lockfiles[i]) is Unreadable {
            let i = choose|i: int|
                0 <= i < lockfiles.len() && (#[trigger] lockfiles[i]) is Unreadable;
            if i < n {
                assert(l[i] is Unreadable);
            }
        }
    }
}

/// The lockfiles that a walk met are the files of that very name, in order, and what it could not
/// read is kept apart. Without a walk there is the one at the root, or none.
pub proof fn a_walk_finds_every_lockfile(
    glob: bool,
    at_root: Option<Seq<char>>,
    entries: Seq<WalkEntryM>,
)
    ensures
        glob ==> lockfiles_of(glob, at_root, entries) == entries.filter(
            |e: WalkEntryM| e matches WalkEntryM::File { path, name } && name == "Cargo.lock"@,
        ).map_values(|e: WalkEntryM| e->path) && unread_of(glob, entries) == entries.filter(
            |e: WalkEntryM| e is Unreadable,
        ).map_values(|e: WalkEntryM| e->Unreadable_0),
        !glob ==> unread_of(glob, entries).len() == 0,
        !glob && at_root is None ==> lockfiles_of(glob, at_root, entries).len() == 0,
        !glob && at_root is Some ==> lockfiles_of(glob, at_root, entries) == seq![at_root->0],
    decreases entries.len(),
{
    reveal(Seq::filter);
    let p = |e: WalkEntryM| e matches WalkEntryM::File { path, name } && name == "Cargo.lock"@;
    let f = |e: WalkEntryM| e->path;
    let q = |e: WalkEntryM| e is Unreadable;
    let h = |e: WalkEntryM| e->Unreadable_0;
    if entries.len() > 0 {
        let l = entries.drop_last();
        let e = entries.last();
        a_walk_finds_every_lockfile(glob, at_root, l);
        if p(e) {
            assert(entries.filter(p).map_values(f) =~= l.filter(p).map_values(f).push(f(e)));
        }
        if q(e) {
            assert(entries.filter(q).map_values(h) =~= l.filter(q).map_values(h).push(h(e)));
        }
    } else {
        assert(entries.filter(p).map_values(f) =~= Seq::empty());
        assert(entries.filter(q).map_values(h) =~= Seq::empty());
    }
}

/// Nothing is found that no repository and no toolchain gave.
pub proof fn no_finding_is_made_up(
    results: Seq<RepoResultM>,
    toolchain: Option<RepoScanM>,
    f: VulnFindingM,
)
    requires
        fleet_data(results, toolchain).vulnerabilities.contains(f),
    ensures
        (toolchain matches Some(t) && t.vulnerabilities.contains(f)) || exists|i: int|
            0 <= i < results.len() && (#[trigger] results[i]).vulnerabilities.contains(f),
{
    let a = fleet_vulns(results);
    let b: Seq<VulnFindingM> = match toolchain {
        Some(t) => t.vulnerabilities,
        None => Seq::empty(),
    };
    let k = choose|k: int| 0 <= k < (a + b).len() && (a + b)[k] == f;
    if k < a.len() {
        assert(a[k] == f);
        lemma_from_result(results, f);
    } else {
        assert(b[k - a.len()] == f);
    }
}

proof fn lemma_from_result(results: Seq<RepoResultM>, f: VulnFindingM)
    requires
        fleet_vulns(results).contains(f),
    ensures
        exists|i: int|
            0 <= i < results.len() && (#[trigger] results[i]).vulnerabilities.contains(f),
    decreases results.len(),
{
    if results.len() > 0 {
        let l = results.drop_last();
        let n = l.len() as int;
        let a = fleet_vulns(l);
        let b = results.last().vulnerabilities;
        let k = choose|k: int| 0 <= k < (a + b).len() && (a + b)[k] == f;
        if k < a.len() {
            assert(a[k] == f);
            lemma_from_result(l, f);
            let i = choose|i: int|
                0 <= i < l.len() && (#[trigger] l[i]).vulnerabilities.contains(f);
            assert(results[i] == l[i]);
        } else {
            assert(b[k - a.len()] == f);
            assert(results[n].vulnerabilities.contains(f));
        }
    }
}

/// One more repository adds its findings, its warnings, its outcome and what it skipped, behind
/// those of the others, and what was found in the toolchain comes last.
pub proof fn results_are_put_together_in_order(
    results: Seq<RepoResultM>,
    r: RepoResultM,
    toolchain: RepoScanM,
)
    ensures
        fleet_vulns(results.push(r)) == fleet_vulns(results) + r.vulnerabilities,
        fleet_warns(results.push(r)) == fleet_warns(results) + r.warnings,
        fleet_outcomes(results.push(r)) == fleet_outcomes(results).push(r.outcome),
        fleet_skipped(results.push(r)) == fleet_skipped(results) + r.skipped_unparseable,
        fleet_vulns(Seq::empty()).len() == 0,
        fleet_warns(Seq::empty()).len() == 0,
        fleet_skipped(Seq::empty()) == 0,
        fleet_data(results, Some(toolchain)).vulnerabilities == fleet_data(
            results,
            None,
        ).vulnerabilities + toolchain.vulnerabilities,
        fleet_data(results, Some(toolchain)).warnings == fleet_data(results, None).warnings
            + toolchain.warnings,
        fleet_data(results, Some(toolchain)).outcomes == fleet_data(results, None).outcomes,
{
    assert(results.push(r).drop_last() =~= results);
    assert(fleet_outcomes(results.push(r)) =~= fleet_outcomes(results).push(r.outcome));
    assert(fleet_data(results, None).vulnerabilities =~= fleet_vulns(results));
    assert(fleet_data(results, None).warnings =~= fleet_warns(results));
}

} // verus!
