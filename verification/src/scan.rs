//! The course of one scan: which steps are taken, what each does to the report, and the exit
//! code at the end.
use vstd::prelude::*;
use crate::assemble;
use crate::assemble::{Assembled, GateConfig, SuppressedOccurrence, SuppressedOccurrenceM};
use crate::cli::{BuildSandbox, ReachMode, SeverityArg, VexScopeArg};
use crate::config::{Config, ConfigM, VexScope};
use crate::correlate;
use crate::enrich;
use crate::enrich::{Enrichment, EnrichmentM};
use crate::finding::VulnFindingM;
use crate::npm_reach;
use crate::npm_reach::{RepoImports, RepoImportsM};
use crate::orchestrate;
use crate::orchestrate::ScanData;
use crate::reach;
use crate::reach::{RepoSource, RepoSourceM};
use crate::report;
use crate::report::{FleetReport, FleetReportM, Provenance};
use crate::score;
use crate::score::Score;
use crate::severity::Severity;
use crate::text;
use crate::textmap::TextMap;
use crate::value::Plain;
use crate::vex;
use crate::vex::{HumanAssertion, VexParams, VexParamsM};

verus! {

/// What the command line asks of a scan.
#[derive(Debug, Clone, Copy)]
pub struct ScanFlags {
    pub offline: bool,
    pub min_severity: Option<SeverityArg>,
    pub fail_on: SeverityArg,
    pub fail_on_warnings: bool,
    pub resolve_features: bool,
    pub ignore_phantom: bool,
    pub enrich: bool,
    pub has_kev_file: bool,
    pub has_epss_file: bool,
    pub fail_on_kev: bool,
    pub min_epss: Option<Score>,
    pub reachability: Option<ReachMode>,
    pub reachable_only: bool,
    pub npm_prune_unreachable: bool,
    pub allow_untrusted_builds: bool,
    pub has_reach_driver: bool,
    pub build_sandbox: BuildSandbox,
    pub quiet: bool,
}

// --- Before the scan ---

/// Whether it is to be found out what is built: dropping what is not built needs it too.
pub fn resolves_features(f: &ScanFlags) -> (r: bool)
    ensures
        r == (f.resolve_features || f.ignore_phantom),
{
    f.resolve_features || f.ignore_phantom
}

/// A setting from the command line, else from the environment; an empty one is none.
pub open spec fn setting(flag: Option<Seq<char>>, env: Option<Seq<char>>) -> Option<Seq<char>> {
    let chosen = if flag is Some {
        flag
    } else {
        env
    };
    match chosen {
        Some(s) => if s.len() == 0 {
            None
        } else {
            Some(s)
        },
        None => None,
    }
}

/// The mirror of a vulnerability database: from the command line, else from the environment.
pub fn mirror(flag: &Option<String>, env: &Option<String>) -> (r: Option<String>)
    ensures
        r.deep_view() == setting(flag.deep_view(), env.deep_view()),
{
    let chosen: Option<String> = if flag.is_some() {
        flag.copy()
    } else {
        env.copy()
    };
    match chosen {
        Some(s) => if s.as_str().is_empty() {
            None
        } else {
            Some(s)
        },
        None => None,
    }
}

/// Where programs are looked for: the directories of the search path, the Go workspaces, and
/// the home directory.
#[derive(Debug)]
pub struct Places {
    pub path: Vec<String>,
    pub gopath: Vec<String>,
    pub home: Option<String>,
}

/// The directories in which the Go checker may be.
pub open spec fn checker_dirs(p: Places) -> Seq<Seq<char>> {
    p.path.deep_view() + p.gopath.deep_view().map_values(|d: Seq<char>| text::within(d, "bin"@)) + (
    match p.home.deep_view() {
        Some(h) => seq![text::within(text::within(h, "go"@), "bin"@)],
        None => Seq::empty(),
    })
}

/// The files that may be the Go checker: the one that was named, else one in each of the
/// directories. Running it compiles what it checks, so without consent there is none.
pub open spec fn checkers(
    consent: bool,
    explicit: Option<Seq<char>>,
    p: Places,
) -> Seq<Seq<char>> {
    if !consent {
        Seq::empty()
    } else {
        match explicit {
            Some(e) => seq![e],
            None => checker_dirs(p).map_values(|d: Seq<char>| text::within(d, "govulncheck"@)),
        }
    }
}

/// The files that may be the Go checker, in the order in which they are tried; the first that
/// exists is run.
pub fn locate_govulncheck(consent: bool, explicit: &Option<String>, p: &Places) -> (r: Vec<String>)
    ensures
        r.deep_view() == checkers(consent, explicit.deep_view(), *p),
{
    let mut r: Vec<String> = Vec::new();
    assert(r.deep_view() =~= Seq::empty());
    if !consent {
        return r;
    }
    if let Some(e) = explicit {
        r.push(e.clone());
        assert(r.deep_view() =~= seq![e@]);
        return r;
    }
    let ghost want = checkers(consent, explicit.deep_view(), *p);
    let ghost a: int = p.path.len() as int;
    let ghost b: int = p.gopath.len() as int;
    let mut i: usize = 0;
    assert(r.deep_view() =~= want.take(0));
    while i < p.path.len()
        invariant
            i <= p.path.len(),
            consent,
            explicit is None,
            want == checkers(consent, explicit.deep_view(), *p),
            r.deep_view() == want.take(i as int),
        decreases p.path.len() - i,
    {
        let c = text::path_within(p.path[i].as_str(), "govulncheck");
        let ghost before = r.deep_view();
        r.push(c);
        proof {
            assert(r.deep_view() =~= before.push(c@));
            assert(checker_dirs(*p)[i as int] == p.path.deep_view()[i as int]);
            assert(want[i as int] == c@);
            assert(want.take(i + 1) =~= want.take(i as int).push(want[i as int]));
        }
        i += 1;
    }
    let mut j: usize = 0;
    while j < p.gopath.len()
        invariant
            j <= p.gopath.len(),
            consent,
            explicit is None,
            a == p.path.len(),
            want == checkers(consent, explicit.deep_view(), *p),
            r.deep_view() == want.take(a + j),
        decreases p.gopath.len() - j,
    {
        let d = text::path_within(p.gopath[j].as_str(), "bin");
        let c = text::path_within(d.as_str(), "govulncheck");
        let ghost before = r.deep_view();
        r.push(c);
        proof {
            assert(r.deep_view() =~= before.push(c@));
            assert(checker_dirs(*p)[a + j] == text::within(p.gopath.deep_view()[j as int], "bin"@));
            assert(want[a + j] == c@);
            assert(want.take(a + j + 1) =~= want.take(a + j).push(want[a + j]));
        }
        j += 1;
    }
    if let Some(h) = &p.home {
        let d = text::path_within(h.as_str(), "go");
        let d = text::path_within(d.as_str(), "bin");
        let c = text::path_within(d.as_str(), "govulncheck");
        let ghost before = r.deep_view();
        r.push(c);
        proof {
            assert(r.deep_view() =~= before.push(c@));
            assert(checker_dirs(*p)[a + b] == d@);
            assert(want[a + b] == c@);
            assert(want =~= want.take(a + b).push(want[a + b]));
        }
    } else {
        assert(want =~= want.take(a + b));
    }
    r
}

pub open spec fn skipped_text(skipped: nat) -> Option<Seq<char>> {
    if skipped == 0 {
        None
    } else {
        Some(
            "note: skipped "@ + text::decimal(skipped)
                + " package(s) with an unrecognized version format (non-registry pins have no advisory to match)"@,
        )
    }
}

/// What is said of packages whose version could not be read, if there are any.
pub fn skipped_note(skipped: u32) -> (r: Option<String>)
    ensures
        r.deep_view() == skipped_text(skipped as nat),
{
    if skipped == 0 {
        None
    } else {
        let n = text::show(skipped as u64);
        let head = text::join("note: skipped ", n.as_str());
        Some(
            text::join(
                head.as_str(),
                " package(s) with an unrecognized version format (non-registry pins have no advisory to match)",
            ),
        )
    }
}

// --- The report ---

pub open spec fn threshold(s: Option<SeverityArg>) -> Option<Severity> {
    match s {
        Some(SeverityArg::Low) => Some(Severity::Low),
        Some(SeverityArg::Medium) => Some(Severity::Medium),
        Some(SeverityArg::High) => Some(Severity::High),
        Some(SeverityArg::Critical) => Some(Severity::Critical),
        None => None,
    }
}

/// The report of a scan under the suppressions of the configuration, at the threshold that
/// was asked for, and what was suppressed.
pub fn gather(
    scan: ScanData,
    config: &Config,
    flags: &ScanFlags,
    provenance: Provenance,
) -> (r: Assembled)
    ensures
        r.report.deep_view() == assemble::report_of(
            scan.deep_view(),
            vex::suppressions_in(config.deep_view()),
            threshold(flags.min_severity),
            provenance.deep_view(),
        ),
        r.suppressed.deep_view() == assemble::all_suppressed(
            vex::suppressions_in(config.deep_view()),
            correlate::correlated_vulns(scan.deep_view().vulnerabilities),
        ),
{
    let suppressions = vex::suppressions_of(config);
    let min: Option<Severity> = match flags.min_severity {
        Some(s) => Some(Severity::from(s)),
        None => None,
    };
    assemble::assemble(scan, &suppressions, min, provenance)
}

/// A report without what is known not to be built, where that is asked for.
pub open spec fn built_only(r: FleetReportM, f: ScanFlags) -> FleetReportM {
    if f.ignore_phantom {
        assemble::without_phantoms(r)
    } else {
        r
    }
}

/// How many findings of a report are not in another one.
pub open spec fn fewer(before: FleetReportM, after: FleetReportM) -> int {
    before.vulnerabilities.len() - after.vulnerabilities.len() + before.warnings.len()
        - after.warnings.len()
}

/// Drops what is known not to be built, where that is asked for; gives how many findings were
/// dropped.
pub fn drop_unbuilt(report: &mut FleetReport, flags: &ScanFlags) -> (dropped: usize)
    requires
        old(report).vulnerabilities.len() + old(report).warnings.len() <= usize::MAX,
    ensures
        final(report).deep_view() == built_only(old(report).deep_view(), *flags),
        dropped == fewer(old(report).deep_view(), final(report).deep_view()),
{
    if flags.ignore_phantom {
        assemble::drop_phantom(report)
    } else {
        0
    }
}

pub open spec fn unbuilt_text(dropped: nat, quiet: bool) -> Option<Seq<char>> {
    if dropped == 0 || quiet {
        None
    } else {
        Some(
            "suppressed "@ + text::decimal(dropped)
                + " finding(s) on packages not in the default build"@,
        )
    }
}

/// What is said of findings that were dropped for not being built.
pub fn unbuilt_note(dropped: usize, quiet: bool) -> (r: Option<String>)
    ensures
        r.deep_view() == unbuilt_text(dropped as nat, quiet),
{
    if dropped == 0 || quiet {
        None
    } else {
        let n = text::show(dropped as u64);
        let head = text::join("suppressed ", n.as_str());
        Some(text::join(head.as_str(), " finding(s) on packages not in the default build"))
    }
}

// --- Exploitability ---

/// Where the signals of exploitation come from.
#[derive(Debug, Clone, Copy, PartialEq, Eq, Structural)]
pub enum SignalSource {
    /// They are not asked for.
    Unasked,
    /// From the files that were named.
    Files,
    /// Only the network would have them, and it may not be used.
    Refused,
    /// From the network.
    Network,
}

pub open spec fn wants_signals(f: ScanFlags) -> bool {
    f.enrich || f.fail_on_kev || f.min_epss is Some || f.has_kev_file || f.has_epss_file
}

/// Where the signals of exploitation come from. Gating or filtering by them asks for them;
/// files are preferred to the network, and an offline scan never uses the network.
pub open spec fn signals_from(f: ScanFlags) -> SignalSource {
    if !wants_signals(f) {
        SignalSource::Unasked
    } else if f.has_kev_file || f.has_epss_file {
        SignalSource::Files
    } else if f.offline {
        SignalSource::Refused
    } else {
        SignalSource::Network
    }
}

/// Where the signals of exploitation come from.
pub fn signal_source(f: &ScanFlags) -> (r: SignalSource)
    ensures
        r == signals_from(*f),
{
    if !(f.enrich || f.fail_on_kev || f.min_epss.is_some() || f.has_kev_file || f.has_epss_file) {
        SignalSource::Unasked
    } else if f.has_kev_file || f.has_epss_file {
        SignalSource::Files
    } else if f.offline {
        SignalSource::Refused
    } else {
        SignalSource::Network
    }
}

pub open spec fn offline_text() -> Seq<char> {
    "enrichment needs the network; with --offline supply --kev-file / --epss-file (NVD CVSS backfill is unavailable offline)"@
}

/// Why an offline scan has no signals.
pub fn offline_signals() -> (r: String)
    ensures
        r@ == offline_text(),
{
    "enrichment needs the network; with --offline supply --kev-file / --epss-file (NVD CVSS backfill is unavailable offline)".to_owned()
}

/// A report with the signals of each finding, and the counts that follow.
pub open spec fn with_signals(r: FleetReportM, e: EnrichmentM) -> FleetReportM {
    report::refreshed(
        FleetReportM {
            vulnerabilities: r.vulnerabilities.map_values(
                |f: VulnFindingM| enrich::enriched(e, f),
            ),
            ..r
        },
    )
}

/// A report with only what is as probable as was asked for.
pub open spec fn probable(r: FleetReportM, min: Option<Score>) -> FleetReportM {
    match min {
        Some(m) => assemble::retained(r, assemble::likely(m)),
        None => r,
    }
}

/// A report in the order in which to act on its vulnerabilities.
pub open spec fn by_risk(r: FleetReportM) -> FleetReportM {
    FleetReportM { vulnerabilities: enrich::ranked(r.vulnerabilities), ..r }
}

/// What is less probable than was asked for once the signals are there.
pub open spec fn improbable(r: FleetReportM, e: EnrichmentM, min: Option<Score>) -> Seq<
    (Seq<char>, Score),
> {
    match min {
        Some(m) => assemble::unlikely(with_signals(r, e).vulnerabilities, m),
        None => Seq::empty(),
    }
}

/// Adds the signals, drops what is less probable than was asked for, and puts the rest in the
/// order in which to act. Gives what was dropped.
pub fn add_signals(report: &mut FleetReport, signals: &Enrichment, min: Option<Score>) -> (dropped: Vec<
    (String, Score),
>)
    ensures
        final(report).deep_view() == by_risk(
            probable(with_signals(old(report).deep_view(), signals.deep_view()), min),
        ),
        dropped.deep_view() == improbable(old(report).deep_view(), signals.deep_view(), min),
{
    let mut vulns = Vec::new();
    std::mem::swap(&mut vulns, &mut report.vulnerabilities);
    signals.apply(&mut vulns);
    report.vulnerabilities = vulns;
    report.refresh_summary();
    let dropped: Vec<(String, Score)> = match min {
        Some(m) => assemble::retain_min_epss(report, m),
        None => {
            let none: Vec<(String, Score)> = Vec::new();
            assert(none.deep_view() =~= Seq::empty());
            none
        },
    };
    let mut vulns = Vec::new();
    std::mem::swap(&mut vulns, &mut report.vulnerabilities);
    enrich::rank(&mut vulns);
    report.vulnerabilities = vulns;
    dropped
}

// --- Reachability ---

/// How reachability is judged: as asked for; filtering by it asks for the heuristic.
pub open spec fn mode_of(f: ScanFlags) -> Option<ReachMode> {
    if f.reachability is Some {
        f.reachability
    } else if f.reachable_only || f.npm_prune_unreachable {
        Some(ReachMode::Heuristic)
    } else {
        None
    }
}

/// How reachability is judged, if it is.
pub fn reach_mode(f: &ScanFlags) -> (r: Option<ReachMode>)
    ensures
        r == mode_of(*f),
{
    if f.reachability.is_some() {
        f.reachability
    } else if f.reachable_only || f.npm_prune_unreachable {
        Some(ReachMode::Heuristic)
    } else {
        None
    }
}

pub open spec fn refused(f: ScanFlags) -> Option<Seq<char>> {
    if mode_of(f) != Some(ReachMode::Static) {
        None
    } else if !f.allow_untrusted_builds {
        Some(
            "--reachability=static COMPILES each scanned repo, executing its build scripts and proc-macros (arbitrary code). Re-run with --allow-untrusted-builds only if you trust every repo in the fleet."@,
        )
    } else if !f.has_reach_driver {
        Some("--reachability=static requires --reach-driver <PATH>"@)
    } else {
        None
    }
}

/// Why the static analysis may not start: it builds what it judges, which needs consent and a
/// driver.
pub fn static_refusal(f: &ScanFlags) -> (r: Option<String>)
    ensures
        r.deep_view() == refused(*f),
{
    match reach_mode(f) {
        Some(ReachMode::Static) => {
            if !f.allow_untrusted_builds {
                Some(
                    "--reachability=static COMPILES each scanned repo, executing its build scripts and proc-macros (arbitrary code). Re-run with --allow-untrusted-builds only if you trust every repo in the fleet.".to_owned(),
                )
            } else if !f.has_reach_driver {
                Some("--reachability=static requires --reach-driver <PATH>".to_owned())
            } else {
                None
            }
        },
        _ => None,
    }
}

pub open spec fn confinement_text(b: BuildSandbox) -> Seq<char> {
    match b {
        BuildSandbox::Off => "UNCONFINED (--build-sandbox=off)"@,
        BuildSandbox::Auto =>
            "sandboxed if a mechanism is available (--build-sandbox=auto)"@,
        BuildSandbox::Require =>
            "sandboxed, or skipped if no mechanism (--build-sandbox=require)"@,
    }
}

pub open spec fn build_text(repos: nat, b: BuildSandbox) -> Seq<char> {
    "warning: static reachability is about to BUILD "@ + text::decimal(repos)
        + " repo(s), running their build scripts and proc-macros: "@ + confinement_text(b)
        + ". Only trusted repos should be scanned this way."@
}

/// What is said before anything is built.
pub fn build_warning(repos: usize, b: BuildSandbox) -> (r: String)
    ensures
        r@ == build_text(repos as nat, b),
{
    let how: &str = match b {
        BuildSandbox::Off => "UNCONFINED (--build-sandbox=off)",
        BuildSandbox::Auto => "sandboxed if a mechanism is available (--build-sandbox=auto)",
        BuildSandbox::Require => "sandboxed, or skipped if no mechanism (--build-sandbox=require)",
    };
    let n = text::show(repos as u64);
    let t = text::join("warning: static reachability is about to BUILD ", n.as_str());
    let t = text::join(
        t.as_str(),
        " repo(s), running their build scripts and proc-macros: ",
    );
    let t = text::join(t.as_str(), how);
    text::join(t.as_str(), ". Only trusted repos should be scanned this way.")
}

/// A report with every vulnerability judged from the source, and those of npm from the import
/// graphs.
pub open spec fn by_source(
    r: FleetReportM,
    sources: Seq<RepoSourceM>,
    imports: Seq<RepoImportsM>,
    prune: bool,
) -> FleetReportM {
    FleetReportM {
        vulnerabilities: r.vulnerabilities.map_values(
            |f: VulnFindingM| npm_reach::assessed(reach::assessed(f, sources), imports, prune),
        ),
        ..r
    }
}

/// Judges every vulnerability from the source, and those of npm from the import graphs.
pub fn assess_heuristic(
    report: &mut FleetReport,
    sources: &Vec<RepoSource>,
    imports: &Vec<RepoImports>,
    flags: &ScanFlags,
)
    ensures
        final(report).deep_view() == by_source(
            old(report).deep_view(),
            sources.deep_view(),
            imports.deep_view(),
            flags.npm_prune_unreachable,
        ),
{
    let ghost all = report.deep_view().vulnerabilities;
    reach::assess(report, sources);
    npm_reach::assess(
        report,
        imports,
        &npm_reach::Options { prune: flags.npm_prune_unreachable },
    );
    assert(report.deep_view().vulnerabilities =~= all.map_values(
        |f: VulnFindingM|
            npm_reach::assessed(
                reach::assessed(f, sources.deep_view()),
                imports.deep_view(),
                flags.npm_prune_unreachable,
            ),
    ));
}

/// A report without what cannot be reached, where that is asked for.
pub open spec fn reached_only(r: FleetReportM, f: ScanFlags) -> FleetReportM {
    if f.reachable_only {
        assemble::retained(r, assemble::may_be_reachable())
    } else {
        r
    }
}

/// Drops what cannot be reached, where that is asked for; gives how many were dropped.
pub fn drop_unreachable(report: &mut FleetReport, flags: &ScanFlags) -> (dropped: usize)
    ensures
        final(report).deep_view() == reached_only(old(report).deep_view(), *flags),
        dropped == old(report).deep_view().vulnerabilities.len() - final(report).deep_view().vulnerabilities.len(),
{
    if flags.reachable_only {
        assemble::retain_reachable(report)
    } else {
        0
    }
}

pub open spec fn unreachable_text(mode: ReachMode, dropped: nat, quiet: bool) -> Option<Seq<char>> {
    if dropped == 0 || quiet {
        None
    } else {
        Some(
            "dropped "@ + text::decimal(dropped) + " finding(s) "@ + (match mode {
                ReachMode::Heuristic => "not found in your source (heuristic)"@,
                ReachMode::Static => "proven unreachable (static)"@,
            }),
        )
    }
}

/// What is said of findings that were dropped for not being reachable.
pub fn unreachable_note(mode: ReachMode, dropped: usize, quiet: bool) -> (r: Option<String>)
    ensures
        r.deep_view() == unreachable_text(mode, dropped as nat, quiet),
{
    if dropped == 0 || quiet {
        None
    } else {
        let how: &str = match mode {
            ReachMode::Heuristic => "not found in your source (heuristic)",
            ReachMode::Static => "proven unreachable (static)",
        };
        let n = text::show(dropped as u64);
        let t = text::join("dropped ", n.as_str());
        let t = text::join(t.as_str(), " finding(s) ");
        Some(text::join(t.as_str(), how))
    }
}

// --- The end ---

/// Keeps what is new since the baseline, where there is one; gives whether there is anything.
pub fn since_baseline(report: &mut FleetReport, baseline: &Option<Vec<String>>) -> (new: bool)
    ensures
        final(report).deep_view() == (match baseline.deep_view() {
            Some(ids) => assemble::new_since(old(report).deep_view(), ids),
            None => old(report).deep_view(),
        }),
        new == (baseline is Some && (final(report).deep_view().vulnerabilities.len() > 0 || final(report).deep_view().warnings.len() > 0)),
{
    match baseline {
        Some(ids) => {
            assemble::retain_new(report, ids);
            assert(report.vulnerabilities.deep_view().len() == report.vulnerabilities.len());
            assert(report.warnings.deep_view().len() == report.warnings.len());
            report.vulnerabilities.len() > 0 || report.warnings.len() > 0
        },
        None => false,
    }
}

/// Whether something in a report is known to be exploited.
pub open spec fn has_exploited(r: FleetReportM) -> bool {
    exists|i: int| 0 <= i < r.vulnerabilities.len() && (#[trigger] r.vulnerabilities[i]).exploit.kev
}

pub open spec fn gate_of(f: ScanFlags) -> GateConfig {
    GateConfig {
        fail_on: match f.fail_on {
            SeverityArg::Low => Severity::Low,
            SeverityArg::Medium => Severity::Medium,
            SeverityArg::High => Severity::High,
            SeverityArg::Critical => Severity::Critical,
        },
        fail_on_warnings: f.fail_on_warnings,
    }
}

/// The exit code of a scan: `2` where the report is not to be trusted; else `1` where
/// something makes the scan fail, or is exploited and that is asked about, or is new since the
/// baseline; else `0`.
pub open spec fn code_of(r: FleetReportM, f: ScanFlags, new: bool) -> u8 {
    let code = assemble::exit_code_m(r, gate_of(f));
    if code == 2 {
        2
    } else if code == 1 || (f.fail_on_kev && has_exploited(r)) || new {
        1
    } else {
        0
    }
}

fn is_exploited(report: &FleetReport) -> (r: bool)
    ensures
        r == has_exploited(report.deep_view()),
{
    let ghost all = report.vulnerabilities.deep_view();
    let mut i: usize = 0;
    while i < report.vulnerabilities.len()
        invariant
            i <= report.vulnerabilities.len(),
            all == report.vulnerabilities.deep_view(),
            forall|j: int| 0 <= j < i ==> !(#[trigger] all[j]).exploit.kev,
        decreases report.vulnerabilities.len() - i,
    {
        if report.vulnerabilities[i].exploit.kev {
            assert(report.deep_view().vulnerabilities[i as int].exploit.kev);
            return true;
        }
        i += 1;
    }
    false
}

/// The exit code of a scan.
pub fn scan_exit_code(report: &FleetReport, flags: &ScanFlags, baseline_new: bool) -> (r: u8)
    ensures
        r == code_of(report.deep_view(), *flags, baseline_new),
{
    let hit: bool = flags.fail_on_kev && is_exploited(report);
    let gate = GateConfig {
        fail_on: Severity::from(flags.fail_on),
        fail_on_warnings: flags.fail_on_warnings,
    };
    let code: u8 = assemble::exit_code(report, &gate);
    assemble::combine_baseline(assemble::combine_baseline(code, hit), baseline_new)
}

// --- VEX ---

/// What the command line says of a VEX document.
#[derive(Debug)]
pub struct VexArgs {
    pub author: Option<String>,
    pub role: Option<String>,
    pub id: Option<String>,
    pub timestamp: Option<String>,
    pub scope: Option<VexScopeArg>,
    pub only_sound: bool,
    pub alias_rustbinary: bool,
    pub include_fixed: bool,
    pub version: u64,
    pub supersedes: Option<String>,
}

/// The first of two that is there.
pub open spec fn either<T>(a: Option<T>, b: Option<T>) -> Option<T> {
    if a is Some {
        a
    } else {
        b
    }
}

pub open spec fn scope_of(arg: Option<VexScopeArg>, set: Option<VexScope>) -> VexScope {
    match arg {
        Some(VexScopeArg::Runtime) => VexScope::Runtime,
        Some(VexScopeArg::Build) => VexScope::Build,
        None => match set {
            Some(s) => s,
            None => VexScope::Runtime,
        },
    }
}

/// What a document lacks, if anything: an author, or a time.
pub open spec fn params_lack(
    author: Option<Seq<char>>,
    timestamp: Option<Seq<char>>,
) -> Option<Seq<char>> {
    if author is None {
        Some("no VEX author: set --vex-author or settings.vex.author"@)
    } else if timestamp is None {
        Some(
            "no advisory-db commit time for the VEX timestamp; pass --vex-timestamp <RFC3339>"@,
        )
    } else {
        None
    }
}

/// What a document that is asked for lacks, if anything.
pub open spec fn lacking(args: VexArgs, c: ConfigM, r: FleetReportM) -> Option<Seq<char>> {
    params_lack(
        either(args.author.deep_view(), c.vex.author),
        either(args.timestamp.deep_view(), r.provenance.db_timestamp),
    )
}

/// What a document that lacks nothing is made with.
pub open spec fn params_of(
    args: VexArgs,
    c: ConfigM,
    r: FleetReportM,
    suppressed: Seq<SuppressedOccurrenceM>,
    purls: Seq<Option<Seq<char>>>,
) -> VexParamsM {
    let ids = vex::product_ids(c.repos, purls, c.vex.product_id_base);
    VexParamsM {
        author: either(args.author.deep_view(), c.vex.author)->0,
        role: either(
            either(args.role.deep_view(), c.vex.role),
            Some("Document Creator"@),
        ),
        scope: scope_of(args.scope, c.vex.scope),
        timestamp: either(args.timestamp.deep_view(), r.provenance.db_timestamp)->0,
        doc_id: args.id.deep_view(),
        product_id_base: c.vex.product_id_base,
        product_ids: ids,
        assertions: vex::assertions_for(suppressed, ids),
        only_sound: args.only_sound,
        alias_rustbinary: args.alias_rustbinary,
        include_fixed: args.include_fixed,
        version: args.version,
        supersedes: args.supersedes.deep_view(),
    }
}

/// The advisories for which a label would serve better than free text.
pub open spec fn nudges_of(
    args: VexArgs,
    c: ConfigM,
    suppressed: Seq<SuppressedOccurrenceM>,
    purls: Seq<Option<Seq<char>>>,
) -> Seq<Seq<char>> {
    if args.only_sound {
        Seq::empty()
    } else {
        vex::nudges_for(
            suppressed,
            vex::product_ids(c.repos, purls, c.vex.product_id_base),
        )
    }
}

fn first_text(a: &Option<String>, b: &Option<String>) -> (r: Option<String>)
    ensures
        r.deep_view() == either(a.deep_view(), b.deep_view()),
{
    if a.is_some() {
        a.copy()
    } else {
        b.copy()
    }
}

/// What a VEX document is made with: the command line wins over the configuration. The time
/// is that of the advisory database unless one is given, never that of the clock. There is no
/// document without an author or a time. `purls` holds the package URL of each repository;
/// the second part names the advisories for which a label would serve better than free text.
pub fn build_vex_params(
    args: &VexArgs,
    config: &Config,
    report: &FleetReport,
    suppressed: &Vec<SuppressedOccurrence>,
    purls: &Vec<Option<String>>,
) -> (r: Result<(VexParams, Vec<String>), String>)
    requires
        purls.len() == config.repos.len(),
    ensures
        match lacking(*args, config.deep_view(), report.deep_view()) {
            Some(e) => r matches Err(x) && x@ == e,
            None => r matches Ok(p) && p.0.deep_view() == params_of(
                *args,
                config.deep_view(),
                report.deep_view(),
                suppressed.deep_view(),
                purls.deep_view(),
            ) && p.1.deep_view() == nudges_of(
                *args,
                config.deep_view(),
                suppressed.deep_view(),
                purls.deep_view(),
            ),
        },
{
    let author: String = match first_text(&args.author, &config.vex.author) {
        Some(a) => a,
        None => {
            return Err("no VEX author: set --vex-author or settings.vex.author".to_owned());
        },
    };
    let role: Option<String> = match first_text(&args.role, &config.vex.role) {
        Some(s) => Some(s),
        None => Some("Document Creator".to_owned()),
    };
    let scope: VexScope = match args.scope {
        Some(s) => VexScope::from(s),
        None => match config.vex.scope {
            Some(s) => s,
            None => VexScope::Runtime,
        },
    };
    let timestamp: String = match first_text(&args.timestamp, &report.provenance.db_timestamp) {
        Some(t) => t,
        None => {
            return Err(
                "no advisory-db commit time for the VEX timestamp; pass --vex-timestamp <RFC3339>".to_owned(),
            );
        },
    };
    let product_ids: TextMap<String> = vex::resolve_product_ids(config, purls);
    let (assertions, nudges): (Vec<HumanAssertion>, Vec<String>) = vex::build_human_assertions(
        suppressed,
        &product_ids,
        !args.only_sound,
    );
    let params = VexParams {
        author,
        role,
        scope,
        timestamp,
        doc_id: args.id.copy(),
        product_id_base: config.vex.product_id_base.copy(),
        product_ids,
        assertions,
        only_sound: args.only_sound,
        alias_rustbinary: args.alias_rustbinary,
        include_fixed: args.include_fixed,
        version: args.version,
        supersedes: args.supersedes.copy(),
    };
    Ok((params, nudges))
}

// --- Why a package is there ---

/// One way by which a package enters a dependency tree.
#[derive(Debug)]
pub struct Route {
    pub version: String,
    pub path: Vec<String>,
    pub direct: bool,
}

/// The two lines that show a route.
pub open spec fn route_text(repo: Seq<char>, package: Seq<char>, r: Route) -> (Seq<char>, Seq<char>) {
    (
        repo + " — "@ + package + " "@ + r.version@ + (if r.direct {
            " (direct):"@
        } else {
            " (transitive):"@
        }),
        "  "@ + orchestrate::joined(r.path.deep_view(), " → "@),
    )
}

/// The two lines that show a route.
pub fn route_lines(repo: &str, package: &str, route: &Route) -> (r: (String, String))
    ensures
        (r.0@, r.1@) == route_text(repo@, package@, *route),
{
    let t = text::join(repo, " — ");
    let t = text::join(t.as_str(), package);
    let t = text::join(t.as_str(), " ");
    let t = text::join(t.as_str(), route.version.as_str());
    let kind: &str = if route.direct {
        " (direct):"
    } else {
        " (transitive):"
    };
    let head = text::join(t.as_str(), kind);
    let path = orchestrate::join_all(&route.path, " → ");
    (head, text::join("  ", path.as_str()))
}

/// The exit code of the question why a package is there, and what is said where it is not.
pub fn why_conclusion(found: bool, package: &str) -> (r: (u8, Option<String>))
    ensures
        found ==> r.0 == 0 && r.1 is None,
        !found ==> r.0 == 2 && r.1.deep_view() == Some(
            "`"@ + package@ + "` is not in any repo's dependency tree"@,
        ),
{
    if found {
        (0, None)
    } else {
        let t = text::join("`", package);
        (2, Some(text::join(t.as_str(), "` is not in any repo's dependency tree")))
    }
}

// --- Laws ---

/// A gap is never clean: where a repository could not be read, or none was, the exit code is
/// `2` whatever else holds; and it is `2` only then.
pub proof fn untrusted_stays_untrusted(r: FleetReportM, f: ScanFlags, new: bool)
    ensures
        code_of(r, f, new) == 2 <==> r.summary.repos_errored > 0 || r.summary.repos_scanned == 0,
{
}

/// A scan exits `0` only where everything was read, nothing makes the scan fail, nothing is known
/// to be exploited where that is asked about, and nothing is new since the baseline.
pub proof fn clean_means_clean(r: FleetReportM, f: ScanFlags, new: bool)
    ensures
        code_of(r, f, new) == 0 <==> r.summary.repos_errored == 0 && r.summary.repos_scanned > 0
            && !assemble::trips(r, gate_of(f)) && !(f.fail_on_kev && has_exploited(r)) && !new,
{
}

/// Nothing that happens to a report between the scan and its end changes what was read: the
/// filters, the signals and their order leave the outcomes and their counts alone.
pub proof fn steps_keep_outcomes(
    r: FleetReportM,
    e: EnrichmentM,
    min: Option<Score>,
    ids: Seq<Seq<char>>,
)
    ensures
        same_outcomes(r, assemble::without_phantoms(r)),
        same_outcomes(r, by_risk(probable(with_signals(r, e), min))),
        same_outcomes(r, assemble::retained(r, assemble::may_be_reachable())),
        same_outcomes(r, assemble::new_since(r, ids)),
{
}

/// Two reports of the same reading.
pub open spec fn same_outcomes(a: FleetReportM, b: FleetReportM) -> bool {
    &&& a.outcomes == b.outcomes
    &&& a.summary.repos_scanned == b.summary.repos_scanned
    &&& a.summary.repos_errored == b.summary.repos_errored
    &&& a.provenance == b.provenance
}

/// An offline scan never fetches signals.
pub proof fn offline_fetches_nothing(f: ScanFlags)
    requires
        f.offline,
    ensures
        signals_from(f) != SignalSource::Network,
{
}

/// Without consent nothing that compiles scanned code is run: neither the Go checker nor the
/// static analysis.
pub proof fn nothing_is_built_without_consent(
    f: ScanFlags,
    explicit: Option<Seq<char>>,
    p: Places,
)
    requires
        !f.allow_untrusted_builds,
    ensures
        checkers(f.allow_untrusted_builds, explicit, p).len() == 0,
        mode_of(f) == Some(ReachMode::Static) ==> refused(f) is Some,
{
}

/// Whether a vulnerability of a severity fails a scan with `--fail-on` at a level, level by
/// level: the band of the same name and every band above it do, and one that is not known does
/// at every level.
pub open spec fn fails_at(level: SeverityArg, s: Severity) -> bool {
    match level {
        SeverityArg::Low => true,
        SeverityArg::Medium => s != Severity::Low,
        SeverityArg::High => s == Severity::High || s == Severity::Critical || s
            == Severity::Unknown,
        SeverityArg::Critical => s == Severity::Critical || s == Severity::Unknown,
    }
}

/// The exit code of a scan that can be trusted is `1` exactly where some vulnerability is of the
/// severity that `--fail-on` names, of a higher one, or of an unknown one; or warnings fail the
/// scan and there is one; or what is known to be exploited fails the scan and there is such; or
/// there is something new. Else it is `0`.
pub proof fn fail_on_means_what_it_says(r: FleetReportM, f: ScanFlags, new: bool)
    requires
        r.summary.repos_errored == 0,
        r.summary.repos_scanned > 0,
    ensures
        code_of(r, f, new) == 1 <==> {
            ||| exists|i: int|
                0 <= i < r.vulnerabilities.len() && fails_at(
                    f.fail_on,
                    (#[trigger] r.vulnerabilities[i]).severity,
                )
            ||| f.fail_on_warnings && r.warnings.len() > 0
            ||| f.fail_on_kev && exists|i: int|
                0 <= i < r.vulnerabilities.len() && (#[trigger] r.vulnerabilities[i]).exploit.kev
            ||| new
        },
        code_of(r, f, new) == 0 || code_of(r, f, new) == 1,
{
    assemble::the_floor_decides(r, gate_of(f));
    assert forall|s: Severity| #[trigger] fails_at(f.fail_on, s) == assemble::at_or_above(
        s,
        gate_of(f).fail_on,
    ) by {}
    if exists|i: int|
        0 <= i < r.vulnerabilities.len() && fails_at(
            f.fail_on,
            (#[trigger] r.vulnerabilities[i]).severity,
        ) {
        let i = choose|i: int|
            0 <= i < r.vulnerabilities.len() && fails_at(
                f.fail_on,
                (#[trigger] r.vulnerabilities[i]).severity,
            );
        assert(assemble::at_or_above(r.vulnerabilities[i].severity, gate_of(f).fail_on));
    }
    if exists|i: int|
        0 <= i < r.vulnerabilities.len() && assemble::at_or_above(
            (#[trigger] r.vulnerabilities[i]).severity,
            gate_of(f).fail_on,
        ) {
        let i = choose|i: int|
            0 <= i < r.vulnerabilities.len() && assemble::at_or_above(
                (#[trigger] r.vulnerabilities[i]).severity,
                gate_of(f).fail_on,
            );
        assert(fails_at(f.fail_on, r.vulnerabilities[i].severity));
    }
}

/// A lower `--fail-on` never lets through what a higher one fails.
pub proof fn a_lower_level_fails_more(low: SeverityArg, high: SeverityArg, s: Severity)
    requires
        low == SeverityArg::Low || high == SeverityArg::Critical || low == high || (low
            == SeverityArg::Medium && high == SeverityArg::High),
        fails_at(high, s),
    ensures
        fails_at(low, s),
{
}

/// `--min-severity` shows what `--fail-on` at the same level would fail on, and without it
/// everything is shown.
pub proof fn a_threshold_shows_from_its_level_up(level: SeverityArg, v: VulnFindingM)
    ensures
        assemble::at_threshold(threshold(Some(level)))(v) == fails_at(level, v.severity),
        assemble::at_threshold(threshold(None))(v),
{
}

/// Whatever uses signals of exploitation asks for them, and nothing else does. Files that are
/// given are used; without any the network is, unless the scan is offline, and then they are
/// refused rather than left out.
pub proof fn signals_come_when_used(f: ScanFlags)
    ensures
        f.enrich || f.fail_on_kev || f.min_epss is Some ==> signals_from(f)
            != SignalSource::Unasked,
        f.has_kev_file || f.has_epss_file <==> signals_from(f) == SignalSource::Files,
        !f.enrich && !f.fail_on_kev && f.min_epss is None && !f.has_kev_file && !f.has_epss_file
            ==> signals_from(f) == SignalSource::Unasked,
        signals_from(f) == SignalSource::Refused ==> f.offline,
        signals_from(f) == SignalSource::Network ==> !f.offline,
{
}

/// Reachability is judged as asked for. Where only a filter by it is asked for it is judged by
/// the heuristic, which builds nothing; and where nothing asks for it, it is not.
pub proof fn reachability_is_judged_as_asked(f: ScanFlags)
    ensures
        f.reachability is Some ==> mode_of(f) == f.reachability,
        f.reachability is None && (f.reachable_only || f.npm_prune_unreachable) ==> mode_of(f)
            == Some(ReachMode::Heuristic),
        f.reachability is None && !f.reachable_only && !f.npm_prune_unreachable ==> mode_of(f)
            is None,
        refused(f) is Some <==> f.reachability == Some(ReachMode::Static) && (
        !f.allow_untrusted_builds || !f.has_reach_driver),
{
}

/// What was not asked for is not dropped.
pub proof fn filters_run_only_when_asked(r: FleetReportM, f: ScanFlags, e: EnrichmentM)
    ensures
        !f.ignore_phantom ==> built_only(r, f) == r,
        !f.reachable_only ==> reached_only(r, f) == r,
        probable(r, None) == r,
        improbable(r, e, None).len() == 0,
        f.ignore_phantom ==> built_only(r, f).vulnerabilities == assemble::live_vulns(
            r.vulnerabilities,
        ),
        f.reachable_only ==> assemble::leaves(
            r,
            reached_only(r, f),
            |v: VulnFindingM|
                match v.reachable {
                    Some(reached) => reached,
                    None => true,
                },
        ),
{
    assemble::filters_drop_only_what_they_say(r, Score { bits: 0 });
}

/// A setting of the command line wins over the environment, also where it is empty, and then
/// there is none.
pub proof fn the_command_line_wins(flag: Option<Seq<char>>, env: Option<Seq<char>>)
    ensures
        flag matches Some(s) && s.len() > 0 ==> setting(flag, env) == flag,
        flag matches Some(s) && s.len() == 0 ==> setting(flag, env) is None,
        flag is None && (env matches Some(s) && s.len() > 0) ==> setting(flag, env) == env,
        flag is None && env is None ==> setting(flag, env) is None,
{
}

/// The command line wins over the configuration in what a VEX document is made with, and its time
/// is that of the advisory database unless one is given.
pub proof fn a_document_is_made_with_what_was_given(
    args: VexArgs,
    c: ConfigM,
    r: FleetReportM,
    suppressed: Seq<SuppressedOccurrenceM>,
    purls: Seq<Option<Seq<char>>>,
)
    ensures
        lacking(args, c, r) is None <==> (args.author.deep_view() is Some || c.vex.author is Some)
            && (args.timestamp.deep_view() is Some || r.provenance.db_timestamp is Some),
        ({
            let p = params_of(args, c, r, suppressed, purls);
            &&& args.author.deep_view() matches Some(x) ==> p.author == x
            &&& args.author.deep_view() is None && (c.vex.author matches Some(_)) ==> Some(p.author)
                == c.vex.author
            &&& args.timestamp.deep_view() matches Some(x) ==> p.timestamp == x
            &&& args.timestamp.deep_view() is None && (r.provenance.db_timestamp matches Some(_))
                ==> Some(p.timestamp) == r.provenance.db_timestamp
            &&& args.role.deep_view() is Some ==> p.role == args.role.deep_view()
            &&& args.scope == Some(VexScopeArg::Runtime) ==> p.scope == VexScope::Runtime
            &&& args.scope == Some(VexScopeArg::Build) ==> p.scope == VexScope::Build
            &&& args.scope is None && c.vex.scope is Some ==> Some(p.scope) == c.vex.scope
            &&& args.scope is None && c.vex.scope is None ==> p.scope == VexScope::Runtime
            &&& p.doc_id == args.id.deep_view()
            &&& p.only_sound == args.only_sound
            &&& p.include_fixed == args.include_fixed
            &&& p.alias_rustbinary == args.alias_rustbinary
            &&& p.version == args.version
            &&& p.supersedes == args.supersedes.deep_view()
        }),
{
}

/// Adding signals gives each vulnerability those of its CVEs, drops exactly those whose
/// probability is not at least the one asked for, and keeps all others, also those without one.
pub proof fn signals_drop_only_the_improbable(
    r: FleetReportM,
    e: EnrichmentM,
    min: Option<Score>,
    v: VulnFindingM,
)
    ensures
        by_risk(probable(with_signals(r, e), min)).vulnerabilities.contains(v) <==> (exists|i: int|
            0 <= i < r.vulnerabilities.len() && v == enrich::enriched(
                e,
                #[trigger] r.vulnerabilities[i],
            )) && (min is None || v.exploit.epss is None || (!score::is_nan(v.exploit.epss->0)
            && !score::is_nan(min->0) && score::level(v.exploit.epss->0) >= score::level(min->0))),
        by_risk(probable(with_signals(r, e), min)).warnings == r.warnings,
        by_risk(probable(with_signals(r, e), min)).outcomes == r.outcomes,
{
    let given = with_signals(r, e);
    let f = |x: VulnFindingM| enrich::enriched(e, x);
    assert(given.vulnerabilities == r.vulnerabilities.map_values(f));
    let left = probable(given, min);
    enrich::ranking_keeps_findings(left.vulnerabilities);
    assert(by_risk(left).vulnerabilities.contains(v) == left.vulnerabilities.contains(v));
    if given.vulnerabilities.contains(v) {
        let i = choose|i: int|
            0 <= i < given.vulnerabilities.len() && given.vulnerabilities[i] == v;
        assert(v == enrich::enriched(e, r.vulnerabilities[i]));
    }
    if exists|i: int|
        0 <= i < r.vulnerabilities.len() && v == enrich::enriched(e, #[trigger] r.vulnerabilities[i]) {
        let i = choose|i: int|
            0 <= i < r.vulnerabilities.len() && v == enrich::enriched(
                e,
                #[trigger] r.vulnerabilities[i],
            );
        assert(given.vulnerabilities[i] == v);
        assert(given.vulnerabilities.contains(v));
    }
    if let Some(m) = min {
        let p = assemble::likely(m);
        assert(left.vulnerabilities == given.vulnerabilities.filter(p));
        if left.vulnerabilities.contains(v) {
            given.vulnerabilities.lemma_filter_contains_rev(p, v);
            let j = choose|j: int|
                0 <= j < left.vulnerabilities.len() && left.vulnerabilities[j] == v;
            given.vulnerabilities.lemma_filter_pred(p, j);
        }
        if given.vulnerabilities.contains(v) && p(v) {
            let i = choose|i: int|
                0 <= i < given.vulnerabilities.len() && given.vulnerabilities[i] == v;
            given.vulnerabilities.lemma_filter_contains(p, i);
        }
    }
}

} // verus!
