//! The course of one scan from beginning to end: what is waited for, and what each answer leads
//! to. Whoever runs a scan does what is waited for and hands back what came of it.
use vstd::prelude::*;
use crate::assemble;
use crate::assemble::{SuppressedOccurrence, SuppressedOccurrenceM};
use crate::cli;
use crate::cli::{Format, ReachMode, SeverityArg};
use crate::config::{Config, ConfigM};
use crate::correlate;
use crate::enrich::{Enrichment, EnrichmentM};
use crate::finding::VulnFindingM;
use crate::npm_reach::{RepoImports, RepoImportsM};
use crate::orchestrate::{ScanData, ScanDataM};
use crate::reach::{RepoSource, RepoSourceM};
use crate::report::{FleetReport, FleetReportM, Provenance, ProvenanceM};
use crate::scan;
use crate::scan::{ScanFlags, SignalSource, VexArgs};
use crate::score::Score;
use crate::severity::Severity;
use crate::static_reach;
use crate::static_reach::{RepoOutcome, RepoOutcomeM};
use crate::text;
use crate::textmap::TextMap;
use crate::vex;
use crate::vex::{HumanAssertion, HumanAssertionM, VexParams, VexParamsM};

verus! {

/// What a scan is asked for.
#[derive(Debug)]
pub struct Request {
    pub flags: ScanFlags,
    /// The one advisory to explain, in place of a scan.
    pub explain: Option<String>,
    /// The package whose ways into the fleet are asked about, in place of a scan.
    pub why: Option<String>,
    /// Whether the database may be too old.
    pub limits_age: bool,
    /// Whether there is an earlier report.
    pub has_baseline: bool,
    pub format: Format,
    pub vex: VexArgs,
}

/// What goes into a document besides the report.
#[derive(Debug)]
pub enum Paper {
    Plain,
    Sarif(Vec<HumanAssertion>),
    Vex(VexParams),
}

/// What a [`Paper`] stands for.
#[verifier::ext_equal]
pub enum PaperM {
    Plain,
    Sarif(Seq<HumanAssertionM>),
    Vex(VexParamsM),
}

impl DeepView for Paper {
    type V = PaperM;

    open spec fn deep_view(&self) -> PaperM {
        match self {
            Paper::Plain => PaperM::Plain,
            Paper::Sarif(a) => PaperM::Sarif(a.deep_view()),
            Paper::Vex(p) => PaperM::Vex(p.deep_view()),
        }
    }
}

/// How far a scan has come: each state waits for one kind of answer.
#[derive(Debug)]
pub enum Run {
    /// Waits for the advisory to be looked up and shown.
    Explaining,
    /// Waits for the configuration.
    Configuring,
    /// Waits for the ways of the package to be shown.
    Routing { config: Config },
    /// Waits for the advisory database.
    Opening { config: Config },
    /// Waits for the age of the database to be checked.
    Aging { config: Config },
    /// Waits for the fleet to be scanned.
    Scanning { config: Config },
    /// Waits for the signals of exploitation.
    Signalling {
        config: Config,
        report: FleetReport,
        suppressed: Vec<SuppressedOccurrence>,
    },
    /// Waits for the source, or for every repository to be built and analyzed.
    Judging {
        config: Config,
        report: FleetReport,
        suppressed: Vec<SuppressedOccurrence>,
        mode: ReachMode,
    },
    /// Waits for the earlier report.
    Comparing {
        config: Config,
        report: FleetReport,
        suppressed: Vec<SuppressedOccurrence>,
    },
    /// Waits for the package URL of every repository.
    Naming {
        config: Config,
        report: FleetReport,
        suppressed: Vec<SuppressedOccurrence>,
        new: bool,
    },
    /// Waits for the report to be written.
    Writing { report: FleetReport, paper: Paper, new: bool },
    /// Waits for nothing any more.
    Done { code: u8 },
}

/// What a [`Run`] stands for.
#[verifier::ext_equal]
pub enum RunM {
    Explaining,
    Configuring,
    Routing { config: ConfigM },
    Opening { config: ConfigM },
    Aging { config: ConfigM },
    Scanning { config: ConfigM },
    Signalling { config: ConfigM, report: FleetReportM, suppressed: Seq<SuppressedOccurrenceM> },
    Judging {
        config: ConfigM,
        report: FleetReportM,
        suppressed: Seq<SuppressedOccurrenceM>,
        mode: ReachMode,
    },
    Comparing { config: ConfigM, report: FleetReportM, suppressed: Seq<SuppressedOccurrenceM> },
    Naming {
        config: ConfigM,
        report: FleetReportM,
        suppressed: Seq<SuppressedOccurrenceM>,
        new: bool,
    },
    Writing { report: FleetReportM, paper: PaperM, new: bool },
    Done { code: u8 },
}

impl DeepView for Run {
    type V = RunM;

    open spec fn deep_view(&self) -> RunM {
        match self {
            Run::Explaining => RunM::Explaining,
            Run::Configuring => RunM::Configuring,
            Run::Routing { config } => RunM::Routing { config: config.deep_view() },
            Run::Opening { config } => RunM::Opening { config: config.deep_view() },
            Run::Aging { config } => RunM::Aging { config: config.deep_view() },
            Run::Scanning { config } => RunM::Scanning { config: config.deep_view() },
            Run::Signalling { config, report, suppressed } => RunM::Signalling {
                config: config.deep_view(),
                report: report.deep_view(),
                suppressed: suppressed.deep_view(),
            },
            Run::Judging { config, report, suppressed, mode } => RunM::Judging {
                config: config.deep_view(),
                report: report.deep_view(),
                suppressed: suppressed.deep_view(),
                mode: *mode,
            },
            Run::Comparing { config, report, suppressed } => RunM::Comparing {
                config: config.deep_view(),
                report: report.deep_view(),
                suppressed: suppressed.deep_view(),
            },
            Run::Naming { config, report, suppressed, new } => RunM::Naming {
                config: config.deep_view(),
                report: report.deep_view(),
                suppressed: suppressed.deep_view(),
                new: *new,
            },
            Run::Writing { report, paper, new } => RunM::Writing {
                report: report.deep_view(),
                paper: paper.deep_view(),
                new: *new,
            },
            Run::Done { code } => RunM::Done { code: *code },
        }
    }
}

/// What came of what was waited for.
#[derive(Debug)]
pub enum Event {
    /// Whether the advisory is in the database.
    Explained(Result<bool, String>),
    ConfigRead(Result<Config, String>),
    /// Whether the package is in any tree.
    RoutesShown(bool),
    DbOpened(Result<(), String>),
    AgeChecked(Result<(), String>),
    Scanned { scan: ScanData, provenance: Provenance },
    SignalsRead(Result<Enrichment, String>),
    SourcesRead { sources: Vec<RepoSource>, imports: Vec<RepoImports> },
    Analyzed { outcomes: TextMap<RepoOutcome>, engine: String, host: String },
    BaselineRead(Result<Vec<String>, String>),
    ManifestsRead(Vec<Option<String>>),
    Written(Result<(), String>),
}

/// What an [`Event`] stands for.
#[verifier::ext_equal]
pub enum EventM {
    Explained(Result<bool, Seq<char>>),
    ConfigRead(Result<ConfigM, Seq<char>>),
    RoutesShown(bool),
    DbOpened(Result<(), Seq<char>>),
    AgeChecked(Result<(), Seq<char>>),
    Scanned { scan: ScanDataM, provenance: ProvenanceM },
    SignalsRead(Result<EnrichmentM, Seq<char>>),
    SourcesRead { sources: Seq<RepoSourceM>, imports: Seq<RepoImportsM> },
    Analyzed { outcomes: Map<Seq<char>, RepoOutcomeM>, engine: Seq<char>, host: Seq<char> },
    BaselineRead(Result<Seq<Seq<char>>, Seq<char>>),
    ManifestsRead(Seq<Option<Seq<char>>>),
    Written(Result<(), Seq<char>>),
}

pub open spec fn result_of<T: DeepView>(r: Result<T, String>) -> Result<T::V, Seq<char>> {
    match r {
        Ok(x) => Ok(x.deep_view()),
        Err(e) => Err(e@),
    }
}

pub open spec fn plain_result<T>(r: Result<T, String>) -> Result<T, Seq<char>> {
    match r {
        Ok(x) => Ok(x),
        Err(e) => Err(e@),
    }
}

impl DeepView for Event {
    type V = EventM;

    open spec fn deep_view(&self) -> EventM {
        match self {
            Event::Explained(r) => EventM::Explained(plain_result(*r)),
            Event::ConfigRead(r) => EventM::ConfigRead(result_of(*r)),
            Event::RoutesShown(found) => EventM::RoutesShown(*found),
            Event::DbOpened(r) => EventM::DbOpened(plain_result(*r)),
            Event::AgeChecked(r) => EventM::AgeChecked(plain_result(*r)),
            Event::Scanned { scan, provenance } => EventM::Scanned {
                scan: scan.deep_view(),
                provenance: provenance.deep_view(),
            },
            Event::SignalsRead(r) => EventM::SignalsRead(result_of(*r)),
            Event::SourcesRead { sources, imports } => EventM::SourcesRead {
                sources: sources.deep_view(),
                imports: imports.deep_view(),
            },
            Event::Analyzed { outcomes, engine, host } => EventM::Analyzed {
                outcomes: outcomes.deep_view(),
                engine: engine@,
                host: host@,
            },
            Event::BaselineRead(r) => EventM::BaselineRead(result_of(*r)),
            Event::ManifestsRead(purls) => EventM::ManifestsRead(purls.deep_view()),
            Event::Written(r) => EventM::Written(plain_result(*r)),
        }
    }
}

/// Something to be said on the way.
#[derive(Debug)]
pub enum Said {
    Line(String),
    /// The findings that were dropped for being too improbable.
    Filtered(Vec<(String, Score)>),
}

/// What a [`Said`] stands for.
#[verifier::ext_equal]
pub enum SaidM {
    Line(Seq<char>),
    Filtered(Seq<(Seq<char>, Score)>),
}

impl DeepView for Said {
    type V = SaidM;

    open spec fn deep_view(&self) -> SaidM {
        match self {
            Said::Line(t) => SaidM::Line(t@),
            Said::Filtered(v) => SaidM::Filtered(v.deep_view()),
        }
    }
}

/// Where a scan gets to, and what is said on the way.
pub type Course = (RunM, Seq<SaidM>);

/// A course after something else was said.
pub open spec fn having_said(said: Seq<SaidM>, c: Course) -> Course {
    (c.0, said + c.1)
}

pub open spec fn line_of(t: Option<Seq<char>>) -> Seq<SaidM> {
    match t {
        Some(t) => seq![SaidM::Line(t)],
        None => Seq::empty(),
    }
}

/// The end of a scan that could not be done.
pub open spec fn failed(reason: Seq<char>) -> Course {
    (RunM::Done { code: cli::COULD_NOT_SCAN }, seq![SaidM::Line("error: "@ + reason)])
}

/// The end of a scan that was asked for in a wrong way.
pub open spec fn misused(reason: Seq<char>) -> Course {
    (RunM::Done { code: cli::WRONG_USAGE }, seq![SaidM::Line("error: "@ + reason)])
}

/// Where a scan begins: an advisory to explain needs no configuration.
pub open spec fn start_of(q: Request) -> RunM {
    if q.explain is Some {
        RunM::Explaining
    } else {
        RunM::Configuring
    }
}

/// The document needs to know the repositories by package URL.
pub open spec fn names_products(f: Format) -> bool {
    f == Format::Sarif || f == Format::Vex
}

/// What follows once it is settled what is in the report.
#[verifier::opaque]
pub open spec fn settled(
    q: Request,
    c: ConfigM,
    r: FleetReportM,
    s: Seq<SuppressedOccurrenceM>,
    new: bool,
) -> Course {
    if names_products(q.format) {
        (RunM::Naming { config: c, report: r, suppressed: s, new }, Seq::empty())
    } else {
        (RunM::Writing { report: r, paper: PaperM::Plain, new }, Seq::empty())
    }
}

/// What follows once reachability is dealt with.
#[verifier::opaque]
pub open spec fn compared(
    q: Request,
    c: ConfigM,
    r: FleetReportM,
    s: Seq<SuppressedOccurrenceM>,
) -> Course {
    if q.has_baseline {
        (RunM::Comparing { config: c, report: r, suppressed: s }, Seq::empty())
    } else {
        settled(q, c, r, s, false)
    }
}

/// What follows once every vulnerability is judged.
#[verifier::opaque]
pub open spec fn judged(
    q: Request,
    c: ConfigM,
    r: FleetReportM,
    s: Seq<SuppressedOccurrenceM>,
    mode: ReachMode,
) -> Course {
    let kept = scan::reached_only(r, q.flags);
    having_said(
        line_of(
            scan::unreachable_text(
                mode,
                (r.vulnerabilities.len() - kept.vulnerabilities.len()) as nat,
                q.flags.quiet,
            ),
        ),
        compared(q, c, kept, s),
    )
}

/// What follows once the signals are dealt with.
#[verifier::opaque]
pub open spec fn signalled(
    q: Request,
    c: ConfigM,
    r: FleetReportM,
    s: Seq<SuppressedOccurrenceM>,
) -> Course {
    match scan::mode_of(q.flags) {
        None => compared(q, c, r, s),
        Some(mode) => match scan::refused(q.flags) {
            Some(e) => failed(e),
            None => (
                RunM::Judging { config: c, report: r, suppressed: s, mode },
                if mode == ReachMode::Static {
                    seq![SaidM::Line(scan::build_text(c.repos.len(), q.flags.build_sandbox))]
                } else {
                    Seq::empty()
                },
            ),
        },
    }
}

/// What follows once the signals are there.
#[verifier::opaque]
pub open spec fn enriched(
    q: Request,
    c: ConfigM,
    r: FleetReportM,
    s: Seq<SuppressedOccurrenceM>,
    e: EnrichmentM,
) -> Course {
    let dropped = scan::improbable(r, e, q.flags.min_epss);
    having_said(
        if dropped.len() > 0 && !q.flags.quiet {
            seq![SaidM::Filtered(dropped)]
        } else {
            Seq::empty()
        },
        signalled(
            q,
            c,
            scan::by_risk(scan::probable(scan::with_signals(r, e), q.flags.min_epss)),
            s,
        ),
    )
}

/// What follows where there are no signals though they were wanted: the scan goes on.
#[verifier::opaque]
pub open spec fn unenriched(
    q: Request,
    c: ConfigM,
    r: FleetReportM,
    s: Seq<SuppressedOccurrenceM>,
    reason: Seq<char>,
) -> Course {
    having_said(
        seq![SaidM::Line("warning: enrichment failed: "@ + reason)],
        signalled(q, c, r, s),
    )
}

/// What follows once the report is put together.
#[verifier::opaque]
pub open spec fn gathered(
    q: Request,
    c: ConfigM,
    r: FleetReportM,
    s: Seq<SuppressedOccurrenceM>,
) -> Course {
    if r.vulnerabilities.len() + r.warnings.len() > usize::MAX {
        failed("too many findings"@)
    } else {
        let kept = scan::built_only(r, q.flags);
        having_said(
            line_of(scan::unbuilt_text(scan::fewer(r, kept) as nat, q.flags.quiet)),
            match scan::signals_from(q.flags) {
                SignalSource::Unasked => signalled(q, c, kept, s),
                SignalSource::Refused => unenriched(q, c, kept, s, scan::offline_text()),
                _ => (
                    RunM::Signalling { config: c, report: kept, suppressed: s },
                    Seq::empty(),
                ),
            },
        )
    }
}

/// What follows once the fleet is scanned.
#[verifier::opaque]
pub open spec fn scanned(q: Request, c: ConfigM, d: ScanDataM, p: ProvenanceM) -> Course {
    having_said(
        line_of(scan::skipped_text(d.skipped_unparseable as nat)),
        gathered(
            q,
            c,
            assemble::report_of(
                d,
                vex::suppressions_in(c),
                scan::threshold(q.flags.min_severity),
                p,
            ),
            assemble::all_suppressed(
                vex::suppressions_in(c),
                correlate::correlated_vulns(d.vulnerabilities),
            ),
        ),
    )
}

pub open spec fn nudge_text(id: Seq<char>) -> Seq<char> {
    "warning: vex suppression for "@ + id
        + " uses a free-text reason; prefer a `justification` label for machine consumers"@
}

/// What follows once the products have names.
#[verifier::opaque]
pub open spec fn named(
    q: Request,
    c: ConfigM,
    r: FleetReportM,
    s: Seq<SuppressedOccurrenceM>,
    new: bool,
    purls: Seq<Option<Seq<char>>>,
) -> Course {
    let ids = vex::product_ids(c.repos, purls, c.vex.product_id_base);
    if q.format == Format::Vex {
        match scan::lacking(q.vex, c, r) {
            Some(e) => misused(e),
            None => (
                RunM::Writing {
                    report: r,
                    paper: PaperM::Vex(scan::params_of(q.vex, c, r, s, purls)),
                    new,
                },
                scan::nudges_of(q.vex, c, s, purls).map_values(
                    |id: Seq<char>| SaidM::Line(nudge_text(id)),
                ),
            ),
        }
    } else {
        (
            RunM::Writing {
                report: r,
                paper: PaperM::Sarif(vex::assertions_for(s, ids)),
                new,
            },
            Seq::empty(),
        )
    }
}

/// Why the report could not be written.
pub open spec fn unwritten(f: Format, reason: Seq<char>) -> Seq<char> {
    match cli::payload_name(f) {
        Some(name) => "serializing "@ + name + ": "@ + reason,
        None => reason,
    }
}

/// What follows once the question why a package is there has been answered.
pub open spec fn routed(package: Seq<char>, found: bool) -> Course {
    if found {
        (RunM::Done { code: 0 }, Seq::empty())
    } else {
        (
            RunM::Done { code: cli::COULD_NOT_SCAN },
            seq![SaidM::Line("`"@ + package + "` is not in any repo's dependency tree"@)],
        )
    }
}

pub open spec fn or_empty(t: Option<Seq<char>>) -> Seq<char> {
    match t {
        Some(s) => s,
        None => Seq::empty(),
    }
}

/// A state that got an answer which it does not wait for.
pub open spec fn unmoved(run: RunM) -> Course {
    (run, Seq::empty())
}

pub open spec fn after_explaining(q: Request, run: RunM, event: EventM) -> Course {
    match event {
        EventM::Explained(Ok(found)) => if found {
            (RunM::Done { code: 0 }, Seq::empty())
        } else {
            failed("advisory "@ + or_empty(q.explain.deep_view()) + " not found in the database"@)
        },
        EventM::Explained(Err(e)) => failed(e),
        _ => unmoved(run),
    }
}

pub open spec fn after_configuring(q: Request, run: RunM, event: EventM) -> Course {
    match event {
        EventM::ConfigRead(Ok(config)) => if q.why is Some {
            (RunM::Routing { config }, Seq::empty())
        } else {
            (RunM::Opening { config }, Seq::empty())
        },
        EventM::ConfigRead(Err(e)) => failed(e),
        _ => unmoved(run),
    }
}

pub open spec fn after_opening(q: Request, run: RunM, config: ConfigM, event: EventM) -> Course {
    match event {
        EventM::DbOpened(Ok(_)) => if q.limits_age {
            (RunM::Aging { config }, Seq::empty())
        } else {
            (RunM::Scanning { config }, Seq::empty())
        },
        EventM::DbOpened(Err(e)) => failed(e),
        _ => unmoved(run),
    }
}

pub open spec fn after_aging(run: RunM, config: ConfigM, event: EventM) -> Course {
    match event {
        EventM::AgeChecked(Ok(_)) => (RunM::Scanning { config }, Seq::empty()),
        EventM::AgeChecked(Err(e)) => failed(e),
        _ => unmoved(run),
    }
}

pub open spec fn after_judging(
    q: Request,
    run: RunM,
    c: ConfigM,
    r: FleetReportM,
    s: Seq<SuppressedOccurrenceM>,
    mode: ReachMode,
    event: EventM,
) -> Course {
    match (mode, event) {
        (ReachMode::Heuristic, EventM::SourcesRead { sources, imports }) => judged(
            q,
            c,
            scan::by_source(r, sources, imports, q.flags.npm_prune_unreachable),
            s,
            mode,
        ),
        (ReachMode::Static, EventM::Analyzed { outcomes, engine, host }) => judged(
            q,
            c,
            static_reach::analyzed(r, outcomes, engine, host),
            s,
            mode,
        ),
        _ => unmoved(run),
    }
}

pub open spec fn after_comparing(
    q: Request,
    run: RunM,
    c: ConfigM,
    r: FleetReportM,
    s: Seq<SuppressedOccurrenceM>,
    event: EventM,
) -> Course {
    match event {
        EventM::BaselineRead(Ok(ids)) => {
            let kept = assemble::new_since(r, ids);
            settled(
                q,
                c,
                kept,
                s,
                kept.vulnerabilities.len() > 0 || kept.warnings.len() > 0,
            )
        },
        EventM::BaselineRead(Err(e)) => failed(e),
        _ => unmoved(run),
    }
}

pub open spec fn after_writing(
    q: Request,
    run: RunM,
    r: FleetReportM,
    new: bool,
    event: EventM,
) -> Course {
    match event {
        EventM::Written(Ok(_)) => (
            RunM::Done { code: scan::code_of(r, q.flags, new) },
            Seq::empty(),
        ),
        EventM::Written(Err(e)) => failed(unwritten(q.format, e)),
        _ => unmoved(run),
    }
}

/// What an answer leads to. One that was not waited for changes nothing.
pub open spec fn next_of(q: Request, run: RunM, event: EventM) -> Course {
    match run {
        RunM::Explaining => after_explaining(q, run, event),
        RunM::Configuring => after_configuring(q, run, event),
        RunM::Routing { .. } => match event {
            EventM::RoutesShown(found) => routed(or_empty(q.why.deep_view()), found),
            _ => unmoved(run),
        },
        RunM::Opening { config } => after_opening(q, run, config, event),
        RunM::Aging { config } => after_aging(run, config, event),
        RunM::Scanning { config } => match event {
            EventM::Scanned { scan, provenance } => scanned(q, config, scan, provenance),
            _ => unmoved(run),
        },
        RunM::Signalling { config, report, suppressed } => match event {
            EventM::SignalsRead(Ok(e)) => enriched(q, config, report, suppressed, e),
            EventM::SignalsRead(Err(e)) => unenriched(q, config, report, suppressed, e),
            _ => unmoved(run),
        },
        RunM::Judging { config, report, suppressed, mode } => after_judging(
            q,
            run,
            config,
            report,
            suppressed,
            mode,
            event,
        ),
        RunM::Comparing { config, report, suppressed } => after_comparing(
            q,
            run,
            config,
            report,
            suppressed,
            event,
        ),
        RunM::Naming { config, report, suppressed, new } => match event {
            EventM::ManifestsRead(purls) => if purls.len() == config.repos.len() {
                named(q, config, report, suppressed, new, purls)
            } else {
                unmoved(run)
            },
            _ => unmoved(run),
        },
        RunM::Writing { report, new, .. } => after_writing(q, run, report, new, event),
        RunM::Done { .. } => unmoved(run),
    }
}

/// Where a scan begins.
pub fn start(q: &Request) -> (r: Run)
    ensures
        r.deep_view() == start_of(*q),
{
    if q.explain.is_some() {
        Run::Explaining
    } else {
        Run::Configuring
    }
}

fn nothing_said() -> (r: Vec<Said>)
    ensures
        r.deep_view() == Seq::<SaidM>::empty(),
{
    let r: Vec<Said> = Vec::new();
    assert(r.deep_view() =~= Seq::empty());
    r
}

fn say(said: Vec<Said>, line: Said) -> (r: Vec<Said>)
    ensures
        r.deep_view() == said.deep_view().push(line.deep_view()),
{
    let mut r = said;
    let ghost before = r.deep_view();
    r.push(line);
    assert(r.deep_view() =~= before.push(line.deep_view()));
    r
}

fn say_if(said: Vec<Said>, line: Option<String>) -> (r: Vec<Said>)
    ensures
        r.deep_view() == said.deep_view() + line_of(line.deep_view()),
{
    match line {
        Some(t) => {
            let r = say(said, Said::Line(t));
            assert(r.deep_view() =~= said.deep_view() + line_of(line.deep_view()));
            r
        },
        None => {
            assert(said.deep_view() =~= said.deep_view() + line_of(line.deep_view()));
            said
        },
    }
}

fn give_up(said: Vec<Said>, reason: &str) -> (r: (Run, Vec<Said>))
    ensures
        (r.0.deep_view(), r.1.deep_view()) == having_said(said.deep_view(), failed(reason@)),
{
    let line = text::join("error: ", reason);
    let out = say(said, Said::Line(line));
    assert(out.deep_view() =~= said.deep_view() + failed(reason@).1);
    (Run::Done { code: cli::COULD_NOT_SCAN }, out)
}

fn settle(
    q: &Request,
    config: Config,
    report: FleetReport,
    suppressed: Vec<SuppressedOccurrence>,
    new: bool,
    said: Vec<Said>,
) -> (r: (Run, Vec<Said>))
    ensures
        (r.0.deep_view(), r.1.deep_view()) == having_said(
            said.deep_view(),
            settled(*q, config.deep_view(), report.deep_view(), suppressed.deep_view(), new),
        ),
{
    proof {
        reveal(settled);
    }
    assert(said.deep_view() =~= said.deep_view() + Seq::<SaidM>::empty());
    match q.format {
        Format::Sarif | Format::Vex => (Run::Naming { config, report, suppressed, new }, said),
        _ => (Run::Writing { report, paper: Paper::Plain, new }, said),
    }
}

fn compare(
    q: &Request,
    config: Config,
    report: FleetReport,
    suppressed: Vec<SuppressedOccurrence>,
    said: Vec<Said>,
) -> (r: (Run, Vec<Said>))
    ensures
        (r.0.deep_view(), r.1.deep_view()) == having_said(
            said.deep_view(),
            compared(*q, config.deep_view(), report.deep_view(), suppressed.deep_view()),
        ),
{
    proof {
        reveal(compared);
    }
    if q.has_baseline {
        assert(said.deep_view() =~= said.deep_view() + Seq::<SaidM>::empty());
        (Run::Comparing { config, report, suppressed }, said)
    } else {
        settle(q, config, report, suppressed, false, said)
    }
}

fn judge(
    q: &Request,
    config: Config,
    report: FleetReport,
    suppressed: Vec<SuppressedOccurrence>,
    mode: ReachMode,
) -> (r: (Run, Vec<Said>))
    ensures
        (r.0.deep_view(), r.1.deep_view()) == judged(
            *q,
            config.deep_view(),
            report.deep_view(),
            suppressed.deep_view(),
            mode,
        ),
{
    proof {
        reveal(judged);
    }
    let mut report = report;
    let dropped: usize = scan::drop_unreachable(&mut report, &q.flags);
    let note = scan::unreachable_note(mode, dropped, q.flags.quiet);
    let said = say_if(nothing_said(), note);
    assert(said.deep_view() =~= line_of(note.deep_view()));
    compare(q, config, report, suppressed, said)
}

fn signal(
    q: &Request,
    config: Config,
    report: FleetReport,
    suppressed: Vec<SuppressedOccurrence>,
    said: Vec<Said>,
) -> (r: (Run, Vec<Said>))
    ensures
        (r.0.deep_view(), r.1.deep_view()) == having_said(
            said.deep_view(),
            signalled(*q, config.deep_view(), report.deep_view(), suppressed.deep_view()),
        ),
{
    proof {
        reveal(signalled);
    }
    match scan::reach_mode(&q.flags) {
        None => compare(q, config, report, suppressed, said),
        Some(mode) => match scan::static_refusal(&q.flags) {
            Some(e) => give_up(said, e.as_str()),
            None => {
                let repos: usize = config.repos.len();
                assert(config.deep_view().repos.len() == repos);
                let out = match mode {
                    ReachMode::Static => {
                        let line = scan::build_warning(repos, q.flags.build_sandbox);
                        let out = say(said, Said::Line(line));
                        assert(out.deep_view() =~= said.deep_view() + seq![SaidM::Line(line@)]);
                        out
                    },
                    ReachMode::Heuristic => {
                        assert(said.deep_view() =~= said.deep_view() + Seq::<SaidM>::empty());
                        said
                    },
                };
                (Run::Judging { config, report, suppressed, mode }, out)
            },
        },
    }
}

fn do_without(
    q: &Request,
    config: Config,
    report: FleetReport,
    suppressed: Vec<SuppressedOccurrence>,
    reason: &str,
    said: Vec<Said>,
) -> (r: (Run, Vec<Said>))
    ensures
        (r.0.deep_view(), r.1.deep_view()) == having_said(
            said.deep_view(),
            unenriched(
                *q,
                config.deep_view(),
                report.deep_view(),
                suppressed.deep_view(),
                reason@,
            ),
        ),
{
    proof {
        reveal(unenriched);
    }
    let line = text::join("warning: enrichment failed: ", reason);
    let more = say(said, Said::Line(line));
    let r = signal(q, config, report, suppressed, more);
    proof {
        let c = signalled(*q, config.deep_view(), report.deep_view(), suppressed.deep_view());
        assert(said.deep_view().push(SaidM::Line(line@)) + c.1 =~= said.deep_view() + (seq![
            SaidM::Line(line@),
        ] + c.1));
    }
    r
}

fn enrich(
    q: &Request,
    config: Config,
    report: FleetReport,
    suppressed: Vec<SuppressedOccurrence>,
    signals: &Enrichment,
) -> (r: (Run, Vec<Said>))
    ensures
        (r.0.deep_view(), r.1.deep_view()) == enriched(
            *q,
            config.deep_view(),
            report.deep_view(),
            suppressed.deep_view(),
            signals.deep_view(),
        ),
{
    proof {
        reveal(enriched);
    }
    let mut report = report;
    let dropped: Vec<(String, Score)> = scan::add_signals(&mut report, signals, q.flags.min_epss);
    assert(dropped.deep_view().len() == dropped.len());
    let said: Vec<Said> = if dropped.len() > 0 && !q.flags.quiet {
        let said = say(nothing_said(), Said::Filtered(dropped));
        assert(said.deep_view() =~= seq![SaidM::Filtered(dropped.deep_view())]);
        said
    } else {
        nothing_said()
    };
    signal(q, config, report, suppressed, said)
}

fn finish_scan(q: &Request, config: Config, data: ScanData, provenance: Provenance) -> (r: (
    Run,
    Vec<Said>,
))
    ensures
        (r.0.deep_view(), r.1.deep_view()) == scanned(
            *q,
            config.deep_view(),
            data.deep_view(),
            provenance.deep_view(),
        ),
{
    proof {
        reveal(scanned);
        reveal(gathered);
    }
    let skipped: u32 = data.skipped_unparseable;
    let note = scan::skipped_note(skipped);
    let said = say_if(nothing_said(), note);
    let ghost first = line_of(note.deep_view());
    assert(said.deep_view() =~= first);
    let a = scan::gather(data, &config, &q.flags, provenance);
    let mut report = a.report;
    let suppressed = a.suppressed;
    let ghost all = report.deep_view();
    assert(all.vulnerabilities.len() == report.vulnerabilities.len());
    assert(all.warnings.len() == report.warnings.len());
    if report.vulnerabilities.len() > usize::MAX - report.warnings.len() {
        return give_up(said, "too many findings");
    }
    let dropped: usize = scan::drop_unbuilt(&mut report, &q.flags);
    let note = scan::unbuilt_note(dropped, q.flags.quiet);
    let said = say_if(said, note);
    let ghost second = line_of(note.deep_view());
    assert(said.deep_view() =~= first + second);
    match scan::signal_source(&q.flags) {
        SignalSource::Unasked => {
            let r = signal(q, config, report, suppressed, said);
            proof {
                let c = signalled(
                    *q,
                    config.deep_view(),
                    report.deep_view(),
                    suppressed.deep_view(),
                );
                assert(first + second + c.1 =~= first + (second + c.1));
            }
            r
        },
        SignalSource::Refused => {
            let why = scan::offline_signals();
            let r = do_without(q, config, report, suppressed, why.as_str(), said);
            proof {
                let c = unenriched(
                    *q,
                    config.deep_view(),
                    report.deep_view(),
                    suppressed.deep_view(),
                    why@,
                );
                assert(first + second + c.1 =~= first + (second + c.1));
            }
            r
        },
        _ => {
            assert(said.deep_view() =~= first + (second + Seq::<SaidM>::empty()));
            (Run::Signalling { config, report, suppressed }, said)
        },
    }
}

fn nudge(ids: &Vec<String>) -> (r: Vec<Said>)
    ensures
        r.deep_view() == ids.deep_view().map_values(
            |id: Seq<char>| SaidM::Line(nudge_text(id)),
        ),
{
    let ghost want = ids.deep_view().map_values(|id: Seq<char>| SaidM::Line(nudge_text(id)));
    let mut r: Vec<Said> = nothing_said();
    let mut i: usize = 0;
    assert(want.take(0) =~= Seq::empty());
    while i < ids.len()
        invariant
            i <= ids.len(),
            want == ids.deep_view().map_values(|id: Seq<char>| SaidM::Line(nudge_text(id))),
            r.deep_view() == want.take(i as int),
        decreases ids.len() - i,
    {
        let t = text::join("warning: vex suppression for ", ids[i].as_str());
        let t = text::join(
            t.as_str(),
            " uses a free-text reason; prefer a `justification` label for machine consumers",
        );
        r = say(r, Said::Line(t));
        proof {
            assert(want[i as int] == SaidM::Line(t@));
            assert(want.take(i + 1) =~= want.take(i as int).push(want[i as int]));
        }
        i += 1;
    }
    assert(want.take(i as int) =~= want);
    r
}

fn name(
    q: &Request,
    config: Config,
    report: FleetReport,
    suppressed: Vec<SuppressedOccurrence>,
    new: bool,
    purls: &Vec<Option<String>>,
) -> (r: (Run, Vec<Said>))
    requires
        purls.len() == config.repos.len(),
    ensures
        (r.0.deep_view(), r.1.deep_view()) == named(
            *q,
            config.deep_view(),
            report.deep_view(),
            suppressed.deep_view(),
            new,
            purls.deep_view(),
        ),
{
    proof {
        reveal(named);
    }
    match q.format {
        Format::Vex => match scan::build_vex_params(&q.vex, &config, &report, &suppressed, purls) {
            Ok((params, ids)) => {
                let said = nudge(&ids);
                (Run::Writing { report, paper: Paper::Vex(params), new }, said)
            },
            Err(e) => {
                let line = text::join("error: ", e.as_str());
                let said = say(nothing_said(), Said::Line(line));
                assert(said.deep_view() =~= misused(e@).1);
                (Run::Done { code: cli::WRONG_USAGE }, said)
            },
        },
        _ => {
            let product_ids: TextMap<String> = vex::resolve_product_ids(&config, purls);
            let (assertions, _): (Vec<HumanAssertion>, Vec<String>) = vex::build_human_assertions(
                &suppressed,
                &product_ids,
                false,
            );
            (Run::Writing { report, paper: Paper::Sarif(assertions), new }, nothing_said())
        },
    }
}

fn text_or_empty(t: &Option<String>) -> (r: String)
    ensures
        r@ == or_empty(t.deep_view()),
{
    match t {
        Some(s) => s.clone(),
        None => {
            let r = String::new();
            assert(r@ =~= Seq::empty());
            r
        },
    }
}

fn stop(reason: &str) -> (r: (Run, Vec<Said>))
    ensures
        (r.0.deep_view(), r.1.deep_view()) == failed(reason@),
{
    let r = give_up(nothing_said(), reason);
    assert(r.1.deep_view() =~= failed(reason@).1);
    r
}

fn next_explaining(q: &Request, event: Event) -> (r: (Run, Vec<Said>))
    ensures
        (r.0.deep_view(), r.1.deep_view()) == next_of(
            *q,
            RunM::Explaining,
            event.deep_view(),
        ),
{
    match event {
        Event::Explained(Ok(found)) => if found {
            (Run::Done { code: 0 }, nothing_said())
        } else {
            let id = text_or_empty(&q.explain);
            let t = text::join("advisory ", id.as_str());
            let t = text::join(t.as_str(), " not found in the database");
            stop(t.as_str())
        },
        Event::Explained(Err(e)) => stop(e.as_str()),
        _ => (Run::Explaining, nothing_said()),
    }
}

fn next_configuring(q: &Request, event: Event) -> (r: (Run, Vec<Said>))
    ensures
        (r.0.deep_view(), r.1.deep_view()) == next_of(
            *q,
            RunM::Configuring,
            event.deep_view(),
        ),
{
    match event {
        Event::ConfigRead(Ok(config)) => if q.why.is_some() {
            (Run::Routing { config }, nothing_said())
        } else {
            (Run::Opening { config }, nothing_said())
        },
        Event::ConfigRead(Err(e)) => stop(e.as_str()),
        _ => (Run::Configuring, nothing_said()),
    }
}

fn next_routing(q: &Request, config: Config, event: Event) -> (r: (Run, Vec<Said>))
    ensures
        (r.0.deep_view(), r.1.deep_view()) == next_of(
            *q,
            (RunM::Routing { config: config.deep_view() }),
            event.deep_view(),
        ),
{
    match event {
        Event::RoutesShown(found) => {
            let package = text_or_empty(&q.why);
            let (code, note) = scan::why_conclusion(found, package.as_str());
            let said = say_if(nothing_said(), note);
            assert(said.deep_view() =~= line_of(note.deep_view()));
            (Run::Done { code }, said)
        },
        _ => (Run::Routing { config }, nothing_said()),
    }
}

fn next_opening(q: &Request, config: Config, event: Event) -> (r: (Run, Vec<Said>))
    ensures
        (r.0.deep_view(), r.1.deep_view()) == next_of(
            *q,
            (RunM::Opening { config: config.deep_view() }),
            event.deep_view(),
        ),
{
    match event {
        Event::DbOpened(Ok(_)) => if q.limits_age {
            (Run::Aging { config }, nothing_said())
        } else {
            (Run::Scanning { config }, nothing_said())
        },
        Event::DbOpened(Err(e)) => stop(e.as_str()),
        _ => (Run::Opening { config }, nothing_said()),
    }
}

fn next_aging(q: &Request, config: Config, event: Event) -> (r: (Run, Vec<Said>))
    ensures
        (r.0.deep_view(), r.1.deep_view()) == next_of(
            *q,
            (RunM::Aging { config: config.deep_view() }),
            event.deep_view(),
        ),
{
    match event {
        Event::AgeChecked(Ok(_)) => (Run::Scanning { config }, nothing_said()),
        Event::AgeChecked(Err(e)) => stop(e.as_str()),
        _ => (Run::Aging { config }, nothing_said()),
    }
}

fn next_scanning(q: &Request, config: Config, event: Event) -> (r: (Run, Vec<Said>))
    ensures
        (r.0.deep_view(), r.1.deep_view()) == next_of(
            *q,
            (RunM::Scanning { config: config.deep_view() }),
            event.deep_view(),
        ),
{
    match event {
        Event::Scanned { scan, provenance } => finish_scan(q, config, scan, provenance),
        _ => (Run::Scanning { config }, nothing_said()),
    }
}

fn next_signalling(
    q: &Request,
    config: Config,
    report: FleetReport,
    suppressed: Vec<SuppressedOccurrence>,
    event: Event,
) -> (r: (Run, Vec<Said>))
    ensures
        (r.0.deep_view(), r.1.deep_view()) == next_of(
            *q,
            (RunM::Signalling {
                config: config.deep_view(),
                report: report.deep_view(),
                suppressed: suppressed.deep_view(),
            }),
            event.deep_view(),
        ),
{
    match event {
        Event::SignalsRead(Ok(signals)) => enrich(q, config, report, suppressed, &signals),
        Event::SignalsRead(Err(e)) => {
            let none = nothing_said();
            let r = do_without(q, config, report, suppressed, e.as_str(), none);
            assert(r.1.deep_view() =~= unenriched(
                *q,
                config.deep_view(),
                report.deep_view(),
                suppressed.deep_view(),
                e@,
            ).1);
            r
        },
        _ => (Run::Signalling { config, report, suppressed }, nothing_said()),
    }
}

fn next_judging(
    q: &Request,
    config: Config,
    report: FleetReport,
    suppressed: Vec<SuppressedOccurrence>,
    mode: ReachMode,
    event: Event,
) -> (r: (Run, Vec<Said>))
    ensures
        (r.0.deep_view(), r.1.deep_view()) == next_of(
            *q,
            (RunM::Judging {
                config: config.deep_view(),
                report: report.deep_view(),
                suppressed: suppressed.deep_view(),
                mode,
            }),
            event.deep_view(),
        ),
{
    match (mode, event) {
        (ReachMode::Heuristic, Event::SourcesRead { sources, imports }) => {
            let mut report = report;
            scan::assess_heuristic(&mut report, &sources, &imports, &q.flags);
            judge(q, config, report, suppressed, mode)
        },
        (ReachMode::Static, Event::Analyzed { outcomes, engine, host }) => {
            let mut report = report;
            static_reach::assess(&mut report, &outcomes, engine.as_str(), host.as_str());
            judge(q, config, report, suppressed, mode)
        },
        _ => (Run::Judging { config, report, suppressed, mode }, nothing_said()),
    }
}

fn next_comparing(
    q: &Request,
    config: Config,
    report: FleetReport,
    suppressed: Vec<SuppressedOccurrence>,
    event: Event,
) -> (r: (Run, Vec<Said>))
    ensures
        (r.0.deep_view(), r.1.deep_view()) == next_of(
            *q,
            (RunM::Comparing {
                config: config.deep_view(),
                report: report.deep_view(),
                suppressed: suppressed.deep_view(),
            }),
            event.deep_view(),
        ),
{
    match event {
        Event::BaselineRead(Ok(ids)) => {
            let mut report = report;
            let baseline: Option<Vec<String>> = Some(ids);
            let new: bool = scan::since_baseline(&mut report, &baseline);
            let none = nothing_said();
            let r = settle(q, config, report, suppressed, new, none);
            assert(r.1.deep_view() =~= settled(
                *q,
                config.deep_view(),
                report.deep_view(),
                suppressed.deep_view(),
                new,
            ).1);
            r
        },
        Event::BaselineRead(Err(e)) => stop(e.as_str()),
        _ => (Run::Comparing { config, report, suppressed }, nothing_said()),
    }
}

fn next_naming(
    q: &Request,
    config: Config,
    report: FleetReport,
    suppressed: Vec<SuppressedOccurrence>,
    new: bool,
    event: Event,
) -> (r: (Run, Vec<Said>))
    ensures
        (r.0.deep_view(), r.1.deep_view()) == next_of(
            *q,
            (RunM::Naming {
                config: config.deep_view(),
                report: report.deep_view(),
                suppressed: suppressed.deep_view(),
                new,
            }),
            event.deep_view(),
        ),
{
    match event {
        Event::ManifestsRead(purls) => {
            assert(purls.deep_view().len() == purls.len());
            assert(config.deep_view().repos.len() == config.repos.len());
            if purls.len() == config.repos.len() {
                name(q, config, report, suppressed, new, &purls)
            } else {
                (Run::Naming { config, report, suppressed, new }, nothing_said())
            }
        },
        _ => (Run::Naming { config, report, suppressed, new }, nothing_said()),
    }
}

fn next_writing(q: &Request, report: FleetReport, paper: Paper, new: bool, event: Event) -> (r: (
    Run,
    Vec<Said>,
))
    ensures
        (r.0.deep_view(), r.1.deep_view()) == next_of(
            *q,
            (RunM::Writing { report: report.deep_view(), paper: paper.deep_view(), new }),
            event.deep_view(),
        ),
{
    match event {
        Event::Written(Ok(_)) => (
            Run::Done { code: scan::scan_exit_code(&report, &q.flags, new) },
            nothing_said(),
        ),
        Event::Written(Err(e)) => match cli::render_error(q.format, e.as_str()) {
            Some(t) => stop(t.as_str()),
            None => stop(e.as_str()),
        },
        _ => (Run::Writing { report, paper, new }, nothing_said()),
    }
}

/// What an answer leads to, and what is to be said of it. One that was not waited for changes
/// nothing.
pub fn next(q: &Request, run: Run, event: Event) -> (r: (Run, Vec<Said>))
    ensures
        (r.0.deep_view(), r.1.deep_view()) == next_of(*q, run.deep_view(), event.deep_view()),
{
    match run {
        Run::Explaining => next_explaining(q, event),
        Run::Configuring => next_configuring(q, event),
        Run::Routing { config } => next_routing(q, config, event),
        Run::Opening { config } => next_opening(q, config, event),
        Run::Aging { config } => next_aging(q, config, event),
        Run::Scanning { config } => next_scanning(q, config, event),
        Run::Signalling { config, report, suppressed } => next_signalling(
            q,
            config,
            report,
            suppressed,
            event,
        ),
        Run::Judging { config, report, suppressed, mode } => next_judging(
            q,
            config,
            report,
            suppressed,
            mode,
            event,
        ),
        Run::Comparing { config, report, suppressed } => next_comparing(
            q,
            config,
            report,
            suppressed,
            event,
        ),
        Run::Naming { config, report, suppressed, new } => next_naming(
            q,
            config,
            report,
            suppressed,
            new,
            event,
        ),
        Run::Writing { report, paper, new } => next_writing(q, report, paper, new, event),
        Run::Done { code } => (Run::Done { code }, nothing_said()),
    }
}

// --- Laws ---

/// How many answers a scan can still wait for.
pub open spec fn steps_left(run: RunM) -> nat {
    match run {
        RunM::Explaining => 11,
        RunM::Configuring => 10,
        RunM::Routing { .. } => 9,
        RunM::Opening { .. } => 8,
        RunM::Aging { .. } => 7,
        RunM::Scanning { .. } => 6,
        RunM::Signalling { .. } => 5,
        RunM::Judging { .. } => 4,
        RunM::Comparing { .. } => 3,
        RunM::Naming { .. } => 2,
        RunM::Writing { .. } => 1,
        RunM::Done { .. } => 0,
    }
}

/// Whether an answer is the one that is waited for.
pub open spec fn awaited(run: RunM, event: EventM) -> bool {
    match run {
        RunM::Explaining => event is Explained,
        RunM::Configuring => event is ConfigRead,
        RunM::Routing { .. } => event is RoutesShown,
        RunM::Opening { .. } => event is DbOpened,
        RunM::Aging { .. } => event is AgeChecked,
        RunM::Scanning { .. } => event is Scanned,
        RunM::Signalling { .. } => event is SignalsRead,
        RunM::Judging { mode, .. } => if mode == ReachMode::Static {
            event is Analyzed
        } else {
            event is SourcesRead
        },
        RunM::Comparing { .. } => event is BaselineRead,
        RunM::Naming { config, .. } => event matches EventM::ManifestsRead(p) && p.len()
            == config.repos.len(),
        RunM::Writing { .. } => event is Written,
        RunM::Done { .. } => false,
    }
}

/// Every answer that is waited for brings a scan closer to its end, and any other leaves it
/// where it is: a scan ends after eleven answers at most.
pub proof fn every_scan_ends(q: Request, run: RunM, event: EventM)
    ensures
        awaited(run, event) ==> steps_left(next_of(q, run, event).0) < steps_left(run),
        !awaited(run, event) ==> next_of(q, run, event) == (run, Seq::<SaidM>::empty()),
{
    lemma_courses(q);
}

/// How far each part of a course gets at least.
proof fn lemma_courses(q: Request)
    ensures
        forall|c: ConfigM, r: FleetReportM, s: Seq<SuppressedOccurrenceM>, new: bool|
            steps_left((#[trigger] settled(q, c, r, s, new)).0) <= 2,
        forall|c: ConfigM, r: FleetReportM, s: Seq<SuppressedOccurrenceM>|
            steps_left((#[trigger] compared(q, c, r, s)).0) <= 3,
        forall|c: ConfigM, r: FleetReportM, s: Seq<SuppressedOccurrenceM>, mode: ReachMode|
            steps_left((#[trigger] judged(q, c, r, s, mode)).0) <= 3,
        forall|c: ConfigM, r: FleetReportM, s: Seq<SuppressedOccurrenceM>|
            steps_left((#[trigger] signalled(q, c, r, s)).0) <= 4,
        forall|c: ConfigM, r: FleetReportM, s: Seq<SuppressedOccurrenceM>, e: EnrichmentM|
            steps_left((#[trigger] enriched(q, c, r, s, e)).0) <= 4,
        forall|c: ConfigM, r: FleetReportM, s: Seq<SuppressedOccurrenceM>, e: Seq<char>|
            steps_left((#[trigger] unenriched(q, c, r, s, e)).0) <= 4,
        forall|c: ConfigM, r: FleetReportM, s: Seq<SuppressedOccurrenceM>|
            steps_left((#[trigger] gathered(q, c, r, s)).0) <= 5,
        forall|c: ConfigM, d: ScanDataM, p: ProvenanceM|
            steps_left((#[trigger] scanned(q, c, d, p)).0) <= 5,
        forall|
            c: ConfigM,
            r: FleetReportM,
            s: Seq<SuppressedOccurrenceM>,
            new: bool,
            purls: Seq<Option<Seq<char>>>,
        |
            steps_left((#[trigger] named(q, c, r, s, new, purls)).0) <= 1,
{
    reveal(settled);
    reveal(compared);
    reveal(judged);
    reveal(signalled);
    reveal(enriched);
    reveal(unenriched);
    reveal(gathered);
    reveal(scanned);
    reveal(named);
}

/// What failed outside.
pub open spec fn failure(event: EventM) -> Option<Seq<char>> {
    match event {
        EventM::Explained(Err(e)) => Some(e),
        EventM::ConfigRead(Err(e)) => Some(e),
        EventM::DbOpened(Err(e)) => Some(e),
        EventM::AgeChecked(Err(e)) => Some(e),
        EventM::BaselineRead(Err(e)) => Some(e),
        EventM::Written(Err(e)) => Some(e),
        _ => None,
    }
}

/// A scan that could not be done is never clean: whatever fails outside ends it with `2`, but
/// for the signals, without which it goes on.
pub proof fn failures_are_never_clean(q: Request, run: RunM, event: EventM)
    requires
        awaited(run, event),
        failure(event) is Some,
    ensures
        next_of(q, run, event).0 == (RunM::Done { code: 2 }),
        next_of(q, run, event).1.len() == 1,
{
}

/// Nothing is built without consent and a driver, and nothing before that was said.
#[verifier::spinoff_prover]
#[verifier::rlimit(80)]
pub proof fn building_needs_consent(q: Request, run: RunM, event: EventM)
    requires
        run !is Judging,
        next_of(q, run, event).0 matches RunM::Judging { mode: ReachMode::Static, .. },
    ensures
        q.flags.allow_untrusted_builds,
        q.flags.has_reach_driver,
        next_of(q, run, event).1.len() > 0,
{
    reveal(settled);
    reveal(compared);
    reveal(judged);
    reveal(signalled);
    reveal(enriched);
    reveal(unenriched);
    reveal(gathered);
    reveal(scanned);
    reveal(named);
}

/// An offline scan waits for signals only where they are in files.
#[verifier::spinoff_prover]
#[verifier::rlimit(80)]
pub proof fn offline_waits_for_no_network(q: Request, run: RunM, event: EventM)
    requires
        run !is Signalling,
        next_of(q, run, event).0 is Signalling,
        q.flags.offline,
    ensures
        scan::signals_from(q.flags) == SignalSource::Files,
{
    reveal(settled);
    reveal(compared);
    reveal(judged);
    reveal(signalled);
    reveal(enriched);
    reveal(unenriched);
    reveal(gathered);
    reveal(scanned);
    reveal(named);
}

/// The report that a scan has so far.
pub open spec fn report_in(run: RunM) -> Option<FleetReportM> {
    match run {
        RunM::Signalling { report, .. } => Some(report),
        RunM::Judging { report, .. } => Some(report),
        RunM::Comparing { report, .. } => Some(report),
        RunM::Naming { report, .. } => Some(report),
        RunM::Writing { report, .. } => Some(report),
        _ => None,
    }
}

/// What was read stays as it was found: no answer changes the outcomes of a report or how many
/// repositories could be read.
#[verifier::spinoff_prover]
#[verifier::rlimit(80)]
pub proof fn outcomes_last(q: Request, run: RunM, event: EventM)
    requires
        report_in(run) is Some,
        report_in(next_of(q, run, event).0) is Some,
    ensures
        report_in(next_of(q, run, event).0)->0.outcomes == report_in(run)->0.outcomes,
        report_in(next_of(q, run, event).0)->0.summary.repos_errored
            == report_in(run)->0.summary.repos_errored,
        report_in(next_of(q, run, event).0)->0.summary.repos_scanned
            == report_in(run)->0.summary.repos_scanned,
{
    reveal(settled);
    reveal(compared);
    reveal(judged);
    reveal(signalled);
    reveal(enriched);
    reveal(unenriched);
    reveal(gathered);
    reveal(scanned);
    reveal(named);
}

/// A report is clean only if it was trusted: once it is written, a gap in it makes the exit
/// code `2`.
pub proof fn a_gap_ends_in_two(q: Request, run: RunM, event: EventM)
    requires
        run matches RunM::Writing { report, .. } && (report.summary.repos_errored > 0
            || report.summary.repos_scanned == 0),
        awaited(run, event),
    ensures
        next_of(q, run, event).0 == (RunM::Done { code: 2 }),
{
}

/// What is written is what was compared: with a baseline a report is settled only by the
/// comparison, and something is new exactly where the comparison left something. Without one
/// nothing is new.
#[verifier::spinoff_prover]
#[verifier::rlimit(80)]
pub proof fn a_baseline_is_always_compared(q: Request, run: RunM, event: EventM)
    requires
        report_in(run) is Some || run is Scanning,
        run !is Naming,
        run !is Writing,
    ensures
        next_of(q, run, event).0 matches RunM::Writing { report, new, .. } ==> {
            &&& q.has_baseline ==> run is Comparing
            &&& run !is Comparing ==> !new
            &&& run is Comparing ==> new == (report.vulnerabilities.len() > 0
                || report.warnings.len() > 0)
        },
        next_of(q, run, event).0 matches RunM::Naming { report, new, .. } ==> {
            &&& q.has_baseline ==> run is Comparing
            &&& run !is Comparing ==> !new
            &&& run is Comparing ==> new == (report.vulnerabilities.len() > 0
                || report.warnings.len() > 0)
        },
{
    reveal(settled);
    reveal(compared);
    reveal(judged);
    reveal(signalled);
    reveal(enriched);
    reveal(unenriched);
    reveal(gathered);
    reveal(scanned);
    reveal(named);
}

/// A comparison with a baseline keeps exactly the vulnerabilities whose advisories are not in it.
pub proof fn a_comparison_keeps_what_is_new(
    q: Request,
    c: ConfigM,
    r: FleetReportM,
    s: Seq<SuppressedOccurrenceM>,
    ids: Seq<Seq<char>>,
)
    ensures
        ({
            let run = RunM::Comparing { config: c, report: r, suppressed: s };
            report_in(next_of(q, run, EventM::BaselineRead(Ok(ids))).0) matches Some(kept)
                && kept.vulnerabilities == r.vulnerabilities.filter(
                |v: VulnFindingM| !ids.contains(v.advisory_id),
            )
        }),
{
    reveal(settled);
    assemble::a_baseline_drops_only_its_own(r, ids);
}

/// A written report ends a scan with its exit code: where it can be trusted `1` exactly where a
/// vulnerability reaches the level of `--fail-on`, a warning counts, something known to be
/// exploited counts, or something is new, and else `0`.
pub proof fn a_written_report_ends_with_its_code(q: Request, run: RunM)
    requires
        run matches RunM::Writing { report, .. } && report.summary.repos_errored == 0
            && report.summary.repos_scanned > 0,
    ensures
        run matches RunM::Writing { report, new, .. } ==> {
            let fails = {
                ||| exists|i: int|
                    0 <= i < report.vulnerabilities.len() && scan::fails_at(
                        q.flags.fail_on,
                        (#[trigger] report.vulnerabilities[i]).severity,
                    )
                ||| q.flags.fail_on_warnings && report.warnings.len() > 0
                ||| q.flags.fail_on_kev && exists|i: int|
                    0 <= i < report.vulnerabilities.len() && (
                    #[trigger] report.vulnerabilities[i]).exploit.kev
                ||| new
            };
            &&& fails ==> next_of(q, run, EventM::Written(Ok(()))).0 == (RunM::Done { code: 1 })
            &&& !fails ==> next_of(q, run, EventM::Written(Ok(()))).0 == (RunM::Done { code: 0 })
        },
{
    if let RunM::Writing { report, new, .. } = run {
        scan::fail_on_means_what_it_says(report, q.flags, new);
    }
}

/// A scan begins with its configuration, unless it only explains an advisory. Where the age of
/// the database is limited nothing is scanned before the age was found to be within the limit;
/// and where it is asked why a package is there nothing is scanned at all.
#[verifier::spinoff_prover]
#[verifier::rlimit(80)]
pub proof fn nothing_is_scanned_before_it_may_be(q: Request, run: RunM, event: EventM)
    ensures
        start_of(q) is Explaining <==> q.explain is Some,
        start_of(q) is Configuring <==> q.explain is None,
        run !is Scanning && (next_of(q, run, event).0 is Scanning) ==> {
            ||| run is Aging && event matches EventM::AgeChecked(Ok(_))
            ||| !q.limits_age && run is Opening && event matches EventM::DbOpened(Ok(_))
        },
        run is Configuring && q.why is Some ==> !(next_of(q, run, event).0 is Opening),
        run is Explaining ==> (next_of(q, run, event).0 == (RunM::Done { code: 0 })
            <==> (event matches EventM::Explained(Ok(found)) && found)),
        run is Routing ==> (next_of(q, run, event).0 == (RunM::Done { code: 0 })
            <==> (event matches EventM::RoutesShown(found) && found)),
{
    reveal(settled);
    reveal(compared);
    reveal(judged);
    reveal(signalled);
    reveal(enriched);
    reveal(unenriched);
    reveal(gathered);
    reveal(scanned);
    reveal(named);
}

/// What is judged unreachable is dropped from a report exactly where only what is reached was
/// asked for; else a report keeps everything that was judged.
pub proof fn judging_drops_only_on_request(
    q: Request,
    c: ConfigM,
    r: FleetReportM,
    s: Seq<SuppressedOccurrenceM>,
    mode: ReachMode,
)
    ensures
        report_in(judged(q, c, r, s, mode).0) matches Some(kept) && (q.flags.reachable_only
            ==> kept.vulnerabilities == r.vulnerabilities.filter(
            |v: VulnFindingM|
                match v.reachable {
                    Some(reached) => reached,
                    None => true,
                },
        )) && (!q.flags.reachable_only ==> kept == r),
{
    reveal(settled);
    reveal(compared);
    reveal(judged);
    assemble::filters_drop_only_what_they_say(r, Score { bits: 0 });
}

/// The report of a scan is made of what was scanned, under the suppressions of the configuration
/// and from the severity that was asked for up, without what is not built where that is asked
/// for. Nothing else is dropped before the signals are there.
#[verifier::spinoff_prover]
#[verifier::rlimit(80)]
pub proof fn a_scan_shows_what_was_scanned(
    q: Request,
    config: ConfigM,
    scan: ScanDataM,
    provenance: ProvenanceM,
)
    ensures
        ({
            let end = next_of(
                q,
                RunM::Scanning { config },
                EventM::Scanned { scan, provenance },
            ).0;
            let whole = assemble::report_of(
                scan,
                vex::suppressions_in(config),
                match q.flags.min_severity {
                    None => None,
                    Some(SeverityArg::Low) => Some(Severity::Low),
                    Some(SeverityArg::Medium) => Some(Severity::Medium),
                    Some(SeverityArg::High) => Some(Severity::High),
                    Some(SeverityArg::Critical) => Some(Severity::Critical),
                },
                provenance,
            );
            report_in(end) matches Some(r) ==> {
                &&& !q.flags.ignore_phantom ==> r == whole
                &&& q.flags.ignore_phantom ==> r.vulnerabilities == assemble::live_vulns(
                    whole.vulnerabilities,
                ) && r.warnings == assemble::live_warns(whole.warnings)
            }
        }),
{
    reveal(settled);
    reveal(compared);
    reveal(signalled);
    reveal(unenriched);
    reveal(gathered);
    reveal(scanned);
}

} // verus!
