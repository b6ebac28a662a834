//! The course of the two commands on a committed VEX document: comparing it with a fresh scan,
//! and checking its witnesses again.
use vstd::prelude::*;
use crate::assemble;
use crate::assemble::{SuppressedOccurrence, SuppressedOccurrenceM};
use crate::cli;
use crate::config::{Config, ConfigM};
use crate::correlate;
use crate::finding::VulnFindingM;
use crate::json::{Json, JsonM};
use crate::orchestrate::{ScanData, ScanDataM};
use crate::report::{FleetReport, FleetReportM, Provenance, ProvenanceM};
use crate::static_reach;
use crate::static_reach::{RepoOutcome, RepoOutcomeM};
use crate::text;
use crate::textmap::TextMap;
use crate::value;
use crate::vex;
use crate::vex::{
    CommittedStatement, CommittedStatementM, HumanAssertion, StatementView, StatementViewM,
    VexParams, VexParamsM,
};

verus! {

/// What came of what was waited for.
#[derive(Debug)]
pub enum Answer {
    ConfigRead(Result<Config, String>),
    DbOpened(Result<(), String>),
    DocumentRead(Result<Json, String>),
    Scanned { scan: ScanData, provenance: Provenance },
    ManifestsRead(Vec<Option<String>>),
    Projected(Result<Vec<StatementView>, String>),
    Analyzed { outcomes: TextMap<RepoOutcome>, engine: String, host: String },
}

/// What an [`Answer`] stands for.
#[verifier::ext_equal]
pub enum AnswerM {
    ConfigRead(Result<ConfigM, Seq<char>>),
    DbOpened(Result<(), Seq<char>>),
    DocumentRead(Result<JsonM, Seq<char>>),
    Scanned { scan: ScanDataM, provenance: ProvenanceM },
    ManifestsRead(Seq<Option<Seq<char>>>),
    Projected(Result<Seq<StatementViewM>, Seq<char>>),
    Analyzed { outcomes: Map<Seq<char>, RepoOutcomeM>, engine: Seq<char>, host: Seq<char> },
}

pub open spec fn read<T: DeepView>(r: Result<T, String>) -> Result<T::V, Seq<char>> {
    match r {
        Ok(x) => Ok(x.deep_view()),
        Err(e) => Err(e@),
    }
}

impl DeepView for Answer {
    type V = AnswerM;

    open spec fn deep_view(&self) -> AnswerM {
        match self {
            Answer::ConfigRead(r) => AnswerM::ConfigRead(read(*r)),
            Answer::DbOpened(r) => AnswerM::DbOpened(
                match r {
                    Ok(_) => Ok(()),
                    Err(e) => Err(e@),
                },
            ),
            Answer::DocumentRead(r) => AnswerM::DocumentRead(read(*r)),
            Answer::Scanned { scan, provenance } => AnswerM::Scanned {
                scan: scan.deep_view(),
                provenance: provenance.deep_view(),
            },
            Answer::ManifestsRead(purls) => AnswerM::ManifestsRead(purls.deep_view()),
            Answer::Projected(r) => AnswerM::Projected(read(*r)),
            Answer::Analyzed { outcomes, engine, host } => AnswerM::Analyzed {
                outcomes: outcomes.deep_view(),
                engine: engine@,
                host: host@,
            },
        }
    }
}

/// The report of a scan in which nothing is below a threshold.
pub open spec fn fresh_report(c: ConfigM, d: ScanDataM, p: ProvenanceM) -> FleetReportM {
    assemble::report_of(d, vex::suppressions_in(c), None, p)
}

pub open spec fn fresh_suppressed(c: ConfigM, d: ScanDataM) -> Seq<SuppressedOccurrenceM> {
    assemble::all_suppressed(
        vex::suppressions_in(c),
        correlate::correlated_vulns(d.vulnerabilities),
    )
}

// --- Comparing ---

/// How far a comparison has come: each state waits for one kind of answer.
#[derive(Debug)]
pub enum Check {
    /// Waits for the configuration.
    Configuring,
    /// Waits for the advisory database.
    Opening { config: Config },
    /// Waits for the committed document.
    Reading { config: Config },
    /// Waits for the fleet to be scanned.
    Scanning { config: Config, committed: Vec<CommittedStatement> },
    /// Waits for the package URL of every repository.
    Naming {
        config: Config,
        committed: Vec<CommittedStatement>,
        report: FleetReport,
        suppressed: Vec<SuppressedOccurrence>,
    },
    /// Waits for the statements that a fresh document would make.
    Projecting {
        committed: Vec<CommittedStatement>,
        report: FleetReport,
        params: VexParams,
    },
    /// Waits for nothing any more.
    Done { code: u8 },
}

/// What a [`Check`] stands for.
#[verifier::ext_equal]
pub enum CheckM {
    Configuring,
    Opening { config: ConfigM },
    Reading { config: ConfigM },
    Scanning { config: ConfigM, committed: Seq<CommittedStatementM> },
    Naming {
        config: ConfigM,
        committed: Seq<CommittedStatementM>,
        report: FleetReportM,
        suppressed: Seq<SuppressedOccurrenceM>,
    },
    Projecting { committed: Seq<CommittedStatementM>, report: FleetReportM, params: VexParamsM },
    Done { code: u8 },
}

impl DeepView for Check {
    type V = CheckM;

    open spec fn deep_view(&self) -> CheckM {
        match self {
            Check::Configuring => CheckM::Configuring,
            Check::Opening { config } => CheckM::Opening { config: config.deep_view() },
            Check::Reading { config } => CheckM::Reading { config: config.deep_view() },
            Check::Scanning { config, committed } => CheckM::Scanning {
                config: config.deep_view(),
                committed: committed.deep_view(),
            },
            Check::Naming { config, committed, report, suppressed } => CheckM::Naming {
                config: config.deep_view(),
                committed: committed.deep_view(),
                report: report.deep_view(),
                suppressed: suppressed.deep_view(),
            },
            Check::Projecting { committed, report, params } => CheckM::Projecting {
                committed: committed.deep_view(),
                report: report.deep_view(),
                params: params.deep_view(),
            },
            Check::Done { code } => CheckM::Done { code: *code },
        }
    }
}

/// What a comparison that could not be done comes to.
pub open spec fn unchecked(reason: Seq<char>) -> (CheckM, Seq<Seq<char>>) {
    (CheckM::Done { code: cli::COULD_NOT_SCAN }, seq!["error: "@ + reason])
}

/// What is wrong with the committed document.
pub open spec fn drift_errors(
    current: Seq<StatementViewM>,
    committed: Seq<CommittedStatementM>,
) -> Seq<Seq<char>> {
    vex::untriaged(current, committed) + vex::statement_errors(committed, current)
}

/// What is still to be decided in it.
pub open spec fn drift_warnings(
    current: Seq<StatementViewM>,
    committed: Seq<CommittedStatementM>,
    r: FleetReportM,
) -> Seq<Seq<char>> {
    value::text_set(
        vex::undecided(committed, current, vex::severities_in(r.vulnerabilities)),
    )
}

/// What is said of a comparison: its warnings, its errors, and a summary where that is wanted.
pub open spec fn drift_lines(
    current: Seq<StatementViewM>,
    committed: Seq<CommittedStatementM>,
    r: FleetReportM,
    quiet: bool,
) -> Seq<Seq<char>> {
    let errors = drift_errors(current, committed);
    let warnings = drift_warnings(current, committed, r);
    warnings.map_values(|w: Seq<char>| "warning: "@ + w) + errors.map_values(
        |e: Seq<char>| "error: "@ + e,
    ) + (if quiet {
        Seq::empty()
    } else {
        seq![
            vex::drift_text(
                current.len(),
                committed.len(),
                errors.len(),
                warnings.len(),
            ),
        ]
    })
}

/// What an answer leads to in a comparison, and what is said of it. One that was not waited
/// for changes nothing.
pub open spec fn check_next_of(quiet: bool, run: CheckM, answer: AnswerM) -> (
    CheckM,
    Seq<Seq<char>>,
) {
    match (run, answer) {
        (CheckM::Configuring, AnswerM::ConfigRead(Ok(config))) => (
            CheckM::Opening { config },
            Seq::empty(),
        ),
        (CheckM::Configuring, AnswerM::ConfigRead(Err(e))) => unchecked(e),
        (CheckM::Opening { config }, AnswerM::DbOpened(Ok(_))) => (
            CheckM::Reading { config },
            Seq::empty(),
        ),
        (CheckM::Opening { .. }, AnswerM::DbOpened(Err(e))) => unchecked(e),
        (CheckM::Reading { config }, AnswerM::DocumentRead(Ok(doc))) => (
            CheckM::Scanning {
                config,
                committed: vex::statements_in(doc).map_values(|s: JsonM| vex::statement_in(s)),
            },
            Seq::empty(),
        ),
        (CheckM::Reading { .. }, AnswerM::DocumentRead(Err(e))) => unchecked(e),
        (CheckM::Scanning { config, committed }, AnswerM::Scanned { scan, provenance }) => (
            CheckM::Naming {
                config,
                committed,
                report: fresh_report(config, scan, provenance),
                suppressed: fresh_suppressed(config, scan),
            },
            Seq::empty(),
        ),
        (
            CheckM::Naming { config, committed, report, suppressed },
            AnswerM::ManifestsRead(purls),
        ) => if purls.len() == config.repos.len() {
            let ids = vex::product_ids(config.repos, purls, config.vex.product_id_base);
            (
                CheckM::Projecting {
                    committed,
                    report,
                    params: vex::bare_params(ids, vex::assertions_for(suppressed, ids)),
                },
                Seq::empty(),
            )
        } else {
            (run, Seq::empty())
        },
        (
            CheckM::Projecting { committed, report, .. },
            AnswerM::Projected(Ok(current)),
        ) => (
            CheckM::Done {
                code: if drift_errors(current, committed).len() > 0 {
                    1
                } else {
                    0
                },
            },
            drift_lines(current, committed, report, quiet),
        ),
        (CheckM::Projecting { .. }, AnswerM::Projected(Err(e))) => unchecked(e),
        _ => (run, Seq::empty()),
    }
}

fn no_lines() -> (r: Vec<String>)
    ensures
        r.deep_view() == Seq::<Seq<char>>::empty(),
{
    let r: Vec<String> = Vec::new();
    assert(r.deep_view() =~= Seq::empty());
    r
}

fn one_line(t: String) -> (r: Vec<String>)
    ensures
        r.deep_view() == seq![t@],
{
    let mut r: Vec<String> = Vec::new();
    r.push(t);
    assert(r.deep_view() =~= seq![t@]);
    r
}

fn headed(head: &str, lines: &Vec<String>) -> (r: Vec<String>)
    ensures
        r.deep_view() == lines.deep_view().map_values(|l: Seq<char>| head@ + l),
{
    let ghost want = lines.deep_view().map_values(|l: Seq<char>| head@ + l);
    let mut r: Vec<String> = no_lines();
    let mut i: usize = 0;
    assert(want.take(0) =~= Seq::empty());
    while i < lines.len()
        invariant
            i <= lines.len(),
            want == lines.deep_view().map_values(|l: Seq<char>| head@ + l),
            r.deep_view() == want.take(i as int),
        decreases lines.len() - i,
    {
        let t = text::join(head, lines[i].as_str());
        let ghost before = r.deep_view();
        r.push(t);
        proof {
            assert(r.deep_view() =~= before.push(t@));
            assert(want[i as int] == t@);
            assert(want.take(i + 1) =~= want.take(i as int).push(want[i as int]));
        }
        i += 1;
    }
    assert(want.take(i as int) =~= want);
    r
}

fn check_failed(reason: &str) -> (r: (Check, Vec<String>))
    ensures
        (r.0.deep_view(), r.1.deep_view()) == unchecked(reason@),
{
    (Check::Done { code: cli::COULD_NOT_SCAN }, one_line(text::join("error: ", reason)))
}

fn compare(
    quiet: bool,
    current: &Vec<StatementView>,
    committed: &Vec<CommittedStatement>,
    report: &FleetReport,
) -> (r: (Check, Vec<String>))
    ensures
        r.0.deep_view() == (CheckM::Done {
            code: if drift_errors(current.deep_view(), committed.deep_view()).len() > 0 {
                1
            } else {
                0
            },
        }),
        r.1.deep_view() == drift_lines(
            current.deep_view(),
            committed.deep_view(),
            report.deep_view(),
            quiet,
        ),
{
    let severity = vex::severities_of(report);
    let drift = vex::check_drift(current, committed, &severity);
    assert(drift.errors.deep_view().len() == drift.errors.len());
    assert(drift.warnings.deep_view().len() == drift.warnings.len());
    assert(current.deep_view().len() == current.len());
    assert(committed.deep_view().len() == committed.len());
    let mut said = headed("warning: ", &drift.warnings);
    let errors = headed("error: ", &drift.errors);
    value::append(&mut said, errors);
    if quiet {
        assert(said.deep_view() =~= said.deep_view() + Seq::<Seq<char>>::empty());
    } else {
        let ghost before = said.deep_view();
        let summary = vex::drift_summary(current.len(), committed.len(), &drift);
        said.push(summary);
        assert(said.deep_view() =~= before + seq![summary@]);
    }
    (Check::Done { code: vex::drift_exit_code(&drift) }, said)
}

/// What an answer leads to in a comparison, and what is to be said of it. One that was not
/// waited for changes nothing.
pub fn check_next(quiet: bool, run: Check, answer: Answer) -> (r: (Check, Vec<String>))
    ensures
        (r.0.deep_view(), r.1.deep_view()) == check_next_of(
            quiet,
            run.deep_view(),
            answer.deep_view(),
        ),
{
    match run {
        Check::Configuring => match answer {
            Answer::ConfigRead(Ok(config)) => (Check::Opening { config }, no_lines()),
            Answer::ConfigRead(Err(e)) => check_failed(e.as_str()),
            _ => (Check::Configuring, no_lines()),
        },
        Check::Opening { config } => match answer {
            Answer::DbOpened(Ok(_)) => (Check::Reading { config }, no_lines()),
            Answer::DbOpened(Err(e)) => check_failed(e.as_str()),
            _ => (Check::Opening { config }, no_lines()),
        },
        Check::Reading { config } => match answer {
            Answer::DocumentRead(Ok(doc)) => {
                let committed = vex::parse_committed_statements(&doc);
                (Check::Scanning { config, committed }, no_lines())
            },
            Answer::DocumentRead(Err(e)) => check_failed(e.as_str()),
            _ => (Check::Reading { config }, no_lines()),
        },
        Check::Scanning { config, committed } => match answer {
            Answer::Scanned { scan, provenance } => {
                let a = vex::assemble_fresh(scan, &config, provenance);
                (
                    Check::Naming {
                        config,
                        committed,
                        report: a.report,
                        suppressed: a.suppressed,
                    },
                    no_lines(),
                )
            },
            _ => (Check::Scanning { config, committed }, no_lines()),
        },
        Check::Naming { config, committed, report, suppressed } => match answer {
            Answer::ManifestsRead(purls) => {
                assert(purls.deep_view().len() == purls.len());
                assert(config.deep_view().repos.len() == config.repos.len());
                if purls.len() == config.repos.len() {
                    let ids: TextMap<String> = vex::resolve_product_ids(&config, &purls);
                    let (assertions, _): (Vec<HumanAssertion>, Vec<String>) =
                        vex::build_human_assertions(&suppressed, &ids, false);
                    let params = vex::projection_params(ids, assertions);
                    (Check::Projecting { committed, report, params }, no_lines())
                } else {
                    (Check::Naming { config, committed, report, suppressed }, no_lines())
                }
            },
            _ => (Check::Naming { config, committed, report, suppressed }, no_lines()),
        },
        Check::Projecting { committed, report, params } => match answer {
            Answer::Projected(Ok(current)) => compare(quiet, &current, &committed, &report),
            Answer::Projected(Err(e)) => check_failed(e.as_str()),
            _ => (Check::Projecting { committed, report, params }, no_lines()),
        },
        Check::Done { code } => (Check::Done { code }, no_lines()),
    }
}

// --- Checking witnesses ---

/// How far the checking of witnesses has come: each state waits for one kind of answer.
#[derive(Debug)]
pub enum Verify {
    /// Waits for the configuration.
    Configuring,
    /// Waits for the document.
    Reading { config: Config },
    /// Waits for the advisory database.
    Opening { config: Config, witnesses: Vec<(String, String)> },
    /// Waits for the fleet to be scanned.
    Scanning { config: Config, witnesses: Vec<(String, String)> },
    /// Waits for every repository to be built and analyzed.
    Analyzing { config: Config, witnesses: Vec<(String, String)>, report: FleetReport },
    /// Waits for nothing any more.
    Done { code: u8 },
}

/// What a [`Verify`] stands for.
#[verifier::ext_equal]
pub enum VerifyM {
    Configuring,
    Reading { config: ConfigM },
    Opening { config: ConfigM, witnesses: Seq<(Seq<char>, Seq<char>)> },
    Scanning { config: ConfigM, witnesses: Seq<(Seq<char>, Seq<char>)> },
    Analyzing { config: ConfigM, witnesses: Seq<(Seq<char>, Seq<char>)>, report: FleetReportM },
    Done { code: u8 },
}

impl DeepView for Verify {
    type V = VerifyM;

    open spec fn deep_view(&self) -> VerifyM {
        match self {
            Verify::Configuring => VerifyM::Configuring,
            Verify::Reading { config } => VerifyM::Reading { config: config.deep_view() },
            Verify::Opening { config, witnesses } => VerifyM::Opening {
                config: config.deep_view(),
                witnesses: witnesses.deep_view(),
            },
            Verify::Scanning { config, witnesses } => VerifyM::Scanning {
                config: config.deep_view(),
                witnesses: witnesses.deep_view(),
            },
            Verify::Analyzing { config, witnesses, report } => VerifyM::Analyzing {
                config: config.deep_view(),
                witnesses: witnesses.deep_view(),
                report: report.deep_view(),
            },
            Verify::Done { code } => VerifyM::Done { code: *code },
        }
    }
}

/// What a check of witnesses that could not be done comes to.
pub open spec fn unverified(reason: Seq<char>) -> (VerifyM, Seq<Seq<char>>) {
    (VerifyM::Done { code: cli::COULD_NOT_SCAN }, seq!["error: "@ + reason])
}

/// Where the checking of witnesses begins: it compiles every repository, so without consent, or
/// without a driver, it does not begin at all.
pub open spec fn verify_start_of(consent: bool, has_driver: bool) -> (VerifyM, Seq<Seq<char>>) {
    if consent && has_driver {
        (VerifyM::Configuring, Seq::empty())
    } else {
        (
            VerifyM::Done { code: cli::WRONG_USAGE },
            seq![
                "error: "@ + vex::refusal_text(
                    if consent {
                        vex::VerifyRefusal::NoDriver
                    } else {
                        vex::VerifyRefusal::NoConsent
                    },
                ),
            ],
        )
    }
}

/// What is said of witnesses that were checked: each that fails, and a summary where that is
/// wanted.
pub open spec fn verify_lines(
    checked: nat,
    failed: Seq<(Seq<char>, Seq<char>)>,
    quiet: bool,
) -> Seq<Seq<char>> {
    failed.map_values(|w: (Seq<char>, Seq<char>)| vex::failed_text(w.0, w.1)) + (if quiet {
        Seq::empty()
    } else {
        seq![vex::verify_text(checked, failed.len())]
    })
}

/// What an answer leads to when witnesses are checked, and what is said of it. One that was not
/// waited for changes nothing.
pub open spec fn verify_next_of(quiet: bool, run: VerifyM, answer: AnswerM) -> (
    VerifyM,
    Seq<Seq<char>>,
) {
    match (run, answer) {
        (VerifyM::Configuring, AnswerM::ConfigRead(Ok(config))) => (
            VerifyM::Reading { config },
            Seq::empty(),
        ),
        (VerifyM::Configuring, AnswerM::ConfigRead(Err(e))) => unverified(e),
        (VerifyM::Reading { config }, AnswerM::DocumentRead(Ok(doc))) => {
            let witnesses = vex::witnesses_in(vex::statements_in(doc));
            if witnesses.len() == 0 {
                (
                    VerifyM::Done { code: 0 },
                    if quiet {
                        Seq::empty()
                    } else {
                        seq!["vex verify: no reachability witnesses to re-derive."@]
                    },
                )
            } else {
                (VerifyM::Opening { config, witnesses }, Seq::empty())
            }
        },
        (VerifyM::Reading { .. }, AnswerM::DocumentRead(Err(e))) => unverified(e),
        (VerifyM::Opening { config, witnesses }, AnswerM::DbOpened(Ok(_))) => (
            VerifyM::Scanning { config, witnesses },
            Seq::empty(),
        ),
        (VerifyM::Opening { .. }, AnswerM::DbOpened(Err(e))) => unverified(e),
        (VerifyM::Scanning { config, witnesses }, AnswerM::Scanned { scan, provenance }) => (
            VerifyM::Analyzing {
                config,
                witnesses,
                report: fresh_report(config, scan, provenance),
            },
            Seq::empty(),
        ),
        (
            VerifyM::Analyzing { witnesses, report, .. },
            AnswerM::Analyzed { outcomes, engine, host },
        ) => {
            let failed = vex::failed_witnesses(
                witnesses,
                static_reach::analyzed(report, outcomes, engine, host).vulnerabilities,
            );
            (
                VerifyM::Done {
                    code: if failed.len() > 0 {
                        1
                    } else {
                        0
                    },
                },
                verify_lines(witnesses.len(), failed, quiet),
            )
        },
        _ => (run, Seq::empty()),
    }
}

/// Where the checking of witnesses begins, and what is to be said where it does not.
pub fn verify_start(consent: bool, has_driver: bool) -> (r: (Verify, Vec<String>))
    ensures
        (r.0.deep_view(), r.1.deep_view()) == verify_start_of(consent, has_driver),
{
    match vex::verify_refusal(consent, has_driver) {
        Some(e) => {
            let t = e.to_string();
            (Verify::Done { code: cli::WRONG_USAGE }, one_line(text::join("error: ", t.as_str())))
        },
        None => (Verify::Configuring, no_lines()),
    }
}

fn verify_failed(reason: &str) -> (r: (Verify, Vec<String>))
    ensures
        (r.0.deep_view(), r.1.deep_view()) == unverified(reason@),
{
    (Verify::Done { code: cli::COULD_NOT_SCAN }, one_line(text::join("error: ", reason)))
}

fn failed_lines(failed: &Vec<(String, String)>) -> (r: Vec<String>)
    ensures
        r.deep_view() == failed.deep_view().map_values(
            |w: (Seq<char>, Seq<char>)| vex::failed_text(w.0, w.1),
        ),
{
    let ghost want = failed.deep_view().map_values(
        |w: (Seq<char>, Seq<char>)| vex::failed_text(w.0, w.1),
    );
    let mut r: Vec<String> = no_lines();
    let mut i: usize = 0;
    assert(want.take(0) =~= Seq::empty());
    while i < failed.len()
        invariant
            i <= failed.len(),
            want == failed.deep_view().map_values(
                |w: (Seq<char>, Seq<char>)| vex::failed_text(w.0, w.1),
            ),
            r.deep_view() == want.take(i as int),
        decreases failed.len() - i,
    {
        let t = vex::failed_witness(&failed[i]);
        let ghost before = r.deep_view();
        r.push(t);
        proof {
            assert(r.deep_view() =~= before.push(t@));
            assert(want[i as int] == t@);
            assert(want.take(i + 1) =~= want.take(i as int).push(want[i as int]));
        }
        i += 1;
    }
    assert(want.take(i as int) =~= want);
    r
}

/// What an answer leads to when witnesses are checked, and what is to be said of it. One that
/// was not waited for changes nothing.
pub fn verify_next(quiet: bool, run: Verify, answer: Answer) -> (r: (Verify, Vec<String>))
    ensures
        (r.0.deep_view(), r.1.deep_view()) == verify_next_of(
            quiet,
            run.deep_view(),
            answer.deep_view(),
        ),
{
    match run {
        Verify::Configuring => match answer {
            Answer::ConfigRead(Ok(config)) => (Verify::Reading { config }, no_lines()),
            Answer::ConfigRead(Err(e)) => verify_failed(e.as_str()),
            _ => (Verify::Configuring, no_lines()),
        },
        Verify::Reading { config } => match answer {
            Answer::DocumentRead(Ok(doc)) => {
                let witnesses = vex::committed_reachability_witnesses(&doc);
                assert(witnesses.deep_view().len() == witnesses.len());
                if witnesses.len() == 0 {
                    let said = if quiet {
                        no_lines()
                    } else {
                        one_line("vex verify: no reachability witnesses to re-derive.".to_owned())
                    };
                    (Verify::Done { code: 0 }, said)
                } else {
                    (Verify::Opening { config, witnesses }, no_lines())
                }
            },
            Answer::DocumentRead(Err(e)) => verify_failed(e.as_str()),
            _ => (Verify::Reading { config }, no_lines()),
        },
        Verify::Opening { config, witnesses } => match answer {
            Answer::DbOpened(Ok(_)) => (Verify::Scanning { config, witnesses }, no_lines()),
            Answer::DbOpened(Err(e)) => verify_failed(e.as_str()),
            _ => (Verify::Opening { config, witnesses }, no_lines()),
        },
        Verify::Scanning { config, witnesses } => match answer {
            Answer::Scanned { scan, provenance } => {
                let a = vex::assemble_fresh(scan, &config, provenance);
                (Verify::Analyzing { config, witnesses, report: a.report }, no_lines())
            },
            _ => (Verify::Scanning { config, witnesses }, no_lines()),
        },
        Verify::Analyzing { config, witnesses, report } => match answer {
            Answer::Analyzed { outcomes, engine, host } => {
                let mut report = report;
                static_reach::assess(&mut report, &outcomes, engine.as_str(), host.as_str());
                let failed = vex::failed_reachability_witnesses(&witnesses, &report);
                assert(failed.deep_view().len() == failed.len());
                assert(witnesses.deep_view().len() == witnesses.len());
                let mut said = failed_lines(&failed);
                let ghost before = said.deep_view();
                if !quiet {
                    let summary = vex::verify_summary(witnesses.len(), failed.len());
                    said.push(summary);
                    assert(said.deep_view() =~= before + seq![summary@]);
                } else {
                    assert(said.deep_view() =~= before + Seq::<Seq<char>>::empty());
                }
                (Verify::Done { code: vex::verify_exit_code(&failed) }, said)
            },
            _ => (Verify::Analyzing { config, witnesses, report }, no_lines()),
        },
        Verify::Done { code } => (Verify::Done { code }, no_lines()),
    }
}

// --- Laws ---

/// What failed outside.
pub open spec fn failure(answer: AnswerM) -> Option<Seq<char>> {
    match answer {
        AnswerM::ConfigRead(Err(e)) => Some(e),
        AnswerM::DbOpened(Err(e)) => Some(e),
        AnswerM::DocumentRead(Err(e)) => Some(e),
        AnswerM::Projected(Err(e)) => Some(e),
        _ => None,
    }
}

/// A document that could not be checked is never in order: whatever fails outside either was
/// not waited for or ends the command with `2`.
pub proof fn failures_are_never_in_order(
    quiet: bool,
    check: CheckM,
    verify: VerifyM,
    answer: AnswerM,
)
    requires
        failure(answer) is Some,
    ensures
        check_next_of(quiet, check, answer) == (check, Seq::<Seq<char>>::empty())
            || check_next_of(quiet, check, answer).0 == (CheckM::Done { code: 2 }),
        verify_next_of(quiet, verify, answer) == (verify, Seq::<Seq<char>>::empty())
            || verify_next_of(quiet, verify, answer).0 == (VerifyM::Done { code: 2 }),
{
}

/// Witnesses are checked again only with consent and a driver; without, nothing is waited for
/// and the exit code is `3`.
pub proof fn checking_needs_consent(consent: bool, has_driver: bool)
    ensures
        verify_start_of(consent, has_driver).0 == VerifyM::Configuring <==> consent && has_driver,
        !(consent && has_driver) ==> verify_start_of(consent, has_driver).0 == (VerifyM::Done {
            code: 3,
        }),
{
}

/// A comparison ends with `1` exactly where the scan says something that no committed statement
/// is about, or a committed statement is in error, and else with `0`.
pub proof fn a_drifted_document_fails(
    quiet: bool,
    run: CheckM,
    current: Seq<StatementViewM>,
    committed: Seq<CommittedStatementM>,
)
    requires
        run matches CheckM::Projecting { committed: c, .. } && c == committed,
    ensures
        ({
            let end = check_next_of(quiet, run, AnswerM::Projected(Ok(current))).0;
            let drifted = (exists|i: int|
                0 <= i < current.len() && (forall|k: int|
                    0 <= k < committed.len() ==> !vex::same_subject(
                        #[trigger] current[i],
                        #[trigger] committed[k],
                    ))) || (exists|k: int|
                0 <= k < committed.len() && vex::statement_error(#[trigger] committed[k], current)
                    is Some);
            &&& drifted ==> end == (CheckM::Done { code: 1 })
            &&& !drifted ==> end == (CheckM::Done { code: 0 })
        }),
{
    vex::only_what_is_not_committed_is_untriaged(current, committed);
    vex::every_statement_in_error_is_told(committed, current);
    let p = |s: StatementViewM|
        forall|k: int| 0 <= k < committed.len() ==> !vex::same_subject(s, #[trigger] committed[k]);
    let q = |c: CommittedStatementM| vex::statement_error(c, current) is Some;
    lemma_filter_some(current, p);
    lemma_filter_some(committed, q);
    if exists|i: int| 0 <= i < current.len() && p(#[trigger] current[i]) {
        let i = choose|i: int| 0 <= i < current.len() && p(#[trigger] current[i]);
        assert forall|k: int| 0 <= k < committed.len() implies !vex::same_subject(
            current[i],
            #[trigger] committed[k],
        ) by {}
    }
    if exists|i: int|
        0 <= i < current.len() && (forall|k: int|
            0 <= k < committed.len() ==> !vex::same_subject(
                #[trigger] current[i],
                #[trigger] committed[k],
            )) {
        let i = choose|i: int|
            0 <= i < current.len() && (forall|k: int|
                0 <= k < committed.len() ==> !vex::same_subject(
                    #[trigger] current[i],
                    #[trigger] committed[k],
                ));
        assert(p(current[i]));
    }
    if exists|k: int| 0 <= k < committed.len() && q(#[trigger] committed[k]) {
        let k = choose|k: int| 0 <= k < committed.len() && q(#[trigger] committed[k]);
        assert(vex::statement_error(committed[k], current) is Some);
    }
    if exists|k: int|
        0 <= k < committed.len() && vex::statement_error(#[trigger] committed[k], current) is Some {
        let k = choose|k: int|
            0 <= k < committed.len() && vex::statement_error(#[trigger] committed[k], current)
                is Some;
        assert(q(committed[k]));
    }
}

proof fn lemma_filter_some<A>(s: Seq<A>, p: spec_fn(A) -> bool)
    ensures
        s.filter(p).len() > 0 <==> exists|i: int| 0 <= i < s.len() && p(#[trigger] s[i]),
    decreases s.len(),
{
    reveal(Seq::filter);
    if s.len() > 0 {
        let l = s.drop_last();
        let n = l.len() as int;
        lemma_filter_some(l, p);
        assert(s[n] == s.last());
        if l.filter(p).len() > 0 {
            let i = choose|i: int| 0 <= i < l.len() && p(#[trigger] l[i]);
            assert(p(s[i]));
        }
        if exists|i: int| 0 <= i < s.len() && p(#[trigger] s[i]) {
            let i = choose|i: int| 0 <= i < s.len() && p(#[trigger] s[i]);
            if i < n {
                assert(p(l[i]));
            }
        }
    }
}

/// Checking witnesses again ends with `1` exactly where some witness is about an advisory that
/// the report still holds and that is not shown to be unreachable, and else with `0`.
pub proof fn a_failed_witness_fails(
    quiet: bool,
    run: VerifyM,
    answer: AnswerM,
    witnesses: Seq<(Seq<char>, Seq<char>)>,
    vulns: Seq<VulnFindingM>,
)
    requires
        run matches VerifyM::Analyzing { witnesses: w, report, .. } && w == witnesses && (
        answer matches AnswerM::Analyzed { outcomes, engine, host } && vulns
            == static_reach::analyzed(report, outcomes, engine, host).vulnerabilities),
    ensures
        ({
            let end = verify_next_of(quiet, run, answer).0;
            let failed = exists|k: int, i: int|
                0 <= k < witnesses.len() && #[trigger] vex::last_about(vulns, witnesses[k].0, i)
                    && !vex::shown_unreachable(vulns[i]);
            &&& failed ==> end == (VerifyM::Done { code: 1 })
            &&& !failed ==> end == (VerifyM::Done { code: 0 })
        }),
{
    vex::a_witness_needs_its_proof_again(witnesses, vulns);
    let p = |w: (Seq<char>, Seq<char>)|
        exists|i: int| #[trigger] vex::last_about(vulns, w.0, i) && !vex::shown_unreachable(vulns[i]);
    lemma_filter_some(witnesses, p);
    if exists|k: int| 0 <= k < witnesses.len() && p(#[trigger] witnesses[k]) {
        let k = choose|k: int| 0 <= k < witnesses.len() && p(#[trigger] witnesses[k]);
        let i = choose|i: int| #[trigger]
            vex::last_about(vulns, witnesses[k].0, i) && !vex::shown_unreachable(vulns[i]);
        assert(vex::last_about(vulns, witnesses[k].0, i));
    }
    if exists|k: int, i: int|
        0 <= k < witnesses.len() && #[trigger] vex::last_about(vulns, witnesses[k].0, i)
            && !vex::shown_unreachable(vulns[i]) {
        let (k, i) = choose|k: int, i: int|
            0 <= k < witnesses.len() && #[trigger] vex::last_about(vulns, witnesses[k].0, i)
                && !vex::shown_unreachable(vulns[i]);
        assert(p(witnesses[k]));
    }
}

/// Each step hands on what was read: the configuration, the statements or witnesses of the
/// document, and a report in which nothing is below a threshold.
pub proof fn steps_hand_on_what_was_read(
    quiet: bool,
    config: ConfigM,
    doc: JsonM,
    committed: Seq<CommittedStatementM>,
    witnesses: Seq<(Seq<char>, Seq<char>)>,
    scan: ScanDataM,
    provenance: ProvenanceM,
)
    ensures
        check_next_of(quiet, CheckM::Configuring, AnswerM::ConfigRead(Ok(config))).0
            == (CheckM::Opening { config }),
        check_next_of(quiet, CheckM::Reading { config }, AnswerM::DocumentRead(Ok(doc))).0 matches
            CheckM::Scanning { config: c, committed: s } && c == config && s.len()
            == vex::statements_in(doc).len() && (forall|i: int|
            0 <= i < s.len() ==> #[trigger] s[i] == vex::statement_in(vex::statements_in(doc)[i])),
        check_next_of(
            quiet,
            CheckM::Scanning { config, committed },
            AnswerM::Scanned { scan, provenance },
        ).0 matches CheckM::Naming { config: c, committed: s, report, .. } && c == config && s
            == committed && report == assemble::report_of(
            scan,
            vex::suppressions_in(config),
            None,
            provenance,
        ),
        verify_next_of(quiet, VerifyM::Configuring, AnswerM::ConfigRead(Ok(config))).0
            == (VerifyM::Reading { config }),
        vex::witnesses_in(vex::statements_in(doc)).len() > 0 ==> verify_next_of(
            quiet,
            VerifyM::Reading { config },
            AnswerM::DocumentRead(Ok(doc)),
        ).0 == (VerifyM::Opening {
            config,
            witnesses: vex::witnesses_in(vex::statements_in(doc)),
        }),
        vex::witnesses_in(vex::statements_in(doc)).len() == 0 ==> verify_next_of(
            quiet,
            VerifyM::Reading { config },
            AnswerM::DocumentRead(Ok(doc)),
        ).0 == (VerifyM::Done { code: 0 }),
        verify_next_of(
            quiet,
            VerifyM::Scanning { config, witnesses },
            AnswerM::Scanned { scan, provenance },
        ).0 matches VerifyM::Analyzing { config: c, witnesses: w, report } && c == config && w
            == witnesses && report == assemble::report_of(
            scan,
            vex::suppressions_in(config),
            None,
            provenance,
        ),
{
}

} // verus!
