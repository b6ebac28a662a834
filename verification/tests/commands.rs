use fleetreach::cli::{is_colored, BuildSandbox, Format, ReachMode, SeverityArg};
use fleetreach::config::{Config, PathState, RawConfig, RawRepo, RawVex};
use fleetreach::enrich::{parse_kev, Enrichment};
use fleetreach::finding::{
    DepSource, DependencyKind, Ecosystem, Exploitability, Occurrence, RepoId, VulnFinding,
};
use fleetreach::json::Json;
use fleetreach::orchestrate::ScanData;
use fleetreach::outcome::{RepoOutcome, ScanStatus};
use fleetreach::pipeline::{next, start, Event, Request, Run, Said};
use fleetreach::report::{FleetReport, Provenance};
use fleetreach::scan::{ScanFlags, VexArgs};
use fleetreach::score::Score;
use fleetreach::severity::Severity;
use fleetreach::textmap::TextMap;
use fleetreach::version::Version;
use fleetreach::vex::StatementView;
use fleetreach::vex_run::{check_next, verify_next, verify_start, Answer, Check, Verify};

fn flags() -> ScanFlags {
    ScanFlags {
        offline: false,
        min_severity: None,
        fail_on: SeverityArg::Low,
        fail_on_warnings: false,
        resolve_features: false,
        ignore_phantom: false,
        enrich: false,
        has_kev_file: false,
        has_epss_file: false,
        fail_on_kev: false,
        min_epss: None,
        reachability: None,
        reachable_only: false,
        npm_prune_unreachable: false,
        allow_untrusted_builds: false,
        has_reach_driver: false,
        build_sandbox: BuildSandbox::Auto,
        quiet: false,
    }
}

fn request(flags: ScanFlags) -> Request {
    Request {
        flags,
        explain: None,
        why: None,
        limits_age: false,
        has_baseline: false,
        format: Format::Json,
        vex: VexArgs {
            author: None,
            role: None,
            id: None,
            timestamp: None,
            scope: None,
            only_sound: false,
            alias_rustbinary: false,
            include_fixed: false,
            version: 1,
            supersedes: None,
        },
    }
}

fn provenance(generated_at: &str) -> Provenance {
    Provenance {
        tool_version: "0.1.0".into(),
        rustsec_crate_version: "0.33.0".into(),
        db_commit: Some("abc".into()),
        db_timestamp: Some("2026-06-23T00:00:00Z".into()),
        host_os: "linux".into(),
        host_arch: "x86_64".into(),
        generated_at: generated_at.into(),
    }
}

fn config(repos: &[&str]) -> Config {
    let raw = RawConfig {
        repo: repos
            .iter()
            .map(|id| RawRepo {
                id: id.to_string(),
                path: format!("/fleet/{id}"),
                state: PathState::Directory,
                glob: false,
                glob_max_depth: None,
                vex_product_id: None,
                ecosystem: None,
            })
            .collect(),
        ignore: vec![],
        vex: RawVex {
            author: None,
            role: None,
            scope: None,
            product_id_base: None,
        },
        vex_assertion: vec![],
    };
    Config::from_raw(raw).unwrap()
}

/// The one critical vulnerability of the fleet.
fn fixture() -> VulnFinding {
    VulnFinding {
        advisory_id: "RUSTSEC-2099-0001".into(),
        aliases: vec!["CVE-2099-0001".into()],
        ecosystem: Ecosystem::Cargo,
        reachability: None,
        exploit: Exploitability::default(),
        affected_functions: vec![],
        reachable: None,
        title: "Fixture vulnerability in fixturevuln".into(),
        severity: Severity::Critical,
        cvss_score: None,
        url: None,
        occurrences: vec![Occurrence::InRepo {
            repo: RepoId("app".into()),
            package: "fixturevuln".into(),
            installed: Version::new(1, 0, 0),
            patched: vec![],
            dependency_kind: DependencyKind::Direct,
            dependency_path: vec![],
            active: None,
            source: DepSource::CratesIo,
        }],
    }
}

fn data(vulnerabilities: Vec<VulnFinding>, errored: &[&str]) -> ScanData {
    let mut outcomes = vec![RepoOutcome {
        repo: RepoId("app".into()),
        status: ScanStatus::Scanned {
            vulns: vulnerabilities.len(),
            warnings: 0,
        },
    }];
    for repo in errored {
        outcomes.push(RepoOutcome {
            repo: RepoId(repo.to_string()),
            status: ScanStatus::Errored {
                reason: "no Cargo.lock".into(),
            },
        });
    }
    ScanData {
        skipped_unparseable: 0,
        vulnerabilities,
        warnings: vec![],
        outcomes,
    }
}

fn clean() -> ScanData {
    data(vec![], &[])
}

fn vulnerable() -> ScanData {
    data(vec![fixture()], &[])
}

/// What a scan meets on its way.
struct World {
    config: Result<Config, String>,
    scan: ScanData,
    signals: Result<Enrichment, String>,
    baseline: Vec<String>,
    explained: bool,
    clock: &'static str,
}

fn world(scan: ScanData) -> World {
    World {
        config: Ok(config(&["app"])),
        scan,
        signals: Err("no signals".into()),
        baseline: vec![],
        explained: true,
        clock: "2026-06-24T00:00:00Z",
    }
}

/// Takes a scan to its end: its code, what it said, and the report that it wrote.
fn run(q: &Request, w: World) -> (u8, String, Option<FleetReport>) {
    let mut config = Some(w.config);
    let mut scan = Some(w.scan);
    let mut signals = Some(w.signals);
    let mut text = String::new();
    let mut written = None;
    let mut run = start(q);
    loop {
        let event = match &run {
            Run::Done { code } => return (*code, text, written),
            Run::Explaining => Event::Explained(Ok(w.explained)),
            Run::Configuring => Event::ConfigRead(config.take().unwrap()),
            Run::Routing { .. } => Event::RoutesShown(false),
            Run::Opening { .. } => Event::DbOpened(Ok(())),
            Run::Aging { .. } => Event::AgeChecked(Ok(())),
            Run::Scanning { .. } => Event::Scanned {
                scan: scan.take().unwrap(),
                provenance: provenance(w.clock),
            },
            Run::Signalling { .. } => Event::SignalsRead(signals.take().unwrap()),
            Run::Judging { .. } => Event::SourcesRead {
                sources: vec![],
                imports: vec![],
            },
            Run::Comparing { .. } => Event::BaselineRead(Ok(w.baseline.clone())),
            Run::Naming { .. } => Event::ManifestsRead(vec![None]),
            Run::Writing { report, .. } => {
                written = Some(report.clone());
                Event::Written(Ok(()))
            }
        };
        let (after, said) = next(q, run, event);
        for s in said {
            if let Said::Line(line) = s {
                text.push_str(&line);
                text.push('\n');
            }
        }
        run = after;
    }
}

// --- Exit codes ---

#[test]
fn cli_clean_fleet_exits_zero() {
    let (code, text, _) = run(&request(flags()), world(clean()));
    assert_eq!(code, 0, "said: {text}");
}

#[test]
fn vuln_exits_one() {
    assert_eq!(run(&request(flags()), world(vulnerable())).0, 1);
}

#[test]
fn errored_repo_exits_two_even_with_a_finding() {
    let mut w = world(data(vec![fixture()], &["gone"]));
    w.config = Ok(config(&["app", "gone"]));
    let (code, _, report) = run(&request(flags()), w);
    assert_eq!(code, 2, "a gap must never be reported as clean or merely failing");
    assert_eq!(report.unwrap().vulnerabilities.len(), 1);
}

#[test]
fn missing_config_exits_two() {
    let mut w = world(clean());
    w.config = Err("failed to read config `does-not-exist.toml`: not found".into());
    let (code, text, report) = run(&request(flags()), w);
    assert_eq!(code, 2);
    assert!(text.contains("error"));
    assert!(report.is_none());
}

// --- What is written ---

#[test]
fn json_payload_on_stdout_summary_on_stderr() {
    let (_, _, report) = run(&request(flags()), world(vulnerable()));
    let report = report.unwrap();
    assert_eq!(report.schema_version, 1);
    assert_eq!(report.summary.vuln_count, 1);
    assert!(!is_colored(Format::Json, false));
}

#[test]
fn piped_table_is_never_colored() {
    assert!(!is_colored(Format::Table, false));
}

#[test]
fn two_runs_are_byte_identical_modulo_the_clock() {
    let q = request(flags());
    let mut later = world(vulnerable());
    later.clock = "2026-06-25T00:00:00Z";
    let mut a = run(&q, world(vulnerable())).2.unwrap();
    let mut b = run(&q, later).2.unwrap();
    assert_ne!(a.provenance.generated_at, b.provenance.generated_at);
    a.provenance.generated_at = String::new();
    b.provenance.generated_at = String::new();
    assert_eq!(
        format!("{a:?}"),
        format!("{b:?}"),
        "runs must be deterministic apart from the clock"
    );
}

#[test]
fn quiet_suppresses_the_summary_line() {
    let mut f = flags();
    f.quiet = true;
    let (code, text, _) = run(&request(f), world(clean()));
    assert_eq!(code, 0);
    assert!(text.trim().is_empty(), "said: {text:?}");
}

// --- Looking up an advisory ---

#[test]
fn explain_prints_detail_and_exits_zero() {
    let mut q = request(flags());
    q.explain = Some("RUSTSEC-2099-0001".into());
    assert_eq!(run(&q, world(clean())).0, 0);
}

#[test]
fn explain_unknown_advisory_exits_two() {
    let mut q = request(flags());
    q.explain = Some("RUSTSEC-2098-0001".into());
    let mut w = world(clean());
    w.explained = false;
    assert_eq!(run(&q, w).0, 2);
}

// --- Against an earlier report ---

#[test]
fn baseline_suppresses_known_findings() {
    let (code, _, first) = run(&request(flags()), world(vulnerable()));
    assert_eq!(code, 1);
    let mut w = world(vulnerable());
    w.baseline = first
        .unwrap()
        .vulnerabilities
        .into_iter()
        .map(|v| v.advisory_id)
        .collect();
    let mut q = request(flags());
    q.has_baseline = true;
    let (code, _, report) = run(&q, w);
    assert_eq!(code, 0, "known findings must be suppressed");
    assert_eq!(report.unwrap().summary.vuln_count, 0);
}

// --- Signals of exploitation ---

fn signals() -> Enrichment {
    let kev = parse_kev(r#"{"vulnerabilities":[{"cveID":"CVE-2099-0001"}]}"#);
    Enrichment {
        kev: kev.unwrap_or_default(),
        epss: TextMap::new().insert(
            "CVE-2099-0001".into(),
            Score {
                bits: 0.95f64.to_bits(),
            },
        ),
        cvss: TextMap::new(),
    }
}

#[test]
fn kev_epss_enrichment_annotates_and_gates() {
    let mut f = flags();
    f.has_kev_file = true;
    f.has_epss_file = true;
    let mut w = world(vulnerable());
    w.signals = Ok(signals());
    let report = run(&request(f), w).2.unwrap();
    assert!(report.vulnerabilities[0].exploit.kev);
    let epss = report.vulnerabilities[0].exploit.epss.unwrap();
    assert!(f64::from_bits(epss.bits) > 0.9);

    let mut f = flags();
    f.has_kev_file = true;
    f.fail_on_kev = true;
    f.quiet = true;
    let mut w = world(vulnerable());
    w.signals = Ok(signals());
    assert_eq!(run(&request(f), w).0, 1);
}

// --- Thresholds ---

#[test]
fn fail_on_critical_still_trips_on_a_critical_vuln() {
    let mut f = flags();
    f.fail_on = SeverityArg::Critical;
    let (code, ..) = run(&request(f), world(vulnerable()));
    assert_eq!(code, 1, "the fixture vuln is CVSS critical");
}

#[test]
fn min_severity_at_the_threshold_keeps_the_finding() {
    let mut f = flags();
    f.min_severity = Some(SeverityArg::Critical);
    let (code, _, report) = run(&request(f), world(vulnerable()));
    assert_eq!(code, 1);
    assert_eq!(report.unwrap().summary.vuln_count, 1);
}

#[test]
fn static_reachability_requires_explicit_consent() {
    let mut f = flags();
    f.reachability = Some(ReachMode::Static);
    let (code, text, _) = run(&request(f), world(clean()));
    assert_ne!(code, 0, "must not proceed without consent");
    let err = text.to_lowercase();
    assert!(
        err.contains("--allow-untrusted-builds"),
        "names the opt-in flag; said: {err}"
    );
    assert!(
        err.contains("build scripts") || err.contains("arbitrary code"),
        "names the risk; said: {err}"
    );
}

// --- VEX ---

#[test]
fn vex_without_an_author_is_a_usage_error() {
    let mut q = request(flags());
    q.format = Format::Vex;
    q.vex.timestamp = Some("2026-06-25T00:00:00Z".into());
    let (code, text, report) = run(&q, world(vulnerable()));
    assert_eq!(code, 3, "missing author must fail closed as a usage error");
    assert!(report.is_none(), "no document is emitted on failure");
    assert!(text.contains("author"));
}

#[test]
fn vex_verify_requires_consent_then_a_driver() {
    let (no_consent, said) = verify_start(false, false);
    assert!(matches!(no_consent, Verify::Done { code: 3 }));
    assert!(said[0].contains("--allow-untrusted-builds"));
    let (no_driver, said) = verify_start(true, false);
    assert!(matches!(no_driver, Verify::Done { code: 3 }));
    assert!(said[0].contains("--reach-driver"));
}

#[test]
fn vex_verify_no_machine_witnesses_is_a_noop() {
    let doc = Json::parse(
        r#"{"statements":[{
            "vulnerability": { "name": "RUSTSEC-2099-0001" },
            "subcomponents": [{ "@id": "pkg:cargo/foo@1.0.0" }],
            "status": "under_investigation"
        }]}"#,
    )
    .unwrap();
    let (run, _) = verify_start(true, true);
    let (run, _) = verify_next(true, run, Answer::ConfigRead(Ok(config(&["app"]))));
    let (run, _) = verify_next(true, run, Answer::DocumentRead(Ok(doc)));
    assert!(matches!(run, Verify::Done { code: 0 }));
}

/// Compares a committed document with what holds now: the code and what was said.
fn check(committed: Result<Json, String>, current: Vec<StatementView>) -> (u8, String) {
    let mut committed = Some(committed);
    let mut current = Some(current);
    let mut text = String::new();
    let mut run = Check::Configuring;
    loop {
        let answer = match &run {
            Check::Done { code } => return (*code, text),
            Check::Configuring => Answer::ConfigRead(Ok(config(&["app"]))),
            Check::Opening { .. } => Answer::DbOpened(Ok(())),
            Check::Reading { .. } => Answer::DocumentRead(committed.take().unwrap()),
            Check::Scanning { .. } => Answer::Scanned {
                scan: clean(),
                provenance: provenance("2026-06-24T00:00:00Z"),
            },
            Check::Naming { .. } => Answer::ManifestsRead(vec![None]),
            Check::Projecting { .. } => Answer::Projected(Ok(current.take().unwrap())),
        };
        let (after, said) = check_next(true, run, answer);
        for line in said {
            text.push_str(&line);
            text.push('\n');
        }
        run = after;
    }
}

fn statement(status: &str) -> StatementView {
    StatementView {
        vulnerability: "RUSTSEC-2099-0001".into(),
        product: "pkg:cargo/app@1.0.0".into(),
        subcomponent: "pkg:cargo/fixturevuln@1.0.0".into(),
        status: status.into(),
    }
}

#[test]
fn vex_check_passes_when_in_sync() {
    let doc = r#"{"statements":[{
        "vulnerability": { "name": "RUSTSEC-2099-0001" },
        "products": [{ "@id": "pkg:cargo/app@1.0.0" }],
        "subcomponents": [{ "@id": "pkg:cargo/fixturevuln@1.0.0" }],
        "status": "not_affected"
    }]}"#;
    let (code, text) = check(
        Ok(Json::parse(doc).unwrap()),
        vec![statement("not_affected")],
    );
    assert_eq!(code, 0, "in sync; said: {text}");
}

#[test]
fn vex_check_fails_on_an_untriaged_finding() {
    let doc = Json::parse(r#"{"statements":[]}"#).unwrap();
    let (code, text) = check(Ok(doc), vec![statement("under_investigation")]);
    assert_eq!(code, 1);
    assert!(text.contains("untriaged"), "said: {text}");
}

#[test]
fn vex_check_fails_on_a_stale_not_affected() {
    let doc = Json::parse(
        r#"{"statements":[{
            "vulnerability": { "name": "RUSTSEC-GHOST-0001" },
            "products": [{ "@id": "pkg:cargo/app@1.0.0" }],
            "subcomponents": [{ "@id": "pkg:cargo/ghost@9.9.9" }],
            "status": "not_affected"
        }]}"#,
    )
    .unwrap();
    let (code, text) = check(Ok(doc), vec![]);
    assert_eq!(code, 1);
    assert!(text.contains("stale not_affected"), "said: {text}");
}

#[test]
fn vex_check_unreadable_document_is_could_not_scan() {
    let (code, _) = check(
        Err("reading committed VEX `does-not-exist.openvex.json`: not found".into()),
        vec![],
    );
    assert_eq!(code, 2);
}
