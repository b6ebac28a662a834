use fleetreach::cli::{BuildSandbox, Format, ReachMode, SeverityArg};
use fleetreach::config::{Config, PathState, RawConfig, RawRepo, RawVex};
use fleetreach::enrich::Enrichment;
use fleetreach::finding::{
    DepSource, DependencyKind, Ecosystem, Exploitability, Occurrence, RepoId, VulnFinding,
};
use fleetreach::json::Json;
use fleetreach::orchestrate::ScanData;
use fleetreach::outcome::{RepoOutcome, ScanStatus};
use fleetreach::pipeline::{next, start, Event, Paper, Request, Run, Said};
use fleetreach::report::Provenance;
use fleetreach::scan::{ScanFlags, VexArgs};
use fleetreach::score::Score;
use fleetreach::severity::Severity;
use fleetreach::static_reach;
use fleetreach::textmap::TextMap;
use fleetreach::version::Version;
use fleetreach::vex::StatementView;
use fleetreach::vex_run::{check_next, verify_next, verify_start, Answer, Check, Verify};

fn flags() -> ScanFlags {
    ScanFlags {
        offline: false,
        min_severity: None,
        fail_on: SeverityArg::Low,
        fail_on_warnings: false,
        resolve_features: false,
        ignore_phantom: false,
        enrich: false,
        has_kev_file: false,
        has_epss_file: false,
        fail_on_kev: false,
        min_epss: None,
        reachability: None,
        reachable_only: false,
        npm_prune_unreachable: false,
        allow_untrusted_builds: false,
        has_reach_driver: false,
        build_sandbox: BuildSandbox::Auto,
        quiet: false,
    }
}

fn provenance() -> Provenance {
    Provenance {
        tool_version: "0.1.0".into(),
        rustsec_crate_version: "0.33.0".into(),
        db_commit: Some("abc".into()),
        db_timestamp: Some("2026-06-23T00:00:00Z".into()),
        host_os: "linux".into(),
        host_arch: "x86_64".into(),
        generated_at: "2026-06-24T00:00:00Z".into(),
    }
}

fn occurrence(active: Option<bool>) -> Occurrence {
    Occurrence::InRepo {
        repo: RepoId("a".into()),
        package: "pkg".into(),
        installed: Version::new(1, 0, 0),
        patched: vec![],
        dependency_kind: DependencyKind::Direct,
        dependency_path: vec![],
        active,
        source: DepSource::CratesIo,
    }
}

fn vuln(id: &str, cve: &str, severity: Severity) -> VulnFinding {
    VulnFinding {
        advisory_id: id.into(),
        aliases: vec![cve.into()],
        ecosystem: Ecosystem::Cargo,
        reachability: None,
        exploit: Exploitability::default(),
        affected_functions: vec!["pkg::boom".into()],
        reachable: None,
        title: id.into(),
        severity,
        cvss_score: None,
        url: None,
        occurrences: vec![occurrence(None)],
    }
}

fn config() -> Config {
    let raw = RawConfig {
        repo: vec![RawRepo {
            id: "a".into(),
            path: "/fleet/a".into(),
            state: PathState::Directory,
            glob: false,
            glob_max_depth: None,
            vex_product_id: None,
            ecosystem: None,
        }],
        ignore: vec![],
        vex: RawVex {
            author: None,
            role: None,
            scope: None,
            product_id_base: None,
        },
        vex_assertion: vec![],
    };
    Config::from_raw(raw).unwrap()
}

fn data(vulnerabilities: Vec<VulnFinding>) -> ScanData {
    let vulns = vulnerabilities.len();
    ScanData {
        skipped_unparseable: 0,
        vulnerabilities,
        warnings: vec![],
        outcomes: vec![RepoOutcome {
            repo: RepoId("a".into()),
            status: ScanStatus::Scanned { vulns, warnings: 0 },
        }],
    }
}

fn vex_args() -> VexArgs {
    VexArgs {
        author: None,
        role: None,
        id: None,
        timestamp: None,
        scope: None,
        only_sound: false,
        alias_rustbinary: false,
        include_fixed: false,
        version: 1,
        supersedes: None,
    }
}


fn request(flags: ScanFlags, format: Format) -> Request {
    Request {
        flags,
        explain: None,
        why: None,
        limits_age: false,
        has_baseline: false,
        format,
        vex: vex_args(),
    }
}

fn lines(said: &[Said]) -> Vec<&str> {
    said.iter()
        .map(|s| match s {
            Said::Line(t) => t.as_str(),
            Said::Filtered(_) => "(filtered)",
        })
        .collect()
}

fn scanned(vulnerabilities: Vec<VulnFinding>) -> Event {
    Event::Scanned {
        scan: data(vulnerabilities),
        provenance: provenance(),
    }
}

/// A scan that has come to its fleet.
fn at_fleet(q: &Request) -> Run {
    let (run, _) = next(q, start(q), Event::ConfigRead(Ok(config())));
    next(q, run, Event::DbOpened(Ok(()))).0
}

#[test]
fn a_plain_scan_reads_scans_and_writes() {
    let q = request(flags(), Format::Table);
    let run = start(&q);
    assert!(matches!(run, Run::Configuring));
    let (run, _) = next(&q, run, Event::ConfigRead(Ok(config())));
    assert!(matches!(run, Run::Opening { .. }));
    let (run, _) = next(&q, run, Event::DbOpened(Ok(())));
    assert!(matches!(run, Run::Scanning { .. }));
    let (run, said) = next(&q, run, scanned(vec![vuln("RUSTSEC-1", "CVE-1", Severity::High)]));
    assert!(said.is_empty());
    assert!(
        matches!(&run, Run::Writing { report, paper: Paper::Plain, new: false }
            if report.vulnerabilities.len() == 1)
    );
    let (run, _) = next(&q, run, Event::Written(Ok(())));
    assert!(matches!(run, Run::Done { code: 1 }));
    let clean = at_fleet(&q);
    let (run, _) = next(&q, clean, scanned(vec![]));
    let (run, _) = next(&q, run, Event::Written(Ok(())));
    assert!(matches!(run, Run::Done { code: 0 }));
}

#[test]
fn a_gap_makes_the_scan_untrusted() {
    let q = request(flags(), Format::Json);
    let mut scan = data(vec![]);
    scan.outcomes.push(RepoOutcome {
        repo: RepoId("b".into()),
        status: ScanStatus::Errored {
            reason: "no lockfile".into(),
        },
    });
    let event = Event::Scanned {
        scan,
        provenance: provenance(),
    };
    let (run, _) = next(&q, at_fleet(&q), event);
    let (run, _) = next(&q, run, Event::Written(Ok(())));
    assert!(matches!(run, Run::Done { code: 2 }));
}

#[test]
fn whatever_fails_ends_the_scan() {
    let q = request(flags(), Format::Sarif);
    let (run, said) = next(&q, start(&q), Event::ConfigRead(Err("no file".into())));
    assert!(matches!(run, Run::Done { code: 2 }));
    assert_eq!(lines(&said), vec!["error: no file"]);

    let (run, _) = next(&q, start(&q), Event::ConfigRead(Ok(config())));
    let (run, said) = next(&q, run, Event::DbOpened(Err("no database".into())));
    assert!(matches!(run, Run::Done { code: 2 }));
    assert_eq!(lines(&said), vec!["error: no database"]);

    let mut aged = request(flags(), Format::Table);
    aged.limits_age = true;
    let run = at_fleet(&aged);
    assert!(matches!(run, Run::Aging { .. }));
    let (run, _) = next(&aged, run, Event::AgeChecked(Err("too old".into())));
    assert!(matches!(run, Run::Done { code: 2 }));

    let (run, _) = next(&q, at_fleet(&q), scanned(vec![]));
    let (run, _) = next(&q, run, Event::ManifestsRead(vec![None]));
    assert!(matches!(&run, Run::Writing { paper: Paper::Sarif(a), .. } if a.is_empty()));
    let (run, said) = next(&q, run, Event::Written(Err("bad".into())));
    assert!(matches!(run, Run::Done { code: 2 }));
    assert_eq!(lines(&said), vec!["error: serializing SARIF: bad"]);
}

#[test]
fn what_was_not_waited_for_changes_nothing() {
    let q = request(flags(), Format::Vex);
    let (run, said) = next(&q, start(&q), Event::Written(Ok(())));
    assert!(matches!(run, Run::Configuring));
    assert!(said.is_empty());
    let (run, _) = next(&q, at_fleet(&q), scanned(vec![]));
    assert!(matches!(run, Run::Naming { .. }));
    let (run, _) = next(&q, run, Event::ManifestsRead(vec![]));
    assert!(matches!(run, Run::Naming { .. }));
    let (run, _) = next(&q, Run::Done { code: 1 }, Event::Written(Ok(())));
    assert!(matches!(run, Run::Done { code: 1 }));
}

#[test]
fn an_advisory_is_explained_without_a_configuration() {
    let mut q = request(flags(), Format::Table);
    q.explain = Some("RUSTSEC-1".into());
    assert!(matches!(start(&q), Run::Explaining));
    let (run, _) = next(&q, start(&q), Event::Explained(Ok(true)));
    assert!(matches!(run, Run::Done { code: 0 }));
    let (run, said) = next(&q, start(&q), Event::Explained(Ok(false)));
    assert!(matches!(run, Run::Done { code: 2 }));
    assert_eq!(
        lines(&said),
        vec!["error: advisory RUSTSEC-1 not found in the database"]
    );
}

#[test]
fn routes_need_no_database() {
    let mut q = request(flags(), Format::Table);
    q.why = Some("serde".into());
    let routing = |q: &Request| next(q, start(q), Event::ConfigRead(Ok(config()))).0;
    let (run, _) = next(&q, routing(&q), Event::RoutesShown(true));
    assert!(matches!(run, Run::Done { code: 0 }));
    let (run, said) = next(&q, routing(&q), Event::RoutesShown(false));
    assert!(matches!(run, Run::Done { code: 2 }));
    assert_eq!(
        lines(&said),
        vec!["`serde` is not in any repo's dependency tree"]
    );
}

#[test]
fn signals_that_fail_do_not_end_the_scan() {
    let mut f = flags();
    f.enrich = true;
    let q = request(f, Format::Table);
    let found = || scanned(vec![vuln("RUSTSEC-1", "CVE-1", Severity::Low)]);
    let (run, _) = next(&q, at_fleet(&q), found());
    assert!(matches!(run, Run::Signalling { .. }));
    let (run, said) = next(&q, run, Event::SignalsRead(Err("no route".into())));
    assert!(matches!(run, Run::Writing { .. }));
    assert_eq!(lines(&said), vec!["warning: enrichment failed: no route"]);

    f.offline = true;
    let q = request(f, Format::Table);
    let (run, said) = next(&q, at_fleet(&q), found());
    assert!(matches!(run, Run::Writing { .. }));
    assert!(lines(&said)[0].starts_with("warning: enrichment failed: enrichment needs the network"));

    f.offline = false;
    f.min_epss = Some(Score {
        bits: 0.5f64.to_bits(),
    });
    let q = request(f, Format::Table);
    let (run, _) = next(&q, at_fleet(&q), found());
    let signals = Enrichment {
        kev: vec![],
        epss: TextMap::new().insert(
            "CVE-1".into(),
            Score {
                bits: 0.25f64.to_bits(),
            },
        ),
        cvss: TextMap::new(),
    };
    let (run, said) = next(&q, run, Event::SignalsRead(Ok(signals)));
    assert!(matches!(&run, Run::Writing { report, .. } if report.vulnerabilities.is_empty()));
    assert!(matches!(&said[0], Said::Filtered(d) if d[0].0 == "RUSTSEC-1"));
}

#[test]
fn nothing_is_built_before_it_is_allowed_and_announced() {
    let mut f = flags();
    f.reachability = Some(ReachMode::Static);
    let q = request(f, Format::Table);
    let (run, said) = next(&q, at_fleet(&q), scanned(vec![]));
    assert!(matches!(run, Run::Done { code: 2 }));
    assert!(lines(&said)[0].contains("--allow-untrusted-builds"));
    f.allow_untrusted_builds = true;
    let q = request(f, Format::Table);
    let (run, said) = next(&q, at_fleet(&q), scanned(vec![]));
    assert!(matches!(run, Run::Done { code: 2 }));
    assert!(lines(&said)[0].contains("--reach-driver"));
    f.has_reach_driver = true;
    f.reachable_only = true;
    let q = request(f, Format::Table);
    let (run, said) = next(
        &q,
        at_fleet(&q),
        scanned(vec![vuln("RUSTSEC-1", "CVE-1", Severity::High)]),
    );
    assert!(matches!(run, Run::Judging { mode: ReachMode::Static, .. }));
    assert!(lines(&said)[0].starts_with("warning: static reachability is about to BUILD 1 repo(s)"));
    let data = static_reach::RepoData {
        verdicts: TextMap::new().insert("pkg::boom".into(), static_reach::Verdict::NotReachable),
        cache_key: None,
    };
    let (run, said) = next(
        &q,
        run,
        Event::Analyzed {
            outcomes: TextMap::new().insert("a".into(), static_reach::RepoOutcome::Analyzed(data)),
            engine: "engine@1".into(),
            host: "x86_64".into(),
        },
    );
    assert!(matches!(&run, Run::Writing { report, .. } if report.vulnerabilities.is_empty()));
    assert_eq!(lines(&said), vec!["dropped 1 finding(s) proven unreachable (static)"]);
}

#[test]
fn the_heuristic_waits_for_the_source() {
    let mut f = flags();
    f.reachable_only = true;
    let q = request(f, Format::Table);
    let (run, _) = next(
        &q,
        at_fleet(&q),
        scanned(vec![vuln("RUSTSEC-1", "CVE-1", Severity::High)]),
    );
    assert!(matches!(run, Run::Judging { mode: ReachMode::Heuristic, .. }));
    let (run, _) = next(
        &q,
        run,
        Event::SourcesRead {
            sources: vec![],
            imports: vec![],
        },
    );
    assert!(matches!(run, Run::Writing { .. }));
}

#[test]
fn a_baseline_leaves_what_is_new() {
    let mut q = request(flags(), Format::Table);
    q.has_baseline = true;
    let two = || {
        scanned(vec![
            vuln("RUSTSEC-1", "CVE-1", Severity::High),
            vuln("RUSTSEC-2", "CVE-2", Severity::High),
        ])
    };
    let (run, _) = next(&q, at_fleet(&q), two());
    assert!(matches!(run, Run::Comparing { .. }));
    let (run, _) = next(&q, run, Event::BaselineRead(Ok(vec!["RUSTSEC-1".into()])));
    assert!(
        matches!(&run, Run::Writing { report, new: true, .. }
            if report.vulnerabilities.len() == 1
                && report.vulnerabilities[0].advisory_id == "RUSTSEC-2")
    );
    let (run, _) = next(&q, at_fleet(&q), two());
    let (run, _) = next(&q, run, Event::BaselineRead(Err("no file".into())));
    assert!(matches!(run, Run::Done { code: 2 }));
}

#[test]
fn a_vex_document_without_an_author_is_wrong_usage() {
    let mut q = request(flags(), Format::Vex);
    let (run, _) = next(&q, at_fleet(&q), scanned(vec![]));
    let (run, said) = next(&q, run, Event::ManifestsRead(vec![None]));
    assert!(matches!(run, Run::Done { code: 3 }));
    assert_eq!(
        lines(&said),
        vec!["error: no VEX author: set --vex-author or settings.vex.author"]
    );
    q.vex.author = Some("me".into());
    let (run, _) = next(&q, at_fleet(&q), scanned(vec![]));
    let (run, _) = next(&q, run, Event::ManifestsRead(vec![None]));
    assert!(
        matches!(&run, Run::Writing { paper: Paper::Vex(p), .. }
            if p.author == "me" && p.timestamp == "2026-06-23T00:00:00Z")
    );
}

fn empty_document() -> Json {
    Json::parse("{\"statements\": []}").unwrap()
}

fn checked_until_projection(doc: Json) -> Check {
    let (run, _) = check_next(false, Check::Configuring, Answer::ConfigRead(Ok(config())));
    let (run, _) = check_next(false, run, Answer::DbOpened(Ok(())));
    let (run, _) = check_next(false, run, Answer::DocumentRead(Ok(doc)));
    let answer = Answer::Scanned {
        scan: data(vec![]),
        provenance: provenance(),
    };
    let (run, _) = check_next(false, run, answer);
    check_next(false, run, Answer::ManifestsRead(vec![None])).0
}

#[test]
fn a_comparison_ends_in_what_drifted() {
    let run = checked_until_projection(empty_document());
    assert!(matches!(&run, Check::Projecting { params, .. } if params.version == 1));
    let (run, said) = check_next(false, run, Answer::Projected(Ok(vec![])));
    assert!(matches!(run, Check::Done { code: 0 }));
    assert_eq!(
        said,
        vec!["vex check: 0 current statement(s), 0 committed; 0 drift error(s), 0 warning(s)."
            .to_string()]
    );
    let current = StatementView {
        vulnerability: "CVE-1".into(),
        product: "pkg:cargo/app@1.0.0".into(),
        subcomponent: "pkg:cargo/foo@1.0.0".into(),
        status: "affected".into(),
    };
    let (run, said) = check_next(
        true,
        checked_until_projection(empty_document()),
        Answer::Projected(Ok(vec![current])),
    );
    assert!(matches!(run, Check::Done { code: 1 }));
    assert_eq!(said.len(), 1);
    assert!(said[0].starts_with("error: "));
    let (run, said) = check_next(
        true,
        Check::Configuring,
        Answer::ConfigRead(Err("no file".into())),
    );
    assert!(matches!(run, Check::Done { code: 2 }));
    assert_eq!(said, vec!["error: no file".to_string()]);
}

#[test]
fn witnesses_are_checked_only_with_consent() {
    let (run, said) = verify_start(false, true);
    assert!(matches!(run, Verify::Done { code: 3 }));
    assert!(said[0].contains("--allow-untrusted-builds"));
    let (run, said) = verify_start(true, false);
    assert!(matches!(run, Verify::Done { code: 3 }));
    assert_eq!(
        said,
        vec!["error: vex verify requires --reach-driver <PATH>".to_string()]
    );
    let (run, said) = verify_start(true, true);
    assert!(matches!(run, Verify::Configuring));
    assert!(said.is_empty());
}

#[test]
fn a_document_without_witnesses_is_in_order() {
    let (run, _) = verify_next(false, Verify::Configuring, Answer::ConfigRead(Ok(config())));
    let (run, said) = verify_next(false, run, Answer::DocumentRead(Ok(empty_document())));
    assert!(matches!(run, Verify::Done { code: 0 }));
    assert_eq!(
        said,
        vec!["vex verify: no reachability witnesses to re-derive.".to_string()]
    );
}
