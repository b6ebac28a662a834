use fleetreach::assemble::SuppressedOccurrence;
use fleetreach::cli::{
    is_colored, render_error, BuildSandbox, Format, ReachMode, SeverityArg, VexScopeArg,
};
use fleetreach::config::{Config, Ignore, PathState, RawConfig, RawRepo, RawVex, VexScope};
use fleetreach::diff::diff_exit_code;
use fleetreach::enrich::Enrichment;
use fleetreach::finding::{
    DepSource, DependencyKind, Ecosystem, Exploitability, Occurrence, RepoId, VulnFinding,
};
use fleetreach::go_run::SandboxPolicy;
use fleetreach::orchestrate::ScanData;
use fleetreach::outcome::{RepoOutcome, ScanStatus};
use fleetreach::reach::{RepoSource, SourceFile};
use fleetreach::report::{FleetReport, Provenance};
use fleetreach::scan::{
    add_signals, assess_heuristic, build_vex_params, build_warning, drop_unbuilt,
    drop_unreachable, gather, locate_govulncheck, mirror, offline_signals, reach_mode,
    resolves_features, route_lines, scan_exit_code, signal_source, since_baseline, skipped_note,
    static_refusal, unbuilt_note, unreachable_note, why_conclusion, Places, Route, ScanFlags,
    SignalSource, VexArgs,
};
use fleetreach::score::Score;
use fleetreach::severity::Severity;
use fleetreach::textmap::TextMap;
use fleetreach::version::Version;

fn flags() -> ScanFlags {
    ScanFlags {
        offline: false,
        min_severity: None,
        fail_on: SeverityArg::Low,
        fail_on_warnings: false,
        resolve_features: false,
        ignore_phantom: false,
        enrich: false,
        has_kev_file: false,
        has_epss_file: false,
        fail_on_kev: false,
        min_epss: None,
        reachability: None,
        reachable_only: false,
        npm_prune_unreachable: false,
        allow_untrusted_builds: false,
        has_reach_driver: false,
        build_sandbox: BuildSandbox::Auto,
        quiet: false,
    }
}

fn score(x: f64) -> Score {
    Score { bits: x.to_bits() }
}

fn provenance() -> Provenance {
    Provenance {
        tool_version: "0.1.0".into(),
        rustsec_crate_version: "0.33.0".into(),
        db_commit: Some("abc".into()),
        db_timestamp: Some("2026-06-23T00:00:00Z".into()),
        host_os: "linux".into(),
        host_arch: "x86_64".into(),
        generated_at: "2026-06-24T00:00:00Z".into(),
    }
}

fn occurrence(active: Option<bool>) -> Occurrence {
    Occurrence::InRepo {
        repo: RepoId("a".into()),
        package: "pkg".into(),
        installed: Version::new(1, 0, 0),
        patched: vec![],
        dependency_kind: DependencyKind::Direct,
        dependency_path: vec![],
        active,
        source: DepSource::CratesIo,
    }
}

fn vuln(id: &str, cve: &str, severity: Severity) -> VulnFinding {
    VulnFinding {
        advisory_id: id.into(),
        aliases: vec![cve.into()],
        ecosystem: Ecosystem::Cargo,
        reachability: None,
        exploit: Exploitability::default(),
        affected_functions: vec!["pkg::boom".into()],
        reachable: None,
        title: id.into(),
        severity,
        cvss_score: None,
        url: None,
        occurrences: vec![occurrence(None)],
    }
}

fn config() -> Config {
    let raw = RawConfig {
        repo: vec![RawRepo {
            id: "a".into(),
            path: "/fleet/a".into(),
            state: PathState::Directory,
            glob: false,
            glob_max_depth: None,
            vex_product_id: None,
            ecosystem: None,
        }],
        ignore: vec![],
        vex: RawVex {
            author: None,
            role: None,
            scope: None,
            product_id_base: None,
        },
        vex_assertion: vec![],
    };
    Config::from_raw(raw).unwrap()
}

fn data(vulnerabilities: Vec<VulnFinding>) -> ScanData {
    let vulns = vulnerabilities.len();
    ScanData {
        skipped_unparseable: 0,
        vulnerabilities,
        warnings: vec![],
        outcomes: vec![RepoOutcome {
            repo: RepoId("a".into()),
            status: ScanStatus::Scanned { vulns, warnings: 0 },
        }],
    }
}

fn report(vulnerabilities: Vec<VulnFinding>) -> FleetReport {
    gather(data(vulnerabilities), &config(), &flags(), provenance()).report
}

fn ids(report: &FleetReport) -> Vec<&str> {
    report
        .vulnerabilities
        .iter()
        .map(|v| v.advisory_id.as_str())
        .collect()
}

#[test]
fn a_setting_of_the_command_line_wins() {
    let s = |x: &str| Some(x.to_string());
    assert_eq!(mirror(&s("file:///a"), &s("file:///b")), s("file:///a"));
    assert_eq!(mirror(&None, &s("file:///b")), s("file:///b"));
    assert_eq!(mirror(&s(""), &s("file:///b")), None);
    assert_eq!(mirror(&None, &None), None);
}

#[test]
fn the_go_checker_is_looked_for_in_order() {
    let places = Places {
        path: vec!["/usr/bin".into(), "/opt/".into()],
        gopath: vec!["/go".into()],
        home: Some("/home/me".into()),
    };
    assert!(locate_govulncheck(false, &Some("/x".into()), &places).is_empty());
    assert_eq!(
        locate_govulncheck(true, &Some("/x".into()), &places),
        vec!["/x"]
    );
    assert_eq!(
        locate_govulncheck(true, &None, &places),
        vec![
            "/usr/bin/govulncheck",
            "/opt/govulncheck",
            "/go/bin/govulncheck",
            "/home/me/go/bin/govulncheck",
        ]
    );
}

#[test]
fn gating_by_signals_asks_for_them() {
    assert_eq!(signal_source(&flags()), SignalSource::Unasked);
    let kev = ScanFlags {
        fail_on_kev: true,
        ..flags()
    };
    assert_eq!(signal_source(&kev), SignalSource::Network);
    let offline = ScanFlags {
        offline: true,
        ..kev
    };
    assert_eq!(signal_source(&offline), SignalSource::Refused);
    let files = ScanFlags {
        has_epss_file: true,
        ..offline
    };
    assert_eq!(signal_source(&files), SignalSource::Files);
    assert!(offline_signals().starts_with("enrichment needs the network; with --offline"));
}

#[test]
fn filtering_by_reachability_asks_for_the_heuristic() {
    assert_eq!(reach_mode(&flags()), None);
    let only = ScanFlags {
        reachable_only: true,
        ..flags()
    };
    assert_eq!(reach_mode(&only), Some(ReachMode::Heuristic));
    let prune = ScanFlags {
        npm_prune_unreachable: true,
        ..flags()
    };
    assert_eq!(reach_mode(&prune), Some(ReachMode::Heuristic));
    let fixed = ScanFlags {
        reachability: Some(ReachMode::Static),
        ..only
    };
    assert_eq!(reach_mode(&fixed), Some(ReachMode::Static));
}

#[test]
fn static_analysis_needs_consent_then_a_driver() {
    let asked = ScanFlags {
        reachability: Some(ReachMode::Static),
        ..flags()
    };
    assert!(static_refusal(&asked)
        .unwrap()
        .contains("--allow-untrusted-builds"));
    let consented = ScanFlags {
        allow_untrusted_builds: true,
        ..asked
    };
    assert_eq!(
        static_refusal(&consented),
        Some("--reachability=static requires --reach-driver <PATH>".to_string())
    );
    let driven = ScanFlags {
        has_reach_driver: true,
        ..consented
    };
    assert_eq!(static_refusal(&driven), None);
    assert_eq!(static_refusal(&flags()), None);
    assert_eq!(
        build_warning(2, BuildSandbox::Off),
        "warning: static reachability is about to BUILD 2 repo(s), running their build scripts \
         and proc-macros: UNCONFINED (--build-sandbox=off). Only trusted repos should be scanned \
         this way."
    );
}

#[test]
fn the_threshold_and_the_ignores_are_applied() {
    let mut cfg = config();
    cfg.ignores = vec![Ignore {
        id: "IGNORED".into(),
        reason: "r".into(),
    }];
    let asked = ScanFlags {
        min_severity: Some(SeverityArg::High),
        ..flags()
    };
    let scan = data(vec![
        vuln("IGNORED", "CVE-1", Severity::Critical),
        vuln("LOW", "CVE-2", Severity::Low),
        vuln("HIGH", "CVE-3", Severity::High),
    ]);
    let got = gather(scan, &cfg, &asked, provenance());
    assert_eq!(ids(&got.report), vec!["HIGH"]);
    assert_eq!(got.suppressed.len(), 1);
}

#[test]
fn unbuilt_findings_go_only_when_asked() {
    let unbuilt = || {
        let mut v = vuln("X", "CVE-1", Severity::High);
        v.occurrences = vec![occurrence(Some(false))];
        v
    };
    let mut kept = report(vec![unbuilt()]);
    assert_eq!(drop_unbuilt(&mut kept, &flags()), 0);
    assert_eq!(ids(&kept), vec!["X"]);
    let asked = ScanFlags {
        ignore_phantom: true,
        ..flags()
    };
    assert!(resolves_features(&asked));
    let mut dropped = report(vec![unbuilt()]);
    assert_eq!(drop_unbuilt(&mut dropped, &asked), 1);
    assert!(ids(&dropped).is_empty());
}

#[test]
fn signals_filter_and_order() {
    let signals = Enrichment {
        kev: vec!["CVE-3".into()],
        epss: TextMap::new()
            .insert("CVE-1".to_string(), score(0.01))
            .insert("CVE-2".to_string(), score(0.9)),
        cvss: TextMap::new().insert("CVE-3".to_string(), score(9.8)),
    };
    let mut r = report(vec![
        vuln("A", "CVE-1", Severity::High),
        vuln("B", "CVE-2", Severity::High),
        vuln("C", "CVE-3", Severity::Unknown),
    ]);
    let dropped = add_signals(&mut r, &signals, Some(score(0.5)));
    assert_eq!(dropped, vec![("A".to_string(), score(0.01))]);
    assert_eq!(ids(&r), vec!["C", "B"]);
    assert_eq!(r.summary.max_severity, Severity::Critical);
    assert_eq!(r.summary.vuln_count, 2);
}

#[test]
fn unreachable_findings_go_only_when_asked() {
    let sources = vec![RepoSource {
        repo: "a".into(),
        files: vec![SourceFile {
            name: "lib.rs".into(),
            text: "fn nothing() {}".into(),
        }],
    }];
    let mut r = report(vec![vuln("A", "CVE-1", Severity::High)]);
    assess_heuristic(&mut r, &sources, &vec![], &flags());
    assert_eq!(r.vulnerabilities[0].reachable, Some(false));
    assert_eq!(drop_unreachable(&mut r, &flags()), 0);
    let asked = ScanFlags {
        reachable_only: true,
        ..flags()
    };
    assert_eq!(drop_unreachable(&mut r, &asked), 1);
    assert!(ids(&r).is_empty());
}

#[test]
fn what_is_new_since_the_baseline_fails() {
    let mut r = report(vec![vuln("OLD", "CVE-1", Severity::High)]);
    assert!(!since_baseline(&mut r, &None));
    assert_eq!(ids(&r), vec!["OLD"]);
    let known = Some(vec!["OLD".to_string()]);
    assert!(!since_baseline(&mut r, &known));
    assert!(ids(&r).is_empty());
    let mut r = report(vec![
        vuln("OLD", "CVE-1", Severity::High),
        vuln("NEW", "CVE-2", Severity::High),
    ]);
    assert!(since_baseline(&mut r, &known));
    assert_eq!(ids(&r), vec!["NEW"]);
}

#[test]
fn exit_codes_go_from_untrusted_to_clean() {
    let clean = report(vec![]);
    assert_eq!(scan_exit_code(&clean, &flags(), false), 0);
    assert_eq!(scan_exit_code(&clean, &flags(), true), 1);
    let low = report(vec![vuln("A", "CVE-1", Severity::Low)]);
    assert_eq!(scan_exit_code(&low, &flags(), false), 1);
    let strict = ScanFlags {
        fail_on: SeverityArg::Critical,
        ..flags()
    };
    assert_eq!(scan_exit_code(&low, &strict, false), 0);
    let mut exploited = report(vec![vuln("A", "CVE-1", Severity::Low)]);
    exploited.vulnerabilities[0].exploit.kev = true;
    assert_eq!(scan_exit_code(&exploited, &strict, false), 0);
    let kev = ScanFlags {
        fail_on_kev: true,
        ..strict
    };
    assert_eq!(scan_exit_code(&exploited, &kev, false), 1);
    let mut gap = report(vec![]);
    gap.summary.repos_errored = 1;
    assert_eq!(scan_exit_code(&gap, &kev, true), 2);
}

fn vex_args() -> VexArgs {
    VexArgs {
        author: None,
        role: None,
        id: None,
        timestamp: None,
        scope: None,
        only_sound: false,
        alias_rustbinary: false,
        include_fixed: false,
        version: 1,
        supersedes: None,
    }
}

#[test]
fn a_document_needs_an_author_and_a_time() {
    let purls = vec![None];
    let suppressed: Vec<SuppressedOccurrence> = vec![];
    let mut r = report(vec![]);
    let make = |args: &VexArgs, r: &FleetReport| {
        build_vex_params(args, &config(), r, &suppressed, &purls)
    };
    assert_eq!(
        make(&vex_args(), &r).unwrap_err(),
        "no VEX author: set --vex-author or settings.vex.author"
    );
    let authored = VexArgs {
        author: Some("me".into()),
        ..vex_args()
    };
    let (params, _) = make(&authored, &r).unwrap();
    assert_eq!(params.author, "me");
    assert_eq!(params.role.as_deref(), Some("Document Creator"));
    assert_eq!(params.scope, VexScope::Runtime);
    assert_eq!(params.timestamp, "2026-06-23T00:00:00Z");
    assert_eq!(
        params.product_ids.get("a").unwrap(),
        "urn:fleetreach:product:a"
    );
    r.provenance.db_timestamp = None;
    assert_eq!(
        make(&authored, &r).unwrap_err(),
        "no advisory-db commit time for the VEX timestamp; pass --vex-timestamp <RFC3339>"
    );
    let timed = VexArgs {
        timestamp: Some("2027-01-01T00:00:00Z".into()),
        scope: Some(VexScopeArg::Build),
        version: 7,
        ..authored
    };
    let (params, _) = make(&timed, &r).unwrap();
    assert_eq!(params.timestamp, "2027-01-01T00:00:00Z");
    assert_eq!(params.scope, VexScope::Build);
    assert_eq!(params.version, 7);
}

#[test]
fn routes_are_shown_in_two_lines() {
    let route = Route {
        version: "1.2.3".into(),
        path: vec!["app".into(), "a".into(), "foo".into()],
        direct: false,
    };
    assert_eq!(
        route_lines("svc", "foo", &route),
        (
            "svc — foo 1.2.3 (transitive):".to_string(),
            "  app → a → foo".to_string()
        )
    );
    assert_eq!(why_conclusion(true, "foo"), (0, None));
    assert_eq!(
        why_conclusion(false, "foo"),
        (
            2,
            Some("`foo` is not in any repo's dependency tree".to_string())
        )
    );
}

#[test]
fn notes_are_given_only_where_there_is_something() {
    assert_eq!(skipped_note(0), None);
    assert!(skipped_note(3).unwrap().starts_with("note: skipped 3 package(s)"));
    assert_eq!(unbuilt_note(0, false), None);
    assert_eq!(unbuilt_note(2, true), None);
    assert_eq!(
        unbuilt_note(2, false),
        Some("suppressed 2 finding(s) on packages not in the default build".to_string())
    );
    assert_eq!(
        unreachable_note(ReachMode::Static, 10, false),
        Some("dropped 10 finding(s) proven unreachable (static)".to_string())
    );
    assert_eq!(unreachable_note(ReachMode::Heuristic, 1, true), None);
}

#[test]
fn arguments_stand_for_what_they_say() {
    assert_eq!(Severity::from(SeverityArg::Critical), Severity::Critical);
    assert_eq!(VexScope::from(VexScopeArg::Build), VexScope::Build);
    assert_eq!(SandboxPolicy::from(BuildSandbox::Require), SandboxPolicy::Require);
}

#[test]
fn only_people_get_color() {
    assert!(is_colored(Format::Table, true));
    assert!(!is_colored(Format::Table, false));
    assert!(!is_colored(Format::Json, true));
    assert_eq!(
        render_error(Format::Sarif, "x"),
        Some("serializing SARIF: x".to_string())
    );
    assert_eq!(render_error(Format::Table, "x"), None);
}

#[test]
fn comparisons_gate_unless_they_only_report() {
    assert_eq!(diff_exit_code(false, 0), 0);
    assert_eq!(diff_exit_code(false, 3), 1);
    assert_eq!(diff_exit_code(true, 3), 0);
}
