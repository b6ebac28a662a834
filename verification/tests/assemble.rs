use fleetreach::assemble::{
    apply_suppressions, assemble, build_report, combine_baseline, drop_phantom, exit_code,
    retain_min_epss, retain_new, stale_suppressions, GateConfig, Suppression,
};
use fleetreach::correlate::correlate;
use fleetreach::config::{Ignore, VexAssertion};
use fleetreach::finding::{
    DepSource, DependencyKind, Ecosystem, Exploitability, Occurrence, RepoId, VulnFinding,
    WarnFinding, WarnKind,
};
use fleetreach::orchestrate::ScanData;
use fleetreach::outcome::{RepoOutcome, ScanStatus};
use fleetreach::report::{FleetReport, Provenance};
use fleetreach::score::Score;
use fleetreach::severity::Severity;
use fleetreach::version::Version;

fn provenance() -> Provenance {
    Provenance {
        tool_version: "0.1.0".into(),
        rustsec_crate_version: "0.33.0".into(),
        db_commit: Some("abc123".into()),
        db_timestamp: Some("2026-06-23T00:00:00Z".into()),
        host_os: "linux".into(),
        host_arch: "x86_64".into(),
        generated_at: "2026-06-24T00:00:00Z".into(),
    }
}

fn occurrence(repo: &str, version: Version, active: Option<bool>) -> Occurrence {
    Occurrence::InRepo {
        repo: RepoId(repo.into()),
        package: "pkg".into(),
        installed: version,
        patched: vec![],
        dependency_kind: DependencyKind::Transitive,
        dependency_path: vec![],
        active,
        source: DepSource::CratesIo,
    }
}

fn vuln(id: &str, severity: Severity, repo: &str) -> VulnFinding {
    VulnFinding {
        advisory_id: id.into(),
        aliases: vec![],
        ecosystem: Ecosystem::Cargo,
        reachability: None,
        exploit: Exploitability::default(),
        affected_functions: vec![],
        reachable: None,
        title: format!("title {id}"),
        severity,
        cvss_score: None,
        url: None,
        occurrences: vec![occurrence(repo, Version::new(1, 0, 0), None)],
    }
}

fn warn(id: &str, repo: &str) -> WarnFinding {
    WarnFinding {
        kind: WarnKind::Unmaintained,
        advisory_id: Some(id.into()),
        title: "unmaintained".into(),
        occurrences: vec![occurrence(repo, Version::new(0, 1, 0), None)],
    }
}

fn scanned(id: &str, vulns: usize, warnings: usize) -> RepoOutcome {
    RepoOutcome {
        repo: RepoId(id.into()),
        status: ScanStatus::Scanned { vulns, warnings },
    }
}

fn errored(id: &str) -> RepoOutcome {
    RepoOutcome {
        repo: RepoId(id.into()),
        status: ScanStatus::Errored {
            reason: "missing Cargo.lock".into(),
        },
    }
}

fn gate(fail_on: Severity, fail_on_warnings: bool) -> GateConfig {
    GateConfig {
        fail_on,
        fail_on_warnings,
    }
}

fn scan(
    vulnerabilities: Vec<VulnFinding>,
    warnings: Vec<WarnFinding>,
    outcomes: Vec<RepoOutcome>,
) -> ScanData {
    ScanData {
        skipped_unparseable: 0,
        vulnerabilities,
        warnings,
        outcomes,
    }
}

fn report_with(ids: &[&str]) -> FleetReport {
    let data = scan(
        ids.iter().map(|id| vuln(id, Severity::High, "a")).collect(),
        vec![],
        vec![scanned("a", ids.len(), 0)],
    );
    build_report(data, &vec![], None, provenance())
}

fn ids(report: &FleetReport) -> Vec<&str> {
    report
        .vulnerabilities
        .iter()
        .map(|v| v.advisory_id.as_str())
        .collect()
}

#[test]
fn report_assembly_clean_fleet_exits_zero() {
    let data = scan(vec![], vec![], vec![scanned("a", 0, 0), scanned("b", 0, 0)]);
    let report = build_report(data, &vec![], None, provenance());
    assert_eq!(report.summary.repos_scanned, 2);
    assert_eq!(exit_code(&report, &gate(Severity::Low, false)), 0);
}

#[test]
fn vuln_at_or_above_fail_on_exits_one() {
    let data = scan(
        vec![vuln("RUSTSEC-1", Severity::High, "a")],
        vec![],
        vec![scanned("a", 1, 0)],
    );
    let report = build_report(data, &vec![], None, provenance());
    assert_eq!(exit_code(&report, &gate(Severity::Low, false)), 1);
    // High is below Critical and not Unknown -> does not trip a Critical gate.
    assert_eq!(exit_code(&report, &gate(Severity::Critical, false)), 0);
}

#[test]
fn errored_repo_forces_two_even_with_no_findings() {
    let data = scan(vec![], vec![], vec![scanned("a", 0, 0), errored("b")]);
    let report = build_report(data, &vec![], None, provenance());
    assert_eq!(report.summary.repos_errored, 1);
    assert_eq!(exit_code(&report, &gate(Severity::Low, false)), 2);
}

#[test]
fn zero_repos_scanned_exits_two() {
    // An empty fleet is untrustworthy: we read nothing, so we cannot claim clean.
    let report = build_report(scan(vec![], vec![], vec![]), &vec![], None, provenance());
    assert_eq!(report.summary.repos_scanned, 0);
    assert_eq!(exit_code(&report, &gate(Severity::Low, false)), 2);
}

#[test]
fn unknown_severity_vuln_is_fail_closed() {
    let data = scan(
        vec![vuln("RUSTSEC-1", Severity::Unknown, "a")],
        vec![],
        vec![scanned("a", 1, 0)],
    );
    let report = build_report(data, &vec![], None, provenance());
    // Even with the strictest gate, an unknown-severity vuln still trips it.
    assert_eq!(exit_code(&report, &gate(Severity::Critical, false)), 1);
}

#[test]
fn warnings_only_gate_when_opted_in() {
    let data = scan(
        vec![],
        vec![warn("RUSTSEC-W", "a")],
        vec![scanned("a", 0, 1)],
    );
    let report = build_report(data, &vec![], None, provenance());
    assert_eq!(exit_code(&report, &gate(Severity::Low, false)), 0);
    assert_eq!(exit_code(&report, &gate(Severity::Low, true)), 1);
}

#[test]
fn ignores_suppress_findings_and_report_stale() {
    let data = scan(
        vec![vuln("RUSTSEC-PRESENT", Severity::High, "a")],
        vec![],
        vec![scanned("a", 1, 0)],
    );
    let ignores = vec![
        Ignore {
            id: "RUSTSEC-PRESENT".into(),
            reason: "dev only".into(),
        },
        Ignore {
            id: "RUSTSEC-ABSENT".into(),
            reason: "no longer relevant".into(),
        },
    ];
    let report = build_report(data, &ignores, None, provenance());

    assert_eq!(report.vulnerabilities.len(), 0, "present id suppressed");
    assert_eq!(
        report.summary.stale_ignores,
        vec!["RUSTSEC-ABSENT".to_string()]
    );
    // Suppressed -> nothing to gate on.
    assert_eq!(exit_code(&report, &gate(Severity::Low, false)), 0);
}

#[test]
fn repo_scoped_suppression_removes_only_that_repos_occurrence() {
    // One advisory in two repos; a repo-scoped suppression must clear only `a`.
    let mut v = vuln("RUSTSEC-SCOPED", Severity::High, "a");
    v.occurrences
        .push(occurrence("b", Version::new(1, 0, 0), None));
    let data = scan(
        vec![v],
        vec![],
        vec![scanned("a", 1, 0), scanned("b", 1, 0)],
    );
    let suppressions = vec![Suppression {
        id: "RUSTSEC-SCOPED".into(),
        repo: Some(RepoId("a".into())),
        justification: Some("component_not_present".into()),
        reason: "dev only in a".into(),
        approved_by: Some("secteam".into()),
    }];
    let out = assemble(data, &suppressions, None, provenance());

    // The finding survives (repo `b` still vulnerable) with one occurrence left.
    assert_eq!(out.report.vulnerabilities.len(), 1);
    let occs = &out.report.vulnerabilities[0].occurrences;
    assert_eq!(occs.len(), 1);
    assert!(matches!(&occs[0], Occurrence::InRepo { repo, .. } if repo.0 == "b"));
    // The suppressed `a` occurrence is captured with its assertion metadata.
    assert_eq!(out.suppressed.len(), 1);
    let s = &out.suppressed[0];
    assert_eq!(s.advisory_id, "RUSTSEC-SCOPED");
    assert_eq!(s.justification.as_deref(), Some("component_not_present"));
    assert_eq!(s.approved_by.as_deref(), Some("secteam"));
    assert!(matches!(&s.occurrence, Occurrence::InRepo { repo, .. } if repo.0 == "a"));
    // `b` still fails the scan.
    assert_eq!(exit_code(&out.report, &gate(Severity::Low, false)), 1);
}

#[test]
fn min_severity_filters_below_threshold_but_keeps_unknown() {
    let data = scan(
        vec![
            vuln("RUSTSEC-LOW", Severity::Low, "a"),
            vuln("RUSTSEC-HIGH", Severity::High, "a"),
            vuln("RUSTSEC-UNK", Severity::Unknown, "a"),
        ],
        vec![],
        vec![scanned("a", 3, 0)],
    );
    let report = build_report(data, &vec![], Some(Severity::High), provenance());
    let ids = ids(&report);
    // High kept, Unknown kept (fail-closed), Low dropped.
    assert!(ids.contains(&"RUSTSEC-HIGH"));
    assert!(ids.contains(&"RUSTSEC-UNK"));
    assert!(!ids.contains(&"RUSTSEC-LOW"));
}

#[test]
fn assembly_is_byte_identical_across_runs() {
    let make = || {
        scan(
            vec![
                vuln("RUSTSEC-2", Severity::Low, "z"),
                vuln("RUSTSEC-1", Severity::High, "a"),
                vuln("RUSTSEC-1", Severity::High, "b"),
            ],
            vec![warn("RUSTSEC-W", "a")],
            vec![scanned("a", 2, 1), scanned("b", 1, 0), scanned("z", 1, 0)],
        )
    };
    let a = build_report(make(), &vec![], None, provenance());
    let b = build_report(make(), &vec![], None, provenance());
    assert_eq!(
        format!("{a:?}"),
        format!("{b:?}"),
        "same inputs must render byte-identically"
    );
}

#[test]
fn retain_new_drops_known_findings_and_recounts() {
    let mut report = report_with(&["RUSTSEC-OLD", "RUSTSEC-NEW"]);
    let baseline = vec!["RUSTSEC-OLD".to_string()];

    retain_new(&mut report, &baseline);

    assert_eq!(report.vulnerabilities.len(), 1);
    assert_eq!(report.vulnerabilities[0].advisory_id, "RUSTSEC-NEW");
    assert_eq!(report.summary.vuln_count, 1, "summary recounted");
}

#[test]
fn drop_phantom_removes_unbuilt_keeps_built_and_unknown() {
    let finding = |id: &str, active: Option<bool>| VulnFinding {
        occurrences: vec![occurrence("a", Version::new(1, 0, 0), active)],
        ..vuln(id, Severity::High, "a")
    };
    let data = scan(
        vec![
            finding("RUSTSEC-PHANTOM", Some(false)),
            finding("RUSTSEC-BUILT", Some(true)),
            finding("RUSTSEC-UNKNOWN", None),
        ],
        vec![],
        vec![scanned("a", 3, 0)],
    );
    let mut report = build_report(data, &vec![], None, provenance());

    let removed = drop_phantom(&mut report);

    assert_eq!(removed, 1, "only the phantom finding is removed");
    let ids = ids(&report);
    assert!(ids.contains(&"RUSTSEC-BUILT"));
    assert!(
        ids.contains(&"RUSTSEC-UNKNOWN"),
        "unknown build status is kept (fail-closed)"
    );
    assert!(!ids.contains(&"RUSTSEC-PHANTOM"));
    assert_eq!(report.summary.vuln_count, 2, "counts recomputed");
}

#[test]
fn combine_baseline_respects_exit_precedence() {
    // An untrustworthy 2 always wins, even if there are new findings.
    assert_eq!(combine_baseline(2, true), 2);
    // A new finding lifts a clean run to 1.
    assert_eq!(combine_baseline(0, true), 1);
    // No new findings leaves the code untouched.
    assert_eq!(combine_baseline(0, false), 0);
    assert_eq!(combine_baseline(1, false), 1);
}

#[test]
fn a_threshold_on_probability_keeps_what_is_not_known() {
    let with = |id: &str, epss: Option<f64>| {
        let mut v = vuln(id, Severity::High, "a");
        v.exploit.epss = epss.map(|x| Score { bits: x.to_bits() });
        v
    };
    let data = scan(
        vec![with("A", Some(0.1)), with("B", Some(0.5)), with("C", None)],
        vec![],
        vec![scanned("a", 3, 0)],
    );
    let mut report = build_report(data, &vec![], None, provenance());
    let half = Score {
        bits: 0.5f64.to_bits(),
    };
    let dropped = retain_min_epss(&mut report, half);
    assert_eq!(dropped.len(), 1);
    assert_eq!(dropped[0].0, "A");
    assert_eq!(f64::from_bits(dropped[0].1.bits), 0.1);
    assert_eq!(ids(&report), vec!["B", "C"]);
}

#[test]
fn suppressions_say_what_they_are_made_of() {
    let i = Suppression::from_ignore(&Ignore {
        id: "A".into(),
        reason: "r".into(),
    });
    assert_eq!(i.id, "A");
    assert!(i.repo.is_none() && i.justification.is_none() && i.approved_by.is_none());
    let a = Suppression::from_assertion(&VexAssertion {
        id: "B".into(),
        repo: Some(RepoId("x".into())),
        justification: None,
        reason: "r".into(),
        approved_by: "me".into(),
    });
    assert_eq!(a.repo, Some(RepoId("x".into())));
    assert_eq!(a.approved_by.as_deref(), Some("me"));
}

#[test]
fn a_warning_without_an_advisory_is_always_new() {
    let mut nameless = warn("W", "a");
    nameless.advisory_id = None;
    let data = scan(vec![], vec![nameless, warn("W", "a")], vec![scanned("a", 0, 2)]);
    let mut report = build_report(data, &vec![], None, provenance());
    retain_new(&mut report, &vec!["W".to_string()]);
    assert_eq!(report.warnings.len(), 1);
    assert!(report.warnings[0].advisory_id.is_none());
}

#[test]
fn a_suppression_that_matches_nothing_is_stale_beside_one_that_does() {
    let only = |repo: &str| Suppression {
        id: "A".into(),
        repo: Some(RepoId(repo.into())),
        justification: None,
        reason: "r".into(),
        approved_by: None,
    };
    let found = || correlate(vec![vuln("A", Severity::High, "a")], vec![]);
    let both = vec![only("gone"), only("a")];
    assert_eq!(stale_suppressions(&both, &found()), vec!["A"]);
    let (left, stale, suppressed) = apply_suppressions(found(), &both);
    assert!(left.vulnerabilities.is_empty());
    assert_eq!(stale, vec!["A"]);
    assert_eq!(suppressed.len(), 1);
    assert!(stale_suppressions(&vec![only("a"), only("a")], &found()).is_empty());
}

#[test]
fn what_a_threshold_drops_is_given_back() {
    let mut odd = vuln("A", Severity::High, "a");
    odd.exploit.epss = Some(Score {
        bits: f64::NAN.to_bits(),
    });
    let data = scan(vec![odd], vec![], vec![scanned("a", 1, 0)]);
    let mut report = build_report(data, &vec![], None, provenance());
    let dropped = retain_min_epss(
        &mut report,
        Score {
            bits: 0.5f64.to_bits(),
        },
    );
    assert!(report.vulnerabilities.is_empty());
    assert_eq!(dropped.len(), 1);
    assert_eq!(dropped[0].0, "A");
}
