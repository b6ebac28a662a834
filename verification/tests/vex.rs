use fleetreach::assemble::SuppressedOccurrence;
use fleetreach::config::{Config, RawConfig, RawRepo, RawVex, PathState, Repo};
use fleetreach::finding::{
    DepSource, DependencyKind, Ecosystem, Exploitability, Occurrence, ReachVerdict, Reachability,
    RepoId, VulnFinding,
};
use fleetreach::json::Json;
use fleetreach::report::{FleetReport, Provenance, Summary};
use fleetreach::severity::Severity;
use fleetreach::textmap::TextMap;
use fleetreach::version::Version;
use fleetreach::vex::{
    build_human_assertions, check_drift, committed_reachability_witnesses, crate_purl,
    drift_exit_code, drift_summary, failed_reachability_witnesses, failed_witness,
    is_gating_severity,
    parse_committed_statements, purl_of, resolve_product_id, resolve_product_ids, severities_of,
    verify_exit_code, verify_refusal, verify_summary, CommittedStatement, StatementView, VerifyRefusal,
};

fn occurrence(repo: &str) -> Occurrence {
    Occurrence::InRepo {
        repo: RepoId(repo.into()),
        package: "foo".into(),
        installed: Version::new(1, 0, 0),
        patched: vec![],
        dependency_kind: DependencyKind::Direct,
        dependency_path: vec![],
        active: None,
        source: DepSource::CratesIo,
    }
}

fn finding_with_reach(id: &str, reach: Option<ReachVerdict>) -> VulnFinding {
    VulnFinding {
        advisory_id: id.into(),
        aliases: vec![],
        ecosystem: Ecosystem::Cargo,
        title: "t".into(),
        severity: Severity::High,
        cvss_score: None,
        url: None,
        occurrences: vec![occurrence("app")],
        affected_functions: vec!["foo::bad".into()],
        reachable: None,
        reachability: reach.map(|verdict| Reachability {
            verdict,
            config: "nightly".into(),
            engine: "e".into(),
            targets: vec!["x86_64-unknown-linux-gnu".into()],
            witness: Some("sha256:abc".into()),
        }),
        exploit: Exploitability::default(),
    }
}

fn report_of(vulns: Vec<VulnFinding>) -> FleetReport {
    FleetReport {
        schema_version: 1,
        provenance: Provenance {
            tool_version: "0".into(),
            rustsec_crate_version: "0".into(),
            db_commit: None,
            db_timestamp: None,
            host_os: "linux".into(),
            host_arch: "x86_64".into(),
            generated_at: "t".into(),
        },
        summary: Summary {
            repos_scanned: 1,
            repos_errored: 0,
            vuln_count: vulns.len(),
            warn_count: 0,
            max_severity: Severity::High,
            stale_ignores: vec![],
        },
        vulnerabilities: vulns,
        warnings: vec![],
        outcomes: vec![],
    }
}

fn view(v: &str, p: &str, s: &str, status: &str) -> StatementView {
    StatementView {
        vulnerability: v.into(),
        product: p.into(),
        subcomponent: s.into(),
        status: status.into(),
    }
}

fn committed(v: &str, p: &str, s: &str, status: &str, notes: &str) -> CommittedStatement {
    CommittedStatement {
        vulnerability: v.into(),
        product: p.into(),
        subcomponent: s.into(),
        status: status.into(),
        status_notes: notes.into(),
    }
}

fn none() -> TextMap<Severity> {
    TextMap::new()
}

#[test]
fn drift_flags_untriaged_and_stale() {
    let current = vec![view(
        "RUSTSEC-NEW",
        "p",
        "pkg:cargo/foo@1",
        "under_investigation",
    )];
    let committed = vec![committed(
        "RUSTSEC-OLD",
        "p",
        "pkg:cargo/bar@1",
        "not_affected",
        "role=Automated Analysis",
    )];
    let drift = check_drift(&current, &committed, &none());
    assert_eq!(drift.errors.len(), 2, "untriaged + stale");
    assert!(drift.warnings.is_empty());
    assert_eq!(drift_exit_code(&drift), 1);
}

#[test]
fn drift_is_empty_when_in_sync() {
    let current = vec![view("RUSTSEC-A", "p", "s", "not_affected")];
    let committed = vec![committed(
        "RUSTSEC-A",
        "p",
        "s",
        "not_affected",
        "role=Human Assertion; approved_by=x",
    )];
    let drift = check_drift(&current, &committed, &none());
    assert!(drift.errors.is_empty());
    assert_eq!(drift_exit_code(&drift), 0);
}

/// A human `not_affected` whose assertion was removed: the finding reappears as
/// `under_investigation` in the plain scan (same key, new status) → drift.
#[test]
fn dropped_human_suppression_is_flagged() {
    let current = vec![view("RUSTSEC-A", "p", "s", "under_investigation")];
    let committed = vec![committed(
        "RUSTSEC-A",
        "p",
        "s",
        "not_affected",
        "role=Human Assertion; approved_by=x",
    )];
    let drift = check_drift(&current, &committed, &none());
    assert_eq!(drift.errors.len(), 1, "dropped suppression");
    assert!(drift.errors[0].contains("dropped suppression"));
}

/// A machine `not_affected` reads as `under_investigation` in the plain scan
/// (reachability didn't run) — status-checking it would false-flag, so it must
/// NOT drift.
#[test]
fn machine_not_affected_is_not_status_checked() {
    let current = vec![view("RUSTSEC-A", "p", "s", "under_investigation")];
    let committed = vec![committed(
        "RUSTSEC-A",
        "p",
        "s",
        "not_affected",
        "role=Automated Analysis; static call-graph: no path",
    )];
    let drift = check_drift(&current, &committed, &none());
    assert!(
        drift.errors.is_empty(),
        "machine not_affected must not be status-checked: {:?}",
        drift.errors
    );
}

/// Only machine reachability `not_affected` are witnesses; human assertions excluded.
#[test]
fn extracts_only_machine_reachability_witnesses() {
    let doc = Json::parse(
        r#"{ "statements": [
            { "vulnerability": { "name": "RUSTSEC-A" },
              "subcomponents": [{ "@id": "pkg:cargo/foo@1.0.0" }],
              "status": "not_affected",
              "justification": "vulnerable_code_not_in_execute_path",
              "status_notes": "role=Automated Analysis; static call-graph: no path" },
            { "vulnerability": { "name": "RUSTSEC-H" },
              "subcomponents": [{ "@id": "pkg:cargo/bar@2.0.0" }],
              "status": "not_affected",
              "justification": "vulnerable_code_not_in_execute_path",
              "status_notes": "role=Human Assertion; approved_by=x" },
            { "vulnerability": { "name": "RUSTSEC-U" },
              "subcomponents": [{ "@id": "pkg:cargo/baz@3.0.0" }],
              "status": "under_investigation" }
        ]}"#,
    )
    .unwrap();
    let w = committed_reachability_witnesses(&doc);
    assert_eq!(
        w,
        vec![("RUSTSEC-A".to_string(), "pkg:cargo/foo@1.0.0".to_string())]
    );
}

#[test]
fn witness_holds_when_still_not_reachable() {
    let w = vec![("RUSTSEC-A".to_string(), "pkg:cargo/foo@1.0.0".to_string())];
    let report = report_of(vec![finding_with_reach(
        "RUSTSEC-A",
        Some(ReachVerdict::NotReachable),
    )]);
    assert!(failed_reachability_witnesses(&w, &report).is_empty());
}

#[test]
fn witness_fails_when_now_reachable() {
    let w = vec![("RUSTSEC-A".to_string(), "pkg:cargo/foo@1.0.0".to_string())];
    let report = report_of(vec![finding_with_reach(
        "RUSTSEC-A",
        Some(ReachVerdict::Reachable {
            witness: vec!["main".into(), "foo::bad".into()],
        }),
    )]);
    assert_eq!(failed_reachability_witnesses(&w, &report).len(), 1);
}

#[test]
fn witness_holds_vacuously_when_advisory_is_gone() {
    let w = vec![("RUSTSEC-A".to_string(), "pkg:cargo/foo@1.0.0".to_string())];
    let failed = failed_reachability_witnesses(&w, &report_of(vec![]));
    assert!(failed.is_empty());
    assert_eq!(verify_exit_code(&failed), 0);
}

#[test]
fn witness_fails_when_now_undecided() {
    let w = vec![("RUSTSEC-A".to_string(), "pkg:cargo/foo@1.0.0".to_string())];
    let report = report_of(vec![finding_with_reach("RUSTSEC-A", None)]);
    let failed = failed_reachability_witnesses(&w, &report);
    assert_eq!(failed.len(), 1);
    assert_eq!(verify_exit_code(&failed), 1);
}

#[test]
fn undecided_statements_warn_only_at_gating_severities() {
    let current = vec![view("RUSTSEC-A", "p", "s", "under_investigation")];
    let statements = vec![committed("RUSTSEC-A", "p", "s", "under_investigation", "")];
    let high = none().insert("RUSTSEC-A".to_string(), Severity::High);
    assert_eq!(check_drift(&current, &statements, &high).warnings.len(), 1);
    let low = none().insert("RUSTSEC-A".to_string(), Severity::Low);
    assert!(check_drift(&current, &statements, &low).warnings.is_empty());
    assert!(is_gating_severity(Some(Severity::Critical)));
    assert!(!is_gating_severity(Some(Severity::Medium)));
}

#[test]
fn committed_statements_are_read_with_their_first_parts() {
    let doc = Json::parse(
        r#"{"statements":[{"vulnerability":{"name":"V"},"products":[{"@id":"P"}],"subcomponents":[{"@id":"S"}],"status":"fixed","status_notes":"n"}]}"#,
    )
    .unwrap();
    let got = parse_committed_statements(&doc);
    assert_eq!(got.len(), 1);
    assert_eq!(got[0].vulnerability, "V");
    assert_eq!(got[0].product, "P");
    assert_eq!(got[0].subcomponent, "S");
    assert_eq!(got[0].status, "fixed");
    assert_eq!(got[0].status_notes, "n");
    assert!(!got[0].is_human());
    assert!(parse_committed_statements(&Json::Null).is_empty());
}

#[test]
fn severities_go_by_advisory() {
    let m = severities_of(&report_of(vec![finding_with_reach("RUSTSEC-A", None)]));
    assert_eq!(m.get("RUSTSEC-A"), Some(&Severity::High));
    assert!(m.get("RUSTSEC-B").is_none());
}

#[test]
fn verification_needs_consent_then_a_driver() {
    assert_eq!(verify_refusal(false, true), Some(VerifyRefusal::NoConsent));
    assert_eq!(verify_refusal(true, false), Some(VerifyRefusal::NoDriver));
    assert_eq!(verify_refusal(true, true), None);
}

fn repo(id: &str, product: Option<&str>) -> RawRepo {
    RawRepo {
        id: id.into(),
        path: format!("/fleet/{id}"),
        state: PathState::Directory,
        glob: false,
        glob_max_depth: None,
        vex_product_id: product.map(|p| p.to_string()),
        ecosystem: None,
    }
}

#[test]
fn products_are_named_by_setting_then_package_then_base() {
    let manifest = "[package]\nname = \"foo\"\nversion = \"1.2.3\"\n";
    assert_eq!(crate_purl(manifest), Some("pkg:cargo/foo@1.2.3".to_string()));
    assert_eq!(crate_purl("[workspace]\n"), None);
    assert_eq!(purl_of(&Json::Null), None);
    let config = Config::from_raw(RawConfig {
        repo: vec![repo("a", Some("urn:a")), repo("b", None), repo("c", None)],
        ignore: vec![],
        vex: RawVex {
            author: None,
            role: None,
            scope: None,
            product_id_base: Some("https://example.com/products/".into()),
        },
        vex_assertion: vec![],
    })
    .unwrap();
    let purls = vec![None, Some("pkg:cargo/b@1.0.0".to_string()), None];
    let ids = resolve_product_ids(&config, &purls);
    assert_eq!(ids.get("a").unwrap(), "urn:a");
    assert_eq!(ids.get("b").unwrap(), "pkg:cargo/b@1.0.0");
    assert_eq!(ids.get("c").unwrap(), "https://example.com/products/c");
    let c: &Repo = &config.repos[2];
    assert_eq!(resolve_product_id(c, &None, &None), "urn:fleetreach:product:c");
}

#[test]
fn suppressed_occurrences_become_statements() {
    let suppressed = vec![
        SuppressedOccurrence {
            advisory_id: "RUSTSEC-A".into(),
            aliases: vec!["CVE-1".into()],
            occurrence: occurrence("app"),
            justification: None,
            impact_statement: "not used".into(),
            approved_by: Some("me".into()),
        },
        SuppressedOccurrence {
            advisory_id: "RUSTSEC-B".into(),
            aliases: vec![],
            occurrence: occurrence("elsewhere"),
            justification: None,
            impact_statement: "x".into(),
            approved_by: None,
        },
    ];
    let ids: TextMap<String> = TextMap::new().insert("app".to_string(), "urn:app".to_string());
    let (got, nudges) = build_human_assertions(&suppressed, &ids, true);
    assert_eq!(got.len(), 1);
    assert_eq!(got[0].product_id, "urn:app");
    assert_eq!(got[0].version, "1.0.0");
    assert_eq!(nudges, vec!["RUSTSEC-A".to_string()]);
    assert!(build_human_assertions(&suppressed, &ids, false).1.is_empty());
}

#[test]
fn runs_end_in_one_line() {
    let drift = check_drift(
        &vec![view("CVE-1", "pkg:cargo/app@1.0.0", "pkg:cargo/foo@1.0.0", "affected")],
        &vec![],
        &none(),
    );
    assert_eq!(
        drift_summary(1, 0, &drift),
        format!(
            "vex check: 1 current statement(s), 0 committed; {} drift error(s), {} warning(s).",
            drift.errors.len(),
            drift.warnings.len()
        )
    );
    assert_eq!(
        verify_summary(12, 3),
        "vex verify: 12 witness(es) re-derived, 3 failed.".to_string()
    );
    assert_eq!(
        failed_witness(&("CVE-1".to_string(), "pkg:cargo/foo@1.0.0".to_string())),
        "error: witness no longer holds: CVE-1 on pkg:cargo/foo@1.0.0 is now reachable or \
         undecided"
            .to_string()
    );
    assert_eq!(
        VerifyRefusal::NoDriver.to_string(),
        "vex verify requires --reach-driver <PATH>".to_string()
    );
    assert!(VerifyRefusal::NoConsent
        .to_string()
        .contains("--allow-untrusted-builds"));
}
