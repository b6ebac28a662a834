use fleetreach::finding::{
    DepSource, DependencyKind, Ecosystem, Exploitability, Occurrence, ReachVerdict, Reachability,
    RepoId, VulnFinding,
};
use fleetreach::remediation::{remediations, Action, ReachTier};
use fleetreach::report::{FleetReport, Provenance, Summary, SCHEMA_VERSION};
use fleetreach::severity::Severity;
use fleetreach::version::{Version, VersionReq};

fn in_repo(repo: &str, pkg: &str, installed: &str, patched: &[&str]) -> Occurrence {
    Occurrence::InRepo {
        repo: RepoId(repo.into()),
        package: pkg.into(),
        installed: Version::parse(installed).unwrap(),
        patched: patched
            .iter()
            .map(|p| VersionReq::parse(p).unwrap())
            .collect(),
        dependency_kind: DependencyKind::Transitive,
        dependency_path: vec![],
        active: None,
        source: DepSource::CratesIo,
    }
}

fn vuln(id: &str, sev: Severity, occ: Vec<Occurrence>) -> VulnFinding {
    VulnFinding {
        advisory_id: id.into(),
        aliases: vec![],
        ecosystem: Ecosystem::Cargo,
        title: id.into(),
        severity: sev,
        cvss_score: None,
        url: None,
        occurrences: occ,
        affected_functions: vec![],
        reachable: None,
        reachability: None,
        exploit: Exploitability::default(),
    }
}

fn with_reach(mut f: VulnFinding, verdict: ReachVerdict) -> VulnFinding {
    f.reachability = Some(Reachability {
        verdict,
        config: "cfg".into(),
        engine: "test".into(),
        targets: vec![],
        witness: None,
    });
    f
}

fn report_of(vulns: Vec<VulnFinding>) -> FleetReport {
    FleetReport {
        schema_version: SCHEMA_VERSION,
        provenance: Provenance {
            tool_version: "t".into(),
            rustsec_crate_version: "t".into(),
            db_commit: None,
            db_timestamp: None,
            host_os: "t".into(),
            host_arch: "t".into(),
            generated_at: "t".into(),
        },
        summary: Summary {
            repos_scanned: 0,
            repos_errored: 0,
            vuln_count: vulns.len(),
            warn_count: 0,
            max_severity: Severity::Unknown,
            stale_ignores: vec![],
        },
        vulnerabilities: vulns,
        warnings: vec![],
        outcomes: vec![],
    }
}

#[test]
fn single_fixable_finding_yields_one_upgrade() {
    let r = report_of(vec![vuln(
        "RUSTSEC-1",
        Severity::High,
        vec![in_repo("app", "foo", "1.0.0", &[">=1.2.0"])],
    )]);
    let items = remediations(&r);
    assert_eq!(items.len(), 1);
    let it = &items[0];
    assert_eq!(it.package, "foo");
    assert_eq!(it.advisories, vec!["RUSTSEC-1".to_string()]);
    assert_eq!(
        it.action,
        Action::Upgrade {
            to: Version::new(1, 2, 0),
            breaking: false,
        }
    );
    assert_eq!(it.reach, ReachTier::Unknown);
    assert_eq!(it.repos, 1);
    assert_eq!(it.occurrences, 1);
    assert_eq!(it.current, vec![Version::new(1, 0, 0)]);
}

#[test]
fn compatible_advisories_batch_into_one_bump() {
    // Two advisories on the same crate, fixable by a single >=1.5.0 bump,
    // in two different repos -> one batched action covering both repos.
    let r = report_of(vec![
        vuln(
            "RUSTSEC-A",
            Severity::Medium,
            vec![in_repo("app1", "foo", "1.0.0", &[">=1.2.0"])],
        ),
        vuln(
            "RUSTSEC-B",
            Severity::High,
            vec![in_repo("app2", "foo", "1.1.0", &[">=1.5.0"])],
        ),
    ]);
    let items = remediations(&r);
    assert_eq!(items.len(), 1);
    let it = &items[0];
    assert_eq!(
        it.advisories,
        vec!["RUSTSEC-A".to_string(), "RUSTSEC-B".to_string()]
    );
    assert_eq!(
        it.action,
        Action::Upgrade {
            to: Version::new(1, 5, 0),
            breaking: false,
        }
    );
    assert_eq!(it.repos, 2);
    // Ranking signal is the worst of the group.
    assert_eq!(it.max_severity, Severity::High);
}

#[test]
fn incompatible_ranges_split_per_advisory() {
    // One advisory fixed only in the 1.x line (<2.0), another only in >=2.1 —
    // no single bump satisfies both, so they split.
    let r = report_of(vec![
        vuln(
            "RUSTSEC-A",
            Severity::High,
            vec![in_repo("app", "foo", "1.0.0", &[">=1.2.0, <2.0.0"])],
        ),
        vuln(
            "RUSTSEC-B",
            Severity::High,
            vec![in_repo("app", "foo", "1.0.0", &[">=2.1.0"])],
        ),
    ]);
    let items = remediations(&r);
    assert_eq!(items.len(), 2);
    let tos: Vec<&Action> = items.iter().map(|i| &i.action).collect();
    assert!(tos.contains(&&Action::Upgrade {
        to: Version::new(1, 2, 0),
        breaking: false,
    }));
    assert!(tos.contains(&&Action::Upgrade {
        to: Version::new(2, 1, 0),
        breaking: true,
    }));
}

#[test]
fn distinct_ecosystems_never_batch() {
    // A crate `foo` and a Go module `foo` share a name but must stay separate.
    let mut go = vuln(
        "GO-2024-0001",
        Severity::High,
        vec![in_repo("r", "foo", "1.0.0", &[">=1.2.0"])],
    );
    go.ecosystem = Ecosystem::Go;
    let cargo = vuln(
        "RUSTSEC-2024-0001",
        Severity::High,
        vec![in_repo("r", "foo", "1.0.0", &[">=1.2.0"])],
    );
    let items = remediations(&report_of(vec![go, cargo]));
    assert_eq!(
        items.len(),
        2,
        "same name, different ecosystem must not batch"
    );
    let ecos: Vec<Ecosystem> = items.iter().map(|i| i.ecosystem).collect();
    assert!(ecos.contains(&Ecosystem::Cargo) && ecos.contains(&Ecosystem::Go));
}

#[test]
fn never_recommends_a_downgrade() {
    // smallvec RUSTSEC-2021-0003 shape: fixed in both the old 0.6.x line and
    // 1.6.1+. Installed 1.6.0 must bump UP to 1.6.1, not down to 0.6.14.
    let r = report_of(vec![vuln(
        "RUSTSEC-2021-0003",
        Severity::Critical,
        vec![in_repo(
            "app",
            "smallvec",
            "1.6.0",
            &[">=0.6.14, <1.0.0", ">=1.6.1"],
        )],
    )]);
    let items = remediations(&r);
    assert_eq!(
        items[0].action,
        Action::Upgrade {
            to: Version::new(1, 6, 1),
            breaking: false, // 1.6.0 -> 1.6.1 is a patch bump
        }
    );
}

#[test]
fn no_published_fix_is_honest() {
    let r = report_of(vec![vuln(
        "RUSTSEC-1",
        Severity::Critical,
        vec![in_repo("app", "foo", "1.0.0", &[])],
    )]);
    let items = remediations(&r);
    assert_eq!(items.len(), 1);
    assert_eq!(items[0].action, Action::NoFixAvailable);
    assert_eq!(items[0].max_severity, Severity::Critical);
}

#[test]
fn major_bump_is_breaking() {
    let r = report_of(vec![vuln(
        "RUSTSEC-1",
        Severity::High,
        vec![in_repo("app", "foo", "1.4.0", &[">=2.0.0"])],
    )]);
    let items = remediations(&r);
    assert_eq!(
        items[0].action,
        Action::Upgrade {
            to: Version::new(2, 0, 0),
            breaking: true,
        }
    );
}

#[test]
fn zerover_minor_bump_is_breaking() {
    let r = report_of(vec![vuln(
        "RUSTSEC-1",
        Severity::Low,
        vec![in_repo("app", "foo", "0.4.0", &[">=0.5.0"])],
    )]);
    let items = remediations(&r);
    assert_eq!(
        items[0].action,
        Action::Upgrade {
            to: Version::new(0, 5, 0),
            breaking: true,
        }
    );
}

#[test]
fn not_reachable_demotes_to_informational() {
    let r = report_of(vec![with_reach(
        vuln(
            "RUSTSEC-1",
            Severity::High,
            vec![in_repo("app", "foo", "1.0.0", &[">=1.2.0"])],
        ),
        ReachVerdict::NotReachable,
    )]);
    let items = remediations(&r);
    assert_eq!(items[0].reach, ReachTier::NotReachable);
    assert!(!items[0].reach.is_actionable());
}

#[test]
fn reachable_stays_actionable() {
    let r = report_of(vec![with_reach(
        vuln(
            "RUSTSEC-1",
            Severity::High,
            vec![in_repo("app", "foo", "1.0.0", &[">=1.2.0"])],
        ),
        ReachVerdict::Reachable { witness: vec![] },
    )]);
    let items = remediations(&r);
    assert_eq!(items[0].reach, ReachTier::Reachable);
    assert!(items[0].reach.is_actionable());
}

#[test]
fn any_reachable_in_a_batch_keeps_it_active() {
    // One advisory NotReachable, one Reachable, batched on the same crate:
    // the safe collapse keeps the whole action active.
    let r = report_of(vec![
        with_reach(
            vuln(
                "RUSTSEC-A",
                Severity::Medium,
                vec![in_repo("app", "foo", "1.0.0", &[">=1.2.0"])],
            ),
            ReachVerdict::NotReachable,
        ),
        with_reach(
            vuln(
                "RUSTSEC-B",
                Severity::High,
                vec![in_repo("app", "foo", "1.0.0", &[">=1.2.0"])],
            ),
            ReachVerdict::Reachable { witness: vec![] },
        ),
    ]);
    let items = remediations(&r);
    assert_eq!(items.len(), 1);
    assert_eq!(items[0].reach, ReachTier::Reachable);
}

#[test]
fn fully_patched_finding_is_skipped() {
    // Installed version already satisfies the patched range -> not vulnerable
    // -> no remediation.
    let r = report_of(vec![vuln(
        "RUSTSEC-1",
        Severity::High,
        vec![in_repo("app", "foo", "1.2.0", &[">=1.2.0"])],
    )]);
    assert!(remediations(&r).is_empty());
}

#[test]
fn the_lower_bound_of_a_fix_is_what_is_named() {
    let to = |req: &str| {
        let r = report_of(vec![vuln(
            "RUSTSEC-1",
            Severity::High,
            vec![in_repo("app", "foo", "1.0.0", &[req])],
        )]);
        match &remediations(&r)[0].action {
            Action::Upgrade { to, .. } => Some(to.to_string()),
            Action::NoFixAvailable => None,
        }
    };
    assert_eq!(to("^1.3"), Some("1.3.0".to_string()));
    assert_eq!(to("~1.4.2"), Some("1.4.2".to_string()));
    assert_eq!(to("=2.0.1"), Some("2.0.1".to_string()));
    assert_eq!(to(">1.2.0"), Some("1.2.1".to_string()));
    assert_eq!(to(">1.2"), Some("1.3.0".to_string()));
    assert_eq!(to(">1"), Some("2.0.0".to_string()));
    assert_eq!(to(">=2.0.0-beta"), Some("2.0.0-beta".to_string()));
    assert_eq!(to(">2.0.0-beta"), Some("2.0.0-beta.0".to_string()));
    assert_eq!(to(">=1.2.0, >=1.5.0"), Some("1.5.0".to_string()));
    assert_eq!(to("1.4.*"), Some("1.4.0".to_string()));
    assert_eq!(to(">1.2.0, <1.2.1"), None, "nothing lies between");
    assert_eq!(
        to(&format!(">1.2.{}", u64::MAX)),
        Some("1.3.0".to_string())
    );
    assert_eq!(to(&format!(">{}", u64::MAX)), None);
    assert_eq!(to("<0.9.0"), None, "no lower bound, no fix to name");
}

#[test]
fn actions_come_in_the_order_of_what_they_resolve() {
    let mut kev = vuln(
        "RUSTSEC-K",
        Severity::Low,
        vec![in_repo("app", "kevved", "1.0.0", &[">=1.2.0"])],
    );
    kev.exploit.kev = true;
    let severe = vuln(
        "RUSTSEC-S",
        Severity::Critical,
        vec![in_repo("app", "severe", "1.0.0", &[">=1.2.0"])],
    );
    let items = remediations(&report_of(vec![severe, kev]));
    let order: Vec<&str> = items.iter().map(|i| i.package.as_str()).collect();
    assert_eq!(order, vec!["kevved", "severe"]);
}

#[test]
fn every_vulnerable_finding_has_an_action() {
    let report = report_of(vec![
        vuln(
            "A",
            Severity::High,
            vec![in_repo("r1", "foo", "1.0.0", &["=1.2.0"])],
        ),
        vuln(
            "B",
            Severity::Low,
            vec![in_repo("r1", "foo", "1.0.0", &["=2.0.0"])],
        ),
        vuln("C", Severity::Low, vec![in_repo("r2", "foo", "1.0.0", &[])]),
        vuln(
            "D",
            Severity::Low,
            vec![in_repo("r2", "foo", "3.0.0", &[">=3.0.0"])],
        ),
    ]);
    let items = remediations(&report);
    let has = |id: &str| items.iter().any(|i| i.advisories.contains(&id.to_string()));
    assert!(has("A") && has("B") && has("C"));
    assert!(!has("D"));
    let unfixed: Vec<&str> = items
        .iter()
        .filter(|i| i.action == Action::NoFixAvailable)
        .flat_map(|i| i.advisories.iter().map(String::as_str))
        .collect();
    assert_eq!(unfixed, vec!["C"]);
}

#[test]
fn a_batch_goes_no_further_than_it_must() {
    let items = remediations(&report_of(vec![
        vuln(
            "A",
            Severity::High,
            vec![in_repo("r1", "foo", "1.0.0", &["^1.2.0", ">=2.0.1"])],
        ),
        vuln(
            "B",
            Severity::High,
            vec![in_repo("r2", "foo", "1.3.0", &[">=1.4.0"])],
        ),
    ]));
    assert_eq!(items.len(), 1);
    assert_eq!(items[0].advisories, vec!["A", "B"]);
    assert_eq!(
        items[0].action,
        Action::Upgrade {
            to: Version::new(1, 4, 0),
            breaking: false,
        }
    );
}

#[test]
fn an_upgrade_clears_what_it_is_for() {
    let findings = vec![
        vuln(
            "A",
            Severity::High,
            vec![in_repo("r1", "foo", "1.0.0", &[">1.2.0, <2.0.0"])],
        ),
        vuln(
            "B",
            Severity::High,
            vec![in_repo("r1", "foo", "1.0.0", &[">2.1.0"])],
        ),
        vuln(
            "C",
            Severity::High,
            vec![in_repo("r1", "bar", "3.0.0", &["^1.2.0"])],
        ),
    ];
    let items = remediations(&report_of(findings));
    let to = |id: &str| {
        let item = items.iter().find(|i| i.advisories == vec![id]).unwrap();
        match &item.action {
            Action::Upgrade { to, .. } => to.to_string(),
            Action::NoFixAvailable => panic!("{id} has a fix"),
        }
    };
    assert_eq!(items.len(), 3);
    assert_eq!(to("A"), "1.2.1");
    assert_eq!(to("B"), "2.1.1");
    // Every fix is below what is installed: the highest is named.
    assert_eq!(to("C"), "1.2.0");
}
