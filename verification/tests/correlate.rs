use fleetreach::correlate::{correlate, Correlated};
use fleetreach::finding::{
    DepSource, DependencyKind, Ecosystem, Exploitability, Occurrence, RepoId, VulnFinding,
    WarnFinding, WarnKind,
};
use fleetreach::severity::Severity;
use fleetreach::version::{Version, VersionReq};

fn occurrence(repo: &str, installed: Version, patched: Vec<VersionReq>) -> Occurrence {
    Occurrence::InRepo {
        repo: RepoId(repo.into()),
        package: "foo".into(),
        installed,
        patched,
        dependency_kind: DependencyKind::Transitive,
        dependency_path: vec![],
        active: None,
        source: DepSource::CratesIo,
    }
}

fn vuln(id: &str, severity: Severity, at: Occurrence) -> VulnFinding {
    VulnFinding {
        advisory_id: id.into(),
        aliases: vec![],
        ecosystem: Ecosystem::Cargo,
        reachability: None,
        exploit: Exploitability::default(),
        affected_functions: vec![],
        reachable: None,
        title: "shared advisory".into(),
        severity,
        cvss_score: None,
        url: None,
        occurrences: vec![at],
    }
}

#[test]
fn version_divergent_occurrences_keep_independent_verdicts() {
    let patched = vec![VersionReq::parse(">=1.2.3").unwrap()];
    let at = |repo: &str, installed: Version| {
        vuln(
            "RUSTSEC-2099-0001",
            Severity::High,
            occurrence(repo, installed, patched.clone()),
        )
    };

    let out = correlate(
        vec![
            at("repo-a", Version::new(1, 1, 9)), // vulnerable
            at("repo-b", Version::new(1, 2, 0)), // vulnerable (1.2.0 < 1.2.3)
            at("repo-c", Version::new(1, 2, 3)), // patched
        ],
        vec![],
    )
    .vulnerabilities;

    // one advisory, three occurrences, sorted by repo id (a, b, c)
    assert_eq!(out.len(), 1);
    let verdicts: Vec<bool> = out[0]
        .occurrences
        .iter()
        .map(|o| o.is_vulnerable())
        .collect();
    assert_eq!(
        verdicts,
        vec![true, true, false],
        "per-occurrence verdicts diverge"
    );
}

#[test]
fn identical_occurrences_are_deduplicated() {
    // The same package@version in the same repo, surfaced twice (e.g. two
    // lockfiles under one glob repo), collapses to a single occurrence.
    let dup = || {
        vuln(
            "RUSTSEC-2099-0001",
            Severity::High,
            occurrence("services", Version::new(1, 0, 0), vec![]),
        )
    };

    let out = correlate(vec![dup(), dup()], vec![]).vulnerabilities;
    assert_eq!(out.len(), 1);
    assert_eq!(
        out[0].occurrences.len(),
        1,
        "exact duplicates collapse to one"
    );
}

#[test]
fn the_worst_come_first_and_streams_stay_apart() {
    let at = || occurrence("r", Version::new(1, 0, 0), vec![]);
    let warn = |kind: WarnKind, id: Option<&str>| WarnFinding {
        kind,
        advisory_id: id.map(|x| x.to_string()),
        title: "warn".into(),
        occurrences: vec![occurrence("r", Version::new(1, 0, 0), vec![])],
    };
    let Correlated {
        vulnerabilities,
        warnings,
    } = correlate(
        vec![
            vuln("B", Severity::Low, at()),
            vuln("C", Severity::Critical, at()),
            vuln("A", Severity::Low, at()),
        ],
        vec![
            warn(WarnKind::Yanked, None),
            warn(WarnKind::Unmaintained, Some("W")),
            warn(WarnKind::Yanked, None),
        ],
    );
    let ids: Vec<&str> = vulnerabilities.iter().map(|v| v.advisory_id.as_str()).collect();
    assert_eq!(ids, vec!["C", "A", "B"]);
    assert_eq!(warnings.len(), 2);
    assert_eq!(warnings[0].kind, WarnKind::Unmaintained);
    assert_eq!(warnings[1].occurrences.len(), 1);
}

#[test]
fn folding_keeps_every_place_and_makes_none_up() {
    let at = |repo: &str| occurrence(repo, Version::new(1, 0, 0), vec![]);
    let warning = |kind: WarnKind, repo: &str| WarnFinding {
        kind,
        advisory_id: Some("RUSTSEC-2098-0001".into()),
        title: "w".into(),
        occurrences: vec![at(repo)],
    };
    let out = correlate(
        vec![
            vuln("A", Severity::Low, at("c")),
            vuln("A", Severity::Low, at("a")),
            vuln("A", Severity::Low, at("c")),
            vuln("B", Severity::Low, at("a")),
        ],
        vec![
            warning(WarnKind::Yanked, "b"),
            warning(WarnKind::Yanked, "b"),
            warning(WarnKind::Notice, "a"),
        ],
    );
    assert_eq!(out.vulnerabilities.len(), 2);
    assert_eq!(out.vulnerabilities[0].occurrences, vec![at("a"), at("c")]);
    assert_eq!(out.vulnerabilities[1].occurrences, vec![at("a")]);
    assert_eq!(out.warnings.len(), 2);
    assert_eq!(out.warnings[0].kind, WarnKind::Yanked);
    assert_eq!(out.warnings[0].occurrences, vec![at("b")]);
    assert_eq!(out.warnings[1].occurrences, vec![at("a")]);
}

#[test]
fn a_repeat_collapses_wherever_it_stands() {
    let at = |version: Version| occurrence("r", version, vec![]);
    let one = || at(Version::new(1, 0, 0));
    // Both stand at the same repository and package and differ in what is around them.
    let built = || match one() {
        Occurrence::InRepo {
            repo,
            package,
            installed,
            patched,
            dependency_kind,
            dependency_path,
            source,
            ..
        } => Occurrence::InRepo {
            repo,
            package,
            installed,
            patched,
            dependency_kind,
            dependency_path,
            active: Some(true),
            source,
        },
        other => other,
    };
    let out = correlate(
        vec![
            vuln("A", Severity::Low, one()),
            vuln("A", Severity::Low, built()),
            vuln("A", Severity::Low, one()),
        ],
        vec![],
    );
    assert_eq!(out.vulnerabilities[0].occurrences, vec![one(), built()]);
}

#[test]
fn a_fold_takes_the_worst_and_unites_the_names() {
    let at = |repo: &str| occurrence(repo, Version::new(1, 0, 0), vec![]);
    let named = |severity: Severity, alias: &str, repo: &str| VulnFinding {
        aliases: vec![alias.into()],
        ..vuln("A", severity, at(repo))
    };
    let once = correlate(
        vec![
            named(Severity::Low, "CVE-2", "b"),
            named(Severity::Critical, "CVE-1", "a"),
            named(Severity::Medium, "CVE-2", "a"),
        ],
        vec![],
    )
    .vulnerabilities;
    assert_eq!(once.len(), 1);
    assert_eq!(once[0].severity, Severity::Critical);
    assert_eq!(once[0].aliases, vec!["CVE-1", "CVE-2"]);
    let again = correlate(once.clone(), vec![]).vulnerabilities;
    assert_eq!(again, once);
}
