use fleetreach::config::{Config, Repo, VexConfig};
use fleetreach::finding::{
    DepSource, DependencyKind, Ecosystem, Exploitability, Occurrence, RepoId, VulnFinding,
    WarnFinding, WarnKind,
};
use fleetreach::orchestrate::{
    annotate_built, bad_mirror, bad_scan, discover_lockfiles, effective_ecosystem, feeder_of,
    join_all, needs_mirror, no_mirror, scan_cargo_repo, scan_configured, scan_fleet, scan_go_repo,
    scan_mirror_repo, BuiltPackage, Feeder, GoScanned, LockfileScan, Manifests, MirrorScan,
    RepoResult, RepoScan, ScanData, WalkEntry,
};
use fleetreach::osv::TierCScan;
use fleetreach::outcome::ScanStatus;
use fleetreach::repo_scan::{task_of, Task};
use fleetreach::severity::Severity;
use fleetreach::version::Version;

fn occurrence(repo: &str) -> Occurrence {
    Occurrence::InRepo {
        repo: RepoId(repo.into()),
        package: "pkg".into(),
        installed: Version::new(1, 0, 0),
        patched: vec![],
        dependency_kind: DependencyKind::Transitive,
        dependency_path: vec![],
        active: None,
        source: DepSource::CratesIo,
    }
}

fn vuln(id: &str, at: Occurrence) -> VulnFinding {
    VulnFinding {
        advisory_id: id.into(),
        aliases: vec![],
        ecosystem: Ecosystem::Cargo,
        reachability: None,
        exploit: Exploitability::default(),
        affected_functions: vec![],
        reachable: None,
        title: id.into(),
        severity: Severity::High,
        cvss_score: None,
        url: None,
        occurrences: vec![at],
    }
}

fn with_vuln(repo: &str) -> RepoScan {
    RepoScan {
        vulnerabilities: vec![vuln("RUSTSEC-2099-0001", occurrence(repo))],
        warnings: vec![],
    }
}

fn with_warning(repo: &str) -> RepoScan {
    RepoScan {
        vulnerabilities: vec![],
        warnings: vec![WarnFinding {
            kind: WarnKind::Unmaintained,
            advisory_id: Some("RUSTSEC-2099-0002".into()),
            title: "unmaintained".into(),
            occurrences: vec![occurrence(repo)],
        }],
    }
}

fn cargo(repo: &str, lockfiles: Vec<RepoScan>) -> RepoResult {
    let read = lockfiles
        .into_iter()
        .map(|scan| LockfileScan::Read { scan, built: None })
        .collect();
    scan_cargo_repo(&RepoId(repo.into()), "/fleet", &vec![], read)
}

fn fleet() -> Vec<RepoResult> {
    vec![
        cargo("repo-vuln", vec![with_vuln("repo-vuln")]),
        cargo("repo-warn", vec![with_warning("repo-warn")]),
        cargo("repo-empty", vec![]),
        cargo("repo-glob", vec![with_vuln("repo-glob")]),
    ]
}

fn status_of<'a>(data: &'a ScanData, id: &str) -> &'a ScanStatus {
    &data
        .outcomes
        .iter()
        .find(|o| o.repo == RepoId(id.into()))
        .unwrap_or_else(|| panic!("no outcome for {id}"))
        .status
}

fn configured(id: &str) -> Repo {
    Repo {
        id: RepoId(id.into()),
        path: "/fleet".into(),
        glob: false,
        glob_max_depth: 3,
        vex_product_id: None,
        ecosystem: None,
    }
}

fn nothing() -> Manifests {
    Manifests {
        cargo_lock: false,
        go_mod: false,
        package_lock: false,
        python_lock: false,
        gemfile_lock: false,
        composer_lock: false,
        packages_lock: false,
        julia_manifest: false,
        package_resolved: false,
        mix_lock: false,
        gradle_lockfile: false,
        pom_xml: false,
        workflows: false,
    }
}

#[test]
fn each_repo_degrades_independently() {
    let data = scan_fleet(fleet(), None);

    assert_eq!(data.outcomes.len(), 4);
    assert_eq!(
        status_of(&data, "repo-vuln"),
        &ScanStatus::Scanned {
            vulns: 1,
            warnings: 0
        }
    );
    assert_eq!(
        status_of(&data, "repo-warn"),
        &ScanStatus::Scanned {
            vulns: 0,
            warnings: 1
        }
    );
    // No Cargo.lock -> Errored, but the run still produced the other repos.
    assert!(matches!(
        status_of(&data, "repo-empty"),
        ScanStatus::Errored { .. }
    ));
}

#[test]
fn aggregates_findings_across_the_fleet() {
    let data = scan_fleet(fleet(), None);
    // repo-vuln (1) + repo-glob (1) = 2 vulns; repo-warn = 1 warning.
    assert_eq!(data.vulnerabilities.len(), 2);
    assert_eq!(data.warnings.len(), 1);
    // Every pre-correlation finding carries exactly one occurrence.
    assert!(data
        .vulnerabilities
        .iter()
        .all(|v| v.occurrences.len() == 1));
}

#[test]
fn toolchain_advisory_joins_the_fleet_streams() {
    let at = Occurrence::Toolchain {
        channel: "stable 1.40.0".into(),
        installed: Some(Version::new(1, 40, 0)),
        patched: vec![],
    };
    let toolchain = RepoScan {
        vulnerabilities: vec![vuln("RUSTSEC-2099-0003", at)],
        warnings: vec![],
    };
    let data = scan_fleet(fleet(), Some(toolchain));

    // The 2 in-repo vulns plus the 1 toolchain vuln.
    assert_eq!(data.vulnerabilities.len(), 3);
    let toolchain_vuln = data
        .vulnerabilities
        .iter()
        .find(|v| v.advisory_id == "RUSTSEC-2099-0003")
        .expect("toolchain advisory present");
    assert!(matches!(
        toolchain_vuln.occurrences[0],
        Occurrence::Toolchain { .. }
    ));
}

#[test]
fn lockfiles_are_found_by_name_and_gaps_are_kept() {
    let file = |path: &str, name: &str| WalkEntry::File {
        path: path.into(),
        name: name.into(),
    };
    let walked = || {
        vec![
            file("/r/Cargo.lock", "Cargo.lock"),
            WalkEntry::Other,
            file("/r/Cargo.toml", "Cargo.toml"),
            WalkEntry::Unreadable("denied".into()),
            file("/r/b/Cargo.lock", "Cargo.lock"),
        ]
    };
    let whole = Repo {
        glob: true,
        ..configured("r")
    };
    let (paths, errors) = discover_lockfiles(&whole, None, walked());
    assert_eq!(paths, vec!["/r/Cargo.lock", "/r/b/Cargo.lock"]);
    assert_eq!(errors, vec!["denied"]);

    // Without a search only the lockfile at the root counts, where it is there.
    let (paths, errors) =
        discover_lockfiles(&configured("r"), Some("/r/Cargo.lock".into()), walked());
    assert_eq!(paths, vec!["/r/Cargo.lock"]);
    assert!(errors.is_empty());
    let (paths, errors) = discover_lockfiles(&configured("r"), None, walked());
    assert!(paths.is_empty() && errors.is_empty());
}

#[test]
fn a_gap_names_its_first_reason() {
    let reason = |r: &RepoResult| match &r.outcome.status {
        ScanStatus::Errored { reason } => reason.clone(),
        ScanStatus::Scanned { .. } => panic!("no gap"),
    };
    let id = RepoId("r".into());
    let walked = scan_cargo_repo(&id, "/r", &vec!["a".into(), "b".into()], vec![]);
    assert_eq!(reason(&walked), "could not fully walk /r: a; b");
    let empty = scan_cargo_repo(&id, "/r", &vec![], vec![]);
    assert_eq!(reason(&empty), "no Cargo.lock found under /r");
    let partly = scan_cargo_repo(
        &id,
        "/r",
        &vec![],
        vec![
            LockfileScan::Read {
                scan: with_vuln("r"),
                built: None,
            },
            LockfileScan::Unreadable("bad".into()),
        ],
    );
    assert_eq!(reason(&partly), "bad");
    assert_eq!(partly.vulnerabilities.len(), 1, "what was found is kept");
}

#[test]
fn what_is_built_is_marked() {
    let active = |s: &RepoScan| match &s.vulnerabilities[0].occurrences[0] {
        Occurrence::InRepo { active, .. } => *active,
        Occurrence::Toolchain { .. } => panic!("not in a repository"),
    };
    let package = |v: Version| BuiltPackage {
        name: "pkg".into(),
        version: v,
    };
    let mut scan = with_vuln("r");
    annotate_built(&mut scan, &vec![package(Version::new(1, 0, 0))]);
    assert_eq!(active(&scan), Some(true));
    annotate_built(&mut scan, &vec![package(Version::new(2, 0, 0))]);
    assert_eq!(active(&scan), Some(false));
}

#[test]
fn the_ecosystem_is_given_or_found() {
    let m = Manifests {
        go_mod: true,
        workflows: true,
        ..nothing()
    };
    assert_eq!(effective_ecosystem(None, &m), Ecosystem::Go);
    assert_eq!(effective_ecosystem(Some(Ecosystem::Npm), &m), Ecosystem::Npm);
    assert_eq!(effective_ecosystem(None, &nothing()), Ecosystem::Cargo);
    let only = Manifests {
        workflows: true,
        ..nothing()
    };
    assert_eq!(effective_ecosystem(None, &only), Ecosystem::GitHubActions);
}

#[test]
fn a_mirror_is_loaded_only_where_it_is_used() {
    let fleet = vec![Ecosystem::Cargo, Ecosystem::Go];
    assert!(needs_mirror(&fleet, Ecosystem::Go, false));
    assert!(!needs_mirror(&fleet, Ecosystem::Go, true));
    assert!(!needs_mirror(&fleet, Ecosystem::Npm, false));
    assert!(feeder_of(Ecosystem::Cargo).is_none());
}

#[test]
fn a_repository_without_its_mirror_is_a_gap() {
    let id = RepoId("r".into());
    let f = feeder_of(Ecosystem::Hex).unwrap();
    let gap = |s: MirrorScan| match scan_mirror_repo(f, &id, s).outcome.status {
        ScanStatus::Errored { reason } => reason,
        ScanStatus::Scanned { .. } => panic!("no gap"),
    };
    assert_eq!(gap(MirrorScan::NoMirror), no_mirror(Feeder::Hex));
    assert_eq!(
        gap(MirrorScan::BadMirror("x".into())),
        format!("{}x", bad_mirror(Feeder::Hex))
    );
    assert_eq!(
        gap(MirrorScan::Failed("y".into())),
        format!("{}y", bad_scan(Feeder::Hex))
    );
    let found = scan_mirror_repo(
        f,
        &id,
        MirrorScan::Found(TierCScan {
            findings: vec![vuln("A", occurrence("r"))],
            skipped_unparseable: 2,
        }),
    );
    assert_eq!(found.skipped_unparseable, 2);
    assert_eq!(
        found.outcome.status,
        ScanStatus::Scanned {
            vulns: 1,
            warnings: 0
        }
    );
}

#[test]
fn a_go_repository_that_was_not_checked_is_a_gap() {
    let id = RepoId("r".into());
    let gap = |s: GoScanned| match scan_go_repo(&id, s).outcome.status {
        ScanStatus::Errored { reason } => reason,
        ScanStatus::Scanned { .. } => panic!("no gap"),
    };
    assert_eq!(gap(GoScanned::CheckFailed("e".into())), "govulncheck: e");
    assert_eq!(gap(GoScanned::BadMirror("e".into())), "tier-c offline DB: e");
    assert_eq!(gap(GoScanned::MatchFailed("e".into())), "tier-c offline scan: e");
    assert!(gap(GoScanned::NoMirror).starts_with("Go repo (go.mod): no govulncheck"));
    let ok = scan_go_repo(&id, GoScanned::Matched(vec![]));
    assert_eq!(
        ok.outcome.status,
        ScanStatus::Scanned {
            vulns: 0,
            warnings: 0
        }
    );
}

#[test]
fn texts_are_joined_with_a_separator() {
    assert_eq!(join_all(&vec![], "; "), "");
    assert_eq!(join_all(&vec!["a".into()], "; "), "a");
    assert_eq!(join_all(&vec!["a".into(), "b".into()], "; "), "a; b");
}

#[test]
fn only_go_with_a_checker_is_built() {
    assert_eq!(task_of(Ecosystem::Cargo, true), Task::Lockfiles);
    assert_eq!(task_of(Ecosystem::Go, true), Task::Checker);
    assert_eq!(task_of(Ecosystem::Go, false), Task::GoMirror);
    assert_eq!(task_of(Ecosystem::Hex, true), Task::Mirror(Feeder::Hex));
    assert_eq!(task_of(Ecosystem::Maven, false), Task::Mirror(Feeder::Maven));
}

#[test]
fn outcomes_follow_the_configuration() {
    let config = |ids: &[&str]| Config {
        repos: ids.iter().map(|id| configured(id)).collect(),
        ignores: vec![],
        vex: VexConfig {
            author: None,
            role: None,
            scope: None,
            product_id_base: None,
        },
        vex_assertions: vec![],
    };
    let order = ["repo-vuln", "repo-warn", "repo-empty", "repo-glob"];
    let data = scan_configured(&config(&order), fleet(), None).unwrap();
    let ids: Vec<&str> = data.outcomes.iter().map(|o| o.repo.0.as_str()).collect();
    assert_eq!(ids, order);
    assert!(scan_configured(&config(&order[..3]), fleet(), None).is_none());
    assert!(scan_configured(&config(&["a", "b", "c", "d"]), fleet(), None).is_none());
}
