use fleetreach::finding::{DependencyKind, Ecosystem, Occurrence, RepoId};
use fleetreach::ghactions::{
    gather_actions, ghactions_db_path, is_yaml, match_advisory, pad_version, parse_gha_version, scan_offline,
    used_actions, uses_value, ActionVersions, GhActionsDb, UsedAction,
};
use fleetreach::osv::{
    advisories_from, affected_fixed_parsed, parse_range, Advisory, Affected, DatabaseSpecific,
    Event, Match, OsvRecord, Package, ParsedRange, Range, RawEvent, RawRange,
};
use fleetreach::outcome::ScanStatus;
use fleetreach::repo_scan::scan_ghactions_repo;
use fleetreach::score::Score;
use fleetreach::severity::Severity;
use fleetreach::version::Version;

fn v(s: &str) -> Version {
    parse_gha_version(s).unwrap()
}

fn ranges(events: &[(&str, &str)]) -> Vec<ParsedRange<Version>> {
    let range = Range {
        matchable: true,
        events: events
            .iter()
            .map(|(k, val)| Event {
                introduced: (*k == "introduced").then(|| val.to_string()),
                fixed: (*k == "fixed").then(|| val.to_string()),
                last_affected: (*k == "last_affected").then(|| val.to_string()),
            })
            .collect(),
    };
    vec![parse_range::<ActionVersions>(&range)]
}

fn affected_fixed(version: &Version, r: &Vec<ParsedRange<Version>>) -> Match<Version> {
    affected_fixed_parsed::<ActionVersions>(version, r)
}

fn record(name: &str) -> OsvRecord {
    let event = |introduced: Option<&str>, fixed: Option<&str>| RawEvent {
        introduced: introduced.map(|x| x.to_string()),
        fixed: fixed.map(|x| x.to_string()),
        last_affected: None,
    };
    OsvRecord {
        id: "GHSA-gha-1".into(),
        aliases: None,
        summary: Some("compromised action".into()),
        database_specific: Some(DatabaseSpecific {
            severity: Some("CRITICAL".into()),
        }),
        affected: vec![Affected {
            package: Package {
                ecosystem: Some("GitHub Actions".into()),
                name: Some(name.into()),
            },
            ranges: vec![RawRange {
                kind: Some("ECOSYSTEM".into()),
                events: vec![event(Some("0"), None), event(None, Some("46.0.1"))],
            }],
            versions: None,
        }],
        severity: vec![],
    }
}

#[test]
fn tj_actions_changed_files_window() {
    // The real tj-actions/changed-files supply-chain advisory: everything below 46.0.1.
    let r = ranges(&[("introduced", "0"), ("fixed", "46.0.1")]);
    assert_eq!(
        affected_fixed(&v("44"), &r), // pinned to the v44 major tag
        Match::Affected {
            fixed: Some(v("46.0.1"))
        }
    );
    assert_eq!(affected_fixed(&v("46.0.1"), &r), Match::NotAffected);
    assert_eq!(affected_fixed(&v("47"), &r), Match::NotAffected);
}

#[test]
fn major_only_bound() {
    // A `fixed: 2` bound means fixed in v2 → 2.0.0.
    let r = ranges(&[("introduced", "0"), ("fixed", "2")]);
    assert_eq!(
        affected_fixed(&v("1.5.0"), &r),
        Match::Affected {
            fixed: Some(v("2"))
        }
    );
    assert_eq!(affected_fixed(&v("2"), &r), Match::NotAffected);
}

#[test]
fn indexes_gha_lowercased() {
    let pairs = advisories_from::<ActionVersions>(&record("tj-actions/changed-files"));
    assert_eq!(pairs.len(), 1);
    assert_eq!(pairs[0].0, "tj-actions/changed-files");
    assert_eq!(pairs[0].1.severity, Severity::Critical);
    let mixed = advisories_from::<ActionVersions>(&record("TJ-Actions/Changed-Files"));
    assert_eq!(mixed[0].0, "tj-actions/changed-files");
}

#[test]
fn ghactions_db_path_only_file_urls() {
    assert_eq!(
        ghactions_db_path("file:///opt/db"),
        Some("/opt/db".to_string())
    );
    assert_eq!(ghactions_db_path("https://osv.dev"), None);
}

fn adv(id: &str, fixed: &str) -> Advisory<Version> {
    Advisory {
        id: id.to_string(),
        aliases: vec![],
        summary: Some(format!("bug in {id}")),
        severity: Severity::Critical,
        cvss_score: Some(Score {
            bits: 9.8f64.to_bits(),
        }),
        ranges: ranges(&[("introduced", "0"), ("fixed", fixed)]),
        versions: vec![],
    }
}

fn action(name: &str, version_ref: &str) -> UsedAction {
    UsedAction {
        name: name.to_string(),
        version_ref: version_ref.to_string(),
    }
}

#[test]
fn vulnerable_major_tag_pin_becomes_a_finding() {
    let a = adv("GHSA-gha", "46.0.1");
    let f = match_advisory(
        &a,
        &action("tj-actions/changed-files", "v44"),
        &parse_gha_version("v44").unwrap(),
        &RepoId("r".into()),
    )
    .unwrap();
    assert_eq!(f.ecosystem, Ecosystem::GitHubActions);
    match &f.occurrences[0] {
        Occurrence::InRepo {
            package,
            dependency_kind,
            ..
        } => {
            assert_eq!(package, "tj-actions/changed-files");
            assert_eq!(*dependency_kind, DependencyKind::Direct);
        }
        _ => panic!("expected InRepo"),
    }
}

#[test]
fn patched_pin_is_not_a_finding() {
    let a = adv("GHSA-gha", "46.0.1");
    assert!(match_advisory(
        &a,
        &action("tj-actions/changed-files", "v46.0.1"),
        &parse_gha_version("v46.0.1").unwrap(),
        &RepoId("r".into())
    )
    .is_none());
}

fn names(text: &str) -> Vec<(String, String)> {
    used_actions(text)
        .into_iter()
        .map(|a| (a.name, a.version_ref))
        .collect()
}

#[test]
fn extracts_uses_refs_and_skips_local_docker() {
    let wf = r#"
jobs:
  build:
    steps:
      - uses: actions/checkout@v4
      - name: setup
        uses: "actions/setup-node@v4.1.0"   # quoted + comment
      - uses: tj-actions/changed-files@0aabc
      - uses: ./.github/actions/local
      - uses: docker://alpine:3.8
      - run: echo "not a uses line"
"#;
    assert_eq!(
        names(wf),
        vec![
            ("actions/checkout".into(), "v4".into()),
            ("actions/setup-node".into(), "v4.1.0".into()),
            ("tj-actions/changed-files".into(), "0aabc".into()),
        ]
    );
}

#[test]
fn lowercases_and_keeps_subpaths() {
    let wf = "  - uses: Super-Linter/Super-Linter/slim@v5\n";
    assert_eq!(
        names(wf),
        vec![("super-linter/super-linter/slim".into(), "v5".into())]
    );
}

#[test]
fn parses_full_partial_and_prerelease_tags() {
    assert_eq!(parse_gha_version("v4").unwrap().to_string(), "4.0.0");
    assert_eq!(parse_gha_version("v4.1").unwrap().to_string(), "4.1.0");
    assert_eq!(parse_gha_version("4.1.1").unwrap().to_string(), "4.1.1");
    assert_eq!(parse_gha_version("46.0.1").unwrap().to_string(), "46.0.1");
    assert_eq!(parse_gha_version("87").unwrap().to_string(), "87.0.0");
    assert_eq!(
        parse_gha_version("v2.0.0-beta").unwrap().to_string(),
        "2.0.0-beta"
    );
}

#[test]
fn rejects_shas_and_branches() {
    assert!(parse_gha_version("a1b2c3d4e5f6a7b8c9d0").is_none()); // SHA (hex w/ letters)
    assert!(parse_gha_version("main").is_none());
    assert!(parse_gha_version("release/v2").is_none());
    // A 40-digit all-numeric SHA overflows the numeric parse → skipped.
    assert!(parse_gha_version(&"1".repeat(40)).is_none());
}

#[test]
fn workflows_are_matched_against_the_mirror() {
    let db = GhActionsDb::from_records(&vec![record("tj-actions/changed-files")]);
    assert_eq!(db.len(), 1);
    assert!(!db.is_empty());
    assert_eq!(db.advisories_for("tj-actions/changed-files").len(), 1);
    let workflows = vec![
        "  - uses: TJ-Actions/Changed-Files@v44\n".to_string(),
        "  - uses: tj-actions/changed-files@main\n".to_string(),
        "  - uses: tj-actions/changed-files@v44\n".to_string(),
    ];
    let scan = scan_offline(&workflows, &db, &RepoId("r".into()));
    assert_eq!(scan.findings.len(), 1);
    assert_eq!(scan.skipped_unparseable, 1);
}

#[test]
fn workflow_files_are_yaml() {
    assert!(is_yaml("ci.yml"));
    assert!(is_yaml("ci.yaml"));
    assert!(!is_yaml("README.md"));
    assert_eq!(uses_value("  - uses: a/b@v1"), Some("a/b@v1".to_string()));
    assert_eq!(uses_value("  run: x"), None);
    assert_eq!(pad_version("4.1"), Some("4.1.0".to_string()));
}

#[test]
fn workflows_without_a_mirror_are_a_gap() {
    let id = RepoId("r".into());
    let texts = Ok(vec!["  - uses: tj-actions/changed-files@v44\n".to_string()]);
    let none = scan_ghactions_repo(&id, &None, &texts);
    assert!(matches!(none.outcome.status, ScanStatus::Errored { .. }));
    let db = Some(Ok(GhActionsDb::from_records(&vec![record(
        "tj-actions/changed-files",
    )])));
    let unread = scan_ghactions_repo(&id, &db, &Err("no file".into()));
    assert_eq!(
        unread.outcome.status,
        ScanStatus::Errored {
            reason: "github-actions tier-c scan: no file".into()
        }
    );
    let found = scan_ghactions_repo(&id, &db, &texts);
    assert_eq!(found.vulnerabilities.len(), 1);
    assert!(matches!(found.outcome.status, ScanStatus::Scanned { .. }));
}

#[test]
fn a_workflow_read_twice_uses_the_same_actions() {
    let wf = "  - uses: actions/checkout@v4\n  - uses: ./local\n  - uses: a/b@v1".to_string();
    let once = gather_actions(&vec![wf.clone()]);
    let twice = gather_actions(&vec![format!("{wf}\n{wf}")]);
    assert_eq!(once, twice);
    assert_eq!(once, vec![action("a/b", "v1"), action("actions/checkout", "v4")]);
}
