use fleetreach::finding::{DependencyKind, Ecosystem, Occurrence, ReachVerdict, RepoId};
use fleetreach::hex::{
    hex_db_path, installed_packages, match_advisory, parse_deps_list, parse_hex_version,
    scan_offline, HexDb, HexVersions, InstalledPackage,
};
use fleetreach::osv::{
    advisories_from, affected_fixed_parsed, parse_range, Advisory, Affected, DatabaseSpecific,
    Event, Match, OsvRecord, Package, ParsedRange, Range, RawEvent, RawRange, Scheme,
};
use fleetreach::orchestrate::RepoResult;
use fleetreach::outcome::ScanStatus;
use fleetreach::repo_scan::scan_hex_repo;
use fleetreach::score::Score;
use fleetreach::severity::Severity;
use fleetreach::version::Version;

fn v(s: &str) -> Version {
    HexVersions::parse_bound(s).unwrap()
}

fn ranges(events: &[(&str, &str)]) -> Vec<ParsedRange<Version>> {
    let range = Range {
        matchable: true,
        events: events
            .iter()
            .map(|(k, val)| Event {
                introduced: (*k == "introduced").then(|| val.to_string()),
                fixed: (*k == "fixed").then(|| val.to_string()),
                last_affected: (*k == "last_affected").then(|| val.to_string()),
            })
            .collect(),
    };
    vec![parse_range::<HexVersions>(&range)]
}

fn affected_fixed(version: &Version, r: &Vec<ParsedRange<Version>>) -> Match<Version> {
    affected_fixed_parsed::<HexVersions>(version, r)
}

fn record() -> OsvRecord {
    let affected = |ecosystem: &str, name: &str, ranges: Vec<RawRange>| Affected {
        package: Package {
            ecosystem: Some(ecosystem.into()),
            name: Some(name.into()),
        },
        ranges,
        versions: None,
    };
    let event = |introduced: Option<&str>, fixed: Option<&str>| RawEvent {
        introduced: introduced.map(|x| x.to_string()),
        fixed: fixed.map(|x| x.to_string()),
        last_affected: None,
    };
    OsvRecord {
        id: "GHSA-hx-1".into(),
        aliases: None,
        summary: Some("issue in hackney".into()),
        database_specific: Some(DatabaseSpecific {
            severity: Some("HIGH".into()),
        }),
        affected: vec![
            affected(
                "Hex",
                "hackney",
                vec![RawRange {
                    kind: Some("SEMVER".into()),
                    events: vec![event(Some("0"), None), event(None, Some("1.15.2"))],
                }],
            ),
            affected("npm", "x", vec![]),
        ],
        severity: vec![],
    }
}

#[test]
fn affected_below_fix_reports_patch() {
    let r = ranges(&[("introduced", "1.5.0"), ("fixed", "1.15.5")]);
    assert_eq!(
        affected_fixed(&v("1.6.2"), &r),
        Match::Affected {
            fixed: Some(v("1.15.5"))
        }
    );
    assert_eq!(affected_fixed(&v("1.15.5"), &r), Match::NotAffected);
}

#[test]
fn prerelease_bounds_handled() {
    let r = ranges(&[("introduced", "5.0.0-rc.0"), ("fixed", "5.0.0-rc.10")]);
    assert_eq!(
        affected_fixed(&v("5.0.0-rc.5"), &r),
        Match::Affected {
            fixed: Some(v("5.0.0-rc.10"))
        }
    );
}

#[test]
fn malformed_introduced_fails_loud() {
    let r = ranges(&[("introduced", "garbage"), ("fixed", "99.0.0")]);
    assert_eq!(
        affected_fixed(&v("1.0.0"), &r),
        Match::Affected {
            fixed: Some(v("99.0.0"))
        }
    );
}

#[test]
fn indexes_hex_verbatim() {
    let pairs = advisories_from::<HexVersions>(&record());
    assert_eq!(pairs.len(), 1);
    assert_eq!(pairs[0].0, "hackney");
    assert_eq!(pairs[0].1.severity, Severity::High);
}

#[test]
fn hex_db_path_only_file_urls() {
    assert_eq!(hex_db_path("file:///opt/db"), Some("/opt/db".to_string()));
    assert_eq!(hex_db_path("https://osv.dev"), None);
}

fn rows(pkgs: &[InstalledPackage]) -> Vec<(&str, &str)> {
    pkgs.iter()
        .map(|p| (p.name.as_str(), p.version.as_str()))
        .collect()
}

fn is_direct(pkgs: &[InstalledPackage], name: &str) -> bool {
    pkgs.iter().find(|p| p.name == name).unwrap().direct
}

const LOCK: &str = r#"%{
  "phoenix": {:hex, :phoenix, "1.6.2", "abc", [:mix], [{:plug, "~> 1.10"}], "hexpm", "def"},
  "plug": {:hex, :plug, "1.12.1", "ghi", [:mix], [], "hexpm", "jkl"},
  "my_git_dep": {:git, "https://github.com/x/y.git", "deadbeef", []},
  "decimal": {:hex, :decimal, "2.0.0", "mno", [:mix], [], "hexpm", "pqr"},
}
"#;

#[test]
fn parses_hex_entries_skips_git() {
    let (pkgs, _graph) = installed_packages(LOCK);
    assert_eq!(
        rows(&pkgs),
        vec![
            ("decimal", "2.0.0"),
            ("phoenix", "1.6.2"),
            ("plug", "1.12.1"),
        ]
    );
    // The git dependency has no Hex release → skipped.
    assert!(pkgs.iter().all(|p| p.name != "my_git_dep" && p.name != "y"));
}

#[test]
fn handles_prerelease_versions() {
    let lock = r#"%{ "ash": {:hex, :ash, "3.0.0-rc.1", "h", [:mix], [], "hexpm", "h2"} }"#;
    let (pkgs, _g) = installed_packages(lock);
    assert_eq!(rows(&pkgs), vec![("ash", "3.0.0-rc.1")]);
}

#[test]
fn empty_and_non_hex_lockfiles() {
    assert!(installed_packages("%{}").0.is_empty());
    assert!(installed_packages("").0.is_empty());
    // A lockfile with only git deps is matchable-empty.
    assert!(installed_packages(r#"%{ "g": {:git, "u", "r", []} }"#)
        .0
        .is_empty());
}

#[test]
fn infers_direct_flag_from_deps_lists() {
    // In LOCK, phoenix depends on plug → plug is transitive; phoenix and decimal are
    // listed by no one → direct.
    let (pkgs, _g) = installed_packages(LOCK);
    assert!(is_direct(&pkgs, "phoenix"));
    assert!(is_direct(&pkgs, "decimal"));
    assert!(!is_direct(&pkgs, "plug"));
}

#[test]
fn graph_yields_direct_and_transitive_chains() {
    let (_pkgs, graph) = installed_packages(LOCK);
    // Transitive: (root) -> phoenix -> plug.
    assert_eq!(graph.chain_to("plug"), vec!["(root)", "phoenix", "plug"]);
    // Direct: (root) -> phoenix.
    assert_eq!(graph.chain_to("phoenix"), vec!["(root)", "phoenix"]);
    assert_eq!(graph.chain_to("decimal"), vec!["(root)", "decimal"]);
}

#[test]
fn ignores_build_tools_list_and_hashes() {
    // The build-tools list `[:mix, :rebar3]` holds bare atoms (no `{:` tuples) and must
    // not be read as dependencies; only the sixth-element `{:dep}` tuples count.
    let lock = r#"%{
  "a": {:hex, :a, "1.0.0", "h1", [:mix, :rebar3], [{:b, "~> 1.0"}], "hexpm", "h2"},
  "b": {:hex, :b, "2.0.0", "h3", [:mix], [], "hexpm", "h4"},
}"#;
    let (pkgs, _g) = installed_packages(lock);
    // `a` requires `b`; `:mix`/`:rebar3` are not deps.
    assert!(is_direct(&pkgs, "a"));
    assert!(!is_direct(&pkgs, "b"));
}

fn adv(id: &str, fixed: &str) -> Advisory<Version> {
    Advisory {
        id: id.to_string(),
        aliases: vec![],
        summary: Some(format!("bug in {id}")),
        severity: Severity::High,
        cvss_score: Some(Score {
            bits: 7.5f64.to_bits(),
        }),
        ranges: ranges(&[("introduced", "0"), ("fixed", fixed)]),
        versions: vec![],
    }
}

fn pkg(name: &str, version: &str) -> InstalledPackage {
    InstalledPackage {
        name: name.to_string(),
        version: version.to_string(),
        direct: false,
    }
}

#[test]
fn affected_package_becomes_a_finding() {
    let a = adv("GHSA-hx", "1.15.2");
    let f = match_advisory(
        &a,
        &pkg("hackney", "1.15.0"),
        &parse_hex_version("1.15.0").unwrap(),
        &vec!["(root)".into(), "phoenix".into(), "hackney".into()],
        &RepoId("r".into()),
    )
    .unwrap();
    assert_eq!(f.ecosystem, Ecosystem::Hex);
    match &f.occurrences[0] {
        Occurrence::InRepo {
            package,
            dependency_kind,
            dependency_path,
            ..
        } => {
            assert_eq!(package, "hackney");
            assert_eq!(*dependency_kind, DependencyKind::Transitive);
            assert_eq!(dependency_path, &["(root)", "phoenix", "hackney"]);
        }
        _ => panic!("expected InRepo"),
    }
}

#[test]
fn patched_version_is_not_a_finding() {
    let a = adv("GHSA-hx", "1.15.2");
    assert!(match_advisory(
        &a,
        &pkg("hackney", "1.15.2"),
        &parse_hex_version("1.15.2").unwrap(),
        &vec![],
        &RepoId("r".into())
    )
    .is_none());
}

#[test]
fn a_lockfile_is_matched_against_the_mirror() {
    let db = HexDb::from_records(&vec![record()]);
    assert_eq!(db.len(), 1);
    assert!(!db.is_empty());
    assert_eq!(db.advisories_for("hackney").len(), 1);
    let lock = r#"%{
  "hackney": {:hex, :hackney, "1.15.0", "h", [:rebar3], [], "hexpm", "h2"},
  "odd": {:hex, :odd, "next", "h", [:mix], [], "hexpm", "h2"},
}"#;
    let scan = scan_offline(lock, &db, &RepoId("r".into()));
    assert_eq!(scan.findings.len(), 1);
    assert_eq!(scan.skipped_unparseable, 1);
    let reach = scan.findings[0].reachability.as_ref().unwrap();
    assert!(matches!(reach.verdict, ReachVerdict::Unknown { .. }));
    let fixed = lock.replace("1.15.0", "1.15.2");
    assert!(scan_offline(&fixed, &db, &RepoId("r".into())).findings.is_empty());
}

#[test]
fn dependency_tuples_name_packages() {
    let tail = r#""abc", [:mix], [{:plug, "~> 1.10"}, {:mime, "~> 2.0"}], "hexpm""#;
    assert_eq!(parse_deps_list(tail), vec!["plug", "mime"]);
    assert!(parse_deps_list("nothing").is_empty());
}

#[test]
fn a_hex_repository_is_matched_or_a_gap() {
    let id = RepoId("r".into());
    let lock = r#"  "hackney": {:hex, :hackney, "1.15.0", "h", [:rebar3], [], "hexpm", "h2"},"#;
    let text = Ok(lock.to_string());
    let reason = |r: &RepoResult| match &r.outcome.status {
        ScanStatus::Errored { reason } => reason.clone(),
        other => panic!("{other:?}"),
    };
    let none = scan_hex_repo(&id, &None, &text);
    assert!(reason(&none).starts_with("Hex repo (mix.lock): no OSV DB mirror"));
    let bad = scan_hex_repo(&id, &Some(Err("gone".into())), &text);
    assert_eq!(reason(&bad), "Hex OSV DB: gone");
    let db = Some(Ok(HexDb::from_records(&vec![record()])));
    let unread = scan_hex_repo(&id, &db, &Err("no file".into()));
    assert_eq!(reason(&unread), "hex tier-c scan: no file");
    let found = scan_hex_repo(&id, &db, &text);
    assert_eq!(found.vulnerabilities.len(), 1);
    assert!(matches!(
        found.outcome.status,
        ScanStatus::Scanned { vulns: 1, warnings: 0 }
    ));
}

#[test]
fn options_in_a_dependency_are_no_dependencies() {
    let tail = r#""h", [:mix], [{:plug, "~> 1.10", [hex: :plug, repo: "hexpm", optional: false]}], "hexpm", "h2"}"#;
    assert_eq!(parse_deps_list(tail), vec!["plug"]);
}

#[test]
fn an_entry_that_is_not_a_package_ends_the_one_before() {
    let lock = r#"%{
  "a": {:hex, :a, "1.0.0", "h1", [:mix], [{:b, "~> 1.0"}], "hexpm", "h2"},
  "g": {:git, "https://example.com/g.git", "abc", [branch: "main"]},
  "b": {:hex, :b, "2.0.0", "h3", [:mix], [], "hexpm", "h4"},
}"#;
    let (pkgs, graph) = installed_packages(lock);
    assert!(is_direct(&pkgs, "a"));
    assert!(!is_direct(&pkgs, "b"));
    assert_eq!(graph.chain_to("b"), vec!["(root)", "a", "b"]);
}

#[test]
fn a_direct_package_is_one_step_from_the_project() {
    let (pkgs, graph) = installed_packages(LOCK);
    for p in &pkgs {
        let chain = graph.chain_to(&p.name);
        assert_eq!(p.direct, chain == vec!["(root)".to_string(), p.name.clone()]);
    }
}
