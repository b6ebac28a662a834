use fleetreach::finding::{
    DependencyKind, Ecosystem, Occurrence, ReachVerdict, RepoId, VulnFinding,
};
use fleetreach::go::{
    all_imports, depth, direct_modules, frame_label, go_vuln_url, main_module, parse_findings,
    parse_go_version, render_symbols, replace_directives, required_modules, strip_v, witness,
    Depth, Finding, Frame, Import, Message, OsvEntry, Symbols,
};
use fleetreach::go_offline::{
    advisories_to_load, affected_fixed, apply_replace, is_safe_advisory_id, module_index,
    offline_db_path, scan_offline, GoAffected, GoDb, GoImport, GoRecord, ModuleIndex,
};
use fleetreach::go_run::SandboxPolicy::{Auto, Off, Require};
use fleetreach::go_run::{
    conclude, effective_policy, go_timeout, govulncheck_argv, is_offline_db, isolate_env,
    persistent_go_cache, unconfined_warning, GoError, GoScanOptions, SandboxPolicy,
};
use fleetreach::osv::{Match, Package, RawEvent, RawRange};
use fleetreach::outcome::ScanStatus;
use fleetreach::repo_scan::match_go_repo;
use fleetreach::textmap::TextMap;
use fleetreach::version::Version;

// --- Manifests ---

#[test]
fn replace_directives_parse_all_forms() {
    let go_mod = "\
module example.com/app

replace golang.org/x/text => golang.org/x/text v0.3.8

replace (
\tgithub.com/old/pkg v1.0.0 => github.com/fork/pkg v1.2.0
\texample.com/local => ../local
)
";
    let r = replace_directives(go_mod);
    assert_eq!(r.len(), 3);
    // version-agnostic module replacement
    assert_eq!(r[0].from_path, "golang.org/x/text");
    assert_eq!(r[0].from_version, None);
    assert_eq!(r[0].to_version.as_deref(), Some("v0.3.8"));
    // version-specific replacement
    assert_eq!(r[1].from_version.as_deref(), Some("v1.0.0"));
    assert_eq!(r[1].to_path, "github.com/fork/pkg");
    // local-path replacement: no `to` version
    assert_eq!(r[2].to_path, "../local");
    assert_eq!(r[2].to_version, None);
}

#[test]
fn direct_modules_reads_block_single_and_indirect() {
    let go_mod = "\
module github.com/acme/svc

go 1.21

require github.com/direct/single v1.0.0

require (
\tgithub.com/direct/block v1.2.0
\tgolang.org/x/text v0.3.0 // indirect
\tgithub.com/indirect/dep v0.1.0 // indirect
)
";
    let direct = direct_modules(go_mod);
    let has = |name: &str| direct.contains(&name.to_string());
    // main module + the two un-annotated requires are direct.
    assert!(has("github.com/acme/svc"));
    assert!(has("github.com/direct/single"));
    assert!(has("github.com/direct/block"));
    // `// indirect` requires are excluded.
    assert!(!has("golang.org/x/text"));
    assert!(!has("github.com/indirect/dep"));
    assert_eq!(direct.len(), 3);
}

#[test]
fn direct_modules_empty_when_no_manifest() {
    assert!(direct_modules("").is_empty());
}

#[test]
fn version_adapter_handles_go_version_shapes() {
    for v in [
        "v1.6.0",
        "0.3.8",
        "v0.0.0-20200116001909-b77594299b42",
        "0.0.0-20130808000456-233bccbb1abe",
        "v2.0.0+incompatible",
        "v1.2.3-rc.1",
    ] {
        assert!(parse_go_version(v).is_some(), "should parse: {v}");
    }
    assert!(parse_go_version("not-a-version").is_none());
}

fn run_all_parsers(s: &str) {
    let _ = required_modules(s);
    let _ = direct_modules(s);
    let _ = main_module(s);
    let _ = replace_directives(s);
    for line in s.lines() {
        let _ = parse_go_version(line.trim());
    }
}

#[test]
fn parsers_never_panic_on_adversarial_input() {
    // Deterministic xorshift64* (no `rand` dep) so a failure reproduces.
    let mut x: u64 = 0x9e37_79b9_7f4a_7c15;
    let mut rng = move || {
        x ^= x << 13;
        x ^= x >> 7;
        x ^= x << 17;
        x
    };
    const TOK: &[&str] = &[
        "module ",
        "require ",
        "replace ",
        "exclude ",
        "retract ",
        "toolchain ",
        "go ",
        "(",
        ")",
        "require (",
        "replace (",
        "=>",
        " => ",
        "//",
        "// indirect",
        "v1.2.3",
        "v0.0.0-20210101000000-abcdef",
        "+incompatible",
        "golang.org/x/text",
        " ",
        "\t",
        "\n",
        "\r\n",
        "",
        "0",
        "v",
        "=>=>",
        "v99999999999999999999999.0.0",
        "你好",
        "\u{1b}[31m",
        "\u{0}",
        "module",
        "=> ../local",
    ];

    for _ in 0..10_000u64 {
        let mut s = String::new();
        for _ in 0..(rng() % 40) {
            match rng() % 5 {
                0 => s.push_str(TOK[(rng() as usize) % TOK.len()]),
                1 => s.push((0x20 + (rng() % 0x5e) as u8) as char), // printable ASCII
                2 => s.push('\n'),
                3 => s.push(char::from_u32((rng() % 0x1_0000) as u32).unwrap_or(' ')), // BMP
                _ => s.push_str("require "),
            }
        }
        run_all_parsers(&s);
    }
}

#[test]
fn the_main_module_is_named_once() {
    assert_eq!(
        main_module("// a comment\n  module example.com/app // why\n"),
        Some("example.com/app".to_string())
    );
    assert_eq!(main_module("go 1.21\n"), None);
    assert_eq!(strip_v("v1.2.3"), "1.2.3");
    assert_eq!(strip_v("1.2.3"), "1.2.3");
}

// --- The checker ---

fn frame(module: &str, version: Option<&str>, package: Option<&str>, function: Option<&str>) -> Frame {
    Frame {
        module: Some(module.into()),
        version: version.map(|x| x.to_string()),
        package: package.map(|x| x.to_string()),
        function: function.map(|x| x.to_string()),
        receiver: None,
    }
}

fn empty() -> Message {
    Message {
        config: None,
        sbom: None,
        osv: None,
        finding: None,
    }
}

fn entry(id: &str, symbols: &[&str]) -> Message {
    Message {
        osv: Some(OsvEntry {
            id: id.into(),
            aliases: Some(vec![format!("CVE-{id}")]),
            summary: Some("summary".into()),
            imports: vec![Import {
                path: "golang.org/x/text/language".into(),
                symbols: Some(symbols.iter().map(|s| s.to_string()).collect()),
            }],
        }),
        ..empty()
    }
}

fn found(id: &str, trace: Vec<Frame>) -> Message {
    Message {
        finding: Some(Finding {
            osv: Some(id.into()),
            fixed_version: Some("v0.3.7".into()),
            trace,
        }),
        ..empty()
    }
}

/// One finding of each reachability depth, as the checker reports golang.org/x/text v0.3.0.
fn messages() -> Vec<Message> {
    let text = "golang.org/x/text";
    let language = Some("golang.org/x/text/language");
    let version = Some("v0.3.0");
    vec![
        entry("GO-2021-0113", &["Parse", "MatchStrings"]),
        entry("GO-2022-1059", &["ParseAcceptLanguage"]),
        entry("GO-2020-0015", &["String"]),
        found("GO-2020-0015", vec![frame(text, version, None, None)]),
        found("GO-2021-0113", vec![frame(text, version, None, None)]),
        found("GO-2022-1059", vec![frame(text, version, None, None)]),
        found("GO-2021-0113", vec![frame(text, version, language, None)]),
        found("GO-2022-1059", vec![frame(text, version, language, None)]),
        found(
            "GO-2021-0113",
            vec![
                frame(text, version, language, Some("Parse")),
                frame("example.com/svc", None, Some("example.com/svc"), Some("main")),
            ],
        ),
    ]
}

fn findings() -> Vec<VulnFinding> {
    parse_findings(&messages(), &RepoId("svc".into()), &vec![]).0
}

fn dependency_kind(f: &VulnFinding) -> DependencyKind {
    match &f.occurrences[0] {
        Occurrence::InRepo {
            dependency_kind, ..
        } => *dependency_kind,
        _ => panic!("expected InRepo occurrence"),
    }
}

fn verdict(id: &str) -> ReachVerdict {
    findings()
        .into_iter()
        .find(|f| f.advisory_id == id)
        .unwrap_or_else(|| panic!("{id} present"))
        .reachability
        .expect("reachability set")
        .verdict
}

#[test]
fn symbol_level_finding_is_reachable_with_a_witness() {
    match verdict("GO-2021-0113") {
        ReachVerdict::Reachable { witness } => {
            assert!(!witness.is_empty(), "witness carries the call chain");
            assert!(
                witness.iter().any(|f| f.contains("Parse")),
                "witness names the vulnerable symbol: {witness:?}"
            );
        }
        other => panic!("expected Reachable, got {other:?}"),
    }
}

#[test]
fn imported_but_uncalled_is_unknown_never_not_reachable() {
    match verdict("GO-2022-1059") {
        ReachVerdict::Unknown { reason } => assert!(reason.contains("imported")),
        other => panic!("expected Unknown, got {other:?}"),
    }
}

#[test]
fn present_but_unimported_is_unknown() {
    match verdict("GO-2020-0015") {
        ReachVerdict::Unknown { reason } => assert!(reason.contains("present")),
        other => panic!("expected Unknown, got {other:?}"),
    }
}

#[test]
fn never_emits_not_reachable() {
    for f in findings() {
        if let Some(r) = f.reachability {
            assert!(
                !matches!(r.verdict, ReachVerdict::NotReachable),
                "{} must not be NotReachable",
                f.advisory_id
            );
        }
    }
}

#[test]
fn classifies_direct_vs_transitive_from_go_mod() {
    let repo = RepoId("svc".into());

    // Default (no go.mod context): x/text is transitive.
    let transitive = parse_findings(&messages(), &repo, &vec![]).0;
    assert!(
        transitive
            .iter()
            .all(|f| dependency_kind(f) == DependencyKind::Transitive),
        "no direct set -> everything transitive"
    );

    // With a go.mod that requires golang.org/x/text directly, the same finding is
    // reclassified Direct — the whole point of the go.mod-driven classification.
    let direct = direct_modules("module github.com/acme/svc\nrequire golang.org/x/text v0.3.0\n");
    let classified = parse_findings(&messages(), &repo, &direct).0;
    let xtext = classified
        .iter()
        .find(|f| matches!(&f.occurrences[0], Occurrence::InRepo { package, .. } if package == "golang.org/x/text"))
        .expect("x/text finding present");
    assert_eq!(dependency_kind(xtext), DependencyKind::Direct);
}

#[test]
fn maps_metadata_into_the_shared_model() {
    let all = findings();
    let f = all
        .iter()
        .find(|f| f.advisory_id == "GO-2021-0113")
        .expect("present");
    assert_eq!(f.ecosystem, Ecosystem::Go);
    // CVE/GHSA aliases carry through, so --enrich can backfill severity/KEV/EPSS.
    assert!(f.aliases.iter().any(|a| a.starts_with("CVE-")));
    assert!(f
        .url
        .as_deref()
        .unwrap()
        .contains("pkg.go.dev/vuln/GO-2021-0113"));
    // The vulnerable symbol is surfaced for the `affects fn` display.
    assert!(f.affected_functions.iter().any(|s| s.contains("Parse")));
    match &f.occurrences[0] {
        Occurrence::InRepo {
            package,
            installed,
            patched,
            ..
        } => {
            assert_eq!(package, "golang.org/x/text");
            assert_eq!(installed.to_string(), "0.3.0"); // leading `v` stripped
            // Fixed in v0.3.7 -> a >=0.3.7 patched range (no `v`), above installed.
            assert!(patched.iter().any(|r| r.to_string().contains("0.3.7")));
            let fix = Version::parse("0.3.7").unwrap();
            assert!(installed.before(&fix));
        }
        _ => panic!("expected InRepo occurrence"),
    }
}

#[test]
fn a_version_that_cannot_be_read_is_named() {
    let list = vec![
        entry("GO-1", &[]),
        found("GO-1", vec![frame("example.com/m", Some("master"), None, None)]),
    ];
    let (found, dropped) = parse_findings(&list, &RepoId("r".into()), &vec![]);
    assert!(found.is_empty());
    assert_eq!(dropped.len(), 1);
    assert_eq!(dropped[0].id, "GO-1");
    assert_eq!(dropped[0].module, "example.com/m");
    assert_eq!(dropped[0].version, "master");
}

#[test]
fn a_trace_is_as_deep_as_its_first_frame() {
    let of = |f: Frame| Finding {
        osv: None,
        fixed_version: None,
        trace: vec![f],
    };
    assert_eq!(depth(&of(frame("m", None, None, None))), Depth::Module);
    assert_eq!(depth(&of(frame("m", None, Some("p"), None))), Depth::Package);
    let called = of(frame("m", None, Some("p"), Some("F")));
    assert_eq!(depth(&called), Depth::Symbol);
    assert_eq!(witness(&called).len(), 1);
    let method = Frame {
        receiver: Some("*T".into()),
        ..frame("m", None, Some("p"), Some("F"))
    };
    assert!(frame_label(&method).contains("F"));
    assert_eq!(go_vuln_url("GO-1"), "https://pkg.go.dev/vuln/GO-1");
    let symbols = Symbols {
        path: "p".into(),
        symbols: vec!["B".into(), "A".into(), "B".into()],
    };
    assert_eq!(render_symbols(&vec![symbols]), vec!["p.A", "p.B"]);
}

// --- The mirror ---

fn ranges(events: &[(&str, &str)]) -> Vec<RawRange> {
    vec![RawRange {
        kind: Some("SEMVER".into()),
        events: events
            .iter()
            .map(|(k, v)| RawEvent {
                introduced: (*k == "introduced").then(|| v.to_string()),
                fixed: (*k == "fixed").then(|| v.to_string()),
                last_affected: (*k == "last_affected").then(|| v.to_string()),
            })
            .collect(),
    }]
}

fn v(s: &str) -> Version {
    parse_go_version(s).unwrap()
}

/// `Match::Affected` with a named fix, for concise assertions.
fn affected(fix: &str) -> Match<Version> {
    Match::Affected {
        fixed: Some(v(fix)),
    }
}

#[test]
fn affected_below_fix_with_patch_reported() {
    let r = ranges(&[("introduced", "0"), ("fixed", "0.3.7")]);
    // 0.3.0 < 0.3.7 -> affected, fix is 0.3.7.
    assert_eq!(affected_fixed(&v("0.3.0"), &r), affected("0.3.7"));
}

#[test]
fn not_affected_at_or_above_fix() {
    let r = ranges(&[("introduced", "0"), ("fixed", "0.3.7")]);
    assert_eq!(affected_fixed(&v("0.3.7"), &r), Match::NotAffected);
    assert_eq!(affected_fixed(&v("1.0.0"), &r), Match::NotAffected);
}

#[test]
fn introduced_above_zero_excludes_older() {
    // Affected only in [1.2.0, 1.2.5).
    let r = ranges(&[("introduced", "1.2.0"), ("fixed", "1.2.5")]);
    assert_eq!(
        affected_fixed(&v("1.1.0"), &r),
        Match::NotAffected,
        "before introduced"
    );
    assert_eq!(
        affected_fixed(&v("1.2.3"), &r),
        affected("1.2.5"),
        "inside the window"
    );
}

#[test]
fn multi_interval_picks_the_right_fix() {
    // Two windows: [0,1.0.1) and [2.0.0,2.0.3).
    let r = ranges(&[
        ("introduced", "0"),
        ("fixed", "1.0.1"),
        ("introduced", "2.0.0"),
        ("fixed", "2.0.3"),
    ]);
    assert_eq!(affected_fixed(&v("0.9.0"), &r), affected("1.0.1"));
    assert_eq!(
        affected_fixed(&v("1.5.0"), &r),
        Match::NotAffected,
        "between windows"
    );
    assert_eq!(affected_fixed(&v("2.0.1"), &r), affected("2.0.3"));
}

#[test]
fn last_affected_without_fix() {
    let r = ranges(&[("introduced", "1.0.0"), ("last_affected", "1.4.0")]);
    assert_eq!(
        affected_fixed(&v("1.3.0"), &r),
        Match::Affected { fixed: None },
        "affected, no fix named"
    );
    assert_eq!(affected_fixed(&v("1.5.0"), &r), Match::NotAffected);
}

#[test]
fn pseudo_versions_and_prereleases_are_matched_not_silently_clean() {
    let r = ranges(&[("introduced", "0"), ("fixed", "1.2.5")]);
    assert_eq!(
        affected_fixed(&v("v0.0.0-20210101000000-abcdef"), &r),
        affected("1.2.5"),
        "pseudo-version in [0,1.2.5) must be flagged"
    );
    // A pre-release of the introduced version is included (fail-loud bias).
    let r2 = ranges(&[("introduced", "1.2.0"), ("fixed", "1.2.5")]);
    assert_eq!(
        affected_fixed(&v("v1.2.0-rc.1"), &r2),
        affected("1.2.5"),
        "1.2.0-rc.1 is at/after introduced 1.2.0"
    );
    // The real fix still clears it (upper bound keeps full SemVer ordering).
    assert_eq!(affected_fixed(&v("1.2.5"), &r2), Match::NotAffected);
}

#[test]
fn pseudo_version_introduced_bound_respects_the_timeline() {
    let r = ranges(&[
        ("introduced", "0.0.0-20220524220425-1d687d428aca"),
        ("fixed", "0.1.1-0.20221104162952-702349b0e862"),
    ]);
    // 2021 pseudo is BEFORE the 2022 introduced bound -> NOT affected.
    assert_eq!(
        affected_fixed(&v("v0.0.0-20210520170846-37e1c6afe023"), &r),
        Match::NotAffected,
        "a pseudo-version before the introduced pseudo must not be flagged"
    );
    // A pseudo AFTER introduced and before the fix is affected.
    assert_eq!(
        affected_fixed(&v("v0.0.0-20220812000000-abcdef000000"), &r),
        affected("0.1.1-0.20221104162952-702349b0e862"),
        "a pseudo inside the affected window is flagged"
    );
    // The plain `introduced: "0"` case is unchanged: pseudo-versions stay inclusive.
    let zero = ranges(&[("introduced", "0"), ("fixed", "1.2.5")]);
    assert_eq!(
        affected_fixed(&v("v0.0.0-20210520170846-37e1c6afe023"), &zero),
        affected("1.2.5"),
        "introduced \"0\" keeps every pseudo-version inclusive (no regression)"
    );
}

#[test]
fn malformed_introduced_bound_fails_loud_not_clean() {
    let bad = ranges(&[("introduced", "garbage"), ("fixed", "99.0.0")]);
    assert_eq!(
        affected_fixed(&v("1.0.0"), &bad),
        affected("99.0.0"),
        "unparseable introduced must be affected, not silently clean"
    );
    // A SEMVER range with NO introduced event is introduced-at-0 (OSV convention).
    let no_intro = ranges(&[("fixed", "2.0.0")]);
    assert_eq!(affected_fixed(&v("1.5.0"), &no_intro), affected("2.0.0"));
    assert_eq!(
        affected_fixed(&v("2.0.0"), &no_intro),
        Match::NotAffected,
        "at/above fix is clean"
    );
}

#[test]
fn rejects_unsafe_advisory_ids_for_path_safety() {
    assert!(is_safe_advisory_id("GO-2021-0113"));
    assert!(is_safe_advisory_id("CVE-2021-38561"));
    assert!(is_safe_advisory_id("GHSA-ppp9-7jff-5vj2"));
    // Traversal / absolute / separators / empty are rejected.
    assert!(!is_safe_advisory_id("../../etc/hosts"));
    assert!(!is_safe_advisory_id("/etc/hosts"));
    assert!(!is_safe_advisory_id(".."));
    assert!(!is_safe_advisory_id("a/b"));
    assert!(!is_safe_advisory_id("a\\b"));
    assert!(!is_safe_advisory_id(""));
}

#[test]
fn offline_db_path_only_file_urls() {
    assert_eq!(
        offline_db_path("file:///opt/vulndb"),
        Some("/opt/vulndb".to_string())
    );
    assert_eq!(offline_db_path("https://vuln.go.dev"), None);
    assert_eq!(offline_db_path("/bare/path"), None);
}

fn record(id: &str, module: &str, fixed: &str) -> GoRecord {
    GoRecord {
        id: id.into(),
        aliases: Some(vec![format!("CVE-{id}")]),
        summary: Some("s".into()),
        affected: vec![GoAffected {
            package: Package {
                name: Some(module.into()),
                ecosystem: Some("Go".into()),
            },
            ranges: ranges(&[("introduced", "0"), ("fixed", fixed)]),
            imports: vec![GoImport {
                path: Some(format!("{module}/pkg")),
                symbols: Some(vec!["Boom".into()]),
            }],
        }],
    }
}

fn db() -> GoDb {
    let about = |path: &str, id: &str| ModuleIndex {
        path: path.into(),
        vulns: vec![id.into()],
    };
    let index = module_index(&vec![
        about("example.com/vuln", "GO-TEST-0001"),
        about("example.com/indirectvuln", "GO-TEST-0002"),
        about("example.com/safe", "GO-TEST-0003"),
    ]);
    let mut advisories: TextMap<GoRecord> = TextMap::new();
    for (id, module, fixed) in [
        ("GO-TEST-0001", "example.com/vuln", "1.2.0"),
        ("GO-TEST-0002", "example.com/indirectvuln", "1.0.0"),
        ("GO-TEST-0003", "example.com/safe", "1.0.0"),
    ] {
        assert!(advisories_to_load(&index).contains(&id.to_string()));
        advisories = advisories.insert(id.to_string(), record(id, module, fixed));
    }
    GoDb { index, advisories }
}

const GO_MOD: &str = "\
module example.com/app

require (
\texample.com/vuln v1.0.0
\texample.com/safe v2.0.0
\texample.com/indirectvuln v0.5.0 // indirect
)
";

fn scan_with(replace: &str) -> Vec<VulnFinding> {
    let go_mod = format!("{GO_MOD}\n{replace}\n");
    scan_offline(&go_mod, &db(), &RepoId("app".into())).0
}

#[test]
fn matches_vulnerable_modules_and_skips_patched() {
    let found = scan_with("");
    let ids: Vec<&str> = found.iter().map(|f| f.advisory_id.as_str()).collect();
    // vuln@1.0.0 (< fixed 1.2.0) and indirectvuln@0.5.0 (< fixed 1.0.0) are affected;
    // safe@2.0.0 (>= fixed 1.0.0) is not. Sorted by id.
    assert_eq!(ids, vec!["GO-TEST-0001", "GO-TEST-0002"]);
}

#[test]
fn finding_is_module_level_unknown_never_reachable() {
    for f in scan_with("") {
        assert_eq!(f.ecosystem, Ecosystem::Go);
        let reach = f.reachability.as_ref().expect("reachability set");
        assert_eq!(reach.engine, "fleetreach-tier-c");
        assert!(
            matches!(reach.verdict, ReachVerdict::Unknown { .. }),
            "{} must be Unknown (module-level), never Reachable/NotReachable",
            f.advisory_id
        );
    }
}

#[test]
fn carries_metadata_patch_and_dependency_kind() {
    let found = scan_with("");
    let direct = found
        .iter()
        .find(|f| f.advisory_id == "GO-TEST-0001")
        .unwrap();
    // CVE/GHSA aliases carry through so --enrich can backfill severity/EPSS.
    assert!(direct.aliases.iter().any(|a| a.starts_with("CVE-")));
    assert!(direct
        .url
        .as_deref()
        .unwrap()
        .contains("pkg.go.dev/vuln/GO-TEST-0001"));
    // The vulnerable symbol from ecosystem_specific.imports is surfaced.
    assert!(direct.affected_functions.iter().any(|s| s.contains("Boom")));
    match &direct.occurrences[0] {
        Occurrence::InRepo {
            package,
            installed,
            patched,
            dependency_kind,
            ..
        } => {
            assert_eq!(package, "example.com/vuln");
            assert_eq!(installed.to_string(), "1.0.0");
            // A direct require (not `// indirect`) → Direct; patch is `>=1.2.0`.
            assert_eq!(*dependency_kind, DependencyKind::Direct);
            assert!(patched.iter().any(|r| r.to_string().contains("1.2.0")));
        }
        _ => panic!("expected InRepo occurrence"),
    }

    // The indirect require classifies Transitive.
    let indirect = found
        .iter()
        .find(|f| f.advisory_id == "GO-TEST-0002")
        .unwrap();
    assert_eq!(dependency_kind(indirect), DependencyKind::Transitive);
}

#[test]
fn replace_to_a_fixed_version_is_not_a_false_positive() {
    // vuln@1.0.0 is vulnerable (GO-TEST-0001, fixed 1.2.0) but `replace`d up to the
    // fixed 1.2.0.
    let found = scan_with(
        "replace example.com/vuln => example.com/vuln v1.2.0\n\
         replace example.com/indirectvuln => example.com/indirectvuln v1.0.0",
    );
    assert!(
        found.is_empty(),
        "replace to the fixed version must not false-positive: {:?}",
        found.iter().map(|f| &f.advisory_id).collect::<Vec<_>>()
    );
}

#[test]
fn replace_down_to_a_vulnerable_version_is_matched_at_the_replacement() {
    // safe@2.0.0 is clean, but `replace`d DOWN to the vulnerable 0.9.0 (GO-TEST-0003).
    let go_mod = "module example.com/app\n\nrequire example.com/safe v2.0.0\n\n\
                  replace example.com/safe => example.com/safe v0.9.0\n";
    let found = scan_offline(go_mod, &db(), &RepoId("app".into())).0;
    assert_eq!(found.len(), 1);
    assert_eq!(found[0].advisory_id, "GO-TEST-0003");
    match &found[0].occurrences[0] {
        Occurrence::InRepo { installed, .. } => assert_eq!(installed.to_string(), "0.9.0"),
        _ => panic!("expected InRepo"),
    }
}

#[test]
fn replace_to_a_local_path_is_unmatchable_and_skipped() {
    // A local-path replacement is no longer the published artifact — don't match it.
    let go_mod = "module example.com/app\n\nrequire example.com/vuln v1.0.0\n\n\
                  replace example.com/vuln => ../vuln\n";
    let (found, _) = scan_offline(go_mod, &db(), &RepoId("app".into()));
    assert!(found.is_empty());
    assert!(apply_replace(&replace_directives(go_mod), "example.com/vuln", "v1.0.0").is_none());
}

#[test]
fn a_branch_is_not_a_version_and_is_named() {
    let go_mod = "module example.com/app\n\nrequire example.com/vuln master\n";
    let (found, unmatchable) = scan_offline(go_mod, &db(), &RepoId("app".into()));
    assert!(found.is_empty());
    assert_eq!(unmatchable.len(), 1);
    assert_eq!(unmatchable[0].module, "example.com/vuln");
    assert_eq!(unmatchable[0].version, "master");
}

#[test]
fn a_module_without_its_checker_is_matched_or_a_gap() {
    let id = RepoId("app".into());
    let text = Ok(GO_MOD.to_string());
    let (none, _) = match_go_repo(&id, &None, &text);
    assert!(matches!(none.outcome.status, ScanStatus::Errored { .. }));
    let (unread, _) = match_go_repo(&id, &Some(Ok(db())), &Err("no file".into()));
    assert_eq!(
        unread.outcome.status,
        ScanStatus::Errored {
            reason: "tier-c offline scan: no file".into()
        }
    );
    let (found, unmatched) = match_go_repo(&id, &Some(Ok(db())), &text);
    assert_eq!(
        found.outcome.status,
        ScanStatus::Scanned {
            vulns: found.vulnerabilities.len(),
            warnings: 0
        }
    );
    assert_eq!(found.vulnerabilities.len(), 2);
    assert!(unmatched.is_empty());
    let branch = Ok("module a\n\nrequire example.com/vuln master\n".to_string());
    let (_, unmatched) = match_go_repo(&id, &Some(Ok(db())), &branch);
    assert_eq!(unmatched.len(), 1);
}

// --- Running the checker ---

#[test]
fn argv_is_json_source_scan_without_a_db_by_default() {
    let argv = govulncheck_argv("/bin/govulncheck", &None);
    assert_eq!(
        argv,
        vec!["/bin/govulncheck", "-format", "json", "./..."],
        "online scan uses govulncheck's default DB (no -db)"
    );
}

#[test]
fn argv_threads_an_offline_db_mirror_as_minus_db() {
    let argv = govulncheck_argv(
        "/bin/govulncheck",
        &Some("file:///opt/vulndb-mirror".to_string()),
    );
    // The `-db` flag must immediately precede the mirror url, and the package
    // pattern stays last.
    assert_eq!(
        argv,
        vec![
            "/bin/govulncheck",
            "-format",
            "json",
            "-db",
            "file:///opt/vulndb-mirror",
            "./...",
        ]
    );
}

#[test]
fn auto_degrades_to_off_without_an_offline_mirror() {
    // auto: confine only when a mirror makes the offline scan viable.
    assert_eq!(
        effective_policy(Auto, false),
        Off,
        "auto + no mirror → online"
    );
    assert_eq!(
        effective_policy(Auto, true),
        Auto,
        "auto + mirror → confined"
    );
    // require + off are honored verbatim (require fails closed downstream).
    assert_eq!(effective_policy(Require, false), Require);
    assert_eq!(effective_policy(Require, true), Require);
    assert_eq!(effective_policy(Off, false), Off);
    assert_eq!(effective_policy(Off, true), Off);
}

#[test]
fn only_a_file_url_counts_as_an_offline_db() {
    assert!(is_offline_db("file:///opt/vulndb"));
    assert!(is_offline_db("file://./local"));
    // A network DB is useless once confinement denies the network.
    assert!(!is_offline_db("https://vuln.go.dev"));
    assert!(!is_offline_db("http://internal/db"));
    assert!(!is_offline_db(""));
    assert!(!is_offline_db("file:/x"));
}

#[test]
fn isolate_env_redirects_caches_and_forces_offline() {
    let host: Vec<(String, String)> = [
        ("PATH", "/bin"),
        ("HOME", "/home/me"),
        ("AWS_SECRET_ACCESS_KEY", "SECRET-REDACTED"),
        ("GOCACHE", "/home/me/.cache/go"),
    ]
    .iter()
    .map(|(k, v)| (k.to_string(), v.to_string()))
    .collect();
    let env = isolate_env(&host, "/scratch/work/gocache", "/scratch/work/gotmp");
    let get = |name: &str| {
        env.iter()
            .filter(|(k, _)| k == name)
            .map(|(_, v)| v.as_str())
            .last()
    };

    // Build cache + temp are redirected into the writable scratch dir, never
    // the operator's shared `GOCACHE`.
    assert_eq!(get("GOCACHE"), Some("/scratch/work/gocache"));
    assert_eq!(get("GOTMPDIR"), Some("/scratch/work/gotmp"));
    // Network is forced fully off for the offline build.
    assert_eq!(get("GOPROXY"), Some("off"));
    assert_eq!(get("GOSUMDB"), Some("off"));
    assert_eq!(get("GOTOOLCHAIN"), Some("local"));
    assert_eq!(get("PATH"), Some("/bin"));

    const ALLOWED: &[&str] = &[
        "PATH",
        "HOME",
        "USER",
        "LOGNAME",
        "TERM",
        "LANG",
        "GOPATH",
        "GOROOT",
        "GOMODCACHE",
        "GOCACHE",
        "GOTMPDIR",
        "GOPROXY",
        "GOSUMDB",
        "GOTOOLCHAIN",
    ];
    for (key, _) in &env {
        assert!(
            ALLOWED.contains(&key.as_str()),
            "unexpected env var leaked into the confined build: {key}"
        );
    }
}

fn options(sandbox: SandboxPolicy, db: Option<&str>, offline: bool) -> GoScanOptions {
    GoScanOptions {
        govulncheck: "/bin/govulncheck".into(),
        sandbox,
        vuln_db: db.map(|x| x.to_string()),
        offline,
    }
}

#[test]
fn a_confined_run_needs_a_mirror() {
    let bare = options(SandboxPolicy::Require, None, false);
    let err = bare.prepare(true).unwrap_err();
    assert!(matches!(err, GoError::MirrorRequired));
    assert!(!err.to_string().is_empty());
    let mirrored = options(SandboxPolicy::Require, Some("file:///db"), false);
    let run = mirrored.prepare(true).unwrap();
    assert!(run.isolate && run.prefetch && !run.warn_unconfined);
    let offline = options(SandboxPolicy::Off, Some("file:///db"), true);
    assert_eq!(offline.policy(), SandboxPolicy::Require);
    assert!(!offline.prepare(true).unwrap().prefetch);
    let auto = options(SandboxPolicy::Auto, None, false);
    assert_eq!(auto.policy(), SandboxPolicy::Off);
    assert!(auto.prepare(false).unwrap().warn_unconfined);
}

#[test]
fn a_run_that_failed_is_an_error() {
    let repo = RepoId("r".into());
    let none = conclude("", "boom", false, Ok(vec![]), &repo, &vec![]).unwrap_err();
    assert!(matches!(none, GoError::NoOutput { .. }));
    let failed = conclude("{}", "boom", false, Ok(vec![]), &repo, &vec![]).unwrap_err();
    assert!(matches!(failed, GoError::Failed { .. }));
    let unread = conclude("{", "", true, Err("eof".into()), &repo, &vec![]).unwrap_err();
    assert!(matches!(unread, GoError::Parse(_)));
    let (found, dropped) = conclude("{}", "", true, Ok(messages()), &repo, &vec![]).unwrap();
    assert_eq!(found.len(), 3);
    assert!(dropped.is_empty());
}

#[test]
fn the_time_limit_has_a_default() {
    assert_eq!(go_timeout(&None), 600);
    assert_eq!(go_timeout(&Some("30".to_string())), 30);
    assert_eq!(go_timeout(&Some("soon".to_string())), 600);
    assert_eq!(go_timeout(&Some("0".to_string())), 0);
}

#[test]
fn confined_builds_share_a_cache_of_their_own() {
    let some = |s: &str| Some(s.to_string());
    assert_eq!(
        persistent_go_cache(&some("/xdg"), &some("/home/me"), "/tmp"),
        "/xdg/fleetreach/go-build".to_string()
    );
    assert_eq!(
        persistent_go_cache(&None, &some("/home/me/"), "/tmp"),
        "/home/me/.cache/fleetreach/go-build".to_string()
    );
    assert_eq!(
        persistent_go_cache(&None, &None, "/tmp"),
        "/tmp/fleetreach/go-build".to_string()
    );
}

#[test]
fn an_unconfined_run_is_announced() {
    assert!(unconfined_warning().starts_with("warning: scanning Go repo UNCONFINED (online): "));
}

#[test]
fn an_advisory_on_two_modules_is_found_in_both() {
    let id = "GO-TEST-0009";
    let about = |path: &str| ModuleIndex {
        path: path.into(),
        vulns: vec![id.into()],
    };
    let mut both = record(id, "example.com/one", "1.2.0");
    both.affected
        .extend(record(id, "example.com/two", "1.2.0").affected);
    let db = GoDb {
        index: module_index(&vec![about("example.com/one"), about("example.com/two")]),
        advisories: TextMap::new().insert(id.to_string(), both),
    };
    let go_mod = "module m\n\nrequire (\n\texample.com/two v1.0.0\n\texample.com/one v1.1.0\n\texample.com/one v1.1.0\n)\n";
    let found = scan_offline(go_mod, &db, &RepoId("app".into())).0;
    let modules: Vec<&str> = found
        .iter()
        .map(|f| match &f.occurrences[0] {
            Occurrence::InRepo { package, .. } => package.as_str(),
            _ => panic!("expected InRepo"),
        })
        .collect();
    assert_eq!(modules, vec!["example.com/one", "example.com/two"]);
    assert!(found.iter().all(|f| f.advisory_id == id));
}

#[test]
fn imports_of_all_entries_stand_one_after_the_other() {
    let import = |path: &str| Import {
        path: path.into(),
        symbols: None,
    };
    let all = all_imports(vec![
        Some(vec![import("b"), import("a")]),
        None,
        Some(vec![]),
        Some(vec![import("b")]),
    ]);
    assert_eq!(all, vec![import("b"), import("a"), import("b")]);
    assert!(all_imports(vec![]).is_empty());
}
