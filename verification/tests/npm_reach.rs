use fleetreach::assemble::build_report;
use fleetreach::depgraph::DepGraph;
use fleetreach::finding::{
    DepSource, DependencyKind, Ecosystem, Exploitability, Occurrence, ReachVerdict, RepoId,
    VulnFinding,
};
use fleetreach::npm_reach::{
    self, analyze, bare_package, import_packages, is_counted, merge, package_dir,
    package_name_of, quoted_after, Analysis, InstalledSource, Options, PackageDir, Reach,
    RepoImports, ENTRY,
};
use fleetreach::orchestrate::ScanData;
use fleetreach::reach::SourceFile;
use fleetreach::report::{FleetReport, Provenance};
use fleetreach::severity::Severity;
use fleetreach::version::Version;

fn provenance() -> Provenance {
    Provenance {
        tool_version: "0".into(),
        rustsec_crate_version: "0".into(),
        db_commit: None,
        db_timestamp: None,
        host_os: "x".into(),
        host_arch: "x".into(),
        generated_at: "2026-06-28T00:00:00Z".into(),
    }
}

fn npm_finding(id: &str, package: &str) -> VulnFinding {
    VulnFinding {
        advisory_id: id.into(),
        aliases: vec![],
        ecosystem: Ecosystem::Npm,
        affected_functions: vec![],
        reachable: None,
        reachability: None,
        exploit: Exploitability::default(),
        title: id.into(),
        severity: Severity::High,
        cvss_score: None,
        url: None,
        occurrences: vec![Occurrence::InRepo {
            repo: RepoId("app".into()),
            package: package.into(),
            installed: Version::new(1, 0, 0),
            patched: vec![],
            dependency_kind: DependencyKind::Direct,
            dependency_path: vec![],
            active: None,
            source: DepSource::CratesIo,
        }],
    }
}

fn file(name: &str, text: &str) -> SourceFile {
    SourceFile {
        name: name.into(),
        text: text.into(),
    }
}

fn installed(name: &str, text: &str) -> InstalledSource {
    InstalledSource {
        name: name.into(),
        files: vec![file("index.js", text)],
    }
}

fn app() -> Vec<RepoImports> {
    let own = vec![file("index.js", "const _ = require('lodash');\n")];
    let packages = vec![
        installed("lodash", "module.exports = require('minimist');\n"),
        installed("minimist", "module.exports = {};\n"),
        installed("qs", "module.exports = {};\n"),
    ];
    vec![RepoImports {
        repo: "app".into(),
        analysis: analyze(&own, &Some(packages)),
    }]
}

fn verdict_of<'a>(report: &'a FleetReport, id: &str) -> &'a ReachVerdict {
    &report
        .vulnerabilities
        .iter()
        .find(|v| v.advisory_id == id)
        .unwrap()
        .reachability
        .as_ref()
        .unwrap()
        .verdict
}

#[test]
fn import_packages_extracts_bare_specifiers() {
    let src = r#"
            const _ = require('lodash');
            import x from "react";
            import { a } from 'lodash/fp';
            const d = await import('@scope/pkg/sub');
            export { y } from './local';      // relative, skipped
            const e = require('./util');      // relative, skipped
        "#;
    let pkgs = import_packages(src);
    assert!(pkgs.contains(&"lodash".to_string()));
    assert!(pkgs.contains(&"react".to_string()));
    assert!(pkgs.contains(&"@scope/pkg".to_string()));
    assert!(!pkgs
        .iter()
        .any(|p| p.contains("local") || p.contains("util")));
}

#[test]
fn bare_package_reduces_subpaths_and_scopes() {
    assert_eq!(bare_package("lodash"), Some("lodash".into()));
    assert_eq!(bare_package("lodash/fp"), Some("lodash".into()));
    assert_eq!(bare_package("@scope/pkg"), Some("@scope/pkg".into()));
    assert_eq!(bare_package("@scope/pkg/sub"), Some("@scope/pkg".into()));
    assert_eq!(bare_package("./rel"), None);
    assert_eq!(bare_package("/abs"), None);
}

#[test]
fn analysis_reach_drops_synthetic_root_from_witness() {
    // entry -> express -> body-parser -> qs ; entry -> express (direct).
    let mut graph = DepGraph::new(ENTRY.to_string());
    graph.add_edges(ENTRY, vec!["express".to_string()]);
    graph.add_edges("express", vec!["body-parser".to_string()]);
    graph.add_edges("body-parser", vec!["qs".to_string()]);
    let a = Analysis {
        graph,
        has_node_modules: true,
    };
    let opts = Options { prune: true };
    assert_eq!(
        a.reach("qs", &opts),
        Reach::Reachable {
            witness: vec!["express".into(), "body-parser".into(), "qs".into()]
        }
    );
    assert_eq!(
        a.reach("express", &opts),
        Reach::Reachable {
            witness: vec!["express".into()]
        }
    );
    // unreached + prune + node_modules -> NotReachable
    assert_eq!(a.reach("lodash", &opts), Reach::NotReachable);
    // unreached without prune -> Unknown
    assert_eq!(a.reach("lodash", &Options { prune: false }), Reach::Unknown);
}

#[test]
fn merge_prefers_reachable_then_unknown() {
    let r = || Reach::Reachable {
        witness: vec!["a".into()],
    };
    assert!(matches!(
        merge(Some(Reach::NotReachable), r()),
        Reach::Reachable { .. }
    ));
    assert!(matches!(
        merge(Some(r()), Reach::NotReachable),
        Reach::Reachable { .. }
    ));
    assert!(matches!(
        merge(Some(Reach::NotReachable), Reach::Unknown),
        Reach::Unknown
    ));
    assert!(matches!(
        merge(Some(Reach::NotReachable), Reach::NotReachable),
        Reach::NotReachable
    ));
}

#[test]
fn import_graph_resolves_direct_transitive_and_prune() {
    let scan = ScanData {
        skipped_unparseable: 0,
        vulnerabilities: vec![
            npm_finding("LODASH", "lodash"),
            npm_finding("MINIMIST", "minimist"),
            npm_finding("QS", "qs"),
        ],
        warnings: vec![],
        outcomes: vec![],
    };

    // Without prune: reached -> Reachable (+witness), unreached -> Unknown (never NotReachable).
    let mut report = build_report(scan.clone(), &vec![], None, provenance());
    npm_reach::assess(&mut report, &app(), &Options { prune: false });

    assert_eq!(
        verdict_of(&report, "LODASH"),
        &ReachVerdict::Reachable {
            witness: vec!["lodash".into()]
        },
        "directly imported"
    );
    assert_eq!(
        verdict_of(&report, "MINIMIST"),
        &ReachVerdict::Reachable {
            witness: vec!["lodash".into(), "minimist".into()]
        },
        "transitive: your code -> lodash -> minimist"
    );
    assert!(
        matches!(verdict_of(&report, "QS"), ReachVerdict::Unknown { .. }),
        "unreached stays Unknown without prune"
    );

    // With prune: qs is NotReachable (node_modules present, no path reaches it).
    let mut pruned = build_report(scan, &vec![], None, provenance());
    npm_reach::assess(&mut pruned, &app(), &Options { prune: true });
    assert_eq!(
        verdict_of(&pruned, "QS"),
        &ReachVerdict::NotReachable,
        "prune marks the unreached package NotReachable"
    );
    // The reachable ones are unaffected by prune.
    assert!(matches!(
        verdict_of(&pruned, "LODASH"),
        ReachVerdict::Reachable { .. }
    ));
}

#[test]
fn without_installed_packages_nothing_is_unreachable() {
    let own = vec![file("index.js", "import x from 'left-pad';\n")];
    let a = analyze(&own, &None);
    assert!(!a.has_node_modules);
    assert_eq!(a.reach("qs", &Options { prune: true }), Reach::Unknown);
}

#[test]
fn package_names_come_from_the_path() {
    assert_eq!(package_name_of("lodash"), Some("lodash".to_string()));
    assert_eq!(package_name_of("@scope/pkg"), Some("@scope/pkg".to_string()));
    assert_eq!(package_name_of("@scope\\pkg"), Some("@scope/pkg".to_string()));
    assert_eq!(package_name_of(""), None);
}

#[test]
fn dotted_directories_hold_no_package() {
    assert!(matches!(package_dir(".bin"), PackageDir::Hidden));
    assert!(matches!(package_dir("@scope"), PackageDir::Scope));
    assert!(matches!(package_dir("lodash"), PackageDir::Package));
}

#[test]
fn quoted_text_ends_at_its_own_quote() {
    let chars: Vec<char> = "( 'a\"b' )".chars().collect();
    assert_eq!(quoted_after(&chars, 1), Some("a\"b".to_string()));
    let chars: Vec<char> = "x".chars().collect();
    assert_eq!(quoted_after(&chars, 0), None);
}

#[test]
fn dependency_sources_are_javascript_only() {
    assert!(is_counted("a.ts", true));
    assert!(is_counted("a.js", false));
    assert!(!is_counted("a.md", true));
}

#[test]
fn a_name_may_stand_on_the_next_line() {
    let s: Vec<char> = "require(\n  'lodash')".chars().collect();
    assert_eq!(quoted_after(&s, 8), Some("lodash".to_string()));
    assert_eq!(quoted_after(&s, 500), None);
}
