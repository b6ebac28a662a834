use fleetreach::assemble::{build_report, retain_reachable};
use fleetreach::finding::{
    DepSource, DependencyKind, Ecosystem, Exploitability, Occurrence, RepoId, VulnFinding,
};
use fleetreach::orchestrate::ScanData;
use fleetreach::outcome::{RepoOutcome, ScanStatus};
use fleetreach::reach::{
    self, extension, ghactions_uses_text, hex_module_used_text, import_scanner, is_passed_over,
    is_style_extension, julia_imports_text, maven_imports_text, mentions, module_qualified,
    namespace_segment_present, namespace_starts_with, npm_imports_text, nuget_imports_text,
    packagist_imports_text, pascal_case, pypi_imports_text, rubygems_imports_text,
    source_mentions_symbol, swift_imports_text, word_present, RepoSource, SourceFile, Style,
};
use fleetreach::report::{FleetReport, Provenance};
use fleetreach::severity::Severity;
use fleetreach::version::Version;

fn provenance() -> Provenance {
    Provenance {
        tool_version: "0.1.0".into(),
        rustsec_crate_version: "0.33.0".into(),
        db_commit: None,
        db_timestamp: None,
        host_os: "linux".into(),
        host_arch: "x86_64".into(),
        generated_at: "2026-06-24T00:00:00Z".into(),
    }
}

fn occurrence(repo: &str, package: &str, kind: DependencyKind) -> Occurrence {
    Occurrence::InRepo {
        repo: RepoId(repo.into()),
        package: package.into(),
        installed: Version::new(1, 0, 0),
        patched: vec![],
        dependency_kind: kind,
        dependency_path: vec![],
        active: None,
        source: DepSource::CratesIo,
    }
}

fn finding(id: &str, repo: &str) -> VulnFinding {
    VulnFinding {
        advisory_id: id.into(),
        aliases: vec![],
        ecosystem: Ecosystem::Cargo,
        affected_functions: vec!["fixturevuln::boom".into()],
        reachable: None,
        reachability: None,
        exploit: Exploitability::default(),
        title: id.into(),
        severity: Severity::High,
        cvss_score: None,
        url: None,
        occurrences: vec![occurrence(repo, "fixturevuln", DependencyKind::Transitive)],
    }
}

fn tier_c(
    id: &str,
    eco: Ecosystem,
    repo: &str,
    package: &str,
    kind: DependencyKind,
) -> VulnFinding {
    VulnFinding {
        ecosystem: eco,
        affected_functions: vec![],
        occurrences: vec![occurrence(repo, package, kind)],
        ..finding(id, repo)
    }
}

fn scan(vulnerabilities: Vec<VulnFinding>, outcomes: Vec<RepoOutcome>) -> ScanData {
    ScanData {
        skipped_unparseable: 0,
        vulnerabilities,
        warnings: vec![],
        outcomes,
    }
}

fn source(repo: &str, name: &str, text: &str) -> RepoSource {
    RepoSource {
        repo: repo.into(),
        files: vec![SourceFile {
            name: name.into(),
            text: text.into(),
        }],
    }
}

fn sources() -> Vec<RepoSource> {
    vec![
        source("npm", "app.js", "const _ = require('lodash');\n"),
        source("julia", "main.jl", "using HTTP\n"),
        source("ruby", "app.rb", "require 'rack'\n"),
        source("pypi", "app.py", "import requests\n"),
        source("nuget", "Program.cs", "using Newtonsoft.Json;\n"),
        source("maven", "App.java", "import org.apache.logging.log4j.Logger;\n"),
        source("hex", "app.ex", "    Plug.Conn.send_resp(conn, 200, body)\n"),
        source("gha", "ci.yml", "    steps:\n      - uses: actions/checkout@v4\n"),
    ]
}

fn reachable(report: &FleetReport, id: &str) -> Option<bool> {
    report
        .vulnerabilities
        .iter()
        .find(|v| v.advisory_id == id)
        .unwrap()
        .reachable
}

#[test]
fn npm_detects_require_and_import_forms() {
    assert!(npm_imports_text("const _ = require('lodash')", "lodash"));
    assert!(npm_imports_text("import x from \"lodash\"", "lodash"));
    assert!(npm_imports_text("import { a } from 'lodash/fp'", "lodash"));
    assert!(npm_imports_text("await import('lodash')", "lodash"));
    assert!(npm_imports_text("import x from '@scope/pkg'", "@scope/pkg"));
    // a bare string literal is not an import, and a different package is not a match
    assert!(!npm_imports_text("const s = 'lodash'", "lodash"));
    assert!(!npm_imports_text("require('lodash-es')", "lodash"));
    assert!(!npm_imports_text("import x from 'react'", "lodash"));
}

#[test]
fn julia_detects_using_and_import_whole_word() {
    assert!(julia_imports_text("using HTTP", "HTTP"));
    assert!(julia_imports_text("  import HTTP", "HTTP"));
    assert!(julia_imports_text("using HTTP, JSON", "JSON"));
    assert!(julia_imports_text("import HTTP: get", "HTTP"));
    assert!(julia_imports_text("using HTTP.Sub", "HTTP"));
    // whole-word: HTTP must not match inside HTTPClient
    assert!(!julia_imports_text("using HTTPClient", "HTTP"));
    // not an import line
    assert!(!julia_imports_text("x = HTTP", "HTTP"));
}

#[test]
fn rubygems_detects_require_forms() {
    assert!(rubygems_imports_text("require 'rack'", "rack"));
    assert!(rubygems_imports_text("require \"rack\"", "rack"));
    assert!(rubygems_imports_text("require 'rack/utils'", "rack"));
    // a require for a different gem, and a non-require mention, do not match
    assert!(!rubygems_imports_text("require 'rackup'", "rack"));
    assert!(!rubygems_imports_text("rack = 1", "rack"));
}

#[test]
fn word_present_respects_boundaries() {
    assert!(word_present("using Foo, Bar", "Foo"));
    assert!(word_present("a Foo b", "Foo"));
    assert!(!word_present("Foobar", "Foo"));
    assert!(!word_present("myFoo", "Foo"));
}

#[test]
fn pypi_maps_dist_name_to_module() {
    assert!(pypi_imports_text("import requests", "requests"));
    assert!(pypi_imports_text("from flask import Flask", "Flask")); // case-fold
    assert!(pypi_imports_text(
        "import python_dateutil",
        "python-dateutil"
    )); // - -> _
    assert!(pypi_imports_text("import requests.sessions", "requests"));
    // not an import line, and an irregular map (PyYAML->yaml) misses (stays unknown)
    assert!(!pypi_imports_text("x = requests", "requests"));
    assert!(!pypi_imports_text("import yaml", "PyYAML"));
}

#[test]
fn nuget_matches_using_namespace() {
    assert!(nuget_imports_text(
        "using Newtonsoft.Json;",
        "Newtonsoft.Json"
    ));
    assert!(nuget_imports_text(
        "using Newtonsoft.Json.Linq;",
        "Newtonsoft.Json"
    ));
    assert!(nuget_imports_text("global using Serilog;", "Serilog"));
    // a different package and a non-using line do not match
    assert!(!nuget_imports_text(
        "using Newtonsoft.JsonNet;",
        "Newtonsoft.Json"
    ));
    assert!(!nuget_imports_text("var x = Serilog;", "Serilog"));
}

#[test]
fn maven_matches_group_import_prefix() {
    let coord = "org.apache.logging.log4j:log4j-core";
    assert!(maven_imports_text(
        "import org.apache.logging.log4j.Logger;",
        coord
    ));
    assert!(maven_imports_text(
        "import static org.apache.logging.log4j.Level.INFO;",
        coord
    ));
    // a different group does not match
    assert!(!maven_imports_text("import org.slf4j.Logger;", coord));
}

#[test]
fn packagist_matches_pascal_cased_namespace() {
    assert!(packagist_imports_text(
        "use Monolog\\Logger;",
        "monolog/monolog"
    ));
    assert!(packagist_imports_text(
        "use Symfony\\Component\\HttpKernel\\Kernel;",
        "symfony/http-kernel"
    ));
    // not a use line
    assert!(!packagist_imports_text(
        "$x = new Monolog();",
        "monolog/monolog"
    ));
}

#[test]
fn swift_strips_prefix_and_matches_module() {
    assert!(swift_imports_text("import NIO", "swift-nio"));
    assert!(swift_imports_text("import Vapor", "vapor/vapor"));
    // a non-import line does not match
    assert!(!swift_imports_text("let nio = 1", "swift-nio"));
}

#[test]
fn pascal_case_splits_separators() {
    assert_eq!(pascal_case("http-kernel"), "HttpKernel");
    assert_eq!(pascal_case("monolog"), "Monolog");
    assert_eq!(pascal_case("php_unit"), "PhpUnit");
}

#[test]
fn hex_matches_pascal_module_usage() {
    // qualified call, and alias/import/use/require directives
    assert!(hex_module_used_text(
        "    Plug.Conn.send_resp(conn)",
        "plug"
    ));
    assert!(hex_module_used_text(
        "  alias Phoenix.Controller",
        "phoenix"
    ));
    assert!(hex_module_used_text("  use Phoenix.Router", "phoenix"));
    assert!(hex_module_used_text("import FooBar", "foo_bar")); // foo_bar -> FooBar
    // a submodule of another app is NOT a match for the bare module
    assert!(!hex_module_used_text("MyApp.Plug.call()", "plug"));
    // a non-usage mention does not match
    assert!(!hex_module_used_text("# plug is great", "plug"));
}

#[test]
fn ghactions_matches_uses_reference() {
    assert!(ghactions_uses_text(
        "      - uses: actions/checkout@v4",
        "actions/checkout"
    ));
    // case-insensitive (GitHub treats owner/repo case-insensitively)
    assert!(ghactions_uses_text(
        "      - uses: Actions/Checkout@v4",
        "actions/checkout"
    ));
    // subpath action id (the coordinate includes the subpath)
    assert!(ghactions_uses_text(
        "      - uses: github/codeql-action/analyze@v3",
        "github/codeql-action/analyze"
    ));
    // a different action, and a non-uses line, do not match
    assert!(!ghactions_uses_text(
        "      - uses: actions/setup-node@v4",
        "actions/checkout"
    ));
    assert!(!ghactions_uses_text(
        "  name: actions/checkout",
        "actions/checkout"
    ));
}

#[test]
fn assess_flags_source_presence_per_repo() {
    let scanned = |repo: &str| RepoOutcome {
        repo: RepoId(repo.into()),
        status: ScanStatus::Scanned {
            vulns: 1,
            warnings: 0,
        },
    };
    let data = scan(
        vec![finding("R-USES", "uses"), finding("R-CLEAN", "clean")],
        vec![scanned("uses"), scanned("clean")],
    );
    let mut report = build_report(data, &vec![], None, provenance());
    let sources = vec![
        source("uses", "main.rs", "fn main() { fixturevuln::boom(); }\n"),
        source("clean", "main.rs", "fn main() { println!(\"hello\"); }\n"),
    ];
    reach::assess(&mut report, &sources);

    assert_eq!(
        reachable(&report, "R-USES"),
        Some(true),
        "boom() appears in reach-uses source"
    );
    assert_eq!(
        reachable(&report, "R-CLEAN"),
        Some(false),
        "boom is not in reach-clean source"
    );

    let removed = retain_reachable(&mut report);
    assert_eq!(removed, 1);
    assert_eq!(report.vulnerabilities.len(), 1);
    assert_eq!(report.vulnerabilities[0].advisory_id, "R-USES");
}

#[test]
fn hex_and_github_actions_reachability() {
    let direct = DependencyKind::Direct;
    let data = scan(
        vec![
            tier_c("HEX-USED", Ecosystem::Hex, "hex", "plug", direct),
            tier_c("HEX-UNUSED", Ecosystem::Hex, "hex", "ecto", direct),
            tier_c(
                "GHA-USED",
                Ecosystem::GitHubActions,
                "gha",
                "actions/checkout",
                direct,
            ),
            tier_c(
                "GHA-UNUSED",
                Ecosystem::GitHubActions,
                "gha",
                "actions/setup-go",
                direct,
            ),
        ],
        vec![],
    );
    let mut report = build_report(data, &vec![], None, provenance());
    reach::assess(&mut report, &sources());
    assert_eq!(reachable(&report, "HEX-USED"), Some(true), "Plug module used in app.ex");
    assert_eq!(reachable(&report, "HEX-UNUSED"), None, "unused hex dep stays unknown");
    assert_eq!(reachable(&report, "GHA-USED"), Some(true), "actions/checkout is used:");
    assert_eq!(
        reachable(&report, "GHA-UNUSED"),
        None,
        "unreferenced action stays unknown"
    );
    assert_eq!(retain_reachable(&mut report), 0, "never auto-suppress");
}

#[test]
fn name_mapping_ecosystems_detect_imports_securely() {
    let direct = DependencyKind::Direct;
    let data = scan(
        vec![
            tier_c("PY-USED", Ecosystem::Pypi, "pypi", "requests", direct),
            tier_c("NG-USED", Ecosystem::NuGet, "nuget", "Newtonsoft.Json", direct),
            tier_c(
                "MV-USED",
                Ecosystem::Maven,
                "maven",
                "org.apache.logging.log4j:log4j-core",
                direct,
            ),
            tier_c("PY-UNUSED", Ecosystem::Pypi, "pypi", "django", direct),
            tier_c(
                "NG-TRANS",
                Ecosystem::NuGet,
                "nuget",
                "Newtonsoft.Json",
                DependencyKind::Transitive,
            ),
        ],
        vec![],
    );
    let mut report = build_report(data, &vec![], None, provenance());
    reach::assess(&mut report, &sources());

    assert_eq!(reachable(&report, "PY-USED"), Some(true), "requests imported in app.py");
    assert_eq!(
        reachable(&report, "NG-USED"),
        Some(true),
        "Newtonsoft.Json used in Program.cs"
    );
    assert_eq!(
        reachable(&report, "MV-USED"),
        Some(true),
        "log4j group imported in App.java"
    );
    assert_eq!(
        reachable(&report, "PY-UNUSED"),
        None,
        "unimported direct dep stays unknown"
    );
    assert_eq!(reachable(&report, "NG-TRANS"), None, "transitive stays unknown");

    let removed = retain_reachable(&mut report);
    assert_eq!(
        removed, 0,
        "a heuristic miss must never auto-suppress a finding"
    );
}

#[test]
fn tier_c_import_presence_is_secure() {
    let direct = DependencyKind::Direct;
    let data = scan(
        vec![
            tier_c("NPM-USED", Ecosystem::Npm, "npm", "lodash", direct),
            tier_c("JL-USED", Ecosystem::Julia, "julia", "HTTP", direct),
            tier_c("RB-USED", Ecosystem::RubyGems, "ruby", "rack", direct),
            tier_c("NPM-UNUSED", Ecosystem::Npm, "npm", "express", direct),
            tier_c(
                "NPM-TRANS",
                Ecosystem::Npm,
                "npm",
                "lodash",
                DependencyKind::Transitive,
            ),
        ],
        vec![],
    );
    let mut report = build_report(data, &vec![], None, provenance());
    reach::assess(&mut report, &sources());

    assert_eq!(
        reachable(&report, "NPM-USED"),
        Some(true),
        "lodash is required in app.js"
    );
    assert_eq!(reachable(&report, "JL-USED"), Some(true), "HTTP is `using`d in main.jl");
    assert_eq!(reachable(&report, "RB-USED"), Some(true), "rack is required in app.rb");
    assert_eq!(
        reachable(&report, "NPM-UNUSED"),
        None,
        "unimported direct dep stays unknown"
    );
    assert_eq!(reachable(&report, "NPM-TRANS"), None, "transitive dep stays unknown");

    let before = report.vulnerabilities.len();
    let removed = retain_reachable(&mut report);
    assert_eq!(
        removed, 0,
        "a grep miss must never auto-suppress a Tier-C finding"
    );
    assert_eq!(report.vulnerabilities.len(), before);
}

#[test]
fn extension_needs_something_before_the_stop() {
    assert_eq!(extension("main.rs"), Some("rs".to_string()));
    assert_eq!(extension("a.tar.gz"), Some("gz".to_string()));
    assert_eq!(extension(".gitignore"), None);
    assert_eq!(extension("Makefile"), None);
    assert_eq!(extension("odd."), Some(String::new()));
}

#[test]
fn trees_that_are_not_the_projects_own_are_passed_over() {
    assert!(is_passed_over("target"));
    assert!(is_passed_over(".git"));
    assert!(!is_passed_over("src"));
}

#[test]
fn styles_go_with_ecosystems_and_extensions() {
    assert_eq!(import_scanner(Ecosystem::Npm), Some(Style::Npm));
    assert_eq!(import_scanner(Ecosystem::Cargo), None);
    assert_eq!(import_scanner(Ecosystem::Go), None);
    assert!(is_style_extension(Style::Npm, "ts"));
    assert!(!is_style_extension(Style::Npm, "py"));
    assert!(is_style_extension(Style::Pypi, "py"));
}

#[test]
fn namespaces_match_by_whole_segments() {
    assert!(namespace_starts_with("a.b.c", "a.b"));
    assert!(namespace_starts_with("a.b", "a.b"));
    assert!(!namespace_starts_with("a.bc", "a.b"));
    assert!(namespace_segment_present("use A\\B\\C;", "B"));
    assert!(!namespace_segment_present("use A\\Bee\\C;", "B"));
    assert!(namespace_segment_present("use \\A;", ""));
    assert!(module_qualified("x = Plug.run()", "Plug"));
    assert!(!module_qualified("x = MyPlug.run()", "Plug"));
}

#[test]
fn a_mention_is_a_call_or_a_path() {
    let files = |text: &str| {
        vec![SourceFile {
            name: "lib.rs".into(),
            text: text.into(),
        }]
    };
    let paths = vec!["time::Time::now".to_string()];
    assert!(source_mentions_symbol(&files("let t = Time::now();"), &paths));
    assert!(!source_mentions_symbol(&files("let snow = 1;"), &paths));
    // only Rust files count
    let other = vec![SourceFile {
        name: "lib.py".into(),
        text: "now()".into(),
    }];
    assert!(!source_mentions_symbol(&other, &paths));
    assert!(mentions("now()", "now"));
    assert!(!mentions("knowing()", "now"));
}
