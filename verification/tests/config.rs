use fleetreach::config::{
    ecosystem_named, is_justification, Config, ConfigError, PathState, RawConfig, RawIgnore,
    RawRepo, RawVex, RawVexAssertion, VexScope, DEFAULT_GLOB_MAX_DEPTH, VEX_JUSTIFICATIONS,
};
use fleetreach::finding::Ecosystem;

fn repo(id: &str, path: &str) -> RawRepo {
    RawRepo {
        id: id.into(),
        path: path.into(),
        state: PathState::Directory,
        glob: false,
        glob_max_depth: None,
        vex_product_id: None,
        ecosystem: None,
    }
}

fn vex() -> RawVex {
    RawVex {
        author: None,
        role: None,
        scope: None,
        product_id_base: None,
    }
}

fn raw(repo: Vec<RawRepo>) -> RawConfig {
    RawConfig {
        repo,
        ignore: vec![],
        vex: vex(),
        vex_assertion: vec![],
    }
}

fn assertion(justification: Option<&str>, reason: &str, approved_by: &str) -> RawConfig {
    RawConfig {
        vex_assertion: vec![RawVexAssertion {
            id: "RUSTSEC-2020-0071".into(),
            repo: Some("core-lib".into()),
            justification: justification.map(|j| j.to_string()),
            reason: reason.into(),
            approved_by: approved_by.into(),
        }],
        ..raw(vec![])
    }
}

fn ignoring(reason: &str) -> RawConfig {
    RawConfig {
        ignore: vec![RawIgnore {
            id: "RUSTSEC-2020-0071".into(),
            reason: reason.into(),
        }],
        ..raw(vec![])
    }
}

fn all_are(names: &[&str], e: Ecosystem) {
    for name in names {
        let declared = RawRepo {
            ecosystem: ecosystem_named(name),
            ..repo("x", "repos/repo-vuln")
        };
        let cfg = Config::from_raw(raw(vec![declared])).unwrap();
        assert_eq!(cfg.repos[0].ecosystem, Some(e), "`{name}` should parse");
    }
}

#[test]
fn parses_optional_ecosystem_override() {
    let of = |id: &str, e: Option<Ecosystem>| RawRepo {
        ecosystem: e,
        ..repo(id, "repos/repo-vuln")
    };
    let cfg = Config::from_raw(raw(vec![
        of("go", ecosystem_named("go")),
        of("rust", ecosystem_named("rust")),
        of("auto", None),
    ]))
    .expect("valid config");
    assert_eq!(cfg.repos[0].ecosystem, Some(Ecosystem::Go));
    assert_eq!(cfg.repos[1].ecosystem, Some(Ecosystem::Cargo)); // `rust` aliases cargo
    assert_eq!(cfg.repos[2].ecosystem, None); // absent -> auto-detect at scan time
}

#[test]
fn rejects_an_unknown_ecosystem() {
    assert_eq!(ecosystem_named("haskell"), None);
}

#[test]
fn accepts_pypi_and_python_ecosystem_aliases() {
    all_are(&["pypi", "python"], Ecosystem::Pypi);
}

#[test]
fn accepts_rubygems_and_ruby_ecosystem_aliases() {
    all_are(&["rubygems", "ruby"], Ecosystem::RubyGems);
}

#[test]
fn accepts_maven_ecosystem_aliases() {
    all_are(&["maven", "gradle", "java"], Ecosystem::Maven);
}

#[test]
fn accepts_github_actions_ecosystem_aliases() {
    all_are(&["githubactions", "actions", "gha"], Ecosystem::GitHubActions);
}

#[test]
fn accepts_hex_elixir_ecosystem_aliases() {
    all_are(&["hex", "elixir"], Ecosystem::Hex);
}

#[test]
fn accepts_swift_ecosystem() {
    all_are(&["swift"], Ecosystem::Swift);
}

#[test]
fn accepts_julia_ecosystem() {
    all_are(&["julia"], Ecosystem::Julia);
}

#[test]
fn accepts_nuget_dotnet_ecosystem_aliases() {
    all_are(&["nuget", "dotnet"], Ecosystem::NuGet);
}

#[test]
fn accepts_packagist_composer_php_ecosystem_aliases() {
    all_are(&["packagist", "composer", "php"], Ecosystem::Packagist);
}

#[test]
fn accepts_a_valid_config_and_applies_glob_default() {
    let globbed = RawRepo {
        glob: true,
        glob_max_depth: Some(2),
        ..repo("b", "repos/repo-glob")
    };
    let cfg = Config::from_raw(raw(vec![repo("a", "repos/repo-vuln"), globbed]))
        .expect("valid config");

    assert_eq!(cfg.repos.len(), 2);
    assert_eq!(cfg.repos[0].id.0, "a");
    assert!(!cfg.repos[0].glob);
    assert_eq!(cfg.repos[0].glob_max_depth, DEFAULT_GLOB_MAX_DEPTH); // unset -> default
    assert!(cfg.repos[1].glob);
    assert_eq!(cfg.repos[1].glob_max_depth, 2);
}

#[test]
fn rejects_missing_path() {
    let missing = RawRepo {
        state: PathState::Missing,
        ..repo("a", "repos/does-not-exist")
    };
    let err = Config::from_raw(raw(vec![missing])).unwrap_err();
    assert!(
        matches!(err, ConfigError::PathMissing { .. }),
        "got {err:?}"
    );
}

#[test]
fn rejects_duplicate_repo_id() {
    let err = Config::from_raw(raw(vec![
        repo("dup", "repos/repo-vuln"),
        repo("dup", "repos/repo-warn"),
    ]))
    .unwrap_err();
    assert!(matches!(err, ConfigError::DuplicateRepoId(id) if id == "dup"));
}

#[test]
fn rejects_empty_ignore_reason() {
    let err = Config::from_raw(ignoring("   ")).unwrap_err();
    assert!(matches!(err, ConfigError::EmptyIgnoreReason(id) if id == "RUSTSEC-2020-0071"));
}

#[test]
fn accepts_justified_ignore() {
    let cfg = Config::from_raw(ignoring("dev-dependency only")).expect("valid ignore");
    assert_eq!(cfg.ignores.len(), 1);
    assert_eq!(cfg.ignores[0].id, "RUSTSEC-2020-0071");
}

#[test]
fn parses_vex_settings_and_product_id() {
    let declared = RawRepo {
        vex_product_id: Some("pkg:cargo/core-lib@1.4.0".into()),
        ..repo("a", "repos/repo-vuln")
    };
    let cfg = Config::from_raw(RawConfig {
        vex: RawVex {
            author: Some("secteam@acme.example".into()),
            role: Some("Document Creator".into()),
            scope: Some("build".into()),
            product_id_base: Some("https://acme.example/fleet/".into()),
        },
        ..raw(vec![declared])
    })
    .expect("valid vex config");
    assert_eq!(cfg.vex.author.as_deref(), Some("secteam@acme.example"));
    assert_eq!(cfg.vex.role.as_deref(), Some("Document Creator"));
    assert_eq!(cfg.vex.scope, Some(VexScope::Build));
    assert_eq!(
        cfg.vex.product_id_base.as_deref(),
        Some("https://acme.example/fleet/")
    );
    assert_eq!(
        cfg.repos[0].vex_product_id.as_deref(),
        Some("pkg:cargo/core-lib@1.4.0")
    );
}

#[test]
fn vex_settings_default_to_empty() {
    let cfg = Config::from_raw(raw(vec![repo("a", "repos/repo-vuln")])).expect("valid config");
    assert!(cfg.vex.author.is_none());
    assert!(cfg.vex.scope.is_none());
    assert!(cfg.repos[0].vex_product_id.is_none());
}

#[test]
fn rejects_invalid_vex_scope() {
    let err = Config::from_raw(RawConfig {
        vex: RawVex {
            scope: Some("ephemeral".into()),
            ..vex()
        },
        ..raw(vec![])
    })
    .unwrap_err();
    assert!(matches!(err, ConfigError::InvalidVexScope(s) if s == "ephemeral"));
}

#[test]
fn accepts_approved_vex_assertion() {
    let cfg = Config::from_raw(assertion(
        Some("component_not_present"),
        "dev-dependency only",
        "secteam",
    ))
    .expect("valid assertion");
    assert_eq!(cfg.vex_assertions.len(), 1);
    let a = &cfg.vex_assertions[0];
    assert_eq!(a.id, "RUSTSEC-2020-0071");
    assert_eq!(a.repo.as_ref().map(|r| r.0.as_str()), Some("core-lib"));
    assert_eq!(a.justification.as_deref(), Some("component_not_present"));
    assert_eq!(a.approved_by, "secteam");
}

#[test]
fn rejects_not_affected_assertion_without_approver() {
    let err = Config::from_raw(assertion(None, "dev-dependency only", "  ")).unwrap_err();
    assert!(matches!(err, ConfigError::EmptyAssertionApprover(id) if id == "RUSTSEC-2020-0071"));
}

#[test]
fn rejects_unknown_justification_label() {
    let err = Config::from_raw(assertion(
        Some("i_just_dont_think_it_applies"),
        "trust me",
        "secteam",
    ))
    .unwrap_err();
    assert!(matches!(
        err,
        ConfigError::InvalidVexJustification { id, .. } if id == "RUSTSEC-2020-0071"
    ));
}

#[test]
fn rejects_an_assertion_without_a_reason() {
    let err = Config::from_raw(assertion(None, "\t", "secteam")).unwrap_err();
    assert!(matches!(err, ConfigError::EmptyAssertionReason(_)));
}

#[test]
fn rejects_a_path_that_is_a_file() {
    let file = RawRepo {
        state: PathState::NotDirectory,
        ..repo("a", "/fleet/a")
    };
    let err = Config::from_raw(raw(vec![file])).unwrap_err();
    assert_eq!(err.to_string(), "repo `a`: path `/fleet/a` is not a directory");
}

#[test]
fn errors_are_told_in_words() {
    let read = ConfigError::Read {
        path: "fleet.toml".into(),
        message: "gone".into(),
    };
    assert_eq!(read.to_string(), "failed to read config `fleet.toml`: gone");
    let parse = ConfigError::Parse {
        path: "fleet.toml".into(),
        message: "line 1".into(),
    };
    assert_eq!(parse.to_string(), "failed to parse config `fleet.toml`: line 1");
    assert_eq!(
        ConfigError::DuplicateRepoId("a".into()).to_string(),
        "repo id `a` is declared more than once"
    );
}

#[test]
fn every_label_is_a_justification() {
    for label in VEX_JUSTIFICATIONS {
        assert!(is_justification(label));
    }
    assert!(!is_justification("Component_not_present"));
}
