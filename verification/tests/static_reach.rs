use fleetreach::finding::{
    DepSource, DependencyKind, Ecosystem, Exploitability, Occurrence, ReachVerdict, RepoId,
    VulnFinding,
};
use fleetreach::report::{FleetReport, Provenance, Summary, SCHEMA_VERSION};
use fleetreach::severity::Severity;
use fleetreach::static_reach::{
    assess, combine, host_triple, repos_of, sinks_by_repo, witness_hash, RepoData, RepoOutcome,
    Verdict, TOOLCHAIN,
};
use fleetreach::textmap::TextMap;
use fleetreach::version::Version;
use sha2::Digest;

fn finding(funcs: &[&str], repos: &[&str]) -> VulnFinding {
    VulnFinding {
        advisory_id: "RUSTSEC-2099-0001".into(),
        aliases: vec![],
        ecosystem: Ecosystem::Cargo,
        title: "t".into(),
        severity: Severity::High,
        cvss_score: None,
        url: None,
        occurrences: repos
            .iter()
            .map(|r| Occurrence::InRepo {
                repo: RepoId((*r).into()),
                package: "p".into(),
                installed: Version::new(1, 0, 0),
                patched: vec![],
                dependency_kind: DependencyKind::Direct,
                dependency_path: vec![],
                active: None,
                source: DepSource::CratesIo,
            })
            .collect(),
        affected_functions: funcs.iter().map(|s| (*s).into()).collect(),
        reachable: None,
        reachability: None,
        exploit: Exploitability::default(),
    }
}

/// A successful repo outcome: a verdict per sink path.
fn ok(pairs: Vec<(&str, Verdict)>) -> RepoOutcome {
    let mut verdicts: TextMap<Verdict> = TextMap::new();
    for (k, v) in pairs {
        verdicts = verdicts.insert(k.to_string(), v);
    }
    RepoOutcome::Analyzed(RepoData {
        verdicts,
        cache_key: Some("reach-test".to_string()),
    })
}

fn repos(pairs: Vec<(&str, RepoOutcome)>) -> TextMap<RepoOutcome> {
    let mut m: TextMap<RepoOutcome> = TextMap::new();
    for (k, v) in pairs {
        m = m.insert(k.to_string(), v);
    }
    m
}

fn report(vulnerabilities: Vec<VulnFinding>) -> FleetReport {
    FleetReport {
        schema_version: SCHEMA_VERSION,
        provenance: Provenance {
            tool_version: String::new(),
            rustsec_crate_version: String::new(),
            db_commit: None,
            db_timestamp: None,
            host_os: String::new(),
            host_arch: String::new(),
            generated_at: String::new(),
        },
        summary: Summary {
            repos_scanned: 1,
            repos_errored: 0,
            vuln_count: 1,
            warn_count: 0,
            max_severity: Severity::High,
            stale_ignores: vec![],
        },
        vulnerabilities,
        warnings: vec![],
        outcomes: vec![],
    }
}

#[test]
fn reachable_wins_with_witness() {
    let f = finding(&["k::v"], &["a"]);
    let by_repo = repos(vec![(
        "a",
        ok(vec![(
            "k::v",
            Verdict::Reachable {
                witness: vec!["main".into(), "k::v".into()],
            },
        )]),
    )]);
    assert_eq!(
        combine(&f, &by_repo),
        ReachVerdict::Reachable {
            witness: vec!["main".into(), "k::v".into()]
        }
    );
}

#[test]
fn all_definite_not_reachable_is_not_reachable() {
    let f = finding(&["k::v"], &["a", "b"]);
    let by_repo = repos(vec![
        ("a", ok(vec![("k::v", Verdict::NotReachable)])),
        ("b", ok(vec![("k::v", Verdict::NotReachable)])),
    ]);
    assert_eq!(combine(&f, &by_repo), ReachVerdict::NotReachable);
}

#[test]
fn one_unknown_repo_makes_it_unknown_not_notreachable() {
    // NotReachable in one repo, but the other's build failed → Unknown.
    let f = finding(&["k::v"], &["a", "b"]);
    let by_repo = repos(vec![
        ("a", ok(vec![("k::v", Verdict::NotReachable)])),
        ("b", RepoOutcome::Failed("build failed".into())),
    ]);
    assert!(matches!(
        combine(&f, &by_repo),
        ReachVerdict::Unknown { .. }
    ));
}

#[test]
fn reachable_in_any_repo_beats_notreachable_elsewhere() {
    let f = finding(&["k::v"], &["a", "b"]);
    let by_repo = repos(vec![
        ("a", ok(vec![("k::v", Verdict::NotReachable)])),
        (
            "b",
            ok(vec![(
                "k::v",
                Verdict::Reachable {
                    witness: vec!["x".into()],
                },
            )]),
        ),
    ]);
    assert!(matches!(
        combine(&f, &by_repo),
        ReachVerdict::Reachable { .. }
    ));
}

#[test]
fn witness_hash_is_deterministic_and_order_independent() {
    let keys: Vec<String> = ["reach-a", "reach-b"]
        .iter()
        .map(|s| s.to_string())
        .collect();
    let a = witness_hash("eng", &vec!["a::x".into(), "b::y".into()], &keys);
    let b = witness_hash("eng", &vec!["b::y".into(), "a::x".into()], &keys);
    assert_eq!(a, b, "sink order must not change the witness");
    assert!(a.starts_with("sha256:"));
    assert_eq!(a.len(), "sha256:".len() + 64);
    // A different input yields a different witness.
    assert_ne!(a, witness_hash("eng2", &vec!["a::x".into()], &keys));
}

#[test]
fn unresolved_function_fails_closed_to_unknown() {
    // The repo analyzed fine but produced no verdict for the function.
    let f = finding(&["k::v"], &["a"]);
    let by_repo = repos(vec![("a", ok(vec![("other::fn", Verdict::NotReachable)]))]);
    assert!(matches!(
        combine(&f, &by_repo),
        ReachVerdict::Unknown { .. }
    ));
}

#[test]
fn witness_hash_is_the_digest_of_the_framed_parts() {
    let mut h = sha2::Sha256::new();
    h.update(TOOLCHAIN.as_bytes());
    for part in ["eng", "a::x", "b::y", "key"] {
        h.update([0u8]);
        h.update(part.as_bytes());
    }
    let mut want = String::from("sha256:");
    for b in h.finalize() {
        want.push_str(&format!("{b:02x}"));
    }
    let got = witness_hash("eng", &vec!["b::y".into(), "a::x".into()], &vec!["key".into()]);
    assert_eq!(got, want);
}

#[test]
fn each_repository_is_asked_about_its_own_functions() {
    let r = report(vec![
        finding(&["k::v"], &["b", "a", "b"]),
        finding(&["k::w"], &["b"]),
        finding(&[], &["c"]),
    ]);
    assert_eq!(repos_of(&r.vulnerabilities[0]), vec!["b", "a", "b"]);
    let sinks = sinks_by_repo(&r);
    assert_eq!(sinks.get("a").unwrap(), &vec!["k::v".to_string()]);
    assert_eq!(
        sinks.get("b").unwrap(),
        &vec!["k::v".to_string(), "k::w".to_string()]
    );
    assert!(sinks.get("c").is_none());
}

#[test]
fn assessment_sets_the_verdict_and_the_flag() {
    let mut r = report(vec![finding(&["k::v"], &["a"]), finding(&[], &["a"])]);
    let by_repo = repos(vec![("a", ok(vec![("k::v", Verdict::NotReachable)]))]);
    assess(&mut r, &by_repo, "eng", "x86_64-unknown-linux-gnu");
    assert_eq!(r.vulnerabilities[0].reachable, Some(false));
    let judged = r.vulnerabilities[0].reachability.as_ref().unwrap();
    assert_eq!(judged.verdict, ReachVerdict::NotReachable);
    assert_eq!(judged.targets, vec!["x86_64-unknown-linux-gnu".to_string()]);
    assert!(judged.witness.as_ref().unwrap().starts_with("sha256:"));
    assert_eq!(r.vulnerabilities[1].reachable, None);
    assert!(r.vulnerabilities[1].reachability.is_none());
}

#[test]
fn the_host_falls_back_to_the_architecture() {
    let text = Some("rustc 1.0\nhost: aarch64-apple-darwin\n".to_string());
    assert_eq!(host_triple(&text, "x86_64"), "aarch64-apple-darwin");
    assert_eq!(host_triple(&None, "x86_64"), "x86_64");
}

#[test]
fn a_change_of_what_a_verdict_rests_on_moves_its_witness() {
    let texts = |list: &[&str]| -> Vec<String> { list.iter().map(|t| t.to_string()).collect() };
    let base = witness_hash("eng", &texts(&["a::x"]), &texts(&["reach-a"]));
    let again = witness_hash("eng", &texts(&["a::x", "a::x"]), &texts(&["reach-a", "reach-a"]));
    assert_eq!(base, again);
    for other in [
        witness_hash("eng2", &texts(&["a::x"]), &texts(&["reach-a"])),
        witness_hash("eng", &texts(&["a::y"]), &texts(&["reach-a"])),
        witness_hash("eng", &texts(&["a::x", "a::y"]), &texts(&["reach-a"])),
        witness_hash("eng", &texts(&["a::x"]), &texts(&["reach-b"])),
        witness_hash("eng", &texts(&["a::x"]), &texts(&[])),
    ] {
        assert_ne!(base, other);
    }
}
