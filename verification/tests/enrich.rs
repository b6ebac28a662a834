use fleetreach::enrich::{
    add_scores, cves_to_fetch, epss_csv_rows, epss_json_rows, epss_requests, is_valid_cve,
    nvd_pause, nvd_request, parse_kev, parse_nvd_score, rank, severity_from_score, valid_cves, Enrichment, KevError,
};
use fleetreach::finding::{
    DepSource, DependencyKind, Ecosystem, Exploitability, Occurrence, RepoId, VulnFinding,
};
use fleetreach::json::Json;
use fleetreach::report::{FleetReport, Provenance, Summary, SCHEMA_VERSION};
use fleetreach::score::Score;
use fleetreach::severity::Severity;
use fleetreach::textmap::TextMap;
use fleetreach::version::Version;

// A trimmed NVD 2.0 response, shaped like the real CVE-2022-0778 payload.
const NVD_BODY: &str = r#"{
      "vulnerabilities": [{
        "cve": {
          "id": "CVE-2022-0778",
          "metrics": {
            "cvssMetricV31": [{ "cvssData": { "baseScore": 7.5 } }],
            "cvssMetricV2": [{ "cvssData": { "baseScore": 5.0 } }]
          }
        }
      }]
    }"#;

fn score(x: f64) -> Score {
    Score { bits: x.to_bits() }
}

fn number(s: Score) -> f64 {
    f64::from_bits(s.bits)
}

fn scores(pairs: &[(&str, f64)]) -> TextMap<Score> {
    let mut m: TextMap<Score> = TextMap::new();
    for (name, x) in pairs {
        m = m.insert(name.to_string(), score(*x));
    }
    m
}

fn nvd(body: &str, cve: &str) -> Option<f32> {
    parse_nvd_score(body, cve).map(|s| {
        assert_eq!(f64::from(number(s) as f32), number(s));
        number(s) as f32
    })
}

fn vuln(id: &str, cve: &str, severity: Severity) -> VulnFinding {
    VulnFinding {
        advisory_id: id.into(),
        aliases: vec![cve.into()],
        ecosystem: Ecosystem::Cargo,
        reachability: None,
        title: id.into(),
        severity,
        cvss_score: None,
        url: None,
        occurrences: vec![Occurrence::InRepo {
            repo: RepoId("a".into()),
            package: "pkg".into(),
            installed: Version::new(1, 0, 0),
            patched: vec![],
            dependency_kind: DependencyKind::Transitive,
            dependency_path: vec![],
            active: None,
            source: DepSource::CratesIo,
        }],
        affected_functions: vec![],
        reachable: None,
        exploit: Exploitability::default(),
    }
}

fn vuln_eco(id: &str, cve: &str, severity: Severity, eco: Ecosystem) -> VulnFinding {
    VulnFinding {
        ecosystem: eco,
        ..vuln(id, cve, severity)
    }
}

fn report(vulnerabilities: Vec<VulnFinding>) -> FleetReport {
    FleetReport {
        schema_version: SCHEMA_VERSION,
        provenance: Provenance {
            tool_version: String::new(),
            rustsec_crate_version: String::new(),
            db_commit: None,
            db_timestamp: None,
            host_os: String::new(),
            host_arch: String::new(),
            generated_at: String::new(),
        },
        summary: Summary {
            repos_scanned: 1,
            repos_errored: 0,
            vuln_count: 1,
            warn_count: 0,
            max_severity: Severity::Unknown,
            stale_ignores: vec![],
        },
        vulnerabilities,
        warnings: vec![],
        outcomes: vec![],
    }
}

#[test]
fn parses_nvd_score_prefers_v31() {
    assert_eq!(nvd(NVD_BODY, "CVE-2022-0778"), Some(7.5));
}

#[test]
fn nvd_score_falls_back_to_older_cvss_versions() {
    let body = r#"{"vulnerabilities":[{"cve":{"id":"CVE-1","metrics":{
            "cvssMetricV2":[{"cvssData":{"baseScore":9.1}}]}}}]}"#;
    assert_eq!(nvd(body, "CVE-1"), Some(9.1));
}

#[test]
fn nvd_score_reads_cvss_v40() {
    // Newest entries (e.g. CVE-2025-24898) carry only a v4.0 metric.
    let body = r#"{"vulnerabilities":[{"cve":{"id":"CVE-1","metrics":{
            "cvssMetricV40":[{"cvssData":{"baseScore":6.3}}]}}}]}"#;
    assert_eq!(nvd(body, "CVE-1"), Some(6.3));
}

#[test]
fn nvd_score_none_when_cve_absent_or_unscored() {
    // Wrong CVE in the response.
    assert_eq!(nvd(NVD_BODY, "CVE-9999-9999"), None);
    // No metrics at all.
    let empty = r#"{"vulnerabilities":[{"cve":{"id":"CVE-1","metrics":{}}}]}"#;
    assert_eq!(nvd(empty, "CVE-1"), None);
}

#[test]
fn cve_validation_blocks_url_injection() {
    assert!(is_valid_cve("CVE-2022-0778"));
    assert!(is_valid_cve("CVE-2026-12345678"));
    // A crafted alias must not pass (it would inject into the EPSS/NVD query URL).
    assert!(!is_valid_cve("CVE-2022-0778&inject=1"));
    assert!(!is_valid_cve("CVE-2022-0778 OR 1=1"));
    assert!(!is_valid_cve("CVE-22-1"));
    assert!(!is_valid_cve("CVE-2022-abc"));
    assert!(!is_valid_cve("GHSA-xxxx"));
    assert!(!is_valid_cve("CVE-"));
}

#[test]
fn score_bands_match_cvss_v3() {
    assert_eq!(severity_from_score(score(0.0)), Severity::Unknown);
    assert_eq!(severity_from_score(score(3.9)), Severity::Low);
    assert_eq!(severity_from_score(score(4.0)), Severity::Medium);
    assert_eq!(severity_from_score(score(7.0)), Severity::High);
    assert_eq!(severity_from_score(score(9.0)), Severity::Critical);
}

#[test]
fn enrich_is_ecosystem_agnostic_keying_on_cve() {
    let enrichment = Enrichment {
        kev: vec!["CVE-2099-0001".to_string()],
        epss: scores(&[("CVE-2099-0001", 0.42)]),
        cvss: scores(&[("CVE-2022-0778", 7.5)]),
    };
    let mut findings = vec![
        vuln_eco("npm-f", "CVE-2099-0001", Severity::High, Ecosystem::Npm),
        vuln_eco(
            "pypi-f",
            "CVE-2022-0778",
            Severity::Unknown,
            Ecosystem::Pypi,
        ),
        vuln_eco(
            "nuget-f",
            "CVE-2099-0001",
            Severity::Medium,
            Ecosystem::NuGet,
        ),
    ];
    enrichment.apply(&mut findings);

    assert!(findings[0].exploit.kev, "npm finding gets KEV by CVE");
    assert!((number(findings[0].exploit.epss.unwrap()) - 0.42).abs() < 1e-6);
    assert_eq!(
        findings[1].severity,
        Severity::High,
        "pypi NVD severity backfill"
    );
    assert_eq!(findings[1].cvss_score, Some(score(7.5)));
    assert!(findings[2].exploit.kev, "nuget finding gets KEV by CVE");
    assert!((number(findings[2].exploit.epss.unwrap()) - 0.42).abs() < 1e-6);
}

#[test]
fn from_files_annotates_kev_and_epss_by_cve() {
    let kev = parse_kev(r#"{"vulnerabilities":[{"cveID":"CVE-2099-0001"}]}"#).unwrap();
    let csv = "#model_version:v2099,score_date:2099-01-01\n\
               cve,epss,percentile\n\
               CVE-2099-0001,0.97,0.99\n\
               CVE-2099-0002,0.012,0.30\n";
    let rows: Vec<(String, Option<Score>)> = epss_csv_rows(csv)
        .into_iter()
        .map(|(cve, text)| (cve, text.parse::<f64>().ok().map(score)))
        .collect();
    let enrichment = Enrichment {
        kev,
        epss: add_scores(TextMap::new(), &rows),
        cvss: TextMap::new(),
    };

    let mut findings = vec![
        vuln("R1", "CVE-2099-0001", Severity::High), // KEV + high epss
        vuln("R2", "CVE-2099-0002", Severity::High), // not KEV, low epss
        vuln("R3", "CVE-2099-9999", Severity::High), // no data
    ];
    enrichment.apply(&mut findings);

    assert!(findings[0].exploit.kev, "R1 is in the KEV catalog");
    assert!((number(findings[0].exploit.epss.unwrap()) - 0.97).abs() < 1e-4);

    assert!(!findings[1].exploit.kev);
    assert!((number(findings[1].exploit.epss.unwrap()) - 0.012).abs() < 1e-4);

    assert!(!findings[2].exploit.kev);
    assert_eq!(findings[2].exploit.epss, None, "no enrichment data for R3");
}

#[test]
fn backfill_fills_unknown_severity_and_score_from_nvd_without_downgrading() {
    let enrichment = Enrichment {
        kev: vec![],
        epss: TextMap::new(),
        cvss: scores(&[("CVE-2022-0778", 7.5), ("CVE-2099-0002", 9.5)]),
    };

    let mut findings = vec![
        // unknown advisory (vendored C lib) gets the NVD severity + score
        vuln("R1", "CVE-2022-0778", Severity::Unknown),
        // already-scored advisory is left untouched, even if NVD says higher
        vuln("R2", "CVE-2099-0002", Severity::Medium),
        // unknown with no NVD data stays unknown
        vuln("R3", "CVE-2099-9999", Severity::Unknown),
    ];
    enrichment.apply(&mut findings);

    assert_eq!(findings[0].severity, Severity::High, "backfilled from NVD");
    assert_eq!(
        findings[0].cvss_score,
        Some(score(7.5)),
        "numeric score is recorded"
    );
    assert_eq!(
        findings[1].severity,
        Severity::Medium,
        "never overrides a severity the advisory already carries"
    );
    assert_eq!(
        findings[1].cvss_score, None,
        "scored advisory left untouched"
    );
    assert_eq!(
        findings[2].severity,
        Severity::Unknown,
        "no NVD data, stays unknown"
    );
    assert_eq!(findings[2].cvss_score, None);
}

#[test]
fn backfill_takes_worst_score_across_aliases() {
    let enrichment = Enrichment {
        kev: vec![],
        epss: TextMap::new(),
        cvss: scores(&[("CVE-2099-0001", 3.5), ("CVE-2099-0002", 9.5)]),
    };

    let mut finding = vuln("R1", "CVE-2099-0001", Severity::Unknown);
    finding.aliases.push("CVE-2099-0002".into());
    let mut findings = vec![finding];
    enrichment.apply(&mut findings);

    assert_eq!(findings[0].severity, Severity::Critical);
    assert_eq!(findings[0].cvss_score, Some(score(9.5)));
}

#[test]
fn summary_max_severity_is_refreshed_after_enrichment_backfill() {
    let mut report = report(vec![vuln("R1", "CVE-2022-0778", Severity::Unknown)]);

    let enrichment = Enrichment {
        kev: vec![],
        epss: TextMap::new(),
        cvss: scores(&[("CVE-2022-0778", 9.8)]),
    };
    enrichment.apply(&mut report.vulnerabilities);
    assert_eq!(report.vulnerabilities[0].severity, Severity::Critical);
    assert_eq!(
        report.summary.max_severity,
        Severity::Unknown,
        "summary is still stale until recomputed"
    );

    report.refresh_summary();
    assert_eq!(
        report.summary.max_severity,
        Severity::Critical,
        "summary reflects the enrichment-backfilled severity"
    );
}

#[test]
fn rank_puts_kev_first_then_epss_descending() {
    let with = |id: &str, kev: bool, epss: Option<f64>| {
        let mut v = vuln(id, "CVE-0000-0000", Severity::Low);
        v.exploit = Exploitability {
            kev,
            epss: epss.map(score),
        };
        v
    };
    let mut findings = vec![
        with("low-epss", false, Some(0.10)),
        with("kev", true, Some(0.05)),
        with("high-epss", false, Some(0.90)),
        with("none", false, None),
    ];
    rank(&mut findings);

    let order: Vec<&str> = findings.iter().map(|v| v.advisory_id.as_str()).collect();
    // KEV first (even with low epss), then epss desc, unknown last.
    assert_eq!(order, vec!["kev", "high-epss", "low-epss", "none"]);
}

#[test]
fn rank_breaks_ties_by_severity_and_keeps_the_rest_in_place() {
    let mut findings = vec![
        vuln("a", "CVE-1", Severity::Low),
        vuln("b", "CVE-2", Severity::Critical),
        vuln("c", "CVE-3", Severity::Low),
    ];
    rank(&mut findings);
    let order: Vec<&str> = findings.iter().map(|v| v.advisory_id.as_str()).collect();
    assert_eq!(order, vec!["b", "a", "c"]);
}

#[test]
fn a_catalog_without_its_list_is_refused() {
    assert!(matches!(parse_kev("not json"), Err(KevError::NotJson)));
    assert!(matches!(parse_kev("{}"), Err(KevError::NoList)));
    let two = parse_kev(r#"{"vulnerabilities":[{"cveID":"B"},{"x":1},{"cveID":"A"}]}"#).unwrap();
    assert!(two.contains(&"A".to_string()) && two.contains(&"B".to_string()));
    assert_eq!(two.len(), 2);
}

#[test]
fn answers_of_the_probability_service_are_read() {
    let doc = Json::parse(r#"{"data":[{"cve":"CVE-1","epss":"0.5"},{"cve":"CVE-2"}]}"#).unwrap();
    assert_eq!(
        epss_json_rows(&doc),
        vec![("CVE-1".to_string(), "0.5".to_string())]
    );
}

#[test]
fn only_valid_cves_of_the_report_are_asked_about() {
    let mut odd = vuln("R1", "CVE-2022-0778", Severity::High);
    odd.aliases.push("GHSA-xxxx".into());
    let r = report(vec![odd, vuln("R2", "CVE-2021-0001", Severity::Unknown)]);
    assert_eq!(
        cves_to_fetch(&r, false),
        vec!["CVE-2021-0001".to_string(), "CVE-2022-0778".to_string()]
    );
    assert_eq!(cves_to_fetch(&r, true), vec!["CVE-2021-0001".to_string()]);
    let asked = valid_cves(&vec!["CVE-2022-0778&x".to_string(), "CVE-2021-0001".to_string()]);
    assert_eq!(asked, vec!["CVE-2021-0001".to_string()]);
}

#[test]
fn requests_name_a_hundred_well_formed_cves_at_most() {
    assert_eq!(epss_requests(&vec![]), Vec::<String>::new());
    assert_eq!(
        epss_requests(&vec![
            "CVE-2022-0778".to_string(),
            "CVE-2022-0778&inject=1".to_string(),
            "CVE-2024-12345".to_string(),
        ]),
        vec!["https://api.first.org/data/v1/epss?cve=CVE-2022-0778,CVE-2024-12345".to_string()]
    );
    let many: Vec<String> = (0..201).map(|i| format!("CVE-2024-{:04}", i)).collect();
    let urls = epss_requests(&many);
    assert_eq!(urls.len(), 3);
    assert!(urls[0].starts_with("https://api.first.org/data/v1/epss?cve=CVE-2024-0000,"));
    assert!(urls[0].ends_with(",CVE-2024-0099"));
    assert!(urls[1].starts_with("https://api.first.org/data/v1/epss?cve=CVE-2024-0100,"));
    assert_eq!(
        urls[2],
        "https://api.first.org/data/v1/epss?cve=CVE-2024-0200".to_string()
    );
}

#[test]
fn base_scores_are_asked_for_one_by_one() {
    assert_eq!(
        nvd_request("CVE-2022-0778"),
        "https://services.nvd.nist.gov/rest/json/cves/2.0?cveId=CVE-2022-0778".to_string()
    );
    assert_eq!(nvd_pause(0, false), 0);
    assert_eq!(nvd_pause(1, false), 6000);
    assert_eq!(nvd_pause(1, true), 700);
}

#[test]
fn metrics_that_are_no_list_hold_no_score() {
    let body = r#"{"vulnerabilities":[{"cve":{"id":"CVE-1","metrics":{
        "cvssMetricV31":{"0":{"cvssData":{"baseScore":9.8}}},
        "cvssMetricV2":[{"cvssData":{"baseScore":5.0}}]}}}]}"#;
    assert_eq!(parse_nvd_score(body, "CVE-1"), Some(score(5.0)));
}

#[test]
fn a_probability_that_is_no_number_leaves_it_to_the_severity() {
    let with = |id: &str, severity: Severity, epss: f64| {
        let mut v = vuln(id, "CVE-0000-0000", severity);
        v.exploit.epss = Some(score(epss));
        v
    };
    let order = |mut findings: Vec<VulnFinding>| -> Vec<String> {
        rank(&mut findings);
        findings.into_iter().map(|v| v.advisory_id).collect()
    };
    let odd = f64::NAN;
    assert_eq!(
        order(vec![
            with("odd", Severity::Low, odd),
            with("half", Severity::High, 0.5)
        ]),
        vec!["half", "odd"]
    );
    assert_eq!(
        order(vec![
            with("half", Severity::Low, 0.5),
            with("odd", Severity::High, odd)
        ]),
        vec!["odd", "half"]
    );
    // Between the same severities the advisory decides, whichever came first.
    assert_eq!(
        order(vec![
            with("b", Severity::Low, odd),
            with("a", Severity::Low, 0.5)
        ]),
        vec!["a", "b"]
    );
    assert_eq!(
        order(vec![
            with("most", Severity::Critical, 0.1),
            with("odd", Severity::Low, odd),
            with("less", Severity::Medium, 0.05),
            with("more", Severity::High, 0.07)
        ]),
        vec!["most", "more", "less", "odd"]
    );
}
