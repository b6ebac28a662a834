use fleetreach::go_offline::GoVersions;
use fleetreach::hex::HexVersions;
use fleetreach::osv::{
    advisories_from, advisory_url, affected_fixed, affected_fixed_by, affected_fixed_parsed,
    band_from_label, default_severity, parse_range, Affected, DatabaseSpecific, Event, Match,
    OsvDb, OsvRecord, Package, ParsedRange, Range, RawEvent, RawRange, SeverityEntry,
};
use fleetreach::score::Score;
use fleetreach::severity::Severity;
use fleetreach::version::Version;

fn v(s: &str) -> Version {
    Version::parse(s).unwrap()
}

// Plain-SemVer bounds, the simplest instantiation.
fn plain(version: &Version, ranges: &Vec<Range>) -> Match<Version> {
    affected_fixed::<HexVersions>(version, ranges)
}

fn range(events: &[(&str, &str)]) -> Range {
    Range {
        matchable: true,
        events: events
            .iter()
            .map(|(k, val)| Event {
                introduced: (*k == "introduced").then(|| val.to_string()),
                fixed: (*k == "fixed").then(|| val.to_string()),
                last_affected: (*k == "last_affected").then(|| val.to_string()),
            })
            .collect(),
    }
}

fn unmatchable() -> Range {
    Range {
        matchable: false,
        events: vec![Event {
            introduced: Some("0".into()),
            fixed: None,
            last_affected: None,
        }],
    }
}

#[test]
fn affected_below_fix_reports_smallest_patch() {
    let r = vec![
        range(&[("introduced", "0"), ("fixed", "1.0.1")]),
        range(&[("introduced", "2.0.0"), ("fixed", "2.0.3")]),
    ];
    // 0.9.0 is in [0,1.0.1): fix is 1.0.1, not 2.0.3.
    assert_eq!(
        plain(&v("0.9.0"), &r),
        Match::Affected {
            fixed: Some(v("1.0.1"))
        }
    );
    assert_eq!(
        plain(&v("1.5.0"), &r),
        Match::NotAffected,
        "between windows"
    );
}

#[test]
fn no_introduced_event_is_affected_from_zero() {
    let r = vec![Range {
        matchable: true,
        events: vec![Event {
            introduced: None,
            fixed: Some("2.0.0".into()),
            last_affected: None,
        }],
    }];
    assert_eq!(
        plain(&v("1.5.0"), &r),
        Match::Affected {
            fixed: Some(v("2.0.0"))
        }
    );
    assert_eq!(plain(&v("2.0.0"), &r), Match::NotAffected);
}

#[test]
fn unparseable_introduced_fails_loud() {
    let r = vec![range(&[("introduced", "garbage"), ("fixed", "99.0.0")])];
    assert_eq!(
        plain(&v("1.0.0"), &r),
        Match::Affected {
            fixed: Some(v("99.0.0"))
        },
        "a malformed lower bound must read affected, never clean"
    );
}

#[test]
fn non_semver_ranges_are_skipped() {
    let r = vec![unmatchable()];
    assert_eq!(plain(&v("1.0.0"), &r), Match::NotAffected);
}

#[test]
fn last_affected_closes_an_open_interval() {
    let r = vec![range(&[
        ("introduced", "1.0.0"),
        ("last_affected", "1.4.0"),
    ])];
    assert_eq!(plain(&v("1.3.0"), &r), Match::Affected { fixed: None });
    assert_eq!(plain(&v("1.5.0"), &r), Match::NotAffected);
}

// The pre-parsed matcher must agree with the string matcher on every shape: that is the
// whole safety contract of the parse-once optimization (a divergence = a false-clean).
#[test]
fn parsed_matcher_agrees_with_string_matcher() {
    let ranges = vec![
        range(&[("introduced", "0"), ("fixed", "1.0.1")]),
        range(&[("introduced", "2.0.0"), ("fixed", "2.0.3")]),
        range(&[("introduced", "1.0.0"), ("last_affected", "1.4.0")]),
        range(&[("introduced", "garbage"), ("fixed", "99.0.0")]),
        unmatchable(),
    ];
    let parsed: Vec<ParsedRange<Version>> =
        ranges.iter().map(parse_range::<HexVersions>).collect();
    for s in [
        "0.0.1", "0.9.0", "1.0.0", "1.0.1", "1.3.0", "1.5.0", "2.0.0", "2.0.3", "5.0.0",
    ] {
        let ver = v(s);
        let want = plain(&ver, &ranges);
        let got = affected_fixed_parsed::<HexVersions>(&ver, &parsed);
        assert_eq!(want, got, "disagreement at {s}");
    }
}

#[test]
fn custom_introduced_comparator_is_honored() {
    // A comparator that treats nothing as at/after `introduced` => never affected
    // via an introduced bound (proves that it actually drives the decision).
    let r = vec![range(&[("introduced", "1.0.0"), ("fixed", "2.0.0")])];
    let never = affected_fixed_by::<HexVersions, _>(&v("1.5.0"), &r, |_, _| false);
    assert_eq!(never, Match::NotAffected);
    let plainly = affected_fixed_by::<HexVersions, _>(&v("1.5.0"), &r, |a, b| !a.before(b));
    assert_eq!(plainly, plain(&v("1.5.0"), &r));
}

#[test]
fn the_scheme_decides_what_is_at_or_after_introduced() {
    // For Go a pre-release belongs to its release; by plain semantic versions it is before it.
    let r = vec![range(&[("introduced", "1.0.0"), ("fixed", "2.0.0")])];
    let rc = v("1.0.0-rc.1");
    assert_eq!(affected_fixed::<HexVersions>(&rc, &r), Match::NotAffected);
    assert_eq!(
        affected_fixed::<GoVersions>(&rc, &r),
        Match::Affected {
            fixed: Some(v("2.0.0"))
        }
    );
}

fn record(name: &str, ecosystem: &str) -> OsvRecord {
    OsvRecord {
        id: "GHSA-1".into(),
        aliases: Some(vec!["CVE-1".into()]),
        summary: Some("s".into()),
        affected: vec![Affected {
            package: Package {
                name: Some(name.into()),
                ecosystem: Some(ecosystem.into()),
            },
            ranges: vec![RawRange {
                kind: Some("SEMVER".into()),
                events: vec![RawEvent {
                    introduced: Some("0".into()),
                    fixed: None,
                    last_affected: None,
                }],
            }],
            versions: None,
        }],
        severity: vec![],
        database_specific: None,
    }
}

#[test]
fn records_of_other_ecosystems_say_nothing() {
    assert!(advisories_from::<HexVersions>(&record("plug", "npm")).is_empty());
    let own = advisories_from::<HexVersions>(&record("plug", "Hex"));
    assert_eq!(own.len(), 1);
    assert_eq!(own[0].0, "plug");
    let db = OsvDb::from_records(vec![own, advisories_from::<HexVersions>(&record("plug", "Hex"))]);
    assert_eq!(db.advisories_for("plug").len(), 2);
    assert!(db.advisories_for("phoenix").is_empty());
    assert_eq!(db.len(), 2);
    assert!(!db.is_empty());
}

#[test]
fn severity_comes_from_a_label_or_a_vector() {
    assert_eq!(band_from_label("CRITICAL"), Severity::Critical);
    assert_eq!(band_from_label("moderate"), Severity::Medium);
    assert_eq!(band_from_label("?"), Severity::Unknown);
    let labelled = OsvRecord {
        database_specific: Some(DatabaseSpecific {
            severity: Some("HIGH".into()),
        }),
        ..record("a", "Hex")
    };
    assert_eq!(default_severity(&labelled).0, Severity::High);
    let scored = OsvRecord {
        severity: vec![SeverityEntry {
            kind: Some("CVSS_V3".into()),
            score: Some("CVSS:3.1/AV:N/AC:L/PR:N/UI:N/S:U/C:H/I:H/A:H".into()),
        }],
        ..record("a", "Hex")
    };
    let (band, score) = default_severity(&scored);
    assert_eq!(band, Severity::Critical);
    assert_eq!(
        score,
        Some(Score {
            bits: f64::from(9.8f32).to_bits()
        })
    );
    let broken = OsvRecord {
        severity: vec![SeverityEntry {
            kind: Some("CVSS_V3".into()),
            score: Some("CVSS:3.1/nonsense".into()),
        }],
        ..record("a", "Hex")
    };
    assert_eq!(default_severity(&broken), (Severity::Unknown, None));
}

#[test]
fn advisories_have_a_page() {
    assert_eq!(advisory_url("GHSA-1"), "https://osv.dev/vulnerability/GHSA-1");
}
