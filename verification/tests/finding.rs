use fleetreach::finding::{
    DepSource, DependencyKind, Ecosystem, Occurrence, ReachVerdict, Reachability, RepoId,
};
use fleetreach::score::Score;
use fleetreach::severity::Severity;
use fleetreach::version::{Version, VersionReq};

fn reachability(verdict: ReachVerdict) -> Reachability {
    Reachability {
        verdict,
        config: "nightly-2026-06-01;default-features".into(),
        engine: "static-mir-rta@0.1".into(),
        targets: vec![],
        witness: None,
    }
}

fn in_repo(installed: Version, patched: Vec<VersionReq>) -> Occurrence {
    Occurrence::InRepo {
        repo: RepoId("r".into()),
        package: "p".into(),
        installed,
        patched,
        dependency_kind: DependencyKind::Transitive,
        dependency_path: vec![],
        active: None,
        source: DepSource::CratesIo,
    }
}

#[test]
fn maps_onto_legacy_reachable_bool() {
    assert_eq!(
        reachability(ReachVerdict::Reachable {
            witness: vec!["main".into()]
        })
        .as_legacy_bool(),
        Some(true)
    );
    assert_eq!(
        reachability(ReachVerdict::NotReachable).as_legacy_bool(),
        Some(false)
    );
    assert_eq!(
        reachability(ReachVerdict::Unknown {
            reason: "opaque".into()
        })
        .as_legacy_bool(),
        None
    );
}

#[test]
fn severity_orders_with_critical_highest() {
    assert!(Severity::Critical > Severity::High);
    assert!(Severity::High > Severity::Medium);
    assert!(Severity::Medium > Severity::Low);
    assert!(Severity::Low > Severity::Unknown);

    let worst = [Severity::Low, Severity::Critical, Severity::Medium]
        .into_iter()
        .max()
        .unwrap();
    assert_eq!(worst, Severity::Critical);
    assert_eq!(Severity::Low.max_of(Severity::Critical), Severity::Critical);
}

#[test]
fn empty_patched_set_is_vulnerable() {
    // No published fix -> vulnerable, no matter the installed version.
    assert!(in_repo(Version::new(9, 9, 9), vec![]).is_vulnerable());
}

#[test]
fn installed_at_or_above_patch_is_not_vulnerable() {
    let patched = vec![VersionReq::parse(">=1.2.3").unwrap()];
    assert!(!in_repo(Version::new(1, 2, 3), patched.clone()).is_vulnerable());
    assert!(in_repo(Version::new(1, 2, 2), patched).is_vulnerable());
}

#[test]
fn toolchain_with_unknown_version_is_vulnerable() {
    let occ = Occurrence::Toolchain {
        channel: "stable".into(),
        installed: None,
        patched: vec![VersionReq::parse(">=1.50.0").unwrap()],
    };
    assert!(
        occ.is_vulnerable(),
        "unknown installed version is fail-closed"
    );
}

#[test]
fn versions_are_read_and_shown_as_written() {
    let v = Version::parse("1.2.3-rc.1+build.5").unwrap();
    assert_eq!((v.major(), v.minor(), v.patch()), (1, 2, 3));
    assert_eq!(v.pre(), "rc.1");
    assert_eq!(v.to_string(), "1.2.3-rc.1+build.5");
    assert!(Version::parse("1.2").is_none());
    assert!(Version::parse("01.2.3").is_none());
    assert!(v.before(&Version::new(1, 2, 3)));
    assert!(!Version::new(1, 2, 3).before(&v));
}

#[test]
fn requirements_are_read_and_matched() {
    let r = VersionReq::parse(">=1.2, <2").unwrap();
    assert!(r.matches(&Version::new(1, 2, 0)));
    assert!(!r.matches(&Version::new(2, 0, 0)));
    assert_eq!(r.to_string(), ">=1.2, <2");
    assert!(VersionReq::parse("not a requirement").is_none());
    assert!(r.same(&r.clone()));
    assert!(!r.same(&VersionReq::parse(">=1.2").unwrap()));
}

#[test]
fn scores_are_ordered_as_numbers() {
    let s = |x: f64| Score { bits: x.to_bits() };
    assert!(s(-1.0).less_than(s(0.0)));
    assert!(s(1.0).less_than(s(9.8)));
    assert!(s(0.0).at_least(s(-0.0)));
    assert!(!s(f64::NAN).at_least(s(0.0)));
    assert!(s(f64::NAN).not_a_number());
    assert_eq!(s(3.5).max_of(s(9.5)), s(9.5));
}

#[test]
fn only_cargo_is_cargo() {
    assert!(Ecosystem::Cargo.is_cargo());
    assert!(!Ecosystem::Go.is_cargo());
    assert!(DepSource::CratesIo.is_crates_io());
    assert!(!DepSource::Path.is_crates_io());
}

#[test]
fn scores_narrow_as_numbers_do() {
    let narrowed = |x: f64| f64::from_bits(Score { bits: x.to_bits() }.narrow().bits);
    let least = f64::from(f32::from_bits(1));
    for x in [
        0.0,
        -0.0,
        0.1,
        7.5,
        9.8,
        -3.3,
        1e-40,
        -1e-44,
        f64::from(f32::MIN_POSITIVE) * 0.999_999_99,
        f64::from(f32::MAX),
        f64::from(f32::MAX) * 1.000_000_01,
        f64::from(f32::MAX) * 1.000_000_1,
        1e300,
        f64::INFINITY,
        f64::NEG_INFINITY,
        f64::MIN_POSITIVE,
        least,
        least * 0.5,
        least * 0.500_001,
        least * 1.5,
        least * 2.5,
        least * 3.5,
        1.0 + f64::from(f32::EPSILON) * 0.5,
        1.0 + f64::from(f32::EPSILON) * 1.5,
        2.0 - f64::EPSILON,
        16_777_217.0,
        16_777_219.0,
    ] {
        assert_eq!(narrowed(x).to_bits(), f64::from(x as f32).to_bits(), "{x}");
        assert_eq!(narrowed(narrowed(x)).to_bits(), narrowed(x).to_bits());
    }
    assert!(narrowed(f64::NAN).is_nan());
}
