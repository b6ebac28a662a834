use fleetreach::db::{
    check_db_age, db_source, duration_fits, parse_duration_secs, toolchain_from, DbSource,
};
use fleetreach::version::Version;

#[test]
fn durations_have_units() {
    assert_eq!(parse_duration_secs("7d"), Ok(604_800));
    assert_eq!(parse_duration_secs(" 24h "), Ok(86_400));
    assert_eq!(parse_duration_secs("30m"), Ok(1_800));
    assert_eq!(parse_duration_secs("90s"), Ok(90));
    assert_eq!(parse_duration_secs("90"), Ok(90));
    assert_eq!(parse_duration_secs("-1 h"), Ok(-3_600));
    assert_eq!(
        parse_duration_secs(" soon "),
        Err("invalid duration `soon`".to_string())
    );
    assert!(parse_duration_secs("").is_err());
    assert!(duration_fits("9223372036854775807"));
    assert!(!duration_fits("9223372036854775807d"));
}

#[test]
fn an_unknown_age_is_never_fresh() {
    assert_eq!(check_db_age(Some(3_600), "1h"), Ok(()));
    assert_eq!(
        check_db_age(Some(3_601), "1h"),
        Err("advisory DB is 3601s old, older than --max-db-age 3600s".to_string())
    );
    assert_eq!(
        check_db_age(None, "1h"),
        Err("cannot determine advisory DB age; refusing under --max-db-age".to_string())
    );
    assert!(check_db_age(Some(0), "x").is_err());
}

#[test]
fn a_revision_needs_a_clone() {
    assert_eq!(db_source(true, true, false), Ok(DbSource::LocalAt));
    assert_eq!(db_source(true, false, true), Ok(DbSource::Local));
    assert_eq!(db_source(false, false, true), Ok(DbSource::Cache));
    assert_eq!(db_source(false, false, false), Ok(DbSource::Fetch));
    assert!(db_source(false, true, false).is_err());
}

#[test]
fn the_toolchain_is_the_second_word() {
    let t = toolchain_from("rustc 1.80.1 (3f5fd8dd4 2024-08-06)\n").unwrap();
    assert_eq!(t.channel, "rustc 1.80.1");
    assert_eq!(t.version, Version::new(1, 80, 1));
    assert!(toolchain_from("rustc\n").is_none());
    assert!(toolchain_from("rustc nightly\n").is_none());
}
