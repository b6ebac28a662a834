use fleetreach::resolve::{host_triple, parse_package_specs, tree_args};
use fleetreach::version::Version;

#[test]
fn parses_cargo_tree_package_specs() {
    let text = "fleetreach-cli v0.1.0 (/path)\njiff v0.2.0\nnot a version line\n";
    let set = parse_package_specs(text);
    assert!(set
        .iter()
        .any(|p| p.name == "jiff" && p.version == Version::new(0, 2, 0)));
    assert!(set
        .iter()
        .any(|p| p.name == "fleetreach-cli" && p.version == Version::new(0, 1, 0)));
    assert_eq!(set.len(), 2);
}

#[test]
fn package_specs_are_a_set() {
    let set = parse_package_specs("b v1.0.0\na v2.0.0\nb v1.0.0 (*)\na v1.0.0\n");
    let shown: Vec<String> = set
        .iter()
        .map(|p| format!("{} {}", p.name, p.version.to_string()))
        .collect();
    assert_eq!(shown, vec!["a 1.0.0", "a 2.0.0", "b 1.0.0"]);
}

#[test]
fn host_triple_is_the_host_line() {
    let text = "rustc 1.80.0\nbinary: rustc\nhost: x86_64-unknown-linux-gnu\nrelease: 1.80.0\n";
    assert_eq!(host_triple(text), Some("x86_64-unknown-linux-gnu".to_string()));
    assert_eq!(host_triple("rustc 1.80.0\n"), None);
}

#[test]
fn the_listing_stays_offline() {
    let args = tree_args("x86_64-unknown-linux-gnu");
    assert_eq!(
        args.join(" "),
        "tree --edges normal,build --prefix none --target x86_64-unknown-linux-gnu --format {p} \
         --locked --offline"
    );
}
