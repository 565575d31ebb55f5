use pacgraph::package::{Capability, Package, Specifier, VersionConstraint};
use pacgraph::resolve::{find_package, resolve};

fn installed(name: &str, version: &str, provides: Vec<Capability>) -> Package {
    Package {
        name: name.to_string(),
        version: version.to_string(),
        depends: Vec::new(),
        optdepends: Vec::new(),
        provides,
    }
}

fn capability(name: &str, version: Option<&str>) -> Capability {
    Capability { name: name.to_string(), version: version.map(|v| v.to_string()) }
}

fn specifier(name: &str, constraint: VersionConstraint) -> Specifier {
    Specifier { name: name.to_string(), constraint }
}

fn directory() -> Vec<Package> {
    vec![
        installed("bash", "5.2-1", vec![capability("sh", None)]),
        installed("dash", "0.5-1", vec![capability("sh", Some("0.5"))]),
        installed("sh", "1.0-1", vec![]),
        installed("jdk17", "17.0-1", vec![capability("java-runtime", Some("17"))]),
        installed("jdk21", "21.0-1", vec![capability("java-runtime", Some("21"))]),
    ]
}

#[test]
fn new_specifier_has_no_constraint() {
    let specifier = Specifier::new("sh".to_string());
    assert_eq!(specifier.name, "sh");
    assert_eq!(specifier.constraint, VersionConstraint::Any);
}

#[test]
fn literal_name_takes_precedence_over_providers() {
    let targets = resolve(&Specifier::new("sh".to_string()), &directory());
    assert_eq!(targets, vec![2]);
}

#[test]
fn providers_are_all_found_where_no_package_bears_the_name() {
    let targets = resolve(&Specifier::new("java-runtime".to_string()), &directory());
    assert_eq!(targets, vec![3, 4]);
}

#[test]
fn unsatisfied_specifier_resolves_to_nothing() {
    let targets = resolve(&Specifier::new("zsh".to_string()), &directory());
    assert_eq!(targets, Vec::<usize>::new());
    assert_eq!(resolve(&Specifier::new("sh".to_string()), &Vec::new()), Vec::<usize>::new());
}

#[test]
fn equal_constraint_matches_the_exact_version() {
    let packages = directory();
    let exact = specifier("bash", VersionConstraint::Equal("5.2-1".to_string()));
    assert_eq!(resolve(&exact, &packages), vec![0]);
    let other = specifier("bash", VersionConstraint::Equal("5.1-1".to_string()));
    assert_eq!(resolve(&other, &packages), Vec::<usize>::new());
}

#[test]
fn literal_name_at_wrong_version_falls_back_to_providers() {
    let packages = directory();
    let wanted = specifier("sh", VersionConstraint::Equal("0.5".to_string()));
    // The package named sh is at 1.0-1; dash provides sh at 0.5; bash
    // provides sh without a version.
    assert_eq!(resolve(&wanted, &packages), vec![1]);
}

#[test]
fn equal_constraint_is_held_against_the_provided_version() {
    let packages = directory();
    let wanted = specifier("java-runtime", VersionConstraint::Equal("21".to_string()));
    assert_eq!(resolve(&wanted, &packages), vec![4]);
    let missing = specifier("java-runtime", VersionConstraint::Equal("11".to_string()));
    assert_eq!(resolve(&missing, &packages), Vec::<usize>::new());
}

#[test]
fn range_constraints_are_met_by_name() {
    let packages = directory();
    for constraint in [
        VersionConstraint::GreaterOrEqual("99".to_string()),
        VersionConstraint::LessOrEqual("0".to_string()),
        VersionConstraint::Greater("99".to_string()),
        VersionConstraint::Less("0".to_string()),
    ] {
        assert_eq!(resolve(&specifier("bash", constraint.clone()), &packages), vec![0]);
        assert_eq!(resolve(&specifier("java-runtime", constraint), &packages), vec![3, 4]);
    }
}

#[test]
fn constraint_tests_one_version() {
    let equal = VersionConstraint::Equal("1.0".to_string());
    assert!(equal.is_met_by(Some(&"1.0".to_string())));
    assert!(!equal.is_met_by(Some(&"1.0-1".to_string())));
    assert!(!equal.is_met_by(None));
    assert!(VersionConstraint::Any.is_met_by(None));
    assert!(VersionConstraint::Any.is_met_by(Some(&"3".to_string())));
    assert!(VersionConstraint::Less("1".to_string()).is_met_by(Some(&"3".to_string())));
}

#[test]
fn specifier_tests_one_package() {
    let packages = directory();
    let sh = Specifier::new("sh".to_string());
    assert!(sh.is_named_by(&packages[2]));
    assert!(!sh.is_named_by(&packages[0]));
    assert!(sh.is_provided_by(&packages[0]));
    assert!(sh.is_provided_by(&packages[1]));
    assert!(!sh.is_provided_by(&packages[2]));
    assert!(!sh.is_provided_by(&packages[3]));
}

#[test]
fn package_is_found_by_its_literal_name() {
    let packages = directory();
    assert_eq!(find_package(&packages, &"dash".to_string()), Some(1));
    assert_eq!(find_package(&packages, &"sh".to_string()), Some(2));
}

#[test]
fn provided_name_is_no_package() {
    let packages = directory();
    assert_eq!(find_package(&packages, &"java-runtime".to_string()), None);
    assert_eq!(find_package(&packages, &"".to_string()), None);
    assert_eq!(find_package(&Vec::new(), &"sh".to_string()), None);
}

#[test]
fn first_of_two_packages_of_one_name_is_found() {
    let packages = vec![
        installed("a", "1", vec![]),
        installed("b", "1", vec![]),
        installed("b", "2", vec![]),
    ];
    assert_eq!(find_package(&packages, &"b".to_string()), Some(1));
    assert_eq!(resolve(&Specifier::new("b".to_string()), &packages), vec![1, 2]);
}

#[test]
fn table_resolves_as_the_scan_does() {
    let packages = directory();
    let table = pacgraph::table::NameTable::new(&packages);
    let specifiers = vec![
        Specifier::new("sh".to_string()),
        Specifier::new("bash".to_string()),
        Specifier::new("java-runtime".to_string()),
        Specifier::new("zsh".to_string()),
        Specifier::new("".to_string()),
        specifier("sh", VersionConstraint::Equal("0.5".to_string())),
        specifier("java-runtime", VersionConstraint::Equal("21".to_string())),
        specifier("java-runtime", VersionConstraint::GreaterOrEqual("11".to_string())),
        specifier("bash", VersionConstraint::Equal("5.1-1".to_string())),
    ];
    for wanted in specifiers {
        assert_eq!(table.resolve(&wanted, &packages), resolve(&wanted, &packages));
    }
    assert_eq!(table.resolve(&Specifier::new("sh".to_string()), &packages), vec![2]);
    assert_eq!(table.resolve(&Specifier::new("java-runtime".to_string()), &packages), vec![3, 4]);
}

#[test]
fn table_of_many_packages_finds_each_by_name_and_capability() {
    let mut packages = Vec::new();
    for i in 0..200 {
        packages.push(installed(
            &format!("package-{i}"),
            "1-1",
            vec![
                capability(&format!("feature-{}", i % 7), None),
                capability(&format!("feature-{}", i % 7), Some("2")),
                capability("common", None),
            ],
        ));
    }
    let table = pacgraph::table::NameTable::new(&packages);
    for i in 0..200 {
        let wanted = Specifier::new(format!("package-{i}"));
        assert_eq!(table.resolve(&wanted, &packages), vec![i]);
    }
    for feature in 0..7 {
        let wanted = Specifier::new(format!("feature-{feature}"));
        let expected: Vec<usize> = (0..200).filter(|i| i % 7 == feature).collect();
        assert_eq!(table.resolve(&wanted, &packages), expected);
        assert_eq!(resolve(&wanted, &packages), expected);
    }
    let everyone: Vec<usize> = (0..200).collect();
    assert_eq!(table.resolve(&Specifier::new("common".to_string()), &packages), everyone);
    assert_eq!(
        table.resolve(&Specifier::new("feature-7".to_string()), &packages),
        Vec::<usize>::new()
    );
}

#[test]
fn table_of_no_packages_resolves_nothing() {
    let packages = Vec::new();
    let table = pacgraph::table::NameTable::new(&packages);
    assert_eq!(table.resolve(&Specifier::new("sh".to_string()), &packages), Vec::<usize>::new());
}
