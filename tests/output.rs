use os_checker_plugin_cargo::database::{Child, Data, DiagnosticsCount, Item};
use os_checker_plugin_cargo::output::{
    contains_x64, package_outputs, Output, Package, PackageInfo, Registry, TargetKind,
};
use os_checker_plugin_cargo::report::Report;
use os_checker_plugin_cargo::testcases::{get, SuiteCase, TestList, TestSuite};

fn kind(lib: bool, bin: bool, test: bool, example: bool, bench: bool) -> TargetKind {
    TargetKind { lib, bin, test, example, bench }
}

fn info(targets: Vec<TargetKind>) -> PackageInfo {
    PackageInfo {
        version: "0.1.0".to_owned(),
        dependencies: 4,
        targets,
        authors: vec!["someone".to_owned()],
        description: None,
        documentation: None,
        readme: Some("README.md".to_owned()),
        homepage: None,
        keywords: vec!["os".to_owned()],
        categories: vec![],
        rust_version: Some("1.80".to_owned()),
    }
}

fn no_registry() -> Registry {
    Registry {
        release_count: None,
        last_release_size: None,
        last_release_time: None,
    }
}

#[test]
fn record_counts_targets() {
    let targets = vec![
        kind(true, false, false, false, false),
        kind(false, false, true, false, false),
        kind(false, false, true, false, false),
        kind(false, false, false, true, false),
    ];
    let o = Output::new(info(targets), None, "1700000000");
    assert!(o.lib);
    assert!(!o.bin);
    assert_eq!(o.tests, 2);
    assert_eq!(o.examples, 1);
    assert_eq!(o.benches, 0);
    assert_eq!(o.version, "0.1.0");
    assert_eq!(o.dependencies, 4);
    assert_eq!(o.description, "");
    assert_eq!(o.readme.as_deref(), Some("README.md"));
    assert_eq!(o.last_commit_time, "1700000000");
    assert_eq!(o.release_count, None);
    assert_eq!(o.diag_total_count, None);
}

#[test]
fn x64_linux_is_found() {
    let targets = vec!["aarch64-unknown-none".to_owned(), "x86_64-unknown-linux-gnu".to_owned()];
    assert!(contains_x64(&targets));
    assert!(!contains_x64(&vec!["riscv64gc-unknown-none-elf".to_owned()]));
    assert!(!contains_x64(&Vec::new()));
}

#[test]
fn package_records_take_tests_counts_and_registry() {
    let list = TestList {
        test_count: 1,
        rust_suites: vec![TestSuite {
            package_name: "a".to_owned(),
            binary_id: "a".to_owned(),
            kind: "lib".to_owned(),
            binary_name: "a".to_owned(),
            test_cases: vec![SuiteCase { name: "t".to_owned(), miri: None }],
        }],
    };
    let tests = get(&list, &Report::new(String::new(), Vec::new())).unwrap();
    let diag = DiagnosticsCount::from_items(&vec![Item {
        children: vec![Child {
            data: Data {
                user: "u".to_owned(),
                repo: "r".to_owned(),
                pkg: "b".to_owned(),
                total_count: 9,
            },
        }],
    }]);
    let pkgs = vec![
        Package {
            name: "b".to_owned(),
            info: info(vec![]),
            registry: Registry {
                release_count: Some(3),
                last_release_size: Some(1024),
                last_release_time: Some("2024-01-01".to_owned()),
            },
        },
        Package {
            name: "a".to_owned(),
            info: info(vec![kind(true, false, false, false, false)]),
            registry: no_registry(),
        },
    ];
    let out = package_outputs("u", "r", pkgs, tests, "t0", &diag).unwrap();
    assert_eq!(out.len(), 2);
    assert_eq!(out[1].0, "b");
    assert_eq!(out[1].1.diag_total_count, Some(9));
    assert_eq!(out[1].1.release_count, Some(3));
    assert_eq!(out[1].1.last_release_size, Some(1024));
    assert!(out[1].1.testcases.is_none());
    assert_eq!(out[0].0, "a");
    assert_eq!(out[0].1.diag_total_count, None);
    assert_eq!(out[0].1.testcases.as_ref().map(|t| t.pkg_tests_count), Some(1));
}

#[test]
fn duplicate_package_names_are_rejected() {
    let tests = get(&TestList { test_count: 0, rust_suites: vec![] }, &Report::new(String::new(), vec![])).unwrap();
    let pkgs = vec![
        Package { name: "a".to_owned(), info: info(vec![]), registry: no_registry() },
        Package { name: "a".to_owned(), info: info(vec![]), registry: no_registry() },
    ];
    let diag = DiagnosticsCount::from_items(&Vec::new());
    let err = package_outputs("u", "r", pkgs, tests, "t0", &diag).unwrap_err();
    assert_eq!(err.name, "a");
}

#[test]
fn package_records_are_sorted_by_name() {
    let tests = get(&TestList { test_count: 0, rust_suites: vec![] }, &Report::new(String::new(), vec![])).unwrap();
    let names = ["zeta", "alpha", "Beta", "alpha-2", "al"];
    let pkgs = names
        .iter()
        .map(|n| Package { name: n.to_string(), info: info(vec![]), registry: no_registry() })
        .collect();
    let diag = DiagnosticsCount::from_items(&Vec::new());
    let out = package_outputs("u", "r", pkgs, tests, "t0", &diag).unwrap();
    let got: Vec<&str> = out.iter().map(|(n, _)| n.as_str()).collect();
    assert_eq!(got, ["Beta", "al", "alpha", "alpha-2", "zeta"]);
}
