use os_checker_plugin_cargo::report::{Event, Report, ReportTest};
use os_checker_plugin_cargo::testcases::{
    get, CountMismatch, SuiteCase, TestBinary, TestCase, TestList, TestSuite,
};

fn case(name: &str, miri: Option<&str>) -> SuiteCase {
    SuiteCase {
        name: name.to_owned(),
        miri: miri.map(|m| m.to_owned()),
    }
}

fn suite(pkg: &str, bin: &str, cases: Vec<SuiteCase>) -> TestSuite {
    TestSuite {
        package_name: pkg.to_owned(),
        binary_id: format!("{pkg}::{bin}"),
        kind: "lib".to_owned(),
        binary_name: bin.to_owned(),
        test_cases: cases,
    }
}

fn run(events: Vec<(Event, &str, Option<u32>)>) -> Report {
    let reports = events
        .into_iter()
        .map(|(e, n, ms)| ReportTest::new(e, n, ms, None).unwrap())
        .collect();
    Report::new(String::new(), reports)
}

#[test]
fn test_case_takes_its_outcome() {
    let report = run(vec![(Event::Failed, "p::b$t", Some(40))]);
    let c = TestCase::new("t", "p", "b", &report, Some("leak".to_owned()));
    assert_eq!(c.name, "t");
    assert_eq!(c.status, Some(Event::Failed));
    assert_eq!(c.duration_ms, Some(40));
    assert_eq!(c.error, None);
    assert_eq!(c.miri.as_deref(), Some("leak"));
}

#[test]
fn binary_rolls_up_failures_and_durations() {
    let report = run(vec![
        (Event::Failed, "p::b$a", Some(10)),
        (Event::Passed, "p::b$b", Some(5)),
        (Event::Failed, "p::b$c", None),
    ]);
    let s = suite("p", "b", vec![case("a", None), case("b", None), case("c", None), case("d", None)]);
    let b = TestBinary::new(&s, &report);
    assert_eq!(b.id, "p::b");
    assert_eq!(b.kind, "lib");
    assert_eq!(b.binary_name, "b");
    assert_eq!(b.testcases.len(), 4);
    assert_eq!(b.failed, 2);
    assert_eq!(b.duration_ms, 15);
    assert_eq!(b.testcases[3].status, None);
}

#[test]
fn zero_tests_give_no_packages() {
    let list = TestList {
        test_count: 0,
        rust_suites: vec![suite("p", "b", vec![]), suite("q", "c", vec![])],
    };
    let map = get(&list, &run(vec![])).unwrap();
    assert!(map.is_empty());
}

#[test]
fn test_get_testcases() {
    let report = run(vec![
        (Event::Passed, "p::b$a", Some(2)),
        (Event::Failed, "p::b$b", Some(3)),
        (Event::Passed, "q::c$x", Some(4)),
        (Event::Passed, "p::d$y", Some(5)),
    ]);
    let list = TestList {
        test_count: 4,
        rust_suites: vec![
            suite("p", "b", vec![case("a", None), case("b", Some("ub"))]),
            suite("q", "c", vec![case("x", None)]),
            suite("q", "empty", vec![]),
            suite("p", "d", vec![case("y", None)]),
        ],
    };
    let map = get(&list, &report).unwrap();
    assert_eq!(map.len(), 2);
    let keys: Vec<&str> = map.keys().map(|k| k.as_str()).collect();
    assert_eq!(keys, ["p", "q"]);

    let p = &map["p"];
    assert_eq!(p.tests.len(), 2);
    assert_eq!(p.tests[0].binary_name, "b");
    assert_eq!(p.tests[1].binary_name, "d");
    assert_eq!(p.failed, 1);
    assert_eq!(p.duration_ms, 10);
    assert_eq!(p.pkg_tests_count, 3);
    assert_eq!(p.workspace_tests_count, 4);
    assert_eq!(p.tests[0].testcases[1].miri.as_deref(), Some("ub"));

    let q = &map["q"];
    assert_eq!(q.tests.len(), 1);
    assert_eq!(q.failed, 0);
    assert_eq!(q.duration_ms, 4);
    assert_eq!(q.pkg_tests_count, 1);

    let sum: usize = map.values().map(|t| t.pkg_tests_count).sum();
    assert_eq!(sum, list.test_count);
}

#[test]
fn count_mismatch_is_an_error() {
    let list = TestList {
        test_count: 3,
        rust_suites: vec![suite("p", "b", vec![case("a", None), case("b", None)])],
    };
    assert_eq!(
        get(&list, &run(vec![])).unwrap_err(),
        CountMismatch {
            sum_pkg_tests_count: 2,
            workspace_tests_count: 3,
        }
    );
}

#[test]
fn inventory_without_cases_but_with_a_count_is_an_error() {
    let list = TestList {
        test_count: 1,
        rust_suites: vec![suite("p", "b", vec![])],
    };
    assert_eq!(
        get(&list, &run(vec![])).unwrap_err(),
        CountMismatch {
            sum_pkg_tests_count: 0,
            workspace_tests_count: 1,
        }
    );
}
