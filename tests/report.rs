use os_checker_plugin_cargo::name::NameError;
use os_checker_plugin_cargo::report::{Event, Report, ReportTest};

fn event(e: Event, name: &str, ms: Option<u32>, stdout: Option<&str>) -> ReportTest {
    ReportTest::new(e, name, ms, stdout).unwrap()
}

#[test]
fn parse_test_event() {
    let report = event(Event::Started, "os-checker-plugin-cargo::t1$from_t1", None, None);
    assert_eq!(report.event, Event::Started);
    assert_eq!(report.name.pkg_name, "os-checker-plugin-cargo");
    assert_eq!(report.name.test_binary, "t1");
    assert_eq!(report.name.test_case, "from_t1");
    assert_eq!(report.duration_ms, None);
    assert_eq!(report.stdout, None);
}

#[test]
fn event_output_loses_colour_sequences() {
    let report = event(Event::Failed, "p::b$t", Some(3), Some("\x1b[31mpanicked\x1b[0m at x"));
    assert_eq!(report.stdout.as_deref(), Some("panicked at x"));
}

#[test]
fn event_with_bad_name_is_rejected() {
    assert!(matches!(
        ReportTest::new(Event::Passed, "no separators", None, None),
        Err(NameError::MissingPackageSeparator)
    ));
}

#[test]
fn later_event_overrides_earlier() {
    let reports = vec![
        event(Event::Started, "p::b$t", None, None),
        event(Event::Started, "p::b$u", None, None),
        event(Event::Passed, "p::b$t", Some(12), None),
        event(Event::Failed, "p::b$u#1", Some(7), Some("boom")),
    ];
    let report = Report::new("stderr text".to_owned(), reports);
    assert_eq!(report.stderr, "stderr text");
    assert_eq!(report.testcases.len(), 2);
    assert_eq!(report.get_test_case(&["p", "b", "t"]), (Some(Event::Passed), Some(12), None));
    assert_eq!(
        report.get_test_case(&["p", "b", "u"]),
        (Some(Event::Failed), Some(7), Some("boom".to_owned()))
    );
}

#[test]
fn unknown_test_case_has_no_outcome() {
    let report = Report::new(String::new(), vec![event(Event::Passed, "p::b$t", Some(1), None)]);
    assert_eq!(report.get_test_case(&["p", "b", "other"]), (None, None, None));
    assert_eq!(report.get_test_case(&["q", "b", "t"]), (None, None, None));
}

#[test]
fn empty_run_has_no_outcomes() {
    let report = Report::new(String::new(), Vec::new());
    assert_eq!(report.testcases.len(), 0);
    assert_eq!(report.get_test_case(&["p", "b", "t"]), (None, None, None));
}

#[test]
fn test_cases_keep_first_event_order() {
    let reports = vec![
        event(Event::Started, "p::b$second", None, None),
        event(Event::Started, "p::b$first", None, None),
        event(Event::Passed, "p::b$first", Some(1), None),
        event(Event::Passed, "p::b$second", Some(2), None),
        event(Event::Started, "p::b$third", None, None),
    ];
    let report = Report::new(String::new(), reports);
    let order: Vec<&str> = report.testcases.keys().map(|k| k.2.as_str()).collect();
    assert_eq!(order, ["second", "first", "third"]);
}
