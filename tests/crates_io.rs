use os_checker_plugin_cargo::crates_io::{get_release_count, url};

const INDEX: &str = "{\"name\":\"os-checker\",\"vers\":\"0.1.0\"}\n\
{\"name\":\"os-checker\",\"vers\":\"0.2.0\"}\n\
{\"name\":\"os-checker\",\"vers\":\"0.4.1\"}\n";

#[test]
fn crates_io_test_get_release_count() {
    assert_eq!(url("os-checker"), "https://index.crates.io/os/-c/os-checker");
    assert_eq!(get_release_count(Some(INDEX)), Some(3));
}

#[test]
fn release_count_test_get_release_count() {
    assert_eq!(get_release_count(None), None);
    assert_eq!(get_release_count(Some("\n  \n")), Some(0));
    assert_eq!(get_release_count(Some("  {\"vers\":\"1.0.0\"}  \n\n")), Some(1));
}

#[test]
fn url_by_name_length() {
    assert_eq!(url("a"), "https://index.crates.io/1/a");
    assert_eq!(url("ab"), "https://index.crates.io/2/ab");
    assert_eq!(url("abc"), "https://index.crates.io/3/a/abc");
    assert_eq!(url("abcd"), "https://index.crates.io/ab/cd/abcd");
    assert_eq!(url("serde"), "https://index.crates.io/se/rd/serde");
}

#[test]
fn records_count_not_lines() {
    assert_eq!(get_release_count(Some("{\"vers\":\"1.0.0\"}{\"vers\":\"1.1.0\"}")), Some(2));
    assert_eq!(get_release_count(Some("{\"vers\":\"1.0.0\"}\n\n{\"vers\":\"2.0.0\"}")), Some(2));
}

#[test]
fn unparsable_record_gives_none() {
    assert_eq!(get_release_count(Some("{\"vers\":\"1.0.0\"}\nnot json")), None);
    assert_eq!(get_release_count(Some("{\"vers\":")), None);
}
