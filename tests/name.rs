use os_checker_plugin_cargo::name::{Name, NameError};

fn name(p: &str, b: &str, t: &str) -> Name {
    Name {
        pkg_name: p.to_owned(),
        test_binary: b.to_owned(),
        test_case: t.to_owned(),
    }
}

#[test]
fn string_to_name() {
    let text = "os-checker-plugin-cargo::os_checker_plugin_cargo$repo::test_cargo_tomls";
    let parsed = Name::parse(text).unwrap();
    assert_eq!(
        parsed,
        name("os-checker-plugin-cargo", "os_checker_plugin_cargo", "repo::test_cargo_tomls")
    );

    let text_retry = "os-checker-plugin-cargo::os_checker_plugin_cargo$repo::test_cargo_tomls#2";
    let retried = Name::parse(text_retry).unwrap();
    assert_eq!(retried, parsed);
}

#[test]
fn parses_os_checker_identifier() {
    let parsed = Name::parse("os-checker::os_checker$repo::test_cargo_tomls").unwrap();
    assert_eq!(parsed.pkg_name, "os-checker");
    assert_eq!(parsed.test_binary, "os_checker");
    assert_eq!(parsed.test_case, "repo::test_cargo_tomls");
}

#[test]
fn plain_identifier_gives_its_parts() {
    assert_eq!(Name::parse("p::b$t").unwrap(), name("p", "b", "t"));
}

#[test]
fn retry_suffix_is_dropped() {
    assert_eq!(Name::parse("p::b$t#3").unwrap(), Name::parse("p::b$t").unwrap());
    assert_eq!(Name::parse("p::b$t#12").unwrap(), name("p", "b", "t"));
}

#[test]
fn hash_without_digits_is_kept() {
    assert_eq!(Name::parse("p::b$t#").unwrap(), name("p", "b", "t#"));
    assert_eq!(Name::parse("p::b$t#x1").unwrap(), name("p", "b", "t#x1"));
}

#[test]
fn only_the_last_retry_suffix_is_dropped() {
    assert_eq!(Name::parse("p::b$t#1#2").unwrap(), name("p", "b", "t#1"));
}

#[test]
fn later_separators_belong_to_the_test_case() {
    assert_eq!(Name::parse("a::b$c::d$e").unwrap(), name("a", "b", "c::d$e"));
    assert_eq!(Name::parse("a::b::c$d").unwrap(), name("a", "b::c", "d"));
}

#[test]
fn empty_parts_are_allowed() {
    assert_eq!(Name::parse("::$").unwrap(), name("", "", ""));
}

#[test]
fn missing_package_separator_is_an_error() {
    assert_eq!(Name::parse("pkg$test"), Err(NameError::MissingPackageSeparator));
    assert_eq!(Name::parse("p:b$t"), Err(NameError::MissingPackageSeparator));
    assert_eq!(Name::parse(""), Err(NameError::MissingPackageSeparator));
}

#[test]
fn missing_binary_separator_is_an_error() {
    assert_eq!(Name::parse("p::bt"), Err(NameError::MissingBinarySeparator));
    assert_eq!(Name::parse("p$::bt"), Err(NameError::MissingBinarySeparator));
}
