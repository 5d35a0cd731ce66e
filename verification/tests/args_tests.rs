//! Behaviour of the argument and configuration parsers.

use broadcast_relay::args::{
    parse_page_number, parse_sys_input_pair, DiagnosticFormat, Input, Output, Pages,
    SerializationFormat,
};
use broadcast_relay::config::{input_from_str, SimulationConfig};
use broadcast_relay::datetime::{parse_i64, parse_source_date_epoch};
use broadcast_relay::text::{parse_digits_u64, parse_usize, str_eq, trim};

#[test]
fn it_works() {
    let result = broadcast_relay::add(2, 2);
    assert_eq!(result, 4);
}

#[test]
fn pages_single_number() {
    let pages = Pages::from_str("4").unwrap();
    assert_eq!(pages.start, Some(4));
    assert_eq!(pages.end, Some(4));
}

#[test]
fn pages_full_range() {
    let pages = Pages::from_str("1-3").unwrap();
    assert_eq!(pages.start, Some(1));
    assert_eq!(pages.end, Some(3));
}

#[test]
fn pages_open_ended() {
    let pages = Pages::from_str("5-").unwrap();
    assert_eq!(pages.start, Some(5));
    assert_eq!(pages.end, None);
    let pages = Pages::from_str("-2").unwrap();
    assert_eq!(pages.start, None);
    assert_eq!(pages.end, Some(2));
}

#[test]
fn pages_parts_are_trimmed() {
    let pages = Pages::from_str(" 2 - 4 ").unwrap();
    assert_eq!(pages.start, Some(2));
    assert_eq!(pages.end, Some(4));
}

#[test]
fn pages_rejects_empty() {
    assert_eq!(Pages::from_str(""), Err("page export range must not be empty"));
    assert_eq!(Pages::from_str("   "), Err("page export range must not be empty"));
}

#[test]
fn pages_rejects_bare_hyphen() {
    assert_eq!(Pages::from_str("-"), Err("page export range must have start or end"));
    assert_eq!(Pages::from_str(" - "), Err("page export range must have start or end"));
}

#[test]
fn pages_rejects_extra_hyphens() {
    assert_eq!(Pages::from_str("1-2-3"), Err("page export range must have a single hyphen"));
}

#[test]
fn pages_rejects_backwards_range() {
    assert_eq!(
        Pages::from_str("3-1"),
        Err("page export range must end at a page after the start"),
    );
}

#[test]
fn pages_rejects_bad_numbers() {
    assert_eq!(Pages::from_str("0"), Err("page numbers start at one"));
    assert_eq!(Pages::from_str("x"), Err("not a valid page number"));
    assert_eq!(Pages::from_str("0-3"), Err("page numbers start at one"));
}

#[test]
fn page_number_parsing() {
    assert_eq!(parse_page_number("7"), Ok(7));
    assert_eq!(parse_page_number("0"), Err("page numbers start at one"));
    assert_eq!(parse_page_number("00"), Err("not a valid page number"));
    assert_eq!(parse_page_number("abc"), Err("not a valid page number"));
    assert_eq!(
        parse_page_number("99999999999999999999999999"),
        Err("not a valid page number"),
    );
}

#[test]
fn sys_input_pairs() {
    assert_eq!(
        parse_sys_input_pair("key=value"),
        Ok(("key".to_string(), "value".to_string())),
    );
    assert_eq!(
        parse_sys_input_pair(" key = value "),
        Ok(("key".to_string(), "value".to_string())),
    );
    assert_eq!(parse_sys_input_pair("k="), Ok(("k".to_string(), "".to_string())));
    assert_eq!(parse_sys_input_pair("a=b=c"), Ok(("a".to_string(), "b=c".to_string())));
    assert_eq!(
        parse_sys_input_pair("no separator"),
        Err("input must be a key and a value separated by an equal sign".to_string()),
    );
    assert_eq!(
        parse_sys_input_pair(" =value"),
        Err("the key was missing or empty".to_string()),
    );
}

#[test]
fn source_date_epoch_parsing() {
    assert_eq!(parse_source_date_epoch("0"), Ok(0));
    assert_eq!(parse_source_date_epoch("1431648000"), Ok(1431648000));
    assert_eq!(parse_source_date_epoch("-86400"), Ok(-86400));
    assert_eq!(
        parse_source_date_epoch("not a number"),
        Err("timestamp must be decimal integer".to_string()),
    );
    assert_eq!(
        parse_source_date_epoch("99999999999999999999"),
        Err("timestamp must be decimal integer".to_string()),
    );
    assert_eq!(
        parse_source_date_epoch("9223372036854775807"),
        Err("timestamp out of range".to_string()),
    );
}

#[test]
fn integer_parsing() {
    assert_eq!(parse_i64("-9223372036854775808"), Some(i64::MIN));
    assert_eq!(parse_i64("9223372036854775807"), Some(i64::MAX));
    assert_eq!(parse_i64("-9223372036854775809"), None);
    assert_eq!(parse_i64("9223372036854775808"), None);
    assert_eq!(parse_i64("+17"), Some(17));
    assert_eq!(parse_i64(""), None);
    assert_eq!(parse_i64("-"), None);
    assert_eq!(parse_usize("42"), Some(42));
    assert_eq!(parse_usize("+42"), Some(42));
    assert_eq!(parse_usize("-42"), None);
    assert_eq!(parse_usize(""), None);
    assert_eq!(parse_digits_u64("18446744073709551615"), Some(u64::MAX));
    assert_eq!(parse_digits_u64("18446744073709551616"), None);
}

#[test]
fn text_helpers() {
    assert_eq!(trim("  spaced\tout \n"), "spaced\tout");
    assert_eq!(trim(""), "");
    assert_eq!(trim(" \u{a0} "), "");
    assert!(str_eq("same", "same"));
    assert!(!str_eq("same", "other"));
}

#[test]
fn config_defaults() {
    let config = SimulationConfig::default();
    assert!(matches!(config.input, Input::Stdin));
    assert_eq!(config.process_config.jobs, None);
    assert!(config.process_config.features.is_empty());
    assert!(matches!(config.process_config.diagnostic_format, DiagnosticFormat::Human));
    assert!(config.world_config.root.is_none());
    assert!(config.world_config.inputs.is_empty());
    assert!(config.world_config.font.font_paths.is_empty());
    assert!(!config.world_config.font.ignore_system_fonts);
    assert!(config.world_config.package.package_path.is_none());
    assert!(config.world_config.package.package_cache_path.is_none());
    assert!(matches!(SerializationFormat::default(), SerializationFormat::Json));
}

#[test]
fn input_selection() {
    assert!(matches!(input_from_str("stdin"), Input::Stdin));
    assert!(matches!(input_from_str("document.typ"), Input::Path(_)));
    assert_eq!(input_from_str("stdin").to_display_string(), "stdin");
    assert_eq!(
        input_from_str("document.typ").to_display_string(),
        "document.typ",
    );
    assert_eq!(Output::Stdout.to_display_string(), "stdout");
}
