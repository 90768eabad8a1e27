use bakbuster::datetime::DateTime;
use bakbuster::stack_history_parser::{
    evaluate_entry, match_current_str, resolve_items, Attribute, XmlItem,
};
use bakbuster::{get_file_version_on, BBError, FileVersion, BAKTIMEFMT};
use chrono::NaiveDateTime;
use chrono::{Datelike, Local, Timelike};

const HISTORY: &str = r#"<stack_history path="/dd/facility/etc/bak/packages.xml/packages.xml_swinstall_stack">
    <elt is_current="False" version="20161213-093146_r575055" />
    <elt is_current="False" version="20181102-144204" />
    <elt is_current="True" version="20181105-103813" />
    <elt is_current="False" version="20181106-104603" />
</stack_history>"#;

fn at(year: i32, month: u32, day: u32, hour: u32, minute: u32, second: u32) -> DateTime {
    DateTime::new(year, month, day, hour, minute, second).unwrap()
}

fn now() -> DateTime {
    let n = Local::now().naive_local();
    at(n.year(), n.month(), n.day(), n.hour(), n.minute(), n.second())
}

#[test]
fn parse() {
    let result = get_file_version_on(HISTORY.as_bytes(), now());
    let expected = FileVersion::from_str("20181105-103813");
    assert_eq!(result, expected);
}

#[test]
fn parse_old() {
    let result = get_file_version_on(HISTORY.as_bytes(), at(2018, 11, 2, 14, 42, 4));
    let expected = FileVersion::from_str("20181102-144204");
    assert_eq!(result, expected);
}

#[test]
fn stack_history_parser_from_late() {
    let result = get_file_version_on(HISTORY.as_bytes(), at(2018, 11, 6, 10, 46, 3));
    let expected = FileVersion::from_str("20181105-103813");
    assert_eq!(result, expected);
}

#[test]
fn cutoff_between_entries_keeps_earlier_one() {
    let result = get_file_version_on(HISTORY.as_bytes(), at(2018, 11, 2, 14, 42, 3));
    assert_eq!(result, FileVersion::from_str("20161213-093146_r575055"));
}

#[test]
fn cutoff_before_every_entry_finds_none() {
    let result = get_file_version_on(HISTORY.as_bytes(), at(2016, 12, 13, 9, 31, 45));
    assert_eq!(result, Err(BBError::NoMatchingVersion));
    let exact = get_file_version_on(HISTORY.as_bytes(), at(2016, 12, 13, 9, 31, 46));
    assert_eq!(exact, FileVersion::from_str("20161213-093146_r575055"));
}

#[test]
fn missing_current_marker() {
    let xml = HISTORY.replace("True", "False");
    for cutoff in [at(2010, 1, 1, 0, 0, 0), at(2018, 11, 5, 10, 38, 13), now()] {
        assert_eq!(get_file_version_on(xml.as_bytes(), cutoff), Err(BBError::NoCurrentMarker));
    }
    let empty = r#"<stack_history></stack_history>"#;
    assert_eq!(get_file_version_on(empty.as_bytes(), now()), Err(BBError::NoCurrentMarker));
}

#[test]
fn document_order_not_latest_time_wins() {
    let xml = r#"<h>
    <elt is_current="False" version="20181105-103813" />
    <elt is_current="False" version="20161213-093146" />
    <elt is_current="true" version="20200101-000000" />
</h>"#;
    let result = get_file_version_on(xml.as_bytes(), at(2019, 1, 1, 0, 0, 0));
    assert_eq!(result, FileVersion::from_str("20161213-093146"));
}

#[test]
fn flag_after_version_attribute() {
    let xml = r#"<h><elt version="packages.xml.20181105-103813" is_current="true" /></h>"#;
    let result = get_file_version_on(xml.as_bytes(), now());
    assert_eq!(result, FileVersion::from_str("packages.xml.20181105-103813"));
}

#[test]
fn unknown_attribute_is_an_error() {
    let xml = r#"<h><elt is_current="True" version="20181105-103813" extra="1" /></h>"#;
    let result = get_file_version_on(xml.as_bytes(), now());
    assert!(matches!(result, Err(BBError::MalformedDocument(_))));
}

#[test]
fn missing_attribute_is_an_error() {
    let xml = r#"<h><elt is_current="True" /></h>"#;
    let result = get_file_version_on(xml.as_bytes(), now());
    assert!(matches!(result, Err(BBError::MalformedDocument(_))));
}

#[test]
fn bad_flag_is_an_error() {
    let xml = r#"<h><elt is_current="yes" version="20181105-103813" /></h>"#;
    let result = get_file_version_on(xml.as_bytes(), now());
    assert!(matches!(result, Err(BBError::MalformedDocument(_))));
}

#[test]
fn bad_version_is_a_parse_error() {
    let xml = r#"<h><elt is_current="False" version="20181305-103813" /><elt is_current="True" version="20181105-103813" /></h>"#;
    let result = get_file_version_on(xml.as_bytes(), now());
    assert!(matches!(result, Err(BBError::ParseError(_))));
}

#[test]
fn broken_xml_is_an_error() {
    let xml = r#"<h><elt is_current="False" version="20181105-103813" </h>"#;
    let result = get_file_version_on(xml.as_bytes(), now());
    assert!(matches!(result, Err(BBError::MalformedDocument(_))));
}

#[test]
fn text_after_current_entry_is_not_read() {
    let xml = r#"<h><elt is_current="True" version="20181105-103813" /><elt is_current="maybe" version="x" /> <<<"#;
    let result = get_file_version_on(xml.as_bytes(), now());
    assert_eq!(result, FileVersion::from_str("20181105-103813"));
}

#[test]
fn other_elements_are_skipped() {
    let xml = r#"<h><note anything="at all" /><elt is_current="True" version="20181105-103813" /></h>"#;
    let result = get_file_version_on(xml.as_bytes(), now());
    assert_eq!(result, FileVersion::from_str("20181105-103813"));
}

#[test]
fn match_current_str_accepts_four_words() {
    assert_eq!(match_current_str("True"), Ok(true));
    assert_eq!(match_current_str("true"), Ok(true));
    assert_eq!(match_current_str("False"), Ok(false));
    assert_eq!(match_current_str("false"), Ok(false));
    assert!(matches!(match_current_str("TRUE"), Err(BBError::MalformedDocument(_))));
    assert!(matches!(match_current_str(""), Err(BBError::MalformedDocument(_))));
}

fn attr(name: &str, value: &str) -> Attribute {
    Attribute { name: name.to_string(), value: value.to_string() }
}

#[test]
fn evaluate_entry_reads_both_attributes() {
    let attrs = vec![attr("is_current", "True"), attr("version", "20181105-103813")];
    let (current, version) = evaluate_entry(&attrs).unwrap();
    assert!(current);
    assert_eq!(Ok(version), FileVersion::from_str("20181105-103813"));
}

#[test]
fn resolve_items_from_events() {
    let items = vec![
        XmlItem::Other,
        XmlItem::Element { name: "h".to_string(), attributes: vec![] },
        XmlItem::Element {
            name: "elt".to_string(),
            attributes: vec![attr("is_current", "False"), attr("version", "20181102-144204")],
        },
        XmlItem::Element {
            name: "elt".to_string(),
            attributes: vec![attr("is_current", "True"), attr("version", "20181105-103813")],
        },
        XmlItem::Malformed { message: "never reached".to_string() },
    ];
    assert_eq!(resolve_items(&items, at(2018, 11, 3, 0, 0, 0)), FileVersion::from_str("20181102-144204"));
    assert_eq!(resolve_items(&items, at(2018, 11, 1, 0, 0, 0)), Err(BBError::NoMatchingVersion));
    let broken = vec![XmlItem::Malformed { message: "bad".to_string() }];
    assert_eq!(resolve_items(&broken, now()), Err(BBError::MalformedDocument("bad".to_string())));
}

#[test]
fn stack_history_parser_from_early() {
    let cutoff = NaiveDateTime::parse_from_str("20181102-144204", BAKTIMEFMT).unwrap();
    let cutoff = at(cutoff.year(), cutoff.month(), cutoff.day(), cutoff.hour(), cutoff.minute(), cutoff.second());
    let result = get_file_version_on(HISTORY.as_bytes(), cutoff);
    let expected = FileVersion::from_str("20181102-144204");
    assert_eq!(result, expected);
}

#[test]
fn bad_version_error_is_the_parsers() {
    let xml = r#"<h><elt is_current="True" version="20181305-103813" /></h>"#;
    let result = get_file_version_on(xml.as_bytes(), now());
    assert_eq!(result, FileVersion::from_str("20181305-103813"));
}
