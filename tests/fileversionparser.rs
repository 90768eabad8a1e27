use bakbuster::datetime::DateTime;
use bakbuster::fileversionparser::FileVersionParser;
use bakbuster::{BBError, FileVersion, BAKTIMEFMT, CTIMEFMT, STDTIMEFMT};

fn at(year: i32, month: u32, day: u32, hour: u32, minute: u32, second: u32) -> DateTime {
    DateTime::new(year, month, day, hour, minute, second).unwrap()
}

fn is_parse_error(r: &Result<FileVersion, BBError>) -> bool {
    matches!(r, Err(BBError::ParseError(_)))
}

#[test]
fn parse_file_version() {
    let fvstr = "packages.xml.20181105-103813";
    let fv = FileVersion::from_str(&fvstr);
    let expect = FileVersion {
        name: "packages".to_string(),
        extension: "xml".to_string(),
        date_time: at(2018, 11, 5, 10, 38, 13),
        revision: None,
    };
    assert_eq!(fv, Ok(expect));
}

#[test]
fn parse_file_version_revision() {
    let fvstr = "packages.xml.20181105-103813_r12431345";
    let fv = FileVersion::from_str(&fvstr);
    let expect = FileVersion {
        name: "packages".to_string(),
        extension: "xml".to_string(),
        date_time: at(2018, 11, 5, 10, 38, 13),
        revision: Some("12431345".to_string()),
    };
    assert_eq!(fv, Ok(expect));
}

#[test]
fn parse_bare_version_with_revision() {
    let fv = FileVersionParser::parse("20161213-093146_r575055").unwrap();
    assert_eq!(fv.name, "");
    assert_eq!(fv.extension, "");
    assert_eq!(fv.date_time, at(2016, 12, 13, 9, 31, 46));
    assert_eq!(fv.revision, Some("575055".to_string()));
}

#[test]
fn new_keeps_its_parts() {
    let fv = FileVersion::new(
        "packages".to_string(),
        "xml".to_string(),
        at(2018, 11, 5, 10, 38, 13),
        None,
    );
    assert_eq!(fv, FileVersion::from_str("packages.xml.20181105-103813").unwrap());
}

#[test]
fn encode_then_parse_round_trips() {
    for text in [
        "packages.xml.20181105-103813",
        "packages.xml.20181105-103813_r575055",
        "a.b.00010101-000000",
    ] {
        let fv = FileVersion::from_str(text).unwrap();
        assert_eq!(fv.encode(), text);
        assert_eq!(FileVersion::from_str(&fv.encode()), Ok(fv));
    }
}

#[test]
fn encode_pads_fields() {
    let fv = FileVersion::new("f".to_string(), "txt".to_string(), at(987, 1, 2, 3, 4, 5), Some("7".to_string()));
    assert_eq!(fv.encode(), "f.txt.09870102-030405_r7");
    let bare = FileVersion::new(String::new(), String::new(), at(2018, 11, 2, 14, 42, 4), None);
    assert_eq!(bare.encode(), "20181102-144204");
}

#[test]
fn to_string_renders_for_display() {
    let fv = FileVersion::from_str("packages.xml.20181105-103813_r575055").unwrap();
    assert_eq!(fv.to_string(), "(packages.xml.20181105103813_r575055)");
    let plain = FileVersion::from_str("packages.xml.20180102-030405").unwrap();
    assert_eq!(plain.to_string(), "(packages.xml.20180102030405)");
}

#[test]
fn earlier_version_compares_less() {
    let a = FileVersion::from_str("packages.xml.20181102-144204").unwrap();
    let b = FileVersion::from_str("packages.xml.20181105-103813").unwrap();
    assert!(a < b);
    assert!(!(b < a));
    let ra = FileVersion::from_str("packages.xml.20181105-103813_r1").unwrap();
    let rb = FileVersion::from_str("packages.xml.20181106-103813_r1").unwrap();
    assert!(ra < rb);
    assert_eq!(ra.partial_cmp(&rb), Some(std::cmp::Ordering::Less));
    assert_eq!(ra.partial_cmp(&rb), Some(ra.cmp(&rb)));
}

#[test]
fn order_by_name_then_revision() {
    let a = FileVersion::from_str("alpha.xml.20191105-103813").unwrap();
    let b = FileVersion::from_str("beta.xml.20181105-103813").unwrap();
    assert!(a < b);
    let none = FileVersion::from_str("a.b.20181105-103813").unwrap();
    let some = FileVersion::from_str("a.b.20181105-103813_r1").unwrap();
    assert!(none < some);
    assert_eq!(none.partial_cmp(&some), Some(none.cmp(&some)));
}

#[test]
fn rejects_month_thirteen() {
    assert!(is_parse_error(&FileVersion::from_str("packages.xml.20181305-103813")));
    assert!(is_parse_error(&FileVersion::from_str("20181305-103813")));
}

#[test]
fn rejects_impossible_days_and_times() {
    assert!(is_parse_error(&FileVersion::from_str("packages.xml.20180230-103813")));
    assert!(is_parse_error(&FileVersion::from_str("packages.xml.20190229-103813")));
    assert!(is_parse_error(&FileVersion::from_str("packages.xml.20181105-243813")));
    assert!(is_parse_error(&FileVersion::from_str("packages.xml.20181105-106013")));
    assert!(is_parse_error(&FileVersion::from_str("packages.xml.20181105-103860")));
    assert!(is_parse_error(&FileVersion::from_str("packages.xml.20181100-103813")));
    assert!(FileVersion::from_str("packages.xml.20160229-103813").is_ok());
}

#[test]
fn rejects_malformed_shapes() {
    for text in [
        "",
        "packages.20181105-103813",
        ".xml.20181105-103813",
        "packages..20181105-103813",
        "a.b.c.20181105-103813",
        "packages.xml.20181105103813",
        "packages.xml.2018110-103813",
        "packages.xml.20181105-103813_r",
        "packages.xml.20181105-103813_rx1",
        "packages.xml.20181105-103813r1",
        " 20181105-103813",
        "20181105-103813 ",
    ] {
        assert!(is_parse_error(&FileVersion::from_str(text)), "{}", text);
    }
}

#[test]
fn date_time_checks_the_calendar() {
    assert!(DateTime::new(2018, 13, 1, 0, 0, 0).is_none());
    assert!(DateTime::new(2018, 4, 31, 0, 0, 0).is_none());
    assert!(DateTime::new(2000, 2, 29, 0, 0, 0).is_some());
    assert!(DateTime::new(1900, 2, 29, 0, 0, 0).is_none());
    assert!(DateTime::new(2018, 1, 1, 23, 59, 60).is_none());
    assert!(DateTime::new(400000, 1, 1, 0, 0, 0).is_none());
    let a = at(2018, 11, 2, 14, 42, 4);
    let b = at(2018, 11, 2, 14, 42, 5);
    assert!(a.le(&b) && a.le(&a) && !b.le(&a));
}

#[test]
fn parse_error_names_input_and_cause() {
    match FileVersion::from_str("packages.xml.20181305-103813") {
        Err(BBError::ParseError(msg)) => {
            assert_eq!(
                msg,
                "unable to parse 'packages.xml.20181305-103813': not a version of the form [name.extension.]YYYYMMDD-HHMMSS[_rN] with a date and time that exist"
            );
        }
        other => panic!("unexpected {:?}", other),
    }
}

#[test]
fn time_formats() {
    assert_eq!(STDTIMEFMT, "%Y-%m-%d %H:%M:%S");
    assert_eq!(BAKTIMEFMT, "%Y%m%d-%H%M%S");
    assert_eq!(CTIMEFMT, "%a %b %d %H:%M:%S %Y");
}
