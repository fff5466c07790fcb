use romtext::error::Error;
use romtext::record::StringRecord;
use romtext::sidecar::{
    escape_line_breaks, format_address, format_record, is_sidecar_safe, parse_address,
    parse_record, parse_sidecar, serialize, unescape_line_breaks,
};

fn rec(address: u32, text: &str) -> StringRecord {
    StringRecord { address, text: text.to_string() }
}

#[test]
fn line_break_is_escaped_and_restored() {
    let escaped = escape_line_breaks("foo\nbar");
    assert_eq!(escaped, "foo\\nbar");
    assert_eq!(escaped.chars().count(), 8);
    assert_eq!(unescape_line_breaks(&escaped), "foo\nbar");
}

#[test]
fn nothing_else_is_escaped() {
    assert_eq!(escape_line_breaks("a\tb\\c,d\r"), "a\tb\\c,d\r");
    assert_eq!(escape_line_breaks(""), "");
    assert_eq!(escape_line_breaks("\n\n"), "\\n\\n");
    assert_eq!(escape_line_breaks("日本\n語"), "日本\\n語");
}

#[test]
fn unescape_reads_from_left_to_right() {
    assert_eq!(unescape_line_breaks("\\\\n"), "\\\n");
    assert_eq!(unescape_line_breaks("\\"), "\\");
    assert_eq!(unescape_line_breaks("\\n\\n"), "\n\n");
    assert_eq!(unescape_line_breaks("a\\tb"), "a\\tb");
    assert_eq!(unescape_line_breaks(""), "");
}

#[test]
fn address_is_uppercase_hex_without_prefix() {
    assert_eq!(format_address(0), "0");
    assert_eq!(format_address(0xF), "F");
    assert_eq!(format_address(0x10), "10");
    assert_eq!(format_address(0x020d0938), "20D0938");
    assert_eq!(format_address(0xFFFF_FFFF), "FFFFFFFF");
}

#[test]
fn address_is_read_in_either_case() {
    assert_eq!(parse_address("20D0938"), Some(0x020d0938));
    assert_eq!(parse_address("20d0938"), Some(0x020d0938));
    assert_eq!(parse_address("0"), Some(0));
    assert_eq!(parse_address("00000000000ff"), Some(0xff));
    assert_eq!(parse_address("FFFFFFFF"), Some(0xFFFF_FFFF));
}

#[test]
fn bad_addresses_are_refused() {
    assert_eq!(parse_address(""), None);
    assert_eq!(parse_address("100000000"), None);
    assert_eq!(parse_address("FFFFFFFFFFFFFFFFFFFFFFFF"), None);
    assert_eq!(parse_address("0x10"), None);
    assert_eq!(parse_address("+10"), None);
    assert_eq!(parse_address("-1"), None);
    assert_eq!(parse_address("12G"), None);
    assert_eq!(parse_address(" 12"), None);
}

#[test]
fn record_line_has_address_comma_text() {
    assert_eq!(format_record(&rec(0x20D0938, "foo\nbar")), "20D0938,foo\\nbar");
    assert_eq!(format_record(&rec(0x1000, "")), "1000,");
    assert_eq!(format_record(&rec(0x1000, "a,b")), "1000,a,b");
}

#[test]
fn record_line_is_split_at_the_first_comma() {
    assert_eq!(parse_record("1000,a,b", 0), Ok(rec(0x1000, "a,b")));
    assert_eq!(parse_record("1000,", 0), Ok(rec(0x1000, "")));
    assert_eq!(parse_record("20D0938,foo\\nbar", 7), Ok(rec(0x20D0938, "foo\nbar")));
}

#[test]
fn line_without_comma_is_refused() {
    assert_eq!(parse_record("1000", 3), Err(Error::MissingSeparator { line: 3 }));
    assert_eq!(parse_record("", 0), Err(Error::MissingSeparator { line: 0 }));
}

#[test]
fn line_without_address_is_refused() {
    assert_eq!(parse_record(",text", 2), Err(Error::BadAddress { line: 2 }));
    assert_eq!(parse_record("xyz,text", 5), Err(Error::BadAddress { line: 5 }));
    assert_eq!(parse_record("100000000,text", 1), Err(Error::BadAddress { line: 1 }));
}

#[test]
fn sidecar_has_one_line_per_record() {
    let records = vec![rec(0x1000, "foo\nbar"), rec(0x1008, ""), rec(0xABCDEF, "日本語")];
    assert_eq!(serialize(&records), "1000,foo\\nbar\n1008,\nABCDEF,日本語\n");
    assert_eq!(serialize(&vec![]), "");
}

#[test]
fn sidecar_is_read_back() {
    let records = vec![rec(0x1000, "foo\nbar"), rec(0x1008, ""), rec(0xABCDEF, "日本語")];
    assert_eq!(parse_sidecar(&serialize(&records)), Ok(records));
    assert_eq!(parse_sidecar(""), Ok(vec![]));
}

#[test]
fn sidecar_lines_may_end_in_crlf_or_nothing() {
    assert_eq!(
        parse_sidecar("1000,a\r\n1008,b"),
        Ok(vec![rec(0x1000, "a"), rec(0x1008, "b")])
    );
    assert_eq!(parse_sidecar("1000,a\r"), Ok(vec![rec(0x1000, "a\r")]));
}

#[test]
fn sidecar_reports_the_first_bad_line() {
    assert_eq!(
        parse_sidecar("1000,a\nnonsense\n,b\n"),
        Err(Error::MissingSeparator { line: 1 })
    );
    assert_eq!(parse_sidecar("1000,a\n\n"), Err(Error::MissingSeparator { line: 1 }));
    assert_eq!(parse_sidecar("1000,a\nG,b\nnonsense"), Err(Error::BadAddress { line: 1 }));
}

#[test]
fn texts_that_the_sidecar_gives_back() {
    assert!(is_sidecar_safe(""));
    assert!(is_sidecar_safe("foo\nbar"));
    assert!(is_sidecar_safe("a\\b\rc"));
    assert!(is_sidecar_safe("n\\"));
    assert!(!is_sidecar_safe("a\\nb"));
    assert!(!is_sidecar_safe("\\n"));
    assert!(!is_sidecar_safe("a\r"));
    assert!(!is_sidecar_safe("\r"));
    for text in ["", "foo\nbar", "a\\b\rc", "n\\", "a\\nb", "a\r"] {
        let record = rec(0x1000, text);
        let back = parse_sidecar(&serialize(&vec![record.clone()]));
        assert_eq!(back == Ok(vec![record]), is_sidecar_safe(text));
    }
}
