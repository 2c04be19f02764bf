use qps_series::extract::{extract, scan_line};

fn line(s: &str) -> Vec<u8> {
    s.as_bytes().to_vec()
}

#[test]
fn extracts_valid_line() {
    let lines = vec![line(
        "47.100.64.252 - - [18/Mar/2025:00:00:04 +0800] \"GET / HTTP/1.1\" 404 236 \"-\" \"Mozilla/5.0\"",
    )];
    let ts = extract(&lines);
    assert_eq!(ts.timestamps.len(), 1);
    // 2025-03-18T00:00:04+08:00 is 2025-03-17T16:00:04Z
    assert_eq!(ts.timestamps[0].epoch_seconds, 1742227204);
    assert_eq!(ts.min.epoch_seconds, 1742227204);
    assert_eq!(ts.max.epoch_seconds, 1742227204);
}

#[test]
fn skips_line_without_brackets() {
    let lines = vec![line("no timestamp here at all")];
    let ts = extract(&lines);
    assert_eq!(ts.timestamps.len(), 0);
    assert!(ts.min.epoch_seconds > ts.max.epoch_seconds);
}

#[test]
fn skips_malformed_bracket_content() {
    let lines = vec![
        line("[99/Mar/2025:00:00:04 +0800] day out of range"),
        line("[18/Xyz/2025:00:00:04 +0800] no such month"),
        line("[18/Mar/2025:25:00:04 +0800] no such hour"),
        line("[18/Mar/2025:00:61:04 +0800] no such minute"),
        line("[00/Mar/2025:00:00:04 +0800] day zero"),
        line("[18-Mar-2025:00:00:04 +0800] wrong separators"),
        line("[18/Mar/2025:00:00:04 +2400] offset hours out of range"),
        line("[18/Mar/2025:00:00:04 -0860] offset minutes out of range"),
    ];
    let ts = extract(&lines);
    assert_eq!(ts.timestamps.len(), 0);
}

#[test]
fn month_abbreviation_is_case_insensitive() {
    let upper = scan_line(&line("[18/MAR/2025:00:00:04 +0800]")).unwrap();
    let mixed = scan_line(&line("[18/mar/2025:00:00:04 +0800]")).unwrap();
    assert_eq!(upper.epoch_seconds, 1742227204);
    assert_eq!(mixed.epoch_seconds, 1742227204);
}

#[test]
fn leap_year_rules() {
    // 2024 and 2000 are leap years; 2025 and 1900 are not.
    assert!(scan_line(&line("[29/Feb/2024:12:00:00 +0000]")).is_some());
    assert!(scan_line(&line("[29/Feb/2025:12:00:00 +0000]")).is_none());
    let y2000 = scan_line(&line("[29/Feb/2000:00:00:00 +0000]")).unwrap();
    assert_eq!(y2000.epoch_seconds, 951782400);
    assert!(scan_line(&line("[29/Feb/1900:12:00:00 +0000]")).is_none());
}

#[test]
fn offset_is_applied() {
    let east = scan_line(&line("[18/Mar/2025:00:00:04 +0800]")).unwrap();
    let utc_same_instant = scan_line(&line("[17/Mar/2025:16:00:04 +0000]")).unwrap();
    assert_eq!(east.epoch_seconds, utc_same_instant.epoch_seconds);
    let west = scan_line(&line("[18/Mar/2025:00:00:04 -0500]")).unwrap();
    assert_eq!(west.epoch_seconds, 1742274004);
}

#[test]
fn takes_leftmost_field_only() {
    // The leftmost structurally well-formed field decides; when its numbers
    // make no valid date the line is skipped even if a later field is fine.
    let later = scan_line(&line("xx [18/Mar/2025:00:00:04 +0000] tail")).unwrap();
    assert_eq!(later.epoch_seconds, 1742256004);
    let first_invalid = scan_line(&line(
        "[31/Feb/2025:00:00:00 +0000] then [18/Mar/2025:00:00:04 +0000]",
    ));
    assert!(first_invalid.is_none());
}

#[test]
fn min_max_over_several_lines() {
    let lines = vec![
        line("a [18/Mar/2025:00:00:05 +0000] x"),
        line("b [18/Mar/2025:00:00:01 +0000] y"),
        line("not a log line"),
        line("c [18/Mar/2025:00:00:03 +0000] z"),
    ];
    let ts = extract(&lines);
    assert_eq!(ts.len(), 3);
    assert_eq!(ts.timestamps.len(), 3);
    assert_eq!(ts.min.epoch_seconds, 1742256001);
    assert_eq!(ts.max.epoch_seconds, 1742256005);
}

#[test]
fn agrees_with_chrono_parsing() {
    let samples = [
        "18/Mar/2025:00:00:04 +0800",
        "29/Feb/2024:23:59:59 -1130",
        "01/Jan/1970:00:00:00 +0000",
        "31/Dec/2099:06:30:15 +0545",
        "15/Jul/1969:20:17:40 -0400",
    ];
    for s in samples {
        let dt = chrono::DateTime::parse_from_str(s, "%d/%b/%Y:%H:%M:%S %z").unwrap();
        let got = scan_line(&line(&format!("[{}]", s))).unwrap();
        assert_eq!(got.epoch_seconds, dt.timestamp(), "sample {}", s);
    }
}
