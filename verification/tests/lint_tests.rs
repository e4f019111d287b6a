use dns_zone_lint::lint::lint_zone;
use dns_zone_lint::record::{ParseError, RecordData};
use dns_zone_lint::zone::ZoneIssue;

fn lines(text: &str) -> Vec<String> {
    text.lines().map(|l| l.to_string()).collect()
}

#[test]
fn lints_a_zone_with_directives_comments_and_bad_lines() {
    let report = lint_zone(&lines(
        "; a comment\n\
         $ORIGIN example.com.\n\
         $ttl 300\n\
         \n\
         @ IN SOA ns1 admin 1 2 3 4 5\n\
         www A 192.0.2.1\n\
         bad A not-an-ip\n\
         $TTL abc\n\
         mail 60 MX 10 mx.other.\n",
    ));
    assert_eq!(report.records.len(), 3);
    assert_eq!(report.records[0].name, "example.com.");
    assert_eq!(report.records[0].ttl, 300);
    assert!(matches!(&report.records[0].data, RecordData::Soa { mname, .. } if mname == "ns1.example.com."));
    assert_eq!(report.records[1].name, "www.example.com.");
    assert_eq!(report.records[2].ttl, 60);
    assert_eq!(report.errors.len(), 2);
    assert_eq!(report.errors[0].line, 7);
    assert!(matches!(&report.errors[0].error, ParseError::BadAddress(s) if s == "not-an-ip"));
    assert_eq!(report.errors[1].line, 8);
    assert!(matches!(&report.errors[1].error, ParseError::BadTtl(s) if s == "abc"));
    assert!(report.issues.is_empty());
}

#[test]
fn lint_reports_zone_issues() {
    let report = lint_zone(&lines("a. 1 A 192.0.2.1\n"));
    assert!(matches!(report.issues.as_slice(), [ZoneIssue::NoSoa]));
}

#[test]
fn bad_origin_directive_is_reported_and_ignored() {
    let report = lint_zone(&lines("$ORIGIN -bad-\nwww 1 A 192.0.2.1\n"));
    assert_eq!(report.errors.len(), 1);
    assert_eq!(report.errors[0].line, 1);
    assert_eq!(report.records[0].name, "www");
}
