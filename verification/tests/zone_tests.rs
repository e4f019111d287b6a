use dns_zone_lint::record::{check_zone, Record, RecordData, ZoneIssue};

fn soa_record(name: &str) -> Record {
    Record {
        name: name.to_string(),
        ttl: 3600,
        data: RecordData::Soa {
            mname: "ns1.example.com.".to_string(),
            rname: "admin.example.com.".to_string(),
            serial: 1,
            refresh: 7200,
            retry: 3600,
            expire: 1_209_600,
            minimum: 3600,
        },
    }
}

fn a_record(name: &str) -> Record {
    Record { name: name.to_string(), ttl: 3600, data: RecordData::A([192, 0, 2, 1]) }
}

fn cname_record(name: &str, target: &str) -> Record {
    Record { name: name.to_string(), ttl: 3600, data: RecordData::Cname(target.to_string()) }
}

#[test]
fn zone_flags_missing_soa() {
    let records = vec![a_record("example.com.")];
    assert!(matches!(check_zone(&records).as_slice(), [ZoneIssue::NoSoa]));
}

#[test]
fn zone_flags_multiple_soa() {
    let records = vec![soa_record("example.com."), soa_record("example.org.")];
    let issues = check_zone(&records);
    assert!(matches!(issues.as_slice(), [ZoneIssue::MultipleSoa(names)] if names.len() == 2));
}

#[test]
fn zone_flags_cname_conflict() {
    let records = vec![
        soa_record("example.com."),
        cname_record("www.example.com.", "example.com."),
        a_record("www.example.com."),
    ];
    let issues = check_zone(&records);
    assert!(matches!(issues.as_slice(), [ZoneIssue::CnameConflict(name)] if name == "www.example.com."));
}

#[test]
fn zone_with_soa_and_no_conflicts_has_no_issues() {
    let records = vec![soa_record("example.com."), a_record("www.example.com.")];
    assert!(check_zone(&records).is_empty());
}

#[test]
fn multiple_soa_names_keep_record_order() {
    let records = vec![soa_record("b.example."), a_record("x."), soa_record("a.example.")];
    let issues = check_zone(&records);
    match issues.as_slice() {
        [ZoneIssue::MultipleSoa(names)] => assert_eq!(names, &vec!["b.example.".to_string(), "a.example.".to_string()]),
        _ => panic!("unexpected issues"),
    }
}

#[test]
fn conflicts_come_sorted_by_name_once_each() {
    let records = vec![
        soa_record("example.com."),
        cname_record("z.example.com.", "example.com."),
        a_record("z.example.com."),
        a_record("z.example.com."),
        cname_record("b.example.com.", "example.com."),
        cname_record("b.example.com.", "other.example.com."),
        cname_record("lonely.example.com.", "example.com."),
    ];
    let issues = check_zone(&records);
    let names: Vec<String> = issues
        .iter()
        .map(|i| match i {
            ZoneIssue::CnameConflict(n) => n.clone(),
            _ => panic!("unexpected issue"),
        })
        .collect();
    assert_eq!(names, vec!["b.example.com.".to_string(), "z.example.com.".to_string()]);
}

#[test]
fn no_records_means_no_soa() {
    let records: Vec<Record> = Vec::new();
    assert!(matches!(check_zone(&records).as_slice(), [ZoneIssue::NoSoa]));
}

#[test]
fn issue_messages() {
    assert_eq!(ZoneIssue::NoSoa.to_string(), "zone: no SOA record found");
    assert_eq!(
        ZoneIssue::MultipleSoa(vec!["a.".to_string(), "b.".to_string()]).to_string(),
        "zone: multiple SOA records (a., b.)"
    );
    assert_eq!(
        ZoneIssue::CnameConflict("www.".to_string()).to_string(),
        "zone: 'www.' has a CNAME alongside other records at the same name"
    );
}
