use dns_zone_lint::record::{parse_line, set_origin, ZoneContext};

#[test]
fn reprint_round_trip_with_an_absolute_origin() {
    let mut ctx = ZoneContext::default();
    set_origin(&mut ctx, "example.com.").unwrap();
    for line in ["@ 60 SOA ns1 admin 1 2 3 4 5", "www 60 CNAME @", "srv 1 SRV 1 2 3 target", "m 5 MX 1 mail"] {
        let r = parse_line(line, &ctx).unwrap();
        let again = parse_line(&r.to_string(), &ctx).unwrap();
        assert_eq!(again, r);
        assert_eq!(again.to_string(), r.to_string());
    }
}

#[test]
fn ttl_and_class_order_does_not_matter() {
    let ctx = ZoneContext::default();
    assert_eq!(
        parse_line("x. 3600 IN A 192.0.2.1", &ctx).unwrap(),
        parse_line("x. IN 3600 A 192.0.2.1", &ctx).unwrap()
    );
    assert_eq!(
        format!("{:?}", parse_line("x. 99999999999 IN A 192.0.2.1", &ctx).unwrap_err()),
        format!("{:?}", parse_line("x. IN 99999999999 A 192.0.2.1", &ctx).unwrap_err())
    );
}

#[test]
fn missing_class_reads_as_in() {
    let ctx = ZoneContext::default();
    assert_eq!(
        parse_line("x. 5 TXT \"hi\"", &ctx).unwrap(),
        parse_line("x. 5 IN TXT \"hi\"", &ctx).unwrap()
    );
}

#[test]
fn missing_ttl_reads_as_the_default() {
    let mut ctx = ZoneContext::default();
    ctx.default_ttl = Some(1800);
    assert_eq!(
        parse_line("x. NS ns1.x.", &ctx).unwrap(),
        parse_line("x. 1800 NS ns1.x.", &ctx).unwrap()
    );
}
