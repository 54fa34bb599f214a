use ip_extract::cidr::IpError;
use ip_extract::extract::{
    collect, collect_ipv6, format_clash, format_clash_ipv6, format_proxifier, CsvTrait,
    IpLocation,
};

fn rec(start: &str, end: &str, code: &str) -> IpLocation {
    IpLocation {
        ip_start: start.to_string(),
        ip_end: end.to_string(),
        country_code: code.to_string(),
        country_name: String::new(),
    }
}

#[test]
fn ip_location_new_test() {
    let rec = IpLocation::new("\"16777216\",\"16777471\",\"US\",\"United States\"".to_string())
        .unwrap();
    assert_eq!("16777216", rec.ip_start);
    assert_eq!("16777471", rec.ip_end);
    assert_eq!("US", rec.country_code);
    assert_eq!("United States", rec.country_name);
    assert!(IpLocation::new("\"1\",\"2\",\"US\"".to_string()).is_none());
    assert!(IpLocation::new("a,b,c,d,e".to_string()).is_none());
}

#[test]
fn collect_merges_consecutive_spans_test() {
    // four records attributed US, US, CN, US with CN excluded: the first
    // two merge into one span, the dropped record does not bridge the gap
    let list = vec![
        rec("16777216", "16777471", "US"),
        rec("16777472", "16778239", "US"),
        rec("16778240", "16779263", "CN"),
        rec("16779264", "16781311", "US"),
    ];
    let spans = collect(&list, "CN").unwrap();
    assert_eq!(
        vec![
            ("1.0.0.0".to_string(), "1.0.3.255".to_string()),
            ("1.0.8.0".to_string(), "1.0.15.255".to_string()),
        ],
        spans
    );
}

#[test]
fn collect_skips_placeholder_test() {
    // the "-" placeholder is always excluded, whatever the excluded code
    let list = vec![
        rec("0", "255", "-"),
        rec("256", "511", "US"),
        rec("512", "1023", "US"),
    ];
    let spans = collect(&list, "CN").unwrap();
    assert_eq!(vec![("0.0.1.0".to_string(), "0.0.3.255".to_string())], spans);
}

#[test]
fn collect_invalid_boundary_test() {
    let list = vec![rec("abc", "255", "US")];
    assert_eq!(Err(IpError::InvalidFormat), collect(&list, "CN"));
    // a huge numeral does not fit 32 bits
    let list = vec![rec("0", "4294967296", "US")];
    assert_eq!(Err(IpError::InvalidFormat), collect(&list, "CN"));
}

#[test]
fn collect_ipv6_mapped_band_test() {
    // a span starting inside ::ffff:0:0/96 renders as dotted quads of the
    // low 32 bits; one outside renders as eight-group IPv6 literals
    let list = vec![
        rec("281470681743360", "281470681743615", "US"),
        rec("281470681743616", "281470681744383", "CN"),
        rec("42540528726795050063891204319802818560", "42540528726795050063891204319802818561", "US"),
    ];
    let spans = collect_ipv6(&list, "CN").unwrap();
    assert_eq!(
        vec![
            ("0.0.0.0".to_string(), "0.0.0.255".to_string()),
            (
                "2001:200:0:0:0:0:0:0".to_string(),
                "2001:200:0:0:0:0:0:1".to_string()
            ),
        ],
        spans
    );
}

#[test]
fn collect_ipv6_invalid_boundary_test() {
    let list = vec![rec("not-a-number", "255", "US")];
    assert_eq!(Err(IpError::InvalidFormat), collect_ipv6(&list, "CN"));
}

#[test]
fn format_proxifier_test() {
    let list = vec![
        ("1.0.0.0".to_string(), "1.0.3.255".to_string()),
        ("1.0.8.0".to_string(), "1.0.15.255".to_string()),
    ];
    let expected = "\t\t<Rule enabled=\"true\">\n\t\t\t<Action type=\"Proxy\">100</Action>\n\t\t\t<Targets>1.0.0.0-1.0.3.255;1.0.8.0-1.0.15.255;</Targets>\n\t\t\t<Name>IP-PROXY-1</Name>\n\t\t</Rule>\n";
    assert_eq!(expected, format_proxifier(&list));
}

#[test]
fn format_clash_test() {
    let list = vec![
        ("1.0.0.0".to_string(), "1.0.3.255".to_string()),
        ("bad".to_string(), "range".to_string()),
        ("2.0.0.0".to_string(), "2.0.0.1".to_string()),
    ];
    let expected = "  - GEOIP,LAN,DIRECT\n  - IP-CIDR,1.0.0.0/22,auto\n  - IP-CIDR,2.0.0.0/31,auto\n  - MATCH,DIRECT\n";
    assert_eq!(expected, format_clash(&list));
}

#[test]
fn format_clash_ipv6_test() {
    let list = vec![
        ("1.0.0.0".to_string(), "1.0.3.255".to_string()),
        (
            "2001:200:0:0:0:0:0:0".to_string(),
            "2001:200:0:0:ffff:ffff:ffff:ffff".to_string(),
        ),
    ];
    let expected = "  - GEOIP,LAN,DIRECT\n  - IP-CIDR,1.0.0.0/22,auto\n  - IP-CIDR,2001:200:0:0:0:0:0:0/64,auto\n  - MATCH,DIRECT\n";
    assert_eq!(expected, format_clash_ipv6(&list));
}
