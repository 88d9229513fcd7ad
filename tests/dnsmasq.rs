use externaldns_webhook::dnsmasq::{
    config_digest, parse_config, render_config, ConfigError, Directive, DnsmasqConfig, Record,
};
use externaldns_webhook::domain_filter::DomainFilter;
use externaldns_webhook::endpoint::{Endpoint, RecordType};
use nonempty::NonEmpty;

fn ep(name: &str, targets: &[&str], record_type: RecordType, ttl: Option<u32>) -> Endpoint {
    Endpoint {
        dns_name: Some(name.to_string()),
        targets: Some(targets.iter().map(|t| t.to_string()).collect()),
        record_type: Some(record_type),
        set_identifier: None,
        record_ttl: ttl,
        labels: None,
        provider_specific: None,
    }
}

fn config(ip: Option<&str>, host: Option<&str>) -> DnsmasqConfig {
    DnsmasqConfig {
        domain_name: "example.com".to_string(),
        override_ip: ip.map(String::from),
        override_host: host.map(String::from),
    }
}

fn texts(ds: &[Directive]) -> Vec<String> {
    ds.iter().map(|d| d.record.render()).collect()
}

fn strings(v: &[&str]) -> Vec<String> {
    v.iter().map(|s| s.to_string()).collect()
}

#[test]
fn address_directive_text() {
    let r = Record::Address {
        domains: NonEmpty::from_vec(strings(&["a.example.com", "b.example.com"])).unwrap(),
        ip: "1.2.3.4".to_string(),
    };
    assert_eq!(r.render(), "address=/a.example.com/b.example.com/1.2.3.4");
}

#[test]
fn cname_directive_text() {
    let r = Record::Cname {
        cnames: NonEmpty::from_vec(strings(&["a.example.com", "b.example.com"])).unwrap(),
        target: "c.example.com".to_string(),
        ttl: Some(300),
    };
    assert_eq!(r.render(), "cname=a.example.com,b.example.com,c.example.com,300");
    let r = Record::Cname {
        cnames: NonEmpty::from_vec(strings(&["a.example.com"])).unwrap(),
        target: "c.example.com".to_string(),
        ttl: None,
    };
    assert_eq!(r.render(), "cname=a.example.com,c.example.com");
}

#[test]
fn ttl_is_written_in_decimal() {
    let r = Record::Cname {
        cnames: NonEmpty::from_vec(strings(&["a"])).unwrap(),
        target: "t".to_string(),
        ttl: Some(4294967295),
    };
    assert_eq!(r.render(), "cname=a,t,4294967295");
    let r = Record::Cname {
        cnames: NonEmpty::from_vec(strings(&["a"])).unwrap(),
        target: "t".to_string(),
        ttl: Some(0),
    };
    assert_eq!(r.render(), "cname=a,t,0");
}

#[test]
fn txt_and_ptr_directive_text() {
    let r = Record::TxtRecord { name: "t.example.com".to_string(), texts: Some(strings(&["x", "y z"])) };
    assert_eq!(r.render(), "txt-record=t.example.com,\"x\",\"y z\"");
    let r = Record::TxtRecord { name: "t.example.com".to_string(), texts: None };
    assert_eq!(r.render(), "txt-record=t.example.com");
    let r = Record::PtrRecord { name: "4.3.2.1.in-addr.arpa".to_string(), target: Some("h.example.com".to_string()) };
    assert_eq!(r.render(), "ptr-record=4.3.2.1.in-addr.arpa,h.example.com");
}

#[test]
fn cnames_with_same_target_and_ttl_share_one_directive() {
    let eps = vec![
        ep("a.example.com", &["c.example.com"], RecordType::CNAME, Some(300)),
        ep("b.example.com", &["c.example.com"], RecordType::CNAME, Some(300)),
    ];
    let ds = config(None, None).project(&eps);
    assert_eq!(texts(&ds), vec!["cname=a.example.com,b.example.com,c.example.com,300"]);
    assert_eq!(ds[0].owner, 0);
}

#[test]
fn cnames_with_different_ttl_stay_apart() {
    let eps = vec![
        ep("a.example.com", &["c.example.com"], RecordType::CNAME, Some(300)),
        ep("b.example.com", &["c.example.com"], RecordType::CNAME, Some(60)),
    ];
    let ds = config(None, None).project(&eps);
    assert_eq!(
        texts(&ds),
        vec!["cname=a.example.com,c.example.com,300", "cname=b.example.com,c.example.com,60"]
    );
}

#[test]
fn cname_override_groups_by_ttl_only() {
    let eps = vec![
        ep("a.example.com", &["x.example.com"], RecordType::CNAME, Some(300)),
        ep("b.example.com", &["y.example.com"], RecordType::CNAME, Some(300)),
        ep("c.example.com", &["y.example.com"], RecordType::CNAME, None),
    ];
    let ds = config(None, Some("gw.example.com")).project(&eps);
    assert_eq!(
        texts(&ds),
        vec!["cname=a.example.com,b.example.com,gw.example.com,300", "cname=c.example.com,gw.example.com"]
    );
    assert_eq!(ds[1].owner, 2);
}

#[test]
fn addresses_are_grouped_by_target() {
    let eps = vec![
        ep("a.example.com", &["1.1.1.1", "2.2.2.2"], RecordType::A, None),
        ep("b.example.com", &["1.1.1.1"], RecordType::A, None),
        ep("c.example.com", &["::1"], RecordType::AAAA, None),
    ];
    let ds = config(None, None).project(&eps);
    assert_eq!(
        texts(&ds),
        vec![
            "address=/a.example.com/b.example.com/1.1.1.1",
            "address=/a.example.com/2.2.2.2",
            "address=/c.example.com/::1",
        ]
    );
}

#[test]
fn address_override_collapses_all_names() {
    let eps = vec![
        ep("a.example.com", &["1.1.1.1"], RecordType::A, None),
        ep("b.example.com", &["::2"], RecordType::AAAA, None),
        ep("n.example.com", &["c.example.com"], RecordType::CNAME, None),
    ];
    let ds = config(Some("10.0.0.1"), None).project(&eps);
    assert_eq!(
        texts(&ds),
        vec!["address=/a.example.com/b.example.com/10.0.0.1", "cname=n.example.com,c.example.com"]
    );
}

#[test]
fn ptr_uses_first_target_and_skips_targetless() {
    let mut no_targets = ep("2.in-addr.arpa", &[], RecordType::PTR, None);
    no_targets.targets = None;
    let eps = vec![
        ep("1.in-addr.arpa", &["a.example.com", "b.example.com"], RecordType::PTR, None),
        no_targets,
        ep("3.in-addr.arpa", &[], RecordType::PTR, None),
        ep("t.example.com", &["hello"], RecordType::TXT, None),
        ep("s.example.com", &["0 5 5060 sip.example.com"], RecordType::SRV, None),
    ];
    let ds = config(None, None).project(&eps);
    assert_eq!(
        texts(&ds),
        vec!["ptr-record=1.in-addr.arpa,a.example.com", "txt-record=t.example.com,\"hello\""]
    );
    assert_eq!(ds[0].owner, 0);
    assert_eq!(ds[1].owner, 3);
}

#[test]
fn written_configuration_reads_back() {
    let eps = vec![ep("foo.example.com", &["1.2.3.4"], RecordType::A, None)];
    let enc = r#"{"dnsName":"foo.example.com","targets":["1.2.3.4"],"recordType":"A"}"#.to_string();
    let text = config(None, None).write_config(&eps, &vec![enc.clone()]).unwrap();
    assert_eq!(text, format!("# {enc}\naddress=/foo.example.com/1.2.3.4\n\n"));
    assert_eq!(parse_config(&text).unwrap(), vec![enc]);
}

#[test]
fn grouped_directive_follows_its_first_source() {
    let eps = vec![
        ep("a.example.com", &["c.example.com"], RecordType::CNAME, Some(300)),
        ep("b.example.com", &["c.example.com"], RecordType::CNAME, Some(300)),
    ];
    let encs = strings(&["{\"a\"}", "{\"b\"}"]);
    let text = config(None, None).write_config(&eps, &encs).unwrap();
    assert_eq!(
        text,
        "# {\"a\"}\ncname=a.example.com,b.example.com,c.example.com,300\n\n# {\"b\"}\n\n"
    );
    assert_eq!(parse_config(&text).unwrap(), encs);
}

#[test]
fn empty_record_set_round_trip() {
    let text = config(None, None).write_config(&vec![], &vec![]).unwrap();
    assert_eq!(text, "");
    assert_eq!(parse_config(&text).unwrap().len(), 0);
}

#[test]
fn block_without_encoding_is_corrupt() {
    let text = "# {}\naddress=/a/1.1.1.1\n\naddress=/b/2.2.2.2\n\n";
    assert_eq!(parse_config(text), Err(ConfigError::MissingEncoding));
    assert_eq!(parse_config("cname=a,b"), Err(ConfigError::MissingEncoding));
}

#[test]
fn encodings_are_read_past_extra_blank_lines() {
    assert_eq!(parse_config("\n\n# x\n\n\n# y\nptr-record=a,b").unwrap(), strings(&["x", "y"]));
}

#[test]
fn encoding_count_and_line_breaks_are_checked() {
    let eps = vec![ep("a.example.com", &["1.1.1.1"], RecordType::A, None)];
    let c = config(None, None);
    assert_eq!(c.write_config(&eps, &vec![]), Err(ConfigError::EncodingCount));
    assert_eq!(c.write_config(&eps, &strings(&["x\ny"])), Err(ConfigError::MultilineEncoding));
    assert_eq!(render_config(&strings(&["x\n"]), &vec![]), Err(ConfigError::MultilineEncoding));
}

#[test]
fn directive_spanning_lines_is_left_out() {
    let eps = vec![ep("t.example.com", &["a\nb"], RecordType::TXT, None)];
    let text = config(None, None).write_config(&eps, &strings(&["e"])).unwrap();
    assert_eq!(text, "# e\n\n");
}

#[test]
fn digest_is_sha512_of_the_text() {
    let d = config_digest("abc");
    let hex: String = d.iter().map(|b| format!("{b:02x}")).collect();
    assert_eq!(
        hex,
        "ddaf35a193617abacc417349ae20413112e6fa4e89a97ea20a9eeee64b55d39a2192992a274fc1a836ba3c23a3feebbd454d4423643ce80e2a9ac94fa54ca49f"
    );
}

#[test]
fn domain_filter_claims_the_domain() {
    match config(None, None).domain_filter() {
        DomainFilter::Strings { included, excluded } => {
            assert_eq!(included, Some(vec!["example.com".to_string()]));
            assert!(excluded.is_none());
        }
        _ => panic!("wrong variant"),
    }
}
