use rusturl::ParseError;
use rusturl::host::Host;
use rusturl::ipv6::Ipv6Address;
use rusturl::percent::{percent_decode, percent_encode_bytes, EncodeSet};
use rusturl::url::{SchemeData, SchemeRelativeUrl, Url, UserInfo};

fn domain(labels: &[&str]) -> Host {
    Host::Domain(labels.iter().map(|l| l.to_string()).collect())
}

fn relative_url(
    userinfo: Option<UserInfo>,
    host: Host,
    port: &str,
    path: &[&str],
) -> Url {
    Url {
        scheme: "http".to_string(),
        scheme_data: SchemeData::RelativeSchemeData(SchemeRelativeUrl {
            userinfo,
            host,
            port: port.to_string(),
            path: path.iter().map(|p| p.to_string()).collect(),
        }),
        query: None,
        fragment: None,
    }
}

#[test]
fn ipv6_loopback_parses_and_round_trips() {
    let a = Ipv6Address::parse("::1").unwrap();
    assert_eq!(a.pieces, [0, 0, 0, 0, 0, 0, 0, 1]);
    assert_eq!(a.serialize(), "::1");
}

#[test]
fn ipv6_all_zero_parses_and_round_trips() {
    let a = Ipv6Address::parse("::").unwrap();
    assert_eq!(a.pieces, [0, 0, 0, 0, 0, 0, 0, 0]);
    assert_eq!(a.serialize(), "::");
}

#[test]
fn ipv6_doc_prefix_round_trips() {
    let a = Ipv6Address::parse("2001:db8::1").unwrap();
    assert_eq!(a.pieces, [0x2001, 0xdb8, 0, 0, 0, 0, 0, 1]);
    assert_eq!(a.serialize(), "2001:db8::1");
}

#[test]
fn ipv6_embedded_ipv4_parses() {
    let a = Ipv6Address::parse("::ffff:192.0.2.1").unwrap();
    assert_eq!(a.pieces, [0, 0, 0, 0, 0, 0xffff, 0xc000, 0x0201]);
}

#[test]
fn ipv6_embedded_ipv4_serializes_as_hex_groups() {
    let a = Ipv6Address::parse("::ffff:192.0.2.1").unwrap();
    assert_eq!(a.serialize(), "::ffff:c000:201");
}

#[test]
fn ipv6_full_address_round_trips() {
    let a = Ipv6Address::parse("1:2:3:4:5:6:7:8").unwrap();
    assert_eq!(a.pieces, [1, 2, 3, 4, 5, 6, 7, 8]);
    assert_eq!(a.serialize(), "1:2:3:4:5:6:7:8");
}

#[test]
fn ipv6_zero_run_tie_break_compresses_leftmost() {
    let a = Ipv6Address {
        pieces: [0, 0, 1, 0, 0, 1, 2, 3],
    };
    assert_eq!(a.serialize(), "::1:0:0:1:2:3");
}

#[test]
fn ipv6_lone_zero_group_is_not_compressed() {
    let a = Ipv6Address {
        pieces: [1, 0, 2, 3, 4, 5, 6, 7],
    };
    assert_eq!(a.serialize(), "1:0:2:3:4:5:6:7");
}

#[test]
fn ipv6_trailing_zero_run_compresses() {
    let a = Ipv6Address::parse("1::").unwrap();
    assert_eq!(a.pieces, [1, 0, 0, 0, 0, 0, 0, 0]);
    assert_eq!(a.serialize(), "1::");
}

#[test]
fn ipv6_malformed_literals_are_rejected() {
    for bad in [
        "", ":", ":::", "1:", "1:2", "1::2::3", "::1::", "1:2:3:4:5:6:7:8:9", "12345::",
        "g::", "::ffff:1.2.3", "::ffff:1.2.3.4.5", "::ffff:256.0.0.1", "::ffff:1..2.3",
        "1.2.3.4", "::ffff:1.2.3.4x", "1:2:3:4:5:6:7:1.2.3.4",
    ] {
        assert_eq!(
            Ipv6Address::parse(bad),
            Err(ParseError::InvalidIpv6Address),
            "input {:?} should be rejected",
            bad
        );
    }
}

#[test]
fn ipv6_ipv4_suffix_with_six_groups_is_accepted() {
    let a = Ipv6Address::parse("1:2:3:4:5:6:1.2.3.4").unwrap();
    assert_eq!(a.pieces, [1, 2, 3, 4, 5, 6, 0x0102, 0x0304]);
}

#[test]
fn ipv6_upper_case_hex_is_accepted_and_serialized_lower() {
    let a = Ipv6Address::parse("FFFF::A").unwrap();
    assert_eq!(a.pieces, [0xffff, 0, 0, 0, 0, 0, 0, 0xa]);
    assert_eq!(a.serialize(), "ffff::a");
}

#[test]
fn ipv6_leading_zeros_in_groups_are_dropped() {
    let a = Ipv6Address::parse("0001:0:0:0:0:0:0:0db8").unwrap();
    assert_eq!(a.pieces, [1, 0, 0, 0, 0, 0, 0, 0xdb8]);
    assert_eq!(a.serialize(), "1::db8");
}

#[test]
fn percent_encode_space_by_policy() {
    let space = [0x20u8];
    assert_eq!(percent_encode_bytes(&space, EncodeSet::SimpleEncodeSet), b" ");
    assert_eq!(percent_encode_bytes(&space, EncodeSet::DefaultEncodeSet), b"%20");
    assert_eq!(percent_encode_bytes(&space, EncodeSet::UserInfoEncodeSet), b"%20");
    assert_eq!(percent_encode_bytes(&space, EncodeSet::PasswordEncodeSet), b"%20");
    assert_eq!(percent_encode_bytes(&space, EncodeSet::UsernameEncodeSet), b"%20");
}

#[test]
fn percent_encode_at_sign_by_policy() {
    let at = [0x40u8];
    assert_eq!(percent_encode_bytes(&at, EncodeSet::SimpleEncodeSet), b"@");
    assert_eq!(percent_encode_bytes(&at, EncodeSet::DefaultEncodeSet), b"@");
    assert_eq!(percent_encode_bytes(&at, EncodeSet::UserInfoEncodeSet), b"%40");
    assert_eq!(percent_encode_bytes(&at, EncodeSet::PasswordEncodeSet), b"%40");
    assert_eq!(percent_encode_bytes(&at, EncodeSet::UsernameEncodeSet), b"%40");
}

#[test]
fn percent_encode_slash_backslash_colon_by_policy() {
    let slash = [0x2Fu8];
    assert_eq!(percent_encode_bytes(&slash, EncodeSet::UserInfoEncodeSet), b"/");
    assert_eq!(percent_encode_bytes(&slash, EncodeSet::PasswordEncodeSet), b"%2F");
    assert_eq!(percent_encode_bytes(&slash, EncodeSet::UsernameEncodeSet), b"%2F");
    let backslash = [0x5Cu8];
    assert_eq!(percent_encode_bytes(&backslash, EncodeSet::PasswordEncodeSet), b"%5C");
    let colon = [0x3Au8];
    assert_eq!(percent_encode_bytes(&colon, EncodeSet::PasswordEncodeSet), b":");
    assert_eq!(percent_encode_bytes(&colon, EncodeSet::UsernameEncodeSet), b"%3A");
}

#[test]
fn percent_encode_controls_and_high_bytes_always() {
    let bytes = [0x00u8, 0x1F, 0x7F, 0xFF];
    assert_eq!(
        percent_encode_bytes(&bytes, EncodeSet::SimpleEncodeSet),
        b"%00%1F%7F%FF"
    );
}

#[test]
fn percent_decode_undoes_encode() {
    let input = b"a b/c:d\x7f\xff";
    for set in [
        EncodeSet::SimpleEncodeSet,
        EncodeSet::DefaultEncodeSet,
        EncodeSet::UserInfoEncodeSet,
        EncodeSet::PasswordEncodeSet,
        EncodeSet::UsernameEncodeSet,
    ] {
        let encoded = percent_encode_bytes(input, set);
        assert_eq!(percent_decode(&encoded), input);
    }
}

#[test]
fn percent_decode_valid_escape() {
    assert_eq!(percent_decode(b"%2F"), b"/");
    assert_eq!(percent_decode(b"a%62c"), b"abc");
}

#[test]
fn percent_decode_malformed_escapes_pass_through() {
    assert_eq!(percent_decode(b"%2"), b"%2");
    assert_eq!(percent_decode(b"%zz"), b"%zz");
    assert_eq!(percent_decode(b"100%"), b"100%");
}

#[test]
fn domain_splits_on_full_width_full_stop() {
    let fancy = Host::parse("example\u{FF61}com").unwrap();
    let plain = Host::parse("example.com").unwrap();
    for host in [fancy, plain] {
        match host {
            Host::Domain(labels) => {
                assert_eq!(labels, vec!["example".to_string(), "com".to_string()]);
            }
            Host::Ipv6(_) => panic!("expected a domain"),
        }
    }
}

#[test]
fn domain_percent_escapes_decode_into_labels() {
    match Host::parse("a%62c").unwrap() {
        Host::Domain(labels) => assert_eq!(labels, vec!["abc".to_string()]),
        Host::Ipv6(_) => panic!("expected a domain"),
    }
}

#[test]
fn non_ascii_domain_label_is_rejected() {
    assert_eq!(
        Host::parse("caf\u{E9}.example"),
        Err(ParseError::UnsupportedIdnaDomain)
    );
}

#[test]
fn empty_host_is_rejected() {
    assert_eq!(Host::parse(""), Err(ParseError::EmptyHost));
}

#[test]
fn unclosed_bracket_is_invalid_literal() {
    assert_eq!(Host::parse("[::1"), Err(ParseError::InvalidIpv6Literal));
    assert_eq!(Host::parse("["), Err(ParseError::InvalidIpv6Literal));
}

#[test]
fn bracketed_garbage_is_invalid_address() {
    assert_eq!(Host::parse("[zz]"), Err(ParseError::InvalidIpv6Address));
    assert_eq!(Host::parse("[]"), Err(ParseError::InvalidIpv6Address));
}

#[test]
fn host_serialize_round_trips() {
    for text in ["example.com", "a.b.c", "[::1]", "[2001:db8::1]"] {
        let host = Host::parse(text).unwrap();
        let serialized = host.serialize();
        assert_eq!(serialized, text);
        let again = Host::parse(&serialized).unwrap();
        assert_eq!(again.serialize(), serialized);
    }
}

#[test]
fn url_with_empty_userinfo_has_no_at_sign() {
    let url = relative_url(None, domain(&["example", "com"]), "", &["p"]);
    assert_eq!(url.serialize(), "http://example.com/p");
    let url2 = relative_url(
        Some(UserInfo {
            username: String::new(),
            password: None,
        }),
        domain(&["example", "com"]),
        "",
        &["p"],
    );
    assert_eq!(url2.serialize(), "http://example.com/p");
}

#[test]
fn url_with_username_emits_at_sign() {
    let url = relative_url(
        Some(UserInfo {
            username: "a".to_string(),
            password: None,
        }),
        domain(&["example", "com"]),
        "",
        &["p"],
    );
    assert_eq!(url.serialize(), "http://a@example.com/p");
}

#[test]
fn url_with_password_emits_colon_password() {
    let url = relative_url(
        Some(UserInfo {
            username: "user".to_string(),
            password: Some("pw".to_string()),
        }),
        domain(&["example", "com"]),
        "",
        &["p"],
    );
    assert_eq!(url.serialize(), "http://user:pw@example.com/p");
    let url2 = relative_url(
        Some(UserInfo {
            username: String::new(),
            password: Some("pw".to_string()),
        }),
        domain(&["example", "com"]),
        "",
        &[],
    );
    assert_eq!(url2.serialize(), "http://:pw@example.com/");
}

#[test]
fn url_with_empty_path_serializes_single_slash() {
    let url = relative_url(None, domain(&["example", "com"]), "", &[]);
    assert_eq!(url.serialize(), "http://example.com/");
}

#[test]
fn url_with_port_and_path_segments() {
    let url = relative_url(None, domain(&["example", "com"]), "8080", &["a", "b"]);
    assert_eq!(url.serialize(), "http://example.com:8080/a/b");
}

#[test]
fn url_with_ipv6_host() {
    let url = relative_url(None, Host::Ipv6(Ipv6Address::parse("::1").unwrap()), "", &[]);
    assert_eq!(url.serialize(), "http://[::1]/");
}

#[test]
fn url_query_and_fragment_are_appended() {
    let mut url = relative_url(None, domain(&["example", "com"]), "", &["p"]);
    url.query = Some("a=b".to_string());
    url.fragment = Some("frag".to_string());
    assert_eq!(url.serialize(), "http://example.com/p?a=b#frag");
    assert_eq!(url.serialize_no_fragment(), "http://example.com/p?a=b");
}

#[test]
fn opaque_scheme_data_is_emitted_verbatim() {
    let url = Url {
        scheme: "mailto".to_string(),
        scheme_data: SchemeData::OtherSchemeData("someone@example.com".to_string()),
        query: None,
        fragment: None,
    };
    assert_eq!(url.serialize(), "mailto:someone@example.com");
}

#[test]
fn dotted_edge_cases_keep_empty_labels() {
    match Host::parse(".").unwrap() {
        Host::Domain(labels) => {
            assert_eq!(labels, vec![String::new(), String::new()]);
        }
        Host::Ipv6(_) => panic!("expected a domain"),
    }
    let host = Host::parse("a..b").unwrap();
    assert_eq!(host.serialize(), "a..b");
}
