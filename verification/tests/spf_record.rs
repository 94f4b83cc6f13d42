use decon_spf::mechanism::{IpNet, Kind, Mechanism, Qualifier};
use decon_spf::spf::{Spf, SpfError};

#[test]
fn test_parse_a_mx_softfail_all() {
    let input = "v=spf1 a mx ~all";
    let spf = Spf::from_str(input).unwrap();
    assert_eq!(spf.is_v1(), true);
    assert!(spf.ip4().is_none());
    assert!(spf.ip6().is_none());
    let a = spf.a().unwrap();
    assert_eq!(a.len(), 1);
    assert!(a[0].is_pass());
    assert_eq!(a[0].raw(), "a");
    let mx = spf.mx().unwrap();
    assert_eq!(mx.len(), 1);
    assert!(mx[0].is_pass());
    assert!(spf.all().unwrap().is_softfail());
    assert_eq!(spf.to_string(), input);
    assert_eq!(spf.source(), input);
    assert!(spf.is_valid());
}

#[test]
fn test_doubled_space_is_rejected() {
    let input = "v=spf1 a   mx -all";
    let err = Spf::from_str(input).unwrap_err();
    assert!(matches!(err, SpfError::WhiteSpaceSyntaxError));
}

#[test]
fn test_single_doubled_space_is_rejected() {
    let input = "v=spf1 a  mx -all";
    let err = Spf::from_str(input).unwrap_err();
    assert!(matches!(err, SpfError::WhiteSpaceSyntaxError));
}

#[test]
fn test_invalid_prefix_is_rejected() {
    let err = Spf::from_str("hello world").unwrap_err();
    assert!(matches!(err, SpfError::InvalidSource));
}

#[test]
fn test_overlong_source_is_rejected() {
    let mut input = String::from("v=spf1");
    while input.len() <= 255 {
        input.push_str(" a:example.com");
    }
    let err = Spf::from_str(&input).unwrap_err();
    assert!(matches!(err, SpfError::SourceLengthExceeded));
}

#[test]
fn test_unreadable_ip_is_fatal() {
    let err = Spf::from_str("v=spf1 ip4:999.999.999.999/8 -all").unwrap_err();
    match err {
        SpfError::InvalidIPAddr(cause) => assert!(cause.is_invalid_ip()),
        _ => panic!("wrong error variant"),
    }
}

#[test]
fn test_ip_family_mismatch_is_fatal() {
    let err = Spf::from_str("v=spf1 ip4:2001:db8::/32 -all").unwrap_err();
    match err {
        SpfError::InvalidIPAddr(cause) => assert!(cause.is_not_ip4_network()),
        _ => panic!("wrong error variant"),
    }
}

#[test]
fn test_build_ip4_from_scratch() {
    let mut spf = Spf::new();
    spf.set_v1();
    spf.append_ip_mechanism(Mechanism::new_ip(
        Qualifier::Pass,
        IpNet::from_str("203.32.160.0/32").unwrap(),
    ));
    assert_eq!(spf.to_string(), "v=spf1 ip4:203.32.160.0/32");
}

#[test]
fn test_append_then_clear_mx() {
    let mut spf = Spf::new();
    spf.set_v1();
    spf.append_ip_mechanism(Mechanism::new_ip(
        Qualifier::Pass,
        IpNet::from_str("203.32.166.0/24").unwrap(),
    ));
    spf.append_mechanism(Mechanism::new_mx_without_mechanism(Qualifier::Pass));
    assert_eq!(spf.to_string(), "v=spf1 mx ip4:203.32.166.0/24");
    spf.clear_mechanism(Kind::MX);
    assert!(spf.mx().is_none());
    assert_eq!(spf.to_string(), "v=spf1 ip4:203.32.166.0/24");
}

#[test]
fn test_redirect_then_all_append() {
    let mut spf = Spf::new();
    spf.set_v1();
    spf.append_mechanism(Mechanism::new_redirect(
        Qualifier::Pass,
        String::from("_spf.example.com"),
    ));
    spf.append_mechanism(Mechanism::new_all(Qualifier::Pass));
    assert!(spf.all().is_none());
    assert!(spf.redirect().is_some());
    assert!(spf.is_redirect());
    assert_eq!(spf.to_string(), "v=spf1 redirect=_spf.example.com");
}

#[test]
fn test_all_then_redirect_append() {
    let mut spf = Spf::new();
    spf.set_v1();
    spf.append_mechanism(Mechanism::new_all(Qualifier::Pass));
    spf.append_mechanism(Mechanism::new_redirect(
        Qualifier::Pass,
        String::from("_spf.example.com"),
    ));
    assert!(spf.redirect().is_some());
    assert!(spf.all().is_none());
    assert_eq!(spf.to_string(), "v=spf1 redirect=_spf.example.com");
}

#[test]
fn test_build_v2_record() {
    let mut spf = Spf::new();
    spf.set_v2_pra();
    spf.append_mechanism(Mechanism::new_a_without_mechanism(Qualifier::Pass));
    spf.append_mechanism(Mechanism::new_all(Qualifier::Neutral));
    assert_eq!(spf.to_string(), "spf2.0/pra a ?all");
    assert!(spf.is_v2());
    assert!(!spf.is_v1());
    spf.append_mechanism(Mechanism::new_all(Qualifier::Fail));
    assert_eq!(spf.to_string(), "spf2.0/pra a -all");
}

#[test]
fn test_version_setters() {
    let mut spf = Spf::new();
    spf.set_v2_mfrom();
    assert_eq!(spf.version(), "spf2.0/mfrom");
    spf.set_v2_pra_mfrom();
    assert_eq!(spf.version(), "spf2.0/pra,mfrom");
    spf.set_v2_mfrom_pra();
    assert_eq!(spf.version(), "spf2.0/mfrom,pra");
    spf.set_v1();
    assert_eq!(spf.version(), "v=spf1");
}

#[test]
fn test_build_is_deterministic() {
    let spf = Spf::from_str("v=spf1 -mx/24 include:spf.example.com ~all").unwrap();
    let first = spf.to_string();
    let second = spf.to_string();
    assert_eq!(first, second);
}

#[test]
fn test_round_trip_canonical_order() {
    let input = "v=spf1 a mx:mail.example.com include:spf.example.com ip4:10.0.0.0/24 ~all";
    let spf1 = Spf::from_str(input).unwrap();
    let rebuilt = spf1.to_string();
    assert_eq!(rebuilt, input);
    let spf2 = Spf::from_str(&rebuilt).unwrap();
    assert_eq!(spf2.version(), spf1.version());
    assert_eq!(spf2.a().unwrap().len(), 1);
    assert_eq!(spf2.mx().unwrap()[0].raw(), spf1.mx().unwrap()[0].raw());
    assert_eq!(
        spf2.includes().unwrap()[0].raw(),
        spf1.includes().unwrap()[0].raw()
    );
    assert_eq!(spf2.ip4().unwrap()[0].raw(), spf1.ip4().unwrap()[0].raw());
    assert!(spf2.all().unwrap().is_softfail());
}

#[test]
fn test_round_trip_non_canonical_order() {
    let input = "v=spf1 include:spf.example.com a -all";
    let spf1 = Spf::from_str(input).unwrap();
    let rebuilt = spf1.to_string();
    assert_eq!(rebuilt, "v=spf1 a include:spf.example.com -all");
    let spf2 = Spf::from_str(&rebuilt).unwrap();
    assert_eq!(spf2.a().unwrap().len(), 1);
    assert_eq!(
        spf2.includes().unwrap()[0].raw(),
        spf1.includes().unwrap()[0].raw()
    );
    assert!(spf2.all().unwrap().is_fail());
}

#[test]
fn test_parse_redirect_and_exists() {
    let spf = Spf::from_str("v=spf1 exists:%{i}.spf.example.com redirect=_spf.example.com")
        .unwrap();
    assert!(spf.is_redirect());
    assert_eq!(spf.redirect().unwrap().raw(), "_spf.example.com");
    assert!(spf.redirect().unwrap().is_pass());
    let ex = spf.exists_list().unwrap();
    assert_eq!(ex.len(), 1);
    assert_eq!(
        spf.to_string(),
        "v=spf1 exists:%{i}.spf.example.com redirect=_spf.example.com"
    );
}

#[test]
fn test_parse_ptr_and_unknown_token_dropped() {
    let spf = Spf::from_str("v=spf1 ptr:example.com what.is.this -all").unwrap();
    assert!(spf.ptr().is_some());
    assert_eq!(spf.ptr().unwrap().raw(), ":example.com");
    assert_eq!(spf.to_string(), "v=spf1 ptr:example.com -all");
}

#[test]
fn test_parse_ip6() {
    let spf = Spf::from_str("v=spf1 ip6:2001:4860:4000::/36 -all").unwrap();
    let ip6 = spf.ip6().unwrap();
    assert_eq!(ip6.len(), 1);
    assert_eq!(ip6[0].raw(), "2001:4860:4000::/36");
    assert_eq!(ip6[0].string(), "ip6:2001:4860:4000::/36");
    assert!(spf.ip4().is_none());
}

#[test]
fn test_validate_redirect_with_all() {
    let mut spf = Spf::from_str("v=spf1 redirect=_spf.example.com ~all").unwrap();
    assert!(spf.redirect().is_some());
    assert!(spf.all().is_some());
    let err = spf.try_validate().unwrap_err();
    assert!(matches!(err, SpfError::RedirectWithAllMechanism));
}

#[test]
fn test_validate_lookup_limit() {
    let mut spf = Spf::new();
    spf.set_v1();
    let mut i = 0;
    while i < 11 {
        spf.append_mechanism(Mechanism::new_include(
            Qualifier::Pass,
            format!("spf{}.example.com", i),
        ));
        i += 1;
    }
    let err = spf.try_validate().unwrap_err();
    assert!(matches!(err, SpfError::LookupLimitExceeded));
}

#[test]
fn test_validate_ok_accepts_record() {
    let mut spf = Spf::new();
    spf.set_v1();
    spf.append_mechanism(Mechanism::new_mx_without_mechanism(Qualifier::Pass));
    assert!(!spf.is_valid());
    assert!(spf.try_validate().is_ok());
    // The validity flag is reported only for parsed or validated-from-text
    // records; a programmatically built record still answers false.
    assert!(!spf.is_valid());
    assert!(!spf.has_warnings());
}

#[test]
fn test_last_all_token_wins() {
    let spf = Spf::from_str("v=spf1 ?all -all").unwrap();
    assert!(spf.all().unwrap().is_fail());
    assert_eq!(spf.to_string(), "v=spf1 -all");
}

#[test]
fn test_qualifier_default_is_pass_and_elided() {
    let spf = Spf::from_str("v=spf1 a:example.com all").unwrap();
    assert!(spf.a().unwrap()[0].is_pass());
    assert!(spf.all().unwrap().is_pass());
    let text = spf.to_string();
    assert_eq!(text, "v=spf1 a:example.com all");
    assert!(!text.contains('+'));
}

#[test]
fn test_validate_lookup_limit_boundary() {
    let mut spf = Spf::new();
    spf.set_v1();
    let mut i = 0;
    while i < 10 {
        spf.append_mechanism(Mechanism::new_include(
            Qualifier::Pass,
            format!("spf{}.example.com", i),
        ));
        i += 1;
    }
    assert!(spf.try_validate().is_ok());
}

#[test]
fn test_last_version_marker_wins() {
    let spf = Spf::from_str("v=spf1 spf2.0/pra -all").unwrap();
    assert_eq!(spf.version(), "spf2.0/pra");
    assert!(spf.is_v2());
}
