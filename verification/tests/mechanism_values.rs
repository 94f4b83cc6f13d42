use decon_spf::helpers;
use decon_spf::mechanism::{IpNet, Kind, Mechanism, MechanismError, Qualifier};

#[test]
fn test_a_factories_render() {
    let bare = Mechanism::new_a_without_mechanism(Qualifier::Neutral);
    assert_eq!(bare.kind().is_a(), true);
    assert!(bare.mechanism().is_none());
    assert_eq!(bare.raw(), "a");
    assert_eq!(bare.string(), "?a");

    let named = Mechanism::new_a_with_mechanism(Qualifier::Pass, String::from("example.com"));
    assert_eq!(named.qualifier().as_str(), "");
    assert_eq!(named.raw(), "example.com");
    assert_eq!(named.string(), "a:example.com");
    assert_eq!(named.to_string(), "a:example.com");
}

#[test]
fn test_mx_include_ptr_exists_factories_render() {
    let mx = Mechanism::new_mx_with_mechanism(Qualifier::Pass, String::from("example.com"));
    assert_eq!(mx.string(), "mx:example.com");

    let inc = Mechanism::new_include(Qualifier::SoftFail, String::from("example.com"));
    assert_eq!(inc.string(), "~include:example.com");
    assert_eq!(inc.raw(), "example.com");

    let ptr = Mechanism::new_ptr_without_mechanism(Qualifier::Fail);
    assert_eq!(ptr.string(), "-ptr");
    let ptr2 = Mechanism::new_ptr_with_mechanism(Qualifier::Pass, String::from("example.com"));
    assert_eq!(ptr2.string(), "ptr:example.com");

    let ex = Mechanism::new_exists(Qualifier::Neutral, String::from("example.com"));
    assert_eq!(ex.string(), "?exists:example.com");

    let rd = Mechanism::new_redirect(Qualifier::Pass, String::from("_spf.example.com"));
    assert_eq!(rd.string(), "redirect=_spf.example.com");

    let all = Mechanism::new_all(Qualifier::SoftFail);
    assert_eq!(all.string(), "~all");
}

#[test]
fn test_generic_qualifier_predicates() {
    let m = Mechanism::new(Kind::MX, Qualifier::Fail, None::<String>);
    assert!(m.is_fail());
    assert!(!m.is_pass());
    assert!(!m.is_softfail());
    assert!(!m.is_neutral());
    assert!(m.kind().is_mx());
}

#[test]
fn test_kind_predicates_and_prefixes() {
    assert_eq!(Kind::Redirect.as_str(), "redirect=");
    assert_eq!(Kind::Include.as_str(), "include:");
    assert_eq!(Kind::IpV4.as_str(), "ip4:");
    assert_eq!(Kind::IpV6.as_str(), "ip6:");
    assert_eq!(Kind::Exists.as_str(), "exists:");
    assert!(Kind::Redirect.is_redirect());
    assert!(Kind::IpV4.is_ip());
    assert!(Kind::IpV6.is_ip());
    assert!(Kind::IpV4.is_ip_v4());
    assert!(Kind::IpV6.is_ip_v6());
    assert!(!Kind::A.is_ip());
    assert!(Kind::Ptr.is_ptr());
    assert!(Kind::Exists.is_exists());
    assert!(Kind::All.is_all());
    assert!(Kind::Include.is_include());
}

#[test]
fn test_ip_net_canonicalizes() {
    let net = IpNet::from_str("10.1.9.32").unwrap();
    assert!(net.is_ipv4());
    assert!(!net.is_ipv6());
    assert_eq!(net.to_string(), "10.1.9.32/32");

    let m = Mechanism::new_ip(Qualifier::Pass, IpNet::from_str("192.168.11.0/24").unwrap());
    assert!(m.kind().is_ip_v4());
    assert_eq!(m.raw(), "192.168.11.0/24");
    assert_eq!(m.string(), "ip4:192.168.11.0/24");
    assert_eq!(m.as_network().to_string(), "192.168.11.0/24");
}

#[test]
fn test_new_ip_selects_family() {
    let v6 = Mechanism::new_ip(
        Qualifier::Pass,
        IpNet::from_str("2001:4860:4000::/36").unwrap(),
    );
    assert!(v6.kind().is_ip());
    assert!(v6.kind().is_ip_v6());
    assert_eq!(v6.to_string(), "ip6:2001:4860:4000::/36");
}

#[test]
fn test_new_ip_from_str() {
    let m = Mechanism::new_ip_from_str(Qualifier::SoftFail, "203.32.160.0/23").unwrap();
    assert_eq!(m.string(), "~ip4:203.32.160.0/23");
    assert!(Mechanism::new_ip_from_str(Qualifier::Pass, "not-a-network").is_err());
}

#[test]
fn test_ip_token_classification_errors() {
    let e4 = Mechanism::<IpNet>::from_str("ip4:2001:db8::/32").unwrap_err();
    assert!(e4.is_not_ip4_network());
    assert_eq!(
        e4.to_string(),
        "Was given ip4:2001:db8::/32. This is not an ip4 network."
    );

    let e6 = Mechanism::<IpNet>::from_str("ip6:192.168.0.0/24").unwrap_err();
    assert!(e6.is_not_ip6_network());
    assert_eq!(
        e6.to_string(),
        "Was given ip6:192.168.0.0/24. This is not an ip6 network."
    );

    let bad = Mechanism::<IpNet>::from_str("ip4:999.1.2.3/8").unwrap_err();
    assert!(bad.is_invalid_ip());

    let not_mech = Mechanism::<IpNet>::from_str("hello").unwrap_err();
    assert!(not_mech.is_invalid_format());
    assert_eq!(
        not_mech.to_string(),
        "hello does not conform to any Mechanism format."
    );
}

#[test]
fn test_ip_token_classification_ok() {
    let m = Mechanism::<IpNet>::from_str("~ip4:10.0.0.0/8").unwrap();
    assert!(m.is_softfail());
    assert!(m.kind().is_ip_v4());
    assert_eq!(m.raw(), "10.0.0.0/8");
    assert_eq!(m.string(), "~ip4:10.0.0.0/8");
}

#[test]
fn test_string_token_classification() {
    let rd = Mechanism::<String>::from_str("redirect=_spf.example.com").unwrap();
    assert!(rd.kind().is_redirect());
    assert!(rd.is_pass());
    assert_eq!(rd.raw(), "_spf.example.com");

    let inc = Mechanism::<String>::from_str("-include:spf.example.com").unwrap();
    assert!(inc.kind().is_include());
    assert!(inc.is_fail());
    assert_eq!(inc.raw(), "spf.example.com");

    let err = Mechanism::<String>::from_str("ptr").unwrap_err();
    assert!(err.is_invalid_format());
    assert_eq!(err, MechanismError::NotValidMechanismFormat(String::from("ptr")));
}

#[test]
fn test_capture_matches_a_and_ptr() {
    let a = helpers::capture_matches("a", Kind::A).unwrap();
    assert!(a.is_pass());
    assert_eq!(a.raw(), "a");

    let a2 = helpers::capture_matches("-a:example.com/26", Kind::A).unwrap();
    assert!(a2.is_fail());
    assert_eq!(a2.raw(), ":example.com/26");
    assert_eq!(a2.string(), "-a:example.com/26");

    let p = helpers::capture_matches("?ptr:example.com", Kind::Ptr).unwrap();
    assert!(p.is_neutral());
    assert_eq!(p.raw(), ":example.com");

    assert!(helpers::capture_matches("ptr/24", Kind::Ptr).is_none());
    assert!(helpers::capture_matches("mx:", Kind::MX).is_none());
    assert!(helpers::capture_matches("ab", Kind::A).is_none());
}

#[test]
fn test_qualifier_encoding() {
    assert_eq!(Qualifier::Pass.as_str(), "");
    assert_eq!(Qualifier::Fail.as_str(), "-");
    assert_eq!(Qualifier::SoftFail.as_str(), "~");
    assert_eq!(Qualifier::Neutral.as_str(), "?");
}
