use seam_core::Format;

#[test]
fn uuids() {
    assert!(Format::Uuid.matches("6ba7b810-9dad-11d1-80b4-00c04fd430c8"));
    assert!(Format::Uuid.matches("6BA7B810-9DAD-11D1-80B4-00C04FD430C8"));
    assert!(Format::Uuid.matches("00000000-0000-0000-0000-000000000000"));

    assert!(!Format::Uuid.matches("6ba7b810-9dad-11d1-80b4-00c04fd430c"));
    assert!(!Format::Uuid.matches("6ba7b8109dad11d180b400c04fd430c8"));
    assert!(!Format::Uuid.matches("6ba7b810-9dad-11d1-80b4-00c04fd430c8-"));
    assert!(!Format::Uuid.matches("gba7b810-9dad-11d1-80b4-00c04fd430c8"));
    assert!(!Format::Uuid.matches(""));
}

#[test]
fn emails() {
    assert!(Format::Email.matches("gabriel@example.com"));
    assert!(Format::Email.matches("first.last+tag@sub.example.co.uk"));
    assert!(Format::Email.matches("a@b.co"));

    assert!(!Format::Email.matches("no-at-sign.example.com"));
    assert!(!Format::Email.matches("@example.com"));
    assert!(!Format::Email.matches("user@"));
    assert!(!Format::Email.matches("user@localhost"));
    assert!(!Format::Email.matches("user name@example.com"));
    assert!(!Format::Email.matches(".user@example.com"));
    assert!(!Format::Email.matches("user..name@example.com"));
}

#[test]
fn hostnames() {
    assert!(Format::Hostname.matches("example.com"));
    assert!(Format::Hostname.matches("localhost"));
    assert!(Format::Hostname.matches("a-b.example.com"));

    assert!(!Format::Hostname.matches(""));
    assert!(!Format::Hostname.matches("-example.com"));
    assert!(!Format::Hostname.matches("example-.com"));
    assert!(!Format::Hostname.matches("exa mple.com"));
    assert!(!Format::Hostname.matches("example..com"));
}

#[test]
fn ipv4_addresses() {
    assert!(Format::Ipv4.matches("192.168.0.1"));
    assert!(Format::Ipv4.matches("0.0.0.0"));
    assert!(Format::Ipv4.matches("255.255.255.255"));

    assert!(!Format::Ipv4.matches("256.0.0.1"));
    assert!(!Format::Ipv4.matches("1.2.3"));
    assert!(!Format::Ipv4.matches("1.2.3.4.5"));
    assert!(!Format::Ipv4.matches("010.0.0.1"));
    assert!(!Format::Ipv4.matches("1.2.3.-4"));
}

#[test]
fn ipv6_addresses() {
    assert!(Format::Ipv6.matches("2001:0db8:85a3:0000:0000:8a2e:0370:7334"));
    assert!(Format::Ipv6.matches("2001:db8:85a3::8a2e:370:7334"));
    assert!(Format::Ipv6.matches("::1"));
    assert!(Format::Ipv6.matches("::"));
    assert!(Format::Ipv6.matches("::ffff:192.168.0.1"));

    assert!(!Format::Ipv6.matches("2001:db8::85a3::7334"));
    assert!(!Format::Ipv6.matches("2001:db8:85a3:0:0:8a2e:370"));
    assert!(!Format::Ipv6.matches("gggg::1"));
    assert!(!Format::Ipv6.matches("fe80::1%eth0"));
    assert!(!Format::Ipv6.matches(""));
}

#[test]
fn names_round_trip() {
    for f in Format::ALL {
        assert_eq!(Format::parse(f.name()), Some(f));
    }
    assert_eq!(Format::parse("regex"), None);
}

#[test]
fn format_names_are_the_schema_spellings() {
    assert_eq!(Format::Uuid.name(), "uuid");
    assert_eq!(Format::Email.name(), "email");
    assert_eq!(Format::Hostname.name(), "hostname");
    assert_eq!(Format::Ipv4.name(), "ipv4");
    assert_eq!(Format::Ipv6.name(), "ipv6");
    assert_eq!(Format::parse("UUID"), None);
    assert_eq!(Format::parse(""), None);
}

#[test]
fn format_edges() {
    // A label is at most 63 bytes, a hostname at most 253.
    let label63 = "a".repeat(63);
    let label64 = "a".repeat(64);
    assert!(Format::Hostname.matches(&format!("{label63}.com")));
    assert!(!Format::Hostname.matches(&format!("{label64}.com")));
    let long = vec!["a".repeat(49); 5].join(".");
    assert_eq!(long.len(), 249);
    assert!(Format::Hostname.matches(&long));
    let too_long = vec!["a".repeat(50); 6].join(".");
    assert!(!Format::Hostname.matches(&too_long));

    assert!(!Format::Ipv4.matches("1..2.3"));
    assert!(!Format::Ipv4.matches("1.2.3.4."));
    assert!(Format::Ipv4.matches("10.0.0.255"));

    assert!(Format::Ipv6.matches("1:2:3:4:5:6:7:8"));
    assert!(!Format::Ipv6.matches("1:2:3:4:5:6:7:8:9"));
    assert!(Format::Ipv6.matches("1::"));
    assert!(!Format::Ipv6.matches(":1::2"));
    assert!(!Format::Ipv6.matches("12345::1"));
    assert!(Format::Ipv6.matches("1:2:3:4:5:6:1.2.3.4"));
    assert!(!Format::Ipv6.matches("1:2:3:4:5:6:7:1.2.3.4"));

    assert!(!Format::Email.matches("user.@example.com"));
    assert!(!Format::Email.matches("a@b@example.com"));
}

#[test]
fn ipv6_by_its_halves() {
    assert!(Format::Ipv6.matches("1:2:3:4:5:6:7::"));
    assert!(!Format::Ipv6.matches("1:2:3:4:5:6:7:8::"));
    assert!(Format::Ipv6.matches("1:2:3:4:5:6:1.2.3.4"));
    assert!(!Format::Ipv6.matches("1.2.3.4::"));
    assert!(!Format::Ipv6.matches(":::"));
    assert!(!Format::Ipv6.matches("fe80::1%eth0"));
    assert!(Format::Ipv6.matches("::1.2.3.4"));
}

#[test]
fn an_email_has_exactly_one_at() {
    assert!(Format::Email.matches("x@y.z"));
    assert!(!Format::Email.matches("x@y@z.com"));
    assert!(!Format::Email.matches("x\"y@z.com"));
    assert!(!Format::Email.matches("x\u{7f}@z.com"));
}
