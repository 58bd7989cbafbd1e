use mta_core::{
    a_matches, exists_matches, in_zone, include_outcome, mx_matches, parse_queue_name,
    AdminMatch, BounceCommand, DualCidrLength, IncludeOutcome, IpRec, Ipv4Rec, Ipv6Rec,
    Qualifier, SpfDisposition,
};

fn chars(s: &str) -> Vec<char> {
    s.chars().collect()
}

#[test]
fn queue_names_break_into_components() {
    let full = parse_queue_name("campaign:tenant@example.com");
    assert_eq!(full.campaign.as_deref(), Some("campaign"));
    assert_eq!(full.tenant.as_deref(), Some("tenant"));
    assert_eq!(full.domain, "example.com");

    let tenant_only = parse_queue_name("tenant@example.com");
    assert_eq!(tenant_only.campaign, None);
    assert_eq!(tenant_only.tenant.as_deref(), Some("tenant"));
    assert_eq!(tenant_only.domain, "example.com");

    let bare = parse_queue_name("example.com");
    assert_eq!(bare.campaign, None);
    assert_eq!(bare.tenant, None);
    assert_eq!(bare.domain, "example.com");
}

#[test]
fn directives_match_on_the_named_fields_only() {
    let domain_only = AdminMatch {
        campaign: None,
        tenant: None,
        domain: Some("example.com".to_string()),
    };
    assert!(domain_only.matches("campaign:tenant@example.com"));
    assert!(domain_only.matches("example.com"));
    assert!(!domain_only.matches("other.com"));

    let narrow = AdminMatch {
        campaign: Some("campaign".to_string()),
        tenant: Some("tenant".to_string()),
        domain: Some("example.com".to_string()),
    };
    assert!(narrow.matches("campaign:tenant@example.com"));
    assert!(!narrow.matches("other:tenant@example.com"));
    assert!(!narrow.matches("example.com"));
}

#[test]
fn bounce_everything_needs_saying_so() {
    let vague = BounceCommand {
        domain: None,
        campaign: None,
        tenant: None,
        reason: "testing".to_string(),
        everything: false,
        duration: None,
    };
    let err = vague.validate().unwrap_err();
    assert!(err.contains("--everything"));

    let confirmed = BounceCommand {
        everything: true,
        ..vague.clone()
    };
    assert!(confirmed.validate().is_ok());
    assert_eq!(confirmed.effective_duration(), 300);

    let scoped = BounceCommand {
        domain: Some("example.com".to_string()),
        duration: Some(60),
        ..vague
    };
    assert!(scoped.validate().is_ok());
    assert_eq!(scoped.effective_duration(), 60);
}

#[test]
fn cidr_masks_compare_prefixes() {
    let c = DualCidrLength { v4: 28, v6: 128 };
    let net = IpRec::V4(Ipv4Rec::from_octets(192, 0, 2, 128));
    let inside = IpRec::V4(Ipv4Rec::from_octets(192, 0, 2, 130));
    let outside = IpRec::V4(Ipv4Rec::from_octets(192, 0, 3, 1));
    assert!(c.matches(inside, net));
    assert!(!c.matches(outside, net));
    // different address families never match
    let six = IpRec::V6(Ipv6Rec { bits: 1 });
    assert!(!c.matches(six, net));
}

#[test]
fn mechanism_matchers_walk_resolver_answers() {
    let c = DualCidrLength { v4: 32, v6: 128 };
    let client = IpRec::V4(Ipv4Rec::from_octets(10, 0, 0, 1));
    let other = IpRec::V4(Ipv4Rec::from_octets(10, 0, 0, 2));
    assert!(a_matches(&c, client, &vec![other, client]));
    assert!(!a_matches(&c, client, &vec![other]));
    assert!(mx_matches(&c, client, &vec![vec![other], vec![client]]));
    assert!(!mx_matches(&c, client, &vec![vec![other]]));
    assert!(exists_matches(&vec![IpRec::V6(Ipv6Rec { bits: 7 }), client]));
    assert!(!exists_matches(&vec![IpRec::V6(Ipv6Rec { bits: 7 })]));
}

#[test]
fn zone_membership_is_label_aligned() {
    assert!(in_zone(&chars("example.com"), &chars("mx.Example.COM")));
    assert!(in_zone(&chars("example.com"), &chars("example.com")));
    assert!(!in_zone(&chars("example.com"), &chars("badexample.com")));
    assert!(!in_zone(&chars("example.com"), &chars("example.org")));
}

#[test]
fn dispositions_follow_qualifiers() {
    assert_eq!(
        SpfDisposition::from_qualifier(Qualifier::Pass),
        SpfDisposition::Pass
    );
    assert_eq!(
        SpfDisposition::from_qualifier(Qualifier::Fail),
        SpfDisposition::Fail
    );
    assert_eq!(SpfDisposition::Fail.as_str(), "fail");
    assert_eq!(SpfDisposition::NoRecord.as_str(), "none");
    assert_eq!(SpfDisposition::TempError.as_str(), "temperror");
}

#[test]
fn include_conclusions_follow_the_nested_check() {
    assert_eq!(include_outcome(SpfDisposition::Pass), IncludeOutcome::Matched);
    assert_eq!(include_outcome(SpfDisposition::Fail), IncludeOutcome::NotMatched);
    assert_eq!(
        include_outcome(SpfDisposition::SoftFail),
        IncludeOutcome::NotMatched
    );
    assert_eq!(
        include_outcome(SpfDisposition::TempError),
        IncludeOutcome::Error(SpfDisposition::TempError)
    );
    assert_eq!(
        include_outcome(SpfDisposition::NoRecord),
        IncludeOutcome::Error(SpfDisposition::PermError)
    );
}
