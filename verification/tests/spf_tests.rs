use mta_core::{
    starts_with_ident, Directive, DualCidrLength, Ipv4Rec, MacroElement, MacroName,
    MacroSpec, MacroTerm, Mechanism, Qualifier, Record,
};

fn chars(s: &str) -> Vec<char> {
    s.chars().collect()
}

fn literal(s: &str) -> MacroElement {
    MacroElement::Literal(chars(s))
}

fn term(name: MacroName, url_escape: bool, reverse: bool) -> MacroElement {
    MacroElement::Macro(MacroTerm {
        name,
        transformer_digits: None,
        url_escape,
        reverse,
        delimiters: Vec::new(),
    })
}

fn spec_of(elements: Vec<MacroElement>) -> MacroSpec {
    MacroSpec { elements }
}

fn directive(qualifier: Qualifier, mechanism: Mechanism) -> Directive {
    Directive {
        qualifier,
        mechanism,
    }
}

fn full_cidr() -> DualCidrLength {
    DualCidrLength { v4: 32, v6: 128 }
}

fn parse(s: &str) -> Record {
    match Record::parse(s) {
        Ok(r) => r,
        Err(err) => panic!("{err}: {s}"),
    }
}

#[test]
fn test_parse() {
    assert_eq!(
        Record::parse("v=spf1 -exists:%(ir).sbl.example.org").unwrap_err(),
        "invalid token '-exists:%(ir).sbl.example.org'"
    );
    assert_eq!(
        Record::parse("v=spf1 -exists:%{ir.sbl.example.org").unwrap_err(),
        "invalid token '-exists:%{ir.sbl.example.org'"
    );
    assert_eq!(
        Record::parse("v=spf1 -exists:%{ir").unwrap_err(),
        "invalid token '-exists:%{ir'"
    );
    assert_eq!(Record::parse("v=spf1 ").unwrap_err(), "invalid empty token");

    assert_eq!(
        parse("v=spf1 mx -all exp=explain._spf.%{d}"),
        Record {
            directives: vec![
                directive(
                    Qualifier::Pass,
                    Mechanism::Mx {
                        domain: None,
                        cidr_len: full_cidr(),
                    }
                ),
                directive(Qualifier::Fail, Mechanism::All),
            ],
            redirect: None,
            explanation: Some(spec_of(vec![
                literal("explain._spf."),
                term(MacroName::Domain, false, false),
            ])),
        }
    );

    assert_eq!(
        parse("v=spf1 -exists:%{ir}.sbl.example.org"),
        Record {
            directives: vec![directive(
                Qualifier::Fail,
                Mechanism::Exists {
                    domain: spec_of(vec![
                        term(MacroName::Ip, false, true),
                        literal(".sbl.example.org"),
                    ]),
                }
            )],
            redirect: None,
            explanation: None,
        }
    );

    assert_eq!(
        parse("v=spf1 +all"),
        Record {
            directives: vec![directive(Qualifier::Pass, Mechanism::All)],
            redirect: None,
            explanation: None,
        }
    );

    assert_eq!(
        parse("v=spf1 a -all"),
        Record {
            directives: vec![
                directive(
                    Qualifier::Pass,
                    Mechanism::A {
                        domain: None,
                        cidr_len: full_cidr(),
                    }
                ),
                directive(Qualifier::Fail, Mechanism::All),
            ],
            redirect: None,
            explanation: None,
        }
    );

    assert_eq!(
        parse("v=spf1 a:example.org -all"),
        Record {
            directives: vec![
                directive(
                    Qualifier::Pass,
                    Mechanism::A {
                        domain: Some(spec_of(vec![literal("example.org")])),
                        cidr_len: full_cidr(),
                    }
                ),
                directive(Qualifier::Fail, Mechanism::All),
            ],
            redirect: None,
            explanation: None,
        }
    );

    assert_eq!(
        parse("v=spf1 mx -all"),
        Record {
            directives: vec![
                directive(
                    Qualifier::Pass,
                    Mechanism::Mx {
                        domain: None,
                        cidr_len: full_cidr(),
                    }
                ),
                directive(Qualifier::Fail, Mechanism::All),
            ],
            redirect: None,
            explanation: None,
        }
    );

    assert_eq!(
        parse("v=spf1 mx:example.org -all"),
        Record {
            directives: vec![
                directive(
                    Qualifier::Pass,
                    Mechanism::Mx {
                        domain: Some(spec_of(vec![literal("example.org")])),
                        cidr_len: full_cidr(),
                    }
                ),
                directive(Qualifier::Fail, Mechanism::All),
            ],
            redirect: None,
            explanation: None,
        }
    );

    assert_eq!(
        parse("v=spf1 mx mx:example.org -all"),
        Record {
            directives: vec![
                directive(
                    Qualifier::Pass,
                    Mechanism::Mx {
                        domain: None,
                        cidr_len: full_cidr(),
                    }
                ),
                directive(
                    Qualifier::Pass,
                    Mechanism::Mx {
                        domain: Some(spec_of(vec![literal("example.org")])),
                        cidr_len: full_cidr(),
                    }
                ),
                directive(Qualifier::Fail, Mechanism::All),
            ],
            redirect: None,
            explanation: None,
        }
    );

    assert_eq!(
        parse("v=spf1 mx/30 -all"),
        Record {
            directives: vec![
                directive(
                    Qualifier::Pass,
                    Mechanism::Mx {
                        domain: None,
                        cidr_len: DualCidrLength { v4: 30, v6: 128 },
                    }
                ),
                directive(Qualifier::Fail, Mechanism::All),
            ],
            redirect: None,
            explanation: None,
        }
    );

    assert_eq!(
        parse("v=spf1 mx/30 mx:example.org/30 -all"),
        Record {
            directives: vec![
                directive(
                    Qualifier::Pass,
                    Mechanism::Mx {
                        domain: None,
                        cidr_len: DualCidrLength { v4: 30, v6: 128 },
                    }
                ),
                directive(
                    Qualifier::Pass,
                    Mechanism::Mx {
                        domain: Some(spec_of(vec![literal("example.org")])),
                        cidr_len: DualCidrLength { v4: 30, v6: 128 },
                    }
                ),
                directive(Qualifier::Fail, Mechanism::All),
            ],
            redirect: None,
            explanation: None,
        }
    );

    assert_eq!(
        parse("v=spf1 ptr -all"),
        Record {
            directives: vec![
                directive(Qualifier::Pass, Mechanism::Ptr { domain: None }),
                directive(Qualifier::Fail, Mechanism::All),
            ],
            redirect: None,
            explanation: None,
        }
    );

    assert_eq!(
        parse("v=spf1 ip4:192.0.2.128/28 -all"),
        Record {
            directives: vec![
                directive(
                    Qualifier::Pass,
                    Mechanism::Ip4 {
                        ip4_network: Ipv4Rec::from_octets(192, 0, 2, 128),
                        cidr_len: 28,
                    }
                ),
                directive(Qualifier::Fail, Mechanism::All),
            ],
            redirect: None,
            explanation: None,
        }
    );

    assert_eq!(
        parse("v=spf1 include:example.com include:example.net -all"),
        Record {
            directives: vec![
                directive(
                    Qualifier::Pass,
                    Mechanism::Include {
                        domain: spec_of(vec![literal("example.com")]),
                    }
                ),
                directive(
                    Qualifier::Pass,
                    Mechanism::Include {
                        domain: spec_of(vec![literal("example.net")]),
                    }
                ),
                directive(Qualifier::Fail, Mechanism::All),
            ],
            redirect: None,
            explanation: None,
        }
    );

    assert_eq!(
        parse("v=spf1 redirect=example.org"),
        Record {
            directives: vec![],
            redirect: Some(spec_of(vec![literal("example.org")])),
            explanation: None,
        }
    );
}

#[test]
fn qualifier_characters_round_trip() {
    assert_eq!(Qualifier::parse("+"), Some(Qualifier::Pass));
    assert_eq!(Qualifier::parse("-"), Some(Qualifier::Fail));
    assert_eq!(Qualifier::parse("~"), Some(Qualifier::SoftFail));
    assert_eq!(Qualifier::parse("?"), Some(Qualifier::Neutral));
    assert_eq!(Qualifier::parse("x"), None);
    assert_eq!(Qualifier::parse("++"), None);
    assert_eq!(Qualifier::Pass.as_str(), "+");
    assert_eq!(Qualifier::Fail.as_str(), "-");
    assert_eq!(Qualifier::SoftFail.as_str(), "~");
    assert_eq!(Qualifier::Neutral.as_str(), "?");
}

#[test]
fn ident_prefixes_match_case_insensitively() {
    assert_eq!(starts_with_ident("include:foo", "include:"), Some("foo"));
    assert_eq!(starts_with_ident("INCLUDE:foo", "include:"), Some("foo"));
    assert_eq!(starts_with_ident("inc", "include:"), None);
    assert_eq!(starts_with_ident("exclude:foo", "include:"), None);
}

#[test]
fn cidr_lengths_parse_from_the_end() {
    assert_eq!(
        DualCidrLength::parse_from_end("example.org").unwrap(),
        ("example.org".to_string(), DualCidrLength { v4: 32, v6: 128 })
    );
    assert_eq!(
        DualCidrLength::parse_from_end("example.org/24").unwrap(),
        ("example.org".to_string(), DualCidrLength { v4: 24, v6: 128 })
    );
    assert_eq!(
        DualCidrLength::parse_from_end("example.org/24//64").unwrap(),
        ("example.org".to_string(), DualCidrLength { v4: 24, v6: 64 })
    );
    assert_eq!(
        DualCidrLength::parse_from_end("example.org/nope").unwrap_err(),
        "invalid dual-cidr-length in example.org/nope"
    );
}

#[test]
fn bad_mechanisms_report_their_kind() {
    assert_eq!(
        Mechanism::parse("anything").unwrap_err(),
        "invalid 'a' mechanism: anything"
    );
    assert_eq!(
        Mechanism::parse("ip4:192.0.2.1").unwrap_err(),
        "invalid 'ip4' mechanism: ip4:192.0.2.1"
    );
    assert_eq!(
        Mechanism::parse("zzz").unwrap_err(),
        "invalid mechanism zzz"
    );
}

#[test]
fn mechanisms_render_back_to_record_syntax() {
    for text in [
        "all",
        "include:example.com",
        "a",
        "a:example.org",
        "a:example.org/24",
        "mx/30",

        "ptr",
        "ptr:example.org",
        "ip4:192.0.2.128/28",
        "exists:%{ir}.sbl.example.org",
    ] {
        let m = Mechanism::parse(text).unwrap();
        assert_eq!(m.to_text(), text);
    }
    let v6 = Mechanism::parse("ip6:2001:db8::1/64").unwrap();
    assert_eq!(v6.to_text(), "ip6:2001:db8:0:0:0:0:0:1/64");
    // both masks written: the second slash is not doubled back
    let dual = Mechanism::parse("mx:example.org/24//64").unwrap();
    assert_eq!(dual.to_text(), "mx:example.org/24/64");
}

#[test]
fn directives_render_with_their_qualifier() {
    let d = Directive::parse("-all").unwrap();
    assert_eq!(d.to_text(), "-all");
    let implicit = Directive::parse("mx").unwrap();
    assert_eq!(implicit.to_text(), "mx");
    let cidr = DualCidrLength { v4: 24, v6: 64 };
    assert_eq!(cidr.to_text(), "/24/64");
    assert_eq!(DualCidrLength { v4: 32, v6: 128 }.to_text(), "");
}
