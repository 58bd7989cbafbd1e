//! SPF record parsing.
//!
//! An SPF TXT record is a `v=spf1` version tag followed by
//! space-separated terms: directives (an optional qualifier and a
//! mechanism) and modifiers (`redirect=`, `exp=`, or unknown ones that
//! are ignored). Domain arguments are macro-strings, parsed into
//! literal runs and `%{...}` macro terms. This parsing is pure string
//! work; every DNS-dependent part of evaluation lives elsewhere and
//! receives resolver answers as plain values.

use crate::strutil::{chars_of, chars_subrange, string_from_chars};
use vstd::string::StringSliceAdditionalSpecFns;
use vstd::prelude::*;

verus! {

/// The qualifier of a directive: the disposition to report when its
/// mechanism matches.
#[derive(Debug, Clone, Copy, PartialEq, Eq)]
pub enum Qualifier {
    /// `+`
    Pass,
    /// `-`
    Fail,
    /// `~`
    SoftFail,
    /// `?`
    Neutral,
}

/// What `Qualifier::parse` yields on a one-character token.
pub open spec fn spec_parse_qualifier(s: Seq<char>) -> Option<Qualifier> {
    if s == seq!['+'] {
        Some(Qualifier::Pass)
    } else if s == seq!['-'] {
        Some(Qualifier::Fail)
    } else if s == seq!['~'] {
        Some(Qualifier::SoftFail)
    } else if s == seq!['?'] {
        Some(Qualifier::Neutral)
    } else {
        None
    }
}

/// The one-character rendering of a qualifier.
pub open spec fn spec_qualifier_text(q: Qualifier) -> Seq<char> {
    match q {
        Qualifier::Pass => seq!['+'],
        Qualifier::Fail => seq!['-'],
        Qualifier::SoftFail => seq!['~'],
        Qualifier::Neutral => seq!['?'],
    }
}

impl Qualifier {
    /// Parse a qualifier character.
    pub fn parse(s: &str) -> (r: Option<Qualifier>)
        ensures
            r == spec_parse_qualifier(s@),
    {
        let cs = chars_of(s);
        if cs.len() != 1 {
            proof {
                assert(s@ != seq!['+'] && s@ != seq!['-'] && s@ != seq!['~'] && s@
                    != seq!['?']) by {
                    assert(s@.len() != 1);
                }
            }
            return None;
        }
        let c = cs[0];
        proof {
            assert(s@ =~= seq![s@[0]]);
        }
        if c == '+' {
            Some(Qualifier::Pass)
        } else if c == '-' {
            Some(Qualifier::Fail)
        } else if c == '~' {
            Some(Qualifier::SoftFail)
        } else if c == '?' {
            Some(Qualifier::Neutral)
        } else {
            None
        }
    }

    /// The character this qualifier writes as.
    pub fn as_str(&self) -> (r: &'static str)
        ensures
            r@ == spec_qualifier_text(*self),
    {
        proof {
            reveal_strlit("+");
            reveal_strlit("-");
            reveal_strlit("~");
            reveal_strlit("?");
        }
        match self {
            Qualifier::Pass => "+",
            Qualifier::Fail => "-",
            Qualifier::SoftFail => "~",
            Qualifier::Neutral => "?",
        }
    }
}

/// A decimal digit.
pub open spec fn spec_is_digit(c: char) -> bool {
    '0' <= c <= '9'
}

/// Numeric value of a digit run (most significant first).
pub open spec fn spec_digits_value(s: Seq<char>) -> int
    decreases s.len(),
{
    if s.len() == 0 {
        0
    } else {
        spec_digits_value(s.drop_last()) * 10 + (s.last() as int - '0' as int)
    }
}

/// Whether every character of `s` is a decimal digit.
pub open spec fn spec_all_digits(s: Seq<char>) -> bool {
    forall|i: int| 0 <= i < s.len() ==> spec_is_digit(#[trigger] s[i])
}

/// What a `u8` parse of `s` yields: digits only, value at most 255.
pub open spec fn spec_parse_u8(s: Seq<char>) -> Option<u8> {
    if s.len() > 0 && spec_all_digits(s) && spec_digits_value(s) <= 255 {
        Some(spec_digits_value(s) as u8)
    } else {
        None
    }
}

/// Parse a decimal `u8` from a character slice.
pub fn parse_u8_chars(s: &Vec<char>, from: usize, to: usize) -> (r: Option<u8>)
    requires
        from <= to <= s@.len(),
    ensures
        r == spec_parse_u8(s@.subrange(from as int, to as int)),
{
    let ghost digits = s@.subrange(from as int, to as int);
    if from == to {
        return None;
    }
    let mut acc: u32 = 0;
    let mut i: usize = from;
    proof {
        assert(digits.take(0) =~= Seq::<char>::empty());
    }
    while i < to
        invariant
            from <= i <= to <= s@.len(),
            digits == s@.subrange(from as int, to as int),
            spec_all_digits(digits.take(i - from)),
            acc == if spec_digits_value(digits.take(i - from)) > 300 {
                300int
            } else {
                spec_digits_value(digits.take(i - from))
            },
        decreases to - i,
    {
        let c = s[i];
        proof {
            assert(digits[i - from] == s@[i as int]);
        }
        if !(c >= '0' && c <= '9') {
            proof {
                assert(!spec_is_digit(digits[i - from]));
            }
            return None;
        }
        let d: u32 = (c as u32) - ('0' as u32);
        let next: u32 = if acc > 300 || acc * 10 + d > 300 {
            300
        } else {
            acc * 10 + d
        };
        proof {
            assert(digits.take(i - from + 1).drop_last() =~= digits.take(i - from));
            assert(digits.take(i - from + 1).last() == digits[i - from]);
        }
        acc = next;
        i = i + 1;
    }
    proof {
        assert(digits.take(to - from) =~= digits);
    }
    if acc <= 255 {
        Some(acc as u8)
    } else {
        None
    }
}

/// Index of the last occurrence of `sep`, or `-1` when there is none.
pub open spec fn spec_last_sep(s: Seq<char>, sep: char) -> int
    decreases s.len(),
{
    if s.len() == 0 {
        -1
    } else if s.last() == sep {
        s.len() - 1
    } else {
        spec_last_sep(s.drop_last(), sep)
    }
}

/// The last separator lies within the sequence, and the tail beyond it
/// is separator-free.
proof fn lemma_last_sep_range(s: Seq<char>, sep: char)
    ensures
        -1 <= spec_last_sep(s, sep) < s.len(),
        spec_last_sep(s, sep) >= 0 ==> s[spec_last_sep(s, sep)] == sep,
        forall|j: int| spec_last_sep(s, sep) < j < s.len() ==> s[j] != sep,
    decreases s.len(),
{
    if s.len() > 0 && s.last() != sep {
        lemma_last_sep_range(s.drop_last(), sep);
        assert forall|j: int| spec_last_sep(s, sep) < j < s.len() implies s[j]
            != sep by {
            if j < s.len() - 1 {
                assert(s.drop_last()[j] == s[j]);
            }
        }
        if spec_last_sep(s, sep) >= 0 {
            assert(s.drop_last()[spec_last_sep(s, sep)] == s[spec_last_sep(s, sep)]);
        }
    }
}

/// Find the last occurrence of `sep` in `s`.
fn find_last_sep(s: &Vec<char>, sep: char) -> (r: Option<usize>)
    ensures
        match r {
            Some(i) => i == spec_last_sep(s@, sep),
            None => spec_last_sep(s@, sep) < 0,
        },
{
    let mut i: usize = s.len();
    while i > 0
        invariant
            i <= s@.len(),
            spec_last_sep(s@.take(s@.len() as int), sep) == spec_last_sep(
                s@.take(i as int),
                sep,
            ),
        decreases i,
    {
        proof {
            assert(s@.take(i as int).last() == s@[i - 1]);
            assert(s@.take(i as int).drop_last() =~= s@.take(i - 1));
        }
        if s[i - 1] == sep {
            proof {
                assert(s@.take(s@.len() as int) =~= s@);
            }
            return Some(i - 1);
        }
        i = i - 1;
    }
    proof {
        assert(s@.take(0) =~= Seq::<char>::empty());
        assert(s@.take(s@.len() as int) =~= s@);
    }
    None
}

/// A pair of CIDR mask lengths, one for each IP version.
#[derive(Debug, Clone, Copy, PartialEq, Eq)]
pub struct DualCidrLength {
    pub v4: u8,
    pub v6: u8,
}

impl DualCidrLength {
    /// The default masks: full-length matches for both versions.
    pub fn default() -> (r: DualCidrLength)
        ensures
            r == (DualCidrLength { v4: 32, v6: 128 }),
    {
        DualCidrLength { v4: 32, v6: 128 }
    }
}

/// What `DualCidrLength::parse_from_end` yields: the part of the term
/// ahead of any trailing `/n` or `/n//m` lengths, and the lengths
/// themselves; `None` when a trailing length is present but not a
/// number within range.
pub open spec fn spec_parse_cidr_from_end(s: Seq<char>) -> Option<(Seq<char>, DualCidrLength)> {
    let d = spec_last_sep(s, '/');
    if d < 0 {
        Some((s, DualCidrLength { v4: 32, v6: 128 }))
    } else {
        let left = s.take(d);
        let right = s.skip(d + 1);
        match spec_parse_u8(right) {
            None => None,
            Some(right_cidr) => {
                if left.len() > 0 && left.last() == '/' {
                    let trimmed = left.take(left.len() - 1);
                    let d2 = spec_last_sep(trimmed, '/');
                    if d2 >= 0 {
                        match spec_parse_u8(trimmed.skip(d2 + 1)) {
                            None => None,
                            Some(left_cidr) => Some(
                                (
                                    trimmed.take(d2),
                                    DualCidrLength { v4: left_cidr, v6: right_cidr },
                                ),
                            ),
                        }
                    } else {
                        Some((left, DualCidrLength { v4: right_cidr, v6: 128 }))
                    }
                } else {
                    Some((left, DualCidrLength { v4: right_cidr, v6: 128 }))
                }
            },
        }
    }
}

/// The error text for a malformed dual CIDR length.
pub open spec fn spec_cidr_err(s: Seq<char>) -> Seq<char> {
    "invalid dual-cidr-length in "@ + s
}

impl DualCidrLength {
    /// Strip a trailing `/n` or `/n//m` dual CIDR length from a
    /// mechanism term.
    pub fn parse_from_end(s: &str) -> (r: Result<(String, DualCidrLength), String>)
        ensures
            match spec_parse_cidr_from_end(s@) {
                Some((rest, cidr)) => r is Ok && r->Ok_0.0@ == rest && r->Ok_0.1 == cidr,
                None => r is Err && r->Err_0@ == spec_cidr_err(s@),
            },
    {
        let cs = chars_of(s);
        let n = cs.len();
        match find_last_sep(&cs, '/') {
            None => Ok((string_from_chars(&cs), DualCidrLength::default())),
            Some(d) => {
                proof {
                    lemma_last_sep_range(cs@, '/');
                }
                let right_cidr = match parse_u8_chars(&cs, d + 1, n) {
                    Some(v) => v,
                    None => {
                        proof {
                            assert(cs@.subrange(d + 1, cs@.len() as int) =~= cs@.skip(
                                d + 1,
                            ));
                        }
                        return Err(cidr_err_text(s));
                    },
                };
                proof {
                    assert(cs@.subrange(d + 1, cs@.len() as int) =~= cs@.skip(d + 1));
                }
                let ghost left = cs@.take(d as int);
                if d > 0 && cs[d - 1] == '/' {
                    proof {
                        assert(left.len() > 0 && left.last() == '/');
                        assert(left.take(left.len() - 1) =~= cs@.take(d - 1));
                    }
                    let trimmed = chars_subrange(&cs, 0, d - 1);
                    proof {
                        assert(trimmed@ =~= cs@.take(d - 1));
                    }
                    match find_last_sep(&trimmed, '/') {
                        Some(d2) => {
                            proof {
                                lemma_last_sep_range(trimmed@, '/');
                            }
                            let left_cidr = match parse_u8_chars(
                                &trimmed,
                                d2 + 1,
                                trimmed.len(),
                            ) {
                                Some(v) => v,
                                None => {
                                    proof {
                                        assert(trimmed@.subrange(
                                            d2 + 1,
                                            trimmed@.len() as int,
                                        ) =~= trimmed@.skip(d2 + 1));
                                    }
                                    return Err(cidr_err_text(s));
                                },
                            };
                            proof {
                                assert(trimmed@.subrange(d2 + 1, trimmed@.len() as int)
                                    =~= trimmed@.skip(d2 + 1));
                            }
                            let prefix = chars_subrange(&trimmed, 0, d2);
                            proof {
                                assert(prefix@ =~= trimmed@.take(d2 as int));
                            }
                            Ok(
                                (
                                    string_from_chars(&prefix),
                                    DualCidrLength { v4: left_cidr, v6: right_cidr },
                                ),
                            )
                        },
                        None => {
                            let prefix = chars_subrange(&cs, 0, d);
                            Ok(
                                (
                                    string_from_chars(&prefix),
                                    DualCidrLength { v4: right_cidr, v6: 128 },
                                ),
                            )
                        },
                    }
                } else {
                    proof {
                        if left.len() > 0 {
                            assert(left.last() == cs@[d - 1]);
                        }
                    }
                    let prefix = chars_subrange(&cs, 0, d);
                    Ok(
                        (
                            string_from_chars(&prefix),
                            DualCidrLength { v4: right_cidr, v6: 128 },
                        ),
                    )
                }
            },
        }
    }
}

/// Build the error text for a malformed dual CIDR length.
fn cidr_err_text(s: &str) -> (r: String)
    ensures
        r@ == spec_cidr_err(s@),
{
    let mut msg = String::new();
    msg.append("invalid dual-cidr-length in ");
    msg.append(s);
    proof {
        assert(msg@ =~= "invalid dual-cidr-length in "@ + s@);
    }
    msg
}

/// Case-insensitive ASCII equality of two bytes.
pub open spec fn spec_byte_lower(b: u8) -> u8 {
    if 65 <= b <= 90 {
        (b + 32) as u8
    } else {
        b
    }
}

/// Case-insensitive ASCII equality of two byte strings.
pub open spec fn spec_bytes_eq_ignore_case(a: Seq<u8>, b: Seq<u8>) -> bool {
    a.len() == b.len() && forall|i: int|
        0 <= i < a.len() ==> spec_byte_lower(#[trigger] a[i]) == spec_byte_lower(b[i])
}

/// If `s` begins with `ident` (ASCII case-insensitively, and at a
/// character boundary), return what follows it.
pub fn starts_with_ident<'a>(s: &'a str, ident: &str) -> (r: Option<&'a str>)
    ensures
        match r {
            Some(rest) => {
                &&& s.spec_bytes().len() >= ident.spec_bytes().len()
                &&& spec_bytes_eq_ignore_case(
                    s.spec_bytes().take(ident.spec_bytes().len() as int),
                    ident.spec_bytes(),
                )
                &&& rest.spec_bytes() == s.spec_bytes().skip(
                    ident.spec_bytes().len() as int,
                )
            },
            None => !(s.spec_bytes().len() >= ident.spec_bytes().len()
                && vstd::utf8::is_char_boundary(
                s.spec_bytes(),
                ident.spec_bytes().len() as int,
            ) && spec_bytes_eq_ignore_case(
                s.spec_bytes().take(ident.spec_bytes().len() as int),
                ident.spec_bytes(),
            )),
        },
{
    let sb = s.as_bytes();
    let ib = ident.as_bytes();
    if sb.len() < ib.len() {
        return None;
    }
    if !s.is_char_boundary(ib.len()) {
        return None;
    }
    let mut i: usize = 0;
    while i < ib.len()
        invariant
            i <= ib@.len() <= sb@.len(),
            sb@ == s.spec_bytes(),
            ib@ == ident.spec_bytes(),
            forall|j: int| 0 <= j < i ==> spec_byte_lower(#[trigger] sb@[j])
                == spec_byte_lower(ib@[j]),
        decreases ib.len() - i,
    {
        let a = sb[i];
        let b = ib[i];
        let la = if a >= 65 && a <= 90 {
            a + 32
        } else {
            a
        };
        let lb = if b >= 65 && b <= 90 {
            b + 32
        } else {
            b
        };
        if la != lb {
            proof {
                assert(spec_byte_lower(sb@[i as int]) != spec_byte_lower(ib@[i as int]));
                assert(s.spec_bytes().take(ib@.len() as int)[i as int] == sb@[i as int]);
            }
            return None;
        }
        i = i + 1;
    }
    let (_, tail) = s.split_at(ib.len());
    proof {
        assert(forall|j: int| 0 <= j < ib@.len() ==> s.spec_bytes().take(
            ib@.len() as int,
        )[j] == sb@[j]);
        assert(tail.spec_bytes() =~= s.spec_bytes().skip(ib@.len() as int));
    }
    Some(tail)
}

/// The macro letters of RFC 7208: what each `%{x}` term expands from.
#[derive(Debug, Clone, Copy, PartialEq, Eq)]
pub enum MacroName {
    /// `s`: the sender address.
    Sender,
    /// `l`: the local part of the sender.
    LocalPart,
    /// `o`: the domain of the sender.
    SenderDomain,
    /// `d`: the domain under check.
    Domain,
    /// `i`: the client IP address.
    Ip,
    /// `p`: the validated domain name of the client IP.
    ValidatedDomainName,
    /// `v`: `in-addr` or `ip6`, by IP version.
    IpVersion,
    /// `h`: the HELO/EHLO domain.
    HeloDomain,
    /// `c`: the SMTP client IP, for explanations.
    SmtpClientIp,
    /// `r`: the domain of the checking host, for explanations.
    RelayingHost,
    /// `t`: the current timestamp, for explanations.
    CurrentTime,
}

/// One `%{...}` term of a macro-string.
#[derive(Debug, Clone, PartialEq, Eq)]
pub struct MacroTerm {
    pub name: MacroName,
    /// How many output parts to keep, counted from the right.
    pub transformer_digits: Option<u32>,
    /// True for the uppercase macro letters, which URL-escape their
    /// expansion.
    pub url_escape: bool,
    /// True when an `r` transformer reverses the split parts.
    pub reverse: bool,
    /// The delimiters to split the expansion on; empty means `.`.
    pub delimiters: Vec<char>,
}

/// A parsed macro term, at the specification level.
pub struct MacroTermV {
    pub name: MacroName,
    pub transformer_digits: Option<u32>,
    pub url_escape: bool,
    pub reverse: bool,
    pub delimiters: Seq<char>,
}

impl View for MacroTerm {
    type V = MacroTermV;

    open spec fn view(&self) -> MacroTermV {
        MacroTermV {
            name: self.name,
            transformer_digits: self.transformer_digits,
            url_escape: self.url_escape,
            reverse: self.reverse,
            delimiters: self.delimiters@,
        }
    }
}

/// One element of a macro-string: a literal run or a macro term.
#[derive(Debug, Clone, PartialEq, Eq)]
pub enum MacroElement {
    Literal(Vec<char>),
    Macro(MacroTerm),
}

/// A macro-string element, at the specification level.
pub enum MacroElementV {
    Literal(Seq<char>),
    Macro(MacroTermV),
}

impl View for MacroElement {
    type V = MacroElementV;

    open spec fn view(&self) -> MacroElementV {
        match self {
            MacroElement::Literal(l) => MacroElementV::Literal(l@),
            MacroElement::Macro(t) => MacroElementV::Macro(t@),
        }
    }
}

/// A domain-spec argument: literal runs and `%{...}` macro terms.
#[derive(Debug, Clone, PartialEq, Eq)]
pub struct MacroSpec {
    pub elements: Vec<MacroElement>,
}

impl View for MacroSpec {
    type V = Seq<MacroElementV>;

    open spec fn view(&self) -> Seq<MacroElementV> {
        self.elements@.map_values(|e: MacroElement| e@)
    }
}

/// The term a macro letter denotes, and whether it URL-escapes.
pub open spec fn spec_macro_letter(c: char) -> Option<(MacroName, bool)> {
    match c {
        's' => Some((MacroName::Sender, false)),
        'S' => Some((MacroName::Sender, true)),
        'l' => Some((MacroName::LocalPart, false)),
        'L' => Some((MacroName::LocalPart, true)),
        'o' => Some((MacroName::SenderDomain, false)),
        'O' => Some((MacroName::SenderDomain, true)),
        'd' => Some((MacroName::Domain, false)),
        'D' => Some((MacroName::Domain, true)),
        'i' => Some((MacroName::Ip, false)),
        'I' => Some((MacroName::Ip, true)),
        'p' => Some((MacroName::ValidatedDomainName, false)),
        'P' => Some((MacroName::ValidatedDomainName, true)),
        'v' => Some((MacroName::IpVersion, false)),
        'V' => Some((MacroName::IpVersion, true)),
        'h' => Some((MacroName::HeloDomain, false)),
        'H' => Some((MacroName::HeloDomain, true)),
        'c' => Some((MacroName::SmtpClientIp, false)),
        'C' => Some((MacroName::SmtpClientIp, true)),
        'r' => Some((MacroName::RelayingHost, false)),
        'R' => Some((MacroName::RelayingHost, true)),
        't' => Some((MacroName::CurrentTime, false)),
        'T' => Some((MacroName::CurrentTime, true)),
        _ => None,
    }
}

/// A delimiter character of a macro term.
pub open spec fn spec_is_macro_delim(c: char) -> bool {
    c == '.' || c == '-' || c == '+' || c == ',' || c == '/' || c == '_' || c == '='
}

/// A character a macro literal may hold: visible ASCII except `%`.
pub open spec fn spec_is_macro_literal(c: char) -> bool {
    c != '%' && '!' <= c <= '~'
}

/// First index at or past `j` whose character is not a digit.
pub open spec fn spec_scan_digits(s: Seq<char>, j: int) -> int
    decreases s.len() - j,
{
    if j < 0 || j >= s.len() {
        s.len() as int
    } else if spec_is_digit(s[j]) {
        spec_scan_digits(s, j + 1)
    } else {
        j
    }
}

/// First index at or past `j` whose character is not a delimiter.
pub open spec fn spec_scan_delims(s: Seq<char>, j: int) -> int
    decreases s.len() - j,
{
    if j < 0 || j >= s.len() {
        s.len() as int
    } else if spec_is_macro_delim(s[j]) {
        spec_scan_delims(s, j + 1)
    } else {
        j
    }
}

proof fn lemma_scan_digits_range(s: Seq<char>, j: int)
    requires
        0 <= j <= s.len(),
    ensures
        j <= spec_scan_digits(s, j) <= s.len(),
    decreases s.len() - j,
{
    if j < s.len() && spec_is_digit(s[j]) {
        lemma_scan_digits_range(s, j + 1);
    }
}

proof fn lemma_scan_delims_range(s: Seq<char>, j: int)
    requires
        0 <= j <= s.len(),
    ensures
        j <= spec_scan_delims(s, j) <= s.len(),
    decreases s.len() - j,
{
    if j < s.len() && spec_is_macro_delim(s[j]) {
        lemma_scan_delims_range(s, j + 1);
    }
}

/// Parse one `%{...}` term with `j` just past the `{`; yields the term
/// and the index just past the closing `}`.
pub open spec fn spec_parse_term(s: Seq<char>, j: int) -> Option<(MacroTermV, int)> {
    if j < 0 || j >= s.len() {
        None
    } else {
        match spec_macro_letter(s[j]) {
            None => None,
            Some((name, esc)) => {
                let dend = spec_scan_digits(s, j + 1);
                let digits = s.subrange(j + 1, dend);
                if digits.len() > 0 && spec_digits_value(digits) > u32::MAX {
                    None
                } else {
                    let tdigits = if digits.len() == 0 {
                        None
                    } else {
                        Some(spec_digits_value(digits) as u32)
                    };
                    let rev = dend < s.len() && (s[dend] == 'r' || s[dend] == 'R');
                    let k = if rev {
                        dend + 1
                    } else {
                        dend
                    };
                    let lend = spec_scan_delims(s, k);
                    if lend < s.len() && s[lend] == '}' {
                        Some(
                            (
                                MacroTermV {
                                    name,
                                    transformer_digits: tdigits,
                                    url_escape: esc,
                                    reverse: rev,
                                    delimiters: s.subrange(k, lend),
                                },
                                lend + 1,
                            ),
                        )
                    } else {
                        None
                    }
                }
            },
        }
    }
}

/// The parsed term ends within the string and past where it began.
proof fn lemma_parse_term_range(s: Seq<char>, j: int)
    requires
        0 <= j,
        spec_parse_term(s, j) is Some,
    ensures
        j < (spec_parse_term(s, j)->0).1 <= s.len(),
{
    lemma_scan_digits_range(s, j + 1);
    let dend = spec_scan_digits(s, j + 1);
    let rev = dend < s.len() && (s[dend] == 'r' || s[dend] == 'R');
    let k = if rev {
        dend + 1
    } else {
        dend
    };
    lemma_scan_delims_range(s, k);
}

/// Close the pending literal run: an empty run adds nothing.
pub open spec fn spec_flush_literal(cur: Seq<char>, acc: Seq<MacroElementV>) -> Seq<
    MacroElementV,
> {
    if cur.len() == 0 {
        acc
    } else {
        acc.push(MacroElementV::Literal(cur))
    }
}

/// Parse the macro-string from index `i` on, with the pending literal
/// run `cur` and the elements already parsed.
pub open spec fn spec_parse_macro_elems(
    s: Seq<char>,
    i: int,
    cur: Seq<char>,
    acc: Seq<MacroElementV>,
) -> Option<Seq<MacroElementV>>
    decreases s.len() - i,
    when 0 <= i
    via spec_parse_macro_elems_decreases
{
    if i >= s.len() {
        Some(spec_flush_literal(cur, acc))
    } else {
        let c = s[i];
        if c == '%' {
            if i + 1 >= s.len() {
                None
            } else if s[i + 1] == '%' {
                spec_parse_macro_elems(s, i + 2, cur.push('%'), acc)
            } else if s[i + 1] == '_' {
                spec_parse_macro_elems(s, i + 2, cur.push(' '), acc)
            } else if s[i + 1] == '-' {
                spec_parse_macro_elems(s, i + 2, cur + seq!['%', '2', '0'], acc)
            } else if s[i + 1] == '{' {
                match spec_parse_term(s, i + 2) {
                    None => None,
                    Some((t, nxt)) => spec_parse_macro_elems(
                        s,
                        nxt,
                        Seq::empty(),
                        spec_flush_literal(cur, acc).push(MacroElementV::Macro(t)),
                    ),
                }
            } else {
                None
            }
        } else if spec_is_macro_literal(c) {
            spec_parse_macro_elems(s, i + 1, cur.push(c), acc)
        } else {
            None
        }
    }
}

#[via_fn]
proof fn spec_parse_macro_elems_decreases(
    s: Seq<char>,
    i: int,
    cur: Seq<char>,
    acc: Seq<MacroElementV>,
) {
    if 0 <= i && i < s.len() && s[i] == '%' && i + 1 < s.len() && s[i + 1] == '{' {
        if spec_parse_term(s, i + 2) is Some {
            lemma_parse_term_range(s, i + 2);
        }
    }
}

/// What `MacroSpec::parse` yields on `s`.
pub open spec fn spec_parse_macro(s: Seq<char>) -> Option<Seq<MacroElementV>> {
    spec_parse_macro_elems(s, 0, Seq::empty(), Seq::empty())
}

/// The error text for a malformed macro-string.
pub open spec fn spec_macro_err(s: Seq<char>) -> Seq<char> {
    "invalid macro string in "@ + s
}

/// Whether `c` is a macro-term delimiter.
fn is_delim_char(c: char) -> (r: bool)
    ensures
        r == spec_is_macro_delim(c),
{
    c == '.' || c == '-' || c == '+' || c == ',' || c == '/' || c == '_' || c == '='
}

/// Decode one macro letter.
fn macro_letter(c: char) -> (r: Option<(MacroName, bool)>)
    ensures
        r == spec_macro_letter(c),
{
    match c {
        's' => Some((MacroName::Sender, false)),
        'S' => Some((MacroName::Sender, true)),
        'l' => Some((MacroName::LocalPart, false)),
        'L' => Some((MacroName::LocalPart, true)),
        'o' => Some((MacroName::SenderDomain, false)),
        'O' => Some((MacroName::SenderDomain, true)),
        'd' => Some((MacroName::Domain, false)),
        'D' => Some((MacroName::Domain, true)),
        'i' => Some((MacroName::Ip, false)),
        'I' => Some((MacroName::Ip, true)),
        'p' => Some((MacroName::ValidatedDomainName, false)),
        'P' => Some((MacroName::ValidatedDomainName, true)),
        'v' => Some((MacroName::IpVersion, false)),
        'V' => Some((MacroName::IpVersion, true)),
        'h' => Some((MacroName::HeloDomain, false)),
        'H' => Some((MacroName::HeloDomain, true)),
        'c' => Some((MacroName::SmtpClientIp, false)),
        'C' => Some((MacroName::SmtpClientIp, true)),
        'r' => Some((MacroName::RelayingHost, false)),
        'R' => Some((MacroName::RelayingHost, true)),
        't' => Some((MacroName::CurrentTime, false)),
        'T' => Some((MacroName::CurrentTime, true)),
        _ => None,
    }
}

/// Parse transformer digits from `j` on, capped just past `u32::MAX`;
/// yields the value and the first non-digit index.
fn scan_digit_value(s: &Vec<char>, j: usize) -> (r: (Option<u32>, usize))
    requires
        j <= s@.len(),
    ensures
        r.1 == spec_scan_digits(s@, j as int),
        ({
            let digits = s@.subrange(j as int, r.1 as int);
            if digits.len() == 0 {
                r.0 is None
            } else if spec_digits_value(digits) > u32::MAX {
                r.0 is None
            } else {
                r.0 == Some(spec_digits_value(digits) as u32)
            }
        }),
        ({
            let digits = s@.subrange(j as int, r.1 as int);
            digits.len() > 0 && spec_digits_value(digits) > u32::MAX ==> r.0 is None
        }),
        ({
            let digits = s@.subrange(j as int, r.1 as int);
            r.0 is None ==> digits.len() == 0 || spec_digits_value(digits) > u32::MAX
        }),
{
    let mut i: usize = j;
    let mut acc: u64 = 0;
    let cap: u64 = 0x1_0000_0000;
    while i < s.len() && s[i] >= '0' && s[i] <= '9'
        invariant
            j <= i <= s@.len(),
            cap == 0x1_0000_0000u64,
            spec_scan_digits(s@, j as int) == spec_scan_digits(s@, i as int),
            spec_all_digits(s@.subrange(j as int, i as int)),
            acc == if spec_digits_value(s@.subrange(j as int, i as int)) > 0x1_0000_0000
             {
                0x1_0000_0000u64 as int
            } else {
                spec_digits_value(s@.subrange(j as int, i as int))
            },
        decreases s@.len() - i,
    {
        let c = s[i];
        let d: u64 = ((c as u32) - ('0' as u32)) as u64;
        let next: u64 = if acc > cap || acc * 10 + d > cap {
            cap
        } else {
            acc * 10 + d
        };
        proof {
            let prev = s@.subrange(j as int, i as int);
            let now = s@.subrange(j as int, i + 1);
            assert(now.drop_last() =~= prev);
            assert(now.last() == s@[i as int]);
            assert(spec_digits_value(now) == spec_digits_value(prev) * 10 + (
            s@[i as int] as int - '0' as int));
            assert(d == s@[i as int] as int - '0' as int);
            if spec_digits_value(prev) > 0x1_0000_0000 {
                assert(acc == 0x1_0000_0000u64);
                assert(spec_digits_value(now) == spec_digits_value(prev) * 10 + (
                s@[i as int] as int - '0' as int));
                assert(spec_digits_value(prev) * 10 > 0x1_0000_0000 * 10) by {
                    assert(spec_digits_value(prev) >= 0x1_0000_0001);
                    assert(spec_digits_value(prev) * 10 >= 0x1_0000_0001 * 10)
                        by (nonlinear_arith)
                        requires
                            spec_digits_value(prev) >= 0x1_0000_0001,
                    ;
                }
                assert(spec_digits_value(now) > 0x1_0000_0000);
                assert(next == cap);
            } else {
                assert(acc == spec_digits_value(prev));
                assert(acc * 10 + d == spec_digits_value(now));
            }
        }
        acc = next;
        i = i + 1;
    }
    proof {
        if i < s.len() {
            assert(!spec_is_digit(s@[i as int]));
        }
    }
    let end = i;
    if end == j {
        (None, end)
    } else if acc > 0xFFFF_FFFF {
        (None, end)
    } else {
        (Some(acc as u32), end)
    }
}

/// Parse one `%{...}` term with `j` just past the `{`.
fn parse_term(s: &Vec<char>, j: usize) -> (r: Option<(MacroTerm, usize)>)
    requires
        j <= s@.len(),
    ensures
        match r {
            Some((t, nxt)) => {
                &&& spec_parse_term(s@, j as int) is Some
                &&& (spec_parse_term(s@, j as int)->0).0 == t@
                &&& (spec_parse_term(s@, j as int)->0).1 == nxt as int
                &&& j < nxt <= s@.len()
            },
            None => spec_parse_term(s@, j as int) is None,
        },
{
    if j >= s.len() {
        return None;
    }
    let (name, esc) = match macro_letter(s[j]) {
        Some(p) => p,
        None => {
            return None;
        },
    };
    let (digits, dend) = scan_digit_value(s, j + 1);
    proof {
        lemma_scan_digits_range(s@, j + 1);
    }
    let ghost dseq = s@.subrange(j + 1, dend as int);
    if digits.is_none() && dend > j + 1 {
        // digits were present but overflowed
        proof {
            assert(dseq.len() > 0);
        }
        return None;
    }
    let rev = dend < s.len() && (s[dend] == 'r' || s[dend] == 'R');
    let k = if rev {
        dend + 1
    } else {
        dend
    };
    let mut lend: usize = k;
    while lend < s.len() && is_delim_char(s[lend])
        invariant
            k <= lend <= s@.len(),
            spec_scan_delims(s@, k as int) == spec_scan_delims(s@, lend as int),
        decreases s@.len() - lend,
    {
        lend = lend + 1;
    }
    proof {
        if lend < s.len() {
            assert(!spec_is_macro_delim(s@[lend as int]));
        }
    }
    if lend < s.len() && s[lend] == '}' {
        let delims = chars_subrange(s, k, lend);
        Some(
            (
                MacroTerm {
                    name,
                    transformer_digits: digits,
                    url_escape: esc,
                    reverse: rev,
                    delimiters: delims,
                },
                lend + 1,
            ),
        )
    } else {
        None
    }
}

/// Parse the macro-string from `i` on (see `spec_parse_macro_elems`).
fn parse_macro_elems(s: &Vec<char>, i: usize, cur: Vec<char>, acc: Vec<MacroElement>) -> (r:
    Option<Vec<MacroElement>>)
    requires
        i <= s@.len(),
    ensures
        match r {
            Some(elems) => spec_parse_macro_elems(s@, i as int, cur@, acc@.map_values(
                |e: MacroElement| e@,
            )) == Some(elems@.map_values(|e: MacroElement| e@)),
            None => spec_parse_macro_elems(s@, i as int, cur@, acc@.map_values(
                |e: MacroElement| e@,
            )) is None,
        },
    decreases s@.len() - i,
{
    let ghost accv = acc@.map_values(|e: MacroElement| e@);
    if i >= s.len() {
        let mut out = acc;
        if cur.len() > 0 {
            let ghost curv = cur@;
            out.push(MacroElement::Literal(cur));
            proof {
                assert(out@.map_values(|e: MacroElement| e@) =~= accv.push(
                    MacroElementV::Literal(curv),
                ));
            }
        }
        return Some(out);
    }
    let c = s[i];
    if c == '%' {
        if i + 1 >= s.len() {
            return None;
        }
        let n = s[i + 1];
        if n == '%' {
            let mut cur2 = cur;
            cur2.push('%');
            return parse_macro_elems(s, i + 2, cur2, acc);
        }
        if n == '_' {
            let mut cur2 = cur;
            cur2.push(' ');
            return parse_macro_elems(s, i + 2, cur2, acc);
        }
        if n == '-' {
            let mut cur2 = cur;
            cur2.push('%');
            cur2.push('2');
            cur2.push('0');
            proof {
                assert(cur2@ =~= cur@ + seq!['%', '2', '0']);
            }
            return parse_macro_elems(s, i + 2, cur2, acc);
        }
        if n == '{' {
            match parse_term(s, i + 2) {
                None => {
                    return None;
                },
                Some((t, nxt)) => {
                    let ghost tv = t@;
                    let mut out = acc;
                    if cur.len() > 0 {
                        let ghost curv = cur@;
                        out.push(MacroElement::Literal(cur));
                        proof {
                            assert(out@.map_values(|e: MacroElement| e@) =~= accv.push(
                                MacroElementV::Literal(curv),
                            ));
                        }
                    }
                    let ghost flushed = out@.map_values(|e: MacroElement| e@);
                    out.push(MacroElement::Macro(t));
                    proof {
                        assert(out@.map_values(|e: MacroElement| e@) =~= flushed.push(
                            MacroElementV::Macro(tv),
                        ));
                    }
                    let fresh: Vec<char> = Vec::new();
                    proof {
                        assert(fresh@ =~= Seq::<char>::empty());
                    }
                    return parse_macro_elems(s, nxt, fresh, out);
                },
            }
        }
        return None;
    }
    if c != '%' && c >= '!' && c <= '~' {
        let mut cur2 = cur;
        cur2.push(c);
        return parse_macro_elems(s, i + 1, cur2, acc);
    }
    proof {
        assert(!spec_is_macro_literal(s@[i as int]));
    }
    None
}

/// Build the error text for a malformed macro-string.
fn macro_err_text(s: &Vec<char>) -> (r: String)
    ensures
        r@ == spec_macro_err(s@),
{
    let mut msg = String::new();
    msg.append("invalid macro string in ");
    let tail = string_from_chars(s);
    msg.append(tail.as_str());
    proof {
        assert(msg@ =~= "invalid macro string in "@ + s@);
    }
    msg
}

impl MacroSpec {
    /// Parse a domain-spec macro-string.
    pub fn parse(s: &str) -> (r: Result<MacroSpec, String>)
        ensures
            match spec_parse_macro(s@) {
                Some(elems) => r is Ok && r->Ok_0@ == elems,
                None => r is Err && r->Err_0@ == spec_macro_err(s@),
            },
    {
        let cs = chars_of(s);
        Self::parse_chars(&cs)
    }

    /// Parse a domain-spec macro-string given as characters.
    pub fn parse_chars(cs: &Vec<char>) -> (r: Result<MacroSpec, String>)
        ensures
            match spec_parse_macro(cs@) {
                Some(elems) => r is Ok && r->Ok_0@ == elems,
                None => r is Err && r->Err_0@ == spec_macro_err(cs@),
            },
    {
        let cur: Vec<char> = Vec::new();
        let acc: Vec<MacroElement> = Vec::new();
        proof {
            assert(cur@ =~= Seq::<char>::empty());
            assert(acc@.map_values(|e: MacroElement| e@) =~= Seq::<MacroElementV>::empty());
        }
        match parse_macro_elems(cs, 0, cur, acc) {
            Some(elems) => Ok(MacroSpec { elements: elems }),
            None => Err(macro_err_text(cs)),
        }
    }
}

/// Case-insensitive prefix match over characters (ASCII folding).
pub open spec fn spec_starts_ci(s: Seq<char>, ident: Seq<char>) -> bool {
    s.len() >= ident.len() && forall|i: int|
        0 <= i < ident.len() ==> crate::strutil::spec_lower_char(#[trigger] s[i])
            == crate::strutil::spec_lower_char(ident[i])
}

/// Case-insensitive equality over characters (ASCII folding).
pub open spec fn spec_eq_ci(s: Seq<char>, ident: Seq<char>) -> bool {
    s.len() == ident.len() && spec_starts_ci(s, ident)
}

/// Whether `s` begins with `ident`, ASCII case-insensitively.
fn has_prefix_ci(s: &Vec<char>, ident: &Vec<char>) -> (r: bool)
    ensures
        r == spec_starts_ci(s@, ident@),
{
    if s.len() < ident.len() {
        return false;
    }
    let mut i: usize = 0;
    while i < ident.len()
        invariant
            i <= ident@.len() <= s@.len(),
            forall|j: int| 0 <= j < i ==> crate::strutil::spec_lower_char(#[trigger] s@[j])
                == crate::strutil::spec_lower_char(ident@[j]),
        decreases ident.len() - i,
    {
        let a = s[i];
        let b = ident[i];
        let la: char = if a >= 'A' && a <= 'Z' {
            ((a as u8) + 32) as char
        } else {
            a
        };
        let lb: char = if b >= 'A' && b <= 'Z' {
            ((b as u8) + 32) as char
        } else {
            b
        };
        if la != lb {
            proof {
                assert(crate::strutil::spec_lower_char(s@[i as int])
                    != crate::strutil::spec_lower_char(ident@[i as int]));
            }
            return false;
        }
        i = i + 1;
    }
    true
}

/// Whether `s` equals `ident`, ASCII case-insensitively.
fn eq_ci(s: &Vec<char>, ident: &Vec<char>) -> (r: bool)
    ensures
        r == spec_eq_ci(s@, ident@),
{
    if s.len() != ident.len() {
        return false;
    }
    has_prefix_ci(s, ident)
}

/// An IPv4 network address, as its 32 raw bits.
#[derive(Debug, Clone, Copy, PartialEq, Eq)]
pub struct Ipv4Rec {
    pub bits: u32,
}

impl Ipv4Rec {
    /// Assemble an address from its four dotted-quad octets.
    pub fn from_octets(a: u8, b: u8, c: u8, d: u8) -> (r: Ipv4Rec)
        ensures
            r.bits == spec_v4_bits(a, b, c, d),
    {
        Ipv4Rec { bits: ((a as u32) << 24) | ((b as u32) << 16) | ((c as u32) << 8) | (
        d as u32) }
    }
}

/// An IPv6 network address, as its 128 raw bits.
#[derive(Debug, Clone, Copy, PartialEq, Eq)]
pub struct Ipv6Rec {
    pub bits: u128,
}

/// The 32 bits of a dotted-quad address.
pub open spec fn spec_v4_bits(a: u8, b: u8, c: u8, d: u8) -> u32 {
    ((a as u32) << 24) | ((b as u32) << 16) | ((c as u32) << 8) | (d as u32)
}

/// One dotted-quad octet: digits only, no leading zero, at most 255.
pub open spec fn spec_parse_octet(p: Seq<char>) -> Option<u8> {
    match spec_parse_u8(p) {
        None => None,
        Some(v) => if p.len() > 1 && p[0] == '0' {
            None
        } else {
            Some(v)
        },
    }
}

/// What an IPv4 address parse yields.
pub open spec fn spec_parse_ipv4(s: Seq<char>) -> Option<u32> {
    let parts = crate::strutil::spec_split_on(s, '.');
    if parts.len() != 4 {
        None
    } else {
        match (
            spec_parse_octet(parts[0]),
            spec_parse_octet(parts[1]),
            spec_parse_octet(parts[2]),
            spec_parse_octet(parts[3]),
        ) {
            (Some(a), Some(b), Some(c), Some(d)) => Some(spec_v4_bits(a, b, c, d)),
            _ => None,
        }
    }
}

/// Parse one dotted-quad octet.
fn parse_octet(p: &Vec<char>) -> (r: Option<u8>)
    ensures
        r == spec_parse_octet(p@),
{
    proof {
        assert(p@.subrange(0, p@.len() as int) =~= p@);
    }
    match parse_u8_chars(p, 0, p.len()) {
        None => None,
        Some(v) => {
            if p.len() > 1 && p[0] == '0' {
                None
            } else {
                Some(v)
            }
        },
    }
}

/// Parse a dotted-quad IPv4 address.
fn parse_ipv4_chars(s: &Vec<char>) -> (r: Option<u32>)
    ensures
        r == spec_parse_ipv4(s@),
{
    let parts = crate::strutil::split_on(s, '.');
    proof {
        assert(crate::strutil::views_of(parts@) == crate::strutil::spec_split_on(
            s@,
            '.',
        ));
    }
    if parts.len() != 4 {
        return None;
    }
    proof {
        assert(parts@[0]@ == crate::strutil::views_of(parts@)[0]);
        assert(parts@[1]@ == crate::strutil::views_of(parts@)[1]);
        assert(parts@[2]@ == crate::strutil::views_of(parts@)[2]);
        assert(parts@[3]@ == crate::strutil::views_of(parts@)[3]);
    }
    let a = match parse_octet(&parts[0]) {
        Some(v) => v,
        None => {
            return None;
        },
    };
    let b = match parse_octet(&parts[1]) {
        Some(v) => v,
        None => {
            return None;
        },
    };
    let c = match parse_octet(&parts[2]) {
        Some(v) => v,
        None => {
            return None;
        },
    };
    let d = match parse_octet(&parts[3]) {
        Some(v) => v,
        None => {
            return None;
        },
    };
    Some(((a as u32) << 24) | ((b as u32) << 16) | ((c as u32) << 8) | (d as u32))
}

/// A hexadecimal digit's value, or `-1`.
pub open spec fn spec_hex_val(c: char) -> int {
    if '0' <= c <= '9' {
        c as int - '0' as int
    } else if 'a' <= c <= 'f' {
        c as int - 'a' as int + 10
    } else if 'A' <= c <= 'F' {
        c as int - 'A' as int + 10
    } else {
        -1
    }
}

/// Value of a hex-digit run (most significant first).
pub open spec fn spec_hex_value(p: Seq<char>) -> int
    decreases p.len(),
{
    if p.len() == 0 {
        0
    } else {
        spec_hex_value(p.drop_last()) * 16 + spec_hex_val(p.last())
    }
}

/// One IPv6 group: one to four hex digits.
pub open spec fn spec_parse_group(p: Seq<char>) -> Option<u16> {
    if 1 <= p.len() <= 4 && (forall|i: int| 0 <= i < p.len() ==> spec_hex_val(
        #[trigger] p[i],
    ) >= 0) {
        Some(spec_hex_value(p) as u16)
    } else {
        None
    }
}

/// First index where `::` begins, or `-1`.
pub open spec fn spec_find_dcolon(s: Seq<char>) -> int
    decreases s.len(),
{
    if s.len() < 2 {
        -1
    } else if s[0] == ':' && s[1] == ':' {
        0
    } else {
        let rest = spec_find_dcolon(s.drop_first());
        if rest < 0 {
            -1
        } else {
            rest + 1
        }
    }
}

/// Group values of a colon-separated list; `None` if any is invalid.
pub open spec fn spec_parse_groups(parts: Seq<Seq<char>>) -> Option<Seq<u16>>
    decreases parts.len(),
{
    if parts.len() == 0 {
        Some(Seq::empty())
    } else {
        match (spec_parse_groups(parts.drop_last()), spec_parse_group(parts.last())) {
            (Some(gs), Some(g)) => Some(gs.push(g)),
            _ => None,
        }
    }
}

/// The groups on one side of a `::` gap: none when the side is empty.
pub open spec fn spec_side_groups(side: Seq<char>) -> Option<Seq<u16>> {
    if side.len() == 0 {
        Some(Seq::empty())
    } else {
        spec_parse_groups(crate::strutil::spec_split_on(side, ':'))
    }
}

/// The 128 bits encoded by eight 16-bit groups.
pub open spec fn spec_v6_bits(gs: Seq<u16>) -> int
    decreases gs.len(),
{
    if gs.len() == 0 {
        0
    } else {
        spec_v6_bits(gs.drop_last()) * 0x10000 + gs.last()
    }
}

/// What an IPv6 address parse yields: eight hex groups, or two runs of
/// groups joined by one `::` gap standing for the missing zeros.
pub open spec fn spec_parse_ipv6(s: Seq<char>) -> Option<u128> {
    let d = spec_find_dcolon(s);
    if d < 0 {
        let parts = crate::strutil::spec_split_on(s, ':');
        if parts.len() == 8 {
            match spec_parse_groups(parts) {
                Some(gs) => Some(spec_v6_bits(gs) as u128),
                None => None,
            }
        } else {
            None
        }
    } else {
        let left = s.take(d);
        let right = s.skip(d + 2);
        if spec_find_dcolon(right) >= 0 {
            None
        } else {
            match (spec_side_groups(left), spec_side_groups(right)) {
                (Some(lg), Some(rg)) => {
                    if lg.len() + rg.len() <= 7 {
                        let padded = lg + Seq::new((8 - lg.len() - rg.len()) as nat,
                            |i: int| 0u16) + rg;
                        Some(spec_v6_bits(padded) as u128)
                    } else {
                        None
                    }
                },
                _ => None,
            }
        }
    }
}

/// Group values stay within sixteen bits.
proof fn lemma_v6_bits_bound(gs: Seq<u16>)
    ensures
        0 <= spec_v6_bits(gs) < pow16(gs.len()),
    decreases gs.len(),
{
    if gs.len() > 0 {
        lemma_v6_bits_bound(gs.drop_last());
        let prev = spec_v6_bits(gs.drop_last());
        assert(prev * 0x10000 + gs.last() < pow16((gs.len() - 1) as nat) * 0x10000)
            by (nonlinear_arith)
            requires
                0 <= prev < pow16((gs.len() - 1) as nat),
                0 <= gs.last() < 0x10000,
        ;
        assert(prev * 0x10000 + gs.last() >= 0) by (nonlinear_arith)
            requires
                prev >= 0,
                gs.last() >= 0,
        ;
    }
}

/// `0x10000^n`.
pub open spec fn pow16(n: nat) -> int
    decreases n,
{
    if n == 0 {
        1
    } else {
        0x10000 * pow16((n - 1) as nat)
    }
}

proof fn lemma_pow16_8()
    ensures
        pow16(8) == 0x1_0000_0000_0000_0000_0000_0000_0000_0000,
{
    assert(pow16(0) == 1);
    assert(pow16(1) == 0x10000);
    assert(pow16(2) == 0x1_0000_0000);
    assert(pow16(3) == 0x1_0000_0000_0000);
    assert(pow16(4) == 0x1_0000_0000_0000_0000);
    assert(pow16(5) == 0x1_0000_0000_0000_0000_0000);
    assert(pow16(6) == 0x1_0000_0000_0000_0000_0000_0000);
    assert(pow16(7) == 0x1_0000_0000_0000_0000_0000_0000_0000);
}

/// Parse one hex group.
fn parse_group(p: &Vec<char>) -> (r: Option<u16>)
    ensures
        r == spec_parse_group(p@),
{
    if p.len() < 1 || p.len() > 4 {
        return None;
    }
    let mut acc: u32 = 0;
    let mut i: usize = 0;
    proof {
        assert(p@.take(0) =~= Seq::<char>::empty());
    }
    while i < p.len()
        invariant
            i <= p@.len() <= 4,
            forall|j: int| 0 <= j < i ==> spec_hex_val(#[trigger] p@[j]) >= 0,
            acc == spec_hex_value(p@.take(i as int)),
            acc < hexpow(i as nat),
        decreases p.len() - i,
    {
        proof {
            lemma_hexpow_4();
        }
        let c = p[i];
        let v: u32 = if c >= '0' && c <= '9' {
            (c as u32) - ('0' as u32)
        } else if c >= 'a' && c <= 'f' {
            (c as u32) - ('a' as u32) + 10
        } else if c >= 'A' && c <= 'F' {
            (c as u32) - ('A' as u32) + 10
        } else {
            proof {
                assert(spec_hex_val(p@[i as int]) < 0);
            }
            return None;
        };
        proof {
            assert(p@.take(i + 1).drop_last() =~= p@.take(i as int));
            assert(p@.take(i + 1).last() == p@[i as int]);
            assert(v == spec_hex_val(p@[i as int]));
            assert(acc * 16 + v < hexpow((i + 1) as nat)) by (nonlinear_arith)
                requires
                    0 <= acc < hexpow(i as nat),
                    0 <= v < 16,
                    hexpow((i + 1) as nat) == 16 * hexpow(i as nat),
            ;
        }
        acc = acc * 16 + v;
        i = i + 1;
    }
    proof {
        assert(p@.take(p@.len() as int) =~= p@);
        lemma_hexpow_4();
        lemma_hexpow_le(p@.len() as nat);
    }
    Some(acc as u16)
}

/// `16^n`.
pub open spec fn hexpow(n: nat) -> int
    decreases n,
{
    if n == 0 {
        1
    } else {
        16 * hexpow((n - 1) as nat)
    }
}

proof fn lemma_hexpow_4()
    ensures
        hexpow(0) == 1,
        hexpow(1) == 16,
        hexpow(2) == 256,
        hexpow(3) == 4096,
        hexpow(4) == 0x10000,
{
}

proof fn lemma_hexpow_le(n: nat)
    requires
        n <= 4,
    ensures
        hexpow(n) <= 0x10000,
{
    lemma_hexpow_4();
}

/// Find the first `::` in `s`.
fn find_dcolon(s: &Vec<char>) -> (r: Option<usize>)
    ensures
        match r {
            Some(i) => i == spec_find_dcolon(s@) && i + 2 <= s@.len(),
            None => spec_find_dcolon(s@) < 0,
        },
{
    if s.len() < 2 {
        proof {
            lemma_find_dcolon_range(s@);
        }
        return None;
    }
    let mut i: usize = 0;
    proof {
        assert(s@.skip(0) =~= s@);
    }
    while i + 1 < s.len()
        invariant
            i + 1 <= s@.len(),
            spec_find_dcolon(s@) == if spec_find_dcolon(s@.skip(i as int)) < 0 {
                -1int
            } else {
                spec_find_dcolon(s@.skip(i as int)) + i
            },
            forall|j: int| 0 <= j < i ==> !(#[trigger] s@[j] == ':' && s@[j + 1] == ':'),
        decreases s.len() - i,
    {
        let ghost rem = s@.skip(i as int);
        proof {
            assert(rem.len() >= 2);
            assert(rem[0] == s@[i as int]);
            assert(rem[1] == s@[i + 1]);
        }
        if s[i] == ':' && s[i + 1] == ':' {
            proof {
                assert(spec_find_dcolon(rem) == 0);
            }
            return Some(i);
        }
        proof {
            assert(rem.drop_first() =~= s@.skip(i + 1));
            assert(spec_find_dcolon(rem) == if spec_find_dcolon(s@.skip(i + 1)) < 0 {
                -1int
            } else {
                spec_find_dcolon(s@.skip(i + 1)) + 1
            });
        }
        i = i + 1;
    }
    proof {
        assert(s@.skip(i as int).len() < 2);
        lemma_find_dcolon_range(s@);
    }
    None
}

proof fn lemma_find_dcolon_range(s: Seq<char>)
    ensures
        spec_find_dcolon(s) >= -1,
        spec_find_dcolon(s) >= 0 ==> spec_find_dcolon(s) <= s.len() - 2,
    decreases s.len(),
{
    if s.len() >= 2 && !(s[0] == ':' && s[1] == ':') {
        lemma_find_dcolon_range(s.drop_first());
    }
}

/// Parse a colon-separated group list.
fn parse_groups(parts: &Vec<Vec<char>>) -> (r: Option<Vec<u16>>)
    ensures
        match r {
            Some(gs) => spec_parse_groups(crate::strutil::views_of(parts@)) == Some(gs@)
                && gs@.len() == parts@.len(),
            None => spec_parse_groups(crate::strutil::views_of(parts@)) is None,
        },
{
    let ghost pv = crate::strutil::views_of(parts@);
    let mut gs: Vec<u16> = Vec::new();
    let mut i: usize = 0;
    proof {
        assert(pv.take(0) =~= Seq::<Seq<char>>::empty());
    }
    while i < parts.len()
        invariant
            i <= parts@.len(),
            pv == crate::strutil::views_of(parts@),
            spec_parse_groups(pv.take(i as int)) == Some(gs@),
            gs@.len() == i,
        decreases parts.len() - i,
    {
        proof {
            assert(pv.take(i + 1).drop_last() =~= pv.take(i as int));
            assert(pv.take(i + 1).last() == pv[i as int]);
            assert(parts@[i as int]@ == pv[i as int]);
        }
        match parse_group(&parts[i]) {
            Some(g) => {
                gs.push(g);
            },
            None => {
                proof {
                    lemma_parse_groups_bad_at(pv, i as int);
                }
                return None;
            },
        }
        i = i + 1;
    }
    proof {
        assert(pv.take(pv.len() as int) =~= pv);
    }
    Some(gs)
}

/// A bad group anywhere makes the whole list fail.
proof fn lemma_parse_groups_bad_at(pv: Seq<Seq<char>>, i: int)
    requires
        0 <= i < pv.len(),
        spec_parse_group(pv[i]) is None,
    ensures
        spec_parse_groups(pv) is None,
    decreases pv.len(),
{
    if pv.len() > 0 {
        if i == pv.len() - 1 {
        } else {
            assert(pv.drop_last()[i] == pv[i]);
            lemma_parse_groups_bad_at(pv.drop_last(), i);
        }
    }
}

/// Parse an IPv6 address.
fn parse_ipv6_chars(s: &Vec<char>) -> (r: Option<u128>)
    ensures
        r == spec_parse_ipv6(s@),
{
    match find_dcolon(s) {
        None => {
            let parts = crate::strutil::split_on(s, ':');
            if parts.len() != 8 {
                return None;
            }
            match parse_groups(&parts) {
                Some(gs) => Some(fold_groups(&gs)),
                None => None,
            }
        },
        Some(d) => {
            proof {
                lemma_find_dcolon_range(s@);
            }
            let n = s.len();
            let left = chars_subrange(s, 0, d);
            let right = chars_subrange(s, d + 2, n);
            proof {
                assert(left@ =~= s@.take(d as int));
                assert(right@ =~= s@.skip(d + 2));
            }
            match find_dcolon(&right) {
                Some(_) => None,
                None => {
                    let lg = match side_groups(&left) {
                        Some(g) => g,
                        None => {
                            return None;
                        },
                    };
                    let rg = match side_groups(&right) {
                        Some(g) => g,
                        None => {
                            return None;
                        },
                    };
                    if lg.len() > 7 || rg.len() > 7 - lg.len() {
                        proof {
                            assert(lg@.len() + rg@.len() > 7);
                        }
                        return None;
                    }
                    proof {
                        assert(lg@.len() + rg@.len() <= 7);
                    }
                    let ghost lgv = lg@;
                    let ghost rgv = rg@;
                    let mut padded: Vec<u16> = lg;
                    let gap = 8 - padded.len() - rg.len();
                    let mut z: usize = 0;
                    while z < gap
                        invariant
                            z <= gap,
                            gap == 8 - lgv.len() - rgv.len(),
                            padded@ =~= lgv + Seq::new(z as nat, |i: int| 0u16),
                        decreases gap - z,
                    {
                        padded.push(0);
                        proof {
                            assert(padded@ =~= lgv + Seq::new((z + 1) as nat, |i: int|
                                0u16));
                        }
                        z = z + 1;
                    }
                    let mut w: usize = 0;
                    while w < rg.len()
                        invariant
                            w <= rgv.len(),
                            rgv == rg@,
                            padded@ =~= lgv + Seq::new(
                                (8 - lgv.len() - rgv.len()) as nat,
                                |i: int| 0u16,
                            ) + rgv.take(w as int),
                        decreases rg.len() - w,
                    {
                        padded.push(rg[w]);
                        proof {
                            assert(rgv.take(w + 1) =~= rgv.take(w as int).push(
                                rgv[w as int],
                            ));
                        }
                        w = w + 1;
                    }
                    proof {
                        assert(rgv.take(rgv.len() as int) =~= rgv);
                    }
                    Some(fold_groups(&padded))
                },
            }
        },
    }
}

/// The groups of one side of a `::` gap.
fn side_groups(side: &Vec<char>) -> (r: Option<Vec<u16>>)
    ensures
        match r {
            Some(gs) => spec_side_groups(side@) == Some(gs@),
            None => spec_side_groups(side@) is None,
        },
{
    if side.len() == 0 {
        let empty: Vec<u16> = Vec::new();
        proof {
            assert(empty@ =~= Seq::<u16>::empty());
        }
        return Some(empty);
    }
    let parts = crate::strutil::split_on(side, ':');
    parse_groups(&parts)
}

/// Fold eight groups into the 128-bit address value.
fn fold_groups(gs: &Vec<u16>) -> (r: u128)
    requires
        gs@.len() == 8,
    ensures
        r == spec_v6_bits(gs@) as u128,
{
    let mut acc: u128 = 0;
    let mut i: usize = 0;
    proof {
        assert(gs@.take(0) =~= Seq::<u16>::empty());
    }
    while i < 8
        invariant
            i <= 8,
            gs@.len() == 8,
            acc == spec_v6_bits(gs@.take(i as int)),
            acc < pow16(i as nat),
        decreases 8 - i,
    {
        proof {
            assert(gs@.take(i + 1).drop_last() =~= gs@.take(i as int));
            assert(gs@.take(i + 1).last() == gs@[i as int]);
            lemma_pow16_8();
            lemma_pow16_mono((i + 1) as nat);
            assert(acc * 0x10000 + gs@[i as int] < pow16((i + 1) as nat))
                by (nonlinear_arith)
                requires
                    0 <= acc < pow16(i as nat),
                    0 <= gs@[i as int] < 0x10000,
                    pow16((i + 1) as nat) == 0x10000 * pow16(i as nat),
            ;
            assert(acc * 0x10000 + gs@[i as int] <= u128::MAX);
        }
        acc = acc * 0x10000 + (gs[i] as u128);
        i = i + 1;
    }
    proof {
        assert(gs@.take(8) =~= gs@);
    }
    acc
}

/// `pow16` grows with its exponent and stays within eight steps of the
/// 128-bit range.
proof fn lemma_pow16_mono(n: nat)
    requires
        n <= 8,
    ensures
        pow16(n) >= 1,
        pow16(n) <= 0x1_0000_0000_0000_0000_0000_0000_0000_0000,
    decreases n,
{
    lemma_pow16_8();
    if n > 0 {
        lemma_pow16_mono((n - 1) as nat);
        lemma_pow16_chain(n);
    }
}

proof fn lemma_pow16_chain(n: nat)
    requires
        1 <= n <= 8,
    ensures
        pow16(n) <= pow16(8),
        pow16(n) >= 1,
    decreases 8 - n,
{
    if n < 8 {
        lemma_pow16_chain((n + 1) as nat);
        assert(pow16((n + 1) as nat) == 0x10000 * pow16(n));
        assert(pow16(n) >= 1) by {
            lemma_pow16_pos(n);
        }
        assert(pow16(n) <= 0x10000 * pow16(n)) by (nonlinear_arith)
            requires
                pow16(n) >= 1,
        ;
    } else {
        lemma_pow16_pos(8);
    }
}

proof fn lemma_pow16_pos(n: nat)
    ensures
        pow16(n) >= 1,
    decreases n,
{
    if n > 0 {
        lemma_pow16_pos((n - 1) as nat);
        assert(0x10000 * pow16((n - 1) as nat) >= pow16((n - 1) as nat))
            by (nonlinear_arith)
            requires
                pow16((n - 1) as nat) >= 1,
        ;
    }
}

/// One mechanism of a directive.
#[derive(Debug, Clone, PartialEq, Eq)]
pub enum Mechanism {
    All,
    Include { domain: MacroSpec },
    A { domain: Option<MacroSpec>, cidr_len: DualCidrLength },
    Mx { domain: Option<MacroSpec>, cidr_len: DualCidrLength },
    Ptr { domain: Option<MacroSpec> },
    Ip4 { ip4_network: Ipv4Rec, cidr_len: u8 },
    Ip6 { ip6_network: Ipv6Rec, cidr_len: u8 },
    Exists { domain: MacroSpec },
}

/// A mechanism, at the specification level.
pub enum MechanismV {
    All,
    Include { domain: Seq<MacroElementV> },
    A { domain: Option<Seq<MacroElementV>>, cidr_len: DualCidrLength },
    Mx { domain: Option<Seq<MacroElementV>>, cidr_len: DualCidrLength },
    Ptr { domain: Option<Seq<MacroElementV>> },
    Ip4 { ip4_network: Ipv4Rec, cidr_len: u8 },
    Ip6 { ip6_network: Ipv6Rec, cidr_len: u8 },
    Exists { domain: Seq<MacroElementV> },
}

impl View for Mechanism {
    type V = MechanismV;

    open spec fn view(&self) -> MechanismV {
        match self {
            Mechanism::All => MechanismV::All,
            Mechanism::Include { domain } => MechanismV::Include { domain: domain@ },
            Mechanism::A { domain, cidr_len } => MechanismV::A {
                domain: match domain {
                    Some(m) => Some(m@),
                    None => None,
                },
                cidr_len: *cidr_len,
            },
            Mechanism::Mx { domain, cidr_len } => MechanismV::Mx {
                domain: match domain {
                    Some(m) => Some(m@),
                    None => None,
                },
                cidr_len: *cidr_len,
            },
            Mechanism::Ptr { domain } => MechanismV::Ptr {
                domain: match domain {
                    Some(m) => Some(m@),
                    None => None,
                },
            },
            Mechanism::Ip4 { ip4_network, cidr_len } => MechanismV::Ip4 {
                ip4_network: *ip4_network,
                cidr_len: *cidr_len,
            },
            Mechanism::Ip6 { ip6_network, cidr_len } => MechanismV::Ip6 {
                ip6_network: *ip6_network,
                cidr_len: *cidr_len,
            },
            Mechanism::Exists { domain } => MechanismV::Exists { domain: domain@ },
        }
    }
}

/// The domain part of an `a`, `mx` or `ptr` mechanism: a leading `:`
/// introduces a macro-string; an empty remainder means the current
/// domain.
pub open spec fn spec_opt_domain(remain: Seq<char>) -> Result<
    Option<Seq<MacroElementV>>,
    Seq<char>,
> {
    if remain.len() > 0 && remain[0] == ':' {
        match spec_parse_macro(remain.skip(1)) {
            Some(m) => Ok(Some(m)),
            None => Err(spec_macro_err(remain.skip(1))),
        }
    } else if remain.len() == 0 {
        Ok(None)
    } else {
        Err(Seq::empty())
    }
}

/// What `Mechanism::parse` yields on a term.
pub open spec fn spec_parse_mechanism(s: Seq<char>) -> Result<MechanismV, Seq<char>> {
    if spec_eq_ci(s, "all"@) {
        Ok(MechanismV::All)
    } else if spec_starts_ci(s, "include:"@) {
        let rest = s.skip("include:"@.len() as int);
        match spec_parse_macro(rest) {
            Some(m) => Ok(MechanismV::Include { domain: m }),
            None => Err(spec_macro_err(rest)),
        }
    } else if spec_starts_ci(s, "a"@) {
        let rest = s.skip("a"@.len() as int);
        match spec_parse_cidr_from_end(rest) {
            None => Err(spec_cidr_err(rest)),
            Some((remain, cidr)) => match spec_opt_domain(remain) {
                Ok(d) => Ok(MechanismV::A { domain: d, cidr_len: cidr }),
                Err(m) => if m.len() == 0 {
                    Err("invalid 'a' mechanism: "@ + s)
                } else {
                    Err(m)
                },
            },
        }
    } else if spec_starts_ci(s, "mx"@) {
        let rest = s.skip("mx"@.len() as int);
        match spec_parse_cidr_from_end(rest) {
            None => Err(spec_cidr_err(rest)),
            Some((remain, cidr)) => match spec_opt_domain(remain) {
                Ok(d) => Ok(MechanismV::Mx { domain: d, cidr_len: cidr }),
                Err(m) => if m.len() == 0 {
                    Err("invalid 'mx' mechanism: "@ + s)
                } else {
                    Err(m)
                },
            },
        }
    } else if spec_starts_ci(s, "ptr"@) {
        let remain = s.skip("ptr"@.len() as int);
        match spec_opt_domain(remain) {
            Ok(d) => Ok(MechanismV::Ptr { domain: d }),
            Err(m) => if m.len() == 0 {
                Err("invalid 'ptr' mechanism: "@ + s)
            } else {
                Err(m)
            },
        }
    } else if spec_starts_ci(s, "ip4:"@) {
        let remain = s.skip("ip4:"@.len() as int);
        let d = crate::strutil::spec_first_sep(remain, '/');
        if d < 0 {
            Err("invalid 'ip4' mechanism: "@ + s)
        } else {
            match (spec_parse_ipv4(remain.take(d)), spec_parse_u8(remain.skip(d + 1))) {
                (Some(net), Some(len)) => Ok(
                    MechanismV::Ip4 { ip4_network: Ipv4Rec { bits: net }, cidr_len: len },
                ),
                _ => Err("invalid 'ip4' mechanism: "@ + s),
            }
        }
    } else if spec_starts_ci(s, "ip6:"@) {
        let remain = s.skip("ip6:"@.len() as int);
        let d = crate::strutil::spec_first_sep(remain, '/');
        if d < 0 {
            Err("invalid 'ip6' mechanism: "@ + s)
        } else {
            match (spec_parse_ipv6(remain.take(d)), spec_parse_u8(remain.skip(d + 1))) {
                (Some(net), Some(len)) => Ok(
                    MechanismV::Ip6 { ip6_network: Ipv6Rec { bits: net }, cidr_len: len },
                ),
                _ => Err("invalid 'ip6' mechanism: "@ + s),
            }
        }
    } else if spec_starts_ci(s, "exists:"@) {
        let rest = s.skip("exists:"@.len() as int);
        match spec_parse_macro(rest) {
            Some(m) => Ok(MechanismV::Exists { domain: m }),
            None => Err(spec_macro_err(rest)),
        }
    } else {
        Err("invalid mechanism "@ + s)
    }
}

/// Concatenate a literal head and a tail into a `String`.
fn concat_msg(head: &str, tail: &Vec<char>) -> (r: String)
    ensures
        r@ == head@ + tail@,
{
    let mut msg = String::new();
    msg.append(head);
    let t = string_from_chars(tail);
    msg.append(t.as_str());
    proof {
        assert(msg@ =~= head@ + tail@);
    }
    msg
}

/// Parse the optional domain part of an `a`, `mx` or `ptr` mechanism.
/// The error is empty when the remainder is neither empty nor `:`-led.
fn opt_domain(remain: &Vec<char>) -> (r: Result<Option<MacroSpec>, String>)
    ensures
        match (r, spec_opt_domain(remain@)) {
            (Ok(d), Ok(dv)) => match (d, dv) {
                (Some(m), Some(mv)) => m@ == mv,
                (None, None) => true,
                _ => false,
            },
            (Err(m), Err(mv)) => m@ == mv,
            _ => false,
        },
{
    if remain.len() > 0 {
        let c = remain[0];
        if c == ':' {
            let rest = chars_subrange(remain, 1, remain.len());
            proof {
                assert(rest@ =~= remain@.skip(1));
            }
            match MacroSpec::parse_chars(&rest) {
                Ok(m) => Ok(Some(m)),
                Err(e) => Err(e),
            }
        } else {
            let empty = String::new();
            proof {
                assert(empty@ =~= Seq::<char>::empty());
            }
            Err(empty)
        }
    } else {
        Ok(None)
    }
}

impl Mechanism {
    /// Parse one mechanism term.
    pub fn parse(s: &str) -> (r: Result<Mechanism, String>)
        ensures
            match (r, spec_parse_mechanism(s@)) {
                (Ok(m), Ok(mv)) => m@ == mv,
                (Err(e), Err(ev)) => e@ == ev,
                _ => false,
            },
    {
        let cs = chars_of(s);
        Self::parse_chars(&cs)
    }

    /// Parse one mechanism term given as characters.
    pub fn parse_chars(cs: &Vec<char>) -> (r: Result<Mechanism, String>)
        ensures
            match (r, spec_parse_mechanism(cs@)) {
                (Ok(m), Ok(mv)) => m@ == mv,
                (Err(e), Err(ev)) => e@ == ev,
                _ => false,
            },
    {
        let n = cs.len();
        let kw_all = chars_of("all");
        if eq_ci(cs, &kw_all) {
            return Ok(Mechanism::All);
        }
        let kw_include = chars_of("include:");
        if has_prefix_ci(cs, &kw_include) {
            let rest = chars_subrange(cs, kw_include.len(), n);
            proof {
                assert(rest@ =~= cs@.skip("include:"@.len() as int));
            }
            return match MacroSpec::parse_chars(&rest) {
                Ok(m) => Ok(Mechanism::Include { domain: m }),
                Err(e) => Err(e),
            };
        }
        let kw_a = chars_of("a");
        if has_prefix_ci(cs, &kw_a) {
            let rest = chars_subrange(cs, kw_a.len(), n);
            proof {
                assert(rest@ =~= cs@.skip("a"@.len() as int));
            }
            let rest_str = string_from_chars(&rest);
            return match DualCidrLength::parse_from_end(rest_str.as_str()) {
                Err(e) => Err(e),
                Ok((remain, cidr)) => {
                    let remain_cs = chars_of(remain.as_str());
                    match opt_domain(&remain_cs) {
                        Ok(d) => Ok(Mechanism::A { domain: d, cidr_len: cidr }),
                        Err(m) => {
                            if m.as_str().is_empty() {
                                Err(concat_msg("invalid 'a' mechanism: ", cs))
                            } else {
                                Err(m)
                            }
                        },
                    }
                },
            };
        }
        let kw_mx = chars_of("mx");
        if has_prefix_ci(cs, &kw_mx) {
            let rest = chars_subrange(cs, kw_mx.len(), n);
            proof {
                assert(rest@ =~= cs@.skip("mx"@.len() as int));
            }
            let rest_str = string_from_chars(&rest);
            return match DualCidrLength::parse_from_end(rest_str.as_str()) {
                Err(e) => Err(e),
                Ok((remain, cidr)) => {
                    let remain_cs = chars_of(remain.as_str());
                    match opt_domain(&remain_cs) {
                        Ok(d) => Ok(Mechanism::Mx { domain: d, cidr_len: cidr }),
                        Err(m) => {
                            if m.as_str().is_empty() {
                                Err(concat_msg("invalid 'mx' mechanism: ", cs))
                            } else {
                                Err(m)
                            }
                        },
                    }
                },
            };
        }
        let kw_ptr = chars_of("ptr");
        if has_prefix_ci(cs, &kw_ptr) {
            let remain = chars_subrange(cs, kw_ptr.len(), n);
            proof {
                assert(remain@ =~= cs@.skip("ptr"@.len() as int));
            }
            return match opt_domain(&remain) {
                Ok(d) => Ok(Mechanism::Ptr { domain: d }),
                Err(m) => {
                    if m.as_str().is_empty() {
                        Err(concat_msg("invalid 'ptr' mechanism: ", cs))
                    } else {
                        Err(m)
                    }
                },
            };
        }
        let kw_ip4 = chars_of("ip4:");
        if has_prefix_ci(cs, &kw_ip4) {
            let remain = chars_subrange(cs, kw_ip4.len(), n);
            proof {
                assert(remain@ =~= cs@.skip("ip4:"@.len() as int));
            }
            return match find_first_sep(&remain, '/') {
                None => Err(concat_msg("invalid 'ip4' mechanism: ", cs)),
                Some(d) => {
                    let addr = chars_subrange(&remain, 0, d);
                    let lenpart_lo = d + 1;
                    proof {
                        assert(addr@ =~= remain@.take(d as int));
                        assert(remain@.subrange(d + 1, remain@.len() as int)
                            =~= remain@.skip(d + 1));
                    }
                    match (
                        parse_ipv4_chars(&addr),
                        parse_u8_chars(&remain, lenpart_lo, remain.len()),
                    ) {
                        (Some(net), Some(len)) => Ok(
                            Mechanism::Ip4 {
                                ip4_network: Ipv4Rec { bits: net },
                                cidr_len: len,
                            },
                        ),
                        _ => Err(concat_msg("invalid 'ip4' mechanism: ", cs)),
                    }
                },
            };
        }
        let kw_ip6 = chars_of("ip6:");
        if has_prefix_ci(cs, &kw_ip6) {
            let remain = chars_subrange(cs, kw_ip6.len(), n);
            proof {
                assert(remain@ =~= cs@.skip("ip6:"@.len() as int));
            }
            return match find_first_sep(&remain, '/') {
                None => Err(concat_msg("invalid 'ip6' mechanism: ", cs)),
                Some(d) => {
                    let addr = chars_subrange(&remain, 0, d);
                    let lenpart_lo = d + 1;
                    proof {
                        assert(addr@ =~= remain@.take(d as int));
                        assert(remain@.subrange(d + 1, remain@.len() as int)
                            =~= remain@.skip(d + 1));
                    }
                    match (
                        parse_ipv6_chars(&addr),
                        parse_u8_chars(&remain, lenpart_lo, remain.len()),
                    ) {
                        (Some(net), Some(len)) => Ok(
                            Mechanism::Ip6 {
                                ip6_network: Ipv6Rec { bits: net },
                                cidr_len: len,
                            },
                        ),
                        _ => Err(concat_msg("invalid 'ip6' mechanism: ", cs)),
                    }
                },
            };
        }
        let kw_exists = chars_of("exists:");
        if has_prefix_ci(cs, &kw_exists) {
            let rest = chars_subrange(cs, kw_exists.len(), n);
            proof {
                assert(rest@ =~= cs@.skip("exists:"@.len() as int));
            }
            return match MacroSpec::parse_chars(&rest) {
                Ok(m) => Ok(Mechanism::Exists { domain: m }),
                Err(e) => Err(e),
            };
        }
        Err(concat_msg("invalid mechanism ", cs))
    }
}

/// Find the first occurrence of `sep` in `s`.
fn find_first_sep(s: &Vec<char>, sep: char) -> (r: Option<usize>)
    ensures
        match r {
            Some(i) => i == crate::strutil::spec_first_sep(s@, sep) && i < s@.len(),
            None => crate::strutil::spec_first_sep(s@, sep) < 0,
        },
{
    let mut i: usize = 0;
    proof {
        assert(s@.skip(0) =~= s@);
    }
    while i < s.len()
        invariant
            i <= s@.len(),
            crate::strutil::spec_first_sep(s@, sep) == if crate::strutil::spec_first_sep(
                s@.skip(i as int),
                sep,
            ) < 0 {
                -1int
            } else {
                crate::strutil::spec_first_sep(s@.skip(i as int), sep) + i
            },
        decreases s.len() - i,
    {
        let ghost rem = s@.skip(i as int);
        proof {
            assert(rem[0] == s@[i as int]);
            assert(rem.drop_first() =~= s@.skip(i + 1));
        }
        if s[i] == sep {
            return Some(i);
        }
        i = i + 1;
    }
    None
}

/// A modifier term: `redirect=`, `exp=`, or an ignored unknown one.
#[derive(Debug, Clone, PartialEq, Eq)]
pub enum Modifier {
    Redirect(MacroSpec),
    Explanation(MacroSpec),
    Unknown,
}

/// A modifier, at the specification level.
pub enum ModifierV {
    Redirect(Seq<MacroElementV>),
    Explanation(Seq<MacroElementV>),
    Unknown,
}

impl View for Modifier {
    type V = ModifierV;

    open spec fn view(&self) -> ModifierV {
        match self {
            Modifier::Redirect(m) => ModifierV::Redirect(m@),
            Modifier::Explanation(m) => ModifierV::Explanation(m@),
            Modifier::Unknown => ModifierV::Unknown,
        }
    }
}

/// A character an unknown modifier's name may hold.
pub open spec fn spec_is_name_char(c: char) -> bool {
    ('a' <= c <= 'z') || ('A' <= c <= 'Z') || ('0' <= c <= '9') || c == '-' || c == '_'
        || c == '.'
}

/// What `Modifier::parse` yields on a term.
pub open spec fn spec_parse_modifier(s: Seq<char>) -> Result<ModifierV, Seq<char>> {
    if spec_starts_ci(s, "redirect="@) {
        let rest = s.skip("redirect="@.len() as int);
        match spec_parse_macro(rest) {
            Some(m) => Ok(ModifierV::Redirect(m)),
            None => Err(spec_macro_err(rest)),
        }
    } else if spec_starts_ci(s, "exp="@) {
        let rest = s.skip("exp="@.len() as int);
        match spec_parse_macro(rest) {
            Some(m) => Ok(ModifierV::Explanation(m)),
            None => Err(spec_macro_err(rest)),
        }
    } else {
        let d = crate::strutil::spec_first_sep(s, '=');
        if d < 0 {
            Err("invalid modifier "@ + s)
        } else {
            let name = s.take(d);
            if name.len() > 0 && (forall|i: int|
                0 <= i < name.len() ==> spec_is_name_char(#[trigger] name[i])) && (('a'
                <= name[0] <= 'z') || ('A' <= name[0] <= 'Z')) {
                Ok(ModifierV::Unknown)
            } else {
                Err("modifier name '"@ + name + "' is invalid"@)
            }
        }
    }
}

impl Modifier {
    /// Parse one modifier term.
    pub fn parse(s: &str) -> (r: Result<Modifier, String>)
        ensures
            match (r, spec_parse_modifier(s@)) {
                (Ok(m), Ok(mv)) => m@ == mv,
                (Err(e), Err(ev)) => e@ == ev,
                _ => false,
            },
    {
        let cs = chars_of(s);
        Self::parse_chars(&cs)
    }

    /// Parse one modifier term given as characters.
    pub fn parse_chars(cs: &Vec<char>) -> (r: Result<Modifier, String>)
        ensures
            match (r, spec_parse_modifier(cs@)) {
                (Ok(m), Ok(mv)) => m@ == mv,
                (Err(e), Err(ev)) => e@ == ev,
                _ => false,
            },
    {
        let n = cs.len();
        let kw_redirect = chars_of("redirect=");
        if has_prefix_ci(cs, &kw_redirect) {
            let rest = chars_subrange(cs, kw_redirect.len(), n);
            proof {
                assert(rest@ =~= cs@.skip("redirect="@.len() as int));
            }
            return match MacroSpec::parse_chars(&rest) {
                Ok(m) => Ok(Modifier::Redirect(m)),
                Err(e) => Err(e),
            };
        }
        let kw_exp = chars_of("exp=");
        if has_prefix_ci(cs, &kw_exp) {
            let rest = chars_subrange(cs, kw_exp.len(), n);
            proof {
                assert(rest@ =~= cs@.skip("exp="@.len() as int));
            }
            return match MacroSpec::parse_chars(&rest) {
                Ok(m) => Ok(Modifier::Explanation(m)),
                Err(e) => Err(e),
            };
        }
        match find_first_sep(cs, '=') {
            None => Err(concat_msg("invalid modifier ", cs)),
            Some(d) => {
                let name = chars_subrange(cs, 0, d);
                proof {
                    assert(name@ =~= cs@.take(d as int));
                }
                let mut valid: bool = name.len() > 0;
                if valid {
                    let c0 = name[0];
                    valid = (c0 >= 'a' && c0 <= 'z') || (c0 >= 'A' && c0 <= 'Z');
                }
                let mut i: usize = 0;
                while valid && i < name.len()
                    invariant
                        i <= name@.len(),
                        valid ==> forall|j: int|
                            0 <= j < i ==> spec_is_name_char(#[trigger] name@[j]),
                        valid ==> name@.len() > 0 && (('a' <= name@[0] <= 'z') || ('A'
                            <= name@[0] <= 'Z')),
                        !valid ==> !(name@.len() > 0 && (forall|j: int|
                            0 <= j < name@.len() ==> spec_is_name_char(
                                #[trigger] name@[j],
                            )) && (('a' <= name@[0] <= 'z') || ('A' <= name@[0]
                            <= 'Z'))),
                    decreases name.len() - i,
                {
                    let c = name[i];
                    if !((c >= 'a' && c <= 'z') || (c >= 'A' && c <= 'Z') || (c >= '0'
                        && c <= '9') || c == '-' || c == '_' || c == '.') {
                        proof {
                            assert(!spec_is_name_char(name@[i as int]));
                        }
                        valid = false;
                    }
                    i = i + 1;
                }
                if valid {
                    Ok(Modifier::Unknown)
                } else {
                    let mut msg = String::new();
                    msg.append("modifier name '");
                    let nm = string_from_chars(&name);
                    msg.append(nm.as_str());
                    msg.append("' is invalid");
                    proof {
                        assert(msg@ =~= "modifier name '"@ + name@ + "' is invalid"@);
                    }
                    Err(msg)
                }
            },
        }
    }
}

/// One directive: an optional qualifier and a mechanism.
#[derive(Debug, Clone, PartialEq, Eq)]
pub struct Directive {
    pub qualifier: Qualifier,
    pub mechanism: Mechanism,
}

/// A directive, at the specification level.
pub struct DirectiveV {
    pub qualifier: Qualifier,
    pub mechanism: MechanismV,
}

impl View for Directive {
    type V = DirectiveV;

    open spec fn view(&self) -> DirectiveV {
        DirectiveV { qualifier: self.qualifier, mechanism: self.mechanism@ }
    }
}

/// What `Directive::parse` yields on a term: an optional leading
/// qualifier character, then a mechanism.
pub open spec fn spec_parse_directive(s: Seq<char>) -> Result<DirectiveV, Seq<char>> {
    let (q, rest) = if s.len() > 0 && spec_parse_qualifier(seq![s[0]]) is Some {
        (spec_parse_qualifier(seq![s[0]])->0, s.skip(1))
    } else {
        (Qualifier::Pass, s)
    };
    match spec_parse_mechanism(rest) {
        Ok(m) => Ok(DirectiveV { qualifier: q, mechanism: m }),
        Err(e) => Err(e),
    }
}

impl Directive {
    /// Parse one directive term.
    pub fn parse(s: &str) -> (r: Result<Directive, String>)
        ensures
            match (r, spec_parse_directive(s@)) {
                (Ok(d), Ok(dv)) => d@ == dv,
                (Err(e), Err(ev)) => e@ == ev,
                _ => false,
            },
    {
        let cs = chars_of(s);
        Self::parse_chars(&cs)
    }

    /// Parse one directive term given as characters.
    pub fn parse_chars(cs: &Vec<char>) -> (r: Result<Directive, String>)
        ensures
            match (r, spec_parse_directive(cs@)) {
                (Ok(d), Ok(dv)) => d@ == dv,
                (Err(e), Err(ev)) => e@ == ev,
                _ => false,
            },
    {
        let mut qualifier = Qualifier::Pass;
        let mut from: usize = 0;
        if cs.len() > 0 {
            let c = cs[0];
            let q = if c == '+' {
                Some(Qualifier::Pass)
            } else if c == '-' {
                Some(Qualifier::Fail)
            } else if c == '~' {
                Some(Qualifier::SoftFail)
            } else if c == '?' {
                Some(Qualifier::Neutral)
            } else {
                None
            };
            proof {
                let sq = seq![cs@[0]];
                assert(sq[0] == cs@[0]);
                assert(seq!['+'][0] == '+' && seq!['-'][0] == '-' && seq!['~'][0] == '~'
                    && seq!['?'][0] == '?');
                if cs@[0] == '+' {
                    assert(sq =~= seq!['+']);
                } else if cs@[0] == '-' {
                    assert(sq =~= seq!['-']);
                } else if cs@[0] == '~' {
                    assert(sq =~= seq!['~']);
                } else if cs@[0] == '?' {
                    assert(sq =~= seq!['?']);
                }
                assert(q == spec_parse_qualifier(seq![cs@[0]]));
            }
            match q {
                Some(qv) => {
                    qualifier = qv;
                    from = 1;
                },
                None => {},
            }
        }
        let rest = chars_subrange(cs, from, cs.len());
        proof {
            if from == 1 {
                assert(rest@ =~= cs@.skip(1));
            } else {
                assert(rest@ =~= cs@);
            }
        }
        match Mechanism::parse_chars(&rest) {
            Ok(m) => Ok(Directive { qualifier, mechanism: m }),
            Err(e) => Err(e),
        }
    }
}

/// A parsed SPF record.
#[derive(Debug, Clone, PartialEq, Eq)]
pub struct Record {
    pub directives: Vec<Directive>,
    pub redirect: Option<MacroSpec>,
    pub explanation: Option<MacroSpec>,
}

/// A record, at the specification level.
pub struct RecordV {
    pub directives: Seq<DirectiveV>,
    pub redirect: Option<Seq<MacroElementV>>,
    pub explanation: Option<Seq<MacroElementV>>,
}

impl View for Record {
    type V = RecordV;

    open spec fn view(&self) -> RecordV {
        RecordV {
            directives: self.directives@.map_values(|d: Directive| d@),
            redirect: match &self.redirect {
                Some(m) => Some(m@),
                None => None,
            },
            explanation: match &self.explanation {
                Some(m) => Some(m@),
                None => None,
            },
        }
    }
}

/// Apply one record term to the record built so far.
pub open spec fn spec_record_step(t: Seq<char>, acc: RecordV) -> Result<RecordV, Seq<char>> {
    if t.len() == 0 {
        Err("invalid empty token"@)
    } else {
        match spec_parse_directive(t) {
            Ok(d) => {
                if acc.redirect is Some || acc.explanation is Some {
                    Err("directive after modifier"@)
                } else {
                    Ok(RecordV { directives: acc.directives.push(d), ..acc })
                }
            },
            Err(_) => match spec_parse_modifier(t) {
                Ok(ModifierV::Redirect(m)) => {
                    if acc.redirect is Some {
                        Err("duplicate redirect modifier"@)
                    } else {
                        Ok(RecordV { redirect: Some(m), ..acc })
                    }
                },
                Ok(ModifierV::Explanation(m)) => {
                    if acc.explanation is Some {
                        Err("duplicate explanation modifier"@)
                    } else {
                        Ok(RecordV { explanation: Some(m), ..acc })
                    }
                },
                Ok(ModifierV::Unknown) => Ok(acc),
                Err(_) => Err("invalid token '"@ + t + "'"@),
            },
        }
    }
}

/// Fold the terms of a record, token by token, onto the record built
/// so far.
pub open spec fn spec_record_fold(tokens: Seq<Seq<char>>, i: int, acc: RecordV) -> Result<
    RecordV,
    Seq<char>,
>
    decreases tokens.len() - i,
{
    if i < 0 || i >= tokens.len() {
        Ok(acc)
    } else {
        match spec_record_step(tokens[i], acc) {
            Ok(a2) => spec_record_fold(tokens, i + 1, a2),
            Err(e) => Err(e),
        }
    }
}

/// Splitting always yields at least one token.
proof fn lemma_split_on_nonempty(s: Seq<char>, sep: char)
    ensures
        crate::strutil::spec_split_on(s, sep).len() >= 1,
    decreases s.len(),
{
    crate::strutil::lemma_first_sep_range(s, sep);
    let d = crate::strutil::spec_first_sep(s, sep);
    if d >= 0 {
        lemma_split_on_nonempty(s.skip(d + 1), sep);
    }
}

/// Apply one record term.
fn record_step(rec: Record, t: &Vec<char>) -> (r: Result<Record, String>)
    ensures
        match (r, spec_record_step(t@, rec@)) {
            (Ok(r2), Ok(rv)) => r2@ == rv,
            (Err(e), Err(ev)) => e@ == ev,
            _ => false,
        },
{
    let ghost old_rec = rec@;
    let mut rec = rec;
    if t.len() == 0 {
        let msg = String::from_str("invalid empty token");
        proof {
            assert(msg@ =~= "invalid empty token"@);
        }
        return Err(msg);
    }
    match Directive::parse_chars(t) {
        Ok(d) => {
            if rec.redirect.is_some() || rec.explanation.is_some() {
                let msg = String::from_str("directive after modifier");
                proof {
                    assert(msg@ =~= "directive after modifier"@);
                }
                return Err(msg);
            }
            let ghost dv = d@;
            rec.directives.push(d);
            proof {
                assert(rec@.directives =~= old_rec.directives.push(dv));
            }
            Ok(rec)
        },
        Err(_) => {
            match Modifier::parse_chars(t) {
                Ok(Modifier::Redirect(m)) => {
                    if rec.redirect.is_some() {
                        let msg = String::from_str("duplicate redirect modifier");
                        proof {
                            assert(msg@ =~= "duplicate redirect modifier"@);
                        }
                        return Err(msg);
                    }
                    rec.redirect = Some(m);
                    Ok(rec)
                },
                Ok(Modifier::Explanation(m)) => {
                    if rec.explanation.is_some() {
                        let msg = String::from_str("duplicate explanation modifier");
                        proof {
                            assert(msg@ =~= "duplicate explanation modifier"@);
                        }
                        return Err(msg);
                    }
                    rec.explanation = Some(m);
                    Ok(rec)
                },
                Ok(Modifier::Unknown) => Ok(rec),
                Err(_) => {
                    let mut msg = String::new();
                    msg.append("invalid token '");
                    let tt = string_from_chars(t);
                    msg.append(tt.as_str());
                    msg.append("'");
                    proof {
                        assert(msg@ =~= "invalid token '"@ + t@ + "'"@);
                    }
                    Err(msg)
                },
            }
        },
    }
}

/// What `Record::parse` yields: the first space-separated token must
/// be `v=spf1`; the rest are directives and modifiers in order.
pub open spec fn spec_parse_record(s: Seq<char>) -> Result<RecordV, Seq<char>> {
    let tokens = crate::strutil::spec_split_on(s, ' ');
    if tokens[0] != "v=spf1"@ {
        Err("expected SPF version 1 in "@ + s)
    } else {
        spec_record_fold(
            tokens,
            1,
            RecordV { directives: Seq::empty(), redirect: None, explanation: None },
        )
    }
}

impl Record {
    /// Parse an SPF TXT record.
    pub fn parse(s: &str) -> (r: Result<Record, String>)
        ensures
            match (r, spec_parse_record(s@)) {
                (Ok(rec), Ok(rv)) => rec@ == rv,
                (Err(e), Err(ev)) => e@ == ev,
                _ => false,
            },
    {
        let cs = chars_of(s);
        let tokens = crate::strutil::split_on(&cs, ' ');
        let ghost tv = crate::strutil::views_of(tokens@);
        proof {
            lemma_split_on_nonempty(cs@, ' ');
            assert(tv == crate::strutil::spec_split_on(cs@, ' '));
            assert(tokens@[0]@ == tv[0]);
        }
        let version = chars_of("v=spf1");
        if !crate::strutil::chars_eq(&tokens[0], &version) {
            return Err(concat_msg("expected SPF version 1 in ", &cs));
        }
        let mut rec = Record { directives: Vec::new(), redirect: None, explanation: None };
        let mut i: usize = 1;
        proof {
            assert(rec@.directives =~= Seq::<DirectiveV>::empty());
            assert(spec_parse_record(cs@) == spec_record_fold(tv, 1, rec@));
        }
        while i < tokens.len()
            invariant
                1 <= i <= tokens@.len(),
                cs@ == s@,
                tv == crate::strutil::views_of(tokens@),
                spec_parse_record(cs@) == spec_record_fold(tv, i as int, rec@),
            decreases tokens.len() - i,
        {
            proof {
                assert(tokens@[i as int]@ == tv[i as int]);
            }
            let ghost recv = rec@;
            match record_step(rec, &tokens[i]) {
                Ok(r2) => {
                    proof {
                        assert(spec_record_fold(tv, i as int, recv) == spec_record_fold(
                            tv,
                            i + 1,
                            r2@,
                        ));
                    }
                    rec = r2;
                },
                Err(e) => {
                    proof {
                        assert(spec_record_fold(tv, i as int, recv) == Err::<
                            RecordV,
                            Seq<char>,
                        >(e@));
                    }
                    return Err(e);
                },
            }
            i = i + 1;
        }
        Ok(rec)
    }
}

/// The character of a decimal digit value.
pub open spec fn spec_digit_char(d: int) -> char {
    ((d + 48) as u8) as char
}

/// Decimal rendering of a non-negative number.
pub open spec fn spec_dec(n: int) -> Seq<char>
    decreases n,
{
    if n < 10 {
        seq![spec_digit_char(if n < 0 {
            0
        } else {
            n
        })]
    } else {
        spec_dec(n / 10).push(spec_digit_char(n % 10))
    }
}

/// Render a `u8` in decimal.
fn dec_u8(n: u8) -> (r: Vec<char>)
    ensures
        r@ == spec_dec(n as int),
    decreases n,
{
    if n < 10 {
        let mut v: Vec<char> = Vec::new();
        v.push(((n + 48) as u8) as char);
        proof {
            assert(v@ =~= seq![spec_digit_char(n as int)]);
        }
        v
    } else {
        let mut v = dec_u8(n / 10);
        v.push((((n % 10) + 48) as u8) as char);
        v
    }
}

/// Render a `u32` in decimal.
fn dec_u32(n: u32) -> (r: Vec<char>)
    ensures
        r@ == spec_dec(n as int),
    decreases n,
{
    if n < 10 {
        let mut v: Vec<char> = Vec::new();
        v.push(((n as u8) + 48) as char);
        proof {
            assert(v@ =~= seq![spec_digit_char(n as int)]);
        }
        v
    } else {
        let mut v = dec_u32(n / 10);
        v.push((((n % 10) as u8) + 48) as char);
        v
    }
}

/// The character of a hexadecimal digit value, lowercase.
pub open spec fn spec_hex_char(d: int) -> char {
    if d < 10 {
        ((d + 48) as u8) as char
    } else {
        ((d + 87) as u8) as char
    }
}

/// Hexadecimal rendering of a non-negative number, lowercase and
/// without leading zeros.
pub open spec fn spec_hex(n: int) -> Seq<char>
    decreases n,
{
    if n < 16 {
        seq![spec_hex_char(if n < 0 {
            0
        } else {
            n
        })]
    } else {
        spec_hex(n / 16).push(spec_hex_char(n % 16))
    }
}

/// Render a `u16` in lowercase hexadecimal.
fn hex_u16(n: u16) -> (r: Vec<char>)
    ensures
        r@ == spec_hex(n as int),
    decreases n,
{
    if n < 16 {
        let d = n as u8;
        let c: char = if d < 10 {
            ((d + 48) as u8) as char
        } else {
            ((d + 87) as u8) as char
        };
        let mut v: Vec<char> = Vec::new();
        v.push(c);
        proof {
            assert(v@ =~= seq![spec_hex_char(n as int)]);
        }
        v
    } else {
        let mut v = hex_u16(n / 16);
        let d = (n % 16) as u8;
        let c: char = if d < 10 {
            ((d + 48) as u8) as char
        } else {
            ((d + 87) as u8) as char
        };
        v.push(c);
        v
    }
}

/// The rendering of the CIDR suffix: nothing at the defaults, `/n`
/// for an IPv4 mask, and `/n//m` when the IPv6 mask is set too.
pub open spec fn spec_cidr_text(c: DualCidrLength) -> Seq<char> {
    if c.v4 == 32 && c.v6 == 128 {
        Seq::empty()
    } else {
        let head = seq!['/'] + spec_dec(c.v4 as int);
        if c.v6 != 128 {
            head + seq!['/'] + spec_dec(c.v6 as int)
        } else {
            head
        }
    }
}

impl DualCidrLength {
    /// Write the CIDR suffix the way a record holds it.
    pub fn to_text(&self) -> (r: String)
        ensures
            r@ == spec_cidr_text(*self),
    {
        let mut out: Vec<char> = Vec::new();
        if self.v4 == 32 && self.v6 == 128 {
            proof {
                assert(out@ =~= Seq::<char>::empty());
            }
            return string_from_chars(&out);
        }
        out.push('/');
        let d4 = dec_u8(self.v4);
        extend_from(&mut out, &d4);
        proof {
            assert(out@ =~= seq!['/'] + spec_dec(self.v4 as int));
        }
        if self.v6 != 128 {
            out.push('/');
            let d6 = dec_u8(self.v6);
            extend_from(&mut out, &d6);
            proof {
                assert(out@ =~= (seq!['/'] + spec_dec(self.v4 as int)) + seq!['/']
                    + spec_dec(self.v6 as int));
            }
        }
        string_from_chars(&out)
    }
}

/// Append a character vector to another.
fn extend_from(out: &mut Vec<char>, src: &Vec<char>)
    ensures
        final(out)@ == old(out)@ + src@,
{
    let mut j: usize = 0;
    while j < src.len()
        invariant
            j <= src@.len(),
            out@ =~= old(out)@ + src@.take(j as int),
        decreases src.len() - j,
    {
        out.push(src[j]);
        proof {
            assert(old(out)@ + src@.take(j + 1) =~= (old(out)@ + src@.take(
                j as int,
            )).push(src@[j as int]));
        }
        j = j + 1;
    }
    proof {
        assert(old(out)@ + src@.take(src@.len() as int) =~= old(out)@ + src@);
    }
}

/// The letter of a macro term, uppercase when it URL-escapes.
pub open spec fn spec_letter_char(name: MacroName, esc: bool) -> char {
    match (name, esc) {
        (MacroName::Sender, false) => 's',
        (MacroName::Sender, true) => 'S',
        (MacroName::LocalPart, false) => 'l',
        (MacroName::LocalPart, true) => 'L',
        (MacroName::SenderDomain, false) => 'o',
        (MacroName::SenderDomain, true) => 'O',
        (MacroName::Domain, false) => 'd',
        (MacroName::Domain, true) => 'D',
        (MacroName::Ip, false) => 'i',
        (MacroName::Ip, true) => 'I',
        (MacroName::ValidatedDomainName, false) => 'p',
        (MacroName::ValidatedDomainName, true) => 'P',
        (MacroName::IpVersion, false) => 'v',
        (MacroName::IpVersion, true) => 'V',
        (MacroName::HeloDomain, false) => 'h',
        (MacroName::HeloDomain, true) => 'H',
        (MacroName::SmtpClientIp, false) => 'c',
        (MacroName::SmtpClientIp, true) => 'C',
        (MacroName::RelayingHost, false) => 'r',
        (MacroName::RelayingHost, true) => 'R',
        (MacroName::CurrentTime, false) => 't',
        (MacroName::CurrentTime, true) => 'T',
    }
}

/// The rendering of one `%{...}` term.
pub open spec fn spec_term_text(t: MacroTermV) -> Seq<char> {
    seq!['%', '{'] + seq![spec_letter_char(t.name, t.url_escape)] + (match t
        .transformer_digits {
        Some(d) => spec_dec(d as int),
        None => Seq::empty(),
    }) + (if t.reverse {
        seq!['r']
    } else {
        Seq::<char>::empty()
    }) + t.delimiters + seq!['}']
}

/// A literal character written back into record syntax: `%` and the
/// space re-escape; everything else stands for itself.
pub open spec fn spec_escape_char(c: char) -> Seq<char> {
    if c == '%' {
        seq!['%', '%']
    } else if c == ' ' {
        seq!['%', '_']
    } else {
        seq![c]
    }
}

/// A literal run written back into record syntax.
pub open spec fn spec_escape_text(l: Seq<char>) -> Seq<char>
    decreases l.len(),
{
    if l.len() == 0 {
        Seq::empty()
    } else {
        spec_escape_text(l.drop_last()) + spec_escape_char(l.last())
    }
}

/// The rendering of a macro-string.
pub open spec fn spec_macro_text(elems: Seq<MacroElementV>) -> Seq<char>
    decreases elems.len(),
{
    if elems.len() == 0 {
        Seq::empty()
    } else {
        spec_macro_text(elems.drop_last()) + (match elems.last() {
            MacroElementV::Literal(l) => spec_escape_text(l),
            MacroElementV::Macro(t) => spec_term_text(t),
        })
    }
}

impl MacroSpec {
    /// Write the macro-string the way a record holds it.
    #[verifier::rlimit(60)]
    pub fn to_text(&self) -> (r: String)
        ensures
            r@ == spec_macro_text(self@),
    {
        let mut out: Vec<char> = Vec::new();
        let ghost ev = self@;
        let mut i: usize = 0;
        proof {
            assert(ev.take(0) =~= Seq::<MacroElementV>::empty());
            assert(out@ =~= spec_macro_text(ev.take(0)));
        }
        while i < self.elements.len()
            invariant
                i <= self.elements@.len(),
                ev == self@,
                out@ =~= spec_macro_text(ev.take(i as int)),
            decreases self.elements.len() - i,
        {
            proof {
                assert(ev.take(i + 1).drop_last() =~= ev.take(i as int));
                assert(ev.take(i + 1).last() == ev[i as int]);
                assert(ev[i as int] == self.elements@[i as int]@);
            }
            match &self.elements[i] {
                MacroElement::Literal(l) => {
                    let ghost lv = l@;
                    let mut j: usize = 0;
                    proof {
                        assert(lv.take(0) =~= Seq::<char>::empty());
                        assert(out@ =~= spec_macro_text(ev.take(i as int))
                            + spec_escape_text(lv.take(0)));
                    }
                    while j < l.len()
                        invariant
                            j <= l@.len(),
                            lv == l@,
                            out@ =~= spec_macro_text(ev.take(i as int))
                                + spec_escape_text(lv.take(j as int)),
                        decreases l.len() - j,
                    {
                        proof {
                            assert(lv.take(j + 1).drop_last() =~= lv.take(j as int));
                            assert(lv.take(j + 1).last() == lv[j as int]);
                        }
                        let c = l[j];
                        if c == '%' {
                            out.push('%');
                            out.push('%');
                        } else if c == ' ' {
                            out.push('%');
                            out.push('_');
                        } else {
                            out.push(c);
                        }
                        proof {
                            assert(out@ =~= spec_macro_text(ev.take(i as int))
                                + spec_escape_text(lv.take(j + 1)));
                        }
                        j = j + 1;
                    }
                    proof {
                        assert(lv.take(lv.len() as int) =~= lv);
                    }
                },
                MacroElement::Macro(t) => {
                    out.push('%');
                    out.push('{');
                    let letter: char = match (t.name, t.url_escape) {
                        (MacroName::Sender, false) => 's',
                        (MacroName::Sender, true) => 'S',
                        (MacroName::LocalPart, false) => 'l',
                        (MacroName::LocalPart, true) => 'L',
                        (MacroName::SenderDomain, false) => 'o',
                        (MacroName::SenderDomain, true) => 'O',
                        (MacroName::Domain, false) => 'd',
                        (MacroName::Domain, true) => 'D',
                        (MacroName::Ip, false) => 'i',
                        (MacroName::Ip, true) => 'I',
                        (MacroName::ValidatedDomainName, false) => 'p',
                        (MacroName::ValidatedDomainName, true) => 'P',
                        (MacroName::IpVersion, false) => 'v',
                        (MacroName::IpVersion, true) => 'V',
                        (MacroName::HeloDomain, false) => 'h',
                        (MacroName::HeloDomain, true) => 'H',
                        (MacroName::SmtpClientIp, false) => 'c',
                        (MacroName::SmtpClientIp, true) => 'C',
                        (MacroName::RelayingHost, false) => 'r',
                        (MacroName::RelayingHost, true) => 'R',
                        (MacroName::CurrentTime, false) => 't',
                        (MacroName::CurrentTime, true) => 'T',
                    };
                    out.push(letter);
                    match t.transformer_digits {
                        Some(d) => {
                            let ds = dec_u32(d);
                            extend_from(&mut out, &ds);
                        },
                        None => {},
                    }
                    if t.reverse {
                        out.push('r');
                    }
                    extend_from(&mut out, &t.delimiters);
                    out.push('}');
                    proof {
                        assert(out@ =~= spec_macro_text(ev.take(i as int))
                            + spec_term_text(t@));
                    }
                },
            }
            i = i + 1;
        }
        proof {
            assert(ev.take(ev.len() as int) =~= ev);
        }
        string_from_chars(&out)
    }
}

/// The rendering of an optional domain-spec argument.
pub open spec fn spec_opt_domain_text(d: Option<Seq<MacroElementV>>) -> Seq<char> {
    match d {
        Some(m) => seq![':'] + spec_macro_text(m),
        None => Seq::empty(),
    }
}

/// The rendering of a dotted-quad address.
pub open spec fn spec_v4_text(bits: u32) -> Seq<char> {
    spec_dec((bits >> 24u32) as int) + seq!['.'] + spec_dec(((bits >> 16u32) & 0xFF)
        as int) + seq!['.'] + spec_dec(((bits >> 8u32) & 0xFF) as int) + seq!['.']
        + spec_dec((bits & 0xFF) as int)
}

/// The rendering of an IPv6 address: eight lowercase hex groups, never
/// compressed.
pub open spec fn spec_v6_text(bits: u128) -> Seq<char> {
    spec_hex(((bits >> 112u128) & 0xFFFF) as int) + seq![':'] + spec_hex(((bits
        >> 96u128) & 0xFFFF) as int) + seq![':'] + spec_hex(((bits >> 80u128) & 0xFFFF)
        as int) + seq![':'] + spec_hex(((bits >> 64u128) & 0xFFFF) as int) + seq![':']
        + spec_hex(((bits >> 48u128) & 0xFFFF) as int) + seq![':'] + spec_hex(((bits
        >> 32u128) & 0xFFFF) as int) + seq![':'] + spec_hex(((bits >> 16u128) & 0xFFFF)
        as int) + seq![':'] + spec_hex((bits & 0xFFFF) as int)
}

/// The rendering of one mechanism.
pub open spec fn spec_mechanism_text(m: MechanismV) -> Seq<char> {
    match m {
        MechanismV::All => "all"@,
        MechanismV::Include { domain } => "include:"@ + spec_macro_text(domain),
        MechanismV::A { domain, cidr_len } => "a"@ + spec_opt_domain_text(domain)
            + spec_cidr_text(cidr_len),
        MechanismV::Mx { domain, cidr_len } => "mx"@ + spec_opt_domain_text(domain)
            + spec_cidr_text(cidr_len),
        MechanismV::Ptr { domain } => "ptr"@ + spec_opt_domain_text(domain),
        MechanismV::Ip4 { ip4_network, cidr_len } => "ip4:"@ + spec_v4_text(
            ip4_network.bits,
        ) + seq!['/'] + spec_dec(cidr_len as int),
        MechanismV::Ip6 { ip6_network, cidr_len } => "ip6:"@ + spec_v6_text(
            ip6_network.bits,
        ) + seq!['/'] + spec_dec(cidr_len as int),
        MechanismV::Exists { domain } => "exists:"@ + spec_macro_text(domain),
    }
}

/// Append an optional `:domain` argument.
fn push_opt_domain(out: &mut Vec<char>, domain: &Option<MacroSpec>)
    ensures
        final(out)@ == old(out)@ + spec_opt_domain_text(
            match domain {
                Some(m) => Some(m@),
                None => None,
            },
        ),
{
    match domain {
        Some(m) => {
            out.push(':');
            let text = m.to_text();
            let cs = chars_of(text.as_str());
            extend_from(out, &cs);
            proof {
                assert(final(out)@ =~= old(out)@ + (seq![':'] + spec_macro_text(m@)));
            }
        },
        None => {},
    }
}

impl Mechanism {
    /// Write the mechanism the way a record holds it.
    pub fn to_text(&self) -> (r: String)
        ensures
            r@ == spec_mechanism_text(self@),
    {
        let mut out: Vec<char> = Vec::new();
        match self {
            Mechanism::All => {
                let lit = chars_of("all");
                extend_from(&mut out, &lit);
                proof {
                    assert(out@ =~= "all"@);
                }
            },
            Mechanism::Include { domain } => {
                let lit = chars_of("include:");
                extend_from(&mut out, &lit);
                let text = domain.to_text();
                let cs = chars_of(text.as_str());
                extend_from(&mut out, &cs);
                proof {
                    assert(out@ =~= "include:"@ + spec_macro_text(domain@));
                }
            },
            Mechanism::A { domain, cidr_len } => {
                let lit = chars_of("a");
                extend_from(&mut out, &lit);
                push_opt_domain(&mut out, domain);
                let cidr = cidr_len.to_text();
                let cs = chars_of(cidr.as_str());
                extend_from(&mut out, &cs);
                proof {
                    assert(out@ =~= ("a"@ + spec_opt_domain_text(
                        match domain {
                            Some(m) => Some(m@),
                            None => None,
                        },
                    )) + spec_cidr_text(*cidr_len));
                }
            },
            Mechanism::Mx { domain, cidr_len } => {
                let lit = chars_of("mx");
                extend_from(&mut out, &lit);
                push_opt_domain(&mut out, domain);
                let cidr = cidr_len.to_text();
                let cs = chars_of(cidr.as_str());
                extend_from(&mut out, &cs);
                proof {
                    assert(out@ =~= ("mx"@ + spec_opt_domain_text(
                        match domain {
                            Some(m) => Some(m@),
                            None => None,
                        },
                    )) + spec_cidr_text(*cidr_len));
                }
            },
            Mechanism::Ptr { domain } => {
                let lit = chars_of("ptr");
                extend_from(&mut out, &lit);
                push_opt_domain(&mut out, domain);
                proof {
                    assert(out@ =~= "ptr"@ + spec_opt_domain_text(
                        match domain {
                            Some(m) => Some(m@),
                            None => None,
                        },
                    ));
                }
            },
            Mechanism::Ip4 { ip4_network, cidr_len } => {
                let lit = chars_of("ip4:");
                extend_from(&mut out, &lit);
                let bits = ip4_network.bits;
                let a = dec_u8((bits >> 24u32) as u8);
                extend_from(&mut out, &a);
                out.push('.');
                let b = dec_u8(((bits >> 16u32) & 0xFF) as u8);
                extend_from(&mut out, &b);
                out.push('.');
                let c = dec_u8(((bits >> 8u32) & 0xFF) as u8);
                extend_from(&mut out, &c);
                out.push('.');
                let d = dec_u8((bits & 0xFF) as u8);
                extend_from(&mut out, &d);
                out.push('/');
                let l = dec_u8(*cidr_len);
                extend_from(&mut out, &l);
                proof {
                    assert((bits >> 24u32) <= 0xFF) by (bit_vector);
                    assert(((bits >> 16u32) & 0xFF) <= 0xFF) by (bit_vector);
                    assert(((bits >> 8u32) & 0xFF) <= 0xFF) by (bit_vector);
                    assert((bits & 0xFF) <= 0xFF) by (bit_vector);
                    assert(out@ =~= "ip4:"@ + spec_v4_text(bits) + seq!['/'] + spec_dec(
                        *cidr_len as int,
                    ));
                }
            },
            Mechanism::Ip6 { ip6_network, cidr_len } => {
                let lit = chars_of("ip6:");
                extend_from(&mut out, &lit);
                let bits = ip6_network.bits;
                proof {
                    assert(((bits >> 112u128) & 0xFFFF) <= 0xFFFF) by (bit_vector);
                    assert(((bits >> 96u128) & 0xFFFF) <= 0xFFFF) by (bit_vector);
                    assert(((bits >> 80u128) & 0xFFFF) <= 0xFFFF) by (bit_vector);
                    assert(((bits >> 64u128) & 0xFFFF) <= 0xFFFF) by (bit_vector);
                    assert(((bits >> 48u128) & 0xFFFF) <= 0xFFFF) by (bit_vector);
                    assert(((bits >> 32u128) & 0xFFFF) <= 0xFFFF) by (bit_vector);
                    assert(((bits >> 16u128) & 0xFFFF) <= 0xFFFF) by (bit_vector);
                    assert((bits & 0xFFFF) <= 0xFFFF) by (bit_vector);
                }
                let g0 = hex_u16(((bits >> 112u128) & 0xFFFF) as u16);
                extend_from(&mut out, &g0);
                out.push(':');
                let g1 = hex_u16(((bits >> 96u128) & 0xFFFF) as u16);
                extend_from(&mut out, &g1);
                out.push(':');
                let g2 = hex_u16(((bits >> 80u128) & 0xFFFF) as u16);
                extend_from(&mut out, &g2);
                out.push(':');
                let g3 = hex_u16(((bits >> 64u128) & 0xFFFF) as u16);
                extend_from(&mut out, &g3);
                out.push(':');
                let g4 = hex_u16(((bits >> 48u128) & 0xFFFF) as u16);
                extend_from(&mut out, &g4);
                out.push(':');
                let g5 = hex_u16(((bits >> 32u128) & 0xFFFF) as u16);
                extend_from(&mut out, &g5);
                out.push(':');
                let g6 = hex_u16(((bits >> 16u128) & 0xFFFF) as u16);
                extend_from(&mut out, &g6);
                out.push(':');
                let g7 = hex_u16((bits & 0xFFFF) as u16);
                extend_from(&mut out, &g7);
                out.push('/');
                let l = dec_u8(*cidr_len);
                extend_from(&mut out, &l);
                proof {
                    assert(out@ =~= "ip6:"@ + spec_v6_text(bits) + seq!['/'] + spec_dec(
                        *cidr_len as int,
                    ));
                }
            },
            Mechanism::Exists { domain } => {
                let lit = chars_of("exists:");
                extend_from(&mut out, &lit);
                let text = domain.to_text();
                let cs = chars_of(text.as_str());
                extend_from(&mut out, &cs);
                proof {
                    assert(out@ =~= "exists:"@ + spec_macro_text(domain@));
                }
            },
        }
        string_from_chars(&out)
    }
}

/// The rendering of a directive: the qualifier (when it is not the
/// default `+`), then the mechanism.
pub open spec fn spec_directive_text(d: DirectiveV) -> Seq<char> {
    (if d.qualifier is Pass {
        Seq::<char>::empty()
    } else {
        spec_qualifier_text(d.qualifier)
    }) + spec_mechanism_text(d.mechanism)
}

impl Directive {
    /// Write the directive the way a record holds it.
    pub fn to_text(&self) -> (r: String)
        ensures
            r@ == spec_directive_text(self@),
    {
        let mut out: Vec<char> = Vec::new();
        let is_pass = match self.qualifier {
            Qualifier::Pass => true,
            _ => false,
        };
        if !is_pass {
            let q = self.qualifier.as_str();
            let qc = chars_of(q);
            extend_from(&mut out, &qc);
        }
        let m = self.mechanism.to_text();
        let mc = chars_of(m.as_str());
        extend_from(&mut out, &mc);
        proof {
            if self.qualifier is Pass {
                assert(out@ =~= Seq::<char>::empty() + spec_mechanism_text(
                    self.mechanism@,
                ));
            } else {
                assert(out@ =~= spec_qualifier_text(self.qualifier)
                    + spec_mechanism_text(self.mechanism@));
            }
        }
        string_from_chars(&out)
    }
}

} // verus!
