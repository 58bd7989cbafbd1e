//! SPF evaluation decisions.
//!
//! Evaluating a record needs DNS answers; those lookups happen outside
//! this library. Everything here is the pure part of the decision: CIDR
//! matching against resolved addresses, the outcome of a single
//! directive given its resolver answers, and the fold that combines the
//! directives' outcomes into the record's result. The callers hand in
//! resolver answers as plain values, so every function here is total
//! and verified for every possible answer.

use crate::spf::{DualCidrLength, Ipv4Rec, Ipv6Rec, Qualifier};
use crate::strutil::{lower_chars, spec_lower};
use vstd::prelude::*;

verus! {

/// The outcome of an SPF check, per RFC 7208.
#[derive(Debug, Clone, Copy, PartialEq, Eq)]
pub enum SpfDisposition {
    /// No SPF record was found.
    NoRecord,
    Neutral,
    Pass,
    Fail,
    SoftFail,
    TempError,
    PermError,
}

/// An SPF outcome with its explanatory context.
#[derive(Debug, Clone, PartialEq, Eq)]
pub struct SpfResult {
    pub disposition: SpfDisposition,
    pub context: String,
}

/// The lowercase rendering of a disposition.
pub open spec fn spec_disposition_text(d: SpfDisposition) -> Seq<char> {
    match d {
        SpfDisposition::NoRecord => "none"@,
        SpfDisposition::Neutral => "neutral"@,
        SpfDisposition::Pass => "pass"@,
        SpfDisposition::Fail => "fail"@,
        SpfDisposition::SoftFail => "softfail"@,
        SpfDisposition::TempError => "temperror"@,
        SpfDisposition::PermError => "permerror"@,
    }
}

impl SpfDisposition {
    /// The disposition a matching directive reports, by its qualifier.
    pub fn from_qualifier(q: Qualifier) -> (r: SpfDisposition)
        ensures
            r == spec_disposition_of(q),
    {
        match q {
            Qualifier::Pass => SpfDisposition::Pass,
            Qualifier::Fail => SpfDisposition::Fail,
            Qualifier::SoftFail => SpfDisposition::SoftFail,
            Qualifier::Neutral => SpfDisposition::Neutral,
        }
    }

    /// The lowercase name of this disposition.
    pub fn as_str(&self) -> (r: &'static str)
        ensures
            r@ == spec_disposition_text(*self),
    {
        proof {
            reveal_strlit("none");
            reveal_strlit("neutral");
            reveal_strlit("pass");
            reveal_strlit("fail");
            reveal_strlit("softfail");
            reveal_strlit("temperror");
            reveal_strlit("permerror");
        }
        match self {
            SpfDisposition::NoRecord => "none",
            SpfDisposition::Neutral => "neutral",
            SpfDisposition::Pass => "pass",
            SpfDisposition::Fail => "fail",
            SpfDisposition::SoftFail => "softfail",
            SpfDisposition::TempError => "temperror",
            SpfDisposition::PermError => "permerror",
        }
    }
}

/// The disposition a qualifier stands for.
pub open spec fn spec_disposition_of(q: Qualifier) -> SpfDisposition {
    match q {
        Qualifier::Pass => SpfDisposition::Pass,
        Qualifier::Fail => SpfDisposition::Fail,
        Qualifier::SoftFail => SpfDisposition::SoftFail,
        Qualifier::Neutral => SpfDisposition::Neutral,
    }
}

/// A resolved IP address, either version.
#[derive(Debug, Clone, Copy, PartialEq, Eq)]
pub enum IpRec {
    V4(Ipv4Rec),
    V6(Ipv6Rec),
}

/// The IPv4 mask with the top `len` bits set.
pub open spec fn spec_v4_mask(len: u8) -> u32 {
    if len == 0 {
        0u32
    } else if len >= 32 {
        u32::MAX
    } else {
        u32::MAX << ((32 - len) as u32)
    }
}

/// The IPv6 mask with the top `len` bits set.
pub open spec fn spec_v6_mask(len: u8) -> u128 {
    if len == 0 {
        0u128
    } else if len >= 128 {
        u128::MAX
    } else {
        u128::MAX << ((128 - len) as u128)
    }
}

/// Whether the observed address falls in the specified network, under
/// the mask lengths: addresses of different versions never match.
pub open spec fn spec_cidr_matches(c: DualCidrLength, observed: IpRec, specified: IpRec) -> bool {
    match (observed, specified) {
        (IpRec::V4(o), IpRec::V4(sp)) => (o.bits & spec_v4_mask(c.v4)) == (sp.bits
            & spec_v4_mask(c.v4)),
        (IpRec::V6(o), IpRec::V6(sp)) => (o.bits & spec_v6_mask(c.v6)) == (sp.bits
            & spec_v6_mask(c.v6)),
        _ => false,
    }
}

impl DualCidrLength {
    /// Whether the `observed` address (the client's IP) matches the
    /// `specified` address (from the SPF record), given the mask
    /// lengths.
    pub fn matches(&self, observed: IpRec, specified: IpRec) -> (r: bool)
        ensures
            r == spec_cidr_matches(*self, observed, specified),
    {
        match (observed, specified) {
            (IpRec::V4(o), IpRec::V4(sp)) => {
                let mask: u32 = if self.v4 == 0 {
                    0
                } else if self.v4 >= 32 {
                    u32::MAX
                } else {
                    u32::MAX << ((32 - self.v4) as u32)
                };
                (o.bits & mask) == (sp.bits & mask)
            },
            (IpRec::V6(o), IpRec::V6(sp)) => {
                let mask: u128 = if self.v6 == 0 {
                    0
                } else if self.v6 >= 128 {
                    u128::MAX
                } else {
                    u128::MAX << ((128 - self.v6) as u128)
                };
                (o.bits & mask) == (sp.bits & mask)
            },
            _ => false,
        }
    }
}

/// Whether any of the resolved addresses matches the client under the
/// mask lengths.
pub open spec fn spec_any_match(c: DualCidrLength, client: IpRec, ips: Seq<IpRec>) -> bool {
    exists|i: int| 0 <= i < ips.len() && spec_cidr_matches(c, client, #[trigger] ips[i])
}

/// The `a` mechanism's answer, given the domain's resolved addresses.
pub fn a_matches(c: &DualCidrLength, client: IpRec, resolved: &Vec<IpRec>) -> (r: bool)
    ensures
        r == spec_any_match(*c, client, resolved@),
{
    let mut i: usize = 0;
    while i < resolved.len()
        invariant
            i <= resolved@.len(),
            forall|j: int| 0 <= j < i ==> !spec_cidr_matches(*c, client, #[trigger] resolved@[j]),
        decreases resolved.len() - i,
    {
        if c.matches(client, resolved[i]) {
            return true;
        }
        i = i + 1;
    }
    false
}

/// The `mx` mechanism's answer, given each exchange's resolved
/// addresses.
pub fn mx_matches(c: &DualCidrLength, client: IpRec, exchanges: &Vec<Vec<IpRec>>) -> (r:
    bool)
    ensures
        r == exists|i: int|
            0 <= i < exchanges@.len() && spec_any_match(
                *c,
                client,
                (#[trigger] exchanges@[i])@,
            ),
{
    let mut i: usize = 0;
    while i < exchanges.len()
        invariant
            i <= exchanges@.len(),
            forall|j: int| 0 <= j < i ==> !spec_any_match(
                *c,
                client,
                (#[trigger] exchanges@[j])@,
            ),
        decreases exchanges.len() - i,
    {
        if a_matches(c, client, &exchanges[i]) {
            return true;
        }
        i = i + 1;
    }
    false
}

/// The `exists` mechanism's answer: any IPv4 answer at all.
pub fn exists_matches(resolved: &Vec<IpRec>) -> (r: bool)
    ensures
        r == exists|i: int| 0 <= i < resolved@.len() && (#[trigger] resolved@[i]) is V4,
{
    let mut i: usize = 0;
    while i < resolved.len()
        invariant
            i <= resolved@.len(),
            forall|j: int| 0 <= j < i ==> !((#[trigger] resolved@[j]) is V4),
        decreases resolved.len() - i,
    {
        match resolved[i] {
            IpRec::V4(_) => {
                return true;
            },
            IpRec::V6(_) => {},
        }
        i = i + 1;
    }
    false
}

/// Whether `name` lies in the zone `zone`: equal to it, or under it at
/// a label boundary, ASCII case-insensitively.
pub open spec fn spec_in_zone(zone: Seq<char>, name: Seq<char>) -> bool {
    let z = spec_lower(zone);
    let n = spec_lower(name);
    z.len() <= n.len() && n.skip(n.len() - z.len()) == z && (n.len() == z.len() || n[
        n.len() - z.len() - 1] == '.')
}

/// Decide whether `name` lies in the zone `zone`.
pub fn in_zone(zone: &Vec<char>, name: &Vec<char>) -> (r: bool)
    ensures
        r == spec_in_zone(zone@, name@),
{
    let z = lower_chars(zone);
    let n = lower_chars(name);
    if z.len() > n.len() {
        return false;
    }
    let start = n.len() - z.len();
    let mut i: usize = 0;
    while i < z.len()
        invariant
            i <= z@.len() <= n@.len(),
            n@.len() <= usize::MAX,
            start == n@.len() - z@.len(),
            n@ == spec_lower(name@),
            z@ == spec_lower(zone@),
            forall|j: int| 0 <= j < i ==> n@[start + j] == z@[j],
        decreases z.len() - i,
    {
        if n[start + i] != z[i] {
            proof {
                assert(spec_lower(name@).skip(start as int)[i as int] != spec_lower(
                    zone@,
                )[i as int]);
            }
            return false;
        }
        i = i + 1;
    }
    proof {
        assert(spec_lower(name@).skip(start as int) =~= spec_lower(zone@));
    }
    if start == 0 {
        true
    } else {
        let boundary = n[start - 1];
        boundary == '.'
    }
}

/// One PTR candidate: a reverse name and the addresses it resolves to.
#[derive(Debug, Clone, PartialEq, Eq)]
pub struct PtrCandidate {
    pub name: Vec<char>,
    pub addrs: Vec<IpRec>,
}

/// Whether a PTR candidate validates the client: its name lies in the
/// target zone and one of its addresses is the client's.
pub open spec fn spec_ptr_validates(
    zone: Seq<char>,
    client: IpRec,
    name: Seq<char>,
    addrs: Seq<IpRec>,
) -> bool {
    spec_in_zone(zone, name) && exists|i: int| 0 <= i < addrs.len() && #[trigger] addrs[i]
        == client
}

/// The `ptr` mechanism's answer, given the client's PTR names and each
/// name's resolved addresses.
pub fn ptr_matches(zone: &Vec<char>, client: IpRec, candidates: &Vec<PtrCandidate>) -> (r:
    bool)
    ensures
        r == exists|i: int|
            0 <= i < candidates@.len() && spec_ptr_validates(
                zone@,
                client,
                (#[trigger] candidates@[i]).name@,
                candidates@[i].addrs@,
            ),
{
    let mut i: usize = 0;
    while i < candidates.len()
        invariant
            i <= candidates@.len(),
            forall|j: int| 0 <= j < i ==> !spec_ptr_validates(
                zone@,
                client,
                (#[trigger] candidates@[j]).name@,
                candidates@[j].addrs@,
            ),
        decreases candidates.len() - i,
    {
        let cand = &candidates[i];
        if in_zone(zone, &cand.name) {
            let mut k: usize = 0;
            let mut hit: bool = false;
            while k < cand.addrs.len()
                invariant
                    k <= cand.addrs@.len(),
                    cand == candidates@[i as int],
                    hit == exists|m: int| 0 <= m < k && #[trigger] cand.addrs@[m]
                        == client,
                decreases cand.addrs.len() - k,
            {
                let a = cand.addrs[k];
                let same = match (a, client) {
                    (IpRec::V4(x), IpRec::V4(y)) => x.bits == y.bits,
                    (IpRec::V6(x), IpRec::V6(y)) => x.bits == y.bits,
                    _ => false,
                };
                if same {
                    proof {
                        assert(cand.addrs@[k as int] == client);
                    }
                    hit = true;
                }
                k = k + 1;
            }
            if hit {
                return true;
            }
        }
        i = i + 1;
    }
    false
}

/// The outcome of evaluating one directive against its resolver
/// answers.
#[derive(Debug, Clone, PartialEq, Eq)]
pub enum DirectiveOutcome {
    /// The mechanism matched: report the directive's disposition.
    Match(SpfDisposition, String),
    /// The mechanism did not match: continue with the next directive.
    NoMatch,
    /// Evaluation failed outright (a lookup error, a bad nested
    /// record): report this instead of going on.
    Error(SpfDisposition, String),
}

/// What the evaluation fold decides.
#[derive(Debug, Clone, PartialEq, Eq)]
pub enum EvalOutcome {
    /// A directive settled the check.
    Done(SpfDisposition, String),
    /// A `fail` directive matched; redirect and explanation handling
    /// may still refine it.
    FailPending(String),
    /// No directive matched.
    NoneMatched,
}

/// A fold decision at the specification level.
pub enum EvalOutcomeV {
    Done(SpfDisposition, Seq<char>),
    FailPending(Seq<char>),
    NoneMatched,
}

impl View for EvalOutcome {
    type V = EvalOutcomeV;

    open spec fn view(&self) -> EvalOutcomeV {
        match self {
            EvalOutcome::Done(d, c) => EvalOutcomeV::Done(*d, c@),
            EvalOutcome::FailPending(c) => EvalOutcomeV::FailPending(c@),
            EvalOutcome::NoneMatched => EvalOutcomeV::NoneMatched,
        }
    }
}

/// An outcome at the specification level.
pub enum DirectiveOutcomeV {
    Match(SpfDisposition, Seq<char>),
    NoMatch,
    Error(SpfDisposition, Seq<char>),
}

impl View for DirectiveOutcome {
    type V = DirectiveOutcomeV;

    open spec fn view(&self) -> DirectiveOutcomeV {
        match self {
            DirectiveOutcome::Match(d, c) => DirectiveOutcomeV::Match(*d, c@),
            DirectiveOutcome::NoMatch => DirectiveOutcomeV::NoMatch,
            DirectiveOutcome::Error(d, c) => DirectiveOutcomeV::Error(*d, c@),
        }
    }
}

/// Combine directive outcomes in order: the first error or non-`fail`
/// match settles the check; a `fail` match stops the walk but stays
/// refinable; otherwise nothing matched.
pub open spec fn spec_combine_outcomes(outcomes: Seq<DirectiveOutcomeV>, i: int) -> EvalOutcomeV
    decreases outcomes.len() - i,
{
    if i < 0 || i >= outcomes.len() {
        EvalOutcomeV::NoneMatched
    } else {
        match outcomes[i] {
            DirectiveOutcomeV::Match(d, c) => {
                if d == SpfDisposition::Fail {
                    EvalOutcomeV::FailPending(c)
                } else {
                    EvalOutcomeV::Done(d, c)
                }
            },
            DirectiveOutcomeV::NoMatch => spec_combine_outcomes(outcomes, i + 1),
            DirectiveOutcomeV::Error(d, c) => EvalOutcomeV::Done(d, c),
        }
    }
}

/// Walk the directive outcomes in order and produce the record's
/// outcome (before any `redirect` or `exp` handling).
pub fn combine_outcomes(outcomes: &Vec<DirectiveOutcome>) -> (r: EvalOutcome)
    ensures
        r@ == spec_combine_outcomes(outcomes@.map_values(|o: DirectiveOutcome| o@), 0),
{
    let ghost ov = outcomes@.map_values(|o: DirectiveOutcome| o@);
    let mut i: usize = 0;
    while i < outcomes.len()
        invariant
            i <= outcomes@.len(),
            ov == outcomes@.map_values(|o: DirectiveOutcome| o@),
            spec_combine_outcomes(ov, 0) == spec_combine_outcomes(ov, i as int),
        decreases outcomes.len() - i,
    {
        proof {
            assert(ov[i as int] == outcomes@[i as int]@);
        }
        match &outcomes[i] {
            DirectiveOutcome::Match(d, c) => {
                let c2 = c.clone();
                let is_fail = match d {
                    SpfDisposition::Fail => true,
                    _ => false,
                };
                if is_fail {
                    return EvalOutcome::FailPending(c2);
                }
                return EvalOutcome::Done(*d, c2);
            },
            DirectiveOutcome::NoMatch => {},
            DirectiveOutcome::Error(d, c) => {
                return EvalOutcome::Done(*d, c.clone());
            },
        }
        i = i + 1;
    }
    EvalOutcome::NoneMatched
}

/// What an `include` mechanism concludes from its nested check: a
/// pass matches, the soft outcomes fall through to the next directive,
/// a temporary error propagates as one, and a permanent error or a
/// missing record poisons the whole evaluation.
#[derive(Debug, Clone, Copy, PartialEq, Eq)]
pub enum IncludeOutcome {
    Matched,
    NotMatched,
    Error(SpfDisposition),
}

/// The mapping from a nested check's disposition to the `include`
/// mechanism's conclusion.
pub open spec fn spec_include_outcome(nested: SpfDisposition) -> IncludeOutcome {
    match nested {
        SpfDisposition::Pass => IncludeOutcome::Matched,
        SpfDisposition::Fail | SpfDisposition::SoftFail | SpfDisposition::Neutral => IncludeOutcome::NotMatched,
        SpfDisposition::TempError => IncludeOutcome::Error(SpfDisposition::TempError),
        SpfDisposition::PermError | SpfDisposition::NoRecord => IncludeOutcome::Error(
            SpfDisposition::PermError,
        ),
    }
}

/// Conclude an `include` mechanism from its nested check's result.
pub fn include_outcome(nested: SpfDisposition) -> (r: IncludeOutcome)
    ensures
        r == spec_include_outcome(nested),
{
    match nested {
        SpfDisposition::Pass => IncludeOutcome::Matched,
        SpfDisposition::Fail | SpfDisposition::SoftFail | SpfDisposition::Neutral => IncludeOutcome::NotMatched,
        SpfDisposition::TempError => IncludeOutcome::Error(SpfDisposition::TempError),
        SpfDisposition::PermError | SpfDisposition::NoRecord => IncludeOutcome::Error(
            SpfDisposition::PermError,
        ),
    }
}

} // verus!
