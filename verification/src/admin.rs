//! The administrative surface: matching directives against queues.
//!
//! A queue name is `campaign:tenant@domain`, with the campaign and
//! tenant parts optional. An administrative directive names any subset
//! of the three components; it matches a queue when every component it
//! names equals the queue's. Bouncing everything must be asked for in
//! so many words.

use crate::strutil::{chars_of, chars_eq, chars_subrange, spec_first_sep, string_from_chars};
use vstd::prelude::*;

verus! {

/// The parsed components of a queue name.
#[derive(Debug, Clone, PartialEq, Eq)]
pub struct QueueNameComponents {
    pub campaign: Option<String>,
    pub tenant: Option<String>,
    pub domain: String,
}

/// Where the campaign part of `name` ends: the first `:`, if any
/// comes ahead of the `@`.
pub open spec fn spec_name_components(name: Seq<char>) -> (
    Option<Seq<char>>,
    Option<Seq<char>>,
    Seq<char>,
) {
    let at = spec_first_sep(name, '@');
    let local = if at < 0 {
        Seq::<char>::empty()
    } else {
        name.take(at)
    };
    let domain = if at < 0 {
        name
    } else {
        name.skip(at + 1)
    };
    let colon = spec_first_sep(local, ':');
    if at < 0 {
        (None, None, domain)
    } else if colon < 0 {
        (
            None,
            if local.len() == 0 {
                None
            } else {
                Some(local)
            },
            domain,
        )
    } else {
        (Some(local.take(colon)), Some(local.skip(colon + 1)), domain)
    }
}

/// Break a queue name into campaign, tenant and domain.
pub fn parse_queue_name(name: &str) -> (r: QueueNameComponents)
    ensures
        ({
            let (c, t, d) = spec_name_components(name@);
            &&& match (r.campaign, c) {
                (Some(a), Some(b)) => a@ == b,
                (None, None) => true,
                _ => false,
            }
            &&& match (r.tenant, t) {
                (Some(a), Some(b)) => a@ == b,
                (None, None) => true,
                _ => false,
            }
            &&& r.domain@ == d
        }),
{
    let cs = chars_of(name);
    let n = cs.len();
    let mut at: usize = 0;
    let mut at_found: bool = false;
    proof {
        assert(cs@.skip(0) =~= cs@);
    }
    while at < n && !at_found
        invariant
            at <= n == cs@.len(),
            !at_found ==> spec_first_sep(cs@, '@') == if spec_first_sep(
                cs@.skip(at as int),
                '@',
            ) < 0 {
                -1int
            } else {
                spec_first_sep(cs@.skip(at as int), '@') + at
            },
            at_found ==> at < n && spec_first_sep(cs@, '@') == at,
        decreases n - at + (if at_found {
            0int
        } else {
            1int
        }),
    {
        let ghost rem = cs@.skip(at as int);
        proof {
            assert(rem[0] == cs@[at as int]);
            assert(rem.drop_first() =~= cs@.skip(at as int + 1));
        }
        if cs[at] == '@' {
            at_found = true;
        } else {
            at = at + 1;
        }
    }
    if !at_found {
        let domain = string_from_chars(&cs);
        return QueueNameComponents { campaign: None, tenant: None, domain };
    }
    let local = chars_subrange(&cs, 0, at);
    let domain_cs = chars_subrange(&cs, at + 1, n);
    proof {
        assert(local@ =~= cs@.take(at as int));
        assert(domain_cs@ =~= cs@.skip(at as int + 1));
    }
    let domain = string_from_chars(&domain_cs);
    let mut colon: usize = 0;
    let mut colon_found: bool = false;
    let ln = local.len();
    proof {
        assert(local@.skip(0) =~= local@);
    }
    while colon < ln && !colon_found
        invariant
            colon <= ln == local@.len(),
            !colon_found ==> spec_first_sep(local@, ':') == if spec_first_sep(
                local@.skip(colon as int),
                ':',
            ) < 0 {
                -1int
            } else {
                spec_first_sep(local@.skip(colon as int), ':') + colon
            },
            colon_found ==> colon < ln && spec_first_sep(local@, ':') == colon,
        decreases ln - colon + (if colon_found {
            0int
        } else {
            1int
        }),
    {
        let ghost rem = local@.skip(colon as int);
        proof {
            assert(rem[0] == local@[colon as int]);
            assert(rem.drop_first() =~= local@.skip(colon as int + 1));
        }
        if local[colon] == ':' {
            colon_found = true;
        } else {
            colon = colon + 1;
        }
    }
    if !colon_found {
        if local.len() == 0 {
            QueueNameComponents { campaign: None, tenant: None, domain }
        } else {
            let tenant = string_from_chars(&local);
            QueueNameComponents { campaign: None, tenant: Some(tenant), domain }
        }
    } else {
        let campaign_cs = chars_subrange(&local, 0, colon);
        let tenant_cs = chars_subrange(&local, colon + 1, ln);
        proof {
            assert(campaign_cs@ =~= local@.take(colon as int));
            assert(tenant_cs@ =~= local@.skip(colon as int + 1));
        }
        QueueNameComponents {
            campaign: Some(string_from_chars(&campaign_cs)),
            tenant: Some(string_from_chars(&tenant_cs)),
            domain,
        }
    }
}

/// The match tuple of an administrative directive: unspecified fields
/// match anything.
#[derive(Debug, Clone, PartialEq, Eq)]
pub struct AdminMatch {
    pub campaign: Option<String>,
    pub tenant: Option<String>,
    pub domain: Option<String>,
}

/// Whether the directive's tuple matches the queue's components.
pub open spec fn spec_admin_matches(
    mc: Option<Seq<char>>,
    mt: Option<Seq<char>>,
    md: Option<Seq<char>>,
    name: Seq<char>,
) -> bool {
    let (c, t, d) = spec_name_components(name);
    &&& match mc {
        Some(want) => c == Some(want),
        None => true,
    }
    &&& match mt {
        Some(want) => t == Some(want),
        None => true,
    }
    &&& match md {
        Some(want) => d == want,
        None => true,
    }
}

impl AdminMatch {
    /// Whether this directive applies to the named queue.
    pub fn matches(&self, queue_name: &str) -> (r: bool)
        ensures
            r == spec_admin_matches(
                match self.campaign {
                    Some(c) => Some(c@),
                    None => None,
                },
                match self.tenant {
                    Some(t) => Some(t@),
                    None => None,
                },
                match self.domain {
                    Some(d) => Some(d@),
                    None => None,
                },
                queue_name@,
            ),
    {
        let parts = parse_queue_name(queue_name);
        let campaign_ok = match &self.campaign {
            Some(want) => match &parts.campaign {
                Some(have) => {
                    let w = chars_of(want.as_str());
                    let h = chars_of(have.as_str());
                    chars_eq(&w, &h)
                },
                None => false,
            },
            None => true,
        };
        let tenant_ok = match &self.tenant {
            Some(want) => match &parts.tenant {
                Some(have) => {
                    let w = chars_of(want.as_str());
                    let h = chars_of(have.as_str());
                    chars_eq(&w, &h)
                },
                None => false,
            },
            None => true,
        };
        let domain_ok = match &self.domain {
            Some(want) => {
                let w = chars_of(want.as_str());
                let h = chars_of(parts.domain.as_str());
                chars_eq(&w, &h)
            },
            None => true,
        };
        campaign_ok && tenant_ok && domain_ok
    }
}

/// The administrative bounce request: the match tuple, the reason to
/// log, and how long the directive stays in force.
#[derive(Debug, Clone, PartialEq, Eq)]
pub struct BounceCommand {
    /// The domain name to match; absent matches any domain.
    pub domain: Option<String>,
    /// The campaign name to match; absent matches any campaign.
    pub campaign: Option<String>,
    /// The tenant name to match; absent matches any tenant.
    pub tenant: Option<String>,
    /// The reason to record in the delivery logs.
    pub reason: String,
    /// Purging all queues must be asked for expressly.
    pub everything: bool,
    /// Seconds the directive stays in force; five minutes by default.
    pub duration: Option<u64>,
}

impl BounceCommand {
    /// A bounce with no match fields purges every queue, which must be
    /// confirmed with the `everything` flag.
    pub fn validate(&self) -> (r: Result<(), String>)
        ensures
            (r is Err) <==> (self.domain is None && self.campaign is None && self.tenant
                is None && !self.everything),
    {
        if self.domain.is_none() && self.campaign.is_none() && self.tenant.is_none() {
            if !self.everything {
                return Err(
                    String::from_str(
                        "No domain, campaign or tenant was specified. Use --everything if you intend to purge all queues",
                    ),
                );
            }
        }
        Ok(())
    }

    /// The duration the directive stays in force, in seconds.
    pub fn effective_duration(&self) -> (r: u64)
        ensures
            r == match self.duration {
                Some(d) => d as int,
                None => 300int,
            },
    {
        match self.duration {
            Some(d) => d,
            None => 300,
        }
    }
}

} // verus!
