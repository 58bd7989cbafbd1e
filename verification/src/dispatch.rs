//! Dispatcher decisions: one connection's lifecycle.
//!
//! A dispatcher owns one SMTP connection and delivers successive
//! messages over it. Connecting, the TLS handshake and the wire
//! exchange happen in the host program; the decisions — which address
//! to try next, whether the banner is acceptable, whether to start
//! TLS, and how to classify a delivery outcome — are made here.

use crate::site::Tls;
use crate::spf_eval::IpRec;
use vstd::prelude::*;

verus! {

/// One resolved candidate address for a connection attempt.
#[derive(Debug, Clone, PartialEq, Eq)]
pub struct ResolvedAddress {
    pub mx_host: String,
    pub addr: IpRec,
}

/// What the TLS policy decides once the peer's EHLO answer is known.
#[derive(Debug, Clone, Copy, PartialEq, Eq)]
pub enum TlsAction {
    /// The policy requires TLS but the peer does not offer it: treat
    /// the connection as failed and try the next address.
    FailConnection,
    /// Proceed without TLS.
    NoTls,
    /// Issue STARTTLS; verify the certificate unless `insecure`.
    StartTls { insecure: bool },
}

/// The TLS decision table over policy and STARTTLS advertisement.
pub open spec fn spec_tls_decision(enable_tls: Tls, has_starttls: bool) -> TlsAction {
    match (enable_tls, has_starttls) {
        (Tls::Required, false) | (Tls::RequiredInsecure, false) => TlsAction::FailConnection,
        (Tls::Disabled, _) => TlsAction::NoTls,
        (Tls::Opportunistic, false) | (Tls::OpportunisticInsecure, false) => TlsAction::NoTls,
        (Tls::Opportunistic, true) => TlsAction::StartTls { insecure: false },
        (Tls::OpportunisticInsecure, true) => TlsAction::StartTls { insecure: true },
        (Tls::Required, true) => TlsAction::StartTls { insecure: false },
        (Tls::RequiredInsecure, true) => TlsAction::StartTls { insecure: true },
    }
}

/// Decide what to do about TLS once the peer's capabilities are known.
pub fn tls_decision(enable_tls: Tls, has_starttls: bool) -> (r: TlsAction)
    ensures
        r == spec_tls_decision(enable_tls, has_starttls),
{
    match (enable_tls, has_starttls) {
        (Tls::Required, false) | (Tls::RequiredInsecure, false) => TlsAction::FailConnection,
        (Tls::Disabled, _) => TlsAction::NoTls,
        (Tls::Opportunistic, false) | (Tls::OpportunisticInsecure, false) => TlsAction::NoTls,
        (enable, true) => TlsAction::StartTls { insecure: enable.allow_insecure() },
    }
}

/// Whether the greeting banner lets the session continue.
pub fn banner_ok(code: u16) -> (r: bool)
    ensures
        r == (code == 220),
{
    code == 220
}

/// The wire-level outcome of one `send_mail` exchange.
#[derive(Debug, Clone, PartialEq, Eq)]
pub enum SendOutcome {
    /// The peer accepted the message with this code.
    Delivered(u16),
    /// The peer rejected the message with this code.
    Rejected(u16),
    /// The exchange failed below the SMTP layer.
    IoError,
}

/// What the dispatcher does with a delivery outcome.
#[derive(Debug, Clone, Copy, PartialEq, Eq)]
pub enum DeliveryAction {
    /// Remove from the spool, log the delivery, keep the connection.
    Success,
    /// Re-queue with an incremented attempt count, keep the
    /// connection.
    Transient,
    /// Remove from the spool, log the permanent failure, keep the
    /// connection.
    Permanent,
    /// Hand the message back without counting an attempt and close
    /// the connection; the loop will try another address.
    ConnectionFail,
}

/// The delivery classification: 4xx rejections are transient, other
/// rejections permanent, wire errors connection-level, acceptance a
/// success.
pub open spec fn spec_classify_send(outcome: SendOutcome) -> DeliveryAction {
    match outcome {
        SendOutcome::Delivered(_) => DeliveryAction::Success,
        SendOutcome::Rejected(code) => if 400 <= code < 500 {
            DeliveryAction::Transient
        } else {
            DeliveryAction::Permanent
        },
        SendOutcome::IoError => DeliveryAction::ConnectionFail,
    }
}

/// Classify one delivery outcome.
pub fn classify_send(outcome: &SendOutcome) -> (r: DeliveryAction)
    ensures
        r == spec_classify_send(*outcome),
{
    match outcome {
        SendOutcome::Delivered(_) => DeliveryAction::Success,
        SendOutcome::Rejected(code) => {
            if 400 <= *code && *code < 500 {
                DeliveryAction::Transient
            } else {
                DeliveryAction::Permanent
            }
        },
        SendOutcome::IoError => DeliveryAction::ConnectionFail,
    }
}

/// The flattened candidate list: every host's addresses in lookup
/// order, then the whole list reversed, so that popping from the end
/// yields the preferred address first.
pub open spec fn spec_flatten_addresses(per_host: Seq<(Seq<char>, Seq<IpRec>)>) -> Seq<
    (Seq<char>, IpRec),
>
    decreases per_host.len(),
{
    if per_host.len() == 0 {
        Seq::empty()
    } else {
        spec_flatten_addresses(per_host.drop_last()) + spec_host_pairs(
            per_host.last().0,
            per_host.last().1,
        )
    }
}

/// The (host, address) pairs of one host.
pub open spec fn spec_host_pairs(host: Seq<char>, addrs: Seq<IpRec>) -> Seq<
    (Seq<char>, IpRec),
> {
    addrs.map_values(|a: IpRec| (host, a))
}

/// The view of a resolved-address list.
pub open spec fn spec_addr_views(v: Seq<ResolvedAddress>) -> Seq<(Seq<char>, IpRec)> {
    v.map_values(|r: ResolvedAddress| (r.mx_host@, r.addr))
}

/// Build the candidate address list from each MX host's lookup
/// answers: flatten in order, then reverse, so the preferred address
/// sits last and `pop` yields it first. Hosts that failed to resolve
/// are simply absent from the input.
pub fn flatten_addresses(per_host: Vec<(String, Vec<IpRec>)>) -> (r: Vec<ResolvedAddress>)
    ensures
        spec_addr_views(r@) == spec_flatten_addresses(
            per_host@.map_values(|p: (String, Vec<IpRec>)| (p.0@, p.1@)),
        ).reverse(),
{
    let ghost phv = per_host@.map_values(|p: (String, Vec<IpRec>)| (p.0@, p.1@));
    let mut flat: Vec<ResolvedAddress> = Vec::new();
    let ghost mut i: int = 0;
    let mut per_host = per_host;
    proof {
        assert(phv.take(0) =~= Seq::<(Seq<char>, Seq<IpRec>)>::empty());
        assert(spec_addr_views(flat@) =~= spec_flatten_addresses(phv.take(0)));
        assert(per_host@.map_values(|p: (String, Vec<IpRec>)| (p.0@, p.1@)) =~= phv.skip(
            0,
        ));
    }
    while per_host.len() > 0
        invariant
            0 <= i <= phv.len(),
            i + per_host@.len() == phv.len(),
            per_host@.map_values(|p: (String, Vec<IpRec>)| (p.0@, p.1@)) =~= phv.skip(i),
            spec_addr_views(flat@) =~= spec_flatten_addresses(phv.take(i)),
        decreases per_host@.len(),
    {
        let ghost before = per_host@;
        let (host, addrs) = per_host.remove(0);
        let ghost hostv = host@;
        let ghost addrsv = addrs@;
        proof {
            assert(before.map_values(|p: (String, Vec<IpRec>)| (p.0@, p.1@))[0]
                == phv.skip(i)[0]);
            assert((hostv, addrsv) == phv[i]);
            assert(per_host@ =~= before.drop_first());
            assert(per_host@.map_values(|p: (String, Vec<IpRec>)| (p.0@, p.1@))
                =~= phv.skip(i + 1)) by {
                assert forall|j: int| 0 <= j < per_host@.len() implies per_host@
                    .map_values(|p: (String, Vec<IpRec>)| (p.0@, p.1@))[j] == #[trigger]
                 (phv.skip(i + 1)[j]) by {
                    assert(per_host@[j] == before[j + 1]);
                    assert(before.map_values(|p: (String, Vec<IpRec>)| (p.0@, p.1@))[j
                        + 1] == phv.skip(i)[j + 1]);
                }
            }
        }
        let ghost mut k: int = 0;
        let mut addrs = addrs;
        proof {
            assert(addrsv.take(0) =~= Seq::<IpRec>::empty());
            assert(spec_host_pairs(hostv, addrsv.take(0)) =~= Seq::<(
                Seq<char>,
                IpRec,
            )>::empty());
            assert(addrs@ =~= addrsv.skip(0));
        }
        while addrs.len() > 0
            invariant
                0 <= k <= addrsv.len(),
                k + addrs@.len() == addrsv.len(),
                hostv == host@,
                addrs@ =~= addrsv.skip(k),
                spec_addr_views(flat@) =~= spec_flatten_addresses(phv.take(i))
                    + spec_host_pairs(hostv, addrsv.take(k)),
            decreases addrs@.len(),
        {
            let ghost abefore = addrs@;
            let a = addrs.remove(0);
            proof {
                assert(a == addrsv[k]);
                assert(addrs@ =~= addrsv.skip(k + 1));
            }
            let entry = ResolvedAddress { mx_host: host.clone(), addr: a };
            let ghost old_flat = spec_addr_views(flat@);
            flat.push(entry);
            proof {
                assert(entry.mx_host@ == hostv);
                assert(spec_addr_views(flat@) =~= old_flat.push((hostv, a)));
                assert(addrsv.take(k + 1) =~= addrsv.take(k).push(a));
                assert(spec_host_pairs(hostv, addrsv.take(k + 1)) =~= spec_host_pairs(
                    hostv,
                    addrsv.take(k),
                ).push((hostv, a)));
                k = k + 1;
            }
        }
        proof {
            assert(addrsv.take(k) =~= addrsv);
            assert(phv.take(i + 1).drop_last() =~= phv.take(i));
            assert(phv.take(i + 1).last() == phv[i]);
            assert(spec_flatten_addresses(phv.take(i + 1)) == spec_flatten_addresses(
                phv.take(i),
            ) + spec_host_pairs(hostv, addrsv));
            i = i + 1;
        }
    }
    proof {
        assert(phv.take(i) =~= phv);
    }
    reverse_addresses(flat)
}

/// Reverse a resolved-address list.
fn reverse_addresses(v: Vec<ResolvedAddress>) -> (r: Vec<ResolvedAddress>)
    ensures
        spec_addr_views(r@) == spec_addr_views(v@).reverse(),
{
    let ghost vv = spec_addr_views(v@);
    let mut r: Vec<ResolvedAddress> = Vec::new();
    let mut src = v;
    proof {
        assert(spec_addr_views(r@) =~= vv.reverse().take(0));
        assert(spec_addr_views(src@) =~= vv.take(vv.len() as int));
    }
    while src.len() > 0
        invariant
            src@.len() <= vv.len(),
            spec_addr_views(src@) =~= vv.take(src@.len() as int),
            spec_addr_views(r@) =~= vv.reverse().take(vv.len() - src@.len()),
        decreases src@.len(),
    {
        let ghost vbefore = src@;
        let last = match src.pop() {
            Some(x) => x,
            None => {
                proof {
                    assert(false);
                }
                return r;
            },
        };
        proof {
            assert(last == vbefore.last());
            assert(src@ =~= vbefore.drop_last());
            assert(spec_addr_views(vbefore)[vbefore.len() - 1] == (
                last.mx_host@,
                last.addr,
            ));
            assert(vv[vbefore.len() - 1] == (last.mx_host@, last.addr));
            assert(spec_addr_views(src@) =~= vv.take(src@.len() as int)) by {
                assert forall|j: int| 0 <= j < src@.len() implies spec_addr_views(
                    src@,
                )[j] == vv.take(src@.len() as int)[j] by {
                    assert(src@[j] == vbefore[j]);
                    assert(spec_addr_views(vbefore)[j] == vv.take(
                        vbefore.len() as int,
                    )[j]);
                }
            }
        }
        let ghost old_r = spec_addr_views(r@);
        r.push(last);
        proof {
            assert(spec_addr_views(r@) =~= old_r.push((last.mx_host@, last.addr)));
            assert(vv.reverse()[vv.len() - vbefore.len()] == vv[vbefore.len() - 1]);
            assert(vv.reverse().take(vv.len() - src@.len()) =~= vv.reverse().take(
                vv.len() - vbefore.len(),
            ).push(vv[vbefore.len() - 1]));
        }
    }
    proof {
        assert(vv.reverse().take(vv.len() as int) =~= vv.reverse());
    }
    r
}

} // verus!
