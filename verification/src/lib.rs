//! Delivery-scheduling core for an outbound mail transfer agent.
//!
//! Messages are grouped into per-destination queues, retried with
//! exponential backoff until they either deliver or age out, and paced
//! onto destination sites whose connection budget grows with backlog.
//! Administrators may suspend a destination, bounce matching messages,
//! or rebind messages to a different queue. The SPF record grammar that
//! policy evaluation reads is parsed here as well.

mod admin;
mod backoff;
mod dispatch;
mod factoring;
mod manager;
mod message;
mod pipeline;
mod queue;
mod ready;
mod resolve;
mod shaping;
mod site;
mod spf;
mod spf_eval;
mod strutil;
mod timerq;

pub use admin::{parse_queue_name, AdminMatch, BounceCommand, QueueNameComponents};
pub use backoff::QueueConfig;
pub use dispatch::{
    banner_ok, classify_send, flatten_addresses, tls_decision, DeliveryAction,
    ResolvedAddress, SendOutcome, TlsAction,
};
pub use factoring::{factor_names, lemma_factor_names_case_insensitive, spec_factor_names};
pub use manager::{QueueManager, SiteManager};
pub use message::{draw_jitter, Message};
pub use pipeline::{LogRecord, Pipeline, RecordType};
pub use queue::{Queue, RequeueOutcome};
pub use ready::ReadyRing;
pub use resolve::hosts_from_mx;
pub use shaping::{
    ideal_connection_count, lemma_ideal_bounded, lemma_ideal_mono, lemma_ideal_zero,
    spec_ideal_connection_count,
};
pub use site::{DestSiteConfig, DestinationSite, Tls};
pub use spf::{
    starts_with_ident, Directive, DualCidrLength, Ipv4Rec, Ipv6Rec, MacroElement,
    MacroName, MacroSpec, MacroTerm, Mechanism, Modifier, Qualifier, Record,
};
pub use spf_eval::{
    a_matches, combine_outcomes, exists_matches, in_zone, include_outcome, mx_matches,
    ptr_matches, DirectiveOutcome, EvalOutcome, IncludeOutcome, IpRec, PtrCandidate,
    SpfDisposition, SpfResult,
};
pub use timerq::{InsertOutcome, PopOutcome, TimerQueue};
