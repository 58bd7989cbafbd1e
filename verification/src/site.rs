//! The per-destination site: ready buffer plus connection budget.
//!
//! A site owns the bounded ready ring for one canonical MX group and
//! decides how many dispatcher connections should be running. The
//! actual tasks live with the host program; the site tracks their
//! count and never asks for more than `connection_limit`.

use crate::message::{spec_all_saved, Message};
use crate::ready::{ring_cap, ring_items, ReadyRing};
use crate::shaping::{ideal_connection_count, spec_ideal_connection_count};
use crate::strutil::views_str;
use vstd::prelude::*;

verus! {

/// TLS policy for outbound connections.
#[derive(Debug, Clone, Copy, PartialEq, Eq)]
pub enum Tls {
    /// Use TLS if advertised; fail on invalid certificates; no
    /// fallback to clear text once advertised.
    Opportunistic,
    /// Use TLS if advertised, accepting invalid certificates. For
    /// local testing only.
    OpportunisticInsecure,
    /// TLS with valid certificates is required.
    Required,
    /// TLS is required, but invalid certificates are accepted. For
    /// local testing only.
    RequiredInsecure,
    /// Never use TLS.
    Disabled,
}

impl Tls {
    /// Whether this policy accepts invalid or self-signed peer
    /// certificates.
    pub fn allow_insecure(&self) -> (r: bool)
        ensures
            r == (*self is OpportunisticInsecure || *self is RequiredInsecure),
    {
        match self {
            Tls::OpportunisticInsecure | Tls::RequiredInsecure => true,
            _ => false,
        }
    }

    /// The default policy: opportunistic TLS.
    pub fn default() -> (r: Tls)
        ensures
            r is Opportunistic,
    {
        Tls::Opportunistic
    }
}

/// Per-site configuration from policy.
#[derive(Debug, Clone, Copy, PartialEq, Eq)]
pub struct DestSiteConfig {
    /// Ceiling on concurrently open connections.
    pub connection_limit: usize,
    pub enable_tls: Tls,
    /// Seconds an idle dispatcher waits for work before closing.
    pub idle_timeout: u64,
    /// Capacity of the ready ring.
    pub max_ready: usize,
}

impl DestSiteConfig {
    /// The defaults: 32 connections, opportunistic TLS, a minute of
    /// idle patience, and room for 1024 ready messages.
    pub fn default() -> (r: DestSiteConfig)
        ensures
            r.connection_limit == 32,
            r.enable_tls is Opportunistic,
            r.idle_timeout == 60,
            r.max_ready == 1024,
    {
        DestSiteConfig {
            connection_limit: 32,
            enable_tls: Tls::Opportunistic,
            idle_timeout: 60,
            max_ready: 1024,
        }
    }
}

/// One destination site: its canonical name, frozen MX host list,
/// ready ring, and live-connection accounting.
pub struct DestinationSite {
    name: String,
    mx: Vec<String>,
    ready: ReadyRing,
    connections: usize,
    last_change: u64,
    site_config: DestSiteConfig,
    suspended_until: Option<u64>,
}

impl DestinationSite {
    /// Well-formedness: the connection count respects the ceiling and
    /// the ring has the configured capacity.
    pub closed spec fn wf(&self) -> bool {
        &&& self.connections <= self.site_config.connection_limit
        &&& ring_cap(&self.ready) == self.site_config.max_ready
        &&& self.site_config.max_ready >= 1
        &&& spec_all_saved(ring_items(&self.ready))
    }

    /// The messages waiting in the ready ring, oldest first.
    pub closed spec fn spec_ready(&self) -> Seq<Message> {
        ring_items(&self.ready)
    }

    /// The live connection count.
    pub closed spec fn spec_connections(&self) -> int {
        self.connections as int
    }

    /// The site's configuration.
    pub closed spec fn spec_config(&self) -> DestSiteConfig {
        self.site_config
    }

    /// The frozen MX host list.
    pub closed spec fn spec_mx(&self) -> Seq<Seq<char>> {
        views_str(self.mx@)
    }

    /// Whether the site is under an administrative suspension at
    /// `now`.
    pub closed spec fn spec_suspended(&self, now: u64) -> bool {
        match self.suspended_until {
            Some(until) => now < until,
            None => false,
        }
    }

    /// Build a site for one MX group.
    pub fn new(name: String, mx: Vec<String>, site_config: DestSiteConfig, now: u64) -> (r:
        DestinationSite)
        requires
            site_config.max_ready >= 1,
        ensures
            r.wf(),
            r.spec_ready() == Seq::<Message>::empty(),
            r.spec_connections() == 0,
            r.spec_config() == site_config,
            r.spec_mx() == views_str(mx@),
            r.spec_last_change() == now,
            forall|t: u64| !r.spec_suspended(t),
    {
        let r = DestinationSite {
            name,
            mx,
            ready: ReadyRing::new(site_config.max_ready),
            connections: 0,
            last_change: now,
            site_config,
            suspended_until: None,
        };
        proof {
            assert(spec_all_saved(ring_items(&r.ready)));
        }
        r
    }

    /// The canonical site name.
    pub fn name(&self) -> &String {
        &self.name
    }

    /// The frozen MX host list.
    pub fn mx_hosts(&self) -> (r: &Vec<String>)
        ensures
            views_str(r@) == self.spec_mx(),
    {
        &self.mx
    }

    /// How many dispatcher connections are accounted live.
    pub fn connection_count(&self) -> (r: usize)
        ensures
            r == self.spec_connections(),
    {
        self.connections
    }

    /// How many messages are ready.
    pub fn ready_count(&self) -> (r: usize)
        ensures
            r == self.spec_ready().len(),
    {
        self.ready.len()
    }

    /// Offer a message to the ready ring; the message must already be
    /// on the spool, so that crash recovery can resurrect it. A
    /// suspended site and a full ring both hand the message back: the
    /// caller must re-delay it.
    pub fn insert(&mut self, msg: Message, now: u64) -> (r: Result<(), Message>)
        requires
            old(self).wf(),
            !msg.needs_save,
        ensures
            final(self).wf(),
            final(self).spec_config() == old(self).spec_config(),
            final(self).spec_connections() == old(self).spec_connections(),
            forall|t: u64| final(self).spec_suspended(t) == old(self).spec_suspended(t),
            if old(self).spec_suspended(now) || old(self).spec_ready().len() >= old(
                self,
            ).spec_config().max_ready {
                r matches Err(m) && m == msg && final(self).spec_ready() == old(
                    self,
                ).spec_ready() && final(self).spec_last_change() == old(
                    self,
                ).spec_last_change()
            } else {
                r is Ok && final(self).spec_ready() == old(self).spec_ready().push(msg)
                    && final(self).spec_last_change() == now
            },
    {
        let suspended = match self.suspended_until {
            Some(until) => now < until,
            None => false,
        };
        if suspended {
            return Err(msg);
        }
        let ghost before = ring_items(&self.ready);
        match self.ready.push(msg) {
            Ok(()) => {
                proof {
                    assert(spec_all_saved(ring_items(&self.ready))) by {
                        assert(forall|i: int|
                            0 <= i < before.len() ==> ring_items(&self.ready)[i]
                                == before[i]);
                    }
                }
                self.last_change = now;
                Ok(())
            },
            Err(m) => Err(m),
        }
    }

    /// Let a dispatcher claim the oldest ready message.
    pub fn claim(&mut self) -> (r: Option<Message>)
        requires
            old(self).wf(),
        ensures
            final(self).wf(),
            final(self).spec_config() == old(self).spec_config(),
            final(self).spec_connections() == old(self).spec_connections(),
            if old(self).spec_ready().len() > 0 {
                r == Some(old(self).spec_ready().first()) && final(self).spec_ready()
                    == old(self).spec_ready().drop_first() && !r->0.needs_save
            } else {
                r is None && final(self).spec_ready() == old(self).spec_ready()
            },
            final(self).spec_last_change() == old(self).spec_last_change(),
    {
        let ghost before = ring_items(&self.ready);
        let r = self.ready.pop();
        proof {
            if before.len() > 0 {
                assert(spec_all_saved(ring_items(&self.ready))) by {
                    assert(forall|i: int|
                        0 <= i < before.len() - 1 ==> ring_items(&self.ready)[i]
                            == before[i + 1]);
                }
                assert(!before[0].needs_save);
            }
        }
        r
    }

    /// The connection count the current backlog asks for.
    pub fn ideal_connection_count(&self) -> (r: usize)
        ensures
            r == spec_ideal_connection_count(
                self.spec_ready().len(),
                self.spec_config().connection_limit as nat,
            ),
            r <= self.spec_config().connection_limit,
    {
        ideal_connection_count(self.ready.len(), self.site_config.connection_limit)
    }

    /// LAW (site cap): account for finished dispatchers and start
    /// exactly enough new ones to reach the ideal count; the live
    /// count never exceeds `connection_limit`.
    pub fn maintain(&mut self, finished: usize) -> (spawn: usize)
        requires
            old(self).wf(),
            finished <= old(self).spec_connections(),
        ensures
            final(self).wf(),
            final(self).spec_config() == old(self).spec_config(),
            final(self).spec_ready() == old(self).spec_ready(),
            final(self).spec_last_change() == old(self).spec_last_change(),
            final(self).spec_connections() <= final(self).spec_config().connection_limit,
            spawn == ({
                let live = old(self).spec_connections() - finished;
                let ideal = spec_ideal_connection_count(
                    old(self).spec_ready().len(),
                    old(self).spec_config().connection_limit as nat,
                );
                if ideal > live {
                    ideal - live
                } else {
                    0int
                }
            }),
            final(self).spec_connections() == old(self).spec_connections() - finished
                + spawn,
    {
        let live = self.connections - finished;
        let ideal = self.ideal_connection_count();
        let spawn = if ideal > live {
            ideal - live
        } else {
            0
        };
        self.connections = live + spawn;
        spawn
    }

    /// A dispatcher has exited; forget its connection.
    pub fn connection_closed(&mut self)
        requires
            old(self).wf(),
        ensures
            final(self).wf(),
            final(self).spec_config() == old(self).spec_config(),
            final(self).spec_ready() == old(self).spec_ready(),
            final(self).spec_connections() == if old(self).spec_connections() > 0 {
                old(self).spec_connections() - 1
            } else {
                0int
            },
    {
        if self.connections > 0 {
            self.connections = self.connections - 1;
        }
    }

    /// Install an administrative suspension until the given time.
    pub fn suspend(&mut self, until: u64)
        requires
            old(self).wf(),
        ensures
            final(self).wf(),
            final(self).spec_config() == old(self).spec_config(),
            final(self).spec_ready() == old(self).spec_ready(),
            final(self).spec_connections() == old(self).spec_connections(),
            forall|t: u64| final(self).spec_suspended(t) == (t < until),
    {
        self.suspended_until = Some(until);
    }

    /// Whether the site can be reaped: nothing asks for connections,
    /// none are running, and it has been quiet for ten minutes.
    pub fn reapable(&self, now: u64) -> (r: bool)
        ensures
            r == (spec_ideal_connection_count(
                self.spec_ready().len(),
                self.spec_config().connection_limit as nat,
            ) == 0 && self.spec_connections() == 0 && now > self.spec_last_change()
                + 600),
    {
        let ideal = self.ideal_connection_count();
        let threshold: u64 = if self.last_change > u64::MAX - 600 {
            u64::MAX
        } else {
            self.last_change + 600
        };
        ideal == 0 && self.connections == 0 && now > threshold
    }

    /// When the site last saw activity.
    pub closed spec fn spec_last_change(&self) -> int {
        self.last_change as int
    }
}

} // verus!
