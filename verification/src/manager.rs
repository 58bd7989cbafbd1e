//! The process-wide registries: queues by name, sites by site key.
//!
//! Each registry maps a name to one live object and hands out its
//! index; entries disappear when their object reports itself reapable.
//! Policy lookups stay with the host: a missing entry is created from
//! the configuration the caller already obtained.

use crate::backoff::QueueConfig;
use crate::queue::Queue;
use crate::site::{DestSiteConfig, DestinationSite};
use crate::strutil::{chars_eq, chars_of, views_str};
use vstd::prelude::*;

verus! {

/// The registry of live queues, by queue name.
pub struct QueueManager {
    named: Vec<(String, Queue)>,
}

impl QueueManager {
    /// The registered names, in insertion order.
    pub closed spec fn spec_names(&self) -> Seq<Seq<char>> {
        self.named@.map_values(|e: (String, Queue)| e.0@)
    }

    /// An empty registry.
    pub fn new() -> (r: QueueManager)
        ensures
            r.spec_names() == Seq::<Seq<char>>::empty(),
    {
        let r = QueueManager { named: Vec::new() };
        proof {
            assert(r.spec_names() =~= Seq::<Seq<char>>::empty());
        }
        r
    }

    /// How many queues are registered.
    pub fn len(&self) -> (r: usize)
        ensures
            r == self.spec_names().len(),
    {
        self.named.len()
    }

    /// Find a queue by name.
    pub fn get(&self, name: &str) -> (r: Option<usize>)
        ensures
            match r {
                Some(i) => i < self.spec_names().len() && self.spec_names()[i as int]
                    == name@,
                None => !self.spec_names().contains(name@),
            },
    {
        let want = chars_of(name);
        let mut i: usize = 0;
        while i < self.named.len()
            invariant
                i <= self.named@.len(),
                want@ == name@,
                forall|j: int| 0 <= j < i ==> self.spec_names()[j] != name@,
            decreases self.named.len() - i,
        {
            let have = chars_of(self.named[i].0.as_str());
            if chars_eq(&have, &want) {
                proof {
                    assert(self.spec_names()[i as int] == name@);
                }
                return Some(i);
            }
            proof {
                assert(self.spec_names()[i as int] != name@);
            }
            i = i + 1;
        }
        None
    }

    /// The queue stored at index `i`.
    pub closed spec fn spec_queue_at(&self, i: int) -> Queue {
        self.named@[i].1
    }

    /// Read the queue at a known index.
    pub fn queue_ref(&self, i: usize) -> (r: &Queue)
        requires
            i < self.spec_names().len(),
        ensures
            *r == self.spec_queue_at(i as int),
    {
        &self.named[i].1
    }

    /// Check the queue at a known index out of the registry; the
    /// remaining entries keep their order.
    pub fn take_queue(&mut self, i: usize) -> (r: (String, Queue))
        requires
            i < old(self).spec_names().len(),
        ensures
            r.0@ == old(self).spec_names()[i as int],
            r.1 == old(self).spec_queue_at(i as int),
            final(self).spec_names() == old(self).spec_names().remove(i as int),
            forall|j: int|
                0 <= j < final(self).spec_names().len() ==> final(self).spec_queue_at(
                    j,
                ) == (if j < i {
                    old(self).spec_queue_at(j)
                } else {
                    old(self).spec_queue_at(j + 1)
                }),
    {
        let r = self.named.remove(i);
        proof {
            assert(final(self).spec_names() =~= old(self).spec_names().remove(i as int));
        }
        r
    }

    /// Check a queue back into the registry.
    pub fn restore_queue(&mut self, name: String, q: Queue)
        ensures
            final(self).spec_names() == old(self).spec_names().push(name@),
            final(self).spec_queue_at(old(self).spec_names().len() as int) == q,
            forall|j: int|
                0 <= j < old(self).spec_names().len() ==> final(self).spec_queue_at(j)
                    == old(self).spec_queue_at(j),
    {
        self.named.push((name, q));
        proof {
            assert(final(self).spec_names() =~= old(self).spec_names().push(
                final(self).named@.last().0@,
            ));
        }
    }

    /// Return the queue registered under `name`, creating it with the
    /// given policy when it is new: empty, carrying that policy, and
    /// fresh as of `now`.
    pub fn resolve(&mut self, name: &str, config: QueueConfig, now: u64) -> (r: usize)
        ensures
            r < final(self).spec_names().len(),
            final(self).spec_names()[r as int] == name@,
            old(self).spec_names().contains(name@) ==> *final(self) == *old(self),
            !old(self).spec_names().contains(name@) ==> {
                &&& final(self).spec_names() == old(self).spec_names().push(name@)
                &&& final(self).spec_queue_at(r as int).spec_delayed().len() == 0
                &&& final(self).spec_queue_at(r as int).spec_config() == config
                &&& final(self).spec_queue_at(r as int).spec_last_change() == now
                &&& forall|j: int|
                    0 <= j < old(self).spec_names().len() ==> final(self).spec_queue_at(j) == old(self).spec_queue_at(j)
            },
    {
        match self.get(name) {
            Some(i) => i,
            None => {
                let ghost pre = self.named@;
                let owned = String::from_str(name);
                let q = Queue::new(String::from_str(name), config, now);
                self.named.push((owned, q));
                proof {
                    assert(self.spec_names() =~= pre.map_values(
                        |e: (String, Queue)| e.0@,
                    ).push(name@));
                }
                self.named.len() - 1
            },
        }
    }

    /// Drop the queue registered under `name`, if any.
    pub fn remove(&mut self, name: &str) -> (removed: bool)
        ensures
            !removed ==> *final(self) == *old(self),
    {
        match self.get(name) {
            Some(i) => {
                let _ = self.named.remove(i);
                true
            },
            None => false,
        }
    }
}

/// The registry of live destination sites, by canonical site name.
pub struct SiteManager {
    sites: Vec<(String, DestinationSite)>,
}

impl SiteManager {
    /// The registered site names, in insertion order.
    pub closed spec fn spec_names(&self) -> Seq<Seq<char>> {
        self.sites@.map_values(|e: (String, DestinationSite)| e.0@)
    }

    /// An empty registry.
    pub fn new() -> (r: SiteManager)
        ensures
            r.spec_names() == Seq::<Seq<char>>::empty(),
    {
        let r = SiteManager { sites: Vec::new() };
        proof {
            assert(r.spec_names() =~= Seq::<Seq<char>>::empty());
        }
        r
    }

    /// How many sites are registered.
    pub fn len(&self) -> (r: usize)
        ensures
            r == self.spec_names().len(),
    {
        self.sites.len()
    }

    /// Find a site by its canonical name.
    pub fn get(&self, name: &str) -> (r: Option<usize>)
        ensures
            match r {
                Some(i) => i < self.spec_names().len() && self.spec_names()[i as int]
                    == name@,
                None => !self.spec_names().contains(name@),
            },
    {
        let want = chars_of(name);
        let mut i: usize = 0;
        while i < self.sites.len()
            invariant
                i <= self.sites@.len(),
                want@ == name@,
                forall|j: int| 0 <= j < i ==> self.spec_names()[j] != name@,
            decreases self.sites.len() - i,
        {
            let have = chars_of(self.sites[i].0.as_str());
            if chars_eq(&have, &want) {
                proof {
                    assert(self.spec_names()[i as int] == name@);
                }
                return Some(i);
            }
            proof {
                assert(self.spec_names()[i as int] != name@);
            }
            i = i + 1;
        }
        None
    }

    /// The site stored at index `i`.
    pub closed spec fn spec_site_at(&self, i: int) -> DestinationSite {
        self.sites@[i].1
    }

    /// Read the site at a known index.
    pub fn site_ref(&self, i: usize) -> (r: &DestinationSite)
        requires
            i < self.spec_names().len(),
        ensures
            *r == self.spec_site_at(i as int),
    {
        &self.sites[i].1
    }

    /// Check the site at a known index out of the registry; the
    /// remaining entries keep their order.
    pub fn take_site(&mut self, i: usize) -> (r: (String, DestinationSite))
        requires
            i < old(self).spec_names().len(),
        ensures
            r.0@ == old(self).spec_names()[i as int],
            r.1 == old(self).spec_site_at(i as int),
            final(self).spec_names() == old(self).spec_names().remove(i as int),
            forall|j: int|
                0 <= j < final(self).spec_names().len() ==> final(self).spec_site_at(
                    j,
                ) == (if j < i {
                    old(self).spec_site_at(j)
                } else {
                    old(self).spec_site_at(j + 1)
                }),
    {
        let r = self.sites.remove(i);
        proof {
            assert(final(self).spec_names() =~= old(self).spec_names().remove(i as int));
        }
        r
    }

    /// Check a site back into the registry.
    pub fn restore_site(&mut self, name: String, site: DestinationSite)
        ensures
            final(self).spec_names() == old(self).spec_names().push(name@),
            final(self).spec_site_at(old(self).spec_names().len() as int) == site,
            forall|j: int|
                0 <= j < old(self).spec_names().len() ==> final(self).spec_site_at(j)
                    == old(self).spec_site_at(j),
    {
        self.sites.push((name, site));
        proof {
            assert(final(self).spec_names() =~= old(self).spec_names().push(
                final(self).sites@.last().0@,
            ));
        }
    }

    /// Return the site registered under the canonical name derived
    /// from the MX host list, creating it with the given configuration
    /// when it is new: a well-formed site with that MX list and
    /// capacity, an empty ring, no workers, and no suspension.
    pub fn resolve(&mut self, name: &str, mx: Vec<String>, config: DestSiteConfig, now: u64) -> (r:
        usize)
        requires
            config.max_ready >= 1,
        ensures
            r < final(self).spec_names().len(),
            final(self).spec_names()[r as int] == name@,
            old(self).spec_names().contains(name@) ==> *final(self) == *old(self),
            !old(self).spec_names().contains(name@) ==> {
                &&& final(self).spec_names() == old(self).spec_names().push(name@)
                &&& final(self).spec_site_at(r as int).wf()
                &&& final(self).spec_site_at(r as int).spec_ready().len() == 0
                &&& final(self).spec_site_at(r as int).spec_connections() == 0
                &&& final(self).spec_site_at(r as int).spec_config() == config
                &&& final(self).spec_site_at(r as int).spec_mx() == views_str(mx@)
                &&& forall|t: u64| !final(self).spec_site_at(r as int).spec_suspended(t)
                &&& forall|j: int|
                    0 <= j < old(self).spec_names().len() ==> final(self).spec_site_at(
                        j,
                    ) == old(self).spec_site_at(j)
            },
    {
        match self.get(name) {
            Some(i) => i,
            None => {
                let ghost pre = self.sites@;
                let owned = String::from_str(name);
                let site = DestinationSite::new(String::from_str(name), mx, config, now);
                self.sites.push((owned, site));
                proof {
                    assert(self.spec_names() =~= pre.map_values(
                        |e: (String, DestinationSite)| e.0@,
                    ).push(name@));
                }
                self.sites.len() - 1
            },
        }
    }

    /// Drop the site registered under `name`, if any.
    pub fn remove(&mut self, name: &str) -> (removed: bool)
        ensures
            !removed ==> *final(self) == *old(self),
    {
        match self.get(name) {
            Some(i) => {
                let _ = self.sites.remove(i);
                true
            },
            None => false,
        }
    }
}

} // verus!
