use mta_core::{
    classify_send, tls_decision, DeliveryAction, DestSiteConfig, DestinationSite,
    Message, Pipeline, Queue, QueueConfig, QueueManager, RecordType, SendOutcome,
    SiteManager, TimerQueue, Tls, TlsAction,
};

fn msg(id: u64, received: u64, due: u64) -> Message {
    Message {
        id,
        queue_name: "campaign:tenant@example.com".to_string(),
        sender: "sender@origin.test".to_string(),
        recipient: "user@example.com".to_string(),
        num_attempts: 0,
        received,
        due,
        needs_save: true,
    }
}

fn small_site(now: u64) -> DestinationSite {
    let config = DestSiteConfig {
        connection_limit: 4,
        enable_tls: Tls::Opportunistic,
        idle_timeout: 60,
        max_ready: 2,
    };
    DestinationSite::new(
        "example.com".to_string(),
        vec!["mx.example.com".to_string()],
        config,
        now,
    )
}

fn pipeline(now: u64) -> Pipeline {
    let config = QueueConfig {
        retry_interval: 2,
        max_retry_interval: None,
        max_age: 1024,
    };
    let queue = Queue::new("campaign:tenant@example.com".to_string(), config, now);
    Pipeline::new(queue, small_site(now))
}

#[test]
fn timer_queue_pops_due_messages_in_order() {
    let mut tq = TimerQueue::new();
    assert!(matches!(tq.pop(100), mta_core::PopOutcome::Empty));
    tq.insert(msg(1, 0, 150), 100);
    tq.insert(msg(2, 0, 120), 100);
    match tq.pop(100) {
        mta_core::PopOutcome::Sleep(d) => assert_eq!(d, 20),
        other => panic!("expected sleep, got {other:?}",),
    }
    match tq.pop(130) {
        mta_core::PopOutcome::Items(v) => {
            assert_eq!(v.len(), 1);
            assert_eq!(v[0].id, 2);
        }
        _ => panic!("expected items"),
    }
    assert_eq!(tq.len(), 1);
}

#[test]
fn ready_ring_is_fifo_and_bounded() {
    let now = 1000;
    let mut site = small_site(now);
    assert!(site.insert(msg(1, now, now), now).is_ok());
    assert!(site.insert(msg(2, now, now), now).is_ok());
    // capacity is 2: the third message comes back
    let rejected = site.insert(msg(3, now, now), now);
    assert_eq!(rejected.unwrap_err().id, 3);
    assert_eq!(site.ready_count(), 2);
    assert_eq!(site.claim().unwrap().id, 1);
    assert_eq!(site.claim().unwrap().id, 2);
    assert!(site.claim().is_none());
}

#[test]
fn maintain_respects_the_connection_limit() {
    let now = 1000;
    let mut site = small_site(now);
    for i in 0..2 {
        site.insert(msg(i, now, now), now).unwrap();
    }
    // tops up from zero to exactly the ideal count for two ready
    let spawned = site.maintain(0);
    assert_eq!(spawned, mta_core::ideal_connection_count(2, 4));
    assert!(site.connection_count() <= 4);
    // a second pass asks for nothing more
    assert_eq!(site.maintain(0), 0);
    // finished workers free their slots before the top-up
    let again = site.maintain(spawned);
    assert_eq!(again, spawned);
}

#[test]
fn submit_logs_reception_and_delivers_once() {
    let now = 1000;
    let mut p = pipeline(now);
    // due in the past: goes straight to the ready ring
    assert!(p.submit(msg(7, now, now), now, 0));
    assert_eq!(p.count_logs(RecordType::Reception), 1);
    assert_eq!(p.ready_count(), 1);

    assert!(p.claim(now));
    let action = p.deliver(&SendOutcome::Delivered(250), now, 0);
    assert_eq!(action, DeliveryAction::Success);
    assert_eq!(p.count_logs(RecordType::Delivery), 1);
    assert_eq!(p.ready_count(), 0);
    assert_eq!(p.delayed_count(), 0);
}

#[test]
fn transient_rejection_requeues_with_backoff() {
    let now = 1000;
    let mut p = pipeline(now);
    assert!(p.submit(msg(8, now, now), now, 0));
    assert!(p.claim(now));
    let action = p.deliver(&SendOutcome::Rejected(451), now, 0);
    assert_eq!(action, DeliveryAction::Transient);
    // first retry waits retry_interval^1 = 2 seconds
    assert_eq!(p.delayed_count(), 1);
}

#[test]
fn permanent_rejection_drops_the_message() {
    let now = 1000;
    let mut p = pipeline(now);
    assert!(p.submit(msg(9, now, now), now, 0));
    assert!(p.claim(now));
    let action = p.deliver(&SendOutcome::Rejected(550), now, 0);
    assert_eq!(action, DeliveryAction::Permanent);
    assert_eq!(p.count_logs(RecordType::PermanentFailure), 1);
    assert_eq!(p.delayed_count(), 0);
    assert_eq!(p.ready_count(), 0);
}

#[test]
fn wire_errors_return_the_message_without_counting() {
    let now = 1000;
    let mut p = pipeline(now);
    assert!(p.submit(msg(10, now, now), now, 0));
    assert!(p.claim(now));
    let action = p.deliver(&SendOutcome::IoError, now, 0);
    assert_eq!(action, DeliveryAction::ConnectionFail);
    assert_eq!(p.delayed_count(), 1);
}

#[test]
fn old_messages_expire_at_tick() {
    let now = 10000;
    let mut p = pipeline(now);
    // received 2000 seconds ago, due now: max_age 1024 has passed
    let stale = msg(11, now - 2000, now + 5);
    assert!(!p.submit(stale, now, 0));
    assert_eq!(p.delayed_count(), 1);
    let _ = p.tick(now + 10, 0);
    assert_eq!(p.delayed_count(), 0);
    assert_eq!(p.count_logs(RecordType::Expiration), 1);
}

#[test]
fn suspend_rebind_transient_failure() {
    let now = 1000;
    let mut p = pipeline(now);
    // suspend the destination for five minutes
    p.suspend(now + 300);
    // a submitted message cannot go ready: it bounces back with a
    // transient-failure log line and waits in the timer store
    assert!(!p.submit(msg(12, now, now), now, 0));
    assert_eq!(p.count_logs(RecordType::Reception), 1);
    assert_eq!(p.count_logs(RecordType::TransientFailure), 1);
    assert_eq!(p.delayed_count(), 1);
    // rebind to another queue: the message is re-delayed
    let target = "rebound.com".to_string();
    p.rebind(Some(&target), now + 5, 0);
    assert_eq!(p.delayed_count(), 1);
    // when it comes due while the suspension holds, it bounces again
    let sleep = p.tick(now + 120, 0);
    assert!(sleep <= 60);
    assert!(p.count_logs(RecordType::TransientFailure) >= 2);
    assert!(p.count_logs(RecordType::TransientFailure) > 0);
}

#[test]
fn bounce_purges_the_queue() {
    let now = 1000;
    let mut p = pipeline(now);
    assert!(!p.submit(msg(13, now, now + 500), now, 0));
    assert!(!p.submit(msg(14, now, now + 600), now, 0));
    assert_eq!(p.delayed_count(), 2);
    let purged = p.bounce(now);
    assert_eq!(purged, 2);
    assert_eq!(p.count_logs(RecordType::PermanentFailure), 2);
    assert_eq!(p.delayed_count(), 0);
}

#[test]
fn tls_policy_table() {
    assert_eq!(tls_decision(Tls::Disabled, false), TlsAction::NoTls);
    assert_eq!(tls_decision(Tls::Disabled, true), TlsAction::NoTls);
    assert_eq!(tls_decision(Tls::Opportunistic, false), TlsAction::NoTls);
    assert_eq!(
        tls_decision(Tls::Opportunistic, true),
        TlsAction::StartTls { insecure: false }
    );
    assert_eq!(
        tls_decision(Tls::OpportunisticInsecure, true),
        TlsAction::StartTls { insecure: true }
    );
    assert_eq!(
        tls_decision(Tls::Required, false),
        TlsAction::FailConnection
    );
    assert_eq!(
        tls_decision(Tls::RequiredInsecure, false),
        TlsAction::FailConnection
    );
    assert_eq!(
        tls_decision(Tls::Required, true),
        TlsAction::StartTls { insecure: false }
    );
    assert_eq!(
        tls_decision(Tls::RequiredInsecure, true),
        TlsAction::StartTls { insecure: true }
    );
}

#[test]
fn tls_required_without_starttls_ends_in_retry() {
    // the dispatcher classifies a failed handshake as a wire error,
    // tries the next address, and ultimately re-delays the message
    let now = 1000;
    let mut p = pipeline(now);
    assert!(p.submit(msg(15, now, now), now, 0));
    assert!(p.claim(now));
    assert_eq!(
        tls_decision(Tls::Required, false),
        TlsAction::FailConnection
    );
    let action = p.deliver(&SendOutcome::IoError, now, 0);
    assert_eq!(action, DeliveryAction::ConnectionFail);
    assert_eq!(p.delayed_count(), 1);
}

#[test]
fn classification_covers_every_outcome() {
    assert_eq!(
        classify_send(&SendOutcome::Delivered(250)),
        DeliveryAction::Success
    );
    assert_eq!(
        classify_send(&SendOutcome::Rejected(421)),
        DeliveryAction::Transient
    );
    assert_eq!(
        classify_send(&SendOutcome::Rejected(550)),
        DeliveryAction::Permanent
    );
    assert_eq!(
        classify_send(&SendOutcome::Rejected(399)),
        DeliveryAction::Permanent
    );
    assert_eq!(
        classify_send(&SendOutcome::IoError),
        DeliveryAction::ConnectionFail
    );
}

#[test]
fn managers_register_and_forget() {
    let config = QueueConfig {
        retry_interval: 2,
        max_retry_interval: None,
        max_age: 1024,
    };
    let mut qm = QueueManager::new();
    assert!(qm.get("campaign:tenant@example.com").is_none());
    let i = qm.resolve("campaign:tenant@example.com", config, 0);
    assert_eq!(qm.get("campaign:tenant@example.com"), Some(i));
    assert_eq!(qm.len(), 1);
    // the created queue is empty and carries the given policy
    assert_eq!(qm.queue_ref(i).delayed_count(), 0);
    assert_eq!(qm.queue_ref(i).get_config().retry_interval, 2);
    assert_eq!(qm.queue_ref(i).name(), "campaign:tenant@example.com");
    // resolving again hands back the same entry
    let config2 = QueueConfig {
        retry_interval: 2,
        max_retry_interval: None,
        max_age: 1024,
    };
    let i2 = qm.resolve("campaign:tenant@example.com", config2, 5);
    assert_eq!(i2, i);
    assert_eq!(qm.len(), 1);
    // check the queue out, work with it, put it back
    let (name, mut q) = qm.take_queue(i);
    assert_eq!(qm.len(), 0);
    q.insert(msg(77, 0, 500), 0);
    qm.restore_queue(name, q);
    assert_eq!(qm.queue_ref(0).delayed_count(), 1);
    assert!(qm.remove("campaign:tenant@example.com"));
    assert!(qm.get("campaign:tenant@example.com").is_none());

    let mut sm = SiteManager::new();
    let sconfig = DestSiteConfig {
        connection_limit: 4,
        enable_tls: Tls::Opportunistic,
        idle_timeout: 60,
        max_ready: 16,
    };
    let j = sm.resolve(
        "(mta5|mta6).am0.yahoodns.net",
        vec!["mta5.am0.yahoodns.net".to_string()],
        sconfig,
        0,
    );
    assert_eq!(sm.get("(mta5|mta6).am0.yahoodns.net"), Some(j));
    // the created site is empty, idle, and holds the MX list
    assert_eq!(sm.site_ref(j).ready_count(), 0);
    assert_eq!(sm.site_ref(j).connection_count(), 0);
    assert_eq!(
        sm.site_ref(j).mx_hosts(),
        &vec!["mta5.am0.yahoodns.net".to_string()]
    );
    let (key, site) = sm.take_site(j);
    assert_eq!(key, "(mta5|mta6).am0.yahoodns.net");
    sm.restore_site(key, site);
    assert!(sm.remove("(mta5|mta6).am0.yahoodns.net"));
    assert_eq!(sm.len(), 0);
}

#[test]
fn jitter_stays_in_band() {
    for _ in 0..200 {
        let j = mta_core::draw_jitter();
        assert!((-30..=30).contains(&j));
    }
}
