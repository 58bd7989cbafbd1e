use mta_core::QueueConfig;

/// Returns the list of delays up until the max_age would be reached.
fn compute_schedule(config: &QueueConfig) -> Vec<i64> {
    let mut schedule = vec![];
    let mut age: i64 = 0;
    for attempt in 0..u16::MAX {
        let delay = config.delay_for_attempt(attempt) as i64;
        age += delay;
        if age >= config.max_age as i64 {
            return schedule;
        }
        schedule.push(delay);
    }
    unreachable!()
}

#[test]
fn calc_due() {
    let config = QueueConfig {
        retry_interval: 2,
        max_retry_interval: None,
        max_age: 1024,
    };

    assert_eq!(
        compute_schedule(&config),
        vec![2, 4, 8, 16, 32, 64, 128, 256, 512]
    );
}

#[test]
fn calc_due_capped() {
    let config = QueueConfig {
        retry_interval: 2,
        max_retry_interval: Some(8),
        max_age: 128,
    };

    assert_eq!(
        compute_schedule(&config),
        vec![2, 4, 8, 8, 8, 8, 8, 8, 8, 8, 8, 8, 8, 8, 8, 8, 8]
    );
}

#[test]
fn spool_in_delay() {
    let config = QueueConfig {
        retry_interval: 2,
        max_retry_interval: None,
        max_age: 256,
    };

    let mut schedule = vec![];
    let mut age: u64 = 2;
    loop {
        let num_attempts = config.infer_num_attempts(age);
        match config.compute_delay_based_on_age(num_attempts, age) {
            Some(delay) => schedule.push((age as i64, num_attempts, delay as i64)),
            None => break,
        }
        age += 4;
    }

    assert_eq!(
        schedule,
        vec![
            (2, 1, 0),
            (6, 2, 0),
            (10, 3, 2),
            (14, 3, 0),
            (18, 4, 10),
            (22, 4, 6),
            (26, 5, 34),
            (30, 5, 30),
            (34, 5, 26),
            (38, 6, 86),
            (42, 6, 82),
            (46, 6, 78),
            (50, 7, 202),
            (54, 7, 198),
            (58, 7, 194),
            (62, 7, 190)
        ]
    );
}

#[test]
fn backoff_delays_never_shrink() {
    let capped = QueueConfig {
        retry_interval: 3,
        max_retry_interval: Some(100),
        max_age: 100000,
    };
    let uncapped = QueueConfig {
        retry_interval: 3,
        max_retry_interval: None,
        max_age: 100000,
    };
    for n in 0..200u16 {
        assert!(capped.delay_for_attempt(n + 1) >= capped.delay_for_attempt(n));
        assert!(uncapped.delay_for_attempt(n + 1) >= uncapped.delay_for_attempt(n));
    }
}

#[test]
fn schedule_reaches_expiry() {
    let config = QueueConfig {
        retry_interval: 2,
        max_retry_interval: None,
        max_age: 1024,
    };
    // walking the attempts must eventually report expiry
    let mut expired = false;
    for n in 0..100u16 {
        if config.compute_delay_based_on_age(n, 0).is_none() {
            expired = true;
            break;
        }
    }
    assert!(expired);
}

#[test]
fn infer_with_capped_interval_divides_age() {
    let config = QueueConfig {
        retry_interval: 2,
        max_retry_interval: Some(8),
        max_age: 1024,
    };
    assert_eq!(config.infer_num_attempts(0), 0);
    assert_eq!(config.infer_num_attempts(7), 0);
    assert_eq!(config.infer_num_attempts(8), 1);
    assert_eq!(config.infer_num_attempts(100), 12);
}

#[test]
fn delay_saturates_instead_of_overflowing() {
    let config = QueueConfig {
        retry_interval: u64::MAX,
        max_retry_interval: None,
        max_age: 10,
    };
    assert_eq!(config.delay_for_attempt(5), u64::MAX);
}
