use mta_core::{factor_names, hosts_from_mx, ideal_connection_count};

fn names(list: &[&str]) -> Vec<String> {
    list.iter().map(|s| s.to_string()).collect()
}

#[test]
fn name_factoring() {
    assert_eq!(
        factor_names(&names(&[
            "mta5.am0.yahoodns.net",
            "mta6.am0.yahoodns.net",
            "mta7.am0.yahoodns.net"
        ])),
        "(mta5|mta6|mta7).am0.yahoodns.net".to_string()
    );

    // Verify that the case is normalized to lowercase
    assert_eq!(
        factor_names(&names(&[
            "mta5.AM0.yahoodns.net",
            "mta6.am0.yAHOodns.net",
            "mta7.am0.yahoodns.net"
        ])),
        "(mta5|mta6|mta7).am0.yahoodns.net".to_string()
    );

    // When the names have mismatched lengths, do we produce
    // something reasonable?
    assert_eq!(
        factor_names(&names(&[
            "gmail-smtp-in.l.google.com",
            "alt1.gmail-smtp-in.l.google.com",
            "alt2.gmail-smtp-in.l.google.com",
            "alt3.gmail-smtp-in.l.google.com",
            "alt4.gmail-smtp-in.l.google.com",
        ])),
        "(alt1|alt2|alt3|alt4)?.gmail-smtp-in.l.google.com".to_string()
    );
}

#[test]
fn factoring_single_name_is_itself() {
    assert_eq!(
        factor_names(&names(&["mx.example.com"])),
        "mx.example.com".to_string()
    );
}

#[test]
fn factoring_empty_list_is_empty() {
    assert_eq!(factor_names(&Vec::new()), String::new());
}

#[test]
fn connection_limit() {
    let sizes = [
        0, 1, 2, 3, 4, 5, 6, 7, 8, 9, 10, 20, 32, 64, 128, 256, 400, 512, 1024,
    ];
    let max_connections = 32;
    let targets: Vec<(usize, usize)> = sizes
        .iter()
        .map(|&queue_size| (queue_size, ideal_connection_count(queue_size, max_connections)))
        .collect();
    assert_eq!(
        vec![
            (0, 0),
            (1, 1),
            (2, 2),
            (3, 3),
            (4, 3),
            (5, 4),
            (6, 5),
            (7, 5),
            (8, 6),
            (9, 6),
            (10, 7),
            (20, 12),
            (32, 17),
            (64, 25),
            (128, 31),
            (256, 32),
            (400, 32),
            (512, 32),
            (1024, 32)
        ],
        targets
    );
}

#[test]
fn connection_count_is_monotone_and_capped() {
    let mut last = 0;
    for q in 0..2000usize {
        let v = ideal_connection_count(q, 32);
        assert!(v >= last);
        assert!(v <= 32);
        last = v;
    }
}

#[test]
fn hosts_from_mx_sorts_within_preference_groups() {
    let domain = "example.com".to_string();
    let groups = vec![
        names(&["mxb.example.com", "mxa.example.com"]),
        names(&["fallback.example.net"]),
    ];
    let hosts = hosts_from_mx(&domain, groups);
    assert_eq!(
        hosts,
        names(&["mxa.example.com", "mxb.example.com", "fallback.example.net"])
    );
}

#[test]
fn hosts_from_mx_empty_answer_routes_to_domain() {
    let domain = "example.com".to_string();
    let hosts = hosts_from_mx(&domain, Vec::new());
    assert_eq!(hosts, names(&["example.com"]));
}
