use cluster_routing::errors::RedisErrorKind;
use cluster_routing::frame::{ProtocolFrame, Resp2Frame, Resp3Frame};
use cluster_routing::routing::{ClusterRouting, HostPolicy};
use cluster_routing::scan::{KeyScanInner, Score, ValueScanInner};
use cluster_routing::server::{Server, TlsHostMapping};
use cluster_routing::value::{MessageKind, RedisValue};

fn node(host: &str, port: i64) -> RedisValue {
    RedisValue::Array(vec![
        RedisValue::String(host.to_string()),
        RedisValue::Integer(port),
    ])
}

fn entry(start: i64, end: i64, host: &str, port: i64) -> RedisValue {
    RedisValue::Array(vec![
        RedisValue::Integer(start),
        RedisValue::Integer(end),
        node(host, port),
    ])
}

fn entry_with_replicas(
    start: i64,
    end: i64,
    host: &str,
    port: i64,
    replicas: Vec<(&str, i64)>,
) -> RedisValue {
    let mut items = vec![
        RedisValue::Integer(start),
        RedisValue::Integer(end),
        node(host, port),
    ];
    for (h, p) in replicas {
        items.push(node(h, p));
    }
    RedisValue::Array(items)
}

#[test]
fn rebuild_two_ranges_with_empty_host_fallback() {
    // one entry reports an empty host: it must resolve to the fallback
    let topology = RedisValue::Array(vec![
        entry(0, 8191, "", 6379),
        entry(8192, 16383, "b.example.com", 6380),
    ]);
    let mut table = ClusterRouting::new();
    table.rebuild(&topology, &HostPolicy::Preserve, "node0").unwrap();
    assert_eq!(table.len(), 2);
    let a = table.get_server(0).unwrap();
    assert_eq!(a.host, "node0");
    assert_eq!(a.port, 6379);
    let a2 = table.get_server(8191).unwrap();
    assert_eq!(a2, a);
    let b = table.get_server(16383).unwrap();
    assert_eq!(b.host, "b.example.com");
    assert_eq!(b.port, 6380);
}

#[test]
fn get_server_gap_and_empty() {
    let empty = ClusterRouting::new();
    assert!(empty.get_server(0).is_none());
    assert!(empty.get_server(16383).is_none());

    let topology = RedisValue::Array(vec![
        entry(20, 30, "a", 1),
        entry(0, 10, "b", 2),
    ]);
    let mut table = ClusterRouting::new();
    table.rebuild(&topology, &HostPolicy::Preserve, "node0").unwrap();
    // rebuild sorts the unsorted input ascending by start
    assert_eq!(table.slots()[0].start, 0);
    assert_eq!(table.slots()[1].start, 20);
    assert_eq!(table.get_server(5).unwrap().host, "b");
    assert_eq!(table.get_server(25).unwrap().host, "a");
    assert!(table.get_server(15).is_none());
    assert!(table.get_server(31).is_none());
}

#[test]
fn rebuild_rejects_malformed_and_keeps_old_table() {
    let good = RedisValue::Array(vec![entry(0, 16383, "a", 1)]);
    let mut table = ClusterRouting::new();
    table.rebuild(&good, &HostPolicy::Preserve, "node0").unwrap();
    assert_eq!(table.len(), 1);

    // wrong element type for a slot bound
    let bad = RedisValue::Array(vec![RedisValue::Array(vec![
        RedisValue::String("x".to_string()),
        RedisValue::Integer(1),
        node("a", 1),
    ])]);
    let err = table.rebuild(&bad, &HostPolicy::Preserve, "node0").unwrap_err();
    assert_eq!(err.kind(), RedisErrorKind::Protocol);
    assert_eq!(table.len(), 1);

    // not an array at all
    let err = table.rebuild(&RedisValue::Null, &HostPolicy::Preserve, "node0").unwrap_err();
    assert_eq!(err.kind(), RedisErrorKind::Protocol);
    assert_eq!(table.len(), 1);

    // overlapping ranges survive parsing but fail the table invariant
    let overlapping = RedisValue::Array(vec![entry(0, 100, "a", 1), entry(50, 200, "b", 2)]);
    let err = table.rebuild(&overlapping, &HostPolicy::Preserve, "node0").unwrap_err();
    assert_eq!(err.kind(), RedisErrorKind::Protocol);
    assert_eq!(table.len(), 1);
    assert_eq!(table.get_server(0).unwrap().host, "a");
}

#[test]
fn unique_primary_nodes_sorted_and_deduplicated() {
    let topology = RedisValue::Array(vec![
        entry(100, 200, "zeta", 1),
        entry(0, 50, "alpha", 2),
        entry(300, 400, "zeta", 1),
        entry(500, 600, "alpha", 1),
    ]);
    let mut table = ClusterRouting::new();
    table.rebuild(&topology, &HostPolicy::Preserve, "node0").unwrap();
    let primaries = table.unique_primary_nodes();
    let rendered: Vec<String> = primaries.iter().map(|s| s.to_display_string()).collect();
    assert_eq!(rendered, vec!["alpha:1", "alpha:2", "zeta:1"]);
}

#[test]
fn unique_hash_slots_one_per_primary() {
    let topology = RedisValue::Array(vec![
        entry(0, 50, "a", 1),
        entry(100, 200, "b", 2),
        entry(300, 400, "a", 1),
    ]);
    let mut table = ClusterRouting::new();
    table.rebuild(&topology, &HostPolicy::Preserve, "node0").unwrap();
    let mut slots = table.unique_hash_slots();
    slots.sort();
    // one representative start per distinct primary: the first-seen range
    assert_eq!(slots, vec![0, 100]);
}

#[test]
fn replicas_union_sorted() {
    let topology = RedisValue::Array(vec![
        entry_with_replicas(0, 50, "p", 1, vec![("r2", 2), ("r1", 1)]),
        entry_with_replicas(100, 200, "p", 1, vec![("r1", 1), ("r3", 3)]),
        entry_with_replicas(300, 400, "q", 9, vec![("other", 5)]),
    ]);
    let mut table = ClusterRouting::new();
    table.rebuild(&topology, &HostPolicy::Preserve, "node0").unwrap();
    let reps = table.replicas(&Server::new("p", 1));
    let rendered: Vec<String> = reps.iter().map(|s| s.to_display_string()).collect();
    assert_eq!(rendered, vec!["r1:1", "r2:2", "r3:3"]);
    assert!(table.replicas(&Server::new("nobody", 1)).is_empty());
}

#[test]
fn random_slot_and_node() {
    let empty = ClusterRouting::new();
    assert!(empty.random_slot().is_none());
    assert!(empty.random_node().is_none());

    let topology = RedisValue::Array(vec![entry(0, 16383, "only", 7000)]);
    let mut table = ClusterRouting::new();
    table.rebuild(&topology, &HostPolicy::Preserve, "node0").unwrap();
    let range = table.random_slot().unwrap();
    assert_eq!(range.start, 0);
    assert_eq!(range.end, 16383);
    assert_eq!(table.random_node().unwrap(), Server::new("only", 7000));
}

#[test]
fn hash_key_known_slots() {
    // well-known cluster key slots
    assert_eq!(ClusterRouting::hash_key(b"foo"), 12182);
    assert_eq!(ClusterRouting::hash_key(b"bar"), 5061);
    // only the text inside the first hash tag is hashed
    assert_eq!(
        ClusterRouting::hash_key(b"{user1000}.following"),
        ClusterRouting::hash_key(b"user1000")
    );
    assert!(ClusterRouting::hash_key(b"anything") < 16384);
}

#[test]
fn server_parse_and_format_round_trip() {
    let s = Server::parse("redis.example.com:6379").unwrap();
    assert_eq!(s.host, "redis.example.com");
    assert_eq!(s.port, 6379);
    assert!(s.tls_server_name.is_none());

    // identity round trip through the canonical rendering
    let rendered = s.to_display_string();
    assert_eq!(rendered, "redis.example.com:6379");
    let back = Server::parse(&rendered).unwrap();
    assert_eq!(back, s);

    // whitespace around the whole string is trimmed first
    let t = Server::parse("  10.0.0.1:80 \n").unwrap();
    assert_eq!(t.host, "10.0.0.1");
    assert_eq!(t.port, 80);

    // an empty host parses; the port boundary holds
    assert_eq!(Server::parse(":6379").unwrap().host, "");
    assert_eq!(Server::parse("h:65535").unwrap().port, 65535);
}

#[test]
fn server_parse_rejections() {
    assert!(Server::parse("nocolon").is_none());
    assert!(Server::parse("a:b:c").is_none());
    assert!(Server::parse("host:").is_none());
    assert!(Server::parse("host:notaport").is_none());
    assert!(Server::parse("host:65536").is_none());
    assert!(Server::parse("host:99999999999999999999").is_none());
    assert!(Server::parse("").is_none());

    let err = Server::from_string("nonsense").unwrap_err();
    assert_eq!(err.kind(), RedisErrorKind::Config);
}

#[test]
fn server_identity_ignores_tls_name() {
    let plain = Server::new("h", 1);
    let tls = Server::new_with_tls("h", 1, Some("logical".to_string()));
    assert_eq!(plain, tls);

    let other = Server::new("h", 2);
    assert_ne!(plain, other);
}

#[test]
fn server_from_parts_empty_host_fallback() {
    let s = Server::from_parts(":7000", "node9").unwrap();
    assert_eq!(s.host, "node9");
    assert_eq!(s.port, 7000);
    let t = Server::from_parts("given:7000", "node9").unwrap();
    assert_eq!(t.host, "given");
    assert!(Server::from_parts("bad", "node9").is_none());
}

#[test]
fn tls_name_derivation() {
    let mut s = Server::new("10.0.0.1", 6379);
    s.set_tls_server_name(&TlsHostMapping::NoPolicy, true, "node0");
    assert!(s.tls_server_name.is_none());

    // not an IP literal: a no-op even with a policy
    let mut d = Server::new("redis.example.com", 6379);
    d.set_tls_server_name(&TlsHostMapping::DefaultHost, false, "node0");
    assert!(d.tls_server_name.is_none());

    let mut ip = Server::new("10.0.0.1", 6379);
    ip.set_tls_server_name(&TlsHostMapping::DefaultHost, true, "node0");
    assert_eq!(ip.tls_server_name.as_deref(), Some("node0"));
}

#[test]
fn hscan_transform_pairs() {
    let data = vec![
        RedisValue::String("k1".to_string()),
        RedisValue::String("v1".to_string()),
        RedisValue::String("k2".to_string()),
        RedisValue::String("v2".to_string()),
    ];
    let map = ValueScanInner::transform_hscan_result(data).unwrap();
    assert_eq!(map.len(), 2);
    assert_eq!(map.get(b"k1"), Some(&RedisValue::String("v1".to_string())));
    assert_eq!(map.get(b"k2"), Some(&RedisValue::String("v2".to_string())));
    assert_eq!(map.get(b"missing"), None);
}

#[test]
fn hscan_transform_empty_bytes_and_duplicates() {
    let empty = ValueScanInner::transform_hscan_result(vec![]).unwrap();
    assert!(empty.is_empty());

    // byte keys work like string keys; the earlier entry wins a duplicate
    let data = vec![
        RedisValue::Bytes(b"k".to_vec()),
        RedisValue::Integer(1),
        RedisValue::String("k".to_string()),
        RedisValue::Integer(2),
    ];
    let map = ValueScanInner::transform_hscan_result(data).unwrap();
    assert_eq!(map.len(), 1);
    assert_eq!(map.get(b"k"), Some(&RedisValue::Integer(1)));
}

#[test]
fn hscan_transform_errors() {
    // odd number of elements
    let err =
        ValueScanInner::transform_hscan_result(vec![RedisValue::String("k1".to_string())])
            .unwrap_err();
    assert_eq!(err.kind(), RedisErrorKind::Protocol);

    // a key that is neither a string nor bytes
    let err = ValueScanInner::transform_hscan_result(vec![
        RedisValue::Integer(1),
        RedisValue::String("v".to_string()),
    ])
    .unwrap_err();
    assert_eq!(err.kind(), RedisErrorKind::Protocol);
}

fn score_as_f64(s: &Score) -> f64 {
    match s {
        Score::Text(t) => t.parse::<f64>().unwrap(),
        Score::Int(i) => *i as f64,
        Score::Bits(b) => f64::from_bits(*b),
    }
}

#[test]
fn zscan_transform_preserves_order() {
    let data = vec![
        RedisValue::String("alice".to_string()),
        RedisValue::String("1.5".to_string()),
        RedisValue::String("bob".to_string()),
        RedisValue::String("2".to_string()),
    ];
    let out = ValueScanInner::transform_zscan_result(data).unwrap();
    assert_eq!(out.len(), 2);
    assert_eq!(out[0].0, RedisValue::String("alice".to_string()));
    assert_eq!(score_as_f64(&out[0].1), 1.5);
    assert_eq!(out[1].0, RedisValue::String("bob".to_string()));
    assert_eq!(score_as_f64(&out[1].1), 2.0);
}

#[test]
fn zscan_transform_score_kinds() {
    let data = vec![
        RedisValue::String("m1".to_string()),
        RedisValue::Integer(7),
        RedisValue::String("m2".to_string()),
        RedisValue::Double((2.25f64).to_bits()),
        RedisValue::String("m3".to_string()),
        RedisValue::String("-inf".to_string()),
        RedisValue::String("m4".to_string()),
        RedisValue::String("1e+100".to_string()),
    ];
    let out = ValueScanInner::transform_zscan_result(data).unwrap();
    assert_eq!(score_as_f64(&out[0].1), 7.0);
    assert_eq!(score_as_f64(&out[1].1), 2.25);
    assert_eq!(score_as_f64(&out[2].1), f64::NEG_INFINITY);
    assert_eq!(score_as_f64(&out[3].1), 1e100);
}

#[test]
fn zscan_transform_errors() {
    // a non-numeric score
    let err = ValueScanInner::transform_zscan_result(vec![
        RedisValue::String("alice".to_string()),
        RedisValue::String("oops".to_string()),
    ])
    .unwrap_err();
    assert_eq!(err.kind(), RedisErrorKind::Protocol);

    // an odd number of elements
    let err =
        ValueScanInner::transform_zscan_result(vec![RedisValue::String("alice".to_string())])
            .unwrap_err();
    assert_eq!(err.kind(), RedisErrorKind::Protocol);

    // a score of the wrong type entirely
    let err = ValueScanInner::transform_zscan_result(vec![
        RedisValue::String("alice".to_string()),
        RedisValue::Null,
    ])
    .unwrap_err();
    assert_eq!(err.kind(), RedisErrorKind::Protocol);
}

#[test]
fn frame_upgrade_structural() {
    let older = Resp2Frame::Array(vec![
        Resp2Frame::SimpleString(b"OK".to_vec()),
        Resp2Frame::Error("ERR boom".to_string()),
        Resp2Frame::Integer(42),
        Resp2Frame::BulkString(b"payload".to_vec()),
        Resp2Frame::Null,
    ]);
    let upgraded = ProtocolFrame::Resp2(older).into_resp3();
    assert_eq!(
        upgraded,
        Resp3Frame::Array(vec![
            Resp3Frame::SimpleString(b"OK".to_vec()),
            Resp3Frame::SimpleError("ERR boom".to_string()),
            Resp3Frame::Number(42),
            Resp3Frame::BlobString(b"payload".to_vec()),
            Resp3Frame::Null,
        ])
    );
}

#[test]
fn frame_upgrade_idempotent_on_canonical() {
    let canonical = Resp3Frame::Mapping(vec![(
        Resp3Frame::SimpleString(b"k".to_vec()),
        Resp3Frame::Double((1.5f64).to_bits()),
    )]);
    let expected = Resp3Frame::Mapping(vec![(
        Resp3Frame::SimpleString(b"k".to_vec()),
        Resp3Frame::Double((1.5f64).to_bits()),
    )]);
    assert_eq!(ProtocolFrame::Resp3(canonical).into_resp3(), expected);

    let nested = Resp3Frame::Array(vec![Resp3Frame::Boolean(true), Resp3Frame::Null]);
    let expected = Resp3Frame::Array(vec![Resp3Frame::Boolean(true), Resp3Frame::Null]);
    assert_eq!(ProtocolFrame::Resp3(nested).into_resp3(), expected);
}

#[test]
fn frame_from_impls() {
    let f = ProtocolFrame::from(Resp2Frame::Null);
    assert_eq!(f, ProtocolFrame::Resp2(Resp2Frame::Null));
    let f = ProtocolFrame::from(Resp3Frame::Null);
    assert_eq!(f, ProtocolFrame::Resp3(Resp3Frame::Null));
}

#[test]
fn message_kind_from_str() {
    assert_eq!(MessageKind::from_str("message"), Some(MessageKind::Message));
    assert_eq!(MessageKind::from_str("pmessage"), Some(MessageKind::PMessage));
    assert_eq!(MessageKind::from_str("smessage"), Some(MessageKind::SMessage));
    assert_eq!(MessageKind::from_str("unsubscribe"), None);
    assert_eq!(MessageKind::from_str(""), None);
}

#[test]
fn scan_cursor_updates_in_place() {
    let mut key_scan = KeyScanInner {
        hash_slot: Some(42),
        server: None,
        cursor_idx: 1,
        args: vec![
            RedisValue::String("SCAN".to_string()),
            RedisValue::String("0".to_string()),
        ],
    };
    key_scan.update_cursor("1337".to_string());
    assert_eq!(key_scan.args[1], RedisValue::String("1337".to_string()));
    assert_eq!(key_scan.args[0], RedisValue::String("SCAN".to_string()));
    assert_eq!(key_scan.hash_slot, Some(42));

    let mut value_scan = ValueScanInner {
        cursor_idx: 0,
        args: vec![RedisValue::String("0".to_string())],
    };
    value_scan.update_cursor("99".to_string());
    assert_eq!(value_scan.args[0], RedisValue::String("99".to_string()));
}

#[test]
fn select_resolved_picks_first() {
    let r = cluster_routing::server::select_resolved(vec!["10.0.0.1:1", "10.0.0.2:2"]);
    assert_eq!(r.unwrap(), "10.0.0.1:1");
    let err = cluster_routing::server::select_resolved(Vec::<u32>::new()).unwrap_err();
    assert_eq!(err.kind(), RedisErrorKind::IO);
}

#[test]
fn parse_cluster_slots_decodes_ids_and_replicas() {
    let topology = RedisValue::Array(vec![RedisValue::Array(vec![
        RedisValue::Integer(0),
        RedisValue::Integer(100),
        RedisValue::Array(vec![
            RedisValue::String("h".to_string()),
            RedisValue::Integer(1),
            RedisValue::String("nodeid123".to_string()),
        ]),
        node("r", 2),
    ])]);
    let ranges = cluster_routing::routing::parse_cluster_slots(&topology, "node0").unwrap();
    assert_eq!(ranges.len(), 1);
    assert_eq!(ranges[0].start, 0);
    assert_eq!(ranges[0].end, 100);
    assert_eq!(ranges[0].primary, Server::new("h", 1));
    assert_eq!(ranges[0].id, "nodeid123");
    assert_eq!(ranges[0].replicas, vec![Server::new("r", 2)]);

    // a port outside the 16-bit range is a protocol error
    let bad_port = RedisValue::Array(vec![RedisValue::Array(vec![
        RedisValue::Integer(0),
        RedisValue::Integer(100),
        node("h", 70000),
    ])]);
    let err = cluster_routing::routing::parse_cluster_slots(&bad_port, "node0").unwrap_err();
    assert_eq!(err.kind(), RedisErrorKind::Protocol);

    // a slot bound outside the slot space is a protocol error
    let bad_slot = RedisValue::Array(vec![entry(0, 20000, "h", 1)]);
    let err = cluster_routing::routing::parse_cluster_slots(&bad_slot, "node0").unwrap_err();
    assert_eq!(err.kind(), RedisErrorKind::Protocol);
}

#[test]
fn rebuild_rejects_empty_range() {
    // a range whose start exceeds its end fails the table invariant
    let backwards = RedisValue::Array(vec![entry(100, 0, "a", 1)]);
    let mut table = ClusterRouting::new();
    let err = table.rebuild(&backwards, &HostPolicy::Preserve, "node0").unwrap_err();
    assert_eq!(err.kind(), RedisErrorKind::Protocol);
    assert_eq!(table.len(), 0);
}


#[test]
fn trim_covers_unicode_whitespace() {
    // vertical tab, form feed and NBSP are trimmed like the standard trim
    let s = Server::parse("\u{000B}h:1\u{000C}").unwrap();
    assert_eq!(s.host, "h");
    assert_eq!(s.port, 1);
    let s = Server::parse("\u{00A0}\u{2003}node:2\u{3000}").unwrap();
    assert_eq!(s.host, "node");
    assert_eq!(s.port, 2);
}

#[test]
fn hostname_normalization_policies() {
    let topology = RedisValue::Array(vec![
        entry_with_replicas(0, 100, "0.0.0.0", 1, vec![("10.0.0.9", 2)]),
        entry(200, 300, "internal.docker", 3),
    ]);

    // unspecified addresses are replaced, concrete ones kept
    let mut table = ClusterRouting::new();
    table
        .rebuild(&topology, &HostPolicy::DefaultForUnspecified, "node0")
        .unwrap();
    assert_eq!(table.get_server(0).unwrap().host, "node0");
    assert_eq!(table.get_server(250).unwrap().host, "internal.docker");
    assert_eq!(table.slots()[0].replicas[0].host, "10.0.0.9");

    // everything is presented under the answering host
    let mut table = ClusterRouting::new();
    table
        .rebuild(&topology, &HostPolicy::UseDefaultHost, "node0")
        .unwrap();
    assert_eq!(table.get_server(0).unwrap().host, "node0");
    assert_eq!(table.get_server(250).unwrap().host, "node0");
    assert_eq!(table.slots()[0].replicas[0].host, "node0");
    // bounds, ports and layout are untouched
    assert_eq!(table.slots()[0].start, 0);
    assert_eq!(table.slots()[0].end, 100);
    assert_eq!(table.get_server(250).unwrap().port, 3);
}
