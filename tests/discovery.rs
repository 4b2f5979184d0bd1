use rackmap::cluster::{generate_racks, NeighborSet};
use rackmap::discovery::{format_neighbors, reachable_hosts, Drain, DrainWindow};
use rackmap::probe::{build_probe, build_probes, reply_sender, sender_address, FRAME_LEN};
use rackmap::synth::generate_crushmap;
use rackmap::topology::{BucketTypes, TopologyMap};
use rackmap::unit::parse_unit;

const MAC: [u8; 6] = [0x02, 0x11, 0x22, 0x33, 0x44, 0x55];

fn ip(a: u8, b: u8, c: u8, d: u8) -> u32 {
    u32::from_be_bytes([a, b, c, d])
}

/// A reply frame as a peer sends it back: `sender` answers for `sender_ip`.
fn reply_frame(sender: [u8; 6], sender_ip: u32, target_ip: u32) -> Vec<u8> {
    let mut f = Vec::new();
    f.extend_from_slice(&MAC);
    f.extend_from_slice(&sender);
    f.extend_from_slice(&[0x08, 0x06, 0x00, 0x01, 0x08, 0x00, 6, 4, 0x00, 0x02]);
    f.extend_from_slice(&sender);
    f.extend_from_slice(&sender_ip.to_be_bytes());
    f.extend_from_slice(&MAC);
    f.extend_from_slice(&target_ip.to_be_bytes());
    f.resize(60, 0);
    f
}

#[test]
fn probe_frame_layout() {
    let f = build_probe(&MAC, ip(10, 0, 0, 1), ip(10, 0, 0, 9));
    assert_eq!(f.len(), FRAME_LEN);
    let mut expected = vec![0xff; 6];
    expected.extend_from_slice(&MAC);
    expected.extend_from_slice(&[0x08, 0x06, 0x00, 0x01, 0x08, 0x00, 6, 4, 0x00, 0x01]);
    expected.extend_from_slice(&MAC);
    expected.extend_from_slice(&[10, 0, 0, 1]);
    expected.extend_from_slice(&[0xff; 6]);
    expected.extend_from_slice(&[10, 0, 0, 9]);
    expected.resize(60, 0);
    assert_eq!(f, expected);
}

#[test]
fn one_probe_per_target() {
    let frames = build_probes(&MAC, ip(10, 0, 0, 1), &vec![ip(10, 0, 0, 2), ip(10, 0, 0, 3)]);
    assert_eq!(frames.len(), 2);
    assert_eq!(&frames[1][38..42], &[10, 0, 0, 3]);
}

#[test]
fn reply_gives_its_sender() {
    let f = reply_frame([2, 0, 0, 0, 0, 7], ip(192, 168, 1, 7), ip(192, 168, 1, 1));
    assert_eq!(reply_sender(&f), Some(ip(192, 168, 1, 7)));
}

#[test]
fn requests_and_other_frames_are_not_replies() {
    let probe = build_probe(&MAC, ip(10, 0, 0, 1), ip(10, 0, 0, 9));
    assert_eq!(reply_sender(&probe), None);
    let mut ipv4 = reply_frame([2, 0, 0, 0, 0, 7], ip(192, 168, 1, 7), ip(192, 168, 1, 1));
    ipv4[12] = 0x08;
    ipv4[13] = 0x00;
    assert_eq!(reply_sender(&ipv4), None);
}

#[test]
fn short_frames_are_skipped() {
    let f = reply_frame([2, 0, 0, 0, 0, 7], ip(192, 168, 1, 7), ip(192, 168, 1, 1));
    assert_eq!(reply_sender(&f[..41]), None);
    assert_eq!(reply_sender(&f[..42]), Some(ip(192, 168, 1, 7)));
    assert_eq!(reply_sender(&[]), None);
}

#[test]
fn sender_address_is_the_last_ipv4() {
    assert_eq!(sender_address(&vec![]), 0);
    assert_eq!(sender_address(&vec![ip(10, 0, 0, 1), ip(10, 0, 0, 2)]), ip(10, 0, 0, 2));
}

#[test]
fn only_answering_candidates_are_reachable() {
    let candidates = vec![
        ("h1".to_string(), ip(10, 0, 0, 1)),
        ("h2".to_string(), ip(10, 0, 0, 2)),
        ("h3".to_string(), ip(10, 0, 0, 3)),
    ];
    let r = reachable_hosts(&candidates, &vec![ip(10, 0, 0, 3), ip(10, 0, 0, 9), ip(10, 0, 0, 1)]);
    assert_eq!(r, vec![("h1".to_string(), ip(10, 0, 0, 1)), ("h3".to_string(), ip(10, 0, 0, 3))]);
}

#[test]
fn silence_stops_at_the_idle_wait_with_nothing_found() {
    let window = DrainWindow { idle_ms: 5_000, ceiling_ms: 30_000 };
    let d = Drain::start(1_000);
    assert!(!d.should_stop(window, 5_999));
    assert!(d.should_stop(window, 6_000));
    let found = d.into_responders();
    assert!(found.is_empty());
    let candidates = vec![("h1".to_string(), ip(10, 0, 0, 1))];
    assert!(reachable_hosts(&candidates, &found).is_empty());
}

#[test]
fn replies_extend_the_wait_up_to_the_ceiling() {
    let window = DrainWindow { idle_ms: 5_000, ceiling_ms: 12_000 };
    let mut d = Drain::start(0);
    d.on_reply(4_000, 7);
    assert!(!d.should_stop(window, 8_500));
    d.on_reply(8_000, 7);
    d.on_reply(11_000, 9);
    assert!(!d.should_stop(window, 11_999));
    assert!(d.should_stop(window, 12_000));
    assert_eq!(d.into_responders(), vec![7, 9]);
}

#[test]
fn clock_going_back_counts_as_no_time() {
    let window = DrainWindow { idle_ms: 1, ceiling_ms: 1 };
    let d = Drain::start(100);
    assert!(!d.should_stop(window, 50));
}

#[test]
fn neighbor_list_is_space_separated() {
    assert_eq!(format_neighbors(&vec![]), "");
    assert_eq!(format_neighbors(&vec!["h1".to_string()]), "h1");
    assert_eq!(format_neighbors(&vec!["h1".to_string(), "h2".to_string(), "h3".to_string()]), "h1 h2 h3");
}

#[test]
fn unit_names_split_into_name_and_number() {
    assert_eq!(parse_unit("ceph-osd/3"), Some(("ceph-osd".to_string(), 3)));
    assert_eq!(parse_unit("dct/+12/extra"), Some(("dct".to_string(), 12)));
    assert_eq!(parse_unit("/0"), Some(("".to_string(), 0)));
    assert_eq!(parse_unit("ceph-osd"), None);
    assert_eq!(parse_unit("ceph-osd/x"), None);
    assert_eq!(parse_unit("ceph-osd/"), None);
    assert_eq!(parse_unit("ceph-osd/-1"), None);
    assert_eq!(parse_unit("a/99999999999999999999999"), None);
}

fn base_map() -> TopologyMap {
    let mut names = vec![(-1, "default".to_string())];
    for (i, h) in ["h1", "h2", "h3"].iter().enumerate() {
        names.push((-(i as i32) - 2, h.to_string()));
        names.push((i as i32, format!("osd.{}", i)));
    }
    TopologyMap {
        magic: 65536,
        max_buckets: 0,
        max_rules: 0,
        max_devices: 3,
        buckets: vec![],
        rules: vec![],
        type_map: vec![],
        name_map: names,
        rule_name_map: vec![],
        choose_local_tries: None,
        choose_local_fallback_tries: None,
        choose_total_tries: None,
        chooseleaf_descend_once: None,
        chooseleaf_vary_r: None,
        straw_calc_version: None,
        allowed_bucket_algorithms: None,
        chooseleaf_stable: None,
    }
}

#[test]
fn end_to_end_two_racks() {
    let addrs = [("h1", ip(10, 0, 0, 1)), ("h2", ip(10, 0, 0, 2)), ("h3", ip(10, 0, 0, 3))];
    // Each host probes the others; only h1 and h2 answer each other.
    let mut ns = NeighborSet::new();
    for (me, my_ip) in addrs.iter() {
        let candidates: Vec<(String, u32)> = addrs
            .iter()
            .filter(|(h, _)| h != me)
            .map(|(h, a)| (h.to_string(), *a))
            .collect();
        let mut d = Drain::start(0);
        for frame in candidates.iter().filter_map(|(h, a)| {
            let answers = (*me == "h1" && *h == "h2") || (*me == "h2" && *h == "h1");
            if answers { Some(reply_frame([2, 0, 0, 0, 0, 1], *a, *my_ip)) } else { None }
        }) {
            if let Some(sender) = reply_sender(&frame) {
                d.on_reply(10, sender);
            }
        }
        let found: Vec<String> = reachable_hosts(&candidates, &d.into_responders()).into_iter().map(|(h, _)| h).collect();
        ns.insert(me.to_string(), found);
    }
    let racks = generate_racks(&ns).unwrap();
    assert_eq!(racks, vec![vec!["h1".to_string(), "h2".to_string()], vec!["h3".to_string()]]);
    let map = generate_crushmap(base_map(), &racks).unwrap();
    assert_eq!(map.buckets.len(), 3);
    match &map.buckets[2] {
        BucketTypes::Straw(root, _) => {
            assert_eq!(root.id, -7);
            let ids: Vec<i32> = root.items.iter().map(|(id, _)| *id).collect();
            assert_eq!(ids, vec![-5, -6]);
        }
        other => panic!("expected the root bucket, got {:?}", other),
    }
}
