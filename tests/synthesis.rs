use rackmap::synth::{
    create_crushmap, generate_crushmap, lowest_structural_id, resolve_host, sort_by_id,
    MapSynthesisError,
};
use rackmap::topology::{
    Bucket, BucketAlg, BucketTypes, CrushHash, CrushRuleStep, OpCode, RuleType, TopologyMap,
};

fn straw(id: i32, items: Vec<(i32, Option<String>)>) -> BucketTypes {
    let n = items.len() as u32;
    BucketTypes::Straw(
        Bucket {
            id,
            bucket_type: OpCode::Take,
            alg: BucketAlg::Straw,
            hash: CrushHash::RJenkins1,
            weight: 0,
            size: n,
            items,
            perm_n: 0,
            perm: n,
        },
        vec![(0, 0); n as usize],
    )
}

fn entry(id: i32, name: &str) -> (i32, String) {
    (id, name.to_string())
}

/// Three hosts, each with one device, under an old root and an old rack.
fn current_map() -> TopologyMap {
    TopologyMap {
        magic: 65536,
        max_buckets: 6,
        max_rules: 0,
        max_devices: 3,
        buckets: vec![
            straw(-1, vec![(-5, Some("oldrack".to_string()))]),
            straw(-2, vec![(0, Some("osd.0".to_string()))]),
            straw(-3, vec![(1, Some("osd.1".to_string()))]),
            straw(-4, vec![(2, Some("osd.2".to_string()))]),
            straw(-5, vec![(-2, Some("h1".to_string())), (-3, Some("h2".to_string()))]),
            BucketTypes::Unknown,
        ],
        rules: vec![],
        type_map: vec![],
        name_map: vec![
            entry(-5, "oldrack"),
            entry(-4, "h3"),
            entry(-3, "h2"),
            entry(-2, "h1"),
            entry(-1, "default"),
            entry(0, "osd.0"),
            entry(1, "osd.1"),
            entry(2, "osd.2"),
        ],
        rule_name_map: vec![],
        choose_local_tries: None,
        choose_local_fallback_tries: None,
        choose_total_tries: None,
        chooseleaf_descend_once: None,
        chooseleaf_vary_r: None,
        straw_calc_version: None,
        allowed_bucket_algorithms: None,
        chooseleaf_stable: None,
    }
}

fn racks(v: &[&[&str]]) -> Vec<Vec<String>> {
    v.iter().map(|r| r.iter().map(|s| s.to_string()).collect()).collect()
}

fn header(b: &BucketTypes) -> &Bucket {
    match b {
        BucketTypes::Straw(h, _) => h,
        other => panic!("expected a straw bucket, got {:?}", other),
    }
}

#[test]
fn two_racks_and_a_root() {
    let out = generate_crushmap(current_map(), &racks(&[&["h1", "h2"], &["h3"]])).unwrap();
    // Host buckets survive in their old order; the old root and rack do not.
    let ids: Vec<i32> = out.buckets.iter().map(|b| header(b).id).collect();
    assert_eq!(ids, vec![-2, -3, -4, -6, -7, -8]);
    let r0 = header(&out.buckets[3]);
    assert_eq!(r0.items, vec![(-2, Some("h1".to_string())), (-3, Some("h2".to_string()))]);
    assert_eq!(r0.bucket_type, OpCode::ChooseIndep);
    assert_eq!((r0.size, r0.perm, r0.perm_n, r0.weight), (2, 2, 0, 0));
    let r1 = header(&out.buckets[4]);
    assert_eq!(r1.items, vec![(-4, Some("h3".to_string()))]);
    let root = header(&out.buckets[5]);
    assert_eq!(root.bucket_type, OpCode::SetChooseLocalTries);
    assert_eq!(root.items, vec![(-6, Some("0".to_string())), (-7, Some("1".to_string()))]);
    assert_eq!(
        out.name_map,
        vec![
            entry(-8, "default"),
            entry(-7, "1"),
            entry(-6, "0"),
            entry(-4, "h3"),
            entry(-3, "h2"),
            entry(-2, "h1"),
            entry(0, "osd.0"),
            entry(1, "osd.1"),
            entry(2, "osd.2"),
        ]
    );
    assert_eq!(out.max_buckets, 6);
    assert_eq!(out.max_devices, 3);
    let rule = out.rules[0].as_ref().unwrap();
    assert_eq!(rule.mask.rule_type, RuleType::Replicated);
    assert_eq!(
        rule.steps[0],
        CrushRuleStep { op: OpCode::Take, arg1: (-8, None), arg2: (0, None) }
    );
    assert_eq!(rule.steps[1].op, OpCode::ChooseLeafFirstN);
    assert_eq!(rule.steps[2].op, OpCode::Emit);
}

#[test]
fn allocated_ids_count_down_below_the_lowest() {
    let names: Vec<String> = (0..12).map(|i| format!("h{}", i)).collect();
    let mut map = current_map();
    map.name_map = names.iter().enumerate().map(|(i, n)| (-(i as i32) - 10, n.clone())).collect();
    map.buckets = vec![];
    let rs: Vec<Vec<String>> = names.iter().map(|n| vec![n.clone()]).collect();
    let out = generate_crushmap(map, &rs).unwrap();
    // The lowest structural id is -21; twelve racks take -22 ..= -33, the root -34.
    let ids: Vec<i32> = out.buckets.iter().map(|b| header(b).id).collect();
    let expected: Vec<i32> = (22..=34).map(|i| -i).collect();
    assert_eq!(ids, expected);
    let root = header(out.buckets.last().unwrap());
    assert_eq!(root.items[10], (-32, Some("10".to_string())));
    assert_eq!(root.items[11], (-33, Some("11".to_string())));
}

#[test]
fn synthesis_is_repeatable() {
    let a = generate_crushmap(current_map(), &racks(&[&["h1", "h2"], &["h3"]])).unwrap();
    let b = generate_crushmap(current_map(), &racks(&[&["h1", "h2"], &["h3"]])).unwrap();
    assert_eq!(a, b);
}

#[test]
fn unknown_host_is_an_error() {
    let r = generate_crushmap(current_map(), &racks(&[&["h1", "nowhere"]]));
    assert_eq!(r, Err(MapSynthesisError::UnresolvedHost("nowhere".to_string())));
}

#[test]
fn map_without_structural_ids_is_an_error() {
    let mut map = current_map();
    map.name_map = vec![entry(0, "osd.0"), entry(1, "osd.1")];
    let r = generate_crushmap(map, &racks(&[&["osd.0"]]));
    assert_eq!(r, Err(MapSynthesisError::NoStructuralId));
}

#[test]
fn ids_below_i32_range_are_an_error() {
    let mut map = current_map();
    map.name_map = vec![entry(i32::MIN + 1, "h1")];
    assert_eq!(
        generate_crushmap(map, &racks(&[&["h1"]])),
        Err(MapSynthesisError::IdSpaceExhausted)
    );
    let mut map = current_map();
    map.name_map = vec![entry(i32::MIN + 2, "h1")];
    assert!(generate_crushmap(map, &racks(&[&["h1"]])).is_ok());
}

#[test]
fn no_racks_gives_an_empty_root() {
    let out = generate_crushmap(current_map(), &racks(&[])).unwrap();
    assert_eq!(out.buckets.len(), 1);
    let root = header(&out.buckets[0]);
    assert_eq!(root.id, -6);
    assert!(root.items.is_empty());
}

#[test]
fn lowest_structural_id_ignores_devices() {
    assert_eq!(lowest_structural_id(&vec![entry(3, "a"), entry(-2, "b"), entry(-7, "c"), entry(-1, "d")]), Some(-7));
    assert_eq!(lowest_structural_id(&vec![entry(3, "a"), entry(0, "b")]), None);
    assert_eq!(lowest_structural_id(&vec![]), None);
}

#[test]
fn first_entry_with_a_name_resolves_it() {
    let names = vec![entry(-2, "a"), entry(-3, "b"), entry(-4, "a")];
    assert_eq!(resolve_host(&names, &"a".to_string()), Some(-2));
    assert_eq!(resolve_host(&names, &"b".to_string()), Some(-3));
    assert_eq!(resolve_host(&names, &"c".to_string()), None);
}

#[test]
fn sorting_by_id_is_stable() {
    let sorted = sort_by_id(vec![entry(2, "x"), entry(-1, "y"), entry(2, "a"), entry(-5, "z")]);
    assert_eq!(sorted, vec![entry(-5, "z"), entry(-1, "y"), entry(2, "x"), entry(2, "a")]);
}

#[test]
fn assembled_map_carries_the_baseline() {
    let m = create_crushmap(vec![BucketTypes::Unknown], 4, vec![entry(-1, "default")], -1);
    assert_eq!(m.magic, 65536);
    assert_eq!((m.max_buckets, m.max_rules, m.max_devices), (1, 1, 4));
    assert_eq!(m.type_map.len(), 11);
    assert_eq!(m.type_map[3], entry(3, "rack"));
    assert_eq!(m.type_map[10], entry(10, "root"));
    assert_eq!(m.rule_name_map, vec![entry(0, "replicated_ruleset")]);
    assert_eq!(m.choose_total_tries, Some(50));
    assert_eq!(m.chooseleaf_descend_once, Some(1));
    assert_eq!(m.straw_calc_version, Some(1));
}
