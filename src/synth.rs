//! Building a new placement map from the current one and a set of racks.
use vstd::prelude::*;
use vstd::seq_lib::group_to_multiset_ensures;

use crate::topology::{
    bucket_id, Bucket, BucketAlg, BucketTypes, CrushHash, CrushRuleMask, CrushRuleStep, OpCode,
    Rule, RuleType, TopologyMap,
};

verus! {

broadcast use group_to_multiset_ensures;

/// The lowest negative id in a name table, if there is one.
pub open spec fn min_negative_id(names: Seq<(i32, String)>) -> Option<i32>
    decreases names.len(),
{
    if names.len() == 0 {
        None
    } else {
        let rest = min_negative_id(names.drop_last());
        let id = names.last().0;
        if id >= 0 {
            rest
        } else if rest is Some && rest->Some_0 <= id {
            rest
        } else {
            Some(id)
        }
    }
}

/// The id that the first entry carrying `host` gives it.
pub open spec fn resolve(names: Seq<(i32, String)>, host: Seq<char>) -> Option<i32>
    decreases names.len(),
{
    if names.len() == 0 {
        None
    } else if names[0].1@ == host {
        Some(names[0].0)
    } else {
        resolve(names.drop_first(), host)
    }
}

/// The decimal digits of `n`, most significant first.
pub open spec fn decimal(n: nat) -> Seq<char>
    decreases n,
{
    if n < 10 {
        seq![digit_char(n)]
    } else {
        decimal(n / 10).push(digit_char(n % 10))
    }
}

pub open spec fn digit_char(d: nat) -> char {
    if d == 0 { '0' }
    else if d == 1 { '1' }
    else if d == 2 { '2' }
    else if d == 3 { '3' }
    else if d == 4 { '4' }
    else if d == 5 { '5' }
    else if d == 6 { '6' }
    else if d == 7 { '7' }
    else if d == 8 { '8' }
    else { '9' }
}

/// Name-table entries ordered by id.
pub open spec fn id_sorted(names: Seq<(i32, String)>) -> bool {
    forall|a: int, b: int| 0 <= a < b < names.len() ==> #[trigger] names[a].0 <= #[trigger] names[b].0
}

/// Finds the lowest structural (negative) id of a name table.
pub fn lowest_structural_id(names: &Vec<(i32, String)>) -> (r: Option<i32>)
    ensures
        r == min_negative_id(names@),
{
    let mut cur: Option<i32> = None;
    let mut i: usize = 0;
    while i < names.len()
        invariant
            i <= names@.len(),
            cur == min_negative_id(names@.subrange(0, i as int)),
        decreases names@.len() - i,
    {
        assert(names@.subrange(0, i + 1).drop_last() =~= names@.subrange(0, i as int));
        let id = names[i].0;
        if id < 0 {
            match cur {
                Some(m) => {
                    if id < m {
                        cur = Some(id);
                    }
                },
                None => {
                    cur = Some(id);
                },
            }
        }
        i = i + 1;
    }
    assert(names@.subrange(0, names@.len() as int) =~= names@);
    cur
}

/// Looks a host name up in a name table; the first entry with that name wins.
pub fn resolve_host(names: &Vec<(i32, String)>, host: &String) -> (r: Option<i32>)
    ensures
        r == resolve(names@, host@),
{
    let mut i: usize = 0;
    assert(names@.subrange(0, names@.len() as int) =~= names@);
    while i < names.len()
        invariant
            i <= names@.len(),
            resolve(names@, host@) == resolve(names@.subrange(i as int, names@.len() as int), host@),
        decreases names@.len() - i,
    {
        let rest = Ghost(names@.subrange(i as int, names@.len() as int));
        assert(rest@.drop_first() =~= names@.subrange(i + 1, names@.len() as int));
        if names[i].1 == *host {
            return Some(names[i].0);
        }
        i = i + 1;
    }
    None
}

/// Relies on `usize`'s `Display`: a number is written as its decimal digits.
#[verifier::external_body]
fn decimal_label(n: usize) -> (r: String)
    ensures
        r@ == decimal(n as nat),
{
    n.to_string()
}

/// Sorts a name table by id, keeping the order of entries with equal ids.
pub fn sort_by_id(entries: Vec<(i32, String)>) -> (r: Vec<(i32, String)>)
    ensures
        id_sorted(r@),
        r@.to_multiset() == entries@.to_multiset(),
{
    let mut src = entries;
    let ghost orig = src@;
    let total = src.len();
    let mut out: Vec<(i32, String)> = Vec::new();
    let mut i: usize = 0;
    while src.len() > 0
        invariant
            i + src@.len() == orig.len(),
            orig.len() <= usize::MAX,
            src@ == orig.subrange(i as int, orig.len() as int),
            id_sorted(out@),
            out@.to_multiset() == orig.subrange(0, i as int).to_multiset(),
        decreases src@.len(),
    {
        let e = src.remove(0);
        assert(src@ =~= orig.subrange(i + 1, orig.len() as int));
        assert(orig.subrange(0, i + 1) =~= orig.subrange(0, i as int).push(e));
        let mut pos: usize = 0;
        while pos < out.len() && out[pos].0 <= e.0
            invariant
                pos <= out@.len(),
                forall|j: int| 0 <= j < pos ==> #[trigger] out@[j].0 <= e.0,
            decreases out@.len() - pos,
        {
            pos = pos + 1;
        }
        let ghost before = out@;
        out.insert(pos, e);
        assert(out@ == before.insert(pos as int, e));
        assert(id_sorted(out@)) by {
            assert forall|a: int, b: int| 0 <= a < b < out@.len() implies #[trigger] out@[a].0
                <= #[trigger] out@[b].0 by {
                if b < pos {
                } else if b == pos {
                } else if a < pos {
                    assert(before[a].0 <= before[b - 1].0);
                } else if a == pos {
                    assert(pos < before.len());
                    assert(!(before[pos as int].0 <= e.0));
                    if b - 1 > pos {
                        assert(before[pos as int].0 <= before[b - 1].0);
                    }
                } else {
                    assert(before[a - 1].0 <= before[b - 1].0);
                }
            }
        }
        i = i + 1;
    }
    assert(orig.subrange(0, orig.len() as int) =~= orig);
    out
}

/// Why a new placement map could not be built.
#[derive(Debug, PartialEq, Eq)]
pub enum MapSynthesisError {
    /// The name table holds no structural (negative) id to anchor new ids to.
    NoStructuralId,
    /// The new ids would fall below the range of `i32`.
    IdSpaceExhausted,
    /// A rack member has no entry in the name table.
    UnresolvedHost(String),
}

/// `h` is a member of one of the racks.
pub open spec fn is_member(racks: Seq<Vec<String>>, h: Seq<char>) -> bool {
    exists|k: int, j: int|
        0 <= k < racks.len() && 0 <= j < racks[k]@.len() && #[trigger] racks[k]@[j]@ == h
}

/// Every rack member has an entry in the name table.
pub open spec fn all_resolved(names: Seq<(i32, String)>, racks: Seq<Vec<String>>) -> bool {
    forall|k: int, j: int|
        0 <= k < racks.len() && 0 <= j < racks[k]@.len() ==> #[trigger] resolve(
            names,
            racks[k]@[j]@,
        ) is Some
}

/// `id` is the id of some rack member.
pub open spec fn is_resolved_id(names: Seq<(i32, String)>, racks: Seq<Vec<String>>, id: i32) -> bool {
    exists|k: int, j: int|
        0 <= k < racks.len() && 0 <= j < racks[k]@.len() && #[trigger] resolve(names, racks[k]@[j]@)
            == Some(id)
}

/// A bucket of the current map survives when it is the bucket of a rack member.
pub open spec fn carried_over(names: Seq<(i32, String)>, racks: Seq<Vec<String>>, b: BucketTypes) -> bool {
    bucket_id(b) is Some && is_resolved_id(names, racks, bucket_id(b)->Some_0)
}

/// A name-table entry survives when it names a device or a rack member.
pub open spec fn kept_entry(names: Seq<(i32, String)>, racks: Seq<Vec<String>>, e: (i32, String)) -> bool {
    e.0 >= 0 || is_resolved_id(names, racks, e.0)
}

/// Straw bucket with all weights zero and the given id, type and item count.
pub open spec fn straw_shape(b: BucketTypes, id: int, op: OpCode, len: int) -> bool {
    match b {
        BucketTypes::Straw(h, w) => {
            &&& h.id == id
            &&& h.bucket_type == op
            &&& h.alg == BucketAlg::Straw
            &&& h.hash == CrushHash::RJenkins1
            &&& h.weight == 0
            &&& h.size == len
            &&& h.perm_n == 0
            &&& h.perm == len
            &&& h.items@.len() == len
            &&& w@.len() == len
            &&& forall|j: int| 0 <= j < len ==> #[trigger] w@[j] == (0u32, 0u32)
        },
        _ => false,
    }
}

/// The items of a bucket record (empty for the unknown variant).
pub open spec fn bucket_items(b: BucketTypes) -> Seq<(i32, Option<String>)> {
    match b {
        BucketTypes::Uniform(h, _) => h.items@,
        BucketTypes::List(h, _) => h.items@,
        BucketTypes::Tree(h, _, _) => h.items@,
        BucketTypes::Straw(h, _) => h.items@,
        BucketTypes::Straw2(h, _) => h.items@,
        BucketTypes::Unknown => Seq::empty(),
    }
}

/// The bucket of a rack: its members by their device ids, each with its own name.
pub open spec fn is_rack_bucket(b: BucketTypes, id: int, names: Seq<(i32, String)>, members: Seq<String>) -> bool {
    &&& straw_shape(b, id, OpCode::ChooseIndep, members.len() as int)
    &&& forall|j: int|
        0 <= j < members.len() ==> #[trigger] bucket_items(b)[j] == (
            resolve(names, members[j]@)->Some_0,
            Some(members[j]),
        )
}

/// The root bucket: the rack buckets in order, each under its decimal label.
pub open spec fn is_root_bucket(b: BucketTypes, id: int, m: int, n: int) -> bool {
    &&& straw_shape(b, id, OpCode::SetChooseLocalTries, n)
    &&& forall|k: int|
        0 <= k < n ==> {
            &&& (#[trigger] bucket_items(b)[k]).0 == m - 1 - k
            &&& bucket_items(b)[k].1 is Some
            &&& bucket_items(b)[k].1->Some_0@ == decimal(k as nat)
        }
}

/// The name-table entries added for `n` racks below `m` and for the root.
pub open spec fn added_entries(added: Seq<(i32, String)>, m: int, n: int) -> bool {
    &&& added.len() == n + 1
    &&& forall|k: int|
        0 <= k < n ==> (#[trigger] added[k]).0 == m - 1 - k && added[k].1@ == decimal(k as nat)
    &&& added[n].0 == m - 1 - n
    &&& added[n].1@ == "default"@
}

/// The placement types every synthesized map declares, by type id.
pub open spec fn standard_types() -> Seq<Seq<char>> {
    seq![
        "osd"@, "host"@, "chassis"@, "rack"@, "row"@, "pdu"@, "pod"@, "room"@,
        "datacenter"@, "region"@, "root"@,
    ]
}

/// The single rule: take the root, choose leaves first-n, emit.
pub open spec fn is_default_rule(r: Option<Rule>, root: int) -> bool {
    match r {
        Some(rule) => {
            &&& rule.mask == CrushRuleMask {
                ruleset: 0,
                rule_type: RuleType::Replicated,
                min_size: 1,
                max_size: 10,
            }
            &&& rule.steps@.len() == 3
            &&& rule.steps@[0] == CrushRuleStep { op: OpCode::Take, arg1: (root as i32, None), arg2: (0i32, None) }
            &&& rule.steps@[1] == CrushRuleStep { op: OpCode::ChooseLeafFirstN, arg1: (0i32, None), arg2: (1i32, None) }
            &&& rule.steps@[2] == CrushRuleStep { op: OpCode::Emit, arg1: (0i32, None), arg2: (0i32, None) }
        },
        None => false,
    }
}

/// The fixed parts of a synthesized map around its buckets and name table.
pub open spec fn is_assembled(out: TopologyMap, buckets: Seq<BucketTypes>, devices: i32, names: Seq<(i32, String)>, root: int) -> bool {
    &&& out.magic == 65536
    &&& out.max_buckets == buckets.len()
    &&& out.max_rules == 1
    &&& out.max_devices == devices
    &&& out.buckets@ == buckets
    &&& out.name_map@ == names
    &&& out.rules@.len() == 1
    &&& is_default_rule(out.rules@[0], root)
    &&& out.type_map@.len() == standard_types().len()
    &&& forall|i: int|
        0 <= i < out.type_map@.len() ==> (#[trigger] out.type_map@[i]).0 == i && out.type_map@[i].1@
            == standard_types()[i]
    &&& out.rule_name_map@.len() == 1
    &&& out.rule_name_map@[0].0 == 0
    &&& out.rule_name_map@[0].1@ == "replicated_ruleset"@
    &&& out.choose_local_tries == Some(0u32)
    &&& out.choose_local_fallback_tries == Some(0u32)
    &&& out.choose_total_tries == Some(50u32)
    &&& out.chooseleaf_descend_once == Some(1u32)
    &&& out.chooseleaf_vary_r == Some(0u8)
    &&& out.straw_calc_version == Some(1u8)
    &&& out.allowed_bucket_algorithms == Some(0u32)
    &&& out.chooseleaf_stable == Some(0u8)
}

/// Puts a synthesized map together: the given buckets and name table, one rule rooted at
/// `root`, the standard placement types and the baseline tunables.
pub fn create_crushmap(final_buckets: Vec<BucketTypes>, devices: i32, final_name_map: Vec<(i32, String)>, root: i32) -> (r: TopologyMap)
    requires
        final_buckets@.len() <= i32::MAX,
    ensures
        is_assembled(r, final_buckets@, devices, final_name_map@, root as int),
{
    let nb = final_buckets.len() as i32;
    let steps = vec![
        CrushRuleStep { op: OpCode::Take, arg1: (root, None), arg2: (0, None) },
        CrushRuleStep { op: OpCode::ChooseLeafFirstN, arg1: (0, None), arg2: (1, None) },
        CrushRuleStep { op: OpCode::Emit, arg1: (0, None), arg2: (0, None) },
    ];
    let rule = Rule {
        mask: CrushRuleMask { ruleset: 0, rule_type: RuleType::Replicated, min_size: 1, max_size: 10 },
        steps,
    };
    let type_map = vec![
        (0, "osd".to_string()),
        (1, "host".to_string()),
        (2, "chassis".to_string()),
        (3, "rack".to_string()),
        (4, "row".to_string()),
        (5, "pdu".to_string()),
        (6, "pod".to_string()),
        (7, "room".to_string()),
        (8, "datacenter".to_string()),
        (9, "region".to_string()),
        (10, "root".to_string()),
    ];
    let out = TopologyMap {
        magic: 65536,
        max_buckets: nb,
        max_rules: 1,
        max_devices: devices,
        buckets: final_buckets,
        rules: vec![Some(rule)],
        type_map,
        name_map: final_name_map,
        rule_name_map: vec![(0, "replicated_ruleset".to_string())],
        choose_local_tries: Some(0),
        choose_local_fallback_tries: Some(0),
        choose_total_tries: Some(50),
        chooseleaf_descend_once: Some(1),
        chooseleaf_vary_r: Some(0),
        straw_calc_version: Some(1),
        allowed_bucket_algorithms: Some(0),
        chooseleaf_stable: Some(0),
    };
    assert(out.type_map@.len() == standard_types().len());
    out
}

/// The device ids of all rack members, rack by rack, or the first member that has none.
fn resolve_racks(names: &Vec<(i32, String)>, racks: &Vec<Vec<String>>) -> (r: Result<Vec<Vec<i32>>, String>)
    ensures
        match r {
            Ok(ids) => {
                &&& all_resolved(names@, racks@)
                &&& resolved_ids(ids@, names@, racks@)
            },
            Err(h) => is_member(racks@, h@) && resolve(names@, h@) is None,
        },
{
    let mut out: Vec<Vec<i32>> = Vec::new();
    let mut k: usize = 0;
    while k < racks.len()
        invariant
            k <= racks@.len(),
            out@.len() == k,
            forall|a: int, j: int|
                0 <= a < k && 0 <= j < racks@[a]@.len() ==> #[trigger] resolve(names@, racks@[a]@[j]@) is Some,
            forall|a: int| 0 <= a < k ==> (#[trigger] out@[a])@.len() == racks@[a]@.len(),
            forall|a: int, j: int|
                0 <= a < k && 0 <= j < racks@[a]@.len() ==> Some(#[trigger] out@[a]@[j]) == resolve(names@, racks@[a]@[j]@),
        decreases racks@.len() - k,
    {
        let rack = &racks[k];
        let mut ids: Vec<i32> = Vec::new();
        let mut j: usize = 0;
        while j < rack.len()
            invariant
                j <= rack@.len(),
                k < racks@.len(),
                rack == racks@[k as int],
                ids@.len() == j,
                forall|b: int| 0 <= b < j ==> Some(#[trigger] ids@[b]) == resolve(names@, rack@[b]@),
            decreases rack@.len() - j,
        {
            match resolve_host(names, &rack[j]) {
                Some(id) => {
                    ids.push(id);
                },
                None => {
                    assert(racks@[k as int]@[j as int]@ == rack@[j as int]@);
                    return Err(rack[j].clone());
                },
            }
            j = j + 1;
        }
        assert forall|j: int| 0 <= j < racks@[k as int]@.len() implies #[trigger] resolve(
            names@,
            racks@[k as int]@[j]@,
        ) is Some by {
            assert(Some(ids@[j]) == resolve(names@, rack@[j]@));
        }
        out.push(ids);
        k = k + 1;
    }
    Ok(out)
}

/// `ids` holds the device id of every rack member, rack by rack.
pub open spec fn resolved_ids(ids: Seq<Vec<i32>>, names: Seq<(i32, String)>, racks: Seq<Vec<String>>) -> bool {
    &&& ids.len() == racks.len()
    &&& forall|k: int| 0 <= k < racks.len() ==> (#[trigger] ids[k])@.len() == racks[k]@.len()
    &&& forall|k: int, j: int|
        0 <= k < racks.len() && 0 <= j < racks[k]@.len() ==> Some(#[trigger] ids[k]@[j]) == resolve(names, racks[k]@[j]@)
}

/// Whether `id` is the id of some rack member.
fn holds_id(ids: &Vec<Vec<i32>>, id: i32, Ghost(names): Ghost<Seq<(i32, String)>>, Ghost(racks): Ghost<Seq<Vec<String>>>) -> (r: bool)
    requires
        resolved_ids(ids@, names, racks),
    ensures
        r == is_resolved_id(names, racks, id),
{
    let mut k: usize = 0;
    while k < ids.len()
        invariant
            k <= ids@.len(),
            resolved_ids(ids@, names, racks),
            forall|a: int, j: int| 0 <= a < k && 0 <= j < ids@[a]@.len() ==> #[trigger] ids@[a]@[j] != id,
        decreases ids@.len() - k,
    {
        let row = &ids[k];
        let mut j: usize = 0;
        while j < row.len()
            invariant
                j <= row@.len(),
                k < ids@.len(),
                resolved_ids(ids@, names, racks),
                row == ids@[k as int],
                forall|b: int| 0 <= b < j ==> #[trigger] row@[b] != id,
            decreases row@.len() - j,
        {
            if row[j] == id {
                assert(resolve(names, racks[k as int]@[j as int]@) == Some(id));
                return true;
            }
            j = j + 1;
        }
        k = k + 1;
    }
    assert forall|a: int, j: int|
        0 <= a < racks.len() && 0 <= j < racks[a]@.len() implies #[trigger] resolve(names, racks[a]@[j]@) != Some(id) by {
        assert(Some(ids@[a]@[j]) == resolve(names, racks[a]@[j]@));
    }
    false
}

pub open spec fn carry_pred(names: Seq<(i32, String)>, racks: Seq<Vec<String>>) -> spec_fn(BucketTypes) -> bool {
    |b: BucketTypes| carried_over(names, racks, b)
}

pub open spec fn keep_pred(names: Seq<(i32, String)>, racks: Seq<Vec<String>>) -> spec_fn((i32, String)) -> bool {
    |e: (i32, String)| kept_entry(names, racks, e)
}

/// The new ids of `n` racks allocated below `m`, and the root below them, fit in `i32`.
pub open spec fn ids_fit(m: int, n: int) -> bool {
    m - 1 - n >= i32::MIN
}

/// The rack buckets, in rack order, with ids counting down from just below `m`.
pub open spec fn rack_buckets_ok(bs: Seq<BucketTypes>, m: int, names: Seq<(i32, String)>, racks: Seq<Vec<String>>) -> bool {
    &&& bs.len() == racks.len()
    &&& forall|k: int| 0 <= k < racks.len() ==> is_rack_bucket(#[trigger] bs[k], m - 1 - k, names, racks[k]@)
}

/// What a successful synthesis returns for the current map and the racks: the surviving
/// device-level buckets in their old order, one bucket per rack, the root bucket, the
/// surviving name-table entries with the new labels sorted by id, and the fixed rule,
/// types and tunables.
pub open spec fn synthesis_result(current: TopologyMap, racks: Seq<Vec<String>>, out: TopologyMap) -> bool {
    let names = current.name_map@;
    let m = min_negative_id(names)->Some_0 as int;
    let n = racks.len() as int;
    let carried = current.buckets@.filter(carry_pred(names, racks));
    let c = carried.len() as int;
    &&& out.buckets@.len() == c + n + 1
    &&& out.buckets@.subrange(0, c) == carried
    &&& rack_buckets_ok(out.buckets@.subrange(c, c + n), m, names, racks)
    &&& is_root_bucket(out.buckets@.last(), m - 1 - n, m, n)
    &&& id_sorted(out.name_map@)
    &&& exists|added: Seq<(i32, String)>|
        added_entries(added, m, n) && #[trigger] out.name_map@.to_multiset() == (names.filter(
            keep_pred(names, racks),
        ) + added).to_multiset()
    &&& is_assembled(out, out.buckets@, current.max_devices, out.name_map@, m - 1 - n)
}

fn zero_weights(len: usize) -> (r: Vec<(u32, u32)>)
    ensures
        r@.len() == len,
        forall|j: int| 0 <= j < len ==> #[trigger] r@[j] == (0u32, 0u32),
{
    let mut w: Vec<(u32, u32)> = Vec::new();
    let mut j: usize = 0;
    while j < len
        invariant
            j <= len,
            w@.len() == j,
            forall|a: int| 0 <= a < j ==> #[trigger] w@[a] == (0u32, 0u32),
        decreases len - j,
    {
        w.push((0, 0));
        j = j + 1;
    }
    w
}

/// The straw bucket of one rack: each member under its device id and its own name.
fn rack_bucket(id: i32, rack: &Vec<String>, row: &Vec<i32>, Ghost(names): Ghost<Seq<(i32, String)>>) -> (r: BucketTypes)
    requires
        row@.len() == rack@.len(),
        rack@.len() <= u32::MAX,
        forall|j: int| 0 <= j < rack@.len() ==> Some(#[trigger] row@[j]) == resolve(names, rack@[j]@),
    ensures
        is_rack_bucket(r, id as int, names, rack@),
{
    let mut items: Vec<(i32, Option<String>)> = Vec::new();
    let mut j: usize = 0;
    while j < rack.len()
        invariant
            j <= rack@.len(),
            row@.len() == rack@.len(),
            items@.len() == j,
            forall|a: int| 0 <= a < rack@.len() ==> Some(#[trigger] row@[a]) == resolve(names, rack@[a]@),
            forall|a: int| 0 <= a < j ==> #[trigger] items@[a] == (resolve(names, rack@[a]@)->Some_0, Some(rack@[a])),
        decreases rack@.len() - j,
    {
        items.push((row[j], Some(rack[j].clone())));
        j = j + 1;
    }
    let size = rack.len() as u32;
    let b = Bucket {
        id,
        bucket_type: OpCode::ChooseIndep,
        alg: BucketAlg::Straw,
        hash: CrushHash::RJenkins1,
        weight: 0,
        size,
        items,
        perm_n: 0,
        perm: size,
    };
    BucketTypes::Straw(b, zero_weights(rack.len()))
}

/// Builds the new placement map from the current one and the racks.
///
/// The lowest structural id `m` of the current name table anchors the new ids: rack `k`
/// gets `m - 1 - k` and the label `k`, the root gets the next id below and the name
/// `default`. Only the buckets of rack members survive from the current map, and only
/// the name-table entries of devices and rack members.
pub fn generate_crushmap(current: TopologyMap, racks: &Vec<Vec<String>>) -> (r: Result<TopologyMap, MapSynthesisError>)
    requires
        current.buckets@.len() + racks@.len() + 1 <= i32::MAX,
        forall|k: int| 0 <= k < racks@.len() ==> (#[trigger] racks@[k])@.len() <= u32::MAX,
    ensures
        match r {
            Err(MapSynthesisError::NoStructuralId) => min_negative_id(current.name_map@) is None,
            Err(MapSynthesisError::IdSpaceExhausted) => {
                &&& min_negative_id(current.name_map@) is Some
                &&& !ids_fit(min_negative_id(current.name_map@)->Some_0 as int, racks@.len() as int)
            },
            Err(MapSynthesisError::UnresolvedHost(h)) => {
                &&& min_negative_id(current.name_map@) is Some
                &&& ids_fit(min_negative_id(current.name_map@)->Some_0 as int, racks@.len() as int)
                &&& is_member(racks@, h@)
                &&& resolve(current.name_map@, h@) is None
            },
            Ok(out) => {
                &&& min_negative_id(current.name_map@) is Some
                &&& ids_fit(min_negative_id(current.name_map@)->Some_0 as int, racks@.len() as int)
                &&& all_resolved(current.name_map@, racks@)
                &&& synthesis_result(current, racks@, out)
            },
        },
        min_negative_id(current.name_map@) is Some && ids_fit(
            min_negative_id(current.name_map@)->Some_0 as int,
            racks@.len() as int,
        ) && all_resolved(current.name_map@, racks@) ==> r is Ok,
{
    let m = match lowest_structural_id(&current.name_map) {
        Some(m) => m,
        None => {
            return Err(MapSynthesisError::NoStructuralId);
        },
    };
    let n = racks.len();
    let room: i64 = m as i64 - 1 - (i32::MIN as i64);
    if room < 0 || n as u64 > room as u64 {
        return Err(MapSynthesisError::IdSpaceExhausted);
    }
    let ids = match resolve_racks(&current.name_map, racks) {
        Ok(ids) => ids,
        Err(h) => {
            return Err(MapSynthesisError::UnresolvedHost(h));
        },
    };
    let ghost names = current.name_map@;
    let ghost rk = racks@;
    let ghost cur = current;
    let TopologyMap { buckets: old_buckets, name_map: old_names, max_devices, .. } = current;

    // Buckets of rack members survive, in their old order.
    let mut src = old_buckets;
    let ghost orig = src@;
    let total = src.len();
    let mut buckets: Vec<BucketTypes> = Vec::new();
    let mut i: usize = 0;
    while src.len() > 0
        invariant
            i + src@.len() == orig.len(),
            orig.len() == total,
            orig == cur.buckets@,
            src@ == orig.subrange(i as int, orig.len() as int),
            buckets@ == orig.subrange(0, i as int).filter(carry_pred(names, rk)),
            resolved_ids(ids@, names, rk),
        decreases src@.len(),
    {
        let b = src.remove(0);
        assert(src@ =~= orig.subrange(i + 1, orig.len() as int));
        assert(orig.subrange(0, i + 1).drop_last() =~= orig.subrange(0, i as int));
        let keep = match b.id() {
            Some(id) => holds_id(&ids, id, Ghost(names), Ghost(rk)),
            None => false,
        };
        assert(orig.subrange(0, i + 1).last() == b);
        assert(keep == carry_pred(names, rk)(b));
        if keep {
            buckets.push(b);
        }
        assert(buckets@ == orig.subrange(0, i + 1).filter(carry_pred(names, rk))) by {
            reveal_with_fuel(Seq::filter, 1);
            assert(orig.subrange(0, i + 1).len() > 0);
        }
        i = i + 1;
    }
    assert(orig.subrange(0, orig.len() as int) =~= orig);

    // Name-table entries of devices and rack members survive.
    let mut nsrc = old_names;
    let ghost norig = nsrc@;
    let ntotal = nsrc.len();
    let mut kept: Vec<(i32, String)> = Vec::new();
    let mut i: usize = 0;
    while nsrc.len() > 0
        invariant
            i + nsrc@.len() == norig.len(),
            norig.len() == ntotal,
            norig == names,
            nsrc@ == norig.subrange(i as int, norig.len() as int),
            kept@ == norig.subrange(0, i as int).filter(keep_pred(names, rk)),
            resolved_ids(ids@, names, rk),
        decreases nsrc@.len(),
    {
        let e = nsrc.remove(0);
        assert(nsrc@ =~= norig.subrange(i + 1, norig.len() as int));
        assert(norig.subrange(0, i + 1).drop_last() =~= norig.subrange(0, i as int));
        let keep = e.0 >= 0 || holds_id(&ids, e.0, Ghost(names), Ghost(rk));
        assert(norig.subrange(0, i + 1).last() == e);
        assert(keep == keep_pred(names, rk)(e));
        if keep {
            kept.push(e);
        }
        assert(kept@ == norig.subrange(0, i + 1).filter(keep_pred(names, rk))) by {
            reveal_with_fuel(Seq::filter, 1);
            assert(norig.subrange(0, i + 1).len() > 0);
        }
        i = i + 1;
    }
    assert(norig.subrange(0, norig.len() as int) =~= norig);

    // One bucket and one label per rack, ids counting down from below `m`.
    let ghost carried = buckets@;
    let c = buckets.len();
    let mut added: Vec<(i32, String)> = Vec::new();
    let mut root_items: Vec<(i32, Option<String>)> = Vec::new();
    let mut k: usize = 0;
    while k < n
        invariant
            n == rk.len(),
            rk == racks@,
            m == min_negative_id(names)->Some_0,
            n as int <= room,
            room == m - 1 - i32::MIN,
            k <= n,
            c == carried.len(),
            buckets@.len() == c + k,
            buckets@.subrange(0, c as int) == carried,
            rack_buckets_ok(buckets@.subrange(c as int, c + k), m as int, names, rk.subrange(0, k as int)),
            resolved_ids(ids@, names, rk),
            forall|q: int| 0 <= q < rk.len() ==> (#[trigger] rk[q])@.len() <= u32::MAX,
            added@.len() == k,
            forall|a: int| 0 <= a < k ==> (#[trigger] added@[a]).0 == m - 1 - a && added@[a].1@ == decimal(a as nat),
            root_items@.len() == k,
            forall|a: int|
                0 <= a < k ==> {
                    &&& (#[trigger] root_items@[a]).0 == m - 1 - a
                    &&& root_items@[a].1 is Some
                    &&& root_items@[a].1->Some_0@ == decimal(a as nat)
                },
        decreases n - k,
    {
        let id: i32 = (m as i64 - 1 - k as i64) as i32;
        let b = rack_bucket(id, &racks[k], &ids[k], Ghost(names));
        let ghost before = buckets@;
        buckets.push(b);
        assert(buckets@.subrange(0, c as int) =~= before.subrange(0, c as int));
        assert(buckets@.subrange(c as int, c + k + 1) =~= before.subrange(c as int, c + k).push(b));
        assert(rk.subrange(0, k + 1) =~= rk.subrange(0, k as int).push(rk[k as int]));
        added.push((id, decimal_label(k)));
        root_items.push((id, Some(decimal_label(k))));
        k = k + 1;
    }
    assert(rk.subrange(0, n as int) =~= rk);

    // The root bucket and its entry.
    let root: i32 = (m as i64 - 1 - n as i64) as i32;
    let size = n as u32;
    let rb = Bucket {
        id: root,
        bucket_type: OpCode::SetChooseLocalTries,
        alg: BucketAlg::Straw,
        hash: CrushHash::RJenkins1,
        weight: 0,
        size,
        items: root_items,
        perm_n: 0,
        perm: size,
    };
    let root_bucket = BucketTypes::Straw(rb, zero_weights(n));
    let ghost before = buckets@;
    buckets.push(root_bucket);
    assert(buckets@.subrange(0, c as int) =~= before.subrange(0, c as int));
    assert(buckets@.subrange(c as int, c + n) =~= before.subrange(c as int, c + n));
    assert(is_root_bucket(buckets@.last(), root as int, m as int, n as int));
    added.push((root, "default".to_string()));
    let ghost added_view = added@;
    let ghost kept_view = kept@;
    kept.append(&mut added);
    assert(kept@ == kept_view + added_view);
    let sorted = sort_by_id(kept);
    assert(added_entries(added_view, m as int, n as int));
    let out = create_crushmap(buckets, max_devices, sorted, root);
    assert(out.name_map@.to_multiset() == (names.filter(keep_pred(names, rk)) + added_view).to_multiset());
    Ok(out)
}

/// The lowest negative id lies at or below every id of the table; without one, every id
/// is a device id.
pub proof fn lemma_min_negative_id_lowest(names: Seq<(i32, String)>)
    ensures
        min_negative_id(names) is None ==> forall|i: int| 0 <= i < names.len() ==> #[trigger] names[i].0 >= 0,
        min_negative_id(names) is Some ==> min_negative_id(names)->Some_0 < 0,
        min_negative_id(names) is Some ==> forall|i: int|
            0 <= i < names.len() ==> min_negative_id(names)->Some_0 <= #[trigger] names[i].0,
    decreases names.len(),
{
    if names.len() > 0 {
        let rest = names.drop_last();
        lemma_min_negative_id_lowest(rest);
        assert forall|i: int| 0 <= i < names.len() - 1 implies #[trigger] names[i] == rest[i] by {}
    }
}

/// Allocation of new ids: for `n` racks and a current map whose lowest structural id is
/// `m`, the rack buckets take the `n` distinct ids `m - n ..= m - 1`, rack `k` taking
/// `m - 1 - k`, and the root takes an id below all of them. Every new id lies below every
/// id of the current name table, so none collides with an id already in use.
pub proof fn lemma_allocated_ids(current: TopologyMap, racks: Seq<Vec<String>>, out: TopologyMap)
    requires
        min_negative_id(current.name_map@) is Some,
        synthesis_result(current, racks, out),
    ensures
        ({
            let m = min_negative_id(current.name_map@)->Some_0 as int;
            let n = racks.len() as int;
            let c = current.buckets@.filter(carry_pred(current.name_map@, racks)).len() as int;
            let fresh = out.buckets@.subrange(c, c + n);
            let root = bucket_id(out.buckets@.last())->Some_0 as int;
            &&& forall|k: int| 0 <= k < n ==> bucket_id(#[trigger] fresh[k]) == Some((m - 1 - k) as i32)
            &&& forall|k: int| 0 <= k < n ==> m - n <= bucket_id(#[trigger] fresh[k])->Some_0 <= m - 1
            &&& forall|k1: int, k2: int|
                0 <= k1 < n && 0 <= k2 < n && k1 != k2 ==> bucket_id(#[trigger] fresh[k1]) != bucket_id(#[trigger] fresh[k2])
            &&& bucket_id(out.buckets@.last()) is Some
            &&& forall|k: int| 0 <= k < n ==> root < bucket_id(#[trigger] fresh[k])->Some_0
            &&& root == m - n - 1
            &&& forall|i: int| 0 <= i < current.name_map@.len() ==> m <= #[trigger] current.name_map@[i].0
        }),
{
    let names = current.name_map@;
    lemma_min_negative_id_lowest(names);
    let m = min_negative_id(names)->Some_0 as int;
    let n = racks.len() as int;
    let c = current.buckets@.filter(carry_pred(names, racks)).len() as int;
    let fresh = out.buckets@.subrange(c, c + n);
    assert forall|k: int| 0 <= k < n implies bucket_id(#[trigger] fresh[k]) == Some((m - 1 - k) as i32) by {
        assert(is_rack_bucket(fresh[k], m - 1 - k, names, racks[k]@));
    }
}

} // verus!
