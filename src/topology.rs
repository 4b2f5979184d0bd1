//! The placement map: buckets, the id/name table, rules and tunables.
use vstd::prelude::*;

verus! {

/// Step op codes of placement rules; the numeric codes live with the binary codec.
#[derive(Clone, Copy, Debug, PartialEq, Eq, Structural)]
pub enum OpCode {
    Noop,
    Take,
    ChooseFirstN,
    ChooseIndep,
    Emit,
    ChooseLeafFirstN,
    ChooseLeafIndep,
    SetChooseTries,
    SetChooseLeafTries,
    SetChooseLocalTries,
    SetChooseLocalFallbackTries,
    SetChooseLeafVaryR,
}

/// The placement algorithm of a bucket.
#[derive(Clone, Copy, Debug, PartialEq, Eq, Structural)]
pub enum BucketAlg {
    Uniform,
    List,
    Tree,
    Straw,
    Straw2,
}

/// The hash function a bucket uses.
#[derive(Clone, Copy, Debug, PartialEq, Eq, Structural)]
pub enum CrushHash {
    RJenkins1,
}

/// The kind of pool a rule serves.
#[derive(Clone, Copy, Debug, PartialEq, Eq, Structural)]
pub enum RuleType {
    Replicated,
    Raid4,
    Erasure,
}

/// The fields that every bucket variant shares.
#[derive(Debug, PartialEq, Eq)]
pub struct Bucket {
    pub id: i32,
    pub bucket_type: OpCode,
    pub alg: BucketAlg,
    pub hash: CrushHash,
    pub weight: u32,
    pub size: u32,
    /// Child ids, each with the child's name where the name table has one.
    pub items: Vec<(i32, Option<String>)>,
    pub perm_n: u32,
    pub perm: u32,
}

/// A bucket record, tagged by placement algorithm, with the fields of that algorithm.
#[derive(Debug, PartialEq, Eq)]
pub enum BucketTypes {
    /// The shared fields and the single weight of all items.
    Uniform(Bucket, u32),
    /// The shared fields and per-item weights.
    List(Bucket, Vec<(u32, u32)>),
    /// The shared fields, the node count and the node weights.
    Tree(Bucket, u8, Vec<u32>),
    /// The shared fields and per-item weights.
    Straw(Bucket, Vec<(u32, u32)>),
    /// The shared fields and per-item weights.
    Straw2(Bucket, Vec<(u32, u32)>),
    /// A record whose algorithm the codec did not recognise; it has no id.
    Unknown,
}

#[derive(Debug, PartialEq, Eq)]
pub struct CrushRuleStep {
    pub op: OpCode,
    pub arg1: (i32, Option<String>),
    pub arg2: (i32, Option<String>),
}

#[derive(Clone, Copy, Debug, PartialEq, Eq, Structural)]
pub struct CrushRuleMask {
    pub ruleset: u8,
    pub rule_type: RuleType,
    pub min_size: u8,
    pub max_size: u8,
}

#[derive(Debug, PartialEq, Eq)]
pub struct Rule {
    pub mask: CrushRuleMask,
    pub steps: Vec<CrushRuleStep>,
}

/// The in-memory placement map.
///
/// Ids at or above zero name devices; negative ids name structural buckets.
#[derive(Debug, PartialEq, Eq)]
pub struct TopologyMap {
    pub magic: u32,
    pub max_buckets: i32,
    pub max_rules: u32,
    pub max_devices: i32,
    pub buckets: Vec<BucketTypes>,
    pub rules: Vec<Option<Rule>>,
    pub type_map: Vec<(i32, String)>,
    pub name_map: Vec<(i32, String)>,
    pub rule_name_map: Vec<(i32, String)>,
    pub choose_local_tries: Option<u32>,
    pub choose_local_fallback_tries: Option<u32>,
    pub choose_total_tries: Option<u32>,
    pub chooseleaf_descend_once: Option<u32>,
    pub chooseleaf_vary_r: Option<u8>,
    pub straw_calc_version: Option<u8>,
    pub allowed_bucket_algorithms: Option<u32>,
    pub chooseleaf_stable: Option<u8>,
}

/// The id of a bucket record; the unknown variant has none.
pub open spec fn bucket_id(b: BucketTypes) -> Option<i32> {
    match b {
        BucketTypes::Uniform(h, _) => Some(h.id),
        BucketTypes::List(h, _) => Some(h.id),
        BucketTypes::Tree(h, _, _) => Some(h.id),
        BucketTypes::Straw(h, _) => Some(h.id),
        BucketTypes::Straw2(h, _) => Some(h.id),
        BucketTypes::Unknown => None,
    }
}

impl BucketTypes {
    /// The id of this record, if it has one.
    pub fn id(&self) -> (r: Option<i32>)
        ensures
            r == bucket_id(*self),
    {
        match self {
            BucketTypes::Uniform(h, _) => Some(h.id),
            BucketTypes::List(h, _) => Some(h.id),
            BucketTypes::Tree(h, _, _) => Some(h.id),
            BucketTypes::Straw(h, _) => Some(h.id),
            BucketTypes::Straw2(h, _) => Some(h.id),
            BucketTypes::Unknown => None,
        }
    }
}

} // verus!
