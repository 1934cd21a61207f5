//! The coverage dataset: facets, chromosomes, their intervals and items.
//!
//! Scores (effect size and significance) are held as order-preserving integer
//! keys: for any two scores `x` and `y`, `x < y` exactly when the key of `x` is
//! below the key of `y`. Every comparison the engine makes is then exact.

use crate::buckets::{bucket_count, buckets_for_length, Bucket};
use vstd::prelude::*;

verus! {

/// The id of a facet value.
pub type DbID = u32;

#[derive(Clone, Copy, Debug, PartialEq, Eq, Structural)]
pub enum FacetKind {
    Discrete,
    Continuous,
}

/// An inclusive range of score keys.
#[derive(Clone, Copy, Debug, PartialEq, Eq, Structural)]
pub struct ScoreRange {
    pub min: i64,
    pub max: i64,
}

impl ScoreRange {
    pub open spec fn holds(self, v: i64) -> bool {
        self.min <= v <= self.max
    }
}

/// The two roles an interval can have.
#[derive(Clone, Copy, Debug, PartialEq, Eq, Structural)]
pub enum Role {
    Source,
    Target,
}

/// A named dimension along which items can be filtered.
pub struct Facet {
    pub name: String,
    pub kind: FacetKind,
    /// The facet constrains source items.
    pub covers_source: bool,
    /// The facet constrains target items.
    pub covers_target: bool,
    /// The ids of the facet's values (discrete facets).
    pub values: Vec<DbID>,
    /// The declared extent of the facet's scores (continuous facets).
    pub range: Option<ScoreRange>,
}

impl Facet {
    pub open spec fn covers(&self, role: Role) -> bool {
        match role {
            Role::Source => self.covers_source,
            Role::Target => self.covers_target,
        }
    }
}

/// The facet values and scores of one regulatory effect.
pub struct EffectValues {
    pub facet_ids: Vec<DbID>,
    pub effect_size: i64,
    pub significance: i64,
}

/// One observation in an interval.
pub struct Item {
    /// The id of the feature the observation is about.
    pub feature_id: u64,
    /// One entry for each regulatory effect contributing to the item.
    pub facets: Vec<EffectValues>,
    /// The buckets of the paired intervals of the opposite role.
    pub associated_buckets: Vec<Bucket>,
}

/// The items of one bucket-aligned interval.
pub struct Interval {
    pub start: u32,
    pub values: Vec<Item>,
}

pub struct ChromosomeData {
    pub chrom: String,
    pub index: u8,
    pub bucket_size: u32,
    pub source_intervals: Vec<Interval>,
    pub target_intervals: Vec<Interval>,
}

impl ChromosomeData {
    pub open spec fn intervals(&self, role: Role) -> Seq<Interval> {
        match role {
            Role::Source => self.source_intervals@,
            Role::Target => self.target_intervals@,
        }
    }
}

/// An immutable coverage dataset.
pub struct CoverageData {
    pub facets: Vec<Facet>,
    pub chromosomes: Vec<ChromosomeData>,
    /// Lengths of the chromosomes, by chromosome index.
    pub chrom_lengths: Vec<u32>,
    pub bucket_size: u32,
}

/// The bucket lies in the domain sized by `lens` and `bucket_size`.
pub open spec fn bucket_in_range(b: Bucket, lens: Seq<u32>, bucket_size: u32) -> bool {
    b.chrom < lens.len() && b.idx < bucket_count(lens[b.chrom as int], bucket_size)
}

pub open spec fn item_in_range(item: Item, lens: Seq<u32>, bucket_size: u32) -> bool {
    forall|k: int| 0 <= k < item.associated_buckets@.len() ==> bucket_in_range(#[trigger] item.associated_buckets@[k], lens, bucket_size)
}

pub open spec fn interval_in_range(iv: Interval, lens: Seq<u32>, bucket_size: u32) -> bool {
    forall|j: int| 0 <= j < iv.values@.len() ==> item_in_range(#[trigger] iv.values@[j], lens, bucket_size)
}

pub open spec fn intervals_in_range(ivs: Seq<Interval>, lens: Seq<u32>, bucket_size: u32) -> bool {
    forall|i: int| 0 <= i < ivs.len() ==> interval_in_range(#[trigger] ivs[i], lens, bucket_size)
}

pub open spec fn chrom_in_range(ch: ChromosomeData, lens: Seq<u32>, bucket_size: u32) -> bool {
    &&& intervals_in_range(ch.source_intervals@, lens, bucket_size)
    &&& intervals_in_range(ch.target_intervals@, lens, bucket_size)
}

/// Some facet declares the value `id`.
pub open spec fn id_declared(facets: Seq<Facet>, id: DbID) -> bool {
    exists|f: int| 0 <= f < facets.len() && #[trigger] facets[f].values@.contains(id)
}

pub open spec fn item_ids_declared(item: Item, facets: Seq<Facet>) -> bool {
    forall|k: int, j: int|
        0 <= k < item.facets@.len() && 0 <= j < item.facets@[k].facet_ids@.len() ==> id_declared(
            facets,
            #[trigger] item.facets@[k].facet_ids@[j],
        )
}

pub open spec fn intervals_ids_declared(ivs: Seq<Interval>, facets: Seq<Facet>) -> bool {
    forall|i: int, j: int| 0 <= i < ivs.len() && 0 <= j < ivs[i].values@.len() ==> item_ids_declared(#[trigger] ivs[i].values@[j], facets)
}

pub open spec fn chrom_ids_declared(ch: ChromosomeData, facets: Seq<Facet>) -> bool {
    &&& intervals_ids_declared(ch.source_intervals@, facets)
    &&& intervals_ids_declared(ch.target_intervals@, facets)
}

impl CoverageData {
    /// The dataset is usable: its buckets have a size, the bucket domain can be
    /// held in memory, every associated bucket lies in that domain, and every facet
    /// value that an item names is declared by a facet.
    pub open spec fn wf(&self) -> bool {
        &&& self.bucket_size > 0
        &&& self.chrom_lengths@.len() <= u32::MAX as nat + 1
        &&& forall|c: int| 0 <= c < self.chrom_lengths@.len() ==> bucket_count(#[trigger] self.chrom_lengths@[c], self.bucket_size) <= usize::MAX
        &&& forall|i: int| 0 <= i < self.chromosomes@.len() ==> chrom_in_range(#[trigger] self.chromosomes@[i], self.chrom_lengths@, self.bucket_size)
        &&& forall|i: int| 0 <= i < self.chromosomes@.len() ==> chrom_ids_declared(#[trigger] self.chromosomes@[i], self.facets@)
    }
}

fn item_is_in_range(item: &Item, lens: &Vec<u32>, bucket_size: u32) -> (r: bool)
    requires
        bucket_size > 0,
    ensures
        r == item_in_range(*item, lens@, bucket_size),
{
    let mut k: usize = 0;
    while k < item.associated_buckets.len()
        invariant
            bucket_size > 0,
            k <= item.associated_buckets@.len(),
            forall|j: int| 0 <= j < k ==> bucket_in_range(#[trigger] item.associated_buckets@[j], lens@, bucket_size),
        decreases item.associated_buckets@.len() - k,
    {
        let b = item.associated_buckets[k];
        if (b.chrom as usize) >= lens.len() {
            return false;
        }
        if (b.idx as u64) >= buckets_for_length(lens[b.chrom as usize], bucket_size) {
            return false;
        }
        k = k + 1;
    }
    true
}

fn intervals_are_in_range(ivs: &Vec<Interval>, lens: &Vec<u32>, bucket_size: u32) -> (r: bool)
    requires
        bucket_size > 0,
    ensures
        r == intervals_in_range(ivs@, lens@, bucket_size),
{
    let mut i: usize = 0;
    while i < ivs.len()
        invariant
            bucket_size > 0,
            i <= ivs@.len(),
            forall|x: int| 0 <= x < i ==> interval_in_range(#[trigger] ivs@[x], lens@, bucket_size),
        decreases ivs@.len() - i,
    {
        let iv = &ivs[i];
        let mut j: usize = 0;
        while j < iv.values.len()
            invariant
                bucket_size > 0,
                i < ivs@.len(),
                iv == ivs@[i as int],
                j <= iv.values@.len(),
                forall|y: int| 0 <= y < j ==> item_in_range(#[trigger] iv.values@[y], lens@, bucket_size),
            decreases iv.values@.len() - j,
        {
            if !item_is_in_range(&iv.values[j], lens, bucket_size) {
                assert(!interval_in_range(ivs@[i as int], lens@, bucket_size));
                return false;
            }
            j = j + 1;
        }
        i = i + 1;
    }
    true
}

fn id_is_declared(facets: &Vec<Facet>, id: DbID) -> (r: bool)
    ensures
        r == id_declared(facets@, id),
{
    let mut f: usize = 0;
    while f < facets.len()
        invariant
            f <= facets@.len(),
            forall|g: int| 0 <= g < f ==> !(#[trigger] facets@[g].values@.contains(id)),
        decreases facets@.len() - f,
    {
        let values = &facets[f].values;
        let mut v: usize = 0;
        while v < values.len()
            invariant
                f < facets@.len(),
                values == facets@[f as int].values,
                v <= values@.len(),
                forall|w: int| 0 <= w < v ==> values@[w] != id,
            decreases values@.len() - v,
        {
            if values[v] == id {
                assert(facets@[f as int].values@.contains(id));
                return true;
            }
            v = v + 1;
        }
        f = f + 1;
    }
    false
}

fn item_ids_are_declared(item: &Item, facets: &Vec<Facet>) -> (r: bool)
    ensures
        r == item_ids_declared(*item, facets@),
{
    let mut k: usize = 0;
    while k < item.facets.len()
        invariant
            k <= item.facets@.len(),
            forall|x: int, j: int|
                0 <= x < k && 0 <= j < item.facets@[x].facet_ids@.len() ==> id_declared(facets@, #[trigger] item.facets@[x].facet_ids@[j]),
        decreases item.facets@.len() - k,
    {
        let ids = &item.facets[k].facet_ids;
        let mut j: usize = 0;
        while j < ids.len()
            invariant
                k < item.facets@.len(),
                ids == item.facets@[k as int].facet_ids,
                j <= ids@.len(),
                forall|x: int, y: int|
                    0 <= x < k && 0 <= y < item.facets@[x].facet_ids@.len() ==> id_declared(facets@, #[trigger] item.facets@[x].facet_ids@[y]),
                forall|y: int| 0 <= y < j ==> id_declared(facets@, #[trigger] ids@[y]),
            decreases ids@.len() - j,
        {
            if !id_is_declared(facets, ids[j]) {
                return false;
            }
            j = j + 1;
        }
        k = k + 1;
    }
    true
}

fn intervals_ids_are_declared(ivs: &Vec<Interval>, facets: &Vec<Facet>) -> (r: bool)
    ensures
        r == intervals_ids_declared(ivs@, facets@),
{
    let mut i: usize = 0;
    while i < ivs.len()
        invariant
            i <= ivs@.len(),
            forall|x: int, j: int| 0 <= x < i && 0 <= j < ivs@[x].values@.len() ==> item_ids_declared(#[trigger] ivs@[x].values@[j], facets@),
        decreases ivs@.len() - i,
    {
        let iv = &ivs[i];
        let mut j: usize = 0;
        while j < iv.values.len()
            invariant
                i < ivs@.len(),
                iv == ivs@[i as int],
                j <= iv.values@.len(),
                forall|x: int, y: int| 0 <= x < i && 0 <= y < ivs@[x].values@.len() ==> item_ids_declared(#[trigger] ivs@[x].values@[y], facets@),
                forall|y: int| 0 <= y < j ==> item_ids_declared(#[trigger] iv.values@[y], facets@),
            decreases iv.values@.len() - j,
        {
            if !item_ids_are_declared(&iv.values[j], facets) {
                return false;
            }
            j = j + 1;
        }
        i = i + 1;
    }
    true
}

impl CoverageData {
    /// Tells whether the dataset is usable by the filter engine.
    pub fn is_well_formed(&self) -> (r: bool)
        ensures
            r == self.wf(),
    {
        if self.bucket_size == 0 {
            return false;
        }
        if self.chrom_lengths.len() as u64 > u32::MAX as u64 + 1 {
            return false;
        }
        let mut c: usize = 0;
        while c < self.chrom_lengths.len()
            invariant
                self.bucket_size > 0,
                c <= self.chrom_lengths@.len(),
                forall|x: int| 0 <= x < c ==> bucket_count(#[trigger] self.chrom_lengths@[x], self.bucket_size) <= usize::MAX,
            decreases self.chrom_lengths@.len() - c,
        {
            if buckets_for_length(self.chrom_lengths[c], self.bucket_size) > usize::MAX as u64 {
                return false;
            }
            c = c + 1;
        }
        let mut i: usize = 0;
        while i < self.chromosomes.len()
            invariant
                self.bucket_size > 0,
                i <= self.chromosomes@.len(),
                forall|x: int| 0 <= x < i ==> chrom_in_range(#[trigger] self.chromosomes@[x], self.chrom_lengths@, self.bucket_size),
            decreases self.chromosomes@.len() - i,
        {
            let ch = &self.chromosomes[i];
            if !intervals_are_in_range(&ch.source_intervals, &self.chrom_lengths, self.bucket_size) {
                return false;
            }
            if !intervals_are_in_range(&ch.target_intervals, &self.chrom_lengths, self.bucket_size) {
                return false;
            }
            i = i + 1;
        }
        let mut i: usize = 0;
        while i < self.chromosomes.len()
            invariant
                i <= self.chromosomes@.len(),
                forall|x: int| 0 <= x < i ==> chrom_ids_declared(#[trigger] self.chromosomes@[x], self.facets@),
            decreases self.chromosomes@.len() - i,
        {
            let ch = &self.chromosomes[i];
            if !intervals_ids_are_declared(&ch.source_intervals, &self.facets) {
                return false;
            }
            if !intervals_ids_are_declared(&ch.target_intervals, &self.facets) {
                return false;
            }
            i = i + 1;
        }
        true
    }
}

} // verus!
