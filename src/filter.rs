//! The filter engine: selects the items of a coverage dataset that meet a
//! filter, and summarises them per interval.

use crate::buckets::{bucket_coords, bucket_count, is_sorted_listing, BucketList};
use crate::ids::{treemap_ids, ExperimentFeatureData};
use crate::model::{
    intervals_in_range, interval_in_range, item_in_range, ChromosomeData, CoverageData, DbID, EffectValues, Facet, FacetKind,
    Interval, Item, Role, ScoreRange,
};
use roaring::RoaringTreemap;
use vstd::prelude::*;

verus! {

/// Bounds on the two scores.
#[derive(Clone, Copy, Debug, PartialEq, Eq, Structural)]
pub struct FilterIntervals {
    pub effect: ScoreRange,
    pub sig: ScoreRange,
}

/// Which roles a feature restriction applies to.
#[derive(Clone, Copy, Debug, PartialEq, Eq, Structural)]
pub enum SetOpFeature {
    Source,
    Target,
    SourceTarget,
}

impl SetOpFeature {
    pub open spec fn applies_to(self, role: Role) -> bool {
        match self {
            SetOpFeature::Source => role == Role::Source,
            SetOpFeature::Target => role == Role::Target,
            SetOpFeature::SourceTarget => true,
        }
    }
}

/// What to keep of a dataset.
pub struct Filter {
    /// Keep only the chromosome with this index.
    pub chrom: Option<u8>,
    /// Selected facet values, of any facet. Empty: no categorical filtering.
    pub categorical_facets: Vec<DbID>,
    /// Requested score bounds. `None`: no numeric filtering.
    pub numeric_intervals: Option<FilterIntervals>,
    /// The roles that a feature id-set handed to the filter restricts.
    pub set_op_feature: Option<SetOpFeature>,
}

#[derive(Clone, Copy, Debug, PartialEq, Eq, Structural)]
pub enum FilterError {
    /// No numeric bounds were requested and the dataset declares no range for
    /// its "Effect Size" or "Significance" facet.
    MissingScoreFacet,
}

// ---------------------------------------------------------------------------
// What an item must meet
// ---------------------------------------------------------------------------

/// The selected facet values.
pub open spec fn selection(filter: Filter) -> Set<DbID> {
    filter.categorical_facets@.to_set()
}

/// A facet is an active category for a role: it is discrete, covers the role,
/// and some of its values are selected.
pub open spec fn is_active(f: Facet, role: Role, sel: Set<DbID>) -> bool {
    &&& f.kind == FacetKind::Discrete
    &&& f.covers(role)
    &&& exists|v: DbID| f.values@.contains(v) && sel.contains(v)
}

/// Everything that decides which items of one role pass.
pub struct Criteria {
    pub facets: Seq<Facet>,
    pub sel: Set<DbID>,
    pub bounds: Option<FilterIntervals>,
    pub features: Option<Set<u64>>,
}

impl Criteria {
    /// No category is active, no bounds and no feature restriction: every item passes.
    pub open spec fn unconstrained(self, role: Role) -> bool {
        &&& forall|i: int| 0 <= i < self.facets.len() ==> !is_active(#[trigger] self.facets[i], role, self.sel)
        &&& self.bounds is None
        &&& self.features is None
    }
}

/// The facet values and scores of one effect meet every active category of the role:
/// they hold a selected value of each (AND across categories, OR within one).
pub open spec fn tuple_selected(t: EffectValues, c: Criteria, role: Role) -> bool {
    forall|i: int|
        0 <= i < c.facets.len() && is_active(#[trigger] c.facets[i], role, c.sel) ==> exists|id: DbID|
            t.facet_ids@.contains(id) && c.facets[i].values@.contains(id) && c.sel.contains(id)
}

pub open spec fn in_bounds(t: EffectValues, b: FilterIntervals) -> bool {
    b.effect.holds(t.effect_size) && b.sig.holds(t.significance)
}

pub open spec fn meets_bounds(t: EffectValues, c: Criteria) -> bool {
    match c.bounds {
        None => true,
        Some(b) => in_bounds(t, b),
    }
}

pub open spec fn feature_allowed(item: Item, c: Criteria) -> bool {
    match c.features {
        None => true,
        Some(ids) => ids.contains(item.feature_id),
    }
}

/// An item passes when its role is unconstrained, or when its feature is allowed
/// and one of its effects meets both the categories and the bounds.
pub open spec fn item_passes(item: Item, c: Criteria, role: Role) -> bool {
    ||| c.unconstrained(role)
    ||| (feature_allowed(item, c) && exists|k: int|
        0 <= k < item.facets@.len() && tuple_selected(#[trigger] item.facets@[k], c, role) && meets_bounds(item.facets@[k], c))
}

/// An effect whose scores count towards the reported extent: its item's feature is
/// allowed and the effect meets the categories, whatever its scores.
pub open spec fn tuple_observed(item: Item, t: EffectValues, c: Criteria, role: Role) -> bool {
    feature_allowed(item, c) && tuple_selected(t, c, role)
}

/// The ids of the features of one role that a feature id-set restricts, if it does.
pub open spec fn restriction(
    features: Option<ExperimentFeatureData>,
    op: Option<SetOpFeature>,
    role: Role,
) -> Option<Set<u64>> {
    match (features, op) {
        (Some(f), Some(o)) => if o.applies_to(role) {
            Some(
                match role {
                    Role::Source => f@.0,
                    Role::Target => f@.1,
                },
            )
        } else {
            None
        },
        _ => None,
    }
}

/// What decides which items of `role` pass, under the requested bounds.
pub open spec fn criteria(
    data: CoverageData,
    filter: Filter,
    features: Option<ExperimentFeatureData>,
    role: Role,
) -> Criteria {
    Criteria {
        facets: data.facets@,
        sel: selection(filter),
        bounds: filter.numeric_intervals,
        features: restriction(features, filter.set_op_feature, role),
    }
}

// ---------------------------------------------------------------------------
// What is reported of a sequence of items and intervals
// ---------------------------------------------------------------------------

/// The number of items of `items` that pass.
pub open spec fn passing_count(items: Seq<Item>, c: Criteria, role: Role) -> nat
    decreases items.len(),
{
    if items.len() == 0 {
        0
    } else {
        passing_count(items.drop_last(), c, role) + if item_passes(items.last(), c, role) { 1nat } else { 0nat }
    }
}

/// The buckets associated with the items of `items` that pass.
pub open spec fn passing_coords(items: Seq<Item>, c: Criteria, role: Role) -> Set<(int, int)>
    decreases items.len(),
{
    if items.len() == 0 {
        Set::empty()
    } else if item_passes(items.last(), c, role) {
        passing_coords(items.drop_last(), c, role).union(bucket_coords(items.last().associated_buckets@))
    } else {
        passing_coords(items.drop_last(), c, role)
    }
}

/// The feature ids of the items of `items` that pass.
pub open spec fn passing_ids(items: Seq<Item>, c: Criteria, role: Role) -> Set<u64>
    decreases items.len(),
{
    if items.len() == 0 {
        Set::empty()
    } else if item_passes(items.last(), c, role) {
        passing_ids(items.drop_last(), c, role).insert(items.last().feature_id)
    } else {
        passing_ids(items.drop_last(), c, role)
    }
}

/// The extent `e` grown by the observed effects of every item of `items`.
pub open spec fn items_extent(e: Option<FilterIntervals>, items: Seq<Item>, c: Criteria, role: Role) -> Option<FilterIntervals>
    decreases items.len(),
{
    if items.len() == 0 {
        e
    } else {
        tuples_extent(items_extent(e, items.drop_last(), c, role), items.last().facets@, items.last(), c, role)
    }
}

/// The intervals of `ivs` with at least one passing item, in order.
pub open spec fn kept_intervals(ivs: Seq<Interval>, c: Criteria, role: Role) -> Seq<Interval>
    decreases ivs.len(),
{
    if ivs.len() == 0 {
        Seq::empty()
    } else if passing_count(ivs.last().values@, c, role) > 0 {
        kept_intervals(ivs.drop_last(), c, role).push(ivs.last())
    } else {
        kept_intervals(ivs.drop_last(), c, role)
    }
}

/// The feature ids of the passing items of all intervals of `ivs`.
pub open spec fn intervals_ids(ivs: Seq<Interval>, c: Criteria, role: Role) -> Set<u64>
    decreases ivs.len(),
{
    if ivs.len() == 0 {
        Set::empty()
    } else {
        intervals_ids(ivs.drop_last(), c, role).union(passing_ids(ivs.last().values@, c, role))
    }
}

/// The extent `e` grown by the observed effects of all intervals of `ivs`.
pub open spec fn intervals_extent(e: Option<FilterIntervals>, ivs: Seq<Interval>, c: Criteria, role: Role) -> Option<FilterIntervals>
    decreases ivs.len(),
{
    if ivs.len() == 0 {
        e
    } else {
        items_extent(intervals_extent(e, ivs.drop_last(), c, role), ivs.last().values@, c, role)
    }
}

/// The summary of one filtered interval.
pub struct FilteredBucket {
    pub start: u32,
    /// The number of passing items.
    pub count: u64,
    /// The buckets associated with the passing items, deduplicated, in increasing
    /// order, interleaved as `[chrom, bucket, chrom, bucket, ...]`.
    pub associated_buckets: Vec<u32>,
}

impl View for FilteredBucket {
    type V = (u32, u64, Seq<u32>);

    open spec fn view(&self) -> (u32, u64, Seq<u32>) {
        (self.start, self.count, self.associated_buckets@)
    }
}

impl FilteredBucket {
    /// A copy with the same contents.
    pub fn duplicate(&self) -> (r: FilteredBucket)
        ensures
            r@ == self@,
    {
        let buckets = self.associated_buckets.clone();
        assert(buckets@ =~= self.associated_buckets@);
        FilteredBucket { start: self.start, count: self.count, associated_buckets: buckets }
    }
}

pub open spec fn describes_interval(fb: FilteredBucket, iv: Interval, c: Criteria, role: Role) -> bool {
    &&& fb.start == iv.start
    &&& fb.count == passing_count(iv.values@, c, role)
    &&& is_sorted_listing(fb.associated_buckets@, passing_coords(iv.values@, c, role))
}

/// `out` summarises, in order, exactly the intervals of `ivs` with a passing item.
pub open spec fn describes_intervals(out: Seq<FilteredBucket>, ivs: Seq<Interval>, c: Criteria, role: Role) -> bool {
    let kept = kept_intervals(ivs, c, role);
    &&& out.len() == kept.len()
    &&& forall|i: int| 0 <= i < out.len() ==> describes_interval(#[trigger] out[i], kept[i], c, role)
}

proof fn lemma_passing_count_bound(items: Seq<Item>, c: Criteria, role: Role)
    ensures
        passing_count(items, c, role) <= items.len(),
    decreases items.len(),
{
    if items.len() > 0 {
        lemma_passing_count_bound(items.drop_last(), c, role);
    }
}

// ---------------------------------------------------------------------------
// Per-role filter, evaluated on items
// ---------------------------------------------------------------------------

/// The executable form of the criteria of one role.
struct RoleFilter {
    role: Role,
    /// For each facet, its selected values if it is an active category, else nothing.
    selected: Vec<Vec<DbID>>,
    /// Some category is active.
    constrained: bool,
    bounds: Option<FilterIntervals>,
    features: Option<RoaringTreemap>,
}

impl RoleFilter {
    spec fn implements(&self, c: Criteria) -> bool {
        &&& self.selected@.len() == c.facets.len()
        &&& forall|i: int, v: DbID|
            0 <= i < c.facets.len() ==> (#[trigger] self.selected@[i]@.contains(v) <==> (is_active(c.facets[i], self.role, c.sel)
                && c.facets[i].values@.contains(v) && c.sel.contains(v)))
        &&& self.constrained == exists|i: int| 0 <= i < c.facets.len() && is_active(#[trigger] c.facets[i], self.role, c.sel)
        &&& self.bounds == c.bounds
        &&& match (self.features, c.features) {
            (None, None) => true,
            (Some(t), Some(ids)) => treemap_ids(t) == ids,
            _ => false,
        }
    }
}

fn contains_id(v: &Vec<DbID>, x: DbID) -> (r: bool)
    ensures
        r == v@.contains(x),
{
    let mut i: usize = 0;
    while i < v.len()
        invariant
            i <= v@.len(),
            forall|j: int| 0 <= j < i ==> v@[j] != x,
        decreases v@.len() - i,
    {
        if v[i] == x {
            return true;
        }
        i = i + 1;
    }
    false
}

pub(crate) proof fn lemma_push_contains<T>(s: Seq<T>, v: T, x: T)
    ensures
        s.push(v).contains(x) <==> s.contains(x) || x == v,
{
    let t = s.push(v);
    if t.contains(x) {
        let k = choose|k: int| 0 <= k < t.len() && t[k] == x;
        if k < s.len() {
            assert(s[k] == x);
        }
    }
    if s.contains(x) {
        let k = choose|k: int| 0 <= k < s.len() && s[k] == x;
        assert(t[k] == x);
    }
    if x == v {
        assert(t[s.len() as int] == x);
    }
}

/// The ids of `values` that `sel` holds.
fn selected_values(values: &Vec<DbID>, sel: &Vec<DbID>) -> (r: Vec<DbID>)
    ensures
        forall|v: DbID| #[trigger] r@.contains(v) <==> values@.contains(v) && sel@.contains(v),
{
    let mut r: Vec<DbID> = Vec::new();
    let mut i: usize = 0;
    while i < values.len()
        invariant
            i <= values@.len(),
            forall|v: DbID| #[trigger] r@.contains(v) <==> values@.subrange(0, i as int).contains(v) && sel@.contains(v),
        decreases values@.len() - i,
    {
        let v = values[i];
        let ghost before = r@;
        if contains_id(sel, v) {
            r.push(v);
            proof {
                assert forall|x: DbID| #[trigger] r@.contains(x) <==> before.contains(x) || x == v by {
                    lemma_push_contains(before, v, x);
                }
            }
        }
        proof {
            let pre = values@.subrange(0, i as int);
            assert(values@.subrange(0, i + 1) =~= pre.push(v));
            assert forall|x: DbID| #[trigger] values@.subrange(0, i + 1).contains(x) <==> pre.contains(x) || x == v by {
                lemma_push_contains(pre, v, x);
            }
        }
        i = i + 1;
    }
    assert(values@.subrange(0, values@.len() as int) =~= values@);
    r
}

// ---------------------------------------------------------------------------
// Extent of the observed scores
// ---------------------------------------------------------------------------

pub open spec fn min_i64(a: i64, b: i64) -> i64 {
    if a <= b { a } else { b }
}

pub open spec fn max_i64(a: i64, b: i64) -> i64 {
    if a >= b { a } else { b }
}

/// The extent `e` grown to hold the scores of `t`.
pub open spec fn widen(e: Option<FilterIntervals>, t: EffectValues) -> FilterIntervals {
    match e {
        None => FilterIntervals {
            effect: ScoreRange { min: t.effect_size, max: t.effect_size },
            sig: ScoreRange { min: t.significance, max: t.significance },
        },
        Some(x) => FilterIntervals {
            effect: ScoreRange { min: min_i64(x.effect.min, t.effect_size), max: max_i64(x.effect.max, t.effect_size) },
            sig: ScoreRange { min: min_i64(x.sig.min, t.significance), max: max_i64(x.sig.max, t.significance) },
        },
    }
}

/// The extent `e` grown by the observed effects of `ts`, which belong to `item`.
pub open spec fn tuples_extent(
    e: Option<FilterIntervals>,
    ts: Seq<EffectValues>,
    item: Item,
    c: Criteria,
    role: Role,
) -> Option<FilterIntervals>
    decreases ts.len(),
{
    if ts.len() == 0 {
        e
    } else {
        let prev = tuples_extent(e, ts.drop_last(), item, c, role);
        if tuple_observed(item, ts.last(), c, role) {
            Some(widen(prev, ts.last()))
        } else {
            prev
        }
    }
}

fn widen_exec(e: Option<FilterIntervals>, t: &EffectValues) -> (r: FilterIntervals)
    ensures
        r == widen(e, *t),
{
    match e {
        None => FilterIntervals {
            effect: ScoreRange { min: t.effect_size, max: t.effect_size },
            sig: ScoreRange { min: t.significance, max: t.significance },
        },
        Some(x) => FilterIntervals {
            effect: ScoreRange {
                min: if x.effect.min <= t.effect_size { x.effect.min } else { t.effect_size },
                max: if x.effect.max >= t.effect_size { x.effect.max } else { t.effect_size },
            },
            sig: ScoreRange {
                min: if x.sig.min <= t.significance { x.sig.min } else { t.significance },
                max: if x.sig.max >= t.significance { x.sig.max } else { t.significance },
            },
        },
    }
}

impl RoleFilter {
    fn new(
        data: &CoverageData,
        filter: &Filter,
        features: &Option<ExperimentFeatureData>,
        role: Role,
    ) -> (r: RoleFilter)
        ensures
            r.role == role,
            r.implements(criteria(*data, *filter, *features, role)),
    {
        let ghost c = criteria(*data, *filter, *features, role);
        let mut selected: Vec<Vec<DbID>> = Vec::new();
        let mut constrained = false;
        let mut i: usize = 0;
        while i < data.facets.len()
            invariant
                i <= data.facets@.len(),
                c == criteria(*data, *filter, *features, role),
                selected@.len() == i,
                forall|j: int, v: DbID|
                    0 <= j < i ==> (#[trigger] selected@[j]@.contains(v) <==> (is_active(c.facets[j], role, c.sel)
                        && c.facets[j].values@.contains(v) && c.sel.contains(v))),
                constrained == exists|j: int| 0 <= j < i && is_active(#[trigger] c.facets[j], role, c.sel),
            decreases data.facets@.len() - i,
        {
            let f = &data.facets[i];
            let covers = match role {
                Role::Source => f.covers_source,
                Role::Target => f.covers_target,
            };
            let sv = if f.kind == FacetKind::Discrete && covers {
                selected_values(&f.values, &filter.categorical_facets)
            } else {
                Vec::new()
            };
            proof {
                assert(c.facets[i as int] == *f);
                assert(covers == f.covers(role));
                assert(forall|v: DbID| filter.categorical_facets@.contains(v) <==> #[trigger] c.sel.contains(v));
                assert forall|v: DbID| #[trigger] sv@.contains(v) <==> (is_active(c.facets[i as int], role, c.sel)
                    && c.facets[i as int].values@.contains(v) && c.sel.contains(v)) by {
                    if sv@.contains(v) {
                        assert(f.values@.contains(v) && c.sel.contains(v));
                    }
                }
            }
            if sv.len() > 0 {
                proof {
                    assert(sv@.contains(sv@[0]));
                    assert(is_active(c.facets[i as int], role, c.sel));
                }
                constrained = true;
            } else {
                proof {
                    if is_active(c.facets[i as int], role, c.sel) {
                        let v = choose|v: DbID| c.facets[i as int].values@.contains(v) && c.sel.contains(v);
                        assert(sv@.contains(v));
                    }
                }
            }
            selected.push(sv);
            i = i + 1;
        }
        let feats = match (features, filter.set_op_feature) {
            (Some(fd), Some(op)) => {
                let applies = match op {
                    SetOpFeature::Source => role == Role::Source,
                    SetOpFeature::Target => role == Role::Target,
                    SetOpFeature::SourceTarget => true,
                };
                if applies {
                    match role {
                        Role::Source => Some(fd.sources.clone()),
                        Role::Target => Some(fd.targets.clone()),
                    }
                } else {
                    None
                }
            },
            _ => None,
        };
        RoleFilter { role, selected, constrained, bounds: filter.numeric_intervals, features: feats }
    }

    /// No active category, no bounds and no feature restriction.
    fn is_unconstrained(&self) -> (r: bool)
        ensures
            r == (!self.constrained && self.bounds is None && self.features is None),
    {
        !self.constrained && self.bounds.is_none() && self.features.is_none()
    }

    fn tuple_is_selected(&self, t: &EffectValues, Ghost(c): Ghost<Criteria>) -> (r: bool)
        requires
            self.implements(c),
        ensures
            r == tuple_selected(*t, c, self.role),
    {
        let mut i: usize = 0;
        while i < self.selected.len()
            invariant
                self.implements(c),
                i <= self.selected@.len(),
                forall|j: int|
                    0 <= j < i && is_active(#[trigger] c.facets[j], self.role, c.sel) ==> exists|id: DbID|
                        t.facet_ids@.contains(id) && c.facets[j].values@.contains(id) && c.sel.contains(id),
            decreases self.selected@.len() - i,
        {
            let cat = &self.selected[i];
            proof {
                if is_active(c.facets[i as int], self.role, c.sel) {
                    let v = choose|v: DbID| c.facets[i as int].values@.contains(v) && c.sel.contains(v);
                    assert(self.selected@[i as int]@.contains(v));
                }
                if cat@.len() > 0 {
                    assert(self.selected@[i as int]@.contains(cat@[0]));
                }
            }
            if cat.len() > 0 {
                let mut found = false;
                let mut j: usize = 0;
                while j < t.facet_ids.len()
                    invariant
                        self.implements(c),
                        i < self.selected@.len(),
                        cat == self.selected@[i as int],
                        j <= t.facet_ids@.len(),
                        found ==> exists|id: DbID| t.facet_ids@.contains(id) && c.facets[i as int].values@.contains(id) && c.sel.contains(id),
                        !found ==> forall|k: int| 0 <= k < j ==> !cat@.contains(#[trigger] t.facet_ids@[k]),
                    decreases t.facet_ids@.len() - j,
                {
                    let id = t.facet_ids[j];
                    if contains_id(cat, id) {
                        proof {
                            assert(self.selected@[i as int]@.contains(id));
                            assert(t.facet_ids@.contains(id));
                        }
                        found = true;
                    }
                    j = j + 1;
                }
                if !found {
                    proof {
                        assert forall|id: DbID| !(t.facet_ids@.contains(id) && c.facets[i as int].values@.contains(id) && c.sel.contains(id)) by {
                            if t.facet_ids@.contains(id) && c.facets[i as int].values@.contains(id) && c.sel.contains(id) {
                                let k = choose|k: int| 0 <= k < t.facet_ids@.len() && t.facet_ids@[k] == id;
                                assert(self.selected@[i as int]@.contains(id));
                            }
                        }
                    }
                    return false;
                }
            }
            i = i + 1;
        }
        true
    }

    fn meets_bounds_exec(&self, t: &EffectValues) -> (r: bool)
        ensures
            r == match self.bounds {
                None => true,
                Some(b) => in_bounds(*t, b),
            },
    {
        match self.bounds {
            None => true,
            Some(b) => b.effect.min <= t.effect_size && t.effect_size <= b.effect.max && b.sig.min <= t.significance
                && t.significance <= b.sig.max,
        }
    }

    /// Decides whether `item` passes, and grows `ext` by the item's observed effects.
    /// An unconstrained role takes the fast path: no effect is tested.
    fn scan_item(&self, item: &Item, ext: &mut Option<FilterIntervals>, Ghost(c): Ghost<Criteria>) -> (r: bool)
        requires
            self.implements(c),
        ensures
            r == item_passes(*item, c, self.role),
            *final(ext) == tuples_extent(*old(ext), item.facets@, *item, c, self.role),
    {
        let ghost e0 = *ext;
        let ghost role = self.role;
        let unconstrained = self.is_unconstrained();
        proof {
            if unconstrained {
                assert forall|i: int| 0 <= i < c.facets.len() implies !is_active(#[trigger] c.facets[i], role, c.sel) by {}
            } else if c.unconstrained(role) {
                assert(!self.constrained);
            }
        }
        let allowed = match &self.features {
            None => true,
            Some(t) => t.contains(item.feature_id),
        };
        assert(allowed == feature_allowed(*item, c));
        let mut passes = unconstrained;
        let mut k: usize = 0;
        while k < item.facets.len()
            invariant
                self.implements(c),
                role == self.role,
                unconstrained == c.unconstrained(role),
                allowed == feature_allowed(*item, c),
                k <= item.facets@.len(),
                *ext == tuples_extent(e0, item.facets@.subrange(0, k as int), *item, c, role),
                passes == (unconstrained || (allowed && exists|j: int|
                    0 <= j < k && tuple_selected(#[trigger] item.facets@[j], c, role) && meets_bounds(item.facets@[j], c))),
            decreases item.facets@.len() - k,
        {
            let t = &item.facets[k];
            let selected = if unconstrained {
                true
            } else {
                self.tuple_is_selected(t, Ghost(c))
            };
            assert(selected == tuple_selected(*t, c, role));
            if allowed && selected {
                *ext = Some(widen_exec(*ext, t));
            }
            if !passes && allowed && selected && self.meets_bounds_exec(t) {
                passes = true;
            }
            proof {
                let cur = item.facets@.subrange(0, k + 1);
                assert(cur.drop_last() =~= item.facets@.subrange(0, k as int));
                assert(cur.last() == *t);
            }
            k = k + 1;
        }
        assert(item.facets@.subrange(0, item.facets@.len() as int) =~= item.facets@);
        passes
    }

    /// Filters the intervals of one role, in order; intervals without a passing item
    /// are left out. Grows `ext` by the observed effects and `ids` by the features of
    /// the passing items.
    fn filter_intervals(
        &self,
        ivs: &Vec<Interval>,
        proto: &BucketList,
        Ghost(lens): Ghost<Seq<u32>>,
        Ghost(bucket_size): Ghost<u32>,
        ext: &mut Option<FilterIntervals>,
        ids: &mut RoaringTreemap,
        Ghost(c): Ghost<Criteria>,
    ) -> (r: Vec<FilteredBucket>)
        requires
            self.implements(c),
            proto.wf(),
            proto.sizes() == lens.map_values(|len: u32| bucket_count(len, bucket_size)),
            proto.coords() == Set::<(int, int)>::empty(),
            intervals_in_range(ivs@, lens, bucket_size),
        ensures
            describes_intervals(r@, ivs@, c, self.role),
            *final(ext) == intervals_extent(*old(ext), ivs@, c, self.role),
            treemap_ids(*final(ids)) == treemap_ids(*old(ids)).union(intervals_ids(ivs@, c, self.role)),
    {
        let ghost role = self.role;
        let ghost e0 = *ext;
        let ghost ids0 = treemap_ids(*ids);
        let mut out: Vec<FilteredBucket> = Vec::new();
        let mut i: usize = 0;
        while i < ivs.len()
            invariant
                self.implements(c),
                role == self.role,
                proto.wf(),
                proto.sizes() == lens.map_values(|len: u32| bucket_count(len, bucket_size)),
                proto.coords() == Set::<(int, int)>::empty(),
                intervals_in_range(ivs@, lens, bucket_size),
                i <= ivs@.len(),
                describes_intervals(out@, ivs@.subrange(0, i as int), c, role),
                *ext == intervals_extent(e0, ivs@.subrange(0, i as int), c, role),
                treemap_ids(*ids) == ids0.union(intervals_ids(ivs@.subrange(0, i as int), c, role)),
            decreases ivs@.len() - i,
        {
            let iv = &ivs[i];
            let ghost ext_i = *ext;
            let ghost ids_i = treemap_ids(*ids);
            assert(interval_in_range(ivs@[i as int], lens, bucket_size));
            let mut acc = proto.duplicate();
            let mut count: u64 = 0;
            let mut j: usize = 0;
            while j < iv.values.len()
                invariant
                    self.implements(c),
                    role == self.role,
                    interval_in_range(*iv, lens, bucket_size),
                    j <= iv.values@.len(),
                    acc.wf(),
                    acc.sizes() == lens.map_values(|len: u32| bucket_count(len, bucket_size)),
                    count == passing_count(iv.values@.subrange(0, j as int), c, role),
                    acc.coords() == passing_coords(iv.values@.subrange(0, j as int), c, role),
                    *ext == items_extent(ext_i, iv.values@.subrange(0, j as int), c, role),
                    treemap_ids(*ids) == ids_i.union(passing_ids(iv.values@.subrange(0, j as int), c, role)),
                decreases iv.values@.len() - j,
            {
                let item = &iv.values[j];
                let ghost pre = iv.values@.subrange(0, j as int);
                let ghost cur = iv.values@.subrange(0, j + 1);
                proof {
                    assert(cur.drop_last() =~= pre);
                    assert(cur.last() == *item);
                    lemma_passing_count_bound(pre, c, role);
                    assert(item_in_range(iv.values@[j as int], lens, bucket_size));
                }
                if self.scan_item(item, ext, Ghost(c)) {
                    proof {
                        assert forall|k: int| 0 <= k < item.associated_buckets@.len() implies acc.in_domain(
                            #[trigger] item.associated_buckets@[k].chrom as int,
                            item.associated_buckets@[k].idx as int,
                        ) by {
                            assert(crate::model::bucket_in_range(item.associated_buckets@[k], lens, bucket_size));
                        }
                    }
                    acc.insert_from(&item.associated_buckets);
                    ids.insert(item.feature_id);
                    count = count + 1;
                    proof {
                        assert(treemap_ids(*ids) =~= ids_i.union(passing_ids(cur, c, role)));
                    }
                }
                j = j + 1;
            }
            proof {
                assert(iv.values@.subrange(0, iv.values@.len() as int) =~= iv.values@);
                let pre = ivs@.subrange(0, i as int);
                let cur = ivs@.subrange(0, i + 1);
                assert(cur.drop_last() =~= pre);
                assert(cur.last() == *iv);
                assert(treemap_ids(*ids) =~= ids0.union(intervals_ids(cur, c, role)));
            }
            if count > 0 {
                let fb = FilteredBucket { start: iv.start, count, associated_buckets: acc.flat_list() };
                let ghost before = out@;
                out.push(fb);
                proof {
                    let cur = ivs@.subrange(0, i + 1);
                    let kept = kept_intervals(cur, c, role);
                    assert(kept == kept_intervals(ivs@.subrange(0, i as int), c, role).push(*iv));
                    assert forall|x: int| 0 <= x < out@.len() implies describes_interval(#[trigger] out@[x], kept[x], c, role) by {
                        if x < before.len() {
                            assert(out@[x] == before[x]);
                        }
                    }
                }
            }
            i = i + 1;
        }
        assert(ivs@.subrange(0, ivs@.len() as int) =~= ivs@);
        out
    }
}

// ---------------------------------------------------------------------------
// Whole dataset
// ---------------------------------------------------------------------------

/// The declared range of the first facet named `name`, if it has one.
pub open spec fn declared_range(facets: Seq<Facet>, name: Seq<char>) -> Option<ScoreRange>
    decreases facets.len(),
{
    if facets.len() == 0 {
        None
    } else if facets[0].name@ == name {
        facets[0].range
    } else {
        declared_range(facets.skip(1), name)
    }
}

pub open spec fn effect_size_name() -> Seq<char> {
    "Effect Size"@
}

pub open spec fn significance_name() -> Seq<char> {
    "Significance"@
}

/// The bounds that stand when nothing passes: the requested ones, or else the
/// declared ranges of the "Effect Size" and "Significance" facets.
pub open spec fn effective_bounds(facets: Seq<Facet>, filter: Filter) -> Option<FilterIntervals> {
    match filter.numeric_intervals {
        Some(b) => Some(b),
        None => match (declared_range(facets, effect_size_name()), declared_range(facets, significance_name())) {
            (Some(e), Some(s)) => Some(FilterIntervals { effect: e, sig: s }),
            _ => None,
        },
    }
}

fn find_declared_range(facets: &Vec<Facet>, name: &String) -> (r: Option<ScoreRange>)
    ensures
        r == declared_range(facets@, name@),
{
    let mut i: usize = 0;
    assert(facets@.skip(0) =~= facets@);
    while i < facets.len()
        invariant
            i <= facets@.len(),
            declared_range(facets@, name@) == declared_range(facets@.skip(i as int), name@),
        decreases facets@.len() - i,
    {
        proof {
            let rest = facets@.skip(i as int);
            assert(rest[0] == facets@[i as int]);
            assert(rest.skip(1) =~= facets@.skip(i + 1));
        }
        if facets[i].name == *name {
            return facets[i].range;
        }
        i = i + 1;
    }
    None
}

fn find_effective_bounds(data: &CoverageData, filter: &Filter) -> (r: Option<FilterIntervals>)
    ensures
        r == effective_bounds(data.facets@, *filter),
{
    match filter.numeric_intervals {
        Some(b) => Some(b),
        None => {
            let effect_name = "Effect Size".to_owned();
            let sig_name = "Significance".to_owned();
            match (find_declared_range(&data.facets, &effect_name), find_declared_range(&data.facets, &sig_name)) {
                (Some(e), Some(s)) => Some(FilterIntervals { effect: e, sig: s }),
                _ => None,
            }
        },
    }
}

pub open spec fn chrom_selected(ch: ChromosomeData, filter: Filter) -> bool {
    match filter.chrom {
        None => true,
        Some(x) => ch.index == x,
    }
}

/// The chromosomes that the filter keeps, in order.
pub open spec fn selected_chromosomes(chs: Seq<ChromosomeData>, filter: Filter) -> Seq<ChromosomeData>
    decreases chs.len(),
{
    if chs.len() == 0 {
        Seq::empty()
    } else if chrom_selected(chs.last(), filter) {
        selected_chromosomes(chs.drop_last(), filter).push(chs.last())
    } else {
        selected_chromosomes(chs.drop_last(), filter)
    }
}

/// The extent `e` grown by the observed effects of both roles of all of `chs`.
pub open spec fn chroms_extent(e: Option<FilterIntervals>, chs: Seq<ChromosomeData>, cs: Criteria, ct: Criteria) -> Option<FilterIntervals>
    decreases chs.len(),
{
    if chs.len() == 0 {
        e
    } else {
        let prev = chroms_extent(e, chs.drop_last(), cs, ct);
        intervals_extent(
            intervals_extent(prev, chs.last().source_intervals@, cs, Role::Source),
            chs.last().target_intervals@,
            ct,
            Role::Target,
        )
    }
}

/// The feature ids of the passing items of one role over all of `chs`.
pub open spec fn chroms_ids(chs: Seq<ChromosomeData>, c: Criteria, role: Role) -> Set<u64>
    decreases chs.len(),
{
    if chs.len() == 0 {
        Set::empty()
    } else {
        chroms_ids(chs.drop_last(), c, role).union(intervals_ids(chs.last().intervals(role), c, role))
    }
}

/// Some item of some chromosome of `chs` passes.
pub open spec fn any_passing(chs: Seq<ChromosomeData>, cs: Criteria, ct: Criteria) -> bool {
    exists|i: int|
        0 <= i < chs.len() && (kept_intervals(#[trigger] chs[i].source_intervals@, cs, Role::Source).len() > 0
            || kept_intervals(chs[i].target_intervals@, ct, Role::Target).len() > 0)
}

/// The reported score extent: that of the observed effects, or the fallback `b`
/// where nothing passed or nothing was observed.
pub open spec fn reported_extent(chs: Seq<ChromosomeData>, cs: Criteria, ct: Criteria, b: FilterIntervals) -> FilterIntervals {
    if any_passing(chs, cs, ct) {
        match chroms_extent(None, chs, cs, ct) {
            Some(e) => e,
            None => b,
        }
    } else {
        b
    }
}

/// One chromosome of a filtered result.
pub struct FilteredChromosome {
    pub chrom: String,
    pub index: u8,
    pub bucket_size: u32,
    pub source_intervals: Vec<FilteredBucket>,
    pub target_intervals: Vec<FilteredBucket>,
}

pub open spec fn bucket_views(v: Seq<FilteredBucket>) -> Seq<(u32, u64, Seq<u32>)> {
    v.map_values(|b: FilteredBucket| b@)
}

fn duplicate_buckets(v: &Vec<FilteredBucket>) -> (r: Vec<FilteredBucket>)
    ensures
        bucket_views(r@) == bucket_views(v@),
{
    let mut r: Vec<FilteredBucket> = Vec::new();
    let mut i: usize = 0;
    while i < v.len()
        invariant
            i <= v@.len(),
            r@.len() == i,
            forall|j: int| 0 <= j < i ==> #[trigger] r@[j]@ == v@[j]@,
        decreases v@.len() - i,
    {
        r.push(v[i].duplicate());
        i = i + 1;
    }
    assert(bucket_views(r@) =~= bucket_views(v@));
    r
}

/// The contents of a filtered chromosome.
pub type FilteredChromosomeView = (Seq<char>, u8, u32, Seq<(u32, u64, Seq<u32>)>, Seq<(u32, u64, Seq<u32>)>);

impl View for FilteredChromosome {
    type V = FilteredChromosomeView;

    open spec fn view(&self) -> FilteredChromosomeView {
        (self.chrom@, self.index, self.bucket_size, bucket_views(self.source_intervals@), bucket_views(self.target_intervals@))
    }
}

impl FilteredChromosome {
    /// A copy with the same contents.
    pub fn duplicate(&self) -> (r: FilteredChromosome)
        ensures
            r@ == self@,
    {
        FilteredChromosome {
            chrom: self.chrom.clone(),
            index: self.index,
            bucket_size: self.bucket_size,
            source_intervals: duplicate_buckets(&self.source_intervals),
            target_intervals: duplicate_buckets(&self.target_intervals),
        }
    }
}

pub open spec fn describes_chromosome(fc: FilteredChromosome, ch: ChromosomeData, cs: Criteria, ct: Criteria) -> bool {
    &&& fc.chrom@ == ch.chrom@
    &&& fc.index == ch.index
    &&& fc.bucket_size == ch.bucket_size
    &&& describes_intervals(fc.source_intervals@, ch.source_intervals@, cs, Role::Source)
    &&& describes_intervals(fc.target_intervals@, ch.target_intervals@, ct, Role::Target)
}

/// The result of filtering.
pub struct FilteredData {
    pub chromosomes: Vec<FilteredChromosome>,
    pub bucket_size: u32,
    /// The extent of the observed scores.
    pub numeric_intervals: FilterIntervals,
    /// The features of the passing source items.
    pub sources: RoaringTreemap,
    /// The features of the passing target items.
    pub targets: RoaringTreemap,
}

pub open spec fn chromosome_views(v: Seq<FilteredChromosome>) -> Seq<FilteredChromosomeView> {
    v.map_values(|c: FilteredChromosome| c@)
}

/// The contents of a filtered result.
pub type FilteredDataView = (Seq<FilteredChromosomeView>, u32, FilterIntervals, Set<u64>, Set<u64>);

impl View for FilteredData {
    type V = FilteredDataView;

    open spec fn view(&self) -> FilteredDataView {
        (
            chromosome_views(self.chromosomes@),
            self.bucket_size,
            self.numeric_intervals,
            treemap_ids(self.sources),
            treemap_ids(self.targets),
        )
    }
}

/// The sum of the counts of `bs`.
pub open spec fn count_total(bs: Seq<FilteredBucket>) -> nat
    decreases bs.len(),
{
    if bs.len() == 0 {
        0
    } else {
        count_total(bs.drop_last()) + bs.last().count as nat
    }
}

/// The number of passing items on the source side of `chs`.
pub open spec fn source_total(chs: Seq<FilteredChromosome>) -> nat
    decreases chs.len(),
{
    if chs.len() == 0 {
        0
    } else {
        source_total(chs.drop_last()) + count_total(chs.last().source_intervals@)
    }
}

pub open spec fn saturated(n: nat) -> u64 {
    if n > u64::MAX { u64::MAX } else { n as u64 }
}

impl FilteredData {
    /// The number of observations that passed. Each observation is an item on its
    /// source side, so this counts the passing source items (saturating).
    pub fn reo_count(&self) -> (r: u64)
        ensures
            r == saturated(source_total(self.chromosomes@)),
    {
        let mut total: u64 = 0;
        let mut i: usize = 0;
        while i < self.chromosomes.len()
            invariant
                i <= self.chromosomes@.len(),
                total == saturated(source_total(self.chromosomes@.subrange(0, i as int))),
            decreases self.chromosomes@.len() - i,
        {
            let bs = &self.chromosomes[i].source_intervals;
            let ghost base = source_total(self.chromosomes@.subrange(0, i as int));
            let mut j: usize = 0;
            while j < bs.len()
                invariant
                    i < self.chromosomes@.len(),
                    bs == self.chromosomes@[i as int].source_intervals,
                    j <= bs@.len(),
                    total == saturated(base + count_total(bs@.subrange(0, j as int))),
                decreases bs@.len() - j,
            {
                proof {
                    let cur = bs@.subrange(0, j + 1);
                    assert(cur.drop_last() =~= bs@.subrange(0, j as int));
                    assert(cur.last() == bs@[j as int]);
                }
                total = total.saturating_add(bs[j].count);
                j = j + 1;
            }
            proof {
                assert(bs@.subrange(0, bs@.len() as int) =~= bs@);
                let cur = self.chromosomes@.subrange(0, i + 1);
                assert(cur.drop_last() =~= self.chromosomes@.subrange(0, i as int));
                assert(cur.last() == self.chromosomes@[i as int]);
            }
            i = i + 1;
        }
        assert(self.chromosomes@.subrange(0, self.chromosomes@.len() as int) =~= self.chromosomes@);
        total
    }
}

/// `fd` is what filtering `data` gives, with fallback bounds `b`.
pub open spec fn filtered_as_specified(
    fd: FilteredData,
    data: CoverageData,
    filter: Filter,
    features: Option<ExperimentFeatureData>,
    b: FilterIntervals,
) -> bool {
    let sel = selected_chromosomes(data.chromosomes@, filter);
    let cs = criteria(data, filter, features, Role::Source);
    let ct = criteria(data, filter, features, Role::Target);
    &&& fd.bucket_size == data.bucket_size
    &&& fd.chromosomes@.len() == sel.len()
    &&& forall|i: int| 0 <= i < sel.len() ==> describes_chromosome(#[trigger] fd.chromosomes@[i], sel[i], cs, ct)
    &&& treemap_ids(fd.sources) == chroms_ids(sel, cs, Role::Source)
    &&& treemap_ids(fd.targets) == chroms_ids(sel, ct, Role::Target)
    &&& fd.numeric_intervals == reported_extent(sel, cs, ct, b)
}

/// Filters a coverage dataset. Where `included_features` is given, the roles that
/// `filter.set_op_feature` names keep only items whose feature it holds.
pub fn filter_coverage_data(
    filter: &Filter,
    data: &CoverageData,
    included_features: &Option<ExperimentFeatureData>,
) -> (r: Result<FilteredData, FilterError>)
    requires
        data.wf(),
    ensures
        match effective_bounds(data.facets@, *filter) {
            None => r == Err::<FilteredData, FilterError>(FilterError::MissingScoreFacet),
            Some(b) => r is Ok && filtered_as_specified(r->Ok_0, *data, *filter, *included_features, b),
        },
{
    let b = match find_effective_bounds(data, filter) {
        Some(b) => b,
        None => return Err(FilterError::MissingScoreFacet),
    };
    let ghost cs = criteria(*data, *filter, *included_features, Role::Source);
    let ghost ct = criteria(*data, *filter, *included_features, Role::Target);
    let source_filter = RoleFilter::new(data, filter, included_features, Role::Source);
    let target_filter = RoleFilter::new(data, filter, included_features, Role::Target);
    let proto = BucketList::new(&data.chrom_lengths, data.bucket_size);
    let mut chromosomes: Vec<FilteredChromosome> = Vec::new();
    let mut ext: Option<FilterIntervals> = None;
    let mut sources = RoaringTreemap::new();
    let mut targets = RoaringTreemap::new();
    let mut any = false;
    let mut i: usize = 0;
    while i < data.chromosomes.len()
        invariant
            data.wf(),
            source_filter.role == Role::Source,
            target_filter.role == Role::Target,
            source_filter.implements(cs),
            target_filter.implements(ct),
            proto.wf(),
            proto.sizes() == data.chrom_lengths@.map_values(|len: u32| bucket_count(len, data.bucket_size)),
            proto.coords() == Set::<(int, int)>::empty(),
            cs == criteria(*data, *filter, *included_features, Role::Source),
            ct == criteria(*data, *filter, *included_features, Role::Target),
            i <= data.chromosomes@.len(),
            ({
                let sel = selected_chromosomes(data.chromosomes@.subrange(0, i as int), *filter);
                &&& chromosomes@.len() == sel.len()
                &&& forall|x: int| 0 <= x < sel.len() ==> describes_chromosome(#[trigger] chromosomes@[x], sel[x], cs, ct)
                &&& treemap_ids(sources) == chroms_ids(sel, cs, Role::Source)
                &&& treemap_ids(targets) == chroms_ids(sel, ct, Role::Target)
                &&& ext == chroms_extent(None, sel, cs, ct)
                &&& any == any_passing(sel, cs, ct)
            }),
        decreases data.chromosomes@.len() - i,
    {
        let ch = &data.chromosomes[i];
        let ghost pre = selected_chromosomes(data.chromosomes@.subrange(0, i as int), *filter);
        proof {
            let cur = data.chromosomes@.subrange(0, i + 1);
            assert(cur.drop_last() =~= data.chromosomes@.subrange(0, i as int));
            assert(cur.last() == *ch);
            assert(crate::model::chrom_in_range(data.chromosomes@[i as int], data.chrom_lengths@, data.bucket_size));
        }
        let keep = match filter.chrom {
            None => true,
            Some(x) => ch.index == x,
        };
        if keep {
            let ghost ids_s = treemap_ids(sources);
            let ghost ids_t = treemap_ids(targets);
            let src = source_filter.filter_intervals(
                &ch.source_intervals,
                &proto,
                Ghost(data.chrom_lengths@),
                Ghost(data.bucket_size),
                &mut ext,
                &mut sources,
                Ghost(cs),
            );
            let tgt = target_filter.filter_intervals(
                &ch.target_intervals,
                &proto,
                Ghost(data.chrom_lengths@),
                Ghost(data.bucket_size),
                &mut ext,
                &mut targets,
                Ghost(ct),
            );
            let found = src.len() > 0 || tgt.len() > 0;
            let ghost before = chromosomes@;
            chromosomes.push(
                FilteredChromosome {
                    chrom: ch.chrom.clone(),
                    index: ch.index,
                    bucket_size: ch.bucket_size,
                    source_intervals: src,
                    target_intervals: tgt,
                },
            );
            proof {
                let sel = pre.push(*ch);
                assert(sel.drop_last() =~= pre);
                assert(sel.last() == *ch);
                assert forall|x: int| 0 <= x < sel.len() implies describes_chromosome(#[trigger] chromosomes@[x], sel[x], cs, ct) by {
                    if x < pre.len() {
                        assert(chromosomes@[x] == before[x]);
                    }
                }
                assert(treemap_ids(sources) =~= chroms_ids(sel, cs, Role::Source));
                assert(treemap_ids(targets) =~= chroms_ids(sel, ct, Role::Target));
                if any_passing(pre, cs, ct) {
                    let w = choose|w: int|
                        0 <= w < pre.len() && (kept_intervals(#[trigger] pre[w].source_intervals@, cs, Role::Source).len() > 0
                            || kept_intervals(pre[w].target_intervals@, ct, Role::Target).len() > 0);
                    assert(sel[w] == pre[w]);
                }
                if found {
                    assert(sel[pre.len() as int] == *ch);
                }
                if any_passing(sel, cs, ct) && !found {
                    let w = choose|w: int|
                        0 <= w < sel.len() && (kept_intervals(#[trigger] sel[w].source_intervals@, cs, Role::Source).len() > 0
                            || kept_intervals(sel[w].target_intervals@, ct, Role::Target).len() > 0);
                    assert(w < pre.len());
                    assert(sel[w] == pre[w]);
                }
            }
            any = any || found;
        }
        i = i + 1;
    }
    proof {
        assert(data.chromosomes@.subrange(0, data.chromosomes@.len() as int) =~= data.chromosomes@);
    }
    let numeric_intervals = if any {
        match ext {
            Some(e) => e,
            None => b,
        }
    } else {
        b
    };
    Ok(FilteredData { chromosomes, bucket_size: data.bucket_size, numeric_intervals, sources, targets })
}

} // verus!
