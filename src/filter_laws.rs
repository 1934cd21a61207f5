//! Laws of the filter engine, stated over the spec functions of `filter`.

use crate::buckets::{bucket_coords, is_sorted_listing, listed_coords};
use crate::filter::{
    any_passing, chroms_extent, criteria, describes_chromosome, describes_intervals, feature_allowed,
    filtered_as_specified, in_bounds, intervals_extent, FilteredBucket, FilteredData,
    intervals_ids, is_active, item_passes, items_extent, kept_intervals, meets_bounds, passing_coords, passing_count,
    passing_ids, reported_extent, restriction, selected_chromosomes, tuple_observed, tuple_selected, tuples_extent,
    Criteria, Filter, FilterIntervals,
};
use crate::ids::ExperimentFeatureData;
use crate::model::{ChromosomeData, CoverageData, DbID, EffectValues, Facet, FacetKind, Interval, Item, Role};
use vstd::prelude::*;

verus! {

/// With no chromosome named, every chromosome is kept.
pub proof fn lemma_all_chromosomes_selected(chs: Seq<ChromosomeData>, filter: Filter)
    requires
        filter.chrom is None,
    ensures
        selected_chromosomes(chs, filter) == chs,
    decreases chs.len(),
{
    if chs.len() > 0 {
        lemma_all_chromosomes_selected(chs.drop_last(), filter);
        assert(chs.drop_last().push(chs.last()) =~= chs);
    }
}

proof fn lemma_all_pass_count(items: Seq<Item>, c: Criteria, role: Role)
    requires
        forall|j: int| 0 <= j < items.len() ==> item_passes(#[trigger] items[j], c, role),
    ensures
        passing_count(items, c, role) == items.len(),
    decreases items.len(),
{
    if items.len() > 0 {
        assert(item_passes(items[items.len() - 1], c, role));
        lemma_all_pass_count(items.drop_last(), c, role);
    }
}

/// A filter that selects no facet value, requests no bounds and restricts no
/// feature lets every item of every chromosome through, every interval keeps all
/// of its items, and every effect counts towards the reported extent.
pub proof fn lemma_no_op_filter(data: CoverageData, filter: Filter, features: Option<ExperimentFeatureData>)
    requires
        filter.categorical_facets@.len() == 0,
        filter.numeric_intervals is None,
        filter.chrom is None,
        features is None || filter.set_op_feature is None,
    ensures
        selected_chromosomes(data.chromosomes@, filter) == data.chromosomes@,
        forall|item: Item, role: Role| #[trigger] item_passes(item, criteria(data, filter, features, role), role),
        forall|iv: Interval, role: Role|
            #[trigger] passing_count(iv.values@, criteria(data, filter, features, role), role) == iv.values@.len(),
        forall|item: Item, t: EffectValues, role: Role| #[trigger] tuple_observed(item, t, criteria(data, filter, features, role), role),
{
    lemma_all_chromosomes_selected(data.chromosomes@, filter);
    assert forall|item: Item, t: EffectValues, role: Role| #[trigger] tuple_observed(item, t, criteria(data, filter, features, role), role) by {
        let c = criteria(data, filter, features, role);
        assert(c.sel =~= Set::<u32>::empty());
        assert(restriction(features, filter.set_op_feature, role) is None);
    }
    assert forall|item: Item, role: Role| #[trigger] item_passes(item, criteria(data, filter, features, role), role) by {
        let c = criteria(data, filter, features, role);
        assert(c.sel =~= Set::<u32>::empty());
        assert(restriction(features, filter.set_op_feature, role) is None);
        assert(c.unconstrained(role));
    }
    assert forall|iv: Interval, role: Role|
        #[trigger] passing_count(iv.values@, criteria(data, filter, features, role), role) == iv.values@.len() by {
        let c = criteria(data, filter, features, role);
        assert forall|j: int| 0 <= j < iv.values@.len() implies item_passes(#[trigger] iv.values@[j], c, role) by {
            assert(item_passes(iv.values@[j], criteria(data, filter, features, role), role));
        }
        lemma_all_pass_count(iv.values@, c, role);
    }
}

/// The intervals of `ivs` that hold an item, in order.
pub open spec fn nonempty_intervals(ivs: Seq<Interval>) -> Seq<Interval>
    decreases ivs.len(),
{
    if ivs.len() == 0 {
        Seq::empty()
    } else if ivs.last().values@.len() > 0 {
        nonempty_intervals(ivs.drop_last()).push(ivs.last())
    } else {
        nonempty_intervals(ivs.drop_last())
    }
}

/// The buckets associated with any item of `items`.
pub open spec fn all_coords(items: Seq<Item>) -> Set<(int, int)>
    decreases items.len(),
{
    if items.len() == 0 {
        Set::empty()
    } else {
        all_coords(items.drop_last()).union(bucket_coords(items.last().associated_buckets@))
    }
}

/// `out` summarises every interval of `ivs` that holds an item, with all its items.
pub open spec fn summarises_all(out: Seq<FilteredBucket>, ivs: Seq<Interval>) -> bool {
    let ne = nonempty_intervals(ivs);
    &&& out.len() == ne.len()
    &&& forall|x: int|
        0 <= x < out.len() ==> {
            &&& (#[trigger] out[x]).start == ne[x].start
            &&& out[x].count == ne[x].values@.len()
            &&& is_sorted_listing(out[x].associated_buckets@, all_coords(ne[x].values@))
        }
}

proof fn lemma_all_pass_items(items: Seq<Item>, c: Criteria, role: Role)
    requires
        forall|item: Item| #[trigger] item_passes(item, c, role),
    ensures
        passing_count(items, c, role) == items.len(),
        passing_coords(items, c, role) == all_coords(items),
    decreases items.len(),
{
    if items.len() > 0 {
        lemma_all_pass_items(items.drop_last(), c, role);
        assert(item_passes(items.last(), c, role));
    }
}

proof fn lemma_all_pass_intervals(ivs: Seq<Interval>, c: Criteria, role: Role)
    requires
        forall|item: Item| #[trigger] item_passes(item, c, role),
    ensures
        kept_intervals(ivs, c, role) == nonempty_intervals(ivs),
    decreases ivs.len(),
{
    if ivs.len() > 0 {
        lemma_all_pass_intervals(ivs.drop_last(), c, role);
        lemma_all_pass_items(ivs.last().values@, c, role);
    }
}

proof fn lemma_describes_all(out: Seq<FilteredBucket>, ivs: Seq<Interval>, c: Criteria, role: Role)
    requires
        forall|item: Item| #[trigger] item_passes(item, c, role),
        crate::filter::describes_intervals(out, ivs, c, role),
    ensures
        summarises_all(out, ivs),
{
    lemma_all_pass_intervals(ivs, c, role);
    let ne = nonempty_intervals(ivs);
    assert forall|x: int| 0 <= x < out.len() implies {
        &&& (#[trigger] out[x]).start == ne[x].start
        &&& out[x].count == ne[x].values@.len()
        &&& is_sorted_listing(out[x].associated_buckets@, all_coords(ne[x].values@))
    } by {
        lemma_all_pass_items(ne[x].values@, c, role);
    }
}

/// Filtering with no selected facet value, no bounds, no chromosome and no feature
/// id-set gives back every chromosome, and for each role every interval that holds
/// an item, with all of its items counted and all of their buckets listed.
pub proof fn lemma_no_op_filter_result(fd: FilteredData, data: CoverageData, filter: Filter, b: FilterIntervals)
    requires
        filter.categorical_facets@.len() == 0,
        filter.numeric_intervals is None,
        filter.chrom is None,
        filtered_as_specified(fd, data, filter, None, b),
    ensures
        fd.chromosomes@.len() == data.chromosomes@.len(),
        forall|i: int|
            0 <= i < data.chromosomes@.len() ==> {
                &&& summarises_all((#[trigger] fd.chromosomes@[i]).source_intervals@, data.chromosomes@[i].source_intervals@)
                &&& summarises_all(fd.chromosomes@[i].target_intervals@, data.chromosomes@[i].target_intervals@)
            },
{
    lemma_no_op_filter(data, filter, None);
    let cs = criteria(data, filter, None, Role::Source);
    let ct = criteria(data, filter, None, Role::Target);
    assert forall|item: Item| #[trigger] item_passes(item, cs, Role::Source) by {
        assert(item_passes(item, criteria(data, filter, None, Role::Source), Role::Source));
    }
    assert forall|item: Item| #[trigger] item_passes(item, ct, Role::Target) by {
        assert(item_passes(item, criteria(data, filter, None, Role::Target), Role::Target));
    }
    assert forall|i: int| 0 <= i < data.chromosomes@.len() implies {
        &&& summarises_all((#[trigger] fd.chromosomes@[i]).source_intervals@, data.chromosomes@[i].source_intervals@)
        &&& summarises_all(fd.chromosomes@[i].target_intervals@, data.chromosomes@[i].target_intervals@)
    } by {
        assert(describes_chromosome(fd.chromosomes@[i], data.chromosomes@[i], cs, ct));
        lemma_describes_all(fd.chromosomes@[i].source_intervals@, data.chromosomes@[i].source_intervals@, cs, Role::Source);
        lemma_describes_all(fd.chromosomes@[i].target_intervals@, data.chromosomes@[i].target_intervals@, ct, Role::Target);
    }
}

/// Under requested bounds, every passing item has an effect whose scores lie within them.
pub proof fn lemma_passing_item_in_bounds(item: Item, c: Criteria, role: Role, b: FilterIntervals)
    requires
        c.bounds == Some(b),
        item_passes(item, c, role),
    ensures
        exists|k: int| 0 <= k < item.facets@.len() && in_bounds(#[trigger] item.facets@[k], b),
{
    let k = choose|k: int|
        0 <= k < item.facets@.len() && tuple_selected(#[trigger] item.facets@[k], c, role) && meets_bounds(item.facets@[k], c);
    assert(in_bounds(item.facets@[k], b));
}

/// Where nothing passes, the reported extent is the fallback bound.
pub proof fn lemma_nothing_passes_reports_fallback(chs: Seq<ChromosomeData>, cs: Criteria, ct: Criteria, b: FilterIntervals)
    requires
        !any_passing(chs, cs, ct),
    ensures
        reported_extent(chs, cs, ct, b) == b,
{
}

/// `e` lies within `b`, if it is there at all.
pub open spec fn extent_within(e: Option<FilterIntervals>, b: FilterIntervals) -> bool {
    match e {
        None => true,
        Some(x) => b.effect.min <= x.effect.min && x.effect.max <= b.effect.max && b.sig.min <= x.sig.min && x.sig.max
            <= b.sig.max,
    }
}

proof fn lemma_tuples_within(e: Option<FilterIntervals>, ts: Seq<EffectValues>, item: Item, c: Criteria, role: Role, b: FilterIntervals)
    requires
        extent_within(e, b),
        forall|k: int| 0 <= k < ts.len() && tuple_observed(item, #[trigger] ts[k], c, role) ==> in_bounds(ts[k], b),
    ensures
        extent_within(tuples_extent(e, ts, item, c, role), b),
    decreases ts.len(),
{
    if ts.len() > 0 {
        lemma_tuples_within(e, ts.drop_last(), item, c, role, b);
        let t = ts[ts.len() - 1];
        if tuple_observed(item, t, c, role) {
            assert(in_bounds(t, b));
        }
    }
}

/// Every effect that counts towards the extent of `role` in `ivs` lies within `b`.
pub open spec fn observed_within(ivs: Seq<Interval>, c: Criteria, role: Role, b: FilterIntervals) -> bool {
    forall|i: int, j: int, k: int|
        0 <= i < ivs.len() && 0 <= j < ivs[i].values@.len() && 0 <= k < ivs[i].values@[j].facets@.len()
            && tuple_observed(ivs[i].values@[j], #[trigger] ivs[i].values@[j].facets@[k], c, role) ==> in_bounds(
            ivs[i].values@[j].facets@[k],
            b,
        )
}

proof fn lemma_items_within(e: Option<FilterIntervals>, items: Seq<Item>, c: Criteria, role: Role, b: FilterIntervals)
    requires
        extent_within(e, b),
        forall|j: int, k: int|
            0 <= j < items.len() && 0 <= k < items[j].facets@.len() && tuple_observed(items[j], #[trigger] items[j].facets@[k], c, role)
                ==> in_bounds(items[j].facets@[k], b),
    ensures
        extent_within(items_extent(e, items, c, role), b),
    decreases items.len(),
{
    if items.len() > 0 {
        let pre = items.drop_last();
        assert forall|j: int, k: int|
            0 <= j < pre.len() && 0 <= k < pre[j].facets@.len() && tuple_observed(pre[j], #[trigger] pre[j].facets@[k], c, role)
                implies in_bounds(pre[j].facets@[k], b) by {
            assert(pre[j] == items[j]);
        }
        lemma_items_within(e, pre, c, role, b);
        let last = items[items.len() - 1];
        assert forall|k: int| 0 <= k < last.facets@.len() && tuple_observed(last, #[trigger] last.facets@[k], c, role) implies in_bounds(
            last.facets@[k],
            b,
        ) by {
            assert(items[items.len() - 1].facets@[k] == last.facets@[k]);
        }
        lemma_tuples_within(items_extent(e, pre, c, role), last.facets@, last, c, role, b);
    }
}

proof fn lemma_intervals_within(e: Option<FilterIntervals>, ivs: Seq<Interval>, c: Criteria, role: Role, b: FilterIntervals)
    requires
        extent_within(e, b),
        observed_within(ivs, c, role, b),
    ensures
        extent_within(intervals_extent(e, ivs, c, role), b),
    decreases ivs.len(),
{
    if ivs.len() > 0 {
        let pre = ivs.drop_last();
        assert forall|i: int, j: int, k: int|
            0 <= i < pre.len() && 0 <= j < pre[i].values@.len() && 0 <= k < pre[i].values@[j].facets@.len()
                && tuple_observed(pre[i].values@[j], #[trigger] pre[i].values@[j].facets@[k], c, role) implies in_bounds(
            pre[i].values@[j].facets@[k],
            b,
        ) by {
            assert(pre[i] == ivs[i]);
        }
        lemma_intervals_within(e, pre, c, role, b);
        let last = ivs[ivs.len() - 1];
        assert forall|j: int, k: int|
            0 <= j < last.values@.len() && 0 <= k < last.values@[j].facets@.len() && tuple_observed(
                last.values@[j],
                #[trigger] last.values@[j].facets@[k],
                c,
                role,
            ) implies in_bounds(last.values@[j].facets@[k], b) by {
            assert(ivs[ivs.len() - 1] == last);
        }
        lemma_items_within(intervals_extent(e, pre, c, role), last.values@, c, role, b);
    }
}

/// Where every effect that counts towards the extent lies within the requested
/// bounds `b`, so does the reported extent. (Effects that meet the categories
/// count whatever their scores, so without that condition the extent can reach
/// beyond `b`.)
pub proof fn lemma_reported_within_bounds(chs: Seq<ChromosomeData>, cs: Criteria, ct: Criteria, b: FilterIntervals)
    requires
        b.effect.min <= b.effect.max,
        b.sig.min <= b.sig.max,
        forall|i: int| 0 <= i < chs.len() ==> observed_within(#[trigger] chs[i].source_intervals@, cs, Role::Source, b),
        forall|i: int| 0 <= i < chs.len() ==> observed_within(#[trigger] chs[i].target_intervals@, ct, Role::Target, b),
    ensures
        extent_within(Some(reported_extent(chs, cs, ct, b)), b),
{
    lemma_chroms_within(chs, cs, ct, b);
}

proof fn lemma_chroms_within(chs: Seq<ChromosomeData>, cs: Criteria, ct: Criteria, b: FilterIntervals)
    requires
        forall|i: int| 0 <= i < chs.len() ==> observed_within(#[trigger] chs[i].source_intervals@, cs, Role::Source, b),
        forall|i: int| 0 <= i < chs.len() ==> observed_within(#[trigger] chs[i].target_intervals@, ct, Role::Target, b),
    ensures
        extent_within(chroms_extent(None, chs, cs, ct), b),
    decreases chs.len(),
{
    if chs.len() > 0 {
        let pre = chs.drop_last();
        assert forall|i: int| 0 <= i < pre.len() implies observed_within(#[trigger] pre[i].source_intervals@, cs, Role::Source, b) by {
            assert(pre[i] == chs[i]);
        }
        assert forall|i: int| 0 <= i < pre.len() implies observed_within(#[trigger] pre[i].target_intervals@, ct, Role::Target, b) by {
            assert(pre[i] == chs[i]);
        }
        lemma_chroms_within(pre, cs, ct, b);
        let last = chs[chs.len() - 1];
        assert(observed_within(last.source_intervals@, cs, Role::Source, b));
        assert(observed_within(last.target_intervals@, ct, Role::Target, b));
        let e1 = intervals_extent(chroms_extent(None, pre, cs, ct), last.source_intervals@, cs, Role::Source);
        lemma_intervals_within(chroms_extent(None, pre, cs, ct), last.source_intervals@, cs, Role::Source, b);
        lemma_intervals_within(e1, last.target_intervals@, ct, Role::Target, b);
    }
}

// ---------------------------------------------------------------------------
// Selecting one more facet value
// ---------------------------------------------------------------------------

/// The criteria `c` with `v` selected as well.
pub open spec fn with_value(c: Criteria, v: DbID) -> Criteria {
    Criteria { facets: c.facets, sel: c.sel.insert(v), bounds: c.bounds, features: c.features }
}

/// `f` is a category of `role` that has `v` among its values.
pub open spec fn category_of(f: Facet, role: Role, v: DbID) -> bool {
    f.kind == FacetKind::Discrete && f.covers(role) && f.values@.contains(v)
}

proof fn lemma_count_monotone(items: Seq<Item>, c1: Criteria, c2: Criteria, role: Role)
    requires
        forall|j: int| 0 <= j < items.len() && item_passes(#[trigger] items[j], c1, role) ==> item_passes(items[j], c2, role),
    ensures
        passing_count(items, c1, role) <= passing_count(items, c2, role),
        passing_coords(items, c1, role).subset_of(passing_coords(items, c2, role)),
    decreases items.len(),
{
    if items.len() > 0 {
        let pre = items.drop_last();
        assert forall|j: int| 0 <= j < pre.len() && item_passes(#[trigger] pre[j], c1, role) implies item_passes(pre[j], c2, role) by {
            assert(pre[j] == items[j]);
        }
        lemma_count_monotone(pre, c1, c2, role);
        assert(items.last() == items[items.len() - 1]);
    }
}

proof fn lemma_active_grows(c: Criteria, v: DbID, role: Role, f: Facet)
    requires
        is_active(f, role, c.sel),
    ensures
        is_active(f, role, with_value(c, v).sel),
{
    let w = choose|w: DbID| f.values@.contains(w) && c.sel.contains(w);
    assert(f.values@.contains(w) && with_value(c, v).sel.contains(w));
}

/// Selecting one more value of categories that already have a selection widens
/// them (OR within a category): no item that passed stops passing, so no
/// interval's count drops and no listed bucket goes.
pub proof fn lemma_value_of_active_category_widens(items: Seq<Item>, c: Criteria, v: DbID, role: Role)
    requires
        forall|i: int| 0 <= i < c.facets.len() && category_of(#[trigger] c.facets[i], role, v) ==> is_active(c.facets[i], role, c.sel),
    ensures
        forall|item: Item| item_passes(item, c, role) ==> #[trigger] item_passes(item, with_value(c, v), role),
        passing_count(items, c, role) <= passing_count(items, with_value(c, v), role),
        passing_coords(items, c, role).subset_of(passing_coords(items, with_value(c, v), role)),
{
    let c2 = with_value(c, v);
    assert forall|i: int| 0 <= i < c.facets.len() implies #[trigger] is_active(c2.facets[i], role, c2.sel) == is_active(
        c.facets[i],
        role,
        c.sel,
    ) by {
        let f = c.facets[i];
        if is_active(f, role, c.sel) {
            lemma_active_grows(c, v, role, f);
        }
        if is_active(f, role, c2.sel) {
            let w = choose|w: DbID| f.values@.contains(w) && c2.sel.contains(w);
            if !c.sel.contains(w) {
                assert(category_of(f, role, v));
            }
        }
    }
    assert forall|item: Item| item_passes(item, c, role) implies #[trigger] item_passes(item, c2, role) by {
        if c.unconstrained(role) {
            assert(c2.unconstrained(role));
        } else {
            let k = choose|k: int|
                0 <= k < item.facets@.len() && tuple_selected(#[trigger] item.facets@[k], c, role) && meets_bounds(item.facets@[k], c);
            let t = item.facets@[k];
            assert forall|i: int| 0 <= i < c2.facets.len() && is_active(#[trigger] c2.facets[i], role, c2.sel) implies exists|id: DbID|
                t.facet_ids@.contains(id) && c2.facets[i].values@.contains(id) && c2.sel.contains(id) by {
                assert(is_active(c.facets[i], role, c.sel));
                let id = choose|id: DbID| t.facet_ids@.contains(id) && c.facets[i].values@.contains(id) && c.sel.contains(id);
                assert(c2.sel.contains(id));
            }
            assert(tuple_selected(t, c2, role));
        }
    }
    assert forall|j: int| 0 <= j < items.len() && item_passes(#[trigger] items[j], c, role) implies item_passes(items[j], c2, role) by {}
    lemma_count_monotone(items, c, c2, role);
}

/// Selecting a value that belongs to no category with a selection yet makes its
/// categories active (AND across categories): no item that failed starts passing,
/// so no interval's count grows and no bucket is listed anew.
pub proof fn lemma_value_of_new_category_narrows(items: Seq<Item>, c: Criteria, v: DbID, role: Role)
    requires
        forall|i: int| 0 <= i < c.facets.len() && category_of(#[trigger] c.facets[i], role, v) ==> !is_active(c.facets[i], role, c.sel),
    ensures
        forall|item: Item| #[trigger] item_passes(item, with_value(c, v), role) ==> item_passes(item, c, role),
        passing_count(items, with_value(c, v), role) <= passing_count(items, c, role),
        passing_coords(items, with_value(c, v), role).subset_of(passing_coords(items, c, role)),
{
    let c2 = with_value(c, v);
    assert forall|item: Item| #[trigger] item_passes(item, c2, role) implies item_passes(item, c, role) by {
        if c2.unconstrained(role) {
            assert forall|i: int| 0 <= i < c.facets.len() implies !is_active(#[trigger] c.facets[i], role, c.sel) by {
                if is_active(c.facets[i], role, c.sel) {
                    lemma_active_grows(c, v, role, c.facets[i]);
                    assert(!is_active(c2.facets[i], role, c2.sel));
                }
            }
        } else if !c.unconstrained(role) {
            let k = choose|k: int|
                0 <= k < item.facets@.len() && tuple_selected(#[trigger] item.facets@[k], c2, role) && meets_bounds(item.facets@[k], c2);
            let t = item.facets@[k];
            assert forall|i: int| 0 <= i < c.facets.len() && is_active(#[trigger] c.facets[i], role, c.sel) implies exists|id: DbID|
                t.facet_ids@.contains(id) && c.facets[i].values@.contains(id) && c.sel.contains(id) by {
                lemma_active_grows(c, v, role, c.facets[i]);
                assert(is_active(c2.facets[i], role, c2.sel));
                let id = choose|id: DbID| t.facet_ids@.contains(id) && c2.facets[i].values@.contains(id) && c2.sel.contains(id);
                if id == v && !c.sel.contains(v) {
                    assert(category_of(c.facets[i], role, v));
                }
            }
            assert(tuple_selected(t, c, role));
        }
    }
    assert forall|j: int| 0 <= j < items.len() && item_passes(#[trigger] items[j], c2, role) implies item_passes(items[j], c, role) by {}
    lemma_count_monotone(items, c2, c, role);
}

// ---------------------------------------------------------------------------
// The fast path
// ---------------------------------------------------------------------------

/// The item passes by the test of its effects, with no shortcut for an
/// unconstrained role.
pub open spec fn passes_by_effects(item: Item, c: Criteria, role: Role) -> bool {
    feature_allowed(item, c) && exists|k: int|
        0 <= k < item.facets@.len() && tuple_selected(#[trigger] item.facets@[k], c, role) && meets_bounds(item.facets@[k], c)
}

/// Two criteria decide alike on every item and effect of `items`.
pub open spec fn same_decisions(items: Seq<Item>, c1: Criteria, c2: Criteria, role: Role) -> bool {
    &&& forall|j: int| 0 <= j < items.len() ==> item_passes(#[trigger] items[j], c1, role) == item_passes(items[j], c2, role)
    &&& forall|j: int, k: int|
        0 <= j < items.len() && 0 <= k < items[j].facets@.len() ==> tuple_observed(items[j], #[trigger] items[j].facets@[k], c1, role)
            == tuple_observed(items[j], items[j].facets@[k], c2, role)
}

proof fn lemma_same_tuples_extent(e: Option<FilterIntervals>, ts: Seq<EffectValues>, item: Item, c1: Criteria, c2: Criteria, role: Role)
    requires
        forall|k: int| 0 <= k < ts.len() ==> tuple_observed(item, #[trigger] ts[k], c1, role) == tuple_observed(item, ts[k], c2, role),
    ensures
        tuples_extent(e, ts, item, c1, role) == tuples_extent(e, ts, item, c2, role),
    decreases ts.len(),
{
    if ts.len() > 0 {
        let pre = ts.drop_last();
        assert forall|k: int| 0 <= k < pre.len() implies tuple_observed(item, #[trigger] pre[k], c1, role) == tuple_observed(item, pre[k], c2, role) by {
            assert(pre[k] == ts[k]);
        }
        lemma_same_tuples_extent(e, pre, item, c1, c2, role);
        assert(ts.last() == ts[ts.len() - 1]);
    }
}

proof fn lemma_same_items(e: Option<FilterIntervals>, items: Seq<Item>, c1: Criteria, c2: Criteria, role: Role)
    requires
        same_decisions(items, c1, c2, role),
    ensures
        passing_count(items, c1, role) == passing_count(items, c2, role),
        passing_coords(items, c1, role) == passing_coords(items, c2, role),
        passing_ids(items, c1, role) == passing_ids(items, c2, role),
        items_extent(e, items, c1, role) == items_extent(e, items, c2, role),
    decreases items.len(),
{
    if items.len() > 0 {
        let pre = items.drop_last();
        let last = items[items.len() - 1];
        assert(items.last() == last);
        assert(same_decisions(pre, c1, c2, role)) by {
            assert forall|j: int| 0 <= j < pre.len() implies item_passes(#[trigger] pre[j], c1, role) == item_passes(pre[j], c2, role) by {
                assert(pre[j] == items[j]);
            }
            assert forall|j: int, k: int| 0 <= j < pre.len() && 0 <= k < pre[j].facets@.len() implies tuple_observed(
                pre[j],
                #[trigger] pre[j].facets@[k],
                c1,
                role,
            ) == tuple_observed(pre[j], pre[j].facets@[k], c2, role) by {
                assert(pre[j] == items[j]);
            }
        }
        lemma_same_items(e, pre, c1, c2, role);
        assert(item_passes(items[items.len() - 1], c1, role) == item_passes(items[items.len() - 1], c2, role));
        assert forall|k: int| 0 <= k < last.facets@.len() implies tuple_observed(last, #[trigger] last.facets@[k], c1, role) == tuple_observed(
            last,
            last.facets@[k],
            c2,
            role,
        ) by {
            assert(items[items.len() - 1].facets@[k] == last.facets@[k]);
        }
        lemma_same_tuples_extent(items_extent(e, pre, c1, role), last.facets@, last, c1, c2, role);
    }
}

proof fn lemma_same_intervals(e: Option<FilterIntervals>, ivs: Seq<Interval>, c1: Criteria, c2: Criteria, role: Role)
    requires
        forall|i: int| 0 <= i < ivs.len() ==> same_decisions(#[trigger] ivs[i].values@, c1, c2, role),
    ensures
        kept_intervals(ivs, c1, role) == kept_intervals(ivs, c2, role),
        intervals_ids(ivs, c1, role) == intervals_ids(ivs, c2, role),
        intervals_extent(e, ivs, c1, role) == intervals_extent(e, ivs, c2, role),
        forall|i: int| 0 <= i < ivs.len() ==> {
            &&& passing_count(#[trigger] ivs[i].values@, c1, role) == passing_count(ivs[i].values@, c2, role)
            &&& passing_coords(ivs[i].values@, c1, role) == passing_coords(ivs[i].values@, c2, role)
        },
    decreases ivs.len(),
{
    if ivs.len() > 0 {
        let pre = ivs.drop_last();
        assert forall|i: int| 0 <= i < pre.len() implies same_decisions(#[trigger] pre[i].values@, c1, c2, role) by {
            assert(pre[i] == ivs[i]);
        }
        lemma_same_intervals(e, pre, c1, c2, role);
        let last = ivs[ivs.len() - 1];
        assert(ivs.last() == last);
        assert(same_decisions(last.values@, c1, c2, role));
        lemma_same_items(intervals_extent(e, pre, c1, role), last.values@, c1, c2, role);
        assert forall|i: int| 0 <= i < ivs.len() implies {
            &&& passing_count(#[trigger] ivs[i].values@, c1, role) == passing_count(ivs[i].values@, c2, role)
            &&& passing_coords(ivs[i].values@, c1, role) == passing_coords(ivs[i].values@, c2, role)
        } by {
            if i < pre.len() {
                assert(pre[i] == ivs[i]);
            } else {
                lemma_same_items(None, ivs[i].values@, c1, c2, role);
            }
        }
    }
}

proof fn lemma_kept_from(ivs: Seq<Interval>, c: Criteria, role: Role, x: int)
    requires
        0 <= x < kept_intervals(ivs, c, role).len(),
    ensures
        exists|i: int| 0 <= i < ivs.len() && ivs[i] == kept_intervals(ivs, c, role)[x],
        passing_count(kept_intervals(ivs, c, role)[x].values@, c, role) > 0,
    decreases ivs.len(),
{
    let pre = ivs.drop_last();
    let kp = kept_intervals(pre, c, role);
    assert(ivs.last() == ivs[ivs.len() - 1]);
    if x < kp.len() {
        lemma_kept_from(pre, c, role, x);
        let i = choose|i: int| 0 <= i < pre.len() && pre[i] == kp[x];
        assert(ivs[i] == pre[i]);
    } else {
        assert(kept_intervals(ivs, c, role)[x] == ivs[ivs.len() - 1]);
    }
}

/// Where the test of effects lets every item through and counts every effect
/// towards the extent, the fast path of an unconstrained role gives the same
/// result as that test: the same summaries of intervals, the same feature ids and
/// the same extent.
pub proof fn lemma_fast_path_equivalence(
    ivs: Seq<Interval>,
    fast: Criteria,
    general: Criteria,
    role: Role,
    e: Option<FilterIntervals>,
)
    requires
        fast.unconstrained(role),
        forall|i: int, j: int| 0 <= i < ivs.len() && 0 <= j < ivs[i].values@.len() ==> passes_by_effects(#[trigger] ivs[i].values@[j], general, role),
        forall|i: int, j: int, k: int|
            0 <= i < ivs.len() && 0 <= j < ivs[i].values@.len() && 0 <= k < ivs[i].values@[j].facets@.len() ==> tuple_observed(
                ivs[i].values@[j],
                #[trigger] ivs[i].values@[j].facets@[k],
                general,
                role,
            ),
    ensures
        forall|out: Seq<crate::filter::FilteredBucket>| #[trigger] describes_intervals(out, ivs, fast, role) == describes_intervals(out, ivs, general, role),
        intervals_ids(ivs, fast, role) == intervals_ids(ivs, general, role),
        intervals_extent(e, ivs, fast, role) == intervals_extent(e, ivs, general, role),
{
    assert forall|i: int| 0 <= i < ivs.len() implies same_decisions(#[trigger] ivs[i].values@, fast, general, role) by {
        let items = ivs[i].values@;
        assert forall|j: int| 0 <= j < items.len() implies item_passes(#[trigger] items[j], fast, role) == item_passes(items[j], general, role) by {
            assert(passes_by_effects(ivs[i].values@[j], general, role));
        }
        assert forall|j: int, k: int| 0 <= j < items.len() && 0 <= k < items[j].facets@.len() implies tuple_observed(
            items[j],
            #[trigger] items[j].facets@[k],
            fast,
            role,
        ) == tuple_observed(items[j], items[j].facets@[k], general, role) by {
            assert(tuple_observed(ivs[i].values@[j], ivs[i].values@[j].facets@[k], general, role));
            let t = items[j].facets@[k];
            assert(tuple_selected(t, fast, role));
        }
    }
    lemma_same_intervals(e, ivs, fast, general, role);
    let kept = kept_intervals(ivs, fast, role);
    assert forall|x: int| 0 <= x < kept.len() implies {
        &&& passing_count(#[trigger] kept[x].values@, fast, role) == passing_count(kept[x].values@, general, role)
        &&& passing_coords(kept[x].values@, fast, role) == passing_coords(kept[x].values@, general, role)
    } by {
        lemma_kept_from(ivs, fast, role, x);
        let i = choose|i: int| 0 <= i < ivs.len() && ivs[i] == kept[x];
        assert(passing_count(ivs[i].values@, fast, role) == passing_count(ivs[i].values@, general, role));
    }
}

// ---------------------------------------------------------------------------
// Two filter calls compared
// ---------------------------------------------------------------------------

/// Every summary of `lo` has a summary in `hi` with the same start, a count at
/// least as large and all of its buckets.
pub open spec fn dominated(lo: Seq<FilteredBucket>, hi: Seq<FilteredBucket>) -> bool {
    forall|x: int| 0 <= x < lo.len() ==> has_dominating(#[trigger] lo[x], hi)
}

/// Some summary of `hi` has the start of `b`, a count at least as large and all of its buckets.
pub open spec fn has_dominating(b: FilteredBucket, hi: Seq<FilteredBucket>) -> bool {
    exists|y: int|
        0 <= y < hi.len() && (#[trigger] hi[y]).start == b.start && b.count <= hi[y].count && listed_coords(
            b.associated_buckets@,
        ).subset_of(listed_coords(hi[y].associated_buckets@))
}

proof fn lemma_kept_contains(ivs: Seq<Interval>, c: Criteria, role: Role, i: int)
    requires
        0 <= i < ivs.len(),
        passing_count(ivs[i].values@, c, role) > 0,
    ensures
        exists|y: int| 0 <= y < kept_intervals(ivs, c, role).len() && kept_intervals(ivs, c, role)[y] == ivs[i],
    decreases ivs.len(),
{
    let pre = ivs.drop_last();
    assert(ivs.last() == ivs[ivs.len() - 1]);
    if i < ivs.len() - 1 {
        assert(pre[i] == ivs[i]);
        lemma_kept_contains(pre, c, role, i);
        let y = choose|y: int| 0 <= y < kept_intervals(pre, c, role).len() && kept_intervals(pre, c, role)[y] == pre[i];
        assert(kept_intervals(ivs, c, role)[y] == ivs[i]);
    } else {
        let k = kept_intervals(ivs, c, role);
        assert(k[k.len() - 1] == ivs[i]);
    }
}

/// Where every item passing `lo` also passes `hi`, the summaries that `lo` gives of
/// the same intervals are dominated by those of `hi`.
pub proof fn lemma_outputs_dominated(
    out_lo: Seq<FilteredBucket>,
    out_hi: Seq<FilteredBucket>,
    ivs: Seq<Interval>,
    lo: Criteria,
    hi: Criteria,
    role: Role,
)
    requires
        forall|item: Item| item_passes(item, lo, role) ==> #[trigger] item_passes(item, hi, role),
        describes_intervals(out_lo, ivs, lo, role),
        describes_intervals(out_hi, ivs, hi, role),
    ensures
        dominated(out_lo, out_hi),
{
    assert forall|x: int| 0 <= x < out_lo.len() implies has_dominating(#[trigger] out_lo[x], out_hi) by {
        lemma_kept_from(ivs, lo, role, x);
        let i = choose|i: int| 0 <= i < ivs.len() && ivs[i] == kept_intervals(ivs, lo, role)[x];
        let items = ivs[i].values@;
        assert forall|j: int| 0 <= j < items.len() && item_passes(#[trigger] items[j], lo, role) implies item_passes(items[j], hi, role) by {}
        lemma_count_monotone(items, lo, hi, role);
        assert(passing_count(items, lo, role) > 0);
        lemma_kept_contains(ivs, hi, role, i);
        let y = choose|y: int| 0 <= y < kept_intervals(ivs, hi, role).len() && kept_intervals(ivs, hi, role)[y] == ivs[i];
        assert(crate::filter::describes_interval(out_hi[y], ivs[i], hi, role));
        assert(crate::filter::describes_interval(out_lo[x], ivs[i], lo, role));
        assert(out_hi[y].start == out_lo[x].start);
    }
}

/// `filter2` is `filter` with the value `v` selected as well.
pub open spec fn adds_value(filter: Filter, filter2: Filter, v: DbID) -> bool {
    &&& filter2.categorical_facets@ == filter.categorical_facets@.push(v)
    &&& filter2.chrom == filter.chrom
    &&& filter2.numeric_intervals == filter.numeric_intervals
    &&& filter2.set_op_feature == filter.set_op_feature
}

proof fn lemma_adds_value_criteria(
    data: CoverageData,
    filter: Filter,
    filter2: Filter,
    features: Option<ExperimentFeatureData>,
    v: DbID,
    role: Role,
)
    requires
        adds_value(filter, filter2, v),
    ensures
        criteria(data, filter2, features, role) == with_value(criteria(data, filter, features, role), v),
        selected_chromosomes(data.chromosomes@, filter2) == selected_chromosomes(data.chromosomes@, filter),
{
    let s1 = filter.categorical_facets@;
    let s2 = filter2.categorical_facets@;
    assert forall|x: DbID| s2.to_set().contains(x) <==> s1.to_set().insert(v).contains(x) by {
        crate::filter::lemma_push_contains(s1, v, x);
    }
    assert(s2.to_set() =~= s1.to_set().insert(v));
    lemma_selected_same(data.chromosomes@, filter, filter2);
}

proof fn lemma_selected_same(chs: Seq<ChromosomeData>, f1: Filter, f2: Filter)
    requires
        f1.chrom == f2.chrom,
    ensures
        selected_chromosomes(chs, f1) == selected_chromosomes(chs, f2),
    decreases chs.len(),
{
    if chs.len() > 0 {
        lemma_selected_same(chs.drop_last(), f1, f2);
    }
}

/// Selecting one more value, of categories without a selection yet, narrows the
/// result of a filter call: each interval summary of the new result matches one
/// of the old with the same start, a count at least as large and all of its
/// buckets.
pub proof fn lemma_filter_narrows(
    data: CoverageData,
    filter: Filter,
    filter2: Filter,
    features: Option<ExperimentFeatureData>,
    v: DbID,
    b1: FilterIntervals,
    b2: FilterIntervals,
    fd1: FilteredData,
    fd2: FilteredData,
)
    requires
        adds_value(filter, filter2, v),
        forall|i: int|
            0 <= i < data.facets@.len() && (category_of(#[trigger] data.facets@[i], Role::Source, v) || category_of(
                data.facets@[i],
                Role::Target,
                v,
            )) ==> !is_active(data.facets@[i], Role::Source, crate::filter::selection(filter)) && !is_active(
                data.facets@[i],
                Role::Target,
                crate::filter::selection(filter),
            ),
        filtered_as_specified(fd1, data, filter, features, b1),
        filtered_as_specified(fd2, data, filter2, features, b2),
    ensures
        fd2.chromosomes@.len() == fd1.chromosomes@.len(),
        forall|i: int|
            0 <= i < fd2.chromosomes@.len() ==> {
                &&& dominated((#[trigger] fd2.chromosomes@[i]).source_intervals@, fd1.chromosomes@[i].source_intervals@)
                &&& dominated(fd2.chromosomes@[i].target_intervals@, fd1.chromosomes@[i].target_intervals@)
            },
{
    let sel = selected_chromosomes(data.chromosomes@, filter);
    lemma_adds_value_criteria(data, filter, filter2, features, v, Role::Source);
    lemma_adds_value_criteria(data, filter, filter2, features, v, Role::Target);
    let cs = criteria(data, filter, features, Role::Source);
    let ct = criteria(data, filter, features, Role::Target);
    lemma_value_of_new_category_narrows(Seq::empty(), cs, v, Role::Source);
    lemma_value_of_new_category_narrows(Seq::empty(), ct, v, Role::Target);
    assert forall|i: int| 0 <= i < fd2.chromosomes@.len() implies {
        &&& dominated((#[trigger] fd2.chromosomes@[i]).source_intervals@, fd1.chromosomes@[i].source_intervals@)
        &&& dominated(fd2.chromosomes@[i].target_intervals@, fd1.chromosomes@[i].target_intervals@)
    } by {
        assert(describes_chromosome(fd1.chromosomes@[i], sel[i], cs, ct));
        assert(describes_chromosome(fd2.chromosomes@[i], sel[i], with_value(cs, v), with_value(ct, v)));
        lemma_outputs_dominated(
            fd2.chromosomes@[i].source_intervals@,
            fd1.chromosomes@[i].source_intervals@,
            sel[i].source_intervals@,
            with_value(cs, v),
            cs,
            Role::Source,
        );
        lemma_outputs_dominated(
            fd2.chromosomes@[i].target_intervals@,
            fd1.chromosomes@[i].target_intervals@,
            sel[i].target_intervals@,
            with_value(ct, v),
            ct,
            Role::Target,
        );
    }
}

/// Selecting one more value of categories that already have a selection widens
/// the result of a filter call: each interval summary of the old result matches
/// one of the new with the same start, a count at least as large and all of its
/// buckets.
pub proof fn lemma_filter_widens(
    data: CoverageData,
    filter: Filter,
    filter2: Filter,
    features: Option<ExperimentFeatureData>,
    v: DbID,
    b1: FilterIntervals,
    b2: FilterIntervals,
    fd1: FilteredData,
    fd2: FilteredData,
)
    requires
        adds_value(filter, filter2, v),
        forall|i: int|
            0 <= i < data.facets@.len() ==> (category_of(#[trigger] data.facets@[i], Role::Source, v) ==> is_active(
                data.facets@[i],
                Role::Source,
                crate::filter::selection(filter),
            )) && (category_of(data.facets@[i], Role::Target, v) ==> is_active(
                data.facets@[i],
                Role::Target,
                crate::filter::selection(filter),
            )),
        filtered_as_specified(fd1, data, filter, features, b1),
        filtered_as_specified(fd2, data, filter2, features, b2),
    ensures
        fd2.chromosomes@.len() == fd1.chromosomes@.len(),
        forall|i: int|
            0 <= i < fd1.chromosomes@.len() ==> {
                &&& dominated((#[trigger] fd1.chromosomes@[i]).source_intervals@, fd2.chromosomes@[i].source_intervals@)
                &&& dominated(fd1.chromosomes@[i].target_intervals@, fd2.chromosomes@[i].target_intervals@)
            },
{
    let sel = selected_chromosomes(data.chromosomes@, filter);
    lemma_adds_value_criteria(data, filter, filter2, features, v, Role::Source);
    lemma_adds_value_criteria(data, filter, filter2, features, v, Role::Target);
    let cs = criteria(data, filter, features, Role::Source);
    let ct = criteria(data, filter, features, Role::Target);
    lemma_value_of_active_category_widens(Seq::empty(), cs, v, Role::Source);
    lemma_value_of_active_category_widens(Seq::empty(), ct, v, Role::Target);
    assert forall|i: int| 0 <= i < fd1.chromosomes@.len() implies {
        &&& dominated((#[trigger] fd1.chromosomes@[i]).source_intervals@, fd2.chromosomes@[i].source_intervals@)
        &&& dominated(fd1.chromosomes@[i].target_intervals@, fd2.chromosomes@[i].target_intervals@)
    } by {
        assert(describes_chromosome(fd1.chromosomes@[i], sel[i], cs, ct));
        assert(describes_chromosome(fd2.chromosomes@[i], sel[i], with_value(cs, v), with_value(ct, v)));
        lemma_outputs_dominated(
            fd1.chromosomes@[i].source_intervals@,
            fd2.chromosomes@[i].source_intervals@,
            sel[i].source_intervals@,
            cs,
            with_value(cs, v),
            Role::Source,
        );
        lemma_outputs_dominated(
            fd1.chromosomes@[i].target_intervals@,
            fd2.chromosomes@[i].target_intervals@,
            sel[i].target_intervals@,
            ct,
            with_value(ct, v),
            Role::Target,
        );
    }
}

proof fn lemma_summaries_count_passing(out: Seq<FilteredBucket>, ivs: Seq<Interval>, c: Criteria, role: Role, b: FilterIntervals)
    requires
        c.bounds == Some(b),
        describes_intervals(out, ivs, c, role),
    ensures
        forall|x: int|
            0 <= x < out.len() ==> (#[trigger] out[x]).count >= 1 && exists|i: int|
                0 <= i < ivs.len() && ivs[i].start == out[x].start && out[x].count == passing_count(ivs[i].values@, c, role),
        forall|item: Item| #[trigger] item_passes(item, c, role) ==> exists|k: int|
            0 <= k < item.facets@.len() && in_bounds(#[trigger] item.facets@[k], b),
{
    assert forall|x: int| 0 <= x < out.len() implies (#[trigger] out[x]).count >= 1 && exists|i: int|
        0 <= i < ivs.len() && ivs[i].start == out[x].start && out[x].count == passing_count(ivs[i].values@, c, role) by {
        lemma_kept_from(ivs, c, role, x);
        let i = choose|i: int| 0 <= i < ivs.len() && ivs[i] == kept_intervals(ivs, c, role)[x];
        assert(crate::filter::describes_interval(out[x], ivs[i], c, role));
    }
    assert forall|item: Item| #[trigger] item_passes(item, c, role) implies exists|k: int|
        0 <= k < item.facets@.len() && in_bounds(#[trigger] item.facets@[k], b) by {
        lemma_passing_item_in_bounds(item, c, role, b);
    }
}

/// Under requested bounds, a filter call reports only intervals with at least
/// one passing item, each counting exactly the items of its interval that pass;
/// and every item that passes has an effect whose scores lie within the bounds.
pub proof fn lemma_filter_counts_within_bounds(
    fd: FilteredData,
    data: CoverageData,
    filter: Filter,
    features: Option<ExperimentFeatureData>,
    b: FilterIntervals,
    fb: FilterIntervals,
)
    requires
        filter.numeric_intervals == Some(b),
        filtered_as_specified(fd, data, filter, features, fb),
    ensures
        forall|i: int, x: int|
            0 <= i < fd.chromosomes@.len() && 0 <= x < fd.chromosomes@[i].source_intervals@.len() ==> (#[trigger] fd.chromosomes@[i].source_intervals@[x]).count >= 1,
        forall|i: int, x: int|
            0 <= i < fd.chromosomes@.len() && 0 <= x < fd.chromosomes@[i].target_intervals@.len() ==> (#[trigger] fd.chromosomes@[i].target_intervals@[x]).count >= 1,
        forall|item: Item, role: Role| #[trigger] item_passes(item, criteria(data, filter, features, role), role) ==> exists|k: int|
            0 <= k < item.facets@.len() && in_bounds(#[trigger] item.facets@[k], b),
{
    let sel = selected_chromosomes(data.chromosomes@, filter);
    let cs = criteria(data, filter, features, Role::Source);
    let ct = criteria(data, filter, features, Role::Target);
    assert forall|i: int, x: int|
        0 <= i < fd.chromosomes@.len() && 0 <= x < fd.chromosomes@[i].source_intervals@.len() implies (#[trigger] fd.chromosomes@[i].source_intervals@[x]).count >= 1 by {
        assert(describes_chromosome(fd.chromosomes@[i], sel[i], cs, ct));
        lemma_summaries_count_passing(fd.chromosomes@[i].source_intervals@, sel[i].source_intervals@, cs, Role::Source, b);
    }
    assert forall|i: int, x: int|
        0 <= i < fd.chromosomes@.len() && 0 <= x < fd.chromosomes@[i].target_intervals@.len() implies (#[trigger] fd.chromosomes@[i].target_intervals@[x]).count >= 1 by {
        assert(describes_chromosome(fd.chromosomes@[i], sel[i], cs, ct));
        lemma_summaries_count_passing(fd.chromosomes@[i].target_intervals@, sel[i].target_intervals@, ct, Role::Target, b);
    }
    assert forall|item: Item, role: Role| #[trigger] item_passes(item, criteria(data, filter, features, role), role) implies exists|k: int|
        0 <= k < item.facets@.len() && in_bounds(#[trigger] item.facets@[k], b) by {
        lemma_passing_item_in_bounds(item, criteria(data, filter, features, role), role, b);
    }
}

} // verus!
