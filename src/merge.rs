//! Reassembles filtered results that were computed separately, for instance one
//! per group of chromosomes.

use crate::filter::{max_i64, min_i64, FilterIntervals, FilteredChromosome, FilteredChromosomeView, FilteredData};
use crate::ids::{treemap_ids, union_with};
use crate::model::ScoreRange;
use vstd::seq_lib::{commutative_foldl, lemma_fold_left_permutation};
use vstd::prelude::*;

verus! {

#[derive(Clone, Copy, Debug, PartialEq, Eq, Structural)]
pub enum MergeError {
    /// There is nothing to merge: with no parts there is no score extent to
    /// report, neither of a part nor of a dataset to fall back on.
    NoParts,
    /// A chromosome of the order is in no part.
    MissingChromosome,
    /// A chromosome of the order is in more than one place.
    DuplicateChromosome,
}

/// How many chromosomes of `chs` are named `name`.
pub open spec fn named_in(chs: Seq<FilteredChromosome>, name: Seq<char>) -> nat
    decreases chs.len(),
{
    if chs.len() == 0 {
        0
    } else {
        named_in(chs.drop_last(), name) + if chs.last().chrom@ == name { 1nat } else { 0nat }
    }
}

/// How many chromosomes named `name` the parts hold together.
pub open spec fn name_count(parts: Seq<FilteredData>, name: Seq<char>) -> nat
    decreases parts.len(),
{
    if parts.len() == 0 {
        0
    } else {
        name_count(parts.drop_last(), name) + named_in(parts.last().chromosomes@, name)
    }
}

pub open spec fn name_error(parts: Seq<FilteredData>, name: Seq<char>) -> Option<MergeError> {
    let n = name_count(parts, name);
    if n == 0 {
        Some(MergeError::MissingChromosome)
    } else if n > 1 {
        Some(MergeError::DuplicateChromosome)
    } else {
        None
    }
}

/// The error of the first name of `order` that the parts do not hold exactly once.
pub open spec fn order_error(parts: Seq<FilteredData>, order: Seq<String>) -> Option<MergeError>
    decreases order.len(),
{
    if order.len() == 0 {
        None
    } else {
        match order_error(parts, order.drop_last()) {
            Some(e) => Some(e),
            None => name_error(parts, order.last()@),
        }
    }
}

pub open spec fn merge_error(parts: Seq<FilteredData>, order: Seq<String>) -> Option<MergeError> {
    if parts.len() == 0 {
        Some(MergeError::NoParts)
    } else {
        order_error(parts, order)
    }
}

/// The smallest bounds holding both `a` and `b`.
pub open spec fn hull(a: FilterIntervals, b: FilterIntervals) -> FilterIntervals {
    FilterIntervals {
        effect: ScoreRange { min: min_i64(a.effect.min, b.effect.min), max: max_i64(a.effect.max, b.effect.max) },
        sig: ScoreRange { min: min_i64(a.sig.min, b.sig.min), max: max_i64(a.sig.max, b.sig.max) },
    }
}

pub open spec fn min_u32(a: u32, b: u32) -> u32 {
    if a <= b { a } else { b }
}

/// The smallest bucket size of the parts. (Each filtered chromosome keeps its
/// own bucket size; the root one does not depend on the order of the parts.)
pub open spec fn parts_bucket_size(parts: Seq<FilteredData>) -> u32
    recommends
        parts.len() > 0,
    decreases parts.len(),
{
    if parts.len() <= 1 {
        parts[0].bucket_size
    } else {
        min_u32(parts_bucket_size(parts.drop_last()), parts.last().bucket_size)
    }
}

/// The smallest bounds holding the score extents of all parts.
pub open spec fn parts_extent(parts: Seq<FilteredData>) -> FilterIntervals
    recommends
        parts.len() > 0,
    decreases parts.len(),
{
    if parts.len() <= 1 {
        parts[0].numeric_intervals
    } else {
        hull(parts_extent(parts.drop_last()), parts.last().numeric_intervals)
    }
}

pub open spec fn parts_sources(parts: Seq<FilteredData>) -> Set<u64>
    decreases parts.len(),
{
    if parts.len() == 0 {
        Set::empty()
    } else {
        parts_sources(parts.drop_last()).union(treemap_ids(parts.last().sources))
    }
}

pub open spec fn parts_targets(parts: Seq<FilteredData>) -> Set<u64>
    decreases parts.len(),
{
    if parts.len() == 0 {
        Set::empty()
    } else {
        parts_targets(parts.drop_last()).union(treemap_ids(parts.last().targets))
    }
}

/// Some part holds a chromosome named `name` with the contents `v`.
pub open spec fn held_under(v: FilteredChromosomeView, parts: Seq<FilteredData>, name: Seq<char>) -> bool {
    exists|p: int, c: int|
        0 <= p < parts.len() && 0 <= c < parts[p].chromosomes@.len() && #[trigger] parts[p].chromosomes@[c].chrom@ == name
            && v == parts[p].chromosomes@[c]@
}

/// The chromosome at position `k` of the result is the one that the parts hold
/// under the `k`-th name of the order.
pub open spec fn picked(r: FilteredData, parts: Seq<FilteredData>, order: Seq<String>, k: int) -> bool {
    held_under(r.chromosomes@[k]@, parts, order[k]@)
}

/// `r` is the merge of `parts` in the chromosome order `order`.
pub open spec fn merged_as_specified(r: FilteredData, parts: Seq<FilteredData>, order: Seq<String>) -> bool {
    &&& r.chromosomes@.len() == order.len()
    &&& forall|k: int| 0 <= k < order.len() ==> #[trigger] picked(r, parts, order, k)
    &&& r.bucket_size == parts_bucket_size(parts)
    &&& r.numeric_intervals == parts_extent(parts)
    &&& treemap_ids(r.sources) == parts_sources(parts)
    &&& treemap_ids(r.targets) == parts_targets(parts)
}

proof fn lemma_order_error_sticks(parts: Seq<FilteredData>, order: Seq<String>, k: int)
    requires
        0 <= k <= order.len(),
        order_error(parts, order.subrange(0, k)) is Some,
    ensures
        order_error(parts, order) == order_error(parts, order.subrange(0, k)),
    decreases order.len() - k,
{
    if order.len() == k {
        assert(order.subrange(0, k) =~= order);
    } else {
        assert(order.drop_last().subrange(0, k) =~= order.subrange(0, k));
        lemma_order_error_sticks(parts, order.drop_last(), k);
    }
}

/// Finds the one chromosome named `name`.
fn locate(parts: &Vec<FilteredData>, name: &String) -> (r: Result<(usize, usize), MergeError>)
    ensures
        match name_error(parts@, name@) {
            Some(e) => r == Err::<(usize, usize), MergeError>(e),
            None => r is Ok && {
                let (p, c) = r->Ok_0;
                &&& p < parts@.len()
                &&& c < parts@[p as int].chromosomes@.len()
                &&& parts@[p as int].chromosomes@[c as int].chrom@ == name@
            },
        },
{
    let mut found: Option<(usize, usize)> = None;
    let mut dup = false;
    let mut p: usize = 0;
    while p < parts.len()
        invariant
            p <= parts@.len(),
            found is None <==> name_count(parts@.subrange(0, p as int), name@) == 0,
            dup <==> name_count(parts@.subrange(0, p as int), name@) > 1,
            found matches Some((fp, fc)) ==> fp < parts@.len() && fc < parts@[fp as int].chromosomes@.len()
                && parts@[fp as int].chromosomes@[fc as int].chrom@ == name@,
        decreases parts@.len() - p,
    {
        let chs = &parts[p].chromosomes;
        let ghost base = name_count(parts@.subrange(0, p as int), name@);
        let mut c: usize = 0;
        while c < chs.len()
            invariant
                p < parts@.len(),
                chs == parts@[p as int].chromosomes,
                c <= chs@.len(),
                found is None <==> base + named_in(chs@.subrange(0, c as int), name@) == 0,
                dup <==> base + named_in(chs@.subrange(0, c as int), name@) > 1,
                found matches Some((fp, fc)) ==> fp < parts@.len() && fc < parts@[fp as int].chromosomes@.len()
                    && parts@[fp as int].chromosomes@[fc as int].chrom@ == name@,
            decreases chs@.len() - c,
        {
            proof {
                let cur = chs@.subrange(0, c + 1);
                assert(cur.drop_last() =~= chs@.subrange(0, c as int));
                assert(cur.last() == chs@[c as int]);
            }
            if chs[c].chrom == *name {
                if found.is_some() {
                    dup = true;
                } else {
                    found = Some((p, c));
                }
            }
            c = c + 1;
        }
        proof {
            let cur = parts@.subrange(0, p + 1);
            assert(cur.drop_last() =~= parts@.subrange(0, p as int));
            assert(cur.last() == parts@[p as int]);
            assert(chs@.subrange(0, chs@.len() as int) =~= chs@);
        }
        p = p + 1;
    }
    assert(parts@.subrange(0, parts@.len() as int) =~= parts@);
    match found {
        None => Err(MergeError::MissingChromosome),
        Some(at) => if dup {
            Err(MergeError::DuplicateChromosome)
        } else {
            Ok(at)
        },
    }
}

fn hull_exec(a: FilterIntervals, b: FilterIntervals) -> (r: FilterIntervals)
    ensures
        r == hull(a, b),
{
    FilterIntervals {
        effect: ScoreRange {
            min: if a.effect.min <= b.effect.min { a.effect.min } else { b.effect.min },
            max: if a.effect.max >= b.effect.max { a.effect.max } else { b.effect.max },
        },
        sig: ScoreRange {
            min: if a.sig.min <= b.sig.min { a.sig.min } else { b.sig.min },
            max: if a.sig.max >= b.sig.max { a.sig.max } else { b.sig.max },
        },
    }
}

/// Every reordering of `parts` gives the same error, or none.
pub open spec fn errors_ignore_part_order(parts: Seq<FilteredData>, order: Seq<String>) -> bool {
    forall|perm: Seq<FilteredData>|
        #[trigger] perm.to_multiset() == parts.to_multiset() ==> merge_error(perm, order) == merge_error(parts, order)
}

/// Merges filtered results, putting their chromosomes in the order that
/// `chromosome_list` names them. The order of the parts does not matter. Each
/// chromosome keeps its own bucket size; the root bucket size is the smallest of
/// the parts'. The score extent is the hull of the parts'
/// extents, and the feature ids are the union of theirs.
pub fn merge_filtered_data(result_data: Vec<FilteredData>, chromosome_list: Vec<String>) -> (r: Result<
    FilteredData,
    MergeError,
>)
    ensures
        match merge_error(result_data@, chromosome_list@) {
            Some(e) => r == Err::<FilteredData, MergeError>(e),
            None => r is Ok && merged_as_specified(r->Ok_0, result_data@, chromosome_list@),
        },
        forall|perm: Seq<FilteredData>|
            #[trigger] perm.to_multiset() == result_data@.to_multiset() ==> merge_error(perm, chromosome_list@) == merge_error(
                result_data@,
                chromosome_list@,
            ),
        r is Ok ==> forall|perm: Seq<FilteredData>, other: FilteredData|
            perm.to_multiset() == result_data@.to_multiset() && #[trigger] merged_as_specified(other, perm, chromosome_list@)
                ==> other@ == r->Ok_0@,
{
    proof {
        assert forall|perm: Seq<FilteredData>|
            #[trigger] perm.to_multiset() == result_data@.to_multiset() implies merge_error(perm, chromosome_list@) == merge_error(
            result_data@,
            chromosome_list@,
        ) by {
            lemma_merge_ignores_part_order(result_data@, perm, chromosome_list@, arbitrary(), arbitrary());
        }
        assert(errors_ignore_part_order(result_data@, chromosome_list@));
    }
    let parts = &result_data;
    let order = &chromosome_list;
    if parts.len() == 0 {
        return Err(MergeError::NoParts);
    }
    let mut chromosomes: Vec<FilteredChromosome> = Vec::new();
    let mut k: usize = 0;
    while k < order.len()
        invariant
            parts@ == result_data@,
            order@ == chromosome_list@,
            errors_ignore_part_order(result_data@, chromosome_list@),
            parts@.len() > 0,
            k <= order@.len(),
            order_error(parts@, order@.subrange(0, k as int)) is None,
            chromosomes@.len() == k,
            forall|j: int| 0 <= j < k ==> held_under(#[trigger] chromosomes@[j]@, parts@, order@[j]@),
        decreases order@.len() - k,
    {
        proof {
            let cur = order@.subrange(0, k + 1);
            assert(cur.drop_last() =~= order@.subrange(0, k as int));
            assert(cur.last() == order@[k as int]);
        }
        match locate(parts, &order[k]) {
            Err(e) => {
                proof {
                    assert(name_error(parts@, order@[k as int]@) == Some(e));
                    assert(order_error(parts@, order@.subrange(0, k + 1)) == Some(e));
                    lemma_order_error_sticks(parts@, order@, k + 1);
                }
                return Err(e);
            },
            Ok((p, c)) => {
                let ch = parts[p].chromosomes[c].duplicate();
                let ghost before = chromosomes@;
                chromosomes.push(ch);
                proof {
                    assert forall|j: int| 0 <= j < k + 1 implies held_under(#[trigger] chromosomes@[j]@, parts@, order@[j]@) by {
                        if j < k {
                            assert(chromosomes@[j] == before[j]);
                        } else {
                            assert(parts@[p as int].chromosomes@[c as int].chrom@ == order@[j]@);
                        }
                    }
                }
            },
        }
        k = k + 1;
    }
    assert(order@.subrange(0, order@.len() as int) =~= order@);
    let mut ext = parts[0].numeric_intervals;
    let mut sources = parts[0].sources.clone();
    let mut targets = parts[0].targets.clone();
    proof {
        let first = parts@.subrange(0, 1);
        assert(first.drop_last() =~= Seq::<FilteredData>::empty());
        assert(first.last() == parts@[0]);
        assert(parts_sources(first.drop_last()) == Set::<u64>::empty());
        assert(parts_targets(first.drop_last()) == Set::<u64>::empty());
        assert(treemap_ids(sources) =~= parts_sources(first));
        assert(treemap_ids(targets) =~= parts_targets(first));
    }
    let mut size = parts[0].bucket_size;
    let mut p: usize = 1;
    while p < parts.len()
        invariant
            parts@ == result_data@,
            1 <= p <= parts@.len(),
            size == parts_bucket_size(parts@.subrange(0, p as int)),
            ext == parts_extent(parts@.subrange(0, p as int)),
            treemap_ids(sources) == parts_sources(parts@.subrange(0, p as int)),
            treemap_ids(targets) == parts_targets(parts@.subrange(0, p as int)),
        decreases parts@.len() - p,
    {
        proof {
            let cur = parts@.subrange(0, p + 1);
            assert(cur.drop_last() =~= parts@.subrange(0, p as int));
            assert(cur.last() == parts@[p as int]);
        }
        ext = hull_exec(ext, parts[p].numeric_intervals);
        if parts[p].bucket_size < size {
            size = parts[p].bucket_size;
        }
        union_with(&mut sources, &parts[p].sources);
        union_with(&mut targets, &parts[p].targets);
        p = p + 1;
    }
    assert(parts@.subrange(0, parts@.len() as int) =~= parts@);
    let r = FilteredData {
        chromosomes,
        bucket_size: size,
        numeric_intervals: ext,
        sources,
        targets,
    };
    assert forall|k: int| 0 <= k < order@.len() implies #[trigger] picked(r, parts@, order@, k) by {}
    proof {
        assert forall|perm: Seq<FilteredData>, other: FilteredData|
            perm.to_multiset() == result_data@.to_multiset() && #[trigger] merged_as_specified(other, perm, chromosome_list@)
                implies other@ == r@ by {
            lemma_merge_ignores_part_order(result_data@, perm, chromosome_list@, r, other);
        }
    }
    Ok(r)
}

proof fn lemma_named_in_absent(chs: Seq<FilteredChromosome>, name: Seq<char>)
    requires
        forall|i: int| 0 <= i < chs.len() ==> (#[trigger] chs[i]).chrom@ != name,
    ensures
        named_in(chs, name) == 0,
    decreases chs.len(),
{
    if chs.len() > 0 {
        let pre = chs.drop_last();
        assert forall|i: int| 0 <= i < pre.len() implies (#[trigger] pre[i]).chrom@ != name by {
            assert(pre[i] == chs[i]);
        }
        lemma_named_in_absent(pre, name);
        assert(chs.last() == chs[chs.len() - 1]);
    }
}

proof fn lemma_named_in_distinct(chs: Seq<FilteredChromosome>, k: int)
    requires
        0 <= k < chs.len(),
        forall|i: int, j: int| 0 <= i < chs.len() && 0 <= j < chs.len() && i != j ==> (#[trigger] chs[i]).chrom@ != (#[trigger] chs[j]).chrom@,
    ensures
        named_in(chs, chs[k].chrom@) == 1,
    decreases chs.len(),
{
    let pre = chs.drop_last();
    let name = chs[k].chrom@;
    assert(chs.last() == chs[chs.len() - 1]);
    if k == chs.len() - 1 {
        assert forall|i: int| 0 <= i < pre.len() implies (#[trigger] pre[i]).chrom@ != name by {
            assert(pre[i] == chs[i]);
        }
        lemma_named_in_absent(pre, name);
    } else {
        assert forall|i: int, j: int| 0 <= i < pre.len() && 0 <= j < pre.len() && i != j implies (#[trigger] pre[i]).chrom@
            != (#[trigger] pre[j]).chrom@ by {
            assert(pre[i] == chs[i]);
            assert(pre[j] == chs[j]);
        }
        assert(pre[k] == chs[k]);
        lemma_named_in_distinct(pre, k);
    }
}

proof fn lemma_single_part_names(x: FilteredData, name: Seq<char>)
    ensures
        name_count(seq![x], name) == named_in(x.chromosomes@, name),
{
    let parts = seq![x];
    assert(parts.drop_last() =~= Seq::<FilteredData>::empty());
    assert(name_count(Seq::<FilteredData>::empty(), name) == 0);
    assert(parts.last() == x);
}

spec fn holds_name(chs: Seq<FilteredChromosome>, name: Seq<char>) -> bool {
    exists|c: int| 0 <= c < chs.len() && #[trigger] chs[c].chrom@ == name
}

proof fn lemma_single_part_no_error(x: FilteredData, order: Seq<String>)
    requires
        forall|k: int| 0 <= k < order.len() ==> #[trigger] holds_name(x.chromosomes@, order[k]@),
        forall|i: int, j: int|
            0 <= i < x.chromosomes@.len() && 0 <= j < x.chromosomes@.len() && i != j ==> (#[trigger] x.chromosomes@[i]).chrom@
                != (#[trigger] x.chromosomes@[j]).chrom@,
    ensures
        order_error(seq![x], order) is None,
    decreases order.len(),
{
    if order.len() > 0 {
        let pre = order.drop_last();
        assert forall|k: int| 0 <= k < pre.len() implies #[trigger] holds_name(x.chromosomes@, pre[k]@) by {
            assert(pre[k] == order[k]);
            assert(holds_name(x.chromosomes@, order[k]@));
        }
        lemma_single_part_no_error(x, pre);
        let name = order.last()@;
        assert(order.last() == order[order.len() - 1]);
        assert(holds_name(x.chromosomes@, order[order.len() - 1]@));
        let c = choose|c: int| 0 <= c < x.chromosomes@.len() && #[trigger] x.chromosomes@[c].chrom@ == name;
        lemma_named_in_distinct(x.chromosomes@, c);
        lemma_single_part_names(x, name);
    }
}

/// Merging a single filtered result, in the order of its own chromosomes, gives it
/// back. Its chromosome names are distinct, as those of a dataset are: a name that
/// repeats is refused as a duplicate.
pub proof fn lemma_merge_single(x: FilteredData, order: Seq<String>, r: FilteredData)
    requires
        order.len() == x.chromosomes@.len(),
        forall|k: int| 0 <= k < order.len() ==> #[trigger] order[k]@ == x.chromosomes@[k].chrom@,
        forall|i: int, j: int|
            0 <= i < x.chromosomes@.len() && 0 <= j < x.chromosomes@.len() && i != j ==> (#[trigger] x.chromosomes@[i]).chrom@
                != (#[trigger] x.chromosomes@[j]).chrom@,
    ensures
        merge_error(seq![x], order) is None,
        merged_as_specified(r, seq![x], order) ==> r@ == x@,
{
    let parts = seq![x];
    assert forall|k: int| 0 <= k < order.len() implies #[trigger] holds_name(x.chromosomes@, order[k]@) by {
        assert(x.chromosomes@[k].chrom@ == order[k]@);
    }
    lemma_single_part_no_error(x, order);
    if merged_as_specified(r, parts, order) {
        assert forall|k: int| 0 <= k < r.chromosomes@.len() implies #[trigger] r.chromosomes@[k]@ == x.chromosomes@[k]@ by {
            assert(picked(r, parts, order, k));
            let (p, c) = choose|p: int, c: int|
                0 <= p < parts.len() && 0 <= c < parts[p].chromosomes@.len() && #[trigger] parts[p].chromosomes@[c].chrom@
                    == order[k]@ && r.chromosomes@[k]@ == parts[p].chromosomes@[c]@;
            assert(parts[p] == x);
            assert(order[k]@ == x.chromosomes@[k].chrom@);
            assert(c == k);
        }
        assert(crate::filter::chromosome_views(r.chromosomes@) =~= crate::filter::chromosome_views(x.chromosomes@));
        assert(parts.drop_last() =~= Seq::<FilteredData>::empty());
        assert(parts.last() == x);
        assert(parts_sources(Seq::<FilteredData>::empty()) == Set::<u64>::empty());
        assert(parts_targets(Seq::<FilteredData>::empty()) == Set::<u64>::empty());
        assert(parts_sources(parts) =~= treemap_ids(x.sources));
        assert(parts_targets(parts) =~= treemap_ids(x.targets));
    }
}

// ---------------------------------------------------------------------------
// The order of the parts does not matter
// ---------------------------------------------------------------------------

spec fn count_step(name: Seq<char>) -> spec_fn(nat, FilteredData) -> nat {
    |acc: nat, p: FilteredData| acc + named_in(p.chromosomes@, name)
}

spec fn sources_step() -> spec_fn(Set<u64>, FilteredData) -> Set<u64> {
    |acc: Set<u64>, p: FilteredData| acc.union(treemap_ids(p.sources))
}

spec fn targets_step() -> spec_fn(Set<u64>, FilteredData) -> Set<u64> {
    |acc: Set<u64>, p: FilteredData| acc.union(treemap_ids(p.targets))
}

spec fn size_step() -> spec_fn(Option<u32>, FilteredData) -> Option<u32> {
    |acc: Option<u32>, p: FilteredData|
        Some(
            match acc {
                None => p.bucket_size,
                Some(b) => min_u32(b, p.bucket_size),
            },
        )
}

spec fn extent_step() -> spec_fn(Option<FilterIntervals>, FilteredData) -> Option<FilterIntervals> {
    |acc: Option<FilterIntervals>, p: FilteredData|
        Some(
            match acc {
                None => p.numeric_intervals,
                Some(e) => hull(e, p.numeric_intervals),
            },
        )
}

proof fn lemma_folds(parts: Seq<FilteredData>, name: Seq<char>)
    ensures
        name_count(parts, name) == parts.fold_left(0nat, count_step(name)),
        parts_sources(parts) == parts.fold_left(Set::<u64>::empty(), sources_step()),
        parts_targets(parts) == parts.fold_left(Set::<u64>::empty(), targets_step()),
        parts.len() > 0 ==> Some(parts_extent(parts)) == parts.fold_left(None, extent_step()),
        parts.len() > 0 ==> Some(parts_bucket_size(parts)) == parts.fold_left(None, size_step()),
    decreases parts.len(),
{
    if parts.len() > 0 {
        lemma_folds(parts.drop_last(), name);
        if parts.len() == 1 {
            assert(parts.drop_last().fold_left(None, extent_step()) == None::<FilterIntervals>);
            assert(parts.drop_last().fold_left(None, size_step()) == None::<u32>);
        }
    }
}

proof fn lemma_steps_commute(name: Seq<char>)
    ensures
        commutative_foldl(count_step(name)),
        commutative_foldl(sources_step()),
        commutative_foldl(targets_step()),
        commutative_foldl(extent_step()),
        commutative_foldl(size_step()),
{
    assert forall|x: FilteredData, y: FilteredData, v: Set<u64>|
        #[trigger] sources_step()(sources_step()(v, x), y) == sources_step()(sources_step()(v, y), x) by {
        assert(sources_step()(sources_step()(v, x), y) =~= sources_step()(sources_step()(v, y), x));
    }
    assert forall|x: FilteredData, y: FilteredData, v: Set<u64>|
        #[trigger] targets_step()(targets_step()(v, x), y) == targets_step()(targets_step()(v, y), x) by {
        assert(targets_step()(targets_step()(v, x), y) =~= targets_step()(targets_step()(v, y), x));
    }
}

proof fn lemma_named_in_counts(chs: Seq<FilteredChromosome>, name: Seq<char>, c1: int, c2: int)
    requires
        0 <= c1 < chs.len(),
        0 <= c2 < chs.len(),
        chs[c1].chrom@ == name,
        chs[c2].chrom@ == name,
    ensures
        named_in(chs, name) >= 1,
        c1 != c2 ==> named_in(chs, name) >= 2,
    decreases chs.len(),
{
    let pre = chs.drop_last();
    let n = chs.len() - 1;
    assert(chs.last() == chs[n]);
    if c1 < n && c2 < n {
        assert(pre[c1] == chs[c1] && pre[c2] == chs[c2]);
        lemma_named_in_counts(pre, name, c1, c2);
    } else if c1 < n {
        assert(pre[c1] == chs[c1]);
        lemma_named_in_counts(pre, name, c1, c1);
    } else if c2 < n {
        assert(pre[c2] == chs[c2]);
        lemma_named_in_counts(pre, name, c2, c2);
    }
}

/// Two places holding chromosomes named `name` make `name_count` at least two,
/// unless they are the same place.
proof fn lemma_name_count_places(parts: Seq<FilteredData>, name: Seq<char>, p1: int, c1: int, p2: int, c2: int)
    requires
        0 <= p1 < parts.len(),
        0 <= p2 < parts.len(),
        0 <= c1 < parts[p1].chromosomes@.len(),
        0 <= c2 < parts[p2].chromosomes@.len(),
        parts[p1].chromosomes@[c1].chrom@ == name,
        parts[p2].chromosomes@[c2].chrom@ == name,
    ensures
        name_count(parts, name) >= 1,
        (p1 != p2 || c1 != c2) ==> name_count(parts, name) >= 2,
    decreases parts.len(),
{
    let pre = parts.drop_last();
    let n = parts.len() - 1;
    assert(parts.last() == parts[n]);
    if p1 < n && p2 < n {
        assert(pre[p1] == parts[p1] && pre[p2] == parts[p2]);
        lemma_name_count_places(pre, name, p1, c1, p2, c2);
    } else if p1 < n {
        assert(pre[p1] == parts[p1]);
        lemma_name_count_places(pre, name, p1, c1, p1, c1);
        lemma_named_in_counts(parts[n].chromosomes@, name, c2, c2);
    } else if p2 < n {
        assert(pre[p2] == parts[p2]);
        lemma_name_count_places(pre, name, p2, c2, p2, c2);
        lemma_named_in_counts(parts[n].chromosomes@, name, c1, c1);
    } else {
        lemma_named_in_counts(parts[n].chromosomes@, name, c1, c2);
    }
}

proof fn lemma_order_error_follows_counts(parts1: Seq<FilteredData>, parts2: Seq<FilteredData>, order: Seq<String>)
    requires
        forall|name: Seq<char>| #[trigger] name_count(parts1, name) == name_count(parts2, name),
    ensures
        order_error(parts1, order) == order_error(parts2, order),
    decreases order.len(),
{
    if order.len() > 0 {
        lemma_order_error_follows_counts(parts1, parts2, order.drop_last());
        assert(name_count(parts1, order.last()@) == name_count(parts2, order.last()@));
    }
}

proof fn lemma_no_error_counts_one(parts: Seq<FilteredData>, order: Seq<String>, k: int)
    requires
        0 <= k < order.len(),
        order_error(parts, order) is None,
    ensures
        name_count(parts, order[k]@) == 1,
    decreases order.len(),
{
    if k < order.len() - 1 {
        assert(order.drop_last()[k] == order[k]);
        lemma_no_error_counts_one(parts, order.drop_last(), k);
    } else {
        assert(order.last() == order[k]);
    }
}

/// The result of a merge does not depend on the order of the parts, only on the
/// chromosome order: the same parts in any order give the same error, or the same
/// merged result.
pub proof fn lemma_merge_ignores_part_order(
    parts1: Seq<FilteredData>,
    parts2: Seq<FilteredData>,
    order: Seq<String>,
    r1: FilteredData,
    r2: FilteredData,
)
    requires
        parts1.to_multiset() == parts2.to_multiset(),
    ensures
        merge_error(parts1, order) == merge_error(parts2, order),
        merge_error(parts1, order) is None && merged_as_specified(r1, parts1, order) && merged_as_specified(r2, parts2, order)
            ==> r1@ == r2@,
{
    broadcast use vstd::seq_lib::group_to_multiset_ensures;

    parts1.to_multiset_ensures();
    parts2.to_multiset_ensures();
    assert(parts1.len() == parts2.len());
    assert forall|name: Seq<char>| #[trigger] name_count(parts1, name) == name_count(parts2, name) by {
        lemma_folds(parts1, name);
        lemma_folds(parts2, name);
        lemma_steps_commute(name);
        lemma_fold_left_permutation(parts1, parts2, count_step(name), 0nat);
    }
    lemma_order_error_follows_counts(parts1, parts2, order);
    // Every part of one sequence is a part of the other.
    assert forall|p: int| 0 <= p < parts2.len() implies exists|q: int| 0 <= q < parts1.len() && parts1[q] == #[trigger] parts2[p] by {
        assert(parts2.contains(parts2[p]));
        assert(parts2.to_multiset().count(parts2[p]) > 0);
        assert(parts1.contains(parts2[p]));
    }
    assert forall|q: int| 0 <= q < parts1.len() implies exists|p: int| 0 <= p < parts2.len() && parts2[p] == #[trigger] parts1[q] by {
        assert(parts1.contains(parts1[q]));
        assert(parts1.to_multiset().count(parts1[q]) > 0);
        assert(parts2.contains(parts1[q]));
    }
    if merge_error(parts1, order) is None && merged_as_specified(r1, parts1, order) && merged_as_specified(r2, parts2, order) {
        let name = Seq::<char>::empty();
        lemma_folds(parts1, name);
        lemma_folds(parts2, name);
        lemma_steps_commute(name);
        lemma_fold_left_permutation(parts1, parts2, sources_step(), Set::<u64>::empty());
        lemma_fold_left_permutation(parts1, parts2, targets_step(), Set::<u64>::empty());
        lemma_fold_left_permutation(parts1, parts2, extent_step(), None);
        lemma_fold_left_permutation(parts1, parts2, size_step(), None);
        assert forall|k: int| 0 <= k < order.len() implies #[trigger] r1.chromosomes@[k]@ == r2.chromosomes@[k]@ by {
            assert(picked(r1, parts1, order, k));
            assert(picked(r2, parts2, order, k));
            let (p1, c1) = choose|p: int, c: int|
                0 <= p < parts1.len() && 0 <= c < parts1[p].chromosomes@.len() && #[trigger] parts1[p].chromosomes@[c].chrom@
                    == order[k]@ && r1.chromosomes@[k]@ == parts1[p].chromosomes@[c]@;
            let (p2, c2) = choose|p: int, c: int|
                0 <= p < parts2.len() && 0 <= c < parts2[p].chromosomes@.len() && #[trigger] parts2[p].chromosomes@[c].chrom@
                    == order[k]@ && r2.chromosomes@[k]@ == parts2[p].chromosomes@[c]@;
            let q2 = choose|q: int| 0 <= q < parts1.len() && parts1[q] == #[trigger] parts2[p2];
            lemma_no_error_counts_one(parts1, order, k);
            lemma_name_count_places(parts1, order[k]@, p1, c1, q2, c2);
        }
        assert(crate::filter::chromosome_views(r1.chromosomes@) =~= crate::filter::chromosome_views(r2.chromosomes@));
    }
}

} // verus!
