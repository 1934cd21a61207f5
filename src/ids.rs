//! Feature id-sets: pairs of compressed sets of source and target ids, with
//! eager union and intersection and a lazily evaluated expression tree.

use roaring::RoaringTreemap;
use vstd::prelude::*;

verus! {

#[verifier::external_type_specification]
#[verifier::external_body]
pub struct ExRoaringTreemap(RoaringTreemap);

/// The ids that a compressed set holds.
pub uninterp spec fn treemap_ids(t: RoaringTreemap) -> Set<u64>;

/// Relies on `RoaringTreemap::new`: the new set is empty.
pub assume_specification[ RoaringTreemap::new ]() -> (r: RoaringTreemap)
    ensures
        treemap_ids(r) == Set::<u64>::empty(),
;

/// Relies on `RoaringTreemap::insert`: adds one id, and reports whether it was absent.
pub assume_specification[ RoaringTreemap::insert ](t: &mut RoaringTreemap, value: u64) -> (r: bool)
    ensures
        treemap_ids(*final(t)) == treemap_ids(*old(t)).insert(value),
        r == !treemap_ids(*old(t)).contains(value),
;

/// Relies on `RoaringTreemap::contains`: membership of one id.
pub assume_specification[ RoaringTreemap::contains ](t: &RoaringTreemap, value: u64) -> (r: bool)
    ensures
        r == treemap_ids(*t).contains(value),
;

/// Relies on the `Clone` impl of `RoaringTreemap`: the copy holds the same ids.
pub assume_specification[ <RoaringTreemap as Clone>::clone ](t: &RoaringTreemap) -> (r: RoaringTreemap)
    ensures
        treemap_ids(r) == treemap_ids(*t),
;

/// Relies on `impl BitOrAssign<&RoaringTreemap> for RoaringTreemap`: `a` becomes `a ∪ b`.
#[verifier::external_body]
pub(crate) fn union_with(a: &mut RoaringTreemap, b: &RoaringTreemap)
    ensures
        treemap_ids(*final(a)) == treemap_ids(*old(a)).union(treemap_ids(*b)),
{
    *a |= b;
}

/// Relies on `impl BitAndAssign<&RoaringTreemap> for RoaringTreemap`: `a` becomes `a ∩ b`.
#[verifier::external_body]
fn intersect_with(a: &mut RoaringTreemap, b: &RoaringTreemap)
    ensures
        treemap_ids(*final(a)) == treemap_ids(*old(a)).intersect(treemap_ids(*b)),
{
    *a &= b;
}

/// The ids of a feature id-set: sources first, targets second.
pub type IdSets = (Set<u64>, Set<u64>);

pub open spec fn union_sets(a: IdSets, b: IdSets) -> IdSets {
    (a.0.union(b.0), a.1.union(b.1))
}

pub open spec fn intersect_sets(a: IdSets, b: IdSets) -> IdSets {
    (a.0.intersect(b.0), a.1.intersect(b.1))
}

/// The source and target features that a dataset (or a filtered result) covers.
pub struct ExperimentFeatureData {
    pub sources: RoaringTreemap,
    pub targets: RoaringTreemap,
}

impl View for ExperimentFeatureData {
    type V = IdSets;

    open spec fn view(&self) -> IdSets {
        (treemap_ids(self.sources), treemap_ids(self.targets))
    }
}

impl ExperimentFeatureData {
    /// An id-set pair with no ids.
    pub fn new() -> (r: ExperimentFeatureData)
        ensures
            r@ == (Set::<u64>::empty(), Set::<u64>::empty()),
    {
        ExperimentFeatureData { sources: RoaringTreemap::new(), targets: RoaringTreemap::new() }
    }

    /// A copy holding the same ids.
    pub fn duplicate(&self) -> (r: ExperimentFeatureData)
        ensures
            r@ == self@,
    {
        ExperimentFeatureData { sources: self.sources.clone(), targets: self.targets.clone() }
    }

    /// Replaces `self` by its elementwise union with `other`.
    pub fn union(&mut self, other: &ExperimentFeatureData)
        ensures
            final(self)@ == union_sets(old(self)@, other@),
    {
        union_with(&mut self.sources, &other.sources);
        union_with(&mut self.targets, &other.targets);
    }

    /// Replaces `self` by its elementwise intersection with `other`.
    pub fn intersection(&mut self, other: &ExperimentFeatureData)
        ensures
            final(self)@ == intersect_sets(old(self)@, other@),
    {
        intersect_with(&mut self.sources, &other.sources);
        intersect_with(&mut self.targets, &other.targets);
    }
}

/// The ids common to every feature id-set of `data`: sources and targets separately.
/// With no id-sets at all, nothing is common.
pub open spec fn common_ids(data: Seq<IdSets>) -> IdSets {
    (
        Set::new(|x: u64| data.len() > 0 && forall|i: int| 0 <= i < data.len() ==> #[trigger] data[i].0.contains(x)),
        Set::new(|x: u64| data.len() > 0 && forall|i: int| 0 <= i < data.len() ==> #[trigger] data[i].1.contains(x)),
    )
}

/// Taking one more id-set into account intersects what was common so far with it.
proof fn lemma_common_ids_step(s: Seq<IdSets>, n: int)
    requires
        1 <= n < s.len(),
    ensures
        common_ids(s.subrange(0, n + 1)) == intersect_sets(common_ids(s.subrange(0, n)), s[n]),
{
    let pre = s.subrange(0, n);
    let cur = s.subrange(0, n + 1);
    let lhs = common_ids(cur);
    let rhs = intersect_sets(common_ids(pre), s[n]);
    assert forall|x: u64| lhs.0.contains(x) <==> rhs.0.contains(x) by {
        if lhs.0.contains(x) {
            assert forall|j: int| 0 <= j < pre.len() implies #[trigger] pre[j].0.contains(x) by {
                assert(pre[j] == cur[j]);
            }
            assert(cur[n].0.contains(x));
        }
        if rhs.0.contains(x) {
            assert forall|j: int| 0 <= j < cur.len() implies #[trigger] cur[j].0.contains(x) by {
                if j < n {
                    assert(pre[j] == cur[j]);
                }
            }
        }
    }
    assert forall|x: u64| lhs.1.contains(x) <==> rhs.1.contains(x) by {
        if lhs.1.contains(x) {
            assert forall|j: int| 0 <= j < pre.len() implies #[trigger] pre[j].1.contains(x) by {
                assert(pre[j] == cur[j]);
            }
            assert(cur[n].1.contains(x));
        }
        if rhs.1.contains(x) {
            assert forall|j: int| 0 <= j < cur.len() implies #[trigger] cur[j].1.contains(x) by {
                if j < n {
                    assert(pre[j] == cur[j]);
                }
            }
        }
    }
    assert(lhs.0 =~= rhs.0);
    assert(lhs.1 =~= rhs.1);
}

pub open spec fn views_of(data: Seq<ExperimentFeatureData>) -> Seq<IdSets> {
    data.map_values(|d: ExperimentFeatureData| d@)
}

/// Intersects the feature id-sets of several datasets, to find the features that all of them share.
pub fn intersect_coverage_data_features(data: Vec<ExperimentFeatureData>) -> (r: ExperimentFeatureData)
    ensures
        r@ == common_ids(views_of(data@)),
{
    let ghost vs = views_of(data@);
    if data.len() == 0 {
        let r = ExperimentFeatureData::new();
        assert(r@.0 =~= common_ids(vs).0);
        assert(r@.1 =~= common_ids(vs).1);
        return r;
    }
    let mut acc = data[0].duplicate();
    proof {
        let first = vs.subrange(0, 1);
        assert(first[0] == data@[0]@);
        assert(acc@.0 =~= common_ids(first).0);
        assert(acc@.1 =~= common_ids(first).1);
    }
    let mut i: usize = 1;
    while i < data.len()
        invariant
            1 <= i <= data.len(),
            vs == views_of(data@),
            acc@ == common_ids(vs.subrange(0, i as int)),
        decreases data.len() - i,
    {
        acc.intersection(&data[i]);
        i = i + 1;
        proof {
            lemma_common_ids_step(vs, i - 1);
        }
    }
    assert(vs.subrange(0, data.len() as int) =~= vs);
    acc
}

/// The operator at an inner node of a set-operation tree.
#[derive(Clone, Copy, PartialEq, Eq, Structural)]
pub enum SetOperator {
    Union,
    Intersection,
}

pub open spec fn apply_operator(op: SetOperator, a: IdSets, b: IdSets) -> IdSets {
    match op {
        SetOperator::Union => union_sets(a, b),
        SetOperator::Intersection => intersect_sets(a, b),
    }
}

/// A deferred combination of feature id-sets.
pub enum SetOp {
    /// A tree without leaves.
    Empty,
    Leaf(ExperimentFeatureData),
    Node(SetOperator, Box<SetOp>, Box<SetOp>),
}

/// What a tree evaluates to: `None` for a tree without leaves. An operand without
/// leaves is left out, so the node takes the other operand's value.
pub open spec fn coalesced(e: SetOp) -> Option<IdSets>
    decreases e,
{
    match e {
        SetOp::Empty => None,
        SetOp::Leaf(d) => Some(d@),
        SetOp::Node(op, l, r) => match (coalesced(*l), coalesced(*r)) {
            (Some(a), Some(b)) => Some(apply_operator(op, a, b)),
            (Some(a), None) => Some(a),
            (None, Some(b)) => Some(b),
            (None, None) => None,
        },
    }
}

pub open spec fn view_of_option(o: Option<ExperimentFeatureData>) -> Option<IdSets> {
    match o {
        Some(d) => Some(d@),
        None => None,
    }
}

impl SetOp {
    /// A tree holding one concrete id-set.
    pub fn leaf(data: ExperimentFeatureData) -> (r: SetOp)
        ensures
            r == SetOp::Leaf(data),
    {
        SetOp::Leaf(data)
    }

    /// Defers `op` on two operands, each a concrete id-set or another tree.
    pub fn combine(op: SetOperator, left: SetOp, right: SetOp) -> (r: SetOp)
        ensures
            r == SetOp::Node(op, Box::new(left), Box::new(right)),
    {
        SetOp::Node(op, Box::new(left), Box::new(right))
    }

    /// Evaluates the tree bottom-up into one concrete id-set.
    pub fn coalesce(&self) -> (r: Option<ExperimentFeatureData>)
        ensures
            view_of_option(r) == coalesced(*self),
        decreases self,
    {
        match self {
            SetOp::Empty => None,
            SetOp::Leaf(d) => Some(d.duplicate()),
            SetOp::Node(op, l, r) => {
                let a = l.coalesce();
                let b = r.coalesce();
                match (a, b) {
                    (Some(mut x), Some(y)) => {
                        match op {
                            SetOperator::Union => x.union(&y),
                            SetOperator::Intersection => x.intersection(&y),
                        }
                        Some(x)
                    },
                    (Some(x), None) => Some(x),
                    (None, Some(y)) => Some(y),
                    (None, None) => None,
                }
            },
        }
    }
}

/// Union and intersection of feature id-sets do not depend on the order of their operands.
pub proof fn lemma_set_ops_commutative(a: IdSets, b: IdSets)
    ensures
        union_sets(a, b) == union_sets(b, a),
        intersect_sets(a, b) == intersect_sets(b, a),
{
    assert(union_sets(a, b).0 =~= union_sets(b, a).0);
    assert(union_sets(a, b).1 =~= union_sets(b, a).1);
    assert(intersect_sets(a, b).0 =~= intersect_sets(b, a).0);
    assert(intersect_sets(a, b).1 =~= intersect_sets(b, a).1);
}

/// Union and intersection of feature id-sets do not depend on how operands are grouped.
pub proof fn lemma_set_ops_associative(a: IdSets, b: IdSets, c: IdSets)
    ensures
        union_sets(union_sets(a, b), c) == union_sets(a, union_sets(b, c)),
        intersect_sets(intersect_sets(a, b), c) == intersect_sets(a, intersect_sets(b, c)),
{
    assert(union_sets(union_sets(a, b), c).0 =~= union_sets(a, union_sets(b, c)).0);
    assert(union_sets(union_sets(a, b), c).1 =~= union_sets(a, union_sets(b, c)).1);
    assert(intersect_sets(intersect_sets(a, b), c).0 =~= intersect_sets(a, intersect_sets(b, c)).0);
    assert(intersect_sets(intersect_sets(a, b), c).1 =~= intersect_sets(a, intersect_sets(b, c)).1);
}

/// Combining a feature id-set with itself gives it back.
pub proof fn lemma_set_ops_idempotent(a: IdSets)
    ensures
        union_sets(a, a) == a,
        intersect_sets(a, a) == a,
{
    assert(union_sets(a, a).0 =~= a.0);
    assert(union_sets(a, a).1 =~= a.1);
    assert(intersect_sets(a, a).0 =~= a.0);
    assert(intersect_sets(a, a).1 =~= a.1);
}

/// Coalescing a union of two leaves gives the direct union of the two id-sets.
pub proof fn lemma_coalesce_union_of_leaves(a: ExperimentFeatureData, b: ExperimentFeatureData)
    ensures
        coalesced(SetOp::Node(SetOperator::Union, Box::new(SetOp::Leaf(a)), Box::new(SetOp::Leaf(b))))
            == Some(union_sets(a@, b@)),
{
    let l = SetOp::Leaf(a);
    let r = SetOp::Leaf(b);
    assert(coalesced(l) == Some(a@));
    assert(coalesced(r) == Some(b@));
    reveal_with_fuel(coalesced, 2);
}

} // verus!
