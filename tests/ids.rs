use exp_viz::ids::{intersect_coverage_data_features, ExperimentFeatureData, SetOp, SetOperator};

fn ids(sources: &[u64], targets: &[u64]) -> ExperimentFeatureData {
    let mut d = ExperimentFeatureData::new();
    for &s in sources {
        d.sources.insert(s);
    }
    for &t in targets {
        d.targets.insert(t);
    }
    d
}

fn contents(d: &ExperimentFeatureData) -> (Vec<u64>, Vec<u64>) {
    (d.sources.iter().collect(), d.targets.iter().collect())
}

#[test]
fn union_is_elementwise() {
    let mut a = ids(&[1, 2], &[10]);
    a.union(&ids(&[2, 3], &[11]));
    assert_eq!(contents(&a), (vec![1, 2, 3], vec![10, 11]));
}

#[test]
fn intersection_is_elementwise() {
    let mut a = ids(&[1, 2, 3], &[10, 11]);
    a.intersection(&ids(&[2, 3, 4], &[11, 12]));
    assert_eq!(contents(&a), (vec![2, 3], vec![11]));
}

#[test]
fn set_ops_commute_and_are_idempotent() {
    let a = ids(&[1, 5, 9], &[2]);
    let b = ids(&[5, 6], &[2, 3]);
    let mut ab = a.duplicate();
    ab.union(&b);
    let mut ba = b.duplicate();
    ba.union(&a);
    assert_eq!(contents(&ab), contents(&ba));
    let mut ab = a.duplicate();
    ab.intersection(&b);
    let mut ba = b.duplicate();
    ba.intersection(&a);
    assert_eq!(contents(&ab), contents(&ba));
    let mut aa = a.duplicate();
    aa.union(&a);
    assert_eq!(contents(&aa), contents(&a));
    let mut aa = a.duplicate();
    aa.intersection(&a);
    assert_eq!(contents(&aa), contents(&a));
}

#[test]
fn set_ops_associate() {
    let a = ids(&[1, 2, 3], &[7]);
    let b = ids(&[2, 3, 4], &[7, 8]);
    let c = ids(&[3, 4, 5], &[7, 9]);
    let mut left = a.duplicate();
    left.intersection(&b);
    left.intersection(&c);
    let mut bc = b.duplicate();
    bc.intersection(&c);
    let mut right = a.duplicate();
    right.intersection(&bc);
    assert_eq!(contents(&left), contents(&right));
    assert_eq!(contents(&left), (vec![3], vec![7]));
}

#[test]
fn coalescing_union_of_two_leaves_is_union() {
    let a = ids(&[1, 2], &[10]);
    let b = ids(&[3], &[10, 20]);
    let tree = SetOp::combine(SetOperator::Union, SetOp::leaf(a.duplicate()), SetOp::leaf(b.duplicate()));
    let got = tree.coalesce().expect("a tree with leaves");
    let mut direct = a.duplicate();
    direct.union(&b);
    assert_eq!(contents(&got), contents(&direct));
}

#[test]
fn coalescing_nested_tree() {
    let a = ids(&[1, 2, 3], &[]);
    let b = ids(&[2, 3], &[5]);
    let c = ids(&[9], &[6]);
    let inner = SetOp::combine(SetOperator::Intersection, SetOp::leaf(a), SetOp::leaf(b));
    let tree = SetOp::combine(SetOperator::Union, inner, SetOp::leaf(c));
    let got = tree.coalesce().expect("a tree with leaves");
    assert_eq!(contents(&got), (vec![2, 3, 9], vec![6]));
}

#[test]
fn coalescing_empty_tree_gives_nothing() {
    assert!(SetOp::Empty.coalesce().is_none());
    let tree = SetOp::combine(SetOperator::Intersection, SetOp::Empty, SetOp::Empty);
    assert!(tree.coalesce().is_none());
}

#[test]
fn empty_operand_is_left_out() {
    let a = ids(&[4], &[8]);
    let tree = SetOp::combine(SetOperator::Intersection, SetOp::Empty, SetOp::leaf(a));
    let got = tree.coalesce().expect("one leaf");
    assert_eq!(contents(&got), (vec![4], vec![8]));
}

#[test]
fn empty_but_present_set_is_kept() {
    let tree = SetOp::leaf(ExperimentFeatureData::new());
    let got = tree.coalesce().expect("a leaf");
    assert_eq!(contents(&got), (vec![], vec![]));
}

#[test]
fn intersecting_no_datasets_gives_empty_sets() {
    let got = intersect_coverage_data_features(vec![]);
    assert_eq!(contents(&got), (vec![], vec![]));
}

#[test]
fn intersecting_datasets_keeps_common_ids() {
    let got = intersect_coverage_data_features(vec![
        ids(&[1, 2, 3, 4], &[10, 11]),
        ids(&[2, 3, 4], &[11, 12]),
        ids(&[3, 4, 5], &[11]),
    ]);
    assert_eq!(contents(&got), (vec![3, 4], vec![11]));
}

#[test]
fn intersecting_one_dataset_gives_it_back() {
    let got = intersect_coverage_data_features(vec![ids(&[7, 8], &[9])]);
    assert_eq!(contents(&got), (vec![7, 8], vec![9]));
}
