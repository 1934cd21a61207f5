use exp_viz::buckets::Bucket;
use exp_viz::filter::{
    filter_coverage_data, Filter, FilterError, FilterIntervals, FilteredData, SetOpFeature,
};
use exp_viz::ids::ExperimentFeatureData;
use exp_viz::model::{
    ChromosomeData, CoverageData, EffectValues, Facet, FacetKind, Interval, Item, ScoreRange,
};

/// Order-preserving integer key of a score.
fn key(x: f64) -> i64 {
    let x = if x == 0.0 { 0.0 } else { x };
    let bits = x.to_bits() as i64;
    if bits < 0 {
        bits ^ i64::MAX
    } else {
        bits
    }
}

fn range(min: f64, max: f64) -> ScoreRange {
    ScoreRange { min: key(min), max: key(max) }
}

fn discrete(name: &str, values: Vec<u32>, source: bool, target: bool) -> Facet {
    Facet {
        name: name.to_string(),
        kind: FacetKind::Discrete,
        covers_source: source,
        covers_target: target,
        values,
        range: None,
    }
}

fn continuous(name: &str, r: ScoreRange) -> Facet {
    Facet {
        name: name.to_string(),
        kind: FacetKind::Continuous,
        covers_source: true,
        covers_target: true,
        values: vec![],
        range: Some(r),
    }
}

fn item(feature_id: u64, ids: Vec<u32>, effect: f64, sig: f64, buckets: Vec<(u32, u32)>) -> Item {
    Item {
        feature_id,
        facets: vec![EffectValues { facet_ids: ids, effect_size: key(effect), significance: key(sig) }],
        associated_buckets: buckets.into_iter().map(|(chrom, idx)| Bucket { chrom, idx }).collect(),
    }
}

/// One chromosome, bucket size 1000, one source interval at 0 with items A and B.
fn scenario(facets: Vec<Facet>) -> CoverageData {
    let a = item(1, vec![10], 0.5, 0.01, vec![(0, 3)]);
    let b = item(2, vec![20], 5.0, 0.2, vec![(0, 7)]);
    CoverageData {
        facets,
        chromosomes: vec![ChromosomeData {
            chrom: "chr1".to_string(),
            index: 0,
            bucket_size: 1000,
            source_intervals: vec![Interval { start: 0, values: vec![a, b] }],
            target_intervals: vec![],
        }],
        chrom_lengths: vec![10_000],
        bucket_size: 1000,
    }
}

fn standard_facets() -> Vec<Facet> {
    vec![
        discrete("Direction", vec![10, 20], true, true),
        continuous("Effect Size", range(0.5, 5.0)),
        continuous("Significance", range(0.01, 0.2)),
    ]
}

fn plain_filter(values: Vec<u32>) -> Filter {
    Filter { chrom: None, categorical_facets: values, numeric_intervals: None, set_op_feature: None }
}

fn run(filter: &Filter, data: &CoverageData, features: &Option<ExperimentFeatureData>) -> FilteredData {
    assert!(data.is_well_formed());
    match filter_coverage_data(filter, data, features) {
        Ok(fd) => fd,
        Err(e) => panic!("filter failed: {:?}", e),
    }
}

#[test]
fn single_category_value_keeps_matching_item() {
    let data = scenario(standard_facets());
    let fd = run(&plain_filter(vec![10]), &data, &None);
    assert_eq!(fd.chromosomes.len(), 1);
    let src = &fd.chromosomes[0].source_intervals;
    assert_eq!(src.len(), 1);
    assert_eq!(src[0].start, 0);
    assert_eq!(src[0].count, 1);
    assert_eq!(src[0].associated_buckets, vec![0, 3]);
    assert_eq!(fd.numeric_intervals.effect, range(0.5, 0.5));
    assert_eq!(fd.numeric_intervals.sig, range(0.01, 0.01));
    assert!(fd.sources.contains(1));
    assert!(!fd.sources.contains(2));
    assert_eq!(fd.sources.len(), 1);
    assert_eq!(fd.reo_count(), 1);
}

#[test]
fn no_op_filter_keeps_everything() {
    let data = scenario(standard_facets());
    let fd = run(&plain_filter(vec![]), &data, &None);
    let src = &fd.chromosomes[0].source_intervals;
    assert_eq!(src.len(), 1);
    assert_eq!(src[0].count, 2);
    assert_eq!(src[0].associated_buckets, vec![0, 3, 0, 7]);
    assert_eq!(fd.numeric_intervals.effect, range(0.5, 5.0));
    assert_eq!(fd.numeric_intervals.sig, range(0.01, 0.2));
    assert_eq!(fd.bucket_size, 1000);
    assert_eq!(fd.chromosomes[0].chrom, "chr1");
}

#[test]
fn numeric_bounds_drop_items_outside() {
    let data = scenario(standard_facets());
    let mut filter = plain_filter(vec![]);
    filter.numeric_intervals = Some(FilterIntervals { effect: range(0.0, 1.0), sig: range(0.0, 1.0) });
    let fd = run(&filter, &data, &None);
    let src = &fd.chromosomes[0].source_intervals;
    assert_eq!(src.len(), 1);
    assert_eq!(src[0].count, 1);
    assert_eq!(src[0].associated_buckets, vec![0, 3]);
}

#[test]
fn nothing_passing_reports_requested_bounds() {
    let data = scenario(standard_facets());
    let mut filter = plain_filter(vec![]);
    let bounds = FilterIntervals { effect: range(10.0, 20.0), sig: range(0.0, 1.0) };
    filter.numeric_intervals = Some(bounds);
    let fd = run(&filter, &data, &None);
    assert_eq!(fd.chromosomes.len(), 1);
    assert!(fd.chromosomes[0].source_intervals.is_empty());
    assert_eq!(fd.numeric_intervals, bounds);
    assert_eq!(fd.sources.len(), 0);
}

#[test]
fn nothing_passing_reports_declared_ranges() {
    let mut facets = standard_facets();
    facets[0].values.push(15);
    let data = scenario(facets);
    let fd = run(&plain_filter(vec![15]), &data, &None);
    assert!(fd.chromosomes[0].source_intervals.is_empty());
    assert_eq!(fd.numeric_intervals.effect, range(0.5, 5.0));
    assert_eq!(fd.numeric_intervals.sig, range(0.01, 0.2));
}

#[test]
fn missing_score_facet_is_an_error() {
    let data = scenario(vec![discrete("Direction", vec![10, 20], true, true)]);
    let r = filter_coverage_data(&plain_filter(vec![10]), &data, &None);
    assert_eq!(r.err(), Some(FilterError::MissingScoreFacet));
}

#[test]
fn requested_bounds_need_no_score_facet() {
    let data = scenario(vec![discrete("Direction", vec![10, 20], true, true)]);
    let mut filter = plain_filter(vec![]);
    filter.numeric_intervals = Some(FilterIntervals { effect: range(0.0, 10.0), sig: range(0.0, 1.0) });
    let fd = run(&filter, &data, &None);
    assert_eq!(fd.chromosomes[0].source_intervals[0].count, 2);
}

#[test]
fn or_within_category_and_across_categories() {
    let mut facets = standard_facets();
    facets.push(discrete("Kind", vec![30, 31], true, false));
    let mut data = scenario(facets);
    let items = &mut data.chromosomes[0].source_intervals[0].values;
    items[0].facets[0].facet_ids = vec![10, 30];
    items[1].facets[0].facet_ids = vec![20, 31];
    // Two values of one category: either matches.
    let fd = run(&plain_filter(vec![10, 20]), &data, &None);
    assert_eq!(fd.chromosomes[0].source_intervals[0].count, 2);
    // A second category narrows: both must match.
    let fd = run(&plain_filter(vec![10, 20, 31]), &data, &None);
    assert_eq!(fd.chromosomes[0].source_intervals[0].count, 1);
    assert_eq!(fd.chromosomes[0].source_intervals[0].associated_buckets, vec![0, 7]);
}

#[test]
fn selection_of_unknown_id_matches_nothing() {
    let data = scenario(standard_facets());
    // An id of no facet makes no category active and matches no item.
    let fd = run(&plain_filter(vec![12345]), &data, &None);
    assert_eq!(fd.chromosomes[0].source_intervals[0].count, 2);
    let fd = run(&plain_filter(vec![10, 12345]), &data, &None);
    assert_eq!(fd.chromosomes[0].source_intervals[0].count, 1);
    assert_eq!(fd.chromosomes[0].source_intervals[0].associated_buckets, vec![0, 3]);
}

#[test]
fn fast_path_matches_general_path() {
    let data = scenario(standard_facets());
    let fast = run(&plain_filter(vec![]), &data, &None);
    let mut wide = plain_filter(vec![10, 20]);
    wide.numeric_intervals = Some(FilterIntervals { effect: range(-100.0, 100.0), sig: range(0.0, 1.0) });
    let general = run(&wide, &data, &None);
    let a = &fast.chromosomes[0].source_intervals;
    let b = &general.chromosomes[0].source_intervals;
    assert_eq!(a.len(), b.len());
    for (x, y) in a.iter().zip(b.iter()) {
        assert_eq!(x.start, y.start);
        assert_eq!(x.count, y.count);
        assert_eq!(x.associated_buckets, y.associated_buckets);
    }
    assert_eq!(fast.numeric_intervals, general.numeric_intervals);
}

#[test]
fn chromosome_restriction_keeps_one() {
    let mut data = scenario(standard_facets());
    data.chrom_lengths.push(5000);
    data.chromosomes.push(ChromosomeData {
        chrom: "chr2".to_string(),
        index: 1,
        bucket_size: 1000,
        source_intervals: vec![Interval { start: 2000, values: vec![item(3, vec![10], 1.0, 0.05, vec![(1, 2)])] }],
        target_intervals: vec![],
    });
    let mut filter = plain_filter(vec![]);
    filter.chrom = Some(1);
    let fd = run(&filter, &data, &None);
    assert_eq!(fd.chromosomes.len(), 1);
    assert_eq!(fd.chromosomes[0].chrom, "chr2");
    assert_eq!(fd.chromosomes[0].source_intervals[0].start, 2000);
    assert_eq!(fd.chromosomes[0].source_intervals[0].associated_buckets, vec![1, 2]);
    assert_eq!(fd.numeric_intervals.effect, range(1.0, 1.0));
}

#[test]
fn feature_restriction_keeps_listed_features() {
    let data = scenario(standard_facets());
    let mut features = ExperimentFeatureData::new();
    features.sources.insert(2);
    let mut filter = plain_filter(vec![]);
    filter.set_op_feature = Some(SetOpFeature::Source);
    let fd = run(&filter, &data, &Some(features));
    let src = &fd.chromosomes[0].source_intervals;
    assert_eq!(src[0].count, 1);
    assert_eq!(src[0].associated_buckets, vec![0, 7]);
    assert!(fd.sources.contains(2));
    assert_eq!(fd.numeric_intervals.effect, range(5.0, 5.0));
}

#[test]
fn feature_restriction_on_other_role_changes_nothing() {
    let data = scenario(standard_facets());
    let features = ExperimentFeatureData::new();
    let mut filter = plain_filter(vec![]);
    filter.set_op_feature = Some(SetOpFeature::Target);
    let fd = run(&filter, &data, &Some(features));
    assert_eq!(fd.chromosomes[0].source_intervals[0].count, 2);
}

#[test]
fn target_intervals_are_filtered_too() {
    let mut data = scenario(standard_facets());
    data.chromosomes[0].target_intervals = vec![
        Interval { start: 3000, values: vec![item(7, vec![10], 0.5, 0.01, vec![(0, 0)])] },
        Interval { start: 7000, values: vec![item(8, vec![20], 5.0, 0.2, vec![(0, 0)])] },
    ];
    let fd = run(&plain_filter(vec![20]), &data, &None);
    let tgt = &fd.chromosomes[0].target_intervals;
    assert_eq!(tgt.len(), 1);
    assert_eq!(tgt[0].start, 7000);
    assert!(fd.targets.contains(8));
    assert!(!fd.targets.contains(7));
}

#[test]
fn empty_dataset_reports_declared_ranges() {
    let data = CoverageData { facets: standard_facets(), chromosomes: vec![], chrom_lengths: vec![], bucket_size: 10 };
    let fd = run(&plain_filter(vec![]), &data, &None);
    assert!(fd.chromosomes.is_empty());
    assert_eq!(fd.numeric_intervals.effect, range(0.5, 5.0));
}

#[test]
fn out_of_range_bucket_is_detected() {
    let mut data = scenario(standard_facets());
    assert!(data.is_well_formed());
    data.chromosomes[0].source_intervals[0].values[0].associated_buckets.push(Bucket { chrom: 0, idx: 12 });
    assert!(!data.is_well_formed());
    data.chromosomes[0].source_intervals[0].values[0].associated_buckets.pop();
    data.chromosomes[0].source_intervals[0].values[0].associated_buckets.push(Bucket { chrom: 1, idx: 0 });
    assert!(!data.is_well_formed());
    data.bucket_size = 0;
    assert!(!data.is_well_formed());
}

#[test]
fn observation_count_sums_source_items() {
    let mut data = scenario(standard_facets());
    data.chromosomes[0].source_intervals.push(Interval {
        start: 4000,
        values: vec![item(5, vec![10], 1.0, 0.1, vec![(0, 1)])],
    });
    data.chromosomes[0].target_intervals = vec![Interval { start: 3000, values: vec![item(7, vec![10], 0.5, 0.01, vec![(0, 0)])] }];
    let fd = run(&plain_filter(vec![]), &data, &None);
    assert_eq!(fd.reo_count(), 3);
    let fd = run(&plain_filter(vec![20]), &data, &None);
    assert_eq!(fd.reo_count(), 1);
}

#[test]
fn another_value_of_a_selected_category_never_drops_items() {
    let data = scenario(standard_facets());
    let narrow = run(&plain_filter(vec![10]), &data, &None);
    let wider = run(&plain_filter(vec![10, 20]), &data, &None);
    assert_eq!(narrow.chromosomes[0].source_intervals[0].count, 1);
    assert_eq!(wider.chromosomes[0].source_intervals[0].count, 2);
}

#[test]
fn value_of_a_new_category_never_adds_items() {
    let mut facets = standard_facets();
    facets.push(discrete("Kind", vec![30, 31], true, false));
    let mut data = scenario(facets);
    data.chromosomes[0].source_intervals[0].values[0].facets[0].facet_ids = vec![10, 30];
    let before = run(&plain_filter(vec![10, 20]), &data, &None);
    let after = run(&plain_filter(vec![10, 20, 30]), &data, &None);
    assert_eq!(before.chromosomes[0].source_intervals[0].count, 2);
    assert_eq!(after.chromosomes[0].source_intervals[0].count, 1);
    assert_eq!(after.chromosomes[0].source_intervals[0].associated_buckets, vec![0, 3]);
}

#[test]
fn undeclared_facet_value_is_detected() {
    let mut data = scenario(standard_facets());
    assert!(data.is_well_formed());
    data.chromosomes[0].source_intervals[0].values[1].facets[0].facet_ids.push(77);
    assert!(!data.is_well_formed());
    data.facets.push(discrete("Other", vec![77], false, true));
    assert!(data.is_well_formed());
}
