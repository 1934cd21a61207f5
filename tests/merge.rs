use exp_viz::filter::{FilterIntervals, FilteredBucket, FilteredChromosome, FilteredData};
use exp_viz::merge::{merge_filtered_data, MergeError};
use exp_viz::model::ScoreRange;
use roaring::RoaringTreemap;

fn chromosome(name: &str, index: u8, start: u32) -> FilteredChromosome {
    FilteredChromosome {
        chrom: name.to_string(),
        index,
        bucket_size: 1000,
        source_intervals: vec![FilteredBucket { start, count: 2, associated_buckets: vec![index as u32, 4] }],
        target_intervals: vec![],
    }
}

fn part(chroms: Vec<FilteredChromosome>, effect: (i64, i64), sig: (i64, i64), sources: &[u64]) -> FilteredData {
    let mut s = RoaringTreemap::new();
    for &x in sources {
        s.insert(x);
    }
    FilteredData {
        chromosomes: chroms,
        bucket_size: 1000,
        numeric_intervals: FilterIntervals {
            effect: ScoreRange { min: effect.0, max: effect.1 },
            sig: ScoreRange { min: sig.0, max: sig.1 },
        },
        sources: s,
        targets: RoaringTreemap::new(),
    }
}

fn names(fd: &FilteredData) -> Vec<String> {
    fd.chromosomes.iter().map(|c| c.chrom.clone()).collect()
}

fn order(v: &[&str]) -> Vec<String> {
    v.iter().map(|s| s.to_string()).collect()
}

#[test]
fn merging_one_result_gives_it_back() {
    let x = part(vec![chromosome("chr1", 0, 0), chromosome("chr2", 1, 5000)], (1, 9), (2, 3), &[4, 5]);
    let copy = part(vec![chromosome("chr1", 0, 0), chromosome("chr2", 1, 5000)], (1, 9), (2, 3), &[4, 5]);
    let r = merge_filtered_data(vec![x], order(&["chr1", "chr2"])).expect("merge");
    assert_eq!(names(&r), names(&copy));
    for (a, b) in r.chromosomes.iter().zip(copy.chromosomes.iter()) {
        assert_eq!(a.index, b.index);
        assert_eq!(a.source_intervals[0].start, b.source_intervals[0].start);
        assert_eq!(a.source_intervals[0].associated_buckets, b.source_intervals[0].associated_buckets);
    }
    assert_eq!(r.numeric_intervals, copy.numeric_intervals);
    assert_eq!(r.sources, copy.sources);
    assert_eq!(r.bucket_size, 1000);
}

#[test]
fn merge_follows_the_chromosome_order() {
    let a = part(vec![chromosome("chr2", 1, 0)], (5, 9), (1, 2), &[1]);
    let b = part(vec![chromosome("chr1", 0, 0), chromosome("chr3", 2, 0)], (-3, 4), (0, 7), &[2]);
    let r = merge_filtered_data(vec![a, b], order(&["chr1", "chr2", "chr3"])).expect("merge");
    assert_eq!(names(&r), order(&["chr1", "chr2", "chr3"]));
    assert_eq!(r.numeric_intervals.effect, ScoreRange { min: -3, max: 9 });
    assert_eq!(r.numeric_intervals.sig, ScoreRange { min: 0, max: 7 });
    assert_eq!(r.sources.iter().collect::<Vec<u64>>(), vec![1, 2]);
}

#[test]
fn merge_does_not_depend_on_part_order() {
    let make = || {
        (
            part(vec![chromosome("chr2", 1, 0)], (5, 9), (1, 2), &[1]),
            part(vec![chromosome("chr1", 0, 0)], (-3, 4), (0, 7), &[2]),
        )
    };
    let (a, b) = make();
    let r1 = merge_filtered_data(vec![a, b], order(&["chr1", "chr2"])).expect("merge");
    let (a, b) = make();
    let r2 = merge_filtered_data(vec![b, a], order(&["chr1", "chr2"])).expect("merge");
    assert_eq!(names(&r1), names(&r2));
    assert_eq!(r1.numeric_intervals, r2.numeric_intervals);
    assert_eq!(r1.sources, r2.sources);
}

#[test]
fn merge_of_nothing_is_an_error() {
    assert_eq!(merge_filtered_data(vec![], order(&[])).err(), Some(MergeError::NoParts));
}

#[test]
fn merge_with_unknown_chromosome_is_an_error() {
    let a = part(vec![chromosome("chr1", 0, 0)], (0, 1), (0, 1), &[]);
    assert_eq!(merge_filtered_data(vec![a], order(&["chr1", "chrX"])).err(), Some(MergeError::MissingChromosome));
}

#[test]
fn merge_with_duplicated_chromosome_is_an_error() {
    let a = part(vec![chromosome("chr1", 0, 0)], (0, 1), (0, 1), &[]);
    let b = part(vec![chromosome("chr1", 0, 0)], (0, 1), (0, 1), &[]);
    assert_eq!(merge_filtered_data(vec![a, b], order(&["chr1"])).err(), Some(MergeError::DuplicateChromosome));
}

#[test]
fn merge_reports_the_first_bad_name() {
    let a = part(vec![chromosome("chr1", 0, 0)], (0, 1), (0, 1), &[]);
    let b = part(vec![chromosome("chr1", 0, 0)], (0, 1), (0, 1), &[]);
    assert_eq!(merge_filtered_data(vec![a, b], order(&["chrX", "chr1"])).err(), Some(MergeError::MissingChromosome));
}

#[test]
fn merge_of_mixed_bucket_sizes_keeps_each_chromosome_size() {
    let make = || {
        let mut a = part(vec![chromosome("a", 0, 0)], (0, 1), (0, 1), &[]);
        a.bucket_size = 1;
        a.chromosomes[0].bucket_size = 1;
        let mut b = part(vec![chromosome("b", 1, 0)], (0, 1), (0, 1), &[]);
        b.bucket_size = 2;
        b.chromosomes[0].bucket_size = 2;
        (a, b)
    };
    let (a, b) = make();
    let r1 = merge_filtered_data(vec![a, b], order(&["a", "b"])).expect("merge");
    let (a, b) = make();
    let r2 = merge_filtered_data(vec![b, a], order(&["a", "b"])).expect("merge");
    assert_eq!(names(&r1), order(&["a", "b"]));
    assert_eq!(r1.chromosomes[0].bucket_size, 1);
    assert_eq!(r1.chromosomes[1].bucket_size, 2);
    assert_eq!(r1.bucket_size, 1);
    assert_eq!(r2.bucket_size, 1);
    assert_eq!(names(&r2), names(&r1));
}
