//! Bucket coordinates and a dense bit-array accumulator for sets of them.

use vstd::prelude::*;

verus! {

/// A genomic bucket: the index of a chromosome and the index of a bucket on it.
#[derive(Clone, Copy, Debug, PartialEq, Eq, Structural)]
pub struct Bucket {
    pub chrom: u32,
    pub idx: u32,
}

impl Bucket {
    pub open spec fn coord(self) -> (int, int) {
        (self.chrom as int, self.idx as int)
    }
}

/// The number of buckets kept for a chromosome of `len` bases: one per started
/// bucket, and one more.
pub open spec fn bucket_count(len: u32, bucket_size: u32) -> nat
    recommends
        bucket_size > 0,
{
    ((len as int + bucket_size as int - 1) / (bucket_size as int) + 1) as nat
}

/// Computes `bucket_count`.
pub fn buckets_for_length(len: u32, bucket_size: u32) -> (r: u64)
    requires
        bucket_size > 0,
    ensures
        r == bucket_count(len, bucket_size),
        r <= len as nat + 1,
{
    let r: u64 = (len as u64 + bucket_size as u64 - 1) / (bucket_size as u64) + 1;
    assert((len as int + bucket_size as int - 1) / (bucket_size as int) <= len as int) by (nonlinear_arith)
        requires
            bucket_size >= 1,
    ;
    r
}

/// The coordinates named by a list of buckets.
pub open spec fn bucket_coords(buckets: Seq<Bucket>) -> Set<(int, int)> {
    Set::new(|p: (int, int)| exists|i: int| 0 <= i < buckets.len() && #[trigger] buckets[i].coord() == p)
}

/// Strict lexicographic order on coordinates.
pub open spec fn coord_lt(a: (int, int), b: (int, int)) -> bool {
    a.0 < b.0 || (a.0 == b.0 && a.1 < b.1)
}

/// The `k`-th coordinate of an interleaved `[chrom, bucket, chrom, bucket, ...]` list.
pub open spec fn pair_at(s: Seq<u32>, k: int) -> (int, int) {
    (s[2 * k] as int, s[2 * k + 1] as int)
}

/// The coordinates that an interleaved list holds.
pub open spec fn listed_coords(s: Seq<u32>) -> Set<(int, int)> {
    Set::new(|p: (int, int)| exists|k: int| 0 <= k < s.len() / 2 && #[trigger] pair_at(s, k) == p)
}

/// `s` lists exactly the coordinates of `coords`, each once, in increasing order.
pub open spec fn is_sorted_listing(s: Seq<u32>, coords: Set<(int, int)>) -> bool {
    &&& s.len() % 2 == 0
    &&& listed_coords(s) == coords
    &&& forall|k1: int, k2: int|
        0 <= k1 < k2 < s.len() / 2 ==> coord_lt(#[trigger] pair_at(s, k1), #[trigger] pair_at(s, k2))
}

/// A set of bucket coordinates over a fixed domain: one row of flags per chromosome.
pub struct BucketList {
    rows: Vec<Vec<bool>>,
}

impl BucketList {
    pub closed spec fn row_flags(&self) -> Seq<Seq<bool>> {
        self.rows@.map_values(|r: Vec<bool>| r@)
    }

    /// The number of buckets of each chromosome.
    pub closed spec fn sizes(&self) -> Seq<nat> {
        self.rows@.map_values(|r: Vec<bool>| r@.len())
    }

    /// The coordinates in the set.
    pub closed spec fn coords(&self) -> Set<(int, int)> {
        Set::new(
            |p: (int, int)|
                0 <= p.0 < self.rows@.len() && 0 <= p.1 < self.rows@[p.0]@.len() && self.rows@[p.0]@[p.1],
        )
    }

    /// Chromosome and bucket indexes fit in `u32`.
    pub closed spec fn wf(&self) -> bool {
        &&& self.rows@.len() <= u32::MAX as nat + 1
        &&& forall|c: int| 0 <= c < self.rows@.len() ==> #[trigger] self.rows@[c]@.len() <= u32::MAX as nat + 1
    }

    pub open spec fn in_domain(&self, c: int, b: int) -> bool {
        0 <= c < self.sizes().len() && 0 <= b < self.sizes()[c]
    }

    /// An empty set over the buckets of chromosomes of the given lengths.
    pub fn new(chrom_lengths: &Vec<u32>, bucket_size: u32) -> (r: BucketList)
        requires
            bucket_size > 0,
            chrom_lengths@.len() <= u32::MAX as nat + 1,
            forall|c: int| 0 <= c < chrom_lengths@.len() ==> bucket_count(#[trigger] chrom_lengths@[c], bucket_size) <= usize::MAX,
        ensures
            r.wf(),
            r.sizes() == chrom_lengths@.map_values(|len: u32| bucket_count(len, bucket_size)),
            r.coords() == Set::<(int, int)>::empty(),
    {
        let mut rows: Vec<Vec<bool>> = Vec::new();
        let mut c: usize = 0;
        while c < chrom_lengths.len()
            invariant
                bucket_size > 0,
                c <= chrom_lengths@.len() <= u32::MAX as nat + 1,
                forall|c: int| 0 <= c < chrom_lengths@.len() ==> bucket_count(#[trigger] chrom_lengths@[c], bucket_size) <= usize::MAX,
                rows@.len() == c,
                forall|j: int| 0 <= j < c ==> #[trigger] rows@[j]@.len() == bucket_count(chrom_lengths@[j], bucket_size),
                forall|j: int, b: int| 0 <= j < c && 0 <= b < rows@[j]@.len() ==> !#[trigger] rows@[j]@[b],
            decreases chrom_lengths@.len() - c,
        {
            let len = chrom_lengths[c];
            let n64 = buckets_for_length(len, bucket_size);
            let n = n64 as usize;
            let mut row: Vec<bool> = Vec::new();
            let mut b: usize = 0;
            while b < n
                invariant
                    b <= n,
                    row@.len() == b,
                    forall|k: int| 0 <= k < b ==> !#[trigger] row@[k],
                decreases n - b,
            {
                row.push(false);
                b = b + 1;
            }
            rows.push(row);
            c = c + 1;
        }
        let r = BucketList { rows };
        assert forall|c: int| 0 <= c < r.rows@.len() implies #[trigger] r.rows@[c]@.len() <= u32::MAX as nat + 1 by {
            let len = chrom_lengths@[c];
            assert((len as int + bucket_size as int - 1) / (bucket_size as int) <= len as int) by (nonlinear_arith)
                requires
                    bucket_size >= 1,
            ;
        }
        assert(r.sizes() =~= chrom_lengths@.map_values(|len: u32| bucket_count(len, bucket_size)));
        assert(r.coords() =~= Set::<(int, int)>::empty());
        r
    }

    /// A copy holding the same coordinates over the same domain: a private
    /// accumulator made from a prototype.
    pub fn duplicate(&self) -> (r: BucketList)
        ensures
            r.wf() == self.wf(),
            r.sizes() == self.sizes(),
            r.coords() == self.coords(),
    {
        let mut rows: Vec<Vec<bool>> = Vec::new();
        let mut c: usize = 0;
        while c < self.rows.len()
            invariant
                c <= self.rows@.len(),
                rows@.len() == c,
                forall|j: int| 0 <= j < c ==> #[trigger] rows@[j]@ == self.rows@[j]@,
            decreases self.rows@.len() - c,
        {
            let row = self.rows[c].clone();
            assert(row@ =~= self.rows@[c as int]@);
            rows.push(row);
            c = c + 1;
        }
        let r = BucketList { rows };
        assert(r.rows@.len() == self.rows@.len());
        assert(r.wf() == self.wf()) by {
            if self.wf() {
                assert forall|c: int| 0 <= c < r.rows@.len() implies #[trigger] r.rows@[c]@.len() <= u32::MAX as nat + 1 by {
                    assert(r.rows@[c]@ == self.rows@[c]@);
                }
            }
            if r.wf() {
                assert forall|c: int| 0 <= c < self.rows@.len() implies #[trigger] self.rows@[c]@.len() <= u32::MAX as nat + 1 by {
                    assert(r.rows@[c]@ == self.rows@[c]@);
                }
            }
        }
        assert(r.sizes() =~= self.sizes());
        assert(r.coords() =~= self.coords());
        r
    }

    /// Adds one coordinate; adding it again changes nothing.
    pub fn insert(&mut self, chrom: u32, idx: u32)
        requires
            old(self).in_domain(chrom as int, idx as int),
        ensures
            final(self).wf() == old(self).wf(),
            final(self).sizes() == old(self).sizes(),
            final(self).coords() == old(self).coords().insert((chrom as int, idx as int)),
    {
        let ghost pre = *self;
        assert(pre.rows@[chrom as int]@.len() == pre.sizes()[chrom as int]);
        self.rows[chrom as usize][idx as usize] = true;
        assert(self.sizes() =~= pre.sizes()) by {
            assert forall|c: int| 0 <= c < self.rows@.len() implies #[trigger] self.rows@[c]@.len() == pre.rows@[c]@.len() by {}
        }
        assert(self.coords() =~= pre.coords().insert((chrom as int, idx as int)));
        assert(self.wf() == pre.wf()) by {
            if pre.wf() {
                assert forall|c: int| 0 <= c < self.rows@.len() implies #[trigger] self.rows@[c]@.len() <= u32::MAX as nat + 1 by {
                    assert(self.rows@[c]@.len() == pre.rows@[c]@.len());
                }
            }
            if self.wf() {
                assert forall|c: int| 0 <= c < pre.rows@.len() implies #[trigger] pre.rows@[c]@.len() <= u32::MAX as nat + 1 by {
                    assert(self.rows@[c]@.len() == pre.rows@[c]@.len());
                }
            }
        }
    }

    /// Adds every coordinate of `buckets`.
    pub fn insert_from(&mut self, buckets: &Vec<Bucket>)
        requires
            forall|i: int| 0 <= i < buckets@.len() ==> old(self).in_domain(#[trigger] buckets@[i].chrom as int, buckets@[i].idx as int),
        ensures
            final(self).wf() == old(self).wf(),
            final(self).sizes() == old(self).sizes(),
            final(self).coords() == old(self).coords().union(bucket_coords(buckets@)),
    {
        let ghost pre = *self;
        let mut i: usize = 0;
        while i < buckets.len()
            invariant
                i <= buckets@.len(),
                self.wf() == pre.wf(),
                self.sizes() == pre.sizes(),
                forall|i: int| 0 <= i < buckets@.len() ==> pre.in_domain(#[trigger] buckets@[i].chrom as int, buckets@[i].idx as int),
                self.coords() == pre.coords().union(bucket_coords(buckets@.subrange(0, i as int))),
            decreases buckets@.len() - i,
        {
            let b = buckets[i];
            self.insert(b.chrom, b.idx);
            i = i + 1;
            proof {
                let done = buckets@.subrange(0, i as int);
                let prev = buckets@.subrange(0, i - 1);
                assert forall|p: (int, int)| #[trigger] bucket_coords(done).contains(p) <==> bucket_coords(prev).insert(b.coord()).contains(p) by {
                    if bucket_coords(done).contains(p) {
                        let k = choose|k: int| 0 <= k < done.len() && #[trigger] done[k].coord() == p;
                        if k < i - 1 {
                            assert(prev[k] == done[k]);
                        }
                    }
                    if bucket_coords(prev).contains(p) {
                        let k = choose|k: int| 0 <= k < prev.len() && #[trigger] prev[k].coord() == p;
                        assert(prev[k] == done[k]);
                    }
                    if p == b.coord() {
                        assert(done[i - 1] == b);
                    }
                }
                assert(bucket_coords(done) =~= bucket_coords(prev).insert(b.coord()));
                assert(self.coords() =~= pre.coords().union(bucket_coords(done)));
            }
        }
        assert(buckets@.subrange(0, buckets@.len() as int) =~= buckets@);
    }

    /// The coordinates in the set in increasing order, interleaved as
    /// `[chrom, bucket, chrom, bucket, ...]`.
    pub fn flat_list(&self) -> (r: Vec<u32>)
        requires
            self.wf(),
        ensures
            is_sorted_listing(r@, self.coords()),
    {
        let mut out: Vec<u32> = Vec::new();
        let mut c: usize = 0;
        while c < self.rows.len()
            invariant
                self.wf(),
                c <= self.rows@.len(),
                out@.len() % 2 == 0,
                forall|k: int| 0 <= k < out@.len() / 2 ==> self.coords().contains(#[trigger] pair_at(out@, k)) && pair_at(out@, k).0 < c,
                forall|p: (int, int)| self.coords().contains(p) && p.0 < c ==> #[trigger] listed_coords(out@).contains(p),
                forall|k1: int, k2: int|
                    0 <= k1 < k2 < out@.len() / 2 ==> coord_lt(#[trigger] pair_at(out@, k1), #[trigger] pair_at(out@, k2)),
            decreases self.rows@.len() - c,
        {
            let row = &self.rows[c];
            let mut b: usize = 0;
            while b < row.len()
                invariant
                    self.wf(),
                    c < self.rows@.len(),
                    row == self.rows@[c as int],
                    b <= row@.len(),
                    out@.len() % 2 == 0,
                    forall|k: int| 0 <= k < out@.len() / 2 ==> self.coords().contains(#[trigger] pair_at(out@, k)) && coord_lt(pair_at(out@, k), (c as int, b as int)),
                    forall|p: (int, int)| self.coords().contains(p) && coord_lt(p, (c as int, b as int)) ==> #[trigger] listed_coords(out@).contains(p),
                    forall|k1: int, k2: int|
                        0 <= k1 < k2 < out@.len() / 2 ==> coord_lt(#[trigger] pair_at(out@, k1), #[trigger] pair_at(out@, k2)),
                decreases row@.len() - b,
            {
                if row[b] {
                    let ghost before = out@;
                    assert(c as int <= u32::MAX && b as int <= u32::MAX);
                    out.push(c as u32);
                    out.push(b as u32);
                    proof {
                        let n: int = before.len() as int / 2;
                        assert forall|k: int| 0 <= k < n implies #[trigger] pair_at(out@, k) == pair_at(before, k) by {
                            assert(out@[2 * k] == before[2 * k]);
                            assert(out@[2 * k + 1] == before[2 * k + 1]);
                        }
                        assert(pair_at(out@, n) == (c as int, b as int));
                        assert forall|p: (int, int)| listed_coords(before).contains(p) implies #[trigger] listed_coords(out@).contains(p) by {
                            let k = choose|k: int| 0 <= k < before.len() / 2 && #[trigger] pair_at(before, k) == p;
                            assert(pair_at(out@, k) == p);
                        }
                    }
                }
                b = b + 1;
            }
            c = c + 1;
        }
        proof {
            assert forall|p: (int, int)| #[trigger] listed_coords(out@).contains(p) <==> self.coords().contains(p) by {
                if listed_coords(out@).contains(p) {
                    let k = choose|k: int| 0 <= k < out@.len() / 2 && #[trigger] pair_at(out@, k) == p;
                }
            }
            assert(listed_coords(out@) =~= self.coords());
        }
        out
    }
}

/// Accumulating buckets into an empty set and listing it gives exactly the
/// coordinates of those buckets, as collecting them into a plain set would.
pub proof fn lemma_listing_matches_plain_set(empty: BucketList, filled: BucketList, buckets: Seq<Bucket>, listing: Seq<u32>)
    requires
        empty.coords() == Set::<(int, int)>::empty(),
        filled.coords() == empty.coords().union(bucket_coords(buckets)),
        is_sorted_listing(listing, filled.coords()),
    ensures
        listed_coords(listing) == bucket_coords(buckets),
{
    assert(filled.coords() =~= bucket_coords(buckets));
}

} // verus!
