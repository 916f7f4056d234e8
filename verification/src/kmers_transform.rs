//! The k-mer transform's reader side: the per-sub-bucket counters written
//! by the bucketing phase, the outlier rule that sends an oversized
//! sub-bucket to a resplitter, the address plan of one reader group, and
//! the distribution of decoded reads over the group's sub-buckets.

use vstd::prelude::*;
use crate::executor::{Executor, ExecutorAddress, ExecutorType, PoolObjectTrait};

verus! {

/// Count of one sub-bucket, with its outlier tag.
#[derive(Clone, Copy, PartialEq, Eq, Structural, Debug)]
pub struct BucketCounter {
    pub count: u64,
    pub is_outlier: bool,
}

/// The init packet of a reader group: which bucket file to read, its
/// sub-bucket counters, and whether it already went through a resplit.
pub struct InputBucketDesc {
    pub path: String,
    pub sub_bucket_counters: Vec<BucketCounter>,
    pub resplitted: bool,
}

impl crate::packet::PacketTrait for InputBucketDesc {

}

impl PoolObjectTrait for InputBucketDesc {
    fn allocate_new() -> Self {
        InputBucketDesc { path: String::new(), sub_bucket_counters: Vec::new(), resplitted: false }
    }

    fn reset(&mut self) {
        self.resplitted = false;
        self.sub_bucket_counters = Vec::new();
    }
}

/// Sum of the counts before `upto`.
pub open spec fn counts_sum(s: Seq<u64>, upto: int) -> int
    decreases upto,
{
    if upto <= 0 {
        0
    } else {
        counts_sum(s, upto - 1) + s[upto - 1]
    }
}

/// Sum of squared deviations from `mean` before `upto`.
pub open spec fn sq_dev_sum(s: Seq<u64>, mean: int, upto: int) -> int
    decreases upto,
{
    if upto <= 0 {
        0
    } else {
        sq_dev_sum(s, mean, upto - 1) + (s[upto - 1] - mean) * (s[upto - 1] - mean)
    }
}

/// The outlier rule: a sub-bucket whose count exceeds the mean by more
/// than `f` standard deviations. Stated without square roots:
/// `(c - mean)^2 * n > f^2 * sum((c_i - mean)^2)` together with
/// `c > mean`.
pub open spec fn is_outlier_spec(s: Seq<u64>, f: int, i: int) -> bool {
    let n = s.len() as int;
    let mean = counts_sum(s, n) / n;
    let d = s[i] - mean;
    s[i] > mean && d * d * n > f * f * sq_dev_sum(s, mean, n)
}

/// Sums are monotone and bounded by the number and size of the counts.
proof fn lemma_counts_sum_bound(s: Seq<u64>, upto: int, bound: int)
    requires
        0 <= upto <= s.len(),
        forall|i: int| 0 <= i < s.len() ==> s[i] <= bound,
        bound >= 0,
    ensures
        0 <= counts_sum(s, upto) <= upto * bound,
    decreases upto,
{
    if upto > 0 {
        lemma_counts_sum_bound(s, upto - 1, bound);
        assert((upto - 1) * bound + bound == upto * bound) by (nonlinear_arith);
    }
}

/// Tags each sub-bucket count with the outlier rule's verdict.
pub fn analyze_counters(counts: &Vec<u64>, f: u64) -> (r: Vec<BucketCounter>)
    requires
        1 <= counts@.len() <= 0xffff_ffff,
        forall|i: int| 0 <= i < counts@.len() ==> counts@[i] <= 0xffff_ffff,
        f <= 0xffff,
    ensures
        r@.len() == counts@.len(),
        forall|i: int|
            0 <= i < counts@.len() ==> r@[i] == (BucketCounter {
                count: counts@[i],
                is_outlier: is_outlier_spec(counts@, f as int, i),
            }),
{
    let n = counts.len();
    let ghost cb: int = 0xffff_ffff;
    proof {
        lemma_counts_sum_bound(counts@, n as int, cb);
    }
    let mut sum: u128 = 0;
    let mut i: usize = 0;
    while i < n
        invariant
            i <= n,
            n == counts@.len(),
            1 <= n <= 0xffff_ffff,
            forall|q: int| 0 <= q < n ==> counts@[q] <= 0xffff_ffff,
            sum == counts_sum(counts@, i as int),
            sum <= (i as int) * 0xffff_ffff,
        decreases n - i,
    {
        proof {
            assert((i as int) * 0xffff_ffff + 0xffff_ffff == (i + 1) * 0xffff_ffff)
                by (nonlinear_arith);
            assert((i + 1) * 0xffff_ffff <= 0xffff_ffff * 0xffff_ffff) by (nonlinear_arith)
                requires i + 1 <= 0xffff_ffff,
            {}
        }
        sum = sum + counts[i] as u128;
        i = i + 1;
    }
    proof {
        assert((sum as int) / (n as int) <= 0xffff_ffff) by (nonlinear_arith)
            requires
                sum as int <= (n as int) * 0xffff_ffff,
                n >= 1,
                sum >= 0,
        {}
        assert((sum as int) / (n as int) >= 0) by (nonlinear_arith)
            requires sum >= 0, n >= 1,
        {}
    }
    let mean: u64 = (sum / (n as u128)) as u64;
    let ghost meani = mean as int;
    proof {
        assert(meani == counts_sum(counts@, n as int) / (n as int));
        assert(meani <= 0xffff_ffff);
    }
    let mut sq: u128 = 0;
    let mut j: usize = 0;
    while j < n
        invariant
            j <= n,
            n == counts@.len(),
            1 <= n <= 0xffff_ffff,
            forall|q: int| 0 <= q < n ==> counts@[q] <= 0xffff_ffff,
            meani == mean as int,
            0 <= meani <= 0xffff_ffff,
            sq == sq_dev_sum(counts@, meani, j as int),
            sq <= (j as int) * (0xffff_ffff * 0xffff_ffff),
        decreases n - j,
    {
        let c = counts[j];
        let d: u64 = if c >= mean {
            c - mean
        } else {
            mean - c
        };
        proof {
            assert(d <= 0xffff_ffff);
            assert((d as int) * (d as int) == (counts@[j as int] - meani) * (counts@[j as int]
                - meani)) by (nonlinear_arith)
                requires
                    d as int == if counts@[j as int] >= meani {
                        counts@[j as int] - meani
                    } else {
                        meani - counts@[j as int]
                    },
            {}
            assert((d as int) * (d as int) <= 0xffff_ffff * 0xffff_ffff) by (nonlinear_arith)
                requires 0 <= d as int <= 0xffff_ffff,
            {}
            assert((j as int) * (0xffff_ffff * 0xffff_ffff) + 0xffff_ffff * 0xffff_ffff == (j + 1)
                * (0xffff_ffff * 0xffff_ffff)) by (nonlinear_arith);
            assert((j + 1) * (0xffff_ffff * 0xffff_ffff) <= 0xffff_ffff * (0xffff_ffff
                * 0xffff_ffff)) by (nonlinear_arith)
                requires j + 1 <= 0xffff_ffff,
            {}
        }
        let dd: u128 = (d as u128) * (d as u128);
        sq = sq + dd;
        j = j + 1;
    }
    let mut r: Vec<BucketCounter> = Vec::new();
    let mut t: usize = 0;
    while t < n
        invariant
            t <= n,
            n == counts@.len(),
            1 <= n <= 0xffff_ffff,
            forall|q: int| 0 <= q < n ==> counts@[q] <= 0xffff_ffff,
            meani == mean as int,
            0 <= meani <= 0xffff_ffff,
            f <= 0xffff,
            sq == sq_dev_sum(counts@, meani, n as int),
            sq <= (n as int) * (0xffff_ffff * 0xffff_ffff),
            meani == counts_sum(counts@, n as int) / (n as int),
            r@.len() == t,
            forall|q: int|
                0 <= q < t ==> r@[q] == (BucketCounter {
                    count: counts@[q],
                    is_outlier: is_outlier_spec(counts@, f as int, q),
                }),
        decreases n - t,
    {
        let c = counts[t];
        let outlier: bool = if c > mean {
            let d: u64 = c - mean;
            proof {
                assert(d <= 0xffff_ffff);
                assert((d as int) * (d as int) <= 0xffff_ffff * 0xffff_ffff) by (nonlinear_arith)
                    requires 0 <= d as int <= 0xffff_ffff,
                {}
                assert((d as int) * (d as int) * (n as int) <= (0xffff_ffff * 0xffff_ffff)
                    * 0xffff_ffff) by (nonlinear_arith)
                    requires
                        0 <= (d as int) * (d as int) <= 0xffff_ffff * 0xffff_ffff,
                        0 <= n as int <= 0xffff_ffff,
                {}
                assert((f as int) * (f as int) <= 0xffff * 0xffff) by (nonlinear_arith)
                    requires 0 <= f <= 0xffff,
                {}
                assert(sq as int <= 0xffff_ffff * (0xffff_ffff * 0xffff_ffff)) by (nonlinear_arith)
                    requires
                        sq as int <= (n as int) * (0xffff_ffff * 0xffff_ffff),
                        0 <= n as int <= 0xffff_ffff,
                {}
                assert((f as int) * (f as int) * (sq as int) <= (0xffff * 0xffff) * (0xffff_ffff
                    * (0xffff_ffff * 0xffff_ffff))) by (nonlinear_arith)
                    requires
                        0 <= (f as int) * (f as int) <= 0xffff * 0xffff,
                        0 <= sq as int <= 0xffff_ffff * (0xffff_ffff * 0xffff_ffff),
                {}
            }
            let lhs: u128 = (d as u128) * (d as u128) * (n as u128);
            let rhs: u128 = (f as u128) * (f as u128) * sq;
            lhs > rhs
        } else {
            false
        };
        proof {
            assert(outlier == is_outlier_spec(counts@, f as int, t as int));
        }
        r.push(BucketCounter { count: c, is_outlier: outlier });
        t = t + 1;
    }
    r
}

/// Where each sub-bucket of a reader group sends its reads: an outlier of
/// a not-yet-resplit bucket goes to a resplitter, everything else to a
/// processor.
#[derive(Clone, Copy, PartialEq, Eq, Structural, Debug)]
pub enum AddressKind {
    Resplitter,
    Processor,
}

/// Plans one reader group: one downstream address kind per sub-bucket.
pub fn plan_group_addresses(
    resplitted: bool,
    counters: &Vec<BucketCounter>,
    second_buckets_count_log: usize,
) -> (r: Vec<AddressKind>)
    requires
        second_buckets_count_log < 32,
    ensures
        r@.len() == (1usize << second_buckets_count_log),
        forall|i: int|
            0 <= i < r@.len() ==> r@[i] == (if !resplitted && i < counters@.len()
                && counters@[i].is_outlier {
                AddressKind::Resplitter
            } else {
                AddressKind::Processor
            }),
{
    let count: usize = 1usize << second_buckets_count_log;
    let mut r: Vec<AddressKind> = Vec::new();
    let mut i: usize = 0;
    while i < count
        invariant
            i <= count,
            r@.len() == i,
            forall|q: int|
                0 <= q < i ==> r@[q] == (if !resplitted && q < counters@.len()
                    && counters@[q].is_outlier {
                    AddressKind::Resplitter
                } else {
                    AddressKind::Processor
                }),
        decreases count - i,
    {
        if !resplitted && i < counters.len() && counters[i].is_outlier {
            r.push(AddressKind::Resplitter);
        } else {
            r.push(AddressKind::Processor);
        }
        i = i + 1;
    }
    r
}

/// The reads (by index) that belong to sub-bucket `b`, among the first
/// `upto` reads.
pub open spec fn bucket_members(bk: Seq<usize>, b: int, upto: int) -> Seq<usize>
    decreases upto,
{
    if upto <= 0 {
        Seq::empty()
    } else if bk[upto - 1] == b {
        bucket_members(bk, b, upto - 1).push((upto - 1) as usize)
    } else {
        bucket_members(bk, b, upto - 1)
    }
}

/// Distributes decoded reads over the group's sub-buckets: read `i` goes
/// to buffer `buckets_of[i]`, keeping read order inside each buffer.
pub fn distribute_reads(buckets_of: &Vec<usize>, nbuckets: usize) -> (r: Vec<Vec<usize>>)
    requires
        forall|i: int| 0 <= i < buckets_of@.len() ==> #[trigger] buckets_of@[i] < nbuckets,
    ensures
        r@.len() == nbuckets,
        forall|b: int|
            0 <= b < nbuckets ==> (#[trigger] r@[b])@ == bucket_members(
                buckets_of@,
                b,
                buckets_of@.len() as int,
            ),
{
    let n = buckets_of.len();
    let mut r: Vec<Vec<usize>> = Vec::new();
    let mut b: usize = 0;
    while b < nbuckets
        invariant
            b <= nbuckets,
            n == buckets_of@.len(),
            r@.len() == b,
            forall|q: int|
                0 <= q < b ==> (#[trigger] r@[q])@ == bucket_members(buckets_of@, q, n as int),
        decreases nbuckets - b,
    {
        let mut inner: Vec<usize> = Vec::new();
        let mut i: usize = 0;
        while i < n
            invariant
                i <= n,
                n == buckets_of@.len(),
                inner@ == bucket_members(buckets_of@, b as int, i as int),
            decreases n - i,
        {
            if buckets_of[i] == b {
                inner.push(i);
            }
            i = i + 1;
        }
        r.push(inner);
        b = b + 1;
    }
    r
}

/// The reader executor: takes one bucket description and plans its
/// group. Its scheduling parameters mirror the reader's place in the
/// pipeline: lowest base priority, packets weighted double.
pub struct KmersTransformReader {
    pub second_buckets_count_log: usize,
    pub finished: bool,
}

impl Executor for KmersTransformReader {
    type InputPacket = InputBucketDesc;

    type OutputPacket = Vec<AddressKind>;

    fn executor_type(&self) -> ExecutorType {
        ExecutorType::NeedsInitPacket
    }

    fn base_priority(&self) -> u64 {
        0
    }

    fn packet_priority_multiplier(&self) -> u64 {
        2
    }

    fn is_finished(&self) -> bool {
        self.finished
    }

    fn get_total_memory(&self) -> u64 {
        0
    }

    fn execute(&mut self, input: Self::InputPacket) -> Vec<(ExecutorAddress, Self::OutputPacket)> {
        if self.second_buckets_count_log < 32 {
            let plan = plan_group_addresses(
                input.resplitted,
                &input.sub_bucket_counters,
                self.second_buckets_count_log,
            );
            self.finished = true;
            let mut out: Vec<(ExecutorAddress, Vec<AddressKind>)> = Vec::new();
            out.push((ExecutorAddress { executor_type_id: 0, executor_internal_id: 0 }, plan));
            out
        } else {
            Vec::new()
        }
    }
}

} // verus!
