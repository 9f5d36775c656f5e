//! Integer core of the rank-portfolio metrics: rank buckets, hit counts, and
//! confusion counts between predicted and observed buckets.
use vstd::prelude::*;
use crate::error::{invalid_input, outcome, Result};
use crate::lex::{lex_lt, str_lt, lemma_lex_irreflexive, lemma_lex_transitive, lemma_lex_total};
use crate::stable::{StableSortKey, stably_sorted, stable_sort_positions, ties};
use crate::text::{is_blank, is_blank_str};

verus! {

/// Side of a portfolio position.
#[derive(Debug, Clone, Copy, PartialEq, Eq, Structural)]
pub enum PortfolioSide {
    Long,
    Short,
}

/// Sort key that lists long positions before short ones.
pub fn portfolio_side_sort_key(side: PortfolioSide) -> (key: u8)
    ensures
        key == (match side {
            PortfolioSide::Long => 0u8,
            PortfolioSide::Short => 1u8,
        }),
{
    match side {
        PortfolioSide::Long => 0,
        PortfolioSide::Short => 1,
    }
}

/// Observed and predicted rank bucket of one asset.
#[derive(Debug, Clone, Copy, PartialEq, Eq, Structural)]
pub struct RankBucketPrediction {
    pub observed_bucket: usize,
    pub predicted_bucket: usize,
}

/// Counts behind the rank hit rates.
#[derive(Debug, Clone, Copy, PartialEq, Eq, Structural)]
pub struct RankHitCounts {
    /// Number of assets scored.
    pub asset_count: usize,
    /// Assets whose predicted bucket is the observed one.
    pub exact_count: usize,
    /// Assets whose predicted bucket is at most one away from the observed one.
    pub within_one_count: usize,
    /// Assets predicted into the lowest or the highest bucket.
    pub directional_extreme_count: usize,
    /// Extreme predictions whose bucket is the observed one.
    pub directional_extreme_hits: usize,
}

/// Distance between two buckets.
pub open spec fn bucket_distance(a: usize, b: usize) -> int {
    if a >= b {
        a - b
    } else {
        b - a
    }
}

/// Number of the first `n` rows for which `p` holds.
pub open spec fn count_rows(rows: Seq<RankBucketPrediction>, n: int, p: spec_fn(
    RankBucketPrediction,
) -> bool) -> nat
    decreases n,
{
    if n <= 0 {
        0
    } else {
        count_rows(rows, n - 1, p) + if p(rows[n - 1]) {
            1nat
        } else {
            0nat
        }
    }
}

/// The prediction falls in the lowest or the highest of `bucket_count` buckets.
pub open spec fn is_extreme(row: RankBucketPrediction, bucket_count: usize) -> bool {
    row.predicted_bucket == 0 || row.predicted_bucket == bucket_count - 1
}

/// Every bucket of every row lies below `bucket_count`.
pub open spec fn buckets_in_range(rows: Seq<RankBucketPrediction>, bucket_count: usize) -> bool {
    forall|i: int|
        0 <= i < rows.len() ==> #[trigger] rows[i].observed_bucket < bucket_count
            && rows[i].predicted_bucket < bucket_count
}

/// Counts exact, within-one and extreme-bucket hits among the rows.
pub fn rank_hit_counts(asset_rows: &[RankBucketPrediction], bucket_count: usize) -> (r: Result<
    RankHitCounts,
>)
    ensures
        match r {
            Ok(counts) => {
                let rows = asset_rows@;
                let n = rows.len() as int;
                &&& bucket_count > 0
                &&& buckets_in_range(rows, bucket_count)
                &&& counts.asset_count == n
                &&& counts.exact_count == count_rows(
                    rows,
                    n,
                    |row: RankBucketPrediction| row.observed_bucket == row.predicted_bucket,
                )
                &&& counts.within_one_count == count_rows(
                    rows,
                    n,
                    |row: RankBucketPrediction|
                        bucket_distance(row.observed_bucket, row.predicted_bucket) <= 1,
                )
                &&& counts.directional_extreme_count == count_rows(
                    rows,
                    n,
                    |row: RankBucketPrediction| is_extreme(row, bucket_count),
                )
                &&& counts.directional_extreme_hits == count_rows(
                    rows,
                    n,
                    |row: RankBucketPrediction|
                        is_extreme(row, bucket_count) && row.observed_bucket
                            == row.predicted_bucket,
                )
            },
            Err(e) => bucket_count == 0 && e.text() == "bucket_count must be positive"@
                || bucket_count > 0 && !buckets_in_range(asset_rows@, bucket_count) && e.text()
                == "observed and predicted buckets must be inside bucket_count"@,
        },
{
    if bucket_count == 0 {
        return Err(invalid_input("bucket_count must be positive"));
    }
    let ghost rows = asset_rows@;
    let ghost exact_p = |row: RankBucketPrediction| row.observed_bucket == row.predicted_bucket;
    let ghost within_p = |row: RankBucketPrediction|
        bucket_distance(row.observed_bucket, row.predicted_bucket) <= 1;
    let ghost extreme_p = |row: RankBucketPrediction| is_extreme(row, bucket_count);
    let ghost hit_p = |row: RankBucketPrediction|
        is_extreme(row, bucket_count) && row.observed_bucket == row.predicted_bucket;
    let mut exact: usize = 0;
    let mut within_one: usize = 0;
    let mut extreme_hits: usize = 0;
    let mut extreme_count: usize = 0;
    let last_bucket = bucket_count - 1;
    let mut i: usize = 0;
    let mut valid = true;
    while i < asset_rows.len()
        invariant
            i <= rows.len(),
            rows == asset_rows@,
            bucket_count > 0,
            last_bucket == bucket_count - 1,
            valid ==> buckets_in_range(rows.take(i as int), bucket_count),
            !valid ==> !buckets_in_range(rows, bucket_count),
            valid ==> exact == count_rows(rows, i as int, exact_p),
            valid ==> within_one == count_rows(rows, i as int, within_p),
            valid ==> extreme_count == count_rows(rows, i as int, extreme_p),
            valid ==> extreme_hits == count_rows(rows, i as int, hit_p),
            exact <= i && within_one <= i && extreme_count <= i && extreme_hits <= i,
            exact_p == (|row: RankBucketPrediction| row.observed_bucket == row.predicted_bucket),
            within_p == (|row: RankBucketPrediction|
                bucket_distance(row.observed_bucket, row.predicted_bucket) <= 1),
            extreme_p == (|row: RankBucketPrediction| is_extreme(row, bucket_count)),
            hit_p == (|row: RankBucketPrediction|
                is_extreme(row, bucket_count) && row.observed_bucket == row.predicted_bucket),
        decreases asset_rows.len() - i,
    {
        let row = asset_rows[i];
        if valid {
            if row.observed_bucket >= bucket_count || row.predicted_bucket >= bucket_count {
                valid = false;
                assert(!buckets_in_range(rows, bucket_count)) by {
                    assert(rows[i as int] == row);
                }
            } else {
                let distance = if row.observed_bucket >= row.predicted_bucket {
                    row.observed_bucket - row.predicted_bucket
                } else {
                    row.predicted_bucket - row.observed_bucket
                };
                if distance == 0 {
                    exact = exact + 1;
                }
                if distance <= 1 {
                    within_one = within_one + 1;
                }
                if row.predicted_bucket == 0 || row.predicted_bucket == last_bucket {
                    extreme_count = extreme_count + 1;
                    if row.observed_bucket == row.predicted_bucket {
                        extreme_hits = extreme_hits + 1;
                    }
                }
                assert(rows[i as int] == row);
                assert(buckets_in_range(rows.take(i + 1), bucket_count)) by {
                    assert forall|k: int| 0 <= k < i + 1 implies #[trigger] rows.take(i + 1)[k].observed_bucket
                        < bucket_count && rows.take(i + 1)[k].predicted_bucket < bucket_count by {
                        if k < i {
                            assert(rows.take(i + 1)[k] == rows.take(i as int)[k]);
                        }
                    }
                }
            }
        }
        i = i + 1;
    }
    if !valid {
        return Err(invalid_input("observed and predicted buckets must be inside bucket_count"));
    }
    assert(rows.take(rows.len() as int) =~= rows);
    Ok(RankHitCounts {
        asset_count: asset_rows.len(),
        exact_count: exact,
        within_one_count: within_one,
        directional_extreme_count: extreme_count,
        directional_extreme_hits: extreme_hits,
    })
}

/// Key of an IEEE-754 double's bit pattern whose unsigned order is the double's
/// total order (`f64::total_cmp`): negatives flip all bits, the rest flip the sign bit.
pub open spec fn spec_total_order_key(bits: u64) -> u64 {
    if bits >= 0x8000_0000_0000_0000u64 {
        !bits
    } else {
        bits | 0x8000_0000_0000_0000u64
    }
}

/// Order key of a double given by its bit pattern (`f64::to_bits`).
pub fn total_order_key(bits: u64) -> (key: u64)
    ensures
        key == spec_total_order_key(bits),
{
    if bits >= 0x8000_0000_0000_0000u64 {
        !bits
    } else {
        bits | 0x8000_0000_0000_0000u64
    }
}

/// Row `j` comes before row `i` when ordering by key, then by position.
pub open spec fn ranks_before(keys: Seq<u64>, j: int, i: int) -> bool {
    keys[j] < keys[i] || (keys[j] == keys[i] && j < i)
}

/// Number of rows among the first `m` that come before row `i`.
pub open spec fn rank_count(keys: Seq<u64>, i: int, m: int) -> nat
    decreases m,
{
    if m <= 0 {
        0
    } else {
        rank_count(keys, i, m - 1) + if ranks_before(keys, m - 1, i) {
            1nat
        } else {
            0nat
        }
    }
}

/// Position of row `i` when the rows are ordered by key, ties by position.
pub open spec fn rank_of(keys: Seq<u64>, i: int) -> nat {
    rank_count(keys, i, keys.len() as int)
}

/// Bucket of row `i`: its rank scaled to `bucket_count` buckets.
pub open spec fn rank_bucket(keys: Seq<u64>, i: int, bucket_count: nat) -> int {
    let scaled = (rank_of(keys, i) * bucket_count) / (keys.len() as nat);
    if scaled < bucket_count - 1 {
        scaled as int
    } else {
        bucket_count - 1
    }
}

/// Assigns each row to one of `bucket_count` equal-frequency rank buckets by its
/// order key, ties broken by position.
pub fn rank_buckets_by_key(keys: &[u64], bucket_count: usize) -> (r: Result<Vec<usize>>)
    ensures
        match r {
            Ok(buckets) => bucket_count > 0 && buckets@.len() == keys@.len() && forall|i: int|
                0 <= i < keys@.len() ==> #[trigger] buckets@[i] == rank_bucket(
                    keys@,
                    i,
                    bucket_count as nat,
                ),
            Err(e) => bucket_count == 0 && e.text() == "bucket_count must be positive"@,
        },
{
    if bucket_count == 0 {
        return Err(invalid_input("bucket_count must be positive"));
    }
    let n = keys.len();
    let mut buckets: Vec<usize> = Vec::new();
    let mut i: usize = 0;
    while i < n
        invariant
            n == keys@.len(),
            i <= n,
            bucket_count > 0,
            buckets@.len() == i,
            forall|k: int| 0 <= k < i ==> #[trigger] buckets@[k] == rank_bucket(
                keys@,
                k,
                bucket_count as nat,
            ),
        decreases n - i,
    {
        let mut rank: usize = 0;
        let mut j: usize = 0;
        while j < n
            invariant
                n == keys@.len(),
                i < n,
                j <= n,
                rank == rank_count(keys@, i as int, j as int),
                rank <= j,
            decreases n - j,
        {
            if keys[j] < keys[i] || (keys[j] == keys[i] && j < i) {
                rank = rank + 1;
            }
            j = j + 1;
        }
        assert((rank as u128) * (bucket_count as u128) <= u128::MAX) by (nonlinear_arith)
            requires
                rank <= usize::MAX,
                bucket_count <= usize::MAX,
                usize::MAX <= u64::MAX,
        ;
        let scaled = (rank as u128) * (bucket_count as u128) / (n as u128);
        let bucket: usize = if scaled < (bucket_count - 1) as u128 {
            scaled as usize
        } else {
            bucket_count - 1
        };
        buckets.push(bucket);
        i = i + 1;
    }
    Ok(buckets)
}

proof fn lemma_rank_count_monotone(keys: Seq<u64>, i: int, j: int, m: int)
    requires
        0 <= i < keys.len(),
        0 <= j < keys.len(),
        ranks_before(keys, i, j),
        0 <= m <= keys.len(),
    ensures
        rank_count(keys, i, m) <= rank_count(keys, j, m),
    decreases m,
{
    if m > 0 {
        lemma_rank_count_monotone(keys, i, j, m - 1);
    }
}

/// Rank buckets respect the order of the keys: a row that ranks before another
/// never lands in a higher bucket.
pub proof fn lemma_rank_buckets_monotone(keys: Seq<u64>, i: int, j: int, bucket_count: nat)
    requires
        0 <= i < keys.len(),
        0 <= j < keys.len(),
        bucket_count > 0,
        ranks_before(keys, i, j),
    ensures
        rank_bucket(keys, i, bucket_count) <= rank_bucket(keys, j, bucket_count),
{
    lemma_rank_count_monotone(keys, i, j, keys.len() as int);
    let ri = rank_of(keys, i);
    let rj = rank_of(keys, j);
    let n = keys.len() as nat;
    assert(ri * bucket_count <= rj * bucket_count) by (nonlinear_arith)
        requires
            ri <= rj,
    ;
    vstd::arithmetic::div_mod::lemma_div_is_ordered(
        (ri * bucket_count) as int,
        (rj * bucket_count) as int,
        n as int,
    );
}

/// Every pair of buckets lies below `bucket_count`.
pub open spec fn pairs_in_range(actual: Seq<usize>, predicted: Seq<usize>, bucket_count: usize) -> bool {
    forall|i: int|
        0 <= i < actual.len() ==> #[trigger] actual[i] < bucket_count && predicted[i] < bucket_count
}

/// Number of the first `m` rows predicted into bucket `p` and observed in bucket `a`.
pub open spec fn pair_count(actual: Seq<usize>, predicted: Seq<usize>, p: int, a: int, m: int) -> nat
    decreases m,
{
    if m <= 0 {
        0
    } else {
        pair_count(actual, predicted, p, a, m - 1) + if predicted[m - 1] == p && actual[m - 1]
            == a {
            1nat
        } else {
            0nat
        }
    }
}

/// Confusion counts between predicted (rows) and observed (columns) rank buckets,
/// the evidence behind rank-probability calibration.
pub fn rank_confusion_counts(
    actual_buckets: &[usize],
    predicted_buckets: &[usize],
    bucket_count: usize,
) -> (r: Result<Vec<Vec<usize>>>)
    ensures
        match r {
            Ok(counts) => {
                &&& bucket_count > 0
                &&& actual_buckets@.len() == predicted_buckets@.len()
                &&& pairs_in_range(actual_buckets@, predicted_buckets@, bucket_count)
                &&& counts@.len() == bucket_count
                &&& forall|p: int|
                    0 <= p < bucket_count ==> (#[trigger] counts@[p])@.len() == bucket_count
                        && forall|a: int|
                        0 <= a < bucket_count ==> #[trigger] counts@[p]@[a] == pair_count(
                            actual_buckets@,
                            predicted_buckets@,
                            p,
                            a,
                            actual_buckets@.len() as int,
                        )
            },
            Err(e) => {
                ||| bucket_count == 0 && e.text() == "bucket_count must be positive"@
                ||| bucket_count > 0 && actual_buckets@.len() != predicted_buckets@.len()
                    && e.text()
                    == "actual and predicted bucket lists must have the same length"@
                ||| bucket_count > 0 && actual_buckets@.len() == predicted_buckets@.len()
                    && !pairs_in_range(actual_buckets@, predicted_buckets@, bucket_count)
                    && e.text() == "actual and predicted buckets must be inside bucket_count"@
            },
        },
{
    if bucket_count == 0 {
        return Err(invalid_input("bucket_count must be positive"));
    }
    if actual_buckets.len() != predicted_buckets.len() {
        return Err(invalid_input("actual and predicted bucket lists must have the same length"));
    }
    let n = actual_buckets.len();
    let mut k: usize = 0;
    let mut valid = true;
    while k < n
        invariant
            n == actual_buckets@.len(),
            n == predicted_buckets@.len(),
            k <= n,
            valid == pairs_in_range(
                actual_buckets@.take(k as int),
                predicted_buckets@.take(k as int),
                bucket_count,
            ),
        decreases n - k,
    {
        if actual_buckets[k] >= bucket_count || predicted_buckets[k] >= bucket_count {
            valid = false;
        }
        assert(pairs_in_range(
            actual_buckets@.take(k + 1),
            predicted_buckets@.take(k + 1),
            bucket_count,
        ) == (pairs_in_range(
            actual_buckets@.take(k as int),
            predicted_buckets@.take(k as int),
            bucket_count,
        ) && actual_buckets@[k as int] < bucket_count && predicted_buckets@[k as int]
            < bucket_count)) by {
            let a1 = actual_buckets@.take(k + 1);
            let p1 = predicted_buckets@.take(k + 1);
            let a0 = actual_buckets@.take(k as int);
            let p0 = predicted_buckets@.take(k as int);
            assert forall|t: int| 0 <= t < k implies a1[t] == a0[t] && p1[t] == p0[t] by {}
            assert(a1[k as int] == actual_buckets@[k as int]);
            assert(p1[k as int] == predicted_buckets@[k as int]);
        }
        k = k + 1;
    }
    assert(actual_buckets@.take(n as int) =~= actual_buckets@);
    assert(predicted_buckets@.take(n as int) =~= predicted_buckets@);
    if !valid {
        return Err(invalid_input("actual and predicted buckets must be inside bucket_count"));
    }
    let mut counts: Vec<Vec<usize>> = Vec::new();
    let mut p: usize = 0;
    while p < bucket_count
        invariant
            n == actual_buckets@.len(),
            n == predicted_buckets@.len(),
            p <= bucket_count,
            counts@.len() == p,
            forall|q: int|
                0 <= q < p ==> (#[trigger] counts@[q])@.len() == bucket_count && forall|a: int|
                    0 <= a < bucket_count ==> #[trigger] counts@[q]@[a] == pair_count(
                        actual_buckets@,
                        predicted_buckets@,
                        q,
                        a,
                        n as int,
                    ),
        decreases bucket_count - p,
    {
        let mut row: Vec<usize> = Vec::new();
        let mut a: usize = 0;
        while a < bucket_count
            invariant
                n == actual_buckets@.len(),
                n == predicted_buckets@.len(),
                p < bucket_count,
                a <= bucket_count,
                row@.len() == a,
                forall|b: int| 0 <= b < a ==> #[trigger] row@[b] == pair_count(
                    actual_buckets@,
                    predicted_buckets@,
                    p as int,
                    b,
                    n as int,
                ),
            decreases bucket_count - a,
        {
            let mut count: usize = 0;
            let mut m: usize = 0;
            while m < n
                invariant
                    n == actual_buckets@.len(),
                    n == predicted_buckets@.len(),
                    m <= n,
                    count <= m,
                    count == pair_count(actual_buckets@, predicted_buckets@, p as int, a as int, m as int),
                decreases n - m,
            {
                if predicted_buckets[m] == p && actual_buckets[m] == a {
                    count = count + 1;
                }
                m = m + 1;
            }
            row.push(count);
            a = a + 1;
        }
        counts.push(row);
        p = p + 1;
    }
    Ok(counts)
}

/// A sort key made of a number, then a text.
#[derive(Debug, Clone, PartialEq, Eq)]
pub struct RankedText {
    pub rank: u64,
    pub text: String,
}

impl StableSortKey for RankedText {
    open spec fn before(self, other: Self) -> bool {
        self.rank < other.rank || (self.rank == other.rank && lex_lt(self.text@, other.text@))
    }

    proof fn lemma_irreflexive(a: Self) {
        lemma_lex_irreflexive(a.text@);
    }

    proof fn lemma_transitive(a: Self, b: Self, c: Self) {
        if a.rank == b.rank && b.rank == c.rank {
            lemma_lex_transitive(a.text@, b.text@, c.text@);
        }
    }

    proof fn lemma_split(a: Self, b: Self, c: Self) {
        lemma_lex_total(a.text@, c.text@);
        if a.rank == b.rank && b.rank == c.rank && lex_lt(c.text@, a.text@) {
            lemma_lex_transitive(c.text@, a.text@, b.text@);
        }
    }

    fn precedes(&self, other: &Self) -> (before: bool) {
        self.rank < other.rank || (self.rank == other.rank && str_lt(self.text.as_str(), other.text.as_str()))
    }
}

/// Stable sortedness depends on the keys only through how they compare.
proof fn lemma_sorted_by_same_comparisons(a: Seq<RankedText>, b: Seq<RankedText>, order: Seq<usize>)
    requires
        a.len() == b.len(),
        forall|i: int| 0 <= i < a.len() ==> (#[trigger] a[i]).rank == b[i].rank && a[i].text@ == b[i].text@,
        stably_sorted(a, order),
    ensures
        stably_sorted(b, order),
{
    assert forall|k: int, l: int| 0 <= k < l < order.len() implies !b[#[trigger] order[l] as int].before(
        b[#[trigger] order[k] as int],
    ) by {
        assert(a[order[l] as int].rank == b[order[l] as int].rank);
        assert(a[order[k] as int].rank == b[order[k] as int].rank);
    }
    assert forall|k: int, l: int|
        0 <= k < l < order.len() && ties(b[#[trigger] order[k] as int], b[#[trigger] order[l] as int]) implies order[k]
        < order[l] by {
        assert(a[order[l] as int].rank == b[order[l] as int].rank);
        assert(a[order[k] as int].rank == b[order[k] as int].rank);
    }
}

/// What the choice of extreme positions reads of one asset.
#[derive(Debug, Clone, PartialEq, Eq)]
pub struct PortfolioAssetFacts {
    pub series_id: String,
    /// Total-order key of the predicted return, as `total_order_key` gives it.
    pub predicted_key: u64,
    /// Both the actual and the predicted return are finite.
    pub returns_finite: bool,
}

/// One chosen position: the asset and its side. Its weight, `-0.5` or `0.5`
/// divided by the number of positions per side, is a floating-point value.
#[derive(Debug, Clone, Copy, PartialEq, Eq, Structural)]
pub struct ExtremeDecision {
    pub asset: usize,
    pub side: PortfolioSide,
}

/// What is wrong with asset `i`, if anything.
pub open spec fn portfolio_asset_issue(assets: Seq<PortfolioAssetFacts>, i: int) -> Option<Seq<char>> {
    if is_blank(assets[i].series_id@) {
        Some("rank portfolio portfolio asset ids must be non-empty"@)
    } else if !assets[i].returns_finite {
        Some("rank portfolio portfolio asset returns must be finite"@)
    } else {
        None
    }
}

/// The first issue among assets from position `i` on.
pub open spec fn portfolio_assets_issue(assets: Seq<PortfolioAssetFacts>, i: int) -> Option<Seq<char>>
    decreases assets.len() - i,
{
    if i >= assets.len() {
        None
    } else if portfolio_asset_issue(assets, i) is Some {
        portfolio_asset_issue(assets, i)
    } else {
        portfolio_assets_issue(assets, i + 1)
    }
}

/// The assets' sort keys: predicted return, then series id.
pub open spec fn asset_keys(assets: Seq<PortfolioAssetFacts>) -> Seq<RankedText> {
    Seq::new(assets.len(), |i: int| RankedText { rank: assets[i].predicted_key, text: assets[i].series_id })
}

/// Number of positions on each side among `n` assets: a fifth of them, at least one.
pub open spec fn positions_per_side(n: int) -> int {
    if n / 5 > 1 {
        n / 5
    } else {
        1
    }
}

/// The rank of a side in the output: long positions first.
pub open spec fn side_rank(side: PortfolioSide) -> u64 {
    match side {
        PortfolioSide::Long => 0,
        PortfolioSide::Short => 1,
    }
}

/// The positions taken from assets in increasing order of predicted return:
/// the `per_side` lowest as shorts, then the `per_side` highest, highest first,
/// as longs.
pub open spec fn extreme_picks(order: Seq<usize>, per_side: int) -> Seq<ExtremeDecision> {
    Seq::new(
        (2 * per_side) as nat,
        |j: int|
            if j < per_side {
                ExtremeDecision { asset: order[j], side: PortfolioSide::Short }
            } else {
                ExtremeDecision { asset: order[order.len() - 1 - (j - per_side)], side: PortfolioSide::Long }
            },
    )
}

/// The output sort keys of picked positions: side, then series id.
pub open spec fn pick_keys(assets: Seq<PortfolioAssetFacts>, picks: Seq<ExtremeDecision>) -> Seq<RankedText> {
    Seq::new(
        picks.len(),
        |j: int| RankedText { rank: side_rank(picks[j].side), text: assets[picks[j].asset as int].series_id },
    )
}

/// `decisions` are the extreme positions of `assets`: the picks made from the
/// assets in stable order of predicted return and series id, listed in stable
/// order of side (longs first) and series id.
pub open spec fn are_extreme_decisions(assets: Seq<PortfolioAssetFacts>, decisions: Seq<ExtremeDecision>) -> bool {
    exists|order: Seq<usize>, placement: Seq<usize>| #[trigger] extreme_layout(assets, order, placement, decisions)
}

/// `order` sorts the assets, `placement` sorts the picks made from that order,
/// and `decisions` lists the picks as `placement` places them.
pub open spec fn extreme_layout(
    assets: Seq<PortfolioAssetFacts>,
    order: Seq<usize>,
    placement: Seq<usize>,
    decisions: Seq<ExtremeDecision>,
) -> bool {
    let picks = extreme_picks(order, positions_per_side(assets.len() as int));
    &&& stably_sorted(asset_keys(assets), order)
    &&& stably_sorted(pick_keys(assets, picks), placement)
    &&& decisions == placement.map_values(|j: usize| picks[j as int])
}

/// Chooses the long-short positions of a rank portfolio: the fifth of assets
/// (at least one) with the lowest predicted returns go short, the fifth with the
/// highest go long; ties in predicted return are broken by series id. The
/// positions come longs first, each side by series id.
pub fn extreme_portfolio_decisions(assets: &[PortfolioAssetFacts]) -> (r: Result<Vec<ExtremeDecision>>)
    ensures
        match r {
            Ok(decisions) => portfolio_assets_issue(assets@, 0) is None && (assets@.len() == 0 ==> decisions@.len()
                == 0) && (assets@.len() > 0 ==> are_extreme_decisions(assets@, decisions@)) && (assets@.len() >= 10
                ==> positions_on_side(decisions@, PortfolioSide::Long).len() == assets@.len() / 5
                && positions_on_side(decisions@, PortfolioSide::Short).len() == assets@.len() / 5),
            Err(e) => portfolio_assets_issue(assets@, 0) == Some(e.text()),
        },
{
    let n = assets.len();
    if n == 0 {
        return Ok(Vec::new());
    }
    let mut i: usize = 0;
    while i < n
        invariant
            n == assets@.len(),
            i <= n,
            portfolio_assets_issue(assets@, 0) == portfolio_assets_issue(assets@, i as int),
        decreases n - i,
    {
        if is_blank_str(assets[i].series_id.as_str()) {
            return Err(invalid_input("rank portfolio portfolio asset ids must be non-empty"));
        }
        if !assets[i].returns_finite {
            return Err(invalid_input("rank portfolio portfolio asset returns must be finite"));
        }
        i = i + 1;
    }
    let mut keys: Vec<RankedText> = Vec::new();
    let mut i: usize = 0;
    while i < n
        invariant
            n == assets@.len(),
            i <= n,
            keys@.len() == i,
            forall|t: int| 0 <= t < i ==> (#[trigger] keys@[t]).rank == assets@[t].predicted_key && keys@[t].text@
                == assets@[t].series_id@,
        decreases n - i,
    {
        keys.push(RankedText { rank: assets[i].predicted_key, text: assets[i].series_id.clone() });
        i = i + 1;
    }
    let order = stable_sort_positions(keys.as_slice());
    proof {
        lemma_sorted_by_same_comparisons(keys@, asset_keys(assets@), order@);
    }
    let per_side: usize = if n / 5 > 1 {
        n / 5
    } else {
        1
    };
    let mut picks: Vec<ExtremeDecision> = Vec::new();
    let mut j: usize = 0;
    while j < per_side
        invariant
            n == assets@.len(),
            n == order@.len(),
            per_side <= n,
            j <= per_side,
            picks@.len() == j,
            forall|t: int| 0 <= t < j ==> #[trigger] picks@[t] == extreme_picks(order@, per_side as int)[t],
        decreases per_side - j,
    {
        picks.push(ExtremeDecision { asset: order[j], side: PortfolioSide::Short });
        j = j + 1;
    }
    let mut j: usize = 0;
    while j < per_side
        invariant
            n == assets@.len(),
            n == order@.len(),
            per_side <= n,
            j <= per_side,
            picks@.len() == per_side + j,
            forall|t: int| 0 <= t < per_side + j ==> #[trigger] picks@[t] == extreme_picks(order@, per_side as int)[t],
        decreases per_side - j,
    {
        picks.push(ExtremeDecision { asset: order[n - 1 - j], side: PortfolioSide::Long });
        j = j + 1;
    }
    proof {
        assert(picks@ =~= extreme_picks(order@, per_side as int));
    }
    let mut pick_sort_keys: Vec<RankedText> = Vec::new();
    let mut j: usize = 0;
    while j < picks.len()
        invariant
            n == assets@.len(),
            forall|k: int| 0 <= k < order@.len() ==> #[trigger] order@[k] < n,
            n == order@.len(),
            picks@ == extreme_picks(order@, per_side as int),
            per_side <= n,
            j <= picks@.len(),
            pick_sort_keys@.len() == j,
            forall|t: int| 0 <= t < j ==> (#[trigger] pick_sort_keys@[t]).rank == side_rank(picks@[t].side)
                && pick_sort_keys@[t].text@ == assets@[picks@[t].asset as int].series_id@,
        decreases picks.len() - j,
    {
        let pick = picks[j];
        proof {
            assert(pick.asset < n);
        }
        let rank = portfolio_side_sort_key(pick.side) as u64;
        pick_sort_keys.push(RankedText { rank, text: assets[pick.asset].series_id.clone() });
        j = j + 1;
    }
    let placement = stable_sort_positions(pick_sort_keys.as_slice());
    proof {
        lemma_sorted_by_same_comparisons(pick_sort_keys@, pick_keys(assets@, picks@), placement@);
    }
    let mut decisions: Vec<ExtremeDecision> = Vec::new();
    let mut j: usize = 0;
    while j < placement.len()
        invariant
            j <= placement@.len(),
            placement@.len() == picks@.len(),
            forall|k: int| 0 <= k < placement@.len() ==> #[trigger] placement@[k] < picks@.len(),
            decisions@.len() == j,
            forall|t: int| 0 <= t < j ==> #[trigger] decisions@[t] == picks@[placement@[t] as int],
        decreases placement.len() - j,
    {
        decisions.push(picks[placement[j]]);
        j = j + 1;
    }
    proof {
        let sel = extreme_picks(order@, positions_per_side(n as int));
        assert(positions_per_side(n as int) == per_side);
        assert(decisions@ =~= placement@.map_values(|k: usize| sel[k as int]));
        assert(extreme_layout(assets@, order@, placement@, decisions@));
    }
    proof {
        lemma_fifth_on_each_side(assets@, decisions@);
    }
    Ok(decisions)
}

/// Every long position is predicted to return at least as much as every short
/// position.
pub proof fn lemma_longs_predicted_above_shorts(
    assets: Seq<PortfolioAssetFacts>,
    decisions: Seq<ExtremeDecision>,
    i: int,
    j: int,
)
    requires
        assets.len() > 0,
        are_extreme_decisions(assets, decisions),
        0 <= i < decisions.len(),
        0 <= j < decisions.len(),
        decisions[i].side == PortfolioSide::Long,
        decisions[j].side == PortfolioSide::Short,
    ensures
        assets[decisions[j].asset as int].predicted_key <= assets[decisions[i].asset as int].predicted_key,
{
    let (order, placement) = choose|order: Seq<usize>, placement: Seq<usize>|
        #[trigger] extreme_layout(assets, order, placement, decisions);
    let n = assets.len() as int;
    let per_side = positions_per_side(n);
    let picks = extreme_picks(order, per_side);
    let keys = asset_keys(assets);
    assert(stably_sorted(keys, order));
    assert(decisions == placement.map_values(|q: usize| picks[q as int]));
    let qi = placement[i] as int;
    let qj = placement[j] as int;
    assert(decisions[i] == picks[qi]);
    assert(decisions[j] == picks[qj]);
    assert(qi >= per_side);
    assert(qj < per_side);
    let long_position = n - 1 - (qi - per_side);
    let short_position = qj;
    assert(decisions[i].asset == order[long_position]);
    assert(decisions[j].asset == order[short_position]);
    if short_position < long_position {
        assert(!keys[order[long_position] as int].before(keys[order[short_position] as int]));
    } else if short_position > long_position {
        assert(false);
    }
}

/// The positions of `decisions` on one side.
pub open spec fn positions_on_side(decisions: Seq<ExtremeDecision>, side: PortfolioSide) -> Set<int> {
    Set::new(|i: int| 0 <= i < decisions.len() && decisions[i].side == side)
}

proof fn lemma_side_count(
    assets: Seq<PortfolioAssetFacts>,
    order: Seq<usize>,
    placement: Seq<usize>,
    decisions: Seq<ExtremeDecision>,
    side: PortfolioSide,
) -> (per_side: int)
    requires
        0 < assets.len() <= usize::MAX,
        extreme_layout(assets, order, placement, decisions),
    ensures
        per_side == positions_per_side(assets.len() as int),
        positions_on_side(decisions, side).finite(),
        positions_on_side(decisions, side).len() == per_side,
{
    let n = assets.len() as int;
    let per_side = positions_per_side(n);
    let picks = extreme_picks(order, per_side);
    let keys = pick_keys(assets, picks);
    assert(stably_sorted(keys, placement));
    assert(decisions == placement.map_values(|q: usize| picks[q as int]));
    let (lo, hi) = match side {
        PortfolioSide::Short => (0int, per_side),
        PortfolioSide::Long => (per_side, 2 * per_side),
    };
    let chosen = positions_on_side(decisions, side);
    let range = vstd::set_lib::set_int_range(lo, hi);
    let f = |i: int| placement[i] as int;
    assert(chosen.subset_of(vstd::set_lib::set_int_range(0, decisions.len() as int)));
    vstd::set_lib::lemma_int_range(0, decisions.len() as int);
    vstd::set_lib::lemma_len_subset(chosen, vstd::set_lib::set_int_range(0, decisions.len() as int));
    assert(vstd::relations::injective_on(f, chosen)) by {
        assert forall|x: int, y: int| chosen.contains(x) && chosen.contains(y) && #[trigger] f(x) == #[trigger] f(y)
            implies x == y by {
            assert(placement[x] == placement[y]);
            assert(placement.no_duplicates());
        }
    }
    assert(chosen.map(f) =~= range) by {
        assert forall|j: int| chosen.map(f).contains(j) implies range.contains(j) by {
            let i = choose|i: int| chosen.contains(i) && f(i) == j;
            assert(placement[i] < picks.len());
            assert(decisions[i] == picks[placement[i] as int]);
        }
        assert forall|j: int| range.contains(j) implies chosen.map(f).contains(j) by {
            assert(0 <= j < 2 * per_side);
            assert(2 * per_side <= usize::MAX) by {
                if n / 5 > 1 {
                    assert(2 * (n / 5) <= n);
                }
            }
            assert((j as usize) as int == j);
            assert(placement.contains(j as usize));
            let i = choose|i: int| 0 <= i < placement.len() && placement[i] == j as usize;
            assert(decisions.len() == placement.len());
            assert(decisions[i] == picks[placement[i] as int]);
            assert(placement[i] as int == j);
            assert(decisions[i] == picks[j]);
            assert(chosen.contains(i));
            assert(f(i) == j);
        }
    }
    vstd::set_lib::lemma_map_size(chosen, range, f);
    vstd::set_lib::lemma_int_range(lo, hi);
    per_side
}

/// A rank portfolio of `n` assets takes a fifth of them on each side: from
/// ten assets on, exactly `n / 5` long and `n / 5` short positions, and with
/// fewer assets one of each.
pub proof fn lemma_fifth_on_each_side(assets: Seq<PortfolioAssetFacts>, decisions: Seq<ExtremeDecision>)
    requires
        0 < assets.len() <= usize::MAX,
        are_extreme_decisions(assets, decisions),
    ensures
        positions_on_side(decisions, PortfolioSide::Long).finite(),
        positions_on_side(decisions, PortfolioSide::Short).finite(),
        assets.len() >= 10 ==> positions_on_side(decisions, PortfolioSide::Long).len() == assets.len() / 5
            && positions_on_side(decisions, PortfolioSide::Short).len() == assets.len() / 5,
        assets.len() < 10 ==> positions_on_side(decisions, PortfolioSide::Long).len() == 1
            && positions_on_side(decisions, PortfolioSide::Short).len() == 1,
{
    let (order, placement) = choose|order: Seq<usize>, placement: Seq<usize>|
        #[trigger] extreme_layout(assets, order, placement, decisions);
    lemma_side_count(assets, order, placement, decisions, PortfolioSide::Long);
    lemma_side_count(assets, order, placement, decisions, PortfolioSide::Short);
}

} // verus!
