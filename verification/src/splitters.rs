//! Rolling-origin splitting of a forecast panel into train/validation folds.
use vstd::prelude::*;
use crate::error::{invalid_input, outcome, Result};
use crate::order::{sort_dedup, strictly_increasing, SortKey};
use crate::text::{decimal, decimal_text};

verus! {

/// How the training window moves as the forecast origin advances.
#[derive(Debug, Clone, Copy, PartialEq, Eq, Structural)]
pub enum ForecastWindow {
    /// The training window keeps every timestamp up to the origin.
    Expanding,
    /// The training window keeps at most `max_train_size` timestamps.
    Sliding,
}

/// Configuration of rolling-origin cross-validation over distinct timestamps.
#[derive(Debug, Clone, Copy, PartialEq, Eq, Structural)]
pub struct RollingOriginSplitter {
    pub horizon: usize,
    pub step: usize,
    pub min_train_size: usize,
    pub max_train_size: Option<usize>,
    pub n_splits: Option<usize>,
    pub window: ForecastWindow,
}

/// What `RollingOriginSplitter::new` yields for the given settings.
pub open spec fn splitter_outcome(
    horizon: usize,
    step: usize,
    min_train_size: usize,
    max_train_size: Option<usize>,
    n_splits: Option<usize>,
    window: ForecastWindow,
) -> core::result::Result<RollingOriginSplitter, Seq<char>> {
    if horizon == 0 {
        Err("forecast horizon must be positive"@)
    } else if step == 0 {
        Err("rolling-origin step must be positive"@)
    } else if min_train_size == 0 {
        Err("min_train_size must be positive"@)
    } else if max_train_size is Some && max_train_size->0 < min_train_size {
        Err("max_train_size must be greater than or equal to min_train_size"@)
    } else if window == ForecastWindow::Sliding && max_train_size is None {
        Err("sliding forecast windows require max_train_size"@)
    } else if n_splits == Some(0usize) {
        Err("n_splits must be positive when provided"@)
    } else {
        Ok(
            RollingOriginSplitter {
                horizon,
                step,
                min_train_size,
                max_train_size,
                n_splits,
                window,
            },
        )
    }
}

impl RollingOriginSplitter {
    /// Expanding-window splitter with unit step.
    pub fn expanding(horizon: usize, min_train_size: usize) -> (r: Result<Self>)
        ensures
            outcome(r) == splitter_outcome(
                horizon,
                1,
                min_train_size,
                None,
                None,
                ForecastWindow::Expanding,
            ),
    {
        Self::new(horizon, 1, min_train_size, None, None, ForecastWindow::Expanding)
    }

    /// Sliding-window splitter with unit step and a bounded training window.
    pub fn sliding(horizon: usize, min_train_size: usize, max_train_size: usize) -> (r: Result<Self>)
        ensures
            outcome(r) == splitter_outcome(
                horizon,
                1,
                min_train_size,
                Some(max_train_size),
                None,
                ForecastWindow::Sliding,
            ),
    {
        Self::new(horizon, 1, min_train_size, Some(max_train_size), None, ForecastWindow::Sliding)
    }

    /// Validates and builds a splitter.
    pub fn new(
        horizon: usize,
        step: usize,
        min_train_size: usize,
        max_train_size: Option<usize>,
        n_splits: Option<usize>,
        window: ForecastWindow,
    ) -> (r: Result<Self>)
        ensures
            outcome(r) == splitter_outcome(
                horizon,
                step,
                min_train_size,
                max_train_size,
                n_splits,
                window,
            ),
    {
        if horizon == 0 {
            return Err(invalid_input("forecast horizon must be positive"));
        }
        if step == 0 {
            return Err(invalid_input("rolling-origin step must be positive"));
        }
        if min_train_size == 0 {
            return Err(invalid_input("min_train_size must be positive"));
        }
        if let Some(max_train_size) = max_train_size {
            if max_train_size < min_train_size {
                return Err(
                    invalid_input("max_train_size must be greater than or equal to min_train_size"),
                );
            }
        }
        if window == ForecastWindow::Sliding && max_train_size.is_none() {
            return Err(invalid_input("sliding forecast windows require max_train_size"));
        }
        if n_splits == Some(0usize) {
            return Err(invalid_input("n_splits must be positive when provided"));
        }
        Ok(Self { horizon, step, min_train_size, max_train_size, n_splits, window })
    }
}

/// `s` left-padded with zeros to at least four characters.
pub open spec fn zero_pad4(s: Seq<char>) -> Seq<char> {
    if s.len() >= 4 {
        s
    } else {
        Seq::new((4 - s.len()) as nat, |i: int| '0') + s
    }
}

/// Identifier of the fold at position `index`: `fold_` and the index padded to four digits.
pub open spec fn fold_id_text(index: nat) -> Seq<char> {
    "fold_"@ + zero_pad4(decimal(index))
}

/// Builds the identifier of the fold at position `index`.
pub fn fold_id(index: usize) -> (id: String)
    ensures
        id@ == fold_id_text(index as nat),
{
    let digits = decimal_text(index);
    let n = digits.as_str().unicode_len();
    let mut id = String::from_str("fold_");
    let mut pad: usize = n;
    proof {
        reveal_strlit("0");
        reveal_strlit("fold_");
    }
    while pad < 4
        invariant
            n == digits@.len(),
            n <= pad <= 4 || (n > 4 && pad == n),
            id@ == "fold_"@ + Seq::new((pad - n) as nat, |i: int| '0'),
        decreases 4 - pad,
    {
        id = id.concat("0");
        proof {
            reveal_strlit("0");
        }
        assert(id@ =~= "fold_"@ + Seq::new((pad + 1 - n) as nat, |i: int| '0'));
        pad = pad + 1;
    }
    let result = id.concat(digits.as_str());
    assert(result@ =~= fold_id_text(index as nat));
    result
}

} // verus!

verus! {

/// Series and timestamp of one frame row: the keys by which the splitter places rows.
/// Timestamps are integers whose order is the order of time (for example nanoseconds).
#[derive(Debug, PartialEq, Eq)]
pub struct RowStamp {
    pub series_id: String,
    pub timestamp: i128,
}

/// Sizes and origin of one fold.
#[derive(Debug, PartialEq, Eq)]
pub struct ForecastFoldMetadata {
    pub origin_timestamp: i128,
    pub train_size: usize,
    pub validation_size: usize,
    pub train_timestamp_count: usize,
    pub validation_timestamp_count: usize,
    pub series_count: usize,
}

/// One rolling-origin fold: row indices of the training and validation parts.
#[derive(Debug, PartialEq, Eq)]
pub struct ForecastFold {
    pub fold_id: String,
    pub train_indices: Vec<usize>,
    pub validation_indices: Vec<usize>,
    pub train_start: i128,
    pub train_end: i128,
    pub validation_start: i128,
    pub validation_end: i128,
    pub horizon: usize,
    pub step: usize,
    pub metadata: ForecastFoldMetadata,
}

/// Timestamps of the rows, in row order.
pub open spec fn stamps(rows: Seq<RowStamp>) -> Seq<i128> {
    rows.map_values(|row: RowStamp| row.timestamp)
}

/// `timeline` lists the distinct timestamps of `rows` in increasing order.
pub open spec fn is_timeline(rows: Seq<RowStamp>, timeline: Seq<i128>) -> bool {
    strictly_increasing(timeline) && timeline.to_set() == stamps(rows).to_set()
}

/// The distinct timestamps of `rows` in increasing order.
pub open spec fn timeline_of(rows: Seq<RowStamp>) -> Seq<i128> {
    choose|timeline: Seq<i128>| is_timeline(rows, timeline)
}

/// Forecast origins `start`, `start + step`, ... that lie below `bound`.
pub open spec fn origins(start: int, bound: int, step: nat) -> Seq<int>
    decreases (if start < bound { bound - start } else { 0 }),
{
    if step == 0 || start >= bound {
        seq![]
    } else {
        seq![start] + origins(start + step, bound, step)
    }
}

/// First timeline position of the training window that ends at `cutoff`.
pub open spec fn train_start_position(cutoff: int, max_train_size: Option<usize>) -> int {
    match max_train_size {
        None => 0,
        Some(max) => if cutoff + 1 >= max {
            cutoff + 1 - max
        } else {
            0
        },
    }
}

/// Whether a training window can ever hold `min_train_size` timestamps.
pub open spec fn train_windows_fit(splitter: RollingOriginSplitter) -> bool {
    match splitter.max_train_size {
        None => true,
        Some(max) => max >= splitter.min_train_size,
    }
}

/// Origins (timeline positions of the last training timestamp) of the candidate folds.
pub open spec fn candidate_origins(splitter: RollingOriginSplitter, timeline_len: nat) -> Seq<int> {
    if splitter.horizon == 0 || timeline_len <= splitter.horizon || !train_windows_fit(splitter) {
        seq![]
    } else {
        origins(
            splitter.min_train_size - 1,
            timeline_len - splitter.horizon,
            splitter.step as nat,
        )
    }
}

/// Number of leading candidates that `n_splits` drops.
pub open spec fn dropped_candidates(n_splits: Option<usize>, candidates: nat) -> int {
    match n_splits {
        None => 0,
        Some(n) => if candidates >= n {
            candidates - n
        } else {
            0
        },
    }
}

/// Origins of the folds that the splitter returns, in order.
pub open spec fn fold_origins(splitter: RollingOriginSplitter, timeline_len: nat) -> Seq<int> {
    let candidates = candidate_origins(splitter, timeline_len);
    candidates.skip(dropped_candidates(splitter.n_splits, candidates.len()))
}

/// `indices` lists, increasing, exactly the rows whose timestamp lies in `window`.
pub open spec fn selects_window(indices: Seq<usize>, rows: Seq<RowStamp>, window: Seq<i128>) -> bool {
    &&& strictly_increasing(indices)
    &&& forall|k: int|
        0 <= k < indices.len() ==> #[trigger] indices[k] < rows.len() && window.contains(
            rows[indices[k] as int].timestamp,
        )
    &&& forall|i: int|
        0 <= i < rows.len() && window.contains(#[trigger] rows[i].timestamp) ==> indices.contains(
            i as usize,
        )
}

/// Number of distinct series among the rows at `indices`.
pub open spec fn distinct_series(rows: Seq<RowStamp>, indices: Seq<usize>) -> nat {
    indices.map_values(|i: usize| rows[i as int].series_id@).to_set().len()
}

/// `fold` is the fold at output position `position` whose training window ends at timeline
/// position `cutoff`.
pub open spec fn fold_matches(
    fold: ForecastFold,
    rows: Seq<RowStamp>,
    timeline: Seq<i128>,
    splitter: RollingOriginSplitter,
    cutoff: int,
    position: nat,
) -> bool {
    let start = train_start_position(cutoff, splitter.max_train_size);
    let train_window = timeline.subrange(start, cutoff + 1);
    let validation_window = timeline.subrange(cutoff + 1, cutoff + 1 + splitter.horizon);
    &&& fold.fold_id@ == fold_id_text(position)
    &&& selects_window(fold.train_indices@, rows, train_window)
    &&& selects_window(fold.validation_indices@, rows, validation_window)
    &&& fold.train_start == timeline[start]
    &&& fold.train_end == timeline[cutoff]
    &&& fold.validation_start == timeline[cutoff + 1]
    &&& fold.validation_end == timeline[cutoff + splitter.horizon]
    &&& fold.horizon == splitter.horizon
    &&& fold.step == splitter.step
    &&& fold.metadata.origin_timestamp == timeline[cutoff]
    &&& fold.metadata.train_size == fold.train_indices@.len()
    &&& fold.metadata.validation_size == fold.validation_indices@.len()
    &&& fold.metadata.train_timestamp_count == cutoff + 1 - start
    &&& fold.metadata.validation_timestamp_count == splitter.horizon
    &&& fold.metadata.series_count == distinct_series(rows, fold.validation_indices@)
}

/// Rows whose timestamp lies between `low` and `high`, both included, in row order.
fn rows_between(rows: &[RowStamp], low: i128, high: i128) -> (indices: Vec<usize>)
    ensures
        strictly_increasing(indices@),
        forall|k: int|
            0 <= k < indices@.len() ==> #[trigger] indices@[k] < rows@.len() && low
                <= rows@[indices@[k] as int].timestamp <= high,
        forall|i: int|
            0 <= i < rows@.len() && low <= #[trigger] rows@[i].timestamp <= high
                ==> indices@.contains(i as usize),
{
    let mut indices: Vec<usize> = Vec::new();
    let mut i: usize = 0;
    while i < rows.len()
        invariant
            i <= rows@.len(),
            strictly_increasing(indices@),
            forall|k: int| 0 <= k < indices@.len() ==> #[trigger] indices@[k] < i,
            forall|k: int|
                0 <= k < indices@.len() ==> #[trigger] indices@[k] < rows@.len() && low
                    <= rows@[indices@[k] as int].timestamp <= high,
            forall|j: int|
                0 <= j < i && low <= #[trigger] rows@[j].timestamp <= high
                    ==> indices@.contains(j as usize),
        decreases rows.len() - i,
    {
        let t = rows[i].timestamp;
        if low <= t && t <= high {
            let ghost before = indices@;
            indices.push(i);
            assert forall|j: int|
                0 <= j < i + 1 && low <= #[trigger] rows@[j].timestamp <= high implies indices@.contains(
                j as usize,
            ) by {
                if j < i {
                    let k = choose|k: int| 0 <= k < before.len() && before[k] == j as usize;
                    assert(indices@[k] == j as usize);
                } else {
                    assert(indices@[before.len() as int] == i);
                }
            }
        }
        i = i + 1;
    }
    indices
}

/// Number of distinct series among the rows at `indices`.
fn count_distinct_series(rows: &[RowStamp], indices: &Vec<usize>) -> (count: usize)
    requires
        forall|k: int| 0 <= k < indices@.len() ==> #[trigger] indices@[k] < rows@.len(),
    ensures
        count == distinct_series(rows@, indices@),
{
    let ghost ids = indices@.map_values(|i: usize| rows@[i as int].series_id@);
    let mut seen: Vec<String> = Vec::new();
    let mut k: usize = 0;
    while k < indices.len()
        invariant
            k <= indices@.len(),
            forall|t: int| 0 <= t < indices@.len() ==> #[trigger] indices@[t] < rows@.len(),
            ids == indices@.map_values(|i: usize| rows@[i as int].series_id@),
            seen@.map_values(|s: String| s@).no_duplicates(),
            seen@.map_values(|s: String| s@).to_set() == ids.take(k as int).to_set(),
        decreases indices.len() - k,
    {
        let id = &rows[indices[k]].series_id;
        assert(ids[k as int] == id@);
        let mut found = false;
        let mut s: usize = 0;
        while s < seen.len()
            invariant
                s <= seen@.len(),
                found == exists|t: int| 0 <= t < s && seen@[t]@ == id@,
            decreases seen.len() - s,
        {
            if seen[s] == *id {
                found = true;
            }
            s = s + 1;
        }
        let ghost views = seen@.map_values(|x: String| x@);
        assert(ids.take(k + 1) =~= ids.take(k as int).push(id@));
        proof {
            ids.take(k as int).lemma_push_to_set_commute(id@);
        }
        if found {
            assert(views.to_set().contains(id@)) by {
                let t = choose|t: int| 0 <= t < seen@.len() && seen@[t]@ == id@;
                assert(views[t] == id@);
            }
            assert(views.to_set().insert(id@) =~= views.to_set());
        } else {
            seen.push(id.clone());
            let ghost after = seen@.map_values(|x: String| x@);
            assert(after =~= views.push(id@));
            proof {
                views.lemma_push_to_set_commute(id@);
                assert(!views.contains(id@)) by {
                    if views.contains(id@) {
                        let t = choose|t: int| 0 <= t < views.len() && views[t] == id@;
                        assert(seen@[t]@ == id@);
                    }
                }
                assert forall|a: int, b: int|
                    0 <= a < after.len() && 0 <= b < after.len() && a != b implies after[a]
                    != after[b] by {
                    if a < views.len() && b < views.len() {
                        assert(after[a] == views[a] && after[b] == views[b]);
                    } else if a < views.len() {
                        assert(views.contains(after[a]));
                    } else {
                        assert(views.contains(after[b]));
                    }
                }
            }
        }
        k = k + 1;
    }
    assert(ids.take(indices@.len() as int) =~= ids);
    proof {
        seen@.map_values(|s: String| s@).unique_seq_to_set();
    }
    seen.len()
}

} // verus!

verus! {

/// For a timestamp of the timeline, lying between two timeline entries is the same as
/// belonging to the timeline window they bound.
proof fn lemma_between_iff_in_window(timeline: Seq<i128>, a: int, b: int, t: i128)
    requires
        strictly_increasing(timeline),
        0 <= a <= b < timeline.len(),
        timeline.contains(t),
    ensures
        (timeline[a] <= t <= timeline[b]) == timeline.subrange(a, b + 1).contains(t),
{
    let k = choose|k: int| 0 <= k < timeline.len() && timeline[k] == t;
    let w = timeline.subrange(a, b + 1);
    if timeline[a] <= t && t <= timeline[b] {
        if k < a {
            assert(timeline[k].rank() < timeline[a].rank());
        }
        if k > b {
            assert(timeline[b].rank() < timeline[k].rank());
        }
        assert(w[k - a] == t);
    }
    if w.contains(t) {
        let j = choose|j: int| 0 <= j < w.len() && w[j] == t;
        assert(timeline[a + j] == t);
        if j > 0 {
            assert(timeline[a].rank() < timeline[a + j].rank());
        }
        if a + j < b {
            assert(timeline[a + j].rank() < timeline[b].rank());
        }
    }
}

/// Every row timestamp belongs to the timeline.
proof fn lemma_row_on_timeline(rows: Seq<RowStamp>, timeline: Seq<i128>, i: int)
    requires
        is_timeline(rows, timeline),
        0 <= i < rows.len(),
    ensures
        timeline.contains(rows[i].timestamp),
{
    assert(stamps(rows)[i] == rows[i].timestamp);
    assert(stamps(rows).to_set().contains(rows[i].timestamp));
    assert(timeline.to_set().contains(rows[i].timestamp));
}

/// Rows whose timestamp lies in the timeline window `[a, b]`, as `selects_window` describes.
fn rows_in_window(rows: &[RowStamp], timeline: &Vec<i128>, a: usize, b: usize) -> (indices: Vec<
    usize,
>)
    requires
        is_timeline(rows@, timeline@),
        a <= b < timeline@.len(),
    ensures
        selects_window(indices@, rows@, timeline@.subrange(a as int, b + 1)),
{
    let indices = rows_between(rows, timeline[a], timeline[b]);
    let ghost w = timeline@.subrange(a as int, b + 1);
    assert forall|k: int| 0 <= k < indices@.len() implies #[trigger] indices@[k] < rows@.len()
        && w.contains(rows@[indices@[k] as int].timestamp) by {
        lemma_row_on_timeline(rows@, timeline@, indices@[k] as int);
        lemma_between_iff_in_window(timeline@, a as int, b as int, rows@[indices@[k] as int].timestamp);
    }
    assert forall|i: int|
        0 <= i < rows@.len() && w.contains(#[trigger] rows@[i].timestamp) implies indices@.contains(
        i as usize,
    ) by {
        lemma_row_on_timeline(rows@, timeline@, i);
        lemma_between_iff_in_window(timeline@, a as int, b as int, rows@[i].timestamp);
    }
    indices
}

/// The distinct timestamps of the rows, increasing.
fn distinct_timestamps(rows: &[RowStamp]) -> (timeline: Vec<i128>)
    ensures
        is_timeline(rows@, timeline@),
        timeline@ == timeline_of(rows@),
{
    let mut timeline: Vec<i128> = Vec::new();
    let mut i: usize = 0;
    while i < rows.len()
        invariant
            i <= rows@.len(),
            timeline@ == stamps(rows@).take(i as int),
        decreases rows.len() - i,
    {
        timeline.push(rows[i].timestamp);
        assert(stamps(rows@).take(i + 1) =~= stamps(rows@).take(i as int).push(rows@[i as int].timestamp));
        i = i + 1;
    }
    assert(stamps(rows@).take(rows@.len() as int) =~= stamps(rows@));
    sort_dedup(&mut timeline);
    proof {
        assert(is_timeline(rows@, timeline@));
        let chosen = timeline_of(rows@);
        assert(is_timeline(rows@, chosen));
        crate::order::lemma_strictly_increasing_unique(chosen, timeline@);
    }
    timeline
}

impl RollingOriginSplitter {
    fn build_fold(&self, rows: &[RowStamp], timeline: &Vec<i128>, cutoff: usize, position: usize)
        -> (fold: ForecastFold)
        requires
            is_timeline(rows@, timeline@),
            cutoff + self.horizon < timeline@.len(),
            self.horizon > 0,
            self.min_train_size > 0,
            train_windows_fit(*self),
        ensures
            fold_matches(fold, rows@, timeline@, *self, cutoff as int, position as nat),
    {
        let n = timeline.len();
        let start: usize = match self.max_train_size {
            None => 0,
            Some(max) => if cutoff + 1 >= max {
                cutoff + 1 - max
            } else {
                0
            },
        };
        let train_indices = rows_in_window(rows, timeline, start, cutoff);
        let validation_indices = rows_in_window(rows, timeline, cutoff + 1, cutoff + self.horizon);
        assert(timeline@.subrange(cutoff + 1, cutoff + self.horizon + 1) =~= timeline@.subrange(
            cutoff + 1,
            cutoff + 1 + self.horizon,
        ));
        let series_count = count_distinct_series(rows, &validation_indices);
        let train_size = train_indices.len();
        let validation_size = validation_indices.len();
        ForecastFold {
            fold_id: fold_id(position),
            train_indices,
            validation_indices,
            train_start: timeline[start],
            train_end: timeline[cutoff],
            validation_start: timeline[cutoff + 1],
            validation_end: timeline[cutoff + self.horizon],
            horizon: self.horizon,
            step: self.step,
            metadata: ForecastFoldMetadata {
                origin_timestamp: timeline[cutoff],
                train_size,
                validation_size,
                train_timestamp_count: cutoff + 1 - start,
                validation_timestamp_count: self.horizon,
                series_count,
            },
        }
    }

    /// Splits the rows into rolling-origin folds over their distinct timestamps.
    ///
    /// Origins advance by `step` from the `min_train_size`-th timestamp; every
    /// fold validates on the `horizon` timestamps after its origin, and with
    /// `n_splits` only the last folds are kept.
    /// Whether `split` can run on these rows: with more distinct timestamps
    /// than the horizon, the minimum training size must be positive, and the
    /// step too unless no origin is left to advance over.
    pub open spec fn admits(&self, rows: Seq<RowStamp>) -> bool {
        let n = timeline_of(rows).len();
        ||| n <= self.horizon
        ||| self.min_train_size > 0 && (self.step > 0 || self.min_train_size - 1 >= n - self.horizon)
    }

    /// Whether `split` can run on these rows (see `admits`).
    pub fn split_admits(&self, rows: &[RowStamp]) -> (admitted: bool)
        ensures
            admitted == self.admits(rows@),
    {
        let n = distinct_timestamps(rows).len();
        n <= self.horizon || self.min_train_size > 0 && (self.step > 0 || self.min_train_size - 1 >= n
            - self.horizon)
    }

    /// Splits the rows into rolling-origin folds over their distinct timestamps.
    ///
    /// Origins advance by `step` from the `min_train_size`-th timestamp; every
    /// fold validates on the `horizon` timestamps after its origin, and with
    /// `n_splits` only the last folds are kept.
    pub fn split(&self, rows: &[RowStamp]) -> (r: Result<Vec<ForecastFold>>)
        requires
            self.admits(rows@),
        ensures
            match r {
                Ok(folds) => {
                    let timeline = timeline_of(rows@);
                    let origins = fold_origins(*self, timeline.len());
                    &&& is_timeline(rows@, timeline)
                    &&& folds@.len() == origins.len()
                    &&& forall|f: int|
                        0 <= f < folds@.len() ==> fold_matches(
                            #[trigger] folds@[f],
                            rows@,
                            timeline,
                            *self,
                            origins[f],
                            f as nat,
                        )
                },
                Err(_) => false,
            },
    {
        let timeline = distinct_timestamps(rows);
        let len = timeline.len();
        if len <= self.horizon || self.horizon == 0 {
            return Ok(Vec::new());
        }
        let last_origin = len - self.horizon;
        let fits = match self.max_train_size {
            None => true,
            Some(max) => max >= self.min_train_size,
        };
        let ghost all = origins(self.min_train_size - 1, last_origin as int, self.step as nat);
        let mut candidates: Vec<usize> = Vec::new();
        let mut cutoff: u128 = (self.min_train_size - 1) as u128;
        while cutoff < last_origin as u128
            invariant
                fits == train_windows_fit(*self),
                self.step > 0 || cutoff >= last_origin,
                self.min_train_size > 0,
                last_origin < len,
                cutoff >= self.min_train_size - 1,
                all == origins(self.min_train_size - 1, last_origin as int, self.step as nat),
                fits ==> all == candidates@.map_values(|c: usize| c as int) + origins(
                    cutoff as int,
                    last_origin as int,
                    self.step as nat,
                ),
                !fits ==> candidates@.len() == 0,
                forall|k: int| 0 <= k < candidates@.len() ==> #[trigger] candidates@[k] < last_origin,
            decreases (if cutoff < last_origin { last_origin - cutoff } else { 0 }),
        {
            let c = cutoff as usize;
            if fits {
                let ghost before = candidates@;
                candidates.push(c);
                assert(candidates@.map_values(|x: usize| x as int) =~= before.map_values(
                    |x: usize| x as int,
                ).push(c as int));
                assert(origins(cutoff as int, last_origin as int, self.step as nat) =~= seq![
                    cutoff as int,
                ] + origins(cutoff + self.step, last_origin as int, self.step as nat));
            }
            cutoff = cutoff + self.step as u128;
        }
        assert(origins(cutoff as int, last_origin as int, self.step as nat) =~= Seq::<int>::empty());
        let ghost cands = candidate_origins(*self, len as nat);
        assert(candidates@.map_values(|c: usize| c as int) =~= cands);
        let keep_from: usize = match self.n_splits {
            None => 0,
            Some(n) => if candidates.len() >= n {
                candidates.len() - n
            } else {
                0
            },
        };
        let ghost kept = fold_origins(*self, len as nat);
        assert(kept =~= cands.skip(keep_from as int));
        let mut folds: Vec<ForecastFold> = Vec::new();
        let mut f: usize = keep_from;
        while f < candidates.len()
            invariant
                keep_from <= f <= candidates@.len(),
                is_timeline(rows@, timeline@),
                len == timeline@.len(),
                last_origin + self.horizon == len,
                self.horizon > 0,
                self.min_train_size > 0,
                candidates@.len() > 0 ==> train_windows_fit(*self),
                forall|k: int| 0 <= k < candidates@.len() ==> #[trigger] candidates@[k] < last_origin,
                kept == candidates@.map_values(|c: usize| c as int).skip(keep_from as int),
                folds@.len() == f - keep_from,
                forall|g: int|
                    0 <= g < folds@.len() ==> fold_matches(
                        #[trigger] folds@[g],
                        rows@,
                        timeline@,
                        *self,
                        kept[g],
                        g as nat,
                    ),
            decreases candidates.len() - f,
        {
            let fold = self.build_fold(rows, &timeline, candidates[f], f - keep_from);
            folds.push(fold);
            f = f + 1;
        }
        Ok(folds)
    }
}

} // verus!

verus! {

proof fn lemma_origins_bounds(start: int, bound: int, step: nat, k: int)
    requires
        0 <= k < origins(start, bound, step).len(),
    ensures
        start <= origins(start, bound, step)[k] < bound,
    decreases (if start < bound { bound - start } else { 0 }),
{
    if step == 0 || start >= bound {
    } else if k > 0 {
        lemma_origins_bounds(start + step, bound, step, k - 1);
    }
}

/// Every fold origin leaves room for a full validation window after it and a
/// non-empty training window up to it.
pub proof fn lemma_fold_origin_bounds(splitter: RollingOriginSplitter, timeline_len: nat, f: int)
    requires
        splitter.min_train_size > 0,
        0 <= f < fold_origins(splitter, timeline_len).len(),
    ensures
        ({
            let cutoff = fold_origins(splitter, timeline_len)[f];
            &&& splitter.min_train_size - 1 <= cutoff
            &&& cutoff + splitter.horizon < timeline_len
            &&& splitter.horizon > 0
            &&& train_start_position(cutoff, splitter.max_train_size) <= cutoff
            &&& cutoff + 1 - train_start_position(cutoff, splitter.max_train_size)
                >= splitter.min_train_size
        }),
{
    let candidates = candidate_origins(splitter, timeline_len);
    let drop = dropped_candidates(splitter.n_splits, candidates.len());
    assert(fold_origins(splitter, timeline_len)[f] == candidates[f + drop]);
    lemma_origins_bounds(
        splitter.min_train_size - 1,
        timeline_len - splitter.horizon,
        splitter.step as nat,
        f + drop,
    );
}

/// No fold leaks: every training row is strictly earlier than every validation row.
pub proof fn lemma_fold_has_no_leakage(
    fold: ForecastFold,
    rows: Seq<RowStamp>,
    splitter: RollingOriginSplitter,
    f: int,
)
    requires
        splitter.min_train_size > 0,
        0 <= f < fold_origins(splitter, timeline_of(rows).len()).len(),
        is_timeline(rows, timeline_of(rows)),
        fold_matches(
            fold,
            rows,
            timeline_of(rows),
            splitter,
            fold_origins(splitter, timeline_of(rows).len())[f],
            f as nat,
        ),
    ensures
        forall|a: int, b: int|
            0 <= a < fold.train_indices@.len() && 0 <= b < fold.validation_indices@.len()
                ==> rows[#[trigger] fold.train_indices@[a] as int].timestamp < rows[
                #[trigger] fold.validation_indices@[b] as int].timestamp,
{
    let timeline = timeline_of(rows);
    let cutoff = fold_origins(splitter, timeline.len())[f];
    lemma_fold_origin_bounds(splitter, timeline.len(), f);
    let start = train_start_position(cutoff, splitter.max_train_size);
    assert forall|a: int, b: int|
        0 <= a < fold.train_indices@.len() && 0 <= b < fold.validation_indices@.len() implies rows[
        #[trigger] fold.train_indices@[a] as int].timestamp < rows[
        #[trigger] fold.validation_indices@[b] as int].timestamp by {
        let ta = rows[fold.train_indices@[a] as int].timestamp;
        let tb = rows[fold.validation_indices@[b] as int].timestamp;
        let train_window = timeline.subrange(start, cutoff + 1);
        let validation_window = timeline.subrange(cutoff + 1, cutoff + 1 + splitter.horizon);
        assert(train_window.contains(ta));
        assert(validation_window.contains(tb));
        let i = choose|i: int| 0 <= i < train_window.len() && train_window[i] == ta;
        let j = choose|j: int| 0 <= j < validation_window.len() && validation_window[j] == tb;
        assert(timeline[start + i] == ta);
        assert(timeline[cutoff + 1 + j] == tb);
        assert(timeline[start + i].rank() < timeline[cutoff + 1 + j].rank());
    }
}

/// The `k`-th origin of a walk from `start` by `step`.
pub open spec fn kth_origin(start: int, k: int, step: nat) -> int {
    start + k * step
}

proof fn lemma_origins_are_steps(start: int, bound: int, step: nat)
    ensures
        forall|k: int|
            0 <= k < origins(start, bound, step).len() ==> #[trigger] origins(start, bound, step)[k]
                == kth_origin(start, k, step),
        step > 0 ==> forall|k: int|
            0 <= k && #[trigger] kth_origin(start, k, step) < bound ==> k < origins(start, bound, step).len(),
    decreases (if start < bound { bound - start } else { 0 }),
{
    if step == 0 || start >= bound {
        if step > 0 {
            assert forall|k: int| 0 <= k && #[trigger] kth_origin(start, k, step) < bound implies k < origins(
                start,
                bound,
                step,
            ).len() by {
                assert(k * step >= 0) by (nonlinear_arith)
                    requires
                        k >= 0,
                ;
            }
        }
    } else {
        lemma_origins_are_steps(start + step, bound, step);
        let all = origins(start, bound, step);
        let rest = origins(start + step, bound, step);
        assert(all == seq![start] + rest);
        assert forall|k: int| 0 <= k < all.len() implies #[trigger] all[k] == kth_origin(start, k, step) by {
            if k > 0 {
                assert(all[k] == rest[k - 1]);
                assert(rest[k - 1] == kth_origin(start + step, k - 1, step));
                assert(start + step + (k - 1) * step == start + k * step) by (nonlinear_arith);
            }
        }
        assert forall|k: int| 0 <= k && #[trigger] kth_origin(start, k, step) < bound implies k < all.len() by {
            if k > 0 {
                assert(start + step + (k - 1) * step == start + k * step) by (nonlinear_arith);
                assert(kth_origin(start + step, k - 1, step) < bound);
            }
        }
    }
}

/// Rolling origins advance by `step`: the candidate folds end their training at
/// timeline positions `min_train_size - 1`, `min_train_size - 1 + step`,
/// `min_train_size - 1 + 2 * step`, ..., every such position that leaves room
/// for the horizon before the end of the timeline is one, and each fold kept
/// ends its training `step` positions after the fold before it.
pub proof fn lemma_fold_origins_advance_by_step(splitter: RollingOriginSplitter, timeline_len: nat)
    ensures
        forall|k: int|
            0 <= k < candidate_origins(splitter, timeline_len).len() ==> #[trigger] candidate_origins(
                splitter,
                timeline_len,
            )[k] == splitter.min_train_size - 1 + k * splitter.step,
        splitter.horizon > 0 && timeline_len > splitter.horizon && train_windows_fit(splitter) && splitter.step
            > 0 ==> forall|k: int|
            0 <= k && #[trigger] kth_origin(splitter.min_train_size - 1, k, splitter.step as nat) + splitter.horizon
                < timeline_len ==> k < candidate_origins(splitter, timeline_len).len(),
        forall|f: int|
            0 <= f && f + 1 < fold_origins(splitter, timeline_len).len() ==> #[trigger] fold_origins(
                splitter,
                timeline_len,
            )[f + 1] == fold_origins(splitter, timeline_len)[f] + splitter.step,
{
    let start = splitter.min_train_size - 1;
    let bound = timeline_len - splitter.horizon;
    let step = splitter.step as nat;
    lemma_origins_are_steps(start, bound, step);
    let candidates = candidate_origins(splitter, timeline_len);
    let drop = dropped_candidates(splitter.n_splits, candidates.len());
    let kept = fold_origins(splitter, timeline_len);
    assert forall|k: int| 0 <= k < candidates.len() implies #[trigger] candidates[k] == splitter.min_train_size - 1
        + k * splitter.step by {
        assert(candidates[k] == kth_origin(start, k, step));
    }
    assert forall|f: int| 0 <= f && f + 1 < kept.len() implies #[trigger] kept[f + 1] == kept[f] + splitter.step by {
        assert(kept[f + 1] == candidates[f + 1 + drop]);
        assert(kept[f] == candidates[f + drop]);
        assert(kth_origin(start, f + 1 + drop, step) == kth_origin(start, f + drop, step) + step) by (nonlinear_arith);
    }
}

/// The folds of a split end their training `step` timestamps apart: the last
/// training timestamp of each fold lies `step` positions further along the
/// distinct timestamps than that of the fold before it, and without `n_splits`
/// the first fold ends its training at the `min_train_size`-th timestamp.
pub proof fn lemma_consecutive_folds_step(
    folds: Seq<ForecastFold>,
    rows: Seq<RowStamp>,
    splitter: RollingOriginSplitter,
    f: int,
)
    requires
        folds.len() == fold_origins(splitter, timeline_of(rows).len()).len(),
        forall|g: int|
            0 <= g < folds.len() ==> fold_matches(
                #[trigger] folds[g],
                rows,
                timeline_of(rows),
                splitter,
                fold_origins(splitter, timeline_of(rows).len())[g],
                g as nat,
            ),
        0 <= f < folds.len(),
    ensures
        f + 1 < folds.len() ==> exists|position: int|
            {
                &&& folds[f].train_end == #[trigger] timeline_of(rows)[position]
                &&& folds[f + 1].train_end == timeline_of(rows)[position + splitter.step]
            },
        splitter.n_splits is None && f == 0 ==> folds[0].train_end == timeline_of(rows)[splitter.min_train_size - 1],
{
    let timeline = timeline_of(rows);
    lemma_fold_origins_advance_by_step(splitter, timeline.len());
    let kept = fold_origins(splitter, timeline.len());
    assert(fold_matches(folds[f], rows, timeline, splitter, kept[f], f as nat));
    if f + 1 < folds.len() {
        assert(fold_matches(folds[f + 1], rows, timeline, splitter, kept[f + 1], (f + 1) as nat));
        assert(kept[f + 1] == kept[f] + splitter.step);
        assert(folds[f + 1].train_end == timeline[kept[f] + splitter.step]);
        assert(folds[f].train_end == timeline[kept[f]]);
    }
    if splitter.n_splits is None && f == 0 {
        let candidates = candidate_origins(splitter, timeline.len());
        assert(kept == candidates.skip(0));
        assert(kept[0] == candidates[0]);
        assert(candidates[0] == splitter.min_train_size - 1 + 0 * splitter.step);
    }
}

/// Each fold validates on the `horizon` timestamps right after the end of its
/// training window, and trains on the timestamps up to that end: the
/// `max_train_size` most recent ones when a maximum is set, all of them
/// otherwise.
pub proof fn lemma_fold_windows(
    fold: ForecastFold,
    rows: Seq<RowStamp>,
    splitter: RollingOriginSplitter,
    cutoff: int,
    position: nat,
)
    requires
        fold_matches(fold, rows, timeline_of(rows), splitter, cutoff, position),
    ensures
        ({
            let timeline = timeline_of(rows);
            let first = match splitter.max_train_size {
                Some(m) => if cutoff + 1 > m {
                    cutoff + 1 - m
                } else {
                    0
                },
                None => 0,
            };
            &&& fold.train_end == timeline[cutoff]
            &&& fold.validation_start == timeline[cutoff + 1]
            &&& fold.validation_end == timeline[cutoff + splitter.horizon]
            &&& fold.train_start == timeline[first]
            &&& fold.metadata.train_timestamp_count == cutoff + 1 - first
            &&& fold.metadata.validation_timestamp_count == splitter.horizon
        }),
{
}

} // verus!
