//! Forecast frame schema: column-role metadata and series identifiers.
use vstd::prelude::*;
use crate::error::{invalid_input, outcome, CartoBoostError, Result};
use crate::text::{debug_quoted, debug_text, join3, str_eq};
use crate::lex::{
    lemma_lex_asymmetric, lemma_lex_irreflexive, lemma_lex_total, lemma_lex_transitive, lex_lt, str_lt,
};
use crate::splitters::RowStamp;
use crate::stable::{StableSortKey, stable_sort_positions, stably_sorted, ties};


verus! {

/// Series id given to the rows of a frame that holds a single, unnamed series.
pub const SINGLE_SERIES_ID: &'static str = "__single__";

/// Column roles of a forecast frame.
#[derive(Debug, Clone, PartialEq, Eq)]
pub struct ForecastFrameMetadata {
    pub timestamp_col: Option<String>,
    pub target_col: Option<String>,
    pub series_id_col: Option<String>,
    pub static_covariates: Vec<String>,
    pub known_future_covariates: Vec<String>,
    pub historical_covariates: Vec<String>,
}

impl Default for ForecastFrameMetadata {
    fn default() -> (metadata: Self)
        ensures
            metadata.timestamp_col is None,
            metadata.target_col is None,
            metadata.series_id_col is None,
            metadata.static_covariates@.len() == 0,
            metadata.known_future_covariates@.len() == 0,
            metadata.historical_covariates@.len() == 0,
    {
        ForecastFrameMetadata {
            timestamp_col: None,
            target_col: None,
            series_id_col: None,
            static_covariates: Vec::new(),
            known_future_covariates: Vec::new(),
            historical_covariates: Vec::new(),
        }
    }
}

/// Texts of a list of column names.
pub open spec fn names_view(names: Seq<String>) -> Seq<Seq<char>> {
    names.map_values(|name: String| name@)
}

/// Checks the column names of one role from position `i` on; `earlier` holds the
/// names of the roles checked before. Yields the first violation.
pub open spec fn role_outcome(label: Seq<char>, names: Seq<Seq<char>>, earlier: Seq<Seq<char>>, i: int)
    -> core::result::Result<(), Seq<char>>
    decreases names.len() - i,
{
    if i >= names.len() || i < 0 {
        Ok(())
    } else if names[i].len() == 0 {
        Err(label + " must not contain empty column names"@)
    } else if names.take(i).contains(names[i]) {
        Err(label + " must not contain duplicate column names"@)
    } else if earlier.contains(names[i]) {
        Err("forecast covariate columns must belong to only one role"@)
    } else {
        role_outcome(label, names, earlier, i + 1)
    }
}

/// What `validate_metadata` yields: roles are checked in the order static,
/// known-future, historical.
pub open spec fn metadata_outcome(
    static_names: Seq<Seq<char>>,
    known_names: Seq<Seq<char>>,
    historical_names: Seq<Seq<char>>,
) -> core::result::Result<(), Seq<char>> {
    match role_outcome("static_covariates"@, static_names, seq![], 0) {
        Err(message) => Err(message),
        Ok(_) => match role_outcome("known_future_covariates"@, known_names, static_names, 0) {
            Err(message) => Err(message),
            Ok(_) => role_outcome(
                "historical_covariates"@,
                historical_names,
                static_names + known_names,
                0,
            ),
        },
    }
}

fn contains_name(names: &Vec<String>, upto: usize, name: &String) -> (found: bool)
    requires
        upto <= names@.len(),
    ensures
        found == names_view(names@).take(upto as int).contains(name@),
{
    let mut k: usize = 0;
    while k < upto
        invariant
            k <= upto <= names@.len(),
            forall|t: int| 0 <= t < k ==> names@[t]@ != name@,
        decreases upto - k,
    {
        if names[k] == *name {
            assert(names_view(names@).take(upto as int)[k as int] == name@);
            return true;
        }
        k = k + 1;
    }
    assert(!names_view(names@).take(upto as int).contains(name@)) by {
        if names_view(names@).take(upto as int).contains(name@) {
            let t = choose|t: int|
                0 <= t < upto && names_view(names@).take(upto as int)[t] == name@;
            assert(names@[t]@ == name@);
        }
    }
    false
}

/// Checks one role: no empty names, no repeats within the role, no name of the
/// roles `first` and `second` checked before.
fn validate_role(label: &str, names: &Vec<String>, first: &Vec<String>, second: &Vec<String>) -> (r:
    Result<()>)
    ensures
        outcome(r) == role_outcome(
            label@,
            names_view(names@),
            names_view(first@) + names_view(second@),
            0,
        ),
{
    let ghost earlier = names_view(first@) + names_view(second@);
    let ghost view = names_view(names@);
    let mut i: usize = 0;
    while i < names.len()
        invariant
            i <= names@.len(),
            view == names_view(names@),
            earlier == names_view(first@) + names_view(second@),
            role_outcome(label@, view, earlier, 0) == role_outcome(label@, view, earlier, i as int),
        decreases names.len() - i,
    {
        let name = &names[i];
        assert(view[i as int] == name@);
        if name.as_str().unicode_len() == 0 {
            let message = String::from_str(label).concat(" must not contain empty column names");
            assert(message@ =~= label@ + " must not contain empty column names"@);
            return Err(CartoBoostError::InvalidInput(message));
        }
        if contains_name(names, i, name) {
            let message = String::from_str(label).concat(" must not contain duplicate column names");
            assert(message@ =~= label@ + " must not contain duplicate column names"@);
            return Err(CartoBoostError::InvalidInput(message));
        }
        let in_first = contains_name(first, first.len(), name);
        let in_second = contains_name(second, second.len(), name);
        proof {
            let a = names_view(first@);
            let b = names_view(second@);
            assert(a.take(a.len() as int) =~= a);
            assert(b.take(b.len() as int) =~= b);
            if (a + b).contains(name@) {
                let t = choose|t: int| 0 <= t < (a + b).len() && (a + b)[t] == name@;
                if t < a.len() {
                    assert(a[t] == name@);
                } else {
                    assert(b[t - a.len()] == name@);
                }
            }
            if a.contains(name@) {
                let t = choose|t: int| 0 <= t < a.len() && a[t] == name@;
                assert((a + b)[t] == name@);
            }
            if b.contains(name@) {
                let t = choose|t: int| 0 <= t < b.len() && b[t] == name@;
                assert((a + b)[a.len() + t] == name@);
            }
        }
        if in_first || in_second {
            return Err(
                crate::error::invalid_input("forecast covariate columns must belong to only one role"),
            );
        }
        i = i + 1;
    }
    Ok(())
}

/// Validates that covariate names are non-empty, unique within their role, and
/// belong to one role only.
pub fn validate_metadata(metadata: &ForecastFrameMetadata) -> (r: Result<()>)
    ensures
        outcome(r) == metadata_outcome(
            names_view(metadata.static_covariates@),
            names_view(metadata.known_future_covariates@),
            names_view(metadata.historical_covariates@),
        ),
{
    let none: Vec<String> = Vec::new();
    assert(names_view(none@) + names_view(none@) =~= Seq::<Seq<char>>::empty());
    validate_role("static_covariates", &metadata.static_covariates, &none, &none)?;
    assert(names_view(metadata.static_covariates@) + names_view(none@) =~= names_view(
        metadata.static_covariates@,
    ));
    validate_role(
        "known_future_covariates",
        &metadata.known_future_covariates,
        &metadata.static_covariates,
        &none,
    )?;
    validate_role(
        "historical_covariates",
        &metadata.historical_covariates,
        &metadata.static_covariates,
        &metadata.known_future_covariates,
    )
}

/// `series_id`, or the single-series id when it is empty.
pub fn series_id_or_single(series_id: String) -> (id: String)
    ensures
        id@ == (if series_id@.len() == 0 {
            SINGLE_SERIES_ID@
        } else {
            series_id@
        }),
{
    if series_id.as_str().unicode_len() == 0 {
        String::from_str(SINGLE_SERIES_ID)
    } else {
        series_id
    }
}

/// A covariate value of a frame row: its column name and whether it is finite.
#[derive(Debug, Clone, PartialEq, Eq)]
pub struct CovariateCheck {
    pub name: String,
    pub finite: bool,
}

/// What the checks of a frame read of one row: its series id, its timestamp as
/// the frame displays it, whether its target is finite, and its covariates in
/// column order.
#[derive(Debug, Clone, PartialEq, Eq)]
pub struct FrameRowFacts {
    pub series_id: String,
    pub timestamp_text: String,
    pub target_finite: bool,
    pub covariates: Vec<CovariateCheck>,
}

/// The series a row belongs to once an empty id stands for the single series.
pub open spec fn row_series(row: FrameRowFacts) -> Seq<char> {
    if row.series_id@.len() == 0 {
        SINGLE_SERIES_ID@
    } else {
        row.series_id@
    }
}

/// The first issue among the covariates of a row from position `j` on.
pub open spec fn covariates_issue(row: FrameRowFacts, j: int) -> Option<Seq<char>>
    decreases row.covariates@.len() - j,
{
    if j >= row.covariates@.len() {
        None
    } else if row.covariates@[j].name@.len() == 0 {
        Some("forecast covariate names must not be empty"@)
    } else if !row.covariates@[j].finite {
        Some(
            "forecast covariate "@ + debug_quoted(row.covariates@[j].name@) + " for series "@ + row_series(row)
                + " at "@ + row.timestamp_text@ + " must be finite"@,
        )
    } else {
        covariates_issue(row, j + 1)
    }
}

/// The first issue among frame rows from position `i` on.
pub open spec fn frame_rows_issue(rows: Seq<FrameRowFacts>, i: int) -> Option<Seq<char>>
    decreases rows.len() - i,
{
    if i >= rows.len() {
        None
    } else if !rows[i].target_finite {
        Some("forecast targets must be finite"@)
    } else if covariates_issue(rows[i], 0) is Some {
        covariates_issue(rows[i], 0)
    } else {
        frame_rows_issue(rows, i + 1)
    }
}

/// What the checks of a new frame yield before its rows are ordered.
pub open spec fn frame_outcome(rows: Seq<FrameRowFacts>, metadata: ForecastFrameMetadata) -> core::result::Result<
    (),
    Seq<char>,
> {
    if rows.len() == 0 {
        Err("forecast frame must contain at least one row"@)
    } else {
        match metadata_outcome(
            names_view(metadata.static_covariates@),
            names_view(metadata.known_future_covariates@),
            names_view(metadata.historical_covariates@),
        ) {
            Err(message) => Err(message),
            Ok(_) => match frame_rows_issue(rows, 0) {
                Some(message) => Err(message),
                None => Ok(()),
            },
        }
    }
}

fn covariate_check(row: &FrameRowFacts) -> (m: Option<String>)
    ensures
        match m {
            Some(text) => covariates_issue(*row, 0) == Some(text@),
            None => covariates_issue(*row, 0) is None,
        },
{
    let mut j: usize = 0;
    while j < row.covariates.len()
        invariant
            j <= row.covariates@.len(),
            covariates_issue(*row, 0) == covariates_issue(*row, j as int),
        decreases row.covariates.len() - j,
    {
        let covariate = &row.covariates[j];
        if covariate.name.as_str().unicode_len() == 0 {
            return Some(String::from_str("forecast covariate names must not be empty"));
        }
        if !covariate.finite {
            let series = if row.series_id.as_str().unicode_len() == 0 {
                String::from_str(SINGLE_SERIES_ID)
            } else {
                row.series_id.clone()
            };
            let quoted = debug_text(covariate.name.as_str());
            let head = join3("forecast covariate ", quoted.as_str(), " for series ");
            let middle = join3(head.as_str(), series.as_str(), " at ");
            let message = join3(middle.as_str(), row.timestamp_text.as_str(), " must be finite");
            return Some(message);
        }
        j = j + 1;
    }
    None
}

/// Checks a new frame before its rows are ordered: at least one row, valid
/// column roles, finite targets, and named, finite covariates. An empty series id
/// stands for the single series.
pub fn validate_frame_rows(rows: &[FrameRowFacts], metadata: &ForecastFrameMetadata) -> (r: Result<()>)
    ensures
        outcome(r) == frame_outcome(rows@, *metadata),
{
    if rows.len() == 0 {
        return Err(invalid_input("forecast frame must contain at least one row"));
    }
    validate_metadata(metadata)?;
    let mut i: usize = 0;
    while i < rows.len()
        invariant
            i <= rows@.len(),
            rows@.len() > 0,
            metadata_outcome(
                names_view(metadata.static_covariates@),
                names_view(metadata.known_future_covariates@),
                names_view(metadata.historical_covariates@),
            ) is Ok,
            frame_rows_issue(rows@, 0) == frame_rows_issue(rows@, i as int),
        decreases rows.len() - i,
    {
        if !rows[i].target_finite {
            return Err(invalid_input("forecast targets must be finite"));
        }
        let found = covariate_check(&rows[i]);
        if let Some(message) = found {
            return Err(CartoBoostError::InvalidInput(message));
        }
        i = i + 1;
    }
    Ok(())
}

} // verus!

verus! {

/// Row `a` sorts before row `b`: by series id, then by timestamp.
pub open spec fn stamp_lt(a: RowStamp, b: RowStamp) -> bool {
    lex_lt(a.series_id@, b.series_id@) || (a.series_id@ == b.series_id@ && a.timestamp < b.timestamp)
}

/// Rows `a` and `b` share series and timestamp.
pub open spec fn same_key(a: RowStamp, b: RowStamp) -> bool {
    a.series_id@ == b.series_id@ && a.timestamp == b.timestamp
}

/// `order` lists every row position once, sorted by series then timestamp, with
/// no two rows sharing series and timestamp.
pub open spec fn strictly_sorted_order(rows: Seq<RowStamp>, order: Seq<usize>) -> bool {
    &&& order.len() == rows.len()
    &&& forall|k: int| 0 <= k < order.len() ==> #[trigger] order[k] < rows.len()
    &&& forall|k: int, l: int|
        0 <= k < l < order.len() ==> stamp_lt(rows[#[trigger] order[k] as int], rows[#[trigger] order[l] as int])
}

/// Two distinct rows share series and timestamp.
pub open spec fn has_duplicate_key(rows: Seq<RowStamp>) -> bool {
    exists|i: int, j: int|
        0 <= i < rows.len() && 0 <= j < rows.len() && i != j && same_key(#[trigger] rows[i], #[trigger] rows[j])
}

/// Row `c` directly follows row `p` in the same series: later, with no row of
/// the series in between.
pub open spec fn next_in_series(rows: Seq<RowStamp>, p: int, c: int) -> bool {
    &&& 0 <= p < rows.len()
    &&& 0 <= c < rows.len()
    &&& rows[p].series_id@ == rows[c].series_id@
    &&& rows[p].timestamp < rows[c].timestamp
    &&& forall|q: int|
        0 <= q < rows.len() && #[trigger] rows[q].series_id@ == rows[p].series_id@ ==> !(
        rows[p].timestamp < rows[q].timestamp && rows[q].timestamp < rows[c].timestamp)
}

/// Consecutive rows of every series are exactly `step` apart.
pub open spec fn regular_steps(rows: Seq<RowStamp>, step: i128) -> bool {
    forall|p: int, c: int|
        #[trigger] next_in_series(rows, p, c) ==> rows[c].timestamp - rows[p].timestamp == step
}

/// Why the rows of a frame cannot be ordered into a regular panel.
#[derive(Debug, Clone, Copy, PartialEq, Eq, Structural)]
pub enum FrameRowIssue {
    /// Row `row` repeats the series and timestamp of another row.
    DuplicateTimestamp { row: usize },
    /// Row `current` follows row `previous` in their series at a gap other than the step.
    IrregularStep { previous: usize, current: usize },
}

fn row_lt(a: &RowStamp, b: &RowStamp) -> (less: bool)
    ensures
        less == stamp_lt(*a, *b),
{
    if str_lt(a.series_id.as_str(), b.series_id.as_str()) {
        true
    } else if a.series_id == b.series_id {
        a.timestamp < b.timestamp
    } else {
        false
    }
}

proof fn lemma_stamp_total(a: RowStamp, b: RowStamp)
    ensures
        stamp_lt(a, b) || stamp_lt(b, a) || same_key(a, b),
        !(stamp_lt(a, b) && stamp_lt(b, a)),
        !(stamp_lt(a, b) && same_key(a, b)),
{
    lemma_lex_total(a.series_id@, b.series_id@);
    lemma_lex_asymmetric(a.series_id@, b.series_id@);
    lemma_lex_irreflexive(a.series_id@);
}

proof fn lemma_stamp_transitive(a: RowStamp, b: RowStamp, c: RowStamp)
    requires
        stamp_lt(a, b),
        stamp_lt(b, c),
    ensures
        stamp_lt(a, c),
{
    if lex_lt(a.series_id@, b.series_id@) && lex_lt(b.series_id@, c.series_id@) {
        lemma_lex_transitive(a.series_id@, b.series_id@, c.series_id@);
    }
}

/// Rows sorted non-strictly: later positions never sort before earlier ones.
pub open spec fn weakly_sorted(rows: Seq<RowStamp>, order: Seq<usize>) -> bool {
    forall|k: int, l: int|
        0 <= k < l < order.len() ==> !stamp_lt(rows[#[trigger] order[l] as int], rows[#[trigger] order[k] as int])
}

impl StableSortKey for RowStamp {
    open spec fn before(self, other: Self) -> bool {
        stamp_lt(self, other)
    }

    proof fn lemma_irreflexive(a: Self) {
        lemma_stamp_total(a, a);
    }

    proof fn lemma_transitive(a: Self, b: Self, c: Self) {
        lemma_stamp_transitive(a, b, c);
    }

    proof fn lemma_split(a: Self, b: Self, c: Self) {
        lemma_lex_total(a.series_id@, c.series_id@);
        if lex_lt(c.series_id@, a.series_id@) && lex_lt(a.series_id@, b.series_id@) {
            lemma_lex_transitive(c.series_id@, a.series_id@, b.series_id@);
        }
    }

    fn precedes(&self, other: &Self) -> (before: bool) {
        row_lt(self, other)
    }
}

/// Position, in the sorted order, of the first row that repeats the series and
/// timestamp of the row before it.
fn first_repeat(rows: &[RowStamp], order: &Vec<usize>) -> (found: Option<usize>)
    requires
        order@.len() == rows@.len(),
        forall|k: int| 0 <= k < order@.len() ==> #[trigger] order@[k] < rows@.len(),
        weakly_sorted(rows@, order@),
    ensures
        match found {
            Some(k) => 0 < k < order@.len() && same_key(rows@[order@[k - 1] as int], rows@[order@[k as int] as int])
                && forall|t: int| 0 < t < k ==> stamp_lt(rows@[order@[t - 1] as int], rows@[#[trigger] order@[t] as int]),
            None => forall|t: int| 0 < t < order@.len() ==> stamp_lt(rows@[order@[t - 1] as int], rows@[#[trigger] order@[t] as int]),
        },
{
    let n = order.len();
    let mut k: usize = 1;
    while k < n
        invariant
            n == order@.len(),
            order@.len() == rows@.len(),
            forall|t: int| 0 <= t < order@.len() ==> #[trigger] order@[t] < rows@.len(),
            weakly_sorted(rows@, order@),
            1 <= k,
            forall|t: int| 0 < t < k && t < n ==> stamp_lt(rows@[order@[t - 1] as int], rows@[#[trigger] order@[t] as int]),
        decreases n - k,
    {
        if same_stamp(&rows[order[k - 1]], &rows[order[k]]) {
            return Some(k);
        }
        proof {
            lemma_stamp_total(rows@[order@[k - 1] as int], rows@[order@[k as int] as int]);
            assert(!stamp_lt(rows@[order@[k as int] as int], rows@[order@[k - 1] as int]));
        }
        k = k + 1;
    }
    None
}

/// Position, in a strictly sorted order, of the first row that follows a row of
/// its series at a gap other than `step`.
fn first_irregular(rows: &[RowStamp], order: &Vec<usize>, step: i128) -> (found: Option<usize>)
    requires
        order@.len() == rows@.len(),
        forall|k: int| 0 <= k < order@.len() ==> #[trigger] order@[k] < rows@.len(),
    ensures
        match found {
            Some(k) => 0 < k < order@.len() && rows@[order@[k - 1] as int].series_id@
                == rows@[order@[k as int] as int].series_id@ && rows@[order@[k as int] as int].timestamp
                - rows@[order@[k - 1] as int].timestamp != step && forall|t: int|
                0 < t < k && rows@[order@[t - 1] as int].series_id@ == rows@[#[trigger] order@[t] as int].series_id@
                    ==> rows@[order@[t] as int].timestamp - rows@[order@[t - 1] as int].timestamp == step,
            None => forall|t: int| 0 < t < order@.len() && rows@[order@[t - 1] as int].series_id@
                == rows@[#[trigger] order@[t] as int].series_id@ ==> rows@[order@[t] as int].timestamp
                - rows@[order@[t - 1] as int].timestamp == step,
        },
{
    let n = order.len();
    let mut k: usize = 1;
    while k < n
        invariant
            n == order@.len(),
            order@.len() == rows@.len(),
            forall|t: int| 0 <= t < order@.len() ==> #[trigger] order@[t] < rows@.len(),
            1 <= k,
            forall|t: int| 0 < t < k && t < n && rows@[order@[t - 1] as int].series_id@
                == rows@[#[trigger] order@[t] as int].series_id@ ==> rows@[order@[t] as int].timestamp
                - rows@[order@[t - 1] as int].timestamp == step,
        decreases n - k,
    {
        let previous = order[k - 1];
        let current = order[k];
        if rows[previous].series_id == rows[current].series_id {
            let off_step = match rows[current].timestamp.checked_sub(rows[previous].timestamp) {
                Some(gap) => gap != step,
                None => true,
            };
            if off_step {
                return Some(k);
            }
        }
        k = k + 1;
    }
    None
}

/// Row `r` is the second row, by position, of the earliest key (by series, then
/// timestamp) that two rows share.
pub open spec fn is_first_repeat(rows: Seq<RowStamp>, r: int) -> bool {
    &&& 0 <= r < rows.len()
    &&& exists|j: int| 0 <= j < r && same_key(#[trigger] rows[j], rows[r])
    &&& forall|j1: int, j2: int|
        0 <= j1 < r && 0 <= j2 < r && same_key(#[trigger] rows[j1], rows[r]) && same_key(#[trigger] rows[j2], rows[r])
            ==> j1 == j2
    &&& forall|a: int, b: int|
        0 <= a < b < rows.len() && same_key(#[trigger] rows[a], #[trigger] rows[b]) ==> !stamp_lt(rows[b], rows[r])
}

/// `(p, c)` is the earliest pair, by the key of `c`, of consecutive rows of a
/// series that are not `step` apart.
pub open spec fn is_first_irregular(rows: Seq<RowStamp>, step: i128, p: int, c: int) -> bool {
    &&& next_in_series(rows, p, c)
    &&& rows[c].timestamp - rows[p].timestamp != step
    &&& forall|p2: int, c2: int|
        #[trigger] next_in_series(rows, p2, c2) && rows[c2].timestamp - rows[p2].timestamp != step ==> !stamp_lt(
            rows[c2],
            rows[c],
        )
}

/// Orders the rows of a frame by series, then timestamp, and checks that no two
/// rows share series and timestamp and that consecutive rows of a series are
/// exactly `step` apart. The first problem in that order is the one reported.
pub fn order_frame_rows(rows: &[RowStamp], step: i128) -> (r: core::result::Result<
    Vec<usize>,
    FrameRowIssue,
>)
    ensures
        match r {
            Ok(order) => strictly_sorted_order(rows@, order@) && !has_duplicate_key(rows@)
                && regular_steps(rows@, step),
            Err(FrameRowIssue::DuplicateTimestamp { row }) => is_first_repeat(rows@, row as int),
            Err(FrameRowIssue::IrregularStep { previous, current }) => !has_duplicate_key(rows@)
                && is_first_irregular(rows@, step, previous as int, current as int),
        },
{
    let order = stable_sort_positions(rows);
    let row_count: usize = rows.len();
    proof {
        assert(rows@.len() == row_count as int);
    }
    match first_repeat(rows, &order) {
        Some(k) => {
            proof {
                lemma_first_repeat(rows@, order@, k as int);
            }
            return Err(FrameRowIssue::DuplicateTimestamp { row: order[k] });
        },
        None => {},
    }
    proof {
        lemma_adjacent_strict(rows@, order@);
        lemma_no_duplicates(rows@, order@);
    }
    match first_irregular(rows, &order, step) {
        Some(k) => {
            proof {
                lemma_first_irregular(rows@, order@, step, k as int);
            }
            return Err(FrameRowIssue::IrregularStep { previous: order[k - 1], current: order[k] });
        },
        None => {},
    }
    proof {
        lemma_regular(rows@, order@, step);
    }
    Ok(order)
}

proof fn lemma_first_repeat(rows: Seq<RowStamp>, order: Seq<usize>, k: int)
    requires
        rows.len() <= usize::MAX,
        stably_sorted(rows, order),
        0 < k < order.len(),
        same_key(rows[order[k - 1] as int], rows[order[k] as int]),
        forall|t: int| 0 < t < k ==> stamp_lt(rows[order[t - 1] as int], rows[#[trigger] order[t] as int]),
    ensures
        is_first_repeat(rows, order[k] as int),
{
    let r = order[k] as int;
    let first = order[k - 1] as int;
    lemma_stamp_total(rows[first], rows[r]);
    assert(ties(rows[order[k - 1] as int], rows[order[k] as int]));
    assert(first < r);
    assert forall|j1: int| 0 <= j1 < r && same_key(#[trigger] rows[j1], rows[r]) implies j1 == first by {
        assert(order.contains(j1 as usize));
        let m = choose|m: int| 0 <= m < order.len() && order[m] == j1 as usize;
        assert(order[m] as int == j1);
        lemma_stamp_total(rows[j1], rows[r]);
        if m > k {
            assert(ties(rows[order[k] as int], rows[order[m] as int]));
        } else if m < k - 1 {
            lemma_chain_upto(rows, order, m, k - 1, k);
            lemma_stamp_total(rows[j1], rows[first]);
        }
    }
    assert forall|a: int, b: int|
        0 <= a < b < rows.len() && same_key(#[trigger] rows[a], #[trigger] rows[b]) implies !stamp_lt(rows[b], rows[r]) by {
        if stamp_lt(rows[b], rows[r]) {
            assert(order.contains(a as usize));
            assert(order.contains(b as usize));
            let ma = choose|m: int| 0 <= m < order.len() && order[m] == a as usize;
            let mb = choose|m: int| 0 <= m < order.len() && order[m] == b as usize;
            assert(order[ma] as int == a && order[mb] as int == b);
            lemma_stamp_total(rows[b], rows[r]);
            lemma_stamp_total(rows[b], rows[first]);
            lemma_stamp_total(rows[a], rows[first]);
            assert(stamp_lt(rows[a], rows[r]));
            assert(stamp_lt(rows[a], rows[first]));
            assert(stamp_lt(rows[b], rows[first]));
            if ma >= k - 1 {
                assert(!rows[order[ma] as int].before(rows[order[k - 1] as int]) || ma == k - 1);
            }
            if mb >= k - 1 {
                assert(!rows[order[mb] as int].before(rows[order[k - 1] as int]) || mb == k - 1);
            }
            assert(ma < k - 1 && mb < k - 1);
            lemma_stamp_total(rows[a], rows[b]);
            if ma < mb {
                lemma_chain_upto(rows, order, ma, mb, k);
            } else {
                lemma_chain_upto(rows, order, mb, ma, k);
            }
        }
    }
}

proof fn lemma_chain_upto(rows: Seq<RowStamp>, order: Seq<usize>, k: int, l: int, limit: int)
    requires
        0 <= k < l < limit <= order.len(),
        forall|t: int| 0 < t < limit ==> stamp_lt(rows[order[t - 1] as int], rows[#[trigger] order[t] as int]),
    ensures
        stamp_lt(rows[order[k] as int], rows[order[l] as int]),
    decreases l - k,
{
    if l > k + 1 {
        lemma_chain_upto(rows, order, k, l - 1, limit);
        assert(stamp_lt(rows[order[l - 1] as int], rows[order[l] as int]));
        lemma_stamp_transitive(rows[order[k] as int], rows[order[l - 1] as int], rows[order[l] as int]);
    }
}

proof fn lemma_first_irregular(rows: Seq<RowStamp>, order: Seq<usize>, step: i128, k: int)
    requires
        rows.len() <= usize::MAX,
        strictly_sorted_order(rows, order),
        forall|x: usize| #[trigger] order.contains(x) <==> (x as int) < rows.len(),
        0 < k < order.len(),
        rows[order[k - 1] as int].series_id@ == rows[order[k] as int].series_id@,
        rows[order[k] as int].timestamp - rows[order[k - 1] as int].timestamp != step,
        forall|t: int| 0 < t < k && rows[order[t - 1] as int].series_id@ == rows[#[trigger] order[t] as int].series_id@
            ==> rows[order[t] as int].timestamp - rows[order[t - 1] as int].timestamp == step,
    ensures
        is_first_irregular(rows, step, order[k - 1] as int, order[k] as int),
{
    lemma_adjacent_next(rows, order, k);
    let c = order[k] as int;
    assert forall|p2: int, c2: int|
        #[trigger] next_in_series(rows, p2, c2) && rows[c2].timestamp - rows[p2].timestamp != step implies !stamp_lt(
        rows[c2],
        rows[c],
    ) by {
        let a = lemma_next_positions(rows, order, p2, c2);
        assert(a + 1 >= k);
        lemma_stamp_total(rows[c2], rows[c]);
        if a + 1 > k {
            assert(stamp_lt(rows[order[k] as int], rows[order[a + 1] as int]));
        }
    }
}

/// In a strictly sorted order, a row sits right after the row it follows in its series.
proof fn lemma_next_positions(rows: Seq<RowStamp>, order: Seq<usize>, p: int, c: int) -> (a: int)
    requires
        rows.len() <= usize::MAX,
        strictly_sorted_order(rows, order),
        forall|x: usize| #[trigger] order.contains(x) <==> (x as int) < rows.len(),
        next_in_series(rows, p, c),
    ensures
        0 <= a && a + 1 < order.len(),
        order[a] as int == p,
        order[a + 1] as int == c,
{
    assert(order.contains(p as usize));
    assert(order.contains(c as usize));
    let a = choose|a: int| 0 <= a < order.len() && order[a] == p as usize;
    let b = choose|b: int| 0 <= b < order.len() && order[b] == c as usize;
    assert(order[a] as int == p && order[b] as int == c);
    lemma_lex_irreflexive(rows[p].series_id@);
    if b <= a {
        if b < a {
            assert(stamp_lt(rows[order[b] as int], rows[order[a] as int]));
        }
    } else if b > a + 1 {
        let q = order[a + 1] as int;
        assert(stamp_lt(rows[order[a] as int], rows[order[a + 1] as int]));
        assert(stamp_lt(rows[order[a + 1] as int], rows[order[b] as int]));
        if lex_lt(rows[p].series_id@, rows[q].series_id@) && lex_lt(rows[q].series_id@, rows[c].series_id@) {
            lemma_lex_transitive(rows[p].series_id@, rows[q].series_id@, rows[c].series_id@);
        }
    }
    a
}

fn same_stamp(a: &RowStamp, b: &RowStamp) -> (same: bool)
    ensures
        same == same_key(*a, *b),
{
    a.timestamp == b.timestamp && a.series_id == b.series_id
}

proof fn lemma_adjacent_strict(rows: Seq<RowStamp>, order: Seq<usize>)
    requires
        order.len() == rows.len(),
        forall|t: int| 0 <= t < order.len() ==> #[trigger] order[t] < rows.len(),
        forall|t: int| 0 < t < order.len() ==> stamp_lt(rows[order[t - 1] as int], rows[#[trigger] order[t] as int]),
    ensures
        strictly_sorted_order(rows, order),
{
    assert forall|k: int, l: int| 0 <= k < l < order.len() implies stamp_lt(
        rows[#[trigger] order[k] as int],
        rows[#[trigger] order[l] as int],
    ) by {
        lemma_chain(rows, order, k, l);
    }
}

proof fn lemma_chain(rows: Seq<RowStamp>, order: Seq<usize>, k: int, l: int)
    requires
        0 <= k < l < order.len(),
        forall|t: int| 0 < t < order.len() ==> stamp_lt(rows[order[t - 1] as int], rows[#[trigger] order[t] as int]),
    ensures
        stamp_lt(rows[order[k] as int], rows[order[l] as int]),
    decreases l - k,
{
    if l > k + 1 {
        lemma_chain(rows, order, k, l - 1);
        assert(stamp_lt(rows[order[l - 1] as int], rows[order[l] as int]));
        lemma_stamp_transitive(rows[order[k] as int], rows[order[l - 1] as int], rows[order[l] as int]);
    }
}

proof fn lemma_no_duplicates(rows: Seq<RowStamp>, order: Seq<usize>)
    requires
        rows.len() <= usize::MAX,
        strictly_sorted_order(rows, order),
        forall|x: usize| #[trigger] order.contains(x) <==> (x as int) < rows.len(),
    ensures
        !has_duplicate_key(rows),
{
    if has_duplicate_key(rows) {
        let (i, j) = choose|i: int, j: int|
            0 <= i < rows.len() && 0 <= j < rows.len() && i != j && same_key(#[trigger] rows[i], #[trigger] rows[j]);
        assert(order.contains(i as usize));
        assert(order.contains(j as usize));
        let a = choose|a: int| 0 <= a < order.len() && order[a] == i as usize;
        let b = choose|b: int| 0 <= b < order.len() && order[b] == j as usize;
        if a < b {
            assert(stamp_lt(rows[order[a] as int], rows[order[b] as int]));
        } else if b < a {
            assert(stamp_lt(rows[order[b] as int], rows[order[a] as int]));
        }
        lemma_stamp_total(rows[i], rows[j]);
        lemma_stamp_total(rows[j], rows[i]);
    }
}

proof fn lemma_adjacent_next(rows: Seq<RowStamp>, order: Seq<usize>, k: int)
    requires
        rows.len() <= usize::MAX,
        strictly_sorted_order(rows, order),
        forall|x: usize| #[trigger] order.contains(x) <==> (x as int) < rows.len(),
        0 < k < order.len(),
        rows[order[k - 1] as int].series_id@ == rows[order[k] as int].series_id@,
    ensures
        next_in_series(rows, order[k - 1] as int, order[k] as int),
{
    let p = order[k - 1] as int;
    let c = order[k] as int;
    assert(stamp_lt(rows[p], rows[c]));
    lemma_lex_irreflexive(rows[p].series_id@);
    assert forall|q: int|
        0 <= q < rows.len() && #[trigger] rows[q].series_id@ == rows[p].series_id@ implies !(
        rows[p].timestamp < rows[q].timestamp && rows[q].timestamp < rows[c].timestamp) by {
        if rows[p].timestamp < rows[q].timestamp && rows[q].timestamp < rows[c].timestamp {
            assert(order.contains(q as usize));
            let m = choose|m: int| 0 <= m < order.len() && order[m] == q as usize;
            assert(order[m] as int == q);
            if m <= k - 1 {
                if m < k - 1 {
                    assert(stamp_lt(rows[order[m] as int], rows[order[k - 1] as int]));
                }
            } else if m >= k {
                if m > k {
                    assert(stamp_lt(rows[order[k] as int], rows[order[m] as int]));
                }
            }
        }
    }
}

proof fn lemma_regular(rows: Seq<RowStamp>, order: Seq<usize>, step: i128)
    requires
        rows.len() <= usize::MAX,
        strictly_sorted_order(rows, order),
        forall|x: usize| #[trigger] order.contains(x) <==> (x as int) < rows.len(),
        forall|t: int| 0 < t < order.len() && rows[order[t - 1] as int].series_id@ == rows[#[trigger] order[t] as int].series_id@
            ==> rows[order[t] as int].timestamp - rows[order[t - 1] as int].timestamp == step,
    ensures
        regular_steps(rows, step),
{
    assert forall|p: int, c: int| #[trigger] next_in_series(rows, p, c) implies rows[c].timestamp - rows[p].timestamp == step by {
        let a = lemma_next_positions(rows, order, p, c);
        assert(rows[order[a] as int].series_id@ == rows[order[a + 1] as int].series_id@);
    }
}

/// The series ids of rows, one for each run of consecutive rows of a series.
pub open spec fn run_heads(ids: Seq<Seq<char>>) -> Seq<Seq<char>>
    decreases ids.len(),
{
    if ids.len() == 0 {
        Seq::empty()
    } else if ids.len() >= 2 && ids[ids.len() - 2] == ids.last() {
        run_heads(ids.drop_last())
    } else {
        run_heads(ids.drop_last()).push(ids.last())
    }
}

/// The series ids of the rows, in row order.
pub open spec fn row_series_ids(rows: Seq<RowStamp>) -> Seq<Seq<char>> {
    rows.map_values(|row: RowStamp| row.series_id@)
}

/// The series of ordered frame rows, each once: a new id whenever a row's series
/// differs from the previous row's.
pub fn series_ids(rows: &[RowStamp]) -> (ids: Vec<String>)
    ensures
        ids@.map_values(|id: String| id@) == run_heads(row_series_ids(rows@)),
{
    let mut ids: Vec<String> = Vec::new();
    let mut i: usize = 0;
    while i < rows.len()
        invariant
            i <= rows@.len(),
            ids@.map_values(|id: String| id@) == run_heads(row_series_ids(rows@).take(i as int)),
        decreases rows.len() - i,
    {
        let ghost before = row_series_ids(rows@).take(i as int);
        let ghost after = row_series_ids(rows@).take(i + 1);
        proof {
            assert(after.drop_last() =~= before);
        }
        if i == 0 || rows[i - 1].series_id != rows[i].series_id {
            let ghost old_ids = ids@;
            ids.push(rows[i].series_id.clone());
            proof {
                assert(ids@.map_values(|id: String| id@) =~= old_ids.map_values(|id: String| id@).push(rows@[i as int].series_id@));
            }
        }
        i = i + 1;
    }
    proof {
        assert(row_series_ids(rows@).take(rows@.len() as int) =~= row_series_ids(rows@));
    }
    ids
}

/// The positions of the rows of one series, in row order.
pub fn rows_for_series(rows: &[RowStamp], series_id: &str) -> (positions: Vec<usize>)
    ensures
        forall|k: int| 0 <= k < positions@.len() ==> (#[trigger] positions@[k]) < rows@.len()
            && rows@[positions@[k] as int].series_id@ == series_id@,
        forall|k: int, l: int| 0 <= k < l < positions@.len() ==> #[trigger] positions@[k] < #[trigger] positions@[l],
        forall|i: int| 0 <= i < rows@.len() && rows@[i].series_id@ == series_id@ ==> positions@.contains(i as usize),
{
    let mut positions: Vec<usize> = Vec::new();
    let mut i: usize = 0;
    while i < rows.len()
        invariant
            i <= rows@.len(),
            forall|k: int| 0 <= k < positions@.len() ==> (#[trigger] positions@[k]) < i
                && rows@[positions@[k] as int].series_id@ == series_id@,
            forall|k: int, l: int| 0 <= k < l < positions@.len() ==> #[trigger] positions@[k] < #[trigger] positions@[l],
            forall|t: int| 0 <= t < i && rows@[t].series_id@ == series_id@ ==> positions@.contains(t as usize),
        decreases rows.len() - i,
    {
        if str_eq(rows[i].series_id.as_str(), series_id) {
            let ghost before = positions@;
            positions.push(i);
            assert forall|t: int| 0 <= t < i + 1 && rows@[t].series_id@ == series_id@ implies positions@.contains(
                t as usize,
            ) by {
                if t < i {
                    let k = choose|k: int| 0 <= k < before.len() && before[k] == t as usize;
                    assert(positions@[k] == t as usize);
                } else {
                    assert(positions@[before.len() as int] == i);
                }
            }
        }
        i = i + 1;
    }
    positions
}

/// A frame is a panel when some row belongs to a named series rather than to
/// the single unnamed one.
pub fn is_panel(rows: &[RowStamp]) -> (panel: bool)
    ensures
        panel == exists|i: int| 0 <= i < rows@.len() && (#[trigger] rows@[i]).series_id@ != SINGLE_SERIES_ID@,
{
    let mut i: usize = 0;
    while i < rows.len()
        invariant
            i <= rows@.len(),
            forall|t: int| 0 <= t < i ==> (#[trigger] rows@[t]).series_id@ == SINGLE_SERIES_ID@,
        decreases rows.len() - i,
    {
        if !str_eq(rows[i].series_id.as_str(), SINGLE_SERIES_ID) {
            return true;
        }
        i = i + 1;
    }
    false
}

} // verus!
