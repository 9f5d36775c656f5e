//! Out-of-fold candidate rows for sequence meta-learning: the checks on a fold
//! and the alignment of each candidate's predictions to the validation rows.
use vstd::prelude::*;
use crate::error::{CartoBoostError, Result, invalid_input};
use crate::lex::{lex_lt, str_lt, lemma_lex_irreflexive, lemma_lex_asymmetric, lemma_lex_transitive, lemma_lex_total};
use crate::text::{is_blank, is_blank_str, join3};
use crate::sequence::{OofRowFacts, oof_outcome, oof_rows_outcome, oof_row_issue, trains_on_own_group};

verus! {

/// What the checks read of one prediction row: its ids and whether its value is finite.
#[derive(Debug, Clone, PartialEq, Eq)]
pub struct PredictionFacts {
    pub series_id: String,
    pub row_id: String,
    pub value_finite: bool,
}

/// Rows `a` and `b` carry the same series and row ids.
pub open spec fn same_row(a: PredictionFacts, b: PredictionFacts) -> bool {
    a.series_id@ == b.series_id@ && a.row_id@ == b.row_id@
}

/// Row `a` sorts before row `b`: by series id, then by row id.
pub open spec fn row_before(a: PredictionFacts, b: PredictionFacts) -> bool {
    lex_lt(a.series_id@, b.series_id@) || (a.series_id@ == b.series_id@ && lex_lt(a.row_id@, b.row_id@))
}

/// Some row before position `i` carries the ids of row `i`.
pub open spec fn repeats_earlier(rows: Seq<PredictionFacts>, i: int) -> bool {
    exists|j: int| 0 <= j < i && same_row(#[trigger] rows[j], rows[i])
}

/// What is wrong with row `i` of a prediction table, if anything.
pub open spec fn prediction_issue(rows: Seq<PredictionFacts>, i: int) -> Option<Seq<char>> {
    if is_blank(rows[i].series_id@) || is_blank(rows[i].row_id@) {
        Some("candidate prediction ids must be non-empty"@)
    } else if !rows[i].value_finite {
        Some("candidate prediction values must be finite"@)
    } else if repeats_earlier(rows, i) {
        Some("duplicate candidate prediction row"@)
    } else {
        None
    }
}

/// What checking the rows of a prediction table from position `i` on yields.
pub open spec fn predictions_from(rows: Seq<PredictionFacts>, i: int) -> core::result::Result<
    (),
    Seq<char>,
>
    decreases rows.len() - i,
{
    if i >= rows.len() {
        Ok(())
    } else {
        match prediction_issue(rows, i) {
            Some(message) => Err(message),
            None => predictions_from(rows, i + 1),
        }
    }
}

/// What checking a whole prediction table yields.
pub open spec fn predictions_outcome(rows: Seq<PredictionFacts>) -> core::result::Result<
    (),
    Seq<char>,
> {
    if rows.len() == 0 {
        Err("candidate predictions must be nonempty"@)
    } else {
        predictions_from(rows, 0)
    }
}

/// `order` lists every row position once, in increasing order of the rows' ids.
pub open spec fn sorted_positions(rows: Seq<PredictionFacts>, order: Seq<usize>) -> bool {
    &&& order.len() == rows.len()
    &&& forall|k: int| 0 <= k < order.len() ==> #[trigger] order[k] < rows.len()
    &&& forall|x: usize| #[trigger] order.contains(x) <==> (x as int) < rows.len()
    &&& forall|k: int, l: int|
        0 <= k < l < order.len() ==> row_before(rows[#[trigger] order[k] as int], rows[#[trigger] order[l] as int])
}

proof fn lemma_row_order(a: PredictionFacts, b: PredictionFacts)
    ensures
        row_before(a, b) || row_before(b, a) || same_row(a, b),
        !(row_before(a, b) && row_before(b, a)),
        !(row_before(a, b) && same_row(a, b)),
{
    lemma_lex_total(a.series_id@, b.series_id@);
    lemma_lex_total(a.row_id@, b.row_id@);
    lemma_lex_asymmetric(a.series_id@, b.series_id@);
    lemma_lex_asymmetric(a.row_id@, b.row_id@);
    lemma_lex_irreflexive(a.series_id@);
    lemma_lex_irreflexive(a.row_id@);
}

proof fn lemma_row_transitive(a: PredictionFacts, b: PredictionFacts, c: PredictionFacts)
    requires
        row_before(a, b),
        row_before(b, c),
    ensures
        row_before(a, c),
{
    if lex_lt(a.series_id@, b.series_id@) && lex_lt(b.series_id@, c.series_id@) {
        lemma_lex_transitive(a.series_id@, b.series_id@, c.series_id@);
    }
    if a.series_id@ == b.series_id@ && b.series_id@ == c.series_id@ && lex_lt(a.row_id@, b.row_id@)
        && lex_lt(b.row_id@, c.row_id@) {
        lemma_lex_transitive(a.row_id@, b.row_id@, c.row_id@);
    }
}

fn row_precedes(a: &PredictionFacts, b: &PredictionFacts) -> (before: bool)
    ensures
        before == row_before(*a, *b),
{
    if str_lt(a.series_id.as_str(), b.series_id.as_str()) {
        true
    } else if a.series_id == b.series_id {
        str_lt(a.row_id.as_str(), b.row_id.as_str())
    } else {
        false
    }
}

fn repeats_an_earlier_row(rows: &[PredictionFacts], i: usize) -> (repeated: bool)
    requires
        i < rows@.len(),
    ensures
        repeated == repeats_earlier(rows@, i as int),
{
    let mut j: usize = 0;
    while j < i
        invariant
            i < rows@.len(),
            j <= i,
            forall|t: int| 0 <= t < j ==> !same_row(#[trigger] rows@[t], rows@[i as int]),
        decreases i - j,
    {
        if rows[j].series_id == rows[i].series_id && rows[j].row_id == rows[i].row_id {
            return true;
        }
        j = j + 1;
    }
    false
}

proof fn lemma_checked_rows_distinct(rows: Seq<PredictionFacts>, from: int)
    requires
        0 <= from <= rows.len(),
        predictions_from(rows, from) is Ok,
    ensures
        forall|i: int, j: int| from <= j < i < rows.len() ==> !same_row(#[trigger] rows[j], #[trigger] rows[i]),
        forall|i: int| from <= i < rows.len() ==> prediction_issue(rows, i) is None,
    decreases rows.len() - from,
{
    if from < rows.len() {
        lemma_checked_rows_distinct(rows, from + 1);
        assert forall|i: int, j: int| from <= j < i < rows.len() implies !same_row(
            #[trigger] rows[j],
            #[trigger] rows[i],
        ) by {
            if j == from && i > from {
                assert(prediction_issue(rows, i) is None);
                assert(!repeats_earlier(rows, i));
                if same_row(rows[j], rows[i]) {
                    assert(0 <= j < i && same_row(rows[j], rows[i]));
                }
            }
        }
    }
}

/// Positions of rows with pairwise distinct ids, sorted by series id, then row id.
fn sort_prediction_rows(rows: &[PredictionFacts]) -> (order: Vec<usize>)
    requires
        forall|i: int, j: int| 0 <= j < i < rows@.len() ==> !same_row(#[trigger] rows@[j], #[trigger] rows@[i]),
    ensures
        sorted_positions(rows@, order@),
{
    let n = rows.len();
    let mut order: Vec<usize> = Vec::new();
    let mut i: usize = 0;
    while i < n
        invariant
            n == rows@.len(),
            i <= n,
            order@.len() == i,
            forall|i: int, j: int| 0 <= j < i < rows@.len() ==> !same_row(#[trigger] rows@[j], #[trigger] rows@[i]),
            forall|x: usize| #[trigger] order@.contains(x) <==> x < i,
            forall|k: int| 0 <= k < order@.len() ==> #[trigger] order@[k] < i,
            forall|k: int, l: int|
                0 <= k < l < order@.len() ==> row_before(rows@[#[trigger] order@[k] as int], rows@[#[trigger] order@[l] as int]),
        decreases n - i,
    {
        let mut p: usize = order.len();
        while p > 0 && row_precedes(&rows[i], &rows[order[p - 1]])
            invariant
                n == rows@.len(),
                i < n,
                p <= order@.len(),
                forall|k: int| p <= k < order@.len() ==> row_before(rows@[i as int], rows@[#[trigger] order@[k] as int]),
                forall|k: int| 0 <= k < order@.len() ==> #[trigger] order@[k] < i,
            decreases p,
        {
            p = p - 1;
        }
        let ghost before = order@;
        proof {
            if p > 0 {
                let a = rows@[before[p - 1] as int];
                let b = rows@[i as int];
                lemma_row_order(a, b);
                assert(!same_row(a, b));
                assert(row_before(a, b));
            }
        }
        order.insert(p, i);
        proof {
            assert(order@ =~= before.insert(p as int, i));
            assert forall|k: int, l: int| 0 <= k < l < order@.len() implies row_before(
                rows@[#[trigger] order@[k] as int],
                rows@[#[trigger] order@[l] as int],
            ) by {
                if k < p && l == p {
                    let a = rows@[before[p - 1] as int];
                    let b = rows@[i as int];
                    if k < p - 1 {
                        let c = rows@[before[k] as int];
                        assert(row_before(c, a));
                        lemma_row_transitive(c, a, b);
                    }
                } else if k == p && l > p {
                    assert(order@[l] == before[l - 1]);
                } else if k < p && l > p {
                    assert(before[k] == order@[k] && before[l - 1] == order@[l]);
                } else if k > p {
                    assert(before[k - 1] == order@[k] && before[l - 1] == order@[l]);
                } else {
                    assert(before[k] == order@[k] && before[l] == order@[l]);
                }
            }
            assert forall|x: usize| #[trigger] order@.contains(x) <==> x < i + 1 by {
                if x < i {
                    assert(before.contains(x));
                    let t = choose|t: int| 0 <= t < before.len() && before[t] == x;
                    if t < p {
                        assert(order@[t] == x);
                    } else {
                        assert(order@[t + 1] == x);
                    }
                } else if x == i {
                    assert(order@[p as int] == x);
                }
                if order@.contains(x) {
                    let t = choose|t: int| 0 <= t < order@.len() && order@[t] == x;
                    if t < p {
                        assert(before[t] == x);
                    } else if t > p {
                        assert(before[t - 1] == x);
                    }
                }
            }
        }
        i = i + 1;
    }
    order
}

/// Checks a table of predictions (non-empty, non-blank ids, finite values, no
/// repeated ids) and gives the positions of its rows in increasing order of ids.
pub fn prediction_map(predictions: &[PredictionFacts]) -> (r: Result<Vec<usize>>)
    ensures
        match r {
            Ok(order) => predictions_outcome(predictions@) is Ok && sorted_positions(predictions@, order@),
            Err(e) => predictions_outcome(predictions@) == Err::<(), Seq<char>>(e.text()),
        },
{
    if predictions.len() == 0 {
        return Err(invalid_input("candidate predictions must be nonempty"));
    }
    let mut i: usize = 0;
    while i < predictions.len()
        invariant
            i <= predictions@.len(),
            predictions@.len() > 0,
            predictions_outcome(predictions@) == predictions_from(predictions@, i as int),
        decreases predictions.len() - i,
    {
        let row = &predictions[i];
        if is_blank_str(row.series_id.as_str()) || is_blank_str(row.row_id.as_str()) {
            return Err(invalid_input("candidate prediction ids must be non-empty"));
        }
        if !row.value_finite {
            return Err(invalid_input("candidate prediction values must be finite"));
        }
        if repeats_an_earlier_row(predictions, i) {
            return Err(invalid_input("duplicate candidate prediction row"));
        }
        i = i + 1;
    }
    proof {
        lemma_checked_rows_distinct(predictions@, 0);
    }
    Ok(sort_prediction_rows(predictions))
}

/// What the generation of out-of-fold rows reads of one candidate: its name and
/// its prediction table.
#[derive(Debug, Clone, PartialEq, Eq)]
pub struct CandidateFacts {
    pub name: String,
    pub predictions: Vec<PredictionFacts>,
}

/// What the generation of out-of-fold rows reads of a fold: the validation group,
/// the groups trained on, the validation actuals and the candidates.
#[derive(Debug, Clone, PartialEq, Eq)]
pub struct OofFoldFacts {
    pub validation_group_id: String,
    pub train_group_ids: Vec<String>,
    pub actuals: Vec<PredictionFacts>,
    pub candidates: Vec<CandidateFacts>,
}

/// One out-of-fold meta-training row: its row id, the position of its actual in
/// the fold's actuals, and, per candidate, the position of the candidate's
/// prediction for the same row.
#[derive(Debug, Clone, PartialEq, Eq)]
pub struct OofRowPlan {
    pub row_id: String,
    pub actual: usize,
    pub candidate_rows: Vec<usize>,
}

/// Some name in `names` is blank.
pub open spec fn any_blank(names: Seq<String>) -> bool {
    exists|k: int| 0 <= k < names.len() && is_blank(#[trigger] names[k]@)
}

/// Some name in `names` equals `s`.
pub open spec fn holds_name(names: Seq<String>, s: Seq<char>) -> bool {
    exists|k: int| 0 <= k < names.len() && #[trigger] names[k]@ == s
}

/// The checks on a fold that come before its tables are read.
pub open spec fn fold_header_issue(fold: OofFoldFacts) -> Option<Seq<char>> {
    let v = fold.validation_group_id@;
    if is_blank(v) {
        Some("OOF validation_group_id must be non-empty"@)
    } else if fold.train_group_ids@.len() == 0 {
        Some("OOF train_group_ids must be nonempty"@)
    } else if any_blank(fold.train_group_ids@) {
        Some("OOF train_group_ids must be non-empty"@)
    } else if holds_name(fold.train_group_ids@, v) {
        Some("leakage check failed: validation group '"@ + v + "' appears in its training groups"@)
    } else if fold.candidates@.len() == 0 {
        Some("OOF candidate generation requires at least one candidate"@)
    } else {
        None
    }
}

/// Some actual row belongs to a series other than `v`.
pub open spec fn has_foreign_series(actuals: Seq<PredictionFacts>, v: Seq<char>) -> bool {
    exists|i: int| 0 <= i < actuals.len() && #[trigger] actuals[i].series_id@ != v
}

/// `s` is the first series other than `v` among the actual rows, in the order of texts.
pub open spec fn is_first_foreign(actuals: Seq<PredictionFacts>, v: Seq<char>, s: Seq<char>) -> bool {
    &&& s != v
    &&& exists|i: int| 0 <= i < actuals.len() && #[trigger] actuals[i].series_id@ == s
    &&& forall|j: int|
        0 <= j < actuals.len() && #[trigger] actuals[j].series_id@ != v ==> !lex_lt(actuals[j].series_id@, s)
}

/// The first series other than `v` among the actual rows.
pub open spec fn first_foreign_series(actuals: Seq<PredictionFacts>, v: Seq<char>) -> Seq<char> {
    choose|s: Seq<char>| is_first_foreign(actuals, v, s)
}

/// Some row of `table` carries the ids of `row`.
pub open spec fn has_row(table: Seq<PredictionFacts>, row: PredictionFacts) -> bool {
    exists|j: int| 0 <= j < table.len() && same_row(#[trigger] table[j], row)
}

/// Every row of `a` has a row with the same ids in `b`, and the other way round.
pub open spec fn same_rows(a: Seq<PredictionFacts>, b: Seq<PredictionFacts>) -> bool {
    &&& forall|i: int| 0 <= i < a.len() ==> has_row(b, #[trigger] a[i])
    &&& forall|j: int| 0 <= j < b.len() ==> has_row(a, #[trigger] b[j])
}

/// Some candidate before position `c` has the name of candidate `c`.
pub open spec fn repeats_candidate(candidates: Seq<CandidateFacts>, c: int) -> bool {
    exists|d: int| 0 <= d < c && #[trigger] candidates[d].name@ == candidates[c].name@
}

/// What is wrong with candidate `c` of a fold, if anything.
pub open spec fn candidate_issue(fold: OofFoldFacts, c: int) -> Option<Seq<char>> {
    let candidate = fold.candidates@[c];
    if is_blank(candidate.name@) {
        Some("OOF candidate names must be non-empty"@)
    } else if repeats_candidate(fold.candidates@, c) {
        Some("duplicate OOF candidate name '"@ + candidate.name@ + "'"@)
    } else {
        match predictions_outcome(candidate.predictions@) {
            Err(message) => Some(message),
            Ok(_) => if same_rows(candidate.predictions@, fold.actuals@) {
                None
            } else {
                Some("OOF candidate '"@ + candidate.name@ + "' is not aligned to validation actual rows"@)
            },
        }
    }
}

/// What checking the candidates of a fold from position `c` on yields.
pub open spec fn candidates_from(fold: OofFoldFacts, c: int) -> core::result::Result<(), Seq<char>>
    decreases fold.candidates@.len() - c,
{
    if c >= fold.candidates@.len() {
        Ok(())
    } else {
        match candidate_issue(fold, c) {
            Some(message) => Err(message),
            None => candidates_from(fold, c + 1),
        }
    }
}

/// What the generation of out-of-fold rows from `fold` yields, error or success.
pub open spec fn fold_outcome(fold: OofFoldFacts) -> core::result::Result<(), Seq<char>> {
    let v = fold.validation_group_id@;
    match fold_header_issue(fold) {
        Some(message) => Err(message),
        None => match predictions_outcome(fold.actuals@) {
            Err(message) => Err(message),
            Ok(_) => if has_foreign_series(fold.actuals@, v) {
                Err(
                    "OOF actual series_id '"@ + first_foreign_series(fold.actuals@, v)
                        + "' does not match validation group '"@ + v + "'"@,
                )
            } else {
                candidates_from(fold, 0)
            },
        },
    }
}

/// Some plan takes its actual from position `i`.
pub open spec fn planned(plans: Seq<OofRowPlan>, i: int) -> bool {
    exists|p: int| 0 <= p < plans.len() && #[trigger] plans[p].actual == i
}

/// `plans` holds one row per actual, in increasing order of row ids, each with
/// the position, in every candidate's table, of the prediction for its row.
pub open spec fn plans_match(fold: OofFoldFacts, plans: Seq<OofRowPlan>) -> bool {
    let actuals = fold.actuals@;
    &&& plans.len() == actuals.len()
    &&& forall|i: int| 0 <= i < actuals.len() ==> #[trigger] planned(plans, i)
    &&& forall|p: int, q: int| 0 <= p < q < plans.len() ==> lex_lt(#[trigger] plans[p].row_id@, #[trigger] plans[q].row_id@)
    &&& forall|p: int| 0 <= p < plans.len() ==> {
        let plan = #[trigger] plans[p];
        &&& plan.actual < actuals.len()
        &&& plan.row_id@ == actuals[plan.actual as int].row_id@
        &&& plan.candidate_rows@.len() == fold.candidates@.len()
        &&& forall|c: int| 0 <= c < plan.candidate_rows@.len() ==> {
            let table = fold.candidates@[c].predictions@;
            &&& #[trigger] plan.candidate_rows@[c] < table.len()
            &&& same_row(table[plan.candidate_rows@[c] as int], actuals[plan.actual as int])
        }
    }
}

fn any_blank_name(names: &Vec<String>) -> (found: bool)
    ensures
        found == any_blank(names@),
{
    let mut k: usize = 0;
    while k < names.len()
        invariant
            k <= names@.len(),
            forall|t: int| 0 <= t < k ==> !is_blank(#[trigger] names@[t]@),
        decreases names.len() - k,
    {
        if is_blank_str(names[k].as_str()) {
            return true;
        }
        k = k + 1;
    }
    false
}

pub(crate) fn holds_name_exec(names: &Vec<String>, s: &String) -> (found: bool)
    ensures
        found == holds_name(names@, s@),
{
    let mut k: usize = 0;
    while k < names.len()
        invariant
            k <= names@.len(),
            forall|t: int| 0 <= t < k ==> #[trigger] names@[t]@ != s@,
        decreases names.len() - k,
    {
        if names[k] == *s {
            return true;
        }
        k = k + 1;
    }
    false
}

fn repeats_candidate_name(candidates: &Vec<CandidateFacts>, c: usize) -> (repeated: bool)
    requires
        c < candidates@.len(),
    ensures
        repeated == repeats_candidate(candidates@, c as int),
{
    let mut d: usize = 0;
    while d < c
        invariant
            c < candidates@.len(),
            d <= c,
            forall|t: int| 0 <= t < d ==> #[trigger] candidates@[t].name@ != candidates@[c as int].name@,
        decreases c - d,
    {
        if candidates[d].name == candidates[c].name {
            return true;
        }
        d = d + 1;
    }
    false
}

/// Position in `table` of the row with the ids of `row`, if there is one.
fn find_row(table: &Vec<PredictionFacts>, row: &PredictionFacts) -> (found: Option<usize>)
    ensures
        match found {
            Some(j) => j < table@.len() && same_row(table@[j as int], *row),
            None => forall|j: int| 0 <= j < table@.len() ==> !same_row(#[trigger] table@[j], *row),
        },
{
    let mut j: usize = 0;
    while j < table.len()
        invariant
            j <= table@.len(),
            forall|t: int| 0 <= t < j ==> !same_row(#[trigger] table@[t], *row),
        decreases table.len() - j,
    {
        if table[j].series_id == row.series_id && table[j].row_id == row.row_id {
            return Some(j);
        }
        j = j + 1;
    }
    None
}

/// Whether every row of each table has a row with the same ids in the other.
fn same_row_tables(a: &Vec<PredictionFacts>, b: &Vec<PredictionFacts>) -> (same: bool)
    ensures
        same == same_rows(a@, b@),
{
    let mut i: usize = 0;
    while i < a.len()
        invariant
            i <= a@.len(),
            forall|t: int| 0 <= t < i ==> has_row(b@, #[trigger] a@[t]),
        decreases a.len() - i,
    {
        match find_row(b, &a[i]) {
            Some(j) => {
                assert(same_row(b@[j as int], a@[i as int]));
            },
            None => {
                assert(!has_row(b@, a@[i as int]));
                return false;
            },
        }
        i = i + 1;
    }
    let mut j: usize = 0;
    while j < b.len()
        invariant
            j <= b@.len(),
            forall|t: int| 0 <= t < a@.len() ==> has_row(b@, #[trigger] a@[t]),
            forall|t: int| 0 <= t < j ==> has_row(a@, #[trigger] b@[t]),
        decreases b.len() - j,
    {
        match find_row(a, &b[j]) {
            Some(i) => {
                assert(same_row(a@[i as int], b@[j as int]));
            },
            None => {
                assert(!has_row(a@, b@[j as int]));
                return false;
            },
        }
        j = j + 1;
    }
    true
}

/// `column` gives, for each actual in `order`, the position in the table of
/// candidate `c` of the prediction for the same row.
pub open spec fn column_matches(fold: OofFoldFacts, order: Seq<usize>, column: Seq<usize>, c: int) -> bool {
    let table = fold.candidates@[c].predictions@;
    &&& column.len() == order.len()
    &&& forall|k: int|
        0 <= k < column.len() ==> #[trigger] column[k] < table.len() && same_row(
            table[column[k] as int],
            fold.actuals@[order[k] as int],
        )
}

proof fn lemma_first_foreign_unique(actuals: Seq<PredictionFacts>, v: Seq<char>, s: Seq<char>)
    requires
        is_first_foreign(actuals, v, s),
    ensures
        first_foreign_series(actuals, v) == s,
{
    let t = first_foreign_series(actuals, v);
    assert(is_first_foreign(actuals, v, t));
    let i = choose|i: int| 0 <= i < actuals.len() && #[trigger] actuals[i].series_id@ == s;
    let j = choose|j: int| 0 <= j < actuals.len() && #[trigger] actuals[j].series_id@ == t;
    assert(!lex_lt(actuals[i].series_id@, t));
    assert(!lex_lt(actuals[j].series_id@, s));
    lemma_lex_total(s, t);
}

fn foreign_series_message(series: &str, v: &str) -> (message: String)
    ensures
        message@ == "OOF actual series_id '"@ + series@ + "' does not match validation group '"@ + v@ + "'"@,
{
    let head = join3("OOF actual series_id '", series, "' does not match validation group '");
    let message = join3(head.as_str(), v, "'");
    proof {
        assert(message@ =~= "OOF actual series_id '"@ + series@ + "' does not match validation group '"@ + v@
            + "'"@);
    }
    message
}

/// For each actual in `order`, the position of the prediction for the same row in `table`.
fn align_column(table: &Vec<PredictionFacts>, actuals: &Vec<PredictionFacts>, order: &Vec<usize>) -> (column: Vec<usize>)
    requires
        forall|k: int| 0 <= k < order@.len() ==> #[trigger] order@[k] < actuals@.len(),
        forall|j: int| 0 <= j < actuals@.len() ==> has_row(table@, #[trigger] actuals@[j]),
    ensures
        column@.len() == order@.len(),
        forall|k: int|
            0 <= k < column@.len() ==> #[trigger] column@[k] < table@.len() && same_row(
                table@[column@[k] as int],
                actuals@[order@[k] as int],
            ),
{
    let mut column: Vec<usize> = Vec::new();
    let mut k: usize = 0;
    while k < order.len()
        invariant
            k <= order@.len(),
            column@.len() == k,
            forall|k: int| 0 <= k < order@.len() ==> #[trigger] order@[k] < actuals@.len(),
            forall|j: int| 0 <= j < actuals@.len() ==> has_row(table@, #[trigger] actuals@[j]),
            forall|t: int|
                0 <= t < k ==> #[trigger] column@[t] < table@.len() && same_row(
                    table@[column@[t] as int],
                    actuals@[order@[t] as int],
                ),
        decreases order.len() - k,
    {
        let row = &actuals[order[k]];
        let found = find_row(table, row);
        proof {
            assert(has_row(table@, actuals@[order@[k as int] as int]));
        }
        column.push(found.unwrap());
        k = k + 1;
    }
    column
}

/// Checks an out-of-fold fold and lays out its meta-training rows: one per
/// validation actual, in increasing order of row ids, each with the position of
/// every candidate's prediction for that row. The fold's validation group must
/// be non-blank and absent from its non-blank training groups, there must be a
/// candidate, every table must pass `prediction_map`, every actual must belong
/// to the validation group, and every candidate must have a non-blank, unique
/// name and predict exactly the actual rows.
pub fn generate_group_oof_candidate_rows(fold: &OofFoldFacts) -> (r: Result<Vec<OofRowPlan>>)
    ensures
        match r {
            Ok(plans) => fold_outcome(*fold) is Ok && plans_match(*fold, plans@),
            Err(e) => fold_outcome(*fold) == Err::<(), Seq<char>>(e.text()),
        },
{
    let v = &fold.validation_group_id;
    if is_blank_str(v.as_str()) {
        return Err(invalid_input("OOF validation_group_id must be non-empty"));
    }
    if fold.train_group_ids.len() == 0 {
        return Err(invalid_input("OOF train_group_ids must be nonempty"));
    }
    if any_blank_name(&fold.train_group_ids) {
        return Err(invalid_input("OOF train_group_ids must be non-empty"));
    }
    if holds_name_exec(&fold.train_group_ids, v) {
        return Err(
            CartoBoostError::InvalidInput(
                join3("leakage check failed: validation group '", v.as_str(), "' appears in its training groups"),
            ),
        );
    }
    if fold.candidates.len() == 0 {
        return Err(invalid_input("OOF candidate generation requires at least one candidate"));
    }
    let order = match prediction_map(&fold.actuals) {
        Ok(order) => order,
        Err(e) => {
            return Err(e);
        },
    };
    let n = order.len();
    let mut k: usize = 0;
    while k < n
        invariant
            fold_header_issue(*fold) is None,
            predictions_outcome(fold.actuals@) is Ok,
            v@ == fold.validation_group_id@,
            n == order@.len(),
            k <= n,
            sorted_positions(fold.actuals@, order@),
            forall|t: int| 0 <= t < k ==> fold.actuals@[#[trigger] order@[t] as int].series_id@ == v@,
        decreases n - k,
    {
        let row = &fold.actuals[order[k]];
        if row.series_id != *v {
            proof {
                let s = row.series_id@;
                assert forall|j: int|
                    0 <= j < fold.actuals@.len() && #[trigger] fold.actuals@[j].series_id@ != v@ implies !lex_lt(
                    fold.actuals@[j].series_id@,
                    s,
                ) by {
                    assert(order@.contains(j as usize));
                    let m = choose|m: int| 0 <= m < order@.len() && order@[m] == j as usize;
                    assert(order@[m] as int == j);
                    if m > k {
                        assert(row_before(fold.actuals@[order@[k as int] as int], fold.actuals@[order@[m] as int]));
                        lemma_lex_asymmetric(s, fold.actuals@[j].series_id@);
                        lemma_lex_irreflexive(s);
                    } else if m == k {
                        lemma_lex_irreflexive(s);
                    }
                }
                assert(fold.actuals@[order@[k as int] as int].series_id@ == s);
                assert(fold.actuals@[order@[k as int] as int].series_id@ != v@);
                assert(has_foreign_series(fold.actuals@, v@));
                lemma_first_foreign_unique(fold.actuals@, v@, s);
            }
            return Err(CartoBoostError::InvalidInput(foreign_series_message(row.series_id.as_str(), v.as_str())));
        }
        k = k + 1;
    }
    proof {
        assert forall|i: int| 0 <= i < fold.actuals@.len() implies #[trigger] fold.actuals@[i].series_id@ == v@ by {
            assert(order@.contains(i as usize));
            let m = choose|m: int| 0 <= m < order@.len() && order@[m] == i as usize;
            assert(order@[m] as int == i);
        }
    }
    let mut columns: Vec<Vec<usize>> = Vec::new();
    let mut c: usize = 0;
    while c < fold.candidates.len()
        invariant
            fold_header_issue(*fold) is None,
            predictions_outcome(fold.actuals@) is Ok,
            !has_foreign_series(fold.actuals@, v@),
            v@ == fold.validation_group_id@,
            fold_outcome(*fold) == candidates_from(*fold, c as int),
            c <= fold.candidates@.len(),
            columns@.len() == c,
            n == order@.len(),
            sorted_positions(fold.actuals@, order@),
            forall|d: int| 0 <= d < c ==> column_matches(*fold, order@, #[trigger] columns@[d]@, d),
        decreases fold.candidates.len() - c,
    {
        let candidate = &fold.candidates[c];
        if is_blank_str(candidate.name.as_str()) {
            return Err(invalid_input("OOF candidate names must be non-empty"));
        }
        if repeats_candidate_name(&fold.candidates, c) {
            return Err(CartoBoostError::InvalidInput(join3("duplicate OOF candidate name '", candidate.name.as_str(), "'")));
        }
        match prediction_map(&candidate.predictions) {
            Ok(_) => {},
            Err(e) => {
                return Err(e);
            },
        }
        if !same_row_tables(&candidate.predictions, &fold.actuals) {
            return Err(
                CartoBoostError::InvalidInput(
                    join3("OOF candidate '", candidate.name.as_str(), "' is not aligned to validation actual rows"),
                ),
            );
        }
        let column = align_column(&candidate.predictions, &fold.actuals, &order);
        columns.push(column);
        proof {
            assert(column_matches(*fold, order@, columns@[c as int]@, c as int));
        }
        c = c + 1;
    }
    proof {
        lemma_lex_irreflexive(v@);
    }
    let mut plans: Vec<OofRowPlan> = Vec::new();
    let mut k: usize = 0;
    while k < n
        invariant
            n == order@.len(),
            k <= n,
            sorted_positions(fold.actuals@, order@),
            forall|i: int| 0 <= i < fold.actuals@.len() ==> #[trigger] fold.actuals@[i].series_id@ == v@,
            !lex_lt(v@, v@),
            columns@.len() == fold.candidates@.len(),
            forall|d: int| 0 <= d < columns@.len() ==> column_matches(*fold, order@, #[trigger] columns@[d]@, d),
            plans@.len() == k,
            forall|p: int| 0 <= p < k ==> {
                let plan = #[trigger] plans@[p];
                &&& plan.actual == order@[p]
                &&& plan.row_id@ == fold.actuals@[order@[p] as int].row_id@
                &&& plan.candidate_rows@.len() == columns@.len()
                &&& forall|d: int| 0 <= d < columns@.len() ==> #[trigger] plan.candidate_rows@[d] == columns@[d]@[p]
            },
        decreases n - k,
    {
        let position = order[k];
        let mut rows: Vec<usize> = Vec::new();
        let mut d: usize = 0;
        while d < columns.len()
            invariant
                k < n,
                n == order@.len(),
                d <= columns@.len(),
                rows@.len() == d,
                forall|d: int| 0 <= d < columns@.len() ==> column_matches(*fold, order@, #[trigger] columns@[d]@, d),
                forall|t: int| 0 <= t < d ==> #[trigger] rows@[t] == columns@[t]@[k as int],
            decreases columns.len() - d,
        {
            assert(column_matches(*fold, order@, columns@[d as int]@, d as int));
            rows.push(columns[d][k]);
            d = d + 1;
        }
        let row_id = fold.actuals[position].row_id.clone();
        plans.push(OofRowPlan { row_id, actual: position, candidate_rows: rows });
        k = k + 1;
    }
    proof {
        let actuals = fold.actuals@;
        assert forall|i: int| 0 <= i < actuals.len() implies #[trigger] planned(plans@, i) by {
            assert(order@.contains(i as usize));
            let m = choose|m: int| 0 <= m < order@.len() && order@[m] == i as usize;
            assert(plans@[m].actual == i);
        }
        assert forall|p: int, q: int| 0 <= p < q < plans@.len() implies lex_lt(
            #[trigger] plans@[p].row_id@,
            #[trigger] plans@[q].row_id@,
        ) by {
            assert(row_before(actuals[order@[p] as int], actuals[order@[q] as int]));
            assert(actuals[order@[p] as int].series_id@ == v@);
            assert(actuals[order@[q] as int].series_id@ == v@);
        }
        assert forall|p: int| 0 <= p < plans@.len() implies {
            let plan = #[trigger] plans@[p];
            &&& plan.actual < actuals.len()
            &&& plan.row_id@ == actuals[plan.actual as int].row_id@
            &&& plan.candidate_rows@.len() == fold.candidates@.len()
            &&& forall|c: int| 0 <= c < plan.candidate_rows@.len() ==> {
                let table = fold.candidates@[c].predictions@;
                &&& #[trigger] plan.candidate_rows@[c] < table.len()
                &&& same_row(table[plan.candidate_rows@[c] as int], actuals[plan.actual as int])
            }
        } by {
            let plan = plans@[p];
            assert forall|c: int| 0 <= c < plan.candidate_rows@.len() implies {
                let table = fold.candidates@[c].predictions@;
                &&& #[trigger] plan.candidate_rows@[c] < table.len()
                &&& same_row(table[plan.candidate_rows@[c] as int], actuals[plan.actual as int])
            } by {
                assert(column_matches(*fold, order@, columns@[c]@, c));
                assert(plan.candidate_rows@[c] == columns@[c]@[p]);
            }
        }
    }
    Ok(plans)
}

/// The meta-training rows that `plans` lay out for `fold`: the validation group,
/// each plan's row id, finite values, and the fold's training groups.
pub open spec fn meta_training_rows(fold: OofFoldFacts, plans: Seq<OofRowPlan>) -> Seq<OofRowFacts> {
    Seq::new(
        plans.len(),
        |p: int|
            OofRowFacts {
                group_id: fold.validation_group_id,
                row_id: fold.actuals@[plans[p].actual as int].row_id,
                values_finite: true,
                train_group_ids: fold.train_group_ids,
            },
    )
}

/// The rows generated from a fold always pass the meta-training checks: their
/// ids are non-blank, their values finite, and their group is never among the
/// groups they were trained on.
pub proof fn lemma_generated_rows_pass_meta_training(fold: OofFoldFacts, plans: Seq<OofRowPlan>)
    requires
        fold_outcome(fold) is Ok,
        plans_match(fold, plans),
    ensures
        oof_outcome(meta_training_rows(fold, plans)) == Ok::<(), Seq<char>>(()),
{
    let rows = meta_training_rows(fold, plans);
    assert(fold_header_issue(fold) is None);
    assert(predictions_outcome(fold.actuals@) is Ok);
    assert(predictions_from(fold.actuals@, 0) is Ok);
    lemma_checked_rows_distinct(fold.actuals@, 0);
    assert forall|j: int| 0 <= j < rows.len() implies #[trigger] oof_row_issue(rows[j]) is None by {
        let plan = plans[j];
        assert(prediction_issue(fold.actuals@, plan.actual as int) is None);
        if trains_on_own_group(rows[j]) {
            let k = choose|k: int|
                0 <= k < rows[j].train_group_ids@.len() && #[trigger] rows[j].train_group_ids@[k]@ == rows[j].group_id@;
            assert(fold.train_group_ids@[k]@ == fold.validation_group_id@);
        }
    }
    lemma_meta_rows_ok_from(rows, 0);
}

proof fn lemma_meta_rows_ok_from(rows: Seq<OofRowFacts>, i: int)
    requires
        0 <= i <= rows.len(),
        forall|j: int| 0 <= j < rows.len() ==> #[trigger] oof_row_issue(rows[j]) is None,
    ensures
        oof_rows_outcome(rows, i) == Ok::<(), Seq<char>>(()),
    decreases rows.len() - i,
{
    if i < rows.len() {
        lemma_meta_rows_ok_from(rows, i + 1);
        assert(oof_row_issue(rows[i]) is None);
    }
}

/// What a blend reads of one of its weights: the candidate it belongs to and
/// whether the weight is finite and non-negative.
#[derive(Debug, Clone, PartialEq, Eq)]
pub struct BlendWeightFacts {
    pub name: String,
    pub valid: bool,
}

/// The first problem among blend weights from position `i` on.
pub open spec fn blend_weights_issue(weights: Seq<BlendWeightFacts>, i: int) -> Option<Seq<char>>
    decreases weights.len() - i,
{
    if i >= weights.len() || i < 0 {
        None
    } else if is_blank(weights[i].name@) {
        Some("sequence blend candidate names must be non-empty"@)
    } else if !weights[i].valid {
        Some("sequence blend weights must be finite and non-negative"@)
    } else {
        blend_weights_issue(weights, i + 1)
    }
}

/// Some weight belongs to the candidate named `name`.
pub open spec fn weighs(weights: Seq<BlendWeightFacts>, name: Seq<char>) -> bool {
    exists|k: int| 0 <= k < weights.len() && #[trigger] weights[k].name@ == name
}

/// Some candidate is named `name`.
pub open spec fn names_candidate(candidates: Seq<CandidateFacts>, name: Seq<char>) -> bool {
    exists|c: int| 0 <= c < candidates.len() && #[trigger] candidates[c].name@ == name
}

/// The first problem among candidates from position `c` on, each compared with
/// the first candidate's rows.
pub open spec fn blend_candidates_issue(
    weights: Seq<BlendWeightFacts>,
    candidates: Seq<CandidateFacts>,
    c: int,
) -> Option<Seq<char>>
    decreases candidates.len() - c,
{
    if c >= candidates.len() || c < 0 {
        None
    } else if !weighs(weights, candidates[c].name@) {
        Some("missing blend weight for candidate '"@ + candidates[c].name@ + "'"@)
    } else if predictions_outcome(candidates[c].predictions@) is Err {
        Some(predictions_outcome(candidates[c].predictions@)->Err_0)
    } else if c > 0 && !same_rows(candidates[c].predictions@, candidates[0].predictions@) {
        Some("candidate '"@ + candidates[c].name@ + "' is not aligned to ensemble rows"@)
    } else {
        blend_candidates_issue(weights, candidates, c + 1)
    }
}

/// The first weight from position `i` on that names no candidate.
pub open spec fn unknown_weight_issue(weights: Seq<BlendWeightFacts>, candidates: Seq<CandidateFacts>, i: int) -> Option<
    Seq<char>,
>
    decreases weights.len() - i,
{
    if i >= weights.len() || i < 0 {
        None
    } else if !names_candidate(candidates, weights[i].name@) {
        Some("blend weight references unknown candidate '"@ + weights[i].name@ + "'"@)
    } else {
        unknown_weight_issue(weights, candidates, i + 1)
    }
}

/// Why a set of blend weights (in key order; `total_positive` when they sum to
/// more than zero) is refused, if it is.
pub open spec fn weights_issue(weights: Seq<BlendWeightFacts>, total_positive: bool) -> Option<Seq<char>> {
    if weights.len() == 0 {
        Some("sequence blend weights must be nonempty"@)
    } else if blend_weights_issue(weights, 0) is Some {
        blend_weights_issue(weights, 0)
    } else if !total_positive {
        Some("sequence blend requires at least one positive weight"@)
    } else {
        None
    }
}

/// Why a blend with these weights (in key order; `total_positive` when they sum
/// to more than zero) cannot combine these candidates, if it cannot.
pub open spec fn blend_issue(weights: Seq<BlendWeightFacts>, total_positive: bool, candidates: Seq<CandidateFacts>) -> Option<
    Seq<char>,
> {
    if weights_issue(weights, total_positive) is Some {
        weights_issue(weights, total_positive)
    } else if blend_candidates_issue(weights, candidates, 0) is Some {
        blend_candidates_issue(weights, candidates, 0)
    } else {
        unknown_weight_issue(weights, candidates, 0)
    }
}

/// Checks blend weights: there is at least one, each names a candidate and is
/// finite and non-negative, and together they are positive.
pub fn validate_weights(weights: &[BlendWeightFacts], total_positive: bool) -> (r: Result<()>)
    ensures
        match r {
            Ok(()) => weights_issue(weights@, total_positive) is None,
            Err(e) => weights_issue(weights@, total_positive) == Some(e.text()),
        },
{
    if weights.len() == 0 {
        return Err(invalid_input("sequence blend weights must be nonempty"));
    }
    let mut i: usize = 0;
    while i < weights.len()
        invariant
            i <= weights@.len(),
            weights@.len() > 0,
            blend_weights_issue(weights@, 0) == blend_weights_issue(weights@, i as int),
        decreases weights.len() - i,
    {
        if is_blank_str(weights[i].name.as_str()) {
            return Err(invalid_input("sequence blend candidate names must be non-empty"));
        }
        if !weights[i].valid {
            return Err(invalid_input("sequence blend weights must be finite and non-negative"));
        }
        i = i + 1;
    }
    if !total_positive {
        return Err(invalid_input("sequence blend requires at least one positive weight"));
    }
    Ok(())
}

fn weighs_exec(weights: &[BlendWeightFacts], name: &String) -> (found: bool)
    ensures
        found == weighs(weights@, name@),
{
    let mut k: usize = 0;
    while k < weights.len()
        invariant
            k <= weights@.len(),
            forall|t: int| 0 <= t < k ==> #[trigger] weights@[t].name@ != name@,
        decreases weights.len() - k,
    {
        if weights[k].name == *name {
            return true;
        }
        k = k + 1;
    }
    false
}

fn names_candidate_exec(candidates: &[CandidateFacts], name: &String) -> (found: bool)
    ensures
        found == names_candidate(candidates@, name@),
{
    let mut c: usize = 0;
    while c < candidates.len()
        invariant
            c <= candidates@.len(),
            forall|t: int| 0 <= t < c ==> #[trigger] candidates@[t].name@ != name@,
        decreases candidates.len() - c,
    {
        if candidates[c].name == *name {
            return true;
        }
        c = c + 1;
    }
    false
}

/// Lines up the candidates of a weighted blend: checks the weights (non-empty,
/// named, valid, positive in total), that every candidate has a weight, a valid
/// prediction table and the rows of the first candidate, and that every weight
/// names a candidate. On success it gives the first candidate's rows in
/// increasing order of ids and, for each candidate, the position of its
/// prediction for each of those rows.
pub fn blend_alignment(weights: &[BlendWeightFacts], total_positive: bool, candidates: &Vec<CandidateFacts>) -> (r: Result<
    (Vec<usize>, Vec<Vec<usize>>),
>)
    ensures
        match r {
            Ok((rows, columns)) => {
                &&& blend_issue(weights@, total_positive, candidates@) is None
                &&& candidates@.len() > 0
                &&& sorted_positions(candidates@[0].predictions@, rows@)
                &&& columns@.len() == candidates@.len()
                &&& forall|c: int|
                    0 <= c < candidates@.len() ==> (#[trigger] columns@[c])@.len() == rows@.len() && forall|k: int|
                        0 <= k < rows@.len() ==> #[trigger] columns@[c]@[k] < candidates@[c].predictions@.len()
                            && same_row(
                            candidates@[c].predictions@[columns@[c]@[k] as int],
                            candidates@[0].predictions@[rows@[k] as int],
                        )
            },
            Err(e) => blend_issue(weights@, total_positive, candidates@) == Some(e.text()),
        },
{
    match validate_weights(weights, total_positive) {
        Ok(()) => {},
        Err(e) => {
            return Err(e);
        },
    }
    let mut c: usize = 0;
    while c < candidates.len()
        invariant
            c <= candidates@.len(),
            weights@.len() > 0,
            blend_weights_issue(weights@, 0) is None,
            total_positive,
            blend_candidates_issue(weights@, candidates@, 0) == blend_candidates_issue(weights@, candidates@, c as int),
            forall|d: int| 0 <= d < c ==> predictions_outcome(#[trigger] candidates@[d].predictions@) is Ok,
            forall|d: int| 0 < d < c ==> same_rows(#[trigger] candidates@[d].predictions@, candidates@[0].predictions@),
        decreases candidates.len() - c,
    {
        let candidate = &candidates[c];
        if !weighs_exec(weights, &candidate.name) {
            return Err(CartoBoostError::InvalidInput(join3("missing blend weight for candidate '", candidate.name.as_str(), "'")));
        }
        match prediction_map(candidate.predictions.as_slice()) {
            Ok(_) => {},
            Err(e) => {
                return Err(e);
            },
        }
        if c > 0 && !same_row_tables(&candidate.predictions, &candidates[0].predictions) {
            return Err(
                CartoBoostError::InvalidInput(
                    join3("candidate '", candidate.name.as_str(), "' is not aligned to ensemble rows"),
                ),
            );
        }
        c = c + 1;
    }
    let mut i: usize = 0;
    while i < weights.len()
        invariant
            i <= weights@.len(),
            weights@.len() > 0,
            blend_weights_issue(weights@, 0) is None,
            total_positive,
            blend_candidates_issue(weights@, candidates@, 0) is None,
            unknown_weight_issue(weights@, candidates@, 0) == unknown_weight_issue(weights@, candidates@, i as int),
        decreases weights.len() - i,
    {
        if !names_candidate_exec(candidates.as_slice(), &weights[i].name) {
            return Err(
                CartoBoostError::InvalidInput(
                    join3("blend weight references unknown candidate '", weights[i].name.as_str(), "'"),
                ),
            );
        }
        i = i + 1;
    }
    proof {
        assert(weighs(weights@, weights@[0].name@));
        assert(names_candidate(candidates@, weights@[0].name@));
    }
    let rows = match prediction_map(candidates[0].predictions.as_slice()) {
        Ok(rows) => rows,
        Err(e) => {
            return Err(e);
        },
    };
    let mut columns: Vec<Vec<usize>> = Vec::new();
    let mut c: usize = 0;
    while c < candidates.len()
        invariant
            c <= candidates@.len(),
            candidates@.len() > 0,
            sorted_positions(candidates@[0].predictions@, rows@),
            forall|d: int| 0 < d < candidates@.len() ==> same_rows(#[trigger] candidates@[d].predictions@, candidates@[0].predictions@),
            columns@.len() == c,
            forall|d: int|
                0 <= d < c ==> (#[trigger] columns@[d])@.len() == rows@.len() && forall|k: int|
                    0 <= k < rows@.len() ==> #[trigger] columns@[d]@[k] < candidates@[d].predictions@.len()
                        && same_row(
                        candidates@[d].predictions@[columns@[d]@[k] as int],
                        candidates@[0].predictions@[rows@[k] as int],
                    ),
        decreases candidates.len() - c,
    {
        proof {
            if c > 0 {
                assert(same_rows(candidates@[c as int].predictions@, candidates@[0].predictions@));
            } else {
                assert forall|j: int| 0 <= j < candidates@[0].predictions@.len() implies has_row(
                    candidates@[0].predictions@,
                    #[trigger] candidates@[0].predictions@[j],
                ) by {
                    assert(same_row(candidates@[0].predictions@[j], candidates@[0].predictions@[j]));
                }
            }
        }
        let column = align_column(&candidates[c].predictions, &candidates[0].predictions, &rows);
        columns.push(column);
        c = c + 1;
    }
    Ok((rows, columns))
}

/// The first candidate from position `c` on whose table is invalid or does not
/// hold exactly the validation rows.
pub open spec fn validation_candidates_issue(candidates: Seq<CandidateFacts>, actuals: Seq<PredictionFacts>, c: int) -> Option<
    Seq<char>,
>
    decreases candidates.len() - c,
{
    if c >= candidates.len() || c < 0 {
        None
    } else if predictions_outcome(candidates[c].predictions@) is Err {
        Some(predictions_outcome(candidates[c].predictions@)->Err_0)
    } else if !same_rows(candidates[c].predictions@, actuals) {
        Some("candidate '"@ + candidates[c].name@ + "' is not aligned to validation actual rows"@)
    } else {
        validation_candidates_issue(candidates, actuals, c + 1)
    }
}

/// Why candidates cannot be scored against validation actuals, if they cannot.
pub open spec fn validation_issue(candidates: Seq<CandidateFacts>, actuals: Seq<PredictionFacts>) -> Option<Seq<char>> {
    match predictions_outcome(actuals) {
        Err(message) => Some(message),
        Ok(_) => validation_candidates_issue(candidates, actuals, 0),
    }
}

/// Lines candidates up with validation actuals before they are scored: the
/// actuals' table must be valid, and each candidate's table valid and holding
/// exactly the actuals' rows. On success it gives the actuals in increasing
/// order of ids and, for each candidate, the position of its prediction for
/// each of those rows.
pub fn validation_alignment(candidates: &Vec<CandidateFacts>, actuals: &Vec<PredictionFacts>) -> (r: Result<
    (Vec<usize>, Vec<Vec<usize>>),
>)
    ensures
        match r {
            Ok((rows, columns)) => {
                &&& validation_issue(candidates@, actuals@) is None
                &&& sorted_positions(actuals@, rows@)
                &&& columns@.len() == candidates@.len()
                &&& forall|c: int|
                    0 <= c < candidates@.len() ==> (#[trigger] columns@[c])@.len() == rows@.len() && forall|k: int|
                        0 <= k < rows@.len() ==> #[trigger] columns@[c]@[k] < candidates@[c].predictions@.len()
                            && same_row(candidates@[c].predictions@[columns@[c]@[k] as int], actuals@[rows@[k] as int])
            },
            Err(e) => validation_issue(candidates@, actuals@) == Some(e.text()),
        },
{
    let rows = match prediction_map(actuals.as_slice()) {
        Ok(rows) => rows,
        Err(e) => {
            return Err(e);
        },
    };
    let mut columns: Vec<Vec<usize>> = Vec::new();
    let mut c: usize = 0;
    while c < candidates.len()
        invariant
            c <= candidates@.len(),
            predictions_outcome(actuals@) is Ok,
            sorted_positions(actuals@, rows@),
            validation_issue(candidates@, actuals@) == validation_candidates_issue(candidates@, actuals@, c as int),
            columns@.len() == c,
            forall|d: int|
                0 <= d < c ==> (#[trigger] columns@[d])@.len() == rows@.len() && forall|k: int|
                    0 <= k < rows@.len() ==> #[trigger] columns@[d]@[k] < candidates@[d].predictions@.len()
                        && same_row(candidates@[d].predictions@[columns@[d]@[k] as int], actuals@[rows@[k] as int]),
        decreases candidates.len() - c,
    {
        let candidate = &candidates[c];
        match prediction_map(candidate.predictions.as_slice()) {
            Ok(_) => {},
            Err(e) => {
                return Err(e);
            },
        }
        if !same_row_tables(&candidate.predictions, actuals) {
            return Err(
                CartoBoostError::InvalidInput(
                    join3("candidate '", candidate.name.as_str(), "' is not aligned to validation actual rows"),
                ),
            );
        }
        let column = align_column(&candidate.predictions, actuals, &rows);
        columns.push(column);
        c = c + 1;
    }
    Ok((rows, columns))
}

} // verus!
