//! The checks a forecast result makes on its predictions, and the order in which
//! it keeps them.
use vstd::prelude::*;
use crate::error::{Result, invalid_input};
use crate::lex::{lex_lt, str_lt, lemma_lex_irreflexive, lemma_lex_transitive, lemma_lex_total};
use crate::stable::{StableSortKey, stably_sorted, stable_sort_positions};

verus! {

/// What a forecast result reads of one prediction: the fields it is ordered by,
/// and whether its mean is finite.
#[derive(Debug, Clone, PartialEq, Eq)]
pub struct PredictionKey {
    pub series_id: String,
    /// The prediction's timestamp as a count of nanoseconds.
    pub timestamp: i128,
    pub horizon: usize,
    pub model: String,
    pub mean_finite: bool,
}

impl StableSortKey for PredictionKey {
    /// By series id, then timestamp, then horizon, then model name.
    open spec fn before(self, other: Self) -> bool {
        ||| lex_lt(self.series_id@, other.series_id@)
        ||| (self.series_id@ == other.series_id@ && self.timestamp < other.timestamp)
        ||| (self.series_id@ == other.series_id@ && self.timestamp == other.timestamp && self.horizon
            < other.horizon)
        ||| (self.series_id@ == other.series_id@ && self.timestamp == other.timestamp && self.horizon
            == other.horizon && lex_lt(self.model@, other.model@))
    }

    proof fn lemma_irreflexive(a: Self) {
        lemma_lex_irreflexive(a.series_id@);
        lemma_lex_irreflexive(a.model@);
    }

    proof fn lemma_transitive(a: Self, b: Self, c: Self) {
        if lex_lt(a.series_id@, b.series_id@) && lex_lt(b.series_id@, c.series_id@) {
            lemma_lex_transitive(a.series_id@, b.series_id@, c.series_id@);
        }
        if lex_lt(a.model@, b.model@) && lex_lt(b.model@, c.model@) {
            lemma_lex_transitive(a.model@, b.model@, c.model@);
        }
    }

    proof fn lemma_split(a: Self, b: Self, c: Self) {
        lemma_lex_total(a.series_id@, c.series_id@);
        lemma_lex_total(a.model@, c.model@);
        if lex_lt(c.series_id@, a.series_id@) && lex_lt(a.series_id@, b.series_id@) {
            lemma_lex_transitive(c.series_id@, a.series_id@, b.series_id@);
        }
        if lex_lt(c.model@, a.model@) && lex_lt(a.model@, b.model@) {
            lemma_lex_transitive(c.model@, a.model@, b.model@);
        }
    }

    fn precedes(&self, other: &Self) -> (before: bool) {
        if str_lt(self.series_id.as_str(), other.series_id.as_str()) {
            return true;
        }
        if self.series_id != other.series_id {
            return false;
        }
        if self.timestamp != other.timestamp {
            return self.timestamp < other.timestamp;
        }
        if self.horizon != other.horizon {
            return self.horizon < other.horizon;
        }
        str_lt(self.model.as_str(), other.model.as_str())
    }
}

/// What is wrong with prediction `i`, if anything.
pub open spec fn prediction_key_issue(predictions: Seq<PredictionKey>, i: int) -> Option<Seq<char>> {
    if predictions[i].horizon == 0 {
        Some("forecast horizon values must be positive"@)
    } else if !predictions[i].mean_finite {
        Some("forecast means must be finite"@)
    } else {
        None
    }
}

/// The first issue among predictions from position `i` on.
pub open spec fn prediction_keys_issue(predictions: Seq<PredictionKey>, i: int) -> Option<Seq<char>>
    decreases predictions.len() - i,
{
    if i >= predictions.len() {
        None
    } else if prediction_key_issue(predictions, i) is Some {
        prediction_key_issue(predictions, i)
    } else {
        prediction_keys_issue(predictions, i + 1)
    }
}

/// Why a set of predictions cannot form a forecast result, if it cannot.
pub open spec fn forecast_result_issue(predictions: Seq<PredictionKey>) -> Option<Seq<char>> {
    if predictions.len() == 0 {
        Some("forecast result must contain at least one prediction"@)
    } else {
        prediction_keys_issue(predictions, 0)
    }
}

/// Checks the predictions of a forecast result (at least one, positive horizons,
/// finite means) and gives the order in which the result keeps them: by series
/// id, timestamp, horizon and model, ties in their given order.
pub fn forecast_result_order(predictions: &[PredictionKey]) -> (r: Result<Vec<usize>>)
    ensures
        match r {
            Ok(order) => forecast_result_issue(predictions@) is None && stably_sorted(predictions@, order@),
            Err(e) => forecast_result_issue(predictions@) == Some(e.text()),
        },
{
    let n = predictions.len();
    if n == 0 {
        return Err(invalid_input("forecast result must contain at least one prediction"));
    }
    let mut i: usize = 0;
    while i < n
        invariant
            n == predictions@.len(),
            n > 0,
            i <= n,
            forecast_result_issue(predictions@) == prediction_keys_issue(predictions@, i as int),
        decreases n - i,
    {
        if predictions[i].horizon == 0 {
            return Err(invalid_input("forecast horizon values must be positive"));
        }
        if !predictions[i].mean_finite {
            return Err(invalid_input("forecast means must be finite"));
        }
        i = i + 1;
    }
    Ok(stable_sort_positions(predictions))
}

} // verus!
