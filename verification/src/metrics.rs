//! Alignment of forecasts with actual values before accuracy metrics are computed.
use vstd::prelude::*;

verus! {

/// What identifies a point forecast or an actual value: series, timestamp (as a
/// count of nanoseconds) and horizon.
#[derive(Debug, Clone, PartialEq, Eq)]
pub struct ForecastKey {
    pub series_id: String,
    pub timestamp: i128,
    pub horizon: usize,
}

/// What the alignment reads of an actual value: its key and whether it is finite.
#[derive(Debug, Clone, PartialEq, Eq)]
pub struct ActualFacts {
    pub key: ForecastKey,
    pub finite: bool,
}

/// Why forecasts and actuals cannot be scored against each other; positions
/// refer to the forecasts or actuals handed over.
#[derive(Debug, Clone, Copy, PartialEq, Eq, Structural)]
pub enum MetricsIssue {
    /// There is no actual value.
    NoActuals,
    /// This forecast repeats the key of an earlier one.
    DuplicateForecast { prediction: usize },
    /// An actual value is not finite.
    NonFiniteActual,
    /// This actual repeats the key of an earlier one.
    DuplicateActual { actual: usize },
    /// No forecast has the key of this actual.
    MissingForecast { actual: usize },
    /// No actual has the key of this forecast.
    UnmatchedForecast { prediction: usize },
}

/// Two keys name the same series, timestamp and horizon.
pub open spec fn same_forecast_key(a: ForecastKey, b: ForecastKey) -> bool {
    a.series_id@ == b.series_id@ && a.timestamp == b.timestamp && a.horizon == b.horizon
}

/// Some key of `keys` equals `key`.
pub open spec fn has_key(keys: Seq<ForecastKey>, key: ForecastKey) -> bool {
    exists|j: int| 0 <= j < keys.len() && same_forecast_key(#[trigger] keys[j], key)
}

/// The keys of the actuals.
pub open spec fn actual_keys(actuals: Seq<ActualFacts>) -> Seq<ForecastKey> {
    actuals.map_values(|a: ActualFacts| a.key)
}

/// The first forecast from position `i` on that repeats an earlier key.
pub open spec fn forecasts_issue(predictions: Seq<ForecastKey>, i: int) -> Option<MetricsIssue>
    decreases predictions.len() - i,
{
    if i >= predictions.len() || i < 0 {
        None
    } else if has_key(predictions.take(i), predictions[i]) {
        Some(MetricsIssue::DuplicateForecast { prediction: i as usize })
    } else {
        forecasts_issue(predictions, i + 1)
    }
}

/// The first problem among the actuals from position `a` on.
pub open spec fn actuals_issue(predictions: Seq<ForecastKey>, actuals: Seq<ActualFacts>, a: int) -> Option<
    MetricsIssue,
>
    decreases actuals.len() - a,
{
    if a >= actuals.len() || a < 0 {
        None
    } else if !actuals[a].finite {
        Some(MetricsIssue::NonFiniteActual)
    } else if has_key(actual_keys(actuals).take(a), actuals[a].key) {
        Some(MetricsIssue::DuplicateActual { actual: a as usize })
    } else if !has_key(predictions, actuals[a].key) {
        Some(MetricsIssue::MissingForecast { actual: a as usize })
    } else {
        actuals_issue(predictions, actuals, a + 1)
    }
}

/// The first forecast from position `i` on that no actual matches.
pub open spec fn unmatched_issue(predictions: Seq<ForecastKey>, actuals: Seq<ActualFacts>, i: int) -> Option<
    MetricsIssue,
>
    decreases predictions.len() - i,
{
    if i >= predictions.len() || i < 0 {
        None
    } else if !has_key(actual_keys(actuals), predictions[i]) {
        Some(MetricsIssue::UnmatchedForecast { prediction: i as usize })
    } else {
        unmatched_issue(predictions, actuals, i + 1)
    }
}

/// Why forecasts and actuals cannot be scored, if they cannot: no actuals,
/// repeated forecasts, then the actuals in order, then forecasts no actual matches.
pub open spec fn alignment_issue(predictions: Seq<ForecastKey>, actuals: Seq<ActualFacts>) -> Option<
    MetricsIssue,
> {
    if actuals.len() == 0 {
        Some(MetricsIssue::NoActuals)
    } else if forecasts_issue(predictions, 0) is Some {
        forecasts_issue(predictions, 0)
    } else if actuals_issue(predictions, actuals, 0) is Some {
        actuals_issue(predictions, actuals, 0)
    } else {
        unmatched_issue(predictions, actuals, 0)
    }
}

fn same_key_exec(a: &ForecastKey, b: &ForecastKey) -> (same: bool)
    ensures
        same == same_forecast_key(*a, *b),
{
    a.timestamp == b.timestamp && a.horizon == b.horizon && a.series_id == b.series_id
}

/// Position among the first `upto` forecasts of one with the key `key`.
fn find_forecast(predictions: &[ForecastKey], upto: usize, key: &ForecastKey) -> (found: Option<usize>)
    requires
        upto <= predictions@.len(),
    ensures
        match found {
            Some(j) => j < upto && same_forecast_key(predictions@[j as int], *key),
            None => !has_key(predictions@.take(upto as int), *key),
        },
{
    let mut j: usize = 0;
    while j < upto
        invariant
            j <= upto <= predictions@.len(),
            forall|t: int| 0 <= t < j ==> !same_forecast_key(#[trigger] predictions@[t], *key),
        decreases upto - j,
    {
        if same_key_exec(&predictions[j], key) {
            return Some(j);
        }
        j = j + 1;
    }
    proof {
        assert forall|t: int| 0 <= t < upto implies !same_forecast_key(
            #[trigger] predictions@.take(upto as int)[t],
            *key,
        ) by {
            assert(predictions@.take(upto as int)[t] == predictions@[t]);
        }
    }
    None
}

/// Whether one of the first `upto` actuals has the key `key`.
fn actual_seen(actuals: &[ActualFacts], upto: usize, key: &ForecastKey) -> (seen: bool)
    requires
        upto <= actuals@.len(),
    ensures
        seen == has_key(actual_keys(actuals@).take(upto as int), *key),
{
    let mut j: usize = 0;
    while j < upto
        invariant
            j <= upto <= actuals@.len(),
            forall|t: int| 0 <= t < j ==> !same_forecast_key(#[trigger] actuals@[t].key, *key),
        decreases upto - j,
    {
        if same_key_exec(&actuals[j].key, key) {
            proof {
                assert(actual_keys(actuals@).take(upto as int)[j as int] == actuals@[j as int].key);
            }
            return true;
        }
        j = j + 1;
    }
    proof {
        assert forall|t: int| 0 <= t < upto implies !same_forecast_key(
            #[trigger] actual_keys(actuals@).take(upto as int)[t],
            *key,
        ) by {
            assert(actual_keys(actuals@).take(upto as int)[t] == actuals@[t].key);
        }
    }
    false
}

/// Pairs each actual value with the forecast of the same series, timestamp and
/// horizon: the result gives, for each actual, the position of its forecast.
/// Forecasts and actuals must match one to one, with no key repeated.
pub fn match_forecast_actuals(predictions: &[ForecastKey], actuals: &[ActualFacts]) -> (r: core::result::Result<
    Vec<usize>,
    MetricsIssue,
>)
    ensures
        match r {
            Ok(matches) => {
                &&& alignment_issue(predictions@, actuals@) is None
                &&& matches@.len() == actuals@.len()
                &&& forall|a: int|
                    0 <= a < actuals@.len() ==> #[trigger] matches@[a] < predictions@.len() && same_forecast_key(
                        predictions@[matches@[a] as int],
                        actuals@[a].key,
                    )
            },
            Err(issue) => alignment_issue(predictions@, actuals@) == Some(issue),
        },
{
    if actuals.len() == 0 {
        return Err(MetricsIssue::NoActuals);
    }
    let mut i: usize = 0;
    while i < predictions.len()
        invariant
            i <= predictions@.len(),
            actuals@.len() > 0,
            forecasts_issue(predictions@, 0) == forecasts_issue(predictions@, i as int),
        decreases predictions.len() - i,
    {
        match find_forecast(predictions, i, &predictions[i]) {
            Some(j) => {
                proof {
                    assert(predictions@.take(i as int)[j as int] == predictions@[j as int]);
                }
                return Err(MetricsIssue::DuplicateForecast { prediction: i });
            },
            None => {},
        }
        i = i + 1;
    }
    let mut matches: Vec<usize> = Vec::new();
    let mut a: usize = 0;
    while a < actuals.len()
        invariant
            a <= actuals@.len(),
            actuals@.len() > 0,
            forecasts_issue(predictions@, 0) is None,
            actuals_issue(predictions@, actuals@, 0) == actuals_issue(predictions@, actuals@, a as int),
            matches@.len() == a,
            forall|t: int|
                0 <= t < a ==> #[trigger] matches@[t] < predictions@.len() && same_forecast_key(
                    predictions@[matches@[t] as int],
                    actuals@[t].key,
                ),
        decreases actuals.len() - a,
    {
        if !actuals[a].finite {
            return Err(MetricsIssue::NonFiniteActual);
        }
        if actual_seen(actuals, a, &actuals[a].key) {
            return Err(MetricsIssue::DuplicateActual { actual: a });
        }
        match find_forecast(predictions, predictions.len(), &actuals[a].key) {
            Some(p) => {
                matches.push(p);
            },
            None => {
                proof {
                    assert(predictions@.take(predictions@.len() as int) =~= predictions@);
                }
                return Err(MetricsIssue::MissingForecast { actual: a });
            },
        }
        a = a + 1;
    }
    let mut i: usize = 0;
    while i < predictions.len()
        invariant
            i <= predictions@.len(),
            actuals@.len() > 0,
            forecasts_issue(predictions@, 0) is None,
            actuals_issue(predictions@, actuals@, 0) is None,
            unmatched_issue(predictions@, actuals@, 0) == unmatched_issue(predictions@, actuals@, i as int),
        decreases predictions.len() - i,
    {
        let seen = actual_seen(actuals, actuals.len(), &predictions[i]);
        proof {
            assert(actual_keys(actuals@).take(actuals@.len() as int) =~= actual_keys(actuals@));
        }
        if !seen {
            return Err(MetricsIssue::UnmatchedForecast { prediction: i });
        }
        i = i + 1;
    }
    Ok(matches)
}

proof fn lemma_forecasts_distinct(predictions: Seq<ForecastKey>, i: int)
    requires
        0 <= i <= predictions.len(),
        forecasts_issue(predictions, i) is None,
    ensures
        forall|j: int, k: int|
            0 <= j < k < predictions.len() && i <= k ==> !same_forecast_key(#[trigger] predictions[j], #[trigger] predictions[k]),
    decreases predictions.len() - i,
{
    if i < predictions.len() {
        lemma_forecasts_distinct(predictions, i + 1);
        assert forall|j: int, k: int|
            0 <= j < k < predictions.len() && i <= k implies !same_forecast_key(
            #[trigger] predictions[j],
            #[trigger] predictions[k],
        ) by {
            if k == i && same_forecast_key(predictions[j], predictions[k]) {
                assert(predictions.take(i)[j] == predictions[j]);
                assert(has_key(predictions.take(i), predictions[i]));
            }
        }
    }
}

proof fn lemma_actuals_distinct(predictions: Seq<ForecastKey>, actuals: Seq<ActualFacts>, a: int)
    requires
        0 <= a <= actuals.len(),
        actuals_issue(predictions, actuals, a) is None,
    ensures
        forall|j: int, k: int|
            0 <= j < k < actuals.len() && a <= k ==> !same_forecast_key(#[trigger] actuals[j].key, #[trigger] actuals[k].key),
    decreases actuals.len() - a,
{
    if a < actuals.len() {
        lemma_actuals_distinct(predictions, actuals, a + 1);
        assert forall|j: int, k: int|
            0 <= j < k < actuals.len() && a <= k implies !same_forecast_key(
            #[trigger] actuals[j].key,
            #[trigger] actuals[k].key,
        ) by {
            if k == a && same_forecast_key(actuals[j].key, actuals[k].key) {
                assert(actual_keys(actuals).take(a)[j] == actuals[j].key);
                assert(has_key(actual_keys(actuals).take(a), actuals[a].key));
            }
        }
    }
}

proof fn lemma_every_forecast_has_an_actual(predictions: Seq<ForecastKey>, actuals: Seq<ActualFacts>, i: int)
    requires
        0 <= i <= predictions.len(),
        unmatched_issue(predictions, actuals, i) is None,
    ensures
        forall|p: int| i <= p < predictions.len() ==> has_key(actual_keys(actuals), #[trigger] predictions[p]),
    decreases predictions.len() - i,
{
    if i < predictions.len() {
        lemma_every_forecast_has_an_actual(predictions, actuals, i + 1);
    }
}

/// Some actual is matched to forecast `p`.
pub open spec fn is_matched(matches: Seq<usize>, p: int) -> bool {
    exists|a: int| 0 <= a < matches.len() && #[trigger] matches[a] == p
}

/// When forecasts and actuals align, every forecast is matched by exactly one
/// actual and no two actuals share a forecast.
pub proof fn lemma_matches_are_one_to_one(predictions: Seq<ForecastKey>, actuals: Seq<ActualFacts>, matches: Seq<usize>)
    requires
        alignment_issue(predictions, actuals) is None,
        matches.len() == actuals.len(),
        forall|a: int|
            0 <= a < actuals.len() ==> #[trigger] matches[a] < predictions.len() && same_forecast_key(
                predictions[matches[a] as int],
                actuals[a].key,
            ),
    ensures
        forall|a1: int, a2: int| 0 <= a1 < a2 < actuals.len() ==> #[trigger] matches[a1] != #[trigger] matches[a2],
        forall|p: int| 0 <= p < predictions.len() ==> #[trigger] is_matched(matches, p),
{
    lemma_forecasts_distinct(predictions, 0);
    lemma_actuals_distinct(predictions, actuals, 0);
    lemma_every_forecast_has_an_actual(predictions, actuals, 0);
    assert forall|a1: int, a2: int| 0 <= a1 < a2 < actuals.len() implies #[trigger] matches[a1] != #[trigger] matches[a2] by {
        if matches[a1] == matches[a2] {
            assert(same_forecast_key(actuals[a1].key, actuals[a2].key));
        }
    }
    assert forall|p: int| 0 <= p < predictions.len() implies #[trigger] is_matched(matches, p) by {
        assert(has_key(actual_keys(actuals), predictions[p]));
        let a = choose|a: int| 0 <= a < actual_keys(actuals).len() && same_forecast_key(#[trigger] actual_keys(actuals)[a], predictions[p]);
        assert(actual_keys(actuals)[a] == actuals[a].key);
        let m = matches[a] as int;
        assert(0 <= a < matches.len());
        if m != p {
            assert(same_forecast_key(predictions[m], predictions[p]));
            if m < p {
                assert(!same_forecast_key(predictions[m], predictions[p]));
            } else {
                assert(!same_forecast_key(predictions[p], predictions[m]));
            }
        }
    }
}

} // verus!
