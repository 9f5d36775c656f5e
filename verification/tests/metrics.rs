use cartoboost_core::metrics::{match_forecast_actuals, ActualFacts, ForecastKey, MetricsIssue};

fn key(series_id: &str, timestamp: i128, horizon: usize) -> ForecastKey {
    ForecastKey { series_id: series_id.to_string(), timestamp, horizon }
}

fn actual(series_id: &str, timestamp: i128, horizon: usize) -> ActualFacts {
    ActualFacts { key: key(series_id, timestamp, horizon), finite: true }
}

#[test]
fn actuals_are_matched_to_their_forecasts() {
    let predictions = vec![key("a", 1, 1), key("a", 2, 2), key("b", 1, 1)];
    let actuals = vec![actual("b", 1, 1), actual("a", 1, 1), actual("a", 2, 2)];
    assert_eq!(match_forecast_actuals(&predictions, &actuals).unwrap(), vec![2, 0, 1]);
}

#[test]
fn alignment_reports_problems_in_order() {
    let predictions = vec![key("a", 1, 1), key("a", 2, 2)];
    assert_eq!(match_forecast_actuals(&predictions, &[]), Err(MetricsIssue::NoActuals));
    let repeated = vec![key("a", 1, 1), key("a", 1, 1)];
    assert_eq!(
        match_forecast_actuals(&repeated, &[actual("a", 1, 1)]),
        Err(MetricsIssue::DuplicateForecast { prediction: 1 })
    );
    let mut bad = actual("a", 1, 1);
    bad.finite = false;
    assert_eq!(match_forecast_actuals(&predictions, &[bad]), Err(MetricsIssue::NonFiniteActual));
    assert_eq!(
        match_forecast_actuals(&predictions, &[actual("a", 1, 1), actual("a", 1, 1)]),
        Err(MetricsIssue::DuplicateActual { actual: 1 })
    );
    assert_eq!(
        match_forecast_actuals(&predictions, &[actual("a", 1, 1), actual("a", 3, 1)]),
        Err(MetricsIssue::MissingForecast { actual: 1 })
    );
    assert_eq!(
        match_forecast_actuals(&predictions, &[actual("a", 1, 1)]),
        Err(MetricsIssue::UnmatchedForecast { prediction: 1 })
    );
}
