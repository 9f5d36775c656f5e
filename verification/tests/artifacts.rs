use cartoboost_core::result::{forecast_result_order, PredictionKey};
use cartoboost_core::serialize::{
    check_weights_header, weights_artifact, WeightsLayout, WEIGHTS_ARTIFACT_TYPE,
    WEIGHTS_ARTIFACT_VERSION,
};

#[test]
fn weights_envelope_records_type_versions_and_backend() {
    let artifact = weights_artifact("model", 3);
    assert_eq!(artifact.artifact_type, "cartoboost.weights");
    assert_eq!(artifact.weights_artifact_version, 1);
    assert_eq!(artifact.model_artifact_version, 3);
    assert_eq!(artifact.backend, "rust");
    assert_eq!(artifact.model, "model");
}

#[test]
fn weights_header_accepts_bare_models_and_current_envelopes() {
    assert_eq!(check_weights_header(true, true, None, None).unwrap(), WeightsLayout::BareModel);
    assert_eq!(
        check_weights_header(true, false, None, None).unwrap_err().message(),
        "invalid input: missing weights artifact type"
    );
    assert_eq!(
        check_weights_header(false, false, Some(WEIGHTS_ARTIFACT_TYPE), Some(WEIGHTS_ARTIFACT_VERSION as u64))
            .unwrap(),
        WeightsLayout::Envelope
    );
}

#[test]
fn weights_header_names_what_is_missing_or_unsupported() {
    let message = |r: cartoboost_core::error::Result<WeightsLayout>| r.unwrap_err().message();
    assert_eq!(
        message(check_weights_header(false, false, None, Some(1))),
        "invalid input: missing weights artifact type"
    );
    assert_eq!(
        message(check_weights_header(false, false, Some("other.kind"), Some(1))),
        "invalid input: unsupported weights artifact type other.kind"
    );
    assert_eq!(
        message(check_weights_header(false, false, Some("cartoboost.weights"), None)),
        "invalid input: missing weights artifact version"
    );
    assert_eq!(
        message(check_weights_header(false, false, Some("cartoboost.weights"), Some(12))),
        "invalid input: unsupported weights artifact version 12"
    );
}

fn key(series_id: &str, timestamp: i128, horizon: usize, model: &str) -> PredictionKey {
    PredictionKey {
        series_id: series_id.to_string(),
        timestamp,
        horizon,
        model: model.to_string(),
        mean_finite: true,
    }
}

#[test]
fn forecast_results_sort_by_series_time_horizon_and_model() {
    let predictions = vec![
        key("b", 0, 1, "naive"),
        key("a", 5, 2, "theta"),
        key("a", 5, 1, "theta"),
        key("a", 5, 1, "arima"),
        key("a", 0, 3, "naive"),
        key("a", 5, 1, "arima"),
    ];
    assert_eq!(forecast_result_order(&predictions).unwrap(), vec![4, 3, 5, 2, 1, 0]);
}

#[test]
fn forecast_results_reject_empty_zero_horizon_and_non_finite_means() {
    assert_eq!(
        forecast_result_order(&[]).unwrap_err().message(),
        "invalid input: forecast result must contain at least one prediction"
    );
    assert_eq!(
        forecast_result_order(&[key("a", 0, 0, "naive")]).unwrap_err().message(),
        "invalid input: forecast horizon values must be positive"
    );
    let mut bad = key("a", 0, 1, "naive");
    bad.mean_finite = false;
    assert_eq!(
        forecast_result_order(&[bad]).unwrap_err().message(),
        "invalid input: forecast means must be finite"
    );
}
