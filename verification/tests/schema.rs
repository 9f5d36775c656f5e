use cartoboost_core::schema::{
    is_panel, rows_for_series, series_ids, validate_frame_rows, CovariateCheck, FrameRowFacts,
    order_frame_rows, series_id_or_single, validate_metadata, ForecastFrameMetadata,
    FrameRowIssue, SINGLE_SERIES_ID,
};
use cartoboost_core::splitters::RowStamp;

fn metadata(
    static_covariates: &[&str],
    known_future_covariates: &[&str],
    historical_covariates: &[&str],
) -> ForecastFrameMetadata {
    let names = |list: &[&str]| list.iter().map(|name| name.to_string()).collect::<Vec<_>>();
    ForecastFrameMetadata {
        static_covariates: names(static_covariates),
        known_future_covariates: names(known_future_covariates),
        historical_covariates: names(historical_covariates),
        ..ForecastFrameMetadata::default()
    }
}

#[test]
fn metadata_roles_must_be_disjoint_unique_and_named() {
    assert!(validate_metadata(&ForecastFrameMetadata::default()).is_ok());
    assert!(validate_metadata(&metadata(&["zone"], &["holiday"], &["lag_1"])).is_ok());
    assert_eq!(
        validate_metadata(&metadata(&["zone", ""], &[], &[])).unwrap_err().message(),
        "invalid input: static_covariates must not contain empty column names"
    );
    assert_eq!(
        validate_metadata(&metadata(&[], &["holiday", "holiday"], &[])).unwrap_err().message(),
        "invalid input: known_future_covariates must not contain duplicate column names"
    );
    assert_eq!(
        validate_metadata(&metadata(&["zone"], &[], &["zone"])).unwrap_err().message(),
        "invalid input: forecast covariate columns must belong to only one role"
    );
}

#[test]
fn empty_series_ids_become_the_single_series_id() {
    assert_eq!(series_id_or_single(String::new()), SINGLE_SERIES_ID);
    assert_eq!(SINGLE_SERIES_ID, "__single__");
    assert_eq!(series_id_or_single("zone_1".to_string()), "zone_1");
}

fn stamp(series_id: &str, timestamp: i128) -> RowStamp {
    RowStamp { series_id: series_id.to_string(), timestamp }
}

#[test]
fn frame_rows_are_ordered_by_series_then_time() {
    let rows = vec![stamp("b", 20), stamp("a", 10), stamp("b", 10), stamp("a", 20)];
    assert_eq!(order_frame_rows(&rows, 10).unwrap(), vec![1, 3, 2, 0]);
}

#[test]
fn frame_rows_reject_duplicates_and_irregular_steps() {
    let duplicate = vec![stamp("a", 10), stamp("a", 20), stamp("a", 10)];
    assert_eq!(
        order_frame_rows(&duplicate, 10),
        Err(FrameRowIssue::DuplicateTimestamp { row: 2 })
    );
    let two_repeats = vec![stamp("b", 5), stamp("a", 7), stamp("b", 5), stamp("a", 7)];
    assert_eq!(
        order_frame_rows(&two_repeats, 10),
        Err(FrameRowIssue::DuplicateTimestamp { row: 3 })
    );
    let irregular = vec![stamp("a", 10), stamp("a", 30), stamp("b", 0)];
    assert_eq!(
        order_frame_rows(&irregular, 10),
        Err(FrameRowIssue::IrregularStep { previous: 0, current: 1 })
    );
    let panel = vec![stamp("a", 10), stamp("b", 35), stamp("a", 20), stamp("b", 45)];
    assert_eq!(order_frame_rows(&panel, 10).unwrap(), vec![0, 2, 1, 3]);
}

fn frame_row(series_id: &str, covariates: Vec<CovariateCheck>) -> FrameRowFacts {
    FrameRowFacts {
        series_id: series_id.to_string(),
        timestamp_text: "2026-01-15 00:00:00".to_string(),
        target_finite: true,
        covariates,
    }
}

#[test]
fn frame_rows_need_finite_targets_and_named_finite_covariates() {
    let metadata = ForecastFrameMetadata::default();
    let ok = vec![frame_row("a", vec![CovariateCheck { name: "temp".to_string(), finite: true }])];
    assert!(validate_frame_rows(&ok, &metadata).is_ok());
    assert_eq!(
        validate_frame_rows(&[], &metadata).unwrap_err().message(),
        "invalid input: forecast frame must contain at least one row"
    );
    let mut bad_target = ok.clone();
    bad_target[0].target_finite = false;
    assert_eq!(
        validate_frame_rows(&bad_target, &metadata).unwrap_err().message(),
        "invalid input: forecast targets must be finite"
    );
    let unnamed = vec![frame_row("a", vec![CovariateCheck { name: String::new(), finite: true }])];
    assert_eq!(
        validate_frame_rows(&unnamed, &metadata).unwrap_err().message(),
        "invalid input: forecast covariate names must not be empty"
    );
    let non_finite = vec![frame_row("", vec![CovariateCheck { name: "temp".to_string(), finite: false }])];
    assert_eq!(
        validate_frame_rows(&non_finite, &metadata).unwrap_err().message(),
        "invalid input: forecast covariate \"temp\" for series __single__ at 2026-01-15 00:00:00 must be finite"
    );
    let clashing = metadata_with_clash();
    assert_eq!(
        validate_frame_rows(&ok, &clashing).unwrap_err().message(),
        "invalid input: forecast covariate columns must belong to only one role"
    );
}

fn metadata_with_clash() -> ForecastFrameMetadata {
    metadata(&["zone"], &["zone"], &[])
}

#[test]
fn series_ids_list_each_run_once() {
    let rows = vec![stamp("a", 1), stamp("a", 2), stamp("b", 1), stamp("c", 1), stamp("c", 2)];
    assert_eq!(series_ids(&rows), vec!["a", "b", "c"]);
    assert!(series_ids(&[]).is_empty());
}

#[test]
fn rows_for_series_and_panel_detection() {
    let rows = vec![stamp("a", 1), stamp("b", 1), stamp("a", 2)];
    assert_eq!(rows_for_series(&rows, "a"), vec![0, 2]);
    assert_eq!(rows_for_series(&rows, "b"), vec![1]);
    assert!(rows_for_series(&rows, "c").is_empty());
    assert!(is_panel(&rows));
    let single = vec![stamp(SINGLE_SERIES_ID, 1), stamp(SINGLE_SERIES_ID, 2)];
    assert!(!is_panel(&single));
    assert!(!is_panel(&[]));
}

