use cartoboost_core::local::{
    even_changepoints, seasonal_naive_sources, seasonal_window_sources, auto_arima_candidate_orders, validate_auto_arima_limits, ArimaOrder,
    arima_order_supported_by_history, draw_state, effective_full_cycle_season_length,
    splitmix64, stable_hash64, supports_full_season_cycles, validate_arima_order,
    validate_horizon, ThetaSeasonality, ThetaSeasonalityKind,
};
use cartoboost_core::mstl::MSTLDecomposition;
use cartoboost_core::objective::ForecastObjective;
use cartoboost_core::objectives::{
    group_ranges, BinaryLogLossObjective, HurdleObjective, L2Objective, LambdaRankObjective,
    MulticlassLogLossObjective, ObjectiveTask, PairwiseLogitObjective, PoissonObjective,
    PredictionTransformKind,
};
use cartoboost_core::splitters::{fold_id, ForecastWindow, RollingOriginSplitter, RowStamp};
use cartoboost_core::stl::{
    normalize_window, trend_window_bounds, validate_season_length, validate_trend_window,
    STLDecomposition,
};
use cartoboost_core::temporal_hierarchy::{
    non_overlapping_chunks, TemporalAggregation, TemporalHierarchy, TemporalLevelLayout, TemporalSeriesFacts,
};

fn stamp(series_id: &str, timestamp: i128) -> RowStamp {
    RowStamp { series_id: series_id.to_string(), timestamp }
}

#[test]
fn splitter_settings_are_validated_in_order() {
    let message = |r: cartoboost_core::error::Result<RollingOriginSplitter>| r.unwrap_err().message();
    assert_eq!(
        message(RollingOriginSplitter::expanding(0, 3)),
        "invalid input: forecast horizon must be positive"
    );
    assert_eq!(
        message(RollingOriginSplitter::new(1, 0, 3, None, None, ForecastWindow::Expanding)),
        "invalid input: rolling-origin step must be positive"
    );
    assert_eq!(
        message(RollingOriginSplitter::expanding(1, 0)),
        "invalid input: min_train_size must be positive"
    );
    assert_eq!(
        message(RollingOriginSplitter::sliding(1, 4, 3)),
        "invalid input: max_train_size must be greater than or equal to min_train_size"
    );
    assert_eq!(
        message(RollingOriginSplitter::new(1, 1, 3, None, None, ForecastWindow::Sliding)),
        "invalid input: sliding forecast windows require max_train_size"
    );
    assert_eq!(
        message(RollingOriginSplitter::new(1, 1, 3, None, Some(0), ForecastWindow::Expanding)),
        "invalid input: n_splits must be positive when provided"
    );
    let splitter = RollingOriginSplitter::sliding(2, 3, 4).unwrap();
    assert_eq!(splitter.max_train_size, Some(4));
    assert_eq!(splitter.step, 1);
    assert_eq!(splitter.window, ForecastWindow::Sliding);
}

#[test]
fn expanding_split_keeps_training_strictly_before_validation() {
    let rows: Vec<RowStamp> = (0..6).map(|t| stamp("a", t)).collect();
    let splitter = RollingOriginSplitter::expanding(2, 3).unwrap();
    let folds = splitter.split(&rows).unwrap();
    assert_eq!(folds.len(), 2);
    assert_eq!(folds[0].fold_id, "fold_0000");
    assert_eq!(folds[0].train_indices, vec![0, 1, 2]);
    assert_eq!(folds[0].validation_indices, vec![3, 4]);
    assert_eq!((folds[0].train_start, folds[0].train_end), (0, 2));
    assert_eq!((folds[0].validation_start, folds[0].validation_end), (3, 4));
    assert_eq!(folds[0].metadata.origin_timestamp, 2);
    assert_eq!(folds[1].fold_id, "fold_0001");
    assert_eq!(folds[1].train_indices, vec![0, 1, 2, 3]);
    assert_eq!(folds[1].validation_indices, vec![4, 5]);
    for fold in &folds {
        assert!(fold.train_end < fold.validation_start);
        assert_eq!(fold.metadata.train_size, fold.train_indices.len());
        assert_eq!(fold.metadata.validation_size, fold.validation_indices.len());
        assert_eq!(fold.metadata.series_count, 1);
    }
}

#[test]
fn sliding_split_on_a_panel_limits_training_and_keeps_last_splits() {
    let mut rows = Vec::new();
    for t in 0..6 {
        rows.push(stamp("a", t * 10));
        rows.push(stamp("b", t * 10));
    }
    let splitter =
        RollingOriginSplitter::new(1, 1, 2, Some(2), Some(2), ForecastWindow::Sliding).unwrap();
    let folds = splitter.split(&rows).unwrap();
    assert_eq!(folds.len(), 2);
    assert_eq!(folds[0].fold_id, "fold_0000");
    assert_eq!((folds[0].train_start, folds[0].train_end), (20, 30));
    assert_eq!(folds[0].validation_start, 40);
    assert_eq!((folds[1].train_start, folds[1].train_end), (30, 40));
    assert_eq!((folds[1].validation_start, folds[1].validation_end), (50, 50));
    assert_eq!(folds[0].metadata.series_count, 2);
    assert_eq!(folds[0].metadata.train_timestamp_count, 2);
    assert_eq!(folds[0].train_indices.len(), 4);
}

#[test]
fn split_of_a_short_history_is_empty() {
    let rows: Vec<RowStamp> = (0..2).map(|t| stamp("a", t)).collect();
    let splitter = RollingOriginSplitter::expanding(2, 1).unwrap();
    assert!(splitter.split(&rows).unwrap().is_empty());
}

#[test]
fn fold_ids_are_zero_padded_to_four_digits() {
    assert_eq!(fold_id(0), "fold_0000");
    assert_eq!(fold_id(42), "fold_0042");
    assert_eq!(fold_id(12345), "fold_12345");
}

#[test]
fn stl_settings_and_windows() {
    assert!(validate_season_length(1).is_err());
    assert!(validate_season_length(2).is_ok());
    assert_eq!(
        validate_trend_window(2).unwrap_err().message(),
        "invalid input: trend_window must be at least 3"
    );
    assert_eq!(normalize_window(10, 7), 7);
    assert_eq!(normalize_window(6, 20), 5);
    assert_eq!(normalize_window(1, 20), 3);
    assert_eq!(normalize_window(9, 2), 2);
    assert_eq!(normalize_window(9, 0), 1);
    assert_eq!(trend_window_bounds(0, 10, 5), (0, 3));
    assert_eq!(trend_window_bounds(5, 10, 5), (3, 8));
    assert_eq!(trend_window_bounds(9, 10, 5), (7, 10));
    let stl = STLDecomposition::new(4).unwrap();
    assert_eq!(stl.season_length(), 4);
    assert_eq!(stl.trend_window(), None);
    assert_eq!(stl.effective_trend_window(100), 9);
    assert_eq!(stl.effective_trend_window(6), 5);
    let windowed = STLDecomposition::with_trend_window(4, Some(7)).unwrap();
    assert_eq!(windowed.trend_window(), Some(7));
    assert!(STLDecomposition::with_trend_window(4, Some(2)).is_err());
    assert_eq!(
        STLDecomposition::new(1).unwrap_err().message(),
        "invalid input: season_length must be greater than 1"
    );
}

#[test]
fn mstl_sorts_and_deduplicates_season_lengths() {
    let mstl = MSTLDecomposition::new(vec![7, 24, 7, 12]).unwrap();
    assert_eq!(mstl.season_lengths(), &[7, 12, 24]);
    assert_eq!(mstl.trend_window(), None);
    assert_eq!(
        MSTLDecomposition::new(vec![]).unwrap_err().message(),
        "invalid input: mstl requires at least one season length"
    );
    assert!(MSTLDecomposition::new(vec![7, 1]).is_err());
    assert!(MSTLDecomposition::with_trend_window(vec![7], Some(1)).is_err());
    assert_eq!(
        MSTLDecomposition::with_trend_window(vec![7], Some(9)).unwrap().trend_window(),
        Some(9)
    );
}

#[test]
fn temporal_hierarchy_requires_nested_increasing_factors() {
    let weekly = TemporalAggregation::new("weekly".to_string(), 7).unwrap();
    let fortnightly = TemporalAggregation::new("fortnightly".to_string(), 14).unwrap();
    let hierarchy =
        TemporalHierarchy::new("daily".to_string(), vec![weekly.clone(), fortnightly.clone()])
            .unwrap();
    assert_eq!(hierarchy.base_name(), "daily");
    assert_eq!(hierarchy.level_names(), vec!["daily", "weekly", "fortnightly"]);
    assert_eq!(hierarchy.aggregations().len(), 2);
    assert_eq!(
        TemporalAggregation::new(" ".to_string(), 2).unwrap_err().message(),
        "invalid input: temporal aggregation name must be non-empty"
    );
    assert_eq!(
        TemporalAggregation::new("x".to_string(), 0).unwrap_err().message(),
        "invalid input: temporal aggregation factor must be positive"
    );
    assert_eq!(
        TemporalHierarchy::new("".to_string(), vec![]).unwrap_err().message(),
        "invalid input: temporal base name must be non-empty"
    );
    assert_eq!(
        TemporalHierarchy::new("daily".to_string(), vec![fortnightly.clone(), weekly.clone()])
            .unwrap_err()
            .message(),
        "invalid input: temporal aggregation factors must be strictly increasing"
    );
    let ten = TemporalAggregation::new("ten".to_string(), 10).unwrap();
    assert_eq!(
        TemporalHierarchy::new("daily".to_string(), vec![weekly, ten]).unwrap_err().message(),
        "invalid input: temporal aggregation factors must be nested multiples"
    );
}

#[test]
fn forecast_objective_names_round_trip() {
    for objective in [ForecastObjective::Rmse, ForecastObjective::Wape] {
        assert_eq!(ForecastObjective::parse(objective.as_str()).unwrap(), objective);
    }
    assert_eq!(
        ForecastObjective::parse("mae").unwrap_err().message(),
        "invalid input: unknown forecast objective \"mae\"; expected 'rmse' or 'wape'"
    );
}

#[test]
fn objectives_describe_their_tasks() {
    assert_eq!(L2Objective.name(), "l2");
    assert_eq!(L2Objective.task(), ObjectiveTask::Regression);
    assert_eq!(L2Objective.output_dimension(), 1);
    assert_eq!(L2Objective.prediction_transform(), PredictionTransformKind::Identity);
    assert_eq!(BinaryLogLossObjective.prediction_transform(), PredictionTransformKind::Sigmoid);
    let multiclass = MulticlassLogLossObjective::new(3).unwrap();
    assert_eq!(multiclass.output_dimension(), 3);
    assert_eq!(multiclass.prediction_transform(), PredictionTransformKind::Softmax);
    assert_eq!(
        MulticlassLogLossObjective::new(1).unwrap_err().message(),
        "invalid input: multiclass_logloss requires at least two classes"
    );
    assert_eq!(PairwiseLogitObjective.task(), ObjectiveTask::Ranking);
    assert_eq!(LambdaRankObjective.task(), ObjectiveTask::Ranking);
    let hurdle = HurdleObjective::new(PoissonObjective);
    assert_eq!(hurdle.positive_objective, PoissonObjective);
}

#[test]
fn group_ranges_split_rows_into_consecutive_groups() {
    assert_eq!(group_ranges(None, 4).unwrap(), vec![0..4]);
    assert_eq!(group_ranges(Some(&[2, 3]), 5).unwrap(), vec![0..2, 2..5]);
    assert_eq!(
        group_ranges(Some(&[2, 0]), 5).unwrap_err().message(),
        "invalid input: ranking groups must be positive sizes"
    );
    assert_eq!(
        group_ranges(Some(&[4, 3]), 5).unwrap_err().message(),
        "invalid input: ranking group sizes exceed target length"
    );
    assert_eq!(
        group_ranges(Some(&[2, 2]), 5).unwrap_err().message(),
        "invalid input: ranking group sizes must sum to target length"
    );
}

#[test]
fn arima_orders_are_validated_and_pruned_to_history() {
    assert!(validate_arima_order(8, 2, 8).is_ok());
    assert_eq!(validate_arima_order(9, 0, 0).unwrap_err().message(), "invalid input: ARIMA p must be <= 8");
    assert_eq!(validate_arima_order(0, 3, 0).unwrap_err().message(), "invalid input: ARIMA d must be <= 2");
    assert_eq!(validate_arima_order(0, 0, 9).unwrap_err().message(), "invalid input: ARIMA q must be <= 8");
    assert_eq!(arima_order_supported_by_history(100, 3, 1, 2), (3, 1, 2));
    assert_eq!(arima_order_supported_by_history(4, 3, 1, 2), (2, 1, 2));
    assert_eq!(arima_order_supported_by_history(1, 3, 2, 2), (0, 0, 0));
    assert_eq!(arima_order_supported_by_history(0, 1, 1, 1), (0, 0, 0));
}

#[test]
fn season_lengths_need_two_full_cycles_in_every_series() {
    assert!(supports_full_season_cycles(14, 7));
    assert!(!supports_full_season_cycles(13, 7));
    assert!(!supports_full_season_cycles(100, 1));
    assert!(!supports_full_season_cycles(usize::MAX - 1, usize::MAX));
    assert_eq!(effective_full_cycle_season_length(&[14, 20], Some(7)), Some(7));
    assert_eq!(effective_full_cycle_season_length(&[14, 10], Some(7)), None);
    assert_eq!(effective_full_cycle_season_length(&[14], None), None);
    assert!(validate_horizon(0).is_err());
    assert!(validate_horizon(1).is_ok());
}

#[test]
fn stable_hash_and_splitmix_match_reference_values() {
    assert_eq!(stable_hash64(b""), 0xcbf2_9ce4_8422_2325);
    assert_eq!(stable_hash64(b"a"), 0xaf63_dc4c_8601_ec8c);
    assert_eq!(splitmix64(0), 0xe220_a839_7b1d_cdaf);
    assert_eq!(draw_state(1, 2, 3), draw_state(1, 2, 3));
    assert_ne!(draw_state(1, 2, 3), draw_state(1, 2, 4));
}

#[test]
fn theta_seasonality_kinds() {
    let additive = ThetaSeasonality::additive(7).unwrap();
    assert_eq!(additive.kind, ThetaSeasonalityKind::Additive);
    assert_eq!(additive.season_length, 7);
    assert_eq!(additive.name(), "additive");
    assert_eq!(ThetaSeasonality::multiplicative(12).unwrap().name(), "multiplicative");
    assert_eq!(
        ThetaSeasonality::new(ThetaSeasonalityKind::Additive, 1).unwrap_err().message(),
        "invalid input: season_length must be greater than 1 for theta seasonality"
    );
}

#[test]
fn auto_arima_candidate_orders_are_pruned_and_deduplicated() {
    let orders = auto_arima_candidate_orders(3, 3, 1, 2);
    let mut expected = Vec::new();
    for p in 0..=2 {
        for q in 0..=2 {
            expected.push(ArimaOrder { p, d: 0, q });
        }
    }
    for p in 0..=1 {
        for q in 0..=1 {
            expected.push(ArimaOrder { p, d: 1, q });
        }
    }
    assert_eq!(orders, expected);
    let full = auto_arima_candidate_orders(100, 2, 1, 1);
    assert_eq!(full.len(), 12);
    assert_eq!(full[0], ArimaOrder { p: 0, d: 0, q: 0 });
    assert_eq!(full[11], ArimaOrder { p: 2, d: 1, q: 1 });
}

#[test]
fn auto_arima_limits_are_validated() {
    assert!(validate_auto_arima_limits(8, 2, 8).is_ok());
    assert_eq!(
        validate_auto_arima_limits(9, 0, 0).unwrap_err().message(),
        "invalid input: max_p must be <= 8 for auto_arima"
    );
    assert_eq!(
        validate_auto_arima_limits(0, 3, 0).unwrap_err().message(),
        "invalid input: max_d must be <= 2 for auto_arima"
    );
    assert_eq!(
        validate_auto_arima_limits(0, 0, 9).unwrap_err().message(),
        "invalid input: max_q must be <= 8 for auto_arima"
    );
}

#[test]
fn seasonal_naive_repeats_the_last_season() {
    assert_eq!(seasonal_naive_sources(10, 3, 5), vec![7, 8, 9, 7, 8]);
    assert_eq!(seasonal_naive_sources(2, 7, 3), vec![0, 1, 0]);
    assert_eq!(seasonal_naive_sources(4, 0, 2), vec![3, 3]);
}

#[test]
fn seasonal_window_takes_the_same_phase_of_recent_seasons() {
    assert_eq!(seasonal_window_sources(10, 3, 2, 1), vec![7, 4]);
    assert_eq!(seasonal_window_sources(10, 3, 5, 2), vec![8, 5, 2]);
    assert_eq!(seasonal_window_sources(10, 3, 0, 4), vec![7]);
}

#[test]
fn even_changepoints_spread_inside_the_cutoff() {
    assert_eq!(even_changepoints(10, 3, 7), vec![1, 3, 5]);
    assert_eq!(even_changepoints(5, 10, 4), vec![1, 2]);
    assert!(even_changepoints(2, 3, 1).is_empty());
    assert!(even_changepoints(10, 0, 7).is_empty());
}

fn layout(name: &str, factor: usize, length: usize) -> TemporalLevelLayout {
    TemporalLevelLayout { name: name.to_string(), factor, length }
}

#[test]
fn temporal_aggregation_counts_blocks_and_reports_bad_series() {
    assert_eq!(non_overlapping_chunks(28, true, 7).unwrap(), 4);
    assert_eq!(
        non_overlapping_chunks(0, true, 7).unwrap_err().message(),
        "invalid input: temporal series must contain at least one value"
    );
    assert_eq!(
        non_overlapping_chunks(28, false, 7).unwrap_err().message(),
        "invalid input: temporal series values must be finite"
    );
    assert_eq!(
        non_overlapping_chunks(28, true, 0).unwrap_err().message(),
        "invalid input: temporal aggregation factor must be positive"
    );
    assert_eq!(
        non_overlapping_chunks(30, true, 7).unwrap_err().message(),
        "invalid input: series length 30 is not divisible by temporal aggregation factor 7"
    );

    let weekly = TemporalAggregation::new("weekly".to_string(), 7).unwrap();
    let fortnightly = TemporalAggregation::new("fortnightly".to_string(), 14).unwrap();
    let hierarchy = TemporalHierarchy::new("daily".to_string(), vec![weekly, fortnightly]).unwrap();
    assert_eq!(
        hierarchy.series_levels(28, true).unwrap(),
        vec![layout("daily", 1, 28), layout("weekly", 7, 4), layout("fortnightly", 14, 2)]
    );
    assert_eq!(
        hierarchy.series_levels(21, true).unwrap_err().message(),
        "invalid input: series length 21 is not divisible by temporal aggregation factor 14"
    );
    let facts = |series_id: &str, value_count: usize| TemporalSeriesFacts {
        series_id: series_id.to_string(),
        value_count,
        values_finite: true,
    };
    let panel = hierarchy.panel_levels(&vec![facts("a", 14), facts("b", 28)]).unwrap();
    assert_eq!(panel.len(), 2);
    assert_eq!(panel[0], vec![layout("daily", 1, 14), layout("weekly", 7, 2), layout("fortnightly", 14, 1)]);
    assert_eq!(
        hierarchy.panel_levels(&vec![]).unwrap_err().message(),
        "invalid input: temporal panel must contain at least one series"
    );
    assert_eq!(
        hierarchy.panel_levels(&vec![facts("a", 14), facts("b", 0)]).unwrap_err().message(),
        "invalid input: temporal series must contain at least one value"
    );
}


#[test]
fn split_admits_short_timelines_whatever_the_step() {
    let mut splitter = RollingOriginSplitter::expanding(2, 1).unwrap();
    splitter.step = 0;
    splitter.min_train_size = 0;
    let short = vec![stamp("a", 1), stamp("b", 1), stamp("a", 2)];
    assert!(splitter.split_admits(&short));
    assert!(splitter.split(&short).unwrap().is_empty());
    let long = vec![stamp("a", 1), stamp("a", 2), stamp("a", 3), stamp("a", 4)];
    assert!(!splitter.split_admits(&long));
    splitter.min_train_size = 3;
    // Origins start at the third timestamp, past the last origin 2: none to advance over.
    assert!(splitter.split_admits(&long));
    assert!(splitter.split(&long).unwrap().is_empty());
    splitter.min_train_size = 1;
    assert!(!splitter.split_admits(&long));
    splitter.step = 1;
    assert!(splitter.split_admits(&long));
    assert_eq!(splitter.split(&long).unwrap().len(), 2);
}
