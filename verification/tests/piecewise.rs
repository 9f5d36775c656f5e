use cartoboost_core::piecewise::{
    validate_piecewise_linear_seasonal_config, EventFacts, HorizonCheck, MonotonicConstraint,
    NamedCheck, PiecewiseConfigFacts, SeasonalityFacts, SeriesHorizonChecks, SeriesNamedChecks,
};
use cartoboost_core::piecewise_inputs::{
    piecewise_named_value, FutureValueChecks, NamedValueSource, SeriesFutureValueChecks,
};
use cartoboost_core::schema::CovariateCheck;
use cartoboost_core::piecewise_layout::{
    event_term_is_active, resolve_piecewise_auto_seasonalities, FourierOrders, piecewise_event_names, piecewise_event_terms, piecewise_extra_regressor_start_col,
    piecewise_linear_coefficient_monotonic_constraints, piecewise_linear_seasonal_feature_count,
    EventDistance, PiecewiseEventTerm,
};

fn valid() -> PiecewiseConfigFacts {
    PiecewiseConfigFacts {
        changepoint_range_valid: true,
        changepoint_l2_regularization_valid: true,
        changepoint_l1_regularization_valid: true,
        huber_delta_valid: true,
        seasonality_l2_regularization_valid: true,
        yearly_l2_regularization_valid: true,
        weekly_l2_regularization_valid: true,
        daily_l2_regularization_valid: true,
        event_l2_regularization_valid: true,
        regressor_l2_regularization_valid: true,
        trend_uncertainty_scale_valid: true,
        coefficient_uncertainty_scale_valid: true,
        changepoint_timestamps: vec![10, 20],
        yearly_fourier_order: 10,
        weekly_fourier_order: 3,
        daily_fourier_order: 0,
        custom_seasonalities: vec![SeasonalityFacts {
            name: "monthly".to_string(),
            period_days_valid: true,
            fourier_order: 5,
            condition_name: None,
            l2_regularization_valid: true,
        }],
        events: vec![EventFacts {
            name: "airport_surge".to_string(),
            lower_window: -1,
            upper_window: 1,
        }],
        extra_regressors: vec!["traffic".to_string(), "airport_queue".to_string()],
        regressor_mode_names: vec!["traffic".to_string()],
        monotonic_constraints: vec![MonotonicConstraint { name: "traffic".to_string(), direction: 1 }],
        future_regressors: vec![NamedCheck { name: "traffic".to_string(), valid: true }],
        future_regressors_by_series: vec![SeriesNamedChecks {
            series_id: "zone_a".to_string(),
            checks: vec![NamedCheck { name: "traffic".to_string(), valid: true }],
        }],
        trend_adjustments: vec![HorizonCheck { horizon: 3, valid: true }],
        trend_adjustments_by_series: vec![SeriesHorizonChecks {
            series_id: "zone_a".to_string(),
            adjustments: vec![HorizonCheck { horizon: 1, valid: true }],
        }],
        residual_shock_scale_valid: true,
        residual_shock_decay_valid: true,
        event_l2_regularization_by_name: vec![NamedCheck { name: "airport_surge".to_string(), valid: true }],
        regressor_l2_regularization_by_name: vec![NamedCheck { name: "airport_queue".to_string(), valid: true }],
        interval_levels_in_range: true,
        interval_levels_distinct: true,
        quantile_levels_in_range: true,
        quantile_levels_distinct: true,
        floor_finite: true,
        cap_regressor: None,
        floor_regressor: None,
        logistic_growth: false,
        cap_valid: None,
    }
}

fn message(config: &PiecewiseConfigFacts) -> String {
    validate_piecewise_linear_seasonal_config(config).unwrap_err().message()
}

#[test]
fn piecewise_config_accepts_a_consistent_configuration() {
    assert!(validate_piecewise_linear_seasonal_config(&valid()).is_ok());
}

#[test]
fn piecewise_linear_seasonal_rejects_invalid_changepoint_range() {
    let mut config = valid();
    config.changepoint_range_valid = false;
    assert!(message(&config).contains("changepoint_range"));
    assert_eq!(message(&config), "invalid input: changepoint_range must be finite and in (0, 1]");
}

#[test]
fn piecewise_config_reports_the_first_failing_check() {
    let mut config = valid();
    config.huber_delta_valid = false;
    config.changepoint_timestamps = vec![5, 5];
    assert_eq!(message(&config), "invalid input: huber_delta must be a finite positive value");
    config.huber_delta_valid = true;
    assert_eq!(message(&config), "invalid input: changepoint_timestamps must be unique");
}

#[test]
fn piecewise_config_checks_seasonalities_and_events() {
    let mut config = valid();
    config.custom_seasonalities.push(config.custom_seasonalities[0].clone());
    assert_eq!(message(&config), "invalid input: custom seasonality names must be unique");

    let mut config = valid();
    config.custom_seasonalities[0].fourier_order = 0;
    assert_eq!(
        message(&config),
        "invalid input: custom seasonality \"monthly\" fourier_order must be positive"
    );

    let mut config = valid();
    config.custom_seasonalities[0].condition_name = Some(String::new());
    assert_eq!(
        message(&config),
        "invalid input: custom seasonality \"monthly\" condition_name must not be empty"
    );

    let mut config = valid();
    config.events[0].lower_window = 2;
    assert_eq!(
        message(&config),
        "invalid input: piecewise seasonal event \"airport_surge\" lower_window must be <= upper_window"
    );
}

#[test]
fn piecewise_config_checks_regressor_references() {
    let mut config = valid();
    config.extra_regressors.push("traffic".to_string());
    assert_eq!(message(&config), "invalid input: extra regressor names must be unique");

    let mut config = valid();
    config.regressor_mode_names = vec!["weather".to_string()];
    assert_eq!(
        message(&config),
        "invalid input: regressor mode \"weather\" does not match an extra regressor"
    );

    let mut config = valid();
    config.monotonic_constraints[0].direction = 2;
    assert_eq!(
        message(&config),
        "invalid input: extra regressor monotonic constraints must be -1, 0, or 1"
    );

    let mut config = valid();
    config.future_regressors_by_series[0].checks[0].valid = false;
    assert_eq!(
        message(&config),
        "invalid input: per-series future regressor \"traffic\" for series \"zone_a\" values must be finite"
    );

    let mut config = valid();
    config.event_l2_regularization_by_name[0].name = "parade".to_string();
    assert_eq!(
        message(&config),
        "invalid input: event l2 regularization \"parade\" does not match a configured event"
    );

    let mut config = valid();
    config.regressor_l2_regularization_by_name[0].valid = false;
    assert_eq!(
        message(&config),
        "invalid input: regressor l2 regularization \"airport_queue\" must be a finite nonnegative value"
    );
}

#[test]
fn piecewise_config_checks_trend_adjustments_and_capacity() {
    let mut config = valid();
    config.trend_adjustments[0].horizon = 0;
    assert_eq!(message(&config), "invalid input: trend_adjustments horizon keys must be positive");

    let mut config = valid();
    config.trend_adjustments_by_series[0].adjustments[0].valid = false;
    assert_eq!(
        message(&config),
        "invalid input: trend_adjustments_by_series[\"zone_a\"] multipliers must be positive finite values"
    );

    let mut config = valid();
    config.logistic_growth = true;
    assert_eq!(
        message(&config),
        "invalid input: logistic piecewise seasonal growth requires cap or cap_regressor"
    );
    config.cap_valid = Some(false);
    assert_eq!(
        message(&config),
        "invalid input: logistic piecewise seasonal cap must be finite and greater than floor"
    );
    config.cap_valid = Some(true);
    assert!(validate_piecewise_linear_seasonal_config(&config).is_ok());
    config.cap_valid = None;
    config.cap_regressor = Some("zone_capacity".to_string());
    assert!(validate_piecewise_linear_seasonal_config(&config).is_ok());
    config.cap_regressor = Some(String::new());
    assert_eq!(message(&config), "invalid input: cap_regressor must not be empty");
}

fn event(name: &str, lower_window: i32, upper_window: i32) -> EventFacts {
    EventFacts { name: name.to_string(), lower_window, upper_window }
}

fn term(name: &str, offset: i32) -> PiecewiseEventTerm {
    PiecewiseEventTerm { name: name.to_string(), offset }
}

#[test]
fn event_terms_are_sorted_by_name_then_offset_without_repeats() {
    let mut config = valid();
    config.events = vec![event("promo", -1, 1), event("holiday", 0, 0), event("promo", 0, 2)];
    assert_eq!(
        piecewise_event_terms(&config),
        vec![
            term("holiday", 0),
            term("promo", -1),
            term("promo", 0),
            term("promo", 1),
            term("promo", 2),
        ]
    );
    config.events = vec![event("empty_window", 2, 1)];
    assert!(piecewise_event_terms(&config).is_empty());
}

#[test]
fn feature_layout_places_extra_regressors_last() {
    let config = valid();
    // 2 trend + 2 changepoints + 2*(10 + 3 + 0) Fourier + 2*5 custom + 3 event terms.
    assert_eq!(piecewise_extra_regressor_start_col(&config, 2), 43);
    assert_eq!(piecewise_linear_seasonal_feature_count(&config, 2), 45);
    let constraints = piecewise_linear_coefficient_monotonic_constraints(&config, 2);
    assert_eq!(constraints.len(), 45);
    assert_eq!(constraints[43], 1);
    assert_eq!(constraints[44], 0);
    assert!(constraints[..43].iter().all(|c| *c == 0));

    let mut config = valid();
    config.monotonic_constraints = vec![
        MonotonicConstraint { name: "airport_queue".to_string(), direction: -1 },
        MonotonicConstraint { name: "traffic".to_string(), direction: 1 },
    ];
    let constraints = piecewise_linear_coefficient_monotonic_constraints(&config, 0);
    assert_eq!(constraints.len(), 43);
    assert_eq!(&constraints[41..], &[1, -1]);
}

#[test]
fn event_term_is_active_only_at_its_offset_inside_the_window() {
    let distance = |name: &str, days_after: i64| EventDistance {
        name: name.to_string(),
        lower_window: -1,
        upper_window: 1,
        days_after,
    };
    let surge = term("airport_surge", 1);
    assert!(event_term_is_active(&surge, &vec![distance("airport_surge", 1)]));
    assert!(!event_term_is_active(&surge, &vec![distance("airport_surge", 0)]));
    assert!(!event_term_is_active(&surge, &vec![distance("marathon", 1)]));
    assert!(event_term_is_active(&surge, &vec![distance("marathon", 1), distance("airport_surge", 1)]));
    let outside = term("airport_surge", 2);
    assert!(!event_term_is_active(&outside, &vec![distance("airport_surge", 2)]));
}

#[test]
fn event_names_are_sorted_and_distinct() {
    let mut config = valid();
    config.events = vec![event("promo", -1, 1), event("holiday", 2, 1), event("promo", 0, 2)];
    assert_eq!(piecewise_event_names(&config), vec!["holiday".to_string(), "promo".to_string()]);
    config.events = Vec::new();
    assert!(piecewise_event_names(&config).is_empty());
}

fn future(name: &str, finite: Vec<bool>) -> FutureValueChecks {
    FutureValueChecks { name: name.to_string(), finite }
}

#[test]
fn named_values_come_from_covariates_then_series_then_shared_future_values() {
    let covariates = vec![
        CovariateCheck { name: "airport_queue".to_string(), finite: true },
        CovariateCheck { name: "traffic".to_string(), finite: false },
    ];
    let shared = vec![future("traffic", vec![true, true]), future("weather", vec![true, false])];
    let by_series = vec![SeriesFutureValueChecks {
        series_id: "zone_a".to_string(),
        regressors: vec![future("traffic", vec![true, true, true])],
    }];
    let lookup = |name: &str, series: Option<&str>, covs: Option<&Vec<CovariateCheck>>, step: Option<usize>| {
        piecewise_named_value(name, series, covs, step, &shared, &by_series, "extra regressor")
    };
    let message = |r: Result<NamedValueSource, cartoboost_core::error::CartoBoostError>| r.unwrap_err().message();

    assert_eq!(lookup("airport_queue", None, Some(&covariates), None).unwrap(), NamedValueSource::Covariate(0));
    assert_eq!(
        message(lookup("traffic", None, Some(&covariates), None)),
        "invalid input: piecewise seasonal extra regressor \"traffic\" training values must be finite"
    );
    assert_eq!(
        message(lookup("weather", None, Some(&covariates), None)),
        "invalid input: piecewise seasonal extra regressor \"weather\" missing from training covariates"
    );
    assert_eq!(
        message(lookup("traffic", Some("zone_a"), None, None)),
        "invalid input: piecewise seasonal prediction requires a future regressor horizon step"
    );
    assert_eq!(
        lookup("traffic", Some("zone_a"), None, Some(3)).unwrap(),
        NamedValueSource::SeriesFuture(0, 0, 2)
    );
    assert_eq!(lookup("traffic", Some("zone_b"), None, Some(2)).unwrap(), NamedValueSource::Future(0, 1));
    assert_eq!(lookup("weather", Some("zone_a"), None, Some(1)).unwrap(), NamedValueSource::Future(1, 0));
    assert_eq!(
        message(lookup("traffic", None, None, Some(3))),
        "invalid input: piecewise seasonal future extra regressor \"traffic\" has fewer than 3 values"
    );
    assert_eq!(
        message(lookup("weather", None, None, Some(2))),
        "invalid input: piecewise seasonal future extra regressor \"weather\" values must be finite"
    );
    assert_eq!(
        message(lookup("holiday_flag", Some("zone_a"), None, Some(1))),
        "invalid input: piecewise seasonal future extra regressor \"holiday_flag\" is missing"
    );
}

#[test]
fn piecewise_linear_auto_seasonalities_resolve_from_training_span() {
    let hour = 3_600_i64;
    let day = 86_400_i64;
    let orders = |yearly, weekly, daily| FourierOrders { yearly, weekly, daily };
    // 72 hourly rows span 71 hours; 800 daily rows span 799 days.
    let hourly = resolve_piecewise_auto_seasonalities(orders(0, 0, 0), true, true, true, true, true, Some(71 * hour));
    let long_daily =
        resolve_piecewise_auto_seasonalities(orders(0, 0, 0), true, true, true, true, false, Some(799 * day));
    let disabled =
        resolve_piecewise_auto_seasonalities(orders(0, 0, 0), false, false, true, true, false, Some(799 * day));
    assert_eq!(hourly.daily, 4);
    assert_eq!(long_daily.yearly, 10);
    assert_eq!(long_daily.weekly, 3);
    assert_eq!(disabled.yearly, 0);
    assert_eq!(disabled.weekly, 0);
}

#[test]
fn auto_seasonalities_need_the_full_span_and_keep_explicit_orders() {
    let orders = FourierOrders { yearly: 0, weekly: 0, daily: 0 };
    let just_short = resolve_piecewise_auto_seasonalities(orders, true, true, true, true, true, Some(172_799));
    assert_eq!(just_short, orders);
    let exactly = resolve_piecewise_auto_seasonalities(orders, true, true, true, true, true, Some(1_209_600));
    assert_eq!(exactly, FourierOrders { yearly: 0, weekly: 3, daily: 4 });
    let explicit = FourierOrders { yearly: 6, weekly: 2, daily: 1 };
    assert_eq!(
        resolve_piecewise_auto_seasonalities(explicit, true, true, true, true, true, Some(100_000_000)),
        explicit
    );
    assert_eq!(resolve_piecewise_auto_seasonalities(orders, true, true, true, true, true, None), orders);
}

