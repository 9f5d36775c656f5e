//! Validation of a piecewise-linear seasonal forecaster's configuration.
//!
//! The configuration holds floating-point settings; what the validation reads of
//! each of them is whether it lies in its range, and that comes in here as a
//! `bool`. Names, counts, windows, horizons and timestamps come in as they are,
//! and the order of the checks, which decides the error reported, is the one the
//! forecaster applies.
use vstd::prelude::*;
use crate::error::{CartoBoostError, Result};
use crate::oof::{holds_name, holds_name_exec};
use crate::text::{debug_quoted, debug_text, join3};

verus! {

/// What the validation reads of one custom seasonality.
#[derive(Debug, Clone, PartialEq, Eq)]
pub struct SeasonalityFacts {
    pub name: String,
    /// `period_days` is finite and positive.
    pub period_days_valid: bool,
    pub fourier_order: usize,
    pub condition_name: Option<String>,
    /// `l2_regularization` is unset, or finite and nonnegative.
    pub l2_regularization_valid: bool,
}

/// What the validation reads of one event.
#[derive(Debug, Clone, PartialEq, Eq)]
pub struct EventFacts {
    pub name: String,
    pub lower_window: i32,
    pub upper_window: i32,
}

/// A named setting and whether its value (or all of its values) passed the range check.
#[derive(Debug, Clone, PartialEq, Eq)]
pub struct NamedCheck {
    pub name: String,
    pub valid: bool,
}

/// The named settings given for one series.
#[derive(Debug, Clone, PartialEq, Eq)]
pub struct SeriesNamedChecks {
    pub series_id: String,
    pub checks: Vec<NamedCheck>,
}

/// A trend adjustment's horizon and whether its multiplier is finite and positive.
#[derive(Debug, Clone, PartialEq, Eq)]
pub struct HorizonCheck {
    pub horizon: usize,
    pub valid: bool,
}

/// The trend adjustments given for one series.
#[derive(Debug, Clone, PartialEq, Eq)]
pub struct SeriesHorizonChecks {
    pub series_id: String,
    pub adjustments: Vec<HorizonCheck>,
}

/// A monotonic constraint on an extra regressor.
#[derive(Debug, Clone, PartialEq, Eq)]
pub struct MonotonicConstraint {
    pub name: String,
    pub direction: i8,
}

/// What the validation reads of a piecewise-linear seasonal configuration.
/// Map-valued settings come as lists in the maps' key order.
#[derive(Debug, Clone, PartialEq, Eq)]
pub struct PiecewiseConfigFacts {
    /// `changepoint_range` is finite and in (0, 1].
    pub changepoint_range_valid: bool,
    pub changepoint_l2_regularization_valid: bool,
    pub changepoint_l1_regularization_valid: bool,
    /// `huber_delta` is finite and positive.
    pub huber_delta_valid: bool,
    pub seasonality_l2_regularization_valid: bool,
    pub yearly_l2_regularization_valid: bool,
    pub weekly_l2_regularization_valid: bool,
    pub daily_l2_regularization_valid: bool,
    pub event_l2_regularization_valid: bool,
    pub regressor_l2_regularization_valid: bool,
    pub trend_uncertainty_scale_valid: bool,
    pub coefficient_uncertainty_scale_valid: bool,
    /// The explicit changepoints, each as a count of nanoseconds.
    pub changepoint_timestamps: Vec<i128>,
    pub yearly_fourier_order: usize,
    pub weekly_fourier_order: usize,
    pub daily_fourier_order: usize,
    pub custom_seasonalities: Vec<SeasonalityFacts>,
    pub events: Vec<EventFacts>,
    pub extra_regressors: Vec<String>,
    pub regressor_mode_names: Vec<String>,
    pub monotonic_constraints: Vec<MonotonicConstraint>,
    pub future_regressors: Vec<NamedCheck>,
    pub future_regressors_by_series: Vec<SeriesNamedChecks>,
    pub trend_adjustments: Vec<HorizonCheck>,
    pub trend_adjustments_by_series: Vec<SeriesHorizonChecks>,
    pub residual_shock_scale_valid: bool,
    /// `residual_shock_decay` is finite and in [0, 1].
    pub residual_shock_decay_valid: bool,
    pub event_l2_regularization_by_name: Vec<NamedCheck>,
    pub regressor_l2_regularization_by_name: Vec<NamedCheck>,
    /// Every interval level is finite and in (0, 1).
    pub interval_levels_in_range: bool,
    /// No two interval levels lie within 1e-12 of each other.
    pub interval_levels_distinct: bool,
    pub quantile_levels_in_range: bool,
    pub quantile_levels_distinct: bool,
    pub floor_finite: bool,
    pub cap_regressor: Option<String>,
    pub floor_regressor: Option<String>,
    pub logistic_growth: bool,
    /// Set when a cap is given: whether it is finite and above the floor.
    pub cap_valid: Option<bool>,
}

/// The first of two possible issues.
pub open spec fn first_issue(a: Option<Seq<char>>, b: Option<Seq<char>>) -> Option<Seq<char>> {
    if a is Some {
        a
    } else {
        b
    }
}

/// The view of an optional message.
pub open spec fn message_of(m: Option<String>) -> Option<Seq<char>> {
    match m {
        Some(text) => Some(text@),
        None => None,
    }
}

/// `prefix`, the quoted rendering of `name`, then `suffix`.
pub open spec fn quoted(prefix: Seq<char>, name: Seq<char>, suffix: Seq<char>) -> Seq<char> {
    prefix + debug_quoted(name) + suffix
}

fn quoted_message(prefix: &str, name: &str, suffix: &str) -> (message: String)
    ensures
        message@ == quoted(prefix@, name@, suffix@),
{
    let rendered = debug_text(name);
    join3(prefix, rendered.as_str(), suffix)
}

/// The checks on the scalar settings that precede the changepoints.
pub open spec fn scalar_issue(c: PiecewiseConfigFacts) -> Option<Seq<char>> {
    if !c.changepoint_range_valid {
        Some("changepoint_range must be finite and in (0, 1]"@)
    } else if !c.changepoint_l2_regularization_valid {
        Some("changepoint_l2_regularization must be a finite nonnegative value"@)
    } else if !c.changepoint_l1_regularization_valid {
        Some("changepoint_l1_regularization must be a finite nonnegative value"@)
    } else if !c.huber_delta_valid {
        Some("huber_delta must be a finite positive value"@)
    } else if !c.seasonality_l2_regularization_valid {
        Some("seasonality_l2_regularization must be a finite nonnegative value"@)
    } else if !c.yearly_l2_regularization_valid {
        Some("yearly_l2_regularization must be a finite nonnegative value"@)
    } else if !c.weekly_l2_regularization_valid {
        Some("weekly_l2_regularization must be a finite nonnegative value"@)
    } else if !c.daily_l2_regularization_valid {
        Some("daily_l2_regularization must be a finite nonnegative value"@)
    } else if !c.event_l2_regularization_valid {
        Some("event_l2_regularization must be a finite nonnegative value"@)
    } else if !c.regressor_l2_regularization_valid {
        Some("regressor_l2_regularization must be a finite nonnegative value"@)
    } else if !c.trend_uncertainty_scale_valid {
        Some("trend_uncertainty_scale must be a finite nonnegative value"@)
    } else if !c.coefficient_uncertainty_scale_valid {
        Some("coefficient_uncertainty_scale must be a finite nonnegative value"@)
    } else {
        None
    }
}

/// Two entries of `s` are equal.
pub open spec fn has_repeat(s: Seq<i128>) -> bool {
    exists|i: int, j: int| 0 <= i < j < s.len() && #[trigger] s[i] == #[trigger] s[j]
}

/// Two names of `names` are equal.
pub open spec fn has_repeated_name(names: Seq<String>) -> bool {
    exists|i: int, j: int| 0 <= i < j < names.len() && #[trigger] names[i]@ == #[trigger] names[j]@
}

/// Some name of `names` is empty.
pub open spec fn has_empty_name(names: Seq<String>) -> bool {
    exists|k: int| 0 <= k < names.len() && #[trigger] names[k]@.len() == 0
}

/// Some custom seasonality before position `i` has the name of seasonality `i`.
pub open spec fn seasonality_name_repeats(items: Seq<SeasonalityFacts>, i: int) -> bool {
    exists|j: int| 0 <= j < i && #[trigger] items[j].name@ == items[i].name@
}

/// What is wrong with custom seasonality `i`, if anything.
pub open spec fn seasonality_issue(items: Seq<SeasonalityFacts>, i: int) -> Option<Seq<char>> {
    let s = items[i];
    if s.name@.len() == 0 {
        Some("custom seasonality names must not be empty"@)
    } else if seasonality_name_repeats(items, i) {
        Some("custom seasonality names must be unique"@)
    } else if !s.period_days_valid {
        Some(quoted("custom seasonality "@, s.name@, " period_days must be a positive finite value"@))
    } else if s.fourier_order == 0 {
        Some(quoted("custom seasonality "@, s.name@, " fourier_order must be positive"@))
    } else if s.condition_name matches Some(condition) && condition@.len() == 0 {
        Some(quoted("custom seasonality "@, s.name@, " condition_name must not be empty"@))
    } else if !s.l2_regularization_valid {
        Some(quoted("custom seasonality "@, s.name@, " l2_regularization must be a finite nonnegative value"@))
    } else {
        None
    }
}

/// The first issue among custom seasonalities from position `i` on.
pub open spec fn seasonalities_issue(items: Seq<SeasonalityFacts>, i: int) -> Option<Seq<char>>
    decreases items.len() - i,
{
    if i >= items.len() {
        None
    } else {
        first_issue(seasonality_issue(items, i), seasonalities_issue(items, i + 1))
    }
}

/// What is wrong with event `e`, if anything.
pub open spec fn event_issue(e: EventFacts) -> Option<Seq<char>> {
    if e.name@.len() == 0 {
        Some("piecewise seasonal event names must not be empty"@)
    } else if e.lower_window > e.upper_window {
        Some(quoted("piecewise seasonal event "@, e.name@, " lower_window must be <= upper_window"@))
    } else {
        None
    }
}

/// The first issue among events from position `i` on.
pub open spec fn events_issue(items: Seq<EventFacts>, i: int) -> Option<Seq<char>>
    decreases items.len() - i,
{
    if i >= items.len() {
        None
    } else {
        first_issue(event_issue(items[i]), events_issue(items, i + 1))
    }
}

/// The checks on the extra regressors' names.
pub open spec fn regressors_issue(names: Seq<String>) -> Option<Seq<char>> {
    if has_empty_name(names) {
        Some("extra regressor names must not be empty"@)
    } else if has_repeated_name(names) {
        Some("extra regressor names must be unique"@)
    } else {
        None
    }
}

/// The first issue among regressor-mode names from position `i` on.
pub open spec fn modes_issue(names: Seq<String>, regressors: Seq<String>, i: int) -> Option<Seq<char>>
    decreases names.len() - i,
{
    if i >= names.len() {
        None
    } else if names[i]@.len() == 0 {
        Some("regressor mode names must not be empty"@)
    } else if !holds_name(regressors, names[i]@) {
        Some(quoted("regressor mode "@, names[i]@, " does not match an extra regressor"@))
    } else {
        modes_issue(names, regressors, i + 1)
    }
}

/// The first issue among monotonic constraints from position `i` on.
pub open spec fn monotonic_issue(items: Seq<MonotonicConstraint>, regressors: Seq<String>, i: int) -> Option<
    Seq<char>,
>
    decreases items.len() - i,
{
    if i >= items.len() {
        None
    } else if items[i].name@.len() == 0 {
        Some("extra regressor monotonic constraint names must not be empty"@)
    } else if !holds_name(regressors, items[i].name@) {
        Some(quoted("extra regressor monotonic constraint "@, items[i].name@, " does not match an extra regressor"@))
    } else if !(-1 <= items[i].direction <= 1) {
        Some("extra regressor monotonic constraints must be -1, 0, or 1"@)
    } else {
        monotonic_issue(items, regressors, i + 1)
    }
}

/// The first issue among future regressors from position `i` on.
pub open spec fn future_issue(items: Seq<NamedCheck>, i: int) -> Option<Seq<char>>
    decreases items.len() - i,
{
    if i >= items.len() {
        None
    } else if items[i].name@.len() == 0 {
        Some("future regressor names must not be empty"@)
    } else if !items[i].valid {
        Some(quoted("future regressor "@, items[i].name@, " values must be finite"@))
    } else {
        future_issue(items, i + 1)
    }
}

/// The first issue among the future regressors of series `series` from position `i` on.
pub open spec fn series_future_issue(series: Seq<char>, items: Seq<NamedCheck>, i: int) -> Option<Seq<char>>
    decreases items.len() - i,
{
    if i >= items.len() {
        None
    } else if items[i].name@.len() == 0 {
        Some("per-series future regressor names must not be empty"@)
    } else if !items[i].valid {
        Some(
            quoted("per-series future regressor "@, items[i].name@, " for series "@) + debug_quoted(series)
                + " values must be finite"@,
        )
    } else {
        series_future_issue(series, items, i + 1)
    }
}

/// The first issue among per-series future regressors from position `i` on.
pub open spec fn future_by_series_issue(items: Seq<SeriesNamedChecks>, i: int) -> Option<Seq<char>>
    decreases items.len() - i,
{
    if i >= items.len() {
        None
    } else if items[i].series_id@.len() == 0 {
        Some("future regressor series ids must not be empty"@)
    } else {
        first_issue(
            series_future_issue(items[i].series_id@, items[i].checks@, 0),
            future_by_series_issue(items, i + 1),
        )
    }
}

/// The first issue among trend adjustments, reported under `label`, from position `i` on.
pub open spec fn adjustments_issue(items: Seq<HorizonCheck>, label: Seq<char>, i: int) -> Option<Seq<char>>
    decreases items.len() - i,
{
    if i >= items.len() {
        None
    } else if items[i].horizon == 0 {
        Some(label + " horizon keys must be positive"@)
    } else if !items[i].valid {
        Some(label + " multipliers must be positive finite values"@)
    } else {
        adjustments_issue(items, label, i + 1)
    }
}

/// The label under which the trend adjustments of series `series` are reported.
pub open spec fn series_adjustment_label(series: Seq<char>) -> Seq<char> {
    "trend_adjustments_by_series["@ + debug_quoted(series) + "]"@
}

/// The first issue among per-series trend adjustments from position `i` on.
pub open spec fn adjustments_by_series_issue(items: Seq<SeriesHorizonChecks>, i: int) -> Option<Seq<char>>
    decreases items.len() - i,
{
    if i >= items.len() {
        None
    } else if items[i].series_id@.len() == 0 {
        Some("trend adjustment series ids must not be empty"@)
    } else {
        first_issue(
            adjustments_issue(items[i].adjustments@, series_adjustment_label(items[i].series_id@), 0),
            adjustments_by_series_issue(items, i + 1),
        )
    }
}

/// Some event is named `name`.
pub open spec fn names_event(events: Seq<EventFacts>, name: Seq<char>) -> bool {
    exists|e: int| 0 <= e < events.len() && #[trigger] events[e].name@ == name
}

/// The first issue among per-event regularizations from position `i` on.
pub open spec fn event_penalty_issue(items: Seq<NamedCheck>, events: Seq<EventFacts>, i: int) -> Option<Seq<char>>
    decreases items.len() - i,
{
    if i >= items.len() {
        None
    } else if items[i].name@.len() == 0 {
        Some("event l2 regularization names must not be empty"@)
    } else if !names_event(events, items[i].name@) {
        Some(quoted("event l2 regularization "@, items[i].name@, " does not match a configured event"@))
    } else if !items[i].valid {
        Some(quoted("event l2 regularization "@, items[i].name@, " must be a finite nonnegative value"@))
    } else {
        event_penalty_issue(items, events, i + 1)
    }
}

/// The first issue among per-regressor regularizations from position `i` on.
pub open spec fn regressor_penalty_issue(items: Seq<NamedCheck>, regressors: Seq<String>, i: int) -> Option<
    Seq<char>,
>
    decreases items.len() - i,
{
    if i >= items.len() {
        None
    } else if items[i].name@.len() == 0 {
        Some("regressor l2 regularization names must not be empty"@)
    } else if !holds_name(regressors, items[i].name@) {
        Some(quoted("regressor l2 regularization "@, items[i].name@, " does not match an extra regressor"@))
    } else if !items[i].valid {
        Some(quoted("regressor l2 regularization "@, items[i].name@, " must be a finite nonnegative value"@))
    } else {
        regressor_penalty_issue(items, regressors, i + 1)
    }
}

/// The checks on levels, floor, cap and growth that close the validation.
pub open spec fn closing_issue(c: PiecewiseConfigFacts) -> Option<Seq<char>> {
    if !c.interval_levels_in_range {
        Some("prediction interval levels must be finite and in (0, 1)"@)
    } else if !c.interval_levels_distinct {
        Some("prediction interval levels must be unique"@)
    } else if !c.quantile_levels_in_range {
        Some("quantile levels must be finite and in (0, 1)"@)
    } else if !c.quantile_levels_distinct {
        Some("quantile levels must be unique"@)
    } else if !c.floor_finite {
        Some("piecewise seasonal floor must be finite"@)
    } else if c.cap_regressor matches Some(name) && name@.len() == 0 {
        Some("cap_regressor must not be empty"@)
    } else if c.floor_regressor matches Some(name) && name@.len() == 0 {
        Some("floor_regressor must not be empty"@)
    } else if c.logistic_growth && c.cap_valid is None && c.cap_regressor is None {
        Some("logistic piecewise seasonal growth requires cap or cap_regressor"@)
    } else if c.logistic_growth && c.cap_valid == Some(false) {
        Some("logistic piecewise seasonal cap must be finite and greater than floor"@)
    } else {
        None
    }
}

/// The first issue of a whole configuration, in the order in which the checks run.
pub open spec fn piecewise_config_issue(c: PiecewiseConfigFacts) -> Option<Seq<char>> {
    let regressors = c.extra_regressors@;
    first_issue(
        scalar_issue(c),
        first_issue(
            if has_repeat(c.changepoint_timestamps@) {
                Some("changepoint_timestamps must be unique"@)
            } else {
                None
            },
            first_issue(
                seasonalities_issue(c.custom_seasonalities@, 0),
                first_issue(
                    events_issue(c.events@, 0),
                    first_issue(
                        regressors_issue(regressors),
                        first_issue(
                            modes_issue(c.regressor_mode_names@, regressors, 0),
                            first_issue(
                                monotonic_issue(c.monotonic_constraints@, regressors, 0),
                                first_issue(
                                    future_issue(c.future_regressors@, 0),
                                    first_issue(
                                        future_by_series_issue(c.future_regressors_by_series@, 0),
                                        first_issue(
                                            adjustments_issue(c.trend_adjustments@, "trend_adjustments"@, 0),
                                            first_issue(
                                                adjustments_by_series_issue(c.trend_adjustments_by_series@, 0),
                                                first_issue(
                                                    if !c.residual_shock_scale_valid {
                                                        Some("residual_shock_scale must be a finite nonnegative value"@)
                                                    } else if !c.residual_shock_decay_valid {
                                                        Some("residual_shock_decay must be finite and in [0, 1]"@)
                                                    } else {
                                                        None
                                                    },
                                                    first_issue(
                                                        event_penalty_issue(
                                                            c.event_l2_regularization_by_name@,
                                                            c.events@,
                                                            0,
                                                        ),
                                                        first_issue(
                                                            regressor_penalty_issue(
                                                                c.regressor_l2_regularization_by_name@,
                                                                regressors,
                                                                0,
                                                            ),
                                                            closing_issue(c),
                                                        ),
                                                    ),
                                                ),
                                            ),
                                        ),
                                    ),
                                ),
                            ),
                        ),
                    ),
                ),
            ),
        ),
    )
}

fn scalar_check(c: &PiecewiseConfigFacts) -> (m: Option<String>)
    ensures
        message_of(m) == scalar_issue(*c),
{
    if !c.changepoint_range_valid {
        return Some(String::from_str("changepoint_range must be finite and in (0, 1]"));
    }
    if !c.changepoint_l2_regularization_valid {
        return Some(String::from_str("changepoint_l2_regularization must be a finite nonnegative value"));
    }
    if !c.changepoint_l1_regularization_valid {
        return Some(String::from_str("changepoint_l1_regularization must be a finite nonnegative value"));
    }
    if !c.huber_delta_valid {
        return Some(String::from_str("huber_delta must be a finite positive value"));
    }
    if !c.seasonality_l2_regularization_valid {
        return Some(String::from_str("seasonality_l2_regularization must be a finite nonnegative value"));
    }
    if !c.yearly_l2_regularization_valid {
        return Some(String::from_str("yearly_l2_regularization must be a finite nonnegative value"));
    }
    if !c.weekly_l2_regularization_valid {
        return Some(String::from_str("weekly_l2_regularization must be a finite nonnegative value"));
    }
    if !c.daily_l2_regularization_valid {
        return Some(String::from_str("daily_l2_regularization must be a finite nonnegative value"));
    }
    if !c.event_l2_regularization_valid {
        return Some(String::from_str("event_l2_regularization must be a finite nonnegative value"));
    }
    if !c.regressor_l2_regularization_valid {
        return Some(String::from_str("regressor_l2_regularization must be a finite nonnegative value"));
    }
    if !c.trend_uncertainty_scale_valid {
        return Some(String::from_str("trend_uncertainty_scale must be a finite nonnegative value"));
    }
    if !c.coefficient_uncertainty_scale_valid {
        return Some(String::from_str("coefficient_uncertainty_scale must be a finite nonnegative value"));
    }
    None
}

fn repeats_timestamp(ts: &Vec<i128>) -> (found: bool)
    ensures
        found == has_repeat(ts@),
{
    let mut j: usize = 0;
    while j < ts.len()
        invariant
            j <= ts@.len(),
            forall|a: int, b: int| 0 <= a < b < j ==> #[trigger] ts@[a] != #[trigger] ts@[b],
        decreases ts.len() - j,
    {
        let mut i: usize = 0;
        while i < j
            invariant
                i <= j,
                j < ts@.len(),
                forall|a: int| 0 <= a < i ==> #[trigger] ts@[a] != ts@[j as int],
            decreases j - i,
        {
            if ts[i] == ts[j] {
                assert(ts@[i as int] == ts@[j as int]);
                return true;
            }
            i = i + 1;
        }
        j = j + 1;
    }
    false
}

fn repeats_name(names: &Vec<String>) -> (found: bool)
    ensures
        found == has_repeated_name(names@),
{
    let mut j: usize = 0;
    while j < names.len()
        invariant
            j <= names@.len(),
            forall|a: int, b: int| 0 <= a < b < j ==> #[trigger] names@[a]@ != #[trigger] names@[b]@,
        decreases names.len() - j,
    {
        let mut i: usize = 0;
        while i < j
            invariant
                i <= j,
                j < names@.len(),
                forall|a: int| 0 <= a < i ==> #[trigger] names@[a]@ != names@[j as int]@,
            decreases j - i,
        {
            if names[i] == names[j] {
                assert(names@[i as int]@ == names@[j as int]@);
                return true;
            }
            i = i + 1;
        }
        j = j + 1;
    }
    false
}

fn is_empty_text(s: &String) -> (empty: bool)
    ensures
        empty == (s@.len() == 0),
{
    s.as_str().unicode_len() == 0
}

fn any_empty_name(names: &Vec<String>) -> (found: bool)
    ensures
        found == has_empty_name(names@),
{
    let mut k: usize = 0;
    while k < names.len()
        invariant
            k <= names@.len(),
            forall|t: int| 0 <= t < k ==> #[trigger] names@[t]@.len() != 0,
        decreases names.len() - k,
    {
        if is_empty_text(&names[k]) {
            return true;
        }
        k = k + 1;
    }
    false
}

fn seasonality_name_seen(items: &Vec<SeasonalityFacts>, i: usize) -> (seen: bool)
    requires
        i < items@.len(),
    ensures
        seen == seasonality_name_repeats(items@, i as int),
{
    let mut j: usize = 0;
    while j < i
        invariant
            i < items@.len(),
            j <= i,
            forall|t: int| 0 <= t < j ==> #[trigger] items@[t].name@ != items@[i as int].name@,
        decreases i - j,
    {
        if items[j].name == items[i].name {
            return true;
        }
        j = j + 1;
    }
    false
}

fn seasonality_check(items: &Vec<SeasonalityFacts>) -> (m: Option<String>)
    ensures
        message_of(m) == seasonalities_issue(items@, 0),
{
    let mut i: usize = 0;
    while i < items.len()
        invariant
            i <= items@.len(),
            seasonalities_issue(items@, 0) == seasonalities_issue(items@, i as int),
        decreases items.len() - i,
    {
        let s = &items[i];
        if is_empty_text(&s.name) {
            return Some(String::from_str("custom seasonality names must not be empty"));
        }
        if seasonality_name_seen(items, i) {
            return Some(String::from_str("custom seasonality names must be unique"));
        }
        if !s.period_days_valid {
            return Some(
                quoted_message("custom seasonality ", s.name.as_str(), " period_days must be a positive finite value"),
            );
        }
        if s.fourier_order == 0 {
            return Some(quoted_message("custom seasonality ", s.name.as_str(), " fourier_order must be positive"));
        }
        match &s.condition_name {
            Some(condition) => {
                if is_empty_text(condition) {
                    return Some(
                        quoted_message("custom seasonality ", s.name.as_str(), " condition_name must not be empty"),
                    );
                }
            },
            None => {},
        }
        if !s.l2_regularization_valid {
            return Some(
                quoted_message(
                    "custom seasonality ",
                    s.name.as_str(),
                    " l2_regularization must be a finite nonnegative value",
                ),
            );
        }
        i = i + 1;
    }
    None
}

fn event_check(items: &Vec<EventFacts>) -> (m: Option<String>)
    ensures
        message_of(m) == events_issue(items@, 0),
{
    let mut i: usize = 0;
    while i < items.len()
        invariant
            i <= items@.len(),
            events_issue(items@, 0) == events_issue(items@, i as int),
        decreases items.len() - i,
    {
        let e = &items[i];
        if is_empty_text(&e.name) {
            return Some(String::from_str("piecewise seasonal event names must not be empty"));
        }
        if e.lower_window > e.upper_window {
            return Some(
                quoted_message("piecewise seasonal event ", e.name.as_str(), " lower_window must be <= upper_window"),
            );
        }
        i = i + 1;
    }
    None
}

fn mode_check(names: &Vec<String>, regressors: &Vec<String>) -> (m: Option<String>)
    ensures
        message_of(m) == modes_issue(names@, regressors@, 0),
{
    let mut i: usize = 0;
    while i < names.len()
        invariant
            i <= names@.len(),
            modes_issue(names@, regressors@, 0) == modes_issue(names@, regressors@, i as int),
        decreases names.len() - i,
    {
        if is_empty_text(&names[i]) {
            return Some(String::from_str("regressor mode names must not be empty"));
        }
        if !holds_name_exec(regressors, &names[i]) {
            return Some(quoted_message("regressor mode ", names[i].as_str(), " does not match an extra regressor"));
        }
        i = i + 1;
    }
    None
}

fn monotonic_check(items: &Vec<MonotonicConstraint>, regressors: &Vec<String>) -> (m: Option<String>)
    ensures
        message_of(m) == monotonic_issue(items@, regressors@, 0),
{
    let mut i: usize = 0;
    while i < items.len()
        invariant
            i <= items@.len(),
            monotonic_issue(items@, regressors@, 0) == monotonic_issue(items@, regressors@, i as int),
        decreases items.len() - i,
    {
        let item = &items[i];
        if is_empty_text(&item.name) {
            return Some(String::from_str("extra regressor monotonic constraint names must not be empty"));
        }
        if !holds_name_exec(regressors, &item.name) {
            return Some(
                quoted_message(
                    "extra regressor monotonic constraint ",
                    item.name.as_str(),
                    " does not match an extra regressor",
                ),
            );
        }
        if item.direction < -1 || item.direction > 1 {
            return Some(String::from_str("extra regressor monotonic constraints must be -1, 0, or 1"));
        }
        i = i + 1;
    }
    None
}

fn future_check(items: &Vec<NamedCheck>) -> (m: Option<String>)
    ensures
        message_of(m) == future_issue(items@, 0),
{
    let mut i: usize = 0;
    while i < items.len()
        invariant
            i <= items@.len(),
            future_issue(items@, 0) == future_issue(items@, i as int),
        decreases items.len() - i,
    {
        if is_empty_text(&items[i].name) {
            return Some(String::from_str("future regressor names must not be empty"));
        }
        if !items[i].valid {
            return Some(quoted_message("future regressor ", items[i].name.as_str(), " values must be finite"));
        }
        i = i + 1;
    }
    None
}

fn series_future_check(series: &String, items: &Vec<NamedCheck>) -> (m: Option<String>)
    ensures
        message_of(m) == series_future_issue(series@, items@, 0),
{
    let mut i: usize = 0;
    while i < items.len()
        invariant
            i <= items@.len(),
            series_future_issue(series@, items@, 0) == series_future_issue(series@, items@, i as int),
        decreases items.len() - i,
    {
        if is_empty_text(&items[i].name) {
            return Some(String::from_str("per-series future regressor names must not be empty"));
        }
        if !items[i].valid {
            let head = quoted_message("per-series future regressor ", items[i].name.as_str(), " for series ");
            let rendered = debug_text(series.as_str());
            return Some(join3(head.as_str(), rendered.as_str(), " values must be finite"));
        }
        i = i + 1;
    }
    None
}

fn future_by_series_check(items: &Vec<SeriesNamedChecks>) -> (m: Option<String>)
    ensures
        message_of(m) == future_by_series_issue(items@, 0),
{
    let mut i: usize = 0;
    while i < items.len()
        invariant
            i <= items@.len(),
            future_by_series_issue(items@, 0) == future_by_series_issue(items@, i as int),
        decreases items.len() - i,
    {
        if is_empty_text(&items[i].series_id) {
            return Some(String::from_str("future regressor series ids must not be empty"));
        }
        let found = series_future_check(&items[i].series_id, &items[i].checks);
        if found.is_some() {
            return found;
        }
        i = i + 1;
    }
    None
}

fn adjustment_check(items: &Vec<HorizonCheck>, label: &str) -> (m: Option<String>)
    ensures
        message_of(m) == adjustments_issue(items@, label@, 0),
{
    let mut i: usize = 0;
    while i < items.len()
        invariant
            i <= items@.len(),
            adjustments_issue(items@, label@, 0) == adjustments_issue(items@, label@, i as int),
        decreases items.len() - i,
    {
        if items[i].horizon == 0 {
            return Some(String::from_str(label).concat(" horizon keys must be positive"));
        }
        if !items[i].valid {
            return Some(String::from_str(label).concat(" multipliers must be positive finite values"));
        }
        i = i + 1;
    }
    None
}

fn adjustment_by_series_check(items: &Vec<SeriesHorizonChecks>) -> (m: Option<String>)
    ensures
        message_of(m) == adjustments_by_series_issue(items@, 0),
{
    let mut i: usize = 0;
    while i < items.len()
        invariant
            i <= items@.len(),
            adjustments_by_series_issue(items@, 0) == adjustments_by_series_issue(items@, i as int),
        decreases items.len() - i,
    {
        if is_empty_text(&items[i].series_id) {
            return Some(String::from_str("trend adjustment series ids must not be empty"));
        }
        let rendered = debug_text(items[i].series_id.as_str());
        let label = join3("trend_adjustments_by_series[", rendered.as_str(), "]");
        let found = adjustment_check(&items[i].adjustments, label.as_str());
        if found.is_some() {
            return found;
        }
        i = i + 1;
    }
    None
}

fn names_an_event(events: &Vec<EventFacts>, name: &String) -> (found: bool)
    ensures
        found == names_event(events@, name@),
{
    let mut e: usize = 0;
    while e < events.len()
        invariant
            e <= events@.len(),
            forall|t: int| 0 <= t < e ==> #[trigger] events@[t].name@ != name@,
        decreases events.len() - e,
    {
        if events[e].name == *name {
            return true;
        }
        e = e + 1;
    }
    false
}

fn event_penalty_check(items: &Vec<NamedCheck>, events: &Vec<EventFacts>) -> (m: Option<String>)
    ensures
        message_of(m) == event_penalty_issue(items@, events@, 0),
{
    let mut i: usize = 0;
    while i < items.len()
        invariant
            i <= items@.len(),
            event_penalty_issue(items@, events@, 0) == event_penalty_issue(items@, events@, i as int),
        decreases items.len() - i,
    {
        if is_empty_text(&items[i].name) {
            return Some(String::from_str("event l2 regularization names must not be empty"));
        }
        if !names_an_event(events, &items[i].name) {
            return Some(
                quoted_message("event l2 regularization ", items[i].name.as_str(), " does not match a configured event"),
            );
        }
        if !items[i].valid {
            return Some(
                quoted_message("event l2 regularization ", items[i].name.as_str(), " must be a finite nonnegative value"),
            );
        }
        i = i + 1;
    }
    None
}

fn regressor_penalty_check(items: &Vec<NamedCheck>, regressors: &Vec<String>) -> (m: Option<String>)
    ensures
        message_of(m) == regressor_penalty_issue(items@, regressors@, 0),
{
    let mut i: usize = 0;
    while i < items.len()
        invariant
            i <= items@.len(),
            regressor_penalty_issue(items@, regressors@, 0) == regressor_penalty_issue(items@, regressors@, i as int),
        decreases items.len() - i,
    {
        if is_empty_text(&items[i].name) {
            return Some(String::from_str("regressor l2 regularization names must not be empty"));
        }
        if !holds_name_exec(regressors, &items[i].name) {
            return Some(
                quoted_message(
                    "regressor l2 regularization ",
                    items[i].name.as_str(),
                    " does not match an extra regressor",
                ),
            );
        }
        if !items[i].valid {
            return Some(
                quoted_message(
                    "regressor l2 regularization ",
                    items[i].name.as_str(),
                    " must be a finite nonnegative value",
                ),
            );
        }
        i = i + 1;
    }
    None
}

fn closing_check(c: &PiecewiseConfigFacts) -> (m: Option<String>)
    ensures
        message_of(m) == closing_issue(*c),
{
    if !c.interval_levels_in_range {
        return Some(String::from_str("prediction interval levels must be finite and in (0, 1)"));
    }
    if !c.interval_levels_distinct {
        return Some(String::from_str("prediction interval levels must be unique"));
    }
    if !c.quantile_levels_in_range {
        return Some(String::from_str("quantile levels must be finite and in (0, 1)"));
    }
    if !c.quantile_levels_distinct {
        return Some(String::from_str("quantile levels must be unique"));
    }
    if !c.floor_finite {
        return Some(String::from_str("piecewise seasonal floor must be finite"));
    }
    match &c.cap_regressor {
        Some(name) => {
            if is_empty_text(name) {
                return Some(String::from_str("cap_regressor must not be empty"));
            }
        },
        None => {},
    }
    match &c.floor_regressor {
        Some(name) => {
            if is_empty_text(name) {
                return Some(String::from_str("floor_regressor must not be empty"));
            }
        },
        None => {},
    }
    if c.logistic_growth {
        if c.cap_valid.is_none() && c.cap_regressor.is_none() {
            return Some(String::from_str("logistic piecewise seasonal growth requires cap or cap_regressor"));
        }
        match c.cap_valid {
            Some(valid) => {
                if !valid {
                    return Some(String::from_str("logistic piecewise seasonal cap must be finite and greater than floor"));
                }
            },
            None => {},
        }
    }
    None
}

/// Validates a piecewise-linear seasonal configuration: ranges of the scalar
/// settings, unique changepoints, well-formed custom seasonalities and events,
/// unique non-empty regressor names, per-name settings that refer to existing
/// regressors or events, positive trend-adjustment horizons, and the interval,
/// quantile, floor and cap settings. The first failing check gives the error.
pub fn validate_piecewise_linear_seasonal_config(config: &PiecewiseConfigFacts) -> (r: Result<()>)
    ensures
        match r {
            Ok(_) => piecewise_config_issue(*config) is None,
            Err(e) => piecewise_config_issue(*config) == Some(e.text()),
        },
{
    let found = scalar_check(config);
    if let Some(message) = found {
        return Err(CartoBoostError::InvalidInput(message));
    }
    if repeats_timestamp(&config.changepoint_timestamps) {
        return Err(CartoBoostError::InvalidInput(String::from_str("changepoint_timestamps must be unique")));
    }
    let found = seasonality_check(&config.custom_seasonalities);
    if let Some(message) = found {
        return Err(CartoBoostError::InvalidInput(message));
    }
    let found = event_check(&config.events);
    if let Some(message) = found {
        return Err(CartoBoostError::InvalidInput(message));
    }
    if any_empty_name(&config.extra_regressors) {
        return Err(CartoBoostError::InvalidInput(String::from_str("extra regressor names must not be empty")));
    }
    if repeats_name(&config.extra_regressors) {
        return Err(CartoBoostError::InvalidInput(String::from_str("extra regressor names must be unique")));
    }
    let found = mode_check(&config.regressor_mode_names, &config.extra_regressors);
    if let Some(message) = found {
        return Err(CartoBoostError::InvalidInput(message));
    }
    let found = monotonic_check(&config.monotonic_constraints, &config.extra_regressors);
    if let Some(message) = found {
        return Err(CartoBoostError::InvalidInput(message));
    }
    let found = future_check(&config.future_regressors);
    if let Some(message) = found {
        return Err(CartoBoostError::InvalidInput(message));
    }
    let found = future_by_series_check(&config.future_regressors_by_series);
    if let Some(message) = found {
        return Err(CartoBoostError::InvalidInput(message));
    }
    let found = adjustment_check(&config.trend_adjustments, "trend_adjustments");
    if let Some(message) = found {
        return Err(CartoBoostError::InvalidInput(message));
    }
    let found = adjustment_by_series_check(&config.trend_adjustments_by_series);
    if let Some(message) = found {
        return Err(CartoBoostError::InvalidInput(message));
    }
    if !config.residual_shock_scale_valid {
        return Err(
            CartoBoostError::InvalidInput(String::from_str("residual_shock_scale must be a finite nonnegative value")),
        );
    }
    if !config.residual_shock_decay_valid {
        return Err(CartoBoostError::InvalidInput(String::from_str("residual_shock_decay must be finite and in [0, 1]")));
    }
    let found = event_penalty_check(&config.event_l2_regularization_by_name, &config.events);
    if let Some(message) = found {
        return Err(CartoBoostError::InvalidInput(message));
    }
    let found = regressor_penalty_check(&config.regressor_l2_regularization_by_name, &config.extra_regressors);
    if let Some(message) = found {
        return Err(CartoBoostError::InvalidInput(message));
    }
    let found = closing_check(config);
    if let Some(message) = found {
        return Err(CartoBoostError::InvalidInput(message));
    }
    Ok(())
}

} // verus!
