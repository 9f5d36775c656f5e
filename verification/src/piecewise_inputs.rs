//! Where the piecewise-linear seasonal forecaster reads a named input from:
//! the training covariates while fitting; while predicting, the future values
//! given for the series, or else those given for all series.
use vstd::prelude::*;
use crate::error::{invalid_input, CartoBoostError, Result};
use crate::schema::CovariateCheck;
use crate::text::{debug_quoted, debug_text, decimal, decimal_text, join3, str_eq};

verus! {

/// The future values of one regressor, each marked finite or not.
#[derive(Debug, Clone, PartialEq, Eq)]
pub struct FutureValueChecks {
    pub name: String,
    pub finite: Vec<bool>,
}

/// The future regressor values given for one series.
#[derive(Debug, Clone, PartialEq, Eq)]
pub struct SeriesFutureValueChecks {
    pub series_id: String,
    pub regressors: Vec<FutureValueChecks>,
}

/// Where a named value is read from.
#[derive(Debug, Clone, Copy, PartialEq, Eq)]
pub enum NamedValueSource {
    /// The training covariate at this position.
    Covariate(usize),
    /// A future value given for the series: the series' position, the
    /// regressor's position among its regressors, and the value's position.
    SeriesFuture(usize, usize, usize),
    /// A future value given for all series: the regressor's position and the
    /// value's position.
    Future(usize, usize),
}

/// `k` is the first position that holds `name`.
pub open spec fn first_at(names: Seq<Seq<char>>, name: Seq<char>, k: int) -> bool {
    &&& 0 <= k < names.len()
    &&& names[k] == name
    &&& forall|j: int| 0 <= j < k ==> names[j] != name
}

/// Some position holds `name`.
pub open spec fn holds(names: Seq<Seq<char>>, name: Seq<char>) -> bool {
    exists|k: int| 0 <= k < names.len() && names[k] == name
}

/// The first position that holds `name`, where one does.
pub open spec fn first_index(names: Seq<Seq<char>>, name: Seq<char>) -> int {
    choose|k: int| first_at(names, name, k)
}

pub open spec fn covariate_names(items: Seq<CovariateCheck>) -> Seq<Seq<char>> {
    items.map_values(|c: CovariateCheck| c.name@)
}

pub open spec fn regressor_names(items: Seq<FutureValueChecks>) -> Seq<Seq<char>> {
    items.map_values(|r: FutureValueChecks| r.name@)
}

pub open spec fn series_names(items: Seq<SeriesFutureValueChecks>) -> Seq<Seq<char>> {
    items.map_values(|s: SeriesFutureValueChecks| s.series_id@)
}

/// The series' own future values of `name`, where the series has them: the
/// series' position and the regressor's position.
pub open spec fn series_entry(by_series: Seq<SeriesFutureValueChecks>, series_id: Option<Seq<char>>, name: Seq<char>) -> Option<
    (int, int),
> {
    match series_id {
        Some(s) => if holds(series_names(by_series), s) {
            let p = first_index(series_names(by_series), s);
            let regressors = by_series[p].regressors@;
            if holds(regressor_names(regressors), name) {
                Some((p, first_index(regressor_names(regressors), name)))
            } else {
                None
            }
        } else {
            None
        },
        None => None,
    }
}

/// The finiteness of the future values that are read for `name`: the series'
/// own where it has them, else those given for all series.
pub open spec fn chosen_values(
    future: Seq<FutureValueChecks>,
    by_series: Seq<SeriesFutureValueChecks>,
    series_id: Option<Seq<char>>,
    name: Seq<char>,
) -> Option<Seq<bool>> {
    match series_entry(by_series, series_id, name) {
        Some((p, r)) => Some(by_series[p].regressors@[r].finite@),
        None => if holds(regressor_names(future), name) {
            Some(future[first_index(regressor_names(future), name)].finite@)
        } else {
            None
        },
    }
}

/// The start of the messages about one named input.
pub open spec fn role_label(prefix: Seq<char>, role: Seq<char>, name: Seq<char>) -> Seq<char> {
    prefix + role + " "@ + debug_quoted(name)
}

/// Why a named value cannot be read, if it cannot.
pub open spec fn named_value_issue(
    name: Seq<char>,
    series_id: Option<Seq<char>>,
    covariates: Option<Seq<CovariateCheck>>,
    horizon_step: Option<usize>,
    future: Seq<FutureValueChecks>,
    by_series: Seq<SeriesFutureValueChecks>,
    role: Seq<char>,
) -> Option<Seq<char>> {
    match covariates {
        Some(cs) => if !holds(covariate_names(cs), name) {
            Some(role_label("piecewise seasonal "@, role, name) + " missing from training covariates"@)
        } else if !cs[first_index(covariate_names(cs), name)].finite {
            Some(role_label("piecewise seasonal "@, role, name) + " training values must be finite"@)
        } else {
            None
        },
        None => match horizon_step {
            None => Some("piecewise seasonal prediction requires a future regressor horizon step"@),
            Some(step) => match chosen_values(future, by_series, series_id, name) {
                None => Some(role_label("piecewise seasonal future "@, role, name) + " is missing"@),
                Some(values) => if step - 1 >= values.len() {
                    Some(
                        role_label("piecewise seasonal future "@, role, name) + " has fewer than "@ + decimal(
                            step as nat,
                        ) + " values"@,
                    )
                } else if !values[step - 1] {
                    Some(role_label("piecewise seasonal future "@, role, name) + " values must be finite"@)
                } else {
                    None
                },
            },
        },
    }
}

/// Where a named value is read from, where it can be read.
pub open spec fn named_value_source(
    name: Seq<char>,
    series_id: Option<Seq<char>>,
    covariates: Option<Seq<CovariateCheck>>,
    horizon_step: Option<usize>,
    future: Seq<FutureValueChecks>,
    by_series: Seq<SeriesFutureValueChecks>,
) -> NamedValueSource {
    let step = horizon_step->Some_0;
    match covariates {
        Some(cs) => NamedValueSource::Covariate(first_index(covariate_names(cs), name) as usize),
        None => match series_entry(by_series, series_id, name) {
            Some((p, r)) => NamedValueSource::SeriesFuture(p as usize, r as usize, (step - 1) as usize),
            None => NamedValueSource::Future(first_index(regressor_names(future), name) as usize, (step - 1) as usize),
        },
    }
}

proof fn lemma_first_index(names: Seq<Seq<char>>, name: Seq<char>, k: int)
    requires
        first_at(names, name, k),
    ensures
        first_index(names, name) == k,
{
    let c = first_index(names, name);
    assert(first_at(names, name, c));
    if c < k {
        assert(names[c] != name);
    } else if k < c {
        assert(names[k] != name);
    }
}

fn find_covariate(items: &Vec<CovariateCheck>, name: &str) -> (found: Option<usize>)
    ensures
        match found {
            Some(k) => first_at(covariate_names(items@), name@, k as int),
            None => !holds(covariate_names(items@), name@),
        },
{
    let ghost names = covariate_names(items@);
    let mut k: usize = 0;
    while k < items.len()
        invariant
            k <= items.len(),
            names == covariate_names(items@),
            forall|j: int| 0 <= j < k ==> names[j] != name@,
        decreases items.len() - k,
    {
        if str_eq(items[k].name.as_str(), name) {
            return Some(k);
        }
        k = k + 1;
    }
    None
}

fn find_regressor(items: &Vec<FutureValueChecks>, name: &str) -> (found: Option<usize>)
    ensures
        match found {
            Some(k) => first_at(regressor_names(items@), name@, k as int),
            None => !holds(regressor_names(items@), name@),
        },
{
    let ghost names = regressor_names(items@);
    let mut k: usize = 0;
    while k < items.len()
        invariant
            k <= items.len(),
            names == regressor_names(items@),
            forall|j: int| 0 <= j < k ==> names[j] != name@,
        decreases items.len() - k,
    {
        if str_eq(items[k].name.as_str(), name) {
            return Some(k);
        }
        k = k + 1;
    }
    None
}

fn find_series(items: &Vec<SeriesFutureValueChecks>, series_id: &str) -> (found: Option<usize>)
    ensures
        match found {
            Some(k) => first_at(series_names(items@), series_id@, k as int),
            None => !holds(series_names(items@), series_id@),
        },
{
    let ghost names = series_names(items@);
    let mut k: usize = 0;
    while k < items.len()
        invariant
            k <= items.len(),
            names == series_names(items@),
            forall|j: int| 0 <= j < k ==> names[j] != series_id@,
        decreases items.len() - k,
    {
        if str_eq(items[k].series_id.as_str(), series_id) {
            return Some(k);
        }
        k = k + 1;
    }
    None
}

fn role_message(prefix: &str, role: &str, name: &str, suffix: &str) -> (message: String)
    ensures
        message@ == role_label(prefix@, role@, name@) + suffix@,
{
    let rendered = debug_text(name);
    let head = join3(prefix, role, " ");
    join3(head.as_str(), rendered.as_str(), suffix)
}

/// Finds where a named input of the forecaster (an extra regressor, a
/// seasonality condition, a cap or floor regressor, named by `role` in
/// messages) is read from. While fitting, `covariates` holds the row's
/// covariates and the value must be among them and finite. While predicting,
/// the value at `horizon_step` is taken from the future values given for
/// `series_id`, or else from those given for all series, and must be there
/// and finite.
pub fn piecewise_named_value(
    name: &str,
    series_id: Option<&str>,
    covariates: Option<&Vec<CovariateCheck>>,
    horizon_step: Option<usize>,
    future_regressors: &Vec<FutureValueChecks>,
    future_regressors_by_series: &Vec<SeriesFutureValueChecks>,
    role: &str,
) -> (r: Result<NamedValueSource>)
    requires
        covariates is None ==> horizon_step != Some(0usize),
    ensures
        ({
            let series = match series_id {
                Some(s) => Some(s@),
                None => None,
            };
            let covs = match covariates {
                Some(cs) => Some(cs@),
                None => None,
            };
            match r {
                Ok(source) => named_value_issue(
                    name@,
                    series,
                    covs,
                    horizon_step,
                    future_regressors@,
                    future_regressors_by_series@,
                    role@,
                ) is None && source == named_value_source(
                    name@,
                    series,
                    covs,
                    horizon_step,
                    future_regressors@,
                    future_regressors_by_series@,
                ),
                Err(e) => named_value_issue(
                    name@,
                    series,
                    covs,
                    horizon_step,
                    future_regressors@,
                    future_regressors_by_series@,
                    role@,
                ) == Some(e.text()),
            }
        }),
{
    if let Some(covariates) = covariates {
        match find_covariate(covariates, name) {
            None => {
                return Err(CartoBoostError::InvalidInput(
                    role_message("piecewise seasonal ", role, name, " missing from training covariates"),
                ));
            },
            Some(k) => {
                proof {
                    lemma_first_index(covariate_names(covariates@), name@, k as int);
                }
                if !covariates[k].finite {
                    return Err(CartoBoostError::InvalidInput(
                        role_message("piecewise seasonal ", role, name, " training values must be finite"),
                    ));
                }
                return Ok(NamedValueSource::Covariate(k));
            },
        }
    }
    let step = match horizon_step {
        Some(step) => step,
        None => {
            return Err(invalid_input("piecewise seasonal prediction requires a future regressor horizon step"));
        },
    };
    let mut entry: Option<(usize, usize)> = None;
    if let Some(series_id) = series_id {
        if let Some(p) = find_series(future_regressors_by_series, series_id) {
            proof {
                lemma_first_index(series_names(future_regressors_by_series@), series_id@, p as int);
            }
            if let Some(q) = find_regressor(&future_regressors_by_series[p].regressors, name) {
                proof {
                    lemma_first_index(regressor_names(future_regressors_by_series@[p as int].regressors@), name@, q as int);
                }
                entry = Some((p, q));
            }
        }
    }
    let ghost series = match series_id {
        Some(s) => Some(s@),
        None => None,
    };
    assert(match entry {
        Some((p, q)) => series_entry(future_regressors_by_series@, series, name@) == Some((p as int, q as int)),
        None => series_entry(future_regressors_by_series@, series, name@) is None,
    });
    let (values, source) = match entry {
        Some((p, q)) => (
            &future_regressors_by_series[p].regressors[q].finite,
            NamedValueSource::SeriesFuture(p, q, step - 1),
        ),
        None => match find_regressor(future_regressors, name) {
            Some(q) => {
                proof {
                    lemma_first_index(regressor_names(future_regressors@), name@, q as int);
                }
                (&future_regressors[q].finite, NamedValueSource::Future(q, step - 1))
            },
            None => {
                return Err(CartoBoostError::InvalidInput(
                    role_message("piecewise seasonal future ", role, name, " is missing"),
                ));
            },
        },
    };
    if step - 1 >= values.len() {
        let count = decimal_text(step);
        let head = role_message("piecewise seasonal future ", role, name, " has fewer than ");
        return Err(CartoBoostError::InvalidInput(join3(head.as_str(), count.as_str(), " values")));
    }
    if !values[step - 1] {
        return Err(CartoBoostError::InvalidInput(
            role_message("piecewise seasonal future ", role, name, " values must be finite"),
        ));
    }
    Ok(source)
}

} // verus!
