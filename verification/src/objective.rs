//! Forecast selection objectives.
use vstd::prelude::*;
use crate::error::{outcome, CartoBoostError, Result};
use crate::text::{debug_quoted, debug_text, join3, str_eq};

verus! {

/// Metric that forecast model selection minimizes.
#[derive(Debug, Clone, Copy, PartialEq, Eq, Structural)]
pub enum ForecastObjective {
    Rmse,
    Wape,
}

/// Stable name of an objective.
pub open spec fn objective_name(objective: ForecastObjective) -> Seq<char> {
    match objective {
        ForecastObjective::Rmse => "rmse"@,
        ForecastObjective::Wape => "wape"@,
    }
}

/// What `ForecastObjective::parse` yields for the text `value`.
pub open spec fn objective_outcome(value: Seq<char>) -> core::result::Result<
    ForecastObjective,
    Seq<char>,
> {
    if value == "rmse"@ {
        Ok(ForecastObjective::Rmse)
    } else if value == "wape"@ {
        Ok(ForecastObjective::Wape)
    } else {
        Err("unknown forecast objective "@ + debug_quoted(value) + "; expected 'rmse' or 'wape'"@)
    }
}

impl ForecastObjective {
    /// Parses an objective from its exact name.
    pub fn parse(value: &str) -> (r: Result<Self>)
        ensures
            outcome(r) == objective_outcome(value@),
    {
        if str_eq(value, "rmse") {
            Ok(ForecastObjective::Rmse)
        } else if str_eq(value, "wape") {
            Ok(ForecastObjective::Wape)
        } else {
            let quoted = debug_text(value);
            let message = join3(
                "unknown forecast objective ",
                quoted.as_str(),
                "; expected 'rmse' or 'wape'",
            );
            Err(CartoBoostError::InvalidInput(message))
        }
    }

    /// Stable name of the objective.
    pub fn as_str(&self) -> (name: &'static str)
        ensures
            name@ == objective_name(*self),
    {
        match self {
            ForecastObjective::Rmse => "rmse",
            ForecastObjective::Wape => "wape",
        }
    }
}

/// Parsing the name of an objective gives the objective back.
pub proof fn lemma_objective_name_round_trip(objective: ForecastObjective)
    ensures
        objective_outcome(objective_name(objective)) == Ok::<ForecastObjective, Seq<char>>(
            objective,
        ),
{
    reveal_strlit("rmse");
    reveal_strlit("wape");
    if objective == ForecastObjective::Wape {
        assert("wape"@[0] != "rmse"@[0]);
    }
}

} // verus!
