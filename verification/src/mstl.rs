//! Configuration of multi-seasonal decompositions.
use vstd::prelude::*;
use crate::error::{invalid_input, Result};
use crate::order::{sort_dedup, strictly_increasing};
use crate::stl::{trend_window_outcome, validate_season_length, validate_trend_window};

verus! {

/// Multi-seasonal trend decomposition settings: distinct season lengths in
/// increasing order and an optional trend window.
#[derive(Debug, Clone, PartialEq, Eq)]
pub struct MSTLDecomposition {
    season_lengths: Vec<usize>,
    trend_window: Option<usize>,
}

/// Every season length spans more than one observation.
pub open spec fn all_seasonal(lengths: Seq<usize>) -> bool {
    forall|i: int| 0 <= i < lengths.len() ==> #[trigger] lengths[i] > 1
}

impl MSTLDecomposition {
    /// Distinct season lengths, increasing.
    pub closed spec fn spec_season_lengths(&self) -> Seq<usize> {
        self.season_lengths@
    }

    /// The requested trend window, if any.
    pub closed spec fn spec_trend_window(&self) -> Option<usize> {
        self.trend_window
    }

    /// Decomposition with the default trend window.
    pub fn new(season_lengths: Vec<usize>) -> (r: Result<Self>)
        ensures
            match r {
                Ok(d) => season_lengths@.len() > 0 && all_seasonal(season_lengths@)
                    && strictly_increasing(d.spec_season_lengths()) && d.spec_season_lengths().to_set()
                    == season_lengths@.to_set() && d.spec_trend_window() is None,
                Err(e) => season_lengths@.len() == 0 && e.text()
                    == "mstl requires at least one season length"@ || season_lengths@.len() > 0
                    && !all_seasonal(season_lengths@) && e.text()
                    == "season_length must be greater than 1"@,
            },
    {
        Self::with_trend_window(season_lengths, None)
    }

    /// Decomposition with an explicit trend window; season lengths are sorted and
    /// deduplicated.
    pub fn with_trend_window(season_lengths: Vec<usize>, trend_window: Option<usize>) -> (r: Result<
        Self,
    >)
        ensures
            match r {
                Ok(d) => {
                    &&& season_lengths@.len() > 0
                    &&& all_seasonal(season_lengths@)
                    &&& (trend_window is Some ==> trend_window->0 >= 3)
                    &&& strictly_increasing(d.spec_season_lengths())
                    &&& d.spec_season_lengths().to_set() == season_lengths@.to_set()
                    &&& d.spec_trend_window() == trend_window
                },
                Err(e) => {
                    ||| season_lengths@.len() == 0 && e.text()
                        == "mstl requires at least one season length"@
                    ||| season_lengths@.len() > 0 && !all_seasonal(season_lengths@) && e.text()
                        == "season_length must be greater than 1"@
                    ||| season_lengths@.len() > 0 && all_seasonal(season_lengths@)
                        && trend_window is Some && trend_window->0 < 3 && e.text()
                        == "trend_window must be at least 3"@
                },
            },
    {
        if season_lengths.len() == 0 {
            return Err(invalid_input("mstl requires at least one season length"));
        }
        let ghost original = season_lengths@;
        assert(original.len() > 0);
        let mut season_lengths = season_lengths;
        sort_dedup(&mut season_lengths);
        let mut all_valid = true;
        let mut i: usize = 0;
        while i < season_lengths.len()
            invariant
                i <= season_lengths@.len(),
                all_valid == forall|k: int| 0 <= k < i ==> #[trigger] season_lengths@[k] > 1,
            decreases season_lengths.len() - i,
        {
            if validate_season_length(season_lengths[i]).is_err() {
                all_valid = false;
            }
            i = i + 1;
        }
        if !all_valid {
            proof {
                let k = choose|k: int| 0 <= k < season_lengths@.len() && !(season_lengths@[k] > 1);
                assert(season_lengths@.to_set().contains(season_lengths@[k]));
                assert(original.to_set().contains(season_lengths@[k]));
                let j = choose|j: int| 0 <= j < original.len() && original[j] == season_lengths@[k];
                assert(!all_seasonal(original));
            }
            return Err(invalid_input("season_length must be greater than 1"));
        }
        assert(all_seasonal(original)) by {
            assert forall|k: int| 0 <= k < original.len() implies #[trigger] original[k] > 1 by {
                assert(original.to_set().contains(original[k]));
                assert(season_lengths@.to_set().contains(original[k]));
                let j = choose|j: int|
                    0 <= j < season_lengths@.len() && season_lengths@[j] == original[k];
            }
        }
        if let Some(window) = trend_window {
            validate_trend_window(window)?;
        }
        Ok(Self { season_lengths, trend_window })
    }

    /// Distinct season lengths, increasing.
    pub fn season_lengths(&self) -> (lengths: &[usize])
        ensures
            lengths@ == self.spec_season_lengths(),
    {
        self.season_lengths.as_slice()
    }

    /// The requested trend window, if any.
    pub fn trend_window(&self) -> (trend_window: Option<usize>)
        ensures
            trend_window == self.spec_trend_window(),
    {
        self.trend_window
    }
}

} // verus!
