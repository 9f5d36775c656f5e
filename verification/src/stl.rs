//! Configuration of seasonal-trend decompositions: season lengths, trend windows
//! and the moving-average window arithmetic.
use vstd::prelude::*;
use crate::error::{invalid_input, outcome, Result};

verus! {

/// What `validate_season_length` yields.
pub open spec fn season_length_outcome(season_length: usize) -> core::result::Result<(), Seq<char>> {
    if season_length <= 1 {
        Err("season_length must be greater than 1"@)
    } else {
        Ok(())
    }
}

/// What `validate_trend_window` yields.
pub open spec fn trend_window_outcome(window: usize) -> core::result::Result<(), Seq<char>> {
    if window < 3 {
        Err("trend_window must be at least 3"@)
    } else {
        Ok(())
    }
}

/// A season must span more than one observation.
pub fn validate_season_length(season_length: usize) -> (r: Result<()>)
    ensures
        outcome(r) == season_length_outcome(season_length),
{
    if season_length <= 1 {
        return Err(invalid_input("season_length must be greater than 1"));
    }
    Ok(())
}

/// A trend window must cover at least three observations.
pub fn validate_trend_window(window: usize) -> (r: Result<()>)
    ensures
        outcome(r) == trend_window_outcome(window),
{
    if window < 3 {
        return Err(invalid_input("trend_window must be at least 3"));
    }
    Ok(())
}

/// Odd moving-average window of at least three points fitted to `n` observations;
/// series of at most two points use a window of their own length (at least one).
pub open spec fn spec_normalize_window(window: int, n: int) -> int {
    if n <= 2 {
        if n >= 1 {
            n
        } else {
            1
        }
    } else {
        let clamped = if window < 3 {
            3
        } else if window > n {
            n
        } else {
            window
        };
        if clamped % 2 == 0 {
            if clamped - 1 >= 3 {
                clamped - 1
            } else {
                3
            }
        } else {
            clamped
        }
    }
}

/// Fits a requested trend window to a series of `n` observations.
pub fn normalize_window(window: usize, n: usize) -> (normalized: usize)
    ensures
        normalized == spec_normalize_window(window as int, n as int),
{
    if n <= 2 {
        return if n >= 1 {
            n
        } else {
            1
        };
    }
    let mut normalized = if window < 3 {
        3
    } else if window > n {
        n
    } else {
        window
    };
    if normalized % 2 == 0 {
        normalized = if normalized - 1 >= 3 {
            normalized - 1
        } else {
            3
        };
    }
    normalized
}

/// First and one-past-last positions of the centered moving-average window around
/// `idx` in a series of `n` observations.
pub open spec fn spec_trend_window_bounds(idx: int, n: int, window: int) -> (int, int) {
    let radius = spec_normalize_window(window, n) / 2;
    let start = if idx >= radius {
        idx - radius
    } else {
        0
    };
    let end = if idx + radius + 1 <= n {
        idx + radius + 1
    } else {
        n
    };
    (start, end)
}

/// Bounds of the centered moving-average window around `idx`, the positions whose
/// values the trend at `idx` averages.
pub fn trend_window_bounds(idx: usize, n: usize, window: usize) -> (bounds: (usize, usize))
    requires
        idx < n,
    ensures
        bounds.0 as int == spec_trend_window_bounds(idx as int, n as int, window as int).0,
        bounds.1 as int == spec_trend_window_bounds(idx as int, n as int, window as int).1,
        bounds.0 <= idx < bounds.1 <= n,
{
    let radius = normalize_window(window, n) / 2;
    assert(radius <= n);
    let start = if idx >= radius {
        idx - radius
    } else {
        0
    };
    let end = if radius < n - idx {
        idx + radius + 1
    } else {
        n
    };
    (start, end)
}

/// Classical seasonal-trend decomposition settings for one season length.
#[derive(Debug, Clone, Copy, PartialEq, Eq, Structural)]
pub struct STLDecomposition {
    season_length: usize,
    trend_window: Option<usize>,
}

/// What `STLDecomposition::with_trend_window` yields: the settings, or the first
/// validation error.
pub open spec fn stl_outcome(season_length: usize, trend_window: Option<usize>) -> core::result::Result<
    (usize, Option<usize>),
    Seq<char>,
> {
    if season_length <= 1 {
        Err("season_length must be greater than 1"@)
    } else if trend_window is Some && trend_window->0 < 3 {
        Err("trend_window must be at least 3"@)
    } else {
        Ok((season_length, trend_window))
    }
}

impl STLDecomposition {
    /// The season length.
    pub closed spec fn spec_season_length(&self) -> usize {
        self.season_length
    }

    /// The requested trend window, if any.
    pub closed spec fn spec_trend_window(&self) -> Option<usize> {
        self.trend_window
    }

    /// The settings as a pair.
    pub open spec fn settings(&self) -> (usize, Option<usize>) {
        (self.spec_season_length(), self.spec_trend_window())
    }

    /// Decomposition with the default trend window.
    pub fn new(season_length: usize) -> (r: Result<Self>)
        ensures
            match r {
                Ok(d) => stl_outcome(season_length, None) == Ok::<_, Seq<char>>(d.settings()),
                Err(e) => stl_outcome(season_length, None) == Err::<(usize, Option<usize>), _>(
                    e.text(),
                ),
            },
    {
        Self::with_trend_window(season_length, None)
    }

    /// Decomposition with an explicit trend window.
    pub fn with_trend_window(season_length: usize, trend_window: Option<usize>) -> (r: Result<Self>)
        ensures
            match r {
                Ok(d) => stl_outcome(season_length, trend_window) == Ok::<_, Seq<char>>(
                    d.settings(),
                ),
                Err(e) => stl_outcome(season_length, trend_window) == Err::<
                    (usize, Option<usize>),
                    _,
                >(e.text()),
            },
    {
        validate_season_length(season_length)?;
        if let Some(window) = trend_window {
            validate_trend_window(window)?;
        }
        Ok(Self { season_length, trend_window })
    }

    /// The season length.
    pub fn season_length(&self) -> (season_length: usize)
        ensures
            season_length == self.spec_season_length(),
    {
        self.season_length
    }

    /// The requested trend window, if any.
    pub fn trend_window(&self) -> (trend_window: Option<usize>)
        ensures
            trend_window == self.spec_trend_window(),
    {
        self.trend_window
    }

    /// Trend window used for a series of `n` observations: the requested one, or
    /// two seasons plus one, fitted by `normalize_window`.
    pub fn effective_trend_window(&self, n: usize) -> (window: usize)
        ensures
            window == spec_normalize_window(
                match self.spec_trend_window() {
                    Some(w) => w as int,
                    None => if 2 * self.spec_season_length() + 1 <= usize::MAX {
                        2 * self.spec_season_length() + 1
                    } else {
                        usize::MAX as int
                    },
                },
                n as int,
            ),
    {
        let requested = match self.trend_window {
            Some(w) => w,
            None => if self.season_length <= (usize::MAX - 1) / 2 {
                2 * self.season_length + 1
            } else {
                usize::MAX
            },
        };
        normalize_window(requested, n)
    }
}

} // verus!
