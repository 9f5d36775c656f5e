//! Integer building blocks of the local statistical forecasters: deterministic
//! hashing and seeding, model-order validation, and the settings enums.
use vstd::prelude::*;
use crate::error::{invalid_input, outcome, Result};
use crate::order::{SortKey, insert_sorted_unique, strictly_increasing};

verus! {

/// `x * y` reduced modulo 2^64.
pub open spec fn mul64(x: u64, y: u64) -> u64 {
    ((x as nat * y as nat) % 0x1_0000_0000_0000_0000nat) as u64
}

/// `x + y` reduced modulo 2^64.
pub open spec fn add64(x: u64, y: u64) -> u64 {
    ((x as nat + y as nat) % 0x1_0000_0000_0000_0000nat) as u64
}

/// 64-bit FNV-1a hash of `bytes`.
pub open spec fn fnv1a64(bytes: Seq<u8>) -> u64
    decreases bytes.len(),
{
    if bytes.len() == 0 {
        0xcbf2_9ce4_8422_2325u64
    } else {
        mul64(fnv1a64(bytes.drop_last()) ^ (bytes.last() as u64), 0x0000_0100_0000_01b3u64)
    }
}

/// Stable 64-bit FNV-1a hash, identical across processes and platforms.
pub fn stable_hash64(bytes: &[u8]) -> (hash: u64)
    ensures
        hash == fnv1a64(bytes@),
{
    let mut hash: u64 = 0xcbf2_9ce4_8422_2325u64;
    let mut i: usize = 0;
    while i < bytes.len()
        invariant
            i <= bytes@.len(),
            hash == fnv1a64(bytes@.take(i as int)),
        decreases bytes.len() - i,
    {
        assert(bytes@.take(i + 1).drop_last() =~= bytes@.take(i as int));
        hash = hash ^ (bytes[i] as u64);
        hash = hash.wrapping_mul(0x0000_0100_0000_01b3u64);
        i = i + 1;
    }
    assert(bytes@.take(bytes@.len() as int) =~= bytes@);
    hash
}

/// SplitMix64 finalizer of `value`.
pub open spec fn spec_splitmix64(value: u64) -> u64 {
    let v = add64(value, 0x9e37_79b9_7f4a_7c15u64);
    let z1 = mul64(v ^ (v >> 30u64), 0xbf58_476d_1ce4_e5b9u64);
    let z2 = mul64(z1 ^ (z1 >> 27u64), 0x94d0_49bb_1331_11ebu64);
    z2 ^ (z2 >> 31u64)
}

/// SplitMix64 step: a well-mixed 64-bit value derived from `value`.
pub fn splitmix64(value: u64) -> (mixed: u64)
    ensures
        mixed == spec_splitmix64(value),
{
    let value = value.wrapping_add(0x9e37_79b9_7f4a_7c15u64);
    let mut z = value;
    z = (z ^ (z >> 30u64)).wrapping_mul(0xbf58_476d_1ce4_e5b9u64);
    z = (z ^ (z >> 27u64)).wrapping_mul(0x94d0_49bb_1331_11ebu64);
    z ^ (z >> 31u64)
}

/// Random state behind the deterministic uncertainty draw number `sample` at
/// forecast step `step` for a seed.
pub open spec fn spec_draw_state(seed: u64, step: u64, sample: u64) -> u64 {
    spec_splitmix64(
        seed ^ mul64(step, 0x9e37_79b9_7f4a_7c15u64) ^ mul64(sample, 0xbf58_476d_1ce4_e5b9u64),
    )
}

/// Random state of a deterministic uncertainty draw; the same seed, step and sample
/// always give the same state.
pub fn draw_state(seed: u64, step: u64, sample: u64) -> (state: u64)
    ensures
        state == spec_draw_state(seed, step, sample),
{
    splitmix64(
        seed ^ step.wrapping_mul(0x9e37_79b9_7f4a_7c15u64) ^ sample.wrapping_mul(
            0xbf58_476d_1ce4_e5b9u64,
        ),
    )
}

/// Highest autoregressive or moving-average order an ARIMA model may use.
pub const MAX_ARIMA_ORDER: usize = 8;

/// What `validate_arima_order` yields.
pub open spec fn arima_order_outcome(p: usize, d: usize, q: usize) -> core::result::Result<
    (),
    Seq<char>,
> {
    if p > 8 {
        Err("ARIMA p must be <= 8"@)
    } else if d > 2 {
        Err("ARIMA d must be <= 2"@)
    } else if q > 8 {
        Err("ARIMA q must be <= 8"@)
    } else {
        Ok(())
    }
}

/// Validates an ARIMA `(p, d, q)` order.
pub fn validate_arima_order(p: usize, d: usize, q: usize) -> (r: Result<()>)
    ensures
        outcome(r) == arima_order_outcome(p, d, q),
{
    if p > MAX_ARIMA_ORDER {
        return Err(invalid_input("ARIMA p must be <= 8"));
    }
    if d > 2 {
        return Err(invalid_input("ARIMA d must be <= 2"));
    }
    if q > MAX_ARIMA_ORDER {
        return Err(invalid_input("ARIMA q must be <= 8"));
    }
    Ok(())
}

/// Smallest of two integers.
pub open spec fn min_int(a: int, b: int) -> int {
    if a <= b {
        a
    } else {
        b
    }
}

/// ARIMA order that a history of `history_len` observations supports: the
/// differencing order is capped by the history, and the lag orders by what
/// remains after differencing.
pub open spec fn supported_arima_order(history_len: int, p: int, d: int, q: int) -> (int, int, int) {
    let effective_d = min_int(min_int(d, 2), if history_len >= 1 {
        history_len - 1
    } else {
        0
    });
    let differenced_len = if history_len >= effective_d {
        history_len - effective_d
    } else {
        0
    };
    let max_lag_order = min_int(
        if differenced_len >= 1 {
            differenced_len - 1
        } else {
            0
        },
        8,
    );
    (min_int(p, max_lag_order), effective_d, min_int(q, max_lag_order))
}

/// Prunes an ARIMA order to what a history of `history_len` observations supports.
pub fn arima_order_supported_by_history(history_len: usize, p: usize, d: usize, q: usize) -> (order:
    (usize, usize, usize))
    ensures
        (order.0 as int, order.1 as int, order.2 as int) == supported_arima_order(
            history_len as int,
            p as int,
            d as int,
            q as int,
        ),
        order.1 <= d && order.1 <= 2,
        d <= 2 && d < history_len ==> order.1 == d,
{
    proof {
        lemma_pruning_keeps_supported_orders(history_len as int, p as int, d as int, q as int);
    }
    let capped_d = if d <= 2 {
        d
    } else {
        2
    };
    let history_cap = if history_len >= 1 {
        history_len - 1
    } else {
        0
    };
    let effective_d = if capped_d <= history_cap {
        capped_d
    } else {
        history_cap
    };
    let differenced_len = history_len - effective_d;
    let lag_room = if differenced_len >= 1 {
        differenced_len - 1
    } else {
        0
    };
    let max_lag_order = if lag_room <= MAX_ARIMA_ORDER {
        lag_room
    } else {
        MAX_ARIMA_ORDER
    };
    let p_supported = if p <= max_lag_order {
        p
    } else {
        max_lag_order
    };
    let q_supported = if q <= max_lag_order {
        q
    } else {
        max_lag_order
    };
    (p_supported, effective_d, q_supported)
}

/// A history covers at least two full cycles of a season longer than one step
/// (twice the season length saturates at `usize::MAX`).
pub open spec fn spec_supports_full_season_cycles(history_len: int, season_length: int) -> bool {
    season_length > 1 && history_len >= (if 2 * season_length <= usize::MAX {
        2 * season_length
    } else {
        usize::MAX as int
    })
}

/// Whether a history of `history_len` observations covers two full seasons.
pub fn supports_full_season_cycles(history_len: usize, season_length: usize) -> (supported: bool)
    ensures
        supported == spec_supports_full_season_cycles(history_len as int, season_length as int),
{
    let doubled = if season_length <= usize::MAX / 2 {
        season_length * 2
    } else {
        usize::MAX
    };
    season_length > 1 && history_len >= doubled
}

/// Keeps a season length only when every series history covers two full seasons.
pub fn effective_full_cycle_season_length(history_lengths: &[usize], season_length: Option<
    usize,
>) -> (effective: Option<usize>)
    ensures
        effective == (match season_length {
            Some(s) => if forall|i: int|
                0 <= i < history_lengths@.len() ==> spec_supports_full_season_cycles(
                    #[trigger] history_lengths@[i] as int,
                    s as int,
                ) {
                Some(s)
            } else {
                None
            },
            None => None,
        }),
{
    match season_length {
        None => None,
        Some(s) => {
            let mut i: usize = 0;
            while i < history_lengths.len()
                invariant
                    i <= history_lengths@.len(),
                    season_length == Some(s),
                    forall|k: int|
                        0 <= k < i ==> spec_supports_full_season_cycles(
                            #[trigger] history_lengths@[k] as int,
                            s as int,
                        ),
                decreases history_lengths.len() - i,
            {
                if !supports_full_season_cycles(history_lengths[i], s) {
                    return None;
                }
                i = i + 1;
            }
            Some(s)
        },
    }
}

/// A forecast must look at least one step ahead.
pub fn validate_horizon(horizon: usize) -> (r: Result<()>)
    ensures
        outcome(r) == (if horizon == 0 {
            Err("forecast horizon must be positive"@)
        } else {
            Ok(())
        }),
{
    if horizon == 0 {
        return Err(invalid_input("forecast horizon must be positive"));
    }
    Ok(())
}

/// Whether theta seasonal adjustment adds or multiplies the seasonal pattern.
#[derive(Debug, Clone, Copy, PartialEq, Eq, Structural)]
pub enum ThetaSeasonalityKind {
    Additive,
    Multiplicative,
}

/// Seasonal adjustment used by the theta forecaster.
#[derive(Debug, Clone, Copy, PartialEq, Eq, Structural)]
pub struct ThetaSeasonality {
    pub kind: ThetaSeasonalityKind,
    pub season_length: usize,
}

/// What building a theta seasonality yields.
pub open spec fn theta_seasonality_outcome(kind: ThetaSeasonalityKind, season_length: usize)
    -> core::result::Result<ThetaSeasonality, Seq<char>> {
    if season_length <= 1 {
        Err("season_length must be greater than 1 for theta seasonality"@)
    } else {
        Ok(ThetaSeasonality { kind, season_length })
    }
}

impl ThetaSeasonality {
    /// Additive seasonal adjustment.
    pub fn additive(season_length: usize) -> (r: Result<Self>)
        ensures
            outcome(r) == theta_seasonality_outcome(ThetaSeasonalityKind::Additive, season_length),
    {
        Self::new(ThetaSeasonalityKind::Additive, season_length)
    }

    /// Multiplicative seasonal adjustment.
    pub fn multiplicative(season_length: usize) -> (r: Result<Self>)
        ensures
            outcome(r) == theta_seasonality_outcome(
                ThetaSeasonalityKind::Multiplicative,
                season_length,
            ),
    {
        Self::new(ThetaSeasonalityKind::Multiplicative, season_length)
    }

    /// Validates the season length and builds the adjustment.
    pub fn new(kind: ThetaSeasonalityKind, season_length: usize) -> (r: Result<Self>)
        ensures
            outcome(r) == theta_seasonality_outcome(kind, season_length),
    {
        if season_length <= 1 {
            return Err(invalid_input("season_length must be greater than 1 for theta seasonality"));
        }
        Ok(Self { kind, season_length })
    }

    /// Name of the adjustment kind.
    pub fn name(self) -> (name: &'static str)
        ensures
            name@ == (match self.kind {
                ThetaSeasonalityKind::Additive => "additive"@,
                ThetaSeasonalityKind::Multiplicative => "multiplicative"@,
            }),
    {
        match self.kind {
            ThetaSeasonalityKind::Additive => "additive",
            ThetaSeasonalityKind::Multiplicative => "multiplicative",
        }
    }
}

/// Trend shape of the piecewise-linear seasonal forecaster.
#[derive(Debug, Clone, Copy, PartialEq, Eq, Structural)]
pub enum PiecewiseLinearGrowth {
    Linear,
    Flat,
    Logistic,
}

/// How a seasonal or regressor component combines with the trend.
#[derive(Debug, Clone, Copy, PartialEq, Eq, Structural)]
pub enum PiecewiseLinearComponentMode {
    Additive,
    Multiplicative,
}

/// Loss minimized when fitting the piecewise-linear coefficients.
#[derive(Debug, Clone, Copy, PartialEq, Eq, Structural)]
pub enum PiecewiseLinearFitLoss {
    Squared,
    Huber,
}

/// Whether extra regressors are standardized before fitting.
#[derive(Debug, Clone, Copy, PartialEq, Eq, Structural)]
pub enum PiecewiseLinearRegressorStandardization {
    /// Regressors enter the fit on their own scale (rendered as `none`).
    Plain,
    Auto,
}

/// Distribution of simulated future trend changes.
#[derive(Debug, Clone, Copy, PartialEq, Eq, Structural)]
pub enum PiecewiseLinearTrendUncertaintyPolicy {
    Normal,
    Laplace,
}

impl PiecewiseLinearGrowth {
    /// Stable name of the growth shape.
    pub fn name(self) -> (name: &'static str)
        ensures
            name@ == (match self {
                PiecewiseLinearGrowth::Linear => "linear"@,
                PiecewiseLinearGrowth::Flat => "flat"@,
                PiecewiseLinearGrowth::Logistic => "logistic"@,
            }),
    {
        match self {
            PiecewiseLinearGrowth::Linear => "linear",
            PiecewiseLinearGrowth::Flat => "flat",
            PiecewiseLinearGrowth::Logistic => "logistic",
        }
    }
}

impl PiecewiseLinearComponentMode {
    /// Stable name of the component mode.
    pub fn name(self) -> (name: &'static str)
        ensures
            name@ == (match self {
                PiecewiseLinearComponentMode::Additive => "additive"@,
                PiecewiseLinearComponentMode::Multiplicative => "multiplicative"@,
            }),
    {
        match self {
            PiecewiseLinearComponentMode::Additive => "additive",
            PiecewiseLinearComponentMode::Multiplicative => "multiplicative",
        }
    }
}

impl PiecewiseLinearFitLoss {
    /// Stable name of the fit loss.
    pub fn name(self) -> (name: &'static str)
        ensures
            name@ == (match self {
                PiecewiseLinearFitLoss::Squared => "squared"@,
                PiecewiseLinearFitLoss::Huber => "huber"@,
            }),
    {
        match self {
            PiecewiseLinearFitLoss::Squared => "squared",
            PiecewiseLinearFitLoss::Huber => "huber",
        }
    }
}

impl PiecewiseLinearRegressorStandardization {
    /// Stable name of the standardization policy.
    pub fn name(self) -> (name: &'static str)
        ensures
            name@ == (match self {
                PiecewiseLinearRegressorStandardization::Plain => "none"@,
                PiecewiseLinearRegressorStandardization::Auto => "auto"@,
            }),
    {
        match self {
            PiecewiseLinearRegressorStandardization::Plain => "none",
            PiecewiseLinearRegressorStandardization::Auto => "auto",
        }
    }
}

impl PiecewiseLinearTrendUncertaintyPolicy {
    /// Stable name of the uncertainty policy.
    pub fn name(self) -> (name: &'static str)
        ensures
            name@ == (match self {
                PiecewiseLinearTrendUncertaintyPolicy::Normal => "normal"@,
                PiecewiseLinearTrendUncertaintyPolicy::Laplace => "laplace"@,
            }),
    {
        match self {
            PiecewiseLinearTrendUncertaintyPolicy::Normal => "normal",
            PiecewiseLinearTrendUncertaintyPolicy::Laplace => "laplace",
        }
    }
}

/// Limits of the order grid that automatic ARIMA searches: `p` and `q` at most
/// 8, `d` at most 2.
pub open spec fn auto_arima_limits_outcome(max_p: usize, max_d: usize, max_q: usize) -> core::result::Result<
    (),
    Seq<char>,
> {
    if max_p > 8 {
        Err("max_p must be <= 8 for auto_arima"@)
    } else if max_d > 2 {
        Err("max_d must be <= 2 for auto_arima"@)
    } else if max_q > 8 {
        Err("max_q must be <= 8 for auto_arima"@)
    } else {
        Ok(())
    }
}

/// Validates the limits of an automatic ARIMA search.
pub fn validate_auto_arima_limits(max_p: usize, max_d: usize, max_q: usize) -> (r: Result<()>)
    ensures
        outcome(r) == auto_arima_limits_outcome(max_p, max_d, max_q),
{
    if max_p > MAX_ARIMA_ORDER {
        return Err(invalid_input("max_p must be <= 8 for auto_arima"));
    }
    if max_d > 2 {
        return Err(invalid_input("max_d must be <= 2 for auto_arima"));
    }
    if max_q > MAX_ARIMA_ORDER {
        return Err(invalid_input("max_q must be <= 8 for auto_arima"));
    }
    Ok(())
}

/// An ARIMA `(p, d, q)` order, ordered by `d`, then `p`, then `q`.
#[derive(Debug, Clone, Copy, PartialEq, Eq, Structural)]
pub struct ArimaOrder {
    pub p: usize,
    pub d: usize,
    pub q: usize,
}

impl SortKey for ArimaOrder {
    open spec fn rank(self) -> int {
        self.d as int * 0x1_0000_0000_0000_0000_0000_0000_0000_0000 + self.p as int * 0x1_0000_0000_0000_0000
            + self.q as int
    }

    proof fn lemma_rank_injective(a: Self, b: Self) {
    }

    fn less_than(&self, other: &Self) -> (r: bool) {
        self.d < other.d || (self.d == other.d && (self.p < other.p || (self.p == other.p && self.q < other.q)))
    }
}

/// The order that a history of `history_len` observations supports for `(p, d, q)`.
pub open spec fn pruned_order(history_len: usize, p: int, d: int, q: int) -> ArimaOrder {
    let order = supported_arima_order(history_len as int, p, d, q);
    ArimaOrder { p: order.0 as usize, d: order.1 as usize, q: order.2 as usize }
}

/// `(d, p, q)` comes before `(cd, cp, cq)` in the order the grid is walked.
pub open spec fn walked_before(d: int, p: int, q: int, cd: int, cp: int, cq: int) -> bool {
    d < cd || (d == cd && p < cp) || (d == cd && p == cp && q < cq)
}

/// Pruned orders of the grid points with `p <= max_p` and `q <= max_q` walked
/// before `(cd, cp, cq)`.
pub open spec fn walked_orders(
    history_len: usize,
    max_p: int,
    max_q: int,
    cd: int,
    cp: int,
    cq: int,
) -> Set<ArimaOrder> {
    Set::new(
        |o: ArimaOrder|
            exists|d: int, p: int, q: int|
                0 <= d && 0 <= p <= max_p && 0 <= q <= max_q && walked_before(d, p, q, cd, cp, cq)
                    && #[trigger] pruned_order(history_len, p, d, q) == o,
    )
}

/// The distinct orders that automatic ARIMA fits: every `(p, d, q)` of the grid
/// pruned to what the shortest history supports.
pub open spec fn auto_arima_orders(history_len: usize, max_p: usize, max_d: usize, max_q: usize) -> Set<
    ArimaOrder,
> {
    Set::new(
        |o: ArimaOrder|
            exists|d: int, p: int, q: int|
                0 <= d <= max_d && 0 <= p <= max_p && 0 <= q <= max_q && #[trigger] pruned_order(
                    history_len,
                    p,
                    d,
                    q,
                ) == o,
    )
}

/// The distinct candidate orders of an automatic ARIMA search over the grid
/// `0..=max_p` x `0..=max_d` x `0..=max_q`, each pruned to what the shortest
/// history (`min_history_len` observations) supports, sorted by `d`, `p`, `q`.
pub fn auto_arima_candidate_orders(min_history_len: usize, max_p: usize, max_d: usize, max_q: usize) -> (orders: Vec<
    ArimaOrder,
>)
    requires
        auto_arima_limits_outcome(max_p, max_d, max_q) is Ok,
    ensures
        strictly_increasing(orders@),
        orders@.to_set() == auto_arima_orders(min_history_len, max_p, max_d, max_q),
{
    let mut orders: Vec<ArimaOrder> = Vec::new();
    let mut d: usize = 0;
    proof {
        assert(orders@.to_set() =~= walked_orders(min_history_len, max_p as int, max_q as int, 0, 0, 0));
    }
    while d <= max_d
        invariant
            max_p <= 8,
            max_d <= 2,
            max_q <= 8,
            d <= max_d + 1,
            strictly_increasing(orders@),
            orders@.to_set() == walked_orders(min_history_len, max_p as int, max_q as int, d as int, 0, 0),
        decreases max_d + 1 - d,
    {
        let mut p: usize = 0;
        while p <= max_p
            invariant
                max_p <= 8,
                max_q <= 8,
                d <= max_d <= 2,
                p <= max_p + 1,
                strictly_increasing(orders@),
                orders@.to_set() == walked_orders(min_history_len, max_p as int, max_q as int, d as int, p as int, 0),
            decreases max_p + 1 - p,
        {
            let mut q: usize = 0;
            while q <= max_q
                invariant
                    max_p <= 8,
                    max_q <= 8,
                    d <= 2,
                    p <= max_p,
                    q <= max_q + 1,
                    strictly_increasing(orders@),
                    orders@.to_set() == walked_orders(
                        min_history_len,
                        max_p as int,
                        max_q as int,
                        d as int,
                        p as int,
                        q as int,
                    ),
                decreases max_q + 1 - q,
            {
                let (sp, sd, sq) = arima_order_supported_by_history(min_history_len, p, d, q);
                let order = ArimaOrder { p: sp, d: sd, q: sq };
                let ghost before = orders@.to_set();
                insert_sorted_unique(&mut orders, order);
                proof {
                    assert(order == pruned_order(min_history_len, p as int, d as int, q as int));
                    let next = walked_orders(
                        min_history_len,
                        max_p as int,
                        max_q as int,
                        d as int,
                        p as int,
                        q + 1,
                    );
                    assert forall|o: ArimaOrder| #[trigger] next.contains(o) <==> before.insert(order).contains(o) by {
                        if next.contains(o) {
                            let (d0, p0, q0) = choose|d0: int, p0: int, q0: int|
                                0 <= d0 && 0 <= p0 <= max_p && 0 <= q0 <= max_q && walked_before(
                                    d0,
                                    p0,
                                    q0,
                                    d as int,
                                    p as int,
                                    q + 1,
                                ) && #[trigger] pruned_order(min_history_len, p0, d0, q0) == o;
                            if !(d0 == d && p0 == p && q0 == q) {
                                assert(walked_before(d0, p0, q0, d as int, p as int, q as int));
                            }
                        }
                        if before.contains(o) {
                            let (d0, p0, q0) = choose|d0: int, p0: int, q0: int|
                                0 <= d0 && 0 <= p0 <= max_p && 0 <= q0 <= max_q && walked_before(
                                    d0,
                                    p0,
                                    q0,
                                    d as int,
                                    p as int,
                                    q as int,
                                ) && #[trigger] pruned_order(min_history_len, p0, d0, q0) == o;
                            assert(walked_before(d0, p0, q0, d as int, p as int, q + 1));
                        }
                        if o == order {
                            assert(walked_before(d as int, p as int, q as int, d as int, p as int, q + 1));
                            assert(pruned_order(min_history_len, p as int, d as int, q as int) == o);
                        }
                    }
                    assert(orders@.to_set() =~= next);
                }
                q = q + 1;
            }
            proof {
                lemma_walked_row_end(min_history_len, max_p as int, max_q as int, d as int, p as int);
            }
            p = p + 1;
        }
        proof {
            lemma_walked_layer_end(min_history_len, max_p as int, max_q as int, d as int);
        }
        d = d + 1;
    }
    proof {
        let all = auto_arima_orders(min_history_len, max_p, max_d, max_q);
        let walked = walked_orders(min_history_len, max_p as int, max_q as int, max_d + 1, 0, 0);
        assert forall|o: ArimaOrder| #[trigger] walked.contains(o) <==> all.contains(o) by {
            if walked.contains(o) {
                let (d0, p0, q0) = choose|d0: int, p0: int, q0: int|
                    0 <= d0 && 0 <= p0 <= max_p && 0 <= q0 <= max_q && walked_before(
                        d0,
                        p0,
                        q0,
                        max_d + 1,
                        0,
                        0,
                    ) && #[trigger] pruned_order(min_history_len, p0, d0, q0) == o;
                assert(0 <= d0 <= max_d);
            }
            if all.contains(o) {
                let (d0, p0, q0) = choose|d0: int, p0: int, q0: int|
                    0 <= d0 <= max_d && 0 <= p0 <= max_p && 0 <= q0 <= max_q && #[trigger] pruned_order(
                        min_history_len,
                        p0,
                        d0,
                        q0,
                    ) == o;
                assert(walked_before(d0, p0, q0, max_d + 1, 0, 0));
            }
        }
        assert(walked =~= all);
    }
    orders
}

proof fn lemma_walked_row_end(history_len: usize, max_p: int, max_q: int, d: int, p: int)
    requires
        0 <= max_q,
    ensures
        walked_orders(history_len, max_p, max_q, d, p, max_q + 1) == walked_orders(history_len, max_p, max_q, d, p + 1, 0),
{
    let a = walked_orders(history_len, max_p, max_q, d, p, max_q + 1);
    let b = walked_orders(history_len, max_p, max_q, d, p + 1, 0);
    assert forall|o: ArimaOrder| #[trigger] a.contains(o) <==> b.contains(o) by {
        if a.contains(o) {
            let (d0, p0, q0) = choose|d0: int, p0: int, q0: int|
                0 <= d0 && 0 <= p0 <= max_p && 0 <= q0 <= max_q && walked_before(d0, p0, q0, d, p, max_q + 1)
                    && #[trigger] pruned_order(history_len, p0, d0, q0) == o;
            assert(walked_before(d0, p0, q0, d, p + 1, 0));
        }
        if b.contains(o) {
            let (d0, p0, q0) = choose|d0: int, p0: int, q0: int|
                0 <= d0 && 0 <= p0 <= max_p && 0 <= q0 <= max_q && walked_before(d0, p0, q0, d, p + 1, 0)
                    && #[trigger] pruned_order(history_len, p0, d0, q0) == o;
            assert(walked_before(d0, p0, q0, d, p, max_q + 1));
        }
    }
    assert(a =~= b);
}

proof fn lemma_walked_layer_end(history_len: usize, max_p: int, max_q: int, d: int)
    requires
        0 <= max_p,
    ensures
        walked_orders(history_len, max_p, max_q, d, max_p + 1, 0) == walked_orders(history_len, max_p, max_q, d + 1, 0, 0),
{
    let a = walked_orders(history_len, max_p, max_q, d, max_p + 1, 0);
    let b = walked_orders(history_len, max_p, max_q, d + 1, 0, 0);
    assert forall|o: ArimaOrder| #[trigger] a.contains(o) <==> b.contains(o) by {
        if a.contains(o) {
            let (d0, p0, q0) = choose|d0: int, p0: int, q0: int|
                0 <= d0 && 0 <= p0 <= max_p && 0 <= q0 <= max_q && walked_before(d0, p0, q0, d, max_p + 1, 0)
                    && #[trigger] pruned_order(history_len, p0, d0, q0) == o;
            assert(walked_before(d0, p0, q0, d + 1, 0, 0));
        }
        if b.contains(o) {
            let (d0, p0, q0) = choose|d0: int, p0: int, q0: int|
                0 <= d0 && 0 <= p0 <= max_p && 0 <= q0 <= max_q && walked_before(d0, p0, q0, d + 1, 0, 0)
                    && #[trigger] pruned_order(history_len, p0, d0, q0) == o;
            assert(walked_before(d0, p0, q0, d, max_p + 1, 0));
        }
    }
    assert(a =~= b);
}

/// The period a local model uses on a history of `history_len` observations:
/// the requested one, capped by the history, at least one.
pub open spec fn effective_period(requested: int, history_len: int) -> int {
    let capped = if requested <= history_len {
        requested
    } else {
        history_len
    };
    if capped >= 1 {
        capped
    } else {
        1
    }
}

fn effective_period_exec(requested: usize, history_len: usize) -> (period: usize)
    ensures
        period == effective_period(requested as int, history_len as int),
{
    let capped = if requested <= history_len {
        requested
    } else {
        history_len
    };
    if capped >= 1 {
        capped
    } else {
        1
    }
}

/// Positions of the history that a seasonal-naive forecast repeats, one for each
/// step `1..=horizon`: the last season of the history, cycled.
pub fn seasonal_naive_sources(history_len: usize, season_length: usize, horizon: usize) -> (sources: Vec<usize>)
    requires
        history_len > 0,
    ensures
        sources@.len() == horizon,
        forall|s: int|
            0 <= s < horizon ==> {
                let period = effective_period(season_length as int, history_len as int);
                #[trigger] sources@[s] == history_len - period + s % period && sources@[s] < history_len
            },
{
    let period = effective_period_exec(season_length, history_len);
    let base = history_len - period;
    let mut sources: Vec<usize> = Vec::new();
    let mut s: usize = 0;
    while s < horizon
        invariant
            period == effective_period(season_length as int, history_len as int),
            1 <= period <= history_len,
            base == history_len - period,
            s <= horizon,
            sources@.len() == s,
            forall|t: int| 0 <= t < s ==> #[trigger] sources@[t] == base + t % (period as int) && sources@[t] < history_len,
        decreases horizon - s,
    {
        sources.push(base + s % period);
        s = s + 1;
    }
    sources
}

/// Positions of the history that a seasonal window average takes for forecast
/// step `step`: the same phase of each of the last `window_count` seasons (at
/// least one, at most as many as the history holds), most recent first.
pub fn seasonal_window_sources(history_len: usize, season_length: usize, window_count: usize, step: usize) -> (sources: Vec<
    usize,
>)
    requires
        history_len > 0,
        step >= 1,
    ensures
        ({
            let period = effective_period(season_length as int, history_len as int);
            let count = effective_period(window_count as int, history_len as int / period);
            &&& sources@.len() == count
            &&& forall|w: int|
                0 <= w < count ==> #[trigger] sources@[w] == history_len - period * (w + 1) + (step - 1) % period
                    && sources@[w] < history_len
        }),
{
    let period = effective_period_exec(season_length, history_len);
    let seasons = history_len / period;
    let count = effective_period_exec(window_count, seasons);
    let phase = (step - 1) % period;
    proof {
        assert(seasons >= 1) by (nonlinear_arith)
            requires
                1 <= period <= history_len,
                seasons == history_len / period,
        ;
        assert(count * period <= history_len) by (nonlinear_arith)
            requires
                1 <= count <= seasons,
                seasons == history_len / period,
                period >= 1,
        ;
    }
    let mut sources: Vec<usize> = Vec::new();
    let mut w: usize = 0;
    while w < count
        invariant
            period == effective_period(season_length as int, history_len as int),
            1 <= period <= history_len,
            count == effective_period(window_count as int, history_len as int / (period as int)),
            count * period <= history_len,
            phase == (step - 1) % (period as int),
            phase < period,
            w <= count,
            sources@.len() == w,
            forall|t: int|
                0 <= t < w ==> #[trigger] sources@[t] == history_len - period * (t + 1) + phase && sources@[t]
                    < history_len,
        decreases count - w,
    {
        proof {
            assert(period <= period * (w + 1) <= count * period) by (nonlinear_arith)
                requires
                    w + 1 <= count,
                    period >= 1,
            ;
        }
        let back = period * (w + 1);
        assert(history_len - back + phase < history_len);
        sources.push(history_len - back + phase);
        w = w + 1;
    }
    sources
}

/// Positions of the history at which evenly spread changepoints are placed,
/// from `history_len` observations, `requested` changepoints, and
/// `scaled_cutoff`: the changepoint range times the last position, rounded down
/// and at least one. Changepoints stay strictly inside the cutoff.
pub open spec fn even_changepoint_positions(history_len: int, requested: int, scaled_cutoff: int) -> Seq<int> {
    if requested == 0 || history_len <= 2 {
        Seq::empty()
    } else {
        let last = history_len - 1;
        let cutoff = if scaled_cutoff <= last - 1 {
            scaled_cutoff
        } else {
            last - 1
        };
        let spread = if cutoff - 1 >= 1 {
            cutoff - 1
        } else {
            1
        };
        let count = if requested <= spread {
            requested
        } else {
            spread
        };
        Seq::new(
            count as nat,
            |k: int|
                {
                    let position = ((k + 1) * cutoff) / (count + 1);
                    if position < 1 {
                        1
                    } else if position > cutoff {
                        cutoff
                    } else {
                        position
                    }
                },
        )
    }
}

/// Positions of the history that carry evenly spread changepoints.
pub fn even_changepoints(history_len: usize, requested: usize, scaled_cutoff: usize) -> (positions: Vec<usize>)
    requires
        scaled_cutoff >= 1,
    ensures
        positions@.len() == even_changepoint_positions(history_len as int, requested as int, scaled_cutoff as int).len(),
        forall|k: int|
            0 <= k < positions@.len() ==> #[trigger] positions@[k] as int == even_changepoint_positions(
                history_len as int,
                requested as int,
                scaled_cutoff as int,
            )[k] && 1 <= positions@[k] < history_len,
        history_len > 2 && requested >= 1 && requested < scaled_cutoff && requested < history_len - 2
            ==> positions@.len() == requested,
        forall|j: int, k: int| 0 <= j < k < positions@.len() ==> #[trigger] positions@[j] < #[trigger] positions@[k],
{
    proof {
        lemma_even_changepoints(history_len as int, requested as int, scaled_cutoff as int);
    }
    let mut positions: Vec<usize> = Vec::new();
    if requested == 0 || history_len <= 2 {
        return positions;
    }
    let last = history_len - 1;
    let cutoff = if scaled_cutoff <= last - 1 {
        scaled_cutoff
    } else {
        last - 1
    };
    let spread = if cutoff >= 2 {
        cutoff - 1
    } else {
        1
    };
    let count = if requested <= spread {
        requested
    } else {
        spread
    };
    let ghost expected = even_changepoint_positions(history_len as int, requested as int, scaled_cutoff as int);
    let mut k: usize = 0;
    while k < count
        invariant
            history_len > 2,
            requested > 0,
            cutoff as int == (if scaled_cutoff <= history_len - 2 {
                scaled_cutoff as int
            } else {
                history_len - 2
            }),
            spread as int == (if cutoff >= 2 {
                cutoff - 1
            } else {
                1
            }),
            count == (if requested <= spread {
                requested
            } else {
                spread
            }),
            1 <= cutoff <= history_len - 2,
            1 <= count <= spread <= cutoff,
            expected == even_changepoint_positions(history_len as int, requested as int, scaled_cutoff as int),
            expected.len() == count,
            k <= count,
            positions@.len() == k,
            forall|t: int| 0 <= t < k ==> #[trigger] positions@[t] as int == expected[t] && 1 <= positions@[t] < history_len,
        decreases count - k,
    {
        proof {
            assert((k + 1) * cutoff <= count * cutoff) by (nonlinear_arith)
                requires
                    k + 1 <= count,
                    cutoff >= 1,
            ;
            assert((k + 1) * cutoff <= 0xffff_ffff_ffff_ffffu128 * 0xffff_ffff_ffff_ffffu128) by (nonlinear_arith)
                requires
                    k + 1 <= cutoff,
                    cutoff <= 0xffff_ffff_ffff_ffffu128,
            ;
        }
        let scaled = ((k + 1) as u128 * cutoff as u128) / ((count + 1) as u128);
        proof {
            assert(scaled <= cutoff) by (nonlinear_arith)
                requires
                    scaled == ((k + 1) * cutoff) / (count + 1),
                    k + 1 <= count,
                    cutoff >= 1,
            ;
        }
        let position = scaled as usize;
        let clamped = if position < 1 {
            1
        } else if position > cutoff {
            cutoff
        } else {
            position
        };
        assert(scaled as int == ((k + 1) * cutoff) / (count + 1));
        assert(expected[k as int] == clamped as int);
        positions.push(clamped);
        k = k + 1;
    }
    positions
}

/// Pruning an ARIMA order to a history never raises it and keeps what the
/// history supports: the differencing order stays at most 2 and below the
/// history length, and is kept whenever it is at most 2 and the history has
/// more observations than it; each lag order stays at most 8 and leaves an
/// observation after differencing and lagging, and is kept whenever it does.
pub proof fn lemma_pruning_keeps_supported_orders(history_len: int, p: int, d: int, q: int)
    requires
        history_len >= 0,
        p >= 0,
        d >= 0,
        q >= 0,
    ensures
        ({
            let o = supported_arima_order(history_len, p, d, q);
            &&& 0 <= o.1 <= d
            &&& o.1 <= 2
            &&& history_len >= 1 ==> o.1 < history_len
            &&& d <= 2 && d < history_len ==> o.1 == d
            &&& d > 2 && history_len > 2 ==> o.1 == 2
            &&& 0 <= o.0 <= p && o.0 <= 8
            &&& 0 <= o.2 <= q && o.2 <= 8
            &&& o.0 == 0 || o.0 + o.1 < history_len
            &&& o.2 == 0 || o.2 + o.1 < history_len
            &&& p <= 8 && p + o.1 < history_len ==> o.0 == p
            &&& q <= 8 && q + o.1 < history_len ==> o.2 == q
            &&& history_len >= 1 ==> o.1 == d || o.1 == 2 || o.1 == history_len - 1
            &&& history_len == 0 ==> o.1 == 0 && o.0 == 0 && o.2 == 0
            &&& history_len >= 1 ==> o.0 == p || o.0 == 8 || o.0 + o.1 + 1 == history_len
            &&& history_len >= 1 ==> o.2 == q || o.2 == 8 || o.2 + o.1 + 1 == history_len
        }),
{
}

/// The automatic ARIMA grid tries every differencing order up to `max_d` when
/// the shortest history has more observations than `max_d`: for each such
/// order, some candidate differences that many times.
pub proof fn lemma_auto_arima_tries_each_differencing(
    min_history_len: usize,
    max_p: usize,
    max_d: usize,
    max_q: usize,
    d: int,
)
    requires
        0 <= d <= max_d,
        max_d <= 2,
        min_history_len > max_d,
    ensures
        exists|o: ArimaOrder| #[trigger] auto_arima_orders(min_history_len, max_p, max_d, max_q).contains(o) && o.d == d,
{
    lemma_pruning_keeps_supported_orders(min_history_len as int, 0, d, 0);
    let o = pruned_order(min_history_len, 0, d, 0);
    assert(o.d == d);
    assert(auto_arima_orders(min_history_len, max_p, max_d, max_q).contains(o));
}

proof fn lemma_floor_steps_apart(a: int, b: int, m: int)
    requires
        m > 0,
        a >= 0,
        b - a >= m,
    ensures
        b / m >= a / m + 1,
{
    vstd::arithmetic::div_mod::lemma_fundamental_div_mod(a, m);
    vstd::arithmetic::div_mod::lemma_fundamental_div_mod(b, m);
    let qa = a / m;
    let qb = b / m;
    let ra = a % m;
    let rb = b % m;
    assert(qb >= qa + 1) by (nonlinear_arith)
        requires
            a == m * qa + ra,
            b == m * qb + rb,
            0 <= ra < m,
            0 <= rb < m,
            b - a >= m,
            m > 0,
    ;
}

/// Evenly spread changepoints: none when no changepoint is requested or the
/// history has at most two observations; otherwise at least one and at most
/// as many as requested, exactly as many as requested whenever the range
/// leaves room for them (more positions than requested below both the scaled
/// cutoff and the second-to-last position), strictly increasing, and each
/// between position 1 and both the scaled cutoff and the second-to-last
/// position.
pub proof fn lemma_even_changepoints(history_len: int, requested: int, scaled_cutoff: int)
    requires
        history_len >= 0,
        requested >= 0,
        scaled_cutoff >= 1,
    ensures
        ({
            let s = even_changepoint_positions(history_len, requested, scaled_cutoff);
            &&& requested == 0 || history_len <= 2 ==> s.len() == 0
            &&& history_len > 2 && requested >= 1 ==> 1 <= s.len() <= requested
            &&& history_len > 2 && requested >= 1 && requested < scaled_cutoff && requested < history_len - 2
                ==> s.len() == requested
            &&& forall|k: int|
                0 <= k < s.len() ==> 1 <= #[trigger] s[k] && s[k] <= scaled_cutoff && s[k] <= history_len - 2
            &&& forall|j: int, k: int| 0 <= j < k < s.len() ==> #[trigger] s[j] < #[trigger] s[k]
            &&& history_len > 2 && requested >= 1 ==> s.len() == requested || s.len() == 1 || s.len() + 1
                == scaled_cutoff || s.len() + 3 == history_len
            &&& forall|k: int|
                0 <= k < s.len() && scaled_cutoff >= 2 && history_len >= 4 ==> {
                    let c = if scaled_cutoff <= history_len - 2 {
                        scaled_cutoff
                    } else {
                        history_len - 2
                    };
                    &&& #[trigger] s[k] * (s.len() + 1) <= (k + 1) * c
                    &&& (k + 1) * c < (s[k] + 1) * (s.len() + 1)
                }
        }),
{
    let s = even_changepoint_positions(history_len, requested, scaled_cutoff);
    if requested == 0 || history_len <= 2 {
    } else {
        let last = history_len - 1;
        let cutoff = if scaled_cutoff <= last - 1 {
            scaled_cutoff
        } else {
            last - 1
        };
        let spread = if cutoff - 1 >= 1 {
            cutoff - 1
        } else {
            1
        };
        let count = if requested <= spread {
            requested
        } else {
            spread
        };
        assert(s.len() == count);
        assert forall|k: int| 0 <= k < s.len() implies 1 <= #[trigger] s[k] && s[k] <= scaled_cutoff && s[k]
            <= history_len - 2 by {}
        assert forall|j: int, k: int| 0 <= j < k < s.len() implies #[trigger] s[j] < #[trigger] s[k] by {
            assert(cutoff >= 2);
            let a = (j + 1) * cutoff;
            let b = (k + 1) * cutoff;
            let m = count + 1;
            assert(cutoff >= m);
            assert(b - a == (k - j) * cutoff) by (nonlinear_arith)
                requires
                    a == (j + 1) * cutoff,
                    b == (k + 1) * cutoff,
            ;
            assert((k - j) * cutoff >= cutoff) by (nonlinear_arith)
                requires
                    k - j >= 1,
                    cutoff >= 0,
            ;
            assert(a >= cutoff) by (nonlinear_arith)
                requires
                    a == (j + 1) * cutoff,
                    j >= 0,
                    cutoff >= 0,
            ;
            lemma_floor_steps_apart(a, b, m);
            vstd::arithmetic::div_mod::lemma_div_is_ordered(m, a, m);
            vstd::arithmetic::div_mod::lemma_div_by_self(m);
            assert(m * cutoff - b == (count - k) * cutoff) by (nonlinear_arith)
                requires
                    b == (k + 1) * cutoff,
                    m == count + 1,
            ;
            assert((count - k) * cutoff >= 0) by (nonlinear_arith)
                requires
                    count - k >= 0,
                    cutoff >= 0,
            ;
            vstd::arithmetic::div_mod::lemma_div_is_ordered(b, m * cutoff, m);
            vstd::arithmetic::div_mod::lemma_div_multiples_vanish(cutoff, m);
            assert(b / m <= cutoff);
            assert(a / m >= 1);
        }
        assert forall|k: int| 0 <= k < s.len() && scaled_cutoff >= 2 && history_len >= 4 implies {
            &&& #[trigger] s[k] * (s.len() + 1) <= (k + 1) * cutoff
            &&& (k + 1) * cutoff < (s[k] + 1) * (s.len() + 1)
        } by {
            let m = count + 1;
            let a = (k + 1) * cutoff;
            assert(cutoff >= m);
            assert(a >= cutoff) by (nonlinear_arith)
                requires
                    a == (k + 1) * cutoff,
                    k >= 0,
                    cutoff >= 0,
            ;
            vstd::arithmetic::div_mod::lemma_div_is_ordered(m, a, m);
            vstd::arithmetic::div_mod::lemma_div_by_self(m);
            assert(m * cutoff - a == (count - k) * cutoff) by (nonlinear_arith)
                requires
                    a == (k + 1) * cutoff,
                    m == count + 1,
            ;
            assert((count - k) * cutoff >= 0) by (nonlinear_arith)
                requires
                    count - k >= 0,
                    cutoff >= 0,
            ;
            vstd::arithmetic::div_mod::lemma_div_is_ordered(a, m * cutoff, m);
            vstd::arithmetic::div_mod::lemma_div_multiples_vanish(cutoff, m);
            assert(s[k] == a / m);
            vstd::arithmetic::div_mod::lemma_fundamental_div_mod(a, m);
            assert(s[k] * m <= a && a < (s[k] + 1) * m) by (nonlinear_arith)
                requires
                    a == m * (a / m) + a % m,
                    0 <= a % m < m,
                    s[k] == a / m,
            ;
        }
    }
}

} // verus!
