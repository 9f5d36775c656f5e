//! Temporal hierarchies: a base frequency and nested non-overlapping aggregations.
use vstd::prelude::*;
use crate::error::{invalid_input, outcome, CartoBoostError, Result};
use crate::text::{decimal, decimal_text, is_blank, is_blank_str, join3};

verus! {

/// One aggregation level: a name and how many base periods it spans.
#[derive(Clone, Debug, PartialEq, Eq)]
pub struct TemporalAggregation {
    pub name: String,
    pub factor: usize,
}

impl TemporalAggregation {
    /// Validates and builds an aggregation level.
    pub fn new(name: String, factor: usize) -> (r: Result<Self>)
        ensures
            match r {
                Ok(level) => !is_blank(name@) && factor > 0 && level.name@ == name@ && level.factor
                    == factor,
                Err(e) => is_blank(name@) && e.text()
                    == "temporal aggregation name must be non-empty"@ || !is_blank(name@) && factor
                    == 0 && e.text() == "temporal aggregation factor must be positive"@,
            },
    {
        if is_blank_str(name.as_str()) {
            return Err(invalid_input("temporal aggregation name must be non-empty"));
        }
        if factor == 0 {
            return Err(invalid_input("temporal aggregation factor must be positive"));
        }
        Ok(Self { name, factor })
    }
}

/// Factors of the aggregation levels, in order.
pub open spec fn factors(aggregations: Seq<TemporalAggregation>) -> Seq<usize> {
    aggregations.map_values(|a: TemporalAggregation| a.factor)
}

/// Checks that each factor strictly exceeds and is a multiple of the one before it,
/// starting from `previous`; yields the first violation.
pub open spec fn nesting_outcome(factors: Seq<usize>, previous: int) -> core::result::Result<
    (),
    Seq<char>,
>
    decreases factors.len(),
{
    if factors.len() == 0 {
        Ok(())
    } else if factors[0] <= previous {
        Err("temporal aggregation factors must be strictly increasing"@)
    } else if (factors[0] as int) % previous != 0 {
        Err("temporal aggregation factors must be nested multiples"@)
    } else {
        nesting_outcome(factors.drop_first(), factors[0] as int)
    }
}

/// What `TemporalHierarchy::new` checks, in order.
pub open spec fn hierarchy_outcome(base_name: Seq<char>, aggregations: Seq<TemporalAggregation>)
    -> core::result::Result<(), Seq<char>> {
    if is_blank(base_name) {
        Err("temporal base name must be non-empty"@)
    } else {
        nesting_outcome(factors(aggregations), 1)
    }
}

/// A base level and aggregation levels whose factors are strictly increasing
/// nested multiples.
#[derive(Clone, Debug, PartialEq, Eq)]
pub struct TemporalHierarchy {
    base_name: String,
    aggregations: Vec<TemporalAggregation>,
}

impl TemporalHierarchy {
    /// Name of the base level.
    pub closed spec fn spec_base_name(&self) -> Seq<char> {
        self.base_name@
    }

    /// Aggregation levels, coarsening in order.
    pub closed spec fn spec_aggregations(&self) -> Seq<TemporalAggregation> {
        self.aggregations@
    }

    /// Validates and builds a hierarchy.
    pub fn new(base_name: String, aggregations: Vec<TemporalAggregation>) -> (r: Result<Self>)
        ensures
            match r {
                Ok(h) => hierarchy_outcome(base_name@, aggregations@) == Ok::<(), Seq<char>>(())
                    && h.spec_base_name() == base_name@ && h.spec_aggregations() == aggregations@,
                Err(e) => hierarchy_outcome(base_name@, aggregations@) == Err::<(), Seq<char>>(
                    e.text(),
                ),
            },
    {
        if is_blank_str(base_name.as_str()) {
            return Err(invalid_input("temporal base name must be non-empty"));
        }
        let ghost all = factors(aggregations@);
        let mut previous: usize = 1;
        let mut i: usize = 0;
        assert(all.skip(0) =~= all);
        while i < aggregations.len()
            invariant
                i <= aggregations@.len(),
                previous > 0,
                !is_blank(base_name@),
                all == factors(aggregations@),
                nesting_outcome(all, 1) == nesting_outcome(all.skip(i as int), previous as int),
            decreases aggregations.len() - i,
        {
            let factor = aggregations[i].factor;
            assert(all.skip(i as int).len() > 0);
            assert(all.skip(i as int)[0] == factor);
            assert(all.skip(i as int).drop_first() =~= all.skip(i + 1));
            if factor <= previous {
                return Err(invalid_input("temporal aggregation factors must be strictly increasing"));
            }
            if factor % previous != 0 {
                return Err(invalid_input("temporal aggregation factors must be nested multiples"));
            }
            previous = factor;
            i = i + 1;
        }
        assert(all.skip(i as int).len() == 0);
        Ok(Self { base_name, aggregations })
    }

    /// Name of the base level.
    pub fn base_name(&self) -> (name: &str)
        ensures
            name@ == self.spec_base_name(),
    {
        self.base_name.as_str()
    }

    /// Aggregation levels, coarsening in order.
    pub fn aggregations(&self) -> (levels: &[TemporalAggregation])
        ensures
            levels@ == self.spec_aggregations(),
    {
        self.aggregations.as_slice()
    }

    /// Names of all levels: the base level first, then each aggregation.
    pub fn level_names(&self) -> (names: Vec<&str>)
        ensures
            names@.len() == self.spec_aggregations().len() + 1,
            names@[0]@ == self.spec_base_name(),
            forall|i: int|
                0 <= i < self.spec_aggregations().len() ==> #[trigger] names@[i + 1]@
                    == self.spec_aggregations()[i].name@,
    {
        let mut names: Vec<&str> = Vec::new();
        names.push(self.base_name.as_str());
        let mut i: usize = 0;
        while i < self.aggregations.len()
            invariant
                i <= self.aggregations@.len(),
                names@.len() == i + 1,
                names@[0]@ == self.base_name@,
                forall|k: int| 0 <= k < i ==> #[trigger] names@[k + 1]@ == self.aggregations@[k].name@,
            decreases self.aggregations.len() - i,
        {
            names.push(self.aggregations[i].name.as_str());
            i = i + 1;
        }
        names
    }
}

/// Factors that pass the nesting check are strictly increasing, and each one is
/// a multiple of every factor before it (and of the base period 1).
pub proof fn lemma_nested_factors(fs: Seq<usize>, previous: int)
    requires
        previous > 0,
        nesting_outcome(fs, previous) is Ok,
    ensures
        forall|i: int| 0 <= i < fs.len() ==> #[trigger] fs[i] > previous && (fs[i] as int) % previous == 0,
        forall|i: int, j: int|
            0 <= i < j < fs.len() ==> #[trigger] fs[i] < #[trigger] fs[j] && fs[j] % fs[i] == 0,
    decreases fs.len(),
{
    if fs.len() > 0 {
        let rest = fs.drop_first();
        lemma_nested_factors(rest, fs[0] as int);
        assert forall|i: int| 0 <= i < fs.len() implies #[trigger] fs[i] > previous && (fs[i] as int)
            % previous == 0 by {
            if i > 0 {
                assert(rest[i - 1] == fs[i]);
                lemma_mod_transitive(fs[i] as int, fs[0] as int, previous);
            }
        }
        assert forall|i: int, j: int| 0 <= i < j < fs.len() implies #[trigger] fs[i]
            < #[trigger] fs[j] && fs[j] % fs[i] == 0 by {
            assert(rest[j - 1] == fs[j]);
            if i > 0 {
                assert(rest[i - 1] == fs[i]);
            }
        }
    }
}

proof fn lemma_mod_transitive(c: int, b: int, a: int)
    requires
        a > 0,
        b > 0,
        c > 0,
        c % b == 0,
        b % a == 0,
    ensures
        c % a == 0,
{
    vstd::arithmetic::div_mod::lemma_mod_mod(c, b, a);
    let qb = b / a;
    let qc = c / b;
    vstd::arithmetic::div_mod::lemma_fundamental_div_mod(b, a);
    vstd::arithmetic::div_mod::lemma_fundamental_div_mod(c, b);
    assert(c == (qc * qb) * a) by (nonlinear_arith)
        requires
            c == b * qc + 0,
            b == a * qb + 0,
    ;
    vstd::arithmetic::div_mod::lemma_mod_multiples_basic(qc * qb, a);
}

/// What aggregating `value_count` base values (all finite when `values_finite`)
/// into non-overlapping blocks of `factor` yields: the number of blocks, or why
/// it cannot be done.
pub open spec fn chunks_outcome(value_count: nat, values_finite: bool, factor: nat) -> core::result::Result<
    nat,
    Seq<char>,
> {
    if value_count == 0 {
        Err("temporal series must contain at least one value"@)
    } else if !values_finite {
        Err("temporal series values must be finite"@)
    } else if factor == 0 {
        Err("temporal aggregation factor must be positive"@)
    } else if value_count % factor != 0 {
        Err(
            "series length "@ + decimal(value_count) + " is not divisible by temporal aggregation factor "@ + decimal(
                factor,
            ),
        )
    } else {
        Ok(value_count / factor)
    }
}

/// The number of non-overlapping blocks of `factor` base values that a series
/// of `value_count` values (finite when `values_finite`) aggregates into; the
/// series must be non-empty and finite and its length a multiple of `factor`.
pub fn non_overlapping_chunks(value_count: usize, values_finite: bool, factor: usize) -> (r: Result<usize>)
    ensures
        match r {
            Ok(blocks) => chunks_outcome(value_count as nat, values_finite, factor as nat) == Ok::<nat, Seq<char>>(
                blocks as nat,
            ),
            Err(e) => chunks_outcome(value_count as nat, values_finite, factor as nat) == Err::<nat, Seq<char>>(
                e.text(),
            ),
        },
{
    if value_count == 0 {
        return Err(invalid_input("temporal series must contain at least one value"));
    }
    if !values_finite {
        return Err(invalid_input("temporal series values must be finite"));
    }
    if factor == 0 {
        return Err(invalid_input("temporal aggregation factor must be positive"));
    }
    if value_count % factor != 0 {
        let length = decimal_text(value_count);
        let divisor = decimal_text(factor);
        let head = join3("series length ", length.as_str(), " is not divisible by temporal aggregation factor ");
        return Err(CartoBoostError::InvalidInput(head.concat(divisor.as_str())));
    }
    Ok(value_count / factor)
}

/// One level of an aggregated series: its name, how many base periods each of
/// its values spans, and how many values it has.
#[derive(Clone, Debug, PartialEq, Eq)]
pub struct TemporalLevelLayout {
    pub name: String,
    pub factor: usize,
    pub length: usize,
}

/// The first aggregation from position `i` on that cannot aggregate the series.
pub open spec fn levels_issue_from(aggregations: Seq<TemporalAggregation>, value_count: nat, i: int) -> Option<
    Seq<char>,
>
    decreases aggregations.len() - i,
{
    if i >= aggregations.len() || i < 0 {
        None
    } else {
        match chunks_outcome(value_count, true, aggregations[i].factor as nat) {
            Err(message) => Some(message),
            Ok(_) => levels_issue_from(aggregations, value_count, i + 1),
        }
    }
}

/// Why a series of `value_count` values cannot be aggregated along the levels,
/// if it cannot.
pub open spec fn levels_issue(aggregations: Seq<TemporalAggregation>, value_count: nat, values_finite: bool) -> Option<
    Seq<char>,
> {
    match chunks_outcome(value_count, values_finite, 1) {
        Err(message) => Some(message),
        Ok(_) => levels_issue_from(aggregations, value_count, 0),
    }
}

/// The layout of a series aggregated along the levels: the base level, then
/// one per aggregation.
pub open spec fn levels_match(
    base_name: Seq<char>,
    aggregations: Seq<TemporalAggregation>,
    value_count: nat,
    levels: Seq<TemporalLevelLayout>,
) -> bool {
    &&& levels.len() == aggregations.len() + 1
    &&& levels[0].name@ == base_name && levels[0].factor == 1 && levels[0].length == value_count
    &&& forall|i: int|
        0 <= i < aggregations.len() ==> (#[trigger] levels[i + 1]).name@ == aggregations[i].name@
            && levels[i + 1].factor == aggregations[i].factor && levels[i + 1].factor > 0 && levels[i + 1].length
            == value_count / (aggregations[i].factor as nat)
}

/// What the aggregation of a panel reads of one series: its id, its length and
/// whether all its values are finite.
#[derive(Clone, Debug, PartialEq, Eq)]
pub struct TemporalSeriesFacts {
    pub series_id: String,
    pub value_count: usize,
    pub values_finite: bool,
}

/// The first series from position `s` on that cannot be aggregated.
pub open spec fn panel_issue_from(aggregations: Seq<TemporalAggregation>, series: Seq<TemporalSeriesFacts>, s: int) -> Option<
    Seq<char>,
>
    decreases series.len() - s,
{
    if s >= series.len() || s < 0 {
        None
    } else if levels_issue(aggregations, series[s].value_count as nat, series[s].values_finite) is Some {
        levels_issue(aggregations, series[s].value_count as nat, series[s].values_finite)
    } else {
        panel_issue_from(aggregations, series, s + 1)
    }
}

/// Why a panel cannot be aggregated along the levels, if it cannot.
pub open spec fn panel_issue(aggregations: Seq<TemporalAggregation>, series: Seq<TemporalSeriesFacts>) -> Option<Seq<char>> {
    if series.len() == 0 {
        Some("temporal panel must contain at least one series"@)
    } else {
        panel_issue_from(aggregations, series, 0)
    }
}

impl TemporalHierarchy {
    /// The levels a series of `value_count` values (finite when
    /// `values_finite`) aggregates into: the base level with every value, then
    /// each aggregation with one value per block of its factor.
    pub fn series_levels(&self, value_count: usize, values_finite: bool) -> (r: Result<Vec<TemporalLevelLayout>>)
        ensures
            match r {
                Ok(levels) => levels_issue(self.spec_aggregations(), value_count as nat, values_finite) is None
                    && levels_match(self.spec_base_name(), self.spec_aggregations(), value_count as nat, levels@),
                Err(e) => levels_issue(self.spec_aggregations(), value_count as nat, values_finite) == Some(e.text()),
            },
    {
        let base_length = match non_overlapping_chunks(value_count, values_finite, 1) {
            Ok(length) => length,
            Err(e) => {
                return Err(e);
            },
        };
        let mut levels: Vec<TemporalLevelLayout> = Vec::new();
        levels.push(TemporalLevelLayout { name: self.base_name.clone(), factor: 1, length: base_length });
        let mut i: usize = 0;
        while i < self.aggregations.len()
            invariant
                i <= self.aggregations@.len(),
                value_count > 0,
                values_finite,
                base_length == value_count,
                levels@.len() == i + 1,
                levels@[0].name@ == self.base_name@ && levels@[0].factor == 1 && levels@[0].length == value_count,
                forall|k: int|
                    0 <= k < i ==> (#[trigger] levels@[k + 1]).name@ == self.aggregations@[k].name@
                        && levels@[k + 1].factor == self.aggregations@[k].factor && levels@[k + 1].factor > 0
                        && levels@[k + 1].length == value_count as nat / (self.aggregations@[k].factor as nat),
                levels_issue(self.aggregations@, value_count as nat, values_finite) == levels_issue_from(
                    self.aggregations@,
                    value_count as nat,
                    i as int,
                ),
            decreases self.aggregations.len() - i,
        {
            let aggregation = &self.aggregations[i];
            let length = match non_overlapping_chunks(value_count, true, aggregation.factor) {
                Ok(length) => length,
                Err(e) => {
                    return Err(e);
                },
            };
            levels.push(TemporalLevelLayout { name: aggregation.name.clone(), factor: aggregation.factor, length });
            i = i + 1;
        }
        Ok(levels)
    }

    /// The levels each series of a panel aggregates into, series by series; the
    /// panel must hold at least one series.
    pub fn panel_levels(&self, series: &Vec<TemporalSeriesFacts>) -> (r: Result<Vec<Vec<TemporalLevelLayout>>>)
        ensures
            match r {
                Ok(panel) => panel_issue(self.spec_aggregations(), series@) is None && panel@.len() == series@.len()
                    && forall|s: int|
                    0 <= s < series@.len() ==> levels_match(
                        self.spec_base_name(),
                        self.spec_aggregations(),
                        series@[s].value_count as nat,
                        #[trigger] panel@[s]@,
                    ),
                Err(e) => panel_issue(self.spec_aggregations(), series@) == Some(e.text()),
            },
    {
        if series.len() == 0 {
            return Err(invalid_input("temporal panel must contain at least one series"));
        }
        let mut panel: Vec<Vec<TemporalLevelLayout>> = Vec::new();
        let mut s: usize = 0;
        while s < series.len()
            invariant
                s <= series@.len(),
                series@.len() > 0,
                panel@.len() == s,
                forall|t: int|
                    0 <= t < s ==> levels_match(
                        self.spec_base_name(),
                        self.spec_aggregations(),
                        series@[t].value_count as nat,
                        #[trigger] panel@[t]@,
                    ),
                panel_issue(self.spec_aggregations(), series@) == panel_issue_from(
                    self.spec_aggregations(),
                    series@,
                    s as int,
                ),
            decreases series.len() - s,
        {
            let levels = match self.series_levels(series[s].value_count, series[s].values_finite) {
                Ok(levels) => levels,
                Err(e) => {
                    return Err(e);
                },
            };
            panel.push(levels);
            s = s + 1;
        }
        Ok(panel)
    }
}

proof fn lemma_levels_from(aggregations: Seq<TemporalAggregation>, value_count: nat, i: int)
    requires
        0 <= i <= aggregations.len(),
        value_count > 0,
        forall|k: int| i <= k < aggregations.len() ==> (#[trigger] aggregations[k]).factor > 0 && value_count
            % (aggregations[k].factor as nat) == 0,
    ensures
        levels_issue_from(aggregations, value_count, i) is None,
    decreases aggregations.len() - i,
{
    if i < aggregations.len() {
        assert(aggregations[i].factor > 0);
        lemma_levels_from(aggregations, value_count, i + 1);
    }
}

/// Along aggregation levels that pass the hierarchy's checks, a non-empty
/// finite series whose length the coarsest factor divides aggregates at every
/// level: each finer factor divides the coarsest one.
pub proof fn lemma_coarsest_factor_suffices(
    base_name: Seq<char>,
    aggregations: Seq<TemporalAggregation>,
    value_count: nat,
)
    requires
        hierarchy_outcome(base_name, aggregations) is Ok,
        aggregations.len() > 0,
        value_count > 0,
        value_count % (aggregations.last().factor as nat) == 0,
    ensures
        levels_issue(aggregations, value_count, true) is None,
{
    let fs = factors(aggregations);
    lemma_nested_factors(fs, 1);
    let last = aggregations.len() - 1;
    assert forall|k: int| 0 <= k < aggregations.len() implies (#[trigger] aggregations[k]).factor > 0
        && value_count % (aggregations[k].factor as nat) == 0 by {
        assert(fs[k] == aggregations[k].factor);
        assert(fs[k] > 1);
        if k < last {
            assert(fs[last] % fs[k] == 0);
            lemma_mod_transitive(value_count as int, fs[last] as int, fs[k] as int);
        }
    }
    lemma_levels_from(aggregations, value_count, 0);
}

} // verus!
