//! Training objectives: the task each one serves, its output layout, and the
//! grouping of ranking rows into queries.
use vstd::prelude::*;
use crate::error::{invalid_input, outcome, Result};

verus! {

/// Broad modeling family served by an objective.
#[derive(Debug, Clone, Copy, PartialEq, Eq, Structural)]
pub enum ObjectiveTask {
    /// Continuous target regression.
    Regression,
    /// Two-class classification with one raw margin per row.
    BinaryClassification,
    /// Multiclass classification with row-major class margins.
    MulticlassClassification,
    /// Grouped relevance ranking.
    Ranking,
}

/// Transform applied to raw model margins before user-facing prediction.
#[derive(Debug, Clone, Copy, PartialEq, Eq, Structural)]
pub enum PredictionTransformKind {
    /// Return raw margins unchanged.
    Identity,
    /// Apply a logistic sigmoid to each raw margin.
    Sigmoid,
    /// Apply row-wise softmax across the objective output dimension.
    Softmax,
}

/// Squared-error regression objective.
#[derive(Debug, Clone, Copy, Default, PartialEq, Eq)]
pub struct L2Objective;

/// Binary logistic loss objective for 0/1 targets.
#[derive(Debug, Clone, Copy, Default, PartialEq, Eq)]
pub struct BinaryLogLossObjective;

/// Multiclass logistic loss objective for integer class-id targets.
#[derive(Debug, Clone, Copy, PartialEq, Eq)]
pub struct MulticlassLogLossObjective {
    /// Number of classes represented in each row-major raw prediction block.
    pub class_count: usize,
}

/// Pairwise logistic ranking objective over query/document groups.
#[derive(Debug, Clone, Copy, Default, PartialEq, Eq)]
pub struct PairwiseLogitObjective;

/// Pairwise ranking objective with NDCG-delta weighted gradients.
#[derive(Debug, Clone, Copy, Default, PartialEq, Eq)]
pub struct LambdaRankObjective;

/// Poisson count objective with a log link.
#[derive(Debug, Clone, Copy, Default, PartialEq, Eq)]
pub struct PoissonObjective;

/// Two-part objective: a zero/positive gate plus a count objective for positives.
#[derive(Debug, Clone, Copy, PartialEq, Eq)]
pub struct HurdleObjective<T> {
    pub positive_objective: T,
}

impl<T> HurdleObjective<T> {
    /// Wraps a count objective for the positive part.
    pub fn new(positive_objective: T) -> (objective: Self)
        ensures
            objective.positive_objective == positive_objective,
    {
        Self { positive_objective }
    }
}

impl L2Objective {
    /// Stable objective identifier.
    pub fn name(&self) -> (name: &'static str)
        ensures
            name@ == "l2"@,
    {
        "l2"
    }

    /// Modeling task family.
    pub fn task(&self) -> (task: ObjectiveTask)
        ensures
            task == ObjectiveTask::Regression,
    {
        ObjectiveTask::Regression
    }

    /// Raw outputs per training row.
    pub fn output_dimension(&self) -> (dimension: usize)
        ensures
            dimension == 1,
    {
        1
    }

    /// Transform of raw margins into predictions.
    pub fn prediction_transform(&self) -> (transform: PredictionTransformKind)
        ensures
            transform == PredictionTransformKind::Identity,
    {
        PredictionTransformKind::Identity
    }
}

impl BinaryLogLossObjective {
    /// Stable objective identifier.
    pub fn name(&self) -> (name: &'static str)
        ensures
            name@ == "binary_logloss"@,
    {
        "binary_logloss"
    }

    /// Modeling task family.
    pub fn task(&self) -> (task: ObjectiveTask)
        ensures
            task == ObjectiveTask::BinaryClassification,
    {
        ObjectiveTask::BinaryClassification
    }

    /// Raw outputs per training row.
    pub fn output_dimension(&self) -> (dimension: usize)
        ensures
            dimension == 1,
    {
        1
    }

    /// Transform of raw margins into predictions.
    pub fn prediction_transform(&self) -> (transform: PredictionTransformKind)
        ensures
            transform == PredictionTransformKind::Sigmoid,
    {
        PredictionTransformKind::Sigmoid
    }
}

/// What `MulticlassLogLossObjective::new` yields.
pub open spec fn multiclass_outcome(class_count: usize) -> core::result::Result<
    MulticlassLogLossObjective,
    Seq<char>,
> {
    if class_count < 2 {
        Err("multiclass_logloss requires at least two classes"@)
    } else {
        Ok(MulticlassLogLossObjective { class_count })
    }
}

impl MulticlassLogLossObjective {
    /// Multiclass objective over `class_count` classes; at least two are required.
    pub fn new(class_count: usize) -> (r: Result<Self>)
        ensures
            outcome(r) == multiclass_outcome(class_count),
    {
        if class_count < 2 {
            return Err(invalid_input("multiclass_logloss requires at least two classes"));
        }
        Ok(Self { class_count })
    }

    /// Stable objective identifier.
    pub fn name(&self) -> (name: &'static str)
        ensures
            name@ == "multiclass_logloss"@,
    {
        "multiclass_logloss"
    }

    /// Modeling task family.
    pub fn task(&self) -> (task: ObjectiveTask)
        ensures
            task == ObjectiveTask::MulticlassClassification,
    {
        ObjectiveTask::MulticlassClassification
    }

    /// Raw outputs per training row: one margin per class.
    pub fn output_dimension(&self) -> (dimension: usize)
        ensures
            dimension == self.class_count,
    {
        self.class_count
    }

    /// Transform of raw margins into predictions.
    pub fn prediction_transform(&self) -> (transform: PredictionTransformKind)
        ensures
            transform == PredictionTransformKind::Softmax,
    {
        PredictionTransformKind::Softmax
    }
}

impl PairwiseLogitObjective {
    /// Stable objective identifier.
    pub fn name(&self) -> (name: &'static str)
        ensures
            name@ == "pairwise_logit"@,
    {
        "pairwise_logit"
    }

    /// Modeling task family.
    pub fn task(&self) -> (task: ObjectiveTask)
        ensures
            task == ObjectiveTask::Ranking,
    {
        ObjectiveTask::Ranking
    }

    /// Raw outputs per training row.
    pub fn output_dimension(&self) -> (dimension: usize)
        ensures
            dimension == 1,
    {
        1
    }

    /// Transform of raw margins into predictions.
    pub fn prediction_transform(&self) -> (transform: PredictionTransformKind)
        ensures
            transform == PredictionTransformKind::Identity,
    {
        PredictionTransformKind::Identity
    }
}

impl LambdaRankObjective {
    /// Stable objective identifier.
    pub fn name(&self) -> (name: &'static str)
        ensures
            name@ == "lambdarank"@,
    {
        "lambdarank"
    }

    /// Modeling task family.
    pub fn task(&self) -> (task: ObjectiveTask)
        ensures
            task == ObjectiveTask::Ranking,
    {
        ObjectiveTask::Ranking
    }

    /// Raw outputs per training row.
    pub fn output_dimension(&self) -> (dimension: usize)
        ensures
            dimension == 1,
    {
        1
    }

    /// Transform of raw margins into predictions.
    pub fn prediction_transform(&self) -> (transform: PredictionTransformKind)
        ensures
            transform == PredictionTransformKind::Identity,
    {
        PredictionTransformKind::Identity
    }
}

/// What grouping the ranking rows from position `start` on by the sizes `groups`
/// yields: consecutive `(start, end)` position ranges, or the first violation.
pub open spec fn groups_outcome(groups: Seq<usize>, start: int, row_count: int) -> core::result::Result<
    Seq<(int, int)>,
    Seq<char>,
>
    decreases groups.len(),
{
    if groups.len() == 0 {
        if start != row_count {
            Err("ranking group sizes must sum to target length"@)
        } else {
            Ok(seq![])
        }
    } else if groups[0] == 0 {
        Err("ranking groups must be positive sizes"@)
    } else if start + groups[0] > row_count {
        Err("ranking group sizes exceed target length"@)
    } else {
        match groups_outcome(groups.drop_first(), start + groups[0], row_count) {
            Ok(rest) => Ok(seq![(start, start + groups[0])] + rest),
            Err(message) => Err(message),
        }
    }
}

/// What `group_ranges` yields: one range over all rows without groups.
pub open spec fn group_ranges_outcome(groups: Option<Seq<usize>>, row_count: int) -> core::result::Result<
    Seq<(int, int)>,
    Seq<char>,
> {
    match groups {
        None => Ok(seq![(0, row_count)]),
        Some(sizes) => groups_outcome(sizes, 0, row_count),
    }
}

/// Position ranges of a list of ranges.
pub open spec fn range_bounds(ranges: Seq<core::ops::Range<usize>>) -> Seq<(int, int)> {
    ranges.map_values(|r: core::ops::Range<usize>| (r.start as int, r.end as int))
}

/// Splits `row_count` ranking rows into consecutive query groups of the given sizes.
pub fn group_ranges(groups: Option<&[usize]>, row_count: usize) -> (r: Result<
    Vec<core::ops::Range<usize>>,
>)
    ensures
        match r {
            Ok(ranges) => group_ranges_outcome(
                match groups {
                    Some(g) => Some(g@),
                    None => None,
                },
                row_count as int,
            ) == Ok::<Seq<(int, int)>, Seq<char>>(range_bounds(ranges@)),
            Err(e) => group_ranges_outcome(
                match groups {
                    Some(g) => Some(g@),
                    None => None,
                },
                row_count as int,
            ) == Err::<Seq<(int, int)>, Seq<char>>(e.text()),
        },
{
    let sizes = match groups {
        None => {
            let mut single: Vec<core::ops::Range<usize>> = Vec::new();
            single.push(0..row_count);
            assert(range_bounds(single@) =~= seq![(0int, row_count as int)]);
            return Ok(single);
        },
        Some(sizes) => sizes,
    };
    proof {
        assert(sizes@.skip(0) =~= sizes@);
        match groups_outcome(sizes@, 0, row_count as int) {
            Ok(rest) => {
                assert(range_bounds(Seq::<core::ops::Range<usize>>::empty()) + rest =~= rest);
            },
            Err(_) => {},
        }
    }
    let mut ranges: Vec<core::ops::Range<usize>> = Vec::new();
    let mut start: usize = 0;
    let mut k: usize = 0;
    while k < sizes.len()
        invariant
            k <= sizes@.len(),
            start <= row_count,
            groups == Some(sizes),
            groups_outcome(sizes@, 0, row_count as int) == (match groups_outcome(
                sizes@.skip(k as int),
                start as int,
                row_count as int,
            ) {
                Ok(rest) => Ok(range_bounds(ranges@) + rest),
                Err(message) => Err(message),
            }),
        decreases sizes.len() - k,
    {
        let size = sizes[k];
        let ghost tail = sizes@.skip(k as int);
        assert(tail[0] == size);
        assert(tail.drop_first() =~= sizes@.skip(k + 1));
        if size == 0 {
            return Err(invalid_input("ranking groups must be positive sizes"));
        }
        if size > row_count - start {
            return Err(invalid_input("ranking group sizes exceed target length"));
        }
        let end = start + size;
        let ghost before = ranges@;
        ranges.push(start..end);
        assert(range_bounds(ranges@) =~= range_bounds(before).push((start as int, end as int)));
        proof {
            let inner = groups_outcome(sizes@.skip(k + 1), end as int, row_count as int);
            match inner {
                Ok(rest) => {
                    assert(range_bounds(before) + (seq![(start as int, end as int)] + rest)
                        =~= range_bounds(ranges@) + rest);
                },
                Err(_) => {},
            }
        }
        start = end;
        k = k + 1;
    }
    assert(sizes@.skip(k as int) =~= Seq::<usize>::empty());
    if start != row_count {
        return Err(invalid_input("ranking group sizes must sum to target length"));
    }
    assert(range_bounds(ranges@) + Seq::<(int, int)>::empty() =~= range_bounds(ranges@));
    Ok(ranges)
}

} // verus!
