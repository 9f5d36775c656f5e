//! Structural validation of sequence series: known prefixes, prediction masks, and
//! leakage checks for out-of-fold meta-training rows.
use vstd::prelude::*;
use crate::error::{invalid_input, outcome, CartoBoostError, Result};
use crate::lex::{insert_name, lemma_lex_irreflexive, lex_increasing, lex_lt, name_views};
use crate::text::{is_blank, is_blank_str, join3, str_eq};

verus! {

/// Number of leading rows of a series whose targets are known.
#[derive(Debug, Clone, Copy, PartialEq, Eq, Structural)]
pub struct KnownPrefix {
    pub row_count: usize,
}

/// Row ids of the rows that a sequence model has to predict, in order.
#[derive(Debug, Clone, PartialEq, Eq)]
pub struct PredictionMask {
    pub row_ids: Vec<String>,
}

/// Optional value of a sequence row, in the order in which rows are checked.
#[derive(Debug, Clone, Copy, PartialEq, Eq, Structural)]
pub enum SequenceValue {
    Target,
    ReferenceAxis,
    ReferenceSignal,
    AuxiliaryRate,
}

/// What the structural checks of a sequence row read: its id, whether its
/// position is finite and above the previous row's, the first optional value that
/// is present but not finite, and whether its target is known.
#[derive(Debug, Clone, PartialEq, Eq)]
pub struct SequenceRowFacts {
    pub row_id: String,
    pub position_ordered: bool,
    pub non_finite: Option<SequenceValue>,
    pub has_target: bool,
}

/// Error text for a present but non-finite optional value.
pub open spec fn non_finite_message(value: SequenceValue) -> Seq<char> {
    match value {
        SequenceValue::Target => "sequence targets must be finite when provided"@,
        SequenceValue::ReferenceAxis => "sequence reference axes must be finite when provided"@,
        SequenceValue::ReferenceSignal => "sequence reference signals must be finite when provided"@,
        SequenceValue::AuxiliaryRate => "sequence auxiliary rates must be finite when provided"@,
    }
}

/// Row `i` repeats the id of an earlier row.
pub open spec fn repeats_earlier_id(rows: Seq<SequenceRowFacts>, i: int) -> bool {
    exists|j: int| 0 <= j < i && #[trigger] rows[j].row_id@ == rows[i].row_id@
}

/// Scans the rows from position `i` on, with `prefix` known targets seen and
/// `saw_prediction` telling whether a row without target came already; yields the
/// known-prefix length or the first violation.
pub open spec fn rows_outcome(rows: Seq<SequenceRowFacts>, i: int, prefix: nat, saw_prediction: bool)
    -> core::result::Result<nat, Seq<char>>
    decreases rows.len() - i,
{
    if i >= rows.len() {
        Ok(prefix)
    } else {
        let row = rows[i];
        if is_blank(row.row_id@) {
            Err("sequence row_id must be non-empty"@)
        } else if repeats_earlier_id(rows, i) {
            Err("duplicate sequence row_id '"@ + row.row_id@ + "'"@)
        } else if !row.position_ordered {
            Err("sequence positions must be finite and strictly ordered"@)
        } else if row.non_finite is Some {
            Err(non_finite_message(row.non_finite->0))
        } else if row.has_target && saw_prediction {
            Err(
                "target leakage: prediction rows must not contain targets after the known prefix"@,
            )
        } else if row.has_target {
            rows_outcome(rows, i + 1, prefix + 1, saw_prediction)
        } else {
            rows_outcome(rows, i + 1, prefix, true)
        }
    }
}

/// What validating a sequence series yields: the length of its known prefix, or
/// the first violation.
pub open spec fn series_outcome(series_id: Seq<char>, rows: Seq<SequenceRowFacts>) -> core::result::Result<
    nat,
    Seq<char>,
> {
    if is_blank(series_id) {
        Err("sequence series_id must be non-empty"@)
    } else if rows.len() < 2 {
        Err("sequence series requires at least two rows"@)
    } else {
        match rows_outcome(rows, 0, 0, false) {
            Err(message) => Err(message),
            Ok(prefix) => if prefix == 0 {
                Err("known prefix must be nonempty"@)
            } else if prefix == rows.len() {
                Err("prediction suffix must be nonempty"@)
            } else {
                Ok(prefix)
            },
        }
    }
}

fn repeats_earlier(rows: &[SequenceRowFacts], i: usize) -> (repeated: bool)
    requires
        i < rows@.len(),
    ensures
        repeated == repeats_earlier_id(rows@, i as int),
{
    let mut j: usize = 0;
    while j < i
        invariant
            j <= i < rows@.len(),
            forall|t: int| 0 <= t < j ==> rows@[t].row_id@ != rows@[i as int].row_id@,
        decreases i - j,
    {
        if rows[j].row_id == rows[i].row_id {
            return true;
        }
        j = j + 1;
    }
    false
}

/// Validates a sequence series and returns its known prefix: a non-empty run of
/// rows with targets followed by a non-empty run of rows to predict.
pub fn validate_sequence_series(series_id: &str, rows: &[SequenceRowFacts]) -> (r: Result<
    KnownPrefix,
>)
    ensures
        match r {
            Ok(prefix) => series_outcome(series_id@, rows@) == Ok::<nat, Seq<char>>(
                prefix.row_count as nat,
            ),
            Err(e) => series_outcome(series_id@, rows@) == Err::<nat, Seq<char>>(e.text()),
        },
{
    if is_blank_str(series_id) {
        return Err(invalid_input("sequence series_id must be non-empty"));
    }
    if rows.len() < 2 {
        return Err(invalid_input("sequence series requires at least two rows"));
    }
    let mut prefix_count: usize = 0;
    let mut saw_prediction = false;
    let mut i: usize = 0;
    while i < rows.len()
        invariant
            i <= rows@.len(),
            rows@.len() >= 2,
            !is_blank(series_id@),
            prefix_count <= i,
            rows_outcome(rows@, 0, 0, false) == rows_outcome(
                rows@,
                i as int,
                prefix_count as nat,
                saw_prediction,
            ),
        decreases rows.len() - i,
    {
        let row = &rows[i];
        if is_blank_str(row.row_id.as_str()) {
            return Err(invalid_input("sequence row_id must be non-empty"));
        }
        if repeats_earlier(rows, i) {
            let message = join3("duplicate sequence row_id '", row.row_id.as_str(), "'");
            return Err(CartoBoostError::InvalidInput(message));
        }
        if !row.position_ordered {
            return Err(invalid_input("sequence positions must be finite and strictly ordered"));
        }
        match row.non_finite {
            Some(SequenceValue::Target) => {
                return Err(invalid_input("sequence targets must be finite when provided"));
            },
            Some(SequenceValue::ReferenceAxis) => {
                return Err(invalid_input("sequence reference axes must be finite when provided"));
            },
            Some(SequenceValue::ReferenceSignal) => {
                return Err(invalid_input("sequence reference signals must be finite when provided"));
            },
            Some(SequenceValue::AuxiliaryRate) => {
                return Err(invalid_input("sequence auxiliary rates must be finite when provided"));
            },
            None => {},
        }
        if row.has_target {
            if saw_prediction {
                return Err(
                    invalid_input(
                        "target leakage: prediction rows must not contain targets after the known prefix",
                    ),
                );
            }
            prefix_count = prefix_count + 1;
        } else {
            saw_prediction = true;
        }
        i = i + 1;
    }
    if prefix_count == 0 {
        return Err(invalid_input("known prefix must be nonempty"));
    }
    if prefix_count == rows.len() {
        return Err(invalid_input("prediction suffix must be nonempty"));
    }
    Ok(KnownPrefix { row_count: prefix_count })
}

/// What the checks of a sequence frame read of one series: its id and rows.
#[derive(Debug, Clone, PartialEq, Eq)]
pub struct SequenceSeriesFacts {
    pub series_id: String,
    pub rows: Vec<SequenceRowFacts>,
}

/// Some series before position `i` has the id of series `i`.
pub open spec fn repeats_series_id(series: Seq<SequenceSeriesFacts>, i: int) -> bool {
    exists|j: int| 0 <= j < i && #[trigger] series[j].series_id@ == series[i].series_id@
}

/// The first problem of a sequence frame's series from position `i` on.
pub open spec fn frame_series_issue(series: Seq<SequenceSeriesFacts>, i: int) -> Option<Seq<char>>
    decreases series.len() - i,
{
    if i >= series.len() || i < 0 {
        None
    } else {
        match series_outcome(series[i].series_id@, series[i].rows@) {
            Err(message) => Some(message),
            Ok(_) => if repeats_series_id(series, i) {
                Some("duplicate sequence series_id '"@ + series[i].series_id@ + "'"@)
            } else {
                frame_series_issue(series, i + 1)
            },
        }
    }
}

/// What validating a sequence frame yields.
pub open spec fn sequence_frame_issue(series: Seq<SequenceSeriesFacts>) -> Option<Seq<char>> {
    if series.len() == 0 {
        Some("sequence frame requires at least one series"@)
    } else {
        frame_series_issue(series, 0)
    }
}

fn repeats_series(series: &[SequenceSeriesFacts], i: usize) -> (repeated: bool)
    requires
        i < series@.len(),
    ensures
        repeated == repeats_series_id(series@, i as int),
{
    let mut j: usize = 0;
    while j < i
        invariant
            j <= i < series@.len(),
            forall|t: int| 0 <= t < j ==> #[trigger] series@[t].series_id@ != series@[i as int].series_id@,
        decreases i - j,
    {
        if series[j].series_id == series[i].series_id {
            return true;
        }
        j = j + 1;
    }
    false
}

/// Validates a sequence frame: at least one series, each valid, no series id twice.
pub fn validate_sequence_frame(series: &[SequenceSeriesFacts]) -> (r: Result<()>)
    ensures
        match r {
            Ok(_) => sequence_frame_issue(series@) is None,
            Err(e) => sequence_frame_issue(series@) == Some(e.text()),
        },
{
    if series.len() == 0 {
        return Err(invalid_input("sequence frame requires at least one series"));
    }
    let mut i: usize = 0;
    while i < series.len()
        invariant
            i <= series@.len(),
            series@.len() > 0,
            sequence_frame_issue(series@) == frame_series_issue(series@, i as int),
        decreases series.len() - i,
    {
        validate_sequence_series(series[i].series_id.as_str(), series[i].rows.as_slice())?;
        if repeats_series(series, i) {
            return Err(
                CartoBoostError::InvalidInput(
                    join3("duplicate sequence series_id '", series[i].series_id.as_str(), "'"),
                ),
            );
        }
        i = i + 1;
    }
    Ok(())
}

/// A validated series has its targets exactly on the known prefix: every row
/// before the prefix end has a target and no row after it has one.
pub proof fn lemma_known_prefix_layout(series_id: Seq<char>, rows: Seq<SequenceRowFacts>, prefix: nat)
    requires
        series_outcome(series_id, rows) == Ok::<nat, Seq<char>>(prefix),
    ensures
        0 < prefix < rows.len(),
        forall|i: int| 0 <= i < rows.len() ==> (#[trigger] rows[i].has_target <==> i < prefix),
{
    lemma_rows_outcome_layout(rows, 0, 0, false, prefix);
}

proof fn lemma_rows_outcome_layout(
    rows: Seq<SequenceRowFacts>,
    i: int,
    count: nat,
    saw_prediction: bool,
    prefix: nat,
)
    requires
        0 <= i <= rows.len(),
        rows_outcome(rows, i, count, saw_prediction) == Ok::<nat, Seq<char>>(prefix),
        !saw_prediction ==> count == i,
    ensures
        saw_prediction ==> prefix == count && forall|k: int|
            i <= k < rows.len() ==> !(#[trigger] rows[k].has_target),
        !saw_prediction ==> i <= prefix <= rows.len() && forall|k: int|
            i <= k < rows.len() ==> (#[trigger] rows[k].has_target <==> k < prefix),
    decreases rows.len() - i,
{
    if i < rows.len() {
        let row = rows[i];
        if row.has_target {
            lemma_rows_outcome_layout(rows, i + 1, count + 1, saw_prediction, prefix);
        } else {
            lemma_rows_outcome_layout(rows, i + 1, count, true, prefix);
        }
    }
}

/// Validates a series and lists the ids of the rows after its known prefix.
pub fn prediction_mask(series_id: &str, rows: &[SequenceRowFacts]) -> (r: Result<PredictionMask>)
    ensures
        match r {
            Ok(mask) => series_outcome(series_id@, rows@) is Ok && mask.row_ids@.len()
                == rows@.len() - series_outcome(series_id@, rows@)->Ok_0 && forall|k: int|
                0 <= k < mask.row_ids@.len() ==> #[trigger] mask.row_ids@[k]@ == rows@[k
                    + series_outcome(series_id@, rows@)->Ok_0].row_id@,
            Err(e) => series_outcome(series_id@, rows@) == Err::<nat, Seq<char>>(e.text()),
        },
{
    let prefix = validate_sequence_series(series_id, rows)?;
    proof {
        lemma_known_prefix_layout(series_id@, rows@, prefix.row_count as nat);
    }
    let mut row_ids: Vec<String> = Vec::new();
    let mut i: usize = prefix.row_count;
    while i < rows.len()
        invariant
            prefix.row_count <= i <= rows@.len(),
            row_ids@.len() == i - prefix.row_count,
            forall|k: int| 0 <= k < row_ids@.len() ==> #[trigger] row_ids@[k]@ == rows@[k
                + prefix.row_count].row_id@,
        decreases rows.len() - i,
    {
        row_ids.push(rows[i].row_id.clone());
        i = i + 1;
    }
    Ok(PredictionMask { row_ids })
}

/// What the leakage checks of an out-of-fold meta-training row read: its ids,
/// whether its actual and candidate predictions are finite, and its training groups.
#[derive(Debug, Clone, PartialEq, Eq)]
pub struct OofRowFacts {
    pub group_id: String,
    pub row_id: String,
    pub values_finite: bool,
    pub train_group_ids: Vec<String>,
}

/// The row's own group appears among its training groups.
pub open spec fn trains_on_own_group(row: OofRowFacts) -> bool {
    exists|k: int|
        0 <= k < row.train_group_ids@.len() && #[trigger] row.train_group_ids@[k]@ == row.group_id@
}

/// The first violation of one meta-training row, if any.
pub open spec fn oof_row_issue(row: OofRowFacts) -> Option<Seq<char>> {
    if is_blank(row.group_id@) || is_blank(row.row_id@) {
        Some("OOF group_id and row_id must be non-empty"@)
    } else if !row.values_finite {
        Some("OOF actuals and candidate predictions must be finite"@)
    } else if trains_on_own_group(row) {
        Some(
            "leakage check failed: validation group '"@ + row.group_id@
                + "' appears in its training groups"@,
        )
    } else {
        None
    }
}

/// What validating meta-training rows from position `i` on yields.
pub open spec fn oof_rows_outcome(rows: Seq<OofRowFacts>, i: int) -> core::result::Result<
    (),
    Seq<char>,
>
    decreases rows.len() - i,
{
    if i >= rows.len() {
        Ok(())
    } else {
        match oof_row_issue(rows[i]) {
            Some(message) => Err(message),
            None => oof_rows_outcome(rows, i + 1),
        }
    }
}

/// What `validate_oof_meta_training` yields.
pub open spec fn oof_outcome(rows: Seq<OofRowFacts>) -> core::result::Result<(), Seq<char>> {
    if rows.len() == 0 {
        Err("OOF meta-training rows must be nonempty"@)
    } else {
        oof_rows_outcome(rows, 0)
    }
}

fn trains_on_own(row: &OofRowFacts) -> (own: bool)
    ensures
        own == trains_on_own_group(*row),
{
    let mut k: usize = 0;
    while k < row.train_group_ids.len()
        invariant
            k <= row.train_group_ids@.len(),
            forall|t: int| 0 <= t < k ==> row.train_group_ids@[t]@ != row.group_id@,
        decreases row.train_group_ids.len() - k,
    {
        if row.train_group_ids[k] == row.group_id {
            return true;
        }
        k = k + 1;
    }
    false
}

/// Validates out-of-fold meta-training rows: non-empty ids, finite values, and no
/// row whose own group appears among the groups it was trained on.
pub fn validate_oof_meta_training(rows: &[OofRowFacts]) -> (r: Result<()>)
    ensures
        outcome(r) == oof_outcome(rows@),
{
    if rows.len() == 0 {
        return Err(invalid_input("OOF meta-training rows must be nonempty"));
    }
    let mut i: usize = 0;
    while i < rows.len()
        invariant
            i <= rows@.len(),
            rows@.len() > 0,
            oof_outcome(rows@) == oof_rows_outcome(rows@, i as int),
        decreases rows.len() - i,
    {
        let row = &rows[i];
        if is_blank_str(row.group_id.as_str()) || is_blank_str(row.row_id.as_str()) {
            return Err(invalid_input("OOF group_id and row_id must be non-empty"));
        }
        if !row.values_finite {
            return Err(invalid_input("OOF actuals and candidate predictions must be finite"));
        }
        if trains_on_own(row) {
            let message = join3(
                "leakage check failed: validation group '",
                row.group_id.as_str(),
                "' appears in its training groups",
            );
            return Err(CartoBoostError::InvalidInput(message));
        }
        i = i + 1;
    }
    Ok(())
}

/// Rows that pass validation never train on their own group.
pub proof fn lemma_validated_rows_do_not_leak(rows: Seq<OofRowFacts>, i: int)
    requires
        oof_outcome(rows) == Ok::<(), Seq<char>>(()),
        0 <= i < rows.len(),
    ensures
        !trains_on_own_group(rows[i]),
{
    lemma_oof_rows_ok(rows, 0, i);
}

proof fn lemma_oof_rows_ok(rows: Seq<OofRowFacts>, from: int, i: int)
    requires
        0 <= from <= i < rows.len(),
        oof_rows_outcome(rows, from) == Ok::<(), Seq<char>>(()),
    ensures
        oof_row_issue(rows[i]) is None,
    decreases i - from,
{
    if from < i {
        lemma_oof_rows_ok(rows, from + 1, i);
    }
}

/// What the per-group error summary reads of one prediction row: its ids and
/// whether both its actual and its prediction are finite.
#[derive(Debug, Clone, PartialEq, Eq)]
pub struct GroupPredictionFacts {
    pub group_id: String,
    pub row_id: String,
    pub values_finite: bool,
}

/// The rows of one group, by position.
#[derive(Debug, Clone, PartialEq, Eq)]
pub struct GroupRows {
    pub group_id: String,
    pub rows: Vec<usize>,
}

/// The first problem among prediction rows from position `i` on.
pub open spec fn group_rows_issue_from(rows: Seq<GroupPredictionFacts>, i: int) -> Option<Seq<char>>
    decreases rows.len() - i,
{
    if i >= rows.len() || i < 0 {
        None
    } else if is_blank(rows[i].group_id@) || is_blank(rows[i].row_id@) {
        Some("group prediction ids must be non-empty"@)
    } else if !rows[i].values_finite {
        Some("group prediction actuals and predictions must be finite"@)
    } else {
        group_rows_issue_from(rows, i + 1)
    }
}

/// Why prediction rows cannot be summarized per group, if they cannot.
pub open spec fn group_rows_issue(rows: Seq<GroupPredictionFacts>) -> Option<Seq<char>> {
    if rows.len() == 0 {
        Some("group predictions must be nonempty"@)
    } else {
        group_rows_issue_from(rows, 0)
    }
}

/// The group ids, in order.
pub open spec fn group_ids(groups: Seq<GroupRows>) -> Seq<Seq<char>> {
    groups.map_values(|g: GroupRows| g.group_id@)
}

/// `groups` holds one entry per distinct group id, in increasing order of ids,
/// each listing, in increasing order, exactly the positions of its rows.
pub open spec fn groups_match(rows: Seq<GroupPredictionFacts>, groups: Seq<GroupRows>) -> bool {
    &&& lex_increasing(group_ids(groups))
    &&& forall|g: int| 0 <= g < groups.len() ==> (#[trigger] groups[g]).rows@.len() > 0
    &&& forall|g: int, k: int|
        0 <= g < groups.len() && 0 <= k < groups[g].rows@.len() ==> (#[trigger] groups[g].rows@[k]) < rows.len()
            && rows[groups[g].rows@[k] as int].group_id@ == groups[g].group_id@
    &&& forall|g: int, k: int, l: int|
        0 <= g < groups.len() && 0 <= k < l < groups[g].rows@.len() ==> #[trigger] groups[g].rows@[k]
            < #[trigger] groups[g].rows@[l]
    &&& forall|i: int|
        #![trigger rows[i]]
        0 <= i < rows.len() ==> exists|g: int|
            0 <= g < groups.len() && (#[trigger] groups[g]).group_id@ == rows[i].group_id@ && groups[g].rows@.contains(
                i as usize,
            )
}

fn rows_of_group(rows: &Vec<GroupPredictionFacts>, group_id: &String) -> (positions: Vec<usize>)
    ensures
        forall|k: int| 0 <= k < positions@.len() ==> (#[trigger] positions@[k]) < rows@.len()
            && rows@[positions@[k] as int].group_id@ == group_id@,
        forall|k: int, l: int| 0 <= k < l < positions@.len() ==> #[trigger] positions@[k] < #[trigger] positions@[l],
        forall|i: int| 0 <= i < rows@.len() && rows@[i].group_id@ == group_id@ ==> positions@.contains(i as usize),
{
    let mut positions: Vec<usize> = Vec::new();
    let mut i: usize = 0;
    while i < rows.len()
        invariant
            i <= rows@.len(),
            forall|k: int| 0 <= k < positions@.len() ==> (#[trigger] positions@[k]) < i
                && rows@[positions@[k] as int].group_id@ == group_id@,
            forall|k: int, l: int| 0 <= k < l < positions@.len() ==> #[trigger] positions@[k] < #[trigger] positions@[l],
            forall|t: int| 0 <= t < i && rows@[t].group_id@ == group_id@ ==> positions@.contains(t as usize),
        decreases rows.len() - i,
    {
        if str_eq(rows[i].group_id.as_str(), group_id.as_str()) {
            let ghost before = positions@;
            positions.push(i);
            assert forall|t: int| 0 <= t < i + 1 && rows@[t].group_id@ == group_id@ implies positions@.contains(
                t as usize,
            ) by {
                if t < i {
                    let k = choose|k: int| 0 <= k < before.len() && before[k] == t as usize;
                    assert(positions@[k] == t as usize);
                } else {
                    assert(positions@[before.len() as int] == i);
                }
            }
        }
        i = i + 1;
    }
    positions
}

/// Checks prediction rows for a per-group error summary (non-empty, non-blank
/// ids, finite values) and groups them: one entry per group id, in increasing
/// order of ids, with the positions of its rows in order. The count of a group
/// is the length of its list.
pub fn per_group_rows(rows: &Vec<GroupPredictionFacts>) -> (r: Result<Vec<GroupRows>>)
    ensures
        match r {
            Ok(groups) => group_rows_issue(rows@) is None && groups_match(rows@, groups@),
            Err(e) => group_rows_issue(rows@) == Some(e.text()),
        },
{
    if rows.len() == 0 {
        return Err(invalid_input("group predictions must be nonempty"));
    }
    let mut i: usize = 0;
    while i < rows.len()
        invariant
            i <= rows@.len(),
            rows@.len() > 0,
            group_rows_issue(rows@) == group_rows_issue_from(rows@, i as int),
        decreases rows.len() - i,
    {
        if is_blank_str(rows[i].group_id.as_str()) || is_blank_str(rows[i].row_id.as_str()) {
            return Err(invalid_input("group prediction ids must be non-empty"));
        }
        if !rows[i].values_finite {
            return Err(invalid_input("group prediction actuals and predictions must be finite"));
        }
        i = i + 1;
    }
    let mut names: Vec<String> = Vec::new();
    let mut i: usize = 0;
    while i < rows.len()
        invariant
            i <= rows@.len(),
            lex_increasing(name_views(names@)),
            forall|s: Seq<char>| #[trigger] name_views(names@).to_set().contains(s) <==> exists|t: int|
                0 <= t < i && rows@[t].group_id@ == s,
        decreases rows.len() - i,
    {
        let ghost before = name_views(names@).to_set();
        insert_name(&mut names, rows[i].group_id.clone());
        assert forall|s: Seq<char>| #[trigger] name_views(names@).to_set().contains(s) <==> exists|t: int|
            0 <= t < i + 1 && rows@[t].group_id@ == s by {
            if s == rows@[i as int].group_id@ {
                assert(0 <= i < i + 1 && rows@[i as int].group_id@ == s);
            }
            if exists|t: int| 0 <= t < i + 1 && rows@[t].group_id@ == s {
                let t = choose|t: int| 0 <= t < i + 1 && rows@[t].group_id@ == s;
                if t < i {
                    assert(before.contains(s));
                }
            }
        }
        i = i + 1;
    }
    let mut groups: Vec<GroupRows> = Vec::new();
    let mut g: usize = 0;
    while g < names.len()
        invariant
            g <= names@.len(),
            groups@.len() == g,
            lex_increasing(name_views(names@)),
            forall|s: Seq<char>| #[trigger] name_views(names@).to_set().contains(s) <==> exists|t: int|
                0 <= t < rows@.len() && rows@[t].group_id@ == s,
            forall|h: int| 0 <= h < g ==> (#[trigger] groups@[h]).group_id@ == names@[h]@,
            forall|h: int| 0 <= h < g ==> (#[trigger] groups@[h]).rows@.len() > 0,
            forall|h: int, k: int|
                0 <= h < g && 0 <= k < groups@[h].rows@.len() ==> (#[trigger] groups@[h].rows@[k]) < rows@.len()
                    && rows@[groups@[h].rows@[k] as int].group_id@ == groups@[h].group_id@,
            forall|h: int, k: int, l: int|
                0 <= h < g && 0 <= k < l < groups@[h].rows@.len() ==> #[trigger] groups@[h].rows@[k]
                    < #[trigger] groups@[h].rows@[l],
            forall|h: int, i: int|
                0 <= h < g && 0 <= i < rows@.len() && rows@[i].group_id@ == groups@[h].group_id@
                    ==> #[trigger] groups@[h].rows@.contains(i as usize),
        decreases names.len() - g,
    {
        let positions = rows_of_group(rows, &names[g]);
        proof {
            assert(name_views(names@)[g as int] == names@[g as int]@);
            assert(name_views(names@).to_set().contains(names@[g as int]@));
            let t = choose|t: int| 0 <= t < rows@.len() && rows@[t].group_id@ == names@[g as int]@;
            assert(positions@.contains(t as usize));
        }
        groups.push(GroupRows { group_id: names[g].clone(), rows: positions });
        g = g + 1;
    }
    proof {
        assert(group_ids(groups@) =~= name_views(names@));
        assert forall|i: int| #![trigger rows@[i]] 0 <= i < rows@.len() implies exists|h: int|
            0 <= h < groups@.len() && (#[trigger] groups@[h]).group_id@ == rows@[i].group_id@
                && groups@[h].rows@.contains(i as usize) by {
            let s = rows@[i].group_id@;
            assert(name_views(names@).to_set().contains(s));
            let h = choose|h: int| 0 <= h < name_views(names@).len() && name_views(names@)[h] == s;
            assert(groups@[h].group_id@ == s);
            assert(groups@[h].rows@.contains(i as usize));
        }
    }
    Ok(groups)
}

/// Grouped rows lie in exactly one group: the group of their own id.
pub proof fn lemma_rows_in_one_group(rows: Seq<GroupPredictionFacts>, groups: Seq<GroupRows>, i: int, g: int, h: int)
    requires
        groups_match(rows, groups),
        0 <= i < rows.len(),
        0 <= g < groups.len(),
        0 <= h < groups.len(),
        groups[g].rows@.contains(i as usize),
        groups[h].rows@.contains(i as usize),
    ensures
        g == h,
        groups[g].group_id@ == rows[i].group_id@,
{
    let k = choose|k: int| 0 <= k < groups[g].rows@.len() && groups[g].rows@[k] == i as usize;
    let l = choose|l: int| 0 <= l < groups[h].rows@.len() && groups[h].rows@[l] == i as usize;
    assert(groups[g].rows@[k] < rows.len());
    assert(groups[h].rows@[l] < rows.len());
    let ids = group_ids(groups);
    assert(ids[g] == groups[g].group_id@);
    assert(ids[h] == groups[h].group_id@);
    if g < h {
        assert(lex_lt(ids[g], ids[h]));
        lemma_lex_irreflexive(ids[g]);
    } else if h < g {
        assert(lex_lt(ids[h], ids[g]));
        lemma_lex_irreflexive(ids[h]);
    }
}

} // verus!
