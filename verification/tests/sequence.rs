use cartoboost_core::oof::{
    blend_alignment, generate_group_oof_candidate_rows, prediction_map, validate_weights,
    validation_alignment, BlendWeightFacts, CandidateFacts, OofFoldFacts, PredictionFacts,
};
use cartoboost_core::sequence::{
    per_group_rows, prediction_mask, validate_oof_meta_training, GroupPredictionFacts, GroupRows, validate_sequence_frame, validate_sequence_series,
    OofRowFacts, SequenceRowFacts, SequenceSeriesFacts, SequenceValue,
};

fn row(row_id: &str, has_target: bool) -> SequenceRowFacts {
    SequenceRowFacts {
        row_id: row_id.to_string(),
        position_ordered: true,
        non_finite: None,
        has_target,
    }
}

fn series() -> Vec<SequenceRowFacts> {
    vec![row("r0", true), row("r1", true), row("r2", false), row("r3", false)]
}

#[test]
fn validates_known_prefix_and_prediction_suffix() {
    let mask = prediction_mask("pickup_zone_1", &series()).unwrap();
    assert_eq!(mask.row_ids, vec!["r2", "r3"]);
    let mut leaky = series();
    leaky[3].has_target = true;
    assert!(validate_sequence_series("pickup_zone_1", &leaky)
        .unwrap_err()
        .message()
        .contains("leakage"));
}

#[test]
fn known_prefix_counts_leading_targets() {
    let prefix = validate_sequence_series("pickup_zone_1", &series()).unwrap();
    assert_eq!(prefix.row_count, 2);
}

#[test]
fn sequence_series_reports_each_structural_error() {
    let message = |rows: &[SequenceRowFacts]| {
        validate_sequence_series("zone", rows).unwrap_err().message()
    };
    assert_eq!(
        validate_sequence_series("  ", &series()).unwrap_err().message(),
        "invalid input: sequence series_id must be non-empty"
    );
    assert_eq!(
        message(&[row("r0", true)]),
        "invalid input: sequence series requires at least two rows"
    );
    assert_eq!(
        message(&[row("r0", true), row(" ", false)]),
        "invalid input: sequence row_id must be non-empty"
    );
    assert_eq!(
        message(&[row("r0", true), row("r0", false)]),
        "invalid input: duplicate sequence row_id 'r0'"
    );
    let mut unordered = series();
    unordered[1].position_ordered = false;
    assert_eq!(
        message(&unordered),
        "invalid input: sequence positions must be finite and strictly ordered"
    );
    let mut non_finite = series();
    non_finite[2].non_finite = Some(SequenceValue::ReferenceAxis);
    assert_eq!(
        message(&non_finite),
        "invalid input: sequence reference axes must be finite when provided"
    );
    assert_eq!(
        message(&[row("r0", false), row("r1", false)]),
        "invalid input: known prefix must be nonempty"
    );
    assert_eq!(
        message(&[row("r0", true), row("r1", true)]),
        "invalid input: prediction suffix must be nonempty"
    );
}

#[test]
fn oof_validation_rejects_training_on_validation_group() {
    let rows = vec![OofRowFacts {
        group_id: "pickup_zone_1".to_string(),
        row_id: "r1".to_string(),
        values_finite: true,
        train_group_ids: vec!["pickup_zone_1".to_string()],
    }];
    assert!(validate_oof_meta_training(&rows)
        .unwrap_err()
        .message()
        .contains("leakage"));
}

#[test]
fn oof_validation_accepts_clean_rows_and_rejects_empty_input() {
    let rows = vec![OofRowFacts {
        group_id: "pickup_zone_1".to_string(),
        row_id: "r1".to_string(),
        values_finite: true,
        train_group_ids: vec!["pickup_zone_2".to_string()],
    }];
    assert!(validate_oof_meta_training(&rows).is_ok());
    assert_eq!(
        validate_oof_meta_training(&[]).unwrap_err().message(),
        "invalid input: OOF meta-training rows must be nonempty"
    );
}

fn prediction(series_id: &str, row_id: &str) -> PredictionFacts {
    PredictionFacts {
        series_id: series_id.to_string(),
        row_id: row_id.to_string(),
        value_finite: true,
    }
}

fn fold() -> OofFoldFacts {
    OofFoldFacts {
        validation_group_id: "pickup_zone_1".to_string(),
        train_group_ids: vec!["pickup_zone_2".to_string()],
        actuals: vec![prediction("pickup_zone_1", "hour_01")],
        candidates: vec![CandidateFacts {
            name: "candidate_a".to_string(),
            predictions: vec![prediction("pickup_zone_1", "hour_01")],
        }],
    }
}

#[test]
fn group_oof_generation_aligns_candidates_and_blocks_leakage() {
    let fold = fold();
    let rows = generate_group_oof_candidate_rows(&fold).unwrap();
    assert_eq!(rows.len(), 1);
    assert_eq!(rows[0].actual, 0);
    assert_eq!(rows[0].row_id, "hour_01");
    assert_eq!(rows[0].candidate_rows, vec![0]);

    let mut leaky = fold;
    leaky.train_group_ids.push("pickup_zone_1".to_string());
    assert!(generate_group_oof_candidate_rows(&leaky)
        .unwrap_err()
        .message()
        .contains("leakage"));
}

#[test]
fn group_oof_rows_follow_row_ids_and_match_candidate_positions() {
    let mut fold = fold();
    fold.actuals = vec![
        prediction("pickup_zone_1", "hour_03"),
        prediction("pickup_zone_1", "hour_01"),
        prediction("pickup_zone_1", "hour_02"),
    ];
    fold.candidates = vec![
        CandidateFacts {
            name: "b".to_string(),
            predictions: vec![
                prediction("pickup_zone_1", "hour_02"),
                prediction("pickup_zone_1", "hour_03"),
                prediction("pickup_zone_1", "hour_01"),
            ],
        },
        CandidateFacts {
            name: "a".to_string(),
            predictions: vec![
                prediction("pickup_zone_1", "hour_01"),
                prediction("pickup_zone_1", "hour_02"),
                prediction("pickup_zone_1", "hour_03"),
            ],
        },
    ];
    let rows = generate_group_oof_candidate_rows(&fold).unwrap();
    let ids: Vec<&str> = rows.iter().map(|row| row.row_id.as_str()).collect();
    assert_eq!(ids, vec!["hour_01", "hour_02", "hour_03"]);
    assert_eq!(rows.iter().map(|row| row.actual).collect::<Vec<_>>(), vec![1, 2, 0]);
    assert_eq!(rows[0].candidate_rows, vec![2, 0]);
    assert_eq!(rows[1].candidate_rows, vec![0, 1]);
    assert_eq!(rows[2].candidate_rows, vec![1, 2]);
}

#[test]
fn group_oof_reports_each_fold_error() {
    let message = |fold: &OofFoldFacts| generate_group_oof_candidate_rows(fold).unwrap_err().message();

    let mut f = fold();
    f.validation_group_id = " ".to_string();
    assert_eq!(message(&f), "invalid input: OOF validation_group_id must be non-empty");

    let mut f = fold();
    f.train_group_ids.clear();
    assert_eq!(message(&f), "invalid input: OOF train_group_ids must be nonempty");

    let mut f = fold();
    f.train_group_ids.push("\t".to_string());
    assert_eq!(message(&f), "invalid input: OOF train_group_ids must be non-empty");

    let mut f = fold();
    f.train_group_ids.push("pickup_zone_1".to_string());
    assert_eq!(
        message(&f),
        "invalid input: leakage check failed: validation group 'pickup_zone_1' appears in its training groups"
    );

    let mut f = fold();
    f.candidates.clear();
    assert_eq!(
        message(&f),
        "invalid input: OOF candidate generation requires at least one candidate"
    );

    let mut f = fold();
    f.actuals.push(prediction("zone_b", "hour_02"));
    f.actuals.push(prediction("zone_a", "hour_03"));
    assert_eq!(
        message(&f),
        "invalid input: OOF actual series_id 'zone_a' does not match validation group 'pickup_zone_1'"
    );

    let mut f = fold();
    f.candidates.push(CandidateFacts {
        name: "candidate_a".to_string(),
        predictions: vec![prediction("pickup_zone_1", "hour_01")],
    });
    assert_eq!(message(&f), "invalid input: duplicate OOF candidate name 'candidate_a'");

    let mut f = fold();
    f.candidates[0].name = "".to_string();
    assert_eq!(message(&f), "invalid input: OOF candidate names must be non-empty");

    let mut f = fold();
    f.candidates[0].predictions = vec![prediction("pickup_zone_1", "hour_02")];
    assert_eq!(
        message(&f),
        "invalid input: OOF candidate 'candidate_a' is not aligned to validation actual rows"
    );

    let mut f = fold();
    f.candidates[0].predictions[0].value_finite = false;
    assert_eq!(message(&f), "invalid input: candidate prediction values must be finite");
}

#[test]
fn prediction_map_checks_rows_and_sorts_by_ids() {
    let rows = vec![prediction("s2", "a"), prediction("s1", "b"), prediction("s1", "a")];
    assert_eq!(prediction_map(&rows).unwrap(), vec![2, 1, 0]);
    assert_eq!(
        prediction_map(&[]).unwrap_err().message(),
        "invalid input: candidate predictions must be nonempty"
    );
    assert_eq!(
        prediction_map(&[prediction("s", " ")]).unwrap_err().message(),
        "invalid input: candidate prediction ids must be non-empty"
    );
    assert_eq!(
        prediction_map(&[prediction("s", "r"), prediction("s", "r")]).unwrap_err().message(),
        "invalid input: duplicate candidate prediction row"
    );
}

#[test]
fn sequence_frames_need_valid_series_with_distinct_ids() {
    let frame = vec![
        SequenceSeriesFacts { series_id: "a".to_string(), rows: series() },
        SequenceSeriesFacts { series_id: "b".to_string(), rows: series() },
    ];
    assert!(validate_sequence_frame(&frame).is_ok());
    assert_eq!(
        validate_sequence_frame(&[]).unwrap_err().message(),
        "invalid input: sequence frame requires at least one series"
    );
    let repeated = vec![frame[0].clone(), frame[0].clone()];
    assert_eq!(
        validate_sequence_frame(&repeated).unwrap_err().message(),
        "invalid input: duplicate sequence series_id 'a'"
    );
    let invalid = vec![SequenceSeriesFacts { series_id: "c".to_string(), rows: vec![row("r0", true)] }];
    assert_eq!(
        validate_sequence_frame(&invalid).unwrap_err().message(),
        "invalid input: sequence series requires at least two rows"
    );
}

fn weight(name: &str) -> BlendWeightFacts {
    BlendWeightFacts { name: name.to_string(), valid: true }
}

#[test]
fn blend_alignment_lines_up_candidate_rows() {
    let candidates = vec![
        CandidateFacts { name: "a".to_string(), predictions: vec![prediction("s", "r2"), prediction("s", "r1")] },
        CandidateFacts { name: "b".to_string(), predictions: vec![prediction("s", "r1"), prediction("s", "r2")] },
    ];
    let (rows, columns) = blend_alignment(&[weight("a"), weight("b")], true, &candidates).unwrap();
    assert_eq!(rows, vec![1, 0]);
    assert_eq!(columns, vec![vec![1, 0], vec![0, 1]]);
}

#[test]
fn sequence_blend_reports_weight_and_alignment_errors() {
    let candidates = vec![
        CandidateFacts { name: "a".to_string(), predictions: vec![prediction("s", "r1")] },
        CandidateFacts { name: "b".to_string(), predictions: vec![prediction("s", "r2")] },
    ];
    let message = |weights: &[BlendWeightFacts], total: bool| {
        blend_alignment(weights, total, &candidates).unwrap_err().message()
    };
    assert_eq!(message(&[], true), "invalid input: sequence blend weights must be nonempty");
    assert_eq!(message(&[weight(" ")], true), "invalid input: sequence blend candidate names must be non-empty");
    let mut invalid = weight("a");
    invalid.valid = false;
    assert_eq!(message(&[invalid], true), "invalid input: sequence blend weights must be finite and non-negative");
    assert_eq!(message(&[weight("a")], false), "invalid input: sequence blend requires at least one positive weight");
    assert_eq!(message(&[weight("a")], true), "invalid input: missing blend weight for candidate 'b'");
    assert_eq!(
        message(&[weight("a"), weight("b")], true),
        "invalid input: candidate 'b' is not aligned to ensemble rows"
    );
    let single = vec![candidates[0].clone()];
    assert_eq!(
        blend_alignment(&[weight("a"), weight("z")], true, &single).unwrap_err().message(),
        "invalid input: blend weight references unknown candidate 'z'"
    );
}

#[test]
fn validate_weights_reports_each_weight_error() {
    assert!(validate_weights(&[weight("a"), weight("b")], true).is_ok());
    assert_eq!(
        validate_weights(&[], true).unwrap_err().message(),
        "invalid input: sequence blend weights must be nonempty"
    );
    let mut invalid = weight("b");
    invalid.valid = false;
    assert_eq!(
        validate_weights(&[weight("a"), invalid], true).unwrap_err().message(),
        "invalid input: sequence blend weights must be finite and non-negative"
    );
    assert_eq!(
        validate_weights(&[weight("a")], false).unwrap_err().message(),
        "invalid input: sequence blend requires at least one positive weight"
    );
}

#[test]
fn validation_alignment_lines_candidates_up_with_actuals() {
    let actuals = vec![prediction("s", "r2"), prediction("s", "r1")];
    let candidates = vec![
        CandidateFacts { name: "a".to_string(), predictions: vec![prediction("s", "r1"), prediction("s", "r2")] },
        CandidateFacts { name: "b".to_string(), predictions: vec![prediction("s", "r2"), prediction("s", "r1")] },
    ];
    let (rows, columns) = validation_alignment(&candidates, &actuals).unwrap();
    assert_eq!(rows, vec![1, 0]);
    assert_eq!(columns, vec![vec![0, 1], vec![1, 0]]);

    let short = vec![
        candidates[0].clone(),
        CandidateFacts { name: "c".to_string(), predictions: vec![prediction("s", "r1")] },
    ];
    assert_eq!(
        validation_alignment(&short, &actuals).unwrap_err().message(),
        "invalid input: candidate 'c' is not aligned to validation actual rows"
    );
    assert_eq!(
        validation_alignment(&candidates, &vec![]).unwrap_err().message(),
        "invalid input: candidate predictions must be nonempty"
    );
    let repeated = vec![CandidateFacts {
        name: "d".to_string(),
        predictions: vec![prediction("s", "r1"), prediction("s", "r1")],
    }];
    assert_eq!(
        validation_alignment(&repeated, &actuals).unwrap_err().message(),
        "invalid input: duplicate candidate prediction row"
    );
}

fn group_row(group_id: &str, row_id: &str) -> GroupPredictionFacts {
    GroupPredictionFacts { group_id: group_id.to_string(), row_id: row_id.to_string(), values_finite: true }
}

#[test]
fn per_group_rows_groups_positions_by_sorted_group_id() {
    let rows = vec![group_row("zone_b", "r0"), group_row("zone_a", "r1"), group_row("zone_b", "r2")];
    assert_eq!(
        per_group_rows(&rows).unwrap(),
        vec![
            GroupRows { group_id: "zone_a".to_string(), rows: vec![1] },
            GroupRows { group_id: "zone_b".to_string(), rows: vec![0, 2] },
        ]
    );
    assert_eq!(per_group_rows(&vec![]).unwrap_err().message(), "invalid input: group predictions must be nonempty");
    assert_eq!(
        per_group_rows(&vec![group_row("zone_a", " ")]).unwrap_err().message(),
        "invalid input: group prediction ids must be non-empty"
    );
    let mut infinite = group_row("zone_a", "r0");
    infinite.values_finite = false;
    assert_eq!(
        per_group_rows(&vec![group_row("zone_a", "r1"), infinite]).unwrap_err().message(),
        "invalid input: group prediction actuals and predictions must be finite"
    );
}

