use cartoboost_core::geo::{
    assemble_sparse_column, assemble_sparse_row, expand_h3_sparse_set, normalize_h3_id_text,
    normalize_h3_resolution, normalize_s2_id_text, normalize_s2_level, scaffold_h3_parent_id,
    validate_equal_row_count, validate_parent_levels, GeoGridKind,
};

#[test]
fn normalizes_h3_decimal_prefixed_hex_and_bare_hex() {
    assert_eq!(normalize_h3_id_text("12345").unwrap(), 12_345);
    assert_eq!(normalize_h3_id_text("0x2a").unwrap(), 42);
    assert_eq!(
        normalize_h3_id_text("8928308280fffff").unwrap(),
        u64::from_str_radix("8928308280fffff", 16).unwrap()
    );
}

#[test]
fn normalizes_s2_decimal_and_prefixed_hex_only() {
    assert_eq!(normalize_s2_id_text("12345").unwrap(), 12_345);
    assert_eq!(normalize_s2_id_text("0x2a").unwrap(), 42);
    assert!(normalize_s2_id_text("2a").is_err());
}

#[test]
fn expands_h3_scaffold_parents_deterministically() {
    let cell = normalize_h3_id_text("8928308280fffff").unwrap();
    let expanded = expand_h3_sparse_set(&[cell, cell], 9, &[5, 7]).unwrap();
    assert_eq!(
        expanded,
        vec![
            cell,
            scaffold_h3_parent_id(cell, 9, 5).unwrap(),
            scaffold_h3_parent_id(cell, 9, 7).unwrap(),
        ]
    );
}

#[test]
fn validates_parent_levels_are_strictly_above_child_resolution() {
    assert!(validate_parent_levels(9, &[5, 7], GeoGridKind::H3).is_ok());
    assert!(validate_parent_levels(9, &[9], GeoGridKind::H3).is_err());
    assert!(validate_parent_levels(12, &[13], GeoGridKind::S2).is_err());
}

#[test]
fn assembles_sparse_columns_in_one_native_pass() {
    let rows = assemble_sparse_column(&[10, 20], &[vec![1, 2], vec![10, 3]]).unwrap();
    assert_eq!(rows, vec![vec![1, 10], vec![2, 3, 20]]);
    assert!(assemble_sparse_column(&[10, 20], &[vec![1]]).is_err());
}

#[test]
fn assemble_sparse_column_sorts_and_deduplicates_large_columns() {
    let children = (0..1_024).map(|idx| 10_000 + idx).collect::<Vec<u64>>();
    let parent_a = children.iter().map(|child| child / 10).collect::<Vec<_>>();
    let parent_b = children.clone();
    let parent_c = children.iter().map(|child| child / 100).collect::<Vec<_>>();

    let rows = assemble_sparse_column(&children, &[parent_a, parent_b, parent_c]).unwrap();

    assert_eq!(rows.len(), children.len());
    for (idx, row) in rows.iter().enumerate() {
        let mut expected = vec![children[idx], children[idx] / 10, children[idx] / 100];
        expected.sort_unstable();
        expected.dedup();
        assert_eq!(row, &expected);
    }
}

#[test]
fn h3_text_trims_and_rejects_garbage() {
    assert_eq!(normalize_h3_id_text("  0X2A \n").unwrap(), 42);
    assert!(normalize_h3_id_text("").is_err());
    assert!(normalize_h3_id_text("xyz").is_err());
    assert!(normalize_h3_id_text("0x").is_err());
}

#[test]
fn scaffold_parent_keeps_high_bits_and_fills_lower_digits() {
    let cell = normalize_h3_id_text("8928308280fffff").unwrap();
    let parent = scaffold_h3_parent_id(cell, 9, 5).unwrap();
    assert_eq!(parent, (1_u64 << 63) | (5_u64 << 56) | (cell >> 12));
    assert_eq!(parent >> 63, 1);
    assert!(scaffold_h3_parent_id(cell, 9, 9).is_err());
    assert!(scaffold_h3_parent_id(cell, 9, 10).is_err());
}

#[test]
fn grid_levels_are_range_checked() {
    assert_eq!(normalize_h3_resolution(15, "resolution").unwrap(), 15);
    assert!(normalize_h3_resolution(16, "resolution").is_err());
    assert!(normalize_h3_resolution(-1, "resolution").is_err());
    assert_eq!(normalize_s2_level(30, "level").unwrap(), 30);
    assert!(normalize_s2_level(31, "level").is_err());
}

#[test]
fn sparse_row_is_sorted_and_unique() {
    assert_eq!(assemble_sparse_row(5, &[7, 5, 1, 7]), vec![1, 5, 7]);
    assert_eq!(assemble_sparse_row(3, &[]), vec![3]);
}

#[test]
fn equal_row_count_reports_mismatch() {
    assert!(validate_equal_row_count("parent", 2, 2).is_ok());
    assert!(validate_equal_row_count("parent", 1, 2).is_err());
}
