use cartoboost_core::rank_portfolio::{
    extreme_portfolio_decisions, portfolio_side_sort_key, rank_buckets_by_key,
    rank_confusion_counts, rank_hit_counts, total_order_key, ExtremeDecision,
    PortfolioAssetFacts, PortfolioSide, RankBucketPrediction,
};

fn key(value: f64) -> u64 {
    total_order_key(value.to_bits())
}

#[test]
fn side_sort_key_lists_longs_first() {
    assert_eq!(portfolio_side_sort_key(PortfolioSide::Long), 0);
    assert_eq!(portfolio_side_sort_key(PortfolioSide::Short), 1);
}

#[test]
fn total_order_key_orders_doubles_like_total_cmp() {
    let values = [f64::NEG_INFINITY, -2.5, -0.0, 0.0, 1.0e-300, 3.0, f64::INFINITY];
    for pair in values.windows(2) {
        assert!(key(pair[0]) < key(pair[1]), "{} vs {}", pair[0], pair[1]);
    }
    assert_eq!(key(0.0), 0x8000_0000_0000_0000);
}

#[test]
fn rank_buckets_split_equal_frequency_with_position_ties() {
    let keys: Vec<u64> = [0.3, 0.1, 0.4, 0.1, 0.5].iter().map(|v| key(*v)).collect();
    assert_eq!(rank_buckets_by_key(&keys, 5).unwrap(), vec![2, 0, 3, 1, 4]);
    assert_eq!(rank_buckets_by_key(&keys, 2).unwrap(), vec![0, 0, 1, 0, 1]);
    assert_eq!(
        rank_buckets_by_key(&keys, 0).unwrap_err().message(),
        "invalid input: bucket_count must be positive"
    );
}

#[test]
fn rank_hit_counts_count_exact_near_and_extreme_hits() {
    let rows = vec![
        RankBucketPrediction { observed_bucket: 0, predicted_bucket: 0 },
        RankBucketPrediction { observed_bucket: 2, predicted_bucket: 1 },
        RankBucketPrediction { observed_bucket: 4, predicted_bucket: 1 },
        RankBucketPrediction { observed_bucket: 3, predicted_bucket: 4 },
    ];
    let counts = rank_hit_counts(&rows, 5).unwrap();
    assert_eq!(counts.asset_count, 4);
    assert_eq!(counts.exact_count, 1);
    assert_eq!(counts.within_one_count, 3);
    assert_eq!(counts.directional_extreme_count, 2);
    assert_eq!(counts.directional_extreme_hits, 1);
}

#[test]
fn confusion_counts_tabulate_predicted_against_observed() {
    let counts = rank_confusion_counts(&[0, 1, 1], &[0, 0, 1], 2).unwrap();
    assert_eq!(counts, vec![vec![1, 1], vec![0, 1]]);
    assert_eq!(
        rank_confusion_counts(&[0], &[0, 1], 2).unwrap_err().message(),
        "invalid input: actual and predicted bucket lists must have the same length"
    );
    assert_eq!(
        rank_confusion_counts(&[2], &[0], 2).unwrap_err().message(),
        "invalid input: actual and predicted buckets must be inside bucket_count"
    );
}

fn asset(series_id: &str, predicted: f64) -> PortfolioAssetFacts {
    PortfolioAssetFacts {
        series_id: series_id.to_string(),
        predicted_key: key(predicted),
        returns_finite: true,
    }
}

#[test]
fn extreme_decisions_take_a_fifth_from_each_end() {
    let assets: Vec<PortfolioAssetFacts> = (0..10)
        .map(|i| asset(&format!("s{i}"), i as f64 * 0.1))
        .collect();
    let decisions = extreme_portfolio_decisions(&assets).unwrap();
    assert_eq!(
        decisions,
        vec![
            ExtremeDecision { asset: 8, side: PortfolioSide::Long },
            ExtremeDecision { asset: 9, side: PortfolioSide::Long },
            ExtremeDecision { asset: 0, side: PortfolioSide::Short },
            ExtremeDecision { asset: 1, side: PortfolioSide::Short },
        ]
    );
}

#[test]
fn extreme_decisions_break_ties_by_series_and_handle_tiny_panels() {
    let assets = vec![asset("b", 1.0), asset("a", 1.0), asset("c", 0.5)];
    let decisions = extreme_portfolio_decisions(&assets).unwrap();
    assert_eq!(
        decisions,
        vec![
            ExtremeDecision { asset: 0, side: PortfolioSide::Long },
            ExtremeDecision { asset: 2, side: PortfolioSide::Short },
        ]
    );
    let single = extreme_portfolio_decisions(&[asset("only", 0.0)]).unwrap();
    assert_eq!(
        single,
        vec![
            ExtremeDecision { asset: 0, side: PortfolioSide::Long },
            ExtremeDecision { asset: 0, side: PortfolioSide::Short },
        ]
    );
    assert!(extreme_portfolio_decisions(&[]).unwrap().is_empty());
}

#[test]
fn extreme_decisions_reject_blank_ids_and_non_finite_returns() {
    assert_eq!(
        extreme_portfolio_decisions(&[asset(" ", 0.0)]).unwrap_err().message(),
        "invalid input: rank portfolio portfolio asset ids must be non-empty"
    );
    let mut bad = asset("a", 0.0);
    bad.returns_finite = false;
    assert_eq!(
        extreme_portfolio_decisions(&[bad]).unwrap_err().message(),
        "invalid input: rank portfolio portfolio asset returns must be finite"
    );
}
