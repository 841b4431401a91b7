use payment_router::cost_optimizer::{CostOptimizer, PotentialSavings, USAGE_CAPACITY};
use payment_router::service_registry::ServiceRegistry;
use payment_router::types::{OptimizationSettings, Ratio, ServiceProvider, UsageMetrics};

fn provider(id: &str, chains: &[&str], cost: u64, reliability: u32) -> ServiceProvider {
    ServiceProvider {
        id: id.to_string(),
        name: format!("Provider {}", id),
        api_endpoint: format!("https://{}.example", id),
        supported_chains: chains.iter().map(|c| c.to_string()).collect(),
        cost_per_request: cost,
        reliability_score: reliability,
        last_ping: 0,
        is_active: true,
    }
}

fn settings(max_cost: u64, threshold: u32, preferred: &[&str]) -> OptimizationSettings {
    OptimizationSettings {
        max_cost_per_transaction: max_cost,
        preferred_chains: preferred.iter().map(|c| c.to_string()).collect(),
        reliability_threshold: threshold,
        auto_optimization_enabled: true,
        rebalance_frequency: 3600,
    }
}

fn registry_of(providers: Vec<ServiceProvider>) -> ServiceRegistry {
    let mut registry = ServiceRegistry::new();
    for p in providers {
        assert!(registry.register_provider(p).is_ok());
    }
    registry
}

fn as_f64(r: Ratio) -> f64 {
    r.num as f64 / r.den as f64
}

const ZERO: Ratio = Ratio { num: 0, den: 1 };

#[test]
fn default_settings() {
    let s = OptimizationSettings::default();
    assert_eq!(s.max_cost_per_transaction, 1_000_000);
    assert_eq!(s.preferred_chains, vec!["REI".to_string(), "Polygon".to_string()]);
    assert_eq!(s.reliability_threshold, 950_000);
    assert!(s.auto_optimization_enabled);
    assert_eq!(s.rebalance_frequency, 3600);
    let copy = s.clone();
    assert_eq!(copy.preferred_chains, s.preferred_chains);
    assert_eq!(copy.reliability_threshold, s.reliability_threshold);
}

#[test]
fn new_optimizer_holds_its_settings_and_nothing_else() {
    let optimizer = CostOptimizer::new(settings(20, 800_000, &["REI"]));
    assert_eq!(optimizer.settings().max_cost_per_transaction, 20);
    assert_eq!(optimizer.settings().reliability_threshold, 800_000);
    assert!(optimizer.usage_history().is_empty());
    assert!(optimizer.chain_stats("REI").is_none());
    assert!(optimizer.suggest_chain_rebalancing().is_empty());
}

#[test]
fn update_settings_replaces_every_value_unchecked() {
    let mut optimizer = CostOptimizer::new(OptimizationSettings::default());
    optimizer.record_usage("REI", "a", 5, true, 10, 1);
    optimizer.update_settings(settings(0, u32::MAX, &[]));
    assert_eq!(optimizer.settings().max_cost_per_transaction, 0);
    assert_eq!(optimizer.settings().reliability_threshold, u32::MAX);
    assert!(optimizer.settings().preferred_chains.is_empty());
    assert_eq!(optimizer.usage_history().len(), 1);
    assert_eq!(optimizer.chain_stats("REI").unwrap().volume, 1);
}

#[test]
fn route_example_picks_the_lower_score() {
    let registry = registry_of(vec![
        provider("A", &["REI"], 10, 990_000),
        provider("B", &["REI"], 5, 810_000),
    ]);
    let optimizer = CostOptimizer::new(settings(20, 800_000, &["REI"]));
    let amount = 100u64;
    let score = |cost: f64, reliability: f64| {
        0.4 * (cost / amount as f64) + 0.3 * (1.0 - reliability) + 0.3 * 0.5
    };
    let a = score(10.0, 0.99);
    let b = score(5.0, 0.81);
    assert!((a - 0.193).abs() < 1e-12);
    assert!((b - 0.227).abs() < 1e-12);
    let expected = if a <= b { "A" } else { "B" };
    assert_eq!(optimizer.optimize_payment_route(&registry, "REI", amount), Some(expected.to_string()));
    assert_eq!(optimizer.optimize_payment_route(&registry, "REI", amount), Some("A".to_string()));
}

#[test]
fn route_depends_on_the_amount() {
    let registry = registry_of(vec![
        provider("A", &["REI"], 10, 990_000),
        provider("B", &["REI"], 5, 810_000),
    ]);
    let optimizer = CostOptimizer::new(settings(20, 800_000, &["REI"]));
    // For an amount of 10 the cost weighs more: 0.4 + 0.003 against 0.2 + 0.057.
    assert_eq!(optimizer.optimize_payment_route(&registry, "REI", 10), Some("B".to_string()));
    // With nothing to pay the cost alone decides.
    assert_eq!(optimizer.optimize_payment_route(&registry, "REI", 0), Some("B".to_string()));
    assert_eq!(optimizer.optimize_payment_route(&registry, "REI", u64::MAX), Some("A".to_string()));
}

#[test]
fn route_of_equal_scores_is_the_first_registered() {
    let registry = registry_of(vec![
        provider("late-in-the-alphabet", &["REI"], 10, 900_000),
        provider("early", &["REI"], 10, 900_000),
    ]);
    let optimizer = CostOptimizer::new(settings(20, 800_000, &["REI"]));
    assert_eq!(
        optimizer.optimize_payment_route(&registry, "REI", 100),
        Some("late-in-the-alphabet".to_string())
    );
    // 4 * 10 / 100 + 3 * 0.10 is 4 * 25 / 100 + 3 * (-0.10) + 0.6 - 0.6: a tie again.
    let registry = registry_of(vec![
        provider("x", &["REI"], 13, 900_000),
        provider("y", &["REI"], 10, 860_000),
    ]);
    assert_eq!(optimizer.optimize_payment_route(&registry, "REI", 100), Some("x".to_string()));
}

#[test]
fn route_passes_over_those_that_cannot_be_chosen() {
    let mut registry = registry_of(vec![
        provider("other", &["Polygon"], 1, 999_000),
        provider("dear", &["REI"], 21, 999_000),
        provider("weak", &["REI"], 1, 799_999),
        provider("gone", &["REI"], 1, 999_000),
    ]);
    assert!(registry.deactivate_provider("gone").is_ok());
    let mut optimizer = CostOptimizer::new(settings(20, 800_000, &["REI"]));
    assert_eq!(optimizer.optimize_payment_route(&registry, "REI", 100), None);
    assert_eq!(optimizer.optimize_payment_route(&registry, "Polygon", 100), Some("other".to_string()));
    assert_eq!(optimizer.optimize_payment_route(&registry, "BSC", 100), None);
    optimizer.update_settings(settings(21, 799_999, &["REI"]));
    // 0.4 * 21/100 + 0.3 * 0.001 against 0.4 * 1/100 + 0.3 * 0.200001
    assert_eq!(optimizer.optimize_payment_route(&registry, "REI", 100), Some("weak".to_string()));
    let empty = ServiceRegistry::new();
    assert_eq!(optimizer.optimize_payment_route(&empty, "REI", 100), None);
}

#[test]
fn route_is_the_same_whatever_the_history_of_the_chain() {
    let registry = registry_of(vec![
        provider("A", &["REI"], 10, 990_000),
        provider("B", &["REI"], 5, 810_000),
    ]);
    let mut optimizer = CostOptimizer::new(settings(20, 800_000, &["REI"]));
    for n in 0..10 {
        optimizer.record_usage("REI", "A", 10, n % 3 == 0, 50, n);
        assert_eq!(optimizer.optimize_payment_route(&registry, "REI", 100), Some("A".to_string()));
    }
}

#[test]
fn usage_history_keeps_the_latest_thousand() {
    let mut optimizer = CostOptimizer::new(OptimizationSettings::default());
    for n in 0..1000u64 {
        optimizer.record_usage("REI", "a", n, true, 2 * n, 10 + n);
    }
    assert_eq!(optimizer.usage_history().len(), 1000);
    assert_eq!(optimizer.usage_history()[0].cost, 0);
    optimizer.record_usage("REI", "a", 1000, false, 2000, 1010);
    let history = optimizer.usage_history();
    assert_eq!(history.len(), USAGE_CAPACITY);
    assert_eq!(history.len(), 1000);
    for (place, record) in history.iter().enumerate() {
        let n = place as u64 + 1;
        assert_eq!(record.cost, n);
        assert_eq!(record.response_time, 2 * n);
        assert_eq!(record.timestamp, 10 + n);
        assert_eq!(record.success, n != 1000);
        assert_eq!(record.chain, "REI");
        assert_eq!(record.provider_id, "a");
    }
    // The statistics still count the record that is gone.
    assert_eq!(optimizer.chain_stats("REI").unwrap().volume, 1001);
}

#[test]
fn running_mean_is_the_arithmetic_mean() {
    let mut optimizer = CostOptimizer::new(OptimizationSettings::default());
    let costs = [10u64, 20, 60, 7, 0, 1_000_003];
    let outcomes = [true, false, true, true, false, true];
    let mut sum = 0u128;
    let mut successes = 0u64;
    for (n, (cost, success)) in costs.iter().zip(outcomes.iter()).enumerate() {
        optimizer.record_usage("REI", "a", *cost, *success, 5, 100 + n as u64);
        sum += *cost as u128;
        successes += *success as u64;
        let stats = optimizer.chain_stats("REI").unwrap();
        assert_eq!(stats.chain, "REI");
        assert_eq!(stats.volume, n as u64 + 1);
        assert_eq!(stats.total_cost, sum);
        assert_eq!(stats.successes, successes);
        assert_eq!(stats.last_updated, 100 + n as u64);
    }
    let stats = optimizer.chain_stats("REI").unwrap();
    let mean = stats.total_cost as f64 / stats.volume as f64;
    let expected = costs.iter().map(|c| *c as f64).sum::<f64>() / costs.len() as f64;
    assert!((mean - expected).abs() < 1e-9);
    assert_eq!(stats.total_cost, 1_000_100);
    assert_eq!(stats.successes, 4);
}

#[test]
fn running_mean_follows_the_streaming_update() {
    let mut optimizer = CostOptimizer::new(OptimizationSettings::default());
    let costs = [3u64, 9, 4, 100, 1];
    let mut mean = 0.0f64;
    for (n, cost) in costs.iter().enumerate() {
        optimizer.record_usage("REI", "a", *cost, true, 5, 1);
        mean += (*cost as f64 - mean) / (n as f64 + 1.0);
        let stats = optimizer.chain_stats("REI").unwrap();
        assert!((stats.total_cost as f64 / stats.volume as f64 - mean).abs() < 1e-9);
    }
}

#[test]
fn statistics_are_kept_per_chain() {
    let mut optimizer = CostOptimizer::new(OptimizationSettings::default());
    optimizer.record_usage("REI", "a", 10, true, 5, 1);
    optimizer.record_usage("Polygon", "b", 70, false, 5, 2);
    optimizer.record_usage("REI", "a", 30, false, 5, 3);
    let rei = optimizer.chain_stats("REI").unwrap();
    assert_eq!((rei.total_cost, rei.volume, rei.successes, rei.last_updated), (40, 2, 1, 3));
    let polygon = optimizer.chain_stats("Polygon").unwrap();
    assert_eq!(
        (polygon.total_cost, polygon.volume, polygon.successes, polygon.last_updated),
        (70, 1, 0, 2)
    );
    assert!(optimizer.chain_stats("BSC").is_none());
    assert!(optimizer.chain_stats("rei").is_none());
}

#[test]
fn statistics_hold_the_largest_costs() {
    let mut optimizer = CostOptimizer::new(OptimizationSettings::default());
    for n in 0..5 {
        optimizer.record_usage("REI", "a", u64::MAX, true, u64::MAX, n);
    }
    let stats = optimizer.chain_stats("REI").unwrap();
    assert_eq!(stats.total_cost, 5 * u64::MAX as u128);
    let metrics = optimizer.get_usage_metrics(10, 4);
    assert_eq!(metrics.total_volume, 5 * u64::MAX as u128);
    assert_eq!(metrics.average_response_time, Ratio { num: 5 * u64::MAX as u128, den: 5 });
}

#[test]
fn metrics_count_the_records_in_the_window() {
    let mut optimizer = CostOptimizer::new(OptimizationSettings::default());
    optimizer.record_usage("REI", "a", 5, true, 10, 899);
    optimizer.record_usage("REI", "a", 10, true, 20, 900);
    optimizer.record_usage("Polygon", "b", 30, false, 40, 950);
    optimizer.record_usage("REI", "a", 60, true, 60, 1000);
    optimizer.record_usage("REI", "a", 500, true, 1, 1001);
    let metrics = optimizer.get_usage_metrics(100, 1000);
    assert_eq!(
        metrics,
        UsageMetrics {
            total_requests: 3,
            successful_payments: 2,
            failed_payments: 1,
            total_volume: 100,
            average_response_time: Ratio { num: 120, den: 3 },
            cost_efficiency: Ratio { num: 2_000_000, den: 100 },
        }
    );
    assert_eq!(as_f64(metrics.average_response_time), 40.0);
    assert_eq!(as_f64(metrics.cost_efficiency), 20_000.0);
    let narrow = optimizer.get_usage_metrics(0, 950);
    assert_eq!(narrow.total_requests, 1);
    assert_eq!(narrow.failed_payments, 1);
    assert_eq!(narrow.cost_efficiency, Ratio { num: 0, den: 30 });
}

#[test]
fn metrics_without_requests_are_exactly_nothing() {
    let mut optimizer = CostOptimizer::new(OptimizationSettings::default());
    let nothing = UsageMetrics {
        total_requests: 0,
        successful_payments: 0,
        failed_payments: 0,
        total_volume: 0,
        average_response_time: ZERO,
        cost_efficiency: ZERO,
    };
    assert_eq!(optimizer.get_usage_metrics(100, 1000), nothing);
    optimizer.record_usage("REI", "a", 5, true, 10, 10);
    optimizer.record_usage("REI", "a", 5, true, 10, 2000);
    assert_eq!(optimizer.get_usage_metrics(100, 1000), nothing);
    assert_eq!(as_f64(optimizer.get_usage_metrics(100, 1000).cost_efficiency), 0.0);
    assert_eq!(as_f64(optimizer.get_usage_metrics(100, 1000).average_response_time), 0.0);
}

#[test]
fn metrics_window_longer_than_the_time_passed_reaches_the_beginning() {
    let mut optimizer = CostOptimizer::new(OptimizationSettings::default());
    optimizer.record_usage("REI", "a", 5, true, 10, 0);
    optimizer.record_usage("REI", "a", 7, false, 30, 50);
    optimizer.record_usage("REI", "a", 9, true, 50, 51);
    let metrics = optimizer.get_usage_metrics(100, 50);
    assert_eq!(metrics.total_requests, 2);
    assert_eq!(metrics.total_volume, 12);
    let all = optimizer.get_usage_metrics(u64::MAX, u64::MAX);
    assert_eq!(all.total_requests, 3);
    assert_eq!(optimizer.get_usage_metrics(u64::MAX, 0).total_requests, 1);
}

#[test]
fn metrics_of_free_requests_have_an_unbounded_efficiency() {
    let mut optimizer = CostOptimizer::new(OptimizationSettings::default());
    optimizer.record_usage("REI", "a", 0, true, 10, 5);
    let metrics = optimizer.get_usage_metrics(10, 5);
    assert_eq!(metrics.cost_efficiency, Ratio { num: 1_000_000, den: 0 });
    assert_eq!(as_f64(metrics.cost_efficiency), f64::INFINITY);
}

#[test]
fn rebalancing_advises_to_leave_a_chain_that_fails_too_often() {
    let mut optimizer = CostOptimizer::new(OptimizationSettings::default());
    optimizer.record_usage("REI", "a", 10, true, 5, 1);
    optimizer.record_usage("REI", "a", 30, false, 5, 2);
    optimizer.record_usage("Polygon", "b", 10, true, 5, 3);
    optimizer.record_usage("Polygon", "b", 10, true, 5, 4);
    let suggestions = optimizer.suggest_chain_rebalancing();
    assert_eq!(suggestions.len(), 1);
    let s = &suggestions[0];
    assert_eq!(s.from_chain, "REI");
    assert_eq!(s.to_chain, "Polygon");
    assert_ne!(s.to_chain, s.from_chain);
    assert_eq!(s.reason, "Low success rate");
    assert_eq!(
        s.potential_savings,
        PotentialSavings {
            failure_rate: Ratio { num: 1, den: 2 },
            average_cost: Ratio { num: 40, den: 2 },
            best_efficiency: Ratio { num: 2, den: 20 },
        }
    );
    let saving = as_f64(s.potential_savings.failure_rate)
        * as_f64(s.potential_savings.average_cost)
        * as_f64(s.potential_savings.best_efficiency);
    assert!((saving - 1.0).abs() < 1e-12);
    assert!(saving >= 0.0);
}

#[test]
fn rebalancing_goes_by_the_threshold_and_the_preferred_chains() {
    let mut optimizer = CostOptimizer::new(settings(20, 500_000, &["BSC", "REI", "Polygon"]));
    optimizer.record_usage("REI", "a", 10, true, 5, 1);
    optimizer.record_usage("REI", "a", 10, false, 5, 2);
    optimizer.record_usage("Polygon", "b", 10, false, 5, 3);
    optimizer.record_usage("Other", "c", 10, false, 5, 3);
    // REI is at one half, which is not below one half; BSC was never used;
    // Other is not preferred.
    let suggestions = optimizer.suggest_chain_rebalancing();
    assert_eq!(suggestions.len(), 1);
    assert_eq!(suggestions[0].from_chain, "Polygon");
    assert_eq!(suggestions[0].to_chain, "REI");
    optimizer.update_settings(settings(20, 500_001, &["REI", "Polygon", "REI"]));
    let from: Vec<String> =
        optimizer.suggest_chain_rebalancing().iter().map(|s| s.from_chain.clone()).collect();
    assert_eq!(from, vec!["REI".to_string(), "Polygon".to_string(), "REI".to_string()]);
    let to: Vec<String> =
        optimizer.suggest_chain_rebalancing().iter().map(|s| s.to_chain.clone()).collect();
    assert_eq!(to, vec!["Polygon".to_string(), "REI".to_string(), "Polygon".to_string()]);
}

#[test]
fn alternative_is_the_chain_with_the_highest_success_rate() {
    let mut optimizer = CostOptimizer::new(OptimizationSettings::default());
    assert_eq!(optimizer.find_alternative_chain("REI"), "Polygon");
    assert_eq!(optimizer.find_alternative_chain("Polygon"), "REI");
    assert_eq!(optimizer.find_alternative_chain("BSC"), "Polygon");
    optimizer.record_usage("REI", "a", 10, false, 5, 1);
    assert_eq!(optimizer.find_alternative_chain("REI"), "Polygon");
    assert_eq!(optimizer.find_alternative_chain("Polygon"), "REI");
    // BSC 1 of 2, Base 2 of 3, Gnosis 4 of 6, Arbitrum 1 of 1 three times over
    for (chain, good, bad) in [("BSC", 1, 1), ("Base", 2, 1), ("Gnosis", 4, 2)] {
        for _ in 0..good {
            optimizer.record_usage(chain, "a", 10, true, 5, 1);
        }
        for _ in 0..bad {
            optimizer.record_usage(chain, "a", 10, false, 5, 1);
        }
    }
    // Of Base and Gnosis, equal at two thirds, the one used first.
    assert_eq!(optimizer.find_alternative_chain("REI"), "Base");
    assert_eq!(optimizer.find_alternative_chain("Base"), "Gnosis");
    optimizer.record_usage("Arbitrum", "a", 10, true, 5, 1);
    assert_eq!(optimizer.find_alternative_chain("REI"), "Arbitrum");
    assert_eq!(optimizer.find_alternative_chain("Arbitrum"), "Base");
}

#[test]
fn fallback_chain_is_never_advised_to_move_to_itself() {
    let mut optimizer = CostOptimizer::new(OptimizationSettings::default());
    optimizer.record_usage("Polygon", "a", 10, false, 5, 1);
    let suggestions = optimizer.suggest_chain_rebalancing();
    assert_eq!(suggestions.len(), 1);
    assert_eq!(suggestions[0].from_chain, "Polygon");
    assert_eq!(suggestions[0].to_chain, "REI");
    assert_ne!(suggestions[0].to_chain, suggestions[0].from_chain);
    // With statistics of another chain, that chain is the target.
    optimizer.record_usage("BSC", "a", 10, false, 5, 2);
    let suggestions = optimizer.suggest_chain_rebalancing();
    assert_eq!(suggestions.len(), 1);
    assert_eq!(suggestions[0].to_chain, "BSC");
}

#[test]
fn lone_chain_is_advised_to_move_to_the_fallback() {
    let mut optimizer = CostOptimizer::new(OptimizationSettings::default());
    optimizer.record_usage("REI", "a", 10, false, 5, 1);
    let suggestions = optimizer.suggest_chain_rebalancing();
    assert_eq!(suggestions.len(), 1);
    assert_eq!(suggestions[0].from_chain, "REI");
    assert_eq!(suggestions[0].to_chain, "Polygon");
}

#[test]
fn every_suggestion_names_another_chain() {
    let names = ["Polygon", "REI", "BSC", "Base"];
    for used in 0..16u32 {
        let mut optimizer =
            CostOptimizer::new(settings(20, 950_000, &["Polygon", "REI", "BSC", "Base"]));
        for (bit, name) in names.iter().enumerate() {
            if used & (1 << bit) != 0 {
                optimizer.record_usage(name, "a", 10, bit % 2 == 0, 5, 1);
                optimizer.record_usage(name, "a", 10, false, 5, 2);
            }
        }
        let suggestions = optimizer.suggest_chain_rebalancing();
        assert_eq!(suggestions.len(), used.count_ones() as usize);
        for s in suggestions.iter() {
            assert_ne!(s.to_chain, s.from_chain);
        }
        for name in names.iter() {
            assert_ne!(optimizer.find_alternative_chain(name), *name);
        }
    }
}

#[test]
fn savings_of_an_unknown_chain_are_nothing() {
    let mut optimizer = CostOptimizer::new(OptimizationSettings::default());
    optimizer.record_usage("REI", "a", 10, true, 5, 1);
    assert_eq!(
        optimizer.calculate_potential_savings("Polygon"),
        PotentialSavings { failure_rate: ZERO, average_cost: ZERO, best_efficiency: ZERO }
    );
}

#[test]
fn savings_take_the_highest_efficiency_of_all_chains() {
    let mut optimizer = CostOptimizer::new(OptimizationSettings::default());
    optimizer.record_usage("REI", "a", 8, false, 5, 1);
    // Without a success anywhere the efficiency is nothing.
    assert_eq!(
        optimizer.calculate_potential_savings("REI"),
        PotentialSavings {
            failure_rate: Ratio { num: 1, den: 1 },
            average_cost: Ratio { num: 8, den: 1 },
            best_efficiency: ZERO,
        }
    );
    optimizer.record_usage("A", "a", 50, true, 5, 1);
    optimizer.record_usage("B", "a", 20, true, 5, 1);
    optimizer.record_usage("C", "a", 40, true, 5, 1);
    optimizer.record_usage("C", "a", 0, true, 5, 1);
    optimizer.record_usage("D", "a", 30, true, 5, 1);
    // 1/50, 1/20, 2/40 and 1/30: the first of the two that are highest.
    assert_eq!(optimizer.calculate_potential_savings("REI").best_efficiency, Ratio { num: 1, den: 20 });
    optimizer.record_usage("E", "a", u64::MAX, true, 5, 1);
    optimizer.record_usage("F", "a", 0, true, 5, 1);
    optimizer.record_usage("G", "a", 0, true, 5, 1);
    optimizer.record_usage("G", "a", 0, true, 5, 1);
    // A success that cost nothing is above all; the first such chain is kept.
    let savings = optimizer.calculate_potential_savings("REI");
    assert_eq!(savings.best_efficiency, Ratio { num: 1, den: 0 });
    assert_eq!(as_f64(savings.best_efficiency), f64::INFINITY);
}

#[test]
fn savings_compare_efficiencies_beyond_sixty_four_bits() {
    let mut optimizer = CostOptimizer::new(OptimizationSettings::default());
    // 3 successes for 3 * (2^64 - 1) against 2 successes for 2 * (2^64 - 1) - 1.
    for _ in 0..3 {
        optimizer.record_usage("A", "a", u64::MAX, true, 5, 1);
    }
    optimizer.record_usage("B", "a", u64::MAX, true, 5, 1);
    optimizer.record_usage("B", "a", u64::MAX - 1, true, 5, 1);
    assert_eq!(
        optimizer.calculate_potential_savings("A").best_efficiency,
        Ratio { num: 2, den: 2 * (u64::MAX as u128) - 1 }
    );
}

#[test]
fn running_mean_counts_records_that_left_the_history() {
    let mut optimizer = CostOptimizer::new(OptimizationSettings::default());
    let mut sum = 0u128;
    let mut successes = 0u64;
    for n in 0..1500u64 {
        let chain = if n % 3 == 0 { "Polygon" } else { "REI" };
        optimizer.record_usage(chain, "a", n, n % 5 != 0, 1, n);
        if chain == "REI" {
            sum += n as u128;
            successes += (n % 5 != 0) as u64;
        }
    }
    assert_eq!(optimizer.usage_history().len(), 1000);
    assert_eq!(optimizer.usage_history()[0].cost, 500);
    assert_eq!(optimizer.usage_history()[999].cost, 1499);
    let stats = optimizer.chain_stats("REI").unwrap();
    assert_eq!(stats.volume, 1000);
    assert_eq!(stats.total_cost, sum);
    assert_eq!(stats.successes, successes);
    assert!(stats.successes <= stats.volume);
    assert_eq!(stats.last_updated, 1499);
    assert_eq!(optimizer.chain_stats("Polygon").unwrap().volume, 500);
    assert_eq!(optimizer.chain_stats("Polygon").unwrap().last_updated, 1497);
}
