use dungeon_router_api::routing::{ModelTier, RoutingMode, TokenUsage};
use dungeon_router_api::usage::{
    charged_tokens, price_tier, routing_mode_label, UsageError, PRICING_VERSION,
};

#[test]
fn models_are_priced_by_tier() {
    assert_eq!(price_tier("gpt-5-nano"), ModelTier::Nano);
    assert_eq!(price_tier("gpt-5-mini-2025"), ModelTier::Mini);
    assert_eq!(price_tier("gpt-5"), ModelTier::Gpt5);
}

#[test]
fn runs_without_usage_are_charged_nothing() {
    let none = charged_tokens(None);
    assert_eq!(none, TokenUsage { input_tokens: 0, output_tokens: 0, total_tokens: 0 });
    let some = TokenUsage { input_tokens: 3, output_tokens: 4, total_tokens: 7 };
    assert_eq!(charged_tokens(Some(some)), some);
}

#[test]
fn routing_modes_are_stored_by_name() {
    assert_eq!(routing_mode_label(RoutingMode::Auto), "auto");
    assert_eq!(routing_mode_label(RoutingMode::Manual), "manual");
    assert_eq!(PRICING_VERSION, "openai-2026-08-28");
}

#[test]
fn usage_errors_map_to_statuses() {
    assert_eq!(UsageError::BudgetExceeded.status_code(), 402);
    assert_eq!(UsageError::InvalidConfiguration.status_code(), 500);
    assert_eq!(UsageError::Unavailable.status_code(), 503);
    assert_eq!(
        UsageError::BudgetExceeded.message(),
        "the monthly model-cost limit has been reached"
    );
}
