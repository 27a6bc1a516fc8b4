use vstd::prelude::*;

use crate::routing::{ModelTier, RoutingMode, TokenUsage};
use crate::text::{chars_of, contains_chars, contains_seq};

verus! {

/// The price list the cost estimates follow.
pub const PRICING_VERSION: &'static str = "openai-2026-08-28";

/// Why usage accounting failed or refused a request.
#[derive(Debug, Clone, Copy, PartialEq, Eq, Structural)]
pub enum UsageError {
    InvalidConfiguration,
    BudgetExceeded,
    Unavailable,
}

pub open spec fn usage_error_message(e: UsageError) -> Seq<char> {
    match e {
        UsageError::InvalidConfiguration => "cost-control configuration is invalid"@,
        UsageError::BudgetExceeded => "the monthly model-cost limit has been reached"@,
        UsageError::Unavailable => "usage accounting is unavailable"@,
    }
}

impl UsageError {
    /// The message shown for the error.
    pub fn message(&self) -> (r: &'static str)
        ensures
            r@ == usage_error_message(*self),
    {
        match self {
            UsageError::InvalidConfiguration => "cost-control configuration is invalid",
            UsageError::BudgetExceeded => "the monthly model-cost limit has been reached",
            UsageError::Unavailable => "usage accounting is unavailable",
        }
    }

    /// The HTTP status of the error: 402 over budget, 500 misconfigured, 503 down.
    pub fn status_code(&self) -> (r: u16)
        ensures
            r == match *self {
                UsageError::BudgetExceeded => 402u16,
                UsageError::InvalidConfiguration => 500u16,
                UsageError::Unavailable => 503u16,
            },
    {
        match self {
            UsageError::BudgetExceeded => 402,
            UsageError::InvalidConfiguration => 500,
            UsageError::Unavailable => 503,
        }
    }
}

/// The tier whose prices apply to a model: Nano when its name mentions `nano`,
/// else Mini when it mentions `mini`, else GPT-5.
pub open spec fn price_tier_of(model: Seq<char>) -> ModelTier {
    if contains_seq(model, "nano"@) {
        ModelTier::Nano
    } else if contains_seq(model, "mini"@) {
        ModelTier::Mini
    } else {
        ModelTier::Gpt5
    }
}

/// The tier whose prices apply to a model, as [`price_tier_of`] describes it.
pub fn price_tier(model: &str) -> (r: ModelTier)
    ensures
        r == price_tier_of(model@),
{
    let m = chars_of(model);
    if contains_chars(&m, &chars_of("nano")) {
        ModelTier::Nano
    } else if contains_chars(&m, &chars_of("mini")) {
        ModelTier::Mini
    } else {
        ModelTier::Gpt5
    }
}

/// Any model whose name has `nano` in it is priced as Nano, wherever `nano`
/// stands (a dated snapshot such as `gpt-5-nano-2025-08-07` too); a name with
/// `mini` and no `nano` is priced as Mini; a name with neither is priced as GPT-5.
pub proof fn lemma_price_tier(a: Seq<char>, b: Seq<char>, other: Seq<char>)
    ensures
        price_tier_of(a + "nano"@ + b) == ModelTier::Nano,
        !contains_seq(a + "mini"@ + b, "nano"@) ==> price_tier_of(a + "mini"@ + b)
            == ModelTier::Mini,
        (forall|i: int|
            0 <= i && i + 4 <= other.len() ==> #[trigger] other.subrange(i, i + 4) != "nano"@
                && other.subrange(i, i + 4) != "mini"@) ==> price_tier_of(other)
            == ModelTier::Gpt5,
{
    reveal_strlit("nano");
    reveal_strlit("mini");
    let n = a + "nano"@ + b;
    assert(n.subrange(a.len() as int, a.len() as int + 4) =~= "nano"@);
    assert(crate::text::occurs_at(n, "nano"@, a.len() as int));
    let m = a + "mini"@ + b;
    assert(m.subrange(a.len() as int, a.len() as int + 4) =~= "mini"@);
    assert(crate::text::occurs_at(m, "mini"@, a.len() as int));
    if forall|i: int|
        0 <= i && i + 4 <= other.len() ==> #[trigger] other.subrange(i, i + 4) != "nano"@
            && other.subrange(i, i + 4) != "mini"@ {
        if contains_seq(other, "nano"@) {
            let i = choose|i: int| crate::text::occurs_at(other, "nano"@, i);
            assert(other.subrange(i, i + 4) == "nano"@);
        }
        if contains_seq(other, "mini"@) {
            let i = choose|i: int| crate::text::occurs_at(other, "mini"@, i);
            assert(other.subrange(i, i + 4) == "mini"@);
        }
    }
}

/// How a routing mode is stored.
pub fn routing_mode_label(mode: RoutingMode) -> (r: &'static str)
    ensures
        r@ == (if mode == RoutingMode::Auto { "auto"@ } else { "manual"@ }),
{
    match mode {
        RoutingMode::Auto => "auto",
        RoutingMode::Manual => "manual",
    }
}

/// The tokens a run is charged for: its usage, or none at all when it reported none.
pub fn charged_tokens(usage: Option<TokenUsage>) -> (r: TokenUsage)
    ensures
        r == (match usage {
            Some(u) => u,
            None => TokenUsage { input_tokens: 0, output_tokens: 0, total_tokens: 0 },
        }),
{
    match usage {
        Some(u) => u,
        None => TokenUsage { input_tokens: 0, output_tokens: 0, total_tokens: 0 },
    }
}

/// One model run as it is recorded. The classifier confidence is the decimal
/// text the router wrote.
#[derive(Debug, Clone)]
pub struct RunRecord {
    pub routing_mode: RoutingMode,
    pub selected_model: String,
    pub selection_reason: Option<String>,
    pub classifier_confidence: Option<String>,
    pub usage: Option<TokenUsage>,
    pub latency_ms: u64,
    pub status: &'static str,
}

} // verus!
