use vstd::prelude::*;

use crate::text::{
    chars_of, contains_seq, copy_range, find_from, is_ascii_digit, is_digit, is_whitespace,
    is_ws, lines_in, lines_of, matches_at, occurs_at, push_chars, starts_with, string_from,
    string_of, trim, trim_end_char, views,
};

verus! {

/// The three model tiers a request can name.
#[derive(Debug, Clone, Copy, PartialEq, Eq, Structural)]
pub enum ModelTier {
    Nano,
    Mini,
    Gpt5,
}

/// Whether the router's classifier picks the model or the requested tier is used.
#[derive(Debug, Clone, Copy, PartialEq, Eq, Structural)]
pub enum RoutingMode {
    Auto,
    Manual,
}

impl Default for RoutingMode {
    fn default() -> (r: Self)
        ensures
            r == RoutingMode::Manual,
    {
        RoutingMode::Manual
    }
}

/// The upstream model of a tier.
pub open spec fn tier_model_id(t: ModelTier) -> Seq<char> {
    match t {
        ModelTier::Nano => "gpt-5-nano"@,
        ModelTier::Mini => "gpt-5-mini"@,
        ModelTier::Gpt5 => "gpt-5"@,
    }
}

/// The router route that passes a request straight to a tier.
pub open spec fn tier_route_id(t: ModelTier) -> Seq<char> {
    match t {
        ModelTier::Nano => "dungeon-router/nano"@,
        ModelTier::Mini => "dungeon-router/mini"@,
        ModelTier::Gpt5 => "dungeon-router/gpt-5"@,
    }
}

/// The router route whose classifier picks the model.
pub open spec fn auto_route_id() -> Seq<char> {
    "dungeon-router/auto"@
}

/// The display name of a tier.
pub open spec fn tier_label(t: ModelTier) -> Seq<char> {
    match t {
        ModelTier::Nano => "Nano"@,
        ModelTier::Mini => "Mini"@,
        ModelTier::Gpt5 => "GPT-5"@,
    }
}

/// What a tier is meant for.
pub open spec fn tier_purpose(t: ModelTier) -> Seq<char> {
    match t {
        ModelTier::Nano => "Direct lookup and short grounded answers"@,
        ModelTier::Mini => "Multi-rule explanation and ordinary adjudication"@,
        ModelTier::Gpt5 => "Difficult reasoning and ambiguous interactions"@,
    }
}

impl ModelTier {
    /// Every tier, cheapest first.
    pub fn all() -> (r: [ModelTier; 3])
        ensures
            r@ == seq![ModelTier::Nano, ModelTier::Mini, ModelTier::Gpt5],
    {
        let r = [ModelTier::Nano, ModelTier::Mini, ModelTier::Gpt5];
        assert(r@ =~= seq![ModelTier::Nano, ModelTier::Mini, ModelTier::Gpt5]);
        r
    }

    pub fn model_id(self) -> (r: &'static str)
        ensures
            r@ == tier_model_id(self),
    {
        match self {
            ModelTier::Nano => "gpt-5-nano",
            ModelTier::Mini => "gpt-5-mini",
            ModelTier::Gpt5 => "gpt-5",
        }
    }

    pub fn route_id(self) -> (r: &'static str)
        ensures
            r@ == tier_route_id(self),
    {
        match self {
            ModelTier::Nano => "dungeon-router/nano",
            ModelTier::Mini => "dungeon-router/mini",
            ModelTier::Gpt5 => "dungeon-router/gpt-5",
        }
    }

    pub fn label(self) -> (r: &'static str)
        ensures
            r@ == tier_label(self),
    {
        match self {
            ModelTier::Nano => "Nano",
            ModelTier::Mini => "Mini",
            ModelTier::Gpt5 => "GPT-5",
        }
    }

    pub fn purpose(self) -> (r: &'static str)
        ensures
            r@ == tier_purpose(self),
    {
        match self {
            ModelTier::Nano => "Direct lookup and short grounded answers",
            ModelTier::Mini => "Multi-rule explanation and ordinary adjudication",
            ModelTier::Gpt5 => "Difficult reasoning and ambiguous interactions",
        }
    }
}

/// A tier as the model catalogue shows it.
#[derive(Debug, Clone)]
pub struct ModelDescriptor {
    pub tier: ModelTier,
    pub label: &'static str,
    pub model_id: &'static str,
    pub purpose: &'static str,
}

/// One catalogue entry per tier, cheapest first, each with the tier's label,
/// upstream model and purpose.
pub fn model_catalog() -> (r: Vec<ModelDescriptor>)
    ensures
        r@.len() == 3,
        r@[0].tier == ModelTier::Nano,
        r@[1].tier == ModelTier::Mini,
        r@[2].tier == ModelTier::Gpt5,
        forall|i: int|
            0 <= i < 3 ==> {
                let d = #[trigger] r@[i];
                &&& d.label@ == tier_label(d.tier)
                &&& d.model_id@ == tier_model_id(d.tier)
                &&& d.purpose@ == tier_purpose(d.tier)
            },
{
    let tiers = ModelTier::all();
    let mut r: Vec<ModelDescriptor> = Vec::new();
    let mut i: usize = 0;
    while i < 3
        invariant
            i <= 3,
            tiers@ == seq![ModelTier::Nano, ModelTier::Mini, ModelTier::Gpt5],
            r@.len() == i,
            forall|k: int| 0 <= k < i ==> (#[trigger] r@[k]).tier == tiers@[k],
            forall|k: int|
                0 <= k < i ==> {
                    let d = #[trigger] r@[k];
                    &&& d.label@ == tier_label(d.tier)
                    &&& d.model_id@ == tier_model_id(d.tier)
                    &&& d.purpose@ == tier_purpose(d.tier)
                },
        decreases 3 - i,
    {
        let tier = tiers[i];
        r.push(
            ModelDescriptor {
                tier,
                label: tier.label(),
                model_id: tier.model_id(),
                purpose: tier.purpose(),
            },
        );
        i = i + 1;
    }
    r
}

/// A request for one completion.
#[derive(Debug, Clone)]
pub struct CompletionRequest {
    pub instructions: Option<String>,
    pub prompt: String,
    pub model: ModelTier,
    pub routing_mode: RoutingMode,
    pub max_output_tokens: u32,
}

/// The route a request is sent to: the classifier route in automatic mode, the
/// requested tier's own route otherwise.
pub open spec fn request_route(mode: RoutingMode, model: ModelTier) -> Seq<char> {
    match mode {
        RoutingMode::Auto => auto_route_id(),
        RoutingMode::Manual => tier_route_id(model),
    }
}

impl CompletionRequest {
    pub fn route_id(&self) -> (r: &'static str)
        ensures
            r@ == request_route(self.routing_mode, self.model),
    {
        match self.routing_mode {
            RoutingMode::Auto => "dungeon-router/auto",
            RoutingMode::Manual => self.model.route_id(),
        }
    }
}

/// Token counts of one completion.
#[derive(Debug, Clone, Copy, PartialEq, Eq, Structural)]
pub struct TokenUsage {
    pub input_tokens: u64,
    pub output_tokens: u64,
    pub total_tokens: u64,
}

/// A finished completion. The classifier's confidence is kept as the decimal
/// text that the router wrote.
#[derive(Debug, Clone)]
pub struct CompletionResponse {
    pub content: String,
    pub requested_model: ModelTier,
    pub selected_model: String,
    pub routing_mode: RoutingMode,
    pub routing_reason: Option<String>,
    pub classifier_confidence: Option<String>,
    pub usage: Option<TokenUsage>,
}

/// One event of a streamed completion.
#[derive(Debug, Clone)]
pub enum StreamEvent {
    Metadata {
        requested_model: ModelTier,
        selected_model: String,
        routing_mode: RoutingMode,
        route: String,
        routing_reason: Option<String>,
        classifier_confidence: Option<String>,
    },
    Delta { text: String },
    Usage { usage: TokenUsage },
    Done,
}

/// Why a completion failed; no upstream detail is kept.
#[derive(Debug, Clone, Copy, PartialEq, Eq, Structural)]
pub enum RouterError {
    Unavailable,
    Rejected,
    InvalidResponse,
}

pub open spec fn router_error_message(e: RouterError) -> Seq<char> {
    match e {
        RouterError::Unavailable => "the model router is unavailable"@,
        RouterError::Rejected => "the model provider rejected the request"@,
        RouterError::InvalidResponse => "the model router returned an invalid response"@,
    }
}

impl RouterError {
    /// The message shown for the error.
    pub fn message(&self) -> (r: &'static str)
        ensures
            r@ == router_error_message(*self),
    {
        match self {
            RouterError::Unavailable => "the model router is unavailable",
            RouterError::Rejected => "the model provider rejected the request",
            RouterError::InvalidResponse => "the model router returned an invalid response",
        }
    }

    /// The HTTP status of the error: 502 for a rejection, 503 otherwise.
    pub fn status_code(&self) -> (r: u16)
        ensures
            r == (if *self == RouterError::Rejected { 502u16 } else { 503u16 }),
    {
        match self {
            RouterError::Rejected => 502,
            RouterError::Unavailable | RouterError::InvalidResponse => 503,
        }
    }
}

/// One chat message sent upstream.
#[derive(Debug, Clone)]
pub struct ChatMessage {
    pub role: &'static str,
    pub content: String,
}

/// The messages of a request: its instructions, if any, as a developer message,
/// then its prompt as a user message.
pub fn request_messages(request: &CompletionRequest) -> (r: Vec<ChatMessage>)
    ensures
        match request.instructions {
            Some(i) => {
                &&& r@.len() == 2
                &&& r@[0].role@ == "developer"@
                &&& r@[0].content@ == i@
                &&& r@[1].role@ == "user"@
                &&& r@[1].content@ == request.prompt@
            },
            None => {
                &&& r@.len() == 1
                &&& r@[0].role@ == "user"@
                &&& r@[0].content@ == request.prompt@
            },
        },
{
    let mut messages: Vec<ChatMessage> = Vec::new();
    match &request.instructions {
        Some(instructions) => {
            messages.push(ChatMessage { role: "developer", content: instructions.clone() });
        },
        None => {},
    }
    messages.push(ChatMessage { role: "user", content: request.prompt.clone() });
    messages
}

/// Streaming options sent upstream.
#[derive(Debug, Clone, Copy)]
pub struct StreamOptions {
    pub include_usage: bool,
}

/// The body of an upstream chat-completion request.
#[derive(Debug, Clone)]
pub struct SwitchyardRequest {
    pub model: &'static str,
    pub messages: Vec<ChatMessage>,
    pub stream: bool,
    pub stream_options: Option<StreamOptions>,
    pub max_completion_tokens: u32,
}

/// The upstream body for `request`: its route, its messages, the output limit,
/// and, when streaming, a request for usage in the stream.
pub fn switchyard_request(request: &CompletionRequest, stream: bool) -> (r: SwitchyardRequest)
    ensures
        r.model@ == request_route(request.routing_mode, request.model),
        match request.instructions {
            Some(i) => {
                &&& r.messages@.len() == 2
                &&& r.messages@[0].role@ == "developer"@
                &&& r.messages@[0].content@ == i@
                &&& r.messages@[1].role@ == "user"@
                &&& r.messages@[1].content@ == request.prompt@
            },
            None => {
                &&& r.messages@.len() == 1
                &&& r.messages@[0].role@ == "user"@
                &&& r.messages@[0].content@ == request.prompt@
            },
        },
        r.stream == stream,
        match r.stream_options {
            Some(o) => stream && o.include_usage,
            None => !stream,
        },
        r.max_completion_tokens == request.max_output_tokens,
{
    let messages = request_messages(request);
    SwitchyardRequest {
        model: request.route_id(),
        messages,
        stream,
        stream_options: if stream {
            Some(StreamOptions { include_usage: true })
        } else {
            None
        },
        max_completion_tokens: request.max_output_tokens,
    }
}

/// `base` without trailing slashes, as the router's base URL is kept.
pub fn normalize_base_url(base: &str) -> (r: String)
    ensures
        r@ == trim_end_char(base@, '/'),
{
    let v = chars_of(base);
    let mut b = v.len();
    assert(v@.subrange(0, v.len() as int) =~= v@);
    while b > 0 && v[b - 1] == '/'
        invariant
            b <= v.len(),
            v@ == base@,
            trim_end_char(v@.subrange(0, b as int), '/') == trim_end_char(base@, '/'),
        decreases b,
    {
        assert(v@.subrange(0, b as int).drop_last() =~= v@.subrange(0, b - 1));
        b = b - 1;
    }
    string_of(&v, 0, b)
}

/// The chat-completions endpoint under a base URL.
pub fn completions_endpoint(base: &str) -> (r: String)
    ensures
        r@ == base@ + "/v1/chat/completions"@,
{
    let mut r = string_from(&chars_of(base));
    let tail = chars_of("/v1/chat/completions");
    push_chars(&mut r, &tail);
    r
}

/// An upstream HTTP status is accepted only when it is a success (2xx).
pub fn check_upstream_status(status: u16) -> (r: Result<(), RouterError>)
    ensures
        r is Ok <==> 200 <= status <= 299,
        r matches Err(e) ==> e == RouterError::Rejected,
{
    if 200 <= status && status <= 299 {
        Ok(())
    } else {
        Err(RouterError::Rejected)
    }
}

/// The model the router reports having selected: the first of its two selection
/// headers that is present and readable.
pub fn selected_model_from_headers(router_header: Option<String>, switchyard_header: Option<
    String,
>) -> (r: Option<String>)
    ensures
        r == (if router_header is Some { router_header } else { switchyard_header }),
{
    match router_header {
        Some(model) => Some(model),
        None => switchyard_header,
    }
}


/// The first position at or after `k` where `p` occurs in `s`.
pub open spec fn first_occurrence(s: Seq<char>, p: Seq<char>, k: int) -> Option<int>
    decreases s.len() + 1 - k,
{
    if k < 0 || k > s.len() {
        None
    } else if occurs_at(s, p, k) {
        Some(k)
    } else {
        first_occurrence(s, p, k + 1)
    }
}

proof fn lemma_first_occurrence(s: Seq<char>, p: Seq<char>, k: int, r: Option<int>)
    requires
        0 <= k,
        r matches Some(i) ==> k <= i && occurs_at(s, p, i),
        forall|j: int| k <= j < (if r is Some { r->0 } else { s.len() + 1int }) ==> !occurs_at(s, p, j),
    ensures
        first_occurrence(s, p, k) == r,
    decreases s.len() + 1 - k,
{
    if k <= s.len() {
        if !occurs_at(s, p, k) {
            lemma_first_occurrence(s, p, k + 1, r);
        }
    } else {
        if let Some(i) = r {
            assert(occurs_at(s, p, i));
        }
    }
}

proof fn lemma_first_occurrence_range(s: Seq<char>, p: Seq<char>, k: int)
    requires
        0 <= k,
    ensures
        first_occurrence(s, p, k) matches Some(i) ==> k <= i <= s.len(),
    decreases s.len() + 1 - k,
{
    if k <= s.len() && !occurs_at(s, p, k) {
        lemma_first_occurrence_range(s, p, k + 1);
    }
}

/// Where `p` first occurs in `s`, as [`first_occurrence`] describes it.
pub fn find_first(s: &Vec<char>, p: &Vec<char>) -> (r: Option<usize>)
    ensures
        r matches Some(i) ==> first_occurrence(s@, p@, 0) == Some(i as int),
        r is None ==> first_occurrence(s@, p@, 0) is None,
        r matches Some(i) ==> occurs_at(s@, p@, i as int),
{
    let r = find_from(s, p, 0);
    proof {
        let ghost ri: Option<int> = match r {
            Some(i) => Some(i as int),
            None => None,
        };
        lemma_first_occurrence(s@, p@, 0, ri);
        lemma_first_occurrence_range(s@, p@, 0);
    }
    r
}

/// A character that may stand between `confidence` and its number.
pub open spec fn confidence_filler(c: char) -> bool {
    is_ws(c) || c == ':' || c == '=' || c == '('
}

/// `s` without leading filler characters.
pub open spec fn skip_filler(s: Seq<char>) -> Seq<char>
    decreases s.len(),
{
    if s.len() > 0 && confidence_filler(s[0]) {
        skip_filler(s.drop_first())
    } else {
        s
    }
}

/// A character of a decimal number: a digit or a point.
pub open spec fn number_char(c: char) -> bool {
    is_digit(c) || c == '.'
}

/// The leading run of number characters of `s`.
pub open spec fn number_prefix(s: Seq<char>) -> Seq<char>
    decreases s.len(),
{
    if s.len() > 0 && number_char(s[0]) {
        seq![s[0]] + number_prefix(s.drop_first())
    } else {
        seq![]
    }
}

/// The number of points in `s`.
pub open spec fn point_count(s: Seq<char>) -> nat
    decreases s.len(),
{
    if s.len() == 0 {
        0
    } else {
        point_count(s.drop_last()) + if s.last() == '.' { 1nat } else { 0nat }
    }
}

/// A run of digits and points reads as a decimal number: at most one point and
/// at least one digit.
pub open spec fn decimal_text(v: Seq<char>) -> bool {
    point_count(v) <= 1 && v.len() > point_count(v)
}

/// The number written after the first `confidence` in a routing rationale,
/// past any spaces, `:`, `=` or `(`, where it reads as a decimal number.
pub open spec fn confidence_text(reason: Seq<char>) -> Option<Seq<char>> {
    match first_occurrence(reason, "confidence"@, 0) {
        None => None,
        Some(i) => {
            let value = number_prefix(skip_filler(reason.skip(i + "confidence"@.len())));
            if decimal_text(value) {
                Some(value)
            } else {
                None
            }
        },
    }
}

/// A decimal number written with zeros only.
pub open spec fn zero_text(v: Seq<char>) -> bool {
    forall|i: int| 0 <= i < v.len() ==> v[i] == '0' || v[i] == '.'
}

/// The classifier confidence in a routing rationale, as [`confidence_text`]
/// describes it.
pub fn parse_confidence(reason: &str) -> (r: Option<String>)
    ensures
        match confidence_text(reason@) {
            Some(v) => r matches Some(t) && t@ == v,
            None => r is None,
        },
{
    let s = chars_of(reason);
    let word = chars_of("confidence");
    let found = find_first(&s, &word);
    let start = match found {
        None => {
            assert(first_occurrence(s@, word@, 0) is None);
            return None;
        },
        Some(i) => i,
    };
    assert(found == Some(start));
    assert(first_occurrence(s@, word@, 0) == Some(start as int)) by {
        lemma_first_occurrence_range(s@, word@, 0);
    }
    proof {
        reveal_strlit("confidence");
    }
    assert(occurs_at(s@, word@, start as int));
    assert(s@.len() == s.len() && word@.len() == word.len());
    assert(start + word@.len() <= s@.len());
    let mut a = start + word.len();
    assert(s@.subrange(a as int, s.len() as int) =~= s@.skip(start + "confidence"@.len()));
    while a < s.len() && (is_whitespace(s[a]) || s[a] == ':' || s[a] == '=' || s[a] == '(')
        invariant
            a <= s.len(),
            s@ == reason@,
            skip_filler(s@.subrange(a as int, s.len() as int)) == skip_filler(
                s@.skip(start + "confidence"@.len()),
            ),
        decreases s.len() - a,
    {
        assert(s@.subrange(a as int, s.len() as int).drop_first() =~= s@.subrange(
            a + 1,
            s.len() as int,
        ));
        a = a + 1;
    }
    let ghost rest0 = s@.subrange(a as int, s.len() as int);
    assert(rest0.len() == 0 || !confidence_filler(rest0[0]));
    assert(skip_filler(rest0) == rest0);
    let mut b = a;
    let mut points: usize = 0;
    let mut digits: usize = 0;
    assert(s@.subrange(a as int, a as int) =~= seq![]);
    while b < s.len() && (is_ascii_digit(s[b]) || s[b] == '.')
        invariant
            a <= b <= s.len(),
            s@ == reason@,
            number_prefix(s@.subrange(a as int, s.len() as int)) == s@.subrange(a as int, b as int)
                + number_prefix(s@.subrange(b as int, s.len() as int)),
            points as nat == point_count(s@.subrange(a as int, b as int)),
            points + digits == b - a,
        decreases s.len() - b,
    {
        let ghost rest = s@.subrange(b as int, s.len() as int);
        assert(rest.drop_first() =~= s@.subrange(b + 1, s.len() as int));
        assert(s@.subrange(a as int, b + 1) =~= s@.subrange(a as int, b as int) + seq![s@[b as int]]);
        assert(s@.subrange(a as int, b + 1).drop_last() =~= s@.subrange(a as int, b as int));
        if s[b] == '.' {
            points = points + 1;
        } else {
            digits = digits + 1;
        }
        b = b + 1;
    }
    assert(number_prefix(s@.subrange(b as int, s.len() as int)) =~= seq![]);
    assert(s@.subrange(a as int, b as int) + seq![] =~= s@.subrange(a as int, b as int));
    let ghost value = s@.subrange(a as int, b as int);
    assert(value == number_prefix(skip_filler(reason@.skip(start + "confidence"@.len()))));
    assert(value.len() == points + digits);
    assert(first_occurrence(reason@, "confidence"@, 0) == Some(start as int));
    if points <= 1 && digits > 0 {
        Some(string_of(&s, a, b))
    } else {
        None
    }
}

/// The rationale given when the router explains nothing.
pub open spec fn fallback_reason(mode: RoutingMode, selected: Seq<char>) -> Seq<char> {
    match mode {
        RoutingMode::Auto => "Switchyard selected "@ + selected
            + "; classifier details were not returned"@,
        RoutingMode::Manual => "The DM manually selected "@ + selected,
    }
}

/// The rationale given when the router explains nothing.
pub fn fallback_routing_reason(mode: RoutingMode, selected_model: &str) -> (r: String)
    ensures
        r@ == fallback_reason(mode, selected_model@),
{
    let model = chars_of(selected_model);
    match mode {
        RoutingMode::Auto => {
            let mut r = string_from(&chars_of("Switchyard selected "));
            push_chars(&mut r, &model);
            push_chars(&mut r, &chars_of("; classifier details were not returned"));
            r
        },
        RoutingMode::Manual => {
            let mut r = string_from(&chars_of("The DM manually selected "));
            push_chars(&mut r, &model);
            r
        },
    }
}

/// The routing receipt of a completion: the rationale to show and the
/// classifier confidence. In automatic mode a fall-through with zero confidence
/// means the classifier was unavailable and the router used its safety fallback;
/// otherwise the router's rationale is kept, or one is written when it gave none.
pub open spec fn routing_receipt_of(mode: RoutingMode, selected: Seq<char>, upstream: Option<
    Seq<char>,
>) -> (Option<Seq<char>>, Option<Seq<char>>) {
    let confidence = match upstream {
        Some(reason) => confidence_text(reason),
        None => None,
    };
    if mode == RoutingMode::Auto && confidence is Some && zero_text(confidence->0)
        && upstream is Some && starts_with(upstream->0, "fall-through selected"@) {
        (
            Some("Classifier unavailable; Switchyard used the "@ + selected + " safety fallback"@),
            None,
        )
    } else {
        (
            Some(
                match upstream {
                    Some(reason) => reason,
                    None => fallback_reason(mode, selected),
                },
            ),
            confidence,
        )
    }
}

/// Whether a rationale is the router's automatic fall-through with zero
/// confidence.
pub open spec fn zero_fall_through(reason: Seq<char>) -> bool {
    &&& confidence_text(reason) is Some
    &&& zero_text(confidence_text(reason)->0)
    &&& starts_with(reason, "fall-through selected"@)
}

/// The receipt keeps the router's rationale and reports the confidence written in
/// it, whatever the mode, except for an automatic zero-confidence fall-through;
/// so automatic and manual receipts of such a rationale agree. Without a rationale
/// the receipt explains the choice itself and reports no confidence.
pub proof fn lemma_receipt_reports_confidence(
    mode: RoutingMode,
    selected: Seq<char>,
    reason: Seq<char>,
)
    ensures
        mode == RoutingMode::Manual || !zero_fall_through(reason) ==> routing_receipt_of(
            mode,
            selected,
            Some(reason),
        ) == (Some(reason), confidence_text(reason)),
        !zero_fall_through(reason) ==> routing_receipt_of(RoutingMode::Auto, selected, Some(reason))
            == routing_receipt_of(RoutingMode::Manual, selected, Some(reason)),
        zero_fall_through(reason) ==> routing_receipt_of(RoutingMode::Auto, selected, Some(reason)).1
            is None,
        routing_receipt_of(mode, selected, None) == (
            Some(fallback_reason(mode, selected)),
            None::<Seq<char>>,
        ),
{
}

/// A rationale that names its confidence right after its first `confidence`
/// (past a space, `:`, `=` or `(`) has that number read from it: the decimal
/// number written there, up to the first character that is neither a digit nor
/// a point.
pub proof fn lemma_confidence_read(pre: Seq<char>, filler: char, value: Seq<char>, post: Seq<char>)
    requires
        forall|i: int| 0 <= i < pre.len() ==> !occurs_at(pre + "confidence"@, "confidence"@, i),
        filler == ' ' || filler == ':' || filler == '=' || filler == '(',
        value.len() > 0,
        forall|i: int| 0 <= i < value.len() ==> number_char(#[trigger] value[i]),
        decimal_text(value),
        post.len() == 0 || !number_char(post[0]),
    ensures
        confidence_text(pre + "confidence"@ + seq![filler] + value + post) == Some(value),
{
    reveal_strlit("confidence");
    let word = "confidence"@;
    let r = pre + word + seq![filler] + value + post;
    let n = pre.len() as int;
    assert forall|i: int| 0 <= i < n implies !occurs_at(r, word, i) by {
        if occurs_at(r, word, i) {
            assert(r.subrange(i, i + 10) =~= (pre + word).subrange(i, i + 10));
            assert(occurs_at(pre + word, word, i));
        }
    }
    assert(r.subrange(n, n + 10) =~= word);
    lemma_first_occurrence(r, word, 0, Some(n));
    let rest = r.skip(n + 10);
    assert(rest =~= seq![filler] + value + post);
    assert(rest.drop_first() =~= value + post);
    assert(confidence_filler(filler));
    assert(!confidence_filler(value[0]));
    assert(skip_filler(value + post) == value + post);
    assert(skip_filler(rest) == value + post);
    lemma_number_prefix_of(value, post);
}

proof fn lemma_number_prefix_of(value: Seq<char>, post: Seq<char>)
    requires
        forall|i: int| 0 <= i < value.len() ==> number_char(#[trigger] value[i]),
        post.len() == 0 || !number_char(post[0]),
    ensures
        number_prefix(value + post) == value,
    decreases value.len(),
{
    if value.len() == 0 {
        assert(value + post =~= post);
    } else {
        let rest = value.drop_first();
        assert forall|i: int| 0 <= i < rest.len() implies number_char(#[trigger] rest[i]) by {
            assert(rest[i] == value[i + 1]);
        }
        lemma_number_prefix_of(rest, post);
        assert((value + post).drop_first() =~= rest + post);
        assert((value + post)[0] == value[0]);
        assert(seq![value[0]] + rest =~= value);
    }
}

/// The view of an optional string.
pub open spec fn opt_view(o: Option<String>) -> Option<Seq<char>> {
    match o {
        Some(s) => Some(s@),
        None => None,
    }
}

fn all_zero(v: &Vec<char>) -> (r: bool)
    ensures
        r == zero_text(v@),
{
    let mut i: usize = 0;
    while i < v.len()
        invariant
            i <= v.len(),
            forall|k: int| 0 <= k < i ==> v@[k] == '0' || v@[k] == '.',
        decreases v.len() - i,
    {
        if v[i] != '0' && v[i] != '.' {
            return false;
        }
        i = i + 1;
    }
    true
}

/// The routing receipt, as [`routing_receipt_of`] describes it.
pub fn routing_receipt(mode: RoutingMode, selected_model: &str, upstream_reason: Option<String>) -> (r: (
    Option<String>,
    Option<String>,
))
    ensures
        (opt_view(r.0), opt_view(r.1)) == routing_receipt_of(
            mode,
            selected_model@,
            opt_view(upstream_reason),
        ),
{
    let confidence = match &upstream_reason {
        Some(reason) => parse_confidence(reason.as_str()),
        None => None,
    };
    let fallback = match &confidence {
        Some(text) => {
            let digits = chars_of(text.as_str());
            match &upstream_reason {
                Some(reason) => {
                    let rv = chars_of(reason.as_str());
                    let prefix = chars_of("fall-through selected");
                    all_zero(&digits) && matches_at(&rv, &prefix, 0)
                },
                None => false,
            }
        },
        None => false,
    };
    if mode == RoutingMode::Auto && fallback {
        let mut reason = string_from(&chars_of("Classifier unavailable; Switchyard used the "));
        push_chars(&mut reason, &chars_of(selected_model));
        push_chars(&mut reason, &chars_of(" safety fallback"));
        return (Some(reason), None);
    }
    let reason = match upstream_reason {
        Some(reason) => reason,
        None => fallback_routing_reason(mode, selected_model),
    };
    (Some(reason), confidence)
}


/// `p` occurs in the bytes `s` starting at `i`.
pub open spec fn bytes_at(s: Seq<u8>, p: Seq<u8>, i: int) -> bool {
    0 <= i && i + p.len() <= s.len() && s.subrange(i, i + p.len()) == p
}

/// The first position at or after `k` where the bytes `p` occur in `s`.
pub open spec fn first_bytes(s: Seq<u8>, p: Seq<u8>, k: int) -> Option<int>
    decreases s.len() + 1 - k,
{
    if k < 0 || k + p.len() > s.len() {
        None
    } else if bytes_at(s, p, k) {
        Some(k)
    } else {
        first_bytes(s, p, k + 1)
    }
}

/// The end of the first event of a server-sent-event stream: where the first
/// blank line (`\n\n` or `\r\n\r\n`) begins, and how long its delimiter is.
pub open spec fn sse_boundary(buffer: Seq<u8>) -> Option<(int, int)> {
    let lf = first_bytes(buffer, seq![10u8, 10u8], 0);
    let crlf = first_bytes(buffer, seq![13u8, 10u8, 13u8, 10u8], 0);
    match (lf, crlf) {
        (Some(a), Some(b)) => if a < b {
            Some((a, 2))
        } else {
            Some((b, 4))
        },
        (Some(a), None) => Some((a, 2)),
        (None, Some(b)) => Some((b, 4)),
        (None, None) => None,
    }
}

proof fn lemma_first_bytes_range(s: Seq<u8>, p: Seq<u8>, k: int)
    requires
        0 <= k,
    ensures
        first_bytes(s, p, k) matches Some(i) ==> k <= i && i + p.len() <= s.len(),
    decreases s.len() + 1 - k,
{
    if k + p.len() <= s.len() && !bytes_at(s, p, k) {
        lemma_first_bytes_range(s, p, k + 1);
    }
}

proof fn lemma_first_bytes_none_before(s: Seq<u8>, p: Seq<u8>, k: int)
    requires
        0 <= k,
    ensures
        forall|i: int|
            k <= i && (first_bytes(s, p, k) matches Some(f) ==> i < f) ==> !bytes_at(s, p, i),
    decreases s.len() + 1 - k,
{
    if k + p.len() <= s.len() && !bytes_at(s, p, k) {
        lemma_first_bytes_none_before(s, p, k + 1);
    }
}

/// A frame ends at the first blank line: the buffer is the frame, then its
/// delimiter (`\n\n` or `\r\n\r\n`), then the rest; and no delimiter of either
/// kind begins inside the frame.
pub proof fn lemma_sse_boundary_split(buffer: Seq<u8>)
    requires
        sse_boundary(buffer) is Some,
    ensures
        ({
            let (at, len) = sse_boundary(buffer)->0;
            let lf = seq![10u8, 10u8];
            let crlf = seq![13u8, 10u8, 13u8, 10u8];
            &&& 0 <= at && at + len <= buffer.len()
            &&& (len == 2 && buffer.subrange(at, at + 2) == lf) || (len == 4 && buffer.subrange(
                at,
                at + 4,
            ) == crlf)
            &&& buffer == buffer.subrange(0, at) + buffer.subrange(at, at + len) + buffer.skip(
                at + len,
            )
            &&& forall|i: int| 0 <= i < at ==> !bytes_at(buffer, lf, i) && !bytes_at(buffer, crlf, i)
        }),
{
    let lf = seq![10u8, 10u8];
    let crlf = seq![13u8, 10u8, 13u8, 10u8];
    lemma_first_bytes_range(buffer, lf, 0);
    lemma_first_bytes_range(buffer, crlf, 0);
    lemma_first_bytes_none_before(buffer, lf, 0);
    lemma_first_bytes_none_before(buffer, crlf, 0);
    let (at, len) = sse_boundary(buffer)->0;
    let a = first_bytes(buffer, lf, 0);
    let b = first_bytes(buffer, crlf, 0);
    if let Some(x) = a {
        assert(bytes_at(buffer, lf, x)) by {
            lemma_first_bytes_found(buffer, lf, 0);
        }
    }
    if let Some(y) = b {
        assert(bytes_at(buffer, crlf, y)) by {
            lemma_first_bytes_found(buffer, crlf, 0);
        }
    }
    assert(buffer =~= buffer.subrange(0, at) + buffer.subrange(at, at + len) + buffer.skip(at + len));
}

proof fn lemma_first_bytes_at(s: Seq<u8>, p: Seq<u8>, k0: int, k: int)
    requires
        0 <= k0 <= k,
        bytes_at(s, p, k),
        forall|i: int| k0 <= i < k ==> !bytes_at(s, p, i),
    ensures
        first_bytes(s, p, k0) == Some(k),
    decreases k - k0,
{
    if k0 < k {
        lemma_first_bytes_at(s, p, k0 + 1, k);
    }
}

proof fn lemma_bytes_at_prefix(a: Seq<u8>, b: Seq<u8>, p: Seq<u8>, i: int)
    requires
        0 <= i,
        i + p.len() <= a.len(),
    ensures
        bytes_at(a + b, p, i) == bytes_at(a, p, i),
{
    assert((a + b).subrange(i, i + p.len()) =~= a.subrange(i, i + p.len()));
}

proof fn lemma_first_bytes_extend(a: Seq<u8>, b: Seq<u8>, p: Seq<u8>)
    ensures
        first_bytes(a, p, 0) matches Some(k) ==> first_bytes(a + b, p, 0) == Some(k),
        first_bytes(a, p, 0) is None ==> (first_bytes(a + b, p, 0) matches Some(k) ==> k + p.len()
            > a.len()),
{
    lemma_first_bytes_found(a, p, 0);
    lemma_first_bytes_range(a, p, 0);
    lemma_first_bytes_none_before(a, p, 0);
    lemma_first_bytes_found(a + b, p, 0);
    lemma_first_bytes_range(a + b, p, 0);
    if let Some(k) = first_bytes(a, p, 0) {
        assert forall|i: int| 0 <= i < k implies !bytes_at(a + b, p, i) by {
            lemma_bytes_at_prefix(a, b, p, i);
        }
        lemma_bytes_at_prefix(a, b, p, k);
        lemma_first_bytes_at(a + b, p, 0, k);
    } else {
        if let Some(k) = first_bytes(a + b, p, 0) {
            if k + p.len() <= a.len() {
                lemma_bytes_at_prefix(a, b, p, k);
            }
        }
    }
}

/// A frame found in a buffer is still the first frame once more bytes arrive.
pub proof fn lemma_sse_boundary_extend(a: Seq<u8>, b: Seq<u8>)
    requires
        sse_boundary(a) is Some,
    ensures
        sse_boundary(a + b) == sse_boundary(a),
{
    let lf = seq![10u8, 10u8];
    let crlf = seq![13u8, 10u8, 13u8, 10u8];
    lemma_first_bytes_extend(a, b, lf);
    lemma_first_bytes_extend(a, b, crlf);
    lemma_first_bytes_found(a, lf, 0);
    lemma_first_bytes_found(a, crlf, 0);
    lemma_first_bytes_found(a + b, lf, 0);
    lemma_first_bytes_found(a + b, crlf, 0);
    lemma_first_bytes_range(a, lf, 0);
    lemma_first_bytes_range(a, crlf, 0);
    let ab = a + b;
    match (first_bytes(a, lf, 0), first_bytes(a, crlf, 0)) {
        (Some(x), None) => {
            if let Some(y) = first_bytes(ab, crlf, 0) {
                assert(ab.subrange(x, x + 2)[0] == ab[x] && ab.subrange(x, x + 2)[1] == ab[x + 1]);
                assert(ab.subrange(y, y + 4)[1] == ab[y + 1] && ab.subrange(y, y + 4)[0] == ab[y]
                    && ab.subrange(y, y + 4)[2] == ab[y + 2]);
                assert(ab[x] == 10u8 && ab[x + 1] == 10u8);
                assert(ab[y] == 13u8 && ab[y + 1] == 10u8 && ab[y + 2] == 13u8);
                assert(y > x);
            }
        },
        (None, Some(y)) => {
            if let Some(x) = first_bytes(ab, lf, 0) {
                assert(x > y);
            }
        },
        _ => {},
    }
}

/// The frames of a buffer taken one by one from the front, and what is left.
pub open spec fn drain_frames(buffer: Seq<u8>) -> (Seq<Seq<u8>>, Seq<u8>)
    decreases buffer.len(),
{
    match sse_boundary(buffer) {
        None => (seq![], buffer),
        Some((at, len)) => {
            if 0 <= at && at + len <= buffer.len() && len > 0 {
                let (frames, rest) = drain_frames(buffer.skip(at + len));
                (seq![buffer.take(at)] + frames, rest)
            } else {
                (seq![], buffer)
            }
        },
    }
}

/// How the bytes are split into chunks does not change the frames: taking the
/// frames out of `a` and then out of what is left followed by `b` gives the frames
/// of `a + b`, in order, and leaves the same bytes.
pub proof fn lemma_drain_frames_split(a: Seq<u8>, b: Seq<u8>)
    ensures
        ({
            let (fa, ra) = drain_frames(a);
            let (fb, rb) = drain_frames(ra + b);
            drain_frames(a + b) == (fa + fb, rb)
        }),
    decreases a.len(),
{
    match sse_boundary(a) {
        None => {
            assert(seq![] + drain_frames(a + b).0 =~= drain_frames(a + b).0);
        },
        Some((at, len)) => {
            lemma_sse_boundary_split(a);
            lemma_sse_boundary_extend(a, b);
            let tail = a.skip(at + len);
            lemma_drain_frames_split(tail, b);
            assert((a + b).skip(at + len) =~= tail + b);
            assert((a + b).take(at) =~= a.take(at));
            let (ft, rt) = drain_frames(tail);
            let (fb, rb) = drain_frames(rt + b);
            assert(seq![a.take(at)] + (ft + fb) =~= (seq![a.take(at)] + ft) + fb);
        },
    }
}

proof fn lemma_first_bytes_found(s: Seq<u8>, p: Seq<u8>, k: int)
    requires
        0 <= k,
    ensures
        first_bytes(s, p, k) matches Some(f) ==> bytes_at(s, p, f),
    decreases s.len() + 1 - k,
{
    if k + p.len() <= s.len() && !bytes_at(s, p, k) {
        lemma_first_bytes_found(s, p, k + 1);
    }
}

fn find_bytes(s: &[u8], p: &[u8]) -> (r: Option<usize>)
    ensures
        r matches Some(i) ==> first_bytes(s@, p@, 0) == Some(i as int),
        r is None ==> first_bytes(s@, p@, 0) is None,
{
    if p.len() > s.len() {
        return None;
    }
    let last = s.len() - p.len();
    let mut i: usize = 0;
    while i <= last
        invariant
            last == s.len() - p.len(),
            i <= last + 1,
            first_bytes(s@, p@, 0) == first_bytes(s@, p@, i as int),
        decreases last + 1 - i,
    {
        let mut k: usize = 0;
        let mut same = true;
        while k < p.len()
            invariant
                i + p.len() <= s.len(),
                k <= p.len(),
                same == (forall|j: int| 0 <= j < k ==> s@[i + j] == p@[j]),
            decreases p.len() - k,
        {
            if s[i + k] != p[k] {
                same = false;
            }
            k = k + 1;
        }
        if same {
            assert(s@.subrange(i as int, i + p.len()) =~= p@);
            return Some(i);
        } else {
            assert(!bytes_at(s@, p@, i as int)) by {
                let j = choose|j: int| 0 <= j < p.len() && s@[i + j] != p@[j];
                assert(s@.subrange(i as int, i + p.len())[j] != p@[j]);
            }
        }
        assert(first_bytes(s@, p@, i as int) == first_bytes(s@, p@, i + 1));
        if i == last {
            assert(first_bytes(s@, p@, i + 1) is None);
            return None;
        }
        i = i + 1;
    }
    None
}

/// Where the first server-sent event of `buffer` ends, as [`sse_boundary`] describes it.
pub fn find_sse_boundary(buffer: &[u8]) -> (r: Option<(usize, usize)>)
    ensures
        r matches Some((at, len)) ==> sse_boundary(buffer@) == Some((at as int, len as int)),
        r is None ==> sse_boundary(buffer@) is None,
        r matches Some((at, len)) ==> at + len <= buffer@.len(),
{
    let lf_pat: [u8; 2] = [10u8, 10u8];
    let crlf_pat: [u8; 4] = [13u8, 10u8, 13u8, 10u8];
    assert(lf_pat@ =~= seq![10u8, 10u8]);
    assert(crlf_pat@ =~= seq![13u8, 10u8, 13u8, 10u8]);
    let lf = find_bytes(buffer, &lf_pat);
    let crlf = find_bytes(buffer, &crlf_pat);
    proof {
        lemma_first_bytes_range(buffer@, seq![10u8, 10u8], 0);
        lemma_first_bytes_range(buffer@, seq![13u8, 10u8, 13u8, 10u8], 0);
    }
    match (lf, crlf) {
        (Some(a), Some(b)) => if a < b {
            Some((a, 2))
        } else {
            Some((b, 4))
        },
        (Some(a), None) => Some((a, 2)),
        (None, Some(b)) => Some((b, 4)),
        (None, None) => None,
    }
}

/// `std::str::from_utf8`, as an owned string: the bytes are decoded when they
/// are valid UTF-8, which the standard library checks as its documentation states.
#[verifier::external_body]
pub fn decode_utf8(bytes: &[u8]) -> (r: Option<String>)
    ensures
        r is Some <==> vstd::utf8::valid_utf8(bytes@),
        r matches Some(s) ==> s@ == vstd::utf8::decode_utf8(bytes@),
{
    match std::str::from_utf8(bytes) {
        Ok(s) => Some(s.to_owned()),
        Err(_) => None,
    }
}

/// A streamed delta that carries text other than whitespace.
pub open spec fn carries_text(e: StreamEvent) -> bool {
    match e {
        StreamEvent::Delta { text } => trim(text@).len() > 0,
        _ => false,
    }
}

/// The state of a server-sent-event stream being read: the bytes not yet cut
/// into events, and whether any event so far carried text.
pub struct SseDecoder {
    pub buffer: Vec<u8>,
    pub produced_text: bool,
}

impl SseDecoder {
    pub fn new() -> (r: SseDecoder)
        ensures
            r.buffer@ == Seq::<u8>::empty(),
            !r.produced_text,
    {
        SseDecoder { buffer: Vec::new(), produced_text: false }
    }

    /// Appends the bytes of one received chunk.
    pub fn push(&mut self, chunk: &[u8])
        ensures
            final(self).buffer@ == old(self).buffer@ + chunk@,
            final(self).produced_text == old(self).produced_text,
    {
        let mut i: usize = 0;
        while i < chunk.len()
            invariant
                i <= chunk.len(),
                self.buffer@ == old(self).buffer@ + chunk@.take(i as int),
                self.produced_text == old(self).produced_text,
            decreases chunk.len() - i,
        {
            self.buffer.push(chunk[i]);
            assert(chunk@.take(i + 1) =~= chunk@.take(i as int).push(chunk@[i as int]));
            i = i + 1;
        }
        assert(chunk@.take(chunk.len() as int) =~= chunk@);
    }

    /// Cuts off the next complete event, if the buffer holds one: its text before
    /// the blank line, with the event and its delimiter removed from the buffer.
    /// An event that is not valid UTF-8 is an invalid response, and stays buffered.
    pub fn next_frame(&mut self) -> (r: Option<Result<String, RouterError>>)
        ensures
            final(self).produced_text == old(self).produced_text,
            match sse_boundary(old(self).buffer@) {
                None => r is None && final(self).buffer@ == old(self).buffer@,
                Some((at, len)) => {
                    let frame = old(self).buffer@.subrange(0, at);
                    if vstd::utf8::valid_utf8(frame) {
                        &&& r matches Some(Ok(text))
                        &&& text@ == vstd::utf8::decode_utf8(frame)
                        &&& final(self).buffer@ == old(self).buffer@.skip(at + len)
                    } else {
                        &&& r == Some(Err::<String, RouterError>(RouterError::InvalidResponse))
                        &&& final(self).buffer@ == old(self).buffer@
                    }
                },
            },
    {
        let boundary = find_sse_boundary(self.buffer.as_slice());
        let (at, len) = match boundary {
            None => return None,
            Some(b) => b,
        };
        assert(boundary == Some((at, len)));
        assert(at + len <= self.buffer@.len());
        assert(sse_boundary(old(self).buffer@) == Some((at as int, len as int)));
        let mut frame: Vec<u8> = Vec::new();
        let mut i: usize = 0;
        while i < at
            invariant
                i <= at,
                at + len <= self.buffer@.len(),
                self.buffer@ == old(self).buffer@,
                frame@ == self.buffer@.subrange(0, i as int),
            decreases at - i,
        {
            frame.push(self.buffer[i]);
            assert(frame@ =~= self.buffer@.subrange(0, i + 1));
            i = i + 1;
        }
        assert(frame@ == old(self).buffer@.subrange(0, at as int));
        let text = match decode_utf8(frame.as_slice()) {
            None => return Some(Err(RouterError::InvalidResponse)),
            Some(t) => t,
        };
        assert(at + len <= self.buffer@.len());
        assert(self.buffer@.len() == self.buffer.len());
        let mut rest: Vec<u8> = Vec::new();
        let mut j = at + len;
        while j < self.buffer.len()
            invariant
                at + len <= j <= self.buffer@.len(),
                self.buffer@ == old(self).buffer@,
                rest@ == self.buffer@.subrange(at + len, j as int),
            decreases self.buffer.len() - j,
        {
            rest.push(self.buffer[j]);
            assert(rest@ =~= self.buffer@.subrange(at + len, j + 1));
            j = j + 1;
        }
        self.buffer = rest;
        assert(self.buffer@ =~= old(self).buffer@.skip(at + len));
        Some(Ok(text))
    }

    /// Notes an event that was passed on; a delta with text means the stream
    /// produced an answer.
    pub fn observe(&mut self, event: &StreamEvent)
        ensures
            final(self).buffer@ == old(self).buffer@,
            final(self).produced_text == (old(self).produced_text || carries_text(*event)),
    {
        match event {
            StreamEvent::Delta { text } => {
                let v = chars_of(text.as_str());
                let (a, b) = crate::text::trim_range(&v, 0, v.len());
                assert(v@.subrange(0, v.len() as int) =~= v@);
                if a < b {
                    self.produced_text = true;
                }
            },
            _ => {},
        }
    }

    /// The text left in the buffer once the stream ended, when it holds more than
    /// whitespace; left-over bytes that are not valid UTF-8 are an invalid response.
    pub fn trailing_frame(&self) -> (r: Result<Option<String>, RouterError>)
        ensures
            !vstd::utf8::valid_utf8(self.buffer@) ==> r == Err::<Option<String>, RouterError>(
                RouterError::InvalidResponse,
            ),
            vstd::utf8::valid_utf8(self.buffer@) ==> {
                let text = vstd::utf8::decode_utf8(self.buffer@);
                if trim(text).len() > 0 {
                    r matches Ok(Some(t)) && t@ == text
                } else {
                    r == Ok::<Option<String>, RouterError>(None)
                }
            },
    {
        match decode_utf8(self.buffer.as_slice()) {
            None => Err(RouterError::InvalidResponse),
            Some(text) => {
                let v = chars_of(text.as_str());
                let (a, b) = crate::text::trim_range(&v, 0, v.len());
                assert(v@.subrange(0, v.len() as int) =~= v@);
                if a < b {
                    Ok(Some(text))
                } else {
                    Ok(None)
                }
            },
        }
    }

    /// A stream that ended without any text is an invalid response.
    pub fn check_produced(&self) -> (r: Result<(), RouterError>)
        ensures
            r is Ok <==> self.produced_text,
            r matches Err(e) ==> e == RouterError::InvalidResponse,
    {
        if self.produced_text {
            Ok(())
        } else {
            Err(RouterError::InvalidResponse)
        }
    }

    /// Ends the stream. The event read from the left-over bytes, if any, is always
    /// handed back first; then `Done` when the stream carried text, or else the
    /// outcome is an invalid response, to be raised after that event.
    pub fn end_of_stream(&mut self, trailing: Option<StreamEvent>) -> (r: (
        Vec<StreamEvent>,
        Result<(), RouterError>,
    ))
        ensures
            final(self).buffer@ == old(self).buffer@,
            final(self).produced_text == (old(self).produced_text || (trailing matches Some(e)
                && carries_text(e))),
            r.1 is Ok <==> final(self).produced_text,
            r.1 matches Err(e) ==> e == RouterError::InvalidResponse,
            r.0@ == trailing_events(trailing) + if final(self).produced_text {
                seq![StreamEvent::Done]
            } else {
                Seq::<StreamEvent>::empty()
            },
    {
        let mut events: Vec<StreamEvent> = Vec::new();
        if let Some(event) = trailing {
            self.observe(&event);
            events.push(event);
        }
        if !self.produced_text {
            assert(events@ =~= trailing_events(trailing) + Seq::<StreamEvent>::empty());
            return (events, Err(RouterError::InvalidResponse));
        }
        events.push(StreamEvent::Done);
        assert(events@ =~= trailing_events(trailing) + seq![StreamEvent::Done]);
        (events, Ok(()))
    }
}

/// The event read from the left-over bytes, as a sequence of none or one.
pub open spec fn trailing_events(trailing: Option<StreamEvent>) -> Seq<StreamEvent> {
    match trailing {
        Some(e) => seq![e],
        None => seq![],
    }
}

/// The events of a streamed completion, in order: the metadata, the events of
/// the frames, then what [`SseDecoder::end_of_stream`] gives.
pub open spec fn stream_events(
    metadata: StreamEvent,
    frames: Seq<StreamEvent>,
    end: Seq<StreamEvent>,
) -> Seq<StreamEvent> {
    seq![metadata] + frames + end
}

/// `Done` comes once, last: when the metadata and the frames' events (which
/// [`chunk_event`] never makes `Done`) are followed by the events of a successful
/// [`SseDecoder::end_of_stream`].
pub proof fn lemma_done_once_last(
    metadata: StreamEvent,
    frames: Seq<StreamEvent>,
    trailing: Option<StreamEvent>,
)
    requires
        metadata is Metadata,
        forall|i: int| 0 <= i < frames.len() ==> !(#[trigger] frames[i] is Done),
        trailing matches Some(e) ==> !(e is Done),
    ensures
        ({
            let end = trailing_events(trailing) + seq![StreamEvent::Done];
            let all = stream_events(metadata, frames, end);
            &&& all.last() is Done
            &&& forall|i: int| 0 <= i < all.len() - 1 ==> !(#[trigger] all[i] is Done)
        }),
{
    let end = trailing_events(trailing) + seq![StreamEvent::Done];
    let all = stream_events(metadata, frames, end);
    assert forall|i: int| 0 <= i < all.len() - 1 implies !(#[trigger] all[i] is Done) by {
        if i == 0 {
            assert(all[0] == metadata);
        } else if i <= frames.len() {
            assert(all[i] == frames[i - 1]);
        } else {
            assert(all[i] == end[i - 1 - frames.len()]);
        }
    }
}


/// The payload of a `data:` line, past the field name and any leading whitespace.
pub open spec fn data_payload(line: Seq<char>) -> Option<Seq<char>> {
    if starts_with(line, "data:"@) {
        Some(crate::text::trim_start(line.skip(5)))
    } else {
        None
    }
}

/// The payloads of the `data:` lines among `lines`, in order.
pub open spec fn data_payloads(lines: Seq<Seq<char>>) -> Seq<Seq<char>>
    decreases lines.len(),
{
    if lines.len() == 0 {
        seq![]
    } else {
        let prev = data_payloads(lines.drop_last());
        match data_payload(lines.last()) {
            Some(d) => prev.push(d),
            None => prev,
        }
    }
}

/// The data of one server-sent event: its `data:` payloads joined by line feeds;
/// none when there is none or when it is the `[DONE]` marker.
pub open spec fn frame_data_of(frame: Seq<char>) -> Option<Seq<char>> {
    let data = crate::text::join_with(data_payloads(lines_of(frame)), seq!['\n']);
    if data.len() == 0 || data == "[DONE]"@ {
        None
    } else {
        Some(data)
    }
}

/// The data of one server-sent event, as [`frame_data_of`] describes it.
pub fn frame_data(frame: &str) -> (r: Option<String>)
    ensures
        match frame_data_of(frame@) {
            Some(d) => r matches Some(t) && t@ == d,
            None => r is None,
        },
{
    let v = chars_of(frame);
    let lines = lines_in(&v);
    let prefix = chars_of("data:");
    proof {
        reveal_strlit("data:");
    }
    let mut parts: Vec<Vec<char>> = Vec::new();
    let mut k: usize = 0;
    assert(views(lines@).take(0) =~= seq![]);
    assert(views(parts@) =~= seq![]);
    while k < lines.len()
        invariant
            k <= lines.len(),
            prefix@ == "data:"@,
            prefix@.len() == 5,
            views(parts@) == data_payloads(views(lines@).take(k as int)),
        decreases lines.len() - k,
    {
        let ghost ls = views(lines@);
        assert(ls.take(k + 1).drop_last() =~= ls.take(k as int));
        let line = &lines[k];
        assert(ls.take(k + 1).last() == line@);
        if matches_at(line, &prefix, 0) {
            let a = crate::text::trim_start_range(line, 5, line.len());
            assert(line@.subrange(5, line.len() as int) =~= line@.skip(5));
            let payload = copy_range(line, a, line.len());
            let ghost before = views(parts@);
            parts.push(payload);
            assert(views(parts@) =~= before.push(payload@));
        }
        k = k + 1;
    }
    assert(views(lines@).take(lines.len() as int) =~= views(lines@));
    let newline = vec!['\n'];
    assert(newline@ =~= seq!['\n']);
    let data = crate::text::join_chars(&parts, &newline);
    let done = chars_of("[DONE]");
    if data.len() == 0 || crate::text::matches_at(&data, &done, 0) && data.len() == done.len() {
        proof {
            if data.len() > 0 {
                assert(data@ =~= data@.subrange(0, done@.len() as int));
            }
        }
        None
    } else {
        proof {
            if data@ == "[DONE]"@ {
                assert(data@.subrange(0, done@.len() as int) =~= data@);
            }
        }
        Some(string_from(&data))
    }
}

/// A line of an event: no line feed inside, no carriage return at its end.
pub open spec fn plain_line(l: Seq<char>) -> bool {
    &&& !l.contains('\n')
    &&& !(l.len() > 0 && l.last() == '\r')
}

/// An event's data does not depend on how its lines end: the same lines joined
/// by `\r\n` or by `\n` carry the same data.
pub proof fn lemma_frame_line_endings(ls: Seq<Seq<char>>)
    requires
        forall|i: int| 0 <= i < ls.len() ==> plain_line(#[trigger] ls[i]),
    ensures
        frame_data_of(crate::text::join_with(ls, seq!['\r', '\n'])) == frame_data_of(
            crate::text::join_with(ls, seq!['\n']),
        ),
{
    if ls.len() > 0 {
        lemma_joined_lines(ls, seq!['\r', '\n']);
        lemma_joined_lines(ls, seq!['\n']);
    } else {
        assert(crate::text::join_with(ls, seq!['\r', '\n']) == crate::text::join_with(
            ls,
            seq!['\n'],
        ));
    }
}

proof fn lemma_line_state_append(x: Seq<char>, y: Seq<char>)
    requires
        !y.contains('\n'),
    ensures
        crate::text::line_state(x + y) == (crate::text::line_state(x).0, crate::text::line_state(
            x,
        ).1 + y),
    decreases y.len(),
{
    if y.len() == 0 {
        assert(x + y =~= x);
        assert(crate::text::line_state(x).1 + y =~= crate::text::line_state(x).1);
    } else {
        let y1 = y.drop_last();
        assert(!y1.contains('\n')) by {
            if y1.contains('\n') {
                let k = choose|k: int| 0 <= k < y1.len() && y1[k] == '\n';
                assert(y[k] == '\n');
            }
        }
        lemma_line_state_append(x, y1);
        assert((x + y).drop_last() =~= x + y1);
        assert((x + y).last() == y.last());
        assert(y.last() != '\n') by {
            assert(y[y.len() - 1] == y.last());
        }
        assert((crate::text::line_state(x).1 + y1).push(y.last()) =~= crate::text::line_state(x).1
            + y);
    }
}

proof fn lemma_joined_lines(ls: Seq<Seq<char>>, sep: Seq<char>)
    requires
        ls.len() > 0,
        forall|i: int| 0 <= i < ls.len() ==> plain_line(#[trigger] ls[i]),
        sep == seq!['\r', '\n'] || sep == seq!['\n'],
    ensures
        crate::text::line_state(crate::text::join_with(ls, sep)) == (ls.drop_last(), ls.last()),
    decreases ls.len(),
{
    let last = ls.last();
    assert(plain_line(ls[ls.len() - 1]));
    if ls.len() == 1 {
        lemma_line_state_append(Seq::<char>::empty(), last);
        assert(Seq::<char>::empty() + last =~= last);
        assert(crate::text::line_state(Seq::<char>::empty()) == (
            Seq::<Seq<char>>::empty(),
            Seq::<char>::empty(),
        ));
        assert(Seq::<char>::empty() + last =~= last);
        assert(ls.drop_last() =~= Seq::<Seq<char>>::empty());
    } else {
        let prev = ls.drop_last();
        assert forall|i: int| 0 <= i < prev.len() implies plain_line(#[trigger] prev[i]) by {
            assert(prev[i] == ls[i]);
        }
        lemma_joined_lines(prev, sep);
        let j = crate::text::join_with(prev, sep);
        let pl = prev.last();
        assert(plain_line(prev[prev.len() - 1]));
        let st = crate::text::line_state(j + sep);
        if sep == seq!['\r', '\n'] {
            let jr = j.push('\r');
            assert(jr.drop_last() =~= j);
            assert(crate::text::line_state(jr) == (prev.drop_last(), pl.push('\r')));
            assert((j + sep).drop_last() =~= jr);
            assert(crate::text::strip_cr(pl.push('\r')) =~= pl);
        } else {
            assert((j + sep).drop_last() =~= j);
        }
        assert(st == (prev.drop_last().push(pl), Seq::<char>::empty()));
        assert(prev.drop_last().push(pl) =~= prev);
        lemma_line_state_append(j + sep, last);
        assert(Seq::<char>::empty() + last =~= last);
        assert(crate::text::join_with(ls, sep) == j + sep + last);
    }
}

/// The byte strings `ls` joined by `sep`.
pub open spec fn join_bytes(ls: Seq<Seq<u8>>, sep: Seq<u8>) -> Seq<u8>
    decreases ls.len(),
{
    if ls.len() == 0 {
        seq![]
    } else if ls.len() == 1 {
        ls[0]
    } else {
        join_bytes(ls.drop_last(), sep) + sep + ls.last()
    }
}

proof fn lemma_decode_concat(a: Seq<u8>, b: Seq<u8>)
    requires
        vstd::utf8::valid_utf8(a),
        vstd::utf8::valid_utf8(b),
    ensures
        vstd::utf8::valid_utf8(a + b),
        vstd::utf8::decode_utf8(a + b) == vstd::utf8::decode_utf8(a) + vstd::utf8::decode_utf8(b),
    decreases a.len(),
{
    vstd::utf8::valid_utf8_concat(a, b);
    if a.len() == 0 {
        assert(a + b =~= b);
        assert(vstd::utf8::decode_utf8(a) + vstd::utf8::decode_utf8(b) =~= vstd::utf8::decode_utf8(
            b,
        ));
    } else {
        let rest = vstd::utf8::pop_first_scalar(a);
        assert(rest.len() < a.len());
        lemma_decode_concat(rest, b);
        assert(vstd::utf8::pop_first_scalar(a + b) =~= rest + b);
        assert(vstd::utf8::decode_first_scalar(a + b) == vstd::utf8::decode_first_scalar(a));
        let c = seq![vstd::utf8::decode_first_scalar(a) as char];
        assert(c + (vstd::utf8::decode_utf8(rest) + vstd::utf8::decode_utf8(b)) =~= (c
            + vstd::utf8::decode_utf8(rest)) + vstd::utf8::decode_utf8(b));
    }
}

/// The text of each byte string of `ls`.
pub open spec fn decoded_lines(ls: Seq<Seq<u8>>) -> Seq<Seq<char>> {
    ls.map_values(|l: Seq<u8>| vstd::utf8::decode_utf8(l))
}

proof fn lemma_decode_join(ls: Seq<Seq<u8>>, sep: Seq<u8>)
    requires
        forall|i: int| 0 <= i < ls.len() ==> vstd::utf8::valid_utf8(#[trigger] ls[i]),
        vstd::utf8::valid_utf8(sep),
    ensures
        vstd::utf8::valid_utf8(join_bytes(ls, sep)),
        vstd::utf8::decode_utf8(join_bytes(ls, sep)) == crate::text::join_with(
            decoded_lines(ls),
            vstd::utf8::decode_utf8(sep),
        ),
    decreases ls.len(),
{
    let ds = decoded_lines(ls);
    if ls.len() == 0 {
        assert(vstd::utf8::valid_utf8(Seq::<u8>::empty()));
    } else if ls.len() == 1 {
        assert(vstd::utf8::valid_utf8(ls[0]));
    } else {
        let prev = ls.drop_last();
        assert forall|i: int| 0 <= i < prev.len() implies vstd::utf8::valid_utf8(#[trigger] prev[i]) by {
            assert(prev[i] == ls[i]);
        }
        lemma_decode_join(prev, sep);
        let j = join_bytes(prev, sep);
        assert(vstd::utf8::valid_utf8(ls[ls.len() - 1]));
        lemma_decode_concat(j, sep);
        lemma_decode_concat(j + sep, ls.last());
        assert(decoded_lines(prev) =~= ds.drop_last());
        assert(ds.last() == vstd::utf8::decode_utf8(ls.last()));
    }
}

proof fn lemma_decode_separators()
    ensures
        vstd::utf8::valid_utf8(seq![10u8]),
        vstd::utf8::decode_utf8(seq![10u8]) == seq!['\n'],
        vstd::utf8::valid_utf8(seq![13u8, 10u8]),
        vstd::utf8::decode_utf8(seq![13u8, 10u8]) == seq!['\r', '\n'],
{
    let lf = seq!['\n'];
    let crlf = seq!['\r', '\n'];
    assert(vstd::utf8::is_ascii_chars(lf));
    assert(vstd::utf8::is_ascii_chars(crlf));
    vstd::utf8::is_ascii_chars_encode_utf8(lf);
    vstd::utf8::is_ascii_chars_encode_utf8(crlf);
    assert(vstd::utf8::encode_utf8(lf) =~= seq![10u8]);
    assert(vstd::utf8::encode_utf8(crlf) =~= seq![13u8, 10u8]);
    vstd::utf8::encode_utf8_valid_utf8(lf);
    vstd::utf8::encode_utf8_valid_utf8(crlf);
    vstd::utf8::encode_utf8_decode_utf8(lf);
    vstd::utf8::encode_utf8_decode_utf8(crlf);
}

proof fn lemma_first_char_control(l: Seq<u8>, v: u32)
    requires
        vstd::utf8::valid_utf8(l),
        l.len() > 0,
        v == 10 || v == 13,
        (vstd::utf8::decode_first_scalar(l) as char) as u32 == v,
    ensures
        l[0] == v as u8,
        vstd::utf8::length_of_first_scalar(l) == 1,
{
    vstd::utf8::decode_utf8_first_scalar(l);
    assert((10u32 & 0x7Fu32) as u8 == 10u8) by (bit_vector);
    assert((13u32 & 0x7Fu32) as u8 == 13u8) by (bit_vector);
    let t = vstd::utf8::take_first_scalar(l);
    assert(t == vstd::utf8::encode_scalar(v));
    assert(t.len() == 1);
    assert(t[0] == l[0]);
}

proof fn lemma_decode_no_lf(l: Seq<u8>)
    requires
        vstd::utf8::valid_utf8(l),
        forall|i: int| 0 <= i < l.len() ==> l[i] != 10u8,
    ensures
        !vstd::utf8::decode_utf8(l).contains('\n'),
    decreases l.len(),
{
    if l.len() > 0 {
        let rest = vstd::utf8::pop_first_scalar(l);
        assert(rest.len() < l.len());
        assert forall|i: int| 0 <= i < rest.len() implies rest[i] != 10u8 by {
            assert(rest[i] == l[i + vstd::utf8::length_of_first_scalar(l)]);
        }
        lemma_decode_no_lf(rest);
        let d = vstd::utf8::decode_utf8(l);
        let c = vstd::utf8::decode_first_scalar(l) as char;
        assert(d == seq![c] + vstd::utf8::decode_utf8(rest));
        if c == '\n' {
            lemma_first_char_control(l, 10);
        }
        if d.contains('\n') {
            let k = choose|k: int| 0 <= k < d.len() && d[k] == '\n';
            if k > 0 {
                assert(vstd::utf8::decode_utf8(rest)[k - 1] == '\n');
            }
        }
    }
}

proof fn lemma_decode_last_not_cr(l: Seq<u8>)
    requires
        vstd::utf8::valid_utf8(l),
        l.len() > 0,
        l.last() != 13u8,
    ensures
        vstd::utf8::decode_utf8(l).len() > 0,
        vstd::utf8::decode_utf8(l).last() != '\r',
    decreases l.len(),
{
    let rest = vstd::utf8::pop_first_scalar(l);
    assert(rest.len() < l.len());
    let d = vstd::utf8::decode_utf8(l);
    let c = vstd::utf8::decode_first_scalar(l) as char;
    assert(d == seq![c] + vstd::utf8::decode_utf8(rest));
    if rest.len() > 0 {
        assert(rest.last() == l.last());
        lemma_decode_last_not_cr(rest);
        assert(d.last() == vstd::utf8::decode_utf8(rest).last());
    } else {
        assert(vstd::utf8::decode_utf8(rest) =~= Seq::<char>::empty());
        assert(d.last() == c);
        if c == '\r' {
            lemma_first_char_control(l, 13);
            assert(l.len() == 1);
        }
    }
}

/// A line of an event as bytes: valid UTF-8, not empty, with no line feed and no
/// carriage return at its end.
pub open spec fn event_line(l: Seq<u8>) -> bool {
    &&& vstd::utf8::valid_utf8(l)
    &&& l.len() > 0
    &&& forall|i: int| 0 <= i < l.len() ==> l[i] != 10u8
    &&& l.last() != 13u8
}

/// What the lines of an event joined by line feeds look like: no blank line, and
/// no carriage return before a line feed.
pub open spec fn lf_frame(s: Seq<u8>) -> bool {
    &&& s.len() > 0
    &&& s[0] != 10u8
    &&& s.last() != 10u8
    &&& s.last() != 13u8
    &&& forall|i: int| 0 <= i < s.len() - 1 ==> !(s[i] == 10u8 && #[trigger] s[i + 1] == 10u8)
    &&& forall|i: int| 0 <= i < s.len() - 1 ==> !(s[i] == 13u8 && #[trigger] s[i + 1] == 10u8)
}

/// What the lines of an event joined by `\r\n` look like: no blank line.
pub open spec fn crlf_frame(s: Seq<u8>) -> bool {
    &&& s.len() > 0
    &&& s[0] != 10u8
    &&& s.last() != 10u8
    &&& s.last() != 13u8
    &&& forall|i: int| 0 <= i < s.len() - 1 ==> !(s[i] == 10u8 && #[trigger] s[i + 1] == 10u8)
    &&& forall|i: int|
        0 <= i < s.len() - 3 ==> !(s[i] == 13u8 && s[i + 1] == 10u8 && s[i + 2] == 13u8
            && #[trigger] s[i + 3] == 10u8)
}

proof fn lemma_lf_frame(ls: Seq<Seq<u8>>)
    requires
        ls.len() > 0,
        forall|i: int| 0 <= i < ls.len() ==> event_line(#[trigger] ls[i]),
    ensures
        lf_frame(join_bytes(ls, seq![10u8])),
    decreases ls.len(),
{
    let l = ls.last();
    assert(event_line(ls[ls.len() - 1]));
    if ls.len() == 1 {
        assert(join_bytes(ls, seq![10u8]) == ls[0]);
        assert(ls[0] == l);
        assert(l[0] != 10u8);
        assert(l[l.len() - 1] == l.last());
    } else {
        let prev = ls.drop_last();
        assert forall|i: int| 0 <= i < prev.len() implies event_line(#[trigger] prev[i]) by {
            assert(prev[i] == ls[i]);
        }
        lemma_lf_frame(prev);
        let j = join_bytes(prev, seq![10u8]);
        let s = join_bytes(ls, seq![10u8]);
        let n = j.len() as int;
        assert(s == j + seq![10u8] + l);
        assert(s.len() == n + 1 + l.len());
        assert(s[0] == j[0]);
        assert(s.last() == l.last());
        assert(l[0] != 10u8);
        assert forall|i: int| 0 <= i < s.len() - 1 implies !(s[i] == 10u8 && #[trigger] s[i + 1]
            == 10u8) by {
            if i < n - 1 {
                assert(s[i] == j[i] && s[i + 1] == j[i + 1]);
            } else if i == n - 1 {
                assert(s[i] == j.last());
            } else if i == n {
                assert(s[i + 1] == l[0]);
            } else {
                assert(s[i] == l[i - n - 1]);
            }
        }
        assert forall|i: int| 0 <= i < s.len() - 1 implies !(s[i] == 13u8 && #[trigger] s[i + 1]
            == 10u8) by {
            if i < n - 1 {
                assert(s[i] == j[i] && s[i + 1] == j[i + 1]);
            } else if i == n - 1 {
                assert(s[i] == j.last());
            } else if i == n {
                assert(s[i] == 10u8);
            } else {
                assert(s[i + 1] == l[i + 1 - n - 1]);
            }
        }
    }
}

proof fn lemma_crlf_frame(ls: Seq<Seq<u8>>)
    requires
        ls.len() > 0,
        forall|i: int| 0 <= i < ls.len() ==> event_line(#[trigger] ls[i]),
    ensures
        crlf_frame(join_bytes(ls, seq![13u8, 10u8])),
    decreases ls.len(),
{
    let l = ls.last();
    assert(event_line(ls[ls.len() - 1]));
    if ls.len() == 1 {
        assert(join_bytes(ls, seq![13u8, 10u8]) == ls[0]);
        assert(ls[0] == l);
        assert(l[0] != 10u8);
        assert(l[l.len() - 1] == l.last());
    } else {
        let prev = ls.drop_last();
        assert forall|i: int| 0 <= i < prev.len() implies event_line(#[trigger] prev[i]) by {
            assert(prev[i] == ls[i]);
        }
        lemma_crlf_frame(prev);
        let j = join_bytes(prev, seq![13u8, 10u8]);
        let s = join_bytes(ls, seq![13u8, 10u8]);
        let n = j.len() as int;
        assert(s == j + seq![13u8, 10u8] + l);
        assert(s.len() == n + 2 + l.len());
        assert(s[0] == j[0]);
        assert(s.last() == l.last());
        assert(l[0] != 10u8);
        assert(s[n] == 13u8 && s[n + 1] == 10u8);
        assert forall|i: int| 0 <= i < s.len() - 1 implies !(s[i] == 10u8 && #[trigger] s[i + 1]
            == 10u8) by {
            if i < n - 1 {
                assert(s[i] == j[i] && s[i + 1] == j[i + 1]);
            } else if i == n - 1 {
                assert(s[i] == j.last());
            } else if i == n {
            } else if i == n + 1 {
                assert(s[i + 1] == l[0]);
            } else {
                assert(s[i] == l[i - n - 2]);
            }
        }
        assert forall|i: int| 0 <= i < s.len() - 3 implies !(s[i] == 13u8 && s[i + 1] == 10u8
            && s[i + 2] == 13u8 && #[trigger] s[i + 3] == 10u8) by {
            if i + 3 < n {
                assert(s[i] == j[i] && s[i + 1] == j[i + 1] && s[i + 2] == j[i + 2] && s[i + 3]
                    == j[i + 3]);
            } else if i + 3 == n {
                assert(s[i + 2] == j.last());
            } else if i + 3 == n + 1 {
                assert(s[i + 1] == j.last());
            } else if i + 3 == n + 2 {
                assert(s[i] == j.last());
            } else if i + 3 == n + 3 {
                assert(s[i + 3] == l[1]);
            } else if i == n + 1 {
            } else {
                assert(s[i + 1] == l[i + 1 - n - 2]);
            }
        }
    }
}

proof fn lemma_lf_boundary(s: Seq<u8>, rest: Seq<u8>)
    requires
        lf_frame(s),
    ensures
        sse_boundary(s + seq![10u8, 10u8] + rest) == Some((s.len() as int, 2int)),
{
    let lf = seq![10u8, 10u8];
    let crlf = seq![13u8, 10u8, 13u8, 10u8];
    let buf = s + lf + rest;
    let n = s.len() as int;
    assert(buf.subrange(n, n + 2) =~= lf);
    assert forall|i: int| 0 <= i < n implies !bytes_at(buf, lf, i) by {
        if bytes_at(buf, lf, i) {
            assert(buf.subrange(i, i + 2)[0] == buf[i] && buf.subrange(i, i + 2)[1] == buf[i + 1]);
            if i < n - 1 {
                assert(buf[i] == s[i] && buf[i + 1] == s[i + 1]);
            } else {
                assert(buf[i] == s.last());
            }
        }
    }
    lemma_first_bytes_at(buf, lf, 0, n);
    lemma_first_bytes_found(buf, crlf, 0);
    lemma_first_bytes_range(buf, crlf, 0);
    if let Some(b) = first_bytes(buf, crlf, 0) {
        let w = buf.subrange(b, b + 4);
        assert(w[0] == buf[b] && w[1] == buf[b + 1]);
        if b <= n {
            if b == n {
                assert(buf[n] == 10u8);
            } else if b == n - 1 {
                assert(buf[b] == s.last());
            } else {
                assert(buf[b] == s[b] && buf[b + 1] == s[b + 1]);
            }
        }
    }
}

proof fn lemma_crlf_boundary(s: Seq<u8>, rest: Seq<u8>)
    requires
        crlf_frame(s),
    ensures
        sse_boundary(s + seq![13u8, 10u8, 13u8, 10u8] + rest) == Some((s.len() as int, 4int)),
{
    let lf = seq![10u8, 10u8];
    let crlf = seq![13u8, 10u8, 13u8, 10u8];
    let buf = s + crlf + rest;
    let n = s.len() as int;
    assert(buf.subrange(n, n + 4) =~= crlf);
    assert(buf[n] == 13u8 && buf[n + 1] == 10u8);
    assert forall|i: int| 0 <= i < n implies !bytes_at(buf, crlf, i) by {
        if bytes_at(buf, crlf, i) {
            let w = buf.subrange(i, i + 4);
            assert(w[0] == buf[i] && w[1] == buf[i + 1] && w[2] == buf[i + 2] && w[3] == buf[i
                + 3]);
            if i + 3 < n {
                assert(buf[i] == s[i] && buf[i + 1] == s[i + 1] && buf[i + 2] == s[i + 2] && buf[i
                    + 3] == s[i + 3]);
            } else if i + 3 == n {
            } else if i + 2 == n {
                assert(buf[i + 1] == s.last());
            } else {
                assert(buf[i] == s.last());
            }
        }
    }
    lemma_first_bytes_at(buf, crlf, 0, n);
    lemma_first_bytes_found(buf, lf, 0);
    lemma_first_bytes_range(buf, lf, 0);
    if let Some(a) = first_bytes(buf, lf, 0) {
        let w = buf.subrange(a, a + 2);
        assert(w[0] == buf[a] && w[1] == buf[a + 1]);
        if a <= n {
            if a == n {
            } else if a == n - 1 {
                assert(buf[a] == s.last());
            } else {
                assert(buf[a] == s[a] && buf[a + 1] == s[a + 1]);
            }
        }
    }
}

/// A stream body: each event's lines joined by `line_sep`, each event followed by
/// `event_sep`.
pub open spec fn sse_body(events: Seq<Seq<Seq<u8>>>, line_sep: Seq<u8>, event_sep: Seq<u8>) -> Seq<
    u8,
>
    decreases events.len(),
{
    if events.len() == 0 {
        seq![]
    } else {
        join_bytes(events[0], line_sep) + event_sep + sse_body(
            events.drop_first(),
            line_sep,
            event_sep,
        )
    }
}

/// The events of a stream, each as lines of bytes: none empty, each line an
/// [`event_line`].
pub open spec fn event_lines(events: Seq<Seq<Seq<u8>>>) -> bool {
    forall|k: int|
        0 <= k < events.len() ==> (#[trigger] events[k]).len() > 0 && forall|i: int|
            0 <= i < events[k].len() ==> event_line(#[trigger] events[k][i])
}

proof fn lemma_drain_body(events: Seq<Seq<Seq<u8>>>, crlf: bool)
    requires
        event_lines(events),
    ensures
        ({
            let line_sep = if crlf { seq![13u8, 10u8] } else { seq![10u8] };
            let event_sep = if crlf { seq![13u8, 10u8, 13u8, 10u8] } else { seq![10u8, 10u8] };
            drain_frames(sse_body(events, line_sep, event_sep)) == (
                events.map_values(|ls: Seq<Seq<u8>>| join_bytes(ls, line_sep)),
                Seq::<u8>::empty(),
            )
        }),
    decreases events.len(),
{
    let line_sep = if crlf { seq![13u8, 10u8] } else { seq![10u8] };
    let event_sep = if crlf { seq![13u8, 10u8, 13u8, 10u8] } else { seq![10u8, 10u8] };
    let body = sse_body(events, line_sep, event_sep);
    if events.len() == 0 {
        lemma_first_bytes_range(body, seq![10u8, 10u8], 0);
        lemma_first_bytes_range(body, seq![13u8, 10u8, 13u8, 10u8], 0);
        assert(events.map_values(|ls: Seq<Seq<u8>>| join_bytes(ls, line_sep)) =~= Seq::<
            Seq<u8>,
        >::empty());
    } else {
        let tail = events.drop_first();
        assert forall|k: int| 0 <= k < tail.len() implies (#[trigger] tail[k]).len() > 0
            && forall|i: int| 0 <= i < tail[k].len() ==> event_line(#[trigger] tail[k][i]) by {
            assert(tail[k] == events[k + 1]);
        }
        lemma_drain_body(tail, crlf);
        let ls = events[0];
        assert(ls.len() > 0);
        assert forall|i: int| 0 <= i < ls.len() implies event_line(#[trigger] ls[i]) by {
            assert(event_line(events[0][i]));
        }
        let f = join_bytes(ls, line_sep);
        let rest = sse_body(tail, line_sep, event_sep);
        if crlf {
            lemma_crlf_frame(ls);
            lemma_crlf_boundary(f, rest);
        } else {
            lemma_lf_frame(ls);
            lemma_lf_boundary(f, rest);
        }
        let n = f.len() as int;
        assert(body == f + event_sep + rest);
        assert(body.take(n) =~= f);
        assert(body.skip(n + event_sep.len()) =~= rest);
        let m = events.map_values(|x: Seq<Seq<u8>>| join_bytes(x, line_sep));
        let mt = tail.map_values(|x: Seq<Seq<u8>>| join_bytes(x, line_sep));
        assert(m =~= seq![f] + mt);
    }
}

/// A stream's events do not depend on how its lines end: the same events, with
/// lines joined by `\n` and events ended by `\n\n`, or with lines joined by
/// `\r\n` and events ended by `\r\n\r\n`, are cut into as many frames, with
/// nothing left over, and each pair of frames is valid UTF-8 and carries the same
/// data.
pub proof fn lemma_sse_line_endings(events: Seq<Seq<Seq<u8>>>)
    requires
        event_lines(events),
    ensures
        ({
            let (lf, lf_rest) = drain_frames(sse_body(events, seq![10u8], seq![10u8, 10u8]));
            let (crlf, crlf_rest) = drain_frames(
                sse_body(events, seq![13u8, 10u8], seq![13u8, 10u8, 13u8, 10u8]),
            );
            &&& lf_rest.len() == 0 && crlf_rest.len() == 0
            &&& lf.len() == events.len() && crlf.len() == events.len()
            &&& forall|k: int|
                0 <= k < events.len() ==> vstd::utf8::valid_utf8(#[trigger] lf[k])
                    && vstd::utf8::valid_utf8(crlf[k]) && frame_data_of(
                    vstd::utf8::decode_utf8(crlf[k]),
                ) == frame_data_of(vstd::utf8::decode_utf8(lf[k]))
        }),
{
    lemma_drain_body(events, false);
    lemma_drain_body(events, true);
    lemma_decode_separators();
    let (lf, lf_rest) = drain_frames(sse_body(events, seq![10u8], seq![10u8, 10u8]));
    let (crlf, crlf_rest) = drain_frames(
        sse_body(events, seq![13u8, 10u8], seq![13u8, 10u8, 13u8, 10u8]),
    );
    assert forall|k: int| 0 <= k < events.len() implies vstd::utf8::valid_utf8(#[trigger] lf[k])
        && vstd::utf8::valid_utf8(crlf[k]) && frame_data_of(vstd::utf8::decode_utf8(crlf[k]))
        == frame_data_of(vstd::utf8::decode_utf8(lf[k])) by {
        let ls = events[k];
        assert forall|i: int| 0 <= i < ls.len() implies vstd::utf8::valid_utf8(#[trigger] ls[i]) by {
            assert(event_line(events[k][i]));
        }
        lemma_decode_join(ls, seq![10u8]);
        lemma_decode_join(ls, seq![13u8, 10u8]);
        assert(lf[k] == join_bytes(ls, seq![10u8]));
        assert(crlf[k] == join_bytes(ls, seq![13u8, 10u8]));
        let ds = decoded_lines(ls);
        assert forall|i: int| 0 <= i < ds.len() implies plain_line(#[trigger] ds[i]) by {
            assert(event_line(events[k][i]));
            assert(ls[i] == events[k][i]);
            lemma_decode_no_lf(ls[i]);
            lemma_decode_last_not_cr(ls[i]);
        }
        lemma_frame_line_endings(ds);
    }
}

/// One parsed streaming chunk of the router: the model it names, the text of
/// each choice's delta, and the usage it reports.
#[derive(Debug, Clone)]
pub struct StreamChunk {
    pub model: Option<String>,
    pub contents: Vec<Option<String>>,
    pub usage: Option<TokenUsage>,
}

/// The first delta text that is present.
pub open spec fn first_content(cs: Seq<Option<String>>) -> Option<String>
    decreases cs.len(),
{
    if cs.len() == 0 {
        None
    } else if cs[0] is Some {
        cs[0]
    } else {
        first_content(cs.drop_first())
    }
}

/// The event a streaming chunk becomes: its usage when it reports one, else the
/// first delta text present, when it is not empty.
pub fn chunk_event(chunk: StreamChunk) -> (r: Option<StreamEvent>)
    ensures
        match chunk.usage {
            Some(u) => r matches Some(StreamEvent::Usage { usage }) && usage == u,
            None => match first_content(chunk.contents@) {
                Some(t) => if t@.len() > 0 {
                    r matches Some(StreamEvent::Delta { text }) && text@ == t@
                } else {
                    r is None
                },
                None => r is None,
            },
        },
{
    if let Some(usage) = chunk.usage {
        return Some(StreamEvent::Usage { usage });
    }
    let mut i: usize = 0;
    assert(chunk.contents@.skip(0) =~= chunk.contents@);
    while i < chunk.contents.len()
        invariant
            chunk.usage is None,
            i <= chunk.contents.len(),
            first_content(chunk.contents@) == first_content(chunk.contents@.skip(i as int)),
        decreases chunk.contents.len() - i,
    {
        assert(chunk.contents@.skip(i as int).drop_first() =~= chunk.contents@.skip(i + 1));
        match &chunk.contents[i] {
            Some(text) => {
                if text.as_str().is_empty() {
                    return None;
                }
                return Some(StreamEvent::Delta { text: text.clone() });
            },
            None => {},
        }
        i = i + 1;
    }
    None
}

/// The parsed body of a finished upstream completion: the model it names, the
/// message text of each choice, and the usage it reports.
#[derive(Debug, Clone)]
pub struct CompletionReply {
    pub model: String,
    pub contents: Vec<String>,
    pub usage: Option<TokenUsage>,
}

/// The completion for `request` from the router's reply and its headers: the
/// first choice's text, which must hold more than whitespace, the model the
/// headers name or else the reply names, and the routing receipt.
pub fn completion_from_reply(
    request: &CompletionRequest,
    header_model: Option<String>,
    header_reason: Option<String>,
    reply: CompletionReply,
) -> (r: Result<CompletionResponse, RouterError>)
    ensures
        r is Err <==> (reply.contents@.len() == 0 || trim(reply.contents@[0]@).len() == 0),
        r matches Err(e) ==> e == RouterError::InvalidResponse,
        r matches Ok(c) ==> {
            let selected = if header_model is Some {
                header_model->0@
            } else {
                reply.model@
            };
            &&& c.content@ == reply.contents@[0]@
            &&& c.requested_model == request.model
            &&& c.selected_model@ == selected
            &&& c.routing_mode == request.routing_mode
            &&& (opt_view(c.routing_reason), opt_view(c.classifier_confidence))
                == routing_receipt_of(request.routing_mode, selected, opt_view(header_reason))
            &&& c.usage == reply.usage
        },
{
    if reply.contents.len() == 0 {
        return Err(RouterError::InvalidResponse);
    }
    let content = reply.contents[0].clone();
    let v = chars_of(content.as_str());
    let (a, b) = crate::text::trim_range(&v, 0, v.len());
    assert(v@.subrange(0, v.len() as int) =~= v@);
    if a == b {
        return Err(RouterError::InvalidResponse);
    }
    let selected_model = match header_model {
        Some(m) => m,
        None => reply.model,
    };
    let (routing_reason, classifier_confidence) = routing_receipt(
        request.routing_mode,
        selected_model.as_str(),
        header_reason,
    );
    Ok(
        CompletionResponse {
            content,
            requested_model: request.model,
            selected_model,
            routing_mode: request.routing_mode,
            routing_reason,
            classifier_confidence,
            usage: reply.usage,
        },
    )
}

/// The first event of a streamed completion: the requested tier, the model the
/// headers name (or the tier's own model), the mode, the route and the receipt.
pub fn stream_metadata(
    request: &CompletionRequest,
    header_model: Option<String>,
    header_reason: Option<String>,
) -> (r: StreamEvent)
    ensures
        r matches StreamEvent::Metadata {
            requested_model,
            selected_model,
            routing_mode,
            route,
            routing_reason,
            classifier_confidence,
        } && {
            let selected = if header_model is Some {
                header_model->0@
            } else {
                tier_model_id(request.model)
            };
            &&& requested_model == request.model
            &&& selected_model@ == selected
            &&& routing_mode == request.routing_mode
            &&& route@ == request_route(request.routing_mode, request.model)
            &&& (opt_view(routing_reason), opt_view(classifier_confidence)) == routing_receipt_of(
                request.routing_mode,
                selected,
                opt_view(header_reason),
            )
        },
{
    let selected_model = match header_model {
        Some(m) => m,
        None => string_from(&chars_of(request.model.model_id())),
    };
    let (routing_reason, classifier_confidence) = routing_receipt(
        request.routing_mode,
        selected_model.as_str(),
        header_reason,
    );
    StreamEvent::Metadata {
        requested_model: request.model,
        selected_model,
        routing_mode: request.routing_mode,
        route: string_from(&chars_of(request.route_id())),
        routing_reason,
        classifier_confidence,
    }
}

} // verus!
