//! The data that the components exchange, with the mathematical view of each.

use vstd::prelude::*;

verus! {

/// The number that stands for probability one: reliabilities, success rates and
/// thresholds are whole numbers of parts per million.
pub const PPM: u32 = 1_000_000;

/// The views of a sequence of strings, in order.
pub open spec fn texts(s: Seq<String>) -> Seq<Seq<char>> {
    Seq::new(s.len(), |i: int| s[i]@)
}

/// Copies a list of strings.
pub fn clone_strings(v: &Vec<String>) -> (r: Vec<String>)
    ensures
        texts(r@) == texts(v@),
{
    let mut r: Vec<String> = Vec::new();
    let mut i: usize = 0;
    while i < v.len()
        invariant
            i <= v.len(),
            r.len() == i,
            forall|j: int| 0 <= j < i ==> r[j]@ == v[j]@,
        decreases v.len() - i,
    {
        r.push(v[i].clone());
        i += 1;
    }
    assert(texts(r@) =~= texts(v@));
    r
}

/// Whether `name` occurs in `list`.
pub fn contains_text(list: &Vec<String>, name: &String) -> (found: bool)
    ensures
        found == texts(list@).contains(name@),
{
    let mut i: usize = 0;
    while i < list.len()
        invariant
            i <= list.len(),
            forall|j: int| 0 <= j < i ==> list[j]@ != name@,
        decreases list.len() - i,
    {
        if list[i] == *name {
            assert(texts(list@)[i as int] == name@);
            return true;
        }
        i += 1;
    }
    assert(forall|j: int| 0 <= j < texts(list@).len() ==> texts(list@)[j] == list[j]@);
    false
}

/// An exact quotient `num / den` of two natural numbers.
///
/// A zero denominator is kept as it is: with a positive numerator the quantity
/// is unbounded, with a zero numerator it is undefined.
#[derive(Clone, Copy, Debug, PartialEq, Eq, Structural)]
pub struct Ratio {
    pub num: u128,
    pub den: u128,
}

/// Where a payment stands in its lifecycle.
#[derive(Clone, Copy, Debug, PartialEq, Eq, Structural)]
pub enum PaymentStatus {
    Pending,
    Processing,
    Completed,
    Failed,
    Cancelled,
}

impl PaymentStatus {
    /// A status that a payment never leaves.
    pub open spec fn is_terminal(self) -> bool {
        self == PaymentStatus::Completed || self == PaymentStatus::Failed || self
            == PaymentStatus::Cancelled
    }
}

/// A payment-service endpoint.
#[derive(Debug)]
pub struct ServiceProvider {
    pub id: String,
    pub name: String,
    pub api_endpoint: String,
    pub supported_chains: Vec<String>,
    pub cost_per_request: u64,
    /// Probability of a successful execution, in parts per million.
    pub reliability_score: u32,
    pub last_ping: u64,
    pub is_active: bool,
}

/// What a [`ServiceProvider`] holds.
pub struct ProviderView {
    pub id: Seq<char>,
    pub name: Seq<char>,
    pub api_endpoint: Seq<char>,
    pub supported_chains: Seq<Seq<char>>,
    pub cost_per_request: u64,
    pub reliability_score: u32,
    pub last_ping: u64,
    pub is_active: bool,
}

impl ProviderView {
    /// Whether the provider serves `chain`.
    pub open spec fn supports(self, chain: Seq<char>) -> bool {
        self.supported_chains.contains(chain)
    }

    /// The same provider, out of service.
    pub open spec fn deactivated(self) -> ProviderView {
        ProviderView { is_active: false, ..self }
    }
}

impl View for ServiceProvider {
    type V = ProviderView;

    open spec fn view(&self) -> ProviderView {
        ProviderView {
            id: self.id@,
            name: self.name@,
            api_endpoint: self.api_endpoint@,
            supported_chains: texts(self.supported_chains@),
            cost_per_request: self.cost_per_request,
            reliability_score: self.reliability_score,
            last_ping: self.last_ping,
            is_active: self.is_active,
        }
    }
}

impl Clone for ServiceProvider {
    fn clone(&self) -> (r: Self)
        ensures
            r@ == self@,
    {
        ServiceProvider {
            id: self.id.clone(),
            name: self.name.clone(),
            api_endpoint: self.api_endpoint.clone(),
            supported_chains: clone_strings(&self.supported_chains),
            cost_per_request: self.cost_per_request,
            reliability_score: self.reliability_score,
            last_ping: self.last_ping,
            is_active: self.is_active,
        }
    }
}

/// A request to pay `amount` to `recipient` on `chain` through a provider.
#[derive(Debug)]
pub struct PaymentRequest {
    pub id: String,
    pub provider_id: String,
    pub chain: String,
    pub amount: u64,
    pub recipient: String,
    pub metadata: String,
    pub timestamp: u64,
    pub status: PaymentStatus,
}

/// What a [`PaymentRequest`] holds.
pub struct PaymentView {
    pub id: Seq<char>,
    pub provider_id: Seq<char>,
    pub chain: Seq<char>,
    pub amount: u64,
    pub recipient: Seq<char>,
    pub metadata: Seq<char>,
    pub timestamp: u64,
    pub status: PaymentStatus,
}

impl PaymentView {
    /// The same payment with another status.
    pub open spec fn with_status(self, status: PaymentStatus) -> PaymentView {
        PaymentView { status, ..self }
    }
}

impl View for PaymentRequest {
    type V = PaymentView;

    open spec fn view(&self) -> PaymentView {
        PaymentView {
            id: self.id@,
            provider_id: self.provider_id@,
            chain: self.chain@,
            amount: self.amount,
            recipient: self.recipient@,
            metadata: self.metadata@,
            timestamp: self.timestamp,
            status: self.status,
        }
    }
}

impl Clone for PaymentRequest {
    fn clone(&self) -> (r: Self)
        ensures
            r@ == self@,
    {
        PaymentRequest {
            id: self.id.clone(),
            provider_id: self.provider_id.clone(),
            chain: self.chain.clone(),
            amount: self.amount,
            recipient: self.recipient.clone(),
            metadata: self.metadata.clone(),
            timestamp: self.timestamp,
            status: self.status,
        }
    }
}

/// What was asked of the providers within a window of time, and how it went.
#[derive(Clone, Copy, Debug, PartialEq, Eq, Structural)]
pub struct UsageMetrics {
    pub total_requests: u64,
    pub successful_payments: u64,
    pub failed_payments: u64,
    /// The sum of the costs.
    pub total_volume: u128,
    /// The sum of the response times over the number of requests.
    pub average_response_time: Ratio,
    /// Successful payments per million units of cost.
    pub cost_efficiency: Ratio,
}

/// The configuration of the optimizer. No value is refused.
#[derive(Debug)]
pub struct OptimizationSettings {
    pub max_cost_per_transaction: u64,
    pub preferred_chains: Vec<String>,
    /// In parts per million.
    pub reliability_threshold: u32,
    pub auto_optimization_enabled: bool,
    pub rebalance_frequency: u64,
}

/// What an [`OptimizationSettings`] holds.
pub struct SettingsView {
    pub max_cost_per_transaction: u64,
    pub preferred_chains: Seq<Seq<char>>,
    pub reliability_threshold: u32,
    pub auto_optimization_enabled: bool,
    pub rebalance_frequency: u64,
}

impl View for OptimizationSettings {
    type V = SettingsView;

    open spec fn view(&self) -> SettingsView {
        SettingsView {
            max_cost_per_transaction: self.max_cost_per_transaction,
            preferred_chains: texts(self.preferred_chains@),
            reliability_threshold: self.reliability_threshold,
            auto_optimization_enabled: self.auto_optimization_enabled,
            rebalance_frequency: self.rebalance_frequency,
        }
    }
}

impl Clone for OptimizationSettings {
    fn clone(&self) -> (r: Self)
        ensures
            r@ == self@,
    {
        OptimizationSettings {
            max_cost_per_transaction: self.max_cost_per_transaction,
            preferred_chains: clone_strings(&self.preferred_chains),
            reliability_threshold: self.reliability_threshold,
            auto_optimization_enabled: self.auto_optimization_enabled,
            rebalance_frequency: self.rebalance_frequency,
        }
    }
}

/// The settings that an optimizer starts with.
pub open spec fn default_settings() -> SettingsView {
    SettingsView {
        max_cost_per_transaction: 1_000_000,
        preferred_chains: seq!["REI"@, "Polygon"@],
        reliability_threshold: 950_000,
        auto_optimization_enabled: true,
        rebalance_frequency: 3600,
    }
}

impl Default for OptimizationSettings {
    fn default() -> (r: Self)
        ensures
            r@ == default_settings(),
    {
        let mut chains: Vec<String> = Vec::new();
        chains.push("REI".to_owned());
        chains.push("Polygon".to_owned());
        assert(texts(chains@) =~= seq!["REI"@, "Polygon"@]);
        OptimizationSettings {
            max_cost_per_transaction: 1_000_000,
            preferred_chains: chains,
            reliability_threshold: 950_000,
            auto_optimization_enabled: true,
            rebalance_frequency: 3600,
        }
    }
}

} // verus!
