//! Usage history, running statistics per chain, the choice of a provider for a
//! payment, and advice on moving traffic away from chains that fail too often.

use crate::exact::product_less;
use crate::ring::{latest, law_ring_extend, ring_append, ring_extend, ring_push};
use crate::selection::{
    first_minimum, is_first_minimum, lemma_same_order, no_candidate, same_order, unbounded,
};
use crate::service_registry::ServiceRegistry;
use crate::types::{
    contains_text, OptimizationSettings, ProviderView, Ratio, ServiceProvider, SettingsView,
    UsageMetrics, PPM,
};
use vstd::prelude::*;

verus! {

/// How many usage records are kept.
pub const USAGE_CAPACITY: usize = 1000;

/// One use of a provider, as it was reported.
#[derive(Debug)]
pub struct UsageRecord {
    pub timestamp: u64,
    pub chain: String,
    pub provider_id: String,
    pub cost: u64,
    pub success: bool,
    pub response_time: u64,
}

/// What a [`UsageRecord`] holds.
pub struct UsageView {
    pub timestamp: u64,
    pub chain: Seq<char>,
    pub provider_id: Seq<char>,
    pub cost: u64,
    pub success: bool,
    pub response_time: u64,
}

impl View for UsageRecord {
    type V = UsageView;

    open spec fn view(&self) -> UsageView {
        UsageView {
            timestamp: self.timestamp,
            chain: self.chain@,
            provider_id: self.provider_id@,
            cost: self.cost,
            success: self.success,
            response_time: self.response_time,
        }
    }
}

/// The running statistics of one chain. The mean cost is `total_cost` over
/// `volume`, and the success rate is `successes` over `volume`.
#[derive(Debug)]
pub struct ChainCostData {
    pub chain: String,
    /// The sum of the costs of all uses.
    pub total_cost: u128,
    /// The number of uses.
    pub volume: u64,
    /// The number of uses that succeeded.
    pub successes: u64,
    pub last_updated: u64,
}

/// What a [`ChainCostData`] holds.
pub struct ChainStatsView {
    pub chain: Seq<char>,
    pub total_cost: nat,
    pub volume: nat,
    pub successes: nat,
    pub last_updated: u64,
}

impl View for ChainCostData {
    type V = ChainStatsView;

    open spec fn view(&self) -> ChainStatsView {
        ChainStatsView {
            chain: self.chain@,
            total_cost: self.total_cost as nat,
            volume: self.volume as nat,
            successes: self.successes as nat,
            last_updated: self.last_updated,
        }
    }
}

/// One for a success, nothing for a failure.
pub open spec fn indicator(success: bool) -> nat {
    if success {
        1
    } else {
        0
    }
}

impl ChainStatsView {
    /// A chain has statistics from its first use on, no more of its uses succeeded
    /// than there were, and the numbers fit their fields.
    pub open spec fn wf(self) -> bool {
        &&& 1 <= self.volume <= u64::MAX
        &&& self.successes <= self.volume
        &&& self.total_cost <= self.volume * u64::MAX
    }

    /// The statistics of a chain after its first use.
    pub open spec fn first(chain: Seq<char>, cost: u64, success: bool, now: u64) -> ChainStatsView {
        ChainStatsView {
            chain,
            total_cost: cost as nat,
            volume: 1,
            successes: indicator(success),
            last_updated: now,
        }
    }

    /// The statistics after one more use. Both means follow: with `n` uses
    /// before, a mean `m` becomes `m + (x - m) / (n + 1)` for the new value `x`.
    pub open spec fn updated(self, cost: u64, success: bool, now: u64) -> ChainStatsView {
        ChainStatsView {
            chain: self.chain,
            total_cost: self.total_cost + cost as nat,
            volume: self.volume + 1,
            successes: self.successes + indicator(success),
            last_updated: now,
        }
    }

    /// Whether the success rate is below `threshold` parts per million.
    pub open spec fn rate_below(self, threshold: u32) -> bool {
        self.successes * 1_000_000 < threshold * self.volume
    }
}

/// Whether a provider can be chosen for a payment on `chain` under
/// `settings`.
pub open spec fn routable(provider: ProviderView, settings: SettingsView, chain: Seq<char>) -> bool {
    &&& provider.is_active
    &&& provider.supports(chain)
    &&& provider.cost_per_request <= settings.max_cost_per_transaction
    &&& provider.reliability_score >= settings.reliability_threshold
}

/// The part of a score in which the providers differ, for a payment of
/// `amount`: it grows with the cost and falls with the reliability.
pub open spec fn route_rank(provider: ProviderView, amount: u64) -> int {
    4 * (provider.cost_per_request * PPM) + 3 * ((u32::MAX - provider.reliability_score) * amount)
}

/// Computes [`route_rank`].
fn rank(provider: &ServiceProvider, amount: u64) -> (r: u128)
    ensures
        r == route_rank(provider@, amount),
{
    let cost = provider.cost_per_request as u128;
    let doubt = (u32::MAX - provider.reliability_score) as u128;
    assert(cost * PPM <= u64::MAX * PPM) by (nonlinear_arith)
        requires
            cost <= u64::MAX,
    ;
    assert(doubt * amount <= u32::MAX * u64::MAX) by (nonlinear_arith)
        requires
            doubt <= u32::MAX,
            amount <= u64::MAX,
    ;
    4 * (cost * PPM as u128) + 3 * (doubt * amount as u128)
}

/// Whether the success rate of `a` is lower than that of `b`.
pub open spec fn rate_less(a: ChainStatsView, b: ChainStatsView) -> bool {
    a.successes * b.volume < b.successes * a.volume
}

/// A chain whose rate is not above a second one, which is below a third, is
/// below the third.
pub proof fn lemma_rate_transitive(a: ChainStatsView, b: ChainStatsView, c: ChainStatsView)
    requires
        a.volume > 0,
        b.volume > 0,
        c.volume > 0,
        !rate_less(b, a),
        rate_less(b, c),
    ensures
        rate_less(a, c),
{
    let (sa, va) = (a.successes as int, a.volume as int);
    let (sb, vb) = (b.successes as int, b.volume as int);
    let (sc, vc) = (c.successes as int, c.volume as int);
    assert(sa * vb * vc <= sb * va * vc) by (nonlinear_arith)
        requires
            sa * vb <= sb * va,
            vc > 0,
    ;
    assert(sb * vc * va < sc * vb * va) by (nonlinear_arith)
        requires
            sb * vc < sc * vb,
            va > 0,
    ;
    assert(sa * vc < sc * va) by (nonlinear_arith)
        requires
            sa * vb * vc <= sb * va * vc,
            sb * vc * va < sc * vb * va,
            vb > 0,
    ;
}

/// The successes of a chain per unit of cost. Where nothing was paid for a
/// success the denominator is zero.
pub open spec fn efficiency(c: ChainStatsView) -> Ratio {
    Ratio { num: c.successes as u128, den: c.total_cost as u128 }
}

/// Whether `a` is less than `b`, by cross-multiplication; a positive number
/// over zero is above every number over a positive one.
pub open spec fn efficiency_less(a: Ratio, b: Ratio) -> bool {
    a.num * b.den < b.num * a.den
}

/// The highest efficiency among `chains`, as that of the first chain that
/// has it; nothing where no chain had a success.
pub open spec fn best_efficiency(chains: Seq<ChainStatsView>) -> Ratio
    decreases chains.len(),
{
    if chains.len() == 0 {
        Ratio::zero()
    } else {
        let best = best_efficiency(chains.drop_last());
        if efficiency_less(best, efficiency(chains.last())) {
            efficiency(chains.last())
        } else {
            best
        }
    }
}

/// No chain has a higher efficiency than the best one, and the best one is
/// that of one of the chains, or nothing.
pub proof fn law_best_efficiency(chains: Seq<ChainStatsView>)
    ensures
        forall|j: int|
            0 <= j < chains.len() ==> !efficiency_less(
                best_efficiency(chains),
                efficiency(#[trigger] chains[j]),
            ),
        best_efficiency(chains) == Ratio::zero() || exists|k: int|
            0 <= k < chains.len() && best_efficiency(chains) == efficiency(#[trigger] chains[k]),
    decreases chains.len(),
{
    if chains.len() > 0 {
        let rest = chains.drop_last();
        law_best_efficiency(rest);
        let before = best_efficiency(rest);
        let last = efficiency(chains.last());
        let best = best_efficiency(chains);
        assert forall|j: int| 0 <= j < chains.len() implies !efficiency_less(
            best,
            efficiency(#[trigger] chains[j]),
        ) by {
            if j < rest.len() {
                assert(rest[j] == chains[j]);
                let e = efficiency(chains[j]);
                assert(!efficiency_less(before, e));
                if efficiency_less(before, last) {
                    let (en, ed) = (e.num as int, e.den as int);
                    let (bn, bd) = (before.num as int, before.den as int);
                    let (ln, ld) = (last.num as int, last.den as int);
                    assert(bd > 0) by (nonlinear_arith)
                        requires
                            bn * ld < ln * bd,
                            bn >= 0,
                            ld >= 0,
                            ln >= 0,
                            bd >= 0,
                    ;
                    assert(en * bd * ld <= bn * ed * ld) by (nonlinear_arith)
                        requires
                            en * bd <= bn * ed,
                            ld >= 0,
                    ;
                    assert(bn * ld * ed <= ln * bd * ed) by (nonlinear_arith)
                        requires
                            bn * ld < ln * bd,
                            ed >= 0,
                    ;
                    assert(en * ld <= ln * ed) by (nonlinear_arith)
                        requires
                            en * bd * ld <= bn * ed * ld,
                            bn * ld * ed <= ln * bd * ed,
                            bd > 0,
                    ;
                }
            }
        }
        if best == before {
            if before != Ratio::zero() {
                let k = choose|k: int| 0 <= k < rest.len() && before == efficiency(#[trigger] rest[k]);
                assert(chains[k] == rest[k]);
            }
        } else {
            assert(best == efficiency(chains[chains.len() - 1]));
        }
    }
}

/// What could be saved by moving the traffic of a chain elsewhere, in three
/// factors: the saving is their product. A chain that never failed, or whose
/// uses cost nothing, has nothing to save.
#[derive(Clone, Copy, Debug, PartialEq, Eq, Structural)]
pub struct PotentialSavings {
    /// The share of the uses of the chain that failed.
    pub failure_rate: Ratio,
    /// The mean cost of a use of the chain.
    pub average_cost: Ratio,
    /// The highest number of successes per unit of cost among all chains.
    pub best_efficiency: Ratio,
}

/// An advice to move traffic from one chain to another.
#[derive(Debug)]
pub struct RebalancingSuggestion {
    pub from_chain: String,
    pub to_chain: String,
    pub reason: String,
    pub potential_savings: PotentialSavings,
}

/// What a [`RebalancingSuggestion`] holds.
pub struct SuggestionView {
    pub from_chain: Seq<char>,
    pub to_chain: Seq<char>,
    pub reason: Seq<char>,
    pub potential_savings: PotentialSavings,
}

impl View for RebalancingSuggestion {
    type V = SuggestionView;

    open spec fn view(&self) -> SuggestionView {
        SuggestionView {
            from_chain: self.from_chain@,
            to_chain: self.to_chain@,
            reason: self.reason@,
            potential_savings: self.potential_savings,
        }
    }
}

/// The views of a sequence of suggestions, in order.
pub open spec fn suggestion_views(s: Seq<RebalancingSuggestion>) -> Seq<SuggestionView> {
    Seq::new(s.len(), |i: int| s[i]@)
}

/// The chain that traffic is sent to where no other chain has statistics.
pub open spec fn fallback_chain() -> Seq<char> {
    "Polygon"@
}

/// The chain that the traffic of [`fallback_chain`] itself is sent to where
/// no other chain has statistics.
pub open spec fn second_fallback_chain() -> Seq<char> {
    "REI"@
}

/// The two fallback chains are two chains.
pub proof fn lemma_fallbacks_differ()
    ensures
        fallback_chain() != second_fallback_chain(),
{
    reveal_strlit("Polygon");
    reveal_strlit("REI");
    assert(fallback_chain().len() == 7);
    assert(second_fallback_chain().len() == 3);
}

/// Why a suggestion is made.
pub open spec fn low_success_rate() -> Seq<char> {
    "Low success rate"@
}

/// How often `x` occurs in `s`.
pub open spec fn occurrences(s: Seq<Seq<char>>, x: Seq<char>) -> nat
    decreases s.len(),
{
    if s.len() == 0 {
        0
    } else {
        occurrences(s.drop_last(), x) + if s.last() == x {
            1nat
        } else {
            0nat
        }
    }
}

/// How many of `s` advise to leave `chain`.
pub open spec fn suggested_from(s: Seq<SuggestionView>, chain: Seq<char>) -> nat
    decreases s.len(),
{
    if s.len() == 0 {
        0
    } else {
        suggested_from(s.drop_last(), chain) + if s.last().from_chain == chain {
            1nat
        } else {
            0nat
        }
    }
}

/// Whether `timestamp` lies in the window that ends at `now`: not after
/// `now`, and at most `window` before it. A window longer than the time that
/// has passed reaches back to the beginning.
pub open spec fn in_window(timestamp: u64, now: u64, window: u64) -> bool {
    timestamp <= now && now - timestamp <= window
}

/// The records in the window of length `window` that ends at `now`.
pub open spec fn within(now: u64, window: u64) -> spec_fn(UsageView) -> bool {
    |r: UsageView| in_window(r.timestamp, now, window)
}

/// The sum of the costs of `records`.
pub open spec fn volume_of(records: Seq<UsageView>) -> nat
    decreases records.len(),
{
    if records.len() == 0 {
        0
    } else {
        volume_of(records.drop_last()) + records.last().cost as nat
    }
}

/// The sum of the response times of `records`.
pub open spec fn response_of(records: Seq<UsageView>) -> nat
    decreases records.len(),
{
    if records.len() == 0 {
        0
    } else {
        response_of(records.drop_last()) + records.last().response_time as nat
    }
}

/// How many of `records` report a success.
pub open spec fn successes_of(records: Seq<UsageView>) -> nat
    decreases records.len(),
{
    if records.len() == 0 {
        0
    } else {
        successes_of(records.drop_last()) + indicator(records.last().success)
    }
}

/// The metrics of `records`: their number, the successes and the failures
/// among them, the sum of their costs, their mean response time, and the
/// successes per million units of cost. Without records the last two are
/// exactly nothing.
pub open spec fn metrics_of(records: Seq<UsageView>) -> UsageMetrics {
    UsageMetrics {
        total_requests: records.len() as u64,
        successful_payments: successes_of(records) as u64,
        failed_payments: (records.len() - successes_of(records)) as u64,
        total_volume: volume_of(records) as u128,
        average_response_time: if records.len() == 0 {
            Ratio::zero()
        } else {
            Ratio { num: response_of(records) as u128, den: records.len() as u128 }
        },
        cost_efficiency: if records.len() == 0 {
            Ratio::zero()
        } else {
            Ratio {
                num: (successes_of(records) * 1_000_000) as u128,
                den: volume_of(records) as u128,
            }
        },
    }
}

/// A window holds the records whose timestamp lies in it, and no other; and
/// without a request the cost efficiency is exactly nothing.
pub proof fn law_window(history: Seq<UsageView>, now: u64, window: u64)
    requires
        history.len() <= USAGE_CAPACITY,
    ensures
        forall|i: int|
            0 <= i < history.filter(within(now, window)).len() ==> in_window(
                (#[trigger] history.filter(within(now, window))[i]).timestamp,
                now,
                window,
            ),
        forall|r: UsageView|
            #[trigger] history.filter(within(now, window)).contains(r) ==> history.contains(r),
        forall|i: int|
            0 <= i < history.len() && in_window((#[trigger] history[i]).timestamp, now, window)
                ==> history.filter(within(now, window)).contains(history[i]),
        metrics_of(history.filter(within(now, window))).total_requests == 0 ==> metrics_of(
            history.filter(within(now, window)),
        ).cost_efficiency == Ratio::zero(),
        history.filter(within(now, window)).len() <= history.len(),
{
    let kept = history.filter(within(now, window));
    history.lemma_filter_len(within(now, window));
    assert forall|i: int| 0 <= i < kept.len() implies in_window(
        (#[trigger] kept[i]).timestamp,
        now,
        window,
    ) by {
        history.lemma_filter_pred(within(now, window), i);
    }
    assert forall|r: UsageView| #[trigger] kept.contains(r) implies history.contains(r) by {
        history.lemma_filter_contains_rev(within(now, window), r);
    }
    assert forall|i: int|
        0 <= i < history.len() && in_window(
            (#[trigger] history[i]).timestamp,
            now,
            window,
        ) implies kept.contains(history[i]) by {
        history.lemma_filter_contains(within(now, window), i);
    }
}

/// One report of a use of a provider: the chain, what was reported, and
/// when.
pub struct Report {
    pub chain: Seq<char>,
    pub provider_id: Seq<char>,
    pub cost: u64,
    pub success: bool,
    pub response_time: u64,
    pub now: u64,
}

impl Report {
    /// The usage record that is kept of the report.
    pub open spec fn record(self) -> UsageView {
        UsageView {
            timestamp: self.now,
            chain: self.chain,
            provider_id: self.provider_id,
            cost: self.cost,
            success: self.success,
            response_time: self.response_time,
        }
    }
}

/// The usage records that are kept of `reports`, in order.
pub open spec fn records_of(reports: Seq<Report>) -> Seq<UsageView> {
    Seq::new(reports.len(), |i: int| reports[i].record())
}

/// How many of `reports` are uses of `chain`.
pub open spec fn uses_of(reports: Seq<Report>, chain: Seq<char>) -> nat
    decreases reports.len(),
{
    if reports.len() == 0 {
        0
    } else {
        uses_of(reports.drop_last(), chain) + if reports.last().chain == chain {
            1nat
        } else {
            0nat
        }
    }
}

/// The sum of the costs of the uses of `chain` among `reports`.
pub open spec fn cost_of(reports: Seq<Report>, chain: Seq<char>) -> nat
    decreases reports.len(),
{
    if reports.len() == 0 {
        0
    } else {
        cost_of(reports.drop_last(), chain) + if reports.last().chain == chain {
            reports.last().cost as nat
        } else {
            0nat
        }
    }
}

/// How many of the uses of `chain` among `reports` succeeded.
pub open spec fn successes_among(reports: Seq<Report>, chain: Seq<char>) -> nat
    decreases reports.len(),
{
    if reports.len() == 0 {
        0
    } else {
        successes_among(reports.drop_last(), chain) + if reports.last().chain == chain {
            indicator(reports.last().success)
        } else {
            0nat
        }
    }
}

/// When the last use of `chain` among `reports` was reported; `earlier` where
/// there is none.
pub open spec fn last_use(reports: Seq<Report>, chain: Seq<char>, earlier: u64) -> u64
    decreases reports.len(),
{
    if reports.len() == 0 {
        earlier
    } else if reports.last().chain == chain {
        reports.last().now
    } else {
        last_use(reports.drop_last(), chain, earlier)
    }
}

/// What a [`CostOptimizer`] holds: its settings, the latest usage records,
/// oldest first, and the statistics of each chain that was used, in the order
/// of their first use.
pub struct OptimizerView {
    pub settings: SettingsView,
    pub history: Seq<UsageView>,
    pub chains: Seq<ChainStatsView>,
}

impl OptimizerView {
    /// The names of the chains with statistics.
    pub open spec fn chain_names(self) -> Seq<Seq<char>> {
        Seq::new(self.chains.len(), |i: int| self.chains[i].chain)
    }

    /// Whether the chain has statistics.
    pub open spec fn tracks(self, chain: Seq<char>) -> bool {
        self.chain_names().contains(chain)
    }

    /// Where the statistics of the chain stand.
    pub open spec fn slot(self, chain: Seq<char>) -> int {
        self.chain_names().index_of(chain)
    }

    /// The statistics of the chain.
    pub open spec fn stats(self, chain: Seq<char>) -> ChainStatsView {
        self.chains[self.slot(chain)]
    }

    /// At most [`USAGE_CAPACITY`] records are kept, no chain has its
    /// statistics twice, and the statistics of each chain are well formed.
    pub open spec fn wf(self) -> bool {
        &&& self.history.len() <= USAGE_CAPACITY
        &&& self.distinct_chains()
        &&& forall|i: int| 0 <= i < self.chains.len() ==> (#[trigger] self.chains[i]).wf()
    }

    /// No chain has its statistics twice.
    pub open spec fn distinct_chains(self) -> bool {
        forall|i: int, j: int|
            0 <= i < j < self.chains.len() ==> self.chains[i].chain != self.chains[j].chain
    }

    /// The number of uses that the statistics of `chain` count; none for a
    /// chain without statistics.
    pub open spec fn volume_at(self, chain: Seq<char>) -> nat {
        if self.tracks(chain) {
            self.stats(chain).volume
        } else {
            0
        }
    }

    /// The sum of the costs that the statistics of `chain` hold.
    pub open spec fn cost_at(self, chain: Seq<char>) -> nat {
        if self.tracks(chain) {
            self.stats(chain).total_cost
        } else {
            0
        }
    }

    /// The number of successes that the statistics of `chain` count.
    pub open spec fn successes_at(self, chain: Seq<char>) -> nat {
        if self.tracks(chain) {
            self.stats(chain).successes
        } else {
            0
        }
    }

    /// Whether every chain with statistics can count `n` more uses.
    pub open spec fn headroom(self, n: nat) -> bool {
        forall|i: int|
            0 <= i < self.chains.len() ==> (#[trigger] self.chains[i]).volume + n <= u64::MAX
    }

    /// Whether the use of `chain` can still be counted.
    pub open spec fn can_record(self, chain: Seq<char>) -> bool {
        self.tracks(chain) ==> self.stats(chain).volume < u64::MAX
    }

    /// The state after a use of `chain` was reported at time `now`: the record
    /// is the latest of at most [`USAGE_CAPACITY`], and the statistics of the
    /// chain count it.
    pub open spec fn recorded(
        self,
        chain: Seq<char>,
        provider_id: Seq<char>,
        cost: u64,
        success: bool,
        response_time: u64,
        now: u64,
    ) -> OptimizerView {
        OptimizerView {
            settings: self.settings,
            history: ring_push(
                self.history,
                UsageView { timestamp: now, chain, provider_id, cost, success, response_time },
                USAGE_CAPACITY as nat,
            ),
            chains: if self.tracks(chain) {
                self.chains.update(self.slot(chain), self.stats(chain).updated(cost, success, now))
            } else {
                self.chains.push(ChainStatsView::first(chain, cost, success, now))
            },
        }
    }

    /// The state after `report` was made.
    pub open spec fn with_report(self, report: Report) -> OptimizerView {
        self.recorded(
            report.chain,
            report.provider_id,
            report.cost,
            report.success,
            report.response_time,
            report.now,
        )
    }

    /// The state after each of `reports` was made, in order.
    pub open spec fn reported(self, reports: Seq<Report>) -> OptimizerView
        decreases reports.len(),
    {
        if reports.len() == 0 {
            self
        } else {
            self.reported(reports.drop_last()).with_report(reports.last())
        }
    }

    /// The share of the uses of `chain` that failed, as a numerator and a
    /// denominator; one half for a chain without statistics.
    pub open spec fn failure_rate(self, chain: Seq<char>) -> (int, int) {
        if self.tracks(chain) {
            (self.stats(chain).volume - self.stats(chain).successes, self.stats(chain).volume as int)
        } else {
            (1, 2)
        }
    }

    /// The denominator of the score of every provider for a payment of
    /// `amount` on `chain`.
    pub open spec fn route_score_den(self, chain: Seq<char>, amount: u64) -> int {
        10 * PPM * amount * self.failure_rate(chain).1
    }

    /// The numerator of the score of `provider` for a payment of `amount` on
    /// `chain`, over [`Self::route_score_den`]. The score is
    /// `0.4 * cost / amount + 0.3 * (1 - reliability) + 0.3 * failure rate`,
    /// and the lower it is the better.
    pub open spec fn route_score_num(self, provider: ProviderView, chain: Seq<char>, amount: u64)
        -> int {
        let (failures, uses) = self.failure_rate(chain);
        4 * (provider.cost_per_request * PPM * uses) + 3 * ((PPM - provider.reliability_score)
            * amount * uses) + 3 * (failures * PPM * amount)
    }

    /// For each of `providers` the numerator of its score for a payment of
    /// `amount` on `chain`, where it can be chosen. All have one denominator,
    /// so the numerators order the providers as their scores do. With an
    /// amount of zero the scores are undefined; the numerators then order the
    /// providers by their cost.
    pub open spec fn route_keys(self, providers: Seq<ProviderView>, chain: Seq<char>, amount: u64)
        -> Seq<Option<int>> {
        Seq::new(
            providers.len(),
            |i: int|
                if routable(providers[i], self.settings, chain) {
                    Some(self.route_score_num(providers[i], chain, amount))
                } else {
                    None
                },
        )
    }

    /// The numerators of two scores compare as what is left of them when the
    /// part that all providers share is taken away.
    pub proof fn lemma_route_order(
        self,
        p: ProviderView,
        q: ProviderView,
        chain: Seq<char>,
        amount: u64,
    )
        requires
            self.wf(),
        ensures
            self.route_score_num(p, chain, amount) <= self.route_score_num(q, chain, amount)
                <==> route_rank(p, amount) <= route_rank(q, amount),
    {
        let (failures, uses) = self.failure_rate(chain);
        if self.tracks(chain) {
            let k = self.slot(chain);
            assert(self.chain_names()[k] == chain);
            assert(self.chains[k].wf());
        }
        assert(uses >= 1);
        let shared = 3 * (failures * PPM * amount) - 3 * ((u32::MAX - PPM) * amount * uses);
        assert(self.route_score_num(p, chain, amount) == uses * route_rank(p, amount) + shared)
            by (nonlinear_arith)
            requires
                self.route_score_num(p, chain, amount) == 4 * (p.cost_per_request * PPM * uses) + 3
                    * ((PPM - p.reliability_score) * amount * uses) + 3 * (failures * PPM * amount),
                route_rank(p, amount) == 4 * (p.cost_per_request * PPM) + 3 * ((u32::MAX
                    - p.reliability_score) * amount),
                shared == 3 * (failures * PPM * amount) - 3 * ((u32::MAX - PPM) * amount * uses),
        ;
        assert(self.route_score_num(q, chain, amount) == uses * route_rank(q, amount) + shared)
            by (nonlinear_arith)
            requires
                self.route_score_num(q, chain, amount) == 4 * (q.cost_per_request * PPM * uses) + 3
                    * ((PPM - q.reliability_score) * amount * uses) + 3 * (failures * PPM * amount),
                route_rank(q, amount) == 4 * (q.cost_per_request * PPM) + 3 * ((u32::MAX
                    - q.reliability_score) * amount),
                shared == 3 * (failures * PPM * amount) - 3 * ((u32::MAX - PPM) * amount * uses),
        ;
        let a = route_rank(p, amount);
        let b = route_rank(q, amount);
        assert((uses * a <= uses * b) <==> (a <= b)) by (nonlinear_arith)
            requires
                uses >= 1,
        ;
    }

    /// Whether a chain other than `chain` has statistics.
    pub open spec fn has_alternative(self, chain: Seq<char>) -> bool {
        exists|j: int| 0 <= j < self.chains.len() && (#[trigger] self.chains[j]).chain != chain
    }

    /// Whether, of the first `n` chains with statistics, the one at `k` is
    /// another than `chain`, no other such chain has a higher success rate, and
    /// every such chain before it has a lower one.
    pub open spec fn is_best_alternative_among(self, chain: Seq<char>, k: int, n: int) -> bool {
        &&& 0 <= k < n <= self.chains.len()
        &&& self.chains[k].chain != chain
        &&& forall|j: int|
            0 <= j < n && (#[trigger] self.chains[j]).chain != chain ==> !rate_less(
                self.chains[k],
                self.chains[j],
            )
        &&& forall|j: int|
            0 <= j < k && (#[trigger] self.chains[j]).chain != chain ==> rate_less(
                self.chains[j],
                self.chains[k],
            )
    }

    /// Whether the chain at `k` is the one to move the traffic of `chain` to.
    pub open spec fn is_best_alternative(self, chain: Seq<char>, k: int) -> bool {
        self.is_best_alternative_among(chain, k, self.chains.len() as int)
    }

    /// The chain to move the traffic of `chain` to: of the other chains with
    /// statistics the one with the highest success rate, and of several such
    /// the one that was used first. Where no other chain has statistics it is
    /// [`fallback_chain`], and for that chain itself
    /// [`second_fallback_chain`]: it is never `chain`.
    pub open spec fn alternative(self, chain: Seq<char>) -> Seq<char> {
        if self.has_alternative(chain) {
            self.chains[choose|k: int| self.is_best_alternative(chain, k)].chain
        } else if chain == fallback_chain() {
            second_fallback_chain()
        } else {
            fallback_chain()
        }
    }

    /// Traffic is never advised to stay: the chain to move to is another
    /// chain, and where another chain has statistics it is the one among them
    /// that no other exceeds in its success rate.
    pub proof fn law_alternative_differs(self, chain: Seq<char>)
        requires
            self.wf(),
        ensures
            self.alternative(chain) != chain,
            self.has_alternative(chain) ==> exists|k: int|
                self.is_best_alternative(chain, k) && self.alternative(chain)
                    == (#[trigger] self.chains[k]).chain,
    {
        lemma_fallbacks_differ();
        if self.has_alternative(chain) {
            let k = self.lemma_best_alternative_exists(chain, self.chains.len() as int);
            self.lemma_alternative(chain, k);
        }
    }

    /// What could be saved by moving the traffic of `chain` elsewhere; nothing
    /// for a chain without statistics.
    pub open spec fn savings(self, chain: Seq<char>) -> PotentialSavings {
        if self.tracks(chain) {
            PotentialSavings {
                failure_rate: Ratio {
                    num: (self.stats(chain).volume - self.stats(chain).successes) as u128,
                    den: self.stats(chain).volume as u128,
                },
                average_cost: Ratio {
                    num: self.stats(chain).total_cost as u128,
                    den: self.stats(chain).volume as u128,
                },
                best_efficiency: best_efficiency(self.chains),
            }
        } else {
            PotentialSavings {
                failure_rate: Ratio::zero(),
                average_cost: Ratio::zero(),
                best_efficiency: Ratio::zero(),
            }
        }
    }

    /// Whether traffic should leave `chain`: it has statistics, and its
    /// success rate is below the threshold of the settings.
    pub open spec fn needs_rebalancing(self, chain: Seq<char>) -> bool {
        self.tracks(chain) && self.stats(chain).rate_below(self.settings.reliability_threshold)
    }

    /// The advice to leave `chain`.
    pub open spec fn suggestion(self, chain: Seq<char>) -> SuggestionView {
        SuggestionView {
            from_chain: chain,
            to_chain: self.alternative(chain),
            reason: low_success_rate(),
            potential_savings: self.savings(chain),
        }
    }

    /// One advice for each of `preferred` that traffic should leave, in order.
    pub open spec fn suggestions_for(self, preferred: Seq<Seq<char>>) -> Seq<SuggestionView>
        decreases preferred.len(),
    {
        if preferred.len() == 0 {
            Seq::empty()
        } else {
            let before = self.suggestions_for(preferred.drop_last());
            if self.needs_rebalancing(preferred.last()) {
                before.push(self.suggestion(preferred.last()))
            } else {
                before
            }
        }
    }

    /// One advice for each preferred chain that traffic should leave.
    pub open spec fn suggestions(self) -> Seq<SuggestionView> {
        self.suggestions_for(self.settings.preferred_chains)
    }

    /// At most one chain is the best alternative.
    pub proof fn lemma_best_alternative_unique(self, chain: Seq<char>, k: int, m: int)
        requires
            self.is_best_alternative(chain, k),
            self.is_best_alternative(chain, m),
        ensures
            k == m,
    {
        if k < m {
            assert(rate_less(self.chains[k], self.chains[m]));
            assert(!rate_less(self.chains[k], self.chains[m]));
        }
        if m < k {
            assert(rate_less(self.chains[m], self.chains[k]));
            assert(!rate_less(self.chains[m], self.chains[k]));
        }
    }

    /// Where one of the first `n` chains is another than `chain`, one of them
    /// is the best alternative among them.
    pub proof fn lemma_best_alternative_exists(self, chain: Seq<char>, n: int) -> (k: int)
        requires
            self.wf(),
            0 <= n <= self.chains.len(),
            exists|j: int| 0 <= j < n && (#[trigger] self.chains[j]).chain != chain,
        ensures
            self.is_best_alternative_among(chain, k, n),
        decreases n,
    {
        let last = n - 1;
        if exists|j: int| 0 <= j < last && (#[trigger] self.chains[j]).chain != chain {
            let before = self.lemma_best_alternative_exists(chain, last);
            if self.chains[last].chain != chain && rate_less(
                self.chains[before],
                self.chains[last],
            ) {
                assert forall|j: int|
                    0 <= j < last && (#[trigger] self.chains[j]).chain != chain implies rate_less(
                    self.chains[j],
                    self.chains[last],
                ) by {
                    assert(self.chains[j].wf() && self.chains[before].wf() && self.chains[last].wf());
                    lemma_rate_transitive(self.chains[j], self.chains[before], self.chains[last]);
                }
                last
            } else {
                before
            }
        } else {
            assert(self.chains[last].chain != chain);
            last
        }
    }

    /// The alternative to `chain` is the best one, where there is one.
    pub proof fn lemma_alternative(self, chain: Seq<char>, k: int)
        requires
            self.is_best_alternative(chain, k),
        ensures
            self.has_alternative(chain),
            self.alternative(chain) == self.chains[k].chain,
    {
        let chosen = choose|m: int| self.is_best_alternative(chain, m);
        self.lemma_best_alternative_unique(chain, k, chosen);
    }

    /// The metrics of the records in the window of length `window` that ends
    /// at `now`.
    pub open spec fn usage_metrics(self, window: u64, now: u64) -> UsageMetrics {
        metrics_of(self.history.filter(within(now, window)))
    }

    /// There are as many advices to leave `chain` as the chain occurs among
    /// `preferred`, where traffic should leave it, and none otherwise; and
    /// each of them is the advice to leave that chain.
    pub proof fn lemma_suggestions(self, preferred: Seq<Seq<char>>, chain: Seq<char>)
        ensures
            suggested_from(self.suggestions_for(preferred), chain) == (if self.needs_rebalancing(
                chain,
            ) {
                occurrences(preferred, chain)
            } else {
                0
            }),
            forall|i: int|
                0 <= i < self.suggestions_for(preferred).len() && (
                #[trigger] self.suggestions_for(preferred)[i]).from_chain == chain
                    ==> self.suggestions_for(preferred)[i] == self.suggestion(chain),
        decreases preferred.len(),
    {
        if preferred.len() > 0 {
            let rest = preferred.drop_last();
            self.lemma_suggestions(rest, chain);
            let before = self.suggestions_for(rest);
            if self.needs_rebalancing(preferred.last()) {
                let after = before.push(self.suggestion(preferred.last()));
                assert(after.drop_last() =~= before);
            }
        }
    }

    /// A preferred chain whose success rate is below the threshold gets
    /// exactly one advice, where it is preferred once. The advice names
    /// another chain as target. Each factor of the saving is a quotient of
    /// natural numbers, and the first two have a positive denominator: the
    /// saving is not negative.
    pub proof fn law_rebalancing(self, chain: Seq<char>)
        requires
            self.wf(),
            self.needs_rebalancing(chain),
            occurrences(self.settings.preferred_chains, chain) == 1,
        ensures
            suggested_from(self.suggestions(), chain) == 1,
            forall|i: int|
                0 <= i < self.suggestions().len() && (#[trigger] self.suggestions()[i]).from_chain
                    == chain ==> self.suggestions()[i] == self.suggestion(chain),
            self.suggestion(chain).to_chain != chain,
            self.suggestion(chain).potential_savings.failure_rate.den > 0,
            self.suggestion(chain).potential_savings.average_cost.den > 0,
            self.suggestion(chain).potential_savings.failure_rate.num >= 0,
            self.suggestion(chain).potential_savings.average_cost.num >= 0,
            self.suggestion(chain).potential_savings.best_efficiency.num >= 0,
            self.suggestion(chain).potential_savings.best_efficiency.den >= 0,
    {
        self.lemma_suggestions(self.settings.preferred_chains, chain);
        self.law_alternative_differs(chain);
        let slot = self.slot(chain);
        assert(self.chain_names()[slot] == chain);
        assert(self.chains[slot].wf());
    }

    /// In a well-formed state, the statistics of a chain are found at one slot
    /// only.
    pub proof fn lemma_slot(self, chain: Seq<char>, i: int)
        requires
            self.distinct_chains(),
            0 <= i < self.chains.len(),
            self.chains[i].chain == chain,
        ensures
            self.tracks(chain),
            self.slot(chain) == i,
    {
        let names = self.chain_names();
        assert(names[i] == chain);
        let k = names.index_of(chain);
        assert(0 <= k < names.len() && names[k] == chain);
        if k < i {
            assert(self.chains[k].chain != self.chains[i].chain);
        }
        if i < k {
            assert(self.chains[i].chain != self.chains[k].chain);
        }
    }

    /// What a report changes in the statistics: those of the chain count one
    /// more use, and those of every other chain are as they were.
    pub proof fn lemma_recorded(
        self,
        chain: Seq<char>,
        provider_id: Seq<char>,
        cost: u64,
        success: bool,
        response_time: u64,
        now: u64,
    )
        requires
            self.distinct_chains(),
        ensures
            self.recorded(chain, provider_id, cost, success, response_time, now).distinct_chains(),
            self.wf() && self.can_record(chain) ==> self.recorded(
                chain,
                provider_id,
                cost,
                success,
                response_time,
                now,
            ).wf(),
            self.recorded(chain, provider_id, cost, success, response_time, now).tracks(chain),
            self.recorded(chain, provider_id, cost, success, response_time, now).stats(chain) == (
            if self.tracks(chain) {
                self.stats(chain).updated(cost, success, now)
            } else {
                ChainStatsView::first(chain, cost, success, now)
            }),
            forall|other: Seq<char>|
                #![trigger self.recorded(chain, provider_id, cost, success, response_time, now).tracks(other)]
                #![trigger self.recorded(chain, provider_id, cost, success, response_time, now).stats(other)]
                other != chain ==> {
                    &&& self.recorded(
                        chain,
                        provider_id,
                        cost,
                        success,
                        response_time,
                        now,
                    ).tracks(other) == self.tracks(other)
                    &&& self.tracks(other) ==> self.recorded(
                        chain,
                        provider_id,
                        cost,
                        success,
                        response_time,
                        now,
                    ).stats(other) == self.stats(other)
                },
    {
        let after = self.recorded(chain, provider_id, cost, success, response_time, now);
        if self.tracks(chain) {
            let k = self.slot(chain);
            assert(self.chain_names()[k] == chain);
            let before = self.chains[k];
            assert(after.chain_names() =~= self.chain_names());
            assert(after.distinct_chains());
            if self.wf() && self.can_record(chain) {
                assert(before.wf());
                assert(before.total_cost + cost <= (before.volume + 1) * u64::MAX)
                    by (nonlinear_arith)
                    requires
                        before.total_cost <= before.volume * u64::MAX,
                        cost <= u64::MAX,
                ;
                assert(after.wf());
            }
            after.lemma_slot(chain, k);
        } else {
            assert forall|i: int| 0 <= i < self.chains.len() implies self.chains[i].chain
                != chain by {
                assert(self.chain_names()[i] == self.chains[i].chain);
            }
            assert(after.distinct_chains());
            if self.wf() {
                assert(after.wf());
            }
            after.lemma_slot(chain, self.chains.len() as int);
        }
        assert forall|other: Seq<char>| other != chain implies {
            &&& after.tracks(other) == self.tracks(other)
            &&& self.tracks(other) ==> after.stats(other) == self.stats(other)
        } by {
            if self.tracks(other) {
                let m = self.slot(other);
                assert(self.chain_names()[m] == other);
                assert(after.chains[m] == self.chains[m]);
                after.lemma_slot(other, m);
            } else if after.tracks(other) {
                let m = after.slot(other);
                assert(after.chain_names()[m] == other);
                assert(after.chains[m].chain == other);
                assert(m < self.chains.len());
                assert(self.chain_names()[m] == other);
            }
        }
    }

    /// The running means are the arithmetic means. Whatever uses are
    /// reported, of this chain and of others, and however many have left the
    /// history since: the statistics of a chain count the uses of that chain
    /// that were reported, and hold the sum of their costs and the number of
    /// the successes among them, on top of what they held before. So the mean
    /// cost is the sum of all costs over their number, and the success rate,
    /// the successes over the uses, lies between nothing and one. The
    /// statistics bear the time of the last use of the chain.
    pub proof fn law_running_mean(self, reports: Seq<Report>, chain: Seq<char>)
        requires
            self.distinct_chains(),
        ensures
            self.reported(reports).distinct_chains(),
            self.reported(reports).tracks(chain) <==> self.tracks(chain) || uses_of(reports, chain)
                > 0,
            self.reported(reports).volume_at(chain) == self.volume_at(chain) + uses_of(
                reports,
                chain,
            ),
            self.reported(reports).cost_at(chain) == self.cost_at(chain) + cost_of(reports, chain),
            self.reported(reports).successes_at(chain) == self.successes_at(chain)
                + successes_among(reports, chain),
            successes_among(reports, chain) <= uses_of(reports, chain) <= reports.len(),
            uses_of(reports, chain) > 0 ==> self.reported(reports).stats(chain).last_updated
                == last_use(reports, chain, 0),
            self.tracks(chain) ==> self.reported(reports).stats(chain).last_updated == last_use(
                reports,
                chain,
                self.stats(chain).last_updated,
            ),
        decreases reports.len(),
    {
        if reports.len() > 0 {
            let last = reports.last();
            let rest = reports.drop_last();
            let before = self.reported(rest);
            self.law_running_mean(rest, chain);
            before.lemma_recorded(
                last.chain,
                last.provider_id,
                last.cost,
                last.success,
                last.response_time,
                last.now,
            );
            lemma_last_use(rest, chain, 0, self.stats(chain).last_updated);
        }
    }

    /// Reports that every chain can still count are each accepted: the state
    /// stays well formed, and what the chains can still count shrinks by no
    /// more than the number of the reports.
    pub proof fn law_reports_are_counted(self, reports: Seq<Report>, spare: nat)
        requires
            self.wf(),
            self.headroom(spare + reports.len()),
            spare + reports.len() <= u64::MAX,
        ensures
            self.reported(reports).wf(),
            self.reported(reports).headroom(spare),
            spare > 0 ==> forall|chain: Seq<char>|
                #[trigger] self.reported(reports).can_record(chain),
        decreases reports.len(),
    {
        let after = self.reported(reports);
        if reports.len() > 0 {
            let last = reports.last();
            let rest = reports.drop_last();
            let before = self.reported(rest);
            self.law_reports_are_counted(rest, spare + 1);
            assert(before.can_record(last.chain));
            before.lemma_recorded(
                last.chain,
                last.provider_id,
                last.cost,
                last.success,
                last.response_time,
                last.now,
            );
            if before.tracks(last.chain) {
                let k = before.slot(last.chain);
                assert(before.chain_names()[k] == last.chain);
                assert forall|i: int| 0 <= i < after.chains.len() implies (
                #[trigger] after.chains[i]).volume + spare <= u64::MAX by {
                    assert(before.chains[i].volume + (spare + 1) <= u64::MAX);
                }
            } else {
                assert forall|i: int| 0 <= i < after.chains.len() implies (
                #[trigger] after.chains[i]).volume + spare <= u64::MAX by {
                    if i < before.chains.len() {
                        assert(before.chains[i].volume + (spare + 1) <= u64::MAX);
                    }
                }
            }
        }
        if spare > 0 {
            assert forall|chain: Seq<char>| #[trigger] after.can_record(chain) by {
                if after.tracks(chain) {
                    let k = after.slot(chain);
                    assert(after.chain_names()[k] == chain);
                    assert(after.chains[k].volume + spare <= u64::MAX);
                }
            }
        }
    }

    /// The history holds the latest of what it held and what was reported
    /// since, oldest first, and never more than [`USAGE_CAPACITY`] records.
    pub proof fn law_history_keeps_latest(self, reports: Seq<Report>)
        requires
            self.history.len() <= USAGE_CAPACITY,
        ensures
            self.reported(reports).history == latest(
                self.history + records_of(reports),
                USAGE_CAPACITY as nat,
            ),
            self.reported(reports).history.len() <= USAGE_CAPACITY,
            self.reported(reports).settings == self.settings,
    {
        self.lemma_history(reports);
        law_ring_extend(self.history, records_of(reports), USAGE_CAPACITY as nat);
    }

    /// A full history stays full when a use is reported: its oldest record
    /// is gone, the others keep their order, and the new record is the last.
    pub proof fn law_full_history(self, report: Report)
        requires
            self.history.len() == USAGE_CAPACITY,
        ensures
            self.with_report(report).history.len() == USAGE_CAPACITY,
            self.with_report(report).history == self.history.subrange(
                1,
                USAGE_CAPACITY as int,
            ).push(report.record()),
    {
        assert(self.with_report(report).history =~= self.history.subrange(
            1,
            USAGE_CAPACITY as int,
        ).push(report.record()));
    }

    /// The history after reports is the old one, extended by their records
    /// one by one.
    proof fn lemma_history(self, reports: Seq<Report>)
        ensures
            self.reported(reports).history == ring_extend(
                self.history,
                records_of(reports),
                USAGE_CAPACITY as nat,
            ),
            self.reported(reports).settings == self.settings,
        decreases reports.len(),
    {
        if reports.len() > 0 {
            self.lemma_history(reports.drop_last());
            assert(records_of(reports).drop_last() =~= records_of(reports.drop_last()));
            assert(records_of(reports).last() == reports.last().record());
        }
    }
}

/// Where a chain is used among the reports, the time of its last use does not
/// depend on what came before them.
proof fn lemma_last_use(reports: Seq<Report>, chain: Seq<char>, a: u64, b: u64)
    ensures
        uses_of(reports, chain) > 0 ==> last_use(reports, chain, a) == last_use(reports, chain, b),
        uses_of(reports, chain) == 0 ==> last_use(reports, chain, a) == a,
    decreases reports.len(),
{
    if reports.len() > 0 {
        lemma_last_use(reports.drop_last(), chain, a, b);
    }
}

spec fn usage_views(s: Seq<UsageRecord>) -> Seq<UsageView> {
    Seq::new(s.len(), |i: int| s[i]@)
}

spec fn stats_views(s: Seq<ChainCostData>) -> Seq<ChainStatsView> {
    Seq::new(s.len(), |i: int| s[i]@)
}

/// The usage history and the statistics that routing decisions rest on.
pub struct CostOptimizer {
    settings: OptimizationSettings,
    usage_history: Vec<UsageRecord>,
    chain_costs: Vec<ChainCostData>,
}

impl View for CostOptimizer {
    type V = OptimizerView;

    closed spec fn view(&self) -> OptimizerView {
        OptimizerView {
            settings: self.settings@,
            history: usage_views(self.usage_history@),
            chains: stats_views(self.chain_costs@),
        }
    }
}

impl CostOptimizer {
    /// The invariant of the optimizer: that of its view.
    pub open spec fn wf(&self) -> bool {
        self@.wf()
    }

    /// An optimizer with these settings, no usage record and no statistics.
    pub fn new(settings: OptimizationSettings) -> (r: Self)
        ensures
            r.wf(),
            r@.settings == settings@,
            r@.history.len() == 0,
            r@.chains.len() == 0,
    {
        CostOptimizer { settings, usage_history: Vec::new(), chain_costs: Vec::new() }
    }

    /// Replaces the settings. Every value is accepted as it is.
    pub fn update_settings(&mut self, settings: OptimizationSettings)
        requires
            old(self).wf(),
        ensures
            final(self).wf(),
            final(self)@ == (OptimizerView { settings: settings@, ..old(self)@ }),
    {
        self.settings = settings;
    }

    /// The settings in force.
    pub fn settings(&self) -> (r: &OptimizationSettings)
        ensures
            r@ == self@.settings,
    {
        &self.settings
    }

    /// The usage records that are kept, oldest first.
    pub fn usage_history(&self) -> (r: &Vec<UsageRecord>)
        ensures
            r.len() == self@.history.len(),
            forall|i: int| 0 <= i < r.len() ==> r[i]@ == self@.history[i],
    {
        &self.usage_history
    }

    fn find_chain(&self, chain: &String) -> (r: Option<usize>)
        requires
            self.wf(),
        ensures
            match r {
                Some(i) => i < self@.chains.len() && self@.chains[i as int].chain == chain@
                    && self@.tracks(chain@) && self@.slot(chain@) == i,
                None => !self@.tracks(chain@),
            },
    {
        let mut i: usize = 0;
        while i < self.chain_costs.len()
            invariant
                self.wf(),
                i <= self.chain_costs.len(),
                forall|j: int| 0 <= j < i ==> self.chain_costs[j].chain@ != chain@,
            decreases self.chain_costs.len() - i,
        {
            if self.chain_costs[i].chain == *chain {
                proof {
                    self@.lemma_slot(chain@, i as int);
                }
                return Some(i);
            }
            i += 1;
        }
        assert(forall|j: int|
            0 <= j < self@.chain_names().len() ==> self@.chain_names()[j]
                == self.chain_costs[j].chain@);
        None
    }

    /// The statistics of the chain, where it was used.
    pub fn chain_stats(&self, chain: &str) -> (r: Option<&ChainCostData>)
        requires
            self.wf(),
        ensures
            match r {
                Some(data) => self@.tracks(chain@) && data@ == self@.stats(chain@),
                None => !self@.tracks(chain@),
            },
    {
        let key = chain.to_owned();
        match self.find_chain(&key) {
            Some(slot) => Some(&self.chain_costs[slot]),
            None => None,
        }
    }

    /// Counts one use of `chain` in its statistics.
    fn update_chain_costs(&mut self, chain: &str, cost: u64, success: bool, now: u64)
        requires
            old(self).wf(),
            old(self)@.can_record(chain@),
        ensures
            final(self).wf(),
            final(self)@.settings == old(self)@.settings,
            final(self)@.history == old(self)@.history,
            final(self)@.chains == old(self)@.recorded(
                chain@,
                Seq::empty(),
                cost,
                success,
                0,
                now,
            ).chains,
    {
        let key = chain.to_owned();
        proof {
            self@.lemma_recorded(chain@, Seq::empty(), cost, success, 0, now);
        }
        let ghost goal = self@.recorded(chain@, Seq::empty(), cost, success, 0, now);
        match self.find_chain(&key) {
            Some(slot) => {
                let ghost before = self@.chains[slot as int];
                assert(before.wf());
                assert(before.total_cost + cost <= u64::MAX * u64::MAX) by (nonlinear_arith)
                    requires
                        before.total_cost <= before.volume * u64::MAX,
                        before.volume < u64::MAX,
                        cost <= u64::MAX,
                ;
                let total_cost = self.chain_costs[slot].total_cost + cost as u128;
                let volume = self.chain_costs[slot].volume + 1;
                let successes = if success {
                    self.chain_costs[slot].successes + 1
                } else {
                    self.chain_costs[slot].successes
                };
                self.chain_costs[slot].total_cost = total_cost;
                self.chain_costs[slot].volume = volume;
                self.chain_costs[slot].successes = successes;
                self.chain_costs[slot].last_updated = now;
                assert(self@.chains =~= goal.chains);
            },
            None => {
                self.chain_costs.push(
                    ChainCostData {
                        chain: key,
                        total_cost: cost as u128,
                        volume: 1,
                        successes: if success {
                            1
                        } else {
                            0
                        },
                        last_updated: now,
                    },
                );
                assert(self@.chains =~= goal.chains);
            },
        }
    }

    /// The provider to route a payment of `amount` on `chain` to: of the
    /// providers of `registry` that are in service, serve the chain, cost no
    /// more than the settings allow and are as reliable as the settings ask,
    /// the one with the lowest score, and of several such the one registered
    /// first. `None` where there is no such provider.
    pub fn optimize_payment_route(&self, registry: &ServiceRegistry, chain: &str, amount: u64) -> (r:
        Option<String>)
        requires
            self.wf(),
        ensures
            match r {
                Some(id) => exists|k: int|
                    is_first_minimum(self@.route_keys(registry@.providers, chain@, amount), k)
                        && id@ == registry@.providers[k].id,
                None => no_candidate(self@.route_keys(registry@.providers, chain@, amount)),
            },
    {
        let wanted = chain.to_owned();
        let providers = registry.list_providers();
        let ghost goal = self@.route_keys(registry@.providers, chain@, amount);
        let mut keys: Vec<Option<u128>> = Vec::new();
        let mut i: usize = 0;
        while i < providers.len()
            invariant
                wanted@ == chain@,
                goal == self@.route_keys(registry@.providers, chain@, amount),
                providers.len() == registry@.providers.len(),
                forall|j: int| 0 <= j < providers.len() ==> providers[j]@ == registry@.providers[j],
                i <= providers.len(),
                keys.len() == i,
                forall|j: int|
                    0 <= j < i ==> match #[trigger] keys[j] {
                        Some(key) => goal[j] is Some && key == route_rank(
                            registry@.providers[j],
                            amount,
                        ),
                        None => goal[j] is None,
                    },
            decreases providers.len() - i,
        {
            let p = providers[i];
            let key = if p.is_active && contains_text(&p.supported_chains, &wanted)
                && p.cost_per_request <= self.settings.max_cost_per_transaction
                && p.reliability_score >= self.settings.reliability_threshold {
                Some(rank(p, amount))
            } else {
                None
            };
            keys.push(key);
            i += 1;
        }
        proof {
            let ranks = unbounded(keys@);
            assert forall|a: int, b: int|
                0 <= a < ranks.len() && 0 <= b < ranks.len() && ranks[a] is Some
                    && ranks[b] is Some implies ((#[trigger] ranks[a])->Some_0 <= (
            #[trigger] ranks[b])->Some_0 <==> goal[a]->Some_0 <= goal[b]->Some_0) by {
                self@.lemma_route_order(
                    registry@.providers[a],
                    registry@.providers[b],
                    chain@,
                    amount,
                );
                assert(keys[a] is Some && keys[b] is Some);
            }
            assert forall|a: int| 0 <= a < ranks.len() implies ((#[trigger] ranks[a]) is Some
                <==> goal[a] is Some) by {
                assert(keys[a] is Some <==> goal[a] is Some);
            }
            assert(same_order(ranks, goal));
        }
        match first_minimum(&keys) {
            Some(k) => {
                proof {
                    lemma_same_order(unbounded(keys@), goal, k as int);
                }
                Some(providers[k].id.clone())
            },
            None => {
                proof {
                    lemma_same_order(unbounded(keys@), goal, 0);
                }
                None
            },
        }
    }

    /// The chain to move the traffic of `problematic_chain` to: another chain
    /// in every case.
    pub fn find_alternative_chain(&self, problematic_chain: &str) -> (r: String)
        requires
            self.wf(),
        ensures
            r@ == self@.alternative(problematic_chain@),
            r@ != problematic_chain@,
    {
        proof {
            self@.law_alternative_differs(problematic_chain@);
        }
        let avoided = problematic_chain.to_owned();
        let mut best: Option<usize> = None;
        let mut i: usize = 0;
        while i < self.chain_costs.len()
            invariant
                self.wf(),
                avoided@ == problematic_chain@,
                i <= self.chain_costs.len(),
                match best {
                    Some(k) => self@.is_best_alternative_among(
                        problematic_chain@,
                        k as int,
                        i as int,
                    ),
                    None => forall|j: int|
                        0 <= j < i ==> (#[trigger] self@.chains[j]).chain == problematic_chain@,
                },
            decreases self.chain_costs.len() - i,
        {
            let current = &self.chain_costs[i];
            if !(current.chain == avoided) {
                match best {
                    None => {
                        best = Some(i);
                    },
                    Some(k) => {
                        let held = &self.chain_costs[k];
                        let ghost (a, b) = (self@.chains[k as int], self@.chains[i as int]);
                        assert(a.wf() && b.wf());
                        assert(a.successes * b.volume <= u64::MAX * u64::MAX) by (nonlinear_arith)
                            requires
                                a.successes <= u64::MAX,
                                b.volume <= u64::MAX,
                        ;
                        assert(b.successes * a.volume <= u64::MAX * u64::MAX) by (nonlinear_arith)
                            requires
                                b.successes <= u64::MAX,
                                a.volume <= u64::MAX,
                        ;
                        if (held.successes as u128) * (current.volume as u128) < (
                        current.successes as u128) * (held.volume as u128) {
                            proof {
                                assert forall|j: int|
                                    0 <= j < i && (#[trigger] self@.chains[j]).chain
                                        != problematic_chain@ implies rate_less(
                                    self@.chains[j],
                                    b,
                                ) by {
                                    assert(self@.chains[j].wf());
                                    lemma_rate_transitive(self@.chains[j], a, b);
                                }
                            }
                            best = Some(i);
                        }
                    },
                }
            }
            i += 1;
        }
        match best {
            Some(k) => {
                proof {
                    self@.lemma_alternative(problematic_chain@, k as int);
                }
                self.chain_costs[k].chain.clone()
            },
            None => {
                let fallback = "Polygon".to_owned();
                if avoided == fallback {
                    "REI".to_owned()
                } else {
                    fallback
                }
            },
        }
    }

    /// What could be saved by moving the traffic of `chain` elsewhere.
    pub fn calculate_potential_savings(&self, chain: &str) -> (r: PotentialSavings)
        requires
            self.wf(),
        ensures
            r == self@.savings(chain@),
    {
        let key = chain.to_owned();
        match self.find_chain(&key) {
            None => PotentialSavings {
                failure_rate: Ratio { num: 0, den: 1 },
                average_cost: Ratio { num: 0, den: 1 },
                best_efficiency: Ratio { num: 0, den: 1 },
            },
            Some(slot) => {
                assert(self@.chains[slot as int].wf());
                let data = &self.chain_costs[slot];
                let mut best_successes: u64 = 0;
                let mut best_cost: u128 = 1;
                let mut i: usize = 0;
                while i < self.chain_costs.len()
                    invariant
                        i <= self.chain_costs.len(),
                        best_efficiency(self@.chains.subrange(0, i as int)) == (Ratio {
                            num: best_successes as u128,
                            den: best_cost,
                        }),
                    decreases self.chain_costs.len() - i,
                {
                    let c = &self.chain_costs[i];
                    proof {
                        let next = self@.chains.subrange(0, i + 1);
                        assert(next.drop_last() =~= self@.chains.subrange(0, i as int));
                        assert(next.last() == c@);
                    }
                    if product_less(best_successes, c.total_cost, c.successes, best_cost) {
                        best_successes = c.successes;
                        best_cost = c.total_cost;
                    }
                    i += 1;
                }
                assert(self@.chains.subrange(0, i as int) =~= self@.chains);
                PotentialSavings {
                    failure_rate: Ratio {
                        num: (data.volume - data.successes) as u128,
                        den: data.volume as u128,
                    },
                    average_cost: Ratio { num: data.total_cost, den: data.volume as u128 },
                    best_efficiency: Ratio { num: best_successes as u128, den: best_cost },
                }
            },
        }
    }

    /// One advice for each preferred chain whose success rate is below the
    /// threshold of the settings, in the order of the preferred chains: where
    /// to move its traffic, and what that could save.
    pub fn suggest_chain_rebalancing(&self) -> (r: Vec<RebalancingSuggestion>)
        requires
            self.wf(),
        ensures
            suggestion_views(r@) == self@.suggestions(),
    {
        let mut suggestions: Vec<RebalancingSuggestion> = Vec::new();
        let mut i: usize = 0;
        let ghost preferred = self@.settings.preferred_chains;
        while i < self.settings.preferred_chains.len()
            invariant
                self.wf(),
                preferred == self@.settings.preferred_chains,
                i <= self.settings.preferred_chains.len(),
                suggestion_views(suggestions@) == self@.suggestions_for(
                    preferred.subrange(0, i as int),
                ),
            decreases self.settings.preferred_chains.len() - i,
        {
            let name = &self.settings.preferred_chains[i];
            proof {
                let next = preferred.subrange(0, i + 1);
                assert(next.drop_last() =~= preferred.subrange(0, i as int));
                assert(next.last() == name@);
            }
            if let Some(slot) = self.find_chain(name) {
                let data = &self.chain_costs[slot];
                assert(self@.chains[slot as int].wf());
                assert(data.successes * 1_000_000 <= u64::MAX * 1_000_000) by (nonlinear_arith)
                    requires
                        data.successes <= u64::MAX,
                ;
                assert(self.settings.reliability_threshold * data.volume <= u32::MAX * u64::MAX)
                    by (nonlinear_arith)
                    requires
                        self.settings.reliability_threshold <= u32::MAX,
                        data.volume <= u64::MAX,
                ;
                if (data.successes as u128) * 1_000_000 < (
                self.settings.reliability_threshold as u128) * (data.volume as u128) {
                    let ghost before = suggestion_views(suggestions@);
                    let advice = RebalancingSuggestion {
                        from_chain: name.clone(),
                        to_chain: self.find_alternative_chain(name.as_str()),
                        reason: "Low success rate".to_owned(),
                        potential_savings: self.calculate_potential_savings(name.as_str()),
                    };
                    suggestions.push(advice);
                    assert(suggestion_views(suggestions@) =~= before.push(advice@));
                }
            }
            i += 1;
        }
        assert(preferred.subrange(0, i as int) =~= preferred);
        suggestions
    }

    /// The metrics of the usage records whose timestamp lies in the window of
    /// length `time_window` that ends at `now`.
    pub fn get_usage_metrics(&self, time_window: u64, now: u64) -> (r: UsageMetrics)
        requires
            self.wf(),
        ensures
            r == self@.usage_metrics(time_window, now),
    {
        let mut requests: u64 = 0;
        let mut successes: u64 = 0;
        let mut volume: u128 = 0;
        let mut response: u128 = 0;
        let mut i: usize = 0;
        let ghost history = self@.history;
        while i < self.usage_history.len()
            invariant
                history == self@.history,
                history.len() == self.usage_history.len(),
                history.len() <= USAGE_CAPACITY,
                i <= self.usage_history.len(),
                requests == history.subrange(0, i as int).filter(within(now, time_window)).len(),
                successes == successes_of(
                    history.subrange(0, i as int).filter(within(now, time_window)),
                ),
                volume == volume_of(history.subrange(0, i as int).filter(within(now, time_window))),
                response == response_of(
                    history.subrange(0, i as int).filter(within(now, time_window)),
                ),
                successes <= requests <= i,
                volume <= requests * u64::MAX,
                response <= requests * u64::MAX,
            decreases self.usage_history.len() - i,
        {
            let record = &self.usage_history[i];
            proof {
                reveal(Seq::filter);
                let seen = history.subrange(0, i as int);
                let next = history.subrange(0, i + 1);
                assert(next.drop_last() =~= seen);
                assert(next.last() == record@);
                let kept = seen.filter(within(now, time_window));
                assert(kept.push(record@).drop_last() =~= kept);
            }
            if record.timestamp <= now && now - record.timestamp <= time_window {
                requests = requests + 1;
                if record.success {
                    successes = successes + 1;
                }
                volume = volume + record.cost as u128;
                response = response + record.response_time as u128;
            }
            i += 1;
        }
        assert(history.subrange(0, i as int) =~= history);
        UsageMetrics {
            total_requests: requests,
            successful_payments: successes,
            failed_payments: requests - successes,
            total_volume: volume,
            average_response_time: if requests == 0 {
                Ratio { num: 0, den: 1 }
            } else {
                Ratio { num: response, den: requests as u128 }
            },
            cost_efficiency: if requests == 0 {
                Ratio { num: 0, den: 1 }
            } else {
                Ratio { num: successes as u128 * 1_000_000, den: volume }
            },
        }
    }

    /// Reports one use of a provider on `chain` at time `now`: the record is
    /// kept as the latest of at most [`USAGE_CAPACITY`], and the statistics of
    /// the chain count it.
    ///
    /// A chain can be used `u64::MAX` times before its uses can no longer be
    /// counted.
    pub fn record_usage(
        &mut self,
        chain: &str,
        provider_id: &str,
        cost: u64,
        success: bool,
        response_time: u64,
        now: u64,
    )
        requires
            old(self).wf(),
            old(self)@.can_record(chain@),
        ensures
            final(self).wf(),
            final(self)@ == old(self)@.recorded(
                chain@,
                provider_id@,
                cost,
                success,
                response_time,
                now,
            ),
    {
        let record = UsageRecord {
            timestamp: now,
            chain: chain.to_owned(),
            provider_id: provider_id.to_owned(),
            cost,
            success,
            response_time,
        };
        let ghost goal = self@.recorded(chain@, provider_id@, cost, success, response_time, now);
        ring_append(&mut self.usage_history, record, USAGE_CAPACITY);
        assert(self@.history =~= goal.history);
        assert(self@.chains == old(self)@.chains);
        assert(self@.tracks(chain@) == old(self)@.tracks(chain@));
        self.update_chain_costs(chain, cost, success, now);
    }
}

} // verus!
