//! The providers that payments can be routed to, and a bounded history of the
//! response times of each.

use crate::exact::{lemma_total_bound, sum, total};
use crate::ring::{ring_append, ring_push};
use crate::selection::{first_minimum, is_first_minimum, no_candidate, unbounded};
use crate::types::{contains_text, ProviderView, ServiceProvider};
use vstd::prelude::*;

verus! {

/// How many response times are kept for each provider.
pub const HISTORY_CAPACITY: usize = 100;

/// The reliability, in parts per million, below which a provider is never
/// chosen by [`ServiceRegistry::get_best_provider`].
pub const MIN_RELIABILITY: u32 = 800_000;

/// The number that stands for one in a term of a score.
pub const SCORE_ONE: u128 = 1_000_000_000_000_000_000;

/// What one part per million is in a term of a score.
pub const SCORE_PER_PPM: u128 = 1_000_000_000_000;

/// Why the registry refused an operation.
#[derive(Clone, Copy, Debug, PartialEq, Eq, Structural)]
pub enum RegistryError {
    /// A provider with this id is registered.
    DuplicateId,
    /// No provider with this id is registered.
    NotFound,
}

impl RegistryError {
    /// The wording of each error.
    pub open spec fn text(self) -> Seq<char> {
        match self {
            RegistryError::DuplicateId => "Provider already registered"@,
            RegistryError::NotFound => "Provider not found"@,
        }
    }

    /// The error in words.
    pub fn message(&self) -> (s: String)
        ensures
            s@ == self.text(),
    {
        match self {
            RegistryError::DuplicateId => "Provider already registered".to_owned(),
            RegistryError::NotFound => "Provider not found".to_owned(),
        }
    }
}

/// The part of a score that rewards a low cost: `1 / (cost + 1)`, rounded
/// down to a whole number of the parts of [`SCORE_ONE`].
pub open spec fn cost_term(cost: u64) -> int {
    SCORE_ONE as int / (cost + 1)
}

/// The part of a score that rewards fast answers: `1 / (mean + 1)` for the
/// mean of the response times, rounded down, and one half where none is known.
pub open spec fn performance_term(history: Seq<u64>) -> int {
    if history.len() == 0 {
        SCORE_ONE as int / 2
    } else {
        SCORE_ONE as int * history.len() / (total(history) + history.len())
    }
}

/// The score of a provider with these response times, in tenths: three parts
/// cost, four parts reliability and three parts performance.
pub open spec fn provider_score(provider: ProviderView, history: Seq<u64>) -> int {
    3 * cost_term(provider.cost_per_request) + 4 * (provider.reliability_score
        * SCORE_PER_PPM as int) + 3 * performance_term(history)
}

/// Whether a provider can be chosen for `chain` at a cost of at most
/// `max_cost`.
pub open spec fn eligible(provider: ProviderView, chain: Seq<char>, max_cost: u64) -> bool {
    &&& provider.is_active
    &&& provider.supports(chain)
    &&& provider.cost_per_request <= max_cost
    &&& provider.reliability_score >= MIN_RELIABILITY
}

/// A score is a natural number that fits in 128 bits.
pub proof fn lemma_score_bound(provider: ProviderView, history: Seq<u64>)
    ensures
        0 <= cost_term(provider.cost_per_request) <= SCORE_ONE,
        0 <= performance_term(history) <= SCORE_ONE,
        0 <= provider_score(provider, history) <= 7 * SCORE_ONE + 4 * (u32::MAX * SCORE_PER_PPM),
        provider_score(provider, history) <= u128::MAX,
{
    let cost = provider.cost_per_request;
    assert(0 <= SCORE_ONE as int / (cost + 1) <= SCORE_ONE) by (nonlinear_arith)
        requires
            cost >= 0,
    ;
    lemma_total_bound(history);
    let n = history.len() as int;
    let t = total(history);
    if n > 0 {
        assert(0 <= (SCORE_ONE as int * n) / (t + n) <= SCORE_ONE) by (nonlinear_arith)
            requires
                n > 0,
                t >= 0,
        ;
    }
    assert(provider.reliability_score * SCORE_PER_PPM as int <= u32::MAX * SCORE_PER_PPM)
        by (nonlinear_arith)
        requires
            provider.reliability_score <= u32::MAX,
    ;
}

/// What a [`ServiceRegistry`] holds: the providers in the order in which they
/// were registered, and beside each its latest response times, oldest first.
pub struct RegistryView {
    pub providers: Seq<ProviderView>,
    pub histories: Seq<Seq<u64>>,
}

impl RegistryView {
    /// The ids of the providers.
    pub open spec fn ids(self) -> Seq<Seq<char>> {
        Seq::new(self.providers.len(), |i: int| self.providers[i].id)
    }

    /// Whether a provider with this id is registered.
    pub open spec fn has(self, id: Seq<char>) -> bool {
        self.ids().contains(id)
    }

    /// Where the provider with this id stands.
    pub open spec fn slot(self, id: Seq<char>) -> int {
        self.ids().index_of(id)
    }

    /// The provider with this id.
    pub open spec fn provider(self, id: Seq<char>) -> ProviderView {
        self.providers[self.slot(id)]
    }

    /// The response times kept for the provider with this id; none for an
    /// unknown one.
    pub open spec fn history(self, id: Seq<char>) -> Seq<u64> {
        if self.has(id) {
            self.histories[self.slot(id)]
        } else {
            Seq::empty()
        }
    }

    /// Each provider has its history, of at most [`HISTORY_CAPACITY`] response
    /// times, and no id occurs twice.
    pub open spec fn wf(self) -> bool {
        &&& self.providers.len() == self.histories.len()
        &&& forall|i: int, j: int|
            0 <= i < j < self.providers.len() ==> self.providers[i].id != self.providers[j].id
        &&& forall|i: int|
            0 <= i < self.histories.len() ==> (#[trigger] self.histories[i]).len()
                <= HISTORY_CAPACITY
    }

    /// The state after `provider` was registered: it is the last, with no
    /// response time known.
    pub open spec fn registered(self, provider: ProviderView) -> RegistryView {
        RegistryView {
            providers: self.providers.push(provider),
            histories: self.histories.push(Seq::empty()),
        }
    }

    /// The state after a response time of the provider was recorded. Nothing
    /// changes for an unknown provider.
    pub open spec fn recorded(self, id: Seq<char>, response_time: u64) -> RegistryView {
        if self.has(id) {
            RegistryView {
                providers: self.providers,
                histories: self.histories.update(
                    self.slot(id),
                    ring_push(self.histories[self.slot(id)], response_time, HISTORY_CAPACITY as nat),
                ),
            }
        } else {
            self
        }
    }

    /// The state after the provider was taken out of service. Nothing changes
    /// for an unknown provider.
    pub open spec fn deactivated(self, id: Seq<char>) -> RegistryView {
        if self.has(id) {
            RegistryView {
                providers: self.providers.update(self.slot(id), self.provider(id).deactivated()),
                histories: self.histories,
            }
        } else {
            self
        }
    }

    /// The score of `provider` with the response times kept under its id.
    pub open spec fn score_of(self, provider: ProviderView) -> int {
        provider_score(provider, self.history(provider.id))
    }

    /// For each provider its score, where it can be chosen for `chain` at a
    /// cost of at most `max_cost`.
    pub open spec fn selection_keys(self, chain: Seq<char>, max_cost: u64) -> Seq<Option<int>> {
        Seq::new(
            self.providers.len(),
            |i: int|
                if eligible(self.providers[i], chain, max_cost) {
                    Some(provider_score(self.providers[i], self.histories[i]))
                } else {
                    None
                },
        )
    }

    /// In a well-formed state, a provider is found at one slot only.
    pub proof fn lemma_slot(self, id: Seq<char>, i: int)
        requires
            self.wf(),
            0 <= i < self.providers.len(),
            self.providers[i].id == id,
        ensures
            self.has(id),
            self.slot(id) == i,
    {
        let ids = self.ids();
        assert(ids[i] == id);
        let k = ids.index_of(id);
        assert(0 <= k < ids.len() && ids[k] == id);
        if k < i {
            assert(self.providers[k].id != self.providers[i].id);
        }
        if i < k {
            assert(self.providers[i].id != self.providers[k].id);
        }
    }

    /// A provider that is out of service stays so, whatever is registered,
    /// recorded or deactivated afterwards.
    pub proof fn law_deactivation_is_final(
        self,
        id: Seq<char>,
        provider: ProviderView,
        other: Seq<char>,
        response_time: u64,
    )
        requires
            self.wf(),
            self.has(id),
            !self.provider(id).is_active,
        ensures
            !self.has(provider.id) ==> self.registered(provider).has(id) && !self.registered(
                provider,
            ).provider(id).is_active,
            self.recorded(other, response_time).has(id) && !self.recorded(
                other,
                response_time,
            ).provider(id).is_active,
            self.deactivated(other).has(id) && !self.deactivated(other).provider(id).is_active,
    {
        let k = self.slot(id);
        assert(self.ids()[k] == id);
        if !self.has(provider.id) {
            let after = self.registered(provider);
            assert forall|i: int| 0 <= i < self.providers.len() implies self.providers[i].id
                != provider.id by {
                assert(self.ids()[i] == self.providers[i].id);
            }
            after.lemma_slot(id, k);
        }
        assert(self.recorded(other, response_time).ids() =~= self.ids());
        if self.has(other) {
            let m = self.slot(other);
            assert(self.ids()[m] == other);
            let after = self.deactivated(other);
            assert(after.ids() =~= self.ids());
        }
    }
}

spec fn provider_views(s: Seq<ServiceProvider>) -> Seq<ProviderView> {
    Seq::new(s.len(), |i: int| s[i]@)
}

spec fn history_views(s: Seq<Vec<u64>>) -> Seq<Seq<u64>> {
    Seq::new(s.len(), |i: int| s[i]@)
}

/// The inventory of providers.
pub struct ServiceRegistry {
    providers: Vec<ServiceProvider>,
    performance_history: Vec<Vec<u64>>,
}

impl View for ServiceRegistry {
    type V = RegistryView;

    closed spec fn view(&self) -> RegistryView {
        RegistryView {
            providers: provider_views(self.providers@),
            histories: history_views(self.performance_history@),
        }
    }
}

impl ServiceRegistry {
    /// The invariant of the registry: that of its view.
    pub open spec fn wf(&self) -> bool {
        self@.wf()
    }

    /// A registry without providers.
    pub fn new() -> (r: Self)
        ensures
            r.wf(),
            r@.providers.len() == 0,
            r@.histories.len() == 0,
    {
        ServiceRegistry { providers: Vec::new(), performance_history: Vec::new() }
    }

    fn find(&self, id: &String) -> (r: Option<usize>)
        requires
            self.wf(),
        ensures
            match r {
                Some(i) => i < self@.providers.len() && self@.providers[i as int].id == id@
                    && self@.has(id@) && self@.slot(id@) == i,
                None => !self@.has(id@),
            },
    {
        let mut i: usize = 0;
        while i < self.providers.len()
            invariant
                self.wf(),
                i <= self.providers.len(),
                forall|j: int| 0 <= j < i ==> self.providers[j].id@ != id@,
            decreases self.providers.len() - i,
        {
            if self.providers[i].id == *id {
                proof {
                    self@.lemma_slot(id@, i as int);
                }
                return Some(i);
            }
            i += 1;
        }
        assert(forall|j: int|
            0 <= j < self@.ids().len() ==> self@.ids()[j] == self.providers[j].id@);
        None
    }

    /// Registers `provider`, with no response time known, unless a provider
    /// with its id is registered.
    pub fn register_provider(&mut self, provider: ServiceProvider) -> (r: Result<
        (),
        RegistryError,
    >)
        requires
            old(self).wf(),
        ensures
            final(self).wf(),
            old(self)@.has(provider@.id) ==> r == Err::<(), RegistryError>(
                RegistryError::DuplicateId,
            ) && final(self)@ == old(self)@,
            !old(self)@.has(provider@.id) ==> r == Ok::<(), RegistryError>(()) && final(self)@
                == old(self)@.registered(provider@),
    {
        if self.find(&provider.id).is_some() {
            return Err(RegistryError::DuplicateId);
        }
        proof {
            assert forall|i: int| 0 <= i < self@.providers.len() implies self@.providers[i].id
                != provider@.id by {
                assert(self@.ids()[i] == self@.providers[i].id);
            }
        }
        self.performance_history.push(Vec::new());
        self.providers.push(provider);
        proof {
            let goal = old(self)@.registered(provider@);
            assert(self@.providers =~= goal.providers);
            assert(self@.histories =~= goal.histories);
        }
        Ok(())
    }

    /// Records a response time of the provider, as the latest of at most
    /// [`HISTORY_CAPACITY`]. Fails with `NotFound`, changing nothing, for an
    /// unknown provider.
    pub fn update_provider_performance(&mut self, provider_id: &str, response_time: u64) -> (r:
        Result<(), RegistryError>)
        requires
            old(self).wf(),
        ensures
            final(self).wf(),
            final(self)@ == old(self)@.recorded(provider_id@, response_time),
            r == (if old(self)@.has(provider_id@) {
                Ok::<(), RegistryError>(())
            } else {
                Err::<(), RegistryError>(RegistryError::NotFound)
            }),
    {
        let key = provider_id.to_owned();
        match self.find(&key) {
            None => Err(RegistryError::NotFound),
            Some(slot) => {
                assert(self@.histories[slot as int].len() <= HISTORY_CAPACITY);
                ring_append(&mut self.performance_history[slot], response_time, HISTORY_CAPACITY);
                proof {
                    let goal = old(self)@.recorded(provider_id@, response_time);
                    assert(self@.providers =~= goal.providers);
                    assert(self@.histories =~= goal.histories);
                }
                Ok(())
            },
        }
    }

    /// Takes the provider out of service. Fails with `NotFound`, changing
    /// nothing, for an unknown provider. Nothing puts a provider back into
    /// service.
    pub fn deactivate_provider(&mut self, provider_id: &str) -> (r: Result<(), RegistryError>)
        requires
            old(self).wf(),
        ensures
            final(self).wf(),
            final(self)@ == old(self)@.deactivated(provider_id@),
            r == (if old(self)@.has(provider_id@) {
                Ok::<(), RegistryError>(())
            } else {
                Err::<(), RegistryError>(RegistryError::NotFound)
            }),
    {
        let key = provider_id.to_owned();
        match self.find(&key) {
            None => Err(RegistryError::NotFound),
            Some(slot) => {
                self.providers[slot].is_active = false;
                proof {
                    let goal = old(self)@.deactivated(provider_id@);
                    assert(self@.providers =~= goal.providers);
                    assert(self@.histories =~= goal.histories);
                }
                Ok(())
            },
        }
    }

    /// The provider with this id.
    pub fn get_provider(&self, id: &str) -> (r: Option<&ServiceProvider>)
        requires
            self.wf(),
        ensures
            match r {
                Some(p) => self@.has(id@) && p@ == self@.provider(id@),
                None => !self@.has(id@),
            },
    {
        let key = id.to_owned();
        match self.find(&key) {
            None => None,
            Some(slot) => Some(&self.providers[slot]),
        }
    }

    /// The score of `provider` with the response times kept under its id;
    /// where none is kept, the performance counts for one half.
    pub fn calculate_provider_score(&self, provider: &ServiceProvider) -> (r: u128)
        requires
            self.wf(),
        ensures
            r == self@.score_of(provider@),
    {
        match self.find(&provider.id) {
            Some(slot) => score(provider, &self.performance_history[slot]),
            None => {
                let none: Vec<u64> = Vec::new();
                score(provider, &none)
            },
        }
    }

    /// The provider to use for `chain` at a cost of at most `max_cost`: of
    /// the providers that are in service, serve the chain, cost no more and
    /// have a reliability of at least [`MIN_RELIABILITY`], the one with the
    /// lowest score, and of several such the one registered first. `None`
    /// where there is no such provider.
    ///
    /// Every term of the score grows with the quality of a provider, and the
    /// lowest score wins all the same. Callers have this behaviour today;
    /// whether the highest score was meant is an open question, and the
    /// direction stays as it is until that is decided.
    pub fn get_best_provider(&self, chain: &str, max_cost: u64) -> (r: Option<&ServiceProvider>)
        requires
            self.wf(),
        ensures
            match r {
                Some(p) => exists|k: int|
                    is_first_minimum(self@.selection_keys(chain@, max_cost), k) && p@
                        == self@.providers[k],
                None => no_candidate(self@.selection_keys(chain@, max_cost)),
            },
    {
        let wanted = chain.to_owned();
        let mut keys: Vec<Option<u128>> = Vec::new();
        let mut i: usize = 0;
        while i < self.providers.len()
            invariant
                self.wf(),
                wanted@ == chain@,
                i <= self.providers.len(),
                keys.len() == i,
                forall|j: int|
                    0 <= j < i ==> match #[trigger] keys[j] {
                        Some(key) => self@.selection_keys(chain@, max_cost)[j] == Some(key as int),
                        None => self@.selection_keys(chain@, max_cost)[j] is None,
                    },
            decreases self.providers.len() - i,
        {
            let p = &self.providers[i];
            let key = if p.is_active && contains_text(&p.supported_chains, &wanted)
                && p.cost_per_request <= max_cost && p.reliability_score >= MIN_RELIABILITY {
                proof {
                    lemma_score_bound(p@, self.performance_history[i as int]@);
                }
                Some(score(p, &self.performance_history[i]))
            } else {
                None
            };
            keys.push(key);
            i += 1;
        }
        assert(unbounded(keys@) =~= self@.selection_keys(chain@, max_cost));
        match first_minimum(&keys) {
            Some(k) => Some(&self.providers[k]),
            None => None,
        }
    }

    /// The response times kept for the provider with this id, oldest first.
    pub fn response_times(&self, provider_id: &str) -> (r: Option<&Vec<u64>>)
        requires
            self.wf(),
        ensures
            match r {
                Some(times) => self@.has(provider_id@) && times@ == self@.history(provider_id@),
                None => !self@.has(provider_id@),
            },
    {
        let key = provider_id.to_owned();
        match self.find(&key) {
            None => None,
            Some(slot) => Some(&self.performance_history[slot]),
        }
    }

    /// The providers, in the order in which they were registered.
    pub fn list_providers(&self) -> (r: Vec<&ServiceProvider>)
        ensures
            r.len() == self@.providers.len(),
            forall|i: int| 0 <= i < r.len() ==> r[i]@ == self@.providers[i],
    {
        let mut r: Vec<&ServiceProvider> = Vec::new();
        let mut i: usize = 0;
        while i < self.providers.len()
            invariant
                i <= self.providers.len(),
                r.len() == i,
                forall|j: int| 0 <= j < i ==> r[j]@ == self.providers[j]@,
            decreases self.providers.len() - i,
        {
            r.push(&self.providers[i]);
            i += 1;
        }
        r
    }
}

/// The score of a provider with these response times.
pub fn score(provider: &ServiceProvider, history: &Vec<u64>) -> (r: u128)
    ensures
        r == provider_score(provider@, history@),
{
    proof {
        lemma_score_bound(provider@, history@);
        lemma_total_bound(history@);
    }
    let cost_part: u128 = SCORE_ONE / (provider.cost_per_request as u128 + 1);
    let reliability_part: u128 = provider.reliability_score as u128 * SCORE_PER_PPM;
    let n: u128 = history.len() as u128;
    let performance_part: u128 = if n == 0 {
        SCORE_ONE / 2
    } else {
        let t: u128 = sum(history);
        assert(SCORE_ONE * n <= SCORE_ONE * u64::MAX) by (nonlinear_arith)
            requires
                n <= u64::MAX,
        ;
        assert(t + n <= u64::MAX * u64::MAX + u64::MAX) by (nonlinear_arith)
            requires
                t <= n * u64::MAX,
                n <= u64::MAX,
        ;
        SCORE_ONE * n / (t + n)
    };
    3 * cost_part + 4 * reliability_part + 3 * performance_part
}

} // verus!
