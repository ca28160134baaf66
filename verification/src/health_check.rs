//! The health checker: the providers it probes, the probe each one gets,
//! the recording of each result, and the status report.
use std::sync::Arc;
use vstd::prelude::*;
use crate::providers::{marked, provider_available, Provider, ProviderPool};

verus! {

/// How a provider stands, as reported to clients.
#[derive(Debug, Clone)]
pub struct ProviderStatus {
    pub name: String,
    pub available: bool,
    pub api_base: String,
}

/// The status reports `status` for `provider`.
pub open spec fn reports(status: ProviderStatus, provider: Provider) -> bool {
    &&& status.name@ == provider.config.name@
    &&& status.available == (provider.available && provider.config.enabled)
    &&& status.api_base@ == provider.config.api_base@
}

impl ProviderStatus {
    /// The status of `provider`.
    pub fn of_provider(provider: &Provider) -> (r: ProviderStatus)
        ensures
            reports(r, *provider),
    {
        ProviderStatus {
            name: provider.config.name.clone(),
            available: provider.is_available(),
            api_base: provider.config.api_base.clone(),
        }
    }
}

/// The statuses of the providers at positions `ids`, in order.
pub open spec fn reports_all(statuses: Seq<ProviderStatus>, pool: Seq<Provider>, ids: Seq<usize>) -> bool {
    &&& statuses.len() == ids.len()
    &&& forall|i: int| 0 <= i < ids.len() ==> reports(#[trigger] statuses[i], pool[ids[i] as int])
}

/// The providers after the results of one round of probes are recorded in
/// order: the provider at `ids[i]` is marked `results[i]`.
pub open spec fn after_round(pool: Seq<Provider>, ids: Seq<usize>, results: Seq<bool>) -> Seq<Provider>
    decreases ids.len(),
{
    if ids.len() == 0 || results.len() == 0 {
        pool
    } else {
        marked(after_round(pool, ids.drop_last(), results.drop_last()), ids.last() as int, results.last())
    }
}

/// No position occurs twice.
pub open spec fn distinct_positions(ids: Seq<usize>) -> bool {
    forall|i: int, j: int| 0 <= i < j < ids.len() ==> #[trigger] ids[i] != #[trigger] ids[j]
}

/// After a round of probes over distinct providers, each probed provider is
/// marked by its own probe's result and keeps its configuration, so it may
/// serve requests exactly when its probe succeeded and it is enabled
/// (whatever marked it before, such as a quota error); every provider not
/// probed is unchanged.
pub proof fn lemma_round_marks_each_provider(pool: Seq<Provider>, ids: Seq<usize>, results: Seq<bool>)
    requires
        ids.len() == results.len(),
        distinct_positions(ids),
        forall|i: int| 0 <= i < ids.len() ==> #[trigger] ids[i] < pool.len(),
    ensures
        after_round(pool, ids, results).len() == pool.len(),
        forall|i: int| 0 <= i < ids.len() ==> {
            &&& #[trigger] after_round(pool, ids, results)[ids[i] as int].available == results[i]
            &&& after_round(pool, ids, results)[ids[i] as int].config == pool[ids[i] as int].config
            &&& provider_available(after_round(pool, ids, results), ids[i] as int)
                == (results[i] && pool[ids[i] as int].config.enabled)
        },
        forall|j: int| 0 <= j < pool.len() && !ids.contains(j as usize)
            ==> #[trigger] after_round(pool, ids, results)[j] == pool[j],
    decreases ids.len(),
{
    if ids.len() > 0 {
        let ids0 = ids.drop_last();
        let res0 = results.drop_last();
        assert forall|i: int| 0 <= i < ids0.len() implies #[trigger] ids0[i] < pool.len() by {
            assert(ids0[i] == ids[i]);
        }
        assert forall|i: int, j: int| 0 <= i < j < ids0.len() implies #[trigger] ids0[i] != #[trigger] ids0[j] by {
            assert(ids0[i] == ids[i] && ids0[j] == ids[j]);
        }
        lemma_round_marks_each_provider(pool, ids0, res0);
        let before = after_round(pool, ids0, res0);
        let last = ids.last() as int;
        assert(ids.last() == ids[ids.len() - 1]);
        assert(!ids0.contains(ids.last())) by {
            if ids0.contains(ids.last()) {
                let w = choose|w: int| 0 <= w < ids0.len() && ids0[w] == ids.last();
                assert(ids[w] == ids[ids.len() - 1]);
            }
        }
        assert(before[last] == pool[last]);
        assert forall|i: int| 0 <= i < ids.len() implies {
            &&& #[trigger] after_round(pool, ids, results)[ids[i] as int].available == results[i]
            &&& after_round(pool, ids, results)[ids[i] as int].config == pool[ids[i] as int].config
            &&& provider_available(after_round(pool, ids, results), ids[i] as int)
                == (results[i] && pool[ids[i] as int].config.enabled)
        } by {
            if i < ids.len() - 1 {
                assert(ids0[i] == ids[i]);
                assert(res0[i] == results[i]);
                assert(ids[i] != ids[ids.len() - 1]);
            }
        }
        assert forall|j: int| 0 <= j < pool.len() && !ids.contains(j as usize)
            implies #[trigger] after_round(pool, ids, results)[j] == pool[j] by {
            if ids0.contains(j as usize) {
                let w = choose|w: int| 0 <= w < ids0.len() && ids0[w] == j as usize;
                assert(ids[w] == j as usize);
            }
            assert(j as usize != ids.last()) by {
                if j as usize == ids.last() {
                    assert(ids[ids.len() - 1] == j as usize);
                }
            }
        }
    }
}

/// The providers whose reachability is probed (by their position in the
/// provider pool), and how often.
pub struct HealthChecker {
    providers: Vec<usize>,
    check_interval_secs: u64,
}

/// A health checker shared between the background task and the handlers.
pub type SharedHealthChecker = Arc<HealthChecker>;

/// The statuses of the providers at positions `ids` of `pool`, in order.
pub fn statuses_of(pool: &ProviderPool, ids: &Vec<usize>) -> (r: Vec<ProviderStatus>)
    requires
        forall|i: int| 0 <= i < ids@.len() ==> #[trigger] ids@[i] < pool@.len(),
    ensures
        reports_all(r@, pool@, ids@),
{
    let total = ids.len();
    let mut statuses: Vec<ProviderStatus> = Vec::new();
    let mut i: usize = 0;
    while i < total
        invariant
            total == ids@.len(),
            i <= total,
            forall|k: int| 0 <= k < ids@.len() ==> #[trigger] ids@[k] < pool@.len(),
            statuses@.len() == i,
            forall|k: int| 0 <= k < i ==> reports(#[trigger] statuses@[k], pool@[ids@[k] as int]),
        decreases total - i,
    {
        let status = ProviderStatus::of_provider(pool.provider(ids[i]));
        statuses.push(status);
        i = i + 1;
    }
    statuses
}

impl HealthChecker {
    /// The pool positions of the providers probed, in order.
    pub closed spec fn providers_view(&self) -> Seq<usize> {
        self.providers@
    }

    /// Seconds between two rounds of probes.
    pub closed spec fn interval_view(&self) -> nat {
        self.check_interval_secs as nat
    }

    /// Every provider probed is in `pool`.
    pub open spec fn watches_within(&self, pool: Seq<Provider>) -> bool {
        forall|i: int| 0 <= i < self.providers_view().len() ==> #[trigger] self.providers_view()[i] < pool.len()
    }

    /// A checker of the providers at positions `providers` that probes every
    /// `check_interval_secs` seconds.
    pub fn new(providers: Vec<usize>, check_interval_secs: u64) -> (r: HealthChecker)
        ensures
            r.providers_view() == providers@,
            r.interval_view() == check_interval_secs,
    {
        HealthChecker { providers, check_interval_secs }
    }

    /// Seconds between two rounds of probes.
    pub fn check_interval_secs(&self) -> (r: u64)
        ensures
            r == self.interval_view(),
    {
        self.check_interval_secs
    }

    /// How many providers are probed in one round.
    pub fn provider_count(&self) -> (r: usize)
        ensures
            r == self.providers_view().len(),
    {
        self.providers.len()
    }

    /// The probe of the `index`-th provider checked: its models URL and its API key.
    pub fn health_check_target(&self, pool: &ProviderPool, index: usize) -> (r: (String, String))
        requires
            index < self.providers_view().len(),
            self.providers_view()[index as int] < pool@.len(),
        ensures
            r.0@ == pool@[self.providers_view()[index as int] as int].config.api_base@ + "/models"@,
            r.1@ == pool@[self.providers_view()[index as int] as int].config.api_key@,
    {
        pool.provider(self.providers[index]).health_check_info()
    }

    /// Records the result of the probe of the `index`-th provider checked: a
    /// provider that answered is marked reachable, one that did not is
    /// marked unreachable; every other provider keeps its mark.
    pub fn record_health(&self, pool: &mut ProviderPool, index: usize, healthy: bool)
        requires
            index < self.providers_view().len(),
        ensures
            final(pool)@ == marked(old(pool)@, self.providers_view()[index as int] as int, healthy),
        no_unwind
    {
        pool.set_available(self.providers[index], healthy);
    }

    /// Records the results of one round of probes: `results[i]` is whether
    /// the `i`-th provider checked answered; each is marked accordingly, in
    /// order, and every provider not checked keeps its mark.
    pub fn record_round(&self, pool: &mut ProviderPool, results: &Vec<bool>)
        requires
            results@.len() == self.providers_view().len(),
        ensures
            final(pool)@ == after_round(old(pool)@, self.providers_view(), results@),
        no_unwind
    {
        let n = self.providers.len();
        let mut i: usize = 0;
        while i < n
            invariant
                n == self.providers@.len(),
                n == results@.len(),
                i <= n,
                pool@ == after_round(old(pool)@, self.providers@.take(i as int), results@.take(i as int)),
            decreases n - i,
        {
            pool.set_available(self.providers[i], results[i]);
            proof {
                assert(self.providers@.take(i + 1).drop_last() =~= self.providers@.take(i as int));
                assert(results@.take(i + 1).drop_last() =~= results@.take(i as int));
            }
            i = i + 1;
        }
        proof {
            assert(self.providers@.take(n as int) =~= self.providers@);
            assert(results@.take(n as int) =~= results@);
        }
    }

    /// The status of every provider checked, in order.
    pub fn get_status(&self, pool: &ProviderPool) -> (r: Vec<ProviderStatus>)
        requires
            self.watches_within(pool@),
        ensures
            reports_all(r@, pool@, self.providers_view()),
    {
        statuses_of(pool, &self.providers)
    }
}

/// A shared checker of the providers at positions `providers` that probes
/// every `interval_secs` seconds.
pub fn create_health_checker(providers: Vec<usize>, interval_secs: u64) -> (r: SharedHealthChecker)
    ensures
        r.providers_view() == providers@,
        r.interval_view() == interval_secs,
{
    Arc::new(HealthChecker::new(providers, interval_secs))
}

} // verus!
