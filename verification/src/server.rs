//! The decisions of the proxy server: which load balancer a request goes
//! to, which provider serves it, what goes upstream, and how a failure is
//! answered.
use vstd::prelude::*;
use crate::config::ModelConfig;
use crate::health_check::{
    after_round, distinct_positions, lemma_round_marks_each_provider, reports_all, statuses_of,
    HealthChecker, ProviderStatus,
};
use crate::load_balancer::{
    availability_after, availability_after_spec, availability_of, forward_error_text, forward_result,
    forward_result_spec, round_robin_next, round_robin_pick, ForwardError, LoadBalancer,
};
use crate::config::ProviderConfig;
use crate::providers::{create_provider, fresh_provider, marked, provider_available, ChatResponse, Provider, ProviderPool};
use crate::text::{join_str, join3_str, str_eq};

verus! {

// ---------------------------------------------------------------------------
// Errors answered to clients.
// ---------------------------------------------------------------------------

/// A request the server could not serve.
#[derive(Debug, Clone)]
pub enum AppError {
    /// No load balancer serves the model asked for.
    ModelNotFound(String),
    /// The model has providers, but none is available.
    NoAvailableProvider,
    /// The upstream call failed, with its message.
    UpstreamError(String),
}

/// The HTTP status an error is answered with.
pub open spec fn app_error_status(e: AppError) -> u16 {
    match e {
        AppError::ModelNotFound(_) => 404,
        AppError::NoAvailableProvider => 503,
        AppError::UpstreamError(_) => 502,
    }
}

/// The body text an error is answered with.
pub open spec fn app_error_body(e: AppError) -> Seq<char> {
    match e {
        AppError::ModelNotFound(name) => "Model not found: "@ + name@,
        AppError::NoAvailableProvider => "No available provider"@,
        AppError::UpstreamError(msg) => "Upstream error: "@ + msg@,
    }
}

impl AppError {
    /// The HTTP status: 404 for an unknown model, 503 when no provider is
    /// available, 502 for an upstream failure.
    pub fn status_code(&self) -> (r: u16)
        ensures
            r == app_error_status(*self),
    {
        match self {
            AppError::ModelNotFound(_) => 404,
            AppError::NoAvailableProvider => 503,
            AppError::UpstreamError(_) => 502,
        }
    }

    /// The body text of the answer.
    pub fn body(&self) -> (r: String)
        ensures
            r@ == app_error_body(*self),
    {
        match self {
            AppError::ModelNotFound(name) => join_str("Model not found: ", name.as_str()),
            AppError::NoAvailableProvider => String::from_str("No available provider"),
            AppError::UpstreamError(msg) => join_str("Upstream error: ", msg.as_str()),
        }
    }

    /// A forwarding failure, answered as an upstream error carrying its text.
    pub fn from_forward_error(e: &ForwardError) -> (r: AppError)
        ensures
            r matches AppError::UpstreamError(m) && m@ == forward_error_text(*e),
    {
        AppError::UpstreamError(e.message())
    }

    /// How a failed selection is answered on the path that forwards through
    /// the load balancer: there, a model without an available provider is an
    /// upstream error carrying `No available providers`.
    pub fn on_forward_path(self) -> (r: AppError)
        ensures
            self is NoAvailableProvider ==> (r matches AppError::UpstreamError(m) && m@ == "No available providers"@),
            !(self is NoAvailableProvider) ==> r == self,
    {
        match self {
            AppError::NoAvailableProvider => AppError::from_forward_error(&ForwardError::NoAvailableProviders),
            other => other,
        }
    }

    /// The request method cannot be sent upstream.
    pub fn invalid_method() -> (r: AppError)
        ensures
            r matches AppError::UpstreamError(m) && m@ == "Invalid method"@,
    {
        AppError::UpstreamError(String::from_str("Invalid method"))
    }
}

// ---------------------------------------------------------------------------
// What goes upstream.
// ---------------------------------------------------------------------------

/// Whether a client request header is passed on upstream: all but `host`
/// and `authorization`, which the proxy sets itself.
pub fn forwards_header(name: &str) -> (r: bool)
    ensures
        r == !(name@ == "host"@ || name@ == "authorization"@),
{
    !(str_eq(name, "host") || str_eq(name, "authorization"))
}

/// The upstream URL of a proxied request: the provider's API base, `/`, and
/// the rest of the path the client asked for.
pub fn proxy_url(provider: &Provider, tail: &str) -> (r: String)
    ensures
        r@ == provider.config.api_base@ + "/"@ + tail@,
{
    join3_str(provider.config.api_base.as_str(), "/", tail)
}

// ---------------------------------------------------------------------------
// The load balancers of all models.
// ---------------------------------------------------------------------------

/// The position of `name` among `names`, if it occurs.
pub open spec fn index_of(names: Seq<Seq<char>>, name: Seq<char>) -> Option<int> {
    if exists|i: int| 0 <= i < names.len() && names[i] == name {
        Some(choose|i: int| 0 <= i < names.len() && names[i] == name)
    } else {
        None
    }
}

/// `after` is `before` with `lb` as the load balancer of the model `name`:
/// in place of the one it had, or added last.
pub open spec fn inserted(before: ModelTable, after: ModelTable, name: Seq<char>, lb: LoadBalancer) -> bool {
    match index_of(before.names_view(), name) {
        Some(k) => {
            &&& after.names_view() == before.names_view()
            &&& after.balancers_view() == before.balancers_view().update(k, lb)
        },
        None => {
            &&& after.names_view() == before.names_view().push(name)
            &&& after.balancers_view() == before.balancers_view().push(lb)
        },
    }
}

/// A lookup gives back what an insertion wrote: after `lb` is inserted
/// under `name`, the model `name` is found and its load balancer is `lb`,
/// and every other model keeps the load balancer it had.
pub proof fn lemma_insert_then_lookup(before: ModelTable, after: ModelTable, name: Seq<char>, lb: LoadBalancer, other: Seq<char>)
    requires
        before.distinct_view(),
        after.distinct_view(),
        before.balancers_view().len() == before.names_view().len(),
        inserted(before, after, name, lb),
    ensures
        index_of(after.names_view(), name) matches Some(k) && after.balancers_view()[k] == lb,
        other != name ==> match index_of(before.names_view(), other) {
            Some(j) => index_of(after.names_view(), other) == Some(j)
                && after.balancers_view()[j] == before.balancers_view()[j],
            None => index_of(after.names_view(), other) is None,
        },
{
    lemma_index_of_distinct(before.names_view(), name);
    lemma_index_of_distinct(after.names_view(), name);
    lemma_index_of_distinct(before.names_view(), other);
    lemma_index_of_distinct(after.names_view(), other);
    let pos = match index_of(before.names_view(), name) {
        Some(k) => k,
        None => before.names_view().len() as int,
    };
    assert(after.names_view()[pos] == name);
    if other != name {
        match index_of(before.names_view(), other) {
            Some(j) => {
                assert(after.names_view()[j] == other);
            },
            None => {
                match index_of(after.names_view(), other) {
                    Some(j) => {
                        assert(j != pos);
                        assert(before.names_view()[j] == other);
                    },
                    None => {},
                }
            },
        }
    }
}

/// In a sequence of distinct names, `index_of` is the one position that holds the name.
proof fn lemma_index_of_distinct(names: Seq<Seq<char>>, name: Seq<char>)
    requires
        forall|i: int, j: int| 0 <= i < j < names.len() ==> #[trigger] names[i] != #[trigger] names[j],
    ensures
        forall|i: int| 0 <= i < names.len() && names[i] == name ==> index_of(names, name) == Some(i),
        index_of(names, name) is None ==> forall|i: int| 0 <= i < names.len() ==> names[i] != name,
        index_of(names, name) matches Some(k) ==> 0 <= k < names.len() && names[k] == name,
{
    assert forall|i: int| 0 <= i < names.len() && names[i] == name implies index_of(names, name) == Some(i) by {
        let c = choose|c: int| 0 <= c < names.len() && names[c] == name;
        if c < i {
            assert(names[c] != names[i]);
        } else if c > i {
            assert(names[i] != names[c]);
        }
    }
}

/// `after` and `r` are what serving a request for `model` makes of
/// `before` over the providers `pool`: an unknown model is answered
/// `ModelNotFound` and nothing changes; otherwise the model's load balancer
/// picks round-robin by the providers' availability, its cursor moves, and
/// a model without an available provider is answered `NoAvailableProvider`.
pub open spec fn selected(before: ModelTable, after: ModelTable, pool: Seq<Provider>, model: Seq<char>, r: Result<usize, AppError>) -> bool {
    &&& after.names_view() == before.names_view()
    &&& after.balancers_view().len() == before.balancers_view().len()
    &&& match index_of(before.names_view(), model) {
        None => {
            &&& after.balancers_view() == before.balancers_view()
            &&& r matches Err(AppError::ModelNotFound(m)) && m@ == model
        },
        Some(k) => {
            let lb_before = before.balancers_view()[k];
            let lb_after = after.balancers_view()[k];
            &&& forall|j: int| 0 <= j < before.balancers_view().len() && j != k
                ==> #[trigger] after.balancers_view()[j] == before.balancers_view()[j]
            &&& lb_after.providers_view() == lb_before.providers_view()
            &&& lb_after.cursor() == round_robin_next(availability_of(pool, lb_before.providers_view()), lb_before.cursor())
            &&& r == match round_robin_pick(availability_of(pool, lb_before.providers_view()), lb_before.cursor()) {
                Some(i) => Ok(lb_before.providers_view()[i]),
                None => Err(AppError::NoAvailableProvider),
            }
            &&& r matches Ok(id) ==> lb_before.providers_view().contains(id) && provider_available(pool, id as int)
            &&& (exists|i: int| 0 <= i < lb_before.providers_view().len()
                && #[trigger] provider_available(pool, lb_before.providers_view()[i] as int)) ==> r is Ok
            &&& lb_before.cursor_in_bounds()
            &&& lb_after.cursor_in_bounds()
        },
    }
}

/// The load balancer of each model, keyed by the model's name.
pub struct ModelTable {
    entries: Vec<(String, LoadBalancer)>,
}

impl ModelTable {
    /// No model name occurs twice.
    #[verifier::type_invariant]
    spec fn names_distinct(self) -> bool {
        forall|i: int, j: int|
            0 <= i < j < self.entries@.len() ==> #[trigger] self.entries@[i].0@ != #[trigger] self.entries@[j].0@
    }

    /// The model names, in the order they were added.
    pub closed spec fn names_view(&self) -> Seq<Seq<char>> {
        self.entries@.map_values(|e: (String, LoadBalancer)| e.0@)
    }

    /// The load balancer of each model, in the same order as the names.
    pub closed spec fn balancers_view(&self) -> Seq<LoadBalancer> {
        self.entries@.map_values(|e: (String, LoadBalancer)| e.1)
    }

    /// No model name occurs twice.
    pub closed spec fn distinct_view(&self) -> bool {
        forall|i: int, j: int|
            0 <= i < j < self.names_view().len() ==> #[trigger] self.names_view()[i] != #[trigger] self.names_view()[j]
    }

    /// The names are distinct, as the type invariant keeps them.
    proof fn lemma_distinct(&self)
        requires
            self.names_distinct(),
        ensures
            self.distinct_view(),
    {
        assert forall|i: int, j: int| 0 <= i < j < self.names_view().len()
            implies #[trigger] self.names_view()[i] != #[trigger] self.names_view()[j] by {
            assert(self.names_view()[i] == self.entries@[i].0@);
            assert(self.names_view()[j] == self.entries@[j].0@);
        }
    }

    /// A table with no model.
    pub fn new() -> (r: ModelTable)
        ensures
            r.distinct_view(),
            r.names_view().len() == 0,
            r.balancers_view().len() == 0,
    {
        let r = ModelTable { entries: Vec::new() };
        proof {
            r.lemma_distinct();
        }
        r
    }

    /// How many models the table serves.
    pub fn model_count(&self) -> (r: usize)
        ensures
            r == self.names_view().len(),
            self.balancers_view().len() == self.names_view().len(),
    {
        self.entries.len()
    }

    /// The position of the model named `model`, if the table serves it.
    pub fn find(&self, model: &str) -> (r: Option<usize>)
        ensures
            r == match index_of(self.names_view(), model@) {
                Some(k) => Some(k as usize),
                None => None::<usize>,
            },
            r matches Some(k) ==> k < self.names_view().len() && self.names_view()[k as int] == model@,
            self.balancers_view().len() == self.names_view().len(),
    {
        proof {
            use_type_invariant(self);
        }
        let n = self.entries.len();
        let mut i: usize = 0;
        while i < n
            invariant
                n == self.entries@.len(),
                i <= n,
                forall|k: int| 0 <= k < i ==> #[trigger] self.names_view()[k] != model@,
            decreases n - i,
        {
            if str_eq(self.entries[i].0.as_str(), model) {
                proof {
                    use_type_invariant(self);
                    assert(self.names_view()[i as int] == model@);
                    let c = choose|c: int| 0 <= c < self.names_view().len() && self.names_view()[c] == model@;
                    assert(0 <= c < self.entries@.len());
                    assert(self.names_view()[c] == self.entries@[c].0@);
                    assert(self.names_view()[i as int] == self.entries@[i as int].0@);
                    if c != i {
                        if c < i {
                            assert(self.entries@[c].0@ != self.entries@[i as int].0@);
                        } else {
                            assert(self.entries@[i as int].0@ != self.entries@[c].0@);
                        }
                    }
                }
                return Some(i);
            }
            i = i + 1;
        }
        None
    }

    /// Adds `lb` as the load balancer of the model `name`, in place of the
    /// one it had, if any.
    pub fn insert(&mut self, name: String, lb: LoadBalancer)
        ensures
            final(self).distinct_view(),
            inserted(*old(self), *final(self), name@, lb),
    {
        proof {
            use_type_invariant(&*self);
        }
        match self.find(name.as_str()) {
            Some(k) => {
                let mut entries: Vec<(String, LoadBalancer)> = Vec::new();
                std::mem::swap(&mut entries, &mut self.entries);
                entries.set(k, (name, lb));
                proof {
                    assert forall|i: int, j: int| 0 <= i < j < entries@.len()
                        implies #[trigger] entries@[i].0@ != #[trigger] entries@[j].0@ by {
                        assert(old(self).names_view()[i] == old(self).entries@[i].0@);
                        assert(old(self).names_view()[j] == old(self).entries@[j].0@);
                    }
                }
                self.entries = entries;
                proof {
                    use_type_invariant(&*self);
                    self.lemma_distinct();
                    assert(self.names_view() =~= old(self).names_view());
                    assert(self.balancers_view() =~= old(self).balancers_view().update(k as int, lb));
                }
            },
            None => {
                let ghost nm = name@;
                let mut entries: Vec<(String, LoadBalancer)> = Vec::new();
                std::mem::swap(&mut entries, &mut self.entries);
                entries.push((name, lb));
                proof {
                    assert forall|i: int, j: int| 0 <= i < j < entries@.len()
                        implies #[trigger] entries@[i].0@ != #[trigger] entries@[j].0@ by {
                        if j == entries@.len() - 1 {
                            assert(old(self).names_view()[i] == old(self).entries@[i].0@);
                        }
                    }
                }
                self.entries = entries;
                proof {
                    use_type_invariant(&*self);
                    self.lemma_distinct();
                    assert(self.names_view() =~= old(self).names_view().push(nm));
                    assert(self.balancers_view() =~= old(self).balancers_view().push(lb));
                }
            },
        }
    }

    /// The name and load balancer of the `k`-th model.
    pub fn entry(&self, k: usize) -> (r: (&String, &LoadBalancer))
        requires
            k < self.names_view().len(),
        ensures
            r.0@ == self.names_view()[k as int],
            *r.1 == self.balancers_view()[k as int],
    {
        let e = &self.entries[k];
        (&e.0, &e.1)
    }

    /// The provider that serves a request for `model`: an unknown model is
    /// answered `ModelNotFound`, a model without an available provider
    /// `NoAvailableProvider`; otherwise the model's load balancer picks the
    /// next available provider round-robin, by the availability of each
    /// provider in `pool`.
    pub fn select_provider(&mut self, pool: &ProviderPool, model: &str) -> (r: Result<usize, AppError>)
        ensures
            final(self).distinct_view(),
            selected(*old(self), *final(self), pool@, model@, r),
    {
        proof {
            use_type_invariant(&*self);
        }
        proof {
            self.lemma_distinct();
        }
        match self.find(model) {
            None => Err(AppError::ModelNotFound(String::from_str(model))),
            Some(k) => {
                let ghost old_entries = self.entries@;
                let mut entries: Vec<(String, LoadBalancer)> = Vec::new();
                std::mem::swap(&mut entries, &mut self.entries);
                let picked = entries[k].1.get_available_provider(pool);
                proof {
                    assert forall|i: int, j: int| 0 <= i < j < entries@.len()
                        implies #[trigger] entries@[i].0@ != #[trigger] entries@[j].0@ by {
                        assert(entries@[i].0 == old_entries[i].0);
                        assert(entries@[j].0 == old_entries[j].0);
                    }
                }
                self.entries = entries;
                proof {
                    use_type_invariant(&*self);
                    self.lemma_distinct();
                    assert(self.names_view() =~= old(self).names_view());
                    assert forall|j: int| 0 <= j < old(self).balancers_view().len() && j != k
                        implies #[trigger] self.balancers_view()[j] == old(self).balancers_view()[j] by {
                        assert(self.entries@[j] == old_entries[j]);
                    }
                }
                match picked {
                    Some(p) => Ok(p),
                    None => Err(AppError::NoAvailableProvider),
                }
            },
        }
    }
}

// ---------------------------------------------------------------------------
// Building the pool from the configuration.
// ---------------------------------------------------------------------------

/// How many providers the models of a configuration name in all.
pub open spec fn total_provider_count(models: Seq<(String, ModelConfig)>) -> nat
    decreases models.len(),
{
    if models.len() == 0 {
        0
    } else {
        total_provider_count(models.drop_last()) + models.last().1.providers@.len()
    }
}

/// The providers built for `models`: one fresh provider per configured
/// entry, model after model, each model's providers in order.
pub open spec fn fresh_pool(models: Seq<(String, ModelConfig)>) -> Seq<Provider>
    decreases models.len(),
{
    if models.len() == 0 {
        Seq::empty()
    } else {
        fresh_pool(models.drop_last()) + models.last().1.providers@.map_values(|c: ProviderConfig| fresh_provider(c))
    }
}

/// Where the providers of the `i`-th model start in the pool.
pub open spec fn provider_offset(models: Seq<(String, ModelConfig)>, i: int) -> nat {
    total_provider_count(models.subrange(0, i))
}

/// The pool positions of the `i`-th model's providers, in order.
pub open spec fn model_positions(models: Seq<(String, ModelConfig)>, i: int) -> Seq<usize> {
    Seq::new(models[i].1.providers@.len(), |j: int| (provider_offset(models, i) + j) as usize)
}

/// The providers built for different entries occupy disjoint position
/// ranges: the range of entry `i` ends before that of any later entry
/// starts, so no provider is shared between two models.
pub proof fn lemma_model_positions_disjoint(models: Seq<(String, ModelConfig)>, i: int, i2: int)
    requires
        0 <= i < i2 < models.len(),
    ensures
        provider_offset(models, i) + models[i].1.providers@.len() <= provider_offset(models, i2),
{
    lemma_offset_step(models, i);
    lemma_offset_monotone(models, i + 1, i2);
}

/// The offset of entry `i + 1` is the offset of entry `i` plus its provider count.
proof fn lemma_offset_step(models: Seq<(String, ModelConfig)>, i: int)
    requires
        0 <= i < models.len(),
    ensures
        provider_offset(models, i + 1) == provider_offset(models, i) + models[i].1.providers@.len(),
{
    assert(models.subrange(0, i + 1).drop_last() =~= models.subrange(0, i));
}

/// Offsets grow with the entry index.
proof fn lemma_offset_monotone(models: Seq<(String, ModelConfig)>, i: int, i2: int)
    requires
        0 <= i <= i2 <= models.len(),
    ensures
        provider_offset(models, i) <= provider_offset(models, i2),
    decreases i2 - i,
{
    if i < i2 {
        lemma_offset_step(models, i2 - 1);
        lemma_offset_monotone(models, i, i2 - 1);
    }
}

/// The `k`-th model of `table` is served by a fresh load balancer over the
/// providers built for entry `i` of `models`, the last entry (among the
/// first `upto`) with that name.
pub open spec fn served_by(table: ModelTable, models: Seq<(String, ModelConfig)>, upto: int, k: int, i: int) -> bool {
    &&& 0 <= i < upto
    &&& models[i].0@ == table.names_view()[k]
    &&& table.balancers_view()[k].providers_view() == model_positions(models, i)
    &&& table.balancers_view()[k].cursor() == 0
    &&& forall|i2: int| i < i2 < upto ==> models[i2].0@ != table.names_view()[k]
}

/// The table serves exactly the models named among the first `upto`
/// entries of `models`, each by the load balancer of its last entry.
pub open spec fn serves_last_entries(table: ModelTable, models: Seq<(String, ModelConfig)>, upto: int) -> bool {
    &&& table.balancers_view().len() == table.names_view().len()
    &&& forall|i: int| 0 <= i < upto ==> table.names_view().contains(#[trigger] models[i].0@)
    &&& forall|k: int| 0 <= k < table.names_view().len() ==> #[trigger] is_served(table, models, upto, k)
}

/// The `k`-th model of `table` is served by the load balancer of some entry
/// of `models` (see `served_by`).
pub open spec fn is_served(table: ModelTable, models: Seq<(String, ModelConfig)>, upto: int, k: int) -> bool {
    exists|i: int| #[trigger] served_by(table, models, upto, k, i)
}

/// Every load balancer of `table` refers only to positions below `len`.
pub open spec fn positions_within(table: ModelTable, len: nat) -> bool {
    forall|k: int, j: int|
        0 <= k < table.balancers_view().len() && 0 <= j < table.balancers_view()[k].providers_view().len()
            ==> #[trigger] table.balancers_view()[k].providers_view()[j] < len
}

proof fn lemma_fresh_pool_len(models: Seq<(String, ModelConfig)>)
    ensures
        fresh_pool(models).len() == total_provider_count(models),
    decreases models.len(),
{
    if models.len() > 0 {
        lemma_fresh_pool_len(models.drop_last());
    }
}

/// The providers of every configured model, one fresh provider per entry
/// in order; the load balancer of every model over its own providers; and
/// the positions of all providers. When a model name occurs twice, the
/// later entry's load balancer serves it (its earlier providers are still
/// built and checked).
pub fn build_pool(models: &Vec<(String, ModelConfig)>) -> (r: (ProviderPool, ModelTable, Vec<usize>))
    ensures
        r.0@ == fresh_pool(models@),
        r.0@.len() == total_provider_count(models@),
        r.2@ == Seq::new(total_provider_count(models@), |k: int| k as usize),
        serves_last_entries(r.1, models@, models@.len() as int),
        r.1.distinct_view(),
        positions_within(r.1, r.0@.len()),
{
    let mut pool = ProviderPool::new();
    let mut table = ModelTable::new();
    let mut all: Vec<usize> = Vec::new();
    let n = models.len();
    let mut i: usize = 0;
    proof {
        assert(models@.subrange(0, 0) =~= Seq::<(String, ModelConfig)>::empty());
        assert(fresh_pool(models@.subrange(0, 0)) =~= pool@);
    }
    while i < n
        invariant
            n == models@.len(),
            i <= n,
            pool@ == fresh_pool(models@.subrange(0, i as int)),
            pool@.len() == total_provider_count(models@.subrange(0, i as int)),
            all@ == Seq::new(pool@.len(), |k: int| k as usize),
            serves_last_entries(table, models@, i as int),
            table.distinct_view(),
            positions_within(table, pool@.len()),
        decreases n - i,
    {
        let name = &models[i].0;
        let configs = &models[i].1.providers;
        let m = configs.len();
        let mut ids: Vec<usize> = Vec::new();
        let ghost pool_before = pool@;
        let ghost base = pool@.len();
        let mut j: usize = 0;
        while j < m
            invariant
                m == configs@.len(),
                j <= m,
                pool@ == pool_before + configs@.subrange(0, j as int).map_values(|c: ProviderConfig| fresh_provider(c)),
                pool@.len() == base + j,
                ids@ == Seq::new(j as nat, |t: int| (base + t) as usize),
                all@ == Seq::new(pool@.len(), |k: int| k as usize),
            decreases m - j,
        {
            let id = create_provider(&mut pool, configs[j].clone());
            ids.push(id);
            all.push(id);
            proof {
                assert(configs@.subrange(0, j + 1).map_values(|c: ProviderConfig| fresh_provider(c))
                    =~= configs@.subrange(0, j as int).map_values(|c: ProviderConfig| fresh_provider(c)).push(fresh_provider(configs@[j as int])));
                assert(pool@ =~= pool_before + configs@.subrange(0, j + 1).map_values(|c: ProviderConfig| fresh_provider(c)));
                assert(ids@ =~= Seq::new((j + 1) as nat, |t: int| (base + t) as usize));
                assert(all@ =~= Seq::new(pool@.len(), |k: int| k as usize));
            }
            j = j + 1;
        }
        proof {
            let sub = models@.subrange(0, i as int);
            let sub1 = models@.subrange(0, i + 1);
            assert(sub1.drop_last() =~= sub);
            assert(sub1.last() == models@[i as int]);
            assert(configs@.subrange(0, m as int) =~= configs@);
            assert(pool@ =~= fresh_pool(sub1));
            lemma_fresh_pool_len(sub1);
            assert(ids@ =~= model_positions(models@, i as int));
        }
        let ghost table_before = table;
        let ghost nm = name@;
        let lb = LoadBalancer::new(ids);
        let ghost lb_spec = lb;
        table.insert(name.clone(), lb);
        proof {
            lemma_table_after_insert(table_before, table, models@, i as int, nm, lb_spec, base, pool@.len());
        }
        i = i + 1;
    }
    proof {
        assert(models@.subrange(0, n as int) =~= models@);
    }
    (pool, table, all)
}

/// Inserting the load balancer of entry `i` keeps the table serving the last
/// entry of every name among the first `i + 1`.
proof fn lemma_table_after_insert(
    before: ModelTable,
    after: ModelTable,
    models: Seq<(String, ModelConfig)>,
    i: int,
    nm: Seq<char>,
    lb: LoadBalancer,
    base: nat,
    len: nat,
)
    requires
        0 <= i < models.len(),
        nm == models[i].0@,
        lb.providers_view() == model_positions(models, i),
        lb.cursor() == 0,
        serves_last_entries(before, models, i),
        before.distinct_view(),
        after.distinct_view(),
        inserted(before, after, nm, lb),
        positions_within(before, base),
        base <= len,
        forall|j: int| 0 <= j < lb.providers_view().len() ==> #[trigger] lb.providers_view()[j] < len,
    ensures
        serves_last_entries(after, models, i + 1),
        positions_within(after, len),
{
    lemma_index_of_distinct(before.names_view(), nm);
    let pos = match index_of(before.names_view(), nm) {
        Some(k0) => k0,
        None => before.names_view().len() as int,
    };
    assert(after.names_view()[pos] == nm);
    assert(after.balancers_view()[pos] == lb);
    assert forall|t: int| 0 <= t < i + 1 implies after.names_view().contains(#[trigger] models[t].0@) by {
        if t < i {
            assert(before.names_view().contains(models[t].0@));
            let w = choose|w: int| 0 <= w < before.names_view().len() && before.names_view()[w] == models[t].0@;
            assert(after.names_view()[w] == models[t].0@);
        } else {
            assert(after.names_view()[pos] == models[t].0@);
        }
    }
    assert forall|k: int| 0 <= k < after.names_view().len() implies #[trigger] is_served(after, models, i + 1, k) by {
        if k == pos {
            assert(served_by(after, models, i + 1, k, i));
        } else {
            assert(k < before.names_view().len());
            assert(is_served(before, models, i, k));
            assert(after.names_view()[k] == before.names_view()[k]);
            assert(after.balancers_view()[k] == before.balancers_view()[k]);
            let t = choose|t: int| #[trigger] served_by(before, models, i, k, t);
            assert(before.names_view()[k] != nm) by {
                if index_of(before.names_view(), nm) is None {
                } else {
                    assert(before.names_view()[pos] == nm);
                    if k < pos {
                        assert(before.names_view()[k] != before.names_view()[pos]);
                    } else {
                        assert(before.names_view()[pos] != before.names_view()[k]);
                    }
                }
            }
            assert(served_by(after, models, i + 1, k, t));
        }
    }
    assert forall|k: int, j: int|
        0 <= k < after.balancers_view().len() && 0 <= j < after.balancers_view()[k].providers_view().len()
        implies #[trigger] after.balancers_view()[k].providers_view()[j] < len by {
        if k != pos {
            assert(after.balancers_view()[k] == before.balancers_view()[k]);
        }
    }
}

} // verus!

verus! {

/// Seconds between two rounds of health checks.
pub const HEALTH_CHECK_INTERVAL_SECS: u64 = 30;

/// What the server runs on: every provider once, the load balancer of
/// every model over positions of the pool, and the health checker of every
/// provider.
pub struct ServerState {
    pool: ProviderPool,
    models: ModelTable,
    health_checker: HealthChecker,
}

/// One model's entry of the model listing: its name, and the status of each
/// of its providers in order.
pub open spec fn lists_models(listing: Seq<(String, Vec<ProviderStatus>)>, table: ModelTable, pool: Seq<Provider>) -> bool {
    &&& listing.len() == table.names_view().len()
    &&& forall|k: int| 0 <= k < listing.len() ==> {
        &&& #[trigger] listing[k].0@ == table.names_view()[k]
        &&& reports_all(listing[k].1@, pool, table.balancers_view()[k].providers_view())
    }
}

impl ServerState {
    /// Every position a load balancer or the health checker refers to holds a provider.
    #[verifier::type_invariant]
    spec fn consistent(self) -> bool {
        &&& positions_within(self.models, self.pool@.len())
        &&& self.health_checker.watches_within(self.pool@)
        &&& distinct_positions(self.health_checker.providers_view())
        &&& self.models.balancers_view().len() == self.models.names_view().len()
    }

    /// The providers.
    pub closed spec fn pool_view(&self) -> Seq<Provider> {
        self.pool@
    }

    /// The load balancers of the models.
    pub closed spec fn table_view(&self) -> ModelTable {
        self.models
    }

    /// The health checker.
    pub closed spec fn checker_view(&self) -> HealthChecker {
        self.health_checker
    }

    /// How many providers there are.
    pub fn provider_count(&self) -> (r: usize)
        ensures
            r == self.pool_view().len(),
    {
        self.pool.len()
    }

    /// The provider at position `id`.
    pub fn provider(&self, id: usize) -> (r: &Provider)
        requires
            id < self.pool_view().len(),
        ensures
            *r == self.pool_view()[id as int],
    {
        self.pool.provider(id)
    }

    /// The provider that serves a request for `model`, as
    /// `ModelTable::select_provider` decides it over the current providers.
    pub fn select_provider(&mut self, model: &str) -> (r: Result<usize, AppError>)
        ensures
            final(self).pool_view() == old(self).pool_view(),
            final(self).checker_view() == old(self).checker_view(),
            selected(old(self).table_view(), final(self).table_view(), old(self).pool_view(), model@, r),
            r matches Ok(id) ==> id < old(self).pool_view().len(),
    {
        proof {
            use_type_invariant(&*self);
        }
        let mut models = ModelTable::new();
        std::mem::swap(&mut models, &mut self.models);
        let ghost before = models;
        let r = models.select_provider(&self.pool, model);
        proof {
            assert forall|k: int, j: int|
                0 <= k < models.balancers_view().len() && 0 <= j < models.balancers_view()[k].providers_view().len()
                implies #[trigger] models.balancers_view()[k].providers_view()[j] < self.pool@.len() by {
                assert(models.balancers_view()[k].providers_view() == before.balancers_view()[k].providers_view());
            }
            match r {
                Ok(id) => {
                    let k = index_of(before.names_view(), model@)->0;
                    assert(provider_available(self.pool@, id as int));
                },
                Err(_) => {},
            }
        }
        self.models = models;
        r
    }

    /// Records the outcome of a chat call to the provider at position `id`
    /// and returns what the client gets (see `LoadBalancer::settle_chat_result`).
    pub fn settle_chat_result(&mut self, id: usize, result: Result<ChatResponse, String>) -> (r: Result<ChatResponse, ForwardError>)
        ensures
            r == forward_result_spec(result),
            result matches Ok(resp) ==> r == Ok::<ChatResponse, ForwardError>(resp)
                && final(self).pool_view() == marked(old(self).pool_view(), id as int, true),
            final(self).pool_view() == match availability_after_spec(result) {
                Some(mark) => marked(old(self).pool_view(), id as int, mark),
                None => old(self).pool_view(),
            },
            final(self).table_view() == old(self).table_view(),
            final(self).checker_view() == old(self).checker_view(),
    {
        proof {
            use_type_invariant(&*self);
        }
        match availability_after(&result) {
            Some(mark) => self.pool.set_available(id, mark),
            None => {},
        }
        forward_result(result)
    }

    /// How many providers one round of health checks probes.
    pub fn health_check_count(&self) -> (r: usize)
        ensures
            r == self.checker_view().providers_view().len(),
    {
        self.health_checker.provider_count()
    }

    /// Seconds between two rounds of health checks.
    pub fn check_interval_secs(&self) -> (r: u64)
        ensures
            r == self.checker_view().interval_view(),
    {
        self.health_checker.check_interval_secs()
    }

    /// The probe of the `index`-th provider checked: its models URL and its API key.
    pub fn health_check_target(&self, index: usize) -> (r: (String, String))
        requires
            index < self.checker_view().providers_view().len(),
        ensures
            r.0@ == self.pool_view()[self.checker_view().providers_view()[index as int] as int].config.api_base@ + "/models"@,
            r.1@ == self.pool_view()[self.checker_view().providers_view()[index as int] as int].config.api_key@,
    {
        proof {
            use_type_invariant(self);
        }
        self.health_checker.health_check_target(&self.pool, index)
    }

    /// Records the result of the probe of the `index`-th provider checked.
    pub fn record_health(&mut self, index: usize, healthy: bool)
        requires
            index < old(self).checker_view().providers_view().len(),
        ensures
            final(self).pool_view() == marked(old(self).pool_view(), old(self).checker_view().providers_view()[index as int] as int, healthy),
            final(self).table_view() == old(self).table_view(),
            final(self).checker_view() == old(self).checker_view(),
    {
        proof {
            use_type_invariant(&*self);
        }
        self.health_checker.record_health(&mut self.pool, index, healthy);
    }

    /// Records the results of one round of probes: `results[i]` is whether
    /// the `i`-th provider checked answered. Afterwards each probed provider
    /// may serve requests exactly when its probe succeeded and it is enabled,
    /// whatever marked it before; every other provider is unchanged.
    pub fn record_round(&mut self, results: &Vec<bool>)
        requires
            results@.len() == old(self).checker_view().providers_view().len(),
        ensures
            final(self).pool_view() == after_round(old(self).pool_view(), old(self).checker_view().providers_view(), results@),
            final(self).pool_view().len() == old(self).pool_view().len(),
            forall|i: int| #![trigger old(self).checker_view().providers_view()[i]] 0 <= i < results@.len() ==> {
                let id = old(self).checker_view().providers_view()[i] as int;
                &&& final(self).pool_view()[id].available == results@[i]
                &&& final(self).pool_view()[id].config == old(self).pool_view()[id].config
                &&& provider_available(final(self).pool_view(), id) == (results@[i] && old(self).pool_view()[id].config.enabled)
            },
            forall|j: int| 0 <= j < old(self).pool_view().len() && !old(self).checker_view().providers_view().contains(j as usize)
                ==> #[trigger] final(self).pool_view()[j] == old(self).pool_view()[j],
            final(self).table_view() == old(self).table_view(),
            final(self).checker_view() == old(self).checker_view(),
    {
        proof {
            use_type_invariant(&*self);
            lemma_round_marks_each_provider(self.pool@, self.health_checker.providers_view(), results@);
        }
        self.health_checker.record_round(&mut self.pool, results);
    }

    /// The status of every provider checked, in order.
    pub fn get_status(&self) -> (r: Vec<ProviderStatus>)
        ensures
            reports_all(r@, self.pool_view(), self.checker_view().providers_view()),
    {
        proof {
            use_type_invariant(self);
        }
        self.health_checker.get_status(&self.pool)
    }

    /// The model listing: for each model in order, its name and the status
    /// of each of its providers in order.
    pub fn list_models(&self) -> (r: Vec<(String, Vec<ProviderStatus>)>)
        ensures
            lists_models(r@, self.table_view(), self.pool_view()),
    {
        proof {
            use_type_invariant(self);
        }
        let n = self.models.model_count();
        let mut listing: Vec<(String, Vec<ProviderStatus>)> = Vec::new();
        let mut k: usize = 0;
        while k < n
            invariant
                n == self.models.names_view().len(),
                k <= n,
                positions_within(self.models, self.pool@.len()),
                self.models.balancers_view().len() == self.models.names_view().len(),
                listing@.len() == k,
                forall|t: int| 0 <= t < k ==> {
                    &&& #[trigger] listing@[t].0@ == self.models.names_view()[t]
                    &&& reports_all(listing@[t].1@, self.pool@, self.models.balancers_view()[t].providers_view())
                },
            decreases n - k,
        {
            let (name, lb) = self.models.entry(k);
            let ids = lb.provider_ids();
            assert forall|j: int| 0 <= j < ids@.len() implies #[trigger] ids@[j] < self.pool@.len() by {
                assert(self.models.balancers_view()[k as int].providers_view()[j] < self.pool@.len());
            }
            let statuses = statuses_of(&self.pool, ids);
            listing.push((name.clone(), statuses));
            k = k + 1;
        }
        listing
    }
}

/// The state the server runs on: the providers of every configured model,
/// built fresh in order; the load balancer of every model over its own
/// providers (the last entry of a repeated name); and a health checker of
/// every provider that probes every thirty seconds.
pub fn build_state(models: &Vec<(String, ModelConfig)>) -> (r: ServerState)
    ensures
        r.pool_view() == fresh_pool(models@),
        r.pool_view().len() == total_provider_count(models@),
        serves_last_entries(r.table_view(), models@, models@.len() as int),
        r.table_view().distinct_view(),
        r.checker_view().providers_view() == Seq::new(total_provider_count(models@), |k: int| k as usize),
        r.checker_view().interval_view() == HEALTH_CHECK_INTERVAL_SECS,
{
    let (pool, models_table, all) = build_pool(models);
    let provider_total = pool.len();
    proof {
        assert forall|i: int, j: int| 0 <= i < j < all@.len() implies #[trigger] all@[i] != #[trigger] all@[j] by {
            assert(j < provider_total);
            assert(all@[i] == i as usize && all@[j] == j as usize);
        }
    }
    let health_checker = HealthChecker::new(all, HEALTH_CHECK_INTERVAL_SECS);
    ServerState { pool, models: models_table, health_checker }
}

} // verus!
