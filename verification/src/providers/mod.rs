//! Upstream providers: their configuration and availability, the requests
//! made to them, and the pool that holds every provider once, so that the
//! load balancers and the health checker refer to the same provider by its
//! position in the pool.
use vstd::prelude::*;
use crate::config::ProviderConfig;
use crate::text::{chars_of, join_str};

verus! {

/// An upstream provider and whether it is currently taken to be reachable.
#[derive(Debug, Clone)]
pub struct Provider {
    pub config: ProviderConfig,
    pub available: bool,
}

/// One message of a chat conversation.
#[derive(Debug, Clone)]
pub struct Message {
    pub role: String,
    pub content: String,
}

/// A chat completion as an upstream returns it.
#[derive(Debug, Clone)]
pub struct ChatResponse {
    pub id: Option<String>,
    pub object: Option<String>,
    pub created: Option<u64>,
    pub model: Option<String>,
    pub choices: Option<Vec<Choice>>,
    pub usage: Option<Usage>,
}

/// One completion choice.
#[derive(Debug, Clone)]
pub struct Choice {
    pub index: Option<u32>,
    pub message: Option<Message>,
    pub finish_reason: Option<String>,
}

/// Token accounting of a completion.
#[derive(Debug, Clone)]
pub struct Usage {
    pub prompt_tokens: Option<u32>,
    pub completion_tokens: Option<u32>,
    pub total_tokens: Option<u32>,
}

/// The error body an upstream answers with.
#[derive(Debug, Clone)]
pub struct ErrorResponse {
    pub error: ErrorDetail,
}

/// The detail of an upstream error; `error_type` is the `type` field of the body.
#[derive(Debug, Clone)]
pub struct ErrorDetail {
    pub message: String,
    pub error_type: Option<String>,
    pub code: Option<String>,
}

/// The part of a model name after its last `/` (the whole name when it has none):
/// `openrouter/deepseek-r1` names `deepseek-r1` upstream.
pub open spec fn last_segment(s: Seq<char>) -> Seq<char>
    decreases s.len(),
{
    if s.len() == 0 {
        s
    } else if s.last() == '/' {
        Seq::empty()
    } else {
        last_segment(s.drop_last()).push(s.last())
    }
}

/// The name sent upstream is the tail of the name asked for and holds no `/`.
pub proof fn lemma_last_segment_is_slash_free_suffix(s: Seq<char>)
    ensures
        last_segment(s).len() <= s.len(),
        last_segment(s) == s.subrange(s.len() - last_segment(s).len(), s.len() as int),
        forall|i: int| 0 <= i < last_segment(s).len() ==> #[trigger] last_segment(s)[i] != '/',
        last_segment(s).len() == s.len() || s[s.len() - last_segment(s).len() - 1] == '/',
    decreases s.len(),
{
    if s.len() > 0 && s.last() != '/' {
        lemma_last_segment_is_slash_free_suffix(s.drop_last());
        let t = last_segment(s.drop_last());
        assert(last_segment(s) == t.push(s.last()));
        assert(t.push(s.last()) =~= s.subrange(s.len() - t.len() - 1, s.len() as int));
        if t.len() < s.len() - 1 {
            assert(s.drop_last()[s.len() - 1 - t.len() - 1] == s[s.len() - t.len() - 2]);
        }
    } else if s.len() > 0 {
        assert(last_segment(s) =~= s.subrange(s.len() as int, s.len() as int));
    }
}

/// A name without `/` is sent upstream unchanged.
pub proof fn lemma_last_segment_of_plain_name(s: Seq<char>)
    requires
        forall|i: int| 0 <= i < s.len() ==> #[trigger] s[i] != '/',
    ensures
        last_segment(s) == s,
    decreases s.len(),
{
    if s.len() > 0 {
        assert forall|i: int| 0 <= i < s.drop_last().len() implies #[trigger] s.drop_last()[i] != '/' by {
            assert(s.drop_last()[i] == s[i]);
        }
        lemma_last_segment_of_plain_name(s.drop_last());
        assert(s.drop_last().push(s.last()) =~= s);
    }
}

/// The model name sent upstream for a model name asked for by a client.
pub fn upstream_model_name(model: &str) -> (r: String)
    ensures
        r@ == last_segment(model@),
        r@.len() <= model@.len(),
        r@ == model@.subrange(model@.len() - r@.len(), model@.len() as int),
        forall|i: int| 0 <= i < r@.len() ==> #[trigger] r@[i] != '/',
        r@.len() == model@.len() || model@[model@.len() - r@.len() - 1] == '/',
{
    proof {
        lemma_last_segment_is_slash_free_suffix(model@);
    }
    let cs = chars_of(model);
    let n = cs.len();
    let mut i: usize = n;
    assert(cs@.subrange(0, n as int) =~= cs@);
    assert(cs@.subrange(n as int, n as int) =~= Seq::<char>::empty());
    while i > 0 && cs[i - 1] != '/'
        invariant
            n == cs@.len(),
            cs@ == model@,
            i <= n,
            last_segment(cs@) == last_segment(cs@.subrange(0, i as int)) + cs@.subrange(i as int, n as int),
        decreases i,
    {
        let ghost prefix = cs@.subrange(0, i as int);
        assert(prefix.drop_last() =~= cs@.subrange(0, i - 1));
        assert(cs@.subrange(i - 1, n as int) =~= seq![cs@[i - 1]] + cs@.subrange(i as int, n as int));
        assert(last_segment(prefix) == last_segment(prefix.drop_last()).push(prefix.last()));
        assert(last_segment(prefix) + cs@.subrange(i as int, n as int)
            =~= last_segment(cs@.subrange(0, i - 1)) + cs@.subrange(i - 1, n as int));
        i = i - 1;
    }
    proof {
        let prefix = cs@.subrange(0, i as int);
        if i == 0 {
            assert(prefix.len() == 0);
        } else {
            assert(prefix.last() == '/');
        }
        assert(last_segment(prefix) =~= Seq::<char>::empty());
        assert(last_segment(cs@) =~= cs@.subrange(i as int, n as int));
    }
    String::from_str(model.substring_char(i, n))
}

impl Provider {
    /// A provider for `config`, marked reachable.
    pub fn new(config: ProviderConfig) -> (r: Provider)
        ensures
            r.config == config,
            r.available,
    {
        Provider { config, available: true }
    }

    /// The name the configuration gives the provider.
    pub fn name(&self) -> (r: &str)
        ensures
            r@ == self.config.name@,
    {
        self.config.name.as_str()
    }

    /// Whether requests may be sent to the provider.
    pub fn is_available(&self) -> (r: bool)
        ensures
            r == (self.available && self.config.enabled),
    {
        self.available && self.config.enabled
    }

    /// Marks the provider reachable or not.
    pub fn set_available(&mut self, available: bool)
        ensures
            final(self).config == old(self).config,
            final(self).available == available,
        no_unwind
    {
        self.available = available;
    }

    /// The endpoint that lists the provider's models, used as its health probe.
    pub fn models_url(&self) -> (r: String)
        ensures
            r@ == self.config.api_base@ + "/models"@,
    {
        join_str(self.config.api_base.as_str(), "/models")
    }

    /// The chat completions endpoint of the provider.
    pub fn chat_url(&self) -> (r: String)
        ensures
            r@ == self.config.api_base@ + "/chat/completions"@,
    {
        join_str(self.config.api_base.as_str(), "/chat/completions")
    }

    /// The `Authorization` header value sent to the provider.
    pub fn authorization(&self) -> (r: String)
        ensures
            r@ == "Bearer "@ + self.config.api_key@,
    {
        join_str("Bearer ", self.config.api_key.as_str())
    }

    /// What a health check needs: the probe URL and the API key.
    pub fn health_check_info(&self) -> (r: (String, String))
        ensures
            r.0@ == self.config.api_base@ + "/models"@,
            r.1@ == self.config.api_key@,
    {
        (self.models_url(), self.config.api_key.clone())
    }
}

impl ErrorResponse {
    /// The error a failed chat call reports: `API error: ` and the upstream message.
    pub fn api_error_message(&self) -> (r: String)
        ensures
            r@ == "API error: "@ + self.error.message@,
    {
        join_str("API error: ", self.error.message.as_str())
    }
}

/// A provider just created from `config`: marked reachable.
pub open spec fn fresh_provider(config: ProviderConfig) -> Provider {
    Provider { config, available: true }
}

/// Whether the provider at position `id` of a pool may serve requests: it
/// exists, is enabled in the configuration, and is marked reachable.
pub open spec fn provider_available(pool: Seq<Provider>, id: int) -> bool {
    0 <= id < pool.len() && pool[id].available && pool[id].config.enabled
}

/// The pool with the provider at position `id` (if there is one) marked
/// reachable or not; nothing else changes.
pub open spec fn marked(pool: Seq<Provider>, id: int, available: bool) -> Seq<Provider> {
    if 0 <= id < pool.len() {
        pool.update(id, Provider { config: pool[id].config, available })
    } else {
        pool
    }
}

/// Every provider, each at a fixed position; load balancers and the health
/// checker refer to providers by position.
pub struct ProviderPool {
    providers: Vec<Provider>,
}

impl View for ProviderPool {
    type V = Seq<Provider>;

    closed spec fn view(&self) -> Seq<Provider> {
        self.providers@
    }
}

impl ProviderPool {
    /// A pool with no provider.
    pub fn new() -> (r: ProviderPool)
        ensures
            r@ == Seq::<Provider>::empty(),
    {
        ProviderPool { providers: Vec::new() }
    }

    /// How many providers the pool holds.
    pub fn len(&self) -> (r: usize)
        ensures
            r == self@.len(),
    {
        self.providers.len()
    }

    /// The provider at position `id`.
    pub fn provider(&self, id: usize) -> (r: &Provider)
        requires
            id < self@.len(),
        ensures
            *r == self@[id as int],
    {
        &self.providers[id]
    }

    /// Whether the provider at position `id` may serve requests (`false`
    /// when there is none).
    pub fn is_available(&self, id: usize) -> (r: bool)
        ensures
            r == provider_available(self@, id as int),
    {
        if id < self.providers.len() {
            self.providers[id].is_available()
        } else {
            false
        }
    }

    /// Marks the provider at position `id` reachable or not; a position
    /// without a provider changes nothing.
    pub fn set_available(&mut self, id: usize, available: bool)
        ensures
            final(self)@ == marked(old(self)@, id as int, available),
        no_unwind
    {
        if id < self.providers.len() {
            self.providers[id].set_available(available);
            proof {
                assert(self@ =~= marked(old(self)@, id as int, available));
            }
        }
    }
}

/// Adds a provider for `config`, marked reachable, at the end of the pool,
/// and gives its position.
pub fn create_provider(pool: &mut ProviderPool, config: ProviderConfig) -> (r: usize)
    ensures
        r == old(pool)@.len(),
        final(pool)@ == old(pool)@.push(fresh_provider(config)),
{
    let r = pool.providers.len();
    pool.providers.push(Provider::new(config));
    r
}

} // verus!
