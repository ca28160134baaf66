//! Round-robin selection over the providers of one model, skipping those
//! that are unavailable, and the bookkeeping after a forwarded chat call.
use vstd::prelude::*;
use crate::providers::{marked, provider_available, ChatResponse, Provider, ProviderPool};
use crate::text::{contains_str, lowercase_of, seq_contains, str_eq, to_lowercase};

verus! {

// ---------------------------------------------------------------------------
// The selection rule, over the availability of each provider.
// ---------------------------------------------------------------------------

/// The slot reached `k` steps after `start` on a ring of `n` slots
/// (for `0 <= start < n` and `0 <= k <= n`).
pub open spec fn ring_slot(n: int, start: int, k: int) -> int {
    if start + k < n {
        start + k
    } else {
        start + k - n
    }
}

/// How many steps lead from `start` to `target` on a ring of `n` slots.
pub open spec fn ring_distance(n: int, start: int, target: int) -> int {
    if target >= start {
        target - start
    } else {
        target + n - start
    }
}

/// The first available slot met when walking the ring from `start`,
/// looking from the `k`-th step on.
pub open spec fn scan_from(available: Seq<bool>, start: int, k: nat) -> Option<int>
    decreases available.len() - k,
{
    if k >= available.len() {
        None
    } else if available[ring_slot(available.len() as int, start, k as int)] {
        Some(ring_slot(available.len() as int, start, k as int))
    } else {
        scan_from(available, start, k + 1)
    }
}

/// The provider a round-robin selection picks when the cursor stands at
/// `start`: the first available one from `start` on, wrapping around.
pub open spec fn round_robin_pick(available: Seq<bool>, start: int) -> Option<int> {
    scan_from(available, start, 0)
}

/// Where the cursor stands after a selection from `start`: just past the
/// provider picked, or unmoved when none is available.
pub open spec fn round_robin_next(available: Seq<bool>, start: int) -> int {
    match round_robin_pick(available, start) {
        Some(i) => if i + 1 < available.len() { i + 1 } else { 0 },
        None => start,
    }
}

/// Where the cursor stands after `m` selections from `start`, availability unchanged.
pub open spec fn cursor_after(available: Seq<bool>, start: int, m: nat) -> int
    decreases m,
{
    if m == 0 {
        start
    } else {
        round_robin_next(available, cursor_after(available, start, (m - 1) as nat))
    }
}

/// What the scan from step `k` finds: the first available slot from step `k`
/// on, with every slot stepped over unavailable.
proof fn lemma_scan_from(available: Seq<bool>, start: int, k: nat)
    requires
        0 <= start < available.len(),
        k <= available.len(),
    ensures
        match scan_from(available, start, k) {
            Some(s) => exists|k2: int|
                k <= k2 < available.len() && s == ring_slot(available.len() as int, start, k2)
                    && available[s] && (forall|t: int|
                    k <= t < k2 ==> !#[trigger] available[ring_slot(available.len() as int, start, t)]),
            None => forall|t: int|
                k <= t < available.len() ==> !#[trigger] available[ring_slot(available.len() as int, start, t)],
        },
    decreases available.len() - k,
{
    if k < available.len() {
        if !available[ring_slot(available.len() as int, start, k as int)] {
            lemma_scan_from(available, start, k + 1);
            match scan_from(available, start, k + 1) {
                Some(s) => {
                    let k2 = choose|k2: int|
                        k + 1 <= k2 < available.len() && s == ring_slot(available.len() as int, start, k2)
                            && available[s] && (forall|t: int|
                            k + 1 <= t < k2 ==> !#[trigger] available[ring_slot(available.len() as int, start, t)]);
                    assert forall|t: int| k <= t < k2 implies !#[trigger] available[ring_slot(available.len() as int, start, t)] by {}
                },
                None => {
                    assert forall|t: int| k <= t < available.len() implies !#[trigger] available[ring_slot(available.len() as int, start, t)] by {}
                },
            }
        }
    }
}

/// A pick is an available provider, and every provider that the cursor
/// passes over on the way to it is unavailable.
pub proof fn lemma_pick_is_available(available: Seq<bool>, start: int)
    requires
        0 <= start < available.len(),
    ensures
        round_robin_pick(available, start) matches Some(i) ==> {
            &&& 0 <= i < available.len()
            &&& available[i]
            &&& forall|t: int| 0 <= t < ring_distance(available.len() as int, start, i)
                ==> !#[trigger] available[ring_slot(available.len() as int, start, t)]
        },
{
    lemma_scan_from(available, start, 0);
}

/// No provider is picked exactly when none is available.
pub proof fn lemma_pick_none_iff_none_available(available: Seq<bool>, start: int)
    requires
        0 <= start < available.len(),
    ensures
        round_robin_pick(available, start) is None <==> (forall|i: int| 0 <= i < available.len() ==> !#[trigger] available[i]),
{
    let n = available.len() as int;
    lemma_scan_from(available, start, 0);
    if round_robin_pick(available, start) is None {
        assert forall|i: int| 0 <= i < n implies !#[trigger] available[i] by {
            let t = ring_distance(n, start, i);
            assert(ring_slot(n, start, t) == i);
        }
    }
}

/// When every provider is available, the pick is the provider at the cursor
/// and the cursor moves to the next one.
pub proof fn lemma_all_available_rotates(available: Seq<bool>, start: int)
    requires
        0 <= start < available.len(),
        forall|i: int| 0 <= i < available.len() ==> #[trigger] available[i],
    ensures
        round_robin_pick(available, start) == Some(start),
        round_robin_next(available, start) == if start + 1 < available.len() { start + 1 } else { 0 },
{
}

/// After any number of selections the cursor still points into the ring.
pub proof fn lemma_cursor_stays_in_range(available: Seq<bool>, start: int, m: nat)
    requires
        0 <= start < available.len(),
    ensures
        0 <= cursor_after(available, start, m) < available.len(),
    decreases m,
{
    if m > 0 {
        lemma_cursor_stays_in_range(available, start, (m - 1) as nat);
        lemma_pick_is_available(available, cursor_after(available, start, (m - 1) as nat));
    }
}

/// With every provider available, `m` selections from `start` leave the
/// cursor `m` places further round the ring.
pub proof fn lemma_all_available_cursor(available: Seq<bool>, start: int, m: nat)
    requires
        0 <= start < available.len(),
        forall|i: int| 0 <= i < available.len() ==> #[trigger] available[i],
    ensures
        cursor_after(available, start, m) == (start + m) % (available.len() as int),
    decreases m,
{
    let n = available.len() as int;
    if m == 0 {
        assert(start % n == start) by (nonlinear_arith)
            requires 0 <= start < n;
    } else {
        lemma_all_available_cursor(available, start, (m - 1) as nat);
        let c = cursor_after(available, start, (m - 1) as nat);
        lemma_cursor_stays_in_range(available, start, (m - 1) as nat);
        lemma_all_available_rotates(available, c);
        assert(c == (start + m - 1) % n);
        assert((if c + 1 < n { c + 1 } else { 0 }) == (start + m) % n) by (nonlinear_arith)
            requires c == (start + m - 1) % n, 0 <= c < n, n > 0, start >= 0, m >= 1;
    }
}

/// With availability unchanged, an available provider is picked within as
/// many selections as it stands places after the cursor.
proof fn lemma_reached_within(available: Seq<bool>, start: int, j: int)
    requires
        0 <= start < available.len(),
        0 <= j < available.len(),
        available[j],
    ensures
        exists|m: nat| m <= ring_distance(available.len() as int, start, j)
            && #[trigger] round_robin_pick(available, cursor_after(available, start, m)) == Some(j),
    decreases ring_distance(available.len() as int, start, j),
{
    let n = available.len() as int;
    let d = ring_distance(n, start, j);
    lemma_scan_from(available, start, 0);
    assert(ring_slot(n, start, d) == j);
    let i = round_robin_pick(available, start)->0;
    let k2 = choose|k2: int|
        0 <= k2 < n && i == ring_slot(n, start, k2) && available[i]
            && (forall|t: int| 0 <= t < k2 ==> !#[trigger] available[ring_slot(n, start, t)]);
    assert(cursor_after(available, start, 0) == start);
    if i == j {
        assert(round_robin_pick(available, cursor_after(available, start, 0)) == Some(j));
    } else {
        assert(k2 <= d);
        assert(k2 != d);
        let s2 = round_robin_next(available, start);
        assert(s2 == ring_slot(n, start, k2 + 1));
        assert(ring_distance(n, s2, j) == d - k2 - 1);
        lemma_reached_within(available, s2, j);
        let m = choose|m: nat| m <= ring_distance(n, s2, j)
            && #[trigger] round_robin_pick(available, cursor_after(available, s2, m)) == Some(j);
        lemma_cursor_after_shift(available, start, m);
        assert(cursor_after(available, start, m + 1) == cursor_after(available, s2, m));
        assert(round_robin_pick(available, cursor_after(available, start, (m + 1) as nat)) == Some(j));
    }
}

/// Taking `m + 1` selections from `start` is taking `m` from where the first leaves the cursor.
proof fn lemma_cursor_after_shift(available: Seq<bool>, start: int, m: nat)
    ensures
        cursor_after(available, start, m + 1) == cursor_after(available, round_robin_next(available, start), m),
    decreases m,
{
    let s2 = round_robin_next(available, start);
    assert(cursor_after(available, start, m + 1) == round_robin_next(available, cursor_after(available, start, m)));
    if m == 0 {
        assert(cursor_after(available, start, 0) == start);
        assert(cursor_after(available, s2, 0) == s2);
    } else {
        lemma_cursor_after_shift(available, start, (m - 1) as nat);
        assert(cursor_after(available, s2, m) == round_robin_next(available, cursor_after(available, s2, (m - 1) as nat)));
    }
}

/// Round-robin serves every available provider: while availability stays
/// as it is, each available provider is picked within `n` selections.
pub proof fn lemma_every_available_provider_is_reached(available: Seq<bool>, start: int, j: int)
    requires
        0 <= start < available.len(),
        0 <= j < available.len(),
        available[j],
    ensures
        exists|m: nat| m < available.len()
            && #[trigger] round_robin_pick(available, cursor_after(available, start, m)) == Some(j),
{
    lemma_reached_within(available, start, j);
}

/// Picks a provider round-robin: the first available one at or after
/// `start`, wrapping around, and the cursor position that follows.
pub fn round_robin_select(available: &Vec<bool>, start: usize) -> (r: (Option<usize>, usize))
    requires
        available@.len() == 0 || start < available@.len(),
    ensures
        match r.0 {
            Some(i) => round_robin_pick(available@, start as int) == Some(i as int),
            None => round_robin_pick(available@, start as int) is None,
        },
        r.1 == round_robin_next(available@, start as int),
{
    let n = available.len();
    if n == 0 {
        return (None, start);
    }
    let mut idx: usize = start;
    let mut k: usize = 0;
    while k < n
        invariant
            n == available@.len(),
            start < n,
            k <= n,
            idx == ring_slot(n as int, start as int, k as int),
            scan_from(available@, start as int, 0) == scan_from(available@, start as int, k as nat),
        decreases n - k,
    {
        if available[idx] {
            let next = if idx + 1 < n { idx + 1 } else { 0 };
            return (Some(idx), next);
        }
        idx = if idx + 1 < n { idx + 1 } else { 0 };
        k = k + 1;
    }
    (None, start)
}

// ---------------------------------------------------------------------------
// After a forwarded chat call.
// ---------------------------------------------------------------------------

/// Why a forwarded chat request failed.
#[derive(Debug, Clone)]
pub enum ForwardError {
    /// No provider of the model is available.
    NoAvailableProviders,
    /// The provider answered that its quota or balance is exhausted; it is
    /// now marked unavailable.
    QuotaExceeded,
    /// Any other failure, with the upstream's message.
    Upstream(String),
}

/// The text of a forwarding error.
pub open spec fn forward_error_text(e: ForwardError) -> Seq<char> {
    match e {
        ForwardError::NoAvailableProviders => "No available providers"@,
        ForwardError::QuotaExceeded => "Provider quota exceeded"@,
        ForwardError::Upstream(m) => m@,
    }
}

impl ForwardError {
    /// The text of the error.
    pub fn message(&self) -> (r: String)
        ensures
            r@ == forward_error_text(*self),
    {
        match self {
            ForwardError::NoAvailableProviders => String::from_str("No available providers"),
            ForwardError::QuotaExceeded => String::from_str("Provider quota exceeded"),
            ForwardError::Upstream(m) => m.clone(),
        }
    }
}

/// Whether a lower-cased upstream error message says that the provider's
/// quota, balance or billing is exhausted.
pub open spec fn is_quota_text(lower: Seq<char>) -> bool {
    ||| seq_contains(lower, "insufficient"@)
    ||| seq_contains(lower, "quota"@)
    ||| seq_contains(lower, "balance"@)
    ||| seq_contains(lower, "not enough"@)
    ||| seq_contains(lower, "billing"@)
    ||| seq_contains(lower, "429"@)
}

/// Whether an already lower-cased upstream error message reports an
/// exhausted quota, balance or billing.
pub fn is_quota_text_exec(lower: &str) -> (r: bool)
    ensures
        r == is_quota_text(lower@),
        r == (seq_contains(lower@, "insufficient"@) || seq_contains(lower@, "quota"@) || seq_contains(lower@, "balance"@)
            || seq_contains(lower@, "not enough"@) || seq_contains(lower@, "billing"@) || seq_contains(lower@, "429"@)),
{
    contains_str(lower, "insufficient") || contains_str(lower, "quota") || contains_str(lower, "balance")
        || contains_str(lower, "not enough") || contains_str(lower, "billing") || contains_str(lower, "429")
}

/// Whether an upstream error message, in any letter case, reports an
/// exhausted quota.
pub fn is_quota_error(message: &str) -> (r: bool)
    ensures
        r == is_quota_text(lowercase_of(message@)),
        r == (seq_contains(lowercase_of(message@), "insufficient"@) || seq_contains(lowercase_of(message@), "quota"@) || seq_contains(lowercase_of(message@), "balance"@)
            || seq_contains(lowercase_of(message@), "not enough"@) || seq_contains(lowercase_of(message@), "billing"@) || seq_contains(lowercase_of(message@), "429"@)),
{
    let lower = to_lowercase(message);
    is_quota_text_exec(lower.as_str())
}

/// The availability mark a provider gets after a chat call: reachable after
/// a success, unreachable after a quota error, unchanged (`None`) otherwise.
pub open spec fn availability_after_spec(result: Result<ChatResponse, String>) -> Option<bool> {
    match result {
        Ok(_) => Some(true),
        Err(m) => if is_quota_text(lowercase_of(m@)) { Some(false) } else { None },
    }
}

/// What a forwarded chat call returns to the client.
pub open spec fn forward_result_spec(result: Result<ChatResponse, String>) -> Result<ChatResponse, ForwardError> {
    match result {
        Ok(resp) => Ok(resp),
        Err(m) => if is_quota_text(lowercase_of(m@)) {
            Err(ForwardError::QuotaExceeded)
        } else {
            Err(ForwardError::Upstream(m))
        },
    }
}

/// The availability mark a provider gets after a chat call whose outcome
/// is `result` (the error given by its message).
pub fn availability_after(result: &Result<ChatResponse, String>) -> (r: Option<bool>)
    ensures
        r == availability_after_spec(*result),
{
    match result {
        Ok(_) => Some(true),
        Err(m) => if is_quota_error(m.as_str()) { Some(false) } else { None },
    }
}

/// What the client gets for a chat call whose outcome is `result`.
pub fn forward_result(result: Result<ChatResponse, String>) -> (r: Result<ChatResponse, ForwardError>)
    ensures
        r == forward_result_spec(result),
        result matches Ok(resp) ==> r == Ok::<ChatResponse, ForwardError>(resp),
        result matches Err(m) ==> (r == if (seq_contains(lowercase_of(m@), "insufficient"@) || seq_contains(lowercase_of(m@), "quota"@) || seq_contains(lowercase_of(m@), "balance"@)
            || seq_contains(lowercase_of(m@), "not enough"@) || seq_contains(lowercase_of(m@), "billing"@) || seq_contains(lowercase_of(m@), "429"@)) {
            Err::<ChatResponse, ForwardError>(ForwardError::QuotaExceeded)
        } else {
            Err::<ChatResponse, ForwardError>(ForwardError::Upstream(m))
        }),
{
    match result {
        Ok(resp) => Ok(resp),
        Err(m) => if is_quota_error(m.as_str()) {
            Err(ForwardError::QuotaExceeded)
        } else {
            Err(ForwardError::Upstream(m))
        },
    }
}

// ---------------------------------------------------------------------------
// The load balancer of one model.
// ---------------------------------------------------------------------------

/// Whether each of the providers at positions `ids` of `pool` may serve requests.
pub open spec fn availability_of(pool: Seq<Provider>, ids: Seq<usize>) -> Seq<bool> {
    Seq::new(ids.len(), |i: int| provider_available(pool, ids[i] as int))
}

/// The pool after every provider among `ids` whose name is `name` is marked
/// unreachable; every other provider keeps its mark.
pub open spec fn mark_named(pool: Seq<Provider>, ids: Seq<usize>, name: Seq<char>) -> Seq<Provider> {
    Seq::new(pool.len(), |j: int|
        if ids.contains(j as usize) && pool[j].config.name@ == name {
            Provider { config: pool[j].config, available: false }
        } else {
            pool[j]
        })
}

/// The providers of one model, by their position in the provider pool, and
/// the round-robin cursor over them.
pub struct LoadBalancer {
    providers: Vec<usize>,
    current_index: usize,
}

impl LoadBalancer {
    /// The cursor points at a provider, or is zero when there is none.
    #[verifier::type_invariant]
    spec fn cursor_in_range(self) -> bool {
        self.current_index == 0 || self.current_index < self.providers@.len()
    }

    /// The pool positions of the providers, in round-robin order.
    pub closed spec fn providers_view(&self) -> Seq<usize> {
        self.providers@
    }

    /// The position from which the next selection starts.
    pub closed spec fn cursor(&self) -> int {
        self.current_index as int
    }

    /// The cursor points at a provider, or is zero when there is none; every
    /// load balancer keeps this.
    pub open spec fn cursor_in_bounds(&self) -> bool {
        self.cursor() == 0 || 0 <= self.cursor() < self.providers_view().len()
    }

    /// A load balancer over the providers at positions `providers` whose
    /// first selection starts at the first one.
    pub fn new(providers: Vec<usize>) -> (r: LoadBalancer)
        ensures
            r.providers_view() == providers@,
            r.cursor() == 0,
            r.cursor_in_bounds(),
    {
        LoadBalancer { providers, current_index: 0 }
    }

    /// The provider the round-robin rule picks when `available[i]` tells
    /// whether provider `i` is available; the cursor moves past it.
    pub fn select_from_availability(&mut self, available: &Vec<bool>) -> (r: Option<usize>)
        requires
            available@.len() == old(self).providers_view().len(),
        ensures
            final(self).providers_view() == old(self).providers_view(),
            final(self).cursor() == round_robin_next(available@, old(self).cursor()),
            r == match round_robin_pick(available@, old(self).cursor()) {
                Some(i) => Some(old(self).providers_view()[i]),
                None => None::<usize>,
            },
            r matches Some(id) ==> exists|i: int|
                0 <= i < available@.len() && available@[i] && #[trigger] old(self).providers_view()[i] == id,
            old(self).cursor_in_bounds(),
            final(self).cursor_in_bounds(),
    {
        proof {
            use_type_invariant(&*self);
        }
        let (picked, next) = round_robin_select(available, self.current_index);
        proof {
            if available@.len() > 0 {
                lemma_pick_is_available(available@, self.current_index as int);
            }
        }
        self.current_index = next;
        proof {
            use_type_invariant(&*self);
        }
        match picked {
            Some(i) => Some(self.providers[i]),
            None => None,
        }
    }

    /// Whether each provider of the load balancer may serve requests now.
    fn current_availability(&self, pool: &ProviderPool) -> (r: Vec<bool>)
        ensures
            r@ == availability_of(pool@, self.providers_view()),
    {
        let total = self.providers.len();
        let mut available: Vec<bool> = Vec::new();
        let mut i: usize = 0;
        while i < total
            invariant
                total == self.providers@.len(),
                i <= total,
                available@ =~= availability_of(pool@, self.providers@).subrange(0, i as int),
            decreases total - i,
        {
            available.push(pool.is_available(self.providers[i]));
            i = i + 1;
            assert(available@ =~= availability_of(pool@, self.providers@).subrange(0, i as int));
        }
        available
    }

    /// The next available provider in round-robin order, `None` when no
    /// provider is available; the cursor moves past the provider returned.
    pub fn get_available_provider(&mut self, pool: &ProviderPool) -> (r: Option<usize>)
        ensures
            final(self).providers_view() == old(self).providers_view(),
            final(self).cursor() == round_robin_next(availability_of(pool@, old(self).providers_view()), old(self).cursor()),
            r == match round_robin_pick(availability_of(pool@, old(self).providers_view()), old(self).cursor()) {
                Some(i) => Some(old(self).providers_view()[i]),
                None => None::<usize>,
            },
            r matches Some(id) ==> old(self).providers_view().contains(id) && provider_available(pool@, id as int),
            (exists|i: int| 0 <= i < old(self).providers_view().len()
                && #[trigger] provider_available(pool@, old(self).providers_view()[i] as int)) ==> r is Some,
            old(self).cursor_in_bounds(),
            final(self).cursor_in_bounds(),
            r matches Some(id) ==> exists|i: int| #![trigger old(self).providers_view()[i]] {
                &&& 0 <= i < old(self).providers_view().len()
                &&& old(self).providers_view()[i] == id
                &&& provider_available(pool@, id as int)
                &&& forall|t: int| 0 <= t < ring_distance(old(self).providers_view().len() as int, old(self).cursor(), i)
                    ==> !#[trigger] provider_available(pool@,
                        old(self).providers_view()[ring_slot(old(self).providers_view().len() as int, old(self).cursor(), t)] as int)
                &&& final(self).cursor() == if i + 1 < old(self).providers_view().len() { i + 1 } else { 0 }
            },
            r is None ==> final(self).cursor() == old(self).cursor() && forall|i: int|
                0 <= i < old(self).providers_view().len() ==> !#[trigger] provider_available(pool@, old(self).providers_view()[i] as int),
    {
        let available = self.current_availability(pool);
        let r = self.select_from_availability(&available);
        proof {
            if exists|i: int| 0 <= i < old(self).providers_view().len()
                && #[trigger] provider_available(pool@, old(self).providers_view()[i] as int) {
                let i = choose|i: int| 0 <= i < old(self).providers_view().len()
                    && #[trigger] provider_available(pool@, old(self).providers_view()[i] as int);
                assert(available@[i]);
                lemma_pick_none_iff_none_available(available@, old(self).cursor());
            }
            if r is Some {
                let i = choose|i: int| 0 <= i < available@.len() && available@[i] && #[trigger] old(self).providers_view()[i] == r->0;
                assert(old(self).providers_view()[i] == r->0);
            }
            lemma_availability_of(pool@, old(self).providers_view());
            let n = old(self).providers_view().len() as int;
            let c = old(self).cursor();
            let ids = old(self).providers_view();
            if n > 0 {
                lemma_pick_is_available(available@, c);
                lemma_pick_none_iff_none_available(available@, c);
                match round_robin_pick(available@, c) {
                    Some(i) => {
                        assert forall|t: int| 0 <= t < ring_distance(n, c, i)
                            implies !#[trigger] provider_available(pool@, ids[ring_slot(n, c, t)] as int) by {
                            assert(!available@[ring_slot(n, c, t)]);
                        }
                        assert(ids[i] == r->0);
                    },
                    None => {
                        assert forall|i: int| 0 <= i < n implies !#[trigger] provider_available(pool@, ids[i] as int) by {
                            assert(!available@[i]);
                        }
                    },
                }
            }
        }
        r
    }

    /// Marks every provider of the load balancer whose name is
    /// `provider_name` unreachable.
    pub fn mark_provider_unavailable(&self, pool: &mut ProviderPool, provider_name: &str)
        ensures
            final(pool)@ == mark_named(old(pool)@, self.providers_view(), provider_name@),
            final(pool)@.len() == old(pool)@.len(),
            forall|j: int| 0 <= j < old(pool)@.len() && old(pool)@[j].config.name@ != provider_name@
                ==> #[trigger] final(pool)@[j] == old(pool)@[j],
            forall|j: int| 0 <= j < old(pool)@.len() && !self.providers_view().contains(j as usize)
                ==> #[trigger] final(pool)@[j] == old(pool)@[j],
            forall|j: int| 0 <= j < old(pool)@.len() && self.providers_view().contains(j as usize)
                && old(pool)@[j].config.name@ == provider_name@
                ==> !(#[trigger] final(pool)@[j]).available && final(pool)@[j].config == old(pool)@[j].config,
    {
        let total = self.providers.len();
        let mut i: usize = 0;
        while i < total
            invariant
                total == self.providers@.len(),
                i <= total,
                pool@ == mark_named(old(pool)@, self.providers@.subrange(0, i as int), provider_name@),
            decreases total - i,
        {
            let id = self.providers[i];
            let ghost before = pool@;
            let ghost prefix = self.providers@.subrange(0, i as int);
            let ghost next_prefix = self.providers@.subrange(0, i + 1);
            assert(next_prefix =~= prefix.push(id));
            if id < pool.len() && str_eq(pool.provider(id).name(), provider_name) {
                pool.set_available(id, false);
            }
            proof {
                assert forall|j: int| 0 <= j < old(pool)@.len()
                    implies #[trigger] next_prefix.contains(j as usize) == (prefix.contains(j as usize) || j == id) by {
                    if next_prefix.contains(j as usize) {
                        let w = choose|w: int| 0 <= w < next_prefix.len() && next_prefix[w] == j as usize;
                        if w < prefix.len() {
                            assert(prefix[w] == j as usize);
                        }
                    }
                    if prefix.contains(j as usize) {
                        let w = choose|w: int| 0 <= w < prefix.len() && prefix[w] == j as usize;
                        assert(next_prefix[w] == j as usize);
                    }
                    if j == id {
                        assert(next_prefix[i as int] == id);
                    }
                }
                assert(pool@ =~= mark_named(old(pool)@, next_prefix, provider_name@));
            }
            i = i + 1;
        }
        assert(self.providers@.subrange(0, total as int) =~= self.providers@);
        proof {
            lemma_mark_named_effect(old(pool)@, self.providers@, provider_name@);
        }
    }

    /// The pool positions of the providers, in round-robin order.
    pub fn provider_ids(&self) -> (r: &Vec<usize>)
        ensures
            r@ == self.providers_view(),
    {
        &self.providers
    }

    /// How many providers the load balancer selects among.
    pub fn providers_count(&self) -> (r: usize)
        ensures
            r == self.providers_view().len(),
    {
        self.providers.len()
    }

    /// The provider a chat request goes to, or the error that no provider
    /// of the model is available.
    pub fn begin_forward(&mut self, pool: &ProviderPool) -> (r: Result<usize, ForwardError>)
        ensures
            final(self).providers_view() == old(self).providers_view(),
            final(self).cursor() == round_robin_next(availability_of(pool@, old(self).providers_view()), old(self).cursor()),
            r == match round_robin_pick(availability_of(pool@, old(self).providers_view()), old(self).cursor()) {
                Some(i) => Ok(old(self).providers_view()[i]),
                None => Err(ForwardError::NoAvailableProviders),
            },
            r matches Ok(id) ==> old(self).providers_view().contains(id) && provider_available(pool@, id as int),
            (exists|i: int| 0 <= i < old(self).providers_view().len()
                && #[trigger] provider_available(pool@, old(self).providers_view()[i] as int)) ==> r is Ok,
            old(self).cursor_in_bounds(),
            final(self).cursor_in_bounds(),
    {
        match self.get_available_provider(pool) {
            Some(p) => Ok(p),
            None => Err(ForwardError::NoAvailableProviders),
        }
    }

    /// Records the outcome of a chat call to the provider at position
    /// `provider` (the error given by its message) and returns what the
    /// client gets: after a success the provider is marked reachable, after a
    /// quota error unreachable, after any other error it keeps its mark.
    pub fn settle_chat_result(pool: &mut ProviderPool, provider: usize, result: Result<ChatResponse, String>) -> (r: Result<ChatResponse, ForwardError>)
        ensures
            r == forward_result_spec(result),
            final(pool)@ == match availability_after_spec(result) {
                Some(mark) => marked(old(pool)@, provider as int, mark),
                None => old(pool)@,
            },
            result matches Ok(resp) ==> r == Ok::<ChatResponse, ForwardError>(resp)
                && final(pool)@ == marked(old(pool)@, provider as int, true),
            result matches Err(m) ==> ((seq_contains(lowercase_of(m@), "insufficient"@) || seq_contains(lowercase_of(m@), "quota"@) || seq_contains(lowercase_of(m@), "balance"@)
            || seq_contains(lowercase_of(m@), "not enough"@) || seq_contains(lowercase_of(m@), "billing"@) || seq_contains(lowercase_of(m@), "429"@)) ==> {
                &&& r == Err::<ChatResponse, ForwardError>(ForwardError::QuotaExceeded)
                &&& final(pool)@ == marked(old(pool)@, provider as int, false)
            }),
            result matches Err(m) ==> (!(seq_contains(lowercase_of(m@), "insufficient"@) || seq_contains(lowercase_of(m@), "quota"@) || seq_contains(lowercase_of(m@), "balance"@)
            || seq_contains(lowercase_of(m@), "not enough"@) || seq_contains(lowercase_of(m@), "billing"@) || seq_contains(lowercase_of(m@), "429"@)) ==> {
                &&& r == Err::<ChatResponse, ForwardError>(ForwardError::Upstream(m))
                &&& final(pool)@ == old(pool)@
            }),
    {
        match availability_after(&result) {
            Some(mark) => pool.set_available(provider, mark),
            None => {},
        }
        forward_result(result)
    }
}

// ---------------------------------------------------------------------------
// Failover.
// ---------------------------------------------------------------------------

/// A chat error is a quota error exactly when its lower-cased message
/// contains one of `insufficient`, `quota`, `balance`, `not enough`,
/// `billing` or `429`: then the client is told the quota is exceeded and
/// the provider is marked unreachable; otherwise the client gets the
/// upstream message and the provider keeps its mark.
pub proof fn lemma_quota_classification(m: String)
    ensures
        (seq_contains(lowercase_of(m@), "insufficient"@) || seq_contains(lowercase_of(m@), "quota"@) || seq_contains(lowercase_of(m@), "balance"@)
            || seq_contains(lowercase_of(m@), "not enough"@) || seq_contains(lowercase_of(m@), "billing"@) || seq_contains(lowercase_of(m@), "429"@)) ==> {
            &&& forward_result_spec(Err(m)) == Err::<ChatResponse, ForwardError>(ForwardError::QuotaExceeded)
            &&& availability_after_spec(Err(m)) == Some(false)
        },
        !(seq_contains(lowercase_of(m@), "insufficient"@) || seq_contains(lowercase_of(m@), "quota"@) || seq_contains(lowercase_of(m@), "balance"@)
            || seq_contains(lowercase_of(m@), "not enough"@) || seq_contains(lowercase_of(m@), "billing"@) || seq_contains(lowercase_of(m@), "429"@)) ==> {
            &&& forward_result_spec(Err(m)) == Err::<ChatResponse, ForwardError>(ForwardError::Upstream(m))
            &&& availability_after_spec(Err(m)) is None
        },
{
}

/// The availability a selection walks over is that of each provider in
/// turn: entry `i` tells whether the provider at position `ids[i]` exists,
/// is enabled and is marked reachable.
pub proof fn lemma_availability_of(pool: Seq<Provider>, ids: Seq<usize>)
    ensures
        availability_of(pool, ids).len() == ids.len(),
        forall|i: int| 0 <= i < ids.len() ==> #[trigger] availability_of(pool, ids)[i]
            == (0 <= (ids[i] as int) && (ids[i] as int) < pool.len() && pool[ids[i] as int].available && pool[ids[i] as int].config.enabled),
{
}

/// Marking by name changes exactly the providers of the load balancer that
/// bear that exact name: each becomes unreachable and keeps its
/// configuration; every provider with another name, or outside the load
/// balancer, is unchanged.
pub proof fn lemma_mark_named_effect(pool: Seq<Provider>, ids: Seq<usize>, name: Seq<char>)
    ensures
        mark_named(pool, ids, name).len() == pool.len(),
        forall|j: int| 0 <= j < pool.len() && pool[j].config.name@ != name
            ==> #[trigger] mark_named(pool, ids, name)[j] == pool[j],
        forall|j: int| 0 <= j < pool.len() && !ids.contains(j as usize)
            ==> #[trigger] mark_named(pool, ids, name)[j] == pool[j],
        forall|j: int| 0 <= j < pool.len() && ids.contains(j as usize) && pool[j].config.name@ == name
            ==> !(#[trigger] mark_named(pool, ids, name)[j]).available && mark_named(pool, ids, name)[j].config == pool[j].config,
{
}

/// After a successful chat call the client gets exactly the upstream
/// response, and the provider is marked reachable.
pub proof fn lemma_success_returns_response(resp: ChatResponse)
    ensures
        forward_result_spec(Ok(resp)) == Ok::<ChatResponse, ForwardError>(resp),
        availability_after_spec(Ok(resp)) == Some(true),
{
}

/// A selection only ever returns a provider that may serve requests.
pub proof fn lemma_selection_is_available(pool: Seq<Provider>, ids: Seq<usize>, cursor: int)
    requires
        0 <= cursor < ids.len(),
    ensures
        round_robin_pick(availability_of(pool, ids), cursor) matches Some(i)
            ==> 0 <= i < ids.len() && provider_available(pool, ids[i] as int),
{
    lemma_pick_is_available(availability_of(pool, ids), cursor);
}

/// Failover: once the provider at position `p` is marked unreachable (after
/// a quota error, a failed probe, or by name), a selection never returns
/// it, and returns some provider whenever another one of the load balancer
/// may serve requests.
pub proof fn lemma_failover(pool: Seq<Provider>, ids: Seq<usize>, cursor: int, p: int)
    requires
        0 <= cursor < ids.len(),
    ensures
        round_robin_pick(availability_of(marked(pool, p, false), ids), cursor) matches Some(i)
            ==> ids[i] != p && provider_available(pool, ids[i] as int),
        (exists|j: int| 0 <= j < ids.len() && ids[j] != p && #[trigger] provider_available(pool, ids[j] as int))
            ==> round_robin_pick(availability_of(marked(pool, p, false), ids), cursor) is Some,
{
    let after = marked(pool, p, false);
    let avail = availability_of(after, ids);
    lemma_pick_is_available(avail, cursor);
    lemma_pick_none_iff_none_available(avail, cursor);
    if exists|j: int| 0 <= j < ids.len() && ids[j] != p && #[trigger] provider_available(pool, ids[j] as int) {
        let j = choose|j: int| 0 <= j < ids.len() && ids[j] != p && #[trigger] provider_available(pool, ids[j] as int);
        assert(avail[j]);
    }
}

/// Marking by name takes every provider of that name out of the rotation.
pub proof fn lemma_marked_by_name_is_skipped(pool: Seq<Provider>, ids: Seq<usize>, name: Seq<char>, cursor: int)
    requires
        0 <= cursor < ids.len(),
    ensures
        round_robin_pick(availability_of(mark_named(pool, ids, name), ids), cursor) matches Some(i)
            ==> mark_named(pool, ids, name)[ids[i] as int].config.name@ != name,
{
    let after = mark_named(pool, ids, name);
    let avail = availability_of(after, ids);
    lemma_pick_is_available(avail, cursor);
    match round_robin_pick(avail, cursor) {
        Some(i) => {
            assert(avail[i]);
            assert(ids.contains(ids[i]));
        },
        None => {},
    }
}

/// With every provider available, `k` successive selections from cursor `c`
/// pick the providers at `c`, `c + 1`, ... round the ring, so `n` of them
/// pick each provider once.
pub proof fn lemma_all_available_picks_in_order(available: Seq<bool>, c: int, k: nat)
    requires
        0 <= c < available.len(),
        forall|i: int| 0 <= i < available.len() ==> #[trigger] available[i],
    ensures
        round_robin_pick(available, cursor_after(available, c, k)) == Some((c + k) % (available.len() as int)),
{
    lemma_all_available_cursor(available, c, k);
    lemma_cursor_stays_in_range(available, c, k);
    lemma_all_available_rotates(available, cursor_after(available, c, k));
}

} // verus!
