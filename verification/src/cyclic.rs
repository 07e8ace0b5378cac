//! Cyclic subscriptions: periodic data-sampling subscriptions pinned to an
//! entity. The registry assigns ids `cyc-1`, `cyc-2`, ... in creation order,
//! so no two live subscriptions share an id.

use vstd::prelude::*;
use crate::error::ApiError;
use crate::model::{GenericError, opt_view};
use crate::view::reversed;
use crate::text::{decimal, lemma_decimal_injective, lemma_prefix_cancel, owned, push_decimal, str_eq};

verus! {

/// The sample period applied when a subscription declares no `interval_ms`.
pub const DEFAULT_INTERVAL_MS: u64 = 1000;

/// The floor a sample period is clamped to, so a `0` (or tiny) `interval_ms`
/// cannot busy-loop the sampler.
pub const MIN_INTERVAL_MS: u64 = 50;

/// The SSE keep-alive cadence, in seconds.
pub const KEEPALIVE_SECS: u64 = 30;

/// The request body for `POST .../cyclic-subscriptions`: which data subtree to
/// sample and how often.
#[derive(Clone, Debug, Default)]
pub struct CyclicSpec {
    /// The data subtree to sample (a `/`-navigated topic path); the whole data
    /// tree when absent.
    pub data_path: Option<String>,
    /// The sample period in milliseconds ([`DEFAULT_INTERVAL_MS`] when absent).
    pub interval_ms: Option<u64>,
}

/// A registered cyclic subscription.
#[derive(Clone, Debug)]
pub struct CyclicSubscription {
    /// The server-assigned subscription id (`cyc-{n}`).
    pub id: String,
    /// The entity this subscription samples.
    pub entity_id: String,
    /// The sampled data subtree, if scoped to one.
    pub data_path: Option<String>,
    /// The sample period in milliseconds.
    pub interval_ms: u64,
}

/// The abstract contents of a [`CyclicSubscription`].
pub struct CyclicView {
    /// Subscription id.
    pub id: Seq<char>,
    /// Sampled entity.
    pub entity_id: Seq<char>,
    /// Sampled data subtree.
    pub data_path: Option<Seq<char>>,
    /// Sample period, ms.
    pub interval_ms: u64,
}

impl View for CyclicSubscription {
    type V = CyclicView;

    open spec fn view(&self) -> CyclicView {
        CyclicView {
            id: self.id@,
            entity_id: self.entity_id@,
            data_path: opt_view(self.data_path),
            interval_ms: self.interval_ms,
        }
    }
}

/// The abstract contents of a sequence of subscriptions.
pub open spec fn sub_views(s: Seq<CyclicSubscription>) -> Seq<CyclicView> {
    s.map_values(|x: CyclicSubscription| x@)
}

impl CyclicSubscription {
    /// The period the sampler runs at: the subscription's interval, clamped up
    /// to [`MIN_INTERVAL_MS`] so a tiny interval cannot busy-loop it.
    pub fn sample_period_ms(&self) -> (r: u64)
        ensures
            r == if self.interval_ms < MIN_INTERVAL_MS { MIN_INTERVAL_MS } else { self.interval_ms },
    {
        if self.interval_ms < MIN_INTERVAL_MS {
            MIN_INTERVAL_MS
        } else {
            self.interval_ms
        }
    }

    /// A field-for-field copy.
    pub fn duplicate(&self) -> (r: CyclicSubscription)
        ensures
            r@ == self@,
    {
        CyclicSubscription {
            id: self.id.clone(),
            entity_id: self.entity_id.clone(),
            data_path: match &self.data_path {
                Some(p) => Some(p.clone()),
                None => None,
            },
            interval_ms: self.interval_ms,
        }
    }
}

/// The sample period a spec asks for.
pub open spec fn spec_interval(spec: CyclicSpec) -> u64 {
    match spec.interval_ms {
        Some(ms) => ms,
        None => DEFAULT_INTERVAL_MS,
    }
}

/// The id of the `n`-th subscription created.
pub open spec fn cyclic_id(n: nat) -> Seq<char> {
    "cyc-"@ + decimal(n)
}

/// The list envelope for `GET .../cyclic-subscriptions`.
#[derive(Debug)]
pub struct CyclicList {
    /// The subscriptions.
    pub items: Vec<CyclicSubscription>,
    /// The collection extension.
    pub x_medkit: CyclicListMeta,
}

/// The `x-medkit` extension of a [`CyclicList`].
#[derive(Debug)]
pub struct CyclicListMeta {
    /// Number of items.
    pub total_count: usize,
}

/// The first subscription with id `id`, if any.
pub open spec fn find_sub(subs: Seq<CyclicView>, id: Seq<char>) -> Option<CyclicView>
    decreases subs.len(),
{
    if subs.len() == 0 {
        None
    } else if subs[0].id == id {
        Some(subs[0])
    } else {
        find_sub(subs.skip(1), id)
    }
}

/// The position of the first subscription with id `id` (the length when
/// none has it).
pub open spec fn sub_index(subs: Seq<CyclicView>, id: Seq<char>) -> int
    decreases subs.len(),
{
    if subs.len() == 0 {
        0
    } else if subs[0].id == id {
        0
    } else {
        1 + sub_index(subs.skip(1), id)
    }
}

/// The subscriptions whose id is not `id`, in order.
pub open spec fn without_id(subs: Seq<CyclicView>, id: Seq<char>) -> Seq<CyclicView>
    decreases subs.len(),
{
    if subs.len() == 0 {
        subs
    } else if subs.last().id == id {
        without_id(subs.drop_last(), id)
    } else {
        without_id(subs.drop_last(), id).push(subs.last())
    }
}

/// The subscriptions pinned to `entity_id`, in order.
pub open spec fn for_entity(subs: Seq<CyclicView>, entity_id: Seq<char>) -> Seq<CyclicView>
    decreases subs.len(),
{
    if subs.len() == 0 {
        subs
    } else if subs.last().entity_id == entity_id {
        for_entity(subs.drop_last(), entity_id).push(subs.last())
    } else {
        for_entity(subs.drop_last(), entity_id)
    }
}

/// Whether some subscription has id `id`.
pub open spec fn has_sub(subs: Seq<CyclicView>, id: Seq<char>) -> bool {
    exists|i: int| 0 <= i < subs.len() && #[trigger] subs[i].id == id
}

/// Ids are pairwise distinct.
pub open spec fn distinct_ids(subs: Seq<CyclicView>) -> bool {
    forall|i: int, j: int| 0 <= i < subs.len() && 0 <= j < subs.len() && i != j ==> subs[i].id != subs[j].id
}

/// Ids are pairwise distinct and each is `cyc-{k}` for a `k` in `1..=next`.
pub open spec fn ids_numbered(subs: Seq<CyclicView>, next: u64) -> bool {
    &&& distinct_ids(subs)
    &&& forall|i: int| 0 <= i < subs.len() ==> exists|k: nat| 1 <= k <= next && #[trigger] subs[i].id == cyclic_id(k)
}

/// Dropping subscriptions keeps ids distinct.
proof fn lemma_without_id_distinct(subs: Seq<CyclicView>, id: Seq<char>)
    requires
        distinct_ids(subs),
    ensures
        distinct_ids(without_id(subs, id)),
    decreases subs.len(),
{
    if subs.len() > 0 {
        let d = subs.drop_last();
        assert forall|i: int, j: int| 0 <= i < d.len() && 0 <= j < d.len() && i != j implies d[i].id != d[j].id by {
            assert(d[i] == subs[i] && d[j] == subs[j]);
        }
        lemma_without_id_distinct(d, id);
        lemma_without_id(d, id);
        let w = without_id(d, id);
        if subs.last().id != id {
            let l = subs.last();
            assert forall|i: int| 0 <= i < w.len() implies w[i].id != l.id by {
                assert(w.contains(w[i]));
                assert(d.contains(w[i]));
                let m = choose|m: int| 0 <= m < d.len() && d[m] == w[i];
                assert(subs[m] == w[i]);
                assert(subs[subs.len() - 1] == l);
            }
            let w2 = w.push(l);
            assert forall|i: int, j: int| 0 <= i < w2.len() && 0 <= j < w2.len() && i != j implies w2[i].id != w2[j].id by {
                if i < w.len() && j < w.len() {
                    assert(w2[i] == w[i] && w2[j] == w[j]);
                } else if i < w.len() {
                    assert(w2[i] == w[i]);
                } else if j < w.len() {
                    assert(w2[j] == w[j]);
                }
            }
        }
    }
}

/// With distinct ids, the first subscription with an id is the one at its
/// position.
proof fn lemma_find_sub_at(subs: Seq<CyclicView>, i: int)
    requires
        0 <= i < subs.len(),
        forall|k: int| 0 <= k < i ==> subs[k].id != subs[i].id,
    ensures
        find_sub(subs, subs[i].id) == Some(subs[i]),
        sub_index(subs, subs[i].id) == i,
    decreases i,
{
    if i > 0 {
        assert forall|k: int| 0 <= k < i - 1 implies #[trigger] subs.skip(1)[k].id != subs.skip(1)[i - 1].id by {
            assert(subs.skip(1)[k] == subs[k + 1]);
        }
        lemma_find_sub_at(subs.skip(1), i - 1);
        assert(subs.skip(1)[i - 1] == subs[i]);
    }
}

/// Without a subscription of that id, nothing is found.
proof fn lemma_find_sub_none(subs: Seq<CyclicView>, id: Seq<char>)
    requires
        !has_sub(subs, id),
    ensures
        find_sub(subs, id) is None,
    decreases subs.len(),
{
    if subs.len() > 0 {
        assert(subs[0].id != id);
        assert forall|k: int| 0 <= k < subs.skip(1).len() implies subs.skip(1)[k].id != id by {
            assert(subs.skip(1)[k] == subs[k + 1]);
        }
        lemma_find_sub_none(subs.skip(1), id);
    }
}

/// Dropping every subscription with an id leaves none with it, and keeps the
/// rest.
proof fn lemma_without_id(subs: Seq<CyclicView>, id: Seq<char>)
    ensures
        !has_sub(without_id(subs, id), id),
        forall|x: CyclicView| without_id(subs, id).contains(x) ==> subs.contains(x),
    decreases subs.len(),
{
    if subs.len() > 0 {
        lemma_without_id(subs.drop_last(), id);
        let w = without_id(subs.drop_last(), id);
        assert forall|x: CyclicView| without_id(subs, id).contains(x) implies subs.contains(x) by {
            if w.contains(x) {
                let k = choose|k: int| 0 <= k < w.len() && w[k] == x;
                assert(subs.drop_last().contains(x));
                let m = choose|m: int| 0 <= m < subs.drop_last().len() && subs.drop_last()[m] == x;
                assert(subs[m] == x);
            } else {
                assert(x == subs.last());
                assert(subs[subs.len() - 1] == x);
            }
        }
        if subs.last().id != id {
            assert forall|i: int| 0 <= i < w.push(subs.last()).len() implies #[trigger] w.push(subs.last())[i].id != id by {
                if i < w.len() {
                    assert(w.push(subs.last())[i] == w[i]);
                }
            }
        }
    }
}

/// The in-memory cyclic-subscription registry.
#[derive(Debug)]
pub struct CyclicStore {
    next: u64,
    subscriptions: Vec<CyclicSubscription>,
}

impl CyclicStore {
    /// How many subscriptions have been created so far (the number of the last
    /// id assigned).
    pub closed spec fn spec_next(&self) -> u64 {
        self.next
    }

    /// The registered subscriptions, in creation order.
    pub closed spec fn spec_subs(&self) -> Seq<CyclicView> {
        sub_views(self.subscriptions@)
    }

    /// How many have been created so far: a creation is owed only while
    /// this is below `u64::MAX`.
    pub fn created(&self) -> (r: u64)
        ensures
            r == self.spec_next(),
    {
        self.next
    }

    /// The registry invariant: ids distinct and numbered up to the counter.
    pub closed spec fn wf(&self) -> bool {
        ids_numbered(self.spec_subs(), self.next)
    }

    /// An empty registry.
    pub fn new() -> (r: CyclicStore)
        ensures
            r.wf(),
            r.spec_next() == 0,
            r.spec_subs() == Seq::<CyclicView>::empty(),
    {
        let r = CyclicStore { next: 0, subscriptions: Vec::new() };
        proof {
            assert(r.spec_subs() =~= Seq::<CyclicView>::empty());
        }
        r
    }

    /// Register a subscription pinned to `entity_id`, assigning the id
    /// `cyc-{n}` where `n` counts the subscriptions created so far.
    pub fn create(&mut self, entity_id: String, spec: CyclicSpec) -> (r: CyclicSubscription)
        requires
            old(self).wf(),
            old(self).spec_next() < u64::MAX,
        ensures
            final(self).wf(),
            final(self).spec_next() == old(self).spec_next() + 1,
            r@ == (CyclicView {
                id: cyclic_id(final(self).spec_next() as nat),
                entity_id: entity_id@,
                data_path: opt_view(spec.data_path),
                interval_ms: spec_interval(spec),
            }),
            final(self).spec_subs() == old(self).spec_subs().push(r@),
    {
        let ghost old_subs = self.spec_subs();
        self.next = self.next + 1;
        let mut id = owned("cyc-");
        push_decimal(&mut id, self.next);
        let interval_ms = match spec.interval_ms {
            Some(ms) => ms,
            None => DEFAULT_INTERVAL_MS,
        };
        let subscription = CyclicSubscription { id, entity_id, data_path: spec.data_path, interval_ms };
        let out = subscription.duplicate();
        self.subscriptions.push(subscription);
        proof {
            let subs = self.spec_subs();
            assert(subs =~= old_subs.push(out@));
            let n = self.next;
            assert forall|i: int| 0 <= i < old_subs.len() implies subs[i].id != out@.id by {
                let k = choose|k: nat| 1 <= k <= n - 1 && #[trigger] old_subs[i].id == cyclic_id(k);
                if subs[i].id == out@.id {
                    lemma_prefix_cancel("cyc-"@, decimal(k), decimal(n as nat));
                    lemma_decimal_injective(k, n as nat);
                }
            }
            assert forall|i: int| 0 <= i < subs.len() implies exists|k: nat| 1 <= k <= n && #[trigger] subs[i].id == cyclic_id(k) by {
                if i < old_subs.len() {
                    let k = choose|k: nat| 1 <= k <= n - 1 && #[trigger] old_subs[i].id == cyclic_id(k);
                    assert(subs[i].id == cyclic_id(k));
                } else {
                    assert(subs[i].id == cyclic_id(n as nat));
                }
            }
        }
        out
    }

    /// The position of the subscription with id `id`.
    fn position(&self, id: &str) -> (r: Option<usize>)
        requires
            self.wf(),
        ensures
            match r {
                Some(i) => i < self.spec_subs().len() && self.spec_subs()[i as int].id == id@
                    && find_sub(self.spec_subs(), id@) == Some(self.spec_subs()[i as int]),
                None => !has_sub(self.spec_subs(), id@) && find_sub(self.spec_subs(), id@) is None,
            },
    {
        let ghost subs = self.spec_subs();
        let mut i: usize = 0;
        while i < self.subscriptions.len()
            invariant
                subs == self.spec_subs(),
                ids_numbered(subs, self.next),
                i <= subs.len(),
                forall|k: int| 0 <= k < i ==> subs[k].id != id@,
            decreases subs.len() - i,
        {
            if str_eq(self.subscriptions[i].id.as_str(), id) {
                proof {
                    lemma_find_sub_at(subs, i as int);
                }
                return Some(i);
            }
            i = i + 1;
        }
        proof {
            lemma_find_sub_none(subs, id@);
        }
        None
    }

    /// The subscription with id `id`, if any.
    pub fn get(&self, id: &str) -> (r: Option<CyclicSubscription>)
        requires
            self.wf(),
        ensures
            match r {
                Some(s) => find_sub(self.spec_subs(), id@) == Some(s@),
                None => find_sub(self.spec_subs(), id@) is None,
            },
    {
        match self.position(id) {
            Some(i) => Some(self.subscriptions[i].duplicate()),
            None => None,
        }
    }

    /// Replace the spec of the subscription `id` (`PUT`), keeping its id and
    /// pinned entity; `None` when absent.
    pub fn update(&mut self, id: &str, spec: CyclicSpec) -> (r: Option<CyclicSubscription>)
        requires
            old(self).wf(),
        ensures
            final(self).wf(),
            final(self).spec_next() == old(self).spec_next(),
            match r {
                Some(s) => exists|i: int| 0 <= i < old(self).spec_subs().len() && #[trigger] old(self).spec_subs()[i].id == id@
                    && s@ == (CyclicView {
                        data_path: opt_view(spec.data_path),
                        interval_ms: spec_interval(spec),
                        ..old(self).spec_subs()[i]
                    })
                    && final(self).spec_subs() == old(self).spec_subs().update(i, s@),
                None => !has_sub(old(self).spec_subs(), id@) && final(self).spec_subs() == old(self).spec_subs(),
            },
    {
        let ghost before = self.spec_subs();
        match self.position(id) {
            Some(i) => {
                let mut s = self.subscriptions[i].duplicate();
                s.data_path = spec.data_path;
                s.interval_ms = match spec.interval_ms {
                    Some(ms) => ms,
                    None => DEFAULT_INTERVAL_MS,
                };
                let out = s.duplicate();
                self.subscriptions.set(i, s);
                proof {
                    assert(self.spec_subs() =~= before.update(i as int, out@));
                    let subs = self.spec_subs();
                    assert forall|a: int, b: int| 0 <= a < subs.len() && 0 <= b < subs.len() && a != b implies subs[a].id != subs[b].id by {
                        assert(subs[a].id == before[a].id && subs[b].id == before[b].id);
                    }
                    assert forall|a: int| 0 <= a < subs.len() implies exists|k: nat| 1 <= k <= self.next && #[trigger] subs[a].id == cyclic_id(k) by {
                        assert(subs[a].id == before[a].id);
                    }
                }
                Some(out)
            },
            None => None,
        }
    }

    /// Drop the subscription `id`; whether one was dropped.
    pub fn remove(&mut self, id: &str) -> (r: bool)
        requires
            old(self).wf(),
        ensures
            final(self).wf(),
            final(self).spec_next() == old(self).spec_next(),
            r == has_sub(old(self).spec_subs(), id@),
            final(self).spec_subs() == without_id(old(self).spec_subs(), id@),
    {
        let ghost before = self.spec_subs();
        let mut kept: Vec<CyclicSubscription> = Vec::new();
        let mut found = false;
        let mut taken: Vec<CyclicSubscription> = Vec::new();
        std::mem::swap(&mut taken, &mut self.subscriptions);
        proof {
            assert(sub_views(taken@) == before);
        }
        let mut rest = reversed(taken);
        let n = rest.len();
        let mut i: usize = 0;
        proof {
            assert(before.take(0) =~= Seq::<CyclicView>::empty());
            assert(sub_views(kept@) =~= Seq::<CyclicView>::empty());
        }
        while i < n
            invariant
                n == before.len(),
                i <= n,
                sub_views(rest@) == before.subrange(i as int, n as int).reverse(),
                sub_views(kept@) == without_id(before.take(i as int), id@),
                found == has_sub(before.take(i as int), id@),
            decreases n - i,
        {
            let ghost rv0 = rest@;
            proof {
                assert(sub_views(rv0).len() == n - i);
            }
            let s = rest.pop().unwrap();
            proof {
                let r0 = sub_views(rv0);
                assert(s@ == r0.last());
                assert(r0.last() == before[i as int]);
                assert(rest@ =~= rv0.drop_last());
                assert forall|k: int| 0 <= k < n - i - 1 implies #[trigger] sub_views(rest@)[k]
                    == before.subrange(i + 1, n as int).reverse()[k] by {
                    assert(r0[k] == before.subrange(i as int, n as int)[n - i - 1 - k]);
                }
                assert(sub_views(rest@) =~= before.subrange(i + 1, n as int).reverse());
                assert(before.take(i + 1).drop_last() =~= before.take(i as int));
                assert(before.take(i + 1).last() == before[i as int]);
            }
            let ghost k0 = kept@;
            if str_eq(s.id.as_str(), id) {
                found = true;
                proof {
                    assert(before.take(i + 1)[i as int].id == id@);
                }
            } else {
                kept.push(s);
                proof {
                    assert(sub_views(kept@) =~= sub_views(k0).push(before[i as int]));
                    if !found {
                        assert forall|k: int| 0 <= k < i + 1 implies #[trigger] before.take(i + 1)[k].id != id@ by {
                            if k < i {
                                assert(before.take(i + 1)[k] == before.take(i as int)[k]);
                            }
                        }
                    } else {
                        let k = choose|k: int| 0 <= k < i && #[trigger] before.take(i as int)[k].id == id@;
                        assert(before.take(i + 1)[k] == before.take(i as int)[k]);
                    }
                }
            }
            proof {
                if found && !has_sub(before.take(i as int), id@) {
                    assert(before.take(i + 1)[i as int].id == id@);
                }
                if has_sub(before.take(i as int), id@) {
                    let k = choose|k: int| 0 <= k < i && #[trigger] before.take(i as int)[k].id == id@;
                    assert(before.take(i + 1)[k] == before.take(i as int)[k]);
                }
            }
            i = i + 1;
        }
        proof {
            assert(before.take(n as int) =~= before);
        }
        self.subscriptions = kept;
        proof {
            lemma_without_id(before, id@);
            let subs = self.spec_subs();
            assert forall|x: CyclicView| subs.contains(x) implies before.contains(x) by {
            }
            lemma_without_id_distinct(before, id@);
            assert forall|a: int| 0 <= a < subs.len() implies exists|k: nat| 1 <= k <= self.next && #[trigger] subs[a].id == cyclic_id(k) by {
                assert(subs.contains(subs[a]));
                let m = choose|m: int| 0 <= m < before.len() && before[m] == subs[a];
                assert(before[m].id == subs[a].id);
            }
        }
        found
    }

    /// The subscriptions pinned to `entity_id`, in creation order.
    pub fn list_for_entity(&self, entity_id: &str) -> (r: Vec<CyclicSubscription>)
        ensures
            sub_views(r@) == for_entity(self.spec_subs(), entity_id@),
    {
        let ghost subs = self.spec_subs();
        let mut out: Vec<CyclicSubscription> = Vec::new();
        let mut i: usize = 0;
        proof {
            assert(subs.take(0) =~= Seq::<CyclicView>::empty());
            assert(sub_views(out@) =~= Seq::<CyclicView>::empty());
        }
        while i < self.subscriptions.len()
            invariant
                subs == self.spec_subs(),
                i <= subs.len(),
                sub_views(out@) == for_entity(subs.take(i as int), entity_id@),
            decreases subs.len() - i,
        {
            proof {
                assert(subs.take(i + 1).drop_last() =~= subs.take(i as int));
                assert(subs.take(i + 1).last() == subs[i as int]);
            }
            if str_eq(self.subscriptions[i].entity_id.as_str(), entity_id) {
                let ghost o0 = out@;
                out.push(self.subscriptions[i].duplicate());
                proof {
                    assert(sub_views(out@) =~= sub_views(o0).push(subs[i as int]));
                }
            }
            i = i + 1;
        }
        proof {
            assert(subs.take(subs.len() as int) =~= subs);
        }
        out
    }

    /// The subscription `subscription_id`, provided it is pinned to
    /// `entity_id`; otherwise the `cyclic-subscription-not-found` error (the
    /// entity-scoped view never reveals another entity's subscriptions).
    pub fn scoped_subscription(&self, entity_id: &str, subscription_id: &str) -> (r: Result<CyclicSubscription, ApiError>)
        requires
            self.wf(),
        ensures
            match find_sub(self.spec_subs(), subscription_id@) {
                Some(s) if s.entity_id == entity_id@ => r matches Ok(out) && out@ == s,
                _ => r matches Err(ApiError::NotFound(g)) && is_subscription_not_found(g, subscription_id@),
            },
    {
        match self.get(subscription_id) {
            Some(s) => {
                if str_eq(s.entity_id.as_str(), entity_id) {
                    Ok(s)
                } else {
                    Err(ApiError::NotFound(subscription_not_found(subscription_id)))
                }
            },
            None => Err(ApiError::NotFound(subscription_not_found(subscription_id))),
        }
    }

    /// Replace the spec of a subscription pinned to `entity_id` (`PUT`).
    pub fn update_scoped(&mut self, entity_id: &str, subscription_id: &str, spec: CyclicSpec) -> (r: Result<CyclicSubscription, ApiError>)
        requires
            old(self).wf(),
        ensures
            final(self).wf(),
            final(self).spec_next() == old(self).spec_next(),
            match find_sub(old(self).spec_subs(), subscription_id@) {
                Some(s) if s.entity_id == entity_id@ => r matches Ok(out) && out@ == (CyclicView {
                    data_path: opt_view(spec.data_path),
                    interval_ms: spec_interval(spec),
                    ..s
                }) && final(self).spec_subs() == old(self).spec_subs().update(
                    sub_index(old(self).spec_subs(), subscription_id@),
                    out@,
                ),
                _ => r matches Err(ApiError::NotFound(g)) && is_subscription_not_found(g, subscription_id@)
                    && final(self).spec_subs() == old(self).spec_subs(),
            },
    {
        let ghost before = self.spec_subs();
        match self.scoped_subscription(entity_id, subscription_id) {
            Err(e) => Err(e),
            Ok(_) => {
                let ghost dp = opt_view(spec.data_path);
                let ghost iv = spec_interval(spec);
                match self.update(subscription_id, spec) {
                    Some(s) => {
                        proof {
                            let i = choose|i: int| 0 <= i < before.len() && #[trigger] before[i].id == subscription_id@
                                && s@ == (CyclicView { data_path: dp, interval_ms: iv, ..before[i] })
                                && self.spec_subs() == before.update(i, s@);
                            lemma_find_sub_at(before, i);
                        }
                        Ok(s)
                    },
                    None => {
                        proof {
                            lemma_find_sub_none(before, subscription_id@);
                        }
                        Err(ApiError::NotFound(subscription_not_found(subscription_id)))
                    },
                }
            },
        }
    }

    /// Drop a subscription pinned to `entity_id`.
    pub fn delete_scoped(&mut self, entity_id: &str, subscription_id: &str) -> (r: Result<(), ApiError>)
        requires
            old(self).wf(),
        ensures
            final(self).wf(),
            final(self).spec_next() == old(self).spec_next(),
            match find_sub(old(self).spec_subs(), subscription_id@) {
                Some(s) if s.entity_id == entity_id@ => r is Ok && final(self).spec_subs() == without_id(old(self).spec_subs(), subscription_id@),
                _ => r matches Err(ApiError::NotFound(g)) && is_subscription_not_found(g, subscription_id@)
                    && final(self).spec_subs() == old(self).spec_subs(),
            },
    {
        match self.scoped_subscription(entity_id, subscription_id) {
            Err(e) => Err(e),
            Ok(_) => {
                self.remove(subscription_id);
                Ok(())
            },
        }
    }
}

/// An empty registry.
impl Default for CyclicStore {
    fn default() -> (r: CyclicStore)
        ensures
            r.wf(),
            r.spec_next() == 0,
            r.spec_subs() == Seq::<CyclicView>::empty(),
    {
        CyclicStore::new()
    }
}

/// Whether `g` is the `cyclic-subscription-not-found` error for `id`.
pub open spec fn is_subscription_not_found(g: GenericError, id: Seq<char>) -> bool {
    &&& g.error_code@ == "cyclic-subscription-not-found"@
    &&& g.message@ == "Cyclic subscription not found"@
    &&& g.parameters@.len() == 1
    &&& g.parameters@[0].0@ == "subscription_id"@
    &&& g.parameters@[0].1@ == id
}

/// The `cyclic-subscription-not-found` error for `id`.
pub fn subscription_not_found(id: &str) -> (r: GenericError)
    ensures
        is_subscription_not_found(r, id@),
{
    let mut parameters: Vec<(String, String)> = Vec::new();
    parameters.push((owned("subscription_id"), owned(id)));
    GenericError {
        error_code: owned("cyclic-subscription-not-found"),
        message: owned("Cyclic subscription not found"),
        parameters,
    }
}

/// A created subscription is found again under its id.
pub proof fn law_created_is_found(before: CyclicStore, after: CyclicStore, created: CyclicView)
    requires
        after.wf(),
        after.spec_subs() == before.spec_subs().push(created),
    ensures
        find_sub(after.spec_subs(), created.id) == Some(created),
{
    let subs = after.spec_subs();
    let i = subs.len() - 1;
    assert(subs[i] == created);
    lemma_find_sub_at(subs, i);
}

/// A removed subscription is not found any more.
pub proof fn law_removed_is_gone(subs: Seq<CyclicView>, id: Seq<char>)
    ensures
        find_sub(without_id(subs, id), id) is None,
{
    lemma_without_id(subs, id);
    lemma_find_sub_none(without_id(subs, id), id);
}

/// The entity-scoped list holds only subscriptions pinned to that entity.
pub proof fn law_list_is_scoped(subs: Seq<CyclicView>, entity_id: Seq<char>)
    ensures
        forall|i: int| 0 <= i < for_entity(subs, entity_id).len() ==> #[trigger] for_entity(subs, entity_id)[i].entity_id == entity_id,
    decreases subs.len(),
{
    if subs.len() > 0 {
        law_list_is_scoped(subs.drop_last(), entity_id);
        let f = for_entity(subs.drop_last(), entity_id);
        if subs.last().entity_id == entity_id {
            assert forall|i: int| 0 <= i < f.push(subs.last()).len() implies #[trigger] f.push(subs.last())[i].entity_id == entity_id by {
                if i < f.len() {
                    assert(f.push(subs.last())[i] == f[i]);
                }
            }
        }
    }
}

} // verus!
