//! The transport-neutral read core: the entity tree, fault lists and the
//! worst-wins health rollup over any [`Provider`].
//!
//! The entity tree is given by the entities' `parent_id` links: an entity whose
//! parent id is `p` is a child of every entity with id `p`. The rolled-up
//! health of an id is the worst directly-observed health over the id itself and
//! every id that descends from it.

use vstd::prelude::*;
use vstd::set_lib::{lemma_int_range, lemma_len_subset, set_int_range};
use crate::manifest::opt_string_view;
use crate::model::{same_faults, Collection, Entity, FaultSummary, Health, health_rank};
use crate::provider::Provider;

verus! {

/// `child` is the id of an entity whose parent id is `parent`.
pub open spec fn child_link(es: Seq<Entity>, parent: Seq<char>, child: Seq<char>) -> bool {
    exists|j: int|
        0 <= j < es.len() && #[trigger] es[j].id@ == child && opt_string_view(es[j].parent_id)
            == Some(parent)
}

/// `path` is a non-empty chain of ids, each a child of the one before.
pub open spec fn is_chain(es: Seq<Entity>, path: Seq<Seq<char>>) -> bool {
    &&& path.len() >= 1
    &&& forall|k: int| 0 <= k < path.len() - 1 ==> #[trigger] child_link(es, path[k], path[k + 1])
}

/// `b` is `a` itself or descends from it through child links.
pub open spec fn descends(es: Seq<Entity>, a: Seq<char>, b: Seq<char>) -> bool {
    exists|path: Seq<Seq<char>>| #[trigger] is_chain(es, path) && path[0] == a && path.last() == b
}

/// `r` is the worst health `health` gives over `id` and its descendants: no
/// such id is worse than `r`, and one of them has exactly `r`.
pub open spec fn is_worst_over(
    es: Seq<Entity>,
    health: spec_fn(Seq<char>) -> Health,
    id: Seq<char>,
    r: Health,
) -> bool {
    &&& forall|x: Seq<char>| #[trigger] descends(es, id, x) ==> health_rank(health(x)) <= health_rank(r)
    &&& exists|x: Seq<char>| #[trigger] descends(es, id, x) && health(x) == r
}

/// Every id descends from itself.
pub proof fn lemma_descends_refl(es: Seq<Entity>, a: Seq<char>)
    ensures
        descends(es, a, a),
{
    let path = seq![a];
    assert(is_chain(es, path));
    assert(path.last() == a);
}

/// Following one more child link keeps descending.
pub proof fn lemma_descends_step(es: Seq<Entity>, a: Seq<char>, b: Seq<char>, c: Seq<char>)
    requires
        descends(es, a, b),
        child_link(es, b, c),
    ensures
        descends(es, a, c),
{
    let path = choose|path: Seq<Seq<char>>| #[trigger] is_chain(es, path) && path[0] == a && path.last() == b;
    let p2 = path.push(c);
    assert forall|k: int| 0 <= k < p2.len() - 1 implies #[trigger] child_link(es, p2[k], p2[k + 1]) by {
        if k < path.len() - 1 {
            assert(p2[k] == path[k] && p2[k + 1] == path[k + 1]);
        } else {
            assert(p2[k] == b && p2[k + 1] == c);
        }
    }
    assert(is_chain(es, p2));
    assert(p2[0] == a && p2.last() == c);
}

/// Descent is transitive: an ancestor's descendants include its descendants'
/// descendants.
pub proof fn lemma_descends_trans(es: Seq<Entity>, a: Seq<char>, b: Seq<char>, c: Seq<char>)
    requires
        descends(es, a, b),
        descends(es, b, c),
    ensures
        descends(es, a, c),
{
    let p1 = choose|path: Seq<Seq<char>>| #[trigger] is_chain(es, path) && path[0] == a && path.last() == b;
    let p2 = choose|path: Seq<Seq<char>>| #[trigger] is_chain(es, path) && path[0] == b && path.last() == c;
    let p = p1 + p2.skip(1);
    assert forall|k: int| 0 <= k < p.len() - 1 implies #[trigger] child_link(es, p[k], p[k + 1]) by {
        if k < p1.len() - 1 {
            assert(p[k] == p1[k] && p[k + 1] == p1[k + 1]);
        } else if k == p1.len() - 1 {
            assert(p[k] == b && p[k + 1] == p2[1]);
            assert(child_link(es, p2[0], p2[1]));
        } else {
            let t = k - p1.len() + 1;
            assert(p[k] == p2[t] && p[k + 1] == p2[t + 1]);
        }
    }
    assert(is_chain(es, p));
    if p2.len() == 1 {
        assert(p.last() == b);
    } else {
        assert(p.last() == p2.last());
    }
}

/// An entity with no children rolls up over itself alone.
pub proof fn law_childless_rolls_up_alone(es: Seq<Entity>, a: Seq<char>, x: Seq<char>)
    requires
        forall|c: Seq<char>| !#[trigger] child_link(es, a, c),
    ensures
        descends(es, a, x) <==> x == a,
{
    if descends(es, a, x) {
        let path = choose|path: Seq<Seq<char>>| #[trigger] is_chain(es, path) && path[0] == a && path.last() == x;
        if path.len() > 1 {
            let k: int = 0;
            assert(child_link(es, path[k], path[k + 1]));
        }
    }
    if x == a {
        lemma_descends_refl(es, a);
    }
}

/// Worst-wins is monotone up the tree: an ancestor's rolled-up health is never
/// better than a descendant's.
pub proof fn law_ancestor_dominates(
    es: Seq<Entity>,
    health: spec_fn(Seq<char>) -> Health,
    a: Seq<char>,
    b: Seq<char>,
    ra: Health,
    rb: Health,
)
    requires
        descends(es, a, b),
        is_worst_over(es, health, a, ra),
        is_worst_over(es, health, b, rb),
    ensures
        health_rank(rb) <= health_rank(ra),
{
    let x = choose|x: Seq<char>| #[trigger] descends(es, b, x) && health(x) == rb;
    lemma_descends_trans(es, a, b, x);
}

/// A duplicate-free sequence of indices below `n` holds at most `n` of them.
proof fn lemma_distinct_bounded(s: Seq<usize>, n: nat)
    requires
        s.no_duplicates(),
        forall|m: int| 0 <= m < s.len() ==> s[m] < n,
    ensures
        s.len() <= n,
{
    let t = s.map_values(|x: usize| x as int);
    assert(t.no_duplicates()) by {
        assert forall|i: int, j: int| 0 <= i < t.len() && 0 <= j < t.len() && i != j implies t[i]
            != t[j] by {
            assert(s[i] != s[j]);
        }
    }
    t.unique_seq_to_set();
    lemma_int_range(0, n as int);
    assert forall|v: int| t.to_set().contains(v) implies set_int_range(0, n as int).contains(v) by {
        let i = choose|i: int| 0 <= i < t.len() && t[i] == v;
        assert(s[i] < n);
    }
    lemma_len_subset(t.to_set(), set_int_range(0, n as int));
}

/// The marks and the visit order agree: `order` lists, once each, exactly the
/// marked entity indices.
spec fn consistent(marked: Seq<bool>, order: Seq<usize>, n: nat) -> bool {
    &&& marked.len() == n
    &&& order.no_duplicates()
    &&& forall|m: int| 0 <= m < order.len() ==> #[trigger] order[m] < n && marked[order[m] as int]
    &&& forall|j: int| 0 <= j < n && #[trigger] marked[j] ==> exists|m: int| 0 <= m < order.len() && order[m] == j
}

/// The parent id of entity `j`.
spec fn parent_of_index(es: Seq<Entity>, j: int) -> Option<Seq<char>> {
    opt_string_view(es[j].parent_id)
}

/// Mark and append every not-yet-marked entity whose parent is `parent`.
fn enqueue_children(es: &Vec<Entity>, parent: &str, marked: &mut Vec<bool>, order: &mut Vec<usize>)
    requires
        consistent(old(marked)@, old(order)@, es@.len()),
    ensures
        consistent(final(marked)@, final(order)@, es@.len()),
        final(order)@.len() >= old(order)@.len(),
        final(order)@.subrange(0, old(order)@.len() as int) == old(order)@,
        forall|m: int|
            old(order)@.len() <= m < final(order)@.len() ==> parent_of_index(es@, #[trigger] final(order)@[m] as int)
                == Some(parent@),
        forall|j: int|
            0 <= j < es@.len() && parent_of_index(es@, j) == Some(parent@) ==> #[trigger] final(marked)@[j],
        forall|j: int| 0 <= j < es@.len() && #[trigger] old(marked)@[j] ==> final(marked)@[j],
{
    let n = es.len();
    let ghost order0 = order@;
    let ghost marked0 = marked@;
    let mut j: usize = 0;
    while j < n
        invariant
            n == es@.len(),
            consistent(marked@, order@, n as nat),
            order@.len() >= order0.len(),
            order@.subrange(0, order0.len() as int) == order0,
            forall|m: int|
                order0.len() <= m < order@.len() ==> parent_of_index(es@, #[trigger] order@[m] as int)
                    == Some(parent@),
            forall|i: int|
                0 <= i < j && parent_of_index(es@, i) == Some(parent@) ==> #[trigger] marked@[i],
            forall|i: int| 0 <= i < n && #[trigger] marked0[i] ==> marked@[i],
            j <= n,
        decreases n - j,
    {
        let is_child = match &es[j].parent_id {
            Some(p) => crate::text::str_eq(p.as_str(), parent),
            None => false,
        };
        if is_child && !marked[j] {
            let ghost m0 = marked@;
            let ghost o0 = order@;
            marked.set(j, true);
            order.push(j);
            proof {
                assert forall|m: int| 0 <= m < order@.len() implies #[trigger] order@[m] < n
                    && marked@[order@[m] as int] by {
                    if m < o0.len() {
                        assert(order@[m] == o0[m]);
                    }
                }
                assert forall|i: int| 0 <= i < n && #[trigger] marked@[i] implies exists|m: int|
                    0 <= m < order@.len() && order@[m] == i by {
                    if i == j {
                        assert(order@[o0.len() as int] == j);
                    } else {
                        assert(m0[i]);
                        let m = choose|m: int| 0 <= m < o0.len() && o0[m] == i;
                        assert(order@[m] == o0[m]);
                    }
                }
                assert forall|a: int, b: int| 0 <= a < order@.len() && 0 <= b < order@.len() && a != b
                    implies order@[a] != order@[b] by {
                    if a < o0.len() && b < o0.len() {
                        assert(order@[a] == o0[a] && order@[b] == o0[b]);
                    } else if a < o0.len() {
                        assert(order@[a] == o0[a]);
                        assert(m0[o0[a] as int]);
                    } else if b < o0.len() {
                        assert(order@[b] == o0[b]);
                        assert(m0[o0[b] as int]);
                    }
                }
                assert(order@.subrange(0, order0.len() as int) =~= o0.subrange(0, order0.len() as int));
                assert forall|m: int| order0.len() <= m < order@.len() implies parent_of_index(
                    es@,
                    #[trigger] order@[m] as int,
                ) == Some(parent@) by {
                    if m < o0.len() {
                        assert(order@[m] == o0[m]);
                    }
                }
            }
        }
        j = j + 1;
    }
}

/// The transport-neutral read-diagnostic core.
#[derive(Clone, Debug)]
pub struct Gateway<P> {
    provider: P,
}

impl<P: Provider> Gateway<P> {
    /// The provider this gateway reads through.
    pub closed spec fn spec_provider(&self) -> P {
        self.provider
    }

    /// Build a gateway reading through `provider`.
    pub fn new(provider: P) -> (r: Gateway<P>)
        ensures
            r.spec_provider() == provider,
    {
        Gateway { provider }
    }

    /// Borrow the underlying provider.
    pub fn provider(&self) -> (r: &P)
        ensures
            *r == self.spec_provider(),
    {
        &self.provider
    }

    /// The full entity tree, as a collection envelope.
    pub fn entities(&self) -> (r: Collection<Entity>)
        ensures
            r.items@ == self.spec_provider().spec_entities(),
            r.links is None,
            r.x_medkit.total_count == self.spec_provider().spec_entities().len(),
    {
        Collection::new(self.provider.entities())
    }

    /// The active faults for `entity_id`, as a collection envelope.
    pub fn faults(&self, entity_id: &str) -> (r: Collection<FaultSummary>)
        ensures
            same_faults(r.items@, self.spec_provider().spec_faults(entity_id@)),
            r.links is None,
            r.x_medkit.total_count == self.spec_provider().spec_faults(entity_id@).len(),
    {
        Collection::new(self.provider.faults(entity_id))
    }

    /// The worst-wins aggregated health of `entity_id`: the worst of its own
    /// directly-observed health and that of every descendant.
    ///
    /// An entity with no children rolls up to its own health; an unknown entity
    /// rolls up to its directly-observed health, [`Health::Okay`] for a provider
    /// that knows nothing of it.
    pub fn rolled_up_health(&self, entity_id: &str) -> (r: Health)
        ensures
            is_worst_over(
                self.spec_provider().spec_entities(),
                |x: Seq<char>| self.spec_provider().spec_health(x),
                entity_id@,
                r,
            ),
    {
        let es = self.provider.entities();
        let n = es.len();
        let ghost esv = es@;
        let ghost root = entity_id@;
        let mut marked: Vec<bool> = Vec::new();
        let mut i: usize = 0;
        while i < n
            invariant
                i <= n,
                marked@.len() == i,
                forall|k: int| 0 <= k < i ==> !#[trigger] marked@[k],
            decreases n - i,
        {
            marked.push(false);
            i = i + 1;
        }
        let mut order: Vec<usize> = Vec::new();
        let mut worst = self.provider.health(entity_id);
        proof {
            lemma_descends_refl(esv, root);
        }
        enqueue_children(&es, entity_id, &mut marked, &mut order);
        proof {
            assert forall|m: int| 0 <= m < order@.len() implies descends(esv, root, #[trigger] esv[order@[m] as int].id@) by {
                let j = order@[m] as int;
                assert(child_link(esv, root, esv[j].id@));
                lemma_descends_step(esv, root, root, esv[j].id@);
            }
            lemma_distinct_bounded(order@, n as nat);
        }
        let mut k: usize = 0;
        while k < order.len()
            invariant
                n == es@.len(),
                esv == es@,
                esv == self.provider.spec_entities(),
                consistent(marked@, order@, n as nat),
                k <= order@.len() <= n,
                forall|j: int|
                    0 <= j < n && parent_of_index(esv, j) == Some(root) ==> #[trigger] marked@[j],
                forall|m: int, j: int|
                    0 <= m < k && 0 <= j < n && parent_of_index(esv, j) == Some(
                        esv[#[trigger] order@[m] as int].id@,
                    ) ==> #[trigger] marked@[j],
                forall|m: int| 0 <= m < order@.len() ==> descends(esv, root, #[trigger] esv[order@[m] as int].id@),
                health_rank(self.provider.spec_health(root)) <= health_rank(worst),
                forall|m: int| 0 <= m < k ==> health_rank(self.provider.spec_health(#[trigger] esv[order@[m] as int].id@)) <= health_rank(worst),
                worst == self.provider.spec_health(root) || exists|m: int| 0 <= m < k && worst == self.provider.spec_health(#[trigger] esv[order@[m] as int].id@),
            decreases 2 * n - order@.len() - k,
        {
            let j = order[k];
            let h = self.provider.health(es[j].id.as_str());
            let ghost w0 = worst;
            proof {
                assert(h == self.provider.spec_health(esv[j as int].id@));
                assert(j == order@[k as int]);
            }
            worst = worst.worst(h);
            let ghost o0 = order@;
            let ghost m0 = marked@;
            enqueue_children(&es, es[j].id.as_str(), &mut marked, &mut order);
            proof {
                assert forall|m: int| 0 <= m < order@.len() implies descends(esv, root, #[trigger] esv[order@[m] as int].id@) by {
                    if m < o0.len() {
                        assert(order@[m] == o0[m]);
                    } else {
                        let c = order@[m] as int;
                        assert(child_link(esv, esv[j as int].id@, esv[c].id@));
                        lemma_descends_step(esv, root, esv[j as int].id@, esv[c].id@);
                    }
                }
                assert forall|m: int| 0 <= m < o0.len() implies order@[m] == o0[m] by {
                    assert(order@.subrange(0, o0.len() as int)[m] == o0[m]);
                }
                assert(order@[k as int] == j);
                assert forall|i: int|
                    0 <= i < n && parent_of_index(esv, i) == Some(root) implies #[trigger] marked@[i] by {
                    assert(m0[i]);
                }
                assert forall|m: int, i: int|
                    0 <= m < k + 1 && 0 <= i < n && parent_of_index(esv, i) == Some(
                        esv[#[trigger] order@[m] as int].id@,
                    ) implies #[trigger] marked@[i] by {
                    assert(order@[m] == o0[m]);
                    if m < k {
                        assert(m0[i]);
                    }
                }
                assert forall|m: int| 0 <= m < k + 1 implies health_rank(self.provider.spec_health(#[trigger] esv[order@[m] as int].id@)) <= health_rank(worst) by {
                    assert(order@[m] == o0[m]);
                    if m < k {
                        assert(health_rank(self.provider.spec_health(esv[o0[m] as int].id@)) <= health_rank(w0));
                    } else {
                        assert(o0[m] == j);
                    }
                }
                if worst != self.provider.spec_health(root) {
                    if worst == h {
                        assert(order@[k as int] == j);
                        assert(worst == self.provider.spec_health(esv[order@[k as int] as int].id@));
                    } else {
                        assert(w0 != self.provider.spec_health(root));
                        let m = choose|m: int| 0 <= m < k && w0 == self.provider.spec_health(#[trigger] esv[o0[m] as int].id@);
                        assert(order@[m] == o0[m]);
                        assert(worst == self.provider.spec_health(esv[order@[m] as int].id@));
                    }
                }
                lemma_distinct_bounded(order@, n as nat);
            }
            k = k + 1;
        }
        proof {
            assert forall|x: Seq<char>| #[trigger] descends(esv, root, x) implies health_rank(self.provider.spec_health(x))
                <= health_rank(worst) by {
                let path = choose|path: Seq<Seq<char>>| #[trigger] is_chain(esv, path) && path[0] == root && path.last() == x;
                if path.len() > 1 {
                    lemma_chain_done(esv, order@, marked@, root, path, path.len() - 1);
                }
            }
            if worst != self.provider.spec_health(root) {
                let m = choose|m: int| 0 <= m < k && worst == self.provider.spec_health(#[trigger] esv[order@[m] as int].id@);
                assert(descends(esv, root, esv[order@[m] as int].id@));
            } else {
                assert(descends(esv, root, root));
            }
        }
        worst
    }
}

/// Once every visited id has had its children marked, every id on a chain from
/// the root past the root itself is the id of a visited entity.
proof fn lemma_chain_done(
    es: Seq<Entity>,
    order: Seq<usize>,
    marked: Seq<bool>,
    root: Seq<char>,
    path: Seq<Seq<char>>,
    t: int,
)
    requires
        consistent(marked, order, es.len()),
        forall|j: int| 0 <= j < es.len() && parent_of_index(es, j) == Some(root) ==> #[trigger] marked[j],
        forall|m: int, j: int|
            0 <= m < order.len() && 0 <= j < es.len() && parent_of_index(es, j) == Some(
                es[#[trigger] order[m] as int].id@,
            ) ==> #[trigger] marked[j],
        is_chain(es, path),
        path[0] == root,
        1 <= t < path.len(),
    ensures
        exists|m: int| 0 <= m < order.len() && #[trigger] es[order[m] as int].id@ == path[t],
    decreases t,
{
    let k = t - 1;
    assert(child_link(es, path[k], path[k + 1]));
    assert(path[k + 1] == path[t]);
    let j = choose|j: int|
        0 <= j < es.len() && #[trigger] es[j].id@ == path[t] && opt_string_view(es[j].parent_id) == Some(path[t - 1]);
    if t == 1 {
        assert(marked[j]);
    } else {
        lemma_chain_done(es, order, marked, root, path, t - 1);
        let m = choose|m: int| 0 <= m < order.len() && #[trigger] es[order[m] as int].id@ == path[t - 1];
        assert(parent_of_index(es, j) == Some(es[order[m] as int].id@));
        assert(marked[j]);
    }
    let m2 = choose|m: int| 0 <= m < order.len() && order[m] == j;
    assert(es[order[m2] as int].id@ == path[t]);
}

} // verus!
