//! The per-cycle tick order of a coupled axis group: a topological order of
//! the declared master -> slave edges, so every master ticks before its slaves
//! and a slave reads its master's commanded state of the same cycle; and each
//! slave's direct master.
//!
//! Self-edges are ignored. When the declared edges hold a cycle no such order
//! exists and the identity order is used instead.

use vstd::prelude::*;
use vstd::set_lib::{lemma_int_range, lemma_len_subset, set_int_range};
use crate::topology::{CouplingTopology, edge};

verus! {

/// A declared edge from `m` to a different axis `s`.
pub open spec fn master_edge(d: Seq<u64>, m: int, s: int) -> bool {
    m != s && edge(d, m, s)
}

/// `p` lists each of the axes `0..n` exactly once.
pub open spec fn is_perm(p: Seq<usize>, n: nat) -> bool {
    &&& p.len() == n
    &&& p.no_duplicates()
    &&& forall|i: int| 0 <= i < p.len() ==> #[trigger] p[i] < n
}

/// Every declared edge between different axes goes forward in `p`.
pub open spec fn forward(d: Seq<u64>, p: Seq<usize>) -> bool {
    forall|i: int, j: int|
        0 <= i < p.len() && 0 <= j < p.len() && #[trigger] master_edge(d, p[j] as int, p[i] as int) ==> j < i
}

/// The declared edges between different axes admit a topological order.
pub open spec fn acyclic(d: Seq<u64>, n: nat) -> bool {
    exists|p: Seq<usize>| #[trigger] is_perm(p, n) && forward(d, p)
}

/// The identity order of `n` axes.
pub open spec fn identity(n: nat) -> Seq<usize> {
    Seq::new(n, |i: int| i as usize)
}

/// Axis `x` is ready after the axes `prefix` have ticked: it has not ticked
/// yet, and every declared master of it has.
pub open spec fn ready(d: Seq<u64>, prefix: Seq<usize>, x: int) -> bool {
    &&& !prefix.contains(x as usize)
    &&& forall|m: int| #[trigger] master_edge(d, m, x) ==> prefix.contains(m as usize)
}

/// Axis `x` is the lowest-numbered axis ready after `prefix`.
pub open spec fn lowest_ready(d: Seq<u64>, prefix: Seq<usize>, x: int) -> bool {
    &&& ready(d, prefix, x)
    &&& forall|y: int| 0 <= y < x ==> !#[trigger] ready(d, prefix, y)
}

/// Every axis of `p` is the lowest-numbered one ready after those before it.
pub open spec fn takes_lowest_ready(d: Seq<u64>, p: Seq<usize>) -> bool {
    forall|k: int| 0 <= k < p.len() ==> #[trigger] lowest_ready(d, p.take(k), p[k] as int)
}

/// How many of the axes below `k`, other than `s` and not yet emitted, are
/// declared masters of `s`.
pub open spec fn pending_masters(d: Seq<u64>, emitted: Seq<bool>, s: int, k: int) -> nat
    decreases k,
{
    if k <= 0 {
        0
    } else {
        pending_masters(d, emitted, s, k - 1) + if !emitted[k - 1] && master_edge(d, k - 1, s) {
            1nat
        } else {
            0nat
        }
    }
}

/// A duplicate-free sequence of axes drawn from a finite set holds at most as
/// many axes as the set.
proof fn lemma_distinct_in_set(s: Seq<usize>, set: Set<int>)
    requires
        s.no_duplicates(),
        set.finite(),
        forall|i: int| 0 <= i < s.len() ==> set.contains(#[trigger] s[i] as int),
    ensures
        s.len() <= set.len(),
{
    let t = s.map_values(|x: usize| x as int);
    assert(t.no_duplicates()) by {
        assert forall|i: int, j: int| 0 <= i < t.len() && 0 <= j < t.len() && i != j implies t[i] != t[j] by {
            assert(s[i] != s[j]);
        }
    }
    t.unique_seq_to_set();
    assert forall|v: int| t.to_set().contains(v) implies set.contains(v) by {
        let i = choose|i: int| 0 <= i < t.len() && t[i] == v;
        assert(set.contains(s[i] as int));
    }
    lemma_len_subset(t.to_set(), set);
}

/// A duplicate-free sequence of `n` axes below `n` holds every axis below `n`.
proof fn lemma_perm_covers(p: Seq<usize>, n: nat, x: int)
    requires
        is_perm(p, n),
        0 <= x < n,
    ensures
        p.contains(x as usize),
{
    if !p.contains(x as usize) {
        lemma_int_range(0, n as int);
        let rest = set_int_range(0, n as int).remove(x);
        assert forall|i: int| 0 <= i < p.len() implies rest.contains(#[trigger] p[i] as int) by {
            if p[i] as int == x {
                assert(p.contains(x as usize));
            }
        }
        lemma_distinct_in_set(p, rest);
    }
}

/// A positive pending count has a witness master.
proof fn lemma_pending_witness(d: Seq<u64>, emitted: Seq<bool>, s: int, k: int)
    requires
        pending_masters(d, emitted, s, k) > 0,
    ensures
        exists|m: int| 0 <= m < k && !emitted[m] && #[trigger] master_edge(d, m, s),
    decreases k,
{
    if k > 0 {
        if !(!emitted[k - 1] && master_edge(d, k - 1, s)) {
            lemma_pending_witness(d, emitted, s, k - 1);
        }
    }
}

/// Emitting axis `m` removes it from every pending count it was part of.
proof fn lemma_pending_emit(d: Seq<u64>, emitted: Seq<bool>, m: int, s: int, k: int)
    requires
        0 <= m < emitted.len(),
        !emitted[m],
        0 <= k <= emitted.len(),
    ensures
        pending_masters(d, emitted.update(m, true), s, k) == pending_masters(d, emitted, s, k)
            - if m < k && master_edge(d, m, s) {
            1int
        } else {
            0int
        },
    decreases k,
{
    if k > 0 {
        lemma_pending_emit(d, emitted, m, s, k - 1);
    }
}

/// Pending counts stay below `k`.
proof fn lemma_pending_le(d: Seq<u64>, emitted: Seq<bool>, s: int, k: int)
    requires
        0 <= k,
    ensures
        pending_masters(d, emitted, s, k) <= k,
    decreases k,
{
    if k > 0 {
        lemma_pending_le(d, emitted, s, k - 1);
    }
}

/// When every axis still to emit has a pending master, no order puts every
/// declared edge forward.
proof fn lemma_stuck_has_no_order(d: Seq<u64>, emitted: Seq<bool>, n: nat, p: Seq<usize>)
    requires
        n <= usize::MAX,
        emitted.len() == n,
        exists|r: int| 0 <= r < n && !#[trigger] emitted[r],
        forall|r: int| 0 <= r < n && !#[trigger] emitted[r] ==> pending_masters(d, emitted, r, n as int) > 0,
        is_perm(p, n),
    ensures
        !forward(d, p),
{
    let r = choose|r: int| 0 <= r < n && !#[trigger] emitted[r];
    lemma_perm_covers(p, n, r);
    let jr = choose|j: int| 0 <= j < p.len() && p[j] == r as usize;
    assert(p[jr] as int == r);
    let j0 = lemma_first_pending(p, emitted, jr, 0);
    let r0 = p[j0] as int;
    lemma_pending_witness(d, emitted, r0, n as int);
    let m = choose|m: int| 0 <= m < n && !emitted[m] && #[trigger] master_edge(d, m, r0);
    lemma_perm_covers(p, n, m);
    let jm = choose|j: int| 0 <= j < p.len() && p[j] == m as usize;
    assert(p[jm] as int == m);
    assert(!emitted[p[jm] as int]);
    assert(jm >= j0);
    assert(jm != j0);
    assert(master_edge(d, p[jm] as int, p[j0] as int));
}

/// The first position from `j` on holding an axis still to emit, given one at
/// `jr`.
proof fn lemma_first_pending(p: Seq<usize>, emitted: Seq<bool>, jr: int, j: int) -> (j0: int)
    requires
        0 <= j <= jr < p.len(),
        forall|i: int| 0 <= i < p.len() ==> (p[i] as int) < emitted.len(),
        !emitted[p[jr] as int],
        forall|i: int| 0 <= i < j ==> emitted[#[trigger] p[i] as int],
    ensures
        0 <= j0 <= jr,
        !emitted[p[j0] as int],
        forall|i: int| 0 <= i < j0 ==> emitted[#[trigger] p[i] as int],
    decreases jr - j,
{
    if !emitted[p[j] as int] {
        j
    } else {
        lemma_first_pending(p, emitted, jr, j + 1)
    }
}

impl<const N: usize> CouplingTopology<N> {
    /// Each axis's direct master: the lowest other axis with a declared edge to
    /// it, if any.
    pub fn direct_masters(&self) -> (r: Vec<Option<usize>>)
        requires
            self.wf(),
        ensures
            r@.len() == N,
            forall|s: int|
                0 <= s < N ==> match #[trigger] r@[s] {
                    Some(m) => master_edge(self.declared_words(), m as int, s) && forall|k: int|
                        0 <= k < m ==> !master_edge(self.declared_words(), k, s),
                    None => forall|k: int| 0 <= k < N ==> !master_edge(self.declared_words(), k, s),
                },
    {
        proof {
            self.lemma_wf_lengths();
        }
        let ghost d = self.declared_words();
        let mut out: Vec<Option<usize>> = Vec::new();
        let mut s: usize = 0;
        while s < N
            invariant
                N <= 64,
                self.wf(),
                d == self.declared_words(),
                d.len() == N,
                s <= N,
                out@.len() == s,
                forall|t: int|
                    0 <= t < s ==> match #[trigger] out@[t] {
                        Some(m) => master_edge(d, m as int, t) && forall|k: int| 0 <= k < m ==> !master_edge(d, k, t),
                        None => forall|k: int| 0 <= k < N ==> !master_edge(d, k, t),
                    },
            decreases N - s,
        {
            let mut found: Option<usize> = None;
            let mut m: usize = 0;
            while m < N && found.is_none()
                invariant
                    N <= 64,
                    self.wf(),
                    d == self.declared_words(),
                    d.len() == N,
                    s < N,
                    m <= N,
                    forall|k: int| 0 <= k < m ==> !master_edge(d, k, s as int),
                    found matches Some(x) ==> x < N && master_edge(d, x as int, s as int) && forall|k: int|
                        0 <= k < x ==> !master_edge(d, k, s as int),
                decreases N - m, if found is None { 1int } else { 0int },
            {
                if m != s && self.declared_edge(m as u16, s as u16) {
                    found = Some(m);
                } else {
                    m = m + 1;
                }
            }
            out.push(found);
            s = s + 1;
        }
        out
    }

    /// The per-cycle tick order: a topological order of the declared edges
    /// between different axes, always taking the lowest-numbered ready axis
    /// next; the identity order when the declared edges hold a cycle.
    pub fn tick_order(&self) -> (r: Vec<usize>)
        requires
            self.wf(),
        ensures
            is_perm(r@, N as nat),
            acyclic(self.declared_words(), N as nat) ==> forward(self.declared_words(), r@),
            acyclic(self.declared_words(), N as nat) ==> takes_lowest_ready(self.declared_words(), r@),
            !acyclic(self.declared_words(), N as nat) ==> r@ == identity(N as nat),
    {
        proof {
            self.lemma_wf_lengths();
        }
        let ghost d = self.declared_words();
        let mut emitted: Vec<bool> = Vec::new();
        let mut in_degree: Vec<u8> = Vec::new();
        let mut s: usize = 0;
        while s < N
            invariant
                N <= 64,
                self.wf(),
                d == self.declared_words(),
                d.len() == N,
                s <= N,
                emitted@.len() == s,
                in_degree@.len() == s,
                forall|k: int| 0 <= k < s ==> !#[trigger] emitted@[k],
            decreases N - s,
        {
            emitted.push(false);
            in_degree.push(0);
            s = s + 1;
        }
        let ghost none = emitted@;
        let mut s: usize = 0;
        while s < N
            invariant
                N <= 64,
                self.wf(),
                d == self.declared_words(),
                d.len() == N,
                s <= N,
                emitted@ == none,
                none.len() == N,
                forall|k: int| 0 <= k < N ==> !#[trigger] none[k],
                in_degree@.len() == N,
                forall|t: int| 0 <= t < s ==> #[trigger] in_degree@[t] == pending_masters(d, none, t, N as int),
            decreases N - s,
        {
            let mut count: u8 = 0;
            let mut m: usize = 0;
            while m < N
                invariant
                    N <= 64,
                    self.wf(),
                    d == self.declared_words(),
                    d.len() == N,
                    s < N,
                    m <= N,
                    none.len() == N,
                    forall|k: int| 0 <= k < N ==> !#[trigger] none[k],
                    count == pending_masters(d, none, s as int, m as int),
                    count <= m,
                decreases N - m,
            {
                if m != s && self.declared_edge(m as u16, s as u16) {
                    count = count + 1;
                }
                m = m + 1;
            }
            in_degree.set(s, count);
            s = s + 1;
        }
        let mut order: Vec<usize> = Vec::new();
        let mut done = false;
        while !done
            invariant
                N <= 64,
                self.wf(),
                d == self.declared_words(),
                d.len() == N,
                emitted@.len() == N,
                in_degree@.len() == N,
                forall|t: int| 0 <= t < N && !emitted@[t] ==> #[trigger] in_degree@[t] == pending_masters(d, emitted@, t, N as int),
                order@.no_duplicates(),
                forall|i: int| 0 <= i < order@.len() ==> #[trigger] order@[i] < N && emitted@[order@[i] as int],
                forall|t: int| 0 <= t < N && #[trigger] emitted@[t] ==> order@.contains(t as usize),
                forall|i: int, j: int|
                    0 <= i < order@.len() && 0 <= j < N && #[trigger] master_edge(d, j, order@[i] as int) ==> exists|k: int|
                        0 <= k < i && order@[k] == j,
                done ==> forall|t: int| 0 <= t < N && !#[trigger] emitted@[t] ==> in_degree@[t] > 0,
                takes_lowest_ready(d, order@),
            decreases N - order@.len(), if done { 0int } else { 1int },
        {
            proof {
                lemma_int_range(0, N as int);
                lemma_distinct_in_set(order@, set_int_range(0, N as int));
            }
            let mut next: Option<usize> = None;
            let mut i: usize = 0;
            while i < N && next.is_none()
                invariant
                    N <= 64,
                    emitted@.len() == N,
                    in_degree@.len() == N,
                    i <= N,
                    forall|k: int| 0 <= k < i ==> emitted@[k] || in_degree@[k] > 0,
                    next matches Some(x) ==> x < N && !emitted@[x as int] && in_degree@[x as int] == 0 && x == i,
                decreases N - i, if next is None { 1int } else { 0int },
            {
                if !emitted[i] && in_degree[i] == 0 {
                    next = Some(i);
                } else {
                    i = i + 1;
                }
            }
            match next {
                None => {
                    done = true;
                },
                Some(m) => {
                    let ghost em0 = emitted@;
                    let ghost o0 = order@;
                    let ghost deg0 = in_degree@;
                    proof {
                        lemma_ready_iff(d, em0, o0, deg0, N as nat);
                        assert forall|y: int| 0 <= y < m implies !#[trigger] ready(d, o0, y) by {
                            assert(em0[y] || deg0[y] > 0);
                        }
                        assert(ready(d, o0, m as int));
                        assert(lowest_ready(d, o0, m as int));
                    }
                    emitted.set(m, true);
                    order.push(m);
                    proof {
                        assert(emitted@ == em0.update(m as int, true));
                        assert forall|j: int| 0 <= j < N && #[trigger] master_edge(d, j, m as int) implies exists|k: int|
                            0 <= k < o0.len() && o0[k] == j by {
                            if !em0[j] {
                                assert(pending_masters(d, em0, m as int, N as int) == 0);
                                lemma_pending_zero(d, em0, m as int, N as int, j);
                            }
                            assert(em0[j]);
                            assert(o0.contains(j as usize));
                        }
                    }
                    let mut t: usize = 0;
                    while t < N
                        invariant
                            N <= 64,
                            self.wf(),
                            d == self.declared_words(),
                            d.len() == N,
                            m < N,
                            t <= N,
                            emitted@.len() == N,
                            in_degree@.len() == N,
                            emitted@ == em0.update(m as int, true),
                            em0.len() == N,
                            !em0[m as int],
                            forall|u: int| 0 <= u < N && !em0[u] ==> #[trigger] deg0[u] == pending_masters(d, em0, u, N as int),
                            forall|u: int| 0 <= u < t && !emitted@[u] ==> #[trigger] in_degree@[u] == pending_masters(d, emitted@, u, N as int),
                            forall|u: int| t <= u < N ==> #[trigger] in_degree@[u] == deg0[u],
                        decreases N - t,
                    {
                        proof {
                            lemma_pending_emit(d, em0, m as int, t as int, N as int);
                        }
                        if self.declared_edge(m as u16, t as u16) && !emitted[t] {
                            proof {
                                assert(master_edge(d, m as int, t as int));
                                assert(in_degree@[t as int] == pending_masters(d, em0, t as int, N as int));
                            }
                            let dg = in_degree[t];
                            in_degree.set(t, dg - 1);
                        }
                        t = t + 1;
                    }
                    proof {
                        let o = order@;
                        assert(o == o0.push(m));
                        assert forall|a: int, b: int| 0 <= a < o.len() && 0 <= b < o.len() && a != b implies o[a] != o[b] by {
                            if a < o0.len() && b < o0.len() {
                                assert(o[a] == o0[a] && o[b] == o0[b]);
                            } else if a < o0.len() {
                                assert(em0[o0[a] as int]);
                            } else if b < o0.len() {
                                assert(em0[o0[b] as int]);
                            }
                        }
                        assert forall|k: int| 0 <= k < o.len() implies #[trigger] o[k] < N && emitted@[o[k] as int] by {
                            if k < o0.len() {
                                assert(o[k] == o0[k]);
                            }
                        }
                        assert forall|u: int| 0 <= u < N && #[trigger] emitted@[u] implies o.contains(u as usize) by {
                            if u == m {
                                assert(o[o0.len() as int] == m);
                            } else {
                                assert(em0[u]);
                                let k = choose|k: int| 0 <= k < o0.len() && o0[k] == u as usize;
                                assert(o[k] == o0[k]);
                            }
                        }
                        assert forall|a: int, j: int|
                            0 <= a < o.len() && 0 <= j < N && #[trigger] master_edge(d, j, o[a] as int) implies exists|k: int|
                                0 <= k < a && o[k] == j by {
                            if a < o0.len() {
                                assert(o[a] == o0[a]);
                                let k = choose|k: int| 0 <= k < a && o0[k] == j;
                                assert(o[k] == o0[k]);
                            } else {
                                let k = choose|k: int| 0 <= k < o0.len() && o0[k] == j;
                                assert(o[k] == o0[k]);
                            }
                        }
                        assert forall|k: int| 0 <= k < o.len() implies #[trigger] lowest_ready(d, o.take(k), o[k] as int) by {
                            if k < o0.len() {
                                assert(o.take(k) =~= o0.take(k));
                                assert(o[k] == o0[k]);
                            } else {
                                assert(o.take(k) =~= o0);
                            }
                        }
                        lemma_int_range(0, N as int);
                        assert forall|k: int| 0 <= k < o.len() implies set_int_range(0, N as int).contains(#[trigger] o[k] as int) by {}
                        lemma_distinct_in_set(o, set_int_range(0, N as int));
                    }
                },
            }
        }
        proof {
            lemma_int_range(0, N as int);
            lemma_distinct_in_set(order@, set_int_range(0, N as int));
        }
        if order.len() == N {
            proof {
                assert(is_perm(order@, N as nat));
                assert forall|i: int, j: int|
                    0 <= i < order@.len() && 0 <= j < order@.len() && #[trigger] master_edge(d, order@[j] as int, order@[i] as int) implies j < i by {
                    let k = choose|k: int| 0 <= k < i && order@[k] == order@[j];
                    assert(k == j);
                }
                assert(acyclic(d, N as nat));
            }
            order
        } else {
            proof {
                assert forall|t: int| 0 <= t < N && !#[trigger] emitted@[t] implies pending_masters(d, emitted@, t, N as int) > 0 by {
                    assert(in_degree@[t] > 0);
                }
                let missing = choose|t: int| 0 <= t < N && !emitted@[t];
                if forall|t: int| 0 <= t < N ==> #[trigger] emitted@[t] {
                    assert forall|t: int| 0 <= t < N implies #[trigger] order@.contains(t as usize) by {
                        assert(emitted@[t]);
                    }
                    lemma_covered_len(order@, N as nat);
                }
                assert forall|p: Seq<usize>| #[trigger] is_perm(p, N as nat) implies !forward(d, p) by {
                    lemma_stuck_has_no_order(d, emitted@, N as nat, p);
                }
            }
            let mut id: Vec<usize> = Vec::new();
            let mut i: usize = 0;
            while i < N
                invariant
                    i <= N,
                    id@.len() == i,
                    forall|k: int| 0 <= k < i ==> #[trigger] id@[k] == k as usize,
                decreases N - i,
            {
                id.push(i);
                i = i + 1;
            }
            proof {
                assert(id@ =~= identity(N as nat));
                assert(is_perm(id@, N as nat)) by {
                    assert forall|a: int, b: int| 0 <= a < id@.len() && 0 <= b < id@.len() && a != b implies id@[a] != id@[b] by {}
                }
            }
            id
        }
    }
}

/// A zero pending count has no pending master.
/// Before an emission, an axis is ready exactly when it is not emitted and
/// has no pending master.
proof fn lemma_ready_iff(d: Seq<u64>, emitted: Seq<bool>, order: Seq<usize>, deg: Seq<u8>, n: nat)
    requires
        n <= 64,
        d.len() == n,
        emitted.len() == n,
        deg.len() == n,
        forall|t: int| 0 <= t < n && !emitted[t] ==> #[trigger] deg[t] == pending_masters(d, emitted, t, n as int),
        forall|i: int| 0 <= i < order.len() ==> #[trigger] order[i] < n && emitted[order[i] as int],
        forall|t: int| 0 <= t < n && #[trigger] emitted[t] ==> order.contains(t as usize),
    ensures
        forall|x: int| 0 <= x < n ==> (#[trigger] ready(d, order, x) <==> (!emitted[x] && deg[x] == 0)),
{
    assert forall|x: int| 0 <= x < n implies (#[trigger] ready(d, order, x) <==> (!emitted[x] && deg[x] == 0)) by {
        assert((x as usize) as int == x);
        if order.contains(x as usize) {
            let i = choose|i: int| 0 <= i < order.len() && order[i] == x as usize;
            assert(emitted[order[i] as int]);
            assert(emitted[x]);
        }
        if emitted[x] {
            assert(order.contains(x as usize));
            assert(!ready(d, order, x));
        }
        if !emitted[x] && deg[x] == 0 {
            assert forall|m: int| #[trigger] master_edge(d, m, x) implies order.contains(m as usize) by {
                if !emitted[m] {
                    lemma_pending_zero(d, emitted, x, n as int, m);
                }
                assert(order.contains(m as usize));
            }
        }
        if !emitted[x] && deg[x] > 0 {
            lemma_pending_witness(d, emitted, x, n as int);
            let m = choose|m: int| 0 <= m < n && !emitted[m] && #[trigger] master_edge(d, m, x);
            assert((m as usize) as int == m);
            if order.contains(m as usize) {
                let i = choose|i: int| 0 <= i < order.len() && order[i] == m as usize;
                assert(emitted[order[i] as int]);
            }
            assert(!ready(d, order, x));
        }
    }
}

proof fn lemma_pending_zero(d: Seq<u64>, emitted: Seq<bool>, s: int, k: int, j: int)
    requires
        pending_masters(d, emitted, s, k) == 0,
        0 <= j < k,
        !emitted[j],
    ensures
        !master_edge(d, j, s),
    decreases k,
{
    if j < k - 1 {
        lemma_pending_zero(d, emitted, s, k - 1, j);
    }
}

/// A duplicate-free sequence holding every axis below `n` has at least `n`
/// entries.
proof fn lemma_covered_len(p: Seq<usize>, n: nat)
    requires
        n <= usize::MAX,
        forall|t: int| 0 <= t < n ==> #[trigger] p.contains(t as usize),
    ensures
        p.len() >= n,
{
    let t = p.map_values(|x: usize| x as int);
    lemma_int_range(0, n as int);
    assert forall|v: int| set_int_range(0, n as int).contains(v) implies t.to_set().contains(v) by {
        assert(p.contains(v as usize));
        let i = choose|i: int| 0 <= i < p.len() && p[i] == v as usize;
        assert(t[i] == v);
    }
    lemma_len_subset(set_int_range(0, n as int), t.to_set());
    t.lemma_cardinality_of_set();
}

} // verus!
