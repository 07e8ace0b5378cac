//! Static coupling graph between the axes of a group. The topology is declared
//! up front, the transitive downstream set of every axis is precomputed, and
//! fault propagation walks the currently engaged edges only.
//!
//! Cycles are tolerated: both the precompute fixpoint and the engaged walk
//! terminate on any graph.

use vstd::prelude::*;
use vstd::std_specs::bits::u64_trailing_zeros;
use crate::bitset::{
    bits_below, bits_to_vec, has_bit, is_subset, lemma_and_not_bit, lemma_lowest_bit, lemma_or_bit,
    lemma_single_bit, lemma_subset_bit, lemma_subset_le, lemma_subset_or, lemma_subset_refl,
    lemma_subset_trans, lemma_zero_has_no_bit,
};

verus! {

/// `d[m]` has bit `s` set, with both `m` and `s` valid axis indices.
pub open spec fn edge(d: Seq<u64>, m: int, s: int) -> bool {
    0 <= m < d.len() && 0 <= s < d.len() && has_bit(d[m], s as u64)
}

/// Consecutive entries `i`, `i + 1` of `p` are joined by an edge of `d`.
pub open spec fn step(d: Seq<u64>, p: Seq<int>, i: int) -> bool {
    edge(d, p[i], p[i + 1])
}

/// `p` is a path of one or more edges of `d`.
pub open spec fn is_path(d: Seq<u64>, p: Seq<int>) -> bool {
    p.len() >= 2 && forall|i: int| 0 <= i < p.len() - 1 ==> #[trigger] step(d, p, i)
}

/// `s` is reachable from `m` over one or more edges of `d`.
pub open spec fn reachable(d: Seq<u64>, m: int, s: int) -> bool {
    exists|p: Seq<int>| #[trigger] is_path(d, p) && p[0] == m && p.last() == s
}

/// Reachability is transitive.
pub proof fn lemma_reachable_trans(d: Seq<u64>, m: int, t: int, s: int)
    requires
        reachable(d, m, t),
        reachable(d, t, s),
    ensures
        reachable(d, m, s),
{
    let p1 = choose|p: Seq<int>| #[trigger] is_path(d, p) && p[0] == m && p.last() == t;
    let p2 = choose|p: Seq<int>| #[trigger] is_path(d, p) && p[0] == t && p.last() == s;
    let p = p1 + p2.drop_first();
    assert forall|i: int| 0 <= i < p.len() - 1 implies #[trigger] step(d, p, i) by {
        if i < p1.len() - 1 {
            assert(step(d, p1, i));
        } else if i == p1.len() - 1 {
            assert(step(d, p2, 0));
        } else {
            assert(step(d, p2, i - p1.len() + 1));
        }
    }
    assert(is_path(d, p) && p[0] == m && p.last() == s);
}

/// A direct edge is a path.
pub proof fn lemma_edge_reachable(d: Seq<u64>, m: int, s: int)
    requires
        edge(d, m, s),
    ensures
        reachable(d, m, s),
{
    let p = seq![m, s];
    assert(step(d, p, 0));
    assert(is_path(d, p) && p[0] == m && p.last() == s);
}

/// Reachability is monotone in the edge set: what is reachable over the edges
/// of `e` is reachable over those of `d` when every edge of `e` is one of `d`.
proof fn lemma_reach_within_superset(e: Seq<u64>, d: Seq<u64>, m: int, s: int)
    requires
        forall|a: int, b: int| #[trigger] edge(e, a, b) ==> edge(d, a, b),
        reachable(e, m, s),
    ensures
        reachable(d, m, s),
{
    let p = choose|p: Seq<int>| #[trigger] is_path(e, p) && p[0] == m && p.last() == s;
    assert forall|i: int| 0 <= i < p.len() - 1 implies #[trigger] step(d, p, i) by {
        assert(step(e, p, i));
    }
    assert(is_path(d, p) && p[0] == m && p.last() == s);
}

/// The tail of a path of three or more entries is a path.
proof fn lemma_path_tail(d: Seq<u64>, p: Seq<int>)
    requires
        is_path(d, p),
        p.len() > 2,
    ensures
        is_path(d, p.drop_first()),
        edge(d, p[0], p[1]),
{
    let q = p.drop_first();
    assert forall|i: int| 0 <= i < q.len() - 1 implies #[trigger] step(d, q, i) by {
        assert(step(d, p, i + 1));
    }
    assert(step(d, p, 0));
}

/// Every word of `w` (of length `n`) only has bits below `n`.
pub open spec fn all_below(w: Seq<u64>, n: nat) -> bool {
    forall|i: int| 0 <= i < w.len() ==> bits_below(#[trigger] w[i], n)
}

/// The set bits of `w[m]` are exactly the axes reachable from `m` over `d`.
pub open spec fn is_closure_of(w: Seq<u64>, d: Seq<u64>) -> bool {
    w.len() == d.len() && forall|m: int, s: int|
        #![trigger has_bit(w[m], s as u64)]
        #![trigger reachable(d, m, s)]
        0 <= m < d.len() && 0 <= s < d.len() ==> (has_bit(w[m], s as u64) <==> reachable(d, m, s))
}

/// A set `x` that contains `e[p[0]]` and is closed under `e` contains the end
/// of the path `p`.
proof fn lemma_closed_set_contains_reach(e: Seq<u64>, x: u64, p: Seq<int>)
    requires
        e.len() <= 64,
        is_path(e, p),
        is_subset(e[p[0]], x),
        forall|t: int| 0 <= t < e.len() && has_bit(x, t as u64) ==> is_subset(#[trigger] e[t], x),
    ensures
        has_bit(x, p.last() as u64),
    decreases p.len(),
{
    assert(step(e, p, 0));
    lemma_subset_bit(e[p[0]], x, p[1] as u64);
    if p.len() > 2 {
        lemma_path_tail(e, p);
        lemma_closed_set_contains_reach(e, x, p.drop_first());
    }
}

/// A family `w` that contains `d` pointwise and is closed (the successors of a
/// member are members) contains the end of every path.
proof fn lemma_closed_family_complete(d: Seq<u64>, w: Seq<u64>, p: Seq<int>)
    requires
        w.len() == d.len(),
        d.len() <= 64,
        is_path(d, p),
        forall|i: int| 0 <= i < d.len() ==> is_subset(#[trigger] d[i], w[i]),
        forall|i: int, t: int|
            0 <= i < d.len() && 0 <= t < d.len() && #[trigger] has_bit(w[i], t as u64) ==> is_subset(
                #[trigger] w[t],
                w[i],
            ),
    ensures
        has_bit(w[p[0]], p.last() as u64),
    decreases p.len(),
{
    assert(step(d, p, 0));
    lemma_subset_bit(d[p[0]], w[p[0]], p[1] as u64);
    if p.len() > 2 {
        lemma_path_tail(d, p);
        lemma_closed_family_complete(d, w, p.drop_first());
        lemma_subset_bit(w[p[1]], w[p[0]], p.last() as u64);
    }
}

/// The total headroom of a word family: how far its words are below `u64::MAX`.
pub open spec fn headroom(w: Seq<u64>) -> nat
    decreases w.len(),
{
    if w.len() == 0 {
        0
    } else {
        headroom(w.drop_last()) + (u64::MAX - w.last()) as nat
    }
}

proof fn lemma_headroom_grows(a: Seq<u64>, b: Seq<u64>)
    requires
        a.len() == b.len(),
        forall|i: int| 0 <= i < a.len() ==> a[i] <= b[i],
    ensures
        headroom(b) <= headroom(a),
        a != b ==> headroom(b) < headroom(a),
    decreases a.len(),
{
    if a.len() > 0 {
        lemma_headroom_grows(a.drop_last(), b.drop_last());
        if a != b && a.drop_last() == b.drop_last() {
            assert(a.last() != b.last()) by {
                if a.last() == b.last() {
                    assert forall|i: int| 0 <= i < a.len() implies a[i] == b[i] by {
                        if i < a.len() - 1 {
                            assert(a[i] == a.drop_last()[i]);
                            assert(b[i] == b.drop_last()[i]);
                        }
                    }
                    assert(a =~= b);
                }
            }
        }
    } else {
        assert(a =~= b);
    }
}

/// Fixed-capacity coupling topology over `N` axes (master -> slave edges).
///
/// Word `m` of each family is a bit set of slaves of axis `m`: the declared
/// edges, the currently engaged edges, and the precomputed transitive
/// downstream set over the declared edges.
#[derive(Clone, Debug)]
pub struct CouplingTopology<const N: usize> {
    declared: Vec<u64>,
    engaged: Vec<u64>,
    downstream_bits: Vec<u64>,
}

impl<const N: usize> CouplingTopology<N> {
    /// The declared-edge words.
    pub closed spec fn declared_words(&self) -> Seq<u64> {
        self.declared@
    }

    /// The engaged-edge words.
    pub closed spec fn engaged_words(&self) -> Seq<u64> {
        self.engaged@
    }

    /// The precomputed downstream words.
    pub closed spec fn downstream_words(&self) -> Seq<u64> {
        self.downstream_bits@
    }

    /// Well-formedness: at most 64 axes, `N` words per family, and every bit
    /// names a valid axis.
    pub closed spec fn wf(&self) -> bool {
        &&& N <= 64
        &&& self.declared@.len() == N
        &&& self.engaged@.len() == N
        &&& self.downstream_bits@.len() == N
        &&& all_below(self.declared@, N as nat)
        &&& all_below(self.engaged@, N as nat)
        &&& all_below(self.downstream_bits@, N as nat)
    }

    /// The view of a well-formed topology: `N` words per family.
    pub proof fn lemma_wf_lengths(&self)
        requires
            self.wf(),
        ensures
            N <= 64,
            self.declared_words().len() == N,
            self.engaged_words().len() == N,
            self.downstream_words().len() == N,
    {
    }

    /// Whether the declared edge `master -> slave` exists.
    pub open spec fn has_declared(&self, master: int, slave: int) -> bool {
        edge(self.declared_words(), master, slave)
    }

    /// Whether the edge `master -> slave` is currently engaged.
    pub open spec fn has_engaged(&self, master: int, slave: int) -> bool {
        edge(self.engaged_words(), master, slave)
    }

    /// Whether the downstream words are the transitive closure of the declared
    /// edges (true after [`Self::precompute`] until the next `add_edge`).
    pub open spec fn is_precomputed(&self) -> bool {
        is_closure_of(self.downstream_words(), self.declared_words())
    }

    fn zeros() -> (v: Vec<u64>)
        requires
            N <= 64,
        ensures
            v@.len() == N,
            forall|i: int| 0 <= i < N ==> v@[i] == 0,
    {
        let mut v: Vec<u64> = Vec::new();
        let mut i: usize = 0;
        while i < N
            invariant
                i <= N,
                v@.len() == i,
                forall|k: int| 0 <= k < i ==> v@[k] == 0,
            decreases N - i,
        {
            v.push(0);
            i = i + 1;
        }
        v
    }

    /// An empty topology (no declared or engaged edges). Supports at most 64
    /// axes.
    pub fn new() -> (t: Self)
        requires
            N <= 64,
        ensures
            t.wf(),
            forall|m: int, s: int| !t.has_declared(m, s) && !t.has_engaged(m, s),
            forall|i: int| 0 <= i < N ==> t.downstream_words()[i] == 0,
    {
        let t = CouplingTopology { declared: Self::zeros(), engaged: Self::zeros(), downstream_bits: Self::zeros() };
        proof {
            assert forall|j: u64| #[trigger] has_bit(0u64, j) implies j < N by {
                lemma_zero_has_no_bit(j);
            }
            assert forall|m: int, s: int| !t.has_declared(m, s) && !t.has_engaged(m, s) by {
                lemma_zero_has_no_bit(s as u64);
            }
        }
        t
    }

    /// Declare a static `master -> slave` edge. The downstream words are left as
    /// they were until the next [`Self::precompute`].
    pub fn add_edge(&mut self, master: u16, slave: u16)
        requires
            old(self).wf(),
            (master as int) < N,
            (slave as int) < N,
        ensures
            final(self).wf(),
            forall|m: int, s: int| final(self).has_declared(m, s) == (old(self).has_declared(m, s)
                || (m == master && s == slave)),
            final(self).engaged_words() == old(self).engaged_words(),
            final(self).downstream_words() == old(self).downstream_words(),
    {
        let m = master as usize;
        let w = self.declared[m] | (1u64 << slave);
        let ghost old_w = self.declared@[m as int];
        self.declared.set(m, w);
        proof {
            assert forall|j: u64| #[trigger] has_bit(w, j) == (has_bit(old_w, j) || j == slave) by {
                lemma_or_bit(old_w, 1u64 << slave, j);
                lemma_single_bit(slave as u64, j);
            }
            assert(bits_below(old_w, N as nat));
            assert forall|i: int| 0 <= i < N implies bits_below(#[trigger] self.declared@[i], N as nat) by {
                if i != m {
                    assert(self.declared@[i] == old(self).declared@[i]);
                }
            }
            assert forall|mm: int, s: int| self.has_declared(mm, s) == (old(self).has_declared(mm, s)
                || (mm == master && s == slave)) by {
                if mm != m as int && 0 <= mm < N {
                    assert(self.declared@[mm] == old(self).declared@[mm]);
                }
            }
        }
    }

    /// Mark the edge `master -> slave` engaged (`on`) or disengaged.
    pub fn set_engaged(&mut self, master: u16, slave: u16, on: bool)
        requires
            old(self).wf(),
            (master as int) < N,
            (slave as int) < N,
        ensures
            final(self).wf(),
            forall|m: int, s: int| final(self).has_engaged(m, s) == if m == master && s == slave {
                on
            } else {
                old(self).has_engaged(m, s)
            },
            final(self).declared_words() == old(self).declared_words(),
            final(self).downstream_words() == old(self).downstream_words(),
    {
        let m = master as usize;
        let bit = 1u64 << slave;
        let ghost old_w = self.engaged@[m as int];
        let w = if on {
            self.engaged[m] | bit
        } else {
            self.engaged[m] & !bit
        };
        self.engaged.set(m, w);
        proof {
            assert forall|j: u64| #[trigger] has_bit(w, j) == if j == slave {
                on
            } else {
                has_bit(old_w, j)
            } by {
                lemma_or_bit(old_w, bit, j);
                lemma_and_not_bit(old_w, bit, j);
                lemma_single_bit(slave as u64, j);
            }
            assert(bits_below(old_w, N as nat));
            assert forall|i: int| 0 <= i < N implies bits_below(#[trigger] self.engaged@[i], N as nat) by {
                if i != m {
                    assert(self.engaged@[i] == old(self).engaged@[i]);
                }
            }
            assert forall|mm: int, s: int| self.has_engaged(mm, s) == if mm == master && s == slave {
                on
            } else {
                old(self).has_engaged(mm, s)
            } by {
                if mm != m as int && 0 <= mm < N {
                    assert(self.engaged@[mm] == old(self).engaged@[mm]);
                }
            }
        }
    }

    /// Whether a direct declared edge `master -> slave` exists.
    pub fn declared_edge(&self, master: u16, slave: u16) -> (r: bool)
        requires
            self.wf(),
            (master as int) < N,
            slave < 64,
        ensures
            r == has_bit(self.declared_words()[master as int], slave as u64),
            (slave as int) < N ==> r == self.has_declared(master as int, slave as int),
    {
        let w = self.declared[master as usize];
        proof {
            assert(((w & (1u64 << slave)) != 0u64) == ((w >> (slave as u64)) & 1u64 == 1u64))
                by (bit_vector)
                requires
                    slave < 64,
            ;
        }
        (w & (1u64 << slave)) != 0
    }

    /// OR into `acc` the downstream words of every axis set in `acc`, once.
    fn close_step(&self, m: usize) -> (acc: u64)
        requires
            self.wf(),
            m < N,
            is_subset(self.declared@[m as int], self.downstream_bits@[m as int]),
            forall|i: int, j: int|
                0 <= i < N && 0 <= j < N && #[trigger] has_bit(self.downstream_bits@[i], j as u64)
                    ==> reachable(self.declared@, i, j),
        ensures
            is_subset(self.downstream_bits@[m as int], acc),
            bits_below(acc, N as nat),
            forall|j: int| 0 <= j < N && has_bit(acc, j as u64) ==> reachable(self.declared@, m as int, j),
            forall|t: int|
                0 <= t < N && has_bit(self.downstream_bits@[m as int], t as u64) ==> is_subset(
                    #[trigger] self.downstream_bits@[t],
                    acc,
                ),
    {
        let ghost ds = self.downstream_bits@;
        let ghost d = self.declared@;
        let ghost acc0 = ds[m as int];
        let mut acc = self.downstream_bits[m];
        let mut bits = acc;
        proof {
            lemma_subset_refl(acc0);
        }
        while bits != 0
            invariant
                self.wf(),
                m < N,
                ds == self.downstream_bits@,
                d == self.declared@,
                acc0 == ds[m as int],
                is_subset(bits, acc0),
                is_subset(acc0, acc),
                bits_below(acc, N as nat),
                forall|i: int, j: int|
                    0 <= i < N && 0 <= j < N && #[trigger] has_bit(ds[i], j as u64) ==> reachable(d, i, j),
                forall|j: int| 0 <= j < N && has_bit(acc, j as u64) ==> reachable(d, m as int, j),
                forall|t: int|
                    0 <= t < N && has_bit(acc0, t as u64) && !has_bit(bits, t as u64) ==> is_subset(
                        #[trigger] ds[t],
                        acc,
                    ),
            decreases bits,
        {
            proof {
                lemma_lowest_bit(bits);
            }
            let s = bits.trailing_zeros() as usize;
            let ghost old_bits = bits;
            let ghost old_acc = acc;
            proof {
                lemma_subset_bit(bits, acc0, s as u64);
                assert(bits_below(ds[m as int], N as nat));
            }
            bits = bits & (bits - 1);
            let w = self.downstream_bits[s];
            acc = acc | w;
            proof {
                lemma_subset_trans(bits, old_bits, acc0);
                lemma_subset_or(acc0, old_acc, w);
                lemma_subset_bit(acc0, old_acc, s as u64);
                assert(bits_below(w, N as nat));
                assert forall|j: u64| #[trigger] has_bit(acc, j) implies j < N by {
                    lemma_or_bit(old_acc, w, j);
                }
                assert forall|j: int| 0 <= j < N && has_bit(acc, j as u64) implies reachable(d, m as int, j) by {
                    lemma_or_bit(old_acc, w, j as u64);
                    if !has_bit(old_acc, j as u64) {
                        lemma_reachable_trans(d, m as int, s as int, j);
                    }
                }
                assert forall|t: int|
                    0 <= t < N && has_bit(acc0, t as u64) && !has_bit(bits, t as u64) implies is_subset(
                        #[trigger] ds[t],
                        acc,
                    ) by {
                    lemma_subset_refl(old_acc);
                    lemma_subset_or(old_acc, old_acc, w);
                    if t != s as int {
                        assert(!has_bit(old_bits, t as u64));
                        lemma_subset_trans(ds[t], old_acc, acc);
                    }
                }
            }
        }
        proof {
            assert forall|t: int|
                0 <= t < N && has_bit(acc0, t as u64) implies is_subset(#[trigger] ds[t], acc) by {
                lemma_zero_has_no_bit(t as u64);
            }
        }
        acc
    }

    /// Precompute the transitive downstream sets over the declared edges.
    pub fn precompute(&mut self)
        requires
            old(self).wf(),
        ensures
            final(self).wf(),
            final(self).declared_words() == old(self).declared_words(),
            final(self).engaged_words() == old(self).engaged_words(),
            final(self).is_precomputed(),
    {
        let ghost d = self.declared@;
        let mut i: usize = 0;
        while i < N
            invariant
                self.wf(),
                d == self.declared@,
                self.engaged@ == old(self).engaged@,
                i <= N,
                forall|k: int| 0 <= k < i ==> self.downstream_bits@[k] == d[k],
            decreases N - i,
        {
            let w = self.declared[i];
            self.downstream_bits.set(i, w);
            i = i + 1;
        }
        proof {
            assert forall|k: int| 0 <= k < N implies is_subset(#[trigger] d[k], self.downstream_bits@[k]) by {
                lemma_subset_refl(d[k]);
            }
            assert forall|k: int, j: int|
                0 <= k < N && 0 <= j < N && #[trigger] has_bit(self.downstream_bits@[k], j as u64)
                    implies reachable(d, k, j) by {
                lemma_edge_reachable(d, k, j);
            }
        }
        let mut changed = true;
        while changed
            invariant
                self.wf(),
                d == self.declared@,
                self.engaged@ == old(self).engaged@,
                forall|k: int| 0 <= k < N ==> is_subset(#[trigger] d[k], self.downstream_bits@[k]),
                forall|k: int, j: int|
                    0 <= k < N && 0 <= j < N && #[trigger] has_bit(self.downstream_bits@[k], j as u64)
                        ==> reachable(d, k, j),
                !changed ==> forall|k: int, t: int|
                    0 <= k < N && 0 <= t < N && #[trigger] has_bit(self.downstream_bits@[k], t as u64)
                        ==> is_subset(#[trigger] self.downstream_bits@[t], self.downstream_bits@[k]),
            decreases (if changed { 1nat } else { 0nat }) + 2 * headroom(self.downstream_bits@),
        {
            changed = false;
            let ghost start = self.downstream_bits@;
            let mut m: usize = 0;
            while m < N
                invariant
                    self.wf(),
                    d == self.declared@,
                    self.engaged@ == old(self).engaged@,
                    m <= N,
                    start.len() == N,
                    forall|k: int| 0 <= k < N ==> is_subset(#[trigger] d[k], self.downstream_bits@[k]),
                    forall|k: int, j: int|
                        0 <= k < N && 0 <= j < N && #[trigger] has_bit(self.downstream_bits@[k], j as u64)
                            ==> reachable(d, k, j),
                    forall|k: int| 0 <= k < N ==> start[k] <= #[trigger] self.downstream_bits@[k],
                    changed ==> self.downstream_bits@ != start,
                    !changed ==> self.downstream_bits@ == start,
                    !changed ==> forall|k: int, t: int|
                        0 <= k < m && 0 <= t < N && #[trigger] has_bit(self.downstream_bits@[k], t as u64)
                            ==> is_subset(#[trigger] self.downstream_bits@[t], self.downstream_bits@[k]),
                decreases N - m,
            {
                let acc = self.close_step(m);
                if acc != self.downstream_bits[m] {
                    let ghost before = self.downstream_bits@;
                    proof {
                        lemma_subset_le(before[m as int], acc);
                        lemma_subset_trans(d[m as int], before[m as int], acc);
                    }
                    self.downstream_bits.set(m, acc);
                    changed = true;
                    proof {
                        assert forall|k: int| 0 <= k < N implies bits_below(
                            #[trigger] self.downstream_bits@[k],
                            N as nat,
                        ) by {
                            if k != m as int {
                                assert(self.downstream_bits@[k] == before[k]);
                            }
                        }
                        assert forall|k: int| 0 <= k < N implies is_subset(
                            #[trigger] d[k],
                            self.downstream_bits@[k],
                        ) by {
                            if k != m as int {
                                assert(self.downstream_bits@[k] == before[k]);
                            }
                        }
                        assert forall|k: int, j: int|
                            0 <= k < N && 0 <= j < N && #[trigger] has_bit(self.downstream_bits@[k], j as u64) implies reachable(d, k, j) by {
                            if k != m as int {
                                assert(self.downstream_bits@[k] == before[k]);
                            }
                        }
                        assert forall|k: int| 0 <= k < N implies start[k]
                            <= #[trigger] self.downstream_bits@[k] by {
                            if k != m as int {
                                assert(self.downstream_bits@[k] == before[k]);
                            }
                        }
                        assert(self.downstream_bits@[m as int] != before[m as int]);
                        if self.downstream_bits@ == start {
                            assert(before[m as int] <= acc);
                            assert(start[m as int] <= before[m as int]);
                        }
                    }
                }
                m = m + 1;
            }
            proof {
                lemma_headroom_grows(start, self.downstream_bits@);
            }
        }
        proof {
            let w = self.downstream_bits@;
            assert forall|mm: int, s: int|
                #![trigger has_bit(w[mm], s as u64)]
                #![trigger reachable(d, mm, s)]
                0 <= mm < d.len() && 0 <= s < d.len() implies (has_bit(w[mm], s as u64)
                <==> reachable(d, mm, s)) by {
                if reachable(d, mm, s) {
                    let p = choose|p: Seq<int>| #[trigger] is_path(d, p) && p[0] == mm && p.last() == s;
                    lemma_closed_family_complete(d, w, p);
                }
            }
        }
    }

    /// Transitive downstream axes over the declared edges, ascending, as last
    /// precomputed.
    pub fn downstream(&self, axis: u16) -> (v: Vec<u16>)
        requires
            self.wf(),
            (axis as int) < N,
        ensures
            forall|i: int, j: int| 0 <= i < j < v@.len() ==> v@[i] < v@[j],
            forall|s: int|
                #![trigger v@.contains(s as u16)]
                0 <= s < N ==> (v@.contains(s as u16) <==> has_bit(
                    self.downstream_words()[axis as int],
                    s as u64,
                )),
            forall|i: int| 0 <= i < v@.len() ==> (v@[i] as int) < N,
            self.is_precomputed() ==> forall|s: int|
                #![trigger v@.contains(s as u16)]
                0 <= s < N ==> (v@.contains(s as u16) <==> reachable(
                    self.declared_words(),
                    axis as int,
                    s,
                )),
    {
        let w = self.downstream_bits[axis as usize];
        let v = bits_to_vec(w);
        proof {
            assert(bits_below(w, N as nat));
            assert forall|i: int| 0 <= i < v@.len() implies (v@[i] as int) < N by {
                assert(has_bit(w, v@[i] as u64));
            }
            assert forall|s: int| #![trigger v@.contains(s as u16)] 0 <= s < N implies (v@.contains(s as u16) <==> has_bit(w, s as u64)) by {
                if v@.contains(s as u16) {
                    let i = choose|i: int| 0 <= i < v@.len() && v@[i] == s as u16;
                    assert(has_bit(w, v@[i] as u64));
                }
            }
        }
        v
    }

    /// Transitive downstream axes reachable over currently-engaged edges only,
    /// ascending: the quickstop set on a fault of `axis`. `axis` itself is
    /// included only when an engaged cycle leads back to it.
    pub fn engaged_downstream(&self, axis: u16) -> (v: Vec<u16>)
        requires
            self.wf(),
            (axis as int) < N,
        ensures
            forall|i: int, j: int| 0 <= i < j < v@.len() ==> v@[i] < v@[j],
            forall|i: int| 0 <= i < v@.len() ==> (v@[i] as int) < N,
            forall|s: int|
                #![trigger v@.contains(s as u16)]
                0 <= s < N ==> (v@.contains(s as u16) <==> reachable(
                    self.engaged_words(),
                    axis as int,
                    s,
                )),
    {
        let ghost e = self.engaged@;
        let a = axis as usize;
        let mut visited: u64 = 0;
        let mut frontier = self.engaged[a];
        proof {
            assert(bits_below(e[a as int], N as nat));
            lemma_subset_refl(frontier);
            assert forall|j: u64| #[trigger] has_bit(0u64, j) implies j < N by {
                lemma_zero_has_no_bit(j);
            }
            assert(0u64 & !frontier == 0u64) by (bit_vector);
            assert(frontier & !0u64 == frontier) by (bit_vector);
            assert forall|t: int| 0 <= t < N && has_bit(0u64, t as u64) implies is_subset(
                #[trigger] e[t],
                0u64 | frontier,
            ) by {
                lemma_zero_has_no_bit(t as u64);
            }
            assert(0u64 | frontier == frontier) by (bit_vector);
            assert(frontier & 0u64 == 0u64) by (bit_vector);
            assert forall|j: int| 0 <= j < N && has_bit(0u64, j as u64) implies reachable(e, a as int, j) by {
                lemma_zero_has_no_bit(j as u64);
            }
            assert forall|j: int| 0 <= j < N && has_bit(frontier, j as u64) implies reachable(e, a as int, j) by {
                lemma_edge_reachable(e, a as int, j);
            }
        }
        while frontier != 0
            invariant
                self.wf(),
                e == self.engaged@,
                a < N,
                bits_below(visited, N as nat),
                bits_below(frontier, N as nat),
                frontier & visited == 0u64,
                is_subset(e[a as int], visited | frontier),
                forall|t: int|
                    0 <= t < N && has_bit(visited, t as u64) ==> is_subset(#[trigger] e[t], visited | frontier),
                forall|j: int| 0 <= j < N && has_bit(visited, j as u64) ==> reachable(e, a as int, j),
                forall|j: int| 0 <= j < N && has_bit(frontier, j as u64) ==> reachable(e, a as int, j),
            decreases u64::MAX - visited,
        {
            let ghost old_visited = visited;
            let ghost old_frontier = frontier;
            visited = visited | frontier;
            let mut next: u64 = 0;
            let mut bits = frontier;
            proof {
                lemma_subset_refl(frontier);
                assert forall|j: u64| #[trigger] has_bit(visited, j) implies j < N by {
                    lemma_or_bit(old_visited, old_frontier, j);
                }
                assert forall|j: u64| #[trigger] has_bit(0u64, j) implies j < N by {
                    lemma_zero_has_no_bit(j);
                }
                assert forall|j: int| 0 <= j < N && has_bit(0u64, j as u64) implies reachable(e, a as int, j) by {
                    lemma_zero_has_no_bit(j as u64);
                }
            }
            while bits != 0
                invariant
                    self.wf(),
                    e == self.engaged@,
                    a < N,
                    is_subset(bits, old_frontier),
                    bits_below(next, N as nat),
                    bits_below(old_frontier, N as nat),
                    forall|j: int| 0 <= j < N && has_bit(next, j as u64) ==> reachable(e, a as int, j),
                    forall|j: int| 0 <= j < N && has_bit(old_frontier, j as u64) ==> reachable(e, a as int, j),
                    forall|t: int|
                        0 <= t < N && has_bit(old_frontier, t as u64) && !has_bit(bits, t as u64) ==> is_subset(
                            #[trigger] e[t],
                            next,
                        ),
                decreases bits,
            {
                proof {
                    lemma_lowest_bit(bits);
                }
                let s = bits.trailing_zeros() as usize;
                let ghost old_bits = bits;
                let ghost old_next = next;
                proof {
                    lemma_subset_bit(bits, old_frontier, s as u64);
                }
                bits = bits & (bits - 1);
                let w = self.engaged[s];
                next = next | w;
                proof {
                    lemma_subset_trans(bits, old_bits, old_frontier);
                    assert(bits_below(w, N as nat));
                    assert forall|j: u64| #[trigger] has_bit(next, j) implies j < N by {
                        lemma_or_bit(old_next, w, j);
                    }
                    assert forall|j: int| 0 <= j < N && has_bit(next, j as u64) implies reachable(e, a as int, j) by {
                        lemma_or_bit(old_next, w, j as u64);
                        if !has_bit(old_next, j as u64) {
                            lemma_edge_reachable(e, s as int, j);
                            lemma_reachable_trans(e, a as int, s as int, j);
                        }
                    }
                    assert forall|t: int|
                        0 <= t < N && has_bit(old_frontier, t as u64) && !has_bit(bits, t as u64) implies is_subset(
                            #[trigger] e[t],
                            next,
                        ) by {
                        lemma_subset_refl(old_next);
                        lemma_subset_or(old_next, old_next, w);
                        if t == s as int {
                        } else {
                            assert(!has_bit(old_bits, t as u64));
                            lemma_subset_trans(e[t], old_next, next);
                        }
                    }
                }
            }
            let ghost nxt = next;
            frontier = next & !visited;
            proof {
                assert forall|t: int|
                    0 <= t < N && has_bit(old_frontier, t as u64) implies is_subset(#[trigger] e[t], nxt) by {
                    lemma_zero_has_no_bit(t as u64);
                }
                // the new frontier is disjoint from the new visited set
                assert(frontier & visited == 0u64) by (bit_vector)
                    requires
                        frontier == nxt & !visited,
                ;
                // successors of everything visited stay within visited | frontier
                assert(is_subset(visited, visited | frontier)) by {
                    lemma_subset_refl(visited);
                    lemma_subset_or(visited, visited, frontier);
                }
                assert(is_subset(nxt, visited | frontier)) by {
                    assert(nxt & !(visited | (nxt & !visited)) == 0u64) by (bit_vector);
                }
                assert(is_subset(old_visited | old_frontier, visited)) by {
                    lemma_subset_refl(visited);
                }
                assert(is_subset(e[a as int], visited | frontier)) by {
                    lemma_subset_trans(e[a as int], old_visited | old_frontier, visited);
                    lemma_subset_trans(e[a as int], visited, visited | frontier);
                }
                assert forall|t: int|
                    0 <= t < N && has_bit(visited, t as u64) implies is_subset(#[trigger] e[t], visited | frontier) by {
                    lemma_or_bit(old_visited, old_frontier, t as u64);
                    if has_bit(old_visited, t as u64) {
                        lemma_subset_trans(e[t], old_visited | old_frontier, visited);
                        lemma_subset_trans(e[t], visited, visited | frontier);
                    } else {
                        lemma_subset_trans(e[t], nxt, visited | frontier);
                    }
                }
                assert forall|j: u64| #[trigger] has_bit(frontier, j) implies j < N by {
                    lemma_and_not_bit(nxt, visited, j);
                }
                assert forall|j: int| 0 <= j < N && has_bit(visited, j as u64) implies reachable(e, a as int, j) by {
                    lemma_or_bit(old_visited, old_frontier, j as u64);
                }
                assert forall|j: int| 0 <= j < N && has_bit(frontier, j as u64) implies reachable(e, a as int, j) by {
                    lemma_and_not_bit(nxt, visited, j as u64);
                }
                // progress: the visited set strictly grew
                assert(old_frontier & old_visited == 0u64 && old_frontier != 0u64 ==> old_visited
                    < (old_visited | old_frontier)) by (bit_vector);
            }
        }
        proof {
            assert(visited | 0u64 == visited) by (bit_vector);
        }
        let v = bits_to_vec(visited);
        proof {
            assert forall|i: int| 0 <= i < v@.len() implies (v@[i] as int) < N by {
                assert(has_bit(visited, v@[i] as u64));
            }
            assert forall|s: int|
                #![trigger v@.contains(s as u16)]
                0 <= s < N implies (v@.contains(s as u16) <==> reachable(e, a as int, s)) by {
                if v@.contains(s as u16) {
                    let i = choose|i: int| 0 <= i < v@.len() && v@[i] == s as u16;
                    assert(has_bit(visited, v@[i] as u64));
                }
                if reachable(e, a as int, s) {
                    let p = choose|p: Seq<int>| #[trigger] is_path(e, p) && p[0] == a as int && p.last() == s;
                    lemma_closed_set_contains_reach(e, visited, p);
                }
            }
        }
        v
    }
}

/// When every engaged edge is a declared one, the quick-stop set of a fault
/// (the axes reachable over engaged edges) lies within the faulted axis's
/// downstream set over the declared edges.
pub proof fn law_engaged_subtree_within_downstream<const N: usize>(t: CouplingTopology<N>, a: int, s: int)
    requires
        forall|m: int, x: int| #[trigger] t.has_engaged(m, x) ==> t.has_declared(m, x),
        reachable(t.engaged_words(), a, s),
    ensures
        reachable(t.declared_words(), a, s),
{
    assert forall|m: int, x: int| #[trigger] edge(t.engaged_words(), m, x) implies edge(t.declared_words(), m, x) by {
        assert(t.has_engaged(m, x));
    }
    lemma_reach_within_superset(t.engaged_words(), t.declared_words(), a, s);
}

} // verus!
