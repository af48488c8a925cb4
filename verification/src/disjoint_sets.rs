//! A disjoint-set forest with path compression and union by size.
use vstd::prelude::*;

verus! {

/// One element of the forest: the element it points to, and, at a
/// representative, how many elements its set holds.
pub struct Node {
    parent: usize,
    size: usize,
}

/// A partition of `0..len` into sets, each named by a representative.
///
/// The view is the sequence that gives each element its representative.
pub struct DisjointSets {
    nodes: Vec<Node>,
    /// An upper bound on the height of the tree below each node.
    rank: Ghost<Seq<nat>>,
    /// An upper bound on every rank.
    bound: Ghost<nat>,
}

/// How often `v` occurs in `s`.
pub open spec fn occurrences(s: Seq<int>, v: int) -> nat
    decreases s.len(),
{
    if s.len() == 0 {
        0
    } else {
        occurrences(s.drop_last(), v) + if s.last() == v {
            1nat
        } else {
            0nat
        }
    }
}

/// The representatives after the set named `loser` has been joined to the
/// set named `winner`.
pub open spec fn relabel(s: Seq<int>, winner: int, loser: int) -> Seq<int> {
    Seq::new(
        s.len(),
        |k: int|
            if s[k] == loser {
                winner
            } else {
                s[k]
            },
    )
}

/// Whether `a` and `b` are in one set once the pairs of `merges` have been
/// merged, in order, starting from singletons.
pub open spec fn joined(merges: Seq<(int, int)>, a: int, b: int) -> bool
    decreases merges.len(),
{
    if merges.len() == 0 {
        a == b
    } else {
        let before = merges.drop_last();
        let (i, j) = merges.last();
        joined(before, a, b) || (joined(before, a, i) && joined(before, j, b)) || (joined(
            before,
            a,
            j,
        ) && joined(before, i, b))
    }
}

/// Every parent is an element, and every step up the tree raises the rank.
spec fn linked(parents: Seq<int>, rank: Seq<nat>, bound: nat) -> bool {
    &&& rank.len() == parents.len()
    &&& forall|k: int|
        0 <= k < parents.len() ==> {
            &&& 0 <= #[trigger] parents[k] < parents.len()
            &&& rank[k] <= bound
            &&& rank[parents[k]] <= bound
            &&& (parents[k] != k ==> rank[k] < rank[parents[k]])
        }
}

/// The root reached from `k` by following parents.
spec fn root(parents: Seq<int>, rank: Seq<nat>, bound: nat, k: int) -> int
    decreases bound - rank[k],
{
    if linked(parents, rank, bound) && 0 <= k < parents.len() && parents[k] != k {
        root(parents, rank, bound, parents[k])
    } else {
        k
    }
}

/// Whether `k` lies on the path from `from` up to its root, ends included.
spec fn on_path(parents: Seq<int>, rank: Seq<nat>, bound: nat, from: int, k: int) -> bool
    decreases bound - rank[from],
{
    k == from || (linked(parents, rank, bound) && 0 <= from < parents.len() && parents[from]
        != from && on_path(parents, rank, bound, parents[from], k))
}

proof fn lemma_root(parents: Seq<int>, rank: Seq<nat>, bound: nat, k: int)
    requires
        linked(parents, rank, bound),
        0 <= k < parents.len(),
    ensures
        0 <= root(parents, rank, bound, k) < parents.len(),
        parents[root(parents, rank, bound, k)] == root(parents, rank, bound, k),
        rank[k] <= rank[root(parents, rank, bound, k)],
        parents[k] != k ==> rank[k] < rank[root(parents, rank, bound, k)],
        parents[k] == k ==> root(parents, rank, bound, k) == k,
        root(parents, rank, bound, parents[k]) == root(parents, rank, bound, k),
    decreases bound - rank[k],
{
    if parents[k] != k {
        lemma_root(parents, rank, bound, parents[k]);
    }
}

proof fn lemma_on_path_rank(parents: Seq<int>, rank: Seq<nat>, bound: nat, from: int, k: int)
    requires
        linked(parents, rank, bound),
        0 <= from < parents.len(),
        on_path(parents, rank, bound, from, k),
    ensures
        0 <= k < parents.len(),
        rank[from] <= rank[k],
        root(parents, rank, bound, k) == root(parents, rank, bound, from),
    decreases bound - rank[from],
{
    if k != from {
        lemma_on_path_rank(parents, rank, bound, parents[from], k);
        lemma_root(parents, rank, bound, from);
    }
}

/// Pointing a node straight at its root changes no root.
proof fn lemma_compress(parents: Seq<int>, rank: Seq<nat>, bound: nat, c: int, m: int)
    requires
        linked(parents, rank, bound),
        0 <= c < parents.len(),
        0 <= m < parents.len(),
    ensures
        linked(parents.update(c, root(parents, rank, bound, c)), rank, bound),
        root(parents.update(c, root(parents, rank, bound, c)), rank, bound, m) == root(
            parents,
            rank,
            bound,
            m,
        ),
    decreases bound - rank[m],
{
    let r = root(parents, rank, bound, c);
    let after = parents.update(c, r);
    lemma_root(parents, rank, bound, c);
    assert(linked(after, rank, bound)) by {
        assert forall|k: int| 0 <= k < after.len() implies {
            &&& 0 <= #[trigger] after[k] < after.len()
            &&& rank[k] <= bound
            &&& rank[after[k]] <= bound
            &&& (after[k] != k ==> rank[k] < rank[after[k]])
        } by {
            assert(0 <= parents[k] < parents.len());
        }
    }
    assert(0 <= parents[m] < parents.len());
    if after[m] != m {
        if m == c {
            lemma_compress(parents, rank, bound, c, r);
            lemma_root(parents, rank, bound, r);
        } else {
            lemma_compress(parents, rank, bound, c, parents[m]);
        }
    } else {
        if m == c {
            assert(r == c);
        }
    }
}

/// Hanging the root `b` below the root `a` renames `b`'s set and no other.
proof fn lemma_link(parents: Seq<int>, rank: Seq<nat>, bound: nat, a: int, b: int, m: int)
    requires
        linked(parents, rank, bound),
        0 <= a < parents.len(),
        0 <= b < parents.len(),
        0 <= m < parents.len(),
        a != b,
        parents[a] == a,
        parents[b] == b,
    ensures
        linked(parents.update(b, a), raised(rank, a, b), bound + 1),
        root(parents.update(b, a), raised(rank, a, b), bound + 1, m) == if root(
            parents,
            rank,
            bound,
            m,
        ) == b {
            a
        } else {
            root(parents, rank, bound, m)
        },
    decreases bound - rank[m],
{
    let after = parents.update(b, a);
    let rank2 = raised(rank, a, b);
    let bound2 = bound + 1;
    assert(linked(after, rank2, bound2)) by {
        assert forall|k: int| 0 <= k < after.len() implies {
            &&& 0 <= #[trigger] after[k] < after.len()
            &&& rank2[k] <= bound2
            &&& rank2[after[k]] <= bound2
            &&& (after[k] != k ==> rank2[k] < rank2[after[k]])
        } by {
            assert(0 <= parents[k] < parents.len());
        }
    }
    assert(0 <= parents[m] < parents.len());
    if m == b {
        assert(after[a] == a);
        assert(root(after, rank2, bound2, a) == a);
    } else if parents[m] != m {
        lemma_link(parents, rank, bound, a, b, parents[m]);
    }
}

/// The state of the second pass of a find from `i` that has reached `cur`:
/// what lies on the path below `cur` points at the root `r`, the rest is as
/// in `p0`.
spec fn compressed(
    p0: Seq<int>,
    rank: Seq<nat>,
    bound: nat,
    i: int,
    cur: int,
    r: int,
    now: Seq<int>,
) -> bool {
    &&& linked(p0, rank, bound)
    &&& linked(now, rank, bound)
    &&& now.len() == p0.len()
    &&& 0 <= i < p0.len()
    &&& on_path(p0, rank, bound, i, cur)
    &&& forall|k: int|
        0 <= k < p0.len() ==> #[trigger] root(now, rank, bound, k) == root(p0, rank, bound, k)
    &&& forall|k: int|
        0 <= k < p0.len() ==> #[trigger] now[k] == if on_path(p0, rank, bound, i, k) && !on_path(
            p0,
            rank,
            bound,
            cur,
            k,
        ) {
            r
        } else {
            p0[k]
        }
}

proof fn lemma_on_path_extend(parents: Seq<int>, rank: Seq<nat>, bound: nat, from: int, k: int)
    requires
        linked(parents, rank, bound),
        0 <= from < parents.len(),
        on_path(parents, rank, bound, from, k),
        parents[k] != k,
    ensures
        on_path(parents, rank, bound, from, parents[k]),
    decreases bound - rank[from],
{
    lemma_on_path_rank(parents, rank, bound, from, k);
    if k != from {
        lemma_on_path_extend(parents, rank, bound, parents[from], k);
    } else {
        assert(0 <= parents[k] < parents.len());
        assert(on_path(parents, rank, bound, parents[k], parents[k]));
    }
}

proof fn lemma_compress_step(
    p0: Seq<int>,
    rank: Seq<nat>,
    bound: nat,
    i: int,
    cur: int,
    r: int,
    now: Seq<int>,
)
    requires
        compressed(p0, rank, bound, i, cur, r, now),
        r == root(p0, rank, bound, i),
        cur != r,
    ensures
        0 <= cur < p0.len(),
        now[cur] == p0[cur],
        0 <= p0[cur] < p0.len(),
        rank[cur] < rank[p0[cur]],
        rank[p0[cur]] <= bound,
        compressed(p0, rank, bound, i, p0[cur], r, now.update(cur, r)),
{
    lemma_on_path_rank(p0, rank, bound, i, cur);
    lemma_root(p0, rank, bound, cur);
    assert(on_path(p0, rank, bound, cur, cur));
    assert(now[cur] == p0[cur]);
    let next = p0[cur];
    assert(0 <= next < p0.len());
    lemma_on_path_extend(p0, rank, bound, i, cur);
    let after = now.update(cur, r);
    assert(root(now, rank, bound, cur) == r);
    lemma_compress(now, rank, bound, cur, 0);
    assert forall|k: int| 0 <= k < p0.len() implies #[trigger] root(after, rank, bound, k)
        == root(p0, rank, bound, k) by {
        lemma_compress(now, rank, bound, cur, k);
        assert(root(now, rank, bound, k) == root(p0, rank, bound, k));
    }
    assert forall|k: int| 0 <= k < p0.len() implies #[trigger] after[k] == if on_path(
        p0,
        rank,
        bound,
        i,
        k,
    ) && !on_path(p0, rank, bound, next, k) {
        r
    } else {
        p0[k]
    } by {
        if on_path(p0, rank, bound, next, k) {
            lemma_on_path_rank(p0, rank, bound, next, k);
        }
        if k != cur {
            assert(after[k] == now[k]);
        }
    }
}

/// The ranks after the root `b` has been hung below the root `a`.
spec fn raised(rank: Seq<nat>, a: int, b: int) -> Seq<nat> {
    rank.update(
        a,
        if rank[a] > rank[b] {
            rank[a]
        } else {
            rank[b] + 1
        },
    )
}

proof fn lemma_occurrences_bound(s: Seq<int>, a: int, b: int)
    requires
        a != b,
    ensures
        occurrences(s, a) + occurrences(s, b) <= s.len(),
    decreases s.len(),
{
    if s.len() > 0 {
        lemma_occurrences_bound(s.drop_last(), a, b);
    }
}

proof fn lemma_occurrences_relabel(s: Seq<int>, winner: int, loser: int, v: int)
    requires
        winner != loser,
    ensures
        occurrences(relabel(s, winner, loser), v) == if v == winner {
            occurrences(s, winner) + occurrences(s, loser)
        } else if v == loser {
            0
        } else {
            occurrences(s, v)
        },
    decreases s.len(),
{
    if s.len() > 0 {
        lemma_occurrences_relabel(s.drop_last(), winner, loser, v);
        assert(relabel(s, winner, loser).drop_last() =~= relabel(s.drop_last(), winner, loser));
    }
}

/// A value that occurs as often as the sequence is long is all there is.
pub proof fn lemma_occurrences_full(s: Seq<int>, v: int, k: int)
    requires
        occurrences(s, v) == s.len(),
        0 <= k < s.len(),
    ensures
        s[k] == v,
    decreases s.len(),
{
    lemma_occurrences_at_most(s.drop_last(), v);
    if k < s.len() - 1 {
        lemma_occurrences_full(s.drop_last(), v, k);
    }
}

proof fn lemma_occurrences_at_most(s: Seq<int>, v: int)
    ensures
        occurrences(s, v) <= s.len(),
    decreases s.len(),
{
    if s.len() > 0 {
        lemma_occurrences_at_most(s.drop_last(), v);
    }
}

proof fn lemma_occurrences_positive(s: Seq<int>, k: int)
    requires
        0 <= k < s.len(),
    ensures
        occurrences(s, s[k]) >= 1,
    decreases s.len(),
{
    if k < s.len() - 1 {
        lemma_occurrences_positive(s.drop_last(), k);
    }
}

/// Among the numbers below `n`, each occurs once and no other number at all.
pub proof fn lemma_occurrences_identity(n: nat, v: int)
    ensures
        occurrences(Seq::new(n, |k: int| k), v) == if 0 <= v < n {
            1nat
        } else {
            0nat
        },
    decreases n,
{
    if n > 0 {
        lemma_occurrences_identity((n - 1) as nat, v);
        assert(Seq::new(n, |k: int| k).drop_last() =~= Seq::new((n - 1) as nat, |k: int| k));
    }
}

impl View for DisjointSets {
    type V = Seq<int>;

    closed spec fn view(&self) -> Seq<int> {
        Seq::new(self.nodes@.len(), |k: int| root(self.parents(), self.rank@, self.bound@, k))
    }
}

impl DisjointSets {
    /// The parent of every element.
    pub closed spec fn parents(&self) -> Seq<int> {
        Seq::new(self.nodes@.len(), |k: int| self.nodes@[k].parent as int)
    }

    /// The forest has no cycle, every representative names itself, and each
    /// representative caches the size of its set.
    pub closed spec fn wf(&self) -> bool {
        &&& linked(self.parents(), self.rank@, self.bound@)
        &&& forall|k: int|
            #![trigger self.nodes@[k]]
            0 <= k < self.nodes@.len() && self.nodes@[k].parent == k ==> self.nodes@[k].size
                == occurrences(self@, k)
    }

    /// The number of elements.
    pub open spec fn len(&self) -> nat {
        self@.len()
    }

    /// Whether `a` and `b` have the same representative.
    pub open spec fn same_set(&self, a: int, b: int) -> bool {
        self@[a] == self@[b]
    }

    /// The number of elements in the set that holds `i`.
    pub open spec fn set_size(&self, i: int) -> nat {
        occurrences(self@, self@[i])
    }

    /// Whether `k` is `from` or one of its ancestors.
    pub closed spec fn ancestor(&self, from: int, k: int) -> bool {
        on_path(self.parents(), self.rank@, self.bound@, from, k)
    }

    /// The element that `k` points to; a representative points to itself.
    pub closed spec fn parent(&self, k: int) -> int {
        self.nodes@[k].parent as int
    }

    /// A representative is an element, and represents itself.
    pub proof fn lemma_representative(&self, k: int)
        requires
            self.wf(),
            0 <= k < self.len(),
        ensures
            0 <= self@[k] < self.len(),
            self@[self@[k]] == self@[k],
            self.set_size(k) >= 1,
    {
        lemma_root(self.parents(), self.rank@, self.bound@, k);
        lemma_root(self.parents(), self.rank@, self.bound@, self@[k]);
        lemma_occurrences_positive(self@, k);
    }

    /// Initializes a forest with `len` singleton sets.
    pub fn new(len: usize) -> (s: DisjointSets)
        ensures
            s.wf(),
            s@ == Seq::new(len as nat, |k: int| k),
    {
        let mut nodes: Vec<Node> = Vec::new();
        let mut i: usize = 0;
        while i < len
            invariant
                i <= len,
                nodes@.len() == i,
                forall|k: int| 0 <= k < i ==> (#[trigger] nodes@[k]).parent == k && nodes@[k].size == 1,
            decreases len - i,
        {
            nodes.push(Node { parent: i, size: 1 });
            i += 1;
        }
        let s = DisjointSets { nodes, rank: Ghost(Seq::new(len as nat, |k: int| 0nat)), bound: Ghost(0nat) };
        proof {
            assert(linked(s.parents(), s.rank@, s.bound@));
            assert(s@ =~= Seq::new(len as nat, |k: int| k));
            assert forall|k: int|
                #![trigger s.nodes@[k]]
                0 <= k < s.nodes@.len() && s.nodes@[k].parent == k implies s.nodes@[k].size
                == occurrences(s@, k) by {
                lemma_occurrences_identity(len as nat, k);
            }
        }
        s
    }

    /// Finds the representative of the set containing `i`, and points `i`
    /// and each of its ancestors straight at it.
    pub fn find(&mut self, i: usize) -> (r: usize)
        requires
            old(self).wf(),
            i < old(self).len(),
        ensures
            final(self).wf(),
            final(self)@ == old(self)@,
            r == old(self)@[i as int],
            forall|k: int|
                0 <= k < old(self).len() ==> #[trigger] final(self).parent(k) == if old(self).ancestor(i as int, k) {
                    r as int
                } else {
                    old(self).parent(k)
                },
    {
        let ghost before = *self;
        let ghost p0 = self.parents();
        let ghost rk = self.rank@;
        let ghost bd = self.bound@;
        let mut r = i;
        while self.nodes[r].parent != r
            invariant
                *self == before,
                before.wf(),
                r < self.nodes@.len(),
                root(p0, rk, bd, r as int) == root(p0, rk, bd, i as int),
                p0 == self.parents(),
                rk == self.rank@,
                bd == self.bound@,
            decreases bd - rk[r as int],
        {
            proof {
                lemma_root(p0, rk, bd, r as int);
                assert(p0[r as int] == self.nodes@[r as int].parent);
            }
            r = self.nodes[r].parent;
        }
        proof {
            assert(p0[r as int] == r);
            lemma_root(p0, rk, bd, r as int);
            assert(on_path(p0, rk, bd, i as int, i as int));
        }
        let mut cur = i;
        while cur != r
            invariant
                before.wf(),
                cur < self.nodes@.len(),
                r < self.nodes@.len(),
                self.nodes@.len() == before.nodes@.len(),
                p0 == before.parents(),
                rk == before.rank@,
                bd == before.bound@,
                rk == self.rank@,
                bd == self.bound@,
                p0[r as int] == r,
                root(p0, rk, bd, i as int) == r,
                compressed(p0, rk, bd, i as int, cur as int, r as int, self.parents()),
                forall|k: int|
                    0 <= k < p0.len() ==> (#[trigger] self.nodes@[k]).size == before.nodes@[k].size,
            decreases bd - rk[cur as int],
        {
            let next = self.nodes[cur].parent;
            let size = self.nodes[cur].size;
            let ghost mid = self.parents();
            proof {
                assert(mid[cur as int] == next);
                lemma_compress_step(p0, rk, bd, i as int, cur as int, r as int, mid);
            }
            self.nodes.set(cur, Node { parent: r, size });
            proof {
                assert(self.parents() =~= mid.update(cur as int, r as int));
            }
            cur = next;
        }
        proof {
            let done = self.parents();
            assert(self@ =~= before@) by {
                assert forall|k: int| 0 <= k < p0.len() implies self@[k] == before@[k] by {
                    assert(root(done, rk, bd, k) == root(p0, rk, bd, k));
                }
            }
            assert forall|k: int| 0 <= k < before.len() implies #[trigger] self.parent(k)
                == if before.ancestor(i as int, k) {
                r as int
            } else {
                before.parent(k)
            } by {
                assert(done[k] == self.parent(k));
                assert(p0[k] == before.parent(k));
                assert(done[k] == if on_path(p0, rk, bd, i as int, k) && !on_path(
                    p0,
                    rk,
                    bd,
                    r as int,
                    k,
                ) {
                    r as int
                } else {
                    p0[k]
                });
            }
            assert forall|k: int|
                #![trigger self.nodes@[k]]
                0 <= k < self.nodes@.len() && self.nodes@[k].parent == k implies self.nodes@[k].size
                == occurrences(self@, k) by {
                assert(done[k] == k);
                assert(done[k] == if on_path(p0, rk, bd, i as int, k) && !on_path(
                    p0,
                    rk,
                    bd,
                    r as int,
                    k,
                ) {
                    r as int
                } else {
                    p0[k]
                });
                assert(p0[k] == k);
                assert(before.nodes@[k].parent == k);
            }
        }
        r
    }

    /// Merges the sets containing `i` and `j`, the smaller below the larger,
    /// and returns the size of the merged set.
    pub fn merge(&mut self, i: usize, j: usize) -> (size: usize)
        requires
            old(self).wf(),
            i < old(self).len(),
            j < old(self).len(),
        ensures
            final(self).wf(),
            final(self).len() == old(self).len(),
            size == final(self).set_size(i as int),
            old(self).same_set(i as int, j as int) ==> final(self)@ == old(self)@,
            !old(self).same_set(i as int, j as int) ==> size == old(self).set_size(i as int)
                + old(self).set_size(j as int),
            !old(self).same_set(i as int, j as int) ==> final(self)@ == if old(self).set_size(
                i as int,
            ) < old(self).set_size(j as int) {
                relabel(old(self)@, old(self)@[j as int], old(self)@[i as int])
            } else {
                relabel(old(self)@, old(self)@[i as int], old(self)@[j as int])
            },
            forall|a: int, b: int|
                0 <= a < old(self).len() && 0 <= b < old(self).len() ==> (#[trigger] final(self).same_set(a, b)
                    <==> old(self).same_set(a, b)
                    || (old(self).same_set(a, i as int) && old(self).same_set(j as int, b))
                    || (old(self).same_set(a, j as int) && old(self).same_set(i as int, b))),
    {
        let ghost before = *self;
        let mut a = self.find(i);
        let mut b = self.find(j);
        proof {
            before.lemma_representative(i as int);
            before.lemma_representative(j as int);
            assert(self@[a as int] == a && self@[b as int] == b);
            assert(root(self.parents(), self.rank@, self.bound@, a as int) == a);
            assert(root(self.parents(), self.rank@, self.bound@, b as int) == b);
            lemma_root(self.parents(), self.rank@, self.bound@, a as int);
            lemma_root(self.parents(), self.rank@, self.bound@, b as int);
            assert(self.parents()[a as int] == self.nodes@[a as int].parent);
            assert(self.parents()[b as int] == self.nodes@[b as int].parent);
            assert(self.nodes@[a as int].size == occurrences(self@, a as int));
            assert(self.nodes@[b as int].size == occurrences(self@, b as int));
        }
        if a != b {
            proof {
                lemma_occurrences_bound(self@, a as int, b as int);
                assert(self@.len() == self.nodes@.len());
            }
            if self.nodes[a].size < self.nodes[b].size {
                let t = a;
                a = b;
                b = t;
            }
            let size_a = self.nodes[a].size;
            let size_b = self.nodes[b].size;
            let len = self.nodes.len();
            assert(size_a + size_b <= len);
            let ghost mid = *self;
            let ghost p = self.parents();
            let ghost rk = self.rank@;
            let ghost bd = self.bound@;
            self.nodes.set(b, Node { parent: a, size: size_b });
            self.nodes.set(a, Node { parent: a, size: size_a + size_b });
            proof {
                self.rank = Ghost(raised(rk, a as int, b as int));
                self.bound = Ghost(bd + 1);
                assert(self.parents() =~= p.update(b as int, a as int));
                lemma_link(p, rk, bd, a as int, b as int, 0);
                assert forall|k: int| 0 <= k < p.len() implies #[trigger] self@[k] == relabel(
                    mid@,
                    a as int,
                    b as int,
                )[k] by {
                    lemma_link(p, rk, bd, a as int, b as int, k);
                }
                assert(self@ =~= relabel(mid@, a as int, b as int));
                assert forall|k: int|
                    #![trigger self.nodes@[k]]
                    0 <= k < self.nodes@.len() && self.nodes@[k].parent == k implies self.nodes@[k].size
                    == occurrences(self@, k) by {
                    lemma_occurrences_relabel(mid@, a as int, b as int, k);
                    if k != a as int {
                        assert(mid.nodes@[k].parent == k);
                    }
                }
                lemma_occurrences_relabel(mid@, a as int, b as int, a as int);
            }
        }
        self.nodes[a].size
    }
}

/// A forest that starts as singletons and has the pairs of `merges` merged
/// into it, in any order of the two elements of a pair, puts two elements in
/// one set exactly if the merges join them.
pub proof fn lemma_merge_history(
    before: DisjointSets,
    after: DisjointSets,
    merges: Seq<(int, int)>,
    i: int,
    j: int,
)
    requires
        before.len() == after.len(),
        forall|a: int, b: int|
            0 <= a < before.len() && 0 <= b < before.len() ==> (#[trigger] before.same_set(a, b)
                <==> joined(merges, a, b)),
        forall|a: int, b: int|
            0 <= a < before.len() && 0 <= b < before.len() ==> (#[trigger] after.same_set(a, b)
                <==> before.same_set(a, b) || (before.same_set(a, i) && before.same_set(j, b)) || (
            before.same_set(a, j) && before.same_set(i, b))),
        0 <= i < before.len(),
        0 <= j < before.len(),
    ensures
        forall|a: int, b: int|
            0 <= a < after.len() && 0 <= b < after.len() ==> (#[trigger] after.same_set(a, b)
                <==> joined(merges.push((i, j)), a, b)),
{
    let extended = merges.push((i, j));
    assert(extended.drop_last() =~= merges);
    assert(extended.last() == (i, j));
    assert forall|a: int, b: int| 0 <= a < after.len() && 0 <= b < after.len() implies (
    #[trigger] after.same_set(a, b) <==> joined(extended, a, b)) by {
        assert(before.same_set(a, b) <==> joined(merges, a, b));
        assert(before.same_set(a, i) <==> joined(merges, a, i));
        assert(before.same_set(j, b) <==> joined(merges, j, b));
        assert(before.same_set(a, j) <==> joined(merges, a, j));
        assert(before.same_set(i, b) <==> joined(merges, i, b));
    }
}

} // verus!
