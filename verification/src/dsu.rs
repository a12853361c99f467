//! Forest-based disjoint-set-union structures over `u64` elements: each
//! element has a parent link, a set is a tree, and a set's representative is
//! the root of its tree.

use std::collections::HashMap;
use vstd::prelude::*;

verus! {

broadcast use vstd::std_specs::hash::group_hash_axioms;

/// The element reached from `x` after `n` parent steps in `m`.
pub open spec fn chain(m: Map<u64, u64>, x: u64, n: nat) -> u64
    decreases n,
{
    if n == 0 {
        x
    } else {
        m[chain(m, x, (n - 1) as nat)]
    }
}

/// `x` reaches `r` by following parent links.
#[verifier::opaque]
pub open spec fn reaches(m: Map<u64, u64>, x: u64, r: u64) -> bool {
    exists|n: nat| chain(m, x, n) == r
}

/// `r` is the root of its tree: it is its own parent.
pub open spec fn root_of(m: Map<u64, u64>, r: u64) -> bool {
    m.contains_key(r) && m[r] == r
}

/// Two elements lie in the same set when a common root is reachable from
/// both.
#[verifier::opaque]
pub open spec fn same_set(m: Map<u64, u64>, x: u64, y: u64) -> bool {
    exists|r: u64| root_of(m, r) && reaches(m, x, r) && reaches(m, y, r)
}

/// A chain that has arrived at a root stays there.
proof fn lemma_chain_absorb(m: Map<u64, u64>, x: u64, n: nat, k: nat)
    requires
        m[chain(m, x, n)] == chain(m, x, n),
    ensures
        chain(m, x, n + k) == chain(m, x, n),
    decreases k,
{
    if k > 0 {
        lemma_chain_absorb(m, x, n, (k - 1) as nat);
        assert(chain(m, x, n + k) == m[chain(m, x, n + (k - 1) as nat)]);
    }
}

/// The root an element reaches is unique.
proof fn lemma_root_unique(m: Map<u64, u64>, x: u64, r1: u64, r2: u64)
    requires
        reaches(m, x, r1),
        reaches(m, x, r2),
        m[r1] == r1,
        m[r2] == r2,
    ensures
        r1 == r2,
{
    reveal(reaches);
    let n1 = choose|n: nat| chain(m, x, n) == r1;
    let n2 = choose|n: nat| chain(m, x, n) == r2;
    if n1 <= n2 {
        lemma_chain_absorb(m, x, n1, (n2 - n1) as nat);
        assert(chain(m, x, n2) == r1);
    } else {
        lemma_chain_absorb(m, x, n2, (n1 - n2) as nat);
        assert(chain(m, x, n1) == r2);
    }
}

/// A chain that never passes through `avoid` is unaffected by repointing
/// `avoid`.
proof fn lemma_chain_avoid(m: Map<u64, u64>, m2: Map<u64, u64>, x: u64, n: nat, avoid: u64)
    requires
        m2 == m.insert(avoid, m2[avoid]),
        forall|k: nat| k < n ==> #[trigger] chain(m, x, k) != avoid,
    ensures
        chain(m2, x, n) == chain(m, x, n),
    decreases n,
{
    if n > 0 {
        lemma_chain_avoid(m, m2, x, (n - 1) as nat, avoid);
        assert(chain(m, x, (n - 1) as nat) != avoid);
        assert(chain(m2, x, n) == m2[chain(m2, x, (n - 1) as nat)]);
        assert(chain(m, x, n) == m[chain(m, x, (n - 1) as nat)]);
    }
}

/// If a chain hits a root, some prefix of it hits the root for the first
/// time, never passing it before.
proof fn lemma_first_hit(m: Map<u64, u64>, x: u64, t: u64, n: nat)
    requires
        chain(m, x, n) == t,
    ensures
        exists|k: nat|
            #[trigger] chain(m, x, k) == t && forall|k2: nat| k2 < k ==> #[trigger] chain(m, x, k2)
                != t,
    decreases n,
{
    if exists|k: nat| k < n && #[trigger] chain(m, x, k) == t {
        let k = choose|k: nat| k < n && #[trigger] chain(m, x, k) == t;
        lemma_first_hit(m, x, t, k);
    } else {
        assert(chain(m, x, n) == t && forall|k2: nat| k2 < n ==> #[trigger] chain(m, x, k2) != t);
    }
}

/// Repointing the root `rj` at `ri` preserves every reachability fact whose
/// target is a root other than `rj`, and sends what reached `rj` on to `ri`.
proof fn lemma_join_preserves(m: Map<u64, u64>, m2: Map<u64, u64>, rj: u64, ri: u64, x: u64, r: u64)
    requires
        m[rj] == rj,
        m[r] == r,
        m2 == m.insert(rj, ri),
        reaches(m, x, r),
    ensures
        r != rj ==> reaches(m2, x, r),
        r == rj ==> reaches(m2, x, ri),
{
    reveal(reaches);
    let n = choose|n: nat| chain(m, x, n) == r;
    if r != rj {
        assert forall|k: nat| k < n implies #[trigger] chain(m, x, k) != rj by {
            if chain(m, x, k) == rj {
                lemma_chain_absorb(m, x, k, (n - k) as nat);
            }
        }
        lemma_chain_avoid(m, m2, x, n, rj);
    } else {
        lemma_first_hit(m, x, rj, n);
        let k = choose|k: nat|
            #[trigger] chain(m, x, k) == rj && forall|k2: nat| k2 < k ==> #[trigger] chain(
                m,
                x,
                k2,
            ) != rj;
        lemma_chain_avoid(m, m2, x, k, rj);
        assert(chain(m2, x, k) == rj);
        assert(chain(m2, x, k + 1) == m2[chain(m2, x, k)]);
        assert(chain(m2, x, k + 1) == ri);
    }
}

/// Merging two trees keeps one given pair of elements that shared a set in
/// the same set.
proof fn lemma_join_pair(m: Map<u64, u64>, m2: Map<u64, u64>, rj: u64, ri: u64, x: u64, y: u64)
    requires
        m[rj] == rj,
        m[ri] == ri,
        ri != rj,
        m.contains_key(ri),
        m2 == m.insert(rj, ri),
        same_set(m, x, y),
    ensures
        same_set(m2, x, y),
{
    reveal(same_set);
    reveal(reaches);
    let rc = choose|r: u64| root_of(m, r) && reaches(m, x, r) && reaches(m, y, r);
    lemma_join_preserves(m, m2, rj, ri, x, rc);
    lemma_join_preserves(m, m2, rj, ri, y, rc);
    if rc != rj {
        assert(root_of(m2, rc));
        assert(reaches(m2, x, rc));
        assert(reaches(m2, y, rc));
    } else {
        assert(root_of(m2, ri));
        assert(reaches(m2, x, ri));
        assert(reaches(m2, y, ri));
    }
}

/// How `join` rewrites the parent map: the roots of the two elements are
/// found, and if they differ, one root is repointed at the other; nothing
/// else changes.
#[verifier::opaque]
pub open spec fn join_described(m: Map<u64, u64>, m2: Map<u64, u64>, i: u64, j: u64) -> bool {
    exists|ri: u64, rj: u64|
        #![trigger root_of(m, ri), root_of(m, rj)]
        {
            &&& root_of(m, ri)
            &&& root_of(m, rj)
            &&& reaches(m, i, ri)
            &&& reaches(m, j, rj)
            &&& m2 == (if ri == rj {
                m
            } else {
                m.insert(rj, ri)
            })
        }
}

/// Law of merging: repointing one root at another, as `join` does, keeps
/// every pair of elements that shared a set in the same set.
pub proof fn lemma_join_same_set(m: Map<u64, u64>, m2: Map<u64, u64>, rj: u64, ri: u64)
    requires
        m[rj] == rj,
        m[ri] == ri,
        ri != rj,
        m.contains_key(ri),
        m2 == m.insert(rj, ri),
    ensures
        forall|x: u64, y: u64| #[trigger] same_set(m, x, y) ==> same_set(m2, x, y),
{
    assert forall|x: u64, y: u64| #[trigger] same_set(m, x, y) implies same_set(m2, x, y) by {
        lemma_join_pair(m, m2, rj, ri, x, y);
    }
}

/// What holds after a merge: the two elements share a set, the domain is
/// unchanged, and every pair that shared a set still does.
proof fn lemma_join_post(m: Map<u64, u64>, m2: Map<u64, u64>, i: u64, j: u64, il: u64, jl: u64)
    requires
        root_of(m, il),
        root_of(m, jl),
        reaches(m, i, il),
        reaches(m, j, jl),
        il != jl,
        m2 == m.insert(jl, il),
    ensures
        m2.dom() == m.dom(),
        same_set(m2, i, j),
        join_described(m, m2, i, j),
        forall|x: u64, y: u64| #[trigger] same_set(m, x, y) ==> same_set(m2, x, y),
{
    assert(m2.dom() =~= m.dom());
    reveal(same_set);
    reveal(reaches);
    reveal(join_described);
    lemma_join_preserves(m, m2, jl, il, i, il);
    lemma_join_preserves(m, m2, jl, il, j, jl);
    assert(root_of(m2, il));
    assert(reaches(m2, i, il));
    assert(reaches(m2, j, il));
    assert(same_set(m2, i, j));
    lemma_join_same_set(m, m2, jl, il);
}

/// What holds when the two elements already share a root: the map is
/// unchanged and the merge description is satisfied trivially.
proof fn lemma_join_noop(m: Map<u64, u64>, i: u64, j: u64, il: u64)
    requires
        root_of(m, il),
        reaches(m, i, il),
        reaches(m, j, il),
    ensures
        same_set(m, i, j),
        join_described(m, m, i, j),
{
    reveal(same_set);
    reveal(join_described);
    assert(root_of(m, il) && reaches(m, i, il) && reaches(m, j, il));
}

/// A naive forest DSU, without path compression or size heuristics.
pub struct ForestDsu {
    parents: HashMap<u64, u64>,
    rank: Ghost<Map<u64, nat>>,
    bound: Ghost<nat>,
}

impl View for ForestDsu {
    type V = Map<u64, u64>;

    /// The parent link of every inserted element.
    closed spec fn view(&self) -> Map<u64, u64> {
        self.parents@
    }
}

impl ForestDsu {
    /// Well-formedness: parent links stay inside the structure and a ghost
    /// rank strictly increases toward the root, which makes the forest
    /// acyclic.
    pub closed spec fn wf(self) -> bool {
        &&& forall|k: u64| #[trigger]
            self.parents@.contains_key(k) ==> self.parents@.contains_key(self.parents@[k])
        &&& forall|k: u64| #[trigger]
            self.parents@.contains_key(k) && self.parents@[k] != k ==> self.rank@[self.parents@[k]]
                > self.rank@[k]
        &&& forall|k: u64| #[trigger] self.parents@.contains_key(k) ==> self.rank@[k]
            <= self.bound@
    }

    /// Constructs an empty structure.
    pub fn new() -> (d: Self)
        ensures
            d.wf(),
            d@ == Map::<u64, u64>::empty(),
    {
        ForestDsu { parents: HashMap::new(), rank: Ghost(Map::empty()), bound: Ghost(0) }
    }

    /// Creates a new tree with `el` as its root.
    pub fn new_tree_from_root(&mut self, el: u64)
        requires
            old(self).wf(),
        ensures
            final(self).wf(),
            final(self)@ == old(self)@.insert(el, el),
    {
        proof {
            if !self.parents@.contains_key(el) {
                self.rank@ = self.rank@.insert(el, 0);
            }
        }
        self.parents.insert(el, el);
    }

    /// Inserts an element into its own singleton set.
    pub fn insert(&mut self, el: u64)
        requires
            old(self).wf(),
        ensures
            final(self).wf(),
            final(self)@ == old(self)@.insert(el, el),
    {
        self.new_tree_from_root(el);
    }

    /// Returns the parent of `i`.
    pub fn get_parent(&self, i: u64) -> (r: u64)
        requires
            self@.contains_key(i),
        ensures
            r == self@[i],
    {
        match self.parents.get(&i) {
            Some(p) => *p,
            None => vstd::pervasive::unreached(),
        }
    }

    /// Sets the parent of `i` to the root `p`, making `i`'s tree a subtree
    /// of `p`'s.
    pub fn set_parent(&mut self, i: u64, p: u64)
        requires
            old(self).wf(),
            old(self)@.contains_key(i),
            old(self)@.contains_key(p),
            old(self)@[p] == p,
            i != p,
        ensures
            final(self).wf(),
            final(self)@ == old(self)@.insert(i, p),
    {
        proof {
            self.rank@ = self.rank@.insert(p, self.bound@ + 1);
            self.bound@ = self.bound@ + 1;
        }
        self.parents.insert(i, p);
    }

    /// Finds the root of the tree containing `i`.
    pub fn find_root(&self, i: u64) -> (r: u64)
        requires
            self.wf(),
            self@.contains_key(i),
        ensures
            root_of(self@, r),
            reaches(self@, i, r),
    {
        let mut cur = i;
        let ghost mut steps: nat = 0;
        loop
            invariant
                self.wf(),
                self@.contains_key(cur),
                chain(self@, i, steps) == cur,
            decreases self.bound@ + 1 - self.rank@[cur],
        {
            let p = match self.parents.get(&cur) {
                Some(p) => *p,
                None => vstd::pervasive::unreached(),
            };
            if p == cur {
                proof {
                    reveal(reaches);
                    assert(chain(self@, i, steps) == cur);
                }
                return cur;
            }
            proof {
                assert(chain(self@, i, steps + 1) == self@[chain(self@, i, steps)]);
                steps = steps + 1;
            }
            cur = p;
        }
    }

    /// Returns true exactly when `i` and `j` lie in the same set.
    pub fn is_same_set(&self, i: u64, j: u64) -> (r: bool)
        requires
            self.wf(),
            self@.contains_key(i),
            self@.contains_key(j),
        ensures
            r == same_set(self@, i, j),
    {
        let r1 = self.find_root(i);
        let r2 = self.find_root(j);
        proof {
            reveal(same_set);
            reveal(reaches);
            if r1 == r2 {
                assert(same_set(self@, i, j));
            } else if same_set(self@, i, j) {
                let rc = choose|r: u64|
                    root_of(self@, r) && reaches(self@, i, r) && reaches(self@, j, r);
                lemma_root_unique(self@, i, rc, r1);
                lemma_root_unique(self@, j, rc, r2);
            }
        }
        r1 == r2
    }

    /// Decides which tree is merged into which: the first argument becomes
    /// the new root.
    pub fn get_merge_direction(&self, i: u64, j: u64) -> (r: (u64, u64))
        ensures
            r == (i, j),
    {
        (i, j)
    }

    /// Merges the sets containing `i` and `j`. Afterward they share a root;
    /// elements that shared a set before still do.
    pub fn join(&mut self, i: u64, j: u64)
        requires
            old(self).wf(),
            old(self)@.contains_key(i),
            old(self)@.contains_key(j),
        ensures
            final(self).wf(),
            final(self)@.dom() == old(self)@.dom(),
            same_set(final(self)@, i, j),
            join_described(old(self)@, final(self)@, i, j),
    {
        let il = self.find_root(i);
        let jl = self.find_root(j);
        if il != jl {
            let (new_root, new_child) = self.get_merge_direction(il, jl);
            let ghost m = self@;
            self.set_parent(new_child, new_root);
            proof {
                lemma_join_post(m, self@, i, j, il, jl);
            }
        } else {
            proof {
                lemma_join_noop(self@, i, j, il);
            }
        }
    }
}

/// One parent step extends a reachability fact.
proof fn lemma_reach_step(m: Map<u64, u64>, x: u64, cur: u64)
    requires
        reaches(m, x, cur),
    ensures
        reaches(m, x, m[cur]),
{
    reveal(reaches);
    let n = choose|n: nat| chain(m, x, n) == cur;
    assert(chain(m, x, n + 1) == m[chain(m, x, n)]);
}

/// An element reaches itself.
proof fn lemma_reach_self(m: Map<u64, u64>, x: u64)
    ensures
        reaches(m, x, x),
{
    reveal(reaches);
    assert(chain(m, x, 0) == x);
}

/// One step of a chain is one parent lookup.
proof fn lemma_chain_one(m: Map<u64, u64>, x: u64)
    ensures
        chain(m, x, 1) == m[x],
{
    assert(chain(m, x, 0) == x);
    assert(chain(m, x, 1) == m[chain(m, x, 0)]);
}

/// After two compressing root searches, equality of the two roots decides
/// whether the elements share a set in the final map.
proof fn lemma_compressed_same_set(
    m1: Map<u64, u64>,
    m2: Map<u64, u64>,
    i: u64,
    j: u64,
    r1: u64,
    r2: u64,
)
    requires
        m1[r1] == r1,
        m2[r1] == r1,
        m1[i] == r1 || i == r1,
        m1[r2] == r2,
        m2[r2] == r2,
        m2[j] == r2 || j == r2,
        forall|x: u64| m2.contains_key(x) && m2[x] != m1[x] ==> m2[x] == r2 && reaches(m1, x, r2),
        m2.contains_key(i),
        m2.contains_key(r1),
        m2.contains_key(r2),
    ensures
        (r1 == r2) <==> same_set(m2, i, j),
{
    reveal(same_set);
    reveal(reaches);
    // `i` still reaches `r1` in the final map
    if i == r1 {
        lemma_reach_self(m2, i);
        assert(chain(m2, i, 0) == r1);
    } else {
        if m2[i] == m1[i] {
            lemma_chain_one(m2, i);
            assert(chain(m2, i, 1) == r1);
        } else {
            assert(m2[i] == r2 && reaches(m1, i, r2));
            lemma_chain_one(m1, i);
            assert(chain(m1, i, 1) == r1);
            lemma_root_unique(m1, i, r1, r2);
            lemma_chain_one(m2, i);
            assert(chain(m2, i, 1) == r1);
        }
    }
    assert(reaches(m2, i, r1));
    if j == r2 {
        assert(chain(m2, j, 0) == r2);
    } else {
        lemma_chain_one(m2, j);
        assert(chain(m2, j, 1) == r2);
    }
    assert(reaches(m2, j, r2));
    if r1 == r2 {
        assert(root_of(m2, r1) && reaches(m2, i, r1) && reaches(m2, j, r1));
        assert(same_set(m2, i, j));
    } else {
        if same_set(m2, i, j) {
            let rc = choose|r: u64| root_of(m2, r) && reaches(m2, i, r) && reaches(m2, j, r);
            lemma_root_unique(m2, i, rc, r1);
            lemma_root_unique(m2, j, rc, r2);
        }
    }
}

/// After a merge of two compressed roots, the two elements share a set.
proof fn lemma_opt_join(
    m2: Map<u64, u64>,
    m3: Map<u64, u64>,
    i: u64,
    j: u64,
    il: u64,
    jl: u64,
    nr: u64,
    nc: u64,
)
    requires
        m2[il] == il,
        m2[jl] == jl,
        m2[i] == il || i == il,
        m2[j] == jl || j == jl,
        (nr == il && nc == jl) || (nr == jl && nc == il),
        nr != nc,
        m2.contains_key(nr),
        m3 == m2.insert(nc, nr),
    ensures
        same_set(m3, i, j),
{
    reveal(same_set);
    if i == il {
        lemma_reach_self(m2, i);
    } else {
        reveal(reaches);
        lemma_chain_one(m2, i);
        assert(chain(m2, i, 1) == il);
    }
    assert(reaches(m2, i, il));
    if j == jl {
        lemma_reach_self(m2, j);
    } else {
        reveal(reaches);
        lemma_chain_one(m2, j);
        assert(chain(m2, j, 1) == jl);
    }
    assert(reaches(m2, j, jl));
    lemma_join_preserves(m2, m3, nc, nr, i, il);
    lemma_join_preserves(m2, m3, nc, nr, j, jl);
    assert(root_of(m3, nr));
    if il == nc {
        assert(reaches(m3, i, nr));
    } else {
        assert(il == nr);
        assert(reaches(m3, i, nr));
    }
    if jl == nc {
        assert(reaches(m3, j, nr));
    } else {
        assert(jl == nr);
        assert(reaches(m3, j, nr));
    }
    assert(root_of(m3, nr) && reaches(m3, i, nr) && reaches(m3, j, nr));
}

/// A chain can also be peeled from the front: one step first, then the
/// rest.
proof fn lemma_chain_shift(m: Map<u64, u64>, x: u64, n: nat)
    ensures
        chain(m, x, n + 1) == chain(m, m[x], n),
    decreases n,
{
    if n == 0 {
        assert(chain(m, x, 1) == m[chain(m, x, 0)]);
        assert(chain(m, m[x], 0) == m[x]);
    } else {
        lemma_chain_shift(m, x, (n - 1) as nat);
        assert(chain(m, x, n + 1) == m[chain(m, x, n)]);
        assert(chain(m, m[x], n) == m[chain(m, m[x], (n - 1) as nat)]);
    }
}

/// Compression redirects elements straight at their own root, so a
/// reachability fact whose target is a root survives it.
proof fn lemma_compress_chain(
    m0: Map<u64, u64>,
    m1: Map<u64, u64>,
    r: u64,
    x: u64,
    n: nat,
    rc: u64,
)
    requires
        forall|k: u64| m1.contains_key(k) && m1[k] != m0[k] ==> m1[k] == r && reaches(m0, k, r),
        forall|k: u64| #[trigger] m0.contains_key(k) ==> m0.contains_key(m0[k]),
        m1.dom() == m0.dom(),
        m0.contains_key(x),
        m0[rc] == rc,
        m1[rc] == rc,
        m0[r] == r,
        chain(m0, x, n) == rc,
    ensures
        reaches(m1, x, rc),
    decreases n,
{
    reveal(reaches);
    if n == 0 {
        assert(chain(m1, x, 0) == rc);
    } else {
        lemma_chain_shift(m0, x, (n - 1) as nat);
        assert(chain(m0, m0[x], (n - 1) as nat) == rc);
        if m1[x] == m0[x] {
            lemma_compress_chain(m0, m1, r, m0[x], (n - 1) as nat, rc);
            let k = choose|k: nat| chain(m1, m0[x], k) == rc;
            lemma_chain_shift(m1, x, k);
            assert(chain(m1, x, k + 1) == chain(m1, m1[x], k));
            assert(chain(m1, x, k + 1) == rc);
        } else {
            assert(m1.contains_key(x));
            assert(m1[x] == r && reaches(m0, x, r));
            assert(chain(m0, x, n) == rc);
            assert(reaches(m0, x, rc));
            lemma_root_unique(m0, x, rc, r);
            lemma_chain_one(m1, x);
            assert(chain(m1, x, 1) == rc);
        }
    }
}

/// Compression keeps one given pair of members in the same set.
proof fn lemma_compress_pair(m0: Map<u64, u64>, m1: Map<u64, u64>, r: u64, x: u64, y: u64)
    requires
        forall|k: u64| m1.contains_key(k) && m1[k] != m0[k] ==> m1[k] == r && reaches(m0, k, r),
        forall|k: u64| #[trigger] m0.contains_key(k) ==> m0.contains_key(m0[k]),
        forall|k: u64| m0.contains_key(k) && #[trigger] m0[k] == k ==> m1[k] == k,
        m1.dom() == m0.dom(),
        m0[r] == r,
        m0.contains_key(x),
        m0.contains_key(y),
        same_set(m0, x, y),
    ensures
        same_set(m1, x, y),
{
    reveal(same_set);
    let rc = choose|t: u64| root_of(m0, t) && reaches(m0, x, t) && reaches(m0, y, t);
    assert(m1[rc] == rc);
    reveal(reaches);
    let nx = choose|n: nat| chain(m0, x, n) == rc;
    let ny = choose|n: nat| chain(m0, y, n) == rc;
    lemma_compress_chain(m0, m1, r, x, nx, rc);
    lemma_compress_chain(m0, m1, r, y, ny, rc);
    assert(root_of(m1, rc) && reaches(m1, x, rc) && reaches(m1, y, rc));
}

/// Compression keeps every pair of members of a well-formed structure in
/// the same set.
proof fn lemma_compress_preserved(d0: OptimizedForestDsu, m1: Map<u64, u64>, r: u64)
    requires
        d0.wf(),
        forall|k: u64| m1.contains_key(k) && m1[k] != d0@[k] ==> m1[k] == r && reaches(d0@, k, r),
        forall|k: u64| d0@.contains_key(k) && #[trigger] d0@[k] == k ==> m1[k] == k,
        m1.dom() == d0@.dom(),
        d0@[r] == r,
    ensures
        forall|x: u64, y: u64|
            d0@.contains_key(x) && d0@.contains_key(y) && #[trigger] same_set(d0@, x, y)
                ==> same_set(m1, x, y),
{
    reveal(OptimizedForestDsu::wf);
    let m0 = d0@;
    assert forall|x: u64, y: u64|
        m0.contains_key(x) && m0.contains_key(y) && #[trigger] same_set(m0, x, y) implies same_set(
        m1,
        x,
        y,
    ) by {
        lemma_compress_pair(m0, m1, r, x, y);
    }
}

/// Three stages compose: two compressions and a merge of the found roots
/// keep every pair of members in the same set.
proof fn lemma_opt_join_preserved(
    m0: Map<u64, u64>,
    m1: Map<u64, u64>,
    m2: Map<u64, u64>,
    m3: Map<u64, u64>,
)
    requires
        forall|x: u64, y: u64|
            m0.contains_key(x) && m0.contains_key(y) && #[trigger] same_set(m0, x, y)
                ==> same_set(m1, x, y),
        forall|x: u64, y: u64|
            m1.contains_key(x) && m1.contains_key(y) && #[trigger] same_set(m1, x, y)
                ==> same_set(m2, x, y),
        forall|x: u64, y: u64| #[trigger] same_set(m2, x, y) ==> same_set(m3, x, y),
        m1.dom() == m0.dom(),
        m2.dom() == m1.dom(),
    ensures
        forall|x: u64, y: u64|
            m0.contains_key(x) && m0.contains_key(y) && #[trigger] same_set(m0, x, y)
                ==> same_set(m3, x, y),
{
    assert forall|x: u64, y: u64|
        m0.contains_key(x) && m0.contains_key(y) && #[trigger] same_set(m0, x, y) implies same_set(
        m3,
        x,
        y,
    ) by {
        assert(same_set(m1, x, y));
        assert(same_set(m2, x, y));
    }
}

/// A forest DSU with path compression and a size heuristic for choosing the
/// merge direction.
pub struct OptimizedForestDsu {
    parents: HashMap<u64, u64>,
    sizes: HashMap<u64, u64>,
    rank: Ghost<Map<u64, nat>>,
    bound: Ghost<nat>,
}

impl View for OptimizedForestDsu {
    type V = Map<u64, u64>;

    /// The parent link of every inserted element.
    closed spec fn view(&self) -> Map<u64, u64> {
        self.parents@
    }
}

impl OptimizedForestDsu {
    /// The size bookkeeping of an element; an element without an entry
    /// counts as a singleton.
    pub closed spec fn spec_sizes(self) -> Map<u64, u64> {
        Map::new(|k: u64| true, |k: u64| if self.sizes@.contains_key(k) {
            self.sizes@[k]
        } else {
            1
        })
    }

    /// Well-formedness: parent links stay inside the structure and a ghost
    /// rank strictly increases toward the root, which makes the forest
    /// acyclic.
    #[verifier::opaque]
    pub closed spec fn wf(self) -> bool {
        &&& forall|k: u64| #[trigger]
            self.parents@.contains_key(k) ==> self.parents@.contains_key(self.parents@[k])
        &&& forall|k: u64| #[trigger]
            self.parents@.contains_key(k) && self.parents@[k] != k ==> self.rank@[self.parents@[k]]
                > self.rank@[k]
        &&& forall|k: u64| #[trigger] self.parents@.contains_key(k) ==> self.rank@[k]
            <= self.bound@
    }

    /// Constructs an empty structure.
    pub fn new() -> (d: Self)
        ensures
            d.wf(),
            d@ == Map::<u64, u64>::empty(),
    {
        let d = OptimizedForestDsu {
            parents: HashMap::new(),
            sizes: HashMap::new(),
            rank: Ghost(Map::empty()),
            bound: Ghost(0),
        };
        proof {
            reveal(OptimizedForestDsu::wf);
        }
        d
    }

    /// Creates a new tree with `el` as its root, of size one.
    pub fn new_tree_from_root(&mut self, el: u64)
        requires
            old(self).wf(),
        ensures
            final(self).wf(),
            final(self)@ == old(self)@.insert(el, el),
            final(self).spec_sizes() == old(self).spec_sizes().insert(el, 1),
    {
        proof {
            reveal(OptimizedForestDsu::wf);
            if !self.parents@.contains_key(el) {
                self.rank@ = self.rank@.insert(el, 0);
            }
        }
        self.parents.insert(el, el);
        self.sizes.insert(el, 1);
    }

    /// Inserts an element into its own singleton set.
    pub fn insert(&mut self, el: u64)
        requires
            old(self).wf(),
        ensures
            final(self).wf(),
            final(self)@ == old(self)@.insert(el, el),
            final(self).spec_sizes() == old(self).spec_sizes().insert(el, 1),
    {
        self.new_tree_from_root(el);
    }

    /// Returns the parent of `i`.
    pub fn get_parent(&self, i: u64) -> (r: u64)
        requires
            self@.contains_key(i),
        ensures
            r == self@[i],
    {
        match self.parents.get(&i) {
            Some(p) => *p,
            None => vstd::pervasive::unreached(),
        }
    }

    /// Sets the parent of `i` to the root `p` and accounts the merged size
    /// to `i`, saturating on overflow.
    pub fn set_parent(&mut self, i: u64, p: u64)
        requires
            old(self).wf(),
            old(self)@.contains_key(i),
            old(self)@.contains_key(p),
            old(self)@[p] == p,
            i != p,
        ensures
            final(self).wf(),
            final(self)@ == old(self)@.insert(i, p),
    {
        proof {
            reveal(OptimizedForestDsu::wf);
            self.rank@ = self.rank@.insert(p, self.bound@ + 1);
            self.bound@ = self.bound@ + 1;
        }
        self.parents.insert(i, p);
        let a = match self.sizes.get(&i) {
            Some(a) => *a,
            None => 1,
        };
        let b = match self.sizes.get(&p) {
            Some(b) => *b,
            None => 1,
        };
        let sz = if a <= u64::MAX - b {
            a + b
        } else {
            u64::MAX
        };
        self.sizes.insert(i, sz);
    }

    /// Finds the root of the tree containing `i` and compresses the path:
    /// every element visited on the way is re-linked directly to the root.
    pub fn find_root(&mut self, i: u64) -> (r: u64)
        requires
            old(self).wf(),
            old(self)@.contains_key(i),
        ensures
            final(self).wf(),
            final(self)@.dom() == old(self)@.dom(),
            root_of(old(self)@, r),
            reaches(old(self)@, i, r),
            final(self)@[r] == r,
            final(self)@[i] == r || i == r,
            forall|x: u64|
                old(self)@.contains_key(x) && #[trigger] old(self)@[x] == x ==> final(self)@[x]
                    == x,
            forall|x: u64|
                final(self)@.contains_key(x) && final(self)@[x] != old(self)@[x]
                    ==> #[trigger] final(self)@[x] == r && reaches(old(self)@, x, r),
    {
        let ghost m = self@;
        let mut cur = i;
        let ghost mut steps: nat = 0;
        let mut path: Vec<u64> = Vec::new();
        proof {
            lemma_reach_self(m, i);
        }
        loop
            invariant
                self.wf(),
                self@ == m,
                self@.contains_key(cur),
                forall|k: int|
                    0 <= k < path@.len() ==> m.contains_key(#[trigger] path@[k]) && m[path@[k]]
                        != path@[k] && reaches(m, path@[k], cur),
                path@.len() > 0 ==> path@[0] == i,
                path@.len() == 0 ==> cur == i,
                reaches(m, i, cur),
            ensures
                self.wf(),
                self@ == m,
                self@.contains_key(cur),
                m[cur] == cur,
                reaches(m, i, cur),
                forall|k: int|
                    0 <= k < path@.len() ==> m.contains_key(#[trigger] path@[k]) && m[path@[k]]
                        != path@[k] && reaches(m, path@[k], cur),
                path@.len() > 0 ==> path@[0] == i,
                path@.len() == 0 ==> cur == i,
            decreases self.bound@ + 1 - self.rank@[cur],
        {
            let p = match self.parents.get(&cur) {
                Some(p) => *p,
                None => vstd::pervasive::unreached(),
            };
            if p == cur {
                break;
            }
            proof {
                reveal(OptimizedForestDsu::wf);
                assert(self@.contains_key(p));
                assert(self.rank@[p] > self.rank@[cur]);
                lemma_reach_step(m, i, cur);
                assert forall|k: int|
                    0 <= k < path@.len() implies reaches(m, #[trigger] path@[k], p) by {
                    lemma_reach_step(m, path@[k], cur);
                }
                lemma_reach_self(m, cur);
                lemma_reach_step(m, cur, cur);
                assert(reaches(m, cur, p));
            }
            path.push(cur);
            cur = p;
        }
        let root = cur;
        self.compress(&path, root);
        proof {
            if path@.len() > 0 {
                assert(self@[path@[0]] == root);
            }
        }
        root
    }

    /// Re-links every element on `path` directly to `root`.
    fn compress(&mut self, path: &Vec<u64>, root: u64)
        requires
            old(self).wf(),
            old(self)@.contains_key(root),
            old(self)@[root] == root,
            forall|k: int|
                0 <= k < path@.len() ==> old(self)@.contains_key(#[trigger] path@[k]) && old(
                    self,
                )@[path@[k]] != path@[k] && reaches(old(self)@, path@[k], root),
        ensures
            final(self).wf(),
            final(self)@.dom() == old(self)@.dom(),
            final(self)@[root] == root,
            forall|k: int| 0 <= k < path@.len() ==> final(self)@[#[trigger] path@[k]] == root,
            forall|x: u64|
                old(self)@.contains_key(x) && #[trigger] old(self)@[x] == x ==> final(self)@[x]
                    == x,
            forall|x: u64|
                final(self)@.contains_key(x) && final(self)@[x] != old(self)@[x]
                    ==> #[trigger] final(self)@[x] == root && reaches(old(self)@, x, root),
    {
        let ghost m = self@;
        let mut idx: usize = 0;
        while idx < path.len()
            invariant
                self.wf(),
                self@.dom() == m.dom(),
                idx <= path@.len(),
                self@[root] == root,
                self@.contains_key(root),
                m[root] == root,
                forall|k: int|
                    0 <= k < path@.len() ==> m.contains_key(#[trigger] path@[k]) && m[path@[k]]
                        != path@[k] && reaches(m, path@[k], root),
                forall|k: int| 0 <= k < idx ==> self@[#[trigger] path@[k]] == root,
                forall|x: u64|
                    m.contains_key(x) && #[trigger] m[x] == x ==> self@[x] == x,
                forall|x: u64|
                    self@.contains_key(x) && self@[x] != m[x] ==> #[trigger] self@[x] == root
                        && reaches(m, x, root),
            decreases path@.len() - idx,
        {
            let el = path[idx];
            proof {
                assert(path@[idx as int] != root);
            }
            self.set_parent(el, root);
            idx = idx + 1;
        }
    }

    /// Returns true exactly when `i` and `j` lie in the same set; both
    /// search paths are compressed on the way.
    pub fn is_same_set(&mut self, i: u64, j: u64) -> (r: bool)
        requires
            old(self).wf(),
            old(self)@.contains_key(i),
            old(self)@.contains_key(j),
        ensures
            final(self).wf(),
            final(self)@.dom() == old(self)@.dom(),
            r == same_set(final(self)@, i, j),
    {
        let r1 = self.find_root(i);
        let ghost m1 = self@;
        let r2 = self.find_root(j);
        proof {
            lemma_compressed_same_set(m1, self@, i, j, r1, r2);
        }
        r1 == r2
    }

    /// Decides which tree is merged into which: the larger tree's root
    /// becomes the new root.
    pub fn get_merge_direction(&self, i: u64, j: u64) -> (r: (u64, u64))
        ensures
            r == (if self.spec_sizes()[i] > self.spec_sizes()[j] {
                (i, j)
            } else {
                (j, i)
            }),
    {
        let si = match self.sizes.get(&i) {
            Some(s) => *s,
            None => 1,
        };
        let sj = match self.sizes.get(&j) {
            Some(s) => *s,
            None => 1,
        };
        if si > sj {
            (i, j)
        } else {
            (j, i)
        }
    }

    /// Merges the sets containing `i` and `j`, the smaller tree under the
    /// larger; afterward they share a root, and every pair of elements that
    /// shared a set before still does.
    pub fn join(&mut self, i: u64, j: u64)
        requires
            old(self).wf(),
            old(self)@.contains_key(i),
            old(self)@.contains_key(j),
        ensures
            final(self).wf(),
            final(self)@.dom() == old(self)@.dom(),
            same_set(final(self)@, i, j),
            forall|x: u64, y: u64|
                old(self)@.contains_key(x) && old(self)@.contains_key(y) && #[trigger] same_set(
                    old(self)@,
                    x,
                    y,
                ) ==> same_set(final(self)@, x, y),
    {
        let ghost m0 = self@;
        let ghost d0 = *self;
        let il = self.find_root(i);
        let ghost m1 = self@;
        let ghost d1 = *self;
        let jl = self.find_root(j);
        let ghost m2 = self@;
        proof {
            lemma_compressed_same_set(m1, m2, i, j, il, jl);
            lemma_compress_preserved(d0, m1, il);
            lemma_compress_preserved(d1, m2, jl);
        }
        if il != jl {
            proof {
                // the second search cannot have redirected `i`: that would
                // put `i`'s root at both `il` and `jl`
                if i != il && m2[i] != m1[i] {
                    reveal(reaches);
                    assert(m2[i] == jl && reaches(m1, i, jl));
                    lemma_chain_one(m1, i);
                    assert(chain(m1, i, 1) == il);
                    lemma_root_unique(m1, i, il, jl);
                }
            }
            let (new_root, new_child) = self.get_merge_direction(il, jl);
            self.set_parent(new_child, new_root);
            proof {
                lemma_opt_join(m2, self@, i, j, il, jl, new_root, new_child);
                lemma_join_same_set(m2, self@, new_child, new_root);
                lemma_opt_join_preserved(m0, m1, m2, self@);
            }
        } else {
            proof {
                assert forall|x: u64, y: u64| #[trigger] same_set(m2, x, y) implies same_set(
                    self@,
                    x,
                    y,
                ) by {}
                lemma_opt_join_preserved(m0, m1, m2, self@);
            }
        }
    }
}

} // verus!
