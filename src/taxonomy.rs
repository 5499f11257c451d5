//! The compacted, queryable taxonomy tree.
use std::collections::HashMap;
use vstd::prelude::*;

verus! {

broadcast use vstd::std_specs::hash::group_hash_axioms;

/// One record of the compacted tree; all ids are internal ids.
#[derive(Debug, Clone, Copy, PartialEq, Eq)]
pub struct TaxonomyNode {
    pub parent_id: u64,
    pub first_child: u64,
    pub child_count: u64,
    pub name_offset: u64,
    pub rank_offset: u64,
    pub external_id: u64,
    pub godparent_id: u64,
}

impl TaxonomyNode {
    /// The record with every field zero: the sentinel "no taxon".
    pub open spec fn is_zero(self) -> bool {
        &&& self.parent_id == 0
        &&& self.first_child == 0
        &&& self.child_count == 0
        &&& self.name_offset == 0
        &&& self.rank_offset == 0
        &&& self.external_id == 0
        &&& self.godparent_id == 0
    }
}

impl Default for TaxonomyNode {
    fn default() -> (r: Self)
        ensures
            r.is_zero(),
    {
        TaxonomyNode {
            parent_id: 0,
            first_child: 0,
            child_count: 0,
            name_offset: 0,
            rank_offset: 0,
            external_id: 0,
            godparent_id: 0,
        }
    }
}

/// The compacted tree, indexed by internal id. Index 0 is the sentinel and
/// index 1 the root.
#[derive(Debug)]
pub struct Taxonomy {
    pub path_cache: HashMap<u32, Vec<u32>>,
    pub nodes: Vec<TaxonomyNode>,
    pub name_data: Vec<u8>,
    pub rank_data: Vec<u8>,
    pub external_to_internal_id_map: HashMap<u64, u32>,
}


/// The ids from the top of `v`'s chain of parents down to `v` itself, in
/// that order; empty for 0 and for ids past the end of `nodes`.
pub open spec fn node_lineage(nodes: Seq<TaxonomyNode>, v: int) -> Seq<u32>
    decreases v,
{
    if 1 <= v < nodes.len() {
        let p = nodes[v].parent_id as int;
        if p < v {
            node_lineage(nodes, p).push(v as u32)
        } else {
            seq![v as u32]
        }
    } else {
        seq![]
    }
}

/// External id to internal id for a node array: each record's external id
/// maps to its index, a later record winning over an earlier one, and 0 maps
/// to 0 unless a record claims it.
pub open spec fn id_map_of(nodes: Seq<TaxonomyNode>) -> Map<u64, u32>
    decreases nodes.len(),
{
    if nodes.len() == 0 {
        map![0u64 => 0u32]
    } else {
        id_map_of(nodes.drop_last()).insert(nodes.last().external_id, (nodes.len() - 1) as u32)
    }
}

/// `c` falls in the block of children that the record of `v` declares.
pub open spec fn child_block_has(nodes: Seq<TaxonomyNode>, v: int, c: int) -> bool {
    nodes[v].first_child <= c < nodes[v].first_child + nodes[v].child_count
}

/// A compacted tree: the sentinel, then a root (id 1) whose parent is 0,
/// every other node below a parent with a smaller id, and the children of
/// each node laid out as exactly the block its record declares.
pub open spec fn tree_wf(nodes: Seq<TaxonomyNode>) -> bool {
    &&& 2 <= nodes.len() <= u32::MAX
    &&& nodes[1].parent_id == 0
    &&& forall|v: int| 2 <= v < nodes.len() ==> 1 <= #[trigger] nodes[v].parent_id < v
    &&& forall|v: int|
        1 <= v < nodes.len() ==> (#[trigger] nodes[v]).first_child + nodes[v].child_count
            <= nodes.len() && (nodes[v].child_count > 0 ==> nodes[v].first_child >= 2)
    &&& forall|v: int, c: int|
        #![trigger nodes[v], nodes[c]]
        1 <= v < nodes.len() && 2 <= c < nodes.len() ==> (nodes[c].parent_id == v
            <==> child_block_has(nodes, v, c))
}

/// Whether `i` is the length of the longest common prefix of `s` and `t`.
pub open spec fn is_common_prefix_len(s: Seq<u32>, t: Seq<u32>, i: int) -> bool {
    &&& 0 <= i <= s.len()
    &&& i <= t.len()
    &&& s.subrange(0, i) == t.subrange(0, i)
    &&& (i == s.len() || i == t.len() || s[i] != t[i])
}

impl Default for Taxonomy {
    fn default() -> (r: Self)
        ensures
            r.nodes@.len() == 0,
            r.name_data@.len() == 0,
            r.rank_data@.len() == 0,
            r.path_cache@ == Map::<u32, Vec<u32>>::empty(),
            r.external_to_internal_id_map@ == Map::<u64, u32>::empty(),
    {
        Taxonomy {
            path_cache: HashMap::new(),
            nodes: Vec::new(),
            name_data: Vec::new(),
            rank_data: Vec::new(),
            external_to_internal_id_map: HashMap::new(),
        }
    }
}

impl Taxonomy {
    /// Every record past the sentinel points to a parent with a smaller id.
    pub open spec fn monotone(self) -> bool {
        forall|v: int| 1 <= v < self.nodes@.len() ==> #[trigger] self.nodes@[v].parent_id < v
    }

    /// The ids from the top of `v`'s chain of parents down to `v` itself.
    pub open spec fn lineage(self, v: int) -> Seq<u32> {
        node_lineage(self.nodes@, v)
    }

    /// `x` lies on the chain from `v` up to the top (`v` included).
    pub open spec fn is_ancestor(self, x: u32, v: u32) -> bool {
        self.lineage(v as int).contains(x)
    }

    /// `r` is the deepest node that is an ancestor of both `a` and `b`, or 0
    /// when they have none in common.
    pub open spec fn is_lca(self, a: u32, b: u32, r: u32) -> bool {
        &&& r != 0 ==> self.is_ancestor(r, a) && self.is_ancestor(r, b)
        &&& forall|x: u32| #[trigger]
            self.is_ancestor(x, a) && self.is_ancestor(x, b) ==> x <= r
    }


    /// `c` falls in the block of children that the record of `v` declares.
    pub open spec fn in_child_block(self, v: int, c: int) -> bool {
        child_block_has(self.nodes@, v, c)
    }

    /// The node array forms a compacted tree.
    pub open spec fn wf(self) -> bool {
        tree_wf(self.nodes@)
    }

    /// The path cache holds, for every node, its lineage from the root.
    pub open spec fn cache_wf(self) -> bool {
        &&& forall|v: u32| #[trigger]
            self.path_cache@.contains_key(v) <==> 1 <= v < self.nodes@.len()
        &&& forall|v: u32| #[trigger]
            self.path_cache@.contains_key(v) ==> self.path_cache@[v]@ == self.lineage(v as int)
    }

    /// The cached path of `v`, or `[0]` when the cache has none.
    pub open spec fn cached_path(self, v: u32) -> Seq<u32> {
        if self.path_cache@.contains_key(v) {
            self.path_cache@[v]@
        } else {
            seq![0u32]
        }
    }

    /// The id that one step of climbing reaches from `v`.
    pub open spec fn step_up(self, v: int) -> int {
        if v < self.nodes@.len() {
            self.nodes@[v].parent_id as int
        } else {
            0
        }
    }
}

/// The shape of a lineage: it ends at `v`, rises strictly, stays in range,
/// and each of its prefixes is the lineage of the prefix's last id.
pub proof fn lemma_lineage_shape(t: &Taxonomy, v: int)
    requires
        t.monotone(),
        1 <= v < t.nodes@.len(),
        t.nodes@.len() <= u32::MAX,
    ensures
        t.lineage(v).len() >= 1,
        t.lineage(v).last() == v,
        forall|i: int| 0 <= i < t.lineage(v).len() ==> 1 <= #[trigger] t.lineage(v)[i] <= v,
        forall|i: int, j: int|
            0 <= i < j < t.lineage(v).len() ==> #[trigger] t.lineage(v)[i] < #[trigger] t.lineage(
                v,
            )[j],
        forall|k: int|
            0 <= k < t.lineage(v).len() ==> #[trigger] t.lineage(t.lineage(v)[k] as int)
                == t.lineage(v).subrange(0, k + 1),
    decreases v,
{
    let p = t.nodes@[v].parent_id as int;
    assert(p < v);
    if p >= 1 {
        lemma_lineage_shape(t, p);
        let l = t.lineage(v);
        let lp = t.lineage(p);
        assert(l == lp.push(v as u32));
        assert forall|k: int| 0 <= k < l.len() implies #[trigger] t.lineage(l[k] as int)
            == l.subrange(0, k + 1) by {
            if k < lp.len() {
                assert(l[k] == lp[k]);
                assert(lp.subrange(0, k + 1) =~= l.subrange(0, k + 1));
            } else {
                assert(l.subrange(0, k + 1) =~= l);
            }
        }
    } else {
        assert(t.lineage(p) =~= seq![]);
        let l = t.lineage(v);
        assert(l =~= seq![v as u32]);
        assert forall|k: int| 0 <= k < l.len() implies #[trigger] t.lineage(l[k] as int)
            == l.subrange(0, k + 1) by {
            assert(l.subrange(0, k + 1) =~= l);
        }
    }
}

/// Climbing one step from `v` keeps exactly the ancestors other than `v`.
pub proof fn lemma_step_up(t: &Taxonomy, v: u32, x: u32)
    requires
        t.monotone(),
        1 <= v,
    ensures
        (v as int) < t.nodes@.len() ==> t.lineage(v as int) == t.lineage(t.step_up(v as int)).push(v),
        (v as int) >= t.nodes@.len() ==> t.lineage(v as int) =~= seq![] && t.step_up(v as int) == 0,
        t.is_ancestor(x, v) == (x == v && (v as int) < t.nodes@.len() || t.lineage(
            t.step_up(v as int),
        ).contains(x)),
{
    if (v as int) < t.nodes@.len() {
        let l = t.lineage(t.step_up(v as int));
        assert(t.lineage(v as int) == l.push(v));
        if l.contains(x) {
            let i = choose|i: int| 0 <= i < l.len() && l[i] == x;
            assert(l.push(v)[i] == x);
        }
        if x == v {
            assert(l.push(v)[l.len() as int] == x);
        }
        if t.lineage(v as int).contains(x) && x != v {
            let i = choose|i: int| 0 <= i < l.push(v).len() && l.push(v)[i] == x;
            assert(l[i] == x);
        }
    } else {
        assert(t.lineage(0) =~= seq![]);
    }
}

/// An ancestor never has a larger id than its descendant.
pub proof fn lemma_ancestor_le(t: &Taxonomy, x: u32, v: u32)
    requires
        t.monotone(),
        t.nodes@.len() <= u32::MAX,
        t.is_ancestor(x, v),
    ensures
        1 <= x <= v,
{
    if 1 <= v < t.nodes@.len() {
        lemma_lineage_shape(t, v as int);
    }
    let i = choose|i: int| 0 <= i < t.lineage(v as int).len() && t.lineage(v as int)[i] == x;
}

/// A well-formed tree has every id above its parent.
pub proof fn lemma_wf_monotone(t: &Taxonomy)
    requires
        t.wf(),
    ensures
        t.monotone(),
{
    assert forall|v: int| 1 <= v < t.nodes@.len() implies #[trigger] t.nodes@[v].parent_id < v by {
        if v >= 2 {
            assert(t.nodes@[v].parent_id < v);
        }
    }
}

/// Reading the lowest common ancestor off two lineages: the last entry of
/// their longest common prefix, or 0 when they differ from the start.
pub proof fn lemma_prefix_lca(t: &Taxonomy, a: u32, b: u32, i: int)
    requires
        t.monotone(),
        t.nodes@.len() <= u32::MAX,
        1 <= a < t.nodes@.len(),
        1 <= b < t.nodes@.len(),
        0 <= i <= t.lineage(a as int).len(),
        i <= t.lineage(b as int).len(),
        t.lineage(a as int).subrange(0, i) == t.lineage(b as int).subrange(0, i),
        i == t.lineage(a as int).len() || i == t.lineage(b as int).len() || t.lineage(
            a as int,
        )[i] != t.lineage(b as int)[i],
    ensures
        t.is_lca(a, b, if i == 0 { 0 } else { t.lineage(a as int)[i - 1] }),
{
    let la = t.lineage(a as int);
    let lb = t.lineage(b as int);
    lemma_lineage_shape(t, a as int);
    lemma_lineage_shape(t, b as int);
    let r = if i == 0 { 0 } else { la[i - 1] };
    if i > 0 {
        assert(la.subrange(0, i)[i - 1] == lb.subrange(0, i)[i - 1]);
        assert(lb[i - 1] == r);
        assert(t.is_ancestor(r, a));
        assert(t.is_ancestor(r, b));
    }
    assert forall|x: u32| #[trigger]
        t.is_ancestor(x, a) && t.is_ancestor(x, b) implies x <= r by {
        let k = choose|k: int| 0 <= k < la.len() && la[k] == x;
        let k2 = choose|k2: int| 0 <= k2 < lb.len() && lb[k2] == x;
        assert(t.lineage(x as int) == la.subrange(0, k + 1));
        assert(t.lineage(x as int) == lb.subrange(0, k2 + 1));
        assert(k == k2);
        if k >= i {
            assert(la.subrange(0, k + 1)[i] == lb.subrange(0, k + 1)[i]);
        }
        if k < i - 1 {
            assert(la[k] < la[i - 1]);
        }
    }
}

/// In a well-formed tree the children blocks of two different nodes never
/// share an id.
pub proof fn lemma_child_blocks_disjoint(t: &Taxonomy, v: int, w: int, c: int)
    requires
        t.wf(),
        1 <= v < t.nodes@.len(),
        1 <= w < t.nodes@.len(),
        v != w,
    ensures
        !(t.in_child_block(v, c) && t.in_child_block(w, c)),
{
    if t.in_child_block(v, c) && t.in_child_block(w, c) {
        let nodes = t.nodes@;
        assert(tree_wf(nodes));
        assert(nodes[v].child_count > 0);
        assert(nodes[v].first_child >= 2 && nodes[v].first_child + nodes[v].child_count
            <= nodes.len());
        assert(2 <= c < nodes.len());
        assert(nodes[c].parent_id == v);
        assert(nodes[c].parent_id == w);
    }
}

/// A built path cache depends on the node array alone: two taxonomies with
/// the same nodes and built caches hold the same paths.
pub proof fn lemma_cache_determined(t: &Taxonomy, u: &Taxonomy, v: u32)
    requires
        t.nodes@ == u.nodes@,
        t.cache_wf(),
        u.cache_wf(),
    ensures
        t.path_cache@.contains_key(v) == u.path_cache@.contains_key(v),
        t.path_cache@.contains_key(v) ==> t.path_cache@[v]@ == u.path_cache@[v]@,
{
    assert(t.lineage(v as int) == u.lineage(v as int));
    if t.path_cache@.contains_key(v) {
        assert(u.path_cache@.contains_key(v));
        assert(t.path_cache@[v]@ == t.lineage(v as int));
        assert(u.path_cache@[v]@ == u.lineage(v as int));
    }
}

/// The lowest common ancestor is unique, so the cache-based and the
/// climbing query, which both return one, agree.
pub proof fn lemma_lca_unique(t: &Taxonomy, a: u32, b: u32, r1: u32, r2: u32)
    requires
        t.is_lca(a, b, r1),
        t.is_lca(a, b, r2),
    ensures
        r1 == r2,
{
    if r1 != 0 {
        assert(t.is_ancestor(r1, a) && t.is_ancestor(r1, b));
    }
    if r2 != 0 {
        assert(t.is_ancestor(r2, a) && t.is_ancestor(r2, b));
    }
}

/// In a well-formed tree with its path cache built, the three ways of
/// asking whether `a` is an ancestor of `b` agree: `a` is on the chain of
/// parents of `b`, `a` is on the cached path of `b`, and `a` is the lowest
/// common ancestor of `a` and `b`.
pub proof fn lemma_ancestor_consistency(t: &Taxonomy, a: u32, b: u32)
    requires
        t.wf(),
        t.cache_wf(),
        1 <= a < t.nodes@.len(),
        1 <= b < t.nodes@.len(),
    ensures
        t.path_cache@.contains_key(b),
        t.path_cache@[b]@.contains(a) == t.is_ancestor(a, b),
        t.is_ancestor(a, b) == t.is_lca(a, b, a),
{
    lemma_wf_monotone(t);
    assert(t.path_cache@.contains_key(b));
    lemma_lineage_shape(t, a as int);
    assert(t.lineage(a as int)[t.lineage(a as int).len() - 1] == a);
    assert(t.is_ancestor(a, a));
    if t.is_ancestor(a, b) {
        assert forall|x: u32| #[trigger]
            t.is_ancestor(x, a) && t.is_ancestor(x, b) implies x <= a by {
            lemma_ancestor_le(t, x, a);
        }
    }
}

impl Taxonomy {
    /// Parent of `v` as seen by a climb: 0 past the end of `nodes`.
    fn climb(&self, v: u32) -> (r: u32)
        requires
            self.monotone(),
            v >= 1,
        ensures
            r == self.step_up(v as int),
            r < v,
            r == 0 || (r as int) < self.nodes@.len(),
    {
        if (v as usize) < self.nodes.len() {
            self.nodes[v as usize].parent_id as u32
        } else {
            0
        }
    }

    /// Whether `a` lies on the chain of parents from `b`, found by climbing
    /// from `b` while the id is above `a`.
    pub fn _is_a_ancestor_of_b(&self, a: u32, b: u32) -> (r: bool)
        requires
            a == 0 || b == 0 || a == b || (self.monotone() && self.nodes@.len() <= u32::MAX),
        ensures
            r == (a != 0 && b != 0 && (a == b || self.is_ancestor(a, b))),
    {
        if a == 0 || b == 0 {
            return false;
        }
        if a == b {
            return true;
        }
        let mut current = b;
        while current > a
            invariant
                self.monotone(),
                self.nodes@.len() <= u32::MAX,
                a >= 1,
                current == b || current == 0 || (current as int) < self.nodes@.len(),
                a == b ==> current == b,
                a != b ==> (self.is_ancestor(a, b) == self.is_ancestor(a, current)),
            decreases current,
        {
            if (current as usize) >= self.nodes.len() {
                proof {
                    lemma_step_up(self, current, a);
                }
                return false;
            }
            proof {
                lemma_step_up(self, current, a);
            }
            current = self.climb(current);
        }
        proof {
            if current == a && (a as int) < self.nodes@.len() {
                lemma_lineage_shape(self, a as int);
                assert(self.lineage(a as int)[self.lineage(a as int).len() - 1] == a);
            }
            if current < a && self.is_ancestor(a, current) {
                lemma_ancestor_le(self, a, current);
            }
        }
        current == a
    }

    /// Lowest common ancestor found by repeatedly climbing from whichever of
    /// the two ids is larger; needs no path cache.
    pub fn lowest_common_ancestor(&self, a: u32, b: u32) -> (r: u32)
        requires
            a == 0 || b == 0 || a == b || (self.monotone() && self.nodes@.len() <= u32::MAX),
        ensures
            a == 0 ==> r == b,
            b == 0 ==> r == a,
            a == b ==> r == a,
            a != 0 && b != 0 && a != b ==> self.is_lca(a, b, r),
    {
        if a == 0 || b == 0 || a == b {
            return if a != 0 {
                a
            } else {
                b
            };
        }
        let mut x = a;
        let mut y = b;
        while x != y
            invariant
                self.monotone(),
                self.nodes@.len() <= u32::MAX,
                a != b,
                x == a || x == 0 || (x as int) < self.nodes@.len(),
                y == b || y == 0 || (y as int) < self.nodes@.len(),
                forall|z: u32|
                    (self.is_ancestor(z, x) && self.is_ancestor(z, y)) == (self.is_ancestor(z, a)
                        && self.is_ancestor(z, b)),
            decreases x + y,
        {
            if x > y {
                let nx = self.climb(x);
                assert forall|z: u32|
                    (self.is_ancestor(z, nx) && self.is_ancestor(z, y)) == (self.is_ancestor(z, x)
                        && self.is_ancestor(z, y)) by {
                    lemma_step_up(self, x, z);
                    if self.is_ancestor(z, y) {
                        lemma_ancestor_le(self, z, y);
                    }
                }
                x = nx;
            } else {
                let ny = self.climb(y);
                assert forall|z: u32|
                    (self.is_ancestor(z, x) && self.is_ancestor(z, ny)) == (self.is_ancestor(z, x)
                        && self.is_ancestor(z, y)) by {
                    lemma_step_up(self, y, z);
                    if self.is_ancestor(z, x) {
                        lemma_ancestor_le(self, z, x);
                    }
                }
                y = ny;
            }
        }
        proof {
            if 1 <= x && (x as int) < self.nodes@.len() {
                lemma_lineage_shape(self, x as int);
                assert(self.lineage(x as int)[self.lineage(x as int).len() - 1] == x);
                assert forall|z: u32| #[trigger]
                    self.is_ancestor(z, a) && self.is_ancestor(z, b) implies z <= x by {
                    lemma_ancestor_le(self, z, x);
                }
            } else {
                assert(x == 0);
                assert(self.lineage(0) =~= seq![]);
            }
        }
        x
    }


    /// Whether `a` is on the cached path of `b`; false when either is 0.
    pub fn is_a_ancestor_of_b(&self, a: u32, b: u32) -> (r: bool)
        ensures
            r == (a != 0 && b != 0 && self.path_cache@.contains_key(b)
                && self.path_cache@[b]@.contains(a)),
    {
        if a == 0 || b == 0 {
            return false;
        }
        match self.path_cache.get(&b) {
            Some(path) => {
                assert(path@ == self.path_cache@[b]@);
                let mut i: usize = 0;
                while i < path.len()
                    invariant
                        0 <= i <= path@.len(),
                        a != 0 && b != 0,
                        self.path_cache@.contains_key(b),
                        path@ == self.path_cache@[b]@,
                        forall|j: int| 0 <= j < i ==> path@[j] != a,
                    decreases path@.len() - i,
                {
                    if path[i] == a {
                        assert(self.path_cache@[b]@[i as int] == a);
                        return true;
                    }
                    i += 1;
                }
                false
            },
            None => false,
        }
    }

    /// Lowest common ancestor read off the two cached paths: the last entry
    /// of their longest common prefix. A node without a cached path counts as
    /// the path `[0]`.
    pub fn lca(&self, a: u32, b: u32) -> (r: u32)
        ensures
            a == 0 ==> r == b,
            b == 0 ==> r == a,
            a == b ==> r == a,
            a != 0 && b != 0 && a != b ==> exists|i: int| #[trigger]
                is_common_prefix_len(self.cached_path(a), self.cached_path(b), i) && r == (if i
                    == 0 {
                    0
                } else {
                    self.cached_path(a)[i - 1]
                }),
            a != 0 && b != 0 && a != b && self.wf() && self.cache_wf() ==> self.is_lca(a, b, r),
    {
        if a == 0 || b == 0 || a == b {
            return if a != 0 {
                a
            } else {
                b
            };
        }
        let default: Vec<u32> = vec![0];
        let path_a = match self.path_cache.get(&a) {
            Some(p) => p,
            None => &default,
        };
        let path_b = match self.path_cache.get(&b) {
            Some(p) => p,
            None => &default,
        };
        assert(path_a@ == self.cached_path(a));
        assert(path_b@ == self.cached_path(b));
        let mut i: usize = 0;
        while i < path_a.len() && i < path_b.len() && path_a[i] == path_b[i]
            invariant
                0 <= i <= path_a@.len(),
                i <= path_b@.len(),
                path_a@.subrange(0, i as int) == path_b@.subrange(0, i as int),
            decreases path_a@.len() - i,
        {
            assert(path_a@.subrange(0, i + 1) =~= path_a@.subrange(0, i as int).push(path_a@[i as int]));
            assert(path_b@.subrange(0, i + 1) =~= path_b@.subrange(0, i as int).push(path_b@[i as int]));
            i += 1;
        }
        let r = if i == 0 {
            0
        } else {
            path_a[i - 1]
        };
        proof {
            if self.wf() && self.cache_wf() {
                lemma_wf_monotone(self);
                if self.path_cache@.contains_key(a) && self.path_cache@.contains_key(b) {
                    lemma_prefix_lca(self, a, b, i as int);
                } else {
                    assert forall|x: u32| #[trigger]
                        self.is_ancestor(x, a) && self.is_ancestor(x, b) implies x <= r by {
                        if !self.path_cache@.contains_key(a) {
                            assert(self.lineage(a as int) =~= seq![]);
                        } else {
                            assert(self.lineage(b as int) =~= seq![]);
                        }
                    }
                    if !self.path_cache@.contains_key(a) && self.path_cache@.contains_key(b) {
                        lemma_lineage_shape(self, b as int);
                        assert(path_b@[0] >= 1);
                    }
                    if self.path_cache@.contains_key(a) && !self.path_cache@.contains_key(b) {
                        lemma_lineage_shape(self, a as int);
                        assert(path_a@[0] >= 1);
                    }
                }
            }
            let ii = i as int;
            assert(is_common_prefix_len(self.cached_path(a), self.cached_path(b), ii) && r == (if ii == 0 {
                0
            } else {
                self.cached_path(a)[ii - 1]
            }));
        }
        r
    }

    /// A copy of a path.
    fn copy_path(p: &Vec<u32>) -> (r: Vec<u32>)
        ensures
            r@ == p@,
    {
        let mut r: Vec<u32> = Vec::new();
        let mut i: usize = 0;
        while i < p.len()
            invariant
                0 <= i <= p@.len(),
                r@ == p@.subrange(0, i as int),
            decreases p@.len() - i,
        {
            r.push(p[i]);
            i += 1;
            assert(r@ =~= p@.subrange(0, i as int));
        }
        assert(r@ =~= p@);
        r
    }

    /// Fills the path cache with the root-to-node path of every node. The
    /// walk goes in level order, which in a compacted tree is the order of
    /// the ids: each node's path extends its parent's by the node itself, so
    /// no recursion over the depth is needed.
    pub fn build_path_cache(&mut self)
        requires
            old(self).wf(),
        ensures
            final(self).nodes == old(self).nodes,
            final(self).name_data == old(self).name_data,
            final(self).rank_data == old(self).rank_data,
            final(self).external_to_internal_id_map == old(self).external_to_internal_id_map,
            final(self).cache_wf(),
    {
        proof {
            lemma_wf_monotone(self);
        }
        let mut cache: HashMap<u32, Vec<u32>> = HashMap::new();
        let n = self.nodes.len();
        let root: Vec<u32> = vec![1];
        proof {
            assert(self.lineage(0) =~= seq![]);
            assert(self.lineage(1) =~= seq![1u32]);
        }
        cache.insert(1, root);
        let mut v: usize = 1;
        while v < n
            invariant
                self.wf(),
                self.monotone(),
                n == self.nodes@.len(),
                1 <= v <= n,
                forall|k: u32| #[trigger]
                    cache@.contains_key(k) ==> 1 <= k < n && cache@[k]@ == self.lineage(k as int),
                forall|k: u32|
                    1 <= k < n && (k == 1 || self.nodes@[k as int].parent_id < v) ==> #[trigger]
                        cache@.contains_key(k),
            decreases n - v,
        {
            let vv = v as u32;
            if vv != 1 {
                assert(self.nodes@[v as int].parent_id < v);
            }
            assert(cache@.contains_key(vv));
            let base = match cache.get(&vv) {
                Some(p) => Self::copy_path(p),
                None => Vec::new(),
            };
            let fc = self.nodes[v].first_child;
            let cnt = self.nodes[v].child_count;
            assert(fc + cnt <= n);
            let mut j: u64 = 0;
            while j < cnt
                invariant
                    self.wf(),
                    self.monotone(),
                    n == self.nodes@.len(),
                    1 <= v < n,
                    vv == v,
                    fc == self.nodes@[v as int].first_child,
                    cnt == self.nodes@[v as int].child_count,
                    fc + cnt <= n,
                    cnt > 0 ==> fc >= 2,
                    0 <= j <= cnt,
                    base@ == self.lineage(v as int),
                    forall|k: u32| #[trigger]
                        cache@.contains_key(k) ==> 1 <= k < n && cache@[k]@ == self.lineage(
                            k as int,
                        ),
                    forall|k: u32|
                        1 <= k < n && (k == 1 || self.nodes@[k as int].parent_id < v || (fc <= k
                            < fc + j)) ==> #[trigger] cache@.contains_key(k),
                decreases cnt - j,
            {
                let c = fc + j;
                assert(self.in_child_block(v as int, c as int));
                assert(self.nodes@[c as int].parent_id == v);
                let mut p = Self::copy_path(&base);
                p.push(c as u32);
                assert(self.lineage(c as int) == self.lineage(v as int).push(c as u32));
                cache.insert(c as u32, p);
                j += 1;
            }
            assert forall|k: u32|
                1 <= k < n && (k == 1 || self.nodes@[k as int].parent_id < v + 1) implies #[trigger]
                cache@.contains_key(k) by {
                if k != 1 && self.nodes@[k as int].parent_id == v {
                    assert(self.in_child_block(v as int, k as int));
                }
            }
            v += 1;
        }
        assert forall|k: u32| 1 <= k < n implies #[trigger] cache@.contains_key(k) by {
            if k != 1 {
                assert(self.nodes@[k as int].parent_id < k);
            }
        }
        self.path_cache = cache;
    }


    /// Rebuilds the external-to-internal id map from the node array.
    pub fn generate_external_to_internal_id_map(&mut self)
        requires
            old(self).nodes@.len() <= u32::MAX,
        ensures
            final(self).external_to_internal_id_map@ == id_map_of(old(self).nodes@),
            final(self).nodes == old(self).nodes,
            final(self).name_data == old(self).name_data,
            final(self).rank_data == old(self).rank_data,
            final(self).path_cache == old(self).path_cache,
    {
        let mut m: HashMap<u64, u32> = HashMap::new();
        m.insert(0, 0);
        proof {
            assert(self.nodes@.subrange(0, 0) =~= Seq::<TaxonomyNode>::empty());
            assert(m@ =~= id_map_of(self.nodes@.subrange(0, 0)));
        }
        let mut i: usize = 0;
        while i < self.nodes.len()
            invariant
                0 <= i <= self.nodes@.len(),
                self.nodes@.len() <= u32::MAX,
                m@ == id_map_of(self.nodes@.subrange(0, i as int)),
            decreases self.nodes@.len() - i,
        {
            m.insert(self.nodes[i].external_id, i as u32);
            proof {
                assert(self.nodes@.subrange(0, i + 1).drop_last() =~= self.nodes@.subrange(
                    0,
                    i as int,
                ));
            }
            i += 1;
        }
        assert(self.nodes@.subrange(0, i as int) =~= self.nodes@);
        self.external_to_internal_id_map = m;
    }

    /// Number of records, the sentinel included.
    pub fn node_count(&self) -> (r: usize)
        ensures
            r == self.nodes@.len(),
    {
        self.nodes.len()
    }

    /// Internal id of an external id, or 0 when it is not mapped.
    pub fn get_internal_id(&self, external_id: u64) -> (r: u32)
        ensures
            self.external_to_internal_id_map@.contains_key(external_id) ==> r
                == self.external_to_internal_id_map@[external_id],
            !self.external_to_internal_id_map@.contains_key(external_id) ==> r == 0,
    {
        match self.external_to_internal_id_map.get(&external_id) {
            Some(v) => *v,
            None => 0,
        }
    }
}

} // verus!
