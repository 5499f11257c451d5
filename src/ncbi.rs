//! The taxonomy as read from the source dumps, keyed by external id, and its
//! compaction into a [`Taxonomy`].
use std::collections::{HashMap, HashSet};
use crate::bytes::{bytes_eq, join_nul, lemma_join_nul_at, lemma_str_at_extend, lex_lt, str_at};
use crate::error::TaxonomyError;
use crate::parse::{
    lemma_nodes_fold_root, lines_spec, names_fold, nodes_fold, parse_names_file, parse_nodes_file,
    views,
};
use crate::taxonomy::{Taxonomy, TaxonomyNode};
use vstd::prelude::*;

verus! {

broadcast use vstd::std_specs::hash::group_hash_axioms;

/// The `k`-th id on the way up from `t`: each step goes to the parent, and
/// stays put at a node without one.
pub open spec fn ancestor_at(parents: Map<u64, u64>, t: u64, k: nat) -> u64
    decreases k,
{
    if k == 0 {
        t
    } else {
        let p = ancestor_at(parents, t, (k - 1) as nat);
        if parents.contains_key(p) {
            parents[p]
        } else {
            p
        }
    }
}

/// The first `k` ids on the way up from `t`.
pub open spec fn chain_prefix(parents: Map<u64, u64>, t: u64, k: nat) -> Set<u64> {
    Set::new(|x: u64| exists|j: nat| j < k && x == ancestor_at(parents, t, j))
}

/// `after` is `before` with the chain from `t` added, up to (not including)
/// the first id that is already marked.
pub open spec fn is_mark_result(
    parents: Map<u64, u64>,
    before: Set<u64>,
    t: u64,
    after: Set<u64>,
) -> bool {
    exists|n: nat|
        {
            &&& forall|j: nat|
                j < n ==> !before.union(chain_prefix(parents, t, j)).contains(
                    #[trigger] ancestor_at(parents, t, j),
                )
            &&& before.union(chain_prefix(parents, t, n)).contains(ancestor_at(parents, t, n))
            &&& after == before.union(chain_prefix(parents, t, n))
        }
}

/// Marking the same node twice leaves the marked set as the first call left it.
pub proof fn lemma_mark_idempotent(
    parents: Map<u64, u64>,
    m0: Set<u64>,
    t: u64,
    m1: Set<u64>,
    m2: Set<u64>,
)
    requires
        is_mark_result(parents, m0, t, m1),
        is_mark_result(parents, m1, t, m2),
    ensures
        m2 == m1,
{
    let n1 = choose|n: nat|
        {
            &&& forall|j: nat|
                j < n ==> !m0.union(chain_prefix(parents, t, j)).contains(
                    #[trigger] ancestor_at(parents, t, j),
                )
            &&& m0.union(chain_prefix(parents, t, n)).contains(ancestor_at(parents, t, n))
            &&& m1 == m0.union(chain_prefix(parents, t, n))
        };
    assert(ancestor_at(parents, t, 0) == t);
    if n1 > 0 {
        assert(chain_prefix(parents, t, n1).contains(t));
    } else {
        assert(chain_prefix(parents, t, 0) =~= Set::empty());
    }
    assert(m1.contains(t));
    let n2 = choose|n: nat|
        {
            &&& forall|j: nat|
                j < n ==> !m1.union(chain_prefix(parents, t, j)).contains(
                    #[trigger] ancestor_at(parents, t, j),
                )
            &&& m1.union(chain_prefix(parents, t, n)).contains(ancestor_at(parents, t, n))
            &&& m2 == m1.union(chain_prefix(parents, t, n))
        };
    if n2 > 0 {
        assert(!m1.union(chain_prefix(parents, t, 0)).contains(ancestor_at(parents, t, 0)));
    }
    assert(chain_prefix(parents, t, 0) =~= Set::empty());
    assert(m2 =~= m1);
}

/// Marking a node whose parent is already marked adds that node alone.
pub proof fn lemma_mark_below_marked(parents: Map<u64, u64>, m0: Set<u64>, d: u64, m1: Set<u64>)
    requires
        parents.contains_key(d),
        m0.contains(parents[d]),
        !m0.contains(d),
        is_mark_result(parents, m0, d, m1),
    ensures
        m1 == m0.insert(d),
{
    let n = choose|n: nat|
        {
            &&& forall|j: nat|
                j < n ==> !m0.union(chain_prefix(parents, d, j)).contains(
                    #[trigger] ancestor_at(parents, d, j),
                )
            &&& m0.union(chain_prefix(parents, d, n)).contains(ancestor_at(parents, d, n))
            &&& m1 == m0.union(chain_prefix(parents, d, n))
        };
    assert(ancestor_at(parents, d, 0) == d);
    assert(ancestor_at(parents, d, 1) == parents[d]);
    if n == 0 {
        assert(chain_prefix(parents, d, 0) =~= Set::empty());
    }
    if n >= 2 {
        assert(!m0.union(chain_prefix(parents, d, 1)).contains(ancestor_at(parents, d, 1)));
    }
    assert(n == 1);
    assert forall|x: u64| chain_prefix(parents, d, 1).contains(x) <==> x == d by {
        if x == d {
            assert(x == ancestor_at(parents, d, 0));
        }
    }
    assert(m1 =~= m0.insert(d));
}

/// Appends `s` and a NUL byte to `blob`.
fn append_nul(blob: &mut Vec<u8>, s: &[u8])
    ensures
        final(blob)@ == old(blob)@ + s@ + seq![0u8],
{
    let mut i: usize = 0;
    while i < s.len()
        invariant
            0 <= i <= s@.len(),
            blob@ == old(blob)@ + s@.subrange(0, i as int),
        decreases s@.len() - i,
    {
        blob.push(s[i]);
        i += 1;
        assert(blob@ =~= old(blob)@ + s@.subrange(0, i as int));
    }
    blob.push(0);
    assert(s@.subrange(0, i as int) =~= s@);
}

/// The taxonomy before compaction, keyed by external id.
pub struct NCBITaxonomy {
    parent_map: HashMap<u64, u64>,
    name_map: HashMap<u64, Vec<u8>>,
    rank_map: HashMap<u64, Vec<u8>>,
    child_map: HashMap<u64, Vec<u64>>,
    marked_nodes: HashSet<u64>,
    known_ranks: Vec<Vec<u8>>,
}

impl NCBITaxonomy {
    /// Parent of each node.
    pub closed spec fn parents(self) -> Map<u64, u64> {
        self.parent_map@
    }

    /// The nodes marked to be kept.
    pub closed spec fn marked(self) -> Set<u64> {
        self.marked_nodes@
    }

    /// Children of `p`, in increasing order.
    pub closed spec fn children(self, p: u64) -> Seq<u64> {
        if self.child_map@.contains_key(p) {
            self.child_map@[p]@
        } else {
            seq![]
        }
    }

    /// Scientific name of `x`; empty when the names file gave none.
    pub closed spec fn name_of(self, x: u64) -> Seq<u8> {
        if self.name_map@.contains_key(x) {
            self.name_map@[x]@
        } else {
            seq![]
        }
    }

    /// Rank of `x`.
    pub closed spec fn rank_of(self, x: u64) -> Seq<u8> {
        self.rank_map@[x]@
    }

    /// The distinct ranks, in increasing byte order.
    pub closed spec fn rank_list(self) -> Seq<Seq<u8>> {
        self.known_ranks@.map_values(|r: Vec<u8>| r@)
    }

    /// The maps agree with one another: node 1, when it has a record, has
    /// parent 0; every node has a rank, and the rank list holds each of them in
    /// increasing order; each node listed as a child of `p` has parent `p`,
    /// and each child list rises strictly; the root is marked.
    pub closed spec fn wf(self) -> bool {
        &&& self.parent_map@.contains_key(1) ==> self.parent_map@[1] == 0
        &&& forall|x: u64| #[trigger]
            self.parent_map@.contains_key(x) <==> self.rank_map@.contains_key(x)
        &&& forall|x: u64| #[trigger]
            self.rank_map@.contains_key(x) ==> self.rank_list().contains(self.rank_map@[x]@)
        &&& forall|i: int|
            0 <= i < self.rank_list().len() - 1 ==> lex_lt(
                #[trigger] self.rank_list()[i],
                self.rank_list()[i + 1],
            )
        &&& forall|p: u64, i: int|
            #![trigger self.child_map@[p]@[i]]
            self.child_map@.contains_key(p) && 0 <= i < self.child_map@[p]@.len() ==> {
                &&& self.parent_map@.contains_key(self.child_map@[p]@[i])
                &&& self.parent_map@[self.child_map@[p]@[i]] == p
            }
        &&& forall|p: u64, i: int, j: int|
            #![trigger self.child_map@[p]@[i], self.child_map@[p]@[j]]
            self.child_map@.contains_key(p) && 0 <= i < j < self.child_map@[p]@.len()
                ==> self.child_map@[p]@[i] < self.child_map@[p]@[j]
        &&& forall|x: u64| #[trigger]
            self.parent_map@.contains_key(x) ==> self.children(self.parent_map@[x]).contains(x)
        &&& self.marked_nodes@.contains(1)
    }

    /// Builds the taxonomy from the contents of the nodes file and the
    /// names file, with only the root (node 1) marked. Fails with the first
    /// error of the nodes file.
    pub fn from_ncbi(nodes_text: &[u8], names_text: &[u8]) -> (r: Result<
        NCBITaxonomy,
        TaxonomyError,
    >)
        ensures
            nodes_fold(lines_spec(nodes_text@)) is Err ==> r == Err::<NCBITaxonomy, TaxonomyError>(
                nodes_fold(lines_spec(nodes_text@))->Err_0,
            ),
            nodes_fold(lines_spec(nodes_text@)) is Ok ==> r is Ok,
            r is Ok ==> {
                let t = r->Ok_0;
                let st = nodes_fold(lines_spec(nodes_text@))->Ok_0;
                &&& t.wf()
                &&& t.parents() == st.0
                &&& t.marked() == set![1u64]
                &&& forall|x: u64| #[trigger]
                    st.0.contains_key(x) ==> t.rank_of(x) == st.1[x]
                &&& t.rank_list().to_set() == st.2
                &&& forall|i: int|
                    0 <= i < t.rank_list().len() - 1 ==> lex_lt(
                        #[trigger] t.rank_list()[i],
                        t.rank_list()[i + 1],
                    )
                &&& forall|p: u64, c: u64| #[trigger]
                    t.children(p).contains(c) <==> st.0.contains_key(c) && st.0[c] == p
                &&& forall|p: u64, i: int, j: int|
                    0 <= i < j < t.children(p).len() ==> #[trigger] t.children(p)[i]
                        < #[trigger] t.children(p)[j]
                &&& forall|x: u64|
                    #[trigger] t.name_of(x) == (if names_fold(lines_spec(names_text@)).contains_key(
                        x,
                    ) {
                        names_fold(lines_spec(names_text@))[x]
                    } else {
                        seq![]
                    })
            },
    {
        let tables = match parse_nodes_file(nodes_text) {
            Ok(t) => t,
            Err(e) => {
                return Err(e);
            },
        };
        let (parent_map, child_map, rank_map, known_ranks) = tables;
        let name_map = parse_names_file(names_text);
        let mut marked_nodes: HashSet<u64> = HashSet::new();
        marked_nodes.insert(1);
        let t = NCBITaxonomy { parent_map, name_map, rank_map, child_map, marked_nodes, known_ranks };
        proof {
            if t.parent_map@.contains_key(1) {
                lemma_nodes_fold_root(lines_spec(nodes_text@));
            }
            assert(t.rank_list() == views(t.known_ranks@));
            assert(marked_nodes@ =~= set![1u64]);
            assert forall|p: u64, i: int|
                t.child_map@.contains_key(p) && 0 <= i < t.child_map@[p]@.len() implies {
                &&& t.parent_map@.contains_key(#[trigger] t.child_map@[p]@[i])
                &&& t.parent_map@[t.child_map@[p]@[i]] == p
            } by {
                assert(t.child_map@[p]@.contains(t.child_map@[p]@[i]));
            }
            assert forall|x: u64| #[trigger]
                t.rank_map@.contains_key(x) implies t.rank_list().contains(t.rank_map@[x]@) by {
            }
            assert forall|p: u64, c: u64| #[trigger]
                t.children(p).contains(c) <==> t.parent_map@.contains_key(c)
                    && t.parent_map@[c] == p by {
                if t.parent_map@.contains_key(c) && t.parent_map@[c] == p {
                    assert(t.child_map@.contains_key(p));
                }
            }
            assert forall|p: u64, i: int, j: int|
                0 <= i < j < t.children(p).len() implies #[trigger] t.children(p)[i]
                < #[trigger] t.children(p)[j] by {
                assert(t.child_map@.contains_key(p));
                assert(t.child_map@[p]@[i] < t.child_map@[p]@[j]);
            }
        }
        Ok(t)
    }

    /// The rank blob: the distinct ranks in increasing byte order, each
    /// followed by a NUL byte; and the offset of each rank in it, in the same
    /// order.
    pub fn get_rank_offset_data(&self) -> (r: (Vec<u64>, Vec<u8>))
        ensures
            r.1@ == join_nul(self.rank_list()),
            self.wf() ==> forall|i: int|
                0 <= i < self.rank_list().len() - 1 ==> lex_lt(
                    #[trigger] self.rank_list()[i],
                    self.rank_list()[i + 1],
                ),
            r.0@.len() == self.rank_list().len(),
            forall|i: int|
                0 <= i < r.0@.len() ==> #[trigger] r.0@[i] == join_nul(
                    self.rank_list().subrange(0, i),
                ).len(),
    {
        let mut offsets: Vec<u64> = Vec::new();
        let mut data: Vec<u8> = Vec::new();
        let mut i: usize = 0;
        assert(self.rank_list().subrange(0, 0) =~= Seq::<Seq<u8>>::empty());
        while i < self.known_ranks.len()
            invariant
                0 <= i <= self.known_ranks@.len(),
                self.rank_list().len() == self.known_ranks@.len(),
                data@ == join_nul(self.rank_list().subrange(0, i as int)),
                offsets@.len() == i,
                forall|j: int|
                    0 <= j < i ==> #[trigger] offsets@[j] == join_nul(
                        self.rank_list().subrange(0, j),
                    ).len(),
            decreases self.known_ranks@.len() - i,
        {
            offsets.push(data.len() as u64);
            append_nul(&mut data, self.known_ranks[i].as_slice());
            proof {
                let s = self.rank_list().subrange(0, i + 1);
                assert(s.drop_last() =~= self.rank_list().subrange(0, i as int));
                assert(s.last() == self.known_ranks@[i as int]@);
            }
            i += 1;
        }
        assert(self.rank_list().subrange(0, i as int) =~= self.rank_list());
        (offsets, data)
    }

    /// Offset in the rank blob of the rank of `x`.
    fn rank_offset_of(&self, offsets: &Vec<u64>, x: u64) -> (r: u64)
        requires
            self.wf(),
            self.parent_map@.contains_key(x),
            offsets@.len() == self.rank_list().len(),
            forall|i: int|
                0 <= i < offsets@.len() ==> #[trigger] offsets@[i] == join_nul(
                    self.rank_list().subrange(0, i),
                ).len(),
        ensures
            str_at(join_nul(self.rank_list()), r as int, self.rank_of(x)),
    {
        assert(self.rank_map@.contains_key(x));
        let rank = match self.rank_map.get(&x) {
            Some(v) => v,
            None => {
                return 0;
            },
        };
        assert(self.rank_list().contains(rank@));
        let mut i: usize = 0;
        while i < self.known_ranks.len()
            invariant
                0 <= i <= self.known_ranks@.len(),
                self.rank_list().len() == self.known_ranks@.len(),
                rank@ == self.rank_of(x),
                self.rank_list().contains(rank@),
                offsets@.len() == self.rank_list().len(),
                forall|j: int|
                    0 <= j < offsets@.len() ==> #[trigger] offsets@[j] == join_nul(
                        self.rank_list().subrange(0, j),
                    ).len(),
                forall|j: int| 0 <= j < i ==> self.rank_list()[j] != rank@,
            decreases self.known_ranks@.len() - i,
        {
            if bytes_eq(self.known_ranks[i].as_slice(), rank.as_slice()) {
                proof {
                    assert(self.rank_list()[i as int] == self.known_ranks@[i as int]@);
                    lemma_join_nul_at(self.rank_list(), i as int);
                }
                return offsets[i];
            }
            i += 1;
        }
        0
    }

    /// Queues the marked children `ch` of the node with internal id `id`
    /// that have not been reached yet, in the order of `ch`, and records
    /// `id` as their parent. Returns how many were queued.
    #[verifier::rlimit(60)]
    fn enqueue_children(
        &self,
        ch: &Vec<u64>,
        id: u64,
        order: &mut Vec<u64>,
        parent_of: &mut Vec<u64>,
        visited: &mut HashSet<u64>,
    ) -> (count: u64)
        requires
            self.wf(),
            self.parents().dom().len() < u32::MAX,
            1 <= id <= old(order)@.len(),
            self.child_map@.contains_key(old(order)@[id - 1]),
            ch@ == self.child_map@[old(order)@[id - 1]]@,
            old(order)@.len() == old(parent_of)@.len(),
            old(order)@.len() <= self.parents().dom().len(),
            forall|x: u64| #[trigger] old(visited)@.contains(x) <==> old(order)@.contains(x),
            old(visited)@.subset_of(self.parents().dom()),
            old(visited)@.finite(),
            old(visited)@.len() == old(order)@.len(),
            forall|i: int, j: int|
                0 <= i < j < old(order)@.len() ==> #[trigger] old(order)@[i] != #[trigger] old(order)@[j],
            forall|j: int|
                0 <= j < old(order)@.len() ==> self.parents().contains_key(#[trigger] old(order)@[j])
                    && self.marked().contains(old(order)@[j]),
        ensures
            final(order)@.len() == old(order)@.len() + count,
            final(parent_of)@.len() == final(order)@.len(),
            final(order)@.len() <= self.parents().dom().len(),
            forall|j: int| 0 <= j < old(order)@.len() ==> #[trigger] final(order)@[j] == old(order)@[j],
            forall|j: int|
                0 <= j < old(order)@.len() ==> #[trigger] final(parent_of)@[j] == old(parent_of)@[j],
            forall|j: int|
                old(order)@.len() <= j < final(order)@.len() ==> #[trigger] final(parent_of)@[j] == id
                    && self.parents()[final(order)@[j]] == old(order)@[id - 1],
            forall|j: int|
                old(order)@.len() <= j < final(order)@.len() - 1 ==> #[trigger] final(order)@[j]
                    < final(order)@[j + 1],
            forall|x: u64| #[trigger] final(visited)@.contains(x) <==> final(order)@.contains(x),
            final(visited)@.subset_of(self.parents().dom()),
            final(visited)@.finite(),
            final(visited)@.len() == final(order)@.len(),
            forall|i: int, j: int|
                0 <= i < j < final(order)@.len() ==> #[trigger] final(order)@[i] != #[trigger] final(order)@[j],
            forall|j: int|
                0 <= j < final(order)@.len() ==> self.parents().contains_key(
                    #[trigger] final(order)@[j],
                ) && self.marked().contains(final(order)@[j]),
            forall|k: int|
                0 <= k < ch@.len() && self.marked().contains(#[trigger] ch@[k]) ==> final(order)@.contains(ch@[k]),
    {
        let ghost pm = self.parent_map@;
        let ghost ext = order@[id - 1];
        let ghost o_start = order@;
        let ghost p_start = parent_of@;
        let mut count: u64 = 0;
        let mut k: usize = 0;
        while k < ch.len()
            invariant
                self.wf(),
                pm == self.parent_map@,
                pm.dom().len() < u32::MAX,
                ch@ == self.child_map@[ext]@,
                self.child_map@.contains_key(ext),
                0 <= k <= ch@.len(),
                order@.len() == o_start.len() + count,
                order@.len() == parent_of@.len(),
                order@.len() <= pm.dom().len(),
                forall|j: int| 0 <= j < o_start.len() ==> #[trigger] order@[j] == o_start[j],
                forall|j: int| 0 <= j < o_start.len() ==> #[trigger] parent_of@[j] == p_start[j],
                forall|j: int|
                    o_start.len() <= j < order@.len() ==> #[trigger] parent_of@[j] == id
                        && pm[order@[j]] == ext,
                forall|j: int, k2: int|
                    o_start.len() <= j < order@.len() && k <= k2 < ch@.len() ==> #[trigger] order@[j]
                        < #[trigger] ch@[k2],
                forall|j: int|
                    o_start.len() <= j < order@.len() - 1 ==> #[trigger] order@[j] < order@[j + 1],
                forall|x: u64| #[trigger] visited@.contains(x) <==> order@.contains(x),
                visited@.subset_of(pm.dom()),
                visited@.finite(),
                visited@.len() == order@.len(),
                forall|i: int, j: int|
                    0 <= i < j < order@.len() ==> #[trigger] order@[i] != #[trigger] order@[j],
                forall|j: int|
                    0 <= j < order@.len() ==> pm.contains_key(#[trigger] order@[j])
                        && self.marked_nodes@.contains(order@[j]),
                forall|k2: int|
                    0 <= k2 < k && self.marked_nodes@.contains(#[trigger] ch@[k2])
                        ==> order@.contains(ch@[k2]),
            decreases ch@.len() - k,
        {
            let x = ch[k];
            proof {
                assert(self.child_map@[ext]@[k as int] == x);
            }
            if self.marked_nodes.contains(&x) && !visited.contains(&x) {
                let ghost o0 = order@;
                proof {
                    assert(!order@.contains(x));
                    assert(pm.contains_key(x) && pm[x] == ext);
                    vstd::set_lib::lemma_len_subset(visited@.insert(x), pm.dom());
                }
                order.push(x);
                parent_of.push(id);
                visited.insert(x);
                count += 1;
                proof {
                    assert(order@[o0.len() as int] == x);
                    assert forall|y: u64| o0.contains(y) implies order@.contains(y) by {
                        let i = choose|i: int| 0 <= i < o0.len() && o0[i] == y;
                        assert(order@[i] == y);
                    }
                    assert forall|y: u64| #[trigger]
                        visited@.contains(y) <==> order@.contains(y) by {
                        if order@.contains(y) && y != x {
                            let i = choose|i: int| 0 <= i < order@.len() && order@[i] == y;
                            assert(o0[i] == y);
                        }
                    }
                    assert forall|i: int, j: int|
                        0 <= i < j < order@.len() implies #[trigger] order@[i]
                        != #[trigger] order@[j] by {
                        if j == o0.len() {
                            assert(o0.contains(order@[i]));
                        }
                    }
                    assert forall|j: int, k2: int|
                        o_start.len() <= j < order@.len() && k + 1 <= k2 < ch@.len() implies #[trigger] order@[j]
                        < #[trigger] ch@[k2] by {
                        assert(self.child_map@[ext]@[k as int] < self.child_map@[ext]@[k2]);
                    }
                }
            } else {
                proof {
                    assert forall|j: int, k2: int|
                        o_start.len() <= j < order@.len() && k + 1 <= k2 < ch@.len() implies #[trigger] order@[j]
                        < #[trigger] ch@[k2] by {
                        assert(order@[j] < ch@[k as int]);
                        assert(self.child_map@[ext]@[k as int] < self.child_map@[ext]@[k2]);
                    }
                    if self.marked_nodes@.contains(x) {
                        assert(visited@.contains(x));
                    }
                }
            }
            k += 1;
        }
        count
    }

    /// Compacts the marked part of the taxonomy into a [`Taxonomy`]: a
    /// breadth-first walk from node 1 numbers the nodes 1, 2, ... in the
    /// order they are reached, and queues the marked children of each node
    /// in increasing external id, so that they form one block of ids. A node
    /// without a scientific name gets the empty name, and a node reached a
    /// second time (only possible when the parent records form a cycle) is
    /// not queued again. The path cache and the id map are left empty.
    #[verifier::rlimit(100)]
    #[verifier::spinoff_prover]
    pub fn convert_to_kraken_taxonomy(&self) -> (r: Taxonomy)
        requires
            self.wf(),
            self.parents().contains_key(1),
            self.parents().dom().len() < u32::MAX,
        ensures
            r.wf(),
            r.nodes@[0].is_zero(),
            r.nodes@[1].external_id == 1,
            forall|i: int| 0 <= i < r.nodes@.len() ==> #[trigger] r.nodes@[i].godparent_id == 0,
            forall|i: int|
                1 <= i < r.nodes@.len() ==> self.marked().contains(
                    #[trigger] r.nodes@[i].external_id,
                ) && self.parents().contains_key(r.nodes@[i].external_id),
            forall|i: int|
                2 <= i < r.nodes@.len() ==> self.parents()[#[trigger] r.nodes@[i].external_id]
                    == r.nodes@[r.nodes@[i].parent_id as int].external_id,
            forall|i: int, j: int|
                1 <= i < j < r.nodes@.len() ==> #[trigger] r.nodes@[i].external_id
                    != #[trigger] r.nodes@[j].external_id,
            forall|i: int, k: int|
                1 <= i < r.nodes@.len() && 0 <= k < self.children(r.nodes@[i].external_id).len()
                    && self.marked().contains(
                    #[trigger] self.children(r.nodes@[i].external_id)[k],
                ) ==> exists|j: int|
                    1 <= j < r.nodes@.len() && #[trigger] r.nodes@[j].external_id == self.children(
                        r.nodes@[i].external_id,
                    )[k],
            forall|c: int|
                2 <= c < r.nodes@.len() - 1 && r.nodes@[c].parent_id == r.nodes@[c
                    + 1].parent_id ==> #[trigger] r.nodes@[c].external_id < r.nodes@[c
                    + 1].external_id,
            forall|i: int|
                1 <= i < r.nodes@.len() ==> str_at(
                    r.name_data@,
                    #[trigger] r.nodes@[i].name_offset as int,
                    self.name_of(r.nodes@[i].external_id),
                ),
            forall|v: int, w: int|
                1 <= v < w < r.nodes@.len() ==> #[trigger] r.nodes@[v].first_child
                    + r.nodes@[v].child_count <= #[trigger] r.nodes@[w].first_child,
            r.name_data@ == join_nul(
                Seq::new(
                    (r.nodes@.len() - 1) as nat,
                    |i: int| self.name_of(r.nodes@[i + 1].external_id),
                ),
            ),
            r.rank_data@ == join_nul(self.rank_list()),
            forall|i: int|
                1 <= i < r.nodes@.len() ==> str_at(
                    r.rank_data@,
                    #[trigger] r.nodes@[i].rank_offset as int,
                    self.rank_of(r.nodes@[i].external_id),
                ),
            r.path_cache@ == Map::<u32, Vec<u32>>::empty(),
            r.external_to_internal_id_map@ == Map::<u64, u32>::empty(),
    {
        let ghost pm = self.parent_map@;
        let ghost mk = self.marked_nodes@;
        let (rank_offsets, rank_data) = self.get_rank_offset_data();
        let ghost rb = join_nul(self.rank_list());
        let mut nodes: Vec<TaxonomyNode> = Vec::new();
        nodes.push(TaxonomyNode::default());
        let mut name_data: Vec<u8> = Vec::new();
        let mut order: Vec<u64> = vec![1];
        let mut parent_of: Vec<u64> = vec![0];
        let mut visited: HashSet<u64> = HashSet::new();
        visited.insert(1);
        proof {
            assert(visited@ =~= set![1u64]);
            assert(order@.contains(1u64)) by {
                assert(order@[0] == 1);
            }
            vstd::set_lib::lemma_len_subset(visited@, pm.dom());
        }
        let mut head: usize = 0;
        while head < order.len()
            invariant
                self.wf(),
                pm == self.parent_map@,
                mk == self.marked_nodes@,
                pm.dom().len() < u32::MAX,
                rank_data@ == rb,
                rb == join_nul(self.rank_list()),
                rank_offsets@.len() == self.rank_list().len(),
                forall|i: int|
                    0 <= i < rank_offsets@.len() ==> #[trigger] rank_offsets@[i] == join_nul(
                        self.rank_list().subrange(0, i),
                    ).len(),
                order@.len() == parent_of@.len(),
                1 <= order@.len() <= pm.dom().len(),
                head <= order@.len(),
                nodes@.len() == head + 1,
                order@[0] == 1,
                parent_of@[0] == 0,
                forall|x: u64| #[trigger] visited@.contains(x) <==> order@.contains(x),
                visited@.subset_of(pm.dom()),
                visited@.finite(),
                visited@.len() == order@.len(),
                forall|i: int, j: int|
                    0 <= i < j < order@.len() ==> #[trigger] order@[i] != #[trigger] order@[j],
                forall|j: int|
                    0 <= j < order@.len() ==> pm.contains_key(#[trigger] order@[j]) && mk.contains(
                        order@[j],
                    ),
                forall|j: int|
                    1 <= j < order@.len() ==> 1 <= #[trigger] parent_of@[j] <= j && parent_of@[j]
                        <= head && pm[order@[j]] == order@[parent_of@[j] - 1],
                nodes@[0].is_zero(),
                forall|i: int| 0 <= i < nodes@.len() ==> #[trigger] nodes@[i].godparent_id == 0,
                forall|v: int, w: int|
                    1 <= v < w <= head ==> #[trigger] nodes@[v].first_child + nodes@[v].child_count
                        <= #[trigger] nodes@[w].first_child,
                name_data@ == join_nul(
                    Seq::new(head as nat, |i: int| self.name_of(order@[i])),
                ),
                forall|i: int|
                    1 <= i <= head ==> (#[trigger] nodes@[i]).external_id == order@[i - 1]
                        && nodes@[i].parent_id == parent_of@[i - 1],
                forall|v: int|
                    1 <= v <= head ==> (#[trigger] nodes@[v]).first_child + nodes@[v].child_count
                        <= order@.len() + 1 && (nodes@[v].child_count > 0
                        ==> nodes@[v].first_child >= 2),
                forall|v: int, j: int|
                    #![trigger nodes@[v], parent_of@[j]]
                    1 <= v <= head && 1 <= j < order@.len() ==> (parent_of@[j] == v <==> nodes@[v].first_child
                        <= j + 1 < nodes@[v].first_child + nodes@[v].child_count),
                forall|i: int|
                    1 <= i <= head ==> str_at(
                        name_data@,
                        #[trigger] nodes@[i].name_offset as int,
                        self.name_of(order@[i - 1]),
                    ),
                forall|i: int|
                    1 <= i <= head ==> str_at(
                        rb,
                        #[trigger] nodes@[i].rank_offset as int,
                        self.rank_of(order@[i - 1]),
                    ),
                forall|j: int|
                    1 <= j < order@.len() - 1 && parent_of@[j] == parent_of@[j + 1] ==> #[trigger] order@[j]
                        < order@[j + 1],
                forall|v: int, k: int|
                    1 <= v <= head && 0 <= k < self.children(order@[v - 1]).len() && mk.contains(
                        #[trigger] self.children(order@[v - 1])[k],
                    ) ==> order@.contains(self.children(order@[v - 1])[k]),
            decreases pm.dom().len() - head,
        {
            let ext = order[head];
            let id: u64 = (head + 1) as u64;
            let name_offset = name_data.len() as u64;
            let ghost nd0 = name_data@;
            match self.name_map.get(&ext) {
                Some(n) => append_nul(&mut name_data, n.as_slice()),
                None => name_data.push(0),
            }
            proof {
                assert(str_at(name_data@, name_offset as int, self.name_of(ext))) by {
                    if !self.name_map@.contains_key(ext) {
                        assert(name_data@.subrange(name_offset as int, name_offset as int)
                            =~= seq![]);
                    } else {
                        assert(name_data@.subrange(
                            name_offset as int,
                            name_offset + self.name_of(ext).len(),
                        ) =~= self.name_of(ext));
                    }
                }
                assert forall|i: int| 1 <= i <= head implies str_at(
                    name_data@,
                    #[trigger] nodes@[i].name_offset as int,
                    self.name_of(order@[i - 1]),
                ) by {
                    lemma_str_at_extend(
                        nd0,
                        name_data@.subrange(nd0.len() as int, name_data@.len() as int),
                        nodes@[i].name_offset as int,
                        self.name_of(order@[i - 1]),
                    );
                    assert(nd0 + name_data@.subrange(nd0.len() as int, name_data@.len() as int)
                        =~= name_data@);
                }
            }
            proof {
                let prev = Seq::new(head as nat, |i: int| self.name_of(order@[i]));
                let next = Seq::new((head + 1) as nat, |i: int| self.name_of(order@[i]));
                assert(next.drop_last() =~= prev);
                assert(name_data@ =~= nd0 + self.name_of(ext) + seq![0u8]);
                assert(name_data@ == join_nul(next));
            }
            let rank_offset = self.rank_offset_of(&rank_offsets, ext);
            let first_child = (order.len() + 1) as u64;
            let mut child_count: u64 = 0;
            let ghost o0 = order@;
            match self.child_map.get(&ext) {
                Some(ch) => {
                    child_count = self.enqueue_children(
                        ch,
                        id,
                        &mut order,
                        &mut parent_of,
                        &mut visited,
                    );
                },
                None => {},
            }
            proof {
                assert(Seq::new((head + 1) as nat, |i: int| self.name_of(order@[i])) =~= Seq::new(
                    (head + 1) as nat,
                    |i: int| self.name_of(o0[i]),
                ));
                assert forall|y: u64| o0.contains(y) implies order@.contains(y) by {
                    let i = choose|i: int| 0 <= i < o0.len() && o0[i] == y;
                    assert(order@[i] == y);
                }
                assert forall|v: int, k: int|
                    1 <= v <= head + 1 && 0 <= k < self.children(order@[v - 1]).len() && mk.contains(
                        #[trigger] self.children(order@[v - 1])[k],
                    ) implies order@.contains(self.children(order@[v - 1])[k]) by {
                    assert(order@[v - 1] == o0[v - 1]);
                    if v == head + 1 && !self.child_map@.contains_key(ext) {
                        assert(self.children(ext).len() == 0);
                    }
                }
            }
            let node = TaxonomyNode {
                parent_id: parent_of[head],
                first_child,
                child_count,
                name_offset,
                rank_offset,
                external_id: ext,
                godparent_id: 0,
            };
            nodes.push(node);
            head += 1;
        }
        proof {
            vstd::set_lib::lemma_len_subset(visited@, pm.dom());
            assert(Seq::new(head as nat, |i: int| self.name_of(order@[i])) =~= Seq::new(
                (nodes@.len() - 1) as nat,
                |i: int| self.name_of(nodes@[i + 1].external_id),
            ));
        }
        let r = Taxonomy {
            path_cache: HashMap::new(),
            nodes,
            name_data,
            rank_data,
            external_to_internal_id_map: HashMap::new(),
        };
        proof {
            assert forall|i: int, k: int|
                1 <= i < r.nodes@.len() && 0 <= k < self.children(r.nodes@[i].external_id).len()
                    && self.marked().contains(
                    #[trigger] self.children(r.nodes@[i].external_id)[k],
                ) implies exists|j: int|
                    1 <= j < r.nodes@.len() && #[trigger] r.nodes@[j].external_id == self.children(
                        r.nodes@[i].external_id,
                    )[k] by {
                let y = self.children(r.nodes@[i].external_id)[k];
                assert(order@.contains(y));
                let idx = choose|idx: int| 0 <= idx < order@.len() && order@[idx] == y;
                assert(r.nodes@[idx + 1].external_id == y);
            }
        }
        r
    }

    /// Whether `taxid` is marked to be kept.
    pub fn is_marked(&self, taxid: u64) -> (r: bool)
        ensures
            r == self.marked().contains(taxid),
    {
        self.marked_nodes.contains(&taxid)
    }

    /// Whether the nodes file gave a record for the root, node 1.
    pub fn has_root(&self) -> (r: bool)
        ensures
            r == self.parents().contains_key(1),
    {
        self.parent_map.contains_key(&1)
    }

    /// Number of nodes that have a parent record.
    pub fn node_record_count(&self) -> (r: usize)
        ensures
            r == self.parents().dom().len(),
    {
        self.parent_map.len()
    }

    /// Marks `taxid` and its ancestors, stopping at the first node that is
    /// already marked or has no parent.
    pub fn mark_node(&mut self, taxid: u64)
        ensures
            final(self).parents() == old(self).parents(),
            is_mark_result(old(self).parents(), old(self).marked(), taxid, final(self).marked()),
            old(self).wf() ==> final(self).wf(),
            forall|x: u64| #[trigger] final(self).name_of(x) == old(self).name_of(x),
            forall|x: u64| #[trigger] final(self).rank_of(x) == old(self).rank_of(x),
            forall|x: u64| #[trigger] final(self).children(x) == old(self).children(x),
            final(self).rank_list() == old(self).rank_list(),
    {
        let ghost parents = self.parent_map@;
        let ghost before = self.marked_nodes@;
        let ghost mut k: nat = 0;
        let mut current = taxid;
        proof {
            assert(chain_prefix(parents, taxid, 0) =~= Set::empty());
            assert(before.union(chain_prefix(parents, taxid, 0)) =~= before);
        }
        while !self.marked_nodes.contains(&current)
            invariant
                self.parent_map@ == parents,
                self.name_map == old(self).name_map,
                self.rank_map == old(self).rank_map,
                self.child_map == old(self).child_map,
                self.known_ranks == old(self).known_ranks,
                before.subset_of(self.marked_nodes@),
                current == ancestor_at(parents, taxid, k),
                self.marked_nodes@ == before.union(chain_prefix(parents, taxid, k)),
                forall|j: nat|
                    j < k ==> !before.union(chain_prefix(parents, taxid, j)).contains(
                        #[trigger] ancestor_at(parents, taxid, j),
                    ),
            ensures
                self.parent_map@ == parents,
                self.name_map == old(self).name_map,
                self.rank_map == old(self).rank_map,
                self.child_map == old(self).child_map,
                self.known_ranks == old(self).known_ranks,
                before.subset_of(self.marked_nodes@),
                self.marked_nodes@ == before.union(chain_prefix(parents, taxid, k)),
                self.marked_nodes@.contains(ancestor_at(parents, taxid, k)),
                forall|j: nat|
                    j < k ==> !before.union(chain_prefix(parents, taxid, j)).contains(
                        #[trigger] ancestor_at(parents, taxid, j),
                    ),
            decreases parents.dom().difference(self.marked_nodes@).len(),
        {
            let ghost m0 = self.marked_nodes@;
            assert(!before.union(chain_prefix(parents, taxid, k)).contains(
                ancestor_at(parents, taxid, k),
            ));
            self.marked_nodes.insert(current);
            proof {
                assert(chain_prefix(parents, taxid, k + 1) =~= chain_prefix(parents, taxid, k).insert(
                    current,
                ));
                assert(self.marked_nodes@ =~= before.union(chain_prefix(parents, taxid, k + 1)));
            }
            match self.parent_map.get(&current) {
                Some(p) => {
                    proof {
                        assert(parents.dom().difference(self.marked_nodes@) =~= parents.dom().difference(
                            m0,
                        ).remove(current));
                        assert(parents.dom().difference(m0).contains(current));
                        k = k + 1;
                    }
                    current = *p;
                },
                None => {
                    proof {
                        let ghost k0 = k;
                        k = k + 1;
                        assert(ancestor_at(parents, taxid, k) == current);
                        assert(chain_prefix(parents, taxid, k).contains(current)) by {
                            assert(current == ancestor_at(parents, taxid, k0));
                        }
                    }
                    break ;
                },
            }
        }
        assert(self.marked_nodes@ == before.union(chain_prefix(parents, taxid, k)));
        assert(before.contains(1) ==> self.marked_nodes@.contains(1));
    }
}

} // verus!
