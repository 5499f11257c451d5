//! The binary taxonomy file: a magic tag, three little-endian `u64` counts,
//! the node records as seven little-endian `u64` fields each, then the name
//! and rank blobs.
use crate::error::TaxonomyError;
use crate::taxonomy::{Taxonomy, TaxonomyNode, child_block_has, id_map_of, tree_wf};
use std::collections::HashMap;
use vstd::prelude::*;

verus! {

/// The eight bytes of `v`, least significant first.
pub open spec fn u64_le(v: u64) -> Seq<u8> {
    seq![
        (v & 0xff) as u8,
        ((v >> 8u64) & 0xff) as u8,
        ((v >> 16u64) & 0xff) as u8,
        ((v >> 24u64) & 0xff) as u8,
        ((v >> 32u64) & 0xff) as u8,
        ((v >> 40u64) & 0xff) as u8,
        ((v >> 48u64) & 0xff) as u8,
        ((v >> 56u64) & 0xff) as u8,
    ]
}

/// The `u64` whose little-endian bytes are `b[0..8]`.
pub open spec fn le_u64(b: Seq<u8>) -> u64 {
    (b[0] as u64) | ((b[1] as u64) << 8u64) | ((b[2] as u64) << 16u64) | ((b[3] as u64)
        << 24u64) | ((b[4] as u64) << 32u64) | ((b[5] as u64) << 40u64) | ((b[6] as u64)
        << 48u64) | ((b[7] as u64) << 56u64)
}

/// Reading back the bytes of a `u64` gives the `u64`.
pub proof fn lemma_le_u64_round_trip(v: u64)
    ensures
        le_u64(u64_le(v)) == v,
{
    let b = u64_le(v);
    let b0 = (v & 0xff) as u8;
    let b1 = ((v >> 8u64) & 0xff) as u8;
    let b2 = ((v >> 16u64) & 0xff) as u8;
    let b3 = ((v >> 24u64) & 0xff) as u8;
    let b4 = ((v >> 32u64) & 0xff) as u8;
    let b5 = ((v >> 40u64) & 0xff) as u8;
    let b6 = ((v >> 48u64) & 0xff) as u8;
    let b7 = ((v >> 56u64) & 0xff) as u8;
    assert(b[0] == b0 && b[1] == b1 && b[2] == b2 && b[3] == b3 && b[4] == b4 && b[5] == b5
        && b[6] == b6 && b[7] == b7);
    assert((b0 as u64) | ((b1 as u64) << 8u64) | ((b2 as u64) << 16u64) | ((b3 as u64) << 24u64)
        | ((b4 as u64) << 32u64) | ((b5 as u64) << 40u64) | ((b6 as u64) << 48u64) | ((b7 as u64)
        << 56u64) == v) by (bit_vector)
        requires
            b0 == (v & 0xff) as u8,
            b1 == ((v >> 8u64) & 0xff) as u8,
            b2 == ((v >> 16u64) & 0xff) as u8,
            b3 == ((v >> 24u64) & 0xff) as u8,
            b4 == ((v >> 32u64) & 0xff) as u8,
            b5 == ((v >> 40u64) & 0xff) as u8,
            b6 == ((v >> 48u64) & 0xff) as u8,
            b7 == ((v >> 56u64) & 0xff) as u8,
    ;
}

/// Appends the little-endian bytes of `v`.
fn push_u64(out: &mut Vec<u8>, v: u64)
    ensures
        final(out)@ == old(out)@ + u64_le(v),
{
    out.push((v & 0xff) as u8);
    out.push(((v >> 8u64) & 0xff) as u8);
    out.push(((v >> 16u64) & 0xff) as u8);
    out.push(((v >> 24u64) & 0xff) as u8);
    out.push(((v >> 32u64) & 0xff) as u8);
    out.push(((v >> 40u64) & 0xff) as u8);
    out.push(((v >> 48u64) & 0xff) as u8);
    out.push(((v >> 56u64) & 0xff) as u8);
    assert(final(out)@ =~= old(out)@ + u64_le(v));
}

/// Reads the little-endian `u64` at `at`.
fn read_u64(b: &[u8], at: usize) -> (r: u64)
    requires
        at + 8 <= b@.len(),
    ensures
        r == le_u64(b@.subrange(at as int, at + 8)),
{
    let ghost s = b@.subrange(at as int, at + 8);
    assert(s[0] == b@[at as int] && s[1] == b@[at + 1] && s[2] == b@[at + 2] && s[3] == b@[at
        + 3] && s[4] == b@[at + 4] && s[5] == b@[at + 5] && s[6] == b@[at + 6] && s[7] == b@[at
        + 7]);
    (b[at] as u64) | ((b[at + 1] as u64) << 8u64) | ((b[at + 2] as u64) << 16u64) | ((b[at
        + 3] as u64) << 24u64) | ((b[at + 4] as u64) << 32u64) | ((b[at + 5] as u64) << 40u64)
        | ((b[at + 6] as u64) << 48u64) | ((b[at + 7] as u64) << 56u64)
}

/// Appends the record of `n`.
fn push_node(out: &mut Vec<u8>, n: &TaxonomyNode)
    ensures
        final(out)@ == old(out)@ + node_le(*n),
{
    push_u64(out, n.parent_id);
    push_u64(out, n.first_child);
    push_u64(out, n.child_count);
    push_u64(out, n.name_offset);
    push_u64(out, n.rank_offset);
    push_u64(out, n.external_id);
    push_u64(out, n.godparent_id);
    assert(final(out)@ =~= old(out)@ + node_le(*n));
}

/// Appends the bytes of `s`.
fn append_bytes(out: &mut Vec<u8>, s: &[u8])
    ensures
        final(out)@ == old(out)@ + s@,
{
    let mut i: usize = 0;
    while i < s.len()
        invariant
            0 <= i <= s@.len(),
            out@ == old(out)@ + s@.subrange(0, i as int),
        decreases s@.len() - i,
    {
        out.push(s[i]);
        i += 1;
        assert(out@ =~= old(out)@ + s@.subrange(0, i as int));
    }
    assert(s@.subrange(0, i as int) =~= s@);
}

/// The magic tag that opens the file.
pub open spec fn magic() -> Seq<u8> {
    seq![0x4bu8, 0x32u8, 0x54u8, 0x41u8, 0x58u8, 0x44u8, 0x41u8, 0x54u8]
}

/// The 56 bytes of one node record.
pub open spec fn node_le(n: TaxonomyNode) -> Seq<u8> {
    u64_le(n.parent_id) + u64_le(n.first_child) + u64_le(n.child_count) + u64_le(n.name_offset)
        + u64_le(n.rank_offset) + u64_le(n.external_id) + u64_le(n.godparent_id)
}

/// The node record held in `b[0..56]`.
pub open spec fn le_node(b: Seq<u8>) -> TaxonomyNode {
    TaxonomyNode {
        parent_id: le_u64(b.subrange(0, 8)),
        first_child: le_u64(b.subrange(8, 16)),
        child_count: le_u64(b.subrange(16, 24)),
        name_offset: le_u64(b.subrange(24, 32)),
        rank_offset: le_u64(b.subrange(32, 40)),
        external_id: le_u64(b.subrange(40, 48)),
        godparent_id: le_u64(b.subrange(48, 56)),
    }
}

/// The records of `ns`, one after the other.
pub open spec fn nodes_le(ns: Seq<TaxonomyNode>) -> Seq<u8>
    decreases ns.len(),
{
    if ns.len() == 0 {
        seq![]
    } else {
        nodes_le(ns.drop_last()) + node_le(ns.last())
    }
}

/// The file that holds `t`.
pub open spec fn encoding(t: Taxonomy) -> Seq<u8> {
    magic() + u64_le(t.nodes@.len() as u64) + u64_le(t.name_data@.len() as u64) + u64_le(
        t.rank_data@.len() as u64,
    ) + nodes_le(t.nodes@) + t.name_data@ + t.rank_data@
}

/// Whether `b` opens with the magic tag.
pub open spec fn has_magic(b: Seq<u8>) -> bool {
    b.len() >= 8 && b.subrange(0, 8) == magic()
}

/// The `k`-th count of the header: nodes, name bytes, rank bytes.
pub open spec fn header_count(b: Seq<u8>, k: int) -> u64 {
    le_u64(b.subrange(8 + 8 * k, 16 + 8 * k))
}

/// Where the node records end.
pub open spec fn nodes_end(b: Seq<u8>) -> int {
    32 + 56 * header_count(b, 0)
}

/// Where the data that the header announces ends.
pub open spec fn data_end(b: Seq<u8>) -> int {
    nodes_end(b) + header_count(b, 1) + header_count(b, 2)
}

/// The node records that the header announces.
pub open spec fn decoded_nodes(b: Seq<u8>) -> Seq<TaxonomyNode> {
    Seq::new(
        header_count(b, 0) as nat,
        |i: int| le_node(b.subrange(32 + 56 * i, 32 + 56 * i + 56)),
    )
}

/// The name blob that the header announces.
pub open spec fn decoded_names(b: Seq<u8>) -> Seq<u8> {
    b.subrange(nodes_end(b), nodes_end(b) + header_count(b, 1))
}

/// The rank blob that the header announces.
pub open spec fn decoded_ranks(b: Seq<u8>) -> Seq<u8> {
    b.subrange(nodes_end(b) + header_count(b, 1), data_end(b))
}

/// Reading back a node record gives the node.
pub proof fn lemma_node_round_trip(n: TaxonomyNode)
    ensures
        node_le(n).len() == 56,
        le_node(node_le(n)) == n,
{
    let b = node_le(n);
    assert(b.subrange(0, 8) =~= u64_le(n.parent_id));
    assert(b.subrange(8, 16) =~= u64_le(n.first_child));
    assert(b.subrange(16, 24) =~= u64_le(n.child_count));
    assert(b.subrange(24, 32) =~= u64_le(n.name_offset));
    assert(b.subrange(32, 40) =~= u64_le(n.rank_offset));
    assert(b.subrange(40, 48) =~= u64_le(n.external_id));
    assert(b.subrange(48, 56) =~= u64_le(n.godparent_id));
    lemma_le_u64_round_trip(n.parent_id);
    lemma_le_u64_round_trip(n.first_child);
    lemma_le_u64_round_trip(n.child_count);
    lemma_le_u64_round_trip(n.name_offset);
    lemma_le_u64_round_trip(n.rank_offset);
    lemma_le_u64_round_trip(n.external_id);
    lemma_le_u64_round_trip(n.godparent_id);
}

/// The records of a node array lie 56 bytes apart, in order.
pub proof fn lemma_nodes_le(ns: Seq<TaxonomyNode>)
    ensures
        nodes_le(ns).len() == 56 * ns.len(),
        forall|i: int|
            0 <= i < ns.len() ==> #[trigger] nodes_le(ns).subrange(56 * i, 56 * i + 56)
                == node_le(ns[i]),
    decreases ns.len(),
{
    if ns.len() > 0 {
        lemma_nodes_le(ns.drop_last());
        lemma_node_round_trip(ns.last());
        let a = nodes_le(ns.drop_last());
        let l = node_le(ns.last());
        assert forall|i: int| 0 <= i < ns.len() implies #[trigger] nodes_le(ns).subrange(
            56 * i,
            56 * i + 56,
        ) == node_le(ns[i]) by {
            if i < ns.len() - 1 {
                assert((a + l).subrange(56 * i, 56 * i + 56) =~= a.subrange(56 * i, 56 * i + 56));
                assert(ns.drop_last()[i] == ns[i]);
            } else {
                assert((a + l).subrange(56 * i, 56 * i + 56) =~= l);
            }
        }
    }
}

/// Decoding the encoding of a taxonomy whose encoding fits in memory gives
/// back the same records and blobs.
#[verifier::rlimit(50)]
pub proof fn lemma_round_trip(t: Taxonomy)
    requires
        encoding(t).len() <= usize::MAX,
    ensures
        has_magic(encoding(t)),
        encoding(t).len() >= 32,
        data_end(encoding(t)) == encoding(t).len(),
        decoded_nodes(encoding(t)) == t.nodes@,
        decoded_names(encoding(t)) == t.name_data@,
        decoded_ranks(encoding(t)) == t.rank_data@,
{
    let b = encoding(t);
    let n = t.nodes@.len();
    let nl = t.name_data@.len();
    let rl = t.rank_data@.len();
    lemma_nodes_le(t.nodes@);
    let nb = nodes_le(t.nodes@);
    let h = magic() + u64_le(n as u64) + u64_le(nl as u64) + u64_le(rl as u64);
    assert(h.len() == 32);
    assert(b == h + nb + t.name_data@ + t.rank_data@);
    assert(b.subrange(0, 32) =~= h);
    assert(h.subrange(0, 8) =~= magic());
    assert(h.subrange(8, 16) =~= u64_le(n as u64));
    assert(h.subrange(16, 24) =~= u64_le(nl as u64));
    assert(h.subrange(24, 32) =~= u64_le(rl as u64));
    assert(b.subrange(0, 8) =~= h.subrange(0, 8));
    assert(b.subrange(8, 16) =~= h.subrange(8, 16));
    assert(b.subrange(16, 24) =~= h.subrange(16, 24));
    assert(b.subrange(24, 32) =~= h.subrange(24, 32));
    lemma_le_u64_round_trip(n as u64);
    lemma_le_u64_round_trip(nl as u64);
    lemma_le_u64_round_trip(rl as u64);
    assert(header_count(b, 0) == n);
    assert(header_count(b, 1) == nl);
    assert(header_count(b, 2) == rl);
    assert forall|i: int| 0 <= i < n implies #[trigger] decoded_nodes(b)[i] == t.nodes@[i] by {
        assert(b.subrange(32 + 56 * i, 32 + 56 * i + 56) =~= nb.subrange(56 * i, 56 * i + 56));
        assert(nodes_le(t.nodes@).subrange(56 * i, 56 * i + 56) == node_le(t.nodes@[i]));
        lemma_node_round_trip(t.nodes@[i]);
    }
    assert(decoded_nodes(b) =~= t.nodes@);
    assert(decoded_names(b) =~= t.name_data@);
    assert(decoded_ranks(b) =~= t.rank_data@);
}

/// Whether a node array forms a compacted tree.
#[verifier::rlimit(40)]
fn check_tree(nodes: &Vec<TaxonomyNode>) -> (r: bool)
    ensures
        r == tree_wf(nodes@),
{
    let n = nodes.len();
    if n < 2 || n > u32::MAX as usize {
        return false;
    }
    if nodes[1].parent_id != 0 {
        return false;
    }
    let mut c: usize = 2;
    while c < n
        invariant
            n == nodes@.len(),
            2 <= n <= u32::MAX,
            2 <= c <= n,
            forall|w: int| 2 <= w < c ==> 1 <= #[trigger] nodes@[w].parent_id < w,
            forall|w: int|
                2 <= w < c ==> child_block_has(nodes@, (#[trigger] nodes@[w]).parent_id as int, w),
        decreases n - c,
    {
        let p = nodes[c].parent_id;
        if p < 1 || p >= c as u64 {
            return false;
        }
        let fc = nodes[p as usize].first_child;
        let cnt = nodes[p as usize].child_count;
        if !(fc <= c as u64 && (c as u64 - fc) < cnt) {
            return false;
        }
        c += 1;
    }
    let mut v: usize = 1;
    while v < n
        invariant
            n == nodes@.len(),
            2 <= n <= u32::MAX,
            1 <= v <= n,
            forall|w: int| 2 <= w < n ==> 1 <= #[trigger] nodes@[w].parent_id < w,
            forall|w: int|
                2 <= w < n ==> child_block_has(nodes@, (#[trigger] nodes@[w]).parent_id as int, w),
            forall|u: int|
                1 <= u < v ==> (#[trigger] nodes@[u]).first_child + nodes@[u].child_count <= n && (
                nodes@[u].child_count > 0 ==> nodes@[u].first_child >= 2),
            forall|u: int, w: int|
                #![trigger nodes@[u], nodes@[w]]
                1 <= u < v && child_block_has(nodes@, u, w) ==> nodes@[w].parent_id == u,
        decreases n - v,
    {
        let fc = nodes[v].first_child;
        let cnt = nodes[v].child_count;
        if cnt > n as u64 || fc > n as u64 - cnt {
            return false;
        }
        if cnt > 0 && fc < 2 {
            return false;
        }
        let mut k: u64 = 0;
        while k < cnt
            invariant
                n == nodes@.len(),
                1 <= v < n,
                fc == nodes@[v as int].first_child,
                cnt == nodes@[v as int].child_count,
                fc + cnt <= n,
                0 <= k <= cnt,
                forall|w: int| fc <= w < fc + k ==> #[trigger] nodes@[w].parent_id == v,
            decreases cnt - k,
        {
            if nodes[(fc + k) as usize].parent_id != v as u64 {
                return false;
            }
            k += 1;
        }
        proof {
            assert forall|u: int, w: int|
                #![trigger nodes@[u], nodes@[w]]
                1 <= u < v + 1 && child_block_has(nodes@, u, w) implies nodes@[w].parent_id == u by {
                if u == v {
                    assert(fc <= w < fc + k);
                }
            }
        }
        v += 1;
    }
    proof {
        assert forall|u: int, w: int|
            #![trigger nodes@[u], nodes@[w]]
            1 <= u < n && 2 <= w < n implies (nodes@[w].parent_id == u <==> child_block_has(
                nodes@,
                u,
                w,
            )) by {
            if nodes@[w].parent_id == u {
                assert(child_block_has(nodes@, nodes@[w].parent_id as int, w));
            }
        }
    }
    true
}

/// Reads the node record at `at`.
fn read_node(b: &[u8], at: usize) -> (r: TaxonomyNode)
    requires
        at + 56 <= b@.len() <= usize::MAX,
    ensures
        r == le_node(b@.subrange(at as int, at + 56)),
{
    let ghost s = b@.subrange(at as int, at + 56);
    assert(s.subrange(0, 8) =~= b@.subrange(at as int, at + 8));
    assert(s.subrange(8, 16) =~= b@.subrange(at + 8, at + 16));
    assert(s.subrange(16, 24) =~= b@.subrange(at + 16, at + 24));
    assert(s.subrange(24, 32) =~= b@.subrange(at + 24, at + 32));
    assert(s.subrange(32, 40) =~= b@.subrange(at + 32, at + 40));
    assert(s.subrange(40, 48) =~= b@.subrange(at + 40, at + 48));
    assert(s.subrange(48, 56) =~= b@.subrange(at + 48, at + 56));
    TaxonomyNode {
        parent_id: read_u64(b, at),
        first_child: read_u64(b, at + 8),
        child_count: read_u64(b, at + 16),
        name_offset: read_u64(b, at + 24),
        rank_offset: read_u64(b, at + 32),
        external_id: read_u64(b, at + 40),
        godparent_id: read_u64(b, at + 48),
    }
}

/// A copy of `b[start..end]`.
fn copy_range(b: &[u8], start: usize, end: usize) -> (r: Vec<u8>)
    requires
        start <= end <= b@.len(),
    ensures
        r@ == b@.subrange(start as int, end as int),
{
    let mut r: Vec<u8> = Vec::new();
    let mut i: usize = start;
    while i < end
        invariant
            start <= i <= end,
            end <= b@.len(),
            r@ == b@.subrange(start as int, i as int),
        decreases end - i,
    {
        r.push(b[i]);
        i += 1;
        assert(r@ =~= b@.subrange(start as int, i as int));
    }
    r
}

impl Taxonomy {
    /// Whether the node array forms a compacted tree.
    pub fn is_well_formed(&self) -> (r: bool)
        ensures
            r == self.wf(),
    {
        check_tree(&self.nodes)
    }

    /// The binary file for this taxonomy.
    pub fn to_bytes(&self) -> (r: Vec<u8>)
        ensures
            r@ == encoding(*self),
            r@.len() <= usize::MAX,
    {
        let mut out: Vec<u8> = Vec::new();
        out.push(0x4b);
        out.push(0x32);
        out.push(0x54);
        out.push(0x41);
        out.push(0x58);
        out.push(0x44);
        out.push(0x41);
        out.push(0x54);
        assert(out@ =~= magic());
        push_u64(&mut out, self.nodes.len() as u64);
        push_u64(&mut out, self.name_data.len() as u64);
        push_u64(&mut out, self.rank_data.len() as u64);
        let ghost head = out@;
        let mut i: usize = 0;
        while i < self.nodes.len()
            invariant
                0 <= i <= self.nodes@.len(),
                out@ == head + nodes_le(self.nodes@.subrange(0, i as int)),
            decreases self.nodes@.len() - i,
        {
            push_node(&mut out, &self.nodes[i]);
            proof {
                assert(self.nodes@.subrange(0, i + 1).drop_last() =~= self.nodes@.subrange(
                    0,
                    i as int,
                ));
                assert(out@ =~= head + nodes_le(self.nodes@.subrange(0, i + 1)));
            }
            i += 1;
        }
        assert(self.nodes@.subrange(0, i as int) =~= self.nodes@);
        append_bytes(&mut out, self.name_data.as_slice());
        append_bytes(&mut out, self.rank_data.as_slice());
        // reading the length tells the verifier that it fits in a usize
        let _n = out.len();
        out
    }

    /// Loads a taxonomy from the bytes of its file: checks the magic tag,
    /// reads the header, the node records and the two blobs (bytes past
    /// them are ignored), checks that the records form a compacted tree, then
    /// builds the id map and the path cache.
    #[verifier::rlimit(60)]
    pub fn from_bytes(b: &[u8]) -> (r: Result<Taxonomy, TaxonomyError>)
        ensures
            !has_magic(b@) ==> r == Err::<Taxonomy, TaxonomyError>(TaxonomyError::BadMagic),
            has_magic(b@) && (b@.len() < 32 || b@.len() < data_end(b@)) ==> r == Err::<
                Taxonomy,
                TaxonomyError,
            >(TaxonomyError::Truncated),
            has_magic(b@) && b@.len() >= 32 && b@.len() >= data_end(b@) && !tree_wf(
                decoded_nodes(b@),
            ) ==> r == Err::<Taxonomy, TaxonomyError>(TaxonomyError::Malformed),
            has_magic(b@) && b@.len() >= 32 && b@.len() >= data_end(b@) && tree_wf(
                decoded_nodes(b@),
            ) ==> r is Ok,
            r is Ok ==> {
                let t = r->Ok_0;
                &&& t.nodes@ == decoded_nodes(b@)
                &&& t.name_data@ == decoded_names(b@)
                &&& t.rank_data@ == decoded_ranks(b@)
                &&& t.wf()
                &&& t.cache_wf()
                &&& t.external_to_internal_id_map@ == id_map_of(t.nodes@)
            },
    {
        if b.len() < 8 {
            return Err(TaxonomyError::BadMagic);
        }
        if b[0] != 0x4b || b[1] != 0x32 || b[2] != 0x54 || b[3] != 0x41 || b[4] != 0x58 || b[5]
            != 0x44 || b[6] != 0x41 || b[7] != 0x54 {
            proof {
                if has_magic(b@) {
                    assert(b@.subrange(0, 8)[0] == b@[0]);
                    assert(b@.subrange(0, 8)[1] == b@[1]);
                    assert(b@.subrange(0, 8)[2] == b@[2]);
                    assert(b@.subrange(0, 8)[3] == b@[3]);
                    assert(b@.subrange(0, 8)[4] == b@[4]);
                    assert(b@.subrange(0, 8)[5] == b@[5]);
                    assert(b@.subrange(0, 8)[6] == b@[6]);
                    assert(b@.subrange(0, 8)[7] == b@[7]);
                }
            }
            return Err(TaxonomyError::BadMagic);
        }
        assert(b@.subrange(0, 8) =~= magic());
        if b.len() < 32 {
            return Err(TaxonomyError::Truncated);
        }
        let nc = read_u64(b, 8);
        let nl = read_u64(b, 16);
        let rl = read_u64(b, 24);
        assert(nc == header_count(b@, 0));
        assert(nl == header_count(b@, 1));
        assert(rl == header_count(b@, 2));
        let rest = (b.len() - 32) as u64;
        if nc > rest / 56 {
            return Err(TaxonomyError::Truncated);
        }
        let nodes_end: usize = 32 + 56 * (nc as usize);
        if nl > (b.len() - nodes_end) as u64 {
            return Err(TaxonomyError::Truncated);
        }
        let names_end: usize = nodes_end + nl as usize;
        if rl > (b.len() - names_end) as u64 {
            return Err(TaxonomyError::Truncated);
        }
        let ranks_end: usize = names_end + rl as usize;
        assert(ranks_end == data_end(b@));
        let mut nodes: Vec<TaxonomyNode> = Vec::new();
        let count = nc as usize;
        let mut i: usize = 0;
        while i < count
            invariant
                count == header_count(b@, 0),
                b@.len() <= usize::MAX,
                32 + 56 * count <= b@.len(),
                0 <= i <= count,
                nodes@.len() == i,
                forall|j: int|
                    0 <= j < i ==> #[trigger] nodes@[j] == le_node(
                        b@.subrange(32 + 56 * j, 32 + 56 * j + 56),
                    ),
            decreases count - i,
        {
            let node = read_node(b, 32 + 56 * i);
            nodes.push(node);
            i += 1;
        }
        assert(nodes@ =~= decoded_nodes(b@));
        let name_data = copy_range(b, nodes_end, names_end);
        let rank_data = copy_range(b, names_end, ranks_end);
        if !check_tree(&nodes) {
            return Err(TaxonomyError::Malformed);
        }
        let mut t = Taxonomy {
            path_cache: HashMap::new(),
            nodes,
            name_data,
            rank_data,
            external_to_internal_id_map: HashMap::new(),
        };
        t.generate_external_to_internal_id_map();
        t.build_path_cache();
        Ok(t)
    }
}

} // verus!
