//! Reading the tab-pipe-tab separated taxonomy dumps.
use crate::bytes::{bytes_cmp, bytes_eq, lex_lt};
use crate::error::TaxonomyError;
use std::collections::HashMap;
use vstd::prelude::*;

verus! {

/// The pieces of `s[start..]` split at each occurrence of `sep` found by a
/// left-to-right scan from `i`, the current piece having begun at `start`.
pub open spec fn split_from(s: Seq<u8>, sep: Seq<u8>, start: int, i: int) -> Seq<Seq<u8>>
    recommends
        sep.len() > 0,
        0 <= start <= i <= s.len(),
    decreases s.len() - i,
{
    if i < 0 || i >= s.len() || sep.len() == 0 {
        seq![s.subrange(start, s.len() as int)]
    } else if i + sep.len() <= s.len() && s.subrange(i, i + sep.len()) == sep {
        seq![s.subrange(start, i)] + split_from(s, sep, i + sep.len(), i + sep.len())
    } else {
        split_from(s, sep, start, i + 1)
    }
}

/// `s` split at each occurrence of `sep`, as `str::split` does.
pub open spec fn split_spec(s: Seq<u8>, sep: Seq<u8>) -> Seq<Seq<u8>> {
    split_from(s, sep, 0, 0)
}

/// The byte views of a list of byte vectors.
pub open spec fn views(v: Seq<Vec<u8>>) -> Seq<Seq<u8>> {
    v.map_values(|x: Vec<u8>| x@)
}

/// Whether `s[i..]` starts with `sep`.
fn starts_at(s: &[u8], i: usize, sep: &[u8]) -> (r: bool)
    requires
        i <= s@.len(),
    ensures
        r == (i + sep@.len() <= s@.len() && s@.subrange(i as int, i + sep@.len()) == sep@),
{
    let n = s.len();
    if sep.len() > n - i {
        return false;
    }
    let mut k: usize = 0;
    while k < sep.len()
        invariant
            n == s@.len(),
            i + sep@.len() <= s@.len(),
            0 <= k <= sep@.len(),
            forall|j: int| 0 <= j < k ==> s@[i + j] == sep@[j],
        decreases sep@.len() - k,
    {
        if s[i + k] != sep[k] {
            assert(s@.subrange(i as int, i + sep@.len())[k as int] != sep@[k as int]);
            return false;
        }
        k += 1;
    }
    assert(s@.subrange(i as int, i + sep@.len()) =~= sep@);
    true
}

/// A copy of `s[start..end]`.
fn slice_copy(s: &[u8], start: usize, end: usize) -> (r: Vec<u8>)
    requires
        start <= end <= s@.len(),
    ensures
        r@ == s@.subrange(start as int, end as int),
{
    let mut r: Vec<u8> = Vec::new();
    let mut i: usize = start;
    while i < end
        invariant
            start <= i <= end,
            end <= s@.len(),
            r@ == s@.subrange(start as int, i as int),
        decreases end - i,
    {
        r.push(s[i]);
        i += 1;
        assert(r@ =~= s@.subrange(start as int, i as int));
    }
    r
}

/// Splits `s` at each occurrence of `sep`.
pub fn split_bytes(s: &[u8], sep: &[u8]) -> (r: Vec<Vec<u8>>)
    requires
        sep@.len() > 0,
    ensures
        views(r@) == split_spec(s@, sep@),
{
    let mut out: Vec<Vec<u8>> = Vec::new();
    let mut start: usize = 0;
    let mut i: usize = 0;
    while i < s.len()
        invariant
            sep@.len() > 0,
            0 <= start <= i <= s@.len(),
            views(out@) + split_from(s@, sep@, start as int, i as int) == split_spec(s@, sep@),
        decreases s@.len() - i,
    {
        if starts_at(s, i, sep) {
            let piece = slice_copy(s, start, i);
            let ghost before = out@;
            out.push(piece);
            proof {
                assert(views(out@) =~= views(before) + seq![s@.subrange(start as int, i as int)]);
                assert(views(out@) + split_from(s@, sep@, (i + sep@.len()) as int, (i
                    + sep@.len()) as int) =~= views(before) + split_from(
                    s@,
                    sep@,
                    start as int,
                    i as int,
                ));
            }
            i = i + sep.len();
            start = i;
        } else {
            i += 1;
        }
    }
    let piece = slice_copy(s, start, s.len());
    let ghost before = out@;
    out.push(piece);
    assert(views(out@) =~= views(before) + split_from(s@, sep@, start as int, i as int));
    out
}

/// The value of a string of decimal digits.
pub open spec fn digits_value(s: Seq<u8>) -> int
    decreases s.len(),
{
    if s.len() == 0 {
        0
    } else {
        digits_value(s.drop_last()) * 10 + (s.last() - 48)
    }
}

/// Every byte of `s` is a decimal digit.
pub open spec fn all_digits(s: Seq<u8>) -> bool {
    forall|i: int| 0 <= i < s.len() ==> 48 <= #[trigger] s[i] <= 57
}

/// The unsigned integer that `s` spells, as `u64::from_str` reads it: an
/// optional `+`, then at least one decimal digit, within range.
pub open spec fn parse_u64_spec(s: Seq<u8>) -> Option<u64> {
    let d = if s.len() > 0 && s[0] == 43 {
        s.drop_first()
    } else {
        s
    };
    if d.len() > 0 && all_digits(d) && digits_value(d) <= u64::MAX {
        Some(digits_value(d) as u64)
    } else {
        None
    }
}

/// A longer string of digits is worth at least as much as its prefix.
proof fn lemma_digits_grow(s: Seq<u8>, i: int)
    requires
        all_digits(s),
        0 <= i <= s.len(),
    ensures
        digits_value(s.subrange(0, i)) <= digits_value(s),
        0 <= digits_value(s.subrange(0, i)),
    decreases s.len() - i,
{
    if i < s.len() {
        lemma_digits_grow(s, i + 1);
        assert(s.subrange(0, i + 1).drop_last() =~= s.subrange(0, i));
        assert(all_digits(s.subrange(0, i + 1)));
        lemma_digits_nonneg(s.subrange(0, i));
    } else {
        assert(s.subrange(0, i) =~= s);
        lemma_digits_nonneg(s);
    }
}

proof fn lemma_digits_nonneg(s: Seq<u8>)
    requires
        all_digits(s),
    ensures
        0 <= digits_value(s),
    decreases s.len(),
{
    if s.len() > 0 {
        assert(all_digits(s.drop_last()));
        lemma_digits_nonneg(s.drop_last());
    }
}

/// Reads an unsigned decimal integer.
pub fn parse_u64(s: &[u8]) -> (r: Option<u64>)
    ensures
        r == parse_u64_spec(s@),
{
    let n = s.len();
    let mut i: usize = 0;
    if n > 0 && s[0] == 43 {
        i = 1;
    }
    let ghost d = if s@.len() > 0 && s@[0] == 43 {
        s@.drop_first()
    } else {
        s@
    };
    let first = i;
    assert(d =~= s@.subrange(first as int, n as int));
    if i == n {
        return None;
    }
    let mut v: u64 = 0;
    while i < n
        invariant
            n == s@.len(),
            first < n,
            d == s@.subrange(first as int, n as int),
            d == (if s@.len() > 0 && s@[0] == 43 {
                s@.drop_first()
            } else {
                s@
            }),
            first <= i <= n,
            all_digits(s@.subrange(first as int, i as int)),
            v == digits_value(s@.subrange(first as int, i as int)),
        decreases n - i,
    {
        let c = s[i];
        if c < 48 || c > 57 {
            assert(d[i - first] == c);
            return None;
        }
        let digit = (c - 48) as u64;
        assert(s@.subrange(first as int, i + 1).drop_last() =~= s@.subrange(first as int, i as int));
        if v > (u64::MAX - digit) / 10 {
            proof {
                assert(digits_value(s@.subrange(first as int, i + 1)) > u64::MAX);
                if all_digits(d) {
                    assert(d.subrange(0, i + 1 - first) =~= s@.subrange(first as int, i + 1));
                    lemma_digits_grow(d, i + 1 - first);
                }
            }
            return None;
        }
        v = v * 10 + digit;
        i += 1;
        assert(all_digits(s@.subrange(first as int, i as int)));
    }
    assert(s@.subrange(first as int, i as int) == d);
    Some(v)
}

/// `v` rises strictly.
pub open spec fn ascending(v: Seq<u64>) -> bool {
    forall|i: int, j: int| 0 <= i < j < v.len() ==> v[i] < v[j]
}

/// Inserts `x` into an ascending list, unless it is there already.
pub fn insert_sorted(v: &mut Vec<u64>, x: u64)
    requires
        ascending(old(v)@),
    ensures
        ascending(final(v)@),
        final(v)@.to_set() == old(v)@.to_set().insert(x),
{
    let mut i: usize = 0;
    while i < v.len() && v[i] < x
        invariant
            0 <= i <= v@.len(),
            forall|j: int| 0 <= j < i ==> v@[j] < x,
        decreases v@.len() - i,
    {
        i += 1;
    }
    if i < v.len() && v[i] == x {
        assert(old(v)@.to_set().insert(x) =~= old(v)@.to_set()) by {
            assert(old(v)@.contains(x)) by {
                assert(old(v)@[i as int] == x);
            }
        }
        return;
    }
    v.insert(i, x);
    assert forall|y: u64| final(v)@.to_set().contains(y) <==> old(v)@.to_set().insert(x).contains(y) by {
        if final(v)@.contains(y) {
            let k = choose|k: int| 0 <= k < final(v)@.len() && final(v)@[k] == y;
            if k < i {
                assert(old(v)@[k] == y);
            } else if k > i {
                assert(old(v)@[k - 1] == y);
            }
        }
        if old(v)@.contains(y) {
            let k = choose|k: int| 0 <= k < old(v)@.len() && old(v)@[k] == y;
            if k < i {
                assert(final(v)@[k] == y);
            } else {
                assert(final(v)@[k + 1] == y);
            }
        }
        if y == x {
            assert(final(v)@[i as int] == y);
        }
    }
    assert(final(v)@.to_set() =~= old(v)@.to_set().insert(x));
}

/// Removes `x` from an ascending list.
pub fn remove_sorted(v: &mut Vec<u64>, x: u64)
    requires
        ascending(old(v)@),
    ensures
        ascending(final(v)@),
        final(v)@.to_set() == old(v)@.to_set().remove(x),
{
    let mut i: usize = 0;
    while i < v.len() && v[i] != x
        invariant
            0 <= i <= v@.len(),
            forall|j: int| 0 <= j < i ==> v@[j] != x,
        decreases v@.len() - i,
    {
        i += 1;
    }
    if i == v.len() {
        assert(old(v)@.to_set().remove(x) =~= old(v)@.to_set());
        return;
    }
    v.remove(i);
    assert forall|y: u64| final(v)@.to_set().contains(y) <==> old(v)@.to_set().remove(x).contains(y) by {
        if final(v)@.contains(y) {
            let k = choose|k: int| 0 <= k < final(v)@.len() && final(v)@[k] == y;
            if k < i {
                assert(old(v)@[k] == y);
            } else {
                assert(old(v)@[k + 1] == y);
            }
        }
        if old(v)@.contains(y) && y != x {
            let k = choose|k: int| 0 <= k < old(v)@.len() && old(v)@[k] == y;
            if k < i {
                assert(final(v)@[k] == y);
            } else {
                assert(k != i);
                assert(final(v)@[k - 1] == y);
            }
        }
    }
    assert(final(v)@.to_set() =~= old(v)@.to_set().remove(x));
}

/// The field separator of the dumps: tab, pipe, tab.
pub open spec fn field_sep() -> Seq<u8> {
    seq![9u8, 124u8, 9u8]
}

/// `l` without one trailing carriage return.
pub open spec fn strip_cr(l: Seq<u8>) -> Seq<u8> {
    if l.len() > 0 && l.last() == 13 {
        l.drop_last()
    } else {
        l
    }
}

/// The `i`-th piece of a text split at line feeds, without the carriage
/// return that ends it when a line feed follows.
pub open spec fn line_piece(parts: Seq<Seq<u8>>, i: int) -> Seq<u8> {
    if i < parts.len() - 1 {
        strip_cr(parts[i])
    } else {
        parts[i]
    }
}

/// The lines of `text` as `BufRead::lines` gives them: split at line feeds,
/// without an empty piece after a final line feed, a line that ends in a
/// carriage return and line feed losing both.
pub open spec fn lines_spec(text: Seq<u8>) -> Seq<Seq<u8>> {
    let parts = split_spec(text, seq![10u8]);
    let count = if parts.len() > 0 && parts.last().len() == 0 {
        parts.len() - 1
    } else {
        parts.len() as int
    };
    Seq::new(count as nat, |i: int| line_piece(parts, i))
}

/// What one line of the nodes file says: nothing (an empty, comment or
/// short line), an error, or a node id, its parent id and its rank. Node 1
/// always gets parent 0.
pub open spec fn node_record(line: Seq<u8>) -> Option<Result<(u64, u64, Seq<u8>), TaxonomyError>> {
    if line.len() == 0 || line[0] == 35 {
        None
    } else {
        let f = split_spec(line, field_sep());
        if f.len() < 3 {
            None
        } else {
            match parse_u64_spec(f[0]) {
                None => Some(Err(TaxonomyError::BadNodeId)),
                Some(id) => if id == 1 {
                    Some(Ok((1u64, 0u64, f[2])))
                } else {
                    match parse_u64_spec(f[1]) {
                        None => Some(Err(TaxonomyError::BadParentId)),
                        Some(p) => Some(Ok((id, p, f[2]))),
                    }
                },
            }
        }
    }
}

/// The parents, ranks and set of ranks that the lines of a nodes file give,
/// a later line for a node replacing an earlier one; or the first error.
pub open spec fn nodes_fold(lines: Seq<Seq<u8>>) -> Result<
    (Map<u64, u64>, Map<u64, Seq<u8>>, Set<Seq<u8>>),
    TaxonomyError,
>
    decreases lines.len(),
{
    if lines.len() == 0 {
        Ok((Map::empty(), Map::empty(), Set::empty()))
    } else {
        match nodes_fold(lines.drop_last()) {
            Err(e) => Err(e),
            Ok(st) => match node_record(lines.last()) {
                None => Ok(st),
                Some(Err(e)) => Err(e),
                Some(Ok(rec)) => Ok(
                    (st.0.insert(rec.0, rec.1), st.1.insert(rec.0, rec.2), st.2.insert(rec.2)),
                ),
            },
        }
    }
}

/// The child lists agree with the parents: each listed child has that
/// parent, each list rises strictly, and each node is listed under its
/// parent.
pub open spec fn children_agree(parents: Map<u64, u64>, children: Map<u64, Vec<u64>>) -> bool {
    &&& forall|p: u64, c: u64|
        children.contains_key(p) && #[trigger] children[p]@.contains(c) ==> parents.contains_key(c)
            && parents[c] == p
    &&& forall|p: u64| #[trigger] children.contains_key(p) ==> ascending(children[p]@)
    &&& forall|c: u64| #[trigger]
        parents.contains_key(c) ==> children.contains_key(parents[c])
            && children[parents[c]]@.contains(c)
}

/// A list of byte strings in strictly increasing byte order.
pub open spec fn strictly_sorted(v: Seq<Seq<u8>>) -> bool {
    forall|i: int| 0 <= i < v.len() - 1 ==> lex_lt(#[trigger] v[i], v[i + 1])
}

/// A copy of a list of ids.
fn copy_ids(v: &Vec<u64>) -> (r: Vec<u64>)
    ensures
        r@ == v@,
{
    let mut r: Vec<u64> = Vec::new();
    let mut i: usize = 0;
    while i < v.len()
        invariant
            0 <= i <= v@.len(),
            r@ == v@.subrange(0, i as int),
        decreases v@.len() - i,
    {
        r.push(v[i]);
        i += 1;
        assert(r@ =~= v@.subrange(0, i as int));
    }
    r
}

/// Where `r` stands or would stand in a sorted list of byte strings.
fn rank_position(v: &Vec<Vec<u8>>, r: &Vec<u8>) -> (res: (usize, bool))
    ensures
        res.0 <= v@.len(),
        forall|j: int| 0 <= j < res.0 ==> lex_lt(#[trigger] v@[j]@, r@),
        res.1 ==> res.0 < v@.len() && v@[res.0 as int]@ == r@,
        !res.1 && res.0 < v@.len() ==> lex_lt(r@, v@[res.0 as int]@),
{
    let mut i: usize = 0;
    while i < v.len()
        invariant
            0 <= i <= v@.len(),
            forall|j: int| 0 <= j < i ==> lex_lt(#[trigger] v@[j]@, r@),
        decreases v@.len() - i,
    {
        let c = bytes_cmp(v[i].as_slice(), r.as_slice());
        if c == 0 {
            return (i, true);
        }
        if c > 0 {
            return (i, false);
        }
        i += 1;
    }
    (i, false)
}

/// Inserts `r` into a strictly sorted list of byte strings, unless it is
/// there already.
fn insert_rank(v: &mut Vec<Vec<u8>>, r: Vec<u8>)
    requires
        strictly_sorted(views(old(v)@)),
    ensures
        strictly_sorted(views(final(v)@)),
        views(final(v)@).to_set() == views(old(v)@).to_set().insert(r@),
{
    let (i, found) = rank_position(v, &r);
    if found {
        assert(views(old(v)@)[i as int] == r@);
        assert(views(old(v)@).to_set().insert(r@) =~= views(old(v)@).to_set());
        return;
    }
    let ghost rv = r@;
    v.insert(i, r);
    let ghost o = views(old(v)@);
    let ghost n = views(final(v)@);
    assert(n =~= o.insert(i as int, rv));
    assert forall|k: int| 0 <= k < n.len() - 1 implies lex_lt(#[trigger] n[k], n[k + 1]) by {
        if k < i - 1 {
            assert(n[k] == o[k] && n[k + 1] == o[k + 1]);
        } else if k == i - 1 {
            assert(n[k] == old(v)@[k]@);
        } else if k == i {
            assert(n[k + 1] == old(v)@[i as int]@);
        } else {
            assert(n[k] == o[k - 1] && n[k + 1] == o[k]);
        }
    }
    assert forall|y: Seq<u8>| n.to_set().contains(y) <==> o.to_set().insert(rv).contains(y) by {
        if n.contains(y) {
            let k = choose|k: int| 0 <= k < n.len() && n[k] == y;
            if k < i {
                assert(o[k] == y);
            } else if k > i {
                assert(o[k - 1] == y);
            }
        }
        if o.contains(y) {
            let k = choose|k: int| 0 <= k < o.len() && o[k] == y;
            if k < i {
                assert(n[k] == y);
            } else {
                assert(n[k + 1] == y);
            }
        }
        if y == rv {
            assert(n[i as int] == y);
        }
    }
    assert(n.to_set() =~= o.to_set().insert(rv));
}

/// Records `pid` as the parent of `id`, moving `id` out of the child list
/// of its former parent and into that of `pid`.
#[verifier::rlimit(40)]
fn set_parent(
    parents: &mut HashMap<u64, u64>,
    children: &mut HashMap<u64, Vec<u64>>,
    id: u64,
    pid: u64,
)
    requires
        children_agree(old(parents)@, old(children)@),
    ensures
        final(parents)@ == old(parents)@.insert(id, pid),
        children_agree(final(parents)@, final(children)@),
{
    let ghost old_parents = parents@;
    let ghost c0 = children@;
    match parents.get(&id) {
        Some(q) => {
            let q = *q;
            let l = match children.get(&q) {
                Some(l) => copy_ids(l),
                None => Vec::new(),
            };
            assert(children@.contains_key(q) && l@ == children@[q]@);
            let mut l = l;
            remove_sorted(&mut l, id);
            children.insert(q, l);
        },
        None => {},
    }
    let ghost c1 = children@;
    assert forall|p: u64, c: u64|
        c1.contains_key(p) && #[trigger] c1[p]@.contains(c) implies old_parents.contains_key(c) && old_parents[c]
        == p && c != id by {
        if old_parents.contains_key(id) && p == old_parents[id] {
            assert(c1[p]@.to_set().contains(c));
            assert(c0[p]@.to_set().contains(c));
        } else {
            assert(c1[p] == c0[p]);
            if c == id {
                assert(old_parents[id] == p);
            }
        }
    }
    parents.insert(id, pid);
    let l2 = match children.get(&pid) {
        Some(l) => copy_ids(l),
        None => Vec::new(),
    };
    let mut l2 = l2;
    insert_sorted(&mut l2, id);
    children.insert(pid, l2);
    let ghost new_parents = parents@;
    let ghost c2 = children@;
    assert forall|p: u64, c: u64|
        c2.contains_key(p) && #[trigger] c2[p]@.contains(c) implies new_parents.contains_key(c) && new_parents[c]
        == p by {
        if p == pid {
            assert(c2[p]@.to_set().contains(c));
            if c != id {
                assert(c1.contains_key(pid) && c1[pid]@.to_set().contains(c));
                assert(c1[pid]@.contains(c));
            }
        } else {
            assert(c2[p] == c1[p]);
        }
    }
    assert forall|p: u64| #[trigger] c2.contains_key(p) implies ascending(c2[p]@) by {
        if p != pid {
            assert(c2[p] == c1[p]);
            if old_parents.contains_key(id) && p == old_parents[id] {
            } else {
                assert(c1[p] == c0[p]);
            }
        }
    }
    assert forall|c: u64| #[trigger] new_parents.contains_key(c) implies c2.contains_key(new_parents[c])
        && c2[new_parents[c]]@.contains(c) by {
        if c == id {
            assert(c2[pid]@.to_set().contains(id));
        } else {
            let p = old_parents[c];
            assert(new_parents[c] == p);
            assert(c0.contains_key(p) && c0[p]@.contains(c));
            if old_parents.contains_key(id) && p == old_parents[id] {
                assert(c0[p]@.to_set().contains(c));
                assert(c1[p]@.to_set().contains(c));
            } else {
                assert(c1[p] == c0[p]);
            }
            assert(c1.contains_key(p) && c1[p]@.contains(c));
            if p == pid {
                assert(c1[p]@.to_set().contains(c));
                assert(c2[p]@.to_set().contains(c));
            } else {
                assert(c2[p] == c1[p]);
            }
        }
    }
}

/// Once the lines so far give an error, the whole file gives that error.
proof fn lemma_nodes_fold_err(lines: Seq<Seq<u8>>, k: int)
    requires
        0 <= k <= lines.len(),
        nodes_fold(lines.subrange(0, k)) is Err,
    ensures
        nodes_fold(lines) == nodes_fold(lines.subrange(0, k)),
    decreases lines.len() - k,
{
    if k == lines.len() {
        assert(lines.subrange(0, k) =~= lines);
    } else {
        assert(lines.subrange(0, k + 1).drop_last() =~= lines.subrange(0, k));
        lemma_nodes_fold_err(lines, k + 1);
    }
}

/// Splits a text into its lines (see [`lines_spec`]).
fn split_lines(text: &[u8]) -> (r: Vec<Vec<u8>>)
    ensures
        views(r@) == lines_spec(text@),
{
    let nl: Vec<u8> = vec![10u8];
    assert(nl@ =~= seq![10u8]);
    let parts = split_bytes(text, nl.as_slice());
    let mut count = parts.len();
    if count > 0 && parts[count - 1].len() == 0 {
        count -= 1;
    }
    let ghost sp = split_spec(text@, seq![10u8]);
    let mut out: Vec<Vec<u8>> = Vec::new();
    let mut k: usize = 0;
    while k < count
        invariant
            views(parts@) == sp,
            count <= parts@.len(),
            count == (if sp.len() > 0 && sp.last().len() == 0 {
                sp.len() - 1
            } else {
                sp.len() as int
            }),
            0 <= k <= count,
            out@.len() == k,
            views(out@) == Seq::new(k as nat, |i: int| line_piece(sp, i)),
        decreases count - k,
    {
        let raw = &parts[k];
        let n = raw.len();
        let end = if k + 1 < parts.len() && n > 0 && raw[n - 1] == 13 {
            n - 1
        } else {
            n
        };
        assert(views(parts@)[k as int] == raw@);
        let line = slice_copy(raw.as_slice(), 0, end);
        assert(line@ =~= line_piece(sp, k as int));
        let ghost o0 = out@;
        out.push(line);
        k += 1;
        let ghost target = Seq::new(k as nat, |i: int| line_piece(sp, i));
        assert forall|j: int| 0 <= j < k implies #[trigger] views(out@)[j] == target[j] by {
            if j < k - 1 {
                assert(out@[j] == o0[j]);
                assert(views(o0)[j] == o0[j]@);
            }
        }
        assert(views(out@) =~= target);
    }
    out
}

/// Reads the nodes file: for each node its parent, its children (in
/// increasing id) and its rank, and the distinct ranks in increasing byte
/// order. Empty lines, comment lines and lines with fewer than three fields
/// are skipped; a later line for a node replaces an earlier one.
#[verifier::rlimit(60)]
pub fn parse_nodes_file(text: &[u8]) -> (r: Result<
    (HashMap<u64, u64>, HashMap<u64, Vec<u64>>, HashMap<u64, Vec<u8>>, Vec<Vec<u8>>),
    TaxonomyError,
>)
    ensures
        match r {
            Err(e) => nodes_fold(lines_spec(text@)) == Err::<
                (Map<u64, u64>, Map<u64, Seq<u8>>, Set<Seq<u8>>),
                TaxonomyError,
            >(e),
            Ok(t) => nodes_fold(lines_spec(text@)) is Ok && {
                let st = nodes_fold(lines_spec(text@))->Ok_0;
                &&& t.0@ == st.0
                &&& children_agree(t.0@, t.1@)
                &&& forall|x: u64| #[trigger] t.2@.contains_key(x) <==> st.1.contains_key(x)
                &&& forall|x: u64| #[trigger] t.2@.contains_key(x) ==> t.2@[x]@ == st.1[x]
                &&& forall|x: u64| #[trigger] t.0@.contains_key(x) <==> t.2@.contains_key(x)
                &&& forall|x: u64| #[trigger]
                    t.2@.contains_key(x) ==> views(t.3@).contains(t.2@[x]@)
                &&& views(t.3@).to_set() == st.2
                &&& strictly_sorted(views(t.3@))
            },
        },
{
    let lines = split_lines(text);
    let ghost ls = lines_spec(text@);
    let sepv: Vec<u8> = vec![9u8, 124u8, 9u8];
    assert(sepv@ =~= field_sep());
    let mut parents: HashMap<u64, u64> = HashMap::new();
    let mut children: HashMap<u64, Vec<u64>> = HashMap::new();
    let mut ranks: HashMap<u64, Vec<u8>> = HashMap::new();
    let mut known: Vec<Vec<u8>> = Vec::new();
    assert(ls.subrange(0, 0) =~= Seq::<Seq<u8>>::empty());
    assert(views(known@).to_set() =~= Set::<Seq<u8>>::empty());
    let mut k: usize = 0;
    while k < lines.len()
        invariant
            ls == lines_spec(text@),
            views(lines@) == ls,
            sepv@ == field_sep(),
            0 <= k <= lines@.len(),
            nodes_fold(ls.subrange(0, k as int)) is Ok,
            parents@ == nodes_fold(ls.subrange(0, k as int))->Ok_0.0,
            children_agree(parents@, children@),
            forall|x: u64| #[trigger]
                ranks@.contains_key(x) <==> nodes_fold(ls.subrange(0, k as int))->Ok_0.1.contains_key(x),
            forall|x: u64| #[trigger]
                ranks@.contains_key(x) ==> ranks@[x]@ == nodes_fold(ls.subrange(0, k as int))->Ok_0.1[x],
            forall|x: u64| #[trigger] parents@.contains_key(x) <==> ranks@.contains_key(x),
            forall|x: u64| #[trigger] ranks@.contains_key(x) ==> views(known@).contains(ranks@[x]@),
            views(known@).to_set() == nodes_fold(ls.subrange(0, k as int))->Ok_0.2,
            strictly_sorted(views(known@)),
        decreases lines@.len() - k,
    {
        let line = &lines[k];
        assert(views(lines@)[k as int] == line@);
        assert(ls.subrange(0, k + 1).drop_last() =~= ls.subrange(0, k as int));
        assert(ls.subrange(0, k + 1).last() == line@);
        if line.len() == 0 || line[0] == 35 {
            k += 1;
            continue;
        }
        let fields = split_bytes(line.as_slice(), sepv.as_slice());
        if fields.len() < 3 {
            k += 1;
            continue;
        }
        assert(views(fields@)[0] == fields@[0]@);
        assert(views(fields@)[1] == fields@[1]@);
        assert(views(fields@)[2] == fields@[2]@);
        let id = match parse_u64(fields[0].as_slice()) {
            Some(v) => v,
            None => {
                proof {
                    assert(split_spec(line@, field_sep()) == views(fields@));
                    assert(parse_u64_spec(split_spec(line@, field_sep())[0]) is None);
                    assert(node_record(line@) == Some(
                        Err::<(u64, u64, Seq<u8>), TaxonomyError>(TaxonomyError::BadNodeId),
                    ));
                    let pre = ls.subrange(0, k + 1);
                    assert(pre.drop_last() == ls.subrange(0, k as int));
                    assert(pre.last() == line@);
                    assert(nodes_fold(pre) == Err::<
                        (Map<u64, u64>, Map<u64, Seq<u8>>, Set<Seq<u8>>),
                        TaxonomyError,
                    >(TaxonomyError::BadNodeId));
                    lemma_nodes_fold_err(ls, k + 1);

                }
                return Err(TaxonomyError::BadNodeId);
            },
        };
        let pid = if id == 1 {
            0
        } else {
            match parse_u64(fields[1].as_slice()) {
                Some(v) => v,
                None => {
                    proof {
                        assert(split_spec(line@, field_sep()) == views(fields@));
                        assert(node_record(line@) == Some(
                            Err::<(u64, u64, Seq<u8>), TaxonomyError>(TaxonomyError::BadParentId),
                        ));
                        lemma_nodes_fold_err(ls, k + 1);
                    }
                    return Err(TaxonomyError::BadParentId);
                },
            }
        };
        let f2 = fields[2].as_slice();
        let rank_a = slice_copy(f2, 0, f2.len());
        let rank_b = slice_copy(f2, 0, f2.len());
        assert(rank_a@ =~= fields@[2]@);
        assert(rank_b@ =~= fields@[2]@);
        let ghost known0 = views(known@);
        set_parent(&mut parents, &mut children, id, pid);
        ranks.insert(id, rank_a);
        insert_rank(&mut known, rank_b);
        proof {
            assert forall|x: u64| #[trigger]
                ranks@.contains_key(x) implies views(known@).contains(ranks@[x]@) by {
                let v = ranks@[x]@;
                if x != id {
                    assert(known0.contains(v));
                    assert(known0.to_set().contains(v));
                }
                assert(views(known@).to_set().contains(v));
            }
        }
        k += 1;
    }
    assert(ls.subrange(0, k as int) =~= ls);
    Ok((parents, children, ranks, known))
}

/// `s` without its trailing tabs, pipes and line feeds.
pub open spec fn trim_end(s: Seq<u8>) -> Seq<u8>
    decreases s.len(),
{
    if s.len() > 0 && (s.last() == 9 || s.last() == 124 || s.last() == 10) {
        trim_end(s.drop_last())
    } else {
        s
    }
}

/// The name class that the names file keeps.
pub open spec fn scientific_name() -> Seq<u8> {
    seq![115u8, 99, 105, 101, 110, 116, 105, 102, 105, 99, 32, 110, 97, 109, 101]
}

/// What one line of the names file says: nothing, or a node id (0 when it
/// does not parse) and its scientific name.
pub open spec fn name_record(line: Seq<u8>) -> Option<(u64, Seq<u8>)> {
    if line.len() == 0 || line[0] == 35 {
        None
    } else {
        let f = split_spec(trim_end(line), field_sep());
        if f.len() < 4 || f[3] != scientific_name() {
            None
        } else {
            Some(
                (
                    match parse_u64_spec(f[0]) {
                        Some(v) => v,
                        None => 0u64,
                    },
                    f[1],
                ),
            )
        }
    }
}

/// The scientific names that the lines of a names file give, a later line
/// for a node replacing an earlier one.
pub open spec fn names_fold(lines: Seq<Seq<u8>>) -> Map<u64, Seq<u8>>
    decreases lines.len(),
{
    if lines.len() == 0 {
        Map::empty()
    } else {
        match name_record(lines.last()) {
            None => names_fold(lines.drop_last()),
            Some(rec) => names_fold(lines.drop_last()).insert(rec.0, rec.1),
        }
    }
}

/// Reads the names file: the scientific name of each node. Empty lines,
/// comment lines, lines with fewer than four fields and lines of another
/// name class are skipped.
pub fn parse_names_file(text: &[u8]) -> (r: HashMap<u64, Vec<u8>>)
    ensures
        forall|x: u64| #[trigger]
            r@.contains_key(x) <==> names_fold(lines_spec(text@)).contains_key(x),
        forall|x: u64| #[trigger]
            r@.contains_key(x) ==> r@[x]@ == names_fold(lines_spec(text@))[x],
{
    let lines = split_lines(text);
    let ghost ls = lines_spec(text@);
    let sepv: Vec<u8> = vec![9u8, 124u8, 9u8];
    assert(sepv@ =~= field_sep());
    let sci: Vec<u8> = vec![115u8, 99, 105, 101, 110, 116, 105, 102, 105, 99, 32, 110, 97, 109, 101];
    assert(sci@ =~= scientific_name());
    let mut names: HashMap<u64, Vec<u8>> = HashMap::new();
    assert(ls.subrange(0, 0) =~= Seq::<Seq<u8>>::empty());
    let mut k: usize = 0;
    while k < lines.len()
        invariant
            ls == lines_spec(text@),
            views(lines@) == ls,
            sepv@ == field_sep(),
            sci@ == scientific_name(),
            0 <= k <= lines@.len(),
            forall|x: u64| #[trigger]
                names@.contains_key(x) <==> names_fold(ls.subrange(0, k as int)).contains_key(x),
            forall|x: u64| #[trigger]
                names@.contains_key(x) ==> names@[x]@ == names_fold(ls.subrange(0, k as int))[x],
        decreases lines@.len() - k,
    {
        let line = &lines[k];
        assert(views(lines@)[k as int] == line@);
        assert(ls.subrange(0, k + 1).drop_last() =~= ls.subrange(0, k as int));
        assert(ls.subrange(0, k + 1).last() == line@);
        if line.len() == 0 || line[0] == 35 {
            k += 1;
            continue;
        }
        let mut end = line.len();
        assert(line@.subrange(0, end as int) =~= line@);
        while end > 0 && (line[end - 1] == 9 || line[end - 1] == 124 || line[end - 1] == 10)
            invariant
                end <= line@.len(),
                trim_end(line@.subrange(0, end as int)) == trim_end(line@),
            decreases end,
        {
            assert(line@.subrange(0, end as int).drop_last() =~= line@.subrange(0, end - 1));
            end -= 1;
        }
        assert(line@.subrange(0, end as int) == trim_end(line@));
        let trimmed = slice_copy(line.as_slice(), 0, end);
        let fields = split_bytes(trimmed.as_slice(), sepv.as_slice());
        if fields.len() < 4 || !bytes_eq(fields[3].as_slice(), sci.as_slice()) {
            proof {
                if fields@.len() >= 4 {
                    assert(views(fields@)[3] == fields@[3]@);
                }
            }
            k += 1;
            continue;
        }
        assert(views(fields@)[0] == fields@[0]@);
        assert(views(fields@)[1] == fields@[1]@);
        assert(views(fields@)[3] == fields@[3]@);
        let id = match parse_u64(fields[0].as_slice()) {
            Some(v) => v,
            None => 0,
        };
        let f1 = fields[1].as_slice();
        let name = slice_copy(f1, 0, f1.len());
        assert(name@ =~= fields@[1]@);
        names.insert(id, name);
        k += 1;
    }
    assert(ls.subrange(0, k as int) =~= ls);
    names
}

/// Whatever the lines, node 1 has parent 0.
pub proof fn lemma_nodes_fold_root(lines: Seq<Seq<u8>>)
    requires
        nodes_fold(lines) is Ok,
        nodes_fold(lines)->Ok_0.0.contains_key(1),
    ensures
        nodes_fold(lines)->Ok_0.0[1] == 0,
    decreases lines.len(),
{
    if lines.len() > 0 {
        let prev = nodes_fold(lines.drop_last());
        assert(prev is Ok);
        if prev->Ok_0.0.contains_key(1) {
            lemma_nodes_fold_root(lines.drop_last());
        }
    }
}

} // verus!
