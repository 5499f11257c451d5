//! Byte strings: comparison and the NUL-terminated layout of string blobs.
use vstd::prelude::*;

verus! {

/// `a` sorts strictly before `b` in lexicographic byte order (a proper
/// prefix sorts first).
pub open spec fn lex_lt(a: Seq<u8>, b: Seq<u8>) -> bool {
    exists|i: int|
        #![trigger a.subrange(0, i), b.subrange(0, i)]
        0 <= i <= a.len() && i <= b.len() && a.subrange(0, i) == b.subrange(0, i) && ((i
            == a.len() && i < b.len()) || (i < a.len() && i < b.len() && a[i] < b[i]))
}

/// The strings of `s`, each followed by a NUL byte, one after the other.
pub open spec fn join_nul(s: Seq<Seq<u8>>) -> Seq<u8>
    decreases s.len(),
{
    if s.len() == 0 {
        seq![]
    } else {
        join_nul(s.drop_last()) + s.last() + seq![0u8]
    }
}

/// `blob` holds `s` at `off`, followed by a NUL byte.
pub open spec fn str_at(blob: Seq<u8>, off: int, s: Seq<u8>) -> bool {
    &&& 0 <= off
    &&& off + s.len() < blob.len()
    &&& blob.subrange(off, off + s.len()) == s
    &&& blob[off + s.len()] == 0
}

/// Each string of a joined list starts where the strings before it end.
pub proof fn lemma_join_nul_at(s: Seq<Seq<u8>>, k: int)
    requires
        0 <= k < s.len(),
    ensures
        str_at(join_nul(s), join_nul(s.subrange(0, k)).len() as int, s[k]),
    decreases s.len(),
{
    if k == s.len() - 1 {
        assert(s.subrange(0, k) =~= s.drop_last());
        let j = join_nul(s.drop_last());
        assert((j + s.last() + seq![0u8]).subrange(j.len() as int, j.len() + s[k].len() as int) =~= s[k]);
    } else {
        lemma_join_nul_at(s.drop_last(), k);
        assert(s.drop_last().subrange(0, k) =~= s.subrange(0, k));
        let j = join_nul(s.drop_last());
        let off = join_nul(s.subrange(0, k)).len() as int;
        assert((j + s.last() + seq![0u8]).subrange(off, off + s[k].len()) =~= j.subrange(
            off,
            off + s[k].len(),
        ));
        assert((j + s.last() + seq![0u8])[off + s[k].len()] == j[off + s[k].len()]);
    }
}

/// Appending to a blob keeps every string it already held.
pub proof fn lemma_str_at_extend(blob: Seq<u8>, more: Seq<u8>, off: int, s: Seq<u8>)
    requires
        str_at(blob, off, s),
    ensures
        str_at(blob + more, off, s),
{
    assert((blob + more).subrange(off, off + s.len()) =~= blob.subrange(off, off + s.len()));
}

/// Whether two byte strings are equal.
pub fn bytes_eq(a: &[u8], b: &[u8]) -> (r: bool)
    ensures
        r == (a@ == b@),
{
    if a.len() != b.len() {
        return false;
    }
    let mut i: usize = 0;
    while i < a.len()
        invariant
            a@.len() == b@.len(),
            0 <= i <= a@.len(),
            forall|j: int| 0 <= j < i ==> a@[j] == b@[j],
        decreases a@.len() - i,
    {
        if a[i] != b[i] {
            return false;
        }
        i += 1;
    }
    assert(a@ =~= b@);
    true
}

/// Three-way lexicographic comparison: negative when `a` sorts first, zero
/// when equal, positive when `b` sorts first.
pub fn bytes_cmp(a: &[u8], b: &[u8]) -> (r: i8)
    ensures
        r < 0 ==> lex_lt(a@, b@),
        r == 0 ==> a@ == b@,
        r > 0 ==> lex_lt(b@, a@),
{
    let mut i: usize = 0;
    while i < a.len() && i < b.len() && a[i] == b[i]
        invariant
            0 <= i <= a@.len(),
            i <= b@.len(),
            a@.subrange(0, i as int) == b@.subrange(0, i as int),
        decreases a@.len() - i,
    {
        assert(a@.subrange(0, i + 1) =~= a@.subrange(0, i as int).push(a@[i as int]));
        assert(b@.subrange(0, i + 1) =~= b@.subrange(0, i as int).push(b@[i as int]));
        i += 1;
    }
    let ghost ii = i as int;
    if i == a.len() && i == b.len() {
        assert(a@ =~= a@.subrange(0, ii));
        assert(b@ =~= b@.subrange(0, ii));
        0
    } else if i == a.len() || (i < b.len() && a[i] < b[i]) {
        assert(a@.subrange(0, ii) == b@.subrange(0, ii));
        -1
    } else {
        assert(b@.subrange(0, ii) == a@.subrange(0, ii));
        1
    }
}

} // verus!
