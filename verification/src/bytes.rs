use vstd::prelude::*;

verus! {

/// The index of the first occurrence of `b` in `s`, or `s.len()` when `b`
/// does not occur.
pub open spec fn idx_of(s: Seq<u8>, b: u8) -> int
    decreases s.len(),
{
    if s.len() == 0 {
        0
    } else if s[0] == b {
        0
    } else {
        1 + idx_of(s.skip(1), b)
    }
}

/// [`idx_of`] is in bounds, lands on `b` when `b` occurs, and nothing before
/// it equals `b`.
pub proof fn lemma_idx_of_props(s: Seq<u8>, b: u8)
    ensures
        0 <= idx_of(s, b) <= s.len(),
        idx_of(s, b) < s.len() ==> s[idx_of(s, b)] == b,
        forall|j: int| 0 <= j < idx_of(s, b) ==> s[j] != b,
    decreases s.len(),
{
    if s.len() > 0 && s[0] != b {
        lemma_idx_of_props(s.skip(1), b);
        assert forall|j: int| 0 <= j < idx_of(s, b) implies s[j] != b by {
            if j > 0 {
                assert(s.skip(1)[j - 1] != b);
            }
        }
    }
}

/// A position that holds `b` with nothing equal to `b` before it is exactly
/// [`idx_of`]; a length-long prefix free of `b` pins it to the length.
pub proof fn lemma_idx_of_is(s: Seq<u8>, b: u8, k: int)
    requires
        0 <= k <= s.len(),
        k < s.len() ==> s[k] == b,
        forall|j: int| 0 <= j < k ==> s[j] != b,
    ensures
        idx_of(s, b) == k,
    decreases s.len(),
{
    if k == 0 {
    } else {
        assert(s[0] != b);
        assert forall|j: int| 0 <= j < k - 1 implies s.skip(1)[j] != b by {
            assert(s.skip(1)[j] == s[j + 1]);
        }
        lemma_idx_of_is(s.skip(1), b, k - 1);
    }
}

/// Searching a concatenation whose first half is free of `b` finds `b` in
/// the second half.
pub proof fn lemma_idx_of_concat(a: Seq<u8>, rest: Seq<u8>, b: u8)
    requires
        forall|i: int| 0 <= i < a.len() ==> a[i] != b,
    ensures
        idx_of(a + rest, b) == a.len() + idx_of(rest, b),
{
    lemma_idx_of_props(rest, b);
    let k = a.len() + idx_of(rest, b);
    assert forall|j: int| 0 <= j < k implies (a + rest)[j] != b by {
        if j >= a.len() {
            assert((a + rest)[j] == rest[j - a.len()]);
        }
    }
    if idx_of(rest, b) < rest.len() {
        assert((a + rest)[k] == rest[idx_of(rest, b)]);
    }
    lemma_idx_of_is(a + rest, b, k);
}

/// When `b` does not occur, [`idx_of`] is the length.
pub proof fn lemma_idx_of_absent(s: Seq<u8>, b: u8)
    requires
        forall|i: int| 0 <= i < s.len() ==> s[i] != b,
    ensures
        idx_of(s, b) == s.len(),
{
    lemma_idx_of_is(s, b, s.len() as int);
}

/// Find the first occurrence of `b` in `v` at or after `start`; returns the
/// length of `v` when there is none.
pub(crate) fn find_from(v: &[u8], start: usize, b: u8) -> (r: usize)
    requires
        start <= v@.len(),
    ensures
        start <= r <= v@.len(),
        r < v@.len() ==> v@[r as int] == b,
        forall|j: int| start <= j < r ==> v@[j] != b,
        r - start == idx_of(v@.skip(start as int), b),
{
    let mut i: usize = start;
    while i < v.len()
        invariant
            start <= i <= v@.len(),
            forall|j: int| start <= j < i ==> v@[j] != b,
        decreases v@.len() - i,
    {
        if v[i] == b {
            proof {
                assert forall|j: int| 0 <= j < i - start implies v@.skip(start as int)[j] != b by {
                    assert(v@.skip(start as int)[j] == v@[j + start]);
                }
                lemma_idx_of_is(v@.skip(start as int), b, i - start);
            }
            return i;
        }
        i = i + 1;
    }
    proof {
        assert forall|j: int| 0 <= j < i - start implies v@.skip(start as int)[j] != b by {
            assert(v@.skip(start as int)[j] == v@[j + start]);
        }
        lemma_idx_of_is(v@.skip(start as int), b, i - start);
    }
    i
}

/// Copy the byte range `[from, to)` out of a slice.
pub(crate) fn subvec(v: &[u8], from: usize, to: usize) -> (r: Vec<u8>)
    requires
        from <= to <= v@.len(),
    ensures
        r@ == v@.subrange(from as int, to as int),
{
    let mut out: Vec<u8> = Vec::new();
    let mut i: usize = from;
    while i < to
        invariant
            from <= i <= to <= v@.len(),
            out@ == v@.subrange(from as int, i as int),
        decreases to - i,
    {
        out.push(v[i]);
        assert(out@ =~= v@.subrange(from as int, i + 1));
        i = i + 1;
    }
    out
}

/// Copy a whole byte vector.
pub(crate) fn clone_bytes(v: &Vec<u8>) -> (r: Vec<u8>)
    ensures
        r@ == v@,
{
    let mut out: Vec<u8> = Vec::new();
    let mut i: usize = 0;
    while i < v.len()
        invariant
            i <= v@.len(),
            out@ == v@.subrange(0, i as int),
        decreases v@.len() - i,
    {
        out.push(v[i]);
        assert(out@ =~= v@.subrange(0, i + 1));
        i = i + 1;
    }
    assert(out@ =~= v@);
    out
}

/// Compare two byte sequences for equality.
pub(crate) fn bytes_eq(a: &[u8], b: &[u8]) -> (r: bool)
    ensures
        r == (a@ == b@),
{
    if a.len() != b.len() {
        assert(a@ != b@);
        return false;
    }
    let mut i: usize = 0;
    while i < a.len()
        invariant
            i <= a@.len(),
            a@.len() == b@.len(),
            forall|j: int| 0 <= j < i ==> a@[j] == b@[j],
        decreases a@.len() - i,
    {
        if a[i] != b[i] {
            return false;
        }
        i = i + 1;
    }
    assert(a@ =~= b@);
    true
}

/// Compare two optional byte vectors for equality of their contents.
pub(crate) fn opt_bytes_eq(a: &Option<Vec<u8>>, b: &Option<Vec<u8>>) -> (r: bool)
    ensures
        r == match (a, b) {
            (Some(x), Some(y)) => x@ == y@,
            (None, None) => true,
            _ => false,
        },
{
    match (a, b) {
        (Some(x), Some(y)) => bytes_eq(x.as_slice(), y.as_slice()),
        (None, None) => true,
        _ => false,
    }
}

} // verus!
