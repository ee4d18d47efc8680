//! Byte-level helpers shared by the classifier, the inline parser and the
//! edit engine. Documents are processed as UTF-8 byte sequences; every
//! delimiter of the notation is a single ASCII byte, so byte-level scanning
//! is exact on any UTF-8 input.

use vstd::prelude::*;

verus! {

/// Horizontal whitespace inside a line: space, tab, carriage return.
pub open spec fn is_ws(b: u8) -> bool {
    b == 32 || b == 9 || b == 13
}

/// Every byte of `s` is horizontal whitespace.
pub open spec fn all_ws(s: Seq<u8>) -> bool {
    forall|i: int| 0 <= i < s.len() ==> is_ws(#[trigger] s[i])
}

/// Length of `s` once trailing whitespace is dropped.
pub open spec fn trim_end_len(s: Seq<u8>) -> int
    decreases s.len(),
{
    if s.len() == 0 {
        0
    } else if is_ws(s[s.len() - 1]) {
        trim_end_len(s.take(s.len() - 1))
    } else {
        s.len() as int
    }
}

/// Number of leading whitespace bytes of `s`.
pub open spec fn ws_prefix_len(s: Seq<u8>) -> int
    decreases s.len(),
{
    if s.len() == 0 {
        0
    } else if is_ws(s[0]) {
        1 + ws_prefix_len(s.skip(1))
    } else {
        0
    }
}

/// `s` without its trailing whitespace.
pub open spec fn trim_end(s: Seq<u8>) -> Seq<u8> {
    s.take(trim_end_len(s))
}

/// `s` without leading and trailing whitespace.
pub open spec fn trim(s: Seq<u8>) -> Seq<u8> {
    trim_end(s).skip(ws_prefix_len(trim_end(s)))
}

/// A position `m` with only whitespace after it and none just before it
/// is exactly where trailing-whitespace trimming stops.
pub proof fn lemma_trim_end_len_unique(s: Seq<u8>, m: int)
    requires
        0 <= m <= s.len(),
        forall|i: int| m <= i < s.len() ==> is_ws(#[trigger] s[i]),
        m > 0 ==> !is_ws(s[m - 1]),
    ensures
        trim_end_len(s) == m,
    decreases s.len(),
{
    if s.len() == 0 {
    } else if is_ws(s[s.len() - 1]) {
        assert(m < s.len());
        let t = s.take(s.len() - 1);
        assert forall|i: int| m <= i < t.len() implies is_ws(#[trigger] t[i]) by {
            assert(t[i] == s[i]);
        }
        if m > 0 {
            assert(t[m - 1] == s[m - 1]);
        }
        lemma_trim_end_len_unique(t, m);
    } else {
        assert(m == s.len());
    }
}

/// A position `m` with only whitespace before it and none at it is exactly
/// the leading-whitespace prefix length.
pub proof fn lemma_ws_prefix_len_unique(s: Seq<u8>, m: int)
    requires
        0 <= m <= s.len(),
        forall|i: int| 0 <= i < m ==> is_ws(#[trigger] s[i]),
        m < s.len() ==> !is_ws(s[m]),
    ensures
        ws_prefix_len(s) == m,
    decreases s.len(),
{
    if s.len() == 0 {
    } else if is_ws(s[0]) {
        assert(m > 0);
        let t = s.skip(1);
        assert forall|i: int| 0 <= i < m - 1 implies is_ws(#[trigger] t[i]) by {
            assert(t[i] == s[i + 1]);
        }
        if m - 1 < t.len() {
            assert(t[m - 1] == s[m]);
        }
        lemma_ws_prefix_len_unique(t, m - 1);
    } else {
        assert(m == 0);
    }
}

/// Copy of `s[i..j]`.
pub fn subrange_vec(s: &[u8], i: usize, j: usize) -> (r: Vec<u8>)
    requires
        i <= j <= s@.len(),
    ensures
        r@ == s@.subrange(i as int, j as int),
{
    let mut r: Vec<u8> = Vec::new();
    let mut k: usize = i;
    while k < j
        invariant
            i <= k <= j <= s@.len(),
            r@ == s@.subrange(i as int, k as int),
        decreases j - k,
    {
        r.push(s[k]);
        k = k + 1;
        assert(s@.subrange(i as int, k as int) == s@.subrange(i as int, k - 1).push(s@[k - 1]));
    }
    r
}

/// An identical copy of `v`.
pub fn copy_bytes(v: &[u8]) -> (r: Vec<u8>)
    ensures
        r@ == v@,
{
    let r = subrange_vec(v, 0, v.len());
    proof {
        assert(v@.subrange(0, v@.len() as int) =~= v@);
    }
    r
}

/// Append all of `src` to `dst`.
pub fn push_all(dst: &mut Vec<u8>, src: &[u8])
    ensures
        final(dst)@ == old(dst)@ + src@,
{
    let mut k: usize = 0;
    while k < src.len()
        invariant
            k <= src@.len(),
            dst@ == old(dst)@ + src@.subrange(0, k as int),
        decreases src@.len() - k,
    {
        dst.push(src[k]);
        k = k + 1;
        assert(src@.subrange(0, k as int) == src@.subrange(0, k - 1).push(src@[k - 1]));
    }
    assert(src@.subrange(0, src@.len() as int) == src@);
}

/// Exact byte equality of two slices.
pub fn eq_bytes(a: &[u8], b: &[u8]) -> (r: bool)
    ensures
        r == (a@ == b@),
{
    if a.len() != b.len() {
        assert(a@ != b@);
        return false;
    }
    let mut k: usize = 0;
    while k < a.len()
        invariant
            k <= a@.len(),
            a@.len() == b@.len(),
            forall|i: int| 0 <= i < k ==> a@[i] == b@[i],
        decreases a@.len() - k,
    {
        if a[k] != b[k] {
            return false;
        }
        k = k + 1;
    }
    assert(a@ =~= b@);
    true
}

/// `pat` occurs in `s` at position `i`.
pub open spec fn match_at(s: Seq<u8>, i: int, pat: Seq<u8>) -> bool {
    0 <= i && i + pat.len() <= s.len() && s.subrange(i, i + pat.len()) == pat
}

/// Whether `pat` occurs in `s` at position `i`.
pub fn has_match_at(s: &[u8], i: usize, pat: &[u8]) -> (r: bool)
    requires
        i <= s@.len(),
    ensures
        r == match_at(s@, i as int, pat@),
{
    if pat.len() > s.len() - i {
        return false;
    }
    let mut k: usize = 0;
    while k < pat.len()
        invariant
            k <= pat@.len(),
            i + pat@.len() <= s@.len(),
            s@.len() <= usize::MAX,
            forall|j: int| 0 <= j < k ==> s@[i + j] == pat@[j],
        decreases pat@.len() - k,
    {
        if s[i + k] != pat[k] {
            assert(s@.subrange(i as int, i + pat@.len())[k as int] == s@[i + k]);
            return false;
        }
        k = k + 1;
    }
    assert(s@.subrange(i as int, i + pat@.len()) =~= pat@);
    true
}

/// End of `s[i..j]` once trailing whitespace is dropped, as an index into `s`.
pub fn scan_trim_end(s: &[u8], i: usize, j: usize) -> (e: usize)
    requires
        i <= j <= s@.len(),
    ensures
        e - i == trim_end_len(s@.subrange(i as int, j as int)),
        i <= e <= j,
        trim_end(s@.subrange(i as int, j as int)) == s@.subrange(i as int, e as int),
{
    let ghost sub = s@.subrange(i as int, j as int);
    let mut e: usize = j;
    while e > i && is_ws_byte(s[e - 1])
        invariant
            i <= e <= j <= s@.len(),
            forall|k: int| e <= k < j ==> is_ws(#[trigger] s@[k]),
        decreases e,
    {
        e = e - 1;
    }
    proof {
        assert forall|k: int| e - i <= k < sub.len() implies is_ws(#[trigger] sub[k]) by {
            assert(sub[k] == s@[i + k]);
        }
        if e > i {
            assert(sub[e - i - 1] == s@[e - 1]);
        }
        lemma_trim_end_len_unique(sub, e - i);
        assert(trim_end(sub) =~= s@.subrange(i as int, e as int));
    }
    e
}

/// Trim leading and trailing whitespace from `s[i..j]`.
pub fn trim_range(s: &[u8], i: usize, j: usize) -> (r: Vec<u8>)
    requires
        i <= j <= s@.len(),
    ensures
        r@ == trim(s@.subrange(i as int, j as int)),
{
    let ghost sub = s@.subrange(i as int, j as int);
    let e = scan_trim_end(s, i, j);
    let ghost te = trim_end(sub);
    let mut b: usize = i;
    while b < e && is_ws_byte(s[b])
        invariant
            i <= b <= e <= s@.len(),
            forall|k: int| i <= k < b ==> is_ws(#[trigger] s@[k]),
        decreases e - b,
    {
        b = b + 1;
    }
    proof {
        assert forall|k: int| 0 <= k < b - i implies is_ws(#[trigger] te[k]) by {
            assert(te[k] == s@[i + k]);
        }
        if b < e {
            assert(te[b - i] == s@[b as int]);
        }
        lemma_ws_prefix_len_unique(te, b - i);
        assert(trim(sub) =~= s@.subrange(b as int, e as int));
    }
    subrange_vec(s, b, e)
}

/// Pushing onto a vector pushes the element's view onto the deep view.
pub proof fn lemma_vec_push_deep_view<T: DeepView>(v1: Vec<T>, v2: Vec<T>, x: T)
    requires
        v2@ == v1@.push(x),
    ensures
        v2.deep_view() == v1.deep_view().push(x.deep_view()),
{
    assert forall|i: int| 0 <= i < v2.deep_view().len() implies v2.deep_view()[i]
        == v1.deep_view().push(x.deep_view())[i] by {
        if i < v1@.len() {
            assert(v2@[i] == v1@[i]);
        } else {
            assert(v2@[i] == x);
        }
    }
    assert(v2.deep_view() =~= v1.deep_view().push(x.deep_view()));
}

/// Removing from a vector removes the element's view from the deep view.
pub proof fn lemma_vec_remove_deep_view<T: DeepView>(v1: Vec<T>, v2: Vec<T>, i: int)
    requires
        0 <= i < v1@.len(),
        v2@ == v1@.remove(i),
    ensures
        v2.deep_view() == v1.deep_view().remove(i),
{
    assert forall|q: int| 0 <= q < v2.deep_view().len() implies v2.deep_view()[q]
        == v1.deep_view().remove(i)[q] by {
        if q < i {
            assert(v2@[q] == v1@[q]);
        } else {
            assert(v2@[q] == v1@[q + 1]);
        }
    }
    assert(v2.deep_view() =~= v1.deep_view().remove(i));
}

/// Inserting into a vector inserts the element's view into the deep view.
pub proof fn lemma_vec_insert_deep_view<T: DeepView>(v1: Vec<T>, v2: Vec<T>, i: int, x: T)
    requires
        0 <= i <= v1@.len(),
        v2@ == v1@.insert(i, x),
    ensures
        v2.deep_view() == v1.deep_view().insert(i, x.deep_view()),
{
    assert forall|q: int| 0 <= q < v2.deep_view().len() implies v2.deep_view()[q]
        == v1.deep_view().insert(i, x.deep_view())[q] by {
        if q < i {
            assert(v2@[q] == v1@[q]);
        } else if q == i {
            assert(v2@[q] == x);
        } else {
            assert(v2@[q] == v1@[q - 1]);
        }
    }
    assert(v2.deep_view() =~= v1.deep_view().insert(i, x.deep_view()));
}

/// Whether `b` is horizontal whitespace.
pub fn is_ws_byte(b: u8) -> (r: bool)
    ensures
        r == is_ws(b),
{
    b == 32 || b == 9 || b == 13
}

} // verus!
