//! Diagnostics: blocking structural errors and advisory warnings, each keyed
//! to a 1-based source line, reported in line order.

use vstd::prelude::*;
use crate::bytes::push_all;

verus! {

/// What a diagnostic reports. The first seven are blocking errors; the rest
/// are advisory warnings that never affect validity.
#[derive(PartialEq, Eq, Structural, Clone, Copy, Debug)]
pub enum DiagKind {
    /// Indentation or prefix violation: the line fits no structural role.
    BadLine,
    /// A facet line with no open concept above it.
    OrphanFacet,
    /// A claim line with no open facet above it.
    OrphanClaim,
    /// A concept that ends with zero facets.
    MissingFacet,
    /// A facet that ends with zero claims.
    MissingClaim,
    /// A claim body that breaks the inline grammar.
    BadInline,
    /// A reference segment that is not `identifier.identifier`.
    BadReference,
    /// A reference whose concept.facet pair resolves nowhere in the document.
    UnresolvedReference,
    /// A top-level concept name that already appeared earlier.
    DuplicateConcept,
    /// A claim whose text segment is empty.
    EmptyClaimText,
    /// A recoverable guess was made between a word and a trailing modifier.
    AmbiguousParse,
    /// A facet name reused under a different concept.
    FacetReuse,
}

/// Mathematical model of one diagnostic.
pub struct DiagS {
    pub line: int,
    pub kind: DiagKind,
    pub detail: Seq<u8>,
}

/// One diagnostic: its 1-based line, its kind, and the name or text it is
/// about (empty where the kind needs none).
#[derive(Debug)]
pub struct Diagnostic {
    pub line: usize,
    pub kind: DiagKind,
    pub detail: Vec<u8>,
}

impl View for Diagnostic {
    type V = DiagS;

    open spec fn view(&self) -> DiagS {
        DiagS { line: self.line as int, kind: self.kind, detail: self.detail@ }
    }
}

impl DeepView for Diagnostic {
    type V = DiagS;

    open spec fn deep_view(&self) -> DiagS {
        self@
    }
}

/// Diagnostics ordered by line, earliest first.
pub open spec fn sorted_by_line(s: Seq<DiagS>) -> bool {
    forall|i: int, j: int| 0 <= i < j < s.len() ==> #[trigger] s[i].line <= #[trigger] s[j].line
}

/// Insert `d` after every element whose line is at most `d.line`.
pub open spec fn insert_by_line(s: Seq<DiagS>, d: DiagS) -> Seq<DiagS>
    decreases s.len(),
{
    if s.len() == 0 {
        seq![d]
    } else if s.last().line <= d.line {
        s.push(d)
    } else {
        insert_by_line(s.drop_last(), d).push(s.last())
    }
}

/// Stable insertion sort by line.
pub open spec fn sort_by_line(s: Seq<DiagS>) -> Seq<DiagS>
    decreases s.len(),
{
    if s.len() == 0 {
        s
    } else {
        insert_by_line(sort_by_line(s.drop_last()), s.last())
    }
}

pub proof fn lemma_insert_by_line_len(s: Seq<DiagS>, d: DiagS)
    ensures
        insert_by_line(s, d).len() == s.len() + 1,
    decreases s.len(),
{
    if s.len() > 0 && s.last().line > d.line {
        lemma_insert_by_line_len(s.drop_last(), d);
    }
}

pub proof fn lemma_insert_by_line_sorted(s: Seq<DiagS>, d: DiagS)
    requires
        sorted_by_line(s),
    ensures
        sorted_by_line(insert_by_line(s, d)),
    decreases s.len(),
{
    lemma_insert_by_line_len(s, d);
    if s.len() == 0 {
    } else if s.last().line <= d.line {
    } else {
        assert(sorted_by_line(s.drop_last()));
        lemma_insert_by_line_sorted(s.drop_last(), d);
        let r0 = insert_by_line(s.drop_last(), d);
        let r = r0.push(s.last());
        lemma_insert_by_line_members(s.drop_last(), d);
        assert forall|i: int, j: int| 0 <= i < j < r.len() implies #[trigger] r[i].line
            <= #[trigger] r[j].line by {
            if j < r.len() - 1 {
                assert(r[i] == r0[i] && r[j] == r0[j]);
            } else {
                assert(r[j] == s.last());
                assert(r[i] == r0[i]);
            }
        }
    }
}

/// Every element of the insertion result is `d` or an element of `s`.
pub proof fn lemma_insert_by_line_members(s: Seq<DiagS>, d: DiagS)
    ensures
        forall|i: int| 0 <= i < insert_by_line(s, d).len() ==> #[trigger] insert_by_line(s, d)[i]
            == d || exists|j: int| 0 <= j < s.len() && insert_by_line(s, d)[i] == #[trigger] s[j],
    decreases s.len(),
{
    lemma_insert_by_line_len(s, d);
    if s.len() == 0 {
    } else if s.last().line <= d.line {
        assert forall|i: int| 0 <= i < s.len() + 1 implies #[trigger] insert_by_line(s, d)[i] == d
            || exists|j: int| 0 <= j < s.len() && insert_by_line(s, d)[i] == #[trigger] s[j] by {
            if i < s.len() {
                assert(insert_by_line(s, d)[i] == s[i]);
            }
        }
    } else {
        lemma_insert_by_line_members(s.drop_last(), d);
        let r0 = insert_by_line(s.drop_last(), d);
        assert forall|i: int| 0 <= i < s.len() + 1 implies #[trigger] insert_by_line(s, d)[i] == d
            || exists|j: int| 0 <= j < s.len() && insert_by_line(s, d)[i] == #[trigger] s[j] by {
            if i < r0.len() {
                assert(insert_by_line(s, d)[i] == r0[i]);
                if r0[i] != d {
                    let j = choose|j: int| 0 <= j < s.drop_last().len() && r0[i] == #[trigger] s
                        .drop_last()[j];
                    assert(s.drop_last()[j] == s[j]);
                }
            } else {
                assert(insert_by_line(s, d)[i] == s.last());
                assert(s.last() == s[s.len() - 1]);
            }
        }
    }
}

/// How many diagnostics of kind `k` at line `ln` a list holds.
pub open spec fn count_diag(s: Seq<DiagS>, k: DiagKind, ln: int) -> nat
    decreases s.len(),
{
    if s.len() == 0 {
        0
    } else {
        count_diag(s.drop_last(), k, ln) + if s.last().kind == k && s.last().line == ln {
            1nat
        } else {
            0nat
        }
    }
}

pub proof fn lemma_count_diag_concat(a: Seq<DiagS>, b: Seq<DiagS>, k: DiagKind, ln: int)
    ensures
        count_diag(a + b, k, ln) == count_diag(a, k, ln) + count_diag(b, k, ln),
    decreases b.len(),
{
    if b.len() == 0 {
        assert(a + b =~= a);
    } else {
        lemma_count_diag_concat(a, b.drop_last(), k, ln);
        assert((a + b).drop_last() =~= a + b.drop_last());
        assert((a + b).last() == b.last());
    }
}

pub proof fn lemma_count_diag_push(s: Seq<DiagS>, d: DiagS, k: DiagKind, ln: int)
    ensures
        count_diag(s.push(d), k, ln) == count_diag(s, k, ln) + if d.kind == k && d.line == ln {
            1nat
        } else {
            0nat
        },
{
    assert(s.push(d).drop_last() =~= s);
    assert(s.push(d).last() == d);
}

/// No diagnostic of a list lies at line `ln`: the count there is zero.
pub proof fn lemma_count_diag_zero(s: Seq<DiagS>, k: DiagKind, ln: int)
    requires
        forall|i: int| 0 <= i < s.len() ==> #[trigger] s[i].line != ln,
    ensures
        count_diag(s, k, ln) == 0,
    decreases s.len(),
{
    if s.len() > 0 {
        assert(s.last() == s[s.len() - 1]);
        lemma_count_diag_zero(s.drop_last(), k, ln);
    }
}

/// No diagnostic of a list has kind `k`: the count is zero at every line.
pub proof fn lemma_count_diag_zero_kind(s: Seq<DiagS>, k: DiagKind, ln: int)
    requires
        forall|i: int| 0 <= i < s.len() ==> (#[trigger] s[i]).kind != k,
    ensures
        count_diag(s, k, ln) == 0,
    decreases s.len(),
{
    if s.len() > 0 {
        assert(s.last() == s[s.len() - 1]);
        lemma_count_diag_zero_kind(s.drop_last(), k, ln);
    }
}

/// Inserting by line keeps every count.
pub proof fn lemma_insert_by_line_count(s: Seq<DiagS>, d: DiagS, k: DiagKind, ln: int)
    ensures
        count_diag(insert_by_line(s, d), k, ln) == count_diag(s, k, ln) + if d.kind == k && d.line
            == ln {
            1nat
        } else {
            0nat
        },
    decreases s.len(),
{
    if s.len() == 0 {
        assert(insert_by_line(s, d) =~= Seq::empty().push(d));
        lemma_count_diag_push(Seq::empty(), d, k, ln);
        assert(count_diag(Seq::empty(), k, ln) == 0);
    } else if s.last().line <= d.line {
        lemma_count_diag_push(s, d, k, ln);
    } else {
        lemma_insert_by_line_count(s.drop_last(), d, k, ln);
        lemma_count_diag_push(insert_by_line(s.drop_last(), d), s.last(), k, ln);
        lemma_count_diag_push(s.drop_last(), s.last(), k, ln);
        assert(s.drop_last().push(s.last()) =~= s);
    }
}

/// Sorting by line keeps every count.
pub proof fn lemma_sort_by_line_count(s: Seq<DiagS>, k: DiagKind, ln: int)
    ensures
        count_diag(sort_by_line(s), k, ln) == count_diag(s, k, ln),
    decreases s.len(),
{
    if s.len() > 0 {
        lemma_sort_by_line_count(s.drop_last(), k, ln);
        lemma_insert_by_line_count(sort_by_line(s.drop_last()), s.last(), k, ln);
    }
}

pub proof fn lemma_sort_by_line_sorted(s: Seq<DiagS>)
    ensures
        sorted_by_line(sort_by_line(s)),
        sort_by_line(s).len() == s.len(),
    decreases s.len(),
{
    if s.len() > 0 {
        lemma_sort_by_line_sorted(s.drop_last());
        lemma_insert_by_line_sorted(sort_by_line(s.drop_last()), s.last());
        lemma_insert_by_line_len(sort_by_line(s.drop_last()), s.last());
    }
}

/// A diagnostic that needs no detail text.
pub fn diag0(line: usize, kind: DiagKind) -> (d: Diagnostic)
    ensures
        d@ == (DiagS { line: line as int, kind, detail: Seq::<u8>::empty() }),
{
    let d = Diagnostic { line, kind, detail: Vec::new() };
    proof {
        assert(d@.detail =~= Seq::<u8>::empty());
    }
    d
}

/// Where `d` belongs in the sorted prefix `s`: after every element whose
/// line is at most `d.line`.
fn find_insert_pos(s: &Vec<Diagnostic>, line: usize) -> (p: usize)
    requires
        sorted_by_line(s.deep_view()),
    ensures
        p <= s@.len(),
        p > 0 ==> s.deep_view()[p - 1].line <= line,
        forall|k: int| p <= k < s@.len() ==> #[trigger] s.deep_view()[k].line > line,
{
    let mut p: usize = s.len();
    while p > 0 && s[p - 1].line > line
        invariant
            p <= s@.len(),
            forall|k: int| p <= k < s@.len() ==> #[trigger] s.deep_view()[k].line > line,
        decreases p,
    {
        assert(s.deep_view()[p - 1] == s@[p - 1]@);
        p = p - 1;
    }
    proof {
        if p > 0 {
            assert(s.deep_view()[p - 1] == s@[p - 1]@);
        }
    }
    p
}

/// `insert_by_line` inserts exactly at the position the scan finds.
proof fn lemma_insert_by_line_at(s: Seq<DiagS>, d: DiagS, p: int)
    requires
        sorted_by_line(s),
        0 <= p <= s.len(),
        p > 0 ==> s[p - 1].line <= d.line,
        forall|k: int| p <= k < s.len() ==> #[trigger] s[k].line > d.line,
    ensures
        insert_by_line(s, d) == s.take(p).push(d) + s.skip(p),
    decreases s.len(),
{
    if s.len() == 0 {
        assert(insert_by_line(s, d) =~= s.take(p).push(d) + s.skip(p));
    } else if s.last().line <= d.line {
        assert(p == s.len());
        assert(insert_by_line(s, d) =~= s.take(p).push(d) + s.skip(p));
    } else {
        assert(p < s.len());
        let t = s.drop_last();
        assert(sorted_by_line(t));
        assert forall|k: int| p <= k < t.len() implies #[trigger] t[k].line > d.line by {
            assert(t[k] == s[k]);
        }
        if p > 0 {
            assert(t[p - 1] == s[p - 1]);
        }
        lemma_insert_by_line_at(t, d, p);
        assert(insert_by_line(s, d) =~= s.take(p).push(d) + s.skip(p));
    }
}

/// Stable sort of diagnostics by line. Diagnostics with the same line keep
/// their relative order.
pub fn sort_diags(mut v: Vec<Diagnostic>) -> (r: Vec<Diagnostic>)
    ensures
        r.deep_view() == sort_by_line(v.deep_view()),
{
    let ghost orig = v.deep_view();
    let mut r: Vec<Diagnostic> = Vec::new();
    let ghost mut done: int = 0;
    proof {
        assert(orig.take(0) =~= Seq::<DiagS>::empty());
        lemma_sort_by_line_sorted(orig.take(0));
    }
    while v.len() > 0
        invariant
            0 <= done <= orig.len(),
            v.deep_view() == orig.skip(done),
            r.deep_view() == sort_by_line(orig.take(done)),
            sorted_by_line(r.deep_view()),
        decreases v@.len(),
    {
        let ghost prev = v.deep_view();
        let ghost prev_vec = v@;
        let d = v.remove(0);
        let ghost rv = r.deep_view();
        proof {
            assert(prev.len() == prev_vec.len());
            assert(done < orig.len());
            assert(prev[0] == prev_vec[0].deep_view());
            assert(d@ == prev[0]);
            assert(orig.skip(done)[0] == orig[done]);
            assert(d@ == orig[done]);
            assert forall|i: int| 0 <= i < v@.len() implies v.deep_view()[i] == orig.skip(
                done + 1,
            )[i] by {
                assert(v@[i] == prev_vec.remove(0)[i]);
                assert(v@[i] == prev_vec[i + 1]);
                assert(v.deep_view()[i] == prev[i + 1]);
                assert(prev[i + 1] == orig.skip(done as int)[i + 1]);
                assert(orig.skip(done as int)[i + 1] == orig[done + 1 + i]);
                assert(orig.skip(done + 1)[i] == orig[done + 1 + i]);
            }
            assert(v.deep_view() =~= orig.skip(done + 1));
        }
        let p = find_insert_pos(&r, d.line);
        let ghost dv = d@;
        let ghost dexec = d;
        let ghost rvec = r@;
        r.insert(p, d);
        proof {
            lemma_insert_by_line_at(rv, dv, p as int);
            assert(r@ == rvec.insert(p as int, dexec));
            let rhs = rv.take(p as int).push(dv) + rv.skip(p as int);
            assert forall|i: int| 0 <= i < r@.len() implies r.deep_view()[i] == rhs[i] by {
                assert(r.deep_view()[i] == r@[i]@);
                assert(r@ == rvec.subrange(0, p as int).push(dexec) + rvec.subrange(
                    p as int,
                    rvec.len() as int,
                ));
                if i < p {
                    assert(r@[i] == rvec[i]);
                    assert(rv[i] == rvec[i]@);
                    assert(rhs[i] == rv[i]);
                } else if i == p {
                    assert(r@[i] == dexec);
                    assert(rhs[i] == dv);
                } else {
                    assert(r@[i] == rvec[i - 1]);
                    assert(rv[i - 1] == rvec[i - 1]@);
                    assert(rhs[i] == rv[i - 1]);
                }
            }
            assert(r.deep_view() =~= rv.take(p as int).push(dv) + rv.skip(p as int));
            assert(orig.take(done + 1).drop_last() =~= orig.take(done));
            assert(orig.take(done + 1).last() == orig[done]);
            assert(r.deep_view() == sort_by_line(orig.take(done + 1)));
            lemma_sort_by_line_sorted(orig.take(done + 1));
            done = done + 1;
        }
    }
    proof {
        assert(orig.take(done) =~= orig);
    }
    r
}

} // verus!
