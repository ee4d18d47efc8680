//! Laws of the library, stated and proved over the same spec functions the
//! public functions' contracts use.

use vstd::prelude::*;
use crate::classify::{LineKind, line_kind};
use crate::diag::{
    DiagKind, DiagS, count_diag, lemma_count_diag_concat, lemma_count_diag_push,
    lemma_count_diag_zero, lemma_count_diag_zero_kind, lemma_sort_by_line_count,
};
use crate::doc::{ConceptS, FacetS};
use crate::assemble::{
    AsmS, asm_step, asm_upto, assembled, split_lines, split_lines_from, close_errors,
    close_facet_errors, bad_ref_errors, concept_step, facet_step, claim_step,
};
use crate::validate::validation_errors;
use crate::edit::{EditErrS, PatchOpS, gated, apply_patches_upto, count_occ};
use crate::inline::{parse_claim_spec, find_byte_from};
use crate::render::{render_claim, render_claims, render_facet, render_facets, render_concept,
    render_concepts};

verus! {

/// Atomicity of the edit engine: whenever an edit call fails — however the
/// candidate was built — the stored text after the call is byte-for-byte
/// the text before it.
pub proof fn lemma_edit_atomicity(old_text: Seq<u8>, cand: Result<Seq<u8>, EditErrS>)
    ensures
        gated(old_text, cand).1 is Err ==> gated(old_text, cand).0 == old_text,
        gated(old_text, cand).1 is Ok ==> validation_errors(gated(old_text, cand).0).len() == 0,
{
}

/// Patch uniqueness is judged against the evolving text: a patch with a
/// nonempty `old_string` applies exactly when that string occurs exactly
/// once in the text produced by the patches before it — not in the
/// original text.
pub proof fn lemma_patch_uniqueness_sequential(
    text0: Seq<u8>,
    ops: Seq<PatchOpS>,
    k: int,
    t: Seq<u8>,
)
    requires
        1 <= k <= ops.len(),
        apply_patches_upto(text0, ops, k - 1) == Ok::<Seq<u8>, EditErrS>(t),
        t.len() > 0,
        ops[k - 1].old_string.len() > 0,
    ensures
        apply_patches_upto(text0, ops, k) is Ok <==> count_occ(t, ops[k - 1].old_string) == 1,
        count_occ(t, ops[k - 1].old_string) == 0 ==> apply_patches_upto(text0, ops, k) == Err::<
            Seq<u8>,
            EditErrS,
        >(EditErrS::NotFound { index: k }),
        count_occ(t, ops[k - 1].old_string) > 1 ==> apply_patches_upto(text0, ops, k) == Err::<
            Seq<u8>,
            EditErrS,
        >(
            EditErrS::Ambiguous {
                index: k,
                count: count_occ(t, ops[k - 1].old_string) as int,
            },
        ),
{
}

/// Every diagnostic the assembler has emitted after `n` lines lies at a
/// line at most `n`, and so does every concept and facet declaration.
pub open spec fn asm_bounded(st: AsmS, n: int) -> bool {
    (forall|q: int| 0 <= q < st.errors.len() ==> (#[trigger] st.errors[q]).line <= n) && (forall|
        q: int,
    |
        0 <= q < st.concepts.len() ==> (#[trigger] st.concepts[q]).line <= n) && (forall|
        q: int,
        r: int,
    |
        #![trigger st.concepts[q].facets[r]]
        0 <= q < st.concepts.len() && 0 <= r < st.concepts[q].facets.len()
            ==> st.concepts[q].facets[r].line <= n)
}

pub proof fn lemma_asm_bounded(lines: Seq<Seq<u8>>, n: int)
    requires
        0 <= n,
    ensures
        asm_bounded(asm_upto(lines, n), n),
    decreases n,
{
    if n == 0 {
    } else {
        lemma_asm_bounded(lines, n - 1);
        let st = asm_upto(lines, n - 1);
        let st2 = asm_upto(lines, n);
        let l = lines[n - 1];
        assert(st2 == asm_step(st, l, n));
        match line_kind(l) {
            LineKind::Blank => {
            },
            LineKind::Malformed => {
                assert forall|q: int| 0 <= q < st2.errors.len() implies (
                #[trigger] st2.errors[q]).line <= n by {
                    if q < st.errors.len() {
                        assert(st2.errors[q] == st.errors[q]);
                    }
                }
            },
            LineKind::Concept => {
                let cl = close_errors(st.concepts);
                assert forall|q: int| 0 <= q < st2.errors.len() implies (
                #[trigger] st2.errors[q]).line <= n by {
                    if q < st.errors.len() {
                        assert(st2.errors[q] == st.errors[q]);
                    } else {
                        assert(st2.errors[q] == cl[q - st.errors.len()]);
                        if st.concepts.len() > 0 {
                            assert(st.concepts.last() == st.concepts[st.concepts.len() - 1]);
                            if st.concepts.last().facets.len() > 0 {
                                assert(st.concepts.last().facets.last()
                                    == st.concepts[st.concepts.len() - 1].facets[st.concepts.last().facets.len() - 1]);
                            }
                        }
                    }
                }
                assert forall|q: int| 0 <= q < st2.concepts.len() implies (
                #[trigger] st2.concepts[q]).line <= n by {
                    if q < st.concepts.len() {
                        assert(st2.concepts[q] == st.concepts[q]);
                    }
                }
                assert forall|q: int, r: int|
                    0 <= q < st2.concepts.len() && 0 <= r < st2.concepts[q].facets.len() implies #[trigger] st2.concepts[q].facets[r].line <= n by {
                    if q < st.concepts.len() {
                        assert(st2.concepts[q] == st.concepts[q]);
                        assert(st.concepts[q].facets[r].line <= n - 1);
                    } else {
                        assert(st2.concepts[q].facets.len() == 0);
                    }
                }
            },
            LineKind::Facet => {
                if st.concepts.len() == 0 {
                    assert forall|q: int| 0 <= q < st2.errors.len() implies (
                    #[trigger] st2.errors[q]).line <= n by {
                        if q < st.errors.len() {
                            assert(st2.errors[q] == st.errors[q]);
                        }
                    }
                } else {
                    let cl = close_facet_errors(st.concepts);
                    assert forall|q: int| 0 <= q < st2.errors.len() implies (
                    #[trigger] st2.errors[q]).line <= n by {
                        if q < st.errors.len() {
                            assert(st2.errors[q] == st.errors[q]);
                        } else {
                            assert(st2.errors[q] == cl[q - st.errors.len()]);
                            if st.concepts.len() > 0 && st.concepts.last().facets.len() > 0 {
                                assert(st.concepts.last().facets.last()
                                    == st.concepts[st.concepts.len() - 1].facets[st.concepts.last().facets.len() - 1]);
                            }
                        }
                    }
                    let c = st.concepts.last();
                    assert(st.concepts.last() == st.concepts[st.concepts.len() - 1]);
                    assert forall|q: int| 0 <= q < st2.concepts.len() implies (
                    #[trigger] st2.concepts[q]).line <= n by {
                        if q != st.concepts.len() - 1 {
                            assert(st2.concepts[q] == st.concepts[q]);
                        }
                    }
                    assert forall|q: int, r: int|
                        0 <= q < st2.concepts.len() && 0 <= r < st2.concepts[q].facets.len() implies #[trigger] st2.concepts[q].facets[r].line <= n by {
                        if q != st.concepts.len() - 1 {
                            assert(st2.concepts[q] == st.concepts[q]);
                            assert(st.concepts[q].facets[r].line <= n - 1);
                        } else {
                            if r < c.facets.len() {
                                assert(st2.concepts[q].facets[r] == c.facets[r]);
                                assert(st.concepts[q].facets[r].line <= n - 1);
                            }
                        }
                    }
                }
            },
            LineKind::Claim => {
                if st.concepts.len() == 0 || st.concepts.last().facets.len() == 0 {
                    assert forall|q: int| 0 <= q < st2.errors.len() implies (
                    #[trigger] st2.errors[q]).line <= n by {
                        if q < st.errors.len() {
                            assert(st2.errors[q] == st.errors[q]);
                        }
                    }
                } else {
                    let p = parse_claim_spec(crate::classify::claim_body(l));
                    if !p.ok {
                        assert forall|q: int| 0 <= q < st2.errors.len() implies (
                        #[trigger] st2.errors[q]).line <= n by {
                            if q < st.errors.len() {
                                assert(st2.errors[q] == st.errors[q]);
                            }
                        }
                    } else {
                        let br = bad_ref_errors(p.bad_refs, n);
                        assert forall|q: int| 0 <= q < st2.errors.len() implies (
                        #[trigger] st2.errors[q]).line <= n by {
                            if q < st.errors.len() {
                                assert(st2.errors[q] == st.errors[q]);
                            } else {
                                assert(st2.errors[q] == br[q - st.errors.len()]);
                            }
                        }
                        let c = st.concepts.last();
                        let f = c.facets.last();
                        assert(st.concepts.last() == st.concepts[st.concepts.len() - 1]);
                        assert forall|q: int| 0 <= q < st2.concepts.len() implies (
                        #[trigger] st2.concepts[q]).line <= n by {
                            if q != st.concepts.len() - 1 {
                                assert(st2.concepts[q] == st.concepts[q]);
                            }
                        }
                        assert forall|q: int, r: int|
                            0 <= q < st2.concepts.len() && 0 <= r < st2.concepts[q].facets.len() implies #[trigger] st2.concepts[q].facets[r].line <= n by {
                            if q != st.concepts.len() - 1 {
                                assert(st2.concepts[q] == st.concepts[q]);
                                assert(st.concepts[q].facets[r].line <= n - 1);
                            } else {
                                assert(c == st.concepts[q]);
                                assert(c.facets.last() == c.facets[c.facets.len() - 1]);
                                if r != c.facets.len() - 1 {
                                    assert(st2.concepts[q].facets[r] == c.facets[r]);
                                    assert(c.facets[r].line <= n - 1);
                                } else {
                                    assert(st2.concepts[q].facets[r].line == f.line);
                                    assert(c.facets[r].line <= n - 1);
                                }
                            }
                        }
                    }
                }
            },
        }
    }
}

/// Closing a concept whose line is not `ln` contributes no missing-facet
/// error at `ln`.
proof fn lemma_close_not_counted(cs: Seq<ConceptS>, ln: int)
    requires
        cs.len() > 0 ==> cs.last().line != ln,
    ensures
        count_diag(close_errors(cs), DiagKind::MissingFacet, ln) == 0,
{
    let cl = close_errors(cs);
    assert(count_diag(Seq::<DiagS>::empty(), DiagKind::MissingFacet, ln) == 0);
    if cs.len() == 0 {
    } else if cs.last().facets.len() == 0 {
        assert(cl.drop_last() =~= Seq::<DiagS>::empty());
        assert(cl.last().line != ln);
    } else if cs.last().facets.last().claims.len() == 0 {
        assert(cl.drop_last() =~= Seq::<DiagS>::empty());
        assert(cl.last().kind != DiagKind::MissingFacet);
    }
}

/// Closing a facet contributes no missing-facet error anywhere.
proof fn lemma_close_facet_not_counted(cs: Seq<ConceptS>, ln: int)
    ensures
        count_diag(close_facet_errors(cs), DiagKind::MissingFacet, ln) == 0,
{
    let cl = close_facet_errors(cs);
    assert(count_diag(Seq::<DiagS>::empty(), DiagKind::MissingFacet, ln) == 0);
    if cl.len() > 0 {
        assert(cl.drop_last() =~= Seq::<DiagS>::empty());
        assert(cl.last().kind != DiagKind::MissingFacet);
    }
}

/// Closing a concept at line `ln` that gathered no facet contributes
/// exactly one missing-facet error at `ln`.
proof fn lemma_close_counted(cs: Seq<ConceptS>, ln: int)
    requires
        cs.len() > 0,
        cs.last().line == ln,
        cs.last().facets.len() == 0,
    ensures
        count_diag(close_errors(cs), DiagKind::MissingFacet, ln) == 1,
{
    let cl = close_errors(cs);
    assert(count_diag(Seq::<DiagS>::empty(), DiagKind::MissingFacet, ln) == 0);
    assert(cl.drop_last() =~= Seq::<DiagS>::empty());
    assert(cl.last().kind == DiagKind::MissingFacet && cl.last().line == ln);
}

/// After the concept line at index `i` (1-based line `i + 1`) the assembler
/// holds it open, facetless, with no missing-facet error at its line yet.
proof fn lemma_upto_concept(lines: Seq<Seq<u8>>, i: int)
    requires
        0 <= i < lines.len(),
        line_kind(lines[i]) == LineKind::Concept,
    ensures
        count_diag(asm_upto(lines, i + 1).errors, DiagKind::MissingFacet, i + 1) == 0,
        asm_upto(lines, i + 1).concepts.len() > 0,
        asm_upto(lines, i + 1).concepts.last().line == i + 1,
        asm_upto(lines, i + 1).concepts.last().facets.len() == 0,
{
    lemma_asm_bounded(lines, i);
    let st = asm_upto(lines, i);
    let st2 = asm_upto(lines, i + 1);
    assert(st2 == concept_step(st, crate::classify::concept_name(lines[i]), i + 1));
    assert forall|q: int| 0 <= q < st.errors.len() implies (#[trigger] st.errors[q]).line != i
        + 1 by {
        assert(st.errors[q].line <= i);
    }
    lemma_count_diag_zero(st.errors, DiagKind::MissingFacet, i + 1);
    if st.concepts.len() > 0 {
        assert(st.concepts.last() == st.concepts[st.concepts.len() - 1]);
        assert(st.concepts.last().line <= i);
    }
    lemma_close_not_counted(st.concepts, i + 1);
    lemma_count_diag_concat(st.errors, close_errors(st.concepts), DiagKind::MissingFacet, i + 1);
    assert(st2.concepts.last().line == i + 1);
}

/// Once the concept at line `i + 1` has been closed by the concept line
/// right after it, the document carries exactly one missing-facet error at
/// `i + 1`, and every concept opened later lies further down.
proof fn lemma_after_close(lines: Seq<Seq<u8>>, i: int, n: int)
    requires
        0 <= i,
        i + 1 < lines.len(),
        i + 2 <= n <= lines.len(),
        line_kind(lines[i]) == LineKind::Concept,
        line_kind(lines[i + 1]) == LineKind::Concept,
    ensures
        count_diag(asm_upto(lines, n).errors, DiagKind::MissingFacet, i + 1) == 1,
        asm_upto(lines, n).concepts.len() > 0,
        asm_upto(lines, n).concepts.last().line >= i + 2,
    decreases n,
{
    if n == i + 2 {
        lemma_upto_concept(lines, i);
        let st = asm_upto(lines, i + 1);
        let st2 = asm_upto(lines, i + 2);
        assert(st2 == concept_step(st, crate::classify::concept_name(lines[i + 1]), i + 2));
        lemma_close_counted(st.concepts, i + 1);
        lemma_count_diag_concat(
            st.errors,
            close_errors(st.concepts),
            DiagKind::MissingFacet,
            i + 1,
        );
        assert(st2.concepts.last().line == i + 2);
    } else {
        lemma_after_close(lines, i, n - 1);
        let st = asm_upto(lines, n - 1);
        let st2 = asm_upto(lines, n);
        let l = lines[n - 1];
        assert(st2 == asm_step(st, l, n));
        match line_kind(l) {
            LineKind::Blank => {
            },
            LineKind::Malformed => {
                lemma_count_diag_push(
                    st.errors,
                    DiagS { line: n, kind: DiagKind::BadLine, detail: Seq::empty() },
                    DiagKind::MissingFacet,
                    i + 1,
                );
            },
            LineKind::Concept => {
                lemma_close_not_counted(st.concepts, i + 1);
                lemma_count_diag_concat(
                    st.errors,
                    close_errors(st.concepts),
                    DiagKind::MissingFacet,
                    i + 1,
                );
                assert(st2.concepts.last().line == n);
            },
            LineKind::Facet => {
                lemma_close_facet_not_counted(st.concepts, i + 1);
                lemma_count_diag_concat(
                    st.errors,
                    close_facet_errors(st.concepts),
                    DiagKind::MissingFacet,
                    i + 1,
                );
                let c = st.concepts.last();
                assert(st2.concepts.last() == st2.concepts[st2.concepts.len() - 1]);
                assert(st2.concepts.last().line == c.line);
            },
            LineKind::Claim => {
                if st.concepts.last().facets.len() == 0 {
                    lemma_count_diag_push(
                        st.errors,
                        DiagS { line: n, kind: DiagKind::OrphanClaim, detail: Seq::empty() },
                        DiagKind::MissingFacet,
                        i + 1,
                    );
                } else {
                    let p = parse_claim_spec(crate::classify::claim_body(l));
                    if !p.ok {
                        lemma_count_diag_push(
                            st.errors,
                            DiagS { line: n, kind: DiagKind::BadInline, detail: Seq::empty() },
                            DiagKind::MissingFacet,
                            i + 1,
                        );
                    } else {
                        let br = bad_ref_errors(p.bad_refs, n);
                        assert forall|q: int| 0 <= q < br.len() implies (#[trigger] br[q]).kind
                            != DiagKind::MissingFacet by {}
                        lemma_count_diag_zero_kind(br, DiagKind::MissingFacet, i + 1);
                        lemma_count_diag_concat(st.errors, br, DiagKind::MissingFacet, i + 1);
                        let c = st.concepts.last();
                        assert(st2.concepts.last() == st2.concepts[st2.concepts.len() - 1]);
                        assert(st2.concepts.last().line == c.line);
                    }
                }
            },
        }
    }
}

/// A concept followed immediately by another concept line, or by the end of
/// input, with no facet line in between, yields exactly one missing-facet
/// error, keyed to that concept's own line.
pub proof fn lemma_concept_missing_facet(text: Seq<u8>, i: int)
    requires
        0 <= i < split_lines(text).len(),
        line_kind(split_lines(text)[i]) == LineKind::Concept,
        i + 1 == split_lines(text).len() || line_kind(split_lines(text)[i + 1])
            == LineKind::Concept,
    ensures
        count_diag(validation_errors(text), DiagKind::MissingFacet, i + 1) == 1,
{
    let lines = split_lines(text);
    let st = asm_upto(lines, lines.len() as int);
    if i + 1 == lines.len() {
        lemma_upto_concept(lines, i);
        lemma_close_counted(st.concepts, i + 1);
        lemma_count_diag_concat(
            st.errors,
            close_errors(st.concepts),
            DiagKind::MissingFacet,
            i + 1,
        );
    } else {
        lemma_after_close(lines, i, lines.len() as int);
        lemma_close_not_counted(st.concepts, i + 1);
        lemma_count_diag_concat(
            st.errors,
            close_errors(st.concepts),
            DiagKind::MissingFacet,
            i + 1,
        );
    }
    lemma_sort_by_line_count(assembled(text).errors, DiagKind::MissingFacet, i + 1);
}


/// Index of the last concept line before `n` (`-1` when none).
pub open spec fn last_concept_idx(lines: Seq<Seq<u8>>, n: int) -> int
    decreases n,
{
    if n <= 0 {
        -1
    } else if line_kind(lines[n - 1]) == LineKind::Concept {
        n - 1
    } else {
        last_concept_idx(lines, n - 1)
    }
}

/// Index of the last concept or facet line before `n` (`-1` when none).
pub open spec fn last_struct_idx(lines: Seq<Seq<u8>>, n: int) -> int
    decreases n,
{
    if n <= 0 {
        -1
    } else if line_kind(lines[n - 1]) == LineKind::Concept || line_kind(lines[n - 1])
        == LineKind::Facet {
        n - 1
    } else {
        last_struct_idx(lines, n - 1)
    }
}

/// Some claim line lies strictly between `a` and `b`.
pub open spec fn has_claim_between(lines: Seq<Seq<u8>>, a: int, b: int) -> bool
    decreases b - a,
{
    if b <= a + 1 {
        false
    } else {
        line_kind(lines[b - 1]) == LineKind::Claim || has_claim_between(lines, a, b - 1)
    }
}

proof fn lemma_last_concept_idx(lines: Seq<Seq<u8>>, n: int)
    requires
        0 <= n,
    ensures
        -1 <= last_concept_idx(lines, n) < n,
        last_concept_idx(lines, n) >= 0 ==> line_kind(lines[last_concept_idx(lines, n)])
            == LineKind::Concept,
        forall|t: int|
            last_concept_idx(lines, n) < t < n ==> line_kind(#[trigger] lines[t])
                != LineKind::Concept,
    decreases n,
{
    if n > 0 && line_kind(lines[n - 1]) != LineKind::Concept {
        lemma_last_concept_idx(lines, n - 1);
    }
}

proof fn lemma_last_struct_idx(lines: Seq<Seq<u8>>, n: int)
    requires
        0 <= n,
    ensures
        -1 <= last_struct_idx(lines, n) < n,
        last_struct_idx(lines, n) >= 0 ==> line_kind(lines[last_struct_idx(lines, n)])
            == LineKind::Concept || line_kind(lines[last_struct_idx(lines, n)]) == LineKind::Facet,
        forall|t: int|
            last_struct_idx(lines, n) < t < n ==> line_kind(#[trigger] lines[t])
                != LineKind::Concept && line_kind(lines[t]) != LineKind::Facet,
    decreases n,
{
    if n > 0 && line_kind(lines[n - 1]) != LineKind::Concept && line_kind(lines[n - 1])
        != LineKind::Facet {
        lemma_last_struct_idx(lines, n - 1);
    }
}

/// A claim line strictly between `a` and `b` witnesses `has_claim_between`.
proof fn lemma_has_claim_witness(lines: Seq<Seq<u8>>, a: int, t: int, b: int)
    requires
        a < t < b,
        line_kind(lines[t]) == LineKind::Claim,
    ensures
        has_claim_between(lines, a, b),
    decreases b - a,
{
    if t < b - 1 {
        lemma_has_claim_witness(lines, a, t, b - 1);
    }
}

/// A claim body that parses without any inline or reference error.
#[verifier::opaque]
pub open spec fn claim_clean(body: Seq<u8>) -> bool {
    parse_claim_spec(body).ok && parse_claim_spec(body).bad_refs.len() == 0
}

/// A structurally clean line sequence: every line has a structural role, no
/// facet or claim is orphaned, every concept gains a facet and every facet a
/// claim before its scope closes, and every claim body parses cleanly.
pub open spec fn lines_clean(lines: Seq<Seq<u8>>) -> bool {
    no_malformed_lines(lines) && facets_have_concept(lines) && claims_have_facet(lines)
        && concepts_gain_facet(lines) && facets_gain_claim(lines) && claim_bodies_clean(lines)
}

/// Every line classifies as blank, concept, facet or claim.
#[verifier::opaque]
pub open spec fn no_malformed_lines(lines: Seq<Seq<u8>>) -> bool {
    forall|q: int| 0 <= q < lines.len() ==> line_kind(#[trigger] lines[q]) != LineKind::Malformed
}

/// Every facet line has a concept line somewhere above it.
#[verifier::opaque]
pub open spec fn facets_have_concept(lines: Seq<Seq<u8>>) -> bool {
    forall|q: int|
        0 <= q < lines.len() && line_kind(#[trigger] lines[q]) == LineKind::Facet
            ==> last_concept_idx(lines, q) >= 0
}

/// Every claim line has a facet open above it: the nearest concept or facet
/// line above is a facet.
#[verifier::opaque]
pub open spec fn claims_have_facet(lines: Seq<Seq<u8>>) -> bool {
    forall|q: int|
        0 <= q < lines.len() && line_kind(#[trigger] lines[q]) == LineKind::Claim
            ==> last_struct_idx(lines, q) >= 0 && line_kind(lines[last_struct_idx(lines, q)])
            == LineKind::Facet
}

/// Every concept line is followed by a facet line before the next concept
/// line or the end of input.
#[verifier::opaque]
pub open spec fn concepts_gain_facet(lines: Seq<Seq<u8>>) -> bool {
    forall|q: int|
        0 <= q < lines.len() && line_kind(#[trigger] lines[q]) == LineKind::Concept ==> exists|
            j: int,
        |
            q < j < lines.len() && line_kind(#[trigger] lines[j]) == LineKind::Facet
                && no_concept_between(lines, q, j)
}

/// Every facet line is followed by a claim line before the next facet or
/// concept line or the end of input.
#[verifier::opaque]
pub open spec fn facets_gain_claim(lines: Seq<Seq<u8>>) -> bool {
    forall|q: int|
        0 <= q < lines.len() && line_kind(#[trigger] lines[q]) == LineKind::Facet ==> exists|
            j: int,
        |
            q < j < lines.len() && line_kind(#[trigger] lines[j]) == LineKind::Claim
                && no_struct_between(lines, q, j)
}

/// Every claim body parses cleanly.
#[verifier::opaque]
pub open spec fn claim_bodies_clean(lines: Seq<Seq<u8>>) -> bool {
    forall|q: int|
        0 <= q < lines.len() && line_kind(#[trigger] lines[q]) == LineKind::Claim ==> claim_clean(
            crate::classify::claim_body(lines[q]),
        )
}

/// No concept line strictly between `a` and `b`.
pub open spec fn no_concept_between(lines: Seq<Seq<u8>>, a: int, b: int) -> bool {
    forall|t: int| a < t < b ==> line_kind(#[trigger] lines[t]) != LineKind::Concept
}

/// No concept or facet line strictly between `a` and `b`.
pub open spec fn no_struct_between(lines: Seq<Seq<u8>>, a: int, b: int) -> bool {
    forall|t: int|
        a < t < b ==> line_kind(#[trigger] lines[t]) != LineKind::Concept && line_kind(lines[t])
            != LineKind::Facet
}


/// Instantiate `no_malformed_lines` at one line.
proof fn lemma_not_malformed_at(lines: Seq<Seq<u8>>, q: int)
    requires
        no_malformed_lines(lines),
        0 <= q < lines.len(),
    ensures
        line_kind(lines[q]) != LineKind::Malformed,
{
    reveal(no_malformed_lines);
}

/// Instantiate `facets_have_concept` at one facet line.
proof fn lemma_facet_has_concept_at(lines: Seq<Seq<u8>>, q: int)
    requires
        facets_have_concept(lines),
        0 <= q < lines.len(),
        line_kind(lines[q]) == LineKind::Facet,
    ensures
        last_concept_idx(lines, q) >= 0,
{
    reveal(facets_have_concept);
}

/// Instantiate `claims_have_facet` at one claim line.
proof fn lemma_claim_has_facet_at(lines: Seq<Seq<u8>>, q: int)
    requires
        claims_have_facet(lines),
        0 <= q < lines.len(),
        line_kind(lines[q]) == LineKind::Claim,
    ensures
        last_struct_idx(lines, q) >= 0,
        line_kind(lines[last_struct_idx(lines, q)]) == LineKind::Facet,
{
    reveal(claims_have_facet);
}

/// Instantiate `concepts_gain_facet` at one concept line.
proof fn lemma_gain_facet_at(lines: Seq<Seq<u8>>, q: int)
    requires
        concepts_gain_facet(lines),
        0 <= q < lines.len(),
        line_kind(lines[q]) == LineKind::Concept,
    ensures
        exists|j: int|
            q < j < lines.len() && line_kind(#[trigger] lines[j]) == LineKind::Facet
                && no_concept_between(lines, q, j),
{
    reveal(concepts_gain_facet);
}

/// Instantiate `facets_gain_claim` at one facet line.
proof fn lemma_gain_claim_at(lines: Seq<Seq<u8>>, q: int)
    requires
        facets_gain_claim(lines),
        0 <= q < lines.len(),
        line_kind(lines[q]) == LineKind::Facet,
    ensures
        exists|j: int|
            q < j < lines.len() && line_kind(#[trigger] lines[j]) == LineKind::Claim
                && no_struct_between(lines, q, j),
{
    reveal(facets_gain_claim);
}

/// Instantiate `claim_bodies_clean` at one claim line.
proof fn lemma_claim_clean_at(lines: Seq<Seq<u8>>, q: int)
    requires
        claim_bodies_clean(lines),
        0 <= q < lines.len(),
        line_kind(lines[q]) == LineKind::Claim,
    ensures
        claim_clean(crate::classify::claim_body(lines[q])),
{
    reveal(claim_bodies_clean);
}

/// The structural part of the clean invariant, over an abstract state: the
/// open concept and facet match what the line sequence shows.
pub open spec fn inv_parts(lines: Seq<Seq<u8>>, n: int, st: AsmS) -> bool {
    let lc = last_concept_idx(lines, n);
    let ls = last_struct_idx(lines, n);
    (st.concepts.len() > 0 <==> lc >= 0) && (st.concepts.len() > 0 ==> (
    st.concepts.last().facets.len() > 0 <==> (ls >= 0 && line_kind(lines[ls]) == LineKind::Facet)))
        && (st.concepts.len() > 0 && st.concepts.last().facets.len() > 0 ==> (
    st.concepts.last().facets.last().claims.len() > 0 <==> has_claim_between(lines, ls, n)))
}

/// Invariant of the assembler over a clean prefix: no error yet, and the
/// open concept and facet match what the line sequence shows.
pub open spec fn clean_inv(lines: Seq<Seq<u8>>, n: int) -> bool {
    asm_upto(lines, n).errors.len() == 0 && inv_parts(lines, n, asm_upto(lines, n))
}

/// Under cleanliness, closing the open concept at a concept line or at the
/// end of input emits nothing.
proof fn lemma_close_empty_parts(lines: Seq<Seq<u8>>, n: int, cs: Seq<ConceptS>)
    requires
        concepts_gain_facet(lines),
        facets_gain_claim(lines),
        0 <= n <= lines.len(),
        n < lines.len() ==> line_kind(lines[n]) == LineKind::Concept,
        inv_parts(lines, n, AsmS { concepts: cs, errors: Seq::empty(), warnings: Seq::empty() }),
    ensures
        close_errors(cs).len() == 0,
{
    let lc = last_concept_idx(lines, n);
    let ls = last_struct_idx(lines, n);
    lemma_last_concept_idx(lines, n);
    lemma_last_struct_idx(lines, n);
    if cs.len() > 0 {
        assert(0 <= lc < lines.len() && line_kind(lines[lc]) == LineKind::Concept);
        lemma_gain_facet_at(lines, lc);
        let jf = choose|j: int|
            lc < j < lines.len() && line_kind(#[trigger] lines[j]) == LineKind::Facet
                && no_concept_between(lines, lc, j);
        assert(jf < n) by {
            if jf > n {
                assert(line_kind(lines[n]) != LineKind::Concept);
            }
        }
        assert(ls >= jf) by {
            if ls < jf {
                assert(line_kind(lines[jf]) != LineKind::Facet);
            }
        }
        assert(line_kind(lines[ls]) == LineKind::Facet) by {
            if line_kind(lines[ls]) == LineKind::Concept {
                assert(ls <= lc) by {
                    if ls > lc {
                        assert(line_kind(lines[ls]) != LineKind::Concept);
                    }
                }
            }
        }
        assert(cs.last().facets.len() > 0);
        lemma_gain_claim_at(lines, ls);
        let jc = choose|j: int|
            ls < j < lines.len() && line_kind(#[trigger] lines[j]) == LineKind::Claim
                && no_struct_between(lines, ls, j);
        assert(jc < n) by {
            if jc > n {
                assert(line_kind(lines[n]) != LineKind::Concept && line_kind(lines[n])
                    != LineKind::Facet);
            }
        }
        lemma_has_claim_witness(lines, ls, jc, n);
        assert(cs.last().facets.last().claims.len() > 0);
    }
}

/// Under cleanliness, closing the open facet at a facet line emits nothing.
proof fn lemma_close_facet_empty_parts(lines: Seq<Seq<u8>>, n: int, cs: Seq<ConceptS>)
    requires
        facets_gain_claim(lines),
        0 <= n < lines.len(),
        line_kind(lines[n]) == LineKind::Facet,
        inv_parts(lines, n, AsmS { concepts: cs, errors: Seq::empty(), warnings: Seq::empty() }),
    ensures
        close_facet_errors(cs).len() == 0,
{
    let ls = last_struct_idx(lines, n);
    lemma_last_struct_idx(lines, n);
    if cs.len() > 0 && cs.last().facets.len() > 0 {
        assert(0 <= ls < lines.len() && line_kind(lines[ls]) == LineKind::Facet);
        lemma_gain_claim_at(lines, ls);
        let jc = choose|j: int|
            ls < j < lines.len() && line_kind(#[trigger] lines[j]) == LineKind::Claim
                && no_struct_between(lines, ls, j);
        assert(jc < n) by {
            if jc > n {
                assert(line_kind(lines[n]) != LineKind::Concept && line_kind(lines[n])
                    != LineKind::Facet);
            }
        }
        lemma_has_claim_witness(lines, ls, jc, n);
        assert(cs.last().facets.last().claims.len() > 0);
    }
}

/// A blank line keeps the structural invariant.
proof fn lemma_inv_step_blank(lines: Seq<Seq<u8>>, n: int, st: AsmS)
    requires
        1 <= n <= lines.len(),
        line_kind(lines[n - 1]) == LineKind::Blank,
        inv_parts(lines, n - 1, st),
    ensures
        inv_parts(lines, n, st),
{
    lemma_last_struct_idx(lines, n - 1);
}

/// A concept line closes nothing visible and opens a facetless concept.
proof fn lemma_inv_step_concept(lines: Seq<Seq<u8>>, n: int, st: AsmS, name: Seq<u8>)
    requires
        1 <= n <= lines.len(),
        line_kind(lines[n - 1]) == LineKind::Concept,
        inv_parts(lines, n - 1, st),
    ensures
        inv_parts(lines, n, concept_step(st, name, n)),
{
    let st2 = concept_step(st, name, n);
    assert(last_concept_idx(lines, n) == n - 1);
    assert(last_struct_idx(lines, n) == n - 1);
    assert(st2.concepts.last().facets.len() == 0);
}

/// A facet line under an open concept opens an empty facet.
proof fn lemma_inv_step_facet(lines: Seq<Seq<u8>>, n: int, st: AsmS, name: Seq<u8>)
    requires
        1 <= n <= lines.len(),
        line_kind(lines[n - 1]) == LineKind::Facet,
        facets_have_concept(lines),
        inv_parts(lines, n - 1, st),
    ensures
        st.concepts.len() > 0,
        inv_parts(lines, n, facet_step(st, name, n)),
{
    lemma_facet_has_concept_at(lines, n - 1);
    assert(last_concept_idx(lines, n - 1) >= 0);
    let st2 = facet_step(st, name, n);
    assert(last_concept_idx(lines, n) == last_concept_idx(lines, n - 1));
    assert(last_struct_idx(lines, n) == n - 1);
    assert(st2.concepts.last() == st2.concepts[st2.concepts.len() - 1]);
    assert(st2.concepts.last().facets.len() > 0);
    assert(st2.concepts.last().facets.last().claims.len() == 0);
    assert(!has_claim_between(lines, n - 1, n));
}

/// A claim line under an open facet appends a claim and no error.
proof fn lemma_inv_step_claim(lines: Seq<Seq<u8>>, n: int, st: AsmS)
    requires
        1 <= n <= lines.len(),
        line_kind(lines[n - 1]) == LineKind::Claim,
        claims_have_facet(lines),
        claim_bodies_clean(lines),
        facets_have_concept(lines),
        inv_parts(lines, n - 1, st),
    ensures
        st.concepts.len() > 0,
        st.concepts.last().facets.len() > 0,
        claim_step(st, crate::classify::claim_body(lines[n - 1]), n).errors.len()
            == st.errors.len(),
        claim_step(st, crate::classify::claim_body(lines[n - 1]), n).concepts.len() > 0,
        inv_parts(lines, n, claim_step(st, crate::classify::claim_body(lines[n - 1]), n)),
{
    reveal(claim_clean);
    lemma_claim_has_facet_at(lines, n - 1);
    lemma_claim_clean_at(lines, n - 1);
    let ls = last_struct_idx(lines, n - 1);
    lemma_last_struct_idx(lines, n - 1);
    lemma_last_concept_idx(lines, n - 1);
    assert(ls >= 0 && line_kind(lines[ls]) == LineKind::Facet);
    assert(st.concepts.len() > 0) by {
        if last_concept_idx(lines, n - 1) < 0 {
            lemma_facet_has_concept_at(lines, ls);
            lemma_last_concept_idx(lines, ls);
            let lcs = last_concept_idx(lines, ls);
            assert(line_kind(lines[lcs]) == LineKind::Concept);
        }
    }
    assert(st.concepts.last().facets.len() > 0);
    let body = crate::classify::claim_body(lines[n - 1]);
    let p = parse_claim_spec(body);
    assert(claim_clean(body));
    let st2 = claim_step(st, body, n);
    assert(bad_ref_errors(p.bad_refs, n).len() == 0);
    assert(st2.errors =~= st.errors + bad_ref_errors(p.bad_refs, n));
    assert(st2.errors.len() == st.errors.len());
    assert(last_concept_idx(lines, n) == last_concept_idx(lines, n - 1));
    assert(last_struct_idx(lines, n) == ls);
    assert(st2.concepts.last() == st2.concepts[st2.concepts.len() - 1]);
    assert(st2.concepts.last().facets.last() == st2.concepts.last().facets[st2.concepts.last().facets.len() - 1]);
    assert(st2.concepts.last().facets.last().claims.len() > 0);
    assert(has_claim_between(lines, ls, n));
}

/// The assembler keeps the clean invariant over every clean prefix.
proof fn lemma_clean_inv_holds(lines: Seq<Seq<u8>>, n: int)
    requires
        lines_clean(lines),
        0 <= n <= lines.len(),
    ensures
        clean_inv(lines, n),
    decreases n,
{
    if n == 0 {
    } else {
        lemma_clean_inv_holds(lines, n - 1);
        let st = asm_upto(lines, n - 1);
        let st2 = asm_upto(lines, n);
        let l = lines[n - 1];
        assert(st2 == asm_step(st, l, n));
        match line_kind(l) {
            LineKind::Blank => {
                lemma_inv_step_blank(lines, n, st);
            },
            LineKind::Malformed => {
                lemma_not_malformed_at(lines, n - 1);
                assert(false);
            },
            LineKind::Concept => {
                lemma_close_empty_parts(lines, n - 1, st.concepts);
                assert(st2.errors =~= st.errors + close_errors(st.concepts));
                lemma_inv_step_concept(lines, n, st, crate::classify::concept_name(l));
            },
            LineKind::Facet => {
                lemma_inv_step_facet(lines, n, st, crate::classify::facet_name(l));
                lemma_close_facet_empty_parts(lines, n - 1, st.concepts);
                assert(st2.errors =~= st.errors + close_facet_errors(st.concepts));
            },
            LineKind::Claim => {
                lemma_inv_step_claim(lines, n, st);
            },
        }
    }
}

/// Completeness of the validator: a text in which every line plays a
/// structural role, no facet or claim is orphaned, every concept has a
/// facet, every facet a claim, and every claim body parses cleanly,
/// validates with zero errors.
pub proof fn lemma_clean_text_validates(text: Seq<u8>)
    requires
        lines_clean(split_lines(text)),
    ensures
        validation_errors(text).len() == 0,
{
    let lines = split_lines(text);
    lemma_clean_inv_holds(lines, lines.len() as int);
    let st = asm_upto(lines, lines.len() as int);
    lemma_close_empty_parts(lines, lines.len() as int, st.concepts);
    assert(assembled(text).errors =~= st.errors + close_errors(st.concepts));
    assert(assembled(text).errors.len() == 0);
    crate::diag::lemma_sort_by_line_sorted(assembled(text).errors);
}

/// `s` holds a line terminator.
pub open spec fn has_nl(s: Seq<u8>) -> bool {
    exists|i: int| 0 <= i < s.len() && s[i] == 10
}

proof fn lemma_find_hits_last(s: Seq<u8>, i: int, b: u8)
    requires
        0 <= i < s.len(),
        s[s.len() - 1] == b,
    ensures
        find_byte_from(s, i, b) < s.len(),
    decreases s.len() - i,
{
    if s[i] != b {
        lemma_find_hits_last(s, i + 1, b);
    }
}

proof fn lemma_find_concat(a: Seq<u8>, bs: Seq<u8>, i: int, b: u8)
    requires
        0 <= i <= a.len(),
        find_byte_from(a, i, b) < a.len(),
    ensures
        find_byte_from(a + bs, i, b) == find_byte_from(a, i, b),
    decreases a.len() - i,
{
    crate::inline::lemma_find_byte_from_bounds(a, i, b);
    assert((a + bs)[i] == a[i]);
    if a[i] != b {
        lemma_find_concat(a, bs, i + 1, b);
    }
}

proof fn lemma_find_shift(a: Seq<u8>, bs: Seq<u8>, t: int, b: u8)
    requires
        0 <= t <= bs.len(),
    ensures
        find_byte_from(a + bs, a.len() + t, b) == a.len() + find_byte_from(bs, t, b),
    decreases bs.len() - t,
{
    if t < bs.len() {
        assert((a + bs)[a.len() + t] == bs[t]);
        if bs[t] != b {
            lemma_find_shift(a, bs, t + 1, b);
        }
    }
}

proof fn lemma_split_shift(a: Seq<u8>, bs: Seq<u8>, t: int)
    requires
        0 <= t <= bs.len(),
    ensures
        split_lines_from(a + bs, a.len() + t) == split_lines_from(bs, t),
    decreases bs.len() - t,
{
    if t >= bs.len() {
        assert(split_lines_from(a + bs, a.len() + t) =~= split_lines_from(bs, t));
    } else {
        lemma_find_shift(a, bs, t, 10);
        crate::inline::lemma_find_byte_from_bounds(bs, t, 10);
        let j = find_byte_from(bs, t, 10);
        if j >= bs.len() {
            assert((a + bs).subrange(a.len() + t, (a + bs).len() as int) =~= bs.subrange(
                t,
                bs.len() as int,
            ));
            assert(split_lines_from(a + bs, a.len() + t) =~= split_lines_from(bs, t));
        } else {
            lemma_split_shift(a, bs, j + 1);
            assert((a + bs).subrange(a.len() + t, a.len() + j) =~= bs.subrange(t, j));
            assert(split_lines_from(a + bs, a.len() + t) =~= split_lines_from(bs, t));
        }
    }
}

/// Splitting distributes over concatenation when the first part ends with a
/// line terminator.
proof fn lemma_split_concat_from(a: Seq<u8>, bs: Seq<u8>, i: int)
    requires
        0 <= i <= a.len(),
        a.len() > 0,
        a[a.len() - 1] == 10,
    ensures
        split_lines_from(a + bs, i) == split_lines_from(a, i) + split_lines_from(bs, 0),
    decreases a.len() - i,
{
    if i == a.len() {
        lemma_split_shift(a, bs, 0);
        assert(split_lines_from(a, i) =~= Seq::<Seq<u8>>::empty());
        assert(split_lines_from(a + bs, i) =~= split_lines_from(a, i) + split_lines_from(bs, 0));
    } else {
        lemma_find_hits_last(a, i, 10);
        let j = find_byte_from(a, i, 10);
        crate::inline::lemma_find_byte_from_bounds(a, i, 10);
        lemma_find_concat(a, bs, i, 10);
        assert((a + bs).subrange(i, j) =~= a.subrange(i, j));
        lemma_split_concat_from(a, bs, j + 1);
        assert(split_lines_from(a + bs, i) =~= split_lines_from(a, i) + split_lines_from(bs, 0));
    }
}

/// Splitting distributes over concatenation when the first part ends with a
/// line terminator or is empty.
proof fn lemma_split_concat(a: Seq<u8>, bs: Seq<u8>)
    requires
        a.len() == 0 || a[a.len() - 1] == 10,
    ensures
        split_lines(a + bs) == split_lines(a) + split_lines(bs),
{
    if a.len() == 0 {
        assert(a + bs =~= bs);
        assert(split_lines(a) =~= Seq::<Seq<u8>>::empty());
        assert(split_lines(a + bs) =~= split_lines(a) + split_lines(bs));
    } else {
        lemma_split_concat_from(a, bs, 0);
    }
}

/// A terminator-free line followed by one terminator splits as that line.
proof fn lemma_split_single(l: Seq<u8>)
    requires
        !has_nl(l),
    ensures
        split_lines(l + seq![10u8]) == seq![l],
{
    let s = l + seq![10u8];
    assert(s[s.len() - 1] == 10);
    assert(find_byte_from(s, 0, 10) == l.len() as int) by {
        lemma_find_no_hit_before(s, 0, l.len() as int, 10);
    }
    assert(s.subrange(0, l.len() as int) =~= l);
    assert(split_lines_from(s, l.len() as int + 1) =~= Seq::<Seq<u8>>::empty());
    assert(split_lines(s) =~= seq![l]);
}

/// Finding skips a region without the byte.
proof fn lemma_find_no_hit_before(s: Seq<u8>, i: int, j: int, b: u8)
    requires
        0 <= i <= j < s.len(),
        forall|t: int| i <= t < j ==> s[t] != b,
        s[j] == b,
    ensures
        find_byte_from(s, i, b) == j,
    decreases j - i,
{
    if i < j {
        lemma_find_no_hit_before(s, i + 1, j, b);
    }
}

/// The physical line a claim renders to.
pub open spec fn claim_line_of(cl: crate::doc::ClaimS) -> Seq<u8> {
    seq![32u8, 32u8, 32u8, 32u8, 45u8, 32u8] + render_claim(cl)
}

/// The physical line a facet declaration renders to.
pub open spec fn facet_line_of(f: FacetS) -> Seq<u8> {
    seq![32u8, 32u8, 46u8] + f.name
}

/// The lines of the first `m` claims of a facet.
pub open spec fn lines_of_claims(claims: Seq<crate::doc::ClaimS>, m: int) -> Seq<Seq<u8>>
    decreases m,
{
    if m <= 0 {
        Seq::empty()
    } else {
        lines_of_claims(claims, m - 1).push(claim_line_of(claims[m - 1]))
    }
}

/// The lines of one facet: its declaration, then its claims.
pub open spec fn lines_of_facet(f: FacetS) -> Seq<Seq<u8>> {
    seq![facet_line_of(f)] + lines_of_claims(f.claims, f.claims.len() as int)
}

/// The lines of the first `k` facets of a concept.
pub open spec fn lines_of_facets(facets: Seq<FacetS>, k: int) -> Seq<Seq<u8>>
    decreases k,
{
    if k <= 0 {
        Seq::empty()
    } else {
        lines_of_facets(facets, k - 1) + lines_of_facet(facets[k - 1])
    }
}

/// The lines of one concept: its name, then its facets.
pub open spec fn lines_of_concept(c: ConceptS) -> Seq<Seq<u8>> {
    seq![c.name] + lines_of_facets(c.facets, c.facets.len() as int)
}

/// The lines of the first `i` concepts.
pub open spec fn lines_of_concepts(cs: Seq<ConceptS>, i: int) -> Seq<Seq<u8>>
    decreases i,
{
    if i <= 0 {
        Seq::empty()
    } else {
        lines_of_concepts(cs, i - 1) + lines_of_concept(cs[i - 1])
    }
}

/// A claim whose rendered body stays on one line and parses cleanly.
pub open spec fn claim_wf(cl: crate::doc::ClaimS) -> bool {
    !has_nl(render_claim(cl)) && claim_clean(render_claim(cl))
}

/// A facet whose name stays on one line, with at least one well-formed claim.
pub open spec fn facet_wf(f: FacetS) -> bool {
    !has_nl(f.name) && f.claims.len() > 0 && forall|m: int|
        0 <= m < f.claims.len() ==> claim_wf(#[trigger] f.claims[m])
}

/// A concept whose name is itself a concept line, with at least one
/// well-formed facet.
pub open spec fn concept_wf(c: ConceptS) -> bool {
    line_kind(c.name) == LineKind::Concept && !has_nl(c.name) && c.facets.len() > 0 && forall|
        k: int,
    | 0 <= k < c.facets.len() ==> facet_wf(#[trigger] c.facets[k])
}

/// A well-formed document tree: every concept and facet well-formed.
pub open spec fn doc_wf(cs: Seq<ConceptS>) -> bool {
    forall|i: int| 0 <= i < cs.len() ==> concept_wf(#[trigger] cs[i])
}

/// Every line of a rendered sequence plays a structural role.
#[verifier::opaque]
pub open spec fn shape_roles(ls: Seq<Seq<u8>>) -> bool {
    forall|q: int|
        0 <= q < ls.len() ==> #[trigger] line_kind(ls[q]) == LineKind::Concept || line_kind(ls[q])
            == LineKind::Facet || line_kind(ls[q]) == LineKind::Claim
}

/// Every claim line follows a facet or claim line and parses cleanly.
#[verifier::opaque]
pub open spec fn shape_claim_prev(ls: Seq<Seq<u8>>) -> bool {
    forall|q: int|
        0 <= q < ls.len() && #[trigger] line_kind(ls[q]) == LineKind::Claim ==> q > 0 && (line_kind(
            ls[q - 1],
        ) == LineKind::Facet || line_kind(ls[q - 1]) == LineKind::Claim) && claim_clean(
            crate::classify::claim_body(ls[q]),
        )
}

/// Every facet line is followed directly by a claim line.
#[verifier::opaque]
pub open spec fn shape_facet_next(ls: Seq<Seq<u8>>) -> bool {
    forall|q: int|
        0 <= q < ls.len() && #[trigger] line_kind(ls[q]) == LineKind::Facet ==> q + 1 < ls.len()
            && line_kind(ls[q + 1]) == LineKind::Claim
}

/// Every concept line is followed directly by a facet line.
#[verifier::opaque]
pub open spec fn shape_concept_next(ls: Seq<Seq<u8>>) -> bool {
    forall|q: int|
        0 <= q < ls.len() && #[trigger] line_kind(ls[q]) == LineKind::Concept ==> q + 1 < ls.len()
            && line_kind(ls[q + 1]) == LineKind::Facet
}

/// The local shape of a rendered line sequence.
pub open spec fn lines_shape(ls: Seq<Seq<u8>>) -> bool {
    shape_roles(ls) && shape_claim_prev(ls) && shape_facet_next(ls) && shape_concept_next(ls)
}

proof fn shape_roles_at(ls: Seq<Seq<u8>>, q: int)
    requires
        shape_roles(ls),
        0 <= q < ls.len(),
    ensures
        line_kind(ls[q]) == LineKind::Concept || line_kind(ls[q]) == LineKind::Facet || line_kind(
            ls[q],
        ) == LineKind::Claim,
{
    reveal(shape_roles);
}

proof fn shape_claim_prev_at(ls: Seq<Seq<u8>>, q: int)
    requires
        shape_claim_prev(ls),
        0 <= q < ls.len(),
        line_kind(ls[q]) == LineKind::Claim,
    ensures
        q > 0,
        line_kind(ls[q - 1]) == LineKind::Facet || line_kind(ls[q - 1]) == LineKind::Claim,
        claim_clean(crate::classify::claim_body(ls[q])),
{
    reveal(shape_claim_prev);
}

proof fn shape_facet_next_at(ls: Seq<Seq<u8>>, q: int)
    requires
        shape_facet_next(ls),
        0 <= q < ls.len(),
        line_kind(ls[q]) == LineKind::Facet,
    ensures
        q + 1 < ls.len(),
        line_kind(ls[q + 1]) == LineKind::Claim,
{
    reveal(shape_facet_next);
}

proof fn shape_concept_next_at(ls: Seq<Seq<u8>>, q: int)
    requires
        shape_concept_next(ls),
        0 <= q < ls.len(),
        line_kind(ls[q]) == LineKind::Concept,
    ensures
        q + 1 < ls.len(),
        line_kind(ls[q + 1]) == LineKind::Facet,
{
    reveal(shape_concept_next);
}

/// A rendered claim line classifies as a claim and carries its body.
proof fn lemma_claim_line_kind(cl: crate::doc::ClaimS)
    ensures
        line_kind(claim_line_of(cl)) == LineKind::Claim,
        crate::classify::claim_body(claim_line_of(cl)) == render_claim(cl),
{
    let l = claim_line_of(cl);
    assert(l[4] == 45);
    assert(!crate::bytes::all_ws(l));
    assert(l[0] == 32 && l[1] == 32 && l[2] == 32 && l[3] == 32 && l[5] == 32);
    assert(crate::classify::claim_body(l) =~= render_claim(cl));
}

/// A rendered facet line classifies as a facet.
proof fn lemma_facet_line_kind(f: FacetS)
    ensures
        line_kind(facet_line_of(f)) == LineKind::Facet,
{
    let l = facet_line_of(f);
    assert(l[2] == 46);
    assert(!crate::bytes::all_ws(l));
    assert(l[0] == 32 && l[1] == 32);
}

/// Each line of `lines_of_claims` is the rendered line of its claim.
proof fn lemma_claim_lines_at(claims: Seq<crate::doc::ClaimS>, m: int)
    requires
        0 <= m <= claims.len(),
    ensures
        lines_of_claims(claims, m).len() == m,
        forall|r: int|
            0 <= r < m ==> #[trigger] lines_of_claims(claims, m)[r] == claim_line_of(claims[r]),
    decreases m,
{
    if m > 0 {
        lemma_claim_lines_at(claims, m - 1);
    }
}

/// A well-formed facet's lines have the local shape and open with a facet.
proof fn lemma_facet_block_shape(f: FacetS)
    requires
        facet_wf(f),
    ensures
        lines_shape(lines_of_facet(f)),
        lines_of_facet(f).len() == 1 + f.claims.len(),
        line_kind(lines_of_facet(f)[0]) == LineKind::Facet,
{
    let ls = lines_of_facet(f);
    lemma_claim_lines_at(f.claims, f.claims.len() as int);
    lemma_facet_line_kind(f);
    assert(ls[0] == facet_line_of(f));
    assert forall|q: int| 1 <= q < ls.len() implies line_kind(ls[q]) == LineKind::Claim
        && claim_clean(crate::classify::claim_body(ls[q])) by {
        assert(ls[q] == claim_line_of(f.claims[q - 1]));
        lemma_claim_line_kind(f.claims[q - 1]);
        assert(claim_wf(f.claims[q - 1]));
    }
    assert(shape_roles(ls)) by {
        reveal(shape_roles);
    }
    assert(shape_claim_prev(ls)) by {
        reveal(shape_claim_prev);
        assert forall|q: int|
            0 <= q < ls.len() && #[trigger] line_kind(ls[q]) == LineKind::Claim implies q > 0 && (
        line_kind(ls[q - 1]) == LineKind::Facet || line_kind(ls[q - 1]) == LineKind::Claim)
            && claim_clean(crate::classify::claim_body(ls[q])) by {
            assert(q > 0);
        }
    }
    assert(shape_facet_next(ls)) by {
        reveal(shape_facet_next);
        assert forall|q: int|
            0 <= q < ls.len() && #[trigger] line_kind(ls[q]) == LineKind::Facet implies q + 1
            < ls.len() && line_kind(ls[q + 1]) == LineKind::Claim by {
            assert(q == 0);
            assert(f.claims.len() > 0);
        }
    }
    assert(shape_concept_next(ls)) by {
        reveal(shape_concept_next);
        assert forall|q: int|
            0 <= q < ls.len() && #[trigger] line_kind(ls[q]) == LineKind::Concept implies q + 1
            < ls.len() && line_kind(ls[q + 1]) == LineKind::Facet by {
            assert(false);
        }
    }
}

/// Local shape survives concatenation when the second block does not open
/// with a claim line.
#[verifier::rlimit(100)]
proof fn lemma_shape_concat_roles(a: Seq<Seq<u8>>, b: Seq<Seq<u8>>)
    requires
        shape_roles(a),
        shape_roles(b),
    ensures
        shape_roles(a + b),
{
    let ls = a + b;
    reveal(shape_roles);
    assert forall|q: int| 0 <= q < ls.len() implies #[trigger] line_kind(ls[q])
        == LineKind::Concept || line_kind(ls[q]) == LineKind::Facet || line_kind(ls[q])
        == LineKind::Claim by {
        if q < a.len() {
            assert(ls[q] == a[q]);
        } else {
            assert(ls[q] == b[q - a.len()]);
        }
    }
}

#[verifier::rlimit(100)]
proof fn lemma_shape_concat_claim_prev(a: Seq<Seq<u8>>, b: Seq<Seq<u8>>)
    requires
        shape_claim_prev(a),
        shape_claim_prev(b),
        b.len() > 0 ==> line_kind(b[0]) != LineKind::Claim,
    ensures
        shape_claim_prev(a + b),
{
    let ls = a + b;
    reveal(shape_claim_prev);
    assert forall|q: int|
        0 <= q < ls.len() && #[trigger] line_kind(ls[q]) == LineKind::Claim implies q > 0 && (
    line_kind(ls[q - 1]) == LineKind::Facet || line_kind(ls[q - 1]) == LineKind::Claim)
        && claim_clean(crate::classify::claim_body(ls[q])) by {
        if q < a.len() {
            assert(ls[q] == a[q]);
            assert(ls[q - 1] == a[q - 1]);
        } else {
            assert(ls[q] == b[q - a.len()]);
            assert(q - a.len() > 0);
            assert(ls[q - 1] == b[q - a.len() - 1]);
        }
    }
}

#[verifier::rlimit(100)]
proof fn lemma_shape_concat_facet_next(a: Seq<Seq<u8>>, b: Seq<Seq<u8>>)
    requires
        shape_facet_next(a),
        shape_facet_next(b),
    ensures
        shape_facet_next(a + b),
{
    let ls = a + b;
    reveal(shape_facet_next);
    assert forall|q: int|
        0 <= q < ls.len() && #[trigger] line_kind(ls[q]) == LineKind::Facet implies q + 1
        < ls.len() && line_kind(ls[q + 1]) == LineKind::Claim by {
        if q < a.len() {
            assert(ls[q] == a[q]);
            assert(ls[q + 1] == a[q + 1]);
        } else {
            assert(ls[q] == b[q - a.len()]);
            assert(ls[q + 1] == b[q - a.len() + 1]);
        }
    }
}

#[verifier::rlimit(100)]
proof fn lemma_shape_concat_concept_next(a: Seq<Seq<u8>>, b: Seq<Seq<u8>>)
    requires
        shape_concept_next(a),
        shape_concept_next(b),
    ensures
        shape_concept_next(a + b),
{
    let ls = a + b;
    reveal(shape_concept_next);
    assert forall|q: int|
        0 <= q < ls.len() && #[trigger] line_kind(ls[q]) == LineKind::Concept implies q + 1
        < ls.len() && line_kind(ls[q + 1]) == LineKind::Facet by {
        if q < a.len() {
            assert(ls[q] == a[q]);
            assert(ls[q + 1] == a[q + 1]);
        } else {
            assert(ls[q] == b[q - a.len()]);
            assert(ls[q + 1] == b[q - a.len() + 1]);
        }
    }
}

/// Local shape survives concatenation when the second block does not open
/// with a claim line.
proof fn lemma_shape_concat(a: Seq<Seq<u8>>, b: Seq<Seq<u8>>)
    requires
        lines_shape(a),
        lines_shape(b),
        b.len() > 0 ==> line_kind(b[0]) != LineKind::Claim,
    ensures
        lines_shape(a + b),
{
    lemma_shape_concat_roles(a, b);
    lemma_shape_concat_claim_prev(a, b);
    lemma_shape_concat_facet_next(a, b);
    lemma_shape_concat_concept_next(a, b);
}

/// A well-formed concept's facet lines have the local shape and open with a
/// facet line.
proof fn lemma_facets_shape(facets: Seq<FacetS>, k: int)
    requires
        0 <= k <= facets.len(),
        forall|t: int| 0 <= t < facets.len() ==> facet_wf(#[trigger] facets[t]),
    ensures
        lines_shape(lines_of_facets(facets, k)),
        k > 0 ==> lines_of_facets(facets, k).len() > 0 && line_kind(lines_of_facets(facets, k)[0])
            == LineKind::Facet,
    decreases k,
{
    if k == 0 {
        reveal(shape_roles);
        reveal(shape_claim_prev);
        reveal(shape_facet_next);
        reveal(shape_concept_next);
    } else {
        lemma_facets_shape(facets, k - 1);
        lemma_facet_block_shape(facets[k - 1]);
        lemma_shape_concat(lines_of_facets(facets, k - 1), lines_of_facet(facets[k - 1]));
        if k == 1 {
            assert(lines_of_facets(facets, 1)[0] == lines_of_facet(facets[0])[0]);
        } else {
            assert(lines_of_facets(facets, k)[0] == lines_of_facets(facets, k - 1)[0]);
        }
    }
}

/// A well-formed concept's lines have the local shape and open with its
/// name line.
/// A lone well-formed concept name line has the local shape except the
/// concept-next promise, which its facet lines supply on concatenation.
proof fn lemma_concept_block_shape(c: ConceptS)
    requires
        concept_wf(c),
    ensures
        lines_shape(lines_of_concept(c)),
        lines_of_concept(c).len() > 0,
        line_kind(lines_of_concept(c)[0]) == LineKind::Concept,
{
    let fls = lines_of_facets(c.facets, c.facets.len() as int);
    lemma_facets_shape(c.facets, c.facets.len() as int);
    let name_ls: Seq<Seq<u8>> = seq![c.name];
    assert(lines_of_concept(c) =~= name_ls + fls);
    lemma_shape_concat_roles_name(c, fls);
    assert(shape_claim_prev(name_ls)) by {
        reveal(shape_claim_prev);
    }
    assert(fls.len() > 0);
    assert(line_kind(fls[0]) == LineKind::Facet);
    lemma_shape_concat_claim_prev(name_ls, fls);
    lemma_shape_concat_facet_next_name(c, fls);
    lemma_shape_concat_concept_next_name(c, fls);
    assert(lines_of_concept(c)[0] == c.name);
}

proof fn lemma_shape_concat_roles_name(c: ConceptS, fls: Seq<Seq<u8>>)
    requires
        concept_wf(c),
        shape_roles(fls),
    ensures
        shape_roles(seq![c.name] + fls),
{
    let ls = seq![c.name] + fls;
    reveal(shape_roles);
    assert forall|q: int| 0 <= q < ls.len() implies #[trigger] line_kind(ls[q])
        == LineKind::Concept || line_kind(ls[q]) == LineKind::Facet || line_kind(ls[q])
        == LineKind::Claim by {
        if q == 0 {
            assert(ls[0] == c.name);
        } else {
            assert(ls[q] == fls[q - 1]);
        }
    }
}

proof fn lemma_shape_concat_facet_next_name(c: ConceptS, fls: Seq<Seq<u8>>)
    requires
        concept_wf(c),
        shape_facet_next(fls),
    ensures
        shape_facet_next(seq![c.name] + fls),
{
    let ls = seq![c.name] + fls;
    reveal(shape_facet_next);
    assert forall|q: int|
        0 <= q < ls.len() && #[trigger] line_kind(ls[q]) == LineKind::Facet implies q + 1
        < ls.len() && line_kind(ls[q + 1]) == LineKind::Claim by {
        assert(ls[0] == c.name);
        assert(q >= 1);
        assert(ls[q] == fls[q - 1]);
        assert(ls[q + 1] == fls[q]);
    }
}

proof fn lemma_shape_concat_concept_next_name(c: ConceptS, fls: Seq<Seq<u8>>)
    requires
        concept_wf(c),
        shape_concept_next(fls),
        fls.len() > 0,
        line_kind(fls[0]) == LineKind::Facet,
    ensures
        shape_concept_next(seq![c.name] + fls),
{
    let ls = seq![c.name] + fls;
    reveal(shape_concept_next);
    assert forall|q: int|
        0 <= q < ls.len() && #[trigger] line_kind(ls[q]) == LineKind::Concept implies q + 1
        < ls.len() && line_kind(ls[q + 1]) == LineKind::Facet by {
        if q >= 1 {
            assert(ls[q] == fls[q - 1]);
            assert(ls[q + 1] == fls[q]);
        } else {
            assert(ls[1] == fls[0]);
        }
    }
}

/// A well-formed document's lines have the local shape and open with a
/// concept line.
proof fn lemma_concepts_shape(cs: Seq<ConceptS>, i: int)
    requires
        0 <= i <= cs.len(),
        doc_wf(cs),
    ensures
        lines_shape(lines_of_concepts(cs, i)),
        i > 0 ==> lines_of_concepts(cs, i).len() > 0 && line_kind(lines_of_concepts(cs, i)[0])
            == LineKind::Concept,
    decreases i,
{
    if i == 0 {
        reveal(shape_roles);
        reveal(shape_claim_prev);
        reveal(shape_facet_next);
        reveal(shape_concept_next);
    } else {
        lemma_concepts_shape(cs, i - 1);
        lemma_concept_block_shape(cs[i - 1]);
        lemma_shape_concat(lines_of_concepts(cs, i - 1), lines_of_concept(cs[i - 1]));
        if i == 1 {
            assert(lines_of_concepts(cs, 1)[0] == lines_of_concept(cs[0])[0]);
        } else {
            assert(lines_of_concepts(cs, i)[0] == lines_of_concepts(cs, i - 1)[0]);
        }
    }
}

/// Walking back from a claim line, the nearest structural line is a facet.
proof fn lemma_claim_ls_is_facet(ls: Seq<Seq<u8>>, q: int)
    requires
        lines_shape(ls),
        0 <= q < ls.len(),
        line_kind(ls[q]) == LineKind::Claim,
    ensures
        last_struct_idx(ls, q) >= 0,
        line_kind(ls[last_struct_idx(ls, q)]) == LineKind::Facet,
    decreases q,
{
    shape_claim_prev_at(ls, q);
    if line_kind(ls[q - 1]) == LineKind::Facet {
        assert(last_struct_idx(ls, q) == q - 1);
    } else {
        lemma_claim_ls_is_facet(ls, q - 1);
        assert(last_struct_idx(ls, q) == last_struct_idx(ls, q - 1));
    }
}

/// A shaped line sequence that opens with a concept line is clean.
proof fn lemma_shape_clean(ls: Seq<Seq<u8>>)
    requires
        lines_shape(ls),
        ls.len() > 0 ==> line_kind(ls[0]) == LineKind::Concept,
    ensures
        lines_clean(ls),
{
    assert(no_malformed_lines(ls)) by {
        reveal(no_malformed_lines);
        assert forall|q: int| 0 <= q < ls.len() implies line_kind(#[trigger] ls[q])
            != LineKind::Malformed by {
            shape_roles_at(ls, q);
        }
    }
    assert(facets_have_concept(ls)) by {
        reveal(facets_have_concept);
        assert forall|q: int|
            0 <= q < ls.len() && line_kind(#[trigger] ls[q])
                == LineKind::Facet implies last_concept_idx(ls, q) >= 0 by {
            assert(q > 0);
            lemma_last_concept_idx(ls, q);
            if last_concept_idx(ls, q) < 0 {
                assert(line_kind(ls[0]) != LineKind::Concept);
            }
        }
    }
    assert(claims_have_facet(ls)) by {
        reveal(claims_have_facet);
        assert forall|q: int|
            0 <= q < ls.len() && line_kind(#[trigger] ls[q])
                == LineKind::Claim implies last_struct_idx(ls, q) >= 0 && line_kind(
                ls[last_struct_idx(ls, q)],
            ) == LineKind::Facet by {
            lemma_claim_ls_is_facet(ls, q);
        }
    }
    assert(concepts_gain_facet(ls)) by {
        reveal(concepts_gain_facet);
        assert forall|q: int|
            0 <= q < ls.len() && line_kind(#[trigger] ls[q]) == LineKind::Concept implies exists|
            j: int,
        |
            q < j < ls.len() && line_kind(#[trigger] ls[j]) == LineKind::Facet
                && no_concept_between(ls, q, j) by {
            shape_concept_next_at(ls, q);
            assert(q + 1 < ls.len() && line_kind(ls[q + 1]) == LineKind::Facet
                && no_concept_between(ls, q, q + 1));
        }
    }
    assert(facets_gain_claim(ls)) by {
        reveal(facets_gain_claim);
        assert forall|q: int|
            0 <= q < ls.len() && line_kind(#[trigger] ls[q]) == LineKind::Facet implies exists|
            j: int,
        |
            q < j < ls.len() && line_kind(#[trigger] ls[j]) == LineKind::Claim
                && no_struct_between(ls, q, j) by {
            shape_facet_next_at(ls, q);
            assert(q + 1 < ls.len() && line_kind(ls[q + 1]) == LineKind::Claim
                && no_struct_between(ls, q, q + 1));
        }
    }
    assert(claim_bodies_clean(ls)) by {
        reveal(claim_bodies_clean);
        assert forall|q: int|
            0 <= q < ls.len() && line_kind(#[trigger] ls[q]) == LineKind::Claim implies claim_clean(
                crate::classify::claim_body(ls[q]),
            ) by {
            shape_claim_prev_at(ls, q);
        }
    }
}

/// A rendered claim line holds no terminator.
proof fn lemma_claim_line_no_nl(cl: crate::doc::ClaimS)
    requires
        claim_wf(cl),
    ensures
        !has_nl(claim_line_of(cl)),
{
    let l = claim_line_of(cl);
    assert forall|i: int| 0 <= i < l.len() implies l[i] != 10 by {
        if i >= 6 {
            assert(l[i] == render_claim(cl)[i - 6]);
            if render_claim(cl)[i - 6] == 10 {
                assert(has_nl(render_claim(cl)));
            }
        }
    }
    if has_nl(l) {
        let i = choose|i: int| 0 <= i < l.len() && l[i] == 10;
        assert(l[i] != 10);
    }
}

/// A rendered facet line holds no terminator.
proof fn lemma_facet_line_no_nl(f: FacetS)
    requires
        facet_wf(f),
    ensures
        !has_nl(facet_line_of(f)),
{
    let l = facet_line_of(f);
    assert forall|i: int| 0 <= i < l.len() implies l[i] != 10 by {
        if i >= 3 {
            assert(l[i] == f.name[i - 3]);
            if f.name[i - 3] == 10 {
                assert(has_nl(f.name));
            }
        }
    }
    if has_nl(l) {
        let i = choose|i: int| 0 <= i < l.len() && l[i] == 10;
        assert(l[i] != 10);
    }
}

/// Rendered claims split back into their lines.
proof fn lemma_split_claims(claims: Seq<crate::doc::ClaimS>, m: int)
    requires
        0 <= m <= claims.len(),
        forall|t: int| 0 <= t < claims.len() ==> claim_wf(#[trigger] claims[t]),
    ensures
        split_lines(render_claims(claims, m)) == lines_of_claims(claims, m),
        m > 0 ==> render_claims(claims, m).len() > 0 && render_claims(claims, m)[render_claims(
            claims,
            m,
        ).len() - 1] == 10,
    decreases m,
{
    if m == 0 {
        assert(split_lines(render_claims(claims, 0)) =~= lines_of_claims(claims, 0));
    } else {
        lemma_split_claims(claims, m - 1);
        let a = render_claims(claims, m - 1);
        let cl = claims[m - 1];
        let chunk = claim_line_of(cl) + seq![10u8];
        assert(render_claims(claims, m) =~= a + chunk);
        lemma_claim_line_no_nl(cl);
        lemma_split_single(claim_line_of(cl));
        lemma_split_concat(a, chunk);
        assert(split_lines(render_claims(claims, m)) =~= lines_of_claims(claims, m));
        assert(render_claims(claims, m)[render_claims(claims, m).len() - 1] == chunk[chunk.len()
            - 1]);
    }
}

/// A rendered facet splits back into its lines.
proof fn lemma_split_facet(f: FacetS)
    requires
        facet_wf(f),
    ensures
        split_lines(render_facet(f)) == lines_of_facet(f),
        render_facet(f).len() > 0,
        render_facet(f)[render_facet(f).len() - 1] == 10,
{
    let head = facet_line_of(f) + seq![10u8];
    let tail = render_claims(f.claims, f.claims.len() as int);
    assert(render_facet(f) =~= head + tail);
    lemma_facet_line_no_nl(f);
    lemma_split_single(facet_line_of(f));
    lemma_split_concat(head, tail);
    lemma_split_claims(f.claims, f.claims.len() as int);
    assert(split_lines(render_facet(f)) =~= lines_of_facet(f));
    assert(render_facet(f)[render_facet(f).len() - 1] == tail[tail.len() - 1]);
}

/// Rendered facets split back into their lines.
proof fn lemma_split_facets(facets: Seq<FacetS>, k: int)
    requires
        0 <= k <= facets.len(),
        forall|t: int| 0 <= t < facets.len() ==> facet_wf(#[trigger] facets[t]),
    ensures
        split_lines(render_facets(facets, k)) == lines_of_facets(facets, k),
        k > 0 ==> render_facets(facets, k).len() > 0 && render_facets(facets, k)[render_facets(
            facets,
            k,
        ).len() - 1] == 10,
    decreases k,
{
    if k == 0 {
        assert(split_lines(render_facets(facets, 0)) =~= lines_of_facets(facets, 0));
    } else {
        lemma_split_facets(facets, k - 1);
        lemma_split_facet(facets[k - 1]);
        let a = render_facets(facets, k - 1);
        let chunk = render_facet(facets[k - 1]);
        lemma_split_concat(a, chunk);
        assert(split_lines(render_facets(facets, k)) =~= lines_of_facets(facets, k));
        assert(render_facets(facets, k)[render_facets(facets, k).len() - 1] == chunk[chunk.len()
            - 1]);
    }
}

/// A rendered concept splits back into its lines.
proof fn lemma_split_concept(c: ConceptS)
    requires
        concept_wf(c),
    ensures
        split_lines(render_concept(c)) == lines_of_concept(c),
        render_concept(c).len() > 0,
        render_concept(c)[render_concept(c).len() - 1] == 10,
{
    let head = c.name + seq![10u8];
    let tail = render_facets(c.facets, c.facets.len() as int);
    assert(render_concept(c) =~= head + tail);
    lemma_split_single(c.name);
    lemma_split_concat(head, tail);
    lemma_split_facets(c.facets, c.facets.len() as int);
    assert(split_lines(render_concept(c)) =~= lines_of_concept(c));
    assert(render_concept(c)[render_concept(c).len() - 1] == tail[tail.len() - 1]);
}

/// A rendered document splits back into its lines.
proof fn lemma_split_concepts(cs: Seq<ConceptS>, i: int)
    requires
        0 <= i <= cs.len(),
        doc_wf(cs),
    ensures
        split_lines(render_concepts(cs, i)) == lines_of_concepts(cs, i),
    decreases i,
{
    if i == 0 {
        assert(split_lines(render_concepts(cs, 0)) =~= lines_of_concepts(cs, 0));
    } else {
        lemma_split_concepts(cs, i - 1);
        lemma_split_concept(cs[i - 1]);
        let a = render_concepts(cs, i - 1);
        let chunk = render_concept(cs[i - 1]);
        assert(a.len() == 0 || a[a.len() - 1] == 10) by {
            if i - 1 > 0 {
                lemma_render_concepts_ends_nl(cs, i - 1);
            }
        }
        lemma_split_concat(a, chunk);
        assert(split_lines(render_concepts(cs, i)) =~= lines_of_concepts(cs, i));
    }
}

/// A nonempty rendered document ends with a terminator.
proof fn lemma_render_concepts_ends_nl(cs: Seq<ConceptS>, i: int)
    requires
        0 < i <= cs.len(),
        doc_wf(cs),
    ensures
        render_concepts(cs, i).len() > 0,
        render_concepts(cs, i)[render_concepts(cs, i).len() - 1] == 10,
    decreases i,
{
    lemma_split_concept(cs[i - 1]);
    let chunk = render_concept(cs[i - 1]);
    assert(render_concepts(cs, i)[render_concepts(cs, i).len() - 1] == chunk[chunk.len() - 1]);
}

/// A well-formed document tree serializes to a text that validates with
/// zero errors: every concept keeps its facet, every facet its claim, and
/// every claim line parses cleanly again.
pub proof fn lemma_wf_doc_renders_valid(cs: Seq<ConceptS>)
    requires
        doc_wf(cs),
    ensures
        validation_errors(render_concepts(cs, cs.len() as int)).len() == 0,
{
    lemma_split_concepts(cs, cs.len() as int);
    lemma_concepts_shape(cs, cs.len() as int);
    lemma_shape_clean(lines_of_concepts(cs, cs.len() as int));
    lemma_clean_text_validates(render_concepts(cs, cs.len() as int));
}

} // verus!
