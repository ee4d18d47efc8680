//! Validator: runs whole-document advisory rules over the assembled tree
//! and returns blocking errors and advisory warnings, each ordered by line
//! and stable for identical input text.

use vstd::prelude::*;
use crate::bytes::{eq_bytes, copy_bytes, lemma_vec_push_deep_view};
use crate::diag::{DiagKind, DiagS, Diagnostic, sort_by_line, sort_diags};
use crate::doc::{ClaimS, ConceptS, Document, Concept};
use crate::inline::RefS;
use crate::assemble::{assembled, assemble_text};

verus! {

/// Some concept named `c` owns a facet named `f`, anywhere in the document.
pub open spec fn ref_resolves(cs: Seq<ConceptS>, c: Seq<u8>, f: Seq<u8>) -> bool {
    exists|i: int, j: int|
        #![trigger cs[i].facets[j]]
        0 <= i < cs.len() && 0 <= j < cs[i].facets.len() && cs[i].name == c && cs[i].facets[j].name
            == f
}

/// The concept at `i` repeats an earlier concept's name.
pub open spec fn dup_concept_before(cs: Seq<ConceptS>, i: int) -> bool {
    exists|j: int| 0 <= j < i && #[trigger] cs[j].name == cs[i].name
}

/// Facet `k` of concept `i` reuses a facet name that appeared under an
/// earlier concept.
pub open spec fn facet_reused(cs: Seq<ConceptS>, i: int, k: int) -> bool {
    exists|j: int, l: int|
        #![trigger cs[j].facets[l]]
        0 <= j < i && 0 <= l < cs[j].facets.len() && cs[j].facets[l].name == cs[i].facets[k].name
}

/// The dotted name a reference warning reports.
pub open spec fn ref_detail(r: RefS) -> Seq<u8> {
    r.concept + seq![46u8] + r.facet
}

/// Unresolved-reference warnings of the first `r` references of one claim.
pub open spec fn ref_warnings(cs: Seq<ConceptS>, refs: Seq<RefS>, line: int, r: int) -> Seq<DiagS>
    decreases r,
{
    if r <= 0 {
        Seq::empty()
    } else {
        ref_warnings(cs, refs, line, r - 1) + if !ref_resolves(
            cs,
            refs[r - 1].concept,
            refs[r - 1].facet,
        ) {
            seq![
                DiagS {
                    line,
                    kind: DiagKind::UnresolvedReference,
                    detail: ref_detail(refs[r - 1]),
                },
            ]
        } else {
            Seq::empty()
        }
    }
}

/// Unresolved-reference warnings of the first `m` claims of one facet.
pub open spec fn claims_ref_warnings(cs: Seq<ConceptS>, claims: Seq<ClaimS>, m: int) -> Seq<DiagS>
    decreases m,
{
    if m <= 0 {
        Seq::empty()
    } else {
        claims_ref_warnings(cs, claims, m - 1) + ref_warnings(
            cs,
            claims[m - 1].references,
            claims[m - 1].line,
            claims[m - 1].references.len() as int,
        )
    }
}

/// Warnings of facet `k` of concept `i`: a reuse note, then its claims'
/// unresolved references.
pub open spec fn facet_warnings(cs: Seq<ConceptS>, i: int, k: int) -> Seq<DiagS> {
    (if facet_reused(cs, i, k) {
        seq![
            DiagS {
                line: cs[i].facets[k].line,
                kind: DiagKind::FacetReuse,
                detail: cs[i].facets[k].name,
            },
        ]
    } else {
        Seq::empty()
    }) + claims_ref_warnings(cs, cs[i].facets[k].claims, cs[i].facets[k].claims.len() as int)
}

/// Warnings of the first `k` facets of concept `i`.
pub open spec fn facets_warnings(cs: Seq<ConceptS>, i: int, k: int) -> Seq<DiagS>
    decreases k,
{
    if k <= 0 {
        Seq::empty()
    } else {
        facets_warnings(cs, i, k - 1) + facet_warnings(cs, i, k - 1)
    }
}

/// Warnings of concept `i`: a duplicate-name note, then its facets'.
pub open spec fn concept_warnings(cs: Seq<ConceptS>, i: int) -> Seq<DiagS> {
    (if dup_concept_before(cs, i) {
        seq![DiagS { line: cs[i].line, kind: DiagKind::DuplicateConcept, detail: cs[i].name }]
    } else {
        Seq::empty()
    }) + facets_warnings(cs, i, cs[i].facets.len() as int)
}

/// Warnings of the first `i` concepts.
pub open spec fn doc_warnings_upto(cs: Seq<ConceptS>, i: int) -> Seq<DiagS>
    decreases i,
{
    if i <= 0 {
        Seq::empty()
    } else {
        doc_warnings_upto(cs, i - 1) + concept_warnings(cs, i - 1)
    }
}

/// All whole-document advisory warnings, in document order.
pub open spec fn doc_warnings(cs: Seq<ConceptS>) -> Seq<DiagS> {
    doc_warnings_upto(cs, cs.len() as int)
}

/// The blocking errors of a text, ordered by line.
pub open spec fn validation_errors(text: Seq<u8>) -> Seq<DiagS> {
    sort_by_line(assembled(text).errors)
}

/// The advisory warnings of a text, ordered by line.
pub open spec fn validation_warnings(text: Seq<u8>) -> Seq<DiagS> {
    sort_by_line(assembled(text).warnings + doc_warnings(assembled(text).concepts))
}

/// Whether some concept named `c` owns a facet named `f`.
fn ref_resolves_exec(concepts: &Vec<Concept>, c: &[u8], f: &[u8]) -> (r: bool)
    ensures
        r == ref_resolves(concepts.deep_view(), c@, f@),
{
    let ghost cs = concepts.deep_view();
    let mut i: usize = 0;
    while i < concepts.len()
        invariant
            i <= concepts@.len(),
            cs == concepts.deep_view(),
            forall|i2: int, j2: int|
                #![trigger cs[i2].facets[j2]]
                0 <= i2 < i && 0 <= j2 < cs[i2].facets.len() ==> !(cs[i2].name == c@
                    && cs[i2].facets[j2].name == f@),
        decreases concepts@.len() - i,
    {
        let con = &concepts[i];
        proof {
            assert(cs[i as int] == concepts@[i as int].deep_view());
        }
        if eq_bytes(con.name.as_slice(), c) {
            let mut j: usize = 0;
            while j < con.facets.len()
                invariant
                    j <= con.facets@.len(),
                    cs == concepts.deep_view(),
                    cs[i as int] == con.deep_view(),
                    cs[i as int].name == c@,
                    i < cs.len(),
                    forall|j2: int| 0 <= j2 < j ==> #[trigger] cs[i as int].facets[j2].name != f@,
                decreases con.facets@.len() - j,
            {
                proof {
                    assert(cs[i as int].facets[j as int] == con.facets@[j as int].deep_view());
                }
                if eq_bytes(con.facets[j].name.as_slice(), f) {
                    proof {
                        assert(cs[i as int].facets[j as int].name == f@);
                    }
                    return true;
                }
                j = j + 1;
            }
        }
        i = i + 1;
    }
    false
}

/// Whether the concept at `i` repeats an earlier concept's name.
fn dup_concept_exec(concepts: &Vec<Concept>, i: usize) -> (r: bool)
    requires
        i < concepts@.len(),
    ensures
        r == dup_concept_before(concepts.deep_view(), i as int),
{
    let ghost cs = concepts.deep_view();
    let mut j: usize = 0;
    while j < i
        invariant
            j <= i < concepts@.len(),
            cs == concepts.deep_view(),
            forall|j2: int| 0 <= j2 < j ==> #[trigger] cs[j2].name != cs[i as int].name,
        decreases i - j,
    {
        proof {
            assert(cs[j as int] == concepts@[j as int].deep_view());
            assert(cs[i as int] == concepts@[i as int].deep_view());
        }
        if eq_bytes(concepts[j].name.as_slice(), concepts[i].name.as_slice()) {
            proof {
                assert(cs[j as int].name == cs[i as int].name);
            }
            return true;
        }
        j = j + 1;
    }
    false
}

/// Whether facet `k` of concept `i` reuses an earlier concept's facet name.
fn facet_reused_exec(concepts: &Vec<Concept>, i: usize, k: usize) -> (r: bool)
    requires
        i < concepts@.len(),
        k < concepts.deep_view()[i as int].facets.len(),
    ensures
        r == facet_reused(concepts.deep_view(), i as int, k as int),
{
    let ghost cs = concepts.deep_view();
    proof {
        assert(cs[i as int] == concepts@[i as int].deep_view());
        assert(cs[i as int].facets[k as int] == concepts@[i as int].facets@[k as int].deep_view());
    }
    let name = &concepts[i].facets[k].name;
    let mut j: usize = 0;
    while j < i
        invariant
            j <= i < concepts@.len(),
            cs == concepts.deep_view(),
            k < cs[i as int].facets.len(),
            name@ == cs[i as int].facets[k as int].name,
            forall|j2: int, l2: int|
                #![trigger cs[j2].facets[l2]]
                0 <= j2 < j && 0 <= l2 < cs[j2].facets.len() ==> cs[j2].facets[l2].name != name@,
        decreases i - j,
    {
        let con = &concepts[j];
        proof {
            assert(cs[j as int] == concepts@[j as int].deep_view());
        }
        let mut l: usize = 0;
        while l < con.facets.len()
            invariant
                l <= con.facets@.len(),
                j < i < concepts@.len(),
                cs == concepts.deep_view(),
                k < cs[i as int].facets.len(),
                name@ == cs[i as int].facets[k as int].name,
                cs[j as int] == con.deep_view(),
                forall|l2: int|
                    0 <= l2 < l ==> #[trigger] cs[j as int].facets[l2].name != name@,
            decreases con.facets@.len() - l,
        {
            proof {
                assert(cs[j as int].facets[l as int] == con.facets@[l as int].deep_view());
            }
            if eq_bytes(con.facets[l].name.as_slice(), name.as_slice()) {
                proof {
                    assert(cs[j as int].facets[l as int].name == cs[i as int].facets[
                        k as int
                    ].name);
                }
                return true;
            }
            l = l + 1;
        }
        j = j + 1;
    }
    false
}

/// The dotted name a reference warning reports.
fn ref_detail_exec(r: &crate::inline::ClaimRef) -> (d: Vec<u8>)
    ensures
        d@ == ref_detail(r@),
{
    let mut d = copy_bytes(r.concept.as_slice());
    d.push(46);
    let ghost mid = d@;
    crate::bytes::push_all(&mut d, r.facet.as_slice());
    proof {
        assert(d@ =~= ref_detail(r@));
    }
    d
}

/// All whole-document advisory warnings, in document order.
fn doc_warnings_exec(doc: &Document) -> (r: Vec<Diagnostic>)
    ensures
        r.deep_view() == doc_warnings(doc@.concepts),
{
    let concepts = &doc.concepts;
    let ghost cs = concepts.deep_view();
    let mut out: Vec<Diagnostic> = Vec::new();
    proof {
        assert(out.deep_view() =~= Seq::<DiagS>::empty());
    }
    let mut i: usize = 0;
    while i < concepts.len()
        invariant
            i <= concepts@.len(),
            cs == concepts.deep_view(),
            out.deep_view() == doc_warnings_upto(cs, i as int),
        decreases concepts@.len() - i,
    {
        let ghost base_c = out.deep_view();
        let con = &concepts[i];
        proof {
            assert(cs[i as int] == concepts@[i as int].deep_view());
        }
        if dup_concept_exec(concepts, i) {
            let ghost prev = out;
            out.push(
                Diagnostic {
                    line: con.line,
                    kind: DiagKind::DuplicateConcept,
                    detail: copy_bytes(con.name.as_slice()),
                },
            );
            proof {
                lemma_vec_push_deep_view(prev, out, out@[out@.len() - 1]);
            }
        }
        let ghost base_f = out.deep_view();
        proof {
            assert(facets_warnings(cs, i as int, 0) =~= Seq::<DiagS>::empty());
            assert(base_f =~= base_f + facets_warnings(cs, i as int, 0));
        }
        let mut k: usize = 0;
        while k < con.facets.len()
            invariant
                k <= con.facets@.len(),
                i < concepts@.len(),
                cs == concepts.deep_view(),
                cs[i as int] == con.deep_view(),
                out.deep_view() == base_f + facets_warnings(cs, i as int, k as int),
            decreases con.facets@.len() - k,
        {
            let ghost base_fk = out.deep_view();
            let facet = &con.facets[k];
            proof {
                assert(cs[i as int].facets[k as int] == con.facets@[k as int].deep_view());
            }
            if facet_reused_exec(concepts, i, k) {
                let ghost prev = out;
                out.push(
                    Diagnostic {
                        line: facet.line,
                        kind: DiagKind::FacetReuse,
                        detail: copy_bytes(facet.name.as_slice()),
                    },
                );
                proof {
                    lemma_vec_push_deep_view(prev, out, out@[out@.len() - 1]);
                }
            }
            let ghost base_cl = out.deep_view();
            let ghost claims = cs[i as int].facets[k as int].claims;
            proof {
                assert(claims_ref_warnings(cs, claims, 0) =~= Seq::<DiagS>::empty());
            }
            let mut m: usize = 0;
            while m < facet.claims.len()
                invariant
                    m <= facet.claims@.len(),
                    i < concepts@.len(),
                    cs == concepts.deep_view(),
                    cs[i as int] == con.deep_view(),
                    k < con.facets@.len(),
                    cs[i as int].facets[k as int] == facet.deep_view(),
                    claims == cs[i as int].facets[k as int].claims,
                    out.deep_view() == base_cl + claims_ref_warnings(cs, claims, m as int),
                decreases facet.claims@.len() - m,
            {
                let claim = &facet.claims[m];
                proof {
                    assert(claims[m as int] == facet.claims@[m as int].deep_view());
                }
                let ghost refs = claims[m as int].references;
                let ghost base_r = out.deep_view();
                proof {
                    assert(ref_warnings(cs, refs, claims[m as int].line, 0) =~= Seq::<
                        DiagS,
                    >::empty());
                }
                let mut q: usize = 0;
                while q < claim.references.len()
                    invariant
                        q <= claim.references@.len(),
                        cs == concepts.deep_view(),
                        claims[m as int] == claim.deep_view(),
                        m < claims.len(),
                        refs == claims[m as int].references,
                        out.deep_view() == base_r + ref_warnings(
                            cs,
                            refs,
                            claims[m as int].line,
                            q as int,
                        ),
                    decreases claim.references@.len() - q,
                {
                    let cr = &claim.references[q];
                    proof {
                        assert(refs[q as int] == claim.references@[q as int].deep_view());
                    }
                    if !ref_resolves_exec(concepts, cr.concept.as_slice(), cr.facet.as_slice()) {
                        let ghost prev = out;
                        out.push(
                            Diagnostic {
                                line: claim.line,
                                kind: DiagKind::UnresolvedReference,
                                detail: ref_detail_exec(cr),
                            },
                        );
                        proof {
                            lemma_vec_push_deep_view(prev, out, out@[out@.len() - 1]);
                        }
                    }
                    q = q + 1;
                }
                m = m + 1;
            }
            k = k + 1;
        }
        i = i + 1;
    }
    out
}

/// The outcome of validating a text: blocking errors and advisory warnings,
/// each ordered by line.
pub struct ValidationResult {
    pub errors: Vec<Diagnostic>,
    pub warnings: Vec<Diagnostic>,
}

impl ValidationResult {
    /// A document is valid exactly when it produced no blocking error.
    pub fn is_valid(&self) -> (r: bool)
        ensures
            r == (self.errors@.len() == 0),
    {
        self.errors.len() == 0
    }

    /// Whether any advisory warning was produced.
    pub fn has_warnings(&self) -> (r: bool)
        ensures
            r == (self.warnings@.len() > 0),
    {
        self.warnings.len() > 0
    }
}

/// Parse a whole text: the best-effort document tree together with its
/// ordered errors and warnings.
pub fn parse(text: &[u8]) -> (r: (Document, ValidationResult))
    ensures
        r.0@.concepts == assembled(text@).concepts,
        r.1.errors.deep_view() == validation_errors(text@),
        r.1.warnings.deep_view() == validation_warnings(text@),
{
    let (doc, errors, mut warnings) = assemble_text(text);
    let mut docw = doc_warnings_exec(&doc);
    let ghost w1 = warnings.deep_view();
    let ghost w2 = docw.deep_view();
    let ghost wvec1 = warnings@;
    let ghost wvec2 = docw@;
    warnings.append(&mut docw);
    proof {
        assert forall|q: int| 0 <= q < warnings@.len() implies warnings.deep_view()[q] == (w1
            + w2)[q] by {
            assert(warnings@[q] == (wvec1 + wvec2)[q]);
            if q < wvec1.len() {
                assert(warnings@[q] == wvec1[q]);
                assert(w1[q] == wvec1[q].deep_view());
            } else {
                assert(warnings@[q] == wvec2[q - wvec1.len()]);
                assert(w2[q - wvec1.len()] == wvec2[q - wvec1.len()].deep_view());
            }
        }
        assert(warnings.deep_view() =~= w1 + w2);
    }
    let errors_sorted = sort_diags(errors);
    let warnings_sorted = sort_diags(warnings);
    (doc, ValidationResult { errors: errors_sorted, warnings: warnings_sorted })
}

/// Validate a whole text against the notation's structural and advisory
/// rules.
pub fn validate(text: &[u8]) -> (r: ValidationResult)
    ensures
        r.errors.deep_view() == validation_errors(text@),
        r.warnings.deep_view() == validation_warnings(text@),
{
    let (_, result) = parse(text);
    result
}

} // verus!
