//! Structural assembler: consume classified lines in order, threading the
//! current concept and facet, building the document tree best-effort while
//! collecting diagnostics past every fault.

use vstd::prelude::*;
use crate::bytes::{copy_bytes, subrange_vec, lemma_vec_push_deep_view};
use crate::classify::{
    LineKind, line_kind, concept_name, facet_name, claim_body, ClassifiedLine, classify_line,
};
use crate::diag::{DiagKind, DiagS, Diagnostic, diag0};
use crate::doc::{ClaimS, FacetS, ConceptS, Document, Claim, Facet, Concept};
use crate::inline::{
    InlineS, parse_claim_spec, parse_claim_body, find_byte_from, lemma_find_byte_from_bounds,
    find_byte_at, InlineOutcome,
};

verus! {

/// Split text into physical lines at `\n`; a trailing terminator closes the
/// last line without opening an empty one.
pub open spec fn split_lines_from(text: Seq<u8>, i: int) -> Seq<Seq<u8>>
    decreases text.len() - i,
    via split_lines_from_dec
{
    if i >= text.len() || i < 0 {
        Seq::empty()
    } else {
        let j = find_byte_from(text, i, 10);
        if j >= text.len() {
            seq![text.subrange(i, text.len() as int)]
        } else {
            seq![text.subrange(i, j)] + split_lines_from(text, j + 1)
        }
    }
}

#[via_fn]
proof fn split_lines_from_dec(text: Seq<u8>, i: int) {
    if 0 <= i < text.len() {
        lemma_find_byte_from_bounds(text, i, 10);
    }
}

/// The physical lines of a document.
pub open spec fn split_lines(text: Seq<u8>) -> Seq<Seq<u8>> {
    split_lines_from(text, 0)
}

/// Split text into its physical lines.
pub fn split_into_lines(text: &[u8]) -> (r: Vec<Vec<u8>>)
    ensures
        r.deep_view() == split_lines(text@),
{
    let mut lines: Vec<Vec<u8>> = Vec::new();
    let mut start: usize = 0;
    proof {
        assert(lines.deep_view() =~= Seq::<Seq<u8>>::empty());
        if text@.len() > 0 {
            assert(split_lines(text@) == lines.deep_view() + split_lines_from(text@, 0));
        }
    }
    while start < text.len()
        invariant
            start <= text@.len(),
            split_lines(text@) == lines.deep_view() + split_lines_from(text@, start as int),
        decreases text@.len() - start,
    {
        let ghost lines_prev = lines;
        let ghost tail = split_lines_from(text@, start as int);
        let j = find_byte_at(text, start, 10);
        let seg = subrange_vec(text, start, j);
        let ghost segv = seg@;
        lines.push(seg);
        proof {
            lemma_vec_push_deep_view(lines_prev, lines, lines@[lines@.len() - 1]);
            assert(lines@[lines@.len() - 1].deep_view() =~= segv);
        }
        if j < text.len() {
            start = j + 1;
            proof {
                let rest = split_lines_from(text@, start as int);
                assert(tail == seq![segv] + rest);
                assert(lines.deep_view() + rest =~= lines_prev.deep_view() + tail);
            }
        } else {
            let ghost s0 = start as int;
            start = text.len();
            proof {
                assert(text@.subrange(s0, text@.len() as int) =~= segv);
                assert(tail == seq![segv]);
                assert(split_lines_from(text@, start as int) =~= Seq::<Seq<u8>>::empty());
                assert(lines.deep_view() + split_lines_from(text@, start as int)
                    =~= lines_prev.deep_view() + tail);
            }
        }
    }
    proof {
        assert(split_lines_from(text@, start as int) =~= Seq::<Seq<u8>>::empty());
        assert(lines.deep_view() + split_lines_from(text@, start as int) =~= lines.deep_view());
    }
    lines
}

/// Assembler state: the tree so far, errors and warnings in emission order.
pub struct AsmS {
    pub concepts: Seq<ConceptS>,
    pub errors: Seq<DiagS>,
    pub warnings: Seq<DiagS>,
}

pub open spec fn asm_init() -> AsmS {
    AsmS { concepts: Seq::empty(), errors: Seq::empty(), warnings: Seq::empty() }
}

/// Errors owed when the open concept closes: a concept that gathered no
/// facet, or whose last facet gathered no claim.
pub open spec fn close_errors(cs: Seq<ConceptS>) -> Seq<DiagS> {
    if cs.len() == 0 {
        Seq::empty()
    } else {
        let c = cs.last();
        if c.facets.len() == 0 {
            seq![DiagS { line: c.line, kind: DiagKind::MissingFacet, detail: c.name }]
        } else if c.facets.last().claims.len() == 0 {
            seq![
                DiagS {
                    line: c.facets.last().line,
                    kind: DiagKind::MissingClaim,
                    detail: c.facets.last().name,
                },
            ]
        } else {
            Seq::empty()
        }
    }
}

/// Error owed when the open facet closes with no claim.
pub open spec fn close_facet_errors(cs: Seq<ConceptS>) -> Seq<DiagS> {
    if cs.len() > 0 && cs.last().facets.len() > 0 && cs.last().facets.last().claims.len() == 0 {
        seq![
            DiagS {
                line: cs.last().facets.last().line,
                kind: DiagKind::MissingClaim,
                detail: cs.last().facets.last().name,
            },
        ]
    } else {
        Seq::empty()
    }
}

/// One malformed-reference error per bad reference segment of a claim.
pub open spec fn bad_ref_errors(bads: Seq<Seq<u8>>, n: int) -> Seq<DiagS> {
    Seq::new(bads.len(), |i: int| DiagS { line: n, kind: DiagKind::BadReference, detail: bads[i] })
}

/// Advisory warnings a parsed claim emits at its own line.
pub open spec fn claim_warnings(p: InlineS, n: int) -> Seq<DiagS> {
    let w1: Seq<DiagS> = if p.empty_text {
        seq![DiagS { line: n, kind: DiagKind::EmptyClaimText, detail: Seq::empty() }]
    } else {
        Seq::empty()
    };
    let w2: Seq<DiagS> = if p.ambiguous {
        seq![DiagS { line: n, kind: DiagKind::AmbiguousParse, detail: Seq::empty() }]
    } else {
        Seq::empty()
    };
    w1 + w2
}

/// The claim a successful inline parse contributes, at line `n`.
pub open spec fn claim_of_inline(p: InlineS, n: int) -> ClaimS {
    ClaimS {
        content: p.content,
        conditions: p.conditions,
        sources: p.sources,
        references: p.references,
        modifiers: p.modifiers,
        supersedes: p.supersedes,
        line: n,
    }
}

/// A malformed line: one indentation error, nothing else changes.
pub open spec fn malformed_step(st: AsmS, n: int) -> AsmS {
    AsmS {
        concepts: st.concepts,
        errors: st.errors.push(DiagS { line: n, kind: DiagKind::BadLine, detail: Seq::empty() }),
        warnings: st.warnings,
    }
}

/// A concept line: close whatever is open, then open a new concept.
pub open spec fn concept_step(st: AsmS, name: Seq<u8>, n: int) -> AsmS {
    AsmS {
        concepts: st.concepts.push(ConceptS { name, line: n, facets: Seq::empty() }),
        errors: st.errors + close_errors(st.concepts),
        warnings: st.warnings,
    }
}

/// A facet line: an orphan without an open concept; otherwise close the open
/// facet and open a new one under the current concept.
pub open spec fn facet_step(st: AsmS, name: Seq<u8>, n: int) -> AsmS {
    if st.concepts.len() == 0 {
        AsmS {
            concepts: st.concepts,
            errors: st.errors.push(DiagS { line: n, kind: DiagKind::OrphanFacet, detail: name }),
            warnings: st.warnings,
        }
    } else {
        let c = st.concepts.last();
        AsmS {
            concepts: st.concepts.update(
                st.concepts.len() - 1,
                ConceptS {
                    name: c.name,
                    line: c.line,
                    facets: c.facets.push(FacetS { name, line: n, claims: Seq::empty() }),
                },
            ),
            errors: st.errors + close_facet_errors(st.concepts),
            warnings: st.warnings,
        }
    }
}

/// A claim line: an orphan without an open facet; otherwise parse the body,
/// and on success append the claim to the open facet together with its
/// reference errors and advisory warnings.
pub open spec fn claim_step(st: AsmS, body: Seq<u8>, n: int) -> AsmS {
    if st.concepts.len() == 0 || st.concepts.last().facets.len() == 0 {
        AsmS {
            concepts: st.concepts,
            errors: st.errors.push(
                DiagS { line: n, kind: DiagKind::OrphanClaim, detail: Seq::empty() },
            ),
            warnings: st.warnings,
        }
    } else {
        let p = parse_claim_spec(body);
        if !p.ok {
            AsmS {
                concepts: st.concepts,
                errors: st.errors.push(
                    DiagS { line: n, kind: DiagKind::BadInline, detail: Seq::empty() },
                ),
                warnings: st.warnings,
            }
        } else {
            let c = st.concepts.last();
            let f = c.facets.last();
            AsmS {
                concepts: st.concepts.update(
                    st.concepts.len() - 1,
                    ConceptS {
                        name: c.name,
                        line: c.line,
                        facets: c.facets.update(
                            c.facets.len() - 1,
                            FacetS {
                                name: f.name,
                                line: f.line,
                                claims: f.claims.push(claim_of_inline(p, n)),
                            },
                        ),
                    },
                ),
                errors: st.errors + bad_ref_errors(p.bad_refs, n),
                warnings: st.warnings + claim_warnings(p, n),
            }
        }
    }
}

/// One assembler step: line `l` with 1-based number `n`.
pub open spec fn asm_step(st: AsmS, l: Seq<u8>, n: int) -> AsmS {
    match line_kind(l) {
        LineKind::Blank => st,
        LineKind::Malformed => malformed_step(st, n),
        LineKind::Concept => concept_step(st, concept_name(l), n),
        LineKind::Facet => facet_step(st, facet_name(l), n),
        LineKind::Claim => claim_step(st, claim_body(l), n),
    }
}

/// Assembler state after the first `n` lines.
pub open spec fn asm_upto(lines: Seq<Seq<u8>>, n: int) -> AsmS
    decreases n,
{
    if n <= 0 {
        asm_init()
    } else {
        asm_step(asm_upto(lines, n - 1), lines[n - 1], n)
    }
}

/// End of input: the still-open concept and facet close.
pub open spec fn asm_finish(st: AsmS) -> AsmS {
    AsmS {
        concepts: st.concepts,
        errors: st.errors + close_errors(st.concepts),
        warnings: st.warnings,
    }
}

/// Full assembly of a document text.
pub open spec fn assembled(text: Seq<u8>) -> AsmS {
    asm_finish(asm_upto(split_lines(text), split_lines(text).len() as int))
}

/// Append the errors owed when the open concept closes.
fn push_close_errors(concepts: &Vec<Concept>, errors: &mut Vec<Diagnostic>)
    ensures
        final(errors).deep_view() == old(errors).deep_view() + close_errors(
            concepts.deep_view(),
        ),
{
    let ghost cs = concepts.deep_view();
    if concepts.len() == 0 {
        proof {
            assert(errors.deep_view() =~= errors.deep_view() + close_errors(cs));
        }
        return ;
    }
    let c = &concepts[concepts.len() - 1];
    proof {
        assert(cs.last() == concepts@[concepts@.len() - 1].deep_view());
    }
    if c.facets.len() == 0 {
        let ghost prev = *errors;
        let d = Diagnostic { line: c.line, kind: DiagKind::MissingFacet, detail: copy_bytes(
            c.name.as_slice(),
        ) };
        let ghost dv = d@;
        errors.push(d);
        proof {
            lemma_vec_push_deep_view(prev, *errors, errors@[errors@.len() - 1]);
            assert(errors.deep_view() =~= prev.deep_view() + close_errors(cs));
        }
    } else {
        let f = &c.facets[c.facets.len() - 1];
        proof {
            assert(cs.last().facets.last() == c.facets@[c.facets@.len() - 1].deep_view());
        }
        if f.claims.len() == 0 {
            let ghost prev = *errors;
            let d = Diagnostic { line: f.line, kind: DiagKind::MissingClaim, detail: copy_bytes(
                f.name.as_slice(),
            ) };
            errors.push(d);
            proof {
                lemma_vec_push_deep_view(prev, *errors, errors@[errors@.len() - 1]);
                assert(errors.deep_view() =~= prev.deep_view() + close_errors(cs));
            }
        } else {
            proof {
                assert(errors.deep_view() =~= errors.deep_view() + close_errors(cs));
            }
        }
    }
}

/// Append the error owed when the open facet closes.
fn push_close_facet_errors(concepts: &Vec<Concept>, errors: &mut Vec<Diagnostic>)
    ensures
        final(errors).deep_view() == old(errors).deep_view() + close_facet_errors(
            concepts.deep_view(),
        ),
{
    let ghost cs = concepts.deep_view();
    if concepts.len() == 0 {
        proof {
            assert(errors.deep_view() =~= errors.deep_view() + close_facet_errors(cs));
        }
        return ;
    }
    let c = &concepts[concepts.len() - 1];
    proof {
        assert(cs.last() == concepts@[concepts@.len() - 1].deep_view());
    }
    if c.facets.len() == 0 {
        proof {
            assert(errors.deep_view() =~= errors.deep_view() + close_facet_errors(cs));
        }
        return ;
    }
    let f = &c.facets[c.facets.len() - 1];
    proof {
        assert(cs.last().facets.last() == c.facets@[c.facets@.len() - 1].deep_view());
    }
    if f.claims.len() == 0 {
        let ghost prev = *errors;
        let d = Diagnostic { line: f.line, kind: DiagKind::MissingClaim, detail: copy_bytes(
            f.name.as_slice(),
        ) };
        errors.push(d);
        proof {
            lemma_vec_push_deep_view(prev, *errors, errors@[errors@.len() - 1]);
            assert(errors.deep_view() =~= prev.deep_view() + close_facet_errors(cs));
        }
    } else {
        proof {
            assert(errors.deep_view() =~= errors.deep_view() + close_facet_errors(cs));
        }
    }
}

/// Perform a concept line on the growing tree.
fn do_concept_step(concepts: &mut Vec<Concept>, errors: &mut Vec<Diagnostic>, name: Vec<u8>, n: usize)
    ensures
        ({
            let st = AsmS {
                concepts: old(concepts).deep_view(),
                errors: old(errors).deep_view(),
                warnings: Seq::empty(),
            };
            let st2 = concept_step(st, name@, n as int);
            final(concepts).deep_view() == st2.concepts && final(errors).deep_view() == st2.errors
        }),
{
    let ghost nm = name@;
    push_close_errors(concepts, errors);
    let ghost prev = *concepts;
    concepts.push(Concept { name, line: n, facets: Vec::new() });
    proof {
        lemma_vec_push_deep_view(prev, *concepts, concepts@[concepts@.len() - 1]);
        assert(concepts@[concepts@.len() - 1].facets.deep_view() =~= Seq::<FacetS>::empty());
        assert(concepts@[concepts@.len() - 1].deep_view() == ConceptS {
            name: nm,
            line: n as int,
            facets: Seq::empty(),
        });
    }
}

/// Perform a facet line on the growing tree.
fn do_facet_step(concepts: &mut Vec<Concept>, errors: &mut Vec<Diagnostic>, name: Vec<u8>, n: usize)
    ensures
        ({
            let st = AsmS {
                concepts: old(concepts).deep_view(),
                errors: old(errors).deep_view(),
                warnings: Seq::empty(),
            };
            let st2 = facet_step(st, name@, n as int);
            final(concepts).deep_view() == st2.concepts && final(errors).deep_view() == st2.errors
        }),
{
    let ghost nm = name@;
    if concepts.len() == 0 {
        let ghost prev = *errors;
        errors.push(Diagnostic { line: n, kind: DiagKind::OrphanFacet, detail: name });
        proof {
            lemma_vec_push_deep_view(prev, *errors, errors@[errors@.len() - 1]);
        }
        return ;
    }
    push_close_facet_errors(concepts, errors);
    let ghost cs_prev = concepts.deep_view();
    let mut c = concepts.pop().unwrap();
    proof {
        assert(c@ == cs_prev.last());
        assert(concepts.deep_view() =~= cs_prev.drop_last());
    }
    let ghost fs_prev = c.facets.deep_view();
    let ghost f_prev_vec = c.facets;
    c.facets.push(Facet { name, line: n, claims: Vec::new() });
    proof {
        lemma_vec_push_deep_view(f_prev_vec, c.facets, c.facets@[c.facets@.len() - 1]);
        assert(c.facets@[c.facets@.len() - 1].claims.deep_view() =~= Seq::<ClaimS>::empty());
        assert(c.facets@[c.facets@.len() - 1].deep_view() == FacetS {
            name: nm,
            line: n as int,
            claims: Seq::empty(),
        });
        assert(c.facets.deep_view() =~= fs_prev.push(
            FacetS { name: nm, line: n as int, claims: Seq::empty() },
        ));
    }
    let ghost c_new = c@;
    let ghost concepts_mid = *concepts;
    concepts.push(c);
    proof {
        lemma_vec_push_deep_view(concepts_mid, *concepts, concepts@[concepts@.len() - 1]);
        assert(concepts.deep_view() =~= cs_prev.update(cs_prev.len() - 1, c_new));
    }
}

/// Perform a claim line on the growing tree.
fn do_claim_step(
    concepts: &mut Vec<Concept>,
    errors: &mut Vec<Diagnostic>,
    warnings: &mut Vec<Diagnostic>,
    body: &[u8],
    n: usize,
)
    ensures
        ({
            let st = AsmS {
                concepts: old(concepts).deep_view(),
                errors: old(errors).deep_view(),
                warnings: old(warnings).deep_view(),
            };
            let st2 = claim_step(st, body@, n as int);
            final(concepts).deep_view() == st2.concepts && final(errors).deep_view() == st2.errors
                && final(warnings).deep_view() == st2.warnings
        }),
{
    let has_facet: bool = if concepts.len() == 0 {
        false
    } else {
        concepts[concepts.len() - 1].facets.len() > 0
    };
    proof {
        if concepts@.len() > 0 {
            assert(concepts.deep_view().last() == concepts@[concepts@.len() - 1].deep_view());
        }
    }
    if !has_facet {
        let ghost prev = *errors;
        errors.push(diag0(n, DiagKind::OrphanClaim));
        proof {
            lemma_vec_push_deep_view(prev, *errors, errors@[errors@.len() - 1]);
        }
        return ;
    }
    let outcome = parse_claim_body(body);
    let ghost p = parse_claim_spec(body@);
    if !outcome.ok {
        let ghost prev = *errors;
        errors.push(diag0(n, DiagKind::BadInline));
        proof {
            lemma_vec_push_deep_view(prev, *errors, errors@[errors@.len() - 1]);
        }
        return ;
    }
    let InlineOutcome {
        ok: _,
        content,
        conditions,
        sources,
        references,
        modifiers,
        supersedes,
        bad_refs,
        empty_text,
        ambiguous,
    } = outcome;
    let claim = Claim { content, conditions, sources, references, modifiers, supersedes, line: n };
    proof {
        assert(claim@ == claim_of_inline(p, n as int));
    }
    let ghost cs_prev = concepts.deep_view();
    let mut c = concepts.pop().unwrap();
    proof {
        assert(c@ == cs_prev.last());
        assert(concepts.deep_view() =~= cs_prev.drop_last());
    }
    let ghost fs_prev = c.facets.deep_view();
    let mut f = c.facets.pop().unwrap();
    proof {
        assert(f@ == fs_prev.last());
        assert(c.facets.deep_view() =~= fs_prev.drop_last());
    }
    let ghost cls_prev = f.claims.deep_view();
    let ghost f_claims_vec = f.claims;
    f.claims.push(claim);
    proof {
        lemma_vec_push_deep_view(f_claims_vec, f.claims, f.claims@[f.claims@.len() - 1]);
        assert(f.claims.deep_view() =~= cls_prev.push(claim_of_inline(p, n as int)));
    }
    let ghost fv_new = f@;
    let ghost c_facets_vec = c.facets;
    c.facets.push(f);
    proof {
        lemma_vec_push_deep_view(c_facets_vec, c.facets, c.facets@[c.facets@.len() - 1]);
        assert(c.facets.deep_view() =~= fs_prev.update(fs_prev.len() - 1, fv_new));
    }
    let ghost cv_new = c@;
    let ghost concepts_vec = *concepts;
    concepts.push(c);
    proof {
        lemma_vec_push_deep_view(concepts_vec, *concepts, concepts@[concepts@.len() - 1]);
        assert(concepts.deep_view() =~= cs_prev.update(cs_prev.len() - 1, cv_new));
    }
    let ghost errs_base = errors.deep_view();
    let mut b: usize = 0;
    proof {
        assert(errs_base + bad_ref_errors(p.bad_refs, n as int).take(0) =~= errs_base);
    }
    while b < bad_refs.len()
        invariant
            b <= bad_refs@.len(),
            bad_refs.deep_view() == p.bad_refs,
            n as int == n,
            errors.deep_view() == errs_base + bad_ref_errors(p.bad_refs, n as int).take(b as int),
        decreases bad_refs@.len() - b,
    {
        let ghost prev = *errors;
        let d = Diagnostic {
            line: n,
            kind: DiagKind::BadReference,
            detail: copy_bytes(bad_refs[b].as_slice()),
        };
        errors.push(d);
        proof {
            lemma_vec_push_deep_view(prev, *errors, errors@[errors@.len() - 1]);
            assert(bad_refs@[b as int].deep_view() =~= bad_refs@[b as int]@);
            assert(errors@[errors@.len() - 1].deep_view() == bad_ref_errors(p.bad_refs, n as int)[b as int]);
            assert(bad_ref_errors(p.bad_refs, n as int).take(b + 1) =~= bad_ref_errors(
                p.bad_refs,
                n as int,
            ).take(b as int).push(bad_ref_errors(p.bad_refs, n as int)[b as int]));
        }
        b = b + 1;
    }
    proof {
        assert(bad_ref_errors(p.bad_refs, n as int).take(b as int) =~= bad_ref_errors(
            p.bad_refs,
            n as int,
        ));
    }
    let ghost warns_base = warnings.deep_view();
    if empty_text {
        let ghost prev = *warnings;
        warnings.push(diag0(n, DiagKind::EmptyClaimText));
        proof {
            lemma_vec_push_deep_view(prev, *warnings, warnings@[warnings@.len() - 1]);
        }
    }
    if ambiguous {
        let ghost prev = *warnings;
        warnings.push(diag0(n, DiagKind::AmbiguousParse));
        proof {
            lemma_vec_push_deep_view(prev, *warnings, warnings@[warnings@.len() - 1]);
        }
    }
    proof {
        assert(warnings.deep_view() =~= warns_base + claim_warnings(p, n as int));
    }
}

/// Assemble a whole text: the document tree, its blocking errors and its
/// line-level warnings, both in emission order.
pub fn assemble_text(text: &[u8]) -> (r: (Document, Vec<Diagnostic>, Vec<Diagnostic>))
    ensures
        r.0@.concepts == assembled(text@).concepts,
        r.1.deep_view() == assembled(text@).errors,
        r.2.deep_view() == assembled(text@).warnings,
{
    let lines = split_into_lines(text);
    let ghost lv = lines.deep_view();
    let mut concepts: Vec<Concept> = Vec::new();
    let mut errors: Vec<Diagnostic> = Vec::new();
    let mut warnings: Vec<Diagnostic> = Vec::new();
    proof {
        assert(concepts.deep_view() =~= Seq::<ConceptS>::empty());
        assert(errors.deep_view() =~= Seq::<DiagS>::empty());
        assert(warnings.deep_view() =~= Seq::<DiagS>::empty());
    }
    let mut i: usize = 0;
    while i < lines.len()
        invariant
            i <= lines@.len(),
            lv == lines.deep_view(),
            concepts.deep_view() == asm_upto(lv, i as int).concepts,
            errors.deep_view() == asm_upto(lv, i as int).errors,
            warnings.deep_view() == asm_upto(lv, i as int).warnings,
        decreases lines@.len() - i,
    {
        let ghost st = asm_upto(lv, i as int);
        let line = &lines[i];
        proof {
            assert(lv[i as int] == lines@[i as int].deep_view());
            assert(lines@[i as int].deep_view() =~= lines@[i as int]@);
            assert(asm_upto(lv, i + 1) == asm_step(st, lv[i as int], i + 1));
        }
        let n = i + 1;
        match classify_line(line.as_slice()) {
            ClassifiedLine::Blank => {
            },
            ClassifiedLine::Malformed => {
                let ghost prev = errors;
                errors.push(diag0(n, DiagKind::BadLine));
                proof {
                    lemma_vec_push_deep_view(prev, errors, errors@[errors@.len() - 1]);
                }
            },
            ClassifiedLine::Concept { name } => {
                do_concept_step(&mut concepts, &mut errors, name, n);
            },
            ClassifiedLine::Facet { name } => {
                do_facet_step(&mut concepts, &mut errors, name, n);
            },
            ClassifiedLine::Claim { body } => {
                do_claim_step(&mut concepts, &mut errors, &mut warnings, body.as_slice(), n);
            },
        }
        i = i + 1;
        proof {
            assert(concepts.deep_view() =~= asm_upto(lv, i as int).concepts);
            assert(errors.deep_view() =~= asm_upto(lv, i as int).errors);
            assert(warnings.deep_view() =~= asm_upto(lv, i as int).warnings);
        }
    }
    push_close_errors(&concepts, &mut errors);
    (Document { concepts }, errors, warnings)
}

} // verus!
