//! Serializer: write a document tree back out in the notation. A well-formed
//! tree renders to a text that parses back to the same tree.

use vstd::prelude::*;
use crate::bytes::push_all;
use crate::doc::{ClaimS, FacetS, ConceptS, Document, Claim, Facet, Concept};
use crate::inline::{ContentS, Modifiers, RefS, ClaimContent};

verus! {

/// The modifier bytes of a claim, in the fixed order `^ v ! ? *`.
pub open spec fn render_mods(m: Modifiers) -> Seq<u8> {
    (if m.increasing {
        seq![94u8]
    } else {
        Seq::empty()
    }) + (if m.decreasing {
        seq![118u8]
    } else {
        Seq::empty()
    }) + (if m.strong {
        seq![33u8]
    } else {
        Seq::empty()
    }) + (if m.uncertain {
        seq![63u8]
    } else {
        Seq::empty()
    }) + (if m.notable {
        seq![42u8]
    } else {
        Seq::empty()
    })
}

/// The text or relation of a claim.
pub open spec fn render_content(c: ContentS) -> Seq<u8> {
    match c {
        ContentS::Text(t) => t,
        ContentS::Relation(r) => r.left + seq![32u8] + r.op + seq![32u8] + r.right,
    }
}

/// The supersession marker, when the claim carries one.
pub open spec fn render_sup(sup: Option<Seq<u8>>) -> Seq<u8> {
    match sup {
        Some(s) => seq![32u8, 91u8, 60u8, 61u8, 32u8] + s + seq![93u8],
        None => Seq::empty(),
    }
}

/// The first `k` items, each opened by the delimiter text `d`.
pub open spec fn render_tagged(items: Seq<Seq<u8>>, d: Seq<u8>, k: int) -> Seq<u8>
    decreases k,
{
    if k <= 0 {
        Seq::empty()
    } else {
        render_tagged(items, d, k - 1) + d + items[k - 1]
    }
}

/// The first `k` references, each as ` &concept.facet`.
pub open spec fn render_refs(refs: Seq<RefS>, k: int) -> Seq<u8>
    decreases k,
{
    if k <= 0 {
        Seq::empty()
    } else {
        render_refs(refs, k - 1) + seq![32u8, 38u8] + refs[k - 1].concept + seq![46u8] + refs[k
            - 1].facet
    }
}

/// The body of one claim line, after the leading `- `.
pub open spec fn render_claim(c: ClaimS) -> Seq<u8> {
    render_content(c.content) + render_mods(c.modifiers) + render_sup(c.supersedes)
        + render_tagged(c.conditions, seq![32u8, 124u8, 32u8], c.conditions.len() as int)
        + render_tagged(c.sources, seq![32u8, 64u8, 32u8], c.sources.len() as int) + render_refs(
        c.references,
        c.references.len() as int,
    )
}

/// The first `m` claim lines of a facet.
pub open spec fn render_claims(claims: Seq<ClaimS>, m: int) -> Seq<u8>
    decreases m,
{
    if m <= 0 {
        Seq::empty()
    } else {
        render_claims(claims, m - 1) + seq![32u8, 32u8, 32u8, 32u8, 45u8, 32u8] + render_claim(
            claims[m - 1],
        ) + seq![10u8]
    }
}

/// One facet: its own line, then its claim lines.
pub open spec fn render_facet(f: FacetS) -> Seq<u8> {
    seq![32u8, 32u8, 46u8] + f.name + seq![10u8] + render_claims(f.claims, f.claims.len() as int)
}

/// The first `k` facets of a concept.
pub open spec fn render_facets(facets: Seq<FacetS>, k: int) -> Seq<u8>
    decreases k,
{
    if k <= 0 {
        Seq::empty()
    } else {
        render_facets(facets, k - 1) + render_facet(facets[k - 1])
    }
}

/// One concept: its name line, then its facets.
pub open spec fn render_concept(c: ConceptS) -> Seq<u8> {
    c.name + seq![10u8] + render_facets(c.facets, c.facets.len() as int)
}

/// The first `i` concepts of a document.
pub open spec fn render_concepts(cs: Seq<ConceptS>, i: int) -> Seq<u8>
    decreases i,
{
    if i <= 0 {
        Seq::empty()
    } else {
        render_concepts(cs, i - 1) + render_concept(cs[i - 1])
    }
}

/// The serialized form of a whole document.
pub open spec fn render_doc(d: crate::doc::DocumentS) -> Seq<u8> {
    render_concepts(d.concepts, d.concepts.len() as int)
}

/// Append the text or relation of a claim.
fn push_content(out: &mut Vec<u8>, c: &ClaimContent)
    ensures
        final(out)@ == old(out)@ + render_content(c@),
{
    let ghost base = out@;
    match c {
        ClaimContent::Text(t) => {
            push_all(out, t.as_slice());
        },
        ClaimContent::Relation(r) => {
            push_all(out, r.left.as_slice());
            out.push(32);
            push_all(out, r.op.as_slice());
            out.push(32);
            push_all(out, r.right.as_slice());
            proof {
                assert(out@ =~= base + render_content(c@));
            }
        },
    }
}

/// Append the modifier bytes, in the fixed order.
fn push_mods(out: &mut Vec<u8>, m: Modifiers)
    ensures
        final(out)@ == old(out)@ + render_mods(m),
{
    let ghost base = out@;
    if m.increasing {
        out.push(94);
    }
    if m.decreasing {
        out.push(118);
    }
    if m.strong {
        out.push(33);
    }
    if m.uncertain {
        out.push(63);
    }
    if m.notable {
        out.push(42);
    }
    proof {
        assert(out@ =~= base + render_mods(m));
    }
}

/// Append the supersession marker, when there is one.
fn push_sup(out: &mut Vec<u8>, sup: &Option<Vec<u8>>)
    ensures
        final(out)@ == old(out)@ + render_sup(
            match sup {
                Some(s) => Some(s@),
                None => None,
            },
        ),
{
    let ghost base = out@;
    match sup {
        Some(s) => {
            out.push(32);
            out.push(91);
            out.push(60);
            out.push(61);
            out.push(32);
            push_all(out, s.as_slice());
            out.push(93);
            proof {
                assert(out@ =~= base + render_sup(Some(s@)));
            }
        },
        None => {
            proof {
                assert(out@ =~= base + render_sup(None::<Seq<u8>>));
            }
        },
    }
}

/// Append each item, opened by the three delimiter bytes.
fn push_tagged(out: &mut Vec<u8>, items: &Vec<Vec<u8>>, d: u8)
    ensures
        final(out)@ == old(out)@ + render_tagged(
            items.deep_view(),
            seq![32u8, d, 32u8],
            items@.len() as int,
        ),
{
    let ghost iv = items.deep_view();
    let ghost base = out@;
    proof {
        assert(out@ =~= base + render_tagged(iv, seq![32u8, d, 32u8], 0));
    }
    let mut k: usize = 0;
    while k < items.len()
        invariant
            k <= items@.len(),
            iv == items.deep_view(),
            out@ == base + render_tagged(iv, seq![32u8, d, 32u8], k as int),
        decreases items@.len() - k,
    {
        out.push(32);
        out.push(d);
        out.push(32);
        push_all(out, items[k].as_slice());
        proof {
            assert(iv[k as int] == items@[k as int].deep_view());
            assert(items@[k as int].deep_view() =~= items@[k as int]@);
            assert(out@ =~= base + render_tagged(iv, seq![32u8, d, 32u8], k + 1));
        }
        k = k + 1;
    }
}

/// Append each reference as ` &concept.facet`.
fn push_refs(out: &mut Vec<u8>, refs: &Vec<crate::inline::ClaimRef>)
    ensures
        final(out)@ == old(out)@ + render_refs(refs.deep_view(), refs@.len() as int),
{
    let ghost rv = refs.deep_view();
    let ghost base = out@;
    proof {
        assert(out@ =~= base + render_refs(rv, 0));
    }
    let mut k: usize = 0;
    while k < refs.len()
        invariant
            k <= refs@.len(),
            rv == refs.deep_view(),
            out@ == base + render_refs(rv, k as int),
        decreases refs@.len() - k,
    {
        out.push(32);
        out.push(38);
        push_all(out, refs[k].concept.as_slice());
        out.push(46);
        push_all(out, refs[k].facet.as_slice());
        proof {
            assert(rv[k as int] == refs@[k as int].deep_view());
            assert(out@ =~= base + render_refs(rv, k + 1));
        }
        k = k + 1;
    }
}

/// Append one claim body.
fn push_claim(out: &mut Vec<u8>, c: &Claim)
    ensures
        final(out)@ == old(out)@ + render_claim(c@),
{
    let ghost base = out@;
    push_content(out, &c.content);
    push_mods(out, c.modifiers);
    push_sup(out, &c.supersedes);
    push_tagged(out, &c.conditions, 124);
    push_tagged(out, &c.sources, 64);
    push_refs(out, &c.references);
    proof {
        assert(out@ =~= base + render_claim(c@));
    }
}

/// Serialize a document tree back out in the notation.
pub fn to_text(doc: &Document) -> (r: Vec<u8>)
    ensures
        r@ == render_concepts(doc@.concepts, doc@.concepts.len() as int),
{
    let ghost cs = doc@.concepts;
    let mut out: Vec<u8> = Vec::new();
    proof {
        assert(out@ =~= render_concepts(cs, 0));
    }
    let mut i: usize = 0;
    while i < doc.concepts.len()
        invariant
            i <= doc.concepts@.len(),
            cs == doc.concepts.deep_view(),
            out@ == render_concepts(cs, i as int),
        decreases doc.concepts@.len() - i,
    {
        let ghost base_c = out@;
        let con = &doc.concepts[i];
        proof {
            assert(cs[i as int] == doc.concepts@[i as int].deep_view());
        }
        push_all(&mut out, con.name.as_slice());
        out.push(10);
        let ghost base_f = out@;
        proof {
            assert(base_f =~= base_c + cs[i as int].name + seq![10u8]);
            assert(base_f =~= base_f + render_facets(cs[i as int].facets, 0));
        }
        let mut k: usize = 0;
        while k < con.facets.len()
            invariant
                k <= con.facets@.len(),
                cs == doc.concepts.deep_view(),
                i < cs.len(),
                cs[i as int] == con.deep_view(),
                out@ == base_f + render_facets(cs[i as int].facets, k as int),
            decreases con.facets@.len() - k,
        {
            let ghost base_one = out@;
            let facet = &con.facets[k];
            proof {
                assert(cs[i as int].facets[k as int] == con.facets@[k as int].deep_view());
            }
            out.push(32);
            out.push(32);
            out.push(46);
            push_all(&mut out, facet.name.as_slice());
            out.push(10);
            let ghost base_cl = out@;
            proof {
                assert(base_cl =~= base_one + seq![32u8, 32u8, 46u8] + cs[i as int].facets[
                    k as int
                ].name + seq![10u8]);
                assert(base_cl =~= base_cl + render_claims(cs[i as int].facets[k as int].claims, 0));
            }
            let ghost claims = cs[i as int].facets[k as int].claims;
            let mut m: usize = 0;
            while m < facet.claims.len()
                invariant
                    m <= facet.claims@.len(),
                    claims == facet.claims.deep_view(),
                    out@ == base_cl + render_claims(claims, m as int),
                decreases facet.claims@.len() - m,
            {
                let ghost base_line = out@;
                out.push(32);
                out.push(32);
                out.push(32);
                out.push(32);
                out.push(45);
                out.push(32);
                push_claim(&mut out, &facet.claims[m]);
                out.push(10);
                proof {
                    assert(claims[m as int] == facet.claims@[m as int].deep_view());
                    assert(out@ =~= base_line + seq![32u8, 32u8, 32u8, 32u8, 45u8, 32u8]
                        + render_claim(claims[m as int]) + seq![10u8]);
                    assert(out@ =~= base_cl + render_claims(claims, m + 1));
                }
                m = m + 1;
            }
            proof {
                assert(out@ =~= base_f + render_facets(cs[i as int].facets, k + 1));
            }
            k = k + 1;
        }
        proof {
            assert(out@ =~= render_concepts(cs, i + 1));
        }
        i = i + 1;
    }
    out
}

} // verus!
