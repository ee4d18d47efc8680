use wsl_core::render::to_text;
use wsl_core::validate::{parse, validate};

#[test]
fn reserialized_valid_document_revalidates_clean() {
    let text = b"Trust\n  .erosion\n    - asymmetric to formation &Trust.formation\n    - single violation => collapse!\n  .formation\n    - slow [<= fast]\n    - built | over time @experience\n";
    let (doc, vr) = parse(text);
    assert!(vr.is_valid());
    assert!(!vr.has_warnings());
    let out = to_text(&doc);
    let vr2 = validate(&out);
    assert!(vr2.is_valid());
    assert!(!vr2.has_warnings());
    let (doc2, _) = parse(&out);
    assert_eq!(doc2.concepts.len(), doc.concepts.len());
    assert_eq!(doc2.concepts[0].name, doc.concepts[0].name);
    assert_eq!(
        doc2.concepts[0].facets[0].claims[0].references[0].concept,
        doc.concepts[0].facets[0].claims[0].references[0].concept
    );
    assert_eq!(
        doc2.concepts[0].facets[1].claims[0].supersedes,
        doc.concepts[0].facets[1].claims[0].supersedes
    );
    assert_eq!(
        doc.concepts[0].facets[1].claims[0].supersedes,
        Some(b"fast".to_vec())
    );
    // a second round trip reproduces the text exactly
    let out2 = to_text(&doc2);
    assert_eq!(out, out2);
}

#[test]
fn serializer_writes_the_notation() {
    let (doc, vr) = parse(b"A\n  .f\n    - x => y | c @s &A.f\n");
    assert!(vr.is_valid());
    let out = to_text(&doc);
    assert_eq!(out, b"A\n  .f\n    - x => y | c @ s &A.f\n".to_vec());
}

#[test]
fn modifiers_round_trip_fused() {
    let (doc, vr) = parse(b"A\n  .f\n    - trend^?\n");
    assert!(vr.is_valid());
    let out = to_text(&doc);
    let (doc2, vr2) = parse(&out);
    assert!(vr2.is_valid());
    let m = &doc2.concepts[0].facets[0].claims[0].modifiers;
    assert!(m.increasing && m.uncertain && !m.decreasing && !m.strong && !m.notable);
}
