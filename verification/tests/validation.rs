use wsl_core::diag::DiagKind;
use wsl_core::validate::validate;

#[test]
fn empty_document_is_valid() {
    let r = validate(b"");
    assert!(r.is_valid());
    assert!(!r.has_warnings());
}

#[test]
fn minimal_valid_document() {
    let r = validate(b"Trust\n  .formation\n    - slow\n");
    assert!(r.is_valid());
    assert!(!r.has_warnings());
}

#[test]
fn valid_document_with_everything() {
    let text = b"Trust\n  .erosion\n    - asymmetric to formation &Trust.formation\n    - single violation => collapse | observed @history\n  .formation\n    - slow\n";
    let r = validate(text);
    assert!(r.is_valid());
    assert!(!r.has_warnings());
}

#[test]
fn single_concept_line_missing_facet() {
    let r = validate(b"Trust");
    assert!(!r.is_valid());
    assert_eq!(r.errors.len(), 1);
    assert_eq!(r.errors[0].kind, DiagKind::MissingFacet);
    assert_eq!(r.errors[0].line, 1);
    assert_eq!(r.errors[0].detail, b"Trust".to_vec());
}

#[test]
fn concept_followed_by_concept_missing_facet() {
    let r = validate(b"A\nB\n  .f\n    - c\n");
    assert!(!r.is_valid());
    assert_eq!(r.errors.len(), 1);
    assert_eq!(r.errors[0].kind, DiagKind::MissingFacet);
    assert_eq!(r.errors[0].line, 1);
}

#[test]
fn facet_missing_claim() {
    let r = validate(b"A\n  .f\n");
    assert!(!r.is_valid());
    assert_eq!(r.errors.len(), 1);
    assert_eq!(r.errors[0].kind, DiagKind::MissingClaim);
    assert_eq!(r.errors[0].line, 2);
    assert_eq!(r.errors[0].detail, b"f".to_vec());
}

#[test]
fn orphan_facet_reported() {
    let r = validate(b"  .alone\n");
    assert!(!r.is_valid());
    assert_eq!(r.errors.len(), 1);
    assert_eq!(r.errors[0].kind, DiagKind::OrphanFacet);
    assert_eq!(r.errors[0].line, 1);
}

#[test]
fn orphan_claim_reported() {
    let r = validate(b"A\n    - claim without facet\n");
    assert!(!r.is_valid());
    let kinds: Vec<DiagKind> = r.errors.iter().map(|e| e.kind).collect();
    assert!(kinds.contains(&DiagKind::OrphanClaim));
}

#[test]
fn malformed_indentation_reported() {
    let r = validate(b"A\n   .three-spaces\n");
    assert!(!r.is_valid());
    let kinds: Vec<DiagKind> = r.errors.iter().map(|e| e.kind).collect();
    assert!(kinds.contains(&DiagKind::BadLine));
}

#[test]
fn blank_lines_do_not_reset_context() {
    let r = validate(b"A\n  .f\n\n    - claim after blank\n");
    assert!(r.is_valid());
}

#[test]
fn errors_ordered_by_line() {
    let r = validate(b"A\nbad:\n  .f\n    - c\n  .g\n");
    assert!(!r.is_valid());
    for w in r.errors.windows(2) {
        assert!(w[0].line <= w[1].line);
    }
}

#[test]
fn bad_reference_blocks() {
    let r = validate(b"A\n  .f\n    - c &nodot\n");
    assert!(!r.is_valid());
    assert_eq!(r.errors.len(), 1);
    assert_eq!(r.errors[0].kind, DiagKind::BadReference);
    assert_eq!(r.errors[0].line, 3);
}

#[test]
fn ordering_violation_is_inline_error() {
    let r = validate(b"A\n  .f\n    - c @src | cond\n");
    assert!(!r.is_valid());
    let kinds: Vec<DiagKind> = r.errors.iter().map(|e| e.kind).collect();
    assert!(kinds.contains(&DiagKind::BadInline));
}

#[test]
fn unresolved_reference_warns_only() {
    let r = validate(b"A\n  .f\n    - c &B.g\n");
    assert!(r.is_valid());
    assert!(r.has_warnings());
    assert_eq!(r.warnings.len(), 1);
    assert_eq!(r.warnings[0].kind, DiagKind::UnresolvedReference);
    assert_eq!(r.warnings[0].detail, b"B.g".to_vec());
}

#[test]
fn resolved_reference_no_warning() {
    let r = validate(b"A\n  .f\n    - c &B.g\nB\n  .g\n    - d\n");
    assert!(r.is_valid());
    assert!(!r.has_warnings());
}

#[test]
fn duplicate_concept_warns() {
    let r = validate(b"A\n  .f\n    - c\nA\n  .g\n    - d\n");
    assert!(r.is_valid());
    let kinds: Vec<DiagKind> = r.warnings.iter().map(|w| w.kind).collect();
    assert!(kinds.contains(&DiagKind::DuplicateConcept));
    let dup = r
        .warnings
        .iter()
        .find(|w| w.kind == DiagKind::DuplicateConcept)
        .unwrap();
    assert_eq!(dup.line, 4);
}

#[test]
fn facet_reuse_warns() {
    let r = validate(b"A\n  .f\n    - c\nB\n  .f\n    - d\n");
    assert!(r.is_valid());
    let reuse = r.warnings.iter().find(|w| w.kind == DiagKind::FacetReuse).unwrap();
    assert_eq!(reuse.line, 5);
    assert_eq!(reuse.detail, b"f".to_vec());
}

#[test]
fn empty_claim_text_warns() {
    let r = validate(b"A\n  .f\n    - \n");
    assert!(r.is_valid());
    let kinds: Vec<DiagKind> = r.warnings.iter().map(|w| w.kind).collect();
    assert!(kinds.contains(&DiagKind::EmptyClaimText));
}

#[test]
fn parse_builds_tree() {
    let (doc, r) = wsl_core::validate::parse(b"Trust\n  .formation\n    - slow\n");
    assert!(r.is_valid());
    assert_eq!(doc.concepts.len(), 1);
    assert_eq!(doc.concepts[0].name, b"Trust".to_vec());
    assert_eq!(doc.concepts[0].line, 1);
    assert_eq!(doc.concepts[0].facets.len(), 1);
    assert_eq!(doc.concepts[0].facets[0].name, b"formation".to_vec());
    assert_eq!(doc.concepts[0].facets[0].claims.len(), 1);
    assert_eq!(doc.concepts[0].facets[0].claims[0].line, 3);
}

#[test]
fn claim_prefix_needs_space_after_dash() {
    let r = validate(b"A\n  .f\n    -x\n");
    assert!(!r.is_valid());
    let kinds: Vec<DiagKind> = r.errors.iter().map(|e| e.kind).collect();
    assert!(kinds.contains(&DiagKind::BadLine));
}

#[test]
fn names_are_trimmed() {
    let (doc, r) = wsl_core::validate::parse(b"Trust   \n  . formation \n    - slow\n");
    assert!(r.is_valid());
    assert_eq!(doc.concepts[0].name, b"Trust".to_vec());
    assert_eq!(doc.concepts[0].facets[0].name, b"formation".to_vec());
}

#[test]
fn six_space_indent_is_malformed() {
    let r = validate(b"A\n  .f\n      - too deep\n");
    assert!(!r.is_valid());
    let kinds: Vec<DiagKind> = r.errors.iter().map(|e| e.kind).collect();
    assert!(kinds.contains(&DiagKind::BadLine));
}
