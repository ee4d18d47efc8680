use wsl_core::diag::DiagKind;
use wsl_core::edit::{
    apply_line_edit_text, apply_patches_text, DocumentStore, EditError, LineEdit, PatchOp,
};

fn op(old_string: &[u8], new_string: &[u8]) -> PatchOp {
    PatchOp { old_string: old_string.to_vec(), new_string: new_string.to_vec() }
}

#[test]
fn bootstrap_from_empty_document() {
    let mut store = DocumentStore::from_text(Vec::new());
    let ops = vec![op(b"", b"Trust\n  .formation\n    - slow\n")];
    let r = store.apply_patch(&ops);
    match r {
        Ok(warnings) => assert_eq!(warnings.len(), 0),
        Err(_) => panic!("bootstrap must succeed"),
    }
    assert_eq!(store.text, b"Trust\n  .formation\n    - slow\n".to_vec());
    let (doc, vr) = wsl_core::validate::parse(&store.text);
    assert!(vr.is_valid());
    assert_eq!(doc.concepts.len(), 1);
    assert_eq!(doc.concepts[0].name, b"Trust".to_vec());
    assert_eq!(doc.concepts[0].facets.len(), 1);
    assert_eq!(doc.concepts[0].facets[0].name, b"formation".to_vec());
    assert_eq!(doc.concepts[0].facets[0].claims.len(), 1);
    match &doc.concepts[0].facets[0].claims[0].content {
        wsl_core::inline::ClaimContent::Text(t) => assert_eq!(t, &b"slow".to_vec()),
        _ => panic!("expected text claim"),
    }
}

#[test]
fn nonempty_old_string_on_empty_document_not_found() {
    let r = apply_patches_text(b"", &vec![op(b"x", b"y")]);
    match r {
        Err(EditError::NotFound { index }) => assert_eq!(index, 1),
        _ => panic!("expected not-found"),
    }
}

#[test]
fn empty_old_string_not_first_rejected() {
    let text = b"A\n  .f\n    - c\n";
    let r = apply_patches_text(text, &vec![op(b"A", b"B"), op(b"", b"x")]);
    match r {
        Err(EditError::EmptyOld { index }) => assert_eq!(index, 2),
        _ => panic!("expected empty-old error"),
    }
}

#[test]
fn patch_not_found_names_index() {
    let text = b"A\n  .f\n    - c\n";
    let r = apply_patches_text(text, &vec![op(b"A", b"B"), op(b"zzz", b"y")]);
    match r {
        Err(EditError::NotFound { index }) => assert_eq!(index, 2),
        _ => panic!("expected not-found"),
    }
}

#[test]
fn ambiguous_patch_names_count() {
    let text = b"A\n  .f\n    - c\nB\n  .f\n    - c\n";
    let r = apply_patches_text(text, &vec![op(b"- c", b"- d")]);
    match r {
        Err(EditError::Ambiguous { index, count }) => {
            assert_eq!(index, 1);
            assert_eq!(count, 2);
        }
        _ => panic!("expected ambiguous"),
    }
}

#[test]
fn uniqueness_judged_against_evolving_text() {
    // `b` is unique in the original text, but the first patch makes it
    // ambiguous by the time the second patch is evaluated.
    let r = apply_patches_text(b"ab", &vec![op(b"a", b"b"), op(b"b", b"c")]);
    match r {
        Err(EditError::Ambiguous { index, count }) => {
            assert_eq!(index, 2);
            assert_eq!(count, 2);
        }
        _ => panic!("expected ambiguous at the second patch"),
    }
}

#[test]
fn patches_apply_sequentially() {
    let r = apply_patches_text(b"A\n  .f\n    - c\n", &vec![op(b"A", b"B"), op(b"B", b"C")]);
    match r {
        Ok(t) => assert_eq!(t, b"C\n  .f\n    - c\n".to_vec()),
        Err(_) => panic!("expected success"),
    }
}

#[test]
fn deletion_by_empty_new_string() {
    let r = apply_patches_text(b"A\n  .f\n    - c | gone\n", &vec![op(b" | gone", b"")]);
    match r {
        Ok(t) => assert_eq!(t, b"A\n  .f\n    - c\n".to_vec()),
        Err(_) => panic!("expected success"),
    }
}

#[test]
fn candidate_normalized_to_one_terminator() {
    let r = apply_patches_text(b"A\n  .f\n    - c\n", &vec![op(b"c\n", b"c\n\n\n")]);
    match r {
        Ok(t) => assert_eq!(t, b"A\n  .f\n    - c\n".to_vec()),
        Err(_) => panic!("expected success"),
    }
}

#[test]
fn rejected_batch_leaves_store_unchanged() {
    let before = b"Trust\n  .formation\n    - slow\n".to_vec();
    let mut store = DocumentStore::from_text(before.clone());
    // Deleting the only claim line leaves the facet without a claim.
    let ops = vec![op(b"    - slow\n", b"")];
    let r = store.apply_patch(&ops);
    match r {
        Err(EditError::Rejected { errors }) => {
            assert_eq!(errors.len(), 1);
            assert_eq!(errors[0].kind, DiagKind::MissingClaim);
        }
        _ => panic!("expected rejection"),
    }
    assert_eq!(store.text, before);
}

#[test]
fn line_delete_of_only_claim_rejected() {
    let before = b"Trust\n  .formation\n    - slow\n".to_vec();
    let mut store = DocumentStore::from_text(before.clone());
    let r = store.apply_line_edit(LineEdit::Delete { line: 3 });
    match r {
        Err(EditError::Rejected { errors }) => {
            assert_eq!(errors.len(), 1);
            assert_eq!(errors[0].kind, DiagKind::MissingClaim);
            assert_eq!(errors[0].line, 2);
        }
        _ => panic!("expected rejection"),
    }
    assert_eq!(store.text, before);
}

#[test]
fn line_number_out_of_range() {
    let r = apply_line_edit_text(
        b"A\n  .f\n    - c\n",
        LineEdit::Replace { line: 0, text: b"B".to_vec() },
    );
    match r {
        Err(EditError::OutOfRange { given, count }) => {
            assert_eq!(given, 0);
            assert_eq!(count, 3);
        }
        _ => panic!("expected out-of-range"),
    }
    let r2 = apply_line_edit_text(b"A\n  .f\n    - c\n", LineEdit::Delete { line: 4 });
    match r2 {
        Err(EditError::OutOfRange { given, count }) => {
            assert_eq!(given, 4);
            assert_eq!(count, 3);
        }
        _ => panic!("expected out-of-range"),
    }
}

#[test]
fn line_replace_and_insert_after() {
    let r = apply_line_edit_text(
        b"A\n  .f\n    - c\n",
        LineEdit::Replace { line: 1, text: b"B".to_vec() },
    );
    assert_eq!(r.unwrap(), b"B\n  .f\n    - c\n".to_vec());
    let r2 = apply_line_edit_text(
        b"A\n  .f\n    - c\n",
        LineEdit::InsertAfter { line: 3, text: b"    - d".to_vec() },
    );
    assert_eq!(r2.unwrap(), b"A\n  .f\n    - c\n    - d\n".to_vec());
}

#[test]
fn append_adds_blank_separator() {
    let r = apply_line_edit_text(
        b"A\n  .f\n    - c\n",
        LineEdit::Append { text: b"B\n  .g\n    - d".to_vec() },
    );
    assert_eq!(r.unwrap(), b"A\n  .f\n    - c\n\nB\n  .g\n    - d\n".to_vec());
}

#[test]
fn append_to_empty_document_has_no_separator() {
    let r = apply_line_edit_text(b"", LineEdit::Append { text: b"A".to_vec() });
    assert_eq!(r.unwrap(), b"A\n".to_vec());
}

#[test]
fn successful_line_edit_commits() {
    let mut store = DocumentStore::from_text(b"Trust\n  .formation\n    - slow\n".to_vec());
    let r = store.apply_line_edit(LineEdit::InsertAfter {
        line: 3,
        text: b"    - incremental".to_vec(),
    });
    assert!(r.is_ok());
    assert_eq!(
        store.text,
        b"Trust\n  .formation\n    - slow\n    - incremental\n".to_vec()
    );
}

#[test]
fn commit_reports_warnings() {
    let mut store = DocumentStore::from_text(Vec::new());
    let ops = vec![op(b"", b"A\n  .f\n    - c &B.g\n")];
    let r = store.apply_patch(&ops);
    match r {
        Ok(warnings) => {
            assert_eq!(warnings.len(), 1);
            assert_eq!(warnings[0].kind, DiagKind::UnresolvedReference);
        }
        Err(_) => panic!("warnings never block"),
    }
}
