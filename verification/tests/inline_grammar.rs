use wsl_core::inline::{parse_claim_body, ClaimContent};

#[test]
fn relation_with_condition() {
    let p = parse_claim_body(b"power => corruption | unchecked");
    assert!(p.ok);
    match &p.content {
        ClaimContent::Relation(r) => {
            assert_eq!(r.op, b"=>".to_vec());
            assert_eq!(r.left, b"power".to_vec());
            assert_eq!(r.right, b"corruption".to_vec());
        }
        _ => panic!("expected a relation"),
    }
    assert_eq!(p.conditions.len(), 1);
    assert_eq!(p.conditions[0], b"unchecked".to_vec());
    assert_eq!(p.sources.len(), 0);
    assert_eq!(p.references.len(), 0);
    assert!(!p.modifiers.increasing);
    assert!(!p.modifiers.decreasing);
    assert!(!p.modifiers.strong);
    assert!(!p.modifiers.uncertain);
    assert!(!p.modifiers.notable);
    assert!(p.supersedes.is_none());
}

#[test]
fn plain_text_claim() {
    let p = parse_claim_body(b"negative events more salient");
    assert!(p.ok);
    match &p.content {
        ClaimContent::Text(t) => assert_eq!(t, &b"negative events more salient".to_vec()),
        _ => panic!("expected text"),
    }
}

#[test]
fn all_relation_operators_detected() {
    for op in [&b"=>"[..], b"<=", b"<>", b"><", b"~", b"=", b"vs", b"//"] {
        let mut body = b"a ".to_vec();
        body.extend_from_slice(op);
        body.extend_from_slice(b" b");
        let p = parse_claim_body(&body);
        assert!(p.ok);
        match &p.content {
            ClaimContent::Relation(r) => {
                assert_eq!(r.op, op.to_vec());
                assert_eq!(r.left, b"a".to_vec());
                assert_eq!(r.right, b"b".to_vec());
            }
            _ => panic!("expected relation for {:?}", op),
        }
    }
}

#[test]
fn sources_and_references_collected() {
    let p = parse_claim_body(b"loss-averse @behavioral-economics &Human-nature.memory");
    assert!(p.ok);
    assert_eq!(p.sources.len(), 1);
    assert_eq!(p.sources[0], b"behavioral-economics".to_vec());
    assert_eq!(p.references.len(), 1);
    assert_eq!(p.references[0].concept, b"Human-nature".to_vec());
    assert_eq!(p.references[0].facet, b"memory".to_vec());
}

#[test]
fn multiple_conditions_in_order() {
    let p = parse_claim_body(b"x | first | second");
    assert!(p.ok);
    assert_eq!(p.conditions.len(), 2);
    assert_eq!(p.conditions[0], b"first".to_vec());
    assert_eq!(p.conditions[1], b"second".to_vec());
}

#[test]
fn condition_after_source_is_ordering_violation() {
    let p = parse_claim_body(b"x @src | cond");
    assert!(!p.ok);
}

#[test]
fn source_after_reference_is_ordering_violation() {
    let p = parse_claim_body(b"x &A.b @src");
    assert!(!p.ok);
}

#[test]
fn stacked_modifiers_fused() {
    let p = parse_claim_body(b"free-will?!");
    assert!(p.ok);
    match &p.content {
        ClaimContent::Text(t) => assert_eq!(t, &b"free-will".to_vec()),
        _ => panic!("expected text"),
    }
    assert!(p.modifiers.uncertain);
    assert!(p.modifiers.strong);
    assert!(!p.modifiers.increasing);
}

#[test]
fn modifier_after_space_stays_text() {
    let p = parse_claim_body(b"institutional-trust v");
    assert!(p.ok);
    match &p.content {
        ClaimContent::Text(t) => assert_eq!(t, &b"institutional-trust v".to_vec()),
        _ => panic!("expected text"),
    }
    assert!(!p.modifiers.decreasing);
}

#[test]
fn trailing_v_after_letter_is_guessed_modifier() {
    let p = parse_claim_body(b"institutional-trustv");
    assert!(p.ok);
    match &p.content {
        ClaimContent::Text(t) => assert_eq!(t, &b"institutional-trust".to_vec()),
        _ => panic!("expected text"),
    }
    assert!(p.modifiers.decreasing);
    assert!(p.ambiguous);
}

#[test]
fn vs_token_is_never_the_v_modifier() {
    let p = parse_claim_body(b"order vs chaos");
    assert!(p.ok);
    match &p.content {
        ClaimContent::Relation(r) => {
            assert_eq!(r.op, b"vs".to_vec());
            assert_eq!(r.left, b"order".to_vec());
            assert_eq!(r.right, b"chaos".to_vec());
        }
        _ => panic!("expected relation"),
    }
    assert!(!p.modifiers.decreasing);
}

#[test]
fn modifier_on_relation_right_term() {
    let p = parse_claim_body(b"single violation => collapse!");
    assert!(p.ok);
    match &p.content {
        ClaimContent::Relation(r) => {
            assert_eq!(r.right, b"collapse".to_vec());
        }
        _ => panic!("expected relation"),
    }
    assert!(p.modifiers.strong);
}

#[test]
fn supersession_marker_extracted() {
    let p = parse_claim_body(b"adaptive, context-dependent [<= inherently good]");
    assert!(p.ok);
    match &p.content {
        ClaimContent::Text(t) => assert_eq!(t, &b"adaptive, context-dependent".to_vec()),
        _ => panic!("expected text"),
    }
    assert_eq!(p.supersedes, Some(b"inherently good".to_vec()));
}

#[test]
fn bracketed_region_is_atomic() {
    let p = parse_claim_body(b"now [<= was | uncertain] | cond");
    assert!(p.ok);
    match &p.content {
        ClaimContent::Text(t) => assert_eq!(t, &b"now".to_vec()),
        _ => panic!("expected text"),
    }
    assert_eq!(p.supersedes, Some(b"was | uncertain".to_vec()));
    assert_eq!(p.conditions.len(), 1);
    assert_eq!(p.conditions[0], b"cond".to_vec());
}

#[test]
fn reference_needs_dot_and_both_parts() {
    let p = parse_claim_body(b"c &nodot &.facet &concept. &A.b");
    assert!(p.ok);
    assert_eq!(p.references.len(), 1);
    assert_eq!(p.references[0].concept, b"A".to_vec());
    assert_eq!(p.references[0].facet, b"b".to_vec());
    assert_eq!(p.bad_refs.len(), 3);
}

#[test]
fn empty_body_flags_empty_text() {
    let p = parse_claim_body(b"");
    assert!(p.ok);
    assert!(p.empty_text);
}

#[test]
fn operator_inside_word_not_detected() {
    let p = parse_claim_body(b"a=b");
    assert!(p.ok);
    match &p.content {
        ClaimContent::Text(t) => assert_eq!(t, &b"a=b".to_vec()),
        _ => panic!("expected text"),
    }
}
