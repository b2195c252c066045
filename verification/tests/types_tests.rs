use groundcontrol::types::{
    CheckOutput, CheckSummary, CloseMatch, ConstantDef, Directive, GroundedAtom, GroundedInput,
    GroundingStatus, Signature, SignatureSummary, Similarity, TypeDef,
};

#[test]
fn test_signature_summary() {
    let sig = Signature {
        types: vec![TypeDef { name: "t".into() }],
        predicates: vec![],
        constants: vec![
            ConstantDef { name: "T1.1".into(), sort_name: "t".into(), aliases: vec![] },
            ConstantDef { name: "T1.2".into(), sort_name: "t".into(), aliases: vec![] },
        ],
    };
    let s = sig.summary();
    assert_eq!(s.tasks, 2);
    assert_eq!(s.predicates, 0);
    assert_eq!(s.types, 1);
}

#[test]
fn test_grounding_status_equality() {
    assert_eq!(GroundingStatus::Grounded, GroundingStatus::Grounded);
    assert_ne!(GroundingStatus::Grounded, GroundingStatus::Ambiguous);
    assert_ne!(GroundingStatus::Ambiguous, GroundingStatus::Ungroundable);
}

#[test]
fn test_grounded_atom_construction() {
    let atom = GroundedAtom {
        predicate: "BEFORE".into(),
        arguments: vec!["T1.1".into(), "T1.2".into()],
        confidence: 95,
    };
    assert_eq!(atom.predicate, "BEFORE");
    assert_eq!(atom.arguments.len(), 2);
    assert!(atom.confidence > 90);
}

#[test]
fn test_directive_construction() {
    let d = Directive {
        severity: "blocker".into(),
        element: "reqs.md#L3".into(),
        detail: "No match found".into(),
        suggested_action: "Add task ID".into(),
        close_matches: Some(vec![CloseMatch {
            constant: "T1.1".into(),
            alias: "setup".into(),
            // 2 * 17 / 40 = 0.85
            similarity: Similarity { shared: 17, total: 40 },
        }]),
    };
    assert_eq!(d.severity, "blocker");
    assert!(d.close_matches.is_some());
    assert_eq!(d.close_matches.unwrap().len(), 1);
}

#[test]
fn summary_has_issues_only_for_ambiguous_or_ungroundable() {
    let clean = CheckSummary { total: 3, grounded: 3, ambiguous: 0, ungroundable: 0 };
    assert!(!clean.has_issues());
    let ambiguous = CheckSummary { total: 3, grounded: 2, ambiguous: 1, ungroundable: 0 };
    assert!(ambiguous.has_issues());
    let ungroundable = CheckSummary { total: 3, grounded: 2, ambiguous: 0, ungroundable: 1 };
    assert!(ungroundable.has_issues());
}

#[test]
fn copies_keep_every_field() {
    let input = GroundedInput {
        source: "a.md#L1".into(),
        text: "T1.1 BEFORE T1.2".into(),
        groundings: vec![GroundedAtom {
            predicate: "BEFORE".into(),
            arguments: vec!["T1.1".into(), "T1.2".into()],
            confidence: 95,
        }],
        status: GroundingStatus::Grounded,
        directives: vec![Directive {
            severity: "warning".into(),
            element: "a.md#L1".into(),
            detail: "d".into(),
            suggested_action: "s".into(),
            close_matches: Some(vec![CloseMatch {
                constant: "T1.1".into(),
                alias: "setup".into(),
                similarity: Similarity { shared: 1, total: 2 },
            }]),
        }],
    };
    let out = CheckOutput {
        plan_name: "p".into(),
        signature: SignatureSummary { tasks: 2, predicates: 6, types: 2 },
        inputs: vec![input],
        summary: CheckSummary { total: 1, grounded: 1, ambiguous: 0, ungroundable: 0 },
    };
    let c = out.copy();
    assert_eq!(c.plan_name, "p");
    assert_eq!(c.signature, out.signature);
    assert_eq!(c.summary, out.summary);
    assert_eq!(c.inputs.len(), 1);
    assert_eq!(c.inputs[0].source, "a.md#L1");
    assert_eq!(c.inputs[0].groundings[0].arguments, vec!["T1.1", "T1.2"]);
    assert_eq!(c.inputs[0].groundings[0].confidence, 95);
    let ms = c.inputs[0].directives[0].close_matches.as_ref().unwrap();
    assert_eq!(ms[0].alias, "setup");
    assert_eq!(ms[0].similarity, Similarity { shared: 1, total: 2 });
}
