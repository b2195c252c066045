use groundcontrol::grounders::rule::RuleGrounder;
use groundcontrol::types::{
    ArgSlot, ConstantDef, Grounder, GroundingStatus, PredicateDef, Signature, TypeDef,
};

fn slot(name: &str) -> ArgSlot {
    ArgSlot { name: name.into(), sort_name: "task_id".into() }
}

fn constant(name: &str, aliases: &[&str]) -> ConstantDef {
    ConstantDef {
        name: name.into(),
        sort_name: "task_id".into(),
        aliases: aliases.iter().map(|a| a.to_string()).collect(),
    }
}

fn test_sig() -> Signature {
    Signature {
        types: vec![TypeDef { name: "task_id".into() }],
        predicates: vec![
            PredicateDef { name: "BEFORE".into(), arguments: vec![slot("earlier"), slot("later")] },
            PredicateDef { name: "AFTER".into(), arguments: vec![slot("earlier"), slot("later")] },
            PredicateDef { name: "CONCURRENTLY".into(), arguments: vec![slot("a"), slot("b")] },
            PredicateDef {
                name: "IF_THEN".into(),
                arguments: vec![slot("trigger"), slot("consequent")],
            },
            PredicateDef { name: "ALWAYS".into(), arguments: vec![slot("target")] },
            PredicateDef { name: "AT_MOST_ONE".into(), arguments: vec![slot("a"), slot("b")] },
        ],
        constants: vec![
            constant("T1.1", &["setup", "create project", "1.1"]),
            constant("T1.2", &["deps", "add dependencies", "1.2"]),
            constant("T2.1", &["migrate", "migration", "2.1"]),
            constant("T2.2", &["test", "testing", "2.2"]),
            constant("T3.1", &["deploy", "deployment", "3.1"]),
        ],
    }
}

#[test]
fn test_ground_before_explicit_ids() {
    let sig = test_sig();
    let grounder = RuleGrounder;
    let result = grounder.ground("T1.1 SHALL complete BEFORE T1.2 SHALL run", &sig);
    assert_eq!(result.status, GroundingStatus::Grounded);
    assert_eq!(result.candidates[0].predicate, "BEFORE");
    assert_eq!(result.candidates[0].arguments, vec!["T1.1", "T1.2"]);
    assert!(result.candidates[0].confidence >= 80);
}

#[test]
fn test_ground_before_with_aliases() {
    let sig = test_sig();
    let grounder = RuleGrounder;
    let result = grounder.ground("The migration must finish before testing starts", &sig);
    assert_eq!(result.status, GroundingStatus::Grounded);
    assert_eq!(result.candidates[0].predicate, "BEFORE");
    assert!(result.candidates[0].arguments.contains(&"T2.1".to_string()));
    assert!(result.candidates[0].arguments.contains(&"T2.2".to_string()));
}

#[test]
fn test_ground_after_explicit_ids() {
    let sig = test_sig();
    let grounder = RuleGrounder;
    let result = grounder.ground("T2.2 SHALL run AFTER T2.1 SHALL complete", &sig);
    assert_eq!(result.status, GroundingStatus::Grounded);
    assert_eq!(result.candidates[0].predicate, "AFTER");
    assert_eq!(result.candidates[0].arguments, vec!["T2.1", "T2.2"]);
}

#[test]
fn test_ground_concurrently() {
    let sig = test_sig();
    let grounder = RuleGrounder;
    let result = grounder.ground("T2.1 and T2.2 SHALL run concurrently", &sig);
    assert_eq!(result.status, GroundingStatus::Grounded);
    assert_eq!(result.candidates[0].predicate, "CONCURRENTLY");
    assert!(result.candidates[0].arguments.contains(&"T2.1".to_string()));
    assert!(result.candidates[0].arguments.contains(&"T2.2".to_string()));
}

#[test]
fn test_ground_if_then() {
    let sig = test_sig();
    let grounder = RuleGrounder;
    let result = grounder.ground("IF T1.1 fails THEN T3.1 SHALL run", &sig);
    assert_eq!(result.status, GroundingStatus::Grounded);
    assert_eq!(result.candidates[0].predicate, "IF_THEN");
    assert_eq!(result.candidates[0].arguments, vec!["T1.1", "T3.1"]);
}

#[test]
fn test_ground_always() {
    let sig = test_sig();
    let grounder = RuleGrounder;
    let result = grounder.ground("T3.1 SHALL ALWAYS be available", &sig);
    assert_eq!(result.status, GroundingStatus::Grounded);
    assert_eq!(result.candidates[0].predicate, "ALWAYS");
    assert_eq!(result.candidates[0].arguments, vec!["T3.1"]);
}

#[test]
fn test_ground_at_most_one() {
    let sig = test_sig();
    let grounder = RuleGrounder;
    let result = grounder.ground("At most one of T2.1, T2.2 SHALL be active", &sig);
    assert_eq!(result.status, GroundingStatus::Grounded);
    assert_eq!(result.candidates[0].predicate, "AT_MOST_ONE");
    assert!(result.candidates[0].arguments.contains(&"T2.1".to_string()));
    assert!(result.candidates[0].arguments.contains(&"T2.2".to_string()));
}

#[test]
fn test_ground_ungroundable() {
    let sig = test_sig();
    let grounder = RuleGrounder;
    let result = grounder.ground("The system SHALL be user-friendly", &sig);
    assert_eq!(result.status, GroundingStatus::Ungroundable);
    assert!(result.candidates.is_empty());
}

#[test]
fn test_ground_no_keyword() {
    let sig = test_sig();
    let grounder = RuleGrounder;
    let result = grounder.ground("T1.1 does something", &sig);
    assert_eq!(result.status, GroundingStatus::Ungroundable);
}

#[test]
fn test_ground_batch() {
    let sig = test_sig();
    let grounder = RuleGrounder;
    let inputs = vec!["T1.1 BEFORE T1.2", "The system SHALL be user-friendly"];
    let results = grounder.ground_batch(&inputs, &sig);
    assert_eq!(results.len(), 2);
    assert_eq!(results[0].status, GroundingStatus::Grounded);
    assert_eq!(results[1].status, GroundingStatus::Ungroundable);
}

#[test]
fn test_ground_after_with_aliases() {
    let sig = test_sig();
    let grounder = RuleGrounder;
    let result = grounder.ground("Testing SHALL start after migration completes", &sig);
    assert_eq!(result.status, GroundingStatus::Grounded);
    assert_eq!(result.candidates[0].predicate, "AFTER");
}

#[test]
fn test_ground_if_then_with_aliases() {
    let sig = test_sig();
    let grounder = RuleGrounder;
    let result = grounder.ground("If setup fails then deployment SHALL run", &sig);
    assert_eq!(result.status, GroundingStatus::Grounded);
    assert_eq!(result.candidates[0].predicate, "IF_THEN");
}

#[test]
fn test_ground_multiple_predicates() {
    let sig = test_sig();
    let grounder = RuleGrounder;
    let result =
        grounder.ground("T1.1 SHALL complete BEFORE T1.2. T3.1 SHALL ALWAYS be available.", &sig);
    assert!(result.candidates.iter().any(|c| c.predicate == "BEFORE"));
    assert!(result.candidates.iter().any(|c| c.predicate == "ALWAYS"));
}

#[test]
fn ground_one_argument_is_ambiguous_at_half_confidence() {
    let sig = test_sig();
    let result = RuleGrounder.ground("T3.1 SHALL complete before any pool is used", &sig);
    assert_eq!(result.status, GroundingStatus::Ambiguous);
    assert_eq!(result.candidates.len(), 1);
    assert_eq!(result.candidates[0].predicate, "BEFORE");
    assert_eq!(result.candidates[0].arguments, vec!["T3.1"]);
    assert_eq!(result.candidates[0].confidence, 50);
}

#[test]
fn ground_sorts_candidates_by_confidence() {
    let sig = test_sig();
    // BEFORE finds only T3.1 (0.5); ALWAYS finds T3.1 (0.95).
    let result = RuleGrounder.ground("T3.1 SHALL ALWAYS run before the pool", &sig);
    assert_eq!(result.status, GroundingStatus::Grounded);
    assert_eq!(result.candidates.len(), 2);
    assert_eq!(result.candidates[0].predicate, "ALWAYS");
    assert_eq!(result.candidates[0].confidence, 95);
    assert_eq!(result.candidates[1].predicate, "BEFORE");
    assert_eq!(result.candidates[1].confidence, 50);
}

#[test]
fn try_ground_refuses_slicing_inside_a_character() {
    let sig = test_sig();
    // "İ" lowercases to three bytes where it had two, so the byte offset of the
    // end of "before" in the lowercased text falls inside the "é" of the text.
    let result = RuleGrounder.try_ground("İbeforeé T1.1", &sig);
    assert!(result.is_none());
    let ok = RuleGrounder.try_ground("T1.1 before T1.2", &sig);
    assert!(ok.is_some());
}

#[test]
fn ground_without_predicate_in_signature_is_half_confidence() {
    let mut sig = test_sig();
    sig.predicates.clear();
    let result = RuleGrounder.ground("T1.1 SHALL complete BEFORE T1.2 SHALL run", &sig);
    assert_eq!(result.status, GroundingStatus::Ambiguous);
    assert_eq!(result.candidates[0].confidence, 50);
}

#[test]
fn alias_matches_are_penalised() {
    let sig = test_sig();
    let result = RuleGrounder.ground("The migration must finish before testing starts", &sig);
    assert_eq!(result.status, GroundingStatus::Grounded);
    assert_eq!(result.candidates[0].predicate, "BEFORE");
    assert_eq!(result.candidates[0].arguments, vec!["T2.1", "T2.2"]);
    assert_eq!(result.candidates[0].confidence, 85);

    // One argument named, the other found through an alias: still penalised.
    let mixed = RuleGrounder.ground("T2.1 must finish before testing starts", &sig);
    assert_eq!(mixed.candidates[0].confidence, 85);

    // Both named: full confidence.
    let named = RuleGrounder.ground("T2.1 must finish before T2.2 starts", &sig);
    assert_eq!(named.candidates[0].confidence, 95);
}
