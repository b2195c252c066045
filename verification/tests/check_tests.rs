use groundcontrol::check::{
    check_plan, extract_requirements, extract_shall, is_spec_file, locate_change,
    merge_outputs, not_found_message, render_human, sort_changes, ChangeLocation, ChangeProbe,
    Statement,
};
use groundcontrol::suggest::{find_close_matches, generate_directives, strsim};
use groundcontrol::types::{
    ArgSlot, ConstantDef, GroundedAtom, GroundingResult, GroundingStatus, PredicateDef, Signature,
    Similarity, TypeDef,
};

fn value(s: Similarity) -> f64 {
    if s.total == 0 {
        0.0
    } else {
        (2.0 * s.shared as f64) / s.total as f64
    }
}

fn task(name: &str, aliases: &[&str]) -> ConstantDef {
    ConstantDef {
        name: name.into(),
        sort_name: "task_id".into(),
        aliases: aliases.iter().map(|a| a.to_string()).collect(),
    }
}

fn slot(name: &str) -> ArgSlot {
    ArgSlot { name: name.into(), sort_name: "task_id".into() }
}

fn plan_sig() -> Signature {
    Signature {
        types: vec![TypeDef { name: "task_id".into() }],
        predicates: vec![
            PredicateDef { name: "BEFORE".into(), arguments: vec![slot("earlier"), slot("later")] },
            PredicateDef { name: "AFTER".into(), arguments: vec![slot("earlier"), slot("later")] },
            PredicateDef { name: "CONCURRENTLY".into(), arguments: vec![slot("a"), slot("b")] },
            PredicateDef {
                name: "IF_THEN".into(),
                arguments: vec![slot("trigger"), slot("consequent")],
            },
            PredicateDef { name: "ALWAYS".into(), arguments: vec![slot("target")] },
            PredicateDef { name: "AT_MOST_ONE".into(), arguments: vec![slot("a"), slot("b")] },
        ],
        constants: vec![
            task("T1.1", &["setup", "create project", "1.1"]),
            task("T1.2", &["deps", "add dependencies", "1.2"]),
            task("T2.1", &["migrate", "migration", "2.1"]),
            task("T2.2", &["test", "testing", "2.2"]),
            task("T3.1", &["deploy", "deployment", "3.1"]),
        ],
    }
}

fn stmt(source: &str, text: &str) -> Statement {
    Statement { source: source.into(), text: text.into() }
}

// ── extract_shall ──

#[test]
fn test_extract_shall_simple() {
    let body = "T1.1 SHALL complete BEFORE T1.2 SHALL run.";
    let result = extract_shall(body);
    assert_eq!(result, "T1.1 SHALL complete BEFORE T1.2 SHALL run.");
}

#[test]
fn test_extract_shall_with_task_ids() {
    let body = "T3.1 SHALL parse tasks.md BEFORE T4.1 SHALL ground NL statements. T3.1 SHALL produce a Signature.";
    let result = extract_shall(body);
    assert!(result.contains("T3.1"));
    assert!(result.contains("BEFORE"));
    assert!(result.contains("T4.1"));
}

#[test]
fn test_extract_shall_multiple_sentences() {
    let body = "First sentence. T5.1 SHALL generate LTL. Third sentence.";
    let result = extract_shall(body);
    assert_eq!(result, "T5.1 SHALL generate LTL");
}

#[test]
fn test_extract_shall_no_shall() {
    let body = "Just some text without any SHALL or MUST keywords.";
    let result = extract_shall(body);
    assert_eq!(result, "Just some text without any SHALL or MUST keywords.");
}

#[test]
fn test_extract_shall_must() {
    let body = "The system MUST handle errors. Other text.";
    let result = extract_shall(body);
    assert_eq!(result, "The system MUST handle errors");
}

#[test]
fn extract_shall_splits_on_marks_and_falls_back_to_first_line() {
    assert_eq!(extract_shall("Why? It shall work! Done."), "It shall work");
    assert_eq!(extract_shall("  first line  \nsecond line"), "first line");
    assert_eq!(extract_shall(""), "");
}

// ── strsim ──

#[test]
fn test_strsim_identical() {
    let s = value(strsim("hello", "hello"));
    assert!((s - 1.0).abs() < 0.001);
}

#[test]
fn test_strsim_similar() {
    let s = value(strsim("migration", "migrate"));
    assert!(s > 0.4);
}

#[test]
fn test_strsim_different() {
    let s = value(strsim("abc", "xyz"));
    assert!(s < 0.1);
}

#[test]
fn test_strsim_empty() {
    assert_eq!(value(strsim("", "hello")), 0.0);
    assert_eq!(value(strsim("hello", "")), 0.0);
    assert_eq!(value(strsim("", "")), 0.0);
}

#[test]
fn test_strsim_short() {
    let s = value(strsim("a", "b"));
    assert_eq!(s, 0.0);
}

#[test]
fn strsim_exact_fractions() {
    // mi ig gr ra at of "migration" occur in "migrate": 5 of 8 + 6 bigrams.
    assert_eq!(strsim("migration", "migrate"), Similarity { shared: 5, total: 14 });
    // A repeated bigram counts only as often as it occurs in both strings.
    assert_eq!(strsim("aaa", "aa"), Similarity { shared: 1, total: 3 });
    assert_eq!(strsim("aa", "aaa"), Similarity { shared: 1, total: 3 });
    assert_eq!(strsim("abab", "abab"), Similarity { shared: 3, total: 6 });
    assert_eq!(strsim("a", "hello"), Similarity { shared: 0, total: 0 });
}

// ── find_close_matches ──

#[test]
fn test_find_close_matches() {
    let sig = Signature {
        types: vec![TypeDef { name: "task_id".into() }],
        predicates: vec![],
        constants: vec![task("T2.1", &["migration", "migrate"]), task("T3.1", &["deployment", "deploy"])],
    };
    let matches = find_close_matches("The migration step", &sig);
    assert!(!matches.is_empty());
    assert!(matches.iter().any(|m| m.constant == "T2.1"));
}

#[test]
fn test_find_close_matches_no_match() {
    let sig = Signature {
        types: vec![TypeDef { name: "task_id".into() }],
        predicates: vec![],
        constants: vec![task("T1.1", &["setup"])],
    };
    let matches = find_close_matches("xyzzy", &sig);
    assert!(matches.is_empty());
}

#[test]
fn test_find_close_matches_truncated() {
    let mut constants = Vec::new();
    for i in 0..20 {
        constants.push(ConstantDef {
            name: format!("T{}.1", i),
            sort_name: "task_id".into(),
            aliases: vec![format!("task{}", i)],
        });
    }
    let sig = Signature { types: vec![TypeDef { name: "task_id".into() }], predicates: vec![], constants };
    let matches = find_close_matches("task5", &sig);
    assert!(matches.len() <= 5);
    assert!(matches.iter().any(|m| m.constant == "T5.1"));
}

#[test]
fn test_find_close_matches_by_constant_name() {
    let sig = Signature {
        types: vec![TypeDef { name: "task_id".into() }],
        predicates: vec![],
        constants: vec![task("T1.3", &["implement appconfig"])],
    };
    let matches = find_close_matches("T1.3", &sig);
    assert!(!matches.is_empty());
    assert!(matches.iter().any(|m| m.constant == "T1.3"));
}

#[test]
fn find_close_matches_order_and_cut() {
    let mut constants = Vec::new();
    for i in 0..20 {
        constants.push(ConstantDef {
            name: format!("T{}.1", i),
            sort_name: "task_id".into(),
            aliases: vec![format!("task{}", i)],
        });
    }
    let sig = Signature { types: vec![], predicates: vec![], constants };
    let matches = find_close_matches("task5", &sig);
    let names: Vec<&str> = matches.iter().map(|m| m.constant.as_str()).collect();
    // The exact alias first (1.0), then the one-digit tasks (0.75) in their order.
    assert_eq!(names, vec!["T5.1", "T0.1", "T1.1", "T2.1", "T3.1"]);
    assert_eq!(matches[0].alias, "task5");
    assert_eq!(matches[0].similarity, Similarity { shared: 4, total: 8 });
    assert_eq!(matches[1].similarity, Similarity { shared: 3, total: 8 });
}

#[test]
fn find_close_matches_prefers_name_on_ties() {
    let sig = Signature {
        types: vec![],
        predicates: vec![],
        constants: vec![task("T1.3", &["implement appconfig"])],
    };
    let matches = find_close_matches("T1.3", &sig);
    assert_eq!(matches.len(), 1);
    assert_eq!(matches[0].alias, "T1.3");
    assert_eq!(matches[0].similarity, Similarity { shared: 3, total: 6 });
}

// ── generate_directives ──

#[test]
fn test_generate_directives_grounded() {
    let result = GroundingResult {
        candidates: vec![GroundedAtom {
            predicate: "BEFORE".into(),
            arguments: vec!["T1.1".into(), "T1.2".into()],
            confidence: 95,
        }],
        status: GroundingStatus::Grounded,
    };
    let stmt = stmt("test.md#L1", "T1.1 BEFORE T1.2");
    let sig = Signature { types: vec![], predicates: vec![], constants: vec![] };
    let dirs = generate_directives(&result, &stmt, &sig);
    assert!(dirs.is_empty());
}

#[test]
fn test_generate_directives_ungroundable() {
    let result = GroundingResult { candidates: vec![], status: GroundingStatus::Ungroundable };
    let stmt = stmt("test.md#L1", "The system SHALL be robust");
    let sig = Signature { types: vec![], predicates: vec![], constants: vec![] };
    let dirs = generate_directives(&result, &stmt, &sig);
    assert_eq!(dirs.len(), 1);
    assert_eq!(dirs[0].severity, "blocker");
}

#[test]
fn test_generate_directives_ambiguous() {
    let result = GroundingResult {
        candidates: vec![GroundedAtom {
            predicate: "BEFORE".into(),
            arguments: vec!["T2.1".into(), "T2.2".into()],
            confidence: 72,
        }],
        status: GroundingStatus::Ambiguous,
    };
    let stmt = stmt("test.md#L1", "migration before testing");
    let sig = Signature {
        types: vec![TypeDef { name: "task_id".into() }],
        predicates: vec![],
        constants: vec![task("T2.1", &["migration"]), task("T2.2", &["testing"])],
    };
    let dirs = generate_directives(&result, &stmt, &sig);
    assert!(!dirs.is_empty());
    assert_eq!(dirs[0].severity, "warning");
}

#[test]
fn test_generate_directives_before_one_arg() {
    let result = GroundingResult {
        candidates: vec![GroundedAtom {
            predicate: "BEFORE".into(),
            arguments: vec!["T3.1".into()],
            confidence: 50,
        }],
        status: GroundingStatus::Ambiguous,
    };
    let stmt = stmt("test.md#L1", "T3.1 SHALL complete before any pool is used");
    let sig = Signature {
        types: vec![TypeDef { name: "task_id".into() }],
        predicates: vec![],
        constants: vec![task("T3.1", &["setup"])],
    };
    let dirs = generate_directives(&result, &stmt, &sig);
    assert!(!dirs.is_empty());
    assert!(dirs.iter().any(|d| d.detail.contains("BEFORE requires two")));
}

#[test]
fn generate_directives_exact_texts() {
    let result = GroundingResult {
        candidates: vec![GroundedAtom {
            predicate: "BEFORE".into(),
            arguments: vec!["T2.1".into(), "T2.2".into()],
            confidence: 72,
        }],
        status: GroundingStatus::Ambiguous,
    };
    let s = stmt("test.md#L1", "migration before testing");
    let sig = Signature {
        types: vec![],
        predicates: vec![],
        constants: vec![task("T2.1", &["migration"]), task("T2.2", &["testing"])],
    };
    let dirs = generate_directives(&result, &s, &sig);
    assert_eq!(dirs.len(), 2);
    assert_eq!(dirs[0].element, "test.md#L1");
    assert_eq!(
        dirs[0].detail,
        "Argument 1 matched 'T2.1' via alias 'migration' (confidence: 0.72). Add explicit 'T2.1' to raise confidence."
    );
    assert_eq!(dirs[0].suggested_action, "Replace the NL reference with 'T2.1' or add '(T2.1)' after it.");
    assert_eq!(
        dirs[1].detail,
        "Argument 2 matched 'T2.2' via alias 'testing' (confidence: 0.72). Add explicit 'T2.2' to raise confidence."
    );
    assert!(dirs[1].close_matches.is_none());

    // Named arguments in the text leave only the low-confidence warning.
    let named = stmt("x#L2", "T2.1 before T2.2");
    let dirs = generate_directives(&result, &named, &sig);
    assert_eq!(dirs.len(), 1);
    assert_eq!(dirs[0].detail, "Grounded with low confidence (0.72). Consider using explicit task IDs.");
    assert_eq!(
        dirs[0].suggested_action,
        "Add explicit task ID references (e.g., 'T2.1') to the requirement statement."
    );
}

#[test]
fn generate_directives_blocker_texts() {
    let result = GroundingResult { candidates: vec![], status: GroundingStatus::Ungroundable };
    let sig = plan_sig();
    let s = stmt("s.md#L9", "The deployment is flaky");
    let dirs = generate_directives(&result, &s, &sig);
    assert_eq!(dirs.len(), 1);
    assert_eq!(dirs[0].severity, "blocker");
    assert_eq!(dirs[0].detail, "Could not ground: 'The deployment is flaky'. No matching task or predicate found.");
    assert_eq!(
        dirs[0].suggested_action,
        "Close matches: 'T3.1' (alias: 'deployment'). Use one of these task IDs explicitly in the requirement."
    );
    let ms = dirs[0].close_matches.as_ref().unwrap();
    assert_eq!(ms.len(), 1);
    assert_eq!(ms[0].similarity, Similarity { shared: 9, total: 31 });

    let none = stmt("s.md#L10", "The system SHALL be robust");
    let dirs = generate_directives(&result, &none, &sig);
    assert_eq!(
        dirs[0].suggested_action,
        "Add a task ID reference (e.g., 'T5.1') or a known predicate keyword (BEFORE, AFTER, CONCURRENTLY, IF...THEN, ALWAYS, AT MOST ONE)."
    );
    assert_eq!(dirs[0].close_matches.as_ref().unwrap().len(), 0);
}

// ── requirements, checks, merging, report ──

#[test]
fn extract_requirements_reads_headings_and_bodies() {
    let source = "# Spec\n\n### Requirement: Order\n\nT1.1 SHALL run BEFORE T1.2.\nMore text.\n\n#### Scenario: x\n- WHEN y\n\n### Requirement: Empty\n\n### requirement: Lower\nThe system MUST work. Yes.\n";
    let mut out = vec![stmt("old", "kept")];
    extract_requirements(source, "ordering/reqs.md", &mut out);
    assert_eq!(out.len(), 3);
    assert_eq!(out[0].text, "kept");
    assert_eq!(out[1].source, "ordering/reqs.md#L3");
    assert_eq!(out[1].text, "T1.1 SHALL run BEFORE T1.2");
    assert_eq!(out[2].source, "ordering/reqs.md#L13");
    assert_eq!(out[2].text, "The system MUST work");
}

fn three_statements() -> Vec<Statement> {
    vec![
        stmt("a#L1", "T1.1 SHALL complete BEFORE T1.2 SHALL run"),
        stmt("a#L2", "T3.1 SHALL complete before any pool is used"),
        stmt("a#L3", "The deployment is flaky"),
    ]
}

#[test]
fn check_plan_grounds_each_statement() {
    let sig = plan_sig();
    let out = check_plan("plan", &sig, &three_statements()).unwrap();
    assert_eq!(out.plan_name, "plan");
    assert_eq!(out.signature.tasks, 5);
    assert_eq!(out.signature.predicates, 6);
    assert_eq!(out.signature.types, 1);
    assert_eq!(out.inputs.len(), 3);
    assert_eq!(out.inputs[0].status, GroundingStatus::Grounded);
    assert!(out.inputs[0].directives.is_empty());
    assert_eq!(out.inputs[1].status, GroundingStatus::Ambiguous);
    assert_eq!(out.inputs[1].directives.len(), 1);
    assert_eq!(out.inputs[2].status, GroundingStatus::Ungroundable);
    assert_eq!(out.inputs[2].directives[0].severity, "blocker");
    assert_eq!(out.summary.total, 3);
    assert_eq!(out.summary.grounded, 1);
    assert_eq!(out.summary.ambiguous, 1);
    assert_eq!(out.summary.ungroundable, 1);
    assert!(out.summary.has_issues());
}

#[test]
fn check_plan_refuses_unsliceable_text() {
    let sig = plan_sig();
    let stmts = vec![stmt("a#L1", "T1.1 BEFORE T1.2"), stmt("a#L2", "İbeforeé T1.1")];
    assert!(check_plan("plan", &sig, &stmts).is_none());
}

#[test]
fn merge_outputs_prefixes_and_adds() {
    let sig = plan_sig();
    let a = check_plan("a", &sig, &three_statements()).unwrap();
    let b = check_plan("b", &sig, &vec![stmt("b#L1", "T2.1 and T2.2 SHALL run concurrently")]).unwrap();
    let merged = merge_outputs(&vec![a, b]);
    assert_eq!(merged.plan_name, "a, b");
    assert_eq!(merged.signature.tasks, 0);
    assert_eq!(merged.inputs.len(), 4);
    assert_eq!(merged.inputs[0].source, "a: a#L1");
    assert_eq!(merged.inputs[3].source, "b: b#L1");
    assert_eq!(merged.inputs[3].status, GroundingStatus::Grounded);
    assert_eq!(merged.summary.total, 4);
    assert_eq!(merged.summary.grounded, 2);
    assert_eq!(merged.summary.ambiguous, 1);
    assert_eq!(merged.summary.ungroundable, 1);

    let none = merge_outputs(&vec![]);
    assert_eq!(none.plan_name, "");
    assert_eq!(none.summary.total, 0);

    let single = check_plan("only", &sig, &three_statements()).unwrap();
    let same = merge_outputs(&vec![single]);
    assert_eq!(same.plan_name, "only");
    assert_eq!(same.inputs[0].source, "a#L1");
    assert_eq!(same.signature.tasks, 5);
}

#[test]
fn render_human_groups_successes_then_issues() {
    let sig = plan_sig();
    let out = check_plan("plan", &sig, &three_statements()).unwrap();
    let text = render_human(&out);
    let expected = "\u{2713} a#L1 \u{2192} BEFORE(T1.1, T1.2)\n\
\u{26A0} a#L2\n   \"T3.1 SHALL complete before any pool is used\"\n   \u{2192} BEFORE(T3.1) @ 0.50\n   Suggestion: Add a second task ID after 'BEFORE'. Example: 'T2.1 SHALL complete BEFORE T3.1 SHALL run'.\n\
\u{2717} a#L3\n   \"The deployment is flaky\"\n   Could not ground: 'The deployment is flaky'. No matching task or predicate found.\n   Close matches: 'T3.1' (alias: 'deployment')\n   Suggestion: Close matches: 'T3.1' (alias: 'deployment'). Use one of these task IDs explicitly in the requirement.\n\
Summary: 3 total | 1 grounded | 1 ambiguous | 1 ungroundable\n";
    assert_eq!(text, expected);
}

#[test]
fn render_human_without_issues_has_no_summary() {
    let sig = plan_sig();
    let out = check_plan("plan", &sig, &vec![stmt("a#L1", "T3.1 SHALL ALWAYS be available")]).unwrap();
    assert_eq!(render_human(&out), "\u{2713} a#L1 \u{2192} ALWAYS(T3.1)\n");
}

// ── which files and changes ──

#[test]
fn requirement_files_are_markdown_files() {
    assert!(is_spec_file("md"));
    assert!(!is_spec_file("txt"));
    assert!(!is_spec_file("mdx"));
    assert!(!is_spec_file("MD"));
}

#[test]
fn sort_changes_orders_by_name_stably() {
    let entries = vec![(3, "zeta".to_string()), (1, "alpha".to_string()), (2, "beta".to_string()), (4, "alpha".to_string())];
    let sorted = sort_changes(entries);
    let order: Vec<i32> = sorted.iter().map(|e| e.0).collect();
    assert_eq!(order, vec![1, 4, 2, 3]);
}

#[test]
fn locate_change_tries_places_in_order() {
    let p = |named, direct, project, listing| ChangeProbe { named, direct, project, listing };
    assert_eq!(locate_change(&p(true, true, true, true)), ChangeLocation::Named);
    assert_eq!(locate_change(&p(false, true, true, true)), ChangeLocation::Direct);
    assert_eq!(locate_change(&p(false, false, true, true)), ChangeLocation::ProjectRoot);
    assert_eq!(locate_change(&p(false, false, false, true)), ChangeLocation::ChangesDir);
    assert_eq!(locate_change(&p(false, false, false, false)), ChangeLocation::NotFound);
    assert_eq!(not_found_message("x"), "Change 'x' not found (no tasks.md)");
}
