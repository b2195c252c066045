use groundcontrol::parse::{build_aliases, build_signature, extract_task_id, signature_from_tasks};

#[test]
fn test_extract_task_id_n_m() {
    let (id, desc) = extract_task_id("1.3 Add dependencies");
    assert_eq!(id, "1.3");
    assert_eq!(desc, "1.3 Add dependencies");
}

#[test]
fn test_extract_task_id_t_prefix() {
    let (id, desc) = extract_task_id("T1.3 SHALL complete");
    assert_eq!(id, "1.3");
    assert_eq!(desc, "1.3");
}

#[test]
fn test_extract_task_id_no_match() {
    let (id, desc) = extract_task_id("no task here");
    assert!(id.is_empty());
    assert!(desc.is_empty());
}

#[test]
fn test_extract_task_id_multi_dot() {
    let (id, _desc) = extract_task_id("T10.7 test visualize");
    assert_eq!(id, "10.7");
}

#[test]
fn test_extract_task_id_parenthetical() {
    let (id, desc) = extract_task_id("add connection pooling (T1.3)");
    assert_eq!(id, "1.3");
    assert_eq!(desc, "1.3");
}

#[test]
fn test_extract_task_id_parenthetical_multi() {
    let (id, _desc) = extract_task_id("setup (T1.1) before migration (T2.1)");
    assert_eq!(id, "1.1");
}

#[test]
fn extract_task_id_bare_needs_digits_on_both_sides() {
    let (id, desc) = extract_task_id("1. Setup");
    assert!(id.is_empty());
    assert!(desc.is_empty());
    let (id, desc) = extract_task_id("1.a Setup");
    assert!(id.is_empty());
    assert!(desc.is_empty());
}

#[test]
fn extract_task_id_tag_needs_a_run() {
    // A `T` followed by no digit is skipped; the later tag is taken.
    let (id, desc) = extract_task_id("Then T4 runs");
    assert_eq!(id, "4");
    assert_eq!(desc, "4");
}

#[test]
fn test_build_aliases_full() {
    let aliases = build_aliases("1.1", "Create Rust project with Cargo");
    assert!(aliases.contains(&"create rust project with cargo".to_string()));
    assert!(aliases.contains(&"create rust project".to_string()));
    assert!(aliases.contains(&"create".to_string()));
    assert!(aliases.contains(&"project".to_string()));
    assert!(aliases.contains(&"cargo".to_string()));
    assert!(aliases.contains(&"1.1".to_string()));
}

#[test]
fn test_build_aliases_short_desc() {
    let aliases = build_aliases("2.1", "Setup");
    assert!(aliases.contains(&"setup".to_string()));
    assert!(aliases.contains(&"2.1".to_string()));
    assert!(aliases.contains(&"setup".to_string()));
}

#[test]
fn test_build_aliases_skips_short_words() {
    let aliases = build_aliases("3.1", "a bc def ghij");
    assert!(!aliases.contains(&"a".to_string()));
    assert!(!aliases.contains(&"bc".to_string()));
    assert!(!aliases.contains(&"def".to_string()));
    assert!(!aliases.contains(&"ghij".to_string()));
}

#[test]
fn build_aliases_exact_list() {
    let aliases = build_aliases("1.1", "Create Rust project with Cargo now");
    assert_eq!(
        aliases,
        vec![
            "create rust project with cargo now",
            "create rust project",
            "create rust project with cargo",
            "create",
            "project",
            "cargo",
            "1.1",
        ]
    );
}

#[test]
fn test_signature_from_tasks_basic() {
    let tasks_md = "## 1. Setup\n\n- [ ] 1.1 Create project\n- [x] 1.2 Add deps\n";
    let sig = signature_from_tasks(tasks_md).unwrap();
    assert_eq!(sig.constants.len(), 2);
    assert_eq!(sig.constants[0].name, "T1.1");
    assert_eq!(sig.constants[1].name, "T1.2");
    assert_eq!(sig.predicates.len(), 6);
    assert_eq!(sig.types.len(), 2);
}

#[test]
fn test_signature_from_tasks_with_phases() {
    let tasks_md =
        "## 1. Setup\n\n- [ ] 1.1 Create project\n\n## 2. Core\n\n- [ ] 2.1 Implement core\n- [ ] 2.2 Test core\n";
    let sig = signature_from_tasks(tasks_md).unwrap();
    assert_eq!(sig.constants.len(), 3);
    assert!(sig.constants.iter().any(|c| c.name == "T1.1"));
    assert!(sig.constants.iter().any(|c| c.name == "T2.1"));
    assert!(sig.constants.iter().any(|c| c.name == "T2.2"));
}

#[test]
fn test_signature_from_tasks_empty() {
    let tasks_md = "";
    let result = signature_from_tasks(tasks_md);
    assert!(result.is_ok());
    assert_eq!(result.unwrap().constants.len(), 0);
}

#[test]
fn test_signature_from_tasks_no_checklist() {
    let tasks_md = "# Just a heading\n\nSome text without checkboxes.";
    let sig = signature_from_tasks(tasks_md).unwrap();
    assert_eq!(sig.constants.len(), 0);
}

#[test]
fn test_signature_predicates_have_correct_args() {
    let tasks_md = "- [ ] 1.1 Task\n";
    let sig = signature_from_tasks(tasks_md).unwrap();
    let before = sig.predicates.iter().find(|p| p.name == "BEFORE").unwrap();
    assert_eq!(before.arguments.len(), 2);
    assert_eq!(before.arguments[0].name, "earlier");
    assert_eq!(before.arguments[1].name, "later");

    let always = sig.predicates.iter().find(|p| p.name == "ALWAYS").unwrap();
    assert_eq!(always.arguments.len(), 1);
    assert_eq!(always.arguments[0].name, "target");
}

#[test]
fn test_signature_constants_sorted() {
    let tasks_md = "- [ ] 1.3 Third\n- [ ] 1.1 First\n- [ ] 1.2 Second\n";
    let sig = signature_from_tasks(tasks_md).unwrap();
    assert_eq!(sig.constants[0].name, "T1.1");
    assert_eq!(sig.constants[1].name, "T1.2");
    assert_eq!(sig.constants[2].name, "T1.3");
}

#[test]
fn signature_from_tasks_keeps_aliases_and_sort() {
    let tasks_md = "- [ ] 1.1 Setup database\n- plain item 1.2 Not a task\n";
    let sig = signature_from_tasks(tasks_md).unwrap();
    assert_eq!(sig.constants.len(), 1);
    let c = &sig.constants[0];
    assert_eq!(c.name, "T1.1");
    assert_eq!(c.sort_name, "task_id");
    assert_eq!(c.aliases, vec!["setup database", "setup", "database", "1.1"]);
}

#[test]
fn build_signature_sorts_constants_by_name() {
    let tasks = vec![
        ("2.1".to_string(), "2.1 Core".to_string(), "Core".to_string()),
        ("10.1".to_string(), "10.1 Late".to_string(), "Late".to_string()),
        ("1.1".to_string(), "1.1 Setup".to_string(), "Setup".to_string()),
    ];
    let sig = build_signature(tasks, vec![]);
    let names: Vec<&str> = sig.constants.iter().map(|c| c.name.as_str()).collect();
    assert_eq!(names, vec!["T1.1", "T10.1", "T2.1"]);
    assert_eq!(sig.types.len(), 2);
    assert_eq!(sig.types[0].name, "task_id");
    assert_eq!(sig.types[1].name, "phase_name");
    let names: Vec<&str> = sig.predicates.iter().map(|p| p.name.as_str()).collect();
    assert_eq!(names, vec!["BEFORE", "AFTER", "CONCURRENTLY", "IF_THEN", "ALWAYS", "AT_MOST_ONE"]);
}

#[test]
fn signature_aliases_come_from_the_description_without_its_id() {
    let sig = signature_from_tasks("- [x] 1.3 Add dependencies\n").unwrap();
    assert_eq!(sig.constants.len(), 1);
    let c = &sig.constants[0];
    assert_eq!(c.name, "T1.3");
    assert_eq!(c.sort_name, "task_id");
    assert!(c.aliases.contains(&"add dependencies".to_string()));
    assert_eq!(c.aliases, vec!["add dependencies", "dependencies", "1.3"]);
}

#[test]
fn tagged_task_keeps_its_description() {
    // A `T`-tagged item gives the id as description; nothing is stripped.
    let sig = signature_from_tasks("- [ ] Run the suite (T4.2)\n").unwrap();
    assert_eq!(sig.constants.len(), 1);
    assert_eq!(sig.constants[0].name, "T4.2");
    assert_eq!(sig.constants[0].aliases, vec!["4.2", "4.2"]);
}
