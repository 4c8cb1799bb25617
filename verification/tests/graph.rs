#![allow(dead_code)]
use mathtutor::check::{check_curriculum, CheckReport};
use mathtutor::curriculum::{AreaFile, ManifestArea, Node};
use mathtutor::graph::{FlatConcept, Graph, Quiz};
use mathtutor::types::Difficulty;
use mathtutor::Error;

fn quiz(id: &str, difficulty: Difficulty) -> Quiz {
    Quiz { id: id.into(), difficulty, kind: None, question: "q".into(), answer: "a".into(), rubric: None }
}

fn atom(id: &str, prereqs: &[&str], lesson: Option<&str>, quizzes: Vec<Quiz>) -> FlatConcept {
    FlatConcept {
        id: id.into(),
        name: id.into(),
        description: None,
        prerequisites: prereqs.iter().map(|s| (*s).to_string()).collect(),
        children_ids: Vec::new(),
        lesson: lesson.map(String::from),
        quizzes,
    }
}

fn empty_atom(id: &str, prereqs: &[&str]) -> FlatConcept {
    atom(id, prereqs, None, Vec::new())
}

fn cluster(id: &str, children: &[&str]) -> FlatConcept {
    FlatConcept {
        id: id.into(),
        name: id.into(),
        description: None,
        prerequisites: Vec::new(),
        children_ids: children.iter().map(|s| (*s).to_string()).collect(),
        lesson: None,
        quizzes: Vec::new(),
    }
}

fn graph_of(concepts: Vec<FlatConcept>) -> Graph {
    Graph::from_concepts(concepts)
}

fn graph_with_quiz(atom_id: &str, quiz_id: &str) -> Graph {
    graph_of(vec![atom(atom_id, &[], Some("body"), vec![quiz(quiz_id, Difficulty::Easy)])])
}

fn node(id: &str, name: &str, description: Option<&str>, prereqs: &[&str], children: Option<Vec<Node>>, terminal: bool) -> Node {
    Node {
        id: id.into(),
        name: name.into(),
        description: description.map(String::from),
        prerequisites: prereqs.iter().map(|s| (*s).to_string()).collect(),
        children,
        lesson: None,
        quizzes: None,
        relevant_for: Vec::new(),
        tags: Vec::new(),
        status: None,
        difficulty: None,
        terminal,
    }
}

/// A one-area curriculum whose area file holds `children`, checked.
fn check_area(children: Vec<Node>) -> CheckReport {
    let entries = vec![ManifestArea {
        prefix: "ta".into(),
        slug: "test-area".into(),
        file: "areas/test.ayml".into(),
        summary: "t".into(),
    }];
    let area = AreaFile {
        schema_version: 2,
        area: "test-area".into(),
        prefix: "ta".into(),
        summary: "t".into(),
        motivation: "t".into(),
        cross_references: Vec::new(),
        topics: None,
        children: Some(children),
    };
    check_curriculum(&entries, vec![Ok(area)])
}

fn orphan_ids(report: &CheckReport) -> Vec<String> {
    report.issues.iter().filter(|i| i.message.starts_with("orphan atom")).filter_map(|i| i.node.clone()).collect()
}

#[test]
fn quiz_returns_atom_and_quiz_for_valid_id() {
    let g = graph_with_quiz("fnd.1.1.1", "fnd.1.1.1.q1");
    let (a, q) = g.quiz("fnd.1.1.1.q1").expect("valid");
    assert_eq!(a.id, "fnd.1.1.1");
    assert_eq!(q.id, "fnd.1.1.1.q1");
}

#[test]
fn quiz_rejects_malformed_id() {
    let g = graph_with_quiz("fnd.1.1.1", "fnd.1.1.1.q1");
    assert!(matches!(g.quiz("fnd.1.1.1"), Err(Error::UnknownId(_))));
}

#[test]
fn quiz_rejects_unknown_atom() {
    let g = graph_with_quiz("fnd.1.1.1", "fnd.1.1.1.q1");
    assert!(matches!(g.quiz("nope.1.q1"), Err(Error::AtomNotFound(_))));
}

#[test]
fn quiz_rejects_unknown_quiz_on_known_atom() {
    let g = graph_with_quiz("fnd.1.1.1", "fnd.1.1.1.q1");
    assert!(matches!(g.quiz("fnd.1.1.1.q9"), Err(Error::UnknownId(_))));
}

#[test]
fn atom_accepts_leaf_concept() {
    let g = graph_with_quiz("fnd.1.1.1", "fnd.1.1.1.q1");
    let a = g.atom("fnd.1.1.1").expect("valid");
    assert_eq!(a.id, "fnd.1.1.1");
}

#[test]
fn atom_rejects_cluster() {
    let g = graph_of(vec![cluster("fnd.1", &["fnd.1.1"])]);
    assert!(matches!(g.atom("fnd.1"), Err(Error::NotAtom(_))));
}

#[test]
fn atom_rejects_unknown_id() {
    let g = graph_with_quiz("fnd.1.1.1", "fnd.1.1.1.q1");
    assert!(matches!(g.atom("nope"), Err(Error::AtomNotFound(_))));
}

#[test]
fn graph_reachable_includes_transitive_prereqs() {
    let g = graph_of(vec![
        empty_atom("tx.1.1", &["la.2.2", "fnd.2.3.1"]),
        empty_atom("la.2.2", &["la.1.1"]),
        empty_atom("la.1.1", &[]),
        empty_atom("fnd.2.3.1", &[]),
    ]);
    let reach = g.reachable_atoms(&["tx.1.1".to_string()]);
    assert!(reach.contains("tx.1.1"));
    assert!(reach.contains("la.2.2"));
    assert!(reach.contains("la.1.1"));
    assert!(reach.contains("fnd.2.3.1"));
}

#[test]
fn graph_reachable_expands_cluster_prereqs_to_their_atoms() {
    let g = graph_of(vec![
        empty_atom("tx.1.1", &["la.2.2"]),
        cluster("la.2.2", &["la.2.2.1", "la.2.2.2"]),
        empty_atom("la.2.2.1", &[]),
        empty_atom("la.2.2.2", &[]),
    ]);
    let reach = g.reachable_atoms(&["tx.1.1".to_string()]);
    assert!(reach.contains("tx.1.1"));
    assert!(reach.contains("la.2.2.1"));
    assert!(reach.contains("la.2.2.2"));
    assert!(!reach.contains("la.2.2"));
}

#[test]
fn graph_reachable_handles_diamond_without_looping() {
    let g = graph_of(vec![
        empty_atom("tx.1", &["a", "b"]),
        empty_atom("a", &["c"]),
        empty_atom("b", &["c"]),
        empty_atom("c", &[]),
    ]);
    let reach = g.reachable_atoms(&["tx.1".to_string()]);
    assert_eq!(reach.len(), 4);
}

#[test]
fn orphan_check_flags_unreferenced_atom() {
    let report = check_area(vec![node(
        "ta.1",
        "cluster",
        None,
        &[],
        Some(vec![node("ta.1.1", "lonely atom", Some("nobody cites me"), &[], None, false)]),
        false,
    )]);
    assert_eq!(orphan_ids(&report), vec!["ta.1.1".to_string()]);
    let msg = &report.issues.iter().find(|i| i.node.as_deref() == Some("ta.1.1")).expect("issue").message;
    assert!(msg.contains("lonely atom"), "got: {msg}");
}

#[test]
fn orphan_check_skips_terminal_atoms() {
    let report = check_area(vec![node(
        "ta.1",
        "cluster",
        None,
        &[],
        Some(vec![node("ta.1.1", "culminating topic", Some("end of the line, by design"), &[], None, true)]),
        false,
    )]);
    assert!(orphan_ids(&report).is_empty(), "terminal:true must suppress: {:?}", report.issues);
}

#[test]
fn orphan_check_clears_when_referenced_as_prereq() {
    let report = check_area(vec![node(
        "ta.1",
        "cluster",
        None,
        &[],
        Some(vec![
            node("ta.1.1", "foundational", Some("cited downstream"), &[], None, false),
            node("ta.1.2", "builds on it", Some("top of the chain"), &["ta.1.1"], None, false),
        ]),
        false,
    )]);
    assert_eq!(orphan_ids(&report), vec!["ta.1.2".to_string()]);
}

#[test]
fn orphan_check_does_not_flag_clusters() {
    let report = check_area(vec![node(
        "ta.1",
        "cluster",
        None,
        &[],
        Some(vec![node("ta.1.1", "only atom", Some("keeps things minimal"), &[], None, true)]),
        false,
    )]);
    assert!(orphan_ids(&report).is_empty(), "{:?}", report.issues);
}

#[test]
fn orphan_check_cluster_prereq_covers_descendant_atoms() {
    let report = check_area(vec![
        node(
            "ta.1",
            "covered cluster",
            None,
            &[],
            Some(vec![
                node("ta.1.1", "cluster child A", Some("nothing cites this atom directly"), &[], None, false),
                node("ta.1.2", "cluster child B", Some("nothing cites this atom directly"), &[], None, false),
            ]),
            false,
        ),
        node(
            "ta.2",
            "downstream cluster",
            None,
            &[],
            Some(vec![node(
                "ta.2.1",
                "cites the cluster",
                Some("pulls in the whole prereq topic at once"),
                &["ta.1"],
                None,
                true,
            )]),
            false,
        ),
    ]);
    assert!(orphan_ids(&report).is_empty(), "{:?}", report.issues);
}
