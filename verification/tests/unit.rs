use mathtutor::answer::atom_from_quiz_id;
use mathtutor::db::{DbConfig, SyncConfig};
use mathtutor::event_log::{Event, EventKind, EventPayload};
use mathtutor::graph::{FlatConcept, Graph, Quiz};
use mathtutor::ids::IdSet;
use mathtutor::progress::PathProgress;
use mathtutor::tree::{build_spine, natural_id_key, parent_id, reachable_atoms, state_badge};
use mathtutor::types::{Difficulty, Rating};

fn cluster(id: &str, children: &[&str]) -> FlatConcept {
    FlatConcept {
        id: id.into(),
        name: id.into(),
        description: None,
        prerequisites: Vec::new(),
        children_ids: children.iter().map(|s| (*s).to_string()).collect(),
        lesson: None,
        quizzes: Vec::new(),
    }
}

fn atom(id: &str, prereqs: &[&str], lesson: Option<&str>, quizzes: Vec<Quiz>) -> FlatConcept {
    FlatConcept {
        id: id.into(),
        name: id.into(),
        description: None,
        prerequisites: prereqs.iter().map(|s| (*s).to_string()).collect(),
        children_ids: Vec::new(),
        lesson: lesson.map(String::from),
        quizzes,
    }
}

fn graph_of(concepts: Vec<FlatConcept>) -> Graph {
    Graph::from_concepts(concepts)
}

#[test]
fn atom_from_quiz_id_strips_q_suffix() {
    assert_eq!(atom_from_quiz_id("fnd.1.1.1.q3").as_deref(), Some("fnd.1.1.1"));
    assert_eq!(atom_from_quiz_id("no-dot-q-here"), None);
}

#[test]
fn sync_config_requires_both_fields_non_empty() {
    let cfg = SyncConfig::new("libsql://example.turso.io".into(), "secret".into()).expect("both set");
    assert_eq!(cfg.url, "libsql://example.turso.io");
    assert_eq!(cfg.auth_token, "secret");

    assert!(SyncConfig::new(String::new(), "secret".into()).is_none());
    assert!(SyncConfig::new("libsql://x".into(), String::new()).is_none());
    assert!(SyncConfig::new(String::new(), String::new()).is_none());
}

#[test]
fn db_config_local_has_no_sync() {
    let cfg = DbConfig::local("/tmp/never-opened.db".to_string());
    assert!(cfg.sync.is_none());
    assert_eq!(cfg.local_path, "/tmp/never-opened.db");
}

#[test]
fn natural_id_key_sorts_tx_2_before_tx_10() {
    let mut ids = vec!["tx.10", "tx.2", "tx.1"];
    ids.sort_by_key(|id| natural_id_key(id));
    assert_eq!(ids, vec!["tx.1", "tx.2", "tx.10"]);
}

#[test]
fn parent_id_drops_last_segment() {
    assert_eq!(parent_id("la.5.4.7"), Some("la.5.4"));
    assert_eq!(parent_id("la.5"), Some("la"));
    assert_eq!(parent_id("la"), None);
}

#[test]
fn tree_reachable_includes_transitive_prereqs() {
    let g = graph_of(vec![
        atom("tx.1.1", &["la.2.2", "fnd.2.3.1"], None, vec![]),
        atom("la.2.2", &["la.1.1"], None, vec![]),
        atom("la.1.1", &[], None, vec![]),
        atom("fnd.2.3.1", &[], None, vec![]),
    ]);
    let reach = reachable_atoms(&g, &["tx.1.1".to_string()]);
    assert!(reach.contains("tx.1.1"));
    assert!(reach.contains("la.2.2"));
    assert!(reach.contains("la.1.1"));
    assert!(reach.contains("fnd.2.3.1"));
}

#[test]
fn tree_reachable_expands_cluster_prereqs_to_their_atoms() {
    let g = graph_of(vec![
        atom("tx.1.1", &["la.2.2"], None, vec![]),
        cluster("la.2.2", &["la.2.2.1", "la.2.2.2"]),
        atom("la.2.2.1", &[], None, vec![]),
        atom("la.2.2.2", &[], None, vec![]),
    ]);
    let reach = reachable_atoms(&g, &["tx.1.1".to_string()]);
    assert!(reach.contains("tx.1.1"));
    assert!(reach.contains("la.2.2.1"));
    assert!(reach.contains("la.2.2.2"));
    assert!(!reach.contains("la.2.2"));
}

#[test]
fn tree_reachable_handles_diamond_without_looping() {
    let g = graph_of(vec![
        atom("tx.1", &["a", "b"], None, vec![]),
        atom("a", &["c"], None, vec![]),
        atom("b", &["c"], None, vec![]),
        atom("c", &[], None, vec![]),
    ]);
    let reach = reachable_atoms(&g, &["tx.1".to_string()]);
    assert_eq!(reach.len(), 4);
}

#[test]
fn build_spine_includes_atoms_and_existing_ancestors() {
    let g = graph_of(vec![
        cluster("la.5", &["la.5.4"]),
        cluster("la.5.4", &["la.5.4.7"]),
        atom("la.5.4.7", &[], None, vec![]),
    ]);
    let mut atoms = IdSet::new();
    atoms.insert("la.5.4.7");
    let spine = build_spine(&g, &atoms);
    assert!(spine.contains("la.5.4.7"));
    assert!(spine.contains("la.5.4"));
    assert!(spine.contains("la.5"));
    assert!(!spine.contains("la"));
}

#[test]
fn state_badge_empty_when_nothing_stored() {
    let a = atom("a", &[], None, vec![]);
    assert_eq!(state_badge(&PathProgress::default(), &a), "[····]");
}

fn quiz(id: &str, difficulty: Difficulty) -> Quiz {
    Quiz { id: id.into(), difficulty, kind: None, question: "q".into(), answer: "a".into(), rubric: None }
}

fn taught(atom_id: &str) -> Event {
    Event {
        ts: "2026-05-26T00:00:00Z".into(),
        kind: EventKind::LessonTaught,
        path: "p_test".into(),
        atom: Some(atom_id.into()),
        quiz: None,
        payload: EventPayload::default(),
    }
}

fn answered(quiz_id: &str, rating: Rating) -> Event {
    Event {
        ts: "2026-05-26T00:00:00Z".into(),
        kind: EventKind::QuizAnswered,
        path: "p_test".into(),
        atom: None,
        quiz: Some(quiz_id.into()),
        payload: EventPayload { rating: Some(rating), reason: None, user_answer: None },
    }
}

#[test]
fn state_badge_lesson_slot_only_lights_up_after_taught() {
    let a = atom("a", &[], Some("body"), vec![]);
    assert_eq!(state_badge(&PathProgress::default(), &a), "[····]");
    let events = vec![taught("a")];
    assert_eq!(state_badge(&PathProgress::from_events(&events), &a), "[L···]");
}

#[test]
fn state_badge_lowercase_when_quiz_authored_but_unanswered() {
    let a = atom("a", &[], Some("body"), vec![quiz("a.q1", Difficulty::Easy), quiz("a.q2", Difficulty::Medium)]);
    let events = vec![taught("a")];
    assert_eq!(state_badge(&PathProgress::from_events(&events), &a), "[Lem·]");
}

#[test]
fn state_badge_uppercase_when_quiz_answered_correctly() {
    let a = atom(
        "a",
        &[],
        Some("body"),
        vec![quiz("a.q1", Difficulty::Easy), quiz("a.q2", Difficulty::Medium), quiz("a.q3", Difficulty::Hard)],
    );
    let events = vec![
        taught("a"),
        answered("a.q1", Rating::Good),
        answered("a.q2", Rating::Easy),
        answered("a.q3", Rating::Again),
    ];
    assert_eq!(state_badge(&PathProgress::from_events(&events), &a), "[LEMh]");
}

#[test]
fn state_badge_lowercase_quiz_before_lesson_taught() {
    let a = atom("a", &[], Some("body"), vec![quiz("a.q1", Difficulty::Easy)]);
    assert_eq!(state_badge(&PathProgress::default(), &a), "[·e··]");
}
