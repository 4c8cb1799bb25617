#![allow(dead_code)]
use mathtutor::event_log::{Event, EventKind, EventPayload};
use mathtutor::graph::{FlatConcept, Graph, Quiz};
use mathtutor::path::PathFile;
use mathtutor::progress::PathProgress;
use mathtutor::types::{Difficulty, Rating, Strategy};
use mathtutor::syllabus;

const PATH_ID: &str = "p_test";
const TS: &str = "2026-05-26T00:00:00Z";

fn quiz(id: &str, difficulty: Difficulty) -> Quiz {
    Quiz { id: id.into(), difficulty, kind: None, question: "q".into(), answer: "a".into(), rubric: None }
}

fn atom(id: &str, prereqs: &[&str], lesson: Option<&str>, quizzes: Vec<Quiz>) -> FlatConcept {
    FlatConcept {
        id: id.into(),
        name: id.into(),
        description: None,
        prerequisites: prereqs.iter().map(|s| (*s).to_string()).collect(),
        children_ids: Vec::new(),
        lesson: lesson.map(String::from),
        quizzes,
    }
}

fn cluster(id: &str, children: &[&str]) -> FlatConcept {
    FlatConcept {
        id: id.into(),
        name: id.into(),
        description: None,
        prerequisites: Vec::new(),
        children_ids: children.iter().map(|s| (*s).to_string()).collect(),
        lesson: None,
        quizzes: Vec::new(),
    }
}

fn empty_atom(id: &str, prereqs: &[&str]) -> FlatConcept {
    atom(id, prereqs, None, Vec::new())
}

fn complete_atom(id: &str, prereqs: &[&str]) -> FlatConcept {
    atom(
        id,
        prereqs,
        Some("body"),
        vec![
            quiz(&format!("{id}.q1"), Difficulty::Easy),
            quiz(&format!("{id}.q2"), Difficulty::Medium),
            quiz(&format!("{id}.q3"), Difficulty::Hard),
        ],
    )
}

fn graph_of(concepts: Vec<FlatConcept>) -> Graph {
    Graph::from_concepts(concepts)
}

fn path_with_strategy(targets: &[&str], strategy: Strategy) -> PathFile {
    PathFile {
        id: PATH_ID.into(),
        goal: "test".into(),
        created_at: TS.into(),
        targets: targets.iter().map(|s| (*s).to_string()).collect(),
        strategy,
    }
}

fn path_with(targets: &[&str]) -> PathFile {
    path_with_strategy(targets, Strategy::BottomUp)
}

fn taught(atom_id: &str) -> Event {
    Event {
        ts: TS.into(),
        kind: EventKind::LessonTaught,
        path: PATH_ID.into(),
        atom: Some(atom_id.into()),
        quiz: None,
        payload: EventPayload::default(),
    }
}

fn authored(atom_id: &str) -> Event {
    Event {
        ts: TS.into(),
        kind: EventKind::LessonAuthored,
        path: PATH_ID.into(),
        atom: Some(atom_id.into()),
        quiz: None,
        payload: EventPayload::default(),
    }
}

fn answered(quiz_id: &str, rating: Rating) -> Event {
    Event {
        ts: TS.into(),
        kind: EventKind::QuizAnswered,
        path: PATH_ID.into(),
        atom: None,
        quiz: Some(quiz_id.into()),
        payload: EventPayload { rating: Some(rating), reason: None, user_answer: None },
    }
}

fn complete_events(atom_id: &str) -> Vec<Event> {
    vec![
        taught(atom_id),
        answered(&format!("{atom_id}.q1"), Rating::Good),
        answered(&format!("{atom_id}.q2"), Rating::Good),
        answered(&format!("{atom_id}.q3"), Rating::Good),
    ]
}

fn progress_of(events: &[Event]) -> PathProgress {
    PathProgress::from_events(events)
}

fn named_atom(id: &str, prereqs: &[&str]) -> FlatConcept {
    FlatConcept {
        id: id.into(),
        name: format!("Atom {id}"),
        description: Some(format!("desc {id}")),
        prerequisites: prereqs.iter().map(|s| (*s).to_string()).collect(),
        children_ids: Vec::new(),
        lesson: None,
        quizzes: Vec::new(),
    }
}

#[test]
fn empty_targets_yield_empty_syllabus() {
    let g = graph_of(vec![]);
    let p = path_with(&[]);
    assert!(syllabus::upcoming_atoms(&g, &p, &[]).is_empty());
}

#[test]
fn single_untaught_target_appears() {
    let g = graph_of(vec![named_atom("a", &[])]);
    let p = path_with(&["a"]);
    assert_eq!(syllabus::upcoming_atoms(&g, &p, &[]), vec!["a".to_string()]);
}

#[test]
fn taught_target_is_skipped() {
    let g = graph_of(vec![named_atom("a", &[])]);
    let p = path_with(&["a"]);
    let events = vec![taught("a")];
    assert!(syllabus::upcoming_atoms(&g, &p, &events).is_empty());
}

#[test]
fn lesson_authored_event_counts_as_taught() {
    let g = graph_of(vec![named_atom("a", &[])]);
    let p = path_with(&["a"]);
    let events = vec![authored("a")];
    assert!(syllabus::upcoming_atoms(&g, &p, &events).is_empty());
}

#[test]
fn prereq_appears_before_target() {
    let g = graph_of(vec![named_atom("pre", &[]), named_atom("target", &["pre"])]);
    let p = path_with(&["target"]);
    assert_eq!(syllabus::upcoming_atoms(&g, &p, &[]), vec!["pre".to_string(), "target".to_string()]);
}

#[test]
fn taught_prereq_is_skipped_but_target_remains() {
    let g = graph_of(vec![named_atom("pre", &[]), named_atom("target", &["pre"])]);
    let p = path_with(&["target"]);
    let events = vec![taught("pre")];
    assert_eq!(syllabus::upcoming_atoms(&g, &p, &events), vec!["target".to_string()]);
}

#[test]
fn diamond_prereq_appears_once() {
    let g = graph_of(vec![
        named_atom("tx.1", &["a", "b"]),
        named_atom("a", &["c"]),
        named_atom("b", &["c"]),
        named_atom("c", &[]),
    ]);
    let p = path_with(&["tx.1"]);
    let order = syllabus::upcoming_atoms(&g, &p, &[]);
    assert_eq!(order.iter().filter(|x| *x == "c").count(), 1);
    let pos = |id: &str| order.iter().position(|x| x == id).unwrap();
    assert!(pos("c") < pos("a"));
    assert!(pos("c") < pos("b"));
    assert!(pos("a") < pos("tx.1"));
    assert!(pos("b") < pos("tx.1"));
}

#[test]
fn cluster_target_expands_to_atomic_children() {
    let g = graph_of(vec![cluster("la.2", &["la.2.1", "la.2.2"]), named_atom("la.2.1", &[]), named_atom("la.2.2", &[])]);
    let p = path_with(&["la.2"]);
    let order = syllabus::upcoming_atoms(&g, &p, &[]);
    assert!(!order.contains(&"la.2".to_string()));
    assert!(order.contains(&"la.2.1".to_string()));
    assert!(order.contains(&"la.2.2".to_string()));
}

#[test]
fn multiple_targets_walked_in_order() {
    let g = graph_of(vec![named_atom("a", &[]), named_atom("b", &[])]);
    let p = path_with(&["a", "b"]);
    assert_eq!(syllabus::upcoming_atoms(&g, &p, &[]), vec!["a".to_string(), "b".to_string()]);
}

#[test]
fn missing_id_is_silently_skipped() {
    let g = graph_of(vec![named_atom("a", &[])]);
    let p = path_with(&["a", "ghost"]);
    assert_eq!(syllabus::upcoming_atoms(&g, &p, &[]), vec!["a".to_string()]);
}

#[test]
fn n_truncates_atoms_but_total_remaining_is_full_count() {
    let g = graph_of(vec![named_atom("a", &[]), named_atom("b", &[]), named_atom("c", &[]), named_atom("d", &[])]);
    let p = path_with(&["a", "b", "c", "d"]);
    let upcoming = syllabus::upcoming_atoms(&g, &p, &[]);
    assert_eq!(upcoming.len(), 4);
    let n = 2;
    let truncated: Vec<_> = upcoming.iter().take(n).cloned().collect();
    assert_eq!(truncated, vec!["a".to_string(), "b".to_string()]);
}
