#![allow(dead_code)]
use mathtutor::event_log::{Event, EventKind, EventPayload};
use mathtutor::graph::{FlatConcept, Graph, Quiz};
use mathtutor::path::PathFile;
use mathtutor::progress::PathProgress;
use mathtutor::types::{Difficulty, Rating, Strategy};
use mathtutor::ids::IdSet;
use mathtutor::tree::{build_spine, state_badge};

const PATH_ID: &str = "p_test";
const TS: &str = "2026-05-26T00:00:00Z";

fn quiz(id: &str, difficulty: Difficulty) -> Quiz {
    Quiz { id: id.into(), difficulty, kind: None, question: "q".into(), answer: "a".into(), rubric: None }
}

fn atom(id: &str, prereqs: &[&str], lesson: Option<&str>, quizzes: Vec<Quiz>) -> FlatConcept {
    FlatConcept {
        id: id.into(),
        name: id.into(),
        description: None,
        prerequisites: prereqs.iter().map(|s| (*s).to_string()).collect(),
        children_ids: Vec::new(),
        lesson: lesson.map(String::from),
        quizzes,
    }
}

fn cluster(id: &str, children: &[&str]) -> FlatConcept {
    FlatConcept {
        id: id.into(),
        name: id.into(),
        description: None,
        prerequisites: Vec::new(),
        children_ids: children.iter().map(|s| (*s).to_string()).collect(),
        lesson: None,
        quizzes: Vec::new(),
    }
}

fn empty_atom(id: &str, prereqs: &[&str]) -> FlatConcept {
    atom(id, prereqs, None, Vec::new())
}

fn complete_atom(id: &str, prereqs: &[&str]) -> FlatConcept {
    atom(
        id,
        prereqs,
        Some("body"),
        vec![
            quiz(&format!("{id}.q1"), Difficulty::Easy),
            quiz(&format!("{id}.q2"), Difficulty::Medium),
            quiz(&format!("{id}.q3"), Difficulty::Hard),
        ],
    )
}

fn graph_of(concepts: Vec<FlatConcept>) -> Graph {
    Graph::from_concepts(concepts)
}

fn path_with_strategy(targets: &[&str], strategy: Strategy) -> PathFile {
    PathFile {
        id: PATH_ID.into(),
        goal: "test".into(),
        created_at: TS.into(),
        targets: targets.iter().map(|s| (*s).to_string()).collect(),
        strategy,
    }
}

fn path_with(targets: &[&str]) -> PathFile {
    path_with_strategy(targets, Strategy::BottomUp)
}

fn taught(atom_id: &str) -> Event {
    Event {
        ts: TS.into(),
        kind: EventKind::LessonTaught,
        path: PATH_ID.into(),
        atom: Some(atom_id.into()),
        quiz: None,
        payload: EventPayload::default(),
    }
}

fn authored(atom_id: &str) -> Event {
    Event {
        ts: TS.into(),
        kind: EventKind::LessonAuthored,
        path: PATH_ID.into(),
        atom: Some(atom_id.into()),
        quiz: None,
        payload: EventPayload::default(),
    }
}

fn answered(quiz_id: &str, rating: Rating) -> Event {
    Event {
        ts: TS.into(),
        kind: EventKind::QuizAnswered,
        path: PATH_ID.into(),
        atom: None,
        quiz: Some(quiz_id.into()),
        payload: EventPayload { rating: Some(rating), reason: None, user_answer: None },
    }
}

fn complete_events(atom_id: &str) -> Vec<Event> {
    vec![
        taught(atom_id),
        answered(&format!("{atom_id}.q1"), Rating::Good),
        answered(&format!("{atom_id}.q2"), Rating::Good),
        answered(&format!("{atom_id}.q3"), Rating::Good),
    ]
}

fn progress_of(events: &[Event]) -> PathProgress {
    PathProgress::from_events(events)
}

#[test]
fn badge_empty_when_nothing_stored() {
    let a = atom("a", &[], None, vec![]);
    assert_eq!(state_badge(&PathProgress::default(), &a), "[····]");
}

#[test]
fn badge_lesson_slot_only_lights_up_after_taught() {
    let a = atom("a", &[], Some("body"), vec![]);
    assert_eq!(state_badge(&PathProgress::default(), &a), "[····]");
    let events = vec![taught("a")];
    assert_eq!(state_badge(&progress_of(&events), &a), "[L···]");
}

#[test]
fn badge_lowercase_when_quiz_authored_but_unanswered() {
    let a = atom("a", &[], Some("body"), vec![quiz("a.q1", Difficulty::Easy), quiz("a.q2", Difficulty::Medium)]);
    let events = vec![taught("a")];
    assert_eq!(state_badge(&progress_of(&events), &a), "[Lem·]");
}

#[test]
fn badge_uppercase_when_quiz_answered_correctly() {
    let a = atom(
        "a",
        &[],
        Some("body"),
        vec![quiz("a.q1", Difficulty::Easy), quiz("a.q2", Difficulty::Medium), quiz("a.q3", Difficulty::Hard)],
    );
    let events = vec![
        taught("a"),
        answered("a.q1", Rating::Good),
        answered("a.q2", Rating::Easy),
        answered("a.q3", Rating::Again),
    ];
    assert_eq!(state_badge(&progress_of(&events), &a), "[LEMh]");
}

#[test]
fn spine_includes_atoms_and_existing_ancestors() {
    let g = graph_of(vec![cluster("la.5", &["la.5.4"]), cluster("la.5.4", &["la.5.4.7"]), empty_atom("la.5.4.7", &[])]);
    let mut atoms = IdSet::new();
    atoms.insert("la.5.4.7");
    let spine = build_spine(&g, &atoms);
    assert!(spine.contains("la.5.4.7"));
    assert!(spine.contains("la.5.4"));
    assert!(spine.contains("la.5"));
    assert!(!spine.contains("la"));
}
