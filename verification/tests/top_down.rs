#![allow(dead_code)]
use mathtutor::event_log::{Event, EventKind, EventPayload};
use mathtutor::graph::{FlatConcept, Graph, Quiz};
use mathtutor::path::PathFile;
use mathtutor::progress::PathProgress;
use mathtutor::types::{Difficulty, Rating, Strategy};
use mathtutor::scheduler::{self, Action, NextMode};
use mathtutor::ids::IdSet;

const PATH_ID: &str = "p_test";
const TS: &str = "2026-05-26T00:00:00Z";

fn quiz(id: &str, difficulty: Difficulty) -> Quiz {
    Quiz { id: id.into(), difficulty, kind: None, question: "q".into(), answer: "a".into(), rubric: None }
}

fn atom(id: &str, prereqs: &[&str], lesson: Option<&str>, quizzes: Vec<Quiz>) -> FlatConcept {
    FlatConcept {
        id: id.into(),
        name: id.into(),
        description: None,
        prerequisites: prereqs.iter().map(|s| (*s).to_string()).collect(),
        children_ids: Vec::new(),
        lesson: lesson.map(String::from),
        quizzes,
    }
}

fn cluster(id: &str, children: &[&str]) -> FlatConcept {
    FlatConcept {
        id: id.into(),
        name: id.into(),
        description: None,
        prerequisites: Vec::new(),
        children_ids: children.iter().map(|s| (*s).to_string()).collect(),
        lesson: None,
        quizzes: Vec::new(),
    }
}

fn empty_atom(id: &str, prereqs: &[&str]) -> FlatConcept {
    atom(id, prereqs, None, Vec::new())
}

fn complete_atom(id: &str, prereqs: &[&str]) -> FlatConcept {
    atom(
        id,
        prereqs,
        Some("body"),
        vec![
            quiz(&format!("{id}.q1"), Difficulty::Easy),
            quiz(&format!("{id}.q2"), Difficulty::Medium),
            quiz(&format!("{id}.q3"), Difficulty::Hard),
        ],
    )
}

fn graph_of(concepts: Vec<FlatConcept>) -> Graph {
    Graph::from_concepts(concepts)
}

fn path_with_strategy(targets: &[&str], strategy: Strategy) -> PathFile {
    PathFile {
        id: PATH_ID.into(),
        goal: "test".into(),
        created_at: TS.into(),
        targets: targets.iter().map(|s| (*s).to_string()).collect(),
        strategy,
    }
}

fn path_with(targets: &[&str]) -> PathFile {
    path_with_strategy(targets, Strategy::BottomUp)
}

fn taught(atom_id: &str) -> Event {
    Event {
        ts: TS.into(),
        kind: EventKind::LessonTaught,
        path: PATH_ID.into(),
        atom: Some(atom_id.into()),
        quiz: None,
        payload: EventPayload::default(),
    }
}

fn authored(atom_id: &str) -> Event {
    Event {
        ts: TS.into(),
        kind: EventKind::LessonAuthored,
        path: PATH_ID.into(),
        atom: Some(atom_id.into()),
        quiz: None,
        payload: EventPayload::default(),
    }
}

fn answered(quiz_id: &str, rating: Rating) -> Event {
    Event {
        ts: TS.into(),
        kind: EventKind::QuizAnswered,
        path: PATH_ID.into(),
        atom: None,
        quiz: Some(quiz_id.into()),
        payload: EventPayload { rating: Some(rating), reason: None, user_answer: None },
    }
}

fn complete_events(atom_id: &str) -> Vec<Event> {
    vec![
        taught(atom_id),
        answered(&format!("{atom_id}.q1"), Rating::Good),
        answered(&format!("{atom_id}.q2"), Rating::Good),
        answered(&format!("{atom_id}.q3"), Rating::Good),
    ]
}

fn progress_of(events: &[Event]) -> PathProgress {
    PathProgress::from_events(events)
}

fn progress_complete(ids: &[&str]) -> PathProgress {
    let mut taught_atoms = IdSet::new();
    let mut correct_quizzes = IdSet::new();
    for id in ids {
        taught_atoms.insert(id);
        for n in 1..=3 {
            correct_quizzes.insert(&format!("{id}.q{n}"));
        }
    }
    PathProgress { taught_atoms, correct_quizzes }
}

fn next_with(g: &Graph, p: &PathFile, targets: &Vec<String>, progress: &PathProgress, subpath: &Vec<String>) -> Action {
    scheduler::next_action(g, p, targets, progress, &Vec::new(), subpath, NextMode::Default)
}

#[test]
fn top_down_presents_target_before_its_prereqs() {
    let g = graph_of(vec![empty_atom("p", &[]), empty_atom("t", &["p"])]);
    let p = path_with_strategy(&["t"], Strategy::TopDown);
    let action = next_with(&g, &p, &p.targets, &PathProgress::default(), &Vec::new());
    assert_eq!(action.atom_id(), Some("t"), "top-down teaches the target first, not its prerequisite");
}

#[test]
fn bottom_up_descends_into_prereqs_first() {
    let g = graph_of(vec![empty_atom("p", &[]), empty_atom("t", &["p"])]);
    let p = path_with_strategy(&["t"], Strategy::BottomUp);
    let action = next_with(&g, &p, &p.targets, &PathProgress::default(), &Vec::new());
    assert_eq!(action.atom_id(), Some("p"), "bottom-up teaches prereqs first");
}

#[test]
fn top_down_subpath_walked_in_order() {
    let g = graph_of(vec![empty_atom("p", &[]), empty_atom("t", &["p"])]);
    let p = path_with_strategy(&["t"], Strategy::TopDown);
    let subpath = vec!["p".to_string(), "t".to_string()];
    let action = next_with(&g, &p, &p.targets, &PathProgress::default(), &subpath);
    assert_eq!(action.atom_id(), Some("p"), "first incomplete subpath atom");
}

#[test]
fn top_down_subpath_advances_when_earlier_atom_complete() {
    let g = graph_of(vec![complete_atom("p", &[]), empty_atom("t", &["p"])]);
    let p = path_with_strategy(&["t"], Strategy::TopDown);
    let subpath = vec!["p".to_string(), "t".to_string()];
    let progress = progress_complete(&["p"]);
    let action = next_with(&g, &p, &p.targets, &progress, &subpath);
    assert_eq!(action.atom_id(), Some("t"), "once `p` is complete the subpath advances to the target");
}

#[test]
fn top_down_drained_subpath_falls_through_to_targets() {
    let g = graph_of(vec![complete_atom("p", &[]), empty_atom("t", &["p"])]);
    let p = path_with_strategy(&["t"], Strategy::TopDown);
    let subpath = vec!["p".to_string()];
    let progress = progress_complete(&["p"]);
    let action = next_with(&g, &p, &p.targets, &progress, &subpath);
    assert_eq!(action.atom_id(), Some("t"), "fall through to remaining targets");
}

#[test]
fn top_down_done_when_targets_complete() {
    let g = graph_of(vec![complete_atom("t", &[])]);
    let p = path_with_strategy(&["t"], Strategy::TopDown);
    let progress = progress_complete(&["t"]);
    let action = next_with(&g, &p, &p.targets, &progress, &Vec::new());
    assert!(matches!(action, Action::Done), "all targets complete → done");
}

#[test]
fn top_down_cluster_target_resolves_to_atomic_children() {
    let g = graph_of(vec![cluster("tx.1", &["tx.1.1", "tx.1.2"]), empty_atom("tx.1.1", &[]), empty_atom("tx.1.2", &[])]);
    let p = path_with_strategy(&["tx.1"], Strategy::TopDown);
    let targets = p.resolve_targets(&g).unwrap();
    assert_eq!(targets, vec!["tx.1.1".to_string(), "tx.1.2".to_string()]);
    let action = next_with(&g, &p, &targets, &PathProgress::default(), &Vec::new());
    assert_eq!(action.atom_id(), Some("tx.1.1"), "top-down descends a cluster target to its first atomic child");
}
