#![allow(dead_code)]
use mathtutor::event_log::{Event, EventKind, EventPayload};
use mathtutor::graph::{FlatConcept, Graph, Quiz};
use mathtutor::path::PathFile;
use mathtutor::progress::PathProgress;
use mathtutor::types::{Difficulty, Rating, Strategy};
use mathtutor::state;

const PATH_ID: &str = "p_test";
const TS: &str = "2026-05-26T00:00:00Z";

fn quiz(id: &str, difficulty: Difficulty) -> Quiz {
    Quiz { id: id.into(), difficulty, kind: None, question: "q".into(), answer: "a".into(), rubric: None }
}

fn atom(id: &str, prereqs: &[&str], lesson: Option<&str>, quizzes: Vec<Quiz>) -> FlatConcept {
    FlatConcept {
        id: id.into(),
        name: id.into(),
        description: None,
        prerequisites: prereqs.iter().map(|s| (*s).to_string()).collect(),
        children_ids: Vec::new(),
        lesson: lesson.map(String::from),
        quizzes,
    }
}

fn cluster(id: &str, children: &[&str]) -> FlatConcept {
    FlatConcept {
        id: id.into(),
        name: id.into(),
        description: None,
        prerequisites: Vec::new(),
        children_ids: children.iter().map(|s| (*s).to_string()).collect(),
        lesson: None,
        quizzes: Vec::new(),
    }
}

fn empty_atom(id: &str, prereqs: &[&str]) -> FlatConcept {
    atom(id, prereqs, None, Vec::new())
}

fn complete_atom(id: &str, prereqs: &[&str]) -> FlatConcept {
    atom(
        id,
        prereqs,
        Some("body"),
        vec![
            quiz(&format!("{id}.q1"), Difficulty::Easy),
            quiz(&format!("{id}.q2"), Difficulty::Medium),
            quiz(&format!("{id}.q3"), Difficulty::Hard),
        ],
    )
}

fn graph_of(concepts: Vec<FlatConcept>) -> Graph {
    Graph::from_concepts(concepts)
}

fn path_with_strategy(targets: &[&str], strategy: Strategy) -> PathFile {
    PathFile {
        id: PATH_ID.into(),
        goal: "test".into(),
        created_at: TS.into(),
        targets: targets.iter().map(|s| (*s).to_string()).collect(),
        strategy,
    }
}

fn path_with(targets: &[&str]) -> PathFile {
    path_with_strategy(targets, Strategy::BottomUp)
}

fn taught(atom_id: &str) -> Event {
    Event {
        ts: TS.into(),
        kind: EventKind::LessonTaught,
        path: PATH_ID.into(),
        atom: Some(atom_id.into()),
        quiz: None,
        payload: EventPayload::default(),
    }
}

fn authored(atom_id: &str) -> Event {
    Event {
        ts: TS.into(),
        kind: EventKind::LessonAuthored,
        path: PATH_ID.into(),
        atom: Some(atom_id.into()),
        quiz: None,
        payload: EventPayload::default(),
    }
}

fn answered(quiz_id: &str, rating: Rating) -> Event {
    Event {
        ts: TS.into(),
        kind: EventKind::QuizAnswered,
        path: PATH_ID.into(),
        atom: None,
        quiz: Some(quiz_id.into()),
        payload: EventPayload { rating: Some(rating), reason: None, user_answer: None },
    }
}

fn complete_events(atom_id: &str) -> Vec<Event> {
    vec![
        taught(atom_id),
        answered(&format!("{atom_id}.q1"), Rating::Good),
        answered(&format!("{atom_id}.q2"), Rating::Good),
        answered(&format!("{atom_id}.q3"), Rating::Good),
    ]
}

fn progress_of(events: &[Event]) -> PathProgress {
    PathProgress::from_events(events)
}

#[test]
fn target_complete_counts_toward_both_targets_and_reachable() {
    let g = graph_of(vec![complete_atom("a", &[])]);
    let p = path_with(&["a"]);
    let events = complete_events("a");
    let (t, r) = state::compute_progress(&g, &p, &progress_of(&events)).unwrap();
    assert_eq!(t.total, 1);
    assert_eq!(t.learned, 1);
    assert_eq!(t.learned_pct, 100);
    assert_eq!(r.total, 1);
    assert_eq!(r.taught, 1);
    assert_eq!(r.learned, 1);
}

#[test]
fn prereq_complete_counts_toward_reachable_only() {
    let g = graph_of(vec![complete_atom("pre", &[]), complete_atom("target", &["pre"])]);
    let p = path_with(&["target"]);
    let events = complete_events("pre");
    let (t, r) = state::compute_progress(&g, &p, &progress_of(&events)).unwrap();
    assert_eq!(t.total, 1);
    assert_eq!(t.learned, 0, "target itself is not yet complete");
    assert_eq!(t.learned_pct, 0);
    assert_eq!(r.total, 2);
    assert_eq!(r.learned, 1, "prereq counts as a reachable learned atom");
}

#[test]
fn taught_counts_lesson_taught_in_path_regardless_of_quiz_progress() {
    let g = graph_of(vec![complete_atom("a", &[])]);
    let p = path_with(&["a"]);
    let events = vec![taught("a")];
    let (t, r) = state::compute_progress(&g, &p, &progress_of(&events)).unwrap();
    assert_eq!(t.learned, 0);
    assert_eq!(r.taught, 1);
    assert_eq!(r.learned, 0);
}

#[test]
fn empty_path_yields_zero_progress_without_division_panic() {
    let g = graph_of(vec![]);
    let p = path_with(&[]);
    let (t, r) = state::compute_progress(&g, &p, &PathProgress::default()).unwrap();
    assert_eq!(t.total, 0);
    assert_eq!(t.learned, 0);
    assert_eq!(t.learned_pct, 0, "no targets must not divide by zero");
    assert_eq!(r.total, 0);
    assert_eq!(r.taught, 0);
    assert_eq!(r.learned, 0);
}

#[test]
fn state_progress_reachable_includes_transitive_prereqs() {
    let g = graph_of(vec![empty_atom("a", &[]), empty_atom("b", &["a"]), empty_atom("c", &["b"])]);
    let p = path_with(&["c"]);
    let (_t, r) = state::compute_progress(&g, &p, &PathProgress::default()).unwrap();
    assert_eq!(r.total, 3);
}

#[test]
fn learned_pct_rounds_down() {
    let g = graph_of(vec![complete_atom("a", &[]), complete_atom("b", &[]), complete_atom("c", &[])]);
    let p = path_with(&["a", "b", "c"]);
    let events = complete_events("a");
    let (t, _r) = state::compute_progress(&g, &p, &progress_of(&events)).unwrap();
    assert_eq!(t.learned, 1);
    assert_eq!(t.learned_pct, 33);
}

#[test]
fn write_state_emits_past_due_line() {
    let s = state::StateSummary {
        path: PATH_ID.into(),
        goal: "test".into(),
        strategy: Strategy::BottomUp,
        created_at: TS.into(),
        updated_at: TS.into(),
        targets: state::TargetProgress { total: 0, learned: 0, learned_pct: 0 },
        reachable: Some(state::ReachProgress { total: 0, taught: 0, learned: 0 }),
        subpath: Vec::new(),
        past_due: 7,
        most_recent: None,
        next: None,
    };
    let out = state::state_lines(&s);
    assert!(
        out.iter().any(|l| l.starts_with("past due:") && l.contains('7')),
        "missing 'past due: 7' line in:\n{out:?}"
    );
}
