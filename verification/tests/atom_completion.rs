#![allow(dead_code)]
use mathtutor::event_log::{Event, EventKind, EventPayload};
use mathtutor::graph::{FlatConcept, Graph, Quiz};
use mathtutor::path::PathFile;
use mathtutor::progress::PathProgress;
use mathtutor::types::{Difficulty, Rating, Strategy};
use mathtutor::scheduler::{self, Action, NextMode};

const PATH_ID: &str = "p_test";
const TS: &str = "2026-05-26T00:00:00Z";

fn quiz(id: &str, difficulty: Difficulty) -> Quiz {
    Quiz { id: id.into(), difficulty, kind: None, question: "q".into(), answer: "a".into(), rubric: None }
}

fn atom(id: &str, prereqs: &[&str], lesson: Option<&str>, quizzes: Vec<Quiz>) -> FlatConcept {
    FlatConcept {
        id: id.into(),
        name: id.into(),
        description: None,
        prerequisites: prereqs.iter().map(|s| (*s).to_string()).collect(),
        children_ids: Vec::new(),
        lesson: lesson.map(String::from),
        quizzes,
    }
}

fn cluster(id: &str, children: &[&str]) -> FlatConcept {
    FlatConcept {
        id: id.into(),
        name: id.into(),
        description: None,
        prerequisites: Vec::new(),
        children_ids: children.iter().map(|s| (*s).to_string()).collect(),
        lesson: None,
        quizzes: Vec::new(),
    }
}

fn empty_atom(id: &str, prereqs: &[&str]) -> FlatConcept {
    atom(id, prereqs, None, Vec::new())
}

fn complete_atom(id: &str, prereqs: &[&str]) -> FlatConcept {
    atom(
        id,
        prereqs,
        Some("body"),
        vec![
            quiz(&format!("{id}.q1"), Difficulty::Easy),
            quiz(&format!("{id}.q2"), Difficulty::Medium),
            quiz(&format!("{id}.q3"), Difficulty::Hard),
        ],
    )
}

fn graph_of(concepts: Vec<FlatConcept>) -> Graph {
    Graph::from_concepts(concepts)
}

fn path_with_strategy(targets: &[&str], strategy: Strategy) -> PathFile {
    PathFile {
        id: PATH_ID.into(),
        goal: "test".into(),
        created_at: TS.into(),
        targets: targets.iter().map(|s| (*s).to_string()).collect(),
        strategy,
    }
}

fn path_with(targets: &[&str]) -> PathFile {
    path_with_strategy(targets, Strategy::BottomUp)
}

fn taught(atom_id: &str) -> Event {
    Event {
        ts: TS.into(),
        kind: EventKind::LessonTaught,
        path: PATH_ID.into(),
        atom: Some(atom_id.into()),
        quiz: None,
        payload: EventPayload::default(),
    }
}

fn authored(atom_id: &str) -> Event {
    Event {
        ts: TS.into(),
        kind: EventKind::LessonAuthored,
        path: PATH_ID.into(),
        atom: Some(atom_id.into()),
        quiz: None,
        payload: EventPayload::default(),
    }
}

fn answered(quiz_id: &str, rating: Rating) -> Event {
    Event {
        ts: TS.into(),
        kind: EventKind::QuizAnswered,
        path: PATH_ID.into(),
        atom: None,
        quiz: Some(quiz_id.into()),
        payload: EventPayload { rating: Some(rating), reason: None, user_answer: None },
    }
}

fn complete_events(atom_id: &str) -> Vec<Event> {
    vec![
        taught(atom_id),
        answered(&format!("{atom_id}.q1"), Rating::Good),
        answered(&format!("{atom_id}.q2"), Rating::Good),
        answered(&format!("{atom_id}.q3"), Rating::Good),
    ]
}

fn progress_of(events: &[Event]) -> PathProgress {
    PathProgress::from_events(events)
}

/// The next action of a path, with no due cards and no subpath.
fn next(g: &Graph, p: &PathFile, progress: &PathProgress) -> Action {
    let targets = p.resolve_targets(g).expect("targets resolve");
    scheduler::next_action(g, p, &targets, progress, &Vec::new(), &Vec::new(), NextMode::Default)
}

fn assert_create_lesson(action: &Action, expected_atom: &str) {
    match action {
        Action::CreateLesson { atom_id } => assert_eq!(atom_id, expected_atom),
        other => panic!("expected CreateLesson({expected_atom}), got {other:?}"),
    }
}

fn assert_create_quiz(action: &Action, expected_atom: &str, expected_diff: Difficulty) {
    match action {
        Action::CreateQuiz { atom_id, difficulty } => {
            assert_eq!(atom_id, expected_atom);
            assert_eq!(*difficulty, expected_diff);
        },
        other => panic!("expected CreateQuiz({expected_atom}, {expected_diff:?}), got {other:?}"),
    }
}

fn assert_present_quiz(action: &Action, expected_atom: &str, expected_quiz: &str) {
    match action {
        Action::PresentQuiz { atom_id, quiz_id } => {
            assert_eq!(atom_id, expected_atom);
            assert_eq!(quiz_id, expected_quiz);
        },
        other => panic!("expected PresentQuiz({expected_atom}, {expected_quiz}), got {other:?}"),
    }
}

fn assert_present_lesson(action: &Action, expected_atom: &str) {
    match action {
        Action::PresentLesson { atom_id } => assert_eq!(atom_id, expected_atom),
        other => panic!("expected PresentLesson({expected_atom}), got {other:?}"),
    }
}

#[test]
fn create_lesson_when_atom_has_none() {
    let g = graph_of(vec![atom("a", &[], None, vec![])]);
    let p = path_with(&["a"]);
    assert_create_lesson(&next(&g, &p, &PathProgress::default()), "a");
}

#[test]
fn present_lesson_when_stored_but_not_taught_in_path() {
    let g = graph_of(vec![atom("a", &[], Some("body"), vec![])]);
    let p = path_with(&["a"]);
    assert_present_lesson(&next(&g, &p, &PathProgress::default()), "a");
}

#[test]
fn lesson_authored_event_satisfies_taught_check() {
    let g = graph_of(vec![atom("a", &[], Some("body"), vec![])]);
    let p = path_with(&["a"]);
    let events = vec![authored("a")];
    assert_create_quiz(&next(&g, &p, &progress_of(&events)), "a", Difficulty::Easy);
}

#[test]
fn create_easy_quiz_when_lesson_stored_and_taught() {
    let g = graph_of(vec![atom("a", &[], Some("body"), vec![])]);
    let p = path_with(&["a"]);
    let events = vec![taught("a")];
    assert_create_quiz(&next(&g, &p, &progress_of(&events)), "a", Difficulty::Easy);
}

#[test]
fn present_easy_quiz_when_authored_but_unanswered() {
    let g = graph_of(vec![atom("a", &[], Some("body"), vec![quiz("a.q1", Difficulty::Easy)])]);
    let p = path_with(&["a"]);
    let events = vec![taught("a")];
    assert_present_quiz(&next(&g, &p, &progress_of(&events)), "a", "a.q1");
}

#[test]
fn keep_presenting_easy_after_again_rating() {
    let g = graph_of(vec![atom("a", &[], Some("body"), vec![quiz("a.q1", Difficulty::Easy)])]);
    let p = path_with(&["a"]);
    let events = vec![taught("a"), answered("a.q1", Rating::Again)];
    assert_present_quiz(&next(&g, &p, &progress_of(&events)), "a", "a.q1");
}

#[test]
fn advance_to_medium_after_hard_rating() {
    let g = graph_of(vec![atom("a", &[], Some("body"), vec![quiz("a.q1", Difficulty::Easy)])]);
    let p = path_with(&["a"]);
    let events = vec![taught("a"), answered("a.q1", Rating::Hard)];
    assert_create_quiz(&next(&g, &p, &progress_of(&events)), "a", Difficulty::Medium);
}

#[test]
fn advance_to_medium_after_easy_correct() {
    let g = graph_of(vec![atom("a", &[], Some("body"), vec![quiz("a.q1", Difficulty::Easy)])]);
    let p = path_with(&["a"]);
    let events = vec![taught("a"), answered("a.q1", Rating::Good)];
    assert_create_quiz(&next(&g, &p, &progress_of(&events)), "a", Difficulty::Medium);
}

#[test]
fn advance_to_hard_after_easy_and_medium_correct() {
    let g = graph_of(vec![atom(
        "a",
        &[],
        Some("body"),
        vec![quiz("a.q1", Difficulty::Easy), quiz("a.q2", Difficulty::Medium)],
    )]);
    let p = path_with(&["a"]);
    let events = vec![taught("a"), answered("a.q1", Rating::Easy), answered("a.q2", Rating::Good)];
    assert_create_quiz(&next(&g, &p, &progress_of(&events)), "a", Difficulty::Hard);
}

#[test]
fn done_after_all_three_correct_on_only_target() {
    let g = graph_of(vec![atom(
        "a",
        &[],
        Some("body"),
        vec![quiz("a.q1", Difficulty::Easy), quiz("a.q2", Difficulty::Medium), quiz("a.q3", Difficulty::Hard)],
    )]);
    let p = path_with(&["a"]);
    let events = vec![
        taught("a"),
        answered("a.q1", Rating::Good),
        answered("a.q2", Rating::Good),
        answered("a.q3", Rating::Easy),
    ];
    assert!(matches!(next(&g, &p, &progress_of(&events)), Action::Done));
}

#[test]
fn advance_to_next_target_lesson_after_first_complete() {
    let g = graph_of(vec![
        atom(
            "a",
            &[],
            Some("body"),
            vec![quiz("a.q1", Difficulty::Easy), quiz("a.q2", Difficulty::Medium), quiz("a.q3", Difficulty::Hard)],
        ),
        atom("b", &[], None, vec![]),
    ]);
    let p = path_with(&["a", "b"]);
    let events = vec![
        taught("a"),
        answered("a.q1", Rating::Good),
        answered("a.q2", Rating::Good),
        answered("a.q3", Rating::Good),
    ];
    assert_create_lesson(&next(&g, &p, &progress_of(&events)), "b");
}

#[test]
fn does_not_advance_after_only_lesson_stored() {
    let g = graph_of(vec![atom("a", &[], Some("body"), vec![]), atom("b", &[], None, vec![])]);
    let p = path_with(&["a", "b"]);
    assert_present_lesson(&next(&g, &p, &PathProgress::default()), "a");
}

#[test]
fn descends_into_prereq_before_target() {
    let g = graph_of(vec![atom("pre", &[], None, vec![]), atom("target", &["pre"], Some("body"), vec![])]);
    let p = path_with(&["target"]);
    assert_create_lesson(&next(&g, &p, &PathProgress::default()), "pre");
}

#[test]
fn finishes_prereq_quizzes_before_target_lesson() {
    let g = graph_of(vec![
        atom("pre", &[], Some("body"), vec![quiz("pre.q1", Difficulty::Easy)]),
        atom("target", &["pre"], None, vec![]),
    ]);
    let p = path_with(&["target"]);
    let events = vec![taught("pre")];
    assert_present_quiz(&next(&g, &p, &progress_of(&events)), "pre", "pre.q1");
}

#[test]
fn is_atom_complete_false_without_lesson() {
    let g = graph_of(vec![atom("a", &[], None, vec![])]);
    assert!(!scheduler::is_atom_complete(&g, &PathProgress::default(), "a"));
}

#[test]
fn is_atom_complete_false_with_only_two_correct() {
    let g = graph_of(vec![atom(
        "a",
        &[],
        Some("body"),
        vec![quiz("a.q1", Difficulty::Easy), quiz("a.q2", Difficulty::Medium), quiz("a.q3", Difficulty::Hard)],
    )]);
    let events = vec![answered("a.q1", Rating::Good), answered("a.q2", Rating::Good)];
    assert!(!scheduler::is_atom_complete(&g, &progress_of(&events), "a"));
}

#[test]
fn is_atom_complete_true_with_all_three_correct() {
    let g = graph_of(vec![atom(
        "a",
        &[],
        Some("body"),
        vec![quiz("a.q1", Difficulty::Easy), quiz("a.q2", Difficulty::Medium), quiz("a.q3", Difficulty::Hard)],
    )]);
    let events = vec![answered("a.q1", Rating::Good), answered("a.q2", Rating::Easy), answered("a.q3", Rating::Good)];
    assert!(scheduler::is_atom_complete(&g, &progress_of(&events), "a"));
}
