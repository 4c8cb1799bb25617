#![allow(dead_code)]
use mathtutor::cards::{answers_by_quiz, days_elapsed, group_counts, next_counts};
use mathtutor::db::{display_ts, format_ts, generate_path_id, path_id_of};
use mathtutor::discover::gather_descendants;
use mathtutor::event_log::{Event, EventKind, EventPayload};
use mathtutor::graph::{FlatConcept, Graph, Quiz};
use mathtutor::migrate::MigrationReport;
use mathtutor::oauth::{
    access_token_client, check_registration, html_escape, issuer_of, render_login_form, server_metadata, AuthorizeQuery,
};
use mathtutor::progress::PathProgress;
use mathtutor::state::{first_correct_covers, most_recent_completed, FirstCorrect};
use mathtutor::path::PathFile;
use mathtutor::scheduler::{next_action, Action, NextMode};
use mathtutor::store::{highest_quiz_number, next_quiz_id};
use mathtutor::types::{Difficulty, Rating, Strategy};
use mathtutor::Error;

const PATH_ID: &str = "p_test";
const TS: &str = "2026-05-26T00:00:00Z";
/// 2026-05-26T00:00:00Z.
const NOW: (i64, u32) = (1_779_753_600, 0);

fn quiz(id: &str, difficulty: Difficulty) -> Quiz {
    Quiz { id: id.into(), difficulty, kind: None, question: "q".into(), answer: "a".into(), rubric: None }
}

fn atom(id: &str, quizzes: Vec<Quiz>) -> FlatConcept {
    FlatConcept {
        id: id.into(),
        name: format!("Atom {id}"),
        description: None,
        prerequisites: Vec::new(),
        children_ids: Vec::new(),
        lesson: Some("body".into()),
        quizzes,
    }
}

fn complete_atom(id: &str) -> FlatConcept {
    atom(
        id,
        vec![
            quiz(&format!("{id}.q1"), Difficulty::Easy),
            quiz(&format!("{id}.q2"), Difficulty::Medium),
            quiz(&format!("{id}.q3"), Difficulty::Hard),
        ],
    )
}

fn cluster(id: &str, children: &[&str]) -> FlatConcept {
    FlatConcept {
        id: id.into(),
        name: format!("Cluster {id}"),
        description: None,
        prerequisites: Vec::new(),
        children_ids: children.iter().map(|s| (*s).to_string()).collect(),
        lesson: None,
        quizzes: Vec::new(),
    }
}

fn event(kind: EventKind, atom: Option<&str>, quiz: Option<&str>, rating: Option<Rating>, ts: &str) -> Event {
    Event {
        ts: ts.into(),
        kind,
        path: PATH_ID.into(),
        atom: atom.map(String::from),
        quiz: quiz.map(String::from),
        payload: EventPayload { rating, reason: None, user_answer: None },
    }
}

fn complete_events(id: &str) -> Vec<Event> {
    vec![
        event(EventKind::LessonTaught, Some(id), None, None, TS),
        event(EventKind::QuizAnswered, None, Some(&format!("{id}.q1")), Some(Rating::Good), TS),
        event(EventKind::QuizAnswered, None, Some(&format!("{id}.q2")), Some(Rating::Good), TS),
        event(EventKind::QuizAnswered, None, Some(&format!("{id}.q3")), Some(Rating::Good), TS),
    ]
}

fn fc(quiz_id: &str, secs: i64) -> FirstCorrect {
    FirstCorrect { quiz_id: quiz_id.into(), secs, nanos: 0 }
}

// ── Errors ──────────────────────────────────────────────────────────

#[test]
fn error_kinds_name_the_failure() {
    assert_eq!(Error::UnknownId("x".into()).kind(), "unknown_id");
    assert_eq!(Error::Cycle.kind(), "cycle");
    assert_eq!(Error::NoPath.kind(), "no_path");
    assert_eq!(Error::AymlParse { path: "p".into(), message: "m".into() }.kind(), "io");
    assert_eq!(Error::MissingAuth.kind(), "server");
    assert_eq!(Error::BadPublicUrl("u".into()).kind(), "server");
    assert_eq!(Error::InvalidRating(7).kind(), "invalid_rating");
}

// ── Most recent completed target ────────────────────────────────────

#[test]
fn most_recent_completed_picks_the_latest_first_correct() {
    let g = Graph::from_concepts(vec![complete_atom("a"), complete_atom("b"), complete_atom("c")]);
    let mut events = complete_events("a");
    events.extend(complete_events("b"));
    let progress = PathProgress::from_events(&events);
    let targets = vec!["a".to_string(), "b".to_string(), "c".to_string()];
    let first = vec![fc("a.q1", 10), fc("a.q2", 50), fc("a.q3", 20), fc("b.q1", 30), fc("b.q2", 40), fc("b.q3", 5)];
    assert!(first_correct_covers(&g, &targets, &progress, &first));
    let r = most_recent_completed(&g, &targets, &progress, &first).unwrap();
    assert_eq!(r.id, "a");
    assert_eq!(r.name, "Atom a");
}

#[test]
fn most_recent_completed_tie_goes_to_the_later_target() {
    let g = Graph::from_concepts(vec![complete_atom("a"), complete_atom("b")]);
    let mut events = complete_events("a");
    events.extend(complete_events("b"));
    let progress = PathProgress::from_events(&events);
    let targets = vec!["a".to_string(), "b".to_string()];
    let first = vec![fc("a.q1", 10), fc("a.q2", 10), fc("a.q3", 10), fc("b.q1", 10), fc("b.q2", 1), fc("b.q3", 1)];
    assert_eq!(most_recent_completed(&g, &targets, &progress, &first).unwrap().id, "b");
}

#[test]
fn most_recent_completed_none_without_a_complete_target() {
    let g = Graph::from_concepts(vec![complete_atom("a")]);
    let progress = PathProgress::default();
    let targets = vec!["a".to_string()];
    assert!(most_recent_completed(&g, &targets, &progress, &Vec::new()).is_none());
    assert!(first_correct_covers(&g, &targets, &progress, &Vec::new()));
}

#[test]
fn first_correct_covers_notices_a_missing_quiz() {
    let g = Graph::from_concepts(vec![complete_atom("a")]);
    let progress = PathProgress::from_events(&complete_events("a"));
    let targets = vec!["a".to_string()];
    assert!(!first_correct_covers(&g, &targets, &progress, &vec![fc("a.q1", 1), fc("a.q2", 2)]));
}

// ── Descendants ─────────────────────────────────────────────────────

#[test]
fn gather_descendants_lists_everything_below_sorted() {
    let g = Graph::from_concepts(vec![
        cluster("x", &["x.2", "x.1"]),
        cluster("x.2", &["x.2.1"]),
        complete_atom("x.1"),
        complete_atom("x.2.1"),
    ]);
    let v = gather_descendants(&g, &vec!["x".to_string(), "missing".to_string()], None);
    let ids: Vec<&str> = v.iter().map(|b| b.id.as_str()).collect();
    assert_eq!(ids, vec!["x", "x.1", "x.2", "x.2.1"]);
    assert!(!v[0].is_atom && v[1].is_atom && !v[2].is_atom && v[3].is_atom);
    assert_eq!(v[2].name, "Cluster x.2");
    assert!(v.iter().all(|b| b.status.is_none()));
}

#[test]
fn gather_descendants_reports_atom_status_on_a_path() {
    let g = Graph::from_concepts(vec![cluster("x", &["x.1", "x.2"]), complete_atom("x.1"), complete_atom("x.2")]);
    let progress = PathProgress::from_events(&complete_events("x.1"));
    let v = gather_descendants(&g, &vec!["x".to_string()], Some(&progress));
    assert!(v[0].status.is_none());
    let s1 = v[1].status.unwrap();
    assert!(s1.lesson_taught && s1.complete);
    let s2 = v[2].status.unwrap();
    assert!(!s2.lesson_taught && !s2.complete);
}

// ── Sign-in page and token checks ───────────────────────────────────

#[test]
fn html_escape_replaces_markup_characters() {
    assert_eq!(html_escape(r#"a&b<c>"d"#), "a&amp;b&lt;c&gt;&quot;d");
    assert_eq!(html_escape("plain"), "plain");
    assert_eq!(html_escape(""), "");
}

fn query() -> AuthorizeQuery {
    AuthorizeQuery {
        response_type: "code".into(),
        client_id: "cl<i>".into(),
        redirect_uri: "https://x/cb?a=1&b=2".into(),
        state: None,
        code_challenge: "ch".into(),
        code_challenge_method: "S256".into(),
        scope: Some("mcp".into()),
        resource: None,
    }
}

#[test]
fn login_form_escapes_and_carries_every_field() {
    let page = render_login_form(&query(), "tok\"en", Some("bad <password>"));
    assert!(page.starts_with("<!doctype html>"));
    assert!(page.ends_with("</body></html>"));
    assert!(page.contains("Authorizing client <code>cl&lt;i&gt;</code>."));
    assert!(page.contains(r#"<p style="color:#b00020">bad &lt;password&gt;</p>"#));
    assert!(page.contains(r#"name="redirect_uri" value="https://x/cb?a=1&amp;b=2">"#));
    assert!(page.contains(r#"name="state" value="">"#));
    assert!(page.contains(r#"name="scope" value="mcp">"#));
    assert!(page.contains(r#"name="csrf" value="tok&quot;en">"#));
    let plain = render_login_form(&query(), "t", None);
    assert!(!plain.contains("color:#b00020"));
}

#[test]
fn access_token_valid_until_expiry() {
    assert_eq!(access_token_client("c".into(), "2026-05-26T00:00:01Z", NOW), Ok(Some("c".to_string())));
    assert_eq!(access_token_client("c".into(), TS, NOW), Ok(Some("c".to_string())));
    assert_eq!(access_token_client("c".into(), "2026-05-25T23:59:59Z", NOW), Ok(None));
    assert!(matches!(access_token_client("c".into(), "yesterday", NOW), Err(Error::BadTimestamp(_))));
}

#[test]
fn discovery_urls_hang_off_the_trimmed_issuer() {
    assert_eq!(issuer_of("https://tutor.example/"), "https://tutor.example");
    assert_eq!(issuer_of("https://tutor.example//"), "https://tutor.example");
    let m = server_metadata("http://127.0.0.1:8080/");
    assert_eq!(m.issuer, "http://127.0.0.1:8080");
    assert_eq!(m.authorization_endpoint, "http://127.0.0.1:8080/oauth/authorize");
    assert_eq!(m.token_endpoint, "http://127.0.0.1:8080/oauth/token");
    assert_eq!(m.registration_endpoint, "http://127.0.0.1:8080/oauth/register");
}

#[test]
fn registration_needs_a_redirect_uri() {
    assert!(check_registration(&vec!["https://x/cb".to_string()]).is_ok());
    let e = check_registration(&Vec::new()).unwrap_err();
    assert_eq!(e.status, 400);
    assert_eq!(e.code, "invalid_request");
    assert_eq!(e.description, "redirect_uris must include at least one URI");
}

// ── Card counts ─────────────────────────────────────────────────────

#[test]
fn elapsed_days_count_whole_days_since_the_last_review() {
    assert_eq!(days_elapsed(None, NOW), 0);
    assert_eq!(days_elapsed(Some((NOW.0 - 86_400 * 30, 0)), NOW), 30);
    assert_eq!(days_elapsed(Some((NOW.0 - 86_399, 0)), NOW), 0);
    assert_eq!(days_elapsed(Some((NOW.0 - 86_400, 1)), NOW), 0);
    assert_eq!(days_elapsed(Some((NOW.0 + 86_400 * 3, 0)), NOW), 0);
}

#[test]
fn answer_counts_grow_by_one_and_lapse_on_again() {
    assert_eq!(next_counts(None, Rating::Good), (1, 0));
    assert_eq!(next_counts(None, Rating::Again), (1, 1));
    assert_eq!(next_counts(Some((4, 2)), Rating::Again), (5, 3));
    assert_eq!(next_counts(Some((4, 2)), Rating::Easy), (5, 2));
}

#[test]
fn answers_group_per_quiz_in_log_order() {
    let events = vec![
        event(EventKind::QuizAnswered, None, Some("a.q1"), Some(Rating::Again), "t1"),
        event(EventKind::LessonTaught, Some("a"), None, None, "t2"),
        event(EventKind::QuizAnswered, None, Some("b.q1"), Some(Rating::Good), "t3"),
        event(EventKind::QuizAnswered, None, Some("a.q1"), Some(Rating::Good), "t4"),
        event(EventKind::QuizAnswered, None, Some("a.q2"), None, "t5"),
        event(EventKind::QuizPresented, None, Some("b.q1"), None, "t6"),
    ];
    let groups = answers_by_quiz(&events);
    assert_eq!(groups.len(), 2);
    assert_eq!(groups[0].quiz_id, "a.q1");
    assert_eq!(groups[0].answers.iter().map(|a| a.ts.as_str()).collect::<Vec<_>>(), vec!["t1", "t4"]);
    assert_eq!(groups[0].answers[0].rating, Rating::Again);
    assert_eq!(group_counts(&groups[0].answers), (2, 1));
    assert_eq!(groups[1].quiz_id, "b.q1");
    assert_eq!(group_counts(&groups[1].answers), (1, 0));
}

// ── Time stamps and reports ─────────────────────────────────────────

#[test]
fn timestamps_format_in_their_layouts() {
    assert_eq!(format_ts(NOW).unwrap(), "2026-05-26T00:00:00.000Z");
    assert_eq!(format_ts((NOW.0 + 1, 250_000_000)).unwrap(), "2026-05-26T00:00:01.250Z");
    assert_eq!(display_ts((NOW.0 + 3_661, 999_000_000)).unwrap(), "2026-05-26T01:01:01Z");
    assert_eq!(generate_path_id(NOW).unwrap(), "p_2026_05_26_000000");
    assert_eq!(path_id_of("stamp"), "p_stamp");
}

#[test]
fn migration_summary_reports_every_count() {
    let r = MigrationReport {
        paths_imported: 2,
        paths_skipped: 1,
        events_imported: 30,
        overlay_lessons_imported: 4,
        overlay_quizzes_imported: 12,
        overlay_removed_imported: 0,
    };
    assert_eq!(
        r.summary("/home/me/.mathtutor"),
        "migrated 2 path(s) (1 already present), 30 event(s), overlay: 4 lesson(s) / 12 quiz(zes) / 0 tombstone(s) [from /home/me/.mathtutor]"
    );
    assert_eq!(MigrationReport::default().paths_imported, 0);
}

// ── Laws on concrete values ─────────────────────────────────────────

#[test]
fn new_quiz_ids_skip_every_number_in_use() {
    let quizzes = vec![quiz("a.q1", Difficulty::Easy), quiz("a.q7", Difficulty::Hard), quiz("b.q9", Difficulty::Easy)];
    assert_eq!(highest_quiz_number("a", &quizzes), 7);
    let id = next_quiz_id("a", &quizzes);
    assert_eq!(id, "a.q8");
    assert!(quizzes.iter().all(|q| q.id != id));
}

#[test]
fn card_counts_agree_with_correct_answers() {
    let again_only = vec![
        event(EventKind::QuizAnswered, None, Some("a.q1"), Some(Rating::Again), "t1"),
        event(EventKind::QuizAnswered, None, Some("a.q1"), Some(Rating::Again), "t2"),
    ];
    let groups = answers_by_quiz(&again_only);
    assert_eq!(group_counts(&groups[0].answers), (2, 2));
    assert!(!PathProgress::from_events(&again_only).quiz_answered_correctly("a.q1"));

    let mut recovered = again_only;
    recovered.push(event(EventKind::QuizAnswered, None, Some("a.q1"), Some(Rating::Hard), "t3"));
    let groups = answers_by_quiz(&recovered);
    let (reps, lapses) = group_counts(&groups[0].answers);
    assert!(reps > lapses);
    assert!(PathProgress::from_events(&recovered).quiz_answered_correctly("a.q1"));
}

#[test]
fn bottom_up_stops_at_the_first_unsettled_foundation() {
    let mut top = complete_atom("b");
    top.prerequisites = vec!["a".to_string()];
    let g = Graph::from_concepts(vec![complete_atom("a"), top]);
    let p = PathFile {
        id: PATH_ID.into(),
        goal: "g".into(),
        created_at: TS.into(),
        targets: vec!["b".to_string()],
        strategy: Strategy::BottomUp,
    };
    let targets = vec!["b".to_string()];
    let none: Vec<String> = Vec::new();
    let fresh = next_action(&g, &p, &targets, &PathProgress::default(), &none, &none, NextMode::Default);
    assert!(matches!(fresh, Action::PresentLesson { ref atom_id } if atom_id == "a"));
    let done_a = PathProgress::from_events(&complete_events("a"));
    let next = next_action(&g, &p, &targets, &done_a, &none, &none, NextMode::Default);
    assert!(matches!(next, Action::PresentLesson { ref atom_id } if atom_id == "b"));
}

#[test]
fn counts_recorded_one_by_one_match_the_rebuild() {
    let events = vec![
        event(EventKind::QuizAnswered, None, Some("a.q1"), Some(Rating::Good), "t1"),
        event(EventKind::QuizAnswered, None, Some("a.q1"), Some(Rating::Again), "t2"),
        event(EventKind::QuizAnswered, None, Some("a.q1"), Some(Rating::Easy), "t3"),
        event(EventKind::QuizAnswered, None, Some("a.q1"), Some(Rating::Again), "t4"),
    ];
    let groups = answers_by_quiz(&events);
    let mut card: Option<(u32, u32)> = None;
    for a in &groups[0].answers {
        card = Some(next_counts(card, a.rating));
    }
    assert_eq!(card, Some(group_counts(&groups[0].answers)));
    assert_eq!(card, Some((4, 2)));
}

#[test]
fn descendants_come_sorted_by_id() {
    let g = Graph::from_concepts(vec![
        cluster("z", &["z.b", "z.a"]),
        cluster("z.b", &["z.b.2", "z.b.1"]),
        complete_atom("z.a"),
        complete_atom("z.b.1"),
        complete_atom("z.b.2"),
    ]);
    let v = gather_descendants(&g, &vec!["z.b".to_string(), "z".to_string()], None);
    let ids: Vec<&str> = v.iter().map(|b| b.id.as_str()).collect();
    let mut sorted = ids.clone();
    sorted.sort();
    assert_eq!(ids, sorted);
    assert_eq!(ids, vec!["z", "z.a", "z.b", "z.b", "z.b.1", "z.b.1", "z.b.2", "z.b.2"]);
}

#[test]
fn event_kinds_read_back_as_written() {
    let kinds = [
        EventKind::PathCreated,
        EventKind::LessonAuthored,
        EventKind::LessonAmended,
        EventKind::LessonTaught,
        EventKind::QuizAuthored,
        EventKind::QuizPresented,
        EventKind::QuizAnswered,
        EventKind::QuizAmended,
        EventKind::QuizRemoved,
    ];
    for k in kinds {
        assert_eq!(EventKind::parse(k.as_str()), Ok(k));
    }
    assert_eq!(EventKind::parse("lesson_forgotten"), Err(Error::UnknownEventKind("lesson_forgotten".into())));
}

#[test]
fn bottom_up_is_done_once_every_reached_atom_is() {
    let mut top = complete_atom("b");
    top.prerequisites = vec!["a".to_string()];
    let g = Graph::from_concepts(vec![complete_atom("a"), top]);
    let p = PathFile {
        id: PATH_ID.into(),
        goal: "g".into(),
        created_at: TS.into(),
        targets: vec!["b".to_string()],
        strategy: Strategy::BottomUp,
    };
    let targets = vec!["b".to_string()];
    let none: Vec<String> = Vec::new();
    let mut events = complete_events("a");
    let only_b = PathProgress::from_events(&complete_events("b"));
    assert!(!matches!(next_action(&g, &p, &targets, &only_b, &none, &none, NextMode::Default), Action::Done));
    events.extend(complete_events("b"));
    let both = PathProgress::from_events(&events);
    assert!(matches!(next_action(&g, &p, &targets, &both, &none, &none, NextMode::Default), Action::Done));
}

#[test]
fn bottom_up_is_done_on_looping_prerequisites_only_when_every_atom_is() {
    let mut a = complete_atom("a");
    a.prerequisites = vec!["b".to_string()];
    let mut b = complete_atom("b");
    b.prerequisites = vec!["a".to_string()];
    let g = Graph::from_concepts(vec![a, b]);
    let p = PathFile {
        id: PATH_ID.into(),
        goal: "g".into(),
        created_at: TS.into(),
        targets: vec!["b".to_string()],
        strategy: Strategy::BottomUp,
    };
    let targets = vec!["b".to_string()];
    let none: Vec<String> = Vec::new();
    let only_b = PathProgress::from_events(&complete_events("b"));
    assert!(!matches!(next_action(&g, &p, &targets, &only_b, &none, &none, NextMode::Default), Action::Done));
    let mut events = complete_events("a");
    events.extend(complete_events("b"));
    let both = PathProgress::from_events(&events);
    assert!(matches!(next_action(&g, &p, &targets, &both, &none, &none, NextMode::Default), Action::Done));
}
