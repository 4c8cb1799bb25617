#![allow(dead_code)]
use mathtutor::check::CheckReport;
use mathtutor::check::CheckIssue;
use mathtutor::curriculum::{Manifest, ManifestArea};
use mathtutor::db::{default_path, join_path, mt_home, parse_ts, DbConfig, SyncConfig};
use mathtutor::discover::{enrich_list_view, enrich_show_view, list_view, show_view, ConceptView, ListView, ShowView};
use mathtutor::event_log::{Event, EventKind, EventPayload};
use mathtutor::graph::{FlatConcept, Graph, Quiz, QuizRaw};
use mathtutor::ids::IdSet;
use mathtutor::overlay::{Overlay, OverlayAtom, OverlayEntry};
use mathtutor::path::PathFile;
use mathtutor::progress::PathProgress;
use mathtutor::state::{self, ReachProgress, StateSummary, TargetProgress};
use mathtutor::store::{lesson_change, next_quiz_id, plan_new_quiz};
use mathtutor::subpath::validate_subpath;
use mathtutor::syllabus::{compute_syllabus, upcoming_top_down};
use mathtutor::tree_view::{compute_tree, tree_header};
use mathtutor::types::{Difficulty, QuizType, Rating, Strategy};
use mathtutor::Error;

const PATH_ID: &str = "p_test";
const TS: &str = "2026-05-26T00:00:00Z";

fn quiz(id: &str, difficulty: Difficulty) -> Quiz {
    Quiz { id: id.into(), difficulty, kind: None, question: "q".into(), answer: "a".into(), rubric: None }
}

fn raw(id: &str, difficulty: Difficulty, question: &str) -> QuizRaw {
    QuizRaw { id: id.into(), difficulty, kind: None, question: question.into(), answer: "a".into(), rubric: None }
}

fn atom(id: &str, prereqs: &[&str], lesson: Option<&str>, quizzes: Vec<Quiz>) -> FlatConcept {
    FlatConcept {
        id: id.into(),
        name: format!("Atom {id}"),
        description: Some(format!("desc {id}")),
        prerequisites: prereqs.iter().map(|s| (*s).to_string()).collect(),
        children_ids: Vec::new(),
        lesson: lesson.map(String::from),
        quizzes,
    }
}

fn cluster(id: &str, children: &[&str]) -> FlatConcept {
    FlatConcept {
        id: id.into(),
        name: format!("Cluster {id}"),
        description: None,
        prerequisites: Vec::new(),
        children_ids: children.iter().map(|s| (*s).to_string()).collect(),
        lesson: None,
        quizzes: Vec::new(),
    }
}

fn complete_atom(id: &str, prereqs: &[&str]) -> FlatConcept {
    atom(
        id,
        prereqs,
        Some("body"),
        vec![
            quiz(&format!("{id}.q1"), Difficulty::Easy),
            quiz(&format!("{id}.q2"), Difficulty::Medium),
            quiz(&format!("{id}.q3"), Difficulty::Hard),
        ],
    )
}

fn path(targets: &[&str], strategy: Strategy) -> PathFile {
    PathFile {
        id: PATH_ID.into(),
        goal: "goal".into(),
        created_at: TS.into(),
        targets: targets.iter().map(|s| (*s).to_string()).collect(),
        strategy,
    }
}

fn event(kind: EventKind, atom: Option<&str>, quiz: Option<&str>, rating: Option<Rating>) -> Event {
    Event {
        ts: TS.into(),
        kind,
        path: PATH_ID.into(),
        atom: atom.map(String::from),
        quiz: quiz.map(String::from),
        payload: EventPayload { rating, reason: None, user_answer: None },
    }
}

fn complete_events(id: &str) -> Vec<Event> {
    vec![
        event(EventKind::LessonTaught, Some(id), None, None),
        event(EventKind::QuizAnswered, None, Some(&format!("{id}.q1")), Some(Rating::Good)),
        event(EventKind::QuizAnswered, None, Some(&format!("{id}.q2")), Some(Rating::Good)),
        event(EventKind::QuizAnswered, None, Some(&format!("{id}.q3")), Some(Rating::Good)),
    ]
}

fn area(prefix: &str, slug: &str) -> ManifestArea {
    ManifestArea { prefix: prefix.into(), slug: slug.into(), file: format!("areas/{slug}.ayml"), summary: format!("about {slug}") }
}

// ── Paths: resolution ───────────────────────────────────────────────

#[test]
fn resolved_targets_put_prerequisites_first_least_id_first() {
    let g = Graph::from_concepts(vec![
        atom("b", &["c"], None, vec![]),
        atom("a", &[], None, vec![]),
        atom("c", &[], None, vec![]),
    ]);
    let p = path(&["b", "a", "c", "b"], Strategy::BottomUp);
    assert_eq!(p.resolve_targets(&g).unwrap(), vec!["a".to_string(), "c".to_string(), "b".to_string()]);
}

#[test]
fn resolution_errors_name_the_target() {
    let g = Graph::from_concepts(vec![cluster("k", &["k.missing"]), atom("x", &["y"], None, vec![]), atom("y", &["x"], None, vec![])]);
    assert_eq!(path(&["k"], Strategy::BottomUp).resolve_targets(&g), Err(Error::EmptyCluster("k".into())));
    assert_eq!(path(&["nope"], Strategy::BottomUp).resolve_targets(&g), Err(Error::UnknownId("nope".into())));
    assert_eq!(path(&["x", "y"], Strategy::BottomUp).resolve_targets(&g), Err(Error::Cycle));
}

#[test]
fn area_root_target_expands_to_its_atoms() {
    let g = Graph::from_concepts(vec![cluster("tx.1", &["tx.1.1"]), atom("tx.1.1", &[], None, vec![]), atom("tx.2", &[], None, vec![])]);
    let p = path(&["tx"], Strategy::BottomUp);
    assert_eq!(p.resolve_targets(&g).unwrap(), vec!["tx.1.1".to_string(), "tx.2".to_string()]);
}

// ── Overlay ─────────────────────────────────────────────────────────

fn empty_overlay() -> Overlay {
    Overlay { schema_version: 1, atoms: Vec::new() }
}

#[test]
fn add_lesson_refuses_a_second_lesson() {
    let mut o = empty_overlay();
    assert!(o.add_lesson("a", "first".into()).is_ok());
    assert_eq!(o.add_lesson("a", "second".into()), Err(Error::LessonAlreadyExists("a".into())));
    assert_eq!(o.atoms.len(), 1);
    assert_eq!(o.atoms[0].atom.lesson.as_deref(), Some("first"));
}

#[test]
fn amend_quiz_replaces_authored_version_and_untombstones() {
    let mut o = empty_overlay();
    o.add_quiz("a", raw("a.q4", Difficulty::Hard, "old"));
    o.remove_quiz("a", "a.q4");
    assert!(o.atoms[0].atom.removed.contains("a.q4"));
    o.amend_quiz("a", raw("a.q4", Difficulty::Hard, "new"));
    assert_eq!(o.atoms[0].atom.quizzes.len(), 1);
    assert_eq!(o.atoms[0].atom.quizzes[0].question, "new");
    assert!(!o.atoms[0].atom.removed.contains("a.q4"));
}

#[test]
fn remove_quiz_twice_is_removing_once() {
    let mut o = empty_overlay();
    o.remove_quiz("a", "a.q1");
    o.remove_quiz("a", "a.q1");
    assert_eq!(o.atoms.len(), 1);
    assert_eq!(o.atoms[0].atom.removed.len(), 1);
}

#[test]
fn merged_graph_overrides_lesson_replaces_appends_and_drops() {
    let mut g = Graph::from_concepts(vec![atom(
        "a",
        &[],
        Some("shipped"),
        vec![quiz("a.q1", Difficulty::Easy), quiz("a.q2", Difficulty::Medium), quiz("a.q3", Difficulty::Hard)],
    )]);
    let mut o = empty_overlay();
    o.add_lesson("a", "authored".into()).unwrap();
    o.amend_quiz("a", raw("a.q2", Difficulty::Medium, "amended"));
    o.add_quiz("a", raw("a.q4", Difficulty::Hard, "extra"));
    o.remove_quiz("a", "a.q3");
    o.add_lesson("ghost", "no such atom".into()).unwrap();
    g.apply_overlay(&o);
    let c = g.get("a").unwrap();
    assert_eq!(c.lesson.as_deref(), Some("authored"));
    let ids: Vec<&str> = c.quizzes.iter().map(|q| q.id.as_str()).collect();
    assert_eq!(ids, vec!["a.q1", "a.q2", "a.q4"]);
    assert_eq!(c.quizzes[1].question, "amended");
    assert!(g.get("ghost").is_none());
}

// ── Discover ────────────────────────────────────────────────────────

#[test]
fn show_view_of_atom_and_cluster() {
    let g = Graph::from_concepts(vec![
        cluster("la.2", &["la.2.1", "la.2.2"]),
        atom("la.2.1", &["fnd.1", "ghost"], Some("body"), vec![quiz("la.2.1.q1", Difficulty::Easy)]),
        atom("la.2.2", &[], None, vec![]),
        atom("fnd.1", &[], None, vec![]),
    ]);
    match show_view(&g, "la.2.1").unwrap() {
        ShowView::Concept(ConceptView::Atom(a)) => {
            assert_eq!(a.id, "la.2.1");
            assert!(a.is_atom && a.has_lesson);
            assert_eq!(a.quizzes, 1);
            assert_eq!(a.prerequisites.len(), 1);
            assert_eq!(a.prerequisites[0].id, "fnd.1");
            assert!(a.status.is_none());
        },
        other => panic!("expected an atom view, got {other:?}"),
    }
    match show_view(&g, "la.2").unwrap() {
        ShowView::Concept(ConceptView::Cluster(c)) => {
            assert!(!c.is_atom);
            assert_eq!(c.children.len(), 2);
            assert_eq!(c.atomic_descendants, 2);
        },
        other => panic!("expected a cluster view, got {other:?}"),
    }
    assert!(matches!(show_view(&g, "nope"), Err(Error::UnknownId(_))));
}

#[test]
fn list_view_areas_and_children_with_status() {
    let g = Graph::from_concepts(vec![cluster("la.2", &["la.2.1", "la.2.2"]), complete_atom("la.2.1", &[]), atom("la.2.2", &[], None, vec![])]);
    let manifest = Manifest { schema_version: 1, areas: vec![area("la", "linear-algebra"), area("fnd", "foundations")] };
    match list_view(&g, &manifest, None).unwrap() {
        ListView::Areas(a) => {
            assert_eq!(a.areas.len(), 2);
            assert_eq!(a.areas[1].slug, "foundations");
            assert_eq!(a.areas[0].summary, "about linear-algebra");
        },
        other => panic!("expected areas, got {other:?}"),
    }
    let mut v = list_view(&g, &manifest, Some("la.2")).unwrap();
    let progress = PathProgress::from_events(&complete_events("la.2.1"));
    enrich_list_view(&mut v, &g, &progress);
    match v {
        ListView::Children(c) => {
            assert_eq!(c.children.len(), 2);
            let s1 = c.children[0].status.expect("atom status");
            assert!(s1.lesson_taught && s1.complete);
            let s2 = c.children[1].status.expect("atom status");
            assert!(!s2.lesson_taught && !s2.complete);
        },
        other => panic!("expected children, got {other:?}"),
    }
    assert!(matches!(list_view(&g, &manifest, Some("nope")), Err(Error::UnknownId(_))));
}

#[test]
fn enrich_show_view_sets_atom_status_only() {
    let g = Graph::from_concepts(vec![cluster("k", &["k.1"]), complete_atom("k.1", &[])]);
    let progress = PathProgress::from_events(&complete_events("k.1"));
    let mut v = show_view(&g, "k.1").unwrap();
    enrich_show_view(&mut v, &g, &progress, "k.1");
    match v {
        ShowView::Concept(ConceptView::Atom(a)) => assert!(a.status.unwrap().complete),
        other => panic!("{other:?}"),
    }
    let mut c = show_view(&g, "k").unwrap();
    enrich_show_view(&mut c, &g, &progress, "k");
    assert!(matches!(c, ShowView::Concept(ConceptView::Cluster(_))));
}

// ── Subpath ─────────────────────────────────────────────────────────

#[test]
fn subpath_rules_in_order() {
    let g = Graph::from_concepts(vec![atom("p", &[], None, vec![]), atom("t", &["p"], None, vec![]), cluster("k", &["p"])]);
    let td = path(&["t"], Strategy::TopDown);
    let bu = path(&["t"], Strategy::BottomUp);
    let s = |v: &[&str]| v.iter().map(|x| x.to_string()).collect::<Vec<_>>();
    assert!(validate_subpath(&g, &td, &s(&["p", "t"])).is_ok());
    assert_eq!(validate_subpath(&g, &td, &[]), Err(Error::SubpathEmpty));
    assert_eq!(validate_subpath(&g, &bu, &s(&["p", "t"])), Err(Error::SubpathNotTopDown));
    assert_eq!(validate_subpath(&g, &td, &s(&["t", "p"])), Err(Error::SubpathTailNotTarget("p".into())));
    assert_eq!(validate_subpath(&g, &td, &s(&["p", "p", "t"])), Err(Error::SubpathDuplicateAtom("p".into())));
    assert_eq!(validate_subpath(&g, &td, &s(&["nope", "t"])), Err(Error::AtomNotFound("nope".into())));
    assert_eq!(validate_subpath(&g, &td, &s(&["k", "t"])), Err(Error::NotAtom("k".into())));
}

// ── Syllabus ────────────────────────────────────────────────────────

#[test]
fn syllabus_view_truncates_but_counts_all() {
    let g = Graph::from_concepts(vec![atom("a", &[], None, vec![]), atom("b", &["a"], None, vec![]), atom("c", &["b"], None, vec![])]);
    let p = path(&["c"], Strategy::BottomUp);
    let v = compute_syllabus(&g, &p, &[], &[], 2).unwrap();
    assert_eq!(v.schema_version, 1);
    assert_eq!(v.path, PATH_ID);
    assert_eq!(v.total_remaining, 3);
    let ids: Vec<&str> = v.atoms.iter().map(|a| a.id.as_str()).collect();
    assert_eq!(ids, vec!["a", "b"]);
    assert_eq!(v.atoms[0].name, "Atom a");
    assert_eq!(v.atoms[0].description.as_deref(), Some("desc a"));
}

#[test]
fn top_down_syllabus_lists_subpath_then_targets_once() {
    let g = Graph::from_concepts(vec![atom("p", &[], None, vec![]), atom("t", &["p"], None, vec![]), cluster("k", &["p"])]);
    let p = path(&["t"], Strategy::TopDown);
    let sub = vec!["k".to_string(), "p".to_string(), "t".to_string()];
    assert_eq!(upcoming_top_down(&g, &p, &[], &sub), vec!["p".to_string(), "t".to_string()]);
    let taught = vec![event(EventKind::LessonTaught, Some("p"), None, None)];
    assert_eq!(upcoming_top_down(&g, &p, &taught, &sub), vec!["t".to_string()]);
    let v = compute_syllabus(&g, &p, &taught, &sub, 10).unwrap();
    assert_eq!(v.total_remaining, 1);
}

// ── Store ───────────────────────────────────────────────────────────

#[test]
fn next_quiz_id_continues_past_highest_number() {
    let qs = vec![quiz("a.q1", Difficulty::Easy), quiz("a.q7", Difficulty::Medium), quiz("a.qx", Difficulty::Hard), quiz("b.q9", Difficulty::Hard)];
    assert_eq!(next_quiz_id("a", &qs), "a.q8");
    assert_eq!(next_quiz_id("a", &Vec::new()), "a.q1");
}

#[test]
fn storing_content_checks_the_atom() {
    let g = Graph::from_concepts(vec![atom("a", &[], Some("body"), vec![quiz("a.q2", Difficulty::Easy)]), atom("b", &[], None, vec![]), cluster("k", &["a"])]);
    assert_eq!(lesson_change(&g, "a").unwrap(), EventKind::LessonAmended);
    assert_eq!(lesson_change(&g, "b").unwrap(), EventKind::LessonAuthored);
    assert_eq!(lesson_change(&g, "k"), Err(Error::NotAtom("k".into())));
    assert_eq!(plan_new_quiz(&g, "a", QuizType::FreeText).unwrap(), ("a.q3".to_string(), None));
    assert_eq!(plan_new_quiz(&g, "a", QuizType::MultipleChoice).unwrap(), ("a.q3".to_string(), Some(QuizType::MultipleChoice)));
    assert_eq!(plan_new_quiz(&g, "b", QuizType::FreeText), Err(Error::NoLesson("b".into())));
    assert_eq!(plan_new_quiz(&g, "zz", QuizType::FreeText), Err(Error::AtomNotFound("zz".into())));
}

// ── Database settings ───────────────────────────────────────────────

#[test]
fn state_directory_and_database_path() {
    assert_eq!(mt_home(Some("/data/mt".into()), Some("/home/u".into())).unwrap(), "/data/mt");
    assert_eq!(mt_home(None, Some("/home/u".into())).unwrap(), "/home/u/.mathtutor");
    assert_eq!(mt_home(None, None), Err(Error::NoHome));
    assert_eq!(default_path("/home/u/.mathtutor/"), "/home/u/.mathtutor/mt.db");
    assert_eq!(join_path("", "mt.db"), "mt.db");
    let cfg = DbConfig::from_env(None, Some("/h".into()), Some("libsql://x".into()), Some("tok".into())).unwrap();
    assert_eq!(cfg.local_path, "/h/.mathtutor/mt.db");
    assert_eq!(cfg.sync.unwrap().auth_token, "tok");
    assert!(SyncConfig::from_env(Some("u".into()), None).is_none());
}

#[test]
fn timestamps_parse_as_instants() {
    assert_eq!(parse_ts("2026-05-26T00:00:00Z").unwrap(), (1_779_753_600, 0));
    assert_eq!(parse_ts("2026-05-26T02:00:00.5+02:00").unwrap(), (1_779_753_600, 500_000_000));
    match parse_ts("yesterday") {
        Err(Error::BadTimestamp(m)) => assert!(m.starts_with("yesterday: "), "got {m}"),
        other => panic!("{other:?}"),
    }
}

// ── Error messages ──────────────────────────────────────────────────

#[test]
fn error_messages_read_as_documented() {
    assert_eq!(Error::EmptyCluster("la.2".into()).message(), "cluster 'la.2' has no atomic descendants");
    assert_eq!(Error::Cycle.message(), "cycle in target atoms");
    assert_eq!(Error::InvalidRating(-3).message(), "invalid rating value: -3");
    assert_eq!(Error::AtomNotFound("x".into()).message(), "atom 'x' not found in graph");
    assert_eq!(Error::MissingAuth.message(), "missing MT_API_KEY or MT_ADMIN_PASSWORD");
}

// ── State and tree ──────────────────────────────────────────────────

#[test]
fn state_summary_and_lines() {
    let g = Graph::from_concepts(vec![complete_atom("a", &[]), atom("b", &["a"], None, vec![])]);
    let p = path(&["b"], Strategy::BottomUp);
    let progress = PathProgress::from_events(&complete_events("a"));
    let sub: Vec<String> = vec!["a".into(), "b".into()];
    let s = state::summarize_state(&g, &p, &progress, &vec!["a.q1".to_string()], &sub, "c".into(), "u".into(), None).unwrap();
    assert_eq!(s.targets.total, 1);
    assert_eq!(s.reachable.as_ref().unwrap().total, 2);
    assert_eq!(s.reachable.as_ref().unwrap().learned, 1);
    assert_eq!(s.subpath.len(), 1);
    assert_eq!(s.subpath[0].id, "b");
    assert_eq!(s.past_due, 1);
    assert_eq!(s.next.as_ref().unwrap().id, "a");
    let lines = state::state_lines(&s);
    assert_eq!(lines[0], "path:        p_test");
    assert_eq!(lines[2], "strategy:    bottom_up");
    assert_eq!(lines[5], "targets:     0 / 1 learned (0%)");
    assert_eq!(lines[6], "reachable:   2 atoms (1 with lesson, 1 learned)");
    assert_eq!(lines[7], "subpath:     b");
    assert_eq!(lines[8], "past due:    1");
    assert_eq!(lines[9], "most recent: —");
    assert_eq!(lines[10], "next:        a — Atom a");
}

#[test]
fn tree_view_sorts_naturally_and_cuts_at_depth() {
    let g = Graph::from_concepts(vec![
        cluster("tx.1", &["tx.1.10", "tx.1.2"]),
        atom("tx.1.10", &[], None, vec![]),
        atom("tx.1.2", &[], None, vec![]),
    ]);
    let p = path(&["tx.1.10", "tx.1.2"], Strategy::BottomUp);
    let targets = vec!["tx.1.10".to_string(), "tx.1.2".to_string()];
    let areas = vec![area("tx", "transformers")];
    let v = compute_tree(&g, &p, &targets, &areas, &PathProgress::default(), None);
    assert_eq!(v.nodes.len(), 1);
    assert_eq!(v.nodes[0].id, "tx.1");
    let kids: Vec<&str> = v.nodes[0].children.iter().map(|n| n.id.as_str()).collect();
    assert_eq!(kids, vec!["tx.1.2", "tx.1.10"]);
    assert!(v.nodes[0].children[0].is_target);
    assert_eq!(v.targets.total, 2);
    assert_eq!(v.reachable.total, 2);
    let cut = compute_tree(&g, &p, &targets, &areas, &PathProgress::default(), Some(1));
    assert!(cut.nodes[0].children.is_empty());
    let header = tree_header("p", "g", &v.targets, &v.reachable);
    assert_eq!(header[2], "targets:     0 / 2 learned (0%)");
    assert_eq!(header[3], "reachable:   2 atoms (0 with lesson, 0 learned)");
}

#[test]
fn check_report_lines() {
    let clean = CheckReport { areas: 1, clusters: 2, atoms: 3, max_depth: 2, prereq_edges: 4, issues: Vec::new() };
    let l = clean.lines();
    assert_eq!(l[5], "  total nodes:  5");
    assert_eq!(l.last().unwrap(), "graph check passed.");
    let bad = CheckReport {
        areas: 1,
        clusters: 0,
        atoms: 1,
        max_depth: 1,
        prereq_edges: 0,
        issues: vec![CheckIssue { area: Some("ta".into()), node: Some("ta.1".into()), message: "oops".into() }],
    };
    let l = bad.lines();
    assert_eq!(l[9], "Issues (1):");
    assert_eq!(l[10], "  ta/ta.1: oops");
    assert_eq!(l.last().unwrap(), "graph check FAILED.");
}
