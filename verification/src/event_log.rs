//! Per-path learning events: their kinds, payloads and typed constructors.
use crate::error::Error;
use crate::ids::str_eq;
use crate::types::Rating;
use vstd::prelude::*;
use vstd::string::*;

verus! {

/// What happened.
#[derive(Debug, Clone, Copy, PartialEq, Eq, Structural)]
pub enum EventKind {
    PathCreated,
    LessonAuthored,
    LessonAmended,
    LessonTaught,
    QuizAuthored,
    QuizPresented,
    QuizAnswered,
    QuizAmended,
    QuizRemoved,
}

/// Storage spelling of an event kind.
pub open spec fn kind_word(k: EventKind) -> Seq<char> {
    match k {
        EventKind::PathCreated => "path_created"@,
        EventKind::LessonAuthored => "lesson_authored"@,
        EventKind::LessonAmended => "lesson_amended"@,
        EventKind::LessonTaught => "lesson_taught"@,
        EventKind::QuizAuthored => "quiz_authored"@,
        EventKind::QuizPresented => "quiz_presented"@,
        EventKind::QuizAnswered => "quiz_answered"@,
        EventKind::QuizAmended => "quiz_amended"@,
        EventKind::QuizRemoved => "quiz_removed"@,
    }
}

impl EventKind {
    pub fn as_str(self) -> (s: &'static str)
        ensures
            s@ == kind_word(self),
    {
        match self {
            EventKind::PathCreated => "path_created",
            EventKind::LessonAuthored => "lesson_authored",
            EventKind::LessonAmended => "lesson_amended",
            EventKind::LessonTaught => "lesson_taught",
            EventKind::QuizAuthored => "quiz_authored",
            EventKind::QuizPresented => "quiz_presented",
            EventKind::QuizAnswered => "quiz_answered",
            EventKind::QuizAmended => "quiz_amended",
            EventKind::QuizRemoved => "quiz_removed",
        }
    }

    /// Parses a storage spelling; anything else is `UnknownEventKind`.
    pub fn parse(s: &str) -> (r: Result<EventKind, Error>)
        ensures
            match r {
                Ok(k) => kind_word(k) == s@,
                Err(e) => (forall|k: EventKind| kind_word(k) != s@) && (e matches Error::UnknownEventKind(x) && x@ == s@),
            },
    {
        if str_eq(s, "path_created") {
            Ok(EventKind::PathCreated)
        } else if str_eq(s, "lesson_authored") {
            Ok(EventKind::LessonAuthored)
        } else if str_eq(s, "lesson_amended") {
            Ok(EventKind::LessonAmended)
        } else if str_eq(s, "lesson_taught") {
            Ok(EventKind::LessonTaught)
        } else if str_eq(s, "quiz_authored") {
            Ok(EventKind::QuizAuthored)
        } else if str_eq(s, "quiz_presented") {
            Ok(EventKind::QuizPresented)
        } else if str_eq(s, "quiz_answered") {
            Ok(EventKind::QuizAnswered)
        } else if str_eq(s, "quiz_amended") {
            Ok(EventKind::QuizAmended)
        } else if str_eq(s, "quiz_removed") {
            Ok(EventKind::QuizRemoved)
        } else {
            Err(Error::UnknownEventKind(crate::ids::to_owned(s)))
        }
    }
}

/// Event fields beyond the kind and the ids.
#[derive(Debug)]
pub struct EventPayload {
    pub rating: Option<Rating>,
    pub reason: Option<String>,
    pub user_answer: Option<String>,
}

impl Default for EventPayload {
    fn default() -> (p: EventPayload)
        ensures
            p.rating is None,
            p.reason is None,
            p.user_answer is None,
    {
        EventPayload { rating: None, reason: None, user_answer: None }
    }
}

impl EventPayload {
    pub fn is_empty(&self) -> (r: bool)
        ensures
            r == (self.rating is None && self.reason is None && self.user_answer is None),
    {
        self.rating.is_none() && self.reason.is_none() && self.user_answer.is_none()
    }
}

/// One entry of a path's event log. `ts` is an RFC 3339 UTC timestamp.
#[derive(Debug)]
pub struct Event {
    pub ts: String,
    pub kind: EventKind,
    pub path: String,
    pub atom: Option<String>,
    pub quiz: Option<String>,
    pub payload: EventPayload,
}

/// The event records that `atom` had its lesson delivered (taught, or
/// authored, which implies presenting).
pub open spec fn teaches(e: Event, atom: Seq<char>) -> bool {
    (e.kind == EventKind::LessonTaught || e.kind == EventKind::LessonAuthored) && (e.atom matches Some(a) && a@ == atom)
}

/// The event records a correct (non-`Again`) answer to `quiz`.
pub open spec fn answers_correctly(e: Event, quiz: Seq<char>) -> bool {
    e.kind == EventKind::QuizAnswered && (e.quiz matches Some(q) && q@ == quiz) && (e.payload.rating matches Some(r) && r != Rating::Again)
}

fn simple(ts: String, kind: EventKind, path: String, atom: Option<String>, quiz: Option<String>) -> (e: Event)
    ensures
        e.ts == ts,
        e.kind == kind,
        e.path == path,
        e.atom == atom,
        e.quiz == quiz,
        e.payload.rating is None,
        e.payload.reason is None,
        e.payload.user_answer is None,
{
    Event { ts, kind, path, atom, quiz, payload: EventPayload::default() }
}

pub fn path_created(path: String, ts: String) -> (e: Event)
    ensures
        e.kind == EventKind::PathCreated,
        e.path == path,
        e.ts == ts,
        e.atom is None,
        e.quiz is None,
        e.payload.rating is None && e.payload.reason is None && e.payload.user_answer is None,
{
    simple(ts, EventKind::PathCreated, path, None, None)
}

pub fn lesson_authored(path: String, atom: String, ts: String) -> (e: Event)
    ensures
        e.kind == EventKind::LessonAuthored,
        e.path == path,
        e.ts == ts,
        e.atom == Some(atom),
        e.quiz is None,
        e.payload.rating is None && e.payload.reason is None && e.payload.user_answer is None,
{
    simple(ts, EventKind::LessonAuthored, path, Some(atom), None)
}

pub fn lesson_amended(path: String, atom: String, ts: String) -> (e: Event)
    ensures
        e.kind == EventKind::LessonAmended,
        e.path == path,
        e.ts == ts,
        e.atom == Some(atom),
        e.quiz is None,
        e.payload.rating is None && e.payload.reason is None && e.payload.user_answer is None,
{
    simple(ts, EventKind::LessonAmended, path, Some(atom), None)
}

pub fn lesson_taught(path: String, atom: String, ts: String) -> (e: Event)
    ensures
        e.kind == EventKind::LessonTaught,
        e.path == path,
        e.ts == ts,
        e.atom == Some(atom),
        e.quiz is None,
        e.payload.rating is None && e.payload.reason is None && e.payload.user_answer is None,
{
    simple(ts, EventKind::LessonTaught, path, Some(atom), None)
}

pub fn quiz_authored(path: String, atom: String, quiz: String, ts: String) -> (e: Event)
    ensures
        e.kind == EventKind::QuizAuthored,
        e.path == path,
        e.ts == ts,
        e.atom == Some(atom),
        e.quiz == Some(quiz),
        e.payload.rating is None && e.payload.reason is None && e.payload.user_answer is None,
{
    simple(ts, EventKind::QuizAuthored, path, Some(atom), Some(quiz))
}

pub fn quiz_presented(path: String, atom: String, quiz: String, ts: String) -> (e: Event)
    ensures
        e.kind == EventKind::QuizPresented,
        e.path == path,
        e.ts == ts,
        e.atom == Some(atom),
        e.quiz == Some(quiz),
        e.payload.rating is None && e.payload.reason is None && e.payload.user_answer is None,
{
    simple(ts, EventKind::QuizPresented, path, Some(atom), Some(quiz))
}

pub fn quiz_amended(path: String, atom: String, quiz: String, ts: String) -> (e: Event)
    ensures
        e.kind == EventKind::QuizAmended,
        e.path == path,
        e.ts == ts,
        e.atom == Some(atom),
        e.quiz == Some(quiz),
        e.payload.rating is None && e.payload.reason is None && e.payload.user_answer is None,
{
    simple(ts, EventKind::QuizAmended, path, Some(atom), Some(quiz))
}

pub fn quiz_removed(path: String, atom: String, quiz: String, ts: String) -> (e: Event)
    ensures
        e.kind == EventKind::QuizRemoved,
        e.path == path,
        e.ts == ts,
        e.atom == Some(atom),
        e.quiz == Some(quiz),
        e.payload.rating is None && e.payload.reason is None && e.payload.user_answer is None,
{
    simple(ts, EventKind::QuizRemoved, path, Some(atom), Some(quiz))
}

pub fn quiz_answered(
    path: String,
    atom: Option<String>,
    quiz: String,
    rating: Rating,
    user_answer: Option<String>,
    ts: String,
) -> (e: Event)
    ensures
        e.kind == EventKind::QuizAnswered,
        e.path == path,
        e.ts == ts,
        e.atom == atom,
        e.quiz == Some(quiz),
        e.payload.rating == Some(rating),
        e.payload.reason is None,
        e.payload.user_answer == user_answer,
{
    Event {
        ts,
        kind: EventKind::QuizAnswered,
        path,
        atom,
        quiz: Some(quiz),
        payload: EventPayload { rating: Some(rating), reason: None, user_answer },
    }
}


/// Each event kind has its own storage spelling, so reading back what
/// `as_str` wrote gives the same kind.
pub proof fn law_kind_words_distinct(k1: EventKind, k2: EventKind)
    ensures
        kind_word(k1) == kind_word(k2) ==> k1 == k2,
{
    reveal_strlit("path_created");
    reveal_strlit("lesson_authored");
    reveal_strlit("lesson_amended");
    reveal_strlit("lesson_taught");
    reveal_strlit("quiz_authored");
    reveal_strlit("quiz_presented");
    reveal_strlit("quiz_answered");
    reveal_strlit("quiz_amended");
    reveal_strlit("quiz_removed");
    if kind_word(k1) == kind_word(k2) && k1 != k2 {
        let a = kind_word(k1);
        let b = kind_word(k2);
        assert(a.len() == b.len());
        assert(a[0] == b[0] && a[5] == b[5] && a[7] == b[7] && a[8] == b[8] && a[9] == b[9]);
    }
}

} // verus!
