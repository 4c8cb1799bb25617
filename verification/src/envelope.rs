//! The record `mt path next` prints: the chosen action with the material
//! the agent needs to carry it out.
use crate::db::{parse_ts, rfc3339_parse};
use crate::error::Error;
use crate::graph::{known_concepts, FlatConcept, Graph, Quiz};
use crate::ids::{copy, copy_opt, opt_view, strs, to_owned};
use crate::path::PathFile;
use crate::scheduler::{Action, Step};
use crate::text::{concat, decimal, decimal_string, joined, signed_decimal, signed_decimal_string, views};
use crate::types::{difficulty_word, rating_of_code, Difficulty, QuizType, Rating};
use vstd::prelude::*;

verus! {

/// Past presentations of a lesson on one path.
#[derive(Debug)]
pub struct LessonHistory {
    pub repetitions: u32,
    /// The instant of the latest presentation (seconds and nanoseconds
    /// since the Unix epoch).
    pub last_presented_at: Option<(i64, u32)>,
}

/// Past presentations, answer counts and the latest ratings of one quiz
/// card on one path.
#[derive(Debug)]
pub struct QuizHistory {
    pub repetitions: u32,
    /// The instant of the latest presentation (seconds and nanoseconds
    /// since the Unix epoch).
    pub last_presented_at: Option<(i64, u32)>,
    pub correct_count: u32,
    pub total_count: u32,
    pub correct_pct: Option<u32>,
    /// Newest first.
    pub recent_ratings: Vec<Rating>,
}

impl Default for LessonHistory {
    fn default() -> (h: LessonHistory)
        ensures
            h.repetitions == 0,
            h.last_presented_at is None,
    {
        LessonHistory { repetitions: 0, last_presented_at: None }
    }
}

impl Default for QuizHistory {
    fn default() -> (h: QuizHistory)
        ensures
            h.repetitions == 0,
            h.last_presented_at is None,
            h.correct_count == 0,
            h.total_count == 0,
            h.correct_pct is None,
            h.recent_ratings@.len() == 0,
    {
        QuizHistory {
            repetitions: 0,
            last_presented_at: None,
            correct_count: 0,
            total_count: 0,
            correct_pct: None,
            recent_ratings: Vec::new(),
        }
    }
}

/// Nearest-integer percent of `n` over `d` (halves round up).
pub open spec fn spec_percent(n: nat, d: nat) -> nat {
    ((n * 100 + d / 2) / d) as nat
}

/// Nearest-integer percent, or `None` when `denominator == 0`.
pub fn percent(numerator: u32, denominator: u32) -> (r: Option<u32>)
    requires
        denominator > 0 ==> spec_percent(numerator as nat, denominator as nat) <= u32::MAX,
    ensures
        match r {
            Some(p) => denominator > 0 && p == spec_percent(numerator as nat, denominator as nat),
            None => denominator == 0,
        },
{
    if denominator == 0 {
        return None;
    }
    let num: u64 = (numerator as u64) * 100 + (denominator as u64) / 2;
    let q: u64 = num / (denominator as u64);
    Some(q as u32)
}

/// The stored text of the latest presentation, read as an instant:
/// `t` is what `s` gives (nothing for no text).
pub open spec fn latest_is(s: Option<String>, t: Option<(i64, u32)>) -> bool {
    match s {
        None => t is None,
        Some(x) => t matches Some(i) && rfc3339_parse(x@) == Ok::<(i64, u32), Seq<char>>(i),
    }
}

/// The stored text of the latest presentation is absent or parses.
pub open spec fn latest_parses(s: Option<String>) -> bool {
    match s {
        None => true,
        Some(x) => rfc3339_parse(x@) is Ok,
    }
}

/// `e` is the error for a stored latest-presentation text that does not
/// parse: `BadTimestamp` with the text and the parser's message.
pub open spec fn latest_refused(s: Option<String>, e: Error) -> bool {
    s matches Some(x) && rfc3339_parse(x@) matches Err(m) && e matches Error::BadTimestamp(y) && y@ == joined(
        seq![x@, ": "@, m],
    )
}

/// The stored latest-presentation text as an instant (see `latest_is`),
/// or the error for a text that does not parse.
fn read_latest(s: Option<String>) -> (r: Result<Option<(i64, u32)>, Error>)
    ensures
        match r {
            Ok(t) => latest_parses(s) && latest_is(s, t),
            Err(e) => !latest_parses(s) && latest_refused(s, e),
        },
{
    match s {
        None => Ok(None),
        Some(x) => match parse_ts(x.as_str()) {
            Ok(t) => Ok(Some(t)),
            Err(e) => Err(e),
        },
    }
}

/// The history of a lesson from its presentation count and the stored
/// text of the latest presentation. A count that does not fit in `u32`
/// means a broken cache; a stored time that is not RFC 3339 is
/// `BadTimestamp`.
pub fn lesson_history_from(count: i64, last_presented_at: Option<String>) -> (r: Result<LessonHistory, Error>)
    ensures
        !(0 <= count <= u32::MAX) ==> (r matches Err(e) && (e matches Error::CardsCorrupt(m) && m@ == joined(
            seq!["bad lesson_taught count "@, signed_decimal(count as int)],
        ))),
        0 <= count <= u32::MAX && !latest_parses(last_presented_at) ==> (r matches Err(e) && latest_refused(
            last_presented_at,
            e,
        )),
        0 <= count <= u32::MAX && latest_parses(last_presented_at) ==> (r matches Ok(h) && h.repetitions == count
            && latest_is(last_presented_at, h.last_presented_at)),
{
    if count < 0 || count > 4294967295 {
        let n = signed_decimal_string(count);
        let parts: [&str; 2] = ["bad lesson_taught count ", n.as_str()];
        let m = concat(&parts);
        assert(views(parts@) =~= seq!["bad lesson_taught count "@, n@]);
        return Err(Error::CardsCorrupt(m));
    }
    let last = read_latest(last_presented_at)?;
    Ok(LessonHistory { repetitions: count as u32, last_presented_at: last })
}

/// The history of a quiz card: its presentation count and the stored text
/// of its latest presentation, the card's repetitions and lapses if it has
/// a card, and its latest ratings (newest first) as stored integers. In
/// that order, a count that does not fit in `u32`, a stored time that is
/// not RFC 3339, more lapses than repetitions, or a stored rating outside
/// 1..=4 is an error.
pub fn quiz_history_from(
    path_id: &str,
    quiz_id: &str,
    presented: i64,
    last_presented_at: Option<String>,
    card: Option<(u32, u32)>,
    ratings: &Vec<i64>,
) -> (r: Result<QuizHistory, Error>)
    ensures
        !(0 <= presented <= u32::MAX) ==> (r matches Err(e) && (e matches Error::CardsCorrupt(m) && m@ == joined(
            seq!["bad presented count "@, signed_decimal(presented as int)],
        ))),
        0 <= presented <= u32::MAX && !latest_parses(last_presented_at) ==> (r matches Err(e) && latest_refused(
            last_presented_at,
            e,
        )),
        0 <= presented <= u32::MAX && latest_parses(last_presented_at) ==> match card {
            Some((reps, lapses)) => lapses > reps ==> (r matches Err(e) && (e matches Error::CardsCorrupt(m) && m@ == joined(
                seq!["lapses "@, decimal(lapses as nat), " > reps "@, decimal(reps as nat), " for "@, path_id@, "/"@, quiz_id@],
            ))),
            None => true,
        },
        (0 <= presented <= u32::MAX && latest_parses(last_presented_at) && !(card matches Some((reps, lapses)) && lapses
            > reps)) ==> match r {
            Ok(h) => {
                &&& h.repetitions == presented
                &&& latest_is(last_presented_at, h.last_presented_at)
                &&& match card {
                    Some((reps, lapses)) => h.total_count == reps && h.correct_count == reps - lapses
                        && h.correct_pct == (if reps == 0 {
                        None
                    } else {
                        Some(spec_percent((reps - lapses) as nat, reps as nat) as u32)
                    }),
                    None => h.total_count == 0 && h.correct_count == 0 && h.correct_pct is None,
                }
                &&& h.recent_ratings@.len() == ratings@.len()
                &&& forall|i: int| 0 <= i < ratings@.len() ==> rating_of_code(#[trigger] ratings@[i]) == Some(h.recent_ratings@[i])
            },
            Err(e) => exists|i: int|
                0 <= i < ratings@.len() && rating_of_code(ratings@[i]) is None && e == Error::InvalidRating(ratings@[i])
                    && forall|j: int| 0 <= j < i ==> rating_of_code(#[trigger] ratings@[j]) is Some,
        },
{
    if presented < 0 || presented > 4294967295 {
        let n = signed_decimal_string(presented);
        let parts: [&str; 2] = ["bad presented count ", n.as_str()];
        let m = concat(&parts);
        assert(views(parts@) =~= seq!["bad presented count "@, n@]);
        return Err(Error::CardsCorrupt(m));
    }
    let last = read_latest(last_presented_at)?;
    let ghost stored = last_presented_at;
    let mut h = QuizHistory {
        repetitions: presented as u32,
        last_presented_at: last,
        correct_count: 0,
        total_count: 0,
        correct_pct: None,
        recent_ratings: Vec::new(),
    };
    match card {
        Some((reps, lapses)) => {
            if lapses > reps {
                let l = decimal_string(lapses as u64);
                let rp = decimal_string(reps as u64);
                let parts: [&str; 8] = ["lapses ", l.as_str(), " > reps ", rp.as_str(), " for ", path_id, "/", quiz_id];
                let m = concat(&parts);
                assert(views(parts@) =~= seq!["lapses "@, l@, " > reps "@, rp@, " for "@, path_id@, "/"@, quiz_id@]);
                return Err(Error::CardsCorrupt(m));
            }
            h.total_count = reps;
            h.correct_count = reps - lapses;
            assert((reps - lapses) as nat * 100 + reps as nat / 2 <= reps as nat * 100 + reps as nat);
            assert(reps > 0 ==> spec_percent((reps - lapses) as nat, reps as nat) <= 101) by (nonlinear_arith)
                requires
                    lapses <= reps,
            ;
            h.correct_pct = percent(reps - lapses, reps);
        },
        None => {},
    }
    let mut i: usize = 0;
    while i < ratings.len()
        invariant
            i <= ratings@.len(),
            h.recent_ratings@.len() == i,
            forall|j: int| 0 <= j < i ==> rating_of_code(#[trigger] ratings@[j]) == Some(h.recent_ratings@[j]),
            h.repetitions == presented,
            latest_is(stored, h.last_presented_at),
            stored == last_presented_at,
            latest_parses(stored),
            match card {
                Some((reps, lapses)) => h.total_count == reps && h.correct_count == reps - lapses && h.correct_pct == (if reps == 0 {
                    None
                } else {
                    Some(spec_percent((reps - lapses) as nat, reps as nat) as u32)
                }),
                None => h.total_count == 0 && h.correct_count == 0 && h.correct_pct is None,
            },
        decreases ratings@.len() - i,
    {
        match Rating::try_from_int(ratings[i]) {
            Ok(r) => {
                h.recent_ratings.push(r);
            },
            Err(e) => {
                return Err(e);
            },
        }
        i = i + 1;
    }
    Ok(h)
}


// ── The record ──────────────────────────────────────────────────────

/// The record `mt path next` prints.
#[derive(Debug)]
pub struct Envelope {
    pub schema_version: u32,
    pub action: String,
    pub path: String,
    pub payload: Payload,
}

/// What comes with each action.
#[derive(Debug)]
pub enum Payload {
    PresentQuiz(PresentQuizPayload),
    PresentLesson(PresentLessonPayload),
    CreateLesson(CreateLessonPayload),
    CreateQuiz(CreateQuizPayload),
    Done(DonePayload),
}

#[derive(Debug)]
pub struct CreateLessonPayload {
    pub atom: AtomBrief,
    pub prerequisites: Vec<PrereqBrief>,
    pub next_step: String,
}

#[derive(Debug)]
pub struct PresentLessonPayload {
    pub atom: AtomBrief,
    pub reason: String,
    pub history: LessonHistory,
    pub next_step: String,
}

#[derive(Debug)]
pub struct CreateQuizPayload {
    pub atom: AtomBrief,
    pub target_difficulty: Difficulty,
    pub existing_quizzes: Vec<ExistingQuizBrief>,
    pub prerequisites: Vec<PrereqBrief>,
    pub next_step: String,
}

#[derive(Debug)]
pub struct PresentQuizPayload {
    pub atom: AtomBrief,
    pub quiz: QuizFull,
    pub history: QuizHistory,
    pub next_step: String,
}

#[derive(Debug)]
pub struct AtomBrief {
    pub id: String,
    pub name: String,
    pub description: Option<String>,
    pub lesson: Option<String>,
}

#[derive(Debug)]
pub struct PrereqBrief {
    pub id: String,
    pub name: String,
    pub description: Option<String>,
    pub lesson: Option<String>,
}

#[derive(Debug)]
pub struct ExistingQuizBrief {
    pub id: String,
    pub difficulty: Difficulty,
    pub question: String,
}

#[derive(Debug)]
pub struct QuizFull {
    pub id: String,
    pub difficulty: Difficulty,
    pub kind: QuizType,
    pub question: String,
    pub answer: String,
    pub rubric: Option<String>,
}

#[derive(Debug)]
pub struct DonePayload {
    pub message: String,
}

/// `b` shows the concept `c`; its lesson only when `with_lesson`.
pub open spec fn atom_brief_of(b: AtomBrief, c: FlatConcept, with_lesson: bool) -> bool {
    &&& b.id@ == c.id@
    &&& b.name@ == c.name@
    &&& opt_view(b.description) == opt_view(c.description)
    &&& opt_view(b.lesson) == (if with_lesson {
        opt_view(c.lesson)
    } else {
        None
    })
}

/// `b` shows the prerequisite concept `c`.
pub open spec fn prereq_brief_of(b: PrereqBrief, c: FlatConcept) -> bool {
    &&& b.id@ == c.id@
    &&& b.name@ == c.name@
    &&& opt_view(b.description) == opt_view(c.description)
    &&& opt_view(b.lesson) == opt_view(c.lesson)
}

/// `bs` show the concepts `cs`, one for one.
pub open spec fn prereq_briefs_of(bs: Seq<PrereqBrief>, cs: Seq<FlatConcept>) -> bool {
    bs.len() == cs.len() && forall|i: int| 0 <= i < bs.len() ==> #[trigger] prereq_brief_of(bs[i], cs[i])
}

/// Briefs of the prerequisites of `c` that the graph has, in order.
pub fn collect_prereqs(g: &Graph, c: &FlatConcept) -> (r: Vec<PrereqBrief>)
    ensures
        prereq_briefs_of(r@, known_concepts(g@, c.prereqs())),
{
    let ghost ps = c.prereqs();
    let mut out: Vec<PrereqBrief> = Vec::new();
    let mut i: usize = 0;
    assert(ps.take(0) =~= Seq::<Seq<char>>::empty());
    while i < c.prerequisites.len()
        invariant
            i <= c.prerequisites@.len(),
            ps == c.prereqs(),
            prereq_briefs_of(out@, known_concepts(g@, ps.take(i as int))),
        decreases c.prerequisites@.len() - i,
    {
        assert(ps.take(i + 1).drop_last() =~= ps.take(i as int));
        assert(ps.take(i + 1).last() == c.prerequisites@[i as int]@);
        match g.get(c.prerequisites[i].as_str()) {
            Some(pc) => {
                let ghost before = out@;
                out.push(PrereqBrief {
                    id: copy(&pc.id),
                    name: copy(&pc.name),
                    description: copy_opt(&pc.description),
                    lesson: copy_opt(&pc.lesson),
                });
                assert forall|k: int| 0 <= k < out@.len() implies #[trigger] prereq_brief_of(out@[k], known_concepts(g@, ps.take(i + 1))[k]) by {
                    if k < before.len() {
                        assert(out@[k] == before[k]);
                    }
                }
            },
            None => {},
        }
        i = i + 1;
    }
    assert(ps.take(c.prerequisites@.len() as int) =~= ps);
    out
}

/// The brief of an existing quiz.
pub open spec fn existing_brief_of(b: ExistingQuizBrief, q: Quiz) -> bool {
    b.id@ == q.id@ && b.difficulty == q.difficulty && b.question@ == q.question@
}

pub open spec fn msg_answer(quiz_id: Seq<char>) -> Seq<char> {
    joined(seq!["mt quiz answer "@, quiz_id, " --rating {again|hard|good|easy}"@])
}

pub open spec fn msg_upsert(atom_id: Seq<char>) -> Seq<char> {
    joined(seq!["mt lesson upsert "@, atom_id, " --body TEXT"@])
}

pub open spec fn msg_create(atom_id: Seq<char>, d: Difficulty) -> Seq<char> {
    joined(seq!["mt quiz create "@, atom_id, " --difficulty "@, difficulty_word(d), " --question TEXT --answer TEXT [--rubric TEXT]"@])
}

/// The atom and quiz an action names exist in the graph.
pub open spec fn action_resolves(g: Map<Seq<char>, FlatConcept>, s: Step) -> bool {
    match s {
        Step::PresentQuiz { quiz, atom } => g.contains_key(atom) && exists|j: int|
            0 <= j < g[atom].quizzes@.len() && g[atom].quizzes@[j].id@ == quiz,
        Step::CreateLesson { atom } => g.contains_key(atom),
        Step::PresentLesson { atom } => g.contains_key(atom),
        Step::CreateQuiz { atom, .. } => g.contains_key(atom),
        Step::Done => true,
    }
}

/// Whether the graph has what `action` names (see `action_resolves`), so
/// that a record can be built for it.
pub fn resolves(g: &Graph, action: &Action) -> (r: bool)
    ensures
        r == action_resolves(g@, action@),
{
    match action {
        Action::PresentQuiz { quiz_id, atom_id } => match g.get(atom_id.as_str()) {
            Some(c) => {
                let mut j: usize = 0;
                while j < c.quizzes.len()
                    invariant
                        j <= c.quizzes@.len(),
                        g@.contains_key(atom_id@),
                        *c == g@[atom_id@],
                        action@ == (Step::PresentQuiz { quiz: quiz_id@, atom: atom_id@ }),
                        forall|i: int| 0 <= i < j ==> c.quizzes@[i].id@ != quiz_id@,
                    decreases c.quizzes@.len() - j,
                {
                    if crate::ids::str_eq(c.quizzes[j].id.as_str(), quiz_id.as_str()) {
                        assert(g@[atom_id@].quizzes@[j as int].id@ == quiz_id@);
                        return true;
                    }
                    j = j + 1;
                }
                false
            },
            None => false,
        },
        Action::CreateLesson { atom_id } => g.contains(atom_id.as_str()),
        Action::PresentLesson { atom_id } => g.contains(atom_id.as_str()),
        Action::CreateQuiz { atom_id, .. } => g.contains(atom_id.as_str()),
        Action::Done => true,
    }
}

/// The first quiz of `qs` with id `id`.
pub open spec fn first_quiz(qs: Seq<Quiz>, id: Seq<char>) -> Quiz {
    qs[choose|j: int| 0 <= j < qs.len() && qs[j].id@ == id && forall|i: int| 0 <= i < j ==> qs[i].id@ != id]
}

impl Envelope {
    /// The record for `action` on path `p`. A present-lesson record carries
    /// `lesson_history` and a present-quiz record `quiz_history`; the other
    /// is not used.
    pub fn build(g: &Graph, p: &PathFile, action: Action, lesson_history: LessonHistory, quiz_history: QuizHistory) -> (r: Envelope)
        requires
            action_resolves(g@, action@),
        ensures
            r.schema_version == 1,
            r.path@ == p.id@,
            match action@ {
                Step::PresentLesson { atom } => r.action@ == "present_lesson"@ && (r.payload matches Payload::PresentLesson(pl)
                    && atom_brief_of(pl.atom, g@[atom], true) && pl.reason@ == "not_taught"@ && pl.history == lesson_history
                    && pl.next_step@ == "mt path next"@),
                Step::PresentQuiz { quiz, atom } => r.action@ == "present_quiz"@ && (r.payload matches Payload::PresentQuiz(pq)
                    && atom_brief_of(pq.atom, g@[atom], true) && pq.history == quiz_history && pq.next_step@ == msg_answer(quiz)
                    && ({
                    let q = first_quiz(g@[atom].quizzes@, quiz);
                    &&& pq.quiz.id@ == q.id@
                    &&& pq.quiz.difficulty == q.difficulty
                    &&& pq.quiz.kind == (match q.kind {
                        Some(k) => k,
                        None => QuizType::FreeText,
                    })
                    &&& pq.quiz.question@ == q.question@
                    &&& pq.quiz.answer@ == q.answer@
                    &&& opt_view(pq.quiz.rubric) == opt_view(q.rubric)
                })),
                Step::CreateLesson { atom } => r.action@ == "create_lesson"@ && (r.payload matches Payload::CreateLesson(cl)
                    && atom_brief_of(cl.atom, g@[atom], false) && prereq_briefs_of(cl.prerequisites@, known_concepts(g@, g@[atom].prereqs()))
                    && cl.next_step@ == msg_upsert(atom)),
                Step::CreateQuiz { atom, difficulty } => r.action@ == "create_quiz"@ && (r.payload matches Payload::CreateQuiz(cq)
                    && atom_brief_of(cq.atom, g@[atom], true) && cq.target_difficulty == difficulty
                    && cq.existing_quizzes@.len() == g@[atom].quizzes@.len() && (forall|i: int|
                    0 <= i < cq.existing_quizzes@.len() ==> #[trigger] existing_brief_of(cq.existing_quizzes@[i], g@[atom].quizzes@[i]))
                    && prereq_briefs_of(cq.prerequisites@, known_concepts(g@, g@[atom].prereqs()))
                    && cq.next_step@ == msg_create(atom, difficulty)),
                Step::Done => r.action@ == "done"@ && (r.payload matches Payload::Done(d) && d.message@ == "Path complete."@),
            },
    {
        let ghost s = action@;
        match action {
            Action::PresentLesson { atom_id } => {
                let c = g.get(atom_id.as_str()).unwrap();
                let atom = AtomBrief {
                    id: copy(&c.id),
                    name: copy(&c.name),
                    description: copy_opt(&c.description),
                    lesson: copy_opt(&c.lesson),
                };
                Envelope {
                    schema_version: 1,
                    action: to_owned("present_lesson"),
                    path: copy(&p.id),
                    payload: Payload::PresentLesson(PresentLessonPayload {
                        atom,
                        reason: to_owned("not_taught"),
                        history: lesson_history,
                        next_step: to_owned("mt path next"),
                    }),
                }
            },
            Action::PresentQuiz { quiz_id, atom_id } => {
                let c = g.get(atom_id.as_str()).unwrap();
                let mut j: usize = 0;
                while j < c.quizzes.len() && !crate::ids::str_eq(c.quizzes[j].id.as_str(), quiz_id.as_str())
                    invariant
                        j <= c.quizzes@.len(),
                        forall|i: int| 0 <= i < j ==> c.quizzes@[i].id@ != quiz_id@,
                    decreases c.quizzes@.len() - j,
                {
                    j = j + 1;
                }
                proof {
                    if j == c.quizzes@.len() {
                        let k = choose|k: int| 0 <= k < c.quizzes@.len() && c.quizzes@[k].id@ == quiz_id@;
                        assert(c.quizzes@[k].id@ != quiz_id@);
                    }
                }
                let q = &c.quizzes[j];
                proof {
                    let k = choose|k: int| 0 <= k < c.quizzes@.len() && c.quizzes@[k].id@ == quiz_id@ && forall|i: int| 0 <= i < k ==> c.quizzes@[i].id@ != quiz_id@;
                    if k < j {
                    } else if j < k {
                    }
                    assert(first_quiz(c.quizzes@, quiz_id@) == *q);
                }
                let atom = AtomBrief {
                    id: copy(&c.id),
                    name: copy(&c.name),
                    description: copy_opt(&c.description),
                    lesson: copy_opt(&c.lesson),
                };
                let kind = match q.kind {
                    Some(k) => k,
                    None => QuizType::FreeText,
                };
                let quiz = QuizFull {
                    id: copy(&q.id),
                    difficulty: q.difficulty,
                    kind,
                    question: copy(&q.question),
                    answer: copy(&q.answer),
                    rubric: copy_opt(&q.rubric),
                };
                let parts: [&str; 3] = ["mt quiz answer ", quiz_id.as_str(), " --rating {again|hard|good|easy}"];
                let next_step = concat(&parts);
                assert(views(parts@) =~= seq!["mt quiz answer "@, quiz_id@, " --rating {again|hard|good|easy}"@]);
                Envelope {
                    schema_version: 1,
                    action: to_owned("present_quiz"),
                    path: copy(&p.id),
                    payload: Payload::PresentQuiz(PresentQuizPayload { atom, quiz, history: quiz_history, next_step }),
                }
            },
            Action::CreateLesson { atom_id } => {
                let c = g.get(atom_id.as_str()).unwrap();
                let atom = AtomBrief {
                    id: copy(&c.id),
                    name: copy(&c.name),
                    description: copy_opt(&c.description),
                    lesson: None,
                };
                let prerequisites = collect_prereqs(g, c);
                let parts: [&str; 3] = ["mt lesson upsert ", atom_id.as_str(), " --body TEXT"];
                let next_step = concat(&parts);
                assert(views(parts@) =~= seq!["mt lesson upsert "@, atom_id@, " --body TEXT"@]);
                Envelope {
                    schema_version: 1,
                    action: to_owned("create_lesson"),
                    path: copy(&p.id),
                    payload: Payload::CreateLesson(CreateLessonPayload { atom, prerequisites, next_step }),
                }
            },
            Action::CreateQuiz { atom_id, difficulty } => {
                let c = g.get(atom_id.as_str()).unwrap();
                let atom = AtomBrief {
                    id: copy(&c.id),
                    name: copy(&c.name),
                    description: copy_opt(&c.description),
                    lesson: copy_opt(&c.lesson),
                };
                let mut existing_quizzes: Vec<ExistingQuizBrief> = Vec::new();
                let mut i: usize = 0;
                while i < c.quizzes.len()
                    invariant
                        i <= c.quizzes@.len(),
                        existing_quizzes@.len() == i,
                        forall|k: int| 0 <= k < i ==> #[trigger] existing_brief_of(existing_quizzes@[k], c.quizzes@[k]),
                    decreases c.quizzes@.len() - i,
                {
                    let q = &c.quizzes[i];
                    existing_quizzes.push(ExistingQuizBrief { id: copy(&q.id), difficulty: q.difficulty, question: copy(&q.question) });
                    i = i + 1;
                }
                let prerequisites = collect_prereqs(g, c);
                let parts: [&str; 5] = [
                    "mt quiz create ",
                    atom_id.as_str(),
                    " --difficulty ",
                    difficulty.as_str(),
                    " --question TEXT --answer TEXT [--rubric TEXT]",
                ];
                let next_step = concat(&parts);
                assert(views(parts@) =~= seq!["mt quiz create "@, atom_id@, " --difficulty "@, difficulty_word(difficulty), " --question TEXT --answer TEXT [--rubric TEXT]"@]);
                Envelope {
                    schema_version: 1,
                    action: to_owned("create_quiz"),
                    path: copy(&p.id),
                    payload: Payload::CreateQuiz(CreateQuizPayload {
                        atom,
                        target_difficulty: difficulty,
                        existing_quizzes,
                        prerequisites,
                        next_step,
                    }),
                }
            },
            Action::Done => Envelope {
                schema_version: 1,
                action: to_owned("done"),
                path: copy(&p.id),
                payload: Payload::Done(DonePayload { message: to_owned("Path complete.") }),
            },
        }
    }
}

} // verus!
