//! Per-path progress snapshot: which atoms had their lesson delivered and
//! which quizzes were ever answered correctly.
use crate::event_log::{answers_correctly, teaches, Event, EventKind};
use crate::ids::IdSet;
use vstd::prelude::*;

verus! {

/// Atoms whose lesson an event of `events` delivers.
pub open spec fn taught_in(events: Seq<Event>) -> Set<Seq<char>> {
    Set::new(|a: Seq<char>| exists|i: int| 0 <= i < events.len() && teaches(events[i], a))
}

/// Quizzes that an event of `events` answers correctly.
pub open spec fn correct_in(events: Seq<Event>) -> Set<Seq<char>> {
    Set::new(|q: Seq<char>| exists|i: int| 0 <= i < events.len() && answers_correctly(events[i], q))
}

/// Cheap per-path snapshot: atoms taught, quizzes answered correctly.
pub struct PathProgress {
    pub taught_atoms: IdSet,
    pub correct_quizzes: IdSet,
}

impl Default for PathProgress {
    fn default() -> (p: PathProgress)
        ensures
            p.taught_atoms@ == Set::<Seq<char>>::empty(),
            p.correct_quizzes@ == Set::<Seq<char>>::empty(),
    {
        PathProgress { taught_atoms: IdSet::new(), correct_quizzes: IdSet::new() }
    }
}

impl PathProgress {
    pub fn lesson_taught(&self, atom_id: &str) -> (r: bool)
        ensures
            r == self.taught_atoms@.contains(atom_id@),
    {
        self.taught_atoms.contains(atom_id)
    }

    pub fn quiz_answered_correctly(&self, quiz_id: &str) -> (r: bool)
        ensures
            r == self.correct_quizzes@.contains(quiz_id@),
    {
        self.correct_quizzes.contains(quiz_id)
    }

    /// Folds an event log: `LessonTaught` and `LessonAuthored` mark their atom
    /// taught; a `QuizAnswered` with a non-`Again` rating marks its quiz
    /// correct.
    pub fn from_events(events: &[Event]) -> (p: PathProgress)
        ensures
            p.taught_atoms@ == taught_in(events@),
            p.correct_quizzes@ == correct_in(events@),
    {
        let mut taught = IdSet::new();
        let mut correct = IdSet::new();
        let mut i: usize = 0;
        while i < events.len()
            invariant
                i <= events@.len(),
                taught@ == taught_in(events@.take(i as int)),
                correct@ == correct_in(events@.take(i as int)),
            decreases events@.len() - i,
        {
            let e = &events[i];
            let ghost pre = events@.take(i as int);
            let ghost post = events@.take(i + 1);
            assert(post == pre.push(*e));
            let ghost t0 = taught@;
            let ghost c0 = correct@;
            match e.kind {
                EventKind::LessonTaught | EventKind::LessonAuthored => {
                    if let Some(a) = &e.atom {
                        taught.insert(a.as_str());
                    }
                },
                EventKind::QuizAnswered => {
                    match (&e.quiz, e.payload.rating) {
                        (Some(q), Some(r)) => {
                            if r.is_correct() {
                                correct.insert(q.as_str());
                            }
                        },
                        _ => {},
                    }
                },
                _ => {},
            }
            proof {
                assert(post[i as int] == *e);
                assert(taught@ == (if (e.kind == EventKind::LessonTaught || e.kind == EventKind::LessonAuthored) && e.atom is Some {
                    t0.insert(e.atom->0@)
                } else {
                    t0
                }));
                assert(correct@ == (if e.kind == EventKind::QuizAnswered && e.quiz is Some && e.payload.rating is Some && e.payload.rating->0 != crate::types::Rating::Again {
                    c0.insert(e.quiz->0@)
                } else {
                    c0
                }));
                assert forall|a: Seq<char>| taught@.contains(a) == taught_in(post).contains(a) by {
                    if taught_in(pre).contains(a) {
                        let j = choose|j: int| 0 <= j < pre.len() && teaches(pre[j], a);
                        assert(teaches(post[j], a));
                    }
                    if taught_in(post).contains(a) {
                        let j = choose|j: int| 0 <= j < post.len() && teaches(post[j], a);
                        if j < pre.len() {
                            assert(teaches(pre[j], a));
                        }
                    }
                }
                assert(taught@ =~= taught_in(post));
                assert forall|q: Seq<char>| correct@.contains(q) == correct_in(post).contains(q) by {
                    if correct_in(pre).contains(q) {
                        let j = choose|j: int| 0 <= j < pre.len() && answers_correctly(pre[j], q);
                        assert(answers_correctly(post[j], q));
                    }
                    if correct_in(post).contains(q) {
                        let j = choose|j: int| 0 <= j < post.len() && answers_correctly(post[j], q);
                        if j < pre.len() {
                            assert(answers_correctly(pre[j], q));
                        }
                    }
                }
                assert(correct@ =~= correct_in(post));
            }
            i = i + 1;
        }
        assert(events@.take(events@.len() as int) =~= events@);
        PathProgress { taught_atoms: taught, correct_quizzes: correct }
    }
}

} // verus!
