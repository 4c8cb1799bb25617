//! The integer side of the spaced-repetition card cache: answer counts,
//! the whole days between two reviews, and the answers of a path grouped
//! per quiz for a rebuild. The memory model itself works in floating
//! point and runs in the program around the library.
use crate::event_log::{answers_correctly, Event, EventKind};
use crate::progress::correct_in;
use crate::ids::{copy, str_eq, to_owned};
use crate::types::Rating;
use vstd::prelude::*;

verus! {

/// Nanoseconds in a day.
pub const NANOS_PER_DAY: i128 = 86_400_000_000_000;

/// The whole days from instant `last` to instant `ts` (seconds and
/// nanoseconds since the epoch), none when `ts` is not after `last`.
pub open spec fn whole_days(last: (i64, u32), ts: (i64, u32)) -> int {
    let span = (ts.0 - last.0) * 1_000_000_000 + (ts.1 - last.1);
    if span > 0 {
        span / (NANOS_PER_DAY as int)
    } else {
        0
    }
}

/// The day count handed to the memory model for an answer at `ts`: the
/// whole days since the previous review, taken modulo 2^32 as an unsigned
/// 32-bit number; 0 for a first answer.
pub open spec fn elapsed_days(prev_review: Option<(i64, u32)>, ts: (i64, u32)) -> u32 {
    match prev_review {
        Some(last) => (whole_days(last, ts) % 0x1_0000_0000) as u32,
        None => 0,
    }
}

/// The elapsed-day count of an answer (see `elapsed_days`).
pub fn days_elapsed(prev_review: Option<(i64, u32)>, ts: (i64, u32)) -> (r: u32)
    ensures
        r == elapsed_days(prev_review, ts),
{
    match prev_review {
        Some(last) => {
            let secs: i128 = ts.0 as i128 - last.0 as i128;
            let nanos: i128 = ts.1 as i128 - last.1 as i128;
            assert(-0x1_0000_0000_0000_0000 <= secs <= 0x1_0000_0000_0000_0000);
            let span: i128 = secs * 1_000_000_000 + nanos;
            if span > 0 {
                let days: i128 = span / NANOS_PER_DAY;
                let low: i128 = days % 0x1_0000_0000;
                low as u32
            } else {
                0
            }
        },
        None => 0,
    }
}

/// Answer counts after one more answer rated `rating`: one more
/// repetition, and one more lapse when it was `Again`.
pub open spec fn counts_after(prev: Option<(u32, u32)>, rating: Rating) -> (int, int) {
    let (reps, lapses) = match prev {
        Some(c) => c,
        None => (0u32, 0u32),
    };
    (reps + 1, if rating == Rating::Again { lapses + 1 } else { lapses as int })
}

/// The counts a cached card has after an answer (see `counts_after`).
pub fn next_counts(prev: Option<(u32, u32)>, rating: Rating) -> (r: (u32, u32))
    requires
        prev matches Some(c) ==> c.0 < u32::MAX && c.1 < u32::MAX,
    ensures
        r.0 == counts_after(prev, rating).0,
        r.1 == counts_after(prev, rating).1,
{
    let (reps, lapses) = match prev {
        Some(c) => c,
        None => (0, 0),
    };
    let again = match rating {
        Rating::Again => true,
        _ => false,
    };
    (reps + 1, if again { lapses + 1 } else { lapses })
}

/// One answer of a quiz: when it was given, and how it was rated.
#[derive(Debug)]
pub struct Answer {
    pub ts: String,
    pub rating: Rating,
}

/// The answers of one quiz, in log order.
#[derive(Debug)]
pub struct QuizAnswers {
    pub quiz_id: String,
    pub answers: Vec<Answer>,
}

/// The answer event `e` records for quiz `q`, as (timestamp, rating).
pub open spec fn answer_in(e: Event, q: Seq<char>) -> Option<(Seq<char>, Rating)> {
    if e.kind == EventKind::QuizAnswered && (e.quiz matches Some(x) && x@ == q) && e.payload.rating is Some {
        Some((e.ts@, e.payload.rating.unwrap()))
    } else {
        None
    }
}

/// Every rated answer the log `events` records for quiz `q`, in order.
pub open spec fn answers_for(events: Seq<Event>, q: Seq<char>) -> Seq<(Seq<char>, Rating)>
    decreases events.len(),
{
    if events.len() == 0 {
        Seq::empty()
    } else {
        let rest = answers_for(events.drop_last(), q);
        match answer_in(events.last(), q) {
            Some(a) => rest.push(a),
            None => rest,
        }
    }
}

/// The view of a list of answers.
pub open spec fn answer_views(v: Seq<Answer>) -> Seq<(Seq<char>, Rating)> {
    v.map_values(|a: Answer| (a.ts@, a.rating))
}

/// `groups` holds each answered quiz of `events` once, with its answers
/// in log order, and nothing else.
pub open spec fn grouped(groups: Seq<QuizAnswers>, events: Seq<Event>) -> bool {
    &&& forall|i: int, j: int| 0 <= i < j < groups.len() ==> groups[i].quiz_id@ != groups[j].quiz_id@
    &&& forall|i: int| 0 <= i < groups.len() ==> answer_views(#[trigger] groups[i].answers@) == answers_for(events, groups[i].quiz_id@)
        && groups[i].answers@.len() > 0
    &&& forall|q: Seq<char>| #[trigger] answers_for(events, q).len() > 0 ==> exists|i: int| 0 <= i < groups.len() && groups[i].quiz_id@ == q
}

fn position_of(groups: &Vec<QuizAnswers>, q: &str) -> (r: Option<usize>)
    ensures
        match r {
            Some(i) => i < groups@.len() && groups@[i as int].quiz_id@ == q@,
            None => forall|i: int| 0 <= i < groups@.len() ==> groups@[i].quiz_id@ != q@,
        },
{
    let mut i: usize = 0;
    while i < groups.len()
        invariant
            i <= groups@.len(),
            forall|k: int| 0 <= k < i ==> groups@[k].quiz_id@ != q@,
        decreases groups@.len() - i,
    {
        if str_eq(groups[i].quiz_id.as_str(), q) {
            return Some(i);
        }
        i = i + 1;
    }
    None
}

/// The rated answers of the log `events`, grouped per quiz in the order
/// the quizzes were first answered, each group in log order.
pub fn answers_by_quiz(events: &Vec<Event>) -> (r: Vec<QuizAnswers>)
    ensures
        grouped(r@, events@),
{
    let mut out: Vec<QuizAnswers> = Vec::new();
    let mut i: usize = 0;
    while i < events.len()
        invariant
            i <= events@.len(),
            grouped(out@, events@.take(i as int)),
        decreases events@.len() - i,
    {
        let ghost pre = events@.take(i as int);
        let ghost next = events@.take(i + 1);
        assert(next.drop_last() =~= pre);
        assert(next.last() == events@[i as int]);
        let e = &events[i];
        let is_answer = match e.kind {
            EventKind::QuizAnswered => true,
            _ => false,
        };
        if is_answer && e.quiz.is_some() && e.payload.rating.is_some() {
            let q = match &e.quiz {
                Some(q) => q.as_str(),
                None => "",
            };
            let rating = match e.payload.rating {
                Some(r) => r,
                None => Rating::Again,
            };
            let a = Answer { ts: copy(&e.ts), rating };
            let ghost old_out = out@;
            match position_of(&out, q) {
                Some(k) => {
                    let mut g = out.remove(k);
                    let ghost gq = g.quiz_id@;
                    let ghost old_answers = g.answers@;
                    g.answers.push(a);
                    out.insert(k, g);
                    proof {
                        assert(answer_views(out@[k as int].answers@) =~= answer_views(old_answers).push((e.ts@, rating)));
                        assert forall|j: int| 0 <= j < out@.len() && j != k implies #[trigger] out@[j] == old_out[j] by {}
                        assert forall|qq: Seq<char>| #[trigger] answers_for(next, qq).len() > 0 implies exists|j: int| 0 <= j < out@.len() && out@[j].quiz_id@ == qq by {
                            if qq != q@ {
                                assert(answer_in(next.last(), qq) is None);
                                assert(answers_for(next, qq) == answers_for(pre, qq));
                                let j = choose|j: int| 0 <= j < old_out.len() && old_out[j].quiz_id@ == qq;
                                assert(out@[j].quiz_id@ == qq);
                            } else {
                                assert(out@[k as int].quiz_id@ == qq);
                            }
                        }
                        assert forall|j: int| 0 <= j < out@.len() implies answer_views(#[trigger] out@[j].answers@) == answers_for(next, out@[j].quiz_id@)
                            && out@[j].answers@.len() > 0 by {
                            if j != k {
                                assert(out@[j] == old_out[j]);
                            }
                        }
                    }
                },
                None => {
                    let mut answers: Vec<Answer> = Vec::new();
                    answers.push(a);
                    let g = QuizAnswers { quiz_id: to_owned(q), answers };
                    out.push(g);
                    proof {
                        assert(answers_for(pre, q@).len() == 0) by {
                            if answers_for(pre, q@).len() > 0 {
                                let j = choose|j: int| 0 <= j < old_out.len() && old_out[j].quiz_id@ == q@;
                            }
                        }
                        assert(answers_for(pre, q@) =~= Seq::<(Seq<char>, Rating)>::empty());
                        assert(answer_views(out@.last().answers@) =~= seq![(e.ts@, rating)]);
                        assert forall|qq: Seq<char>| #[trigger] answers_for(next, qq).len() > 0 implies exists|j: int| 0 <= j < out@.len() && out@[j].quiz_id@ == qq by {
                            if qq != q@ {
                                assert(answer_in(next.last(), qq) is None);
                                assert(answers_for(next, qq) == answers_for(pre, qq));
                                let j = choose|j: int| 0 <= j < old_out.len() && old_out[j].quiz_id@ == qq;
                                assert(out@[j].quiz_id@ == qq);
                            } else {
                                assert(out@[out@.len() - 1].quiz_id@ == qq);
                            }
                        }
                        assert forall|j: int| 0 <= j < out@.len() implies answer_views(#[trigger] out@[j].answers@) == answers_for(next, out@[j].quiz_id@)
                            && out@[j].answers@.len() > 0 by {
                            if j < old_out.len() {
                                assert(out@[j] == old_out[j]);
                            }
                        }
                    }
                },
            }
        } else {
            proof {
                assert forall|qq: Seq<char>| answer_in(events@[i as int], qq) is None by {}
                assert forall|qq: Seq<char>| #[trigger] answers_for(next, qq) == answers_for(pre, qq) by {}
            }
        }
        i = i + 1;
    }
    assert(events@.take(events@.len() as int) =~= events@);
    out
}

/// The answer counts of a group: its answers, and those rated `Again`.
pub open spec fn lapses_in(v: Seq<(Seq<char>, Rating)>) -> int
    decreases v.len(),
{
    if v.len() == 0 {
        0
    } else {
        lapses_in(v.drop_last()) + if v.last().1 == Rating::Again { 1int } else { 0int }
    }
}

/// The repetitions and lapses of a group of answers (see `lapses_in`).
pub fn group_counts(answers: &Vec<Answer>) -> (r: (u32, u32))
    requires
        answers@.len() <= u32::MAX,
    ensures
        r.0 == answers@.len(),
        r.1 == lapses_in(answer_views(answers@)),
{
    let mut lapses: u32 = 0;
    let mut i: usize = 0;
    while i < answers.len()
        invariant
            i <= answers@.len(),
            answers@.len() <= u32::MAX,
            lapses == lapses_in(answer_views(answers@).take(i as int)),
            lapses <= i,
        decreases answers@.len() - i,
    {
        assert(answer_views(answers@).take(i + 1).drop_last() =~= answer_views(answers@).take(i as int));
        match answers[i].rating {
            Rating::Again => {
                lapses = lapses + 1;
            },
            _ => {},
        }
        i = i + 1;
    }
    assert(answer_views(answers@).take(answers@.len() as int) =~= answer_views(answers@));
    (answers.len() as u32, lapses)
}


/// A group never holds more lapses than answers.
proof fn lemma_lapses_bound(v: Seq<(Seq<char>, Rating)>)
    ensures
        0 <= lapses_in(v) <= v.len(),
    decreases v.len(),
{
    if v.len() > 0 {
        lemma_lapses_bound(v.drop_last());
    }
}

/// A card's counts tell whether its quiz was answered correctly: the log
/// marks quiz `q` correct (some answer to it is rated above `Again`)
/// exactly when its answers outnumber its lapses.
pub proof fn law_counts_mark_correct(events: Seq<Event>, q: Seq<char>)
    ensures
        correct_in(events).contains(q) <==> answers_for(events, q).len() > lapses_in(answers_for(events, q)),
    decreases events.len(),
{
    if events.len() == 0 {
        assert(!correct_in(events).contains(q));
    } else {
        let pre = events.drop_last();
        let e = events.last();
        law_counts_mark_correct(pre, q);
        lemma_lapses_bound(answers_for(pre, q));
        assert(correct_in(events).contains(q) <==> (correct_in(pre).contains(q) || answers_correctly(e, q))) by {
            if correct_in(events).contains(q) {
                let i = choose|i: int| 0 <= i < events.len() && answers_correctly(events[i], q);
                if i < events.len() - 1 {
                    assert(pre[i] == events[i]);
                }
            }
            if correct_in(pre).contains(q) {
                let i = choose|i: int| 0 <= i < pre.len() && answers_correctly(pre[i], q);
                assert(events[i] == pre[i]);
            }
            if answers_correctly(e, q) {
                assert(answers_correctly(events[events.len() - 1], q));
            }
        }
        let v = answers_for(pre, q);
        match answer_in(e, q) {
            Some(a) => {
                let w = v.push(a);
                assert(w.drop_last() =~= v);
            },
            None => {},
        }
    }
}


/// The counts a card holds after its answers `v` were recorded one by
/// one, each through `counts_after`; none before the first.
pub open spec fn replayed_counts(v: Seq<(Seq<char>, Rating)>) -> Option<(u32, u32)>
    decreases v.len(),
{
    if v.len() == 0 {
        None
    } else {
        let c = counts_after(replayed_counts(v.drop_last()), v.last().1);
        Some((c.0 as u32, c.1 as u32))
    }
}

/// The card cache can be rebuilt from the log: recording a quiz's answers
/// one at a time leaves the counts that counting the whole group at once
/// gives (its answers, and those rated `Again`).
pub proof fn law_counts_rebuild(v: Seq<(Seq<char>, Rating)>)
    requires
        v.len() <= u32::MAX,
    ensures
        v.len() > 0 ==> replayed_counts(v) == Some((v.len() as u32, lapses_in(v) as u32)),
    decreases v.len(),
{
    lemma_lapses_bound(v);
    if v.len() > 0 {
        let w = v.drop_last();
        lemma_lapses_bound(w);
        let prev = replayed_counts(w);
        if w.len() > 0 {
            law_counts_rebuild(w);
            assert(prev == Some((w.len() as u32, lapses_in(w) as u32)));
        } else {
            assert(prev is None);
            assert(lapses_in(w) == 0);
        }
        let c = counts_after(prev, v.last().1);
        assert(c.0 == w.len() + 1);
        assert(c.1 == lapses_in(w) + if v.last().1 == Rating::Again { 1int } else { 0int });
        assert(lapses_in(v) == lapses_in(w) + if v.last().1 == Rating::Again { 1int } else { 0int });
    }
}

} // verus!
