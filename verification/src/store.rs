//! Authoring against the merged graph: which event a stored lesson logs,
//! and the id and stored type of a new quiz. Quiz ids continue the
//! `<atom>.qN` sequence past the highest number in use.
use crate::error::Error;
use crate::event_log::EventKind;
use crate::graph::{FlatConcept, Graph, Quiz};
use crate::ids::{chars_of, to_owned};
use crate::text::{concat, decimal, decimal_string, joined, views};
use crate::tree::{dec_digit, lemma_decimal_digits, parse_u32, parse_u32_exec, unsigned_digits};
use crate::types::QuizType;
use vstd::prelude::*;
use vstd::string::*;

verus! {

/// The number a quiz id carries after `<atom>.q`, when it has that prefix
/// and the rest reads as a `u32`.
pub open spec fn quiz_number(atom: Seq<char>, id: Seq<char>) -> Option<u32> {
    let p = atom + ".q"@;
    if p.is_prefix_of(id) {
        parse_u32(id.skip(p.len() as int))
    } else {
        None
    }
}

/// The highest quiz number among `qs`, 0 when none carries one.
pub open spec fn max_quiz_number(atom: Seq<char>, qs: Seq<Quiz>) -> u32
    decreases qs.len(),
{
    if qs.len() == 0 {
        0
    } else {
        let m = max_quiz_number(atom, qs.drop_last());
        match quiz_number(atom, qs.last().id@) {
            Some(n) => if n > m {
                n
            } else {
                m
            },
            None => m,
        }
    }
}

/// `s` without its prefix `p`, when it has it.
fn strip_prefix(s: &str, p: &str) -> (r: Option<String>)
    ensures
        match r {
            Some(t) => p@.is_prefix_of(s@) && t@ == s@.skip(p@.len() as int),
            None => !p@.is_prefix_of(s@),
        },
{
    let cs = chars_of(s);
    let ps = chars_of(p);
    if cs.len() < ps.len() {
        return None;
    }
    let mut i: usize = 0;
    while i < ps.len()
        invariant
            ps@ == p@,
            cs@ == s@,
            ps@.len() <= cs@.len(),
            i <= ps@.len(),
            forall|k: int| 0 <= k < i ==> cs@[k] == ps@[k],
        decreases ps@.len() - i,
    {
        if cs[i] != ps[i] {
            return None;
        }
        i = i + 1;
    }
    assert(s@.take(p@.len() as int) =~= p@);
    let t = s.substring_char(ps.len(), cs.len());
    assert(t@ =~= s@.skip(p@.len() as int));
    Some(t.to_owned())
}


/// The highest quiz number among `quizzes` (see `max_quiz_number`).
pub fn highest_quiz_number(atom_id: &str, quizzes: &Vec<Quiz>) -> (r: u32)
    ensures
        r == max_quiz_number(atom_id@, quizzes@),
{
    let pparts: [&str; 2] = [atom_id, ".q"];
    let prefix = concat(&pparts);
    proof {
        assert(views(pparts@) =~= seq![atom_id@, ".q"@]);
        seq![atom_id@].lemma_flatten_one_element();
        assert(seq![atom_id@, ".q"@] =~= seq![atom_id@].push(".q"@));
        seq![atom_id@].lemma_flatten_push(".q"@);
    }
    let mut max: u32 = 0;
    let mut i: usize = 0;
    assert(quizzes@.take(0) =~= Seq::<Quiz>::empty());
    while i < quizzes.len()
        invariant
            i <= quizzes@.len(),
            prefix@ == atom_id@ + ".q"@,
            max == max_quiz_number(atom_id@, quizzes@.take(i as int)),
        decreases quizzes@.len() - i,
    {
        assert(quizzes@.take(i + 1).drop_last() =~= quizzes@.take(i as int));
        assert(quizzes@.take(i + 1).last() == quizzes@[i as int]);
        match strip_prefix(quizzes[i].id.as_str(), prefix.as_str()) {
            Some(rest) => match parse_u32_exec(rest.as_str()) {
                Some(n) => {
                    if n > max {
                        max = n;
                    }
                },
                None => {},
            },
            None => {},
        }
        i = i + 1;
    }
    assert(quizzes@.take(quizzes@.len() as int) =~= quizzes@);
    max
}

/// `<atom>.q<n>` with `n` one above the highest quiz number among
/// `quizzes`, so numbers freed by removals are never reused.
pub fn next_quiz_id(atom_id: &str, quizzes: &Vec<Quiz>) -> (r: String)
    requires
        max_quiz_number(atom_id@, quizzes@) < u32::MAX,
    ensures
        r@ == atom_id@ + ".q"@ + decimal((max_quiz_number(atom_id@, quizzes@) + 1) as nat),
{
    let pparts: [&str; 2] = [atom_id, ".q"];
    let prefix = concat(&pparts);
    proof {
        assert(views(pparts@) =~= seq![atom_id@, ".q"@]);
        seq![atom_id@].lemma_flatten_one_element();
        assert(seq![atom_id@, ".q"@] =~= seq![atom_id@].push(".q"@));
        seq![atom_id@].lemma_flatten_push(".q"@);
    }
    let max = highest_quiz_number(atom_id, quizzes);
    let num = decimal_string((max + 1) as u64);
    let parts: [&str; 2] = [prefix.as_str(), num.as_str()];
    let r = concat(&parts);
    proof {
        assert(views(parts@) =~= seq![prefix@, num@]);
        seq![prefix@].lemma_flatten_one_element();
        assert(seq![prefix@, num@] =~= seq![prefix@].push(num@));
        seq![prefix@].lemma_flatten_push(num@);
    }
    r
}

/// The event a stored lesson for `atom_id` logs: `LessonAmended` when the
/// merged graph already has a lesson for it, else `LessonAuthored`. The
/// id must name an atom (see `Graph::atom`).
pub fn lesson_change(g: &Graph, atom_id: &str) -> (r: Result<EventKind, Error>)
    ensures
        match r {
            Ok(k) => g@.contains_key(atom_id@) && g@[atom_id@].spec_is_atom()
                && k == (if g@[atom_id@].lesson is Some { EventKind::LessonAmended } else { EventKind::LessonAuthored }),
            Err(e) => if !g@.contains_key(atom_id@) {
                e matches Error::AtomNotFound(x) && x@ == atom_id@
            } else {
                !g@[atom_id@].spec_is_atom() && (e matches Error::NotAtom(x) && x@ == atom_id@)
            },
        },
{
    let c = match g.atom(atom_id) {
        Ok(c) => c,
        Err(e) => return Err(e),
    };
    if c.lesson.is_some() {
        Ok(EventKind::LessonAmended)
    } else {
        Ok(EventKind::LessonAuthored)
    }
}

/// The id and stored type of a new quiz on `atom_id`: the id continues
/// the atom's quiz numbers (see `next_quiz_id`); a free-text quiz is
/// stored without a type. The id must name an atom, and one with a lesson
/// (`NoLesson` otherwise).
pub fn plan_new_quiz(g: &Graph, atom_id: &str, quiz_type: QuizType) -> (r: Result<(String, Option<QuizType>), Error>)
    requires
        g@.contains_key(atom_id@) ==> max_quiz_number(atom_id@, g@[atom_id@].quizzes@) < u32::MAX,
    ensures
        match r {
            Ok((id, kind)) => g@.contains_key(atom_id@) && g@[atom_id@].spec_is_atom() && g@[atom_id@].lesson is Some
                && id@ == atom_id@ + ".q"@ + decimal((max_quiz_number(atom_id@, g@[atom_id@].quizzes@) + 1) as nat)
                && kind == (if quiz_type == QuizType::FreeText { None } else { Some(quiz_type) }),
            Err(e) => if !g@.contains_key(atom_id@) {
                e matches Error::AtomNotFound(x) && x@ == atom_id@
            } else if !g@[atom_id@].spec_is_atom() {
                e matches Error::NotAtom(x) && x@ == atom_id@
            } else {
                g@[atom_id@].lesson is None && (e matches Error::NoLesson(x) && x@ == atom_id@)
            },
        },
{
    let c = match g.atom(atom_id) {
        Ok(c) => c,
        Err(e) => return Err(e),
    };
    if c.lesson.is_none() {
        return Err(Error::NoLesson(to_owned(atom_id)));
    }
    let id = next_quiz_id(atom_id, &c.quizzes);
    let kind = match quiz_type {
        QuizType::FreeText => None,
        t => Some(t),
    };
    Ok((id, kind))
}


/// The highest quiz number is at least the number of every quiz.
proof fn lemma_max_bounds(atom: Seq<char>, qs: Seq<Quiz>, i: int)
    requires
        0 <= i < qs.len(),
        quiz_number(atom, qs[i].id@) is Some,
    ensures
        quiz_number(atom, qs[i].id@).unwrap() <= max_quiz_number(atom, qs),
    decreases qs.len(),
{
    if i < qs.len() - 1 {
        assert(qs.drop_last()[i] == qs[i]);
        lemma_max_bounds(atom, qs.drop_last(), i);
    }
}

/// The number a fresh quiz id carries reads back from the id.
proof fn lemma_number_of_fresh(atom: Seq<char>, n: nat)
    requires
        n <= u32::MAX,
    ensures
        quiz_number(atom, atom + ".q"@ + decimal(n)) == Some(n as u32),
{
    let p = atom + ".q"@;
    let id = p + decimal(n);
    assert(p.is_prefix_of(id)) by {
        assert(id.take(p.len() as int) =~= p);
    }
    assert(id.skip(p.len() as int) =~= decimal(n));
    lemma_decimal_digits(n);
    assert(decimal(n)[0] != '+') by {
        assert(dec_digit(decimal(n)[0]));
    }
    assert(unsigned_digits(decimal(n)) == decimal(n));
}

/// Quiz ids are never reused: the id `next_quiz_id` gives is that of none
/// of the atom's quizzes, removed ones included as long as they stay in
/// the list it is given.
pub proof fn law_new_quiz_id_fresh(atom: Seq<char>, qs: Seq<Quiz>)
    requires
        max_quiz_number(atom, qs) < u32::MAX,
    ensures
        forall|i: int| 0 <= i < qs.len() ==>
            #[trigger] qs[i].id@ != atom + ".q"@ + decimal((max_quiz_number(atom, qs) + 1) as nat),
{
    let n = (max_quiz_number(atom, qs) + 1) as nat;
    assert forall|i: int| 0 <= i < qs.len() implies #[trigger] qs[i].id@ != atom + ".q"@ + decimal(n) by {
        if qs[i].id@ == atom + ".q"@ + decimal(n) {
            lemma_number_of_fresh(atom, n);
            lemma_max_bounds(atom, qs, i);
        }
    }
}

} // verus!
