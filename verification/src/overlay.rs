//! The user overlay: lessons and quizzes authored on top of the shipped
//! curriculum, keyed by atom id, and how they merge into the graph.
use crate::error::Error;
use crate::graph::{FlatConcept, Graph, Quiz, QuizRaw};
use crate::ids::{copy, copy_opt, opt_view, str_eq, strs, to_owned, IdSet};
use crate::types::{Difficulty, QuizType};
use vstd::prelude::*;

verus! {

/// What the overlay holds for one atom.
#[derive(Debug)]
pub struct OverlayAtom {
    pub lesson: Option<String>,
    /// Authored quizzes. One whose id matches a shipped quiz replaces it in
    /// the merged view; the others are appended after the shipped ones.
    pub quizzes: Vec<QuizRaw>,
    /// Quiz ids left out of the merged view, shipped or authored.
    pub removed: IdSet,
}

/// The overlay entry of one atom.
#[derive(Debug)]
pub struct OverlayEntry {
    pub atom_id: String,
    pub atom: OverlayAtom,
}

/// The overlay: one entry per atom.
#[derive(Debug)]
pub struct Overlay {
    pub schema_version: u32,
    pub atoms: Vec<OverlayEntry>,
}

/// A quiz as plain values: id, difficulty, type, question, answer, rubric.
pub type QuizV = (Seq<char>, Difficulty, Option<QuizType>, Seq<char>, Seq<char>, Option<Seq<char>>);

pub open spec fn quiz_v(q: Quiz) -> QuizV {
    (q.id@, q.difficulty, q.kind, q.question@, q.answer@, opt_view(q.rubric))
}

pub open spec fn raw_v(q: QuizRaw) -> QuizV {
    (q.id@, q.difficulty, q.kind, q.question@, q.answer@, opt_view(q.rubric))
}

pub open spec fn quiz_views(qs: Seq<Quiz>) -> Seq<QuizV> {
    qs.map_values(|q: Quiz| quiz_v(q))
}

fn quiz_from_raw(r: &QuizRaw) -> (q: Quiz)
    ensures
        quiz_v(q) == raw_v(*r),
{
    Quiz {
        id: copy(&r.id),
        difficulty: r.difficulty,
        kind: r.kind,
        question: copy(&r.question),
        answer: copy(&r.answer),
        rubric: copy_opt(&r.rubric),
    }
}

fn quiz_copy(r: &Quiz) -> (q: Quiz)
    ensures
        quiz_v(q) == quiz_v(*r),
{
    Quiz {
        id: copy(&r.id),
        difficulty: r.difficulty,
        kind: r.kind,
        question: copy(&r.question),
        answer: copy(&r.answer),
        rubric: copy_opt(&r.rubric),
    }
}

impl OverlayAtom {
    /// An entry with no lesson, no quizzes and no removals.
    pub fn is_empty(&self) -> (r: bool)
        ensures
            r == (self.lesson is None && self.quizzes@.len() == 0 && self.removed@ == Set::<Seq<char>>::empty()),
    {
        self.lesson.is_none() && self.quizzes.len() == 0 && self.removed.is_empty()
    }

    /// The authored quizzes as quiz cards, in order.
    pub fn quizzes_flat(&self) -> (r: Vec<Quiz>)
        ensures
            quiz_views(r@) == self.quizzes@.map_values(|q: QuizRaw| raw_v(q)),
    {
        let mut out: Vec<Quiz> = Vec::new();
        let mut i: usize = 0;
        while i < self.quizzes.len()
            invariant
                i <= self.quizzes@.len(),
                quiz_views(out@) == self.quizzes@.take(i as int).map_values(|q: QuizRaw| raw_v(q)),
            decreases self.quizzes@.len() - i,
        {
            let ghost before = out@;
            let q = quiz_from_raw(&self.quizzes[i]);
            out.push(q);
            assert(quiz_views(out@) =~= quiz_views(before).push(quiz_v(q)));
            assert(self.quizzes@.take(i + 1) =~= self.quizzes@.take(i as int).push(self.quizzes@[i as int]));
            assert(self.quizzes@.take(i + 1).map_values(|q: QuizRaw| raw_v(q)) =~= self.quizzes@.take(i as int).map_values(|q: QuizRaw| raw_v(q)).push(raw_v(self.quizzes@[i as int])));
            i = i + 1;
        }
        assert(self.quizzes@.take(self.quizzes@.len() as int) =~= self.quizzes@);
        out
    }
}

// ── Merge ───────────────────────────────────────────────────────────

/// The first authored quiz with id `id`.
pub open spec fn first_raw(ov: Seq<QuizRaw>, id: Seq<char>) -> Option<QuizRaw>
    decreases ov.len(),
{
    if ov.len() == 0 {
        None
    } else if ov[0].id@ == id {
        Some(ov[0])
    } else {
        first_raw(ov.drop_first(), id)
    }
}

/// A shipped quiz as the merge shows it: replaced by the authored quiz
/// with its id, if there is one.
pub open spec fn replaced(q: Quiz, ov: Seq<QuizRaw>) -> QuizV {
    match first_raw(ov, q.id@) {
        Some(r) => raw_v(r),
        None => quiz_v(q),
    }
}

/// The shipped quizzes, replaced where authored, without the removed ids.
pub open spec fn merged_shipped(shipped: Seq<Quiz>, e: OverlayAtom) -> Seq<QuizV>
    decreases shipped.len(),
{
    if shipped.len() == 0 {
        Seq::empty()
    } else {
        merged_shipped(shipped.drop_last(), e) + if e.removed@.contains(shipped.last().id@) {
            Seq::empty()
        } else {
            seq![replaced(shipped.last(), e.quizzes@)]
        }
    }
}

/// The authored quizzes whose ids no shipped quiz has, without the
/// removed ids.
pub open spec fn merged_added(shipped: Seq<Quiz>, ov: Seq<QuizRaw>, removed: Set<Seq<char>>) -> Seq<QuizV>
    decreases ov.len(),
{
    if ov.len() == 0 {
        Seq::empty()
    } else {
        merged_added(shipped, ov.drop_last(), removed) + if quiz_views(shipped).map_values(|v: QuizV| v.0).contains(ov.last().id@)
            || removed.contains(ov.last().id@) {
            Seq::empty()
        } else {
            seq![raw_v(ov.last())]
        }
    }
}

/// The merged quizzes of an atom: shipped ones (replaced where authored),
/// then authored ones with new ids, leaving out removed ids.
pub open spec fn merged_quizzes(shipped: Seq<Quiz>, e: OverlayAtom) -> Seq<QuizV> {
    merged_shipped(shipped, e) + merged_added(shipped, e.quizzes@, e.removed@)
}

/// The merged lesson: the overlay's if it has one, else the shipped one.
pub open spec fn merged_lesson(shipped: Option<String>, e: OverlayAtom) -> Option<Seq<char>> {
    if e.lesson is Some {
        opt_view(e.lesson)
    } else {
        opt_view(shipped)
    }
}

/// Position of the first authored quiz with id `id`.
pub open spec fn raw_pos(qs: Seq<QuizRaw>, id: Seq<char>) -> Option<int>
    decreases qs.len(),
{
    if qs.len() == 0 {
        None
    } else if qs[0].id@ == id {
        Some(0)
    } else {
        match raw_pos(qs.drop_first(), id) {
            Some(k) => Some(k + 1),
            None => None,
        }
    }
}

/// `qs` with `q` in place of the first quiz with its id, or appended when
/// there is none.
pub open spec fn upserted(qs: Seq<QuizRaw>, q: QuizRaw) -> Seq<QuizRaw> {
    match raw_pos(qs, q.id@) {
        Some(j) => qs.update(j, q),
        None => qs.push(q),
    }
}

proof fn lemma_raw_pos(qs: Seq<QuizRaw>, id: Seq<char>, j: int)
    requires
        0 <= j <= qs.len(),
        forall|k: int| 0 <= k < j ==> qs[k].id@ != id,
    ensures
        j < qs.len() && qs[j].id@ == id ==> raw_pos(qs, id) == Some(j) && first_raw(qs, id) == Some(qs[j]),
        j == qs.len() ==> raw_pos(qs, id) is None && first_raw(qs, id) is None,
    decreases j,
{
    if j > 0 {
        let t = qs.drop_first();
        assert forall|k: int| 0 <= k < j - 1 implies t[k].id@ != id by {
            assert(t[k] == qs[k + 1]);
        }
        lemma_raw_pos(t, id, j - 1);
        if j < qs.len() {
            assert(t[j - 1] == qs[j]);
        }
    }
}

fn find_raw(ov: &Vec<QuizRaw>, id: &str) -> (r: Option<usize>)
    ensures
        match r {
            Some(j) => j < ov@.len() && raw_pos(ov@, id@) == Some(j as int)
                && first_raw(ov@, id@) == Some(ov@[j as int]),
            None => raw_pos(ov@, id@) is None && first_raw(ov@, id@) is None,
        },
{
    let mut j: usize = 0;
    while j < ov.len()
        invariant
            j <= ov@.len(),
            forall|k: int| 0 <= k < j ==> ov@[k].id@ != id@,
        decreases ov@.len() - j,
    {
        if str_eq(ov[j].id.as_str(), id) {
            proof {
                lemma_raw_pos(ov@, id@, j as int);
            }
            return Some(j);
        }
        j = j + 1;
    }
    proof {
        lemma_raw_pos(ov@, id@, j as int);
    }
    None
}

/// Whether some quiz of `qs` has id `id`.
fn has_quiz(qs: &Vec<Quiz>, id: &str) -> (r: bool)
    ensures
        r == quiz_views(qs@).map_values(|v: QuizV| v.0).contains(id@),
{
    let mut j: usize = 0;
    while j < qs.len()
        invariant
            j <= qs@.len(),
            forall|k: int| 0 <= k < j ==> qs@[k].id@ != id@,
        decreases qs@.len() - j,
    {
        if str_eq(qs[j].id.as_str(), id) {
            assert(quiz_views(qs@).map_values(|v: QuizV| v.0)[j as int] == id@);
            return true;
        }
        j = j + 1;
    }
    proof {
        let ids = quiz_views(qs@).map_values(|v: QuizV| v.0);
        if ids.contains(id@) {
            let k = choose|k: int| 0 <= k < ids.len() && ids[k] == id@;
            assert(qs@[k].id@ == id@);
        }
    }
    false
}

/// The merged quizzes of one atom (see `merged_quizzes`).
pub fn merge_quizzes(shipped: &Vec<Quiz>, e: &OverlayAtom) -> (r: Vec<Quiz>)
    ensures
        quiz_views(r@) == merged_quizzes(shipped@, *e),
{
    let mut out: Vec<Quiz> = Vec::new();
    let mut i: usize = 0;
    assert(shipped@.take(0) =~= Seq::<Quiz>::empty());
    while i < shipped.len()
        invariant
            i <= shipped@.len(),
            quiz_views(out@) == merged_shipped(shipped@.take(i as int), *e),
        decreases shipped@.len() - i,
    {
        let q = &shipped[i];
        assert(shipped@.take(i + 1).drop_last() =~= shipped@.take(i as int));
        assert(shipped@.take(i + 1).last() == *q);
        let ghost before = quiz_views(out@);
        if !e.removed.contains(q.id.as_str()) {
            let nq = match find_raw(&e.quizzes, q.id.as_str()) {
                Some(j) => quiz_from_raw(&e.quizzes[j]),
                None => quiz_copy(q),
            };
            out.push(nq);
            assert(quiz_views(out@) =~= before.push(quiz_v(nq)));
        }
        i = i + 1;
    }
    assert(shipped@.take(shipped@.len() as int) =~= shipped@);
    let ghost mid = quiz_views(out@);
    let mut k: usize = 0;
    assert(e.quizzes@.take(0) =~= Seq::<QuizRaw>::empty());
    while k < e.quizzes.len()
        invariant
            k <= e.quizzes@.len(),
            quiz_views(out@) == mid + merged_added(shipped@, e.quizzes@.take(k as int), e.removed@),
        decreases e.quizzes@.len() - k,
    {
        let r = &e.quizzes[k];
        assert(e.quizzes@.take(k + 1).drop_last() =~= e.quizzes@.take(k as int));
        assert(e.quizzes@.take(k + 1).last() == *r);
        let ghost before = quiz_views(out@);
        if !has_quiz(shipped, r.id.as_str()) && !e.removed.contains(r.id.as_str()) {
            let nq = quiz_from_raw(r);
            out.push(nq);
            assert(quiz_views(out@) =~= before.push(quiz_v(nq)));
        }
        assert(quiz_views(out@) =~= mid + merged_added(shipped@, e.quizzes@.take(k + 1), e.removed@));
        k = k + 1;
    }
    assert(e.quizzes@.take(e.quizzes@.len() as int) =~= e.quizzes@);
    out
}

/// No two entries are about the same atom.
pub open spec fn distinct_atoms(entries: Seq<OverlayEntry>) -> bool {
    forall|i: int, j: int| 0 <= i < j < entries.len() ==> entries[i].atom_id@ != entries[j].atom_id@
}

/// `c` is the concept `old` with the overlay entry `e` merged in: the
/// lesson and the quizzes as the merge gives them, everything else kept.
pub open spec fn merged_into(c: FlatConcept, old: FlatConcept, e: OverlayAtom) -> bool {
    &&& c.id == old.id
    &&& c.name == old.name
    &&& c.description == old.description
    &&& c.prerequisites == old.prerequisites
    &&& c.children_ids == old.children_ids
    &&& opt_view(c.lesson) == merged_lesson(old.lesson, e)
    &&& quiz_views(c.quizzes@) == merged_quizzes(old.quizzes@, e)
}

impl Graph {
    /// Merges the overlay into the graph: for each atom of the overlay that
    /// the graph has, an overlay lesson overrides the shipped one, an
    /// authored quiz replaces the shipped quiz with its id, other authored
    /// quizzes are appended, and removed quiz ids are left out. Atoms the
    /// graph does not have are passed over.
    pub fn apply_overlay(&mut self, overlay: &Overlay)
        requires
            distinct_atoms(overlay.atoms@),
        ensures
            final(self)@.dom() == old(self)@.dom(),
            forall|k: Seq<char>|
                #[trigger] old(self)@.contains_key(k) ==> (if exists|i: int| 0 <= i < overlay.atoms@.len() && overlay.atoms@[i].atom_id@ == k {
                    merged_into(final(self)@[k], old(self)@[k], overlay.atoms@[choose|i: int| 0 <= i < overlay.atoms@.len() && overlay.atoms@[i].atom_id@ == k].atom)
                } else {
                    final(self)@[k] == old(self)@[k]
                }),
    {
        let ghost g0 = self@;
        let ghost es = overlay.atoms@;
        let mut i: usize = 0;
        while i < overlay.atoms.len()
            invariant
                i <= es.len(),
                es == overlay.atoms@,
                distinct_atoms(es),
                self@.dom() == g0.dom(),
                forall|k: Seq<char>|
                    #[trigger] g0.contains_key(k) ==> (if exists|j: int| 0 <= j < i && es[j].atom_id@ == k {
                        merged_into(self@[k], g0[k], es[choose|j: int| 0 <= j < i && es[j].atom_id@ == k].atom)
                    } else {
                        self@[k] == g0[k]
                    }),
            decreases es.len() - i,
        {
            let entry = &overlay.atoms[i];
            let ghost key = entry.atom_id@;
            let ghost before = self@;
            match self.get(entry.atom_id.as_str()) {
                None => {},
                Some(c) => {
                    let lesson = if entry.atom.lesson.is_some() {
                        copy_opt(&entry.atom.lesson)
                    } else {
                        copy_opt(&c.lesson)
                    };
                    let quizzes = merge_quizzes(&c.quizzes, &entry.atom);
                    proof {
                        assert(forall|j: int| 0 <= j < i ==> es[j].atom_id@ != key);
                    }
                    self.set_content(entry.atom_id.as_str(), lesson, quizzes);
                },
            }
            proof {
                assert forall|k: Seq<char>|
                    #[trigger] g0.contains_key(k) implies (if exists|j: int| 0 <= j < i + 1 && es[j].atom_id@ == k {
                        merged_into(self@[k], g0[k], es[choose|j: int| 0 <= j < i + 1 && es[j].atom_id@ == k].atom)
                    } else {
                        self@[k] == g0[k]
                    }) by {
                    if k == key {
                        assert(es[i as int].atom_id@ == k);
                        assert(!exists|j: int| 0 <= j < i && es[j].atom_id@ == k);
                        let j = choose|j: int| 0 <= j < i + 1 && es[j].atom_id@ == k;
                        assert(j == i as int);
                    } else {
                        if exists|j: int| 0 <= j < i + 1 && es[j].atom_id@ == k {
                            let j = choose|j: int| 0 <= j < i + 1 && es[j].atom_id@ == k;
                            assert(j < i);
                            assert(exists|j2: int| 0 <= j2 < i && es[j2].atom_id@ == k);
                            let j2 = choose|j2: int| 0 <= j2 < i && es[j2].atom_id@ == k;
                            assert(j2 == j);
                        }
                    }
                }
            }
            i = i + 1;
        }
        proof {
            assert forall|k: Seq<char>|
                #[trigger] g0.contains_key(k) implies (if exists|j: int| 0 <= j < es.len() && es[j].atom_id@ == k {
                    merged_into(self@[k], g0[k], es[choose|j: int| 0 <= j < es.len() && es[j].atom_id@ == k].atom)
                } else {
                    self@[k] == g0[k]
                }) by {
                if exists|j: int| 0 <= j < es.len() && es[j].atom_id@ == k {
                    let j = choose|j: int| 0 <= j < es.len() && es[j].atom_id@ == k;
                    let j2 = choose|j2: int| 0 <= j2 < i && es[j2].atom_id@ == k;
                    assert(es[j].atom_id@ == k);
                }
            }
        }
    }
}


// ── Authoring ───────────────────────────────────────────────────────

/// Position of the first entry about `atom`.
pub open spec fn entry_pos(es: Seq<OverlayEntry>, atom: Seq<char>) -> Option<int> {
    if exists|i: int| 0 <= i < es.len() && es[i].atom_id@ == atom {
        Some(choose|i: int| 0 <= i < es.len() && es[i].atom_id@ == atom && forall|j: int| 0 <= j < i ==> es[j].atom_id@ != atom)
    } else {
        None
    }
}

/// The quiz `base` with the given fields changed: a new type of free text
/// is stored as no type; fields not given keep their value.
pub open spec fn amended_v(
    base: QuizRaw,
    d: Option<Difficulty>,
    q: Option<String>,
    a: Option<String>,
    r: Option<String>,
    t: Option<QuizType>,
) -> QuizV {
    (
        base.id@,
        match d {
            Some(x) => x,
            None => base.difficulty,
        },
        match t {
            Some(x) => if x == QuizType::FreeText {
                None
            } else {
                Some(x)
            },
            None => base.kind,
        },
        match q {
            Some(x) => x@,
            None => base.question@,
        },
        match a {
            Some(x) => x@,
            None => base.answer@,
        },
        match r {
            Some(x) => Some(x@),
            None => opt_view(base.rubric),
        },
    )
}

/// Only the fields an amendment supplies change: the id stays; the
/// difficulty, question, answer and rubric are the new ones where given
/// and the base quiz's otherwise; a new type is stored as given, free
/// text as no type, and with none given the base's type stays. An
/// amendment that supplies nothing gives back the base quiz.
pub proof fn law_amendment_keeps_unsupplied(
    base: QuizRaw,
    d: Option<Difficulty>,
    q: Option<String>,
    a: Option<String>,
    r: Option<String>,
    t: Option<QuizType>,
)
    ensures
        amended_v(base, d, q, a, r, t).0 == base.id@,
        d is None ==> amended_v(base, d, q, a, r, t).1 == base.difficulty,
        d matches Some(x) ==> amended_v(base, d, q, a, r, t).1 == x,
        q is None ==> amended_v(base, d, q, a, r, t).3 == base.question@,
        q matches Some(x) ==> amended_v(base, d, q, a, r, t).3 == x@,
        a is None ==> amended_v(base, d, q, a, r, t).4 == base.answer@,
        a matches Some(x) ==> amended_v(base, d, q, a, r, t).4 == x@,
        r is None ==> amended_v(base, d, q, a, r, t).5 == opt_view(base.rubric),
        r matches Some(x) ==> amended_v(base, d, q, a, r, t).5 == Some(x@),
        t is None ==> amended_v(base, d, q, a, r, t).2 == base.kind,
        t == Some(QuizType::FreeText) ==> amended_v(base, d, q, a, r, t).2 is None,
        t matches Some(x) ==> (x != QuizType::FreeText ==> amended_v(base, d, q, a, r, t).2 == Some(x)),
        d is None && q is None && a is None && r is None && t is None ==> amended_v(base, d, q, a, r, t) == raw_v(base),
{
}

/// The quiz `base` with the given fields changed (see `amended_v`).
pub fn amended_quiz(
    base: &QuizRaw,
    new_difficulty: Option<Difficulty>,
    new_question: Option<String>,
    new_answer: Option<String>,
    new_rubric: Option<String>,
    new_type: Option<QuizType>,
) -> (r: QuizRaw)
    ensures
        raw_v(r) == amended_v(*base, new_difficulty, new_question, new_answer, new_rubric, new_type),
{
    let kind = match new_type {
        Some(t) => if t == QuizType::FreeText {
            None
        } else {
            Some(t)
        },
        None => base.kind,
    };
    QuizRaw {
        id: copy(&base.id),
        difficulty: match new_difficulty {
            Some(d) => d,
            None => base.difficulty,
        },
        kind,
        question: match new_question {
            Some(q) => q,
            None => copy(&base.question),
        },
        answer: match new_answer {
            Some(a) => a,
            None => copy(&base.answer),
        },
        rubric: match new_rubric {
            Some(r) => Some(r),
            None => copy_opt(&base.rubric),
        },
    }
}

/// Where an authoring call on `atom` lands: the first entry about it, or
/// a new entry at the end.
pub open spec fn target_entry(es: Seq<OverlayEntry>, atom: Seq<char>) -> int {
    match entry_pos(es, atom) {
        Some(j) => j,
        None => es.len() as int,
    }
}

/// `new` is `old` with entry `i` changed (or, at the end, added) and the
/// other entries kept.
pub open spec fn only_entry_changed(old: Seq<OverlayEntry>, new: Seq<OverlayEntry>, i: int, atom: Seq<char>) -> bool {
    &&& new.len() == (if i < old.len() { old.len() } else { old.len() + 1 })
    &&& forall|k: int| 0 <= k < old.len() && k != i ==> new[k] == old[k]
    &&& new[i].atom_id@ == atom
}

/// After `entry_for`, every entry before the target position is as it was.
proof fn lemma_entry_kept(before: Seq<OverlayEntry>, mid: Seq<OverlayEntry>, i: int, atom: Seq<char>)
    requires
        0 <= i < mid.len(),
        match entry_pos(before, atom) {
            Some(j) => i == j && mid == before,
            None => i == before.len() && mid.drop_last() == before,
        },
    ensures
        i == target_entry(before, atom),
        forall|k: int| 0 <= k < before.len() ==> #[trigger] mid[k] == before[k],
        mid.len() == (if i < before.len() { before.len() } else { before.len() + 1 }),
{
    if entry_pos(before, atom) is None {
        assert forall|k: int| 0 <= k < before.len() implies #[trigger] mid[k] == before[k] by {
            assert(mid.drop_last()[k] == mid[k]);
        }
    }
}

impl Overlay {
    /// Position of the first entry about `atom_id`.
    pub fn find(&self, atom_id: &str) -> (r: Option<usize>)
        ensures
            match r {
                Some(i) => entry_pos(self.atoms@, atom_id@) == Some(i as int) && i < self.atoms@.len()
                    && self.atoms@[i as int].atom_id@ == atom_id@,
                None => entry_pos(self.atoms@, atom_id@) is None,
            },
    {
        let mut i: usize = 0;
        while i < self.atoms.len()
            invariant
                i <= self.atoms@.len(),
                forall|j: int| 0 <= j < i ==> self.atoms@[j].atom_id@ != atom_id@,
            decreases self.atoms@.len() - i,
        {
            if str_eq(self.atoms[i].atom_id.as_str(), atom_id) {
                proof {
                    let k = choose|k: int|
                        0 <= k < self.atoms@.len() && self.atoms@[k].atom_id@ == atom_id@ && forall|j: int|
                            0 <= j < k ==> self.atoms@[j].atom_id@ != atom_id@;
                    if k < i {
                    } else if i < k {
                    }
                }
                return Some(i);
            }
            i = i + 1;
        }
        None
    }

    /// Position of the entry about `atom_id`, appending an empty one when
    /// there is none.
    fn entry_for(&mut self, atom_id: &str) -> (i: usize)
        ensures
            i < final(self).atoms@.len(),
            final(self).atoms@[i as int].atom_id@ == atom_id@,
            final(self).schema_version == old(self).schema_version,
            match entry_pos(old(self).atoms@, atom_id@) {
                Some(j) => i == j && final(self).atoms@ == old(self).atoms@,
                None => {
                    &&& i == old(self).atoms@.len()
                    &&& final(self).atoms@.drop_last() == old(self).atoms@
                    &&& final(self).atoms@[i as int].atom.lesson is None
                    &&& final(self).atoms@[i as int].atom.quizzes@.len() == 0
                    &&& final(self).atoms@[i as int].atom.removed@ == Set::<Seq<char>>::empty()
                },
            },
    {
        match self.find(atom_id) {
            Some(i) => i,
            None => {
                let ghost before = self.atoms@;
                self.atoms.push(OverlayEntry {
                    atom_id: to_owned(atom_id),
                    atom: OverlayAtom { lesson: None, quizzes: Vec::new(), removed: IdSet::new() },
                });
                assert(self.atoms@.drop_last() =~= before);
                self.atoms.len() - 1
            },
        }
    }

    /// Takes the atom out of the entry about `atom_id` (appending the entry
    /// when there is none) and leaves a blank atom in its place.
    #[verifier::rlimit(50)]
    fn take_atom(&mut self, atom_id: &str) -> (res: (usize, OverlayAtom))
        ensures
            final(self).schema_version == old(self).schema_version,
            res.0 == target_entry(old(self).atoms@, atom_id@),
            res.0 <= old(self).atoms@.len(),
            res.0 < final(self).atoms@.len(),
            only_entry_changed(old(self).atoms@, final(self).atoms@, res.0 as int, atom_id@),
            res.0 < old(self).atoms@.len() ==> res.1 == old(self).atoms@[res.0 as int].atom,
            res.0 == old(self).atoms@.len() ==> is_blank(res.1),
    {
        let ghost before = self.atoms@;
        let i = self.entry_for(atom_id);
        let ghost mid = self.atoms@;
        proof {
            lemma_entry_kept(before, mid, i as int, atom_id@);
        }
        let e = self.atoms.remove(i);
        let OverlayEntry { atom_id: id, atom } = e;
        self.atoms.insert(
            i,
            OverlayEntry { atom_id: id, atom: OverlayAtom { lesson: None, quizzes: Vec::new(), removed: IdSet::new() } },
        );
        assert(self.atoms@ =~= mid.update(i as int, self.atoms@[i as int]));
        assert forall|k: int| 0 <= k < before.len() && k != i implies self.atoms@[k] == before[k] by {
            assert(self.atoms@[k] == mid[k]);
        }
        (i, atom)
    }

    /// Puts `atom` back into entry `i`.
    fn put_atom(&mut self, i: usize, atom: OverlayAtom)
        requires
            i < old(self).atoms@.len(),
        ensures
            final(self).schema_version == old(self).schema_version,
            final(self).atoms@ == old(self).atoms@.update(
                i as int,
                OverlayEntry { atom_id: old(self).atoms@[i as int].atom_id, atom },
            ),
    {
        let e = self.atoms.remove(i);
        let OverlayEntry { atom_id: id, atom: _ } = e;
        let ghost before = self.atoms@;
        self.atoms.insert(i, OverlayEntry { atom_id: id, atom });
        assert(self.atoms@ =~= old(self).atoms@.update(
            i as int,
            OverlayEntry { atom_id: old(self).atoms@[i as int].atom_id, atom },
        ));
    }

    /// Sets the lesson of `atom_id`. `LessonAlreadyExists` when the overlay
    /// already has one for it (the overlay is then unchanged).
    pub fn add_lesson(&mut self, atom_id: &str, body: String) -> (r: Result<(), Error>)
        ensures
            final(self).schema_version == old(self).schema_version,
            match entry_pos(old(self).atoms@, atom_id@) {
                Some(j) if old(self).atoms@[j].atom.lesson is Some => {
                    &&& r matches Err(e) && (e matches Error::LessonAlreadyExists(x) && x@ == atom_id@)
                    &&& final(self).atoms@ == old(self).atoms@
                },
                _ => {
                    let i = target_entry(old(self).atoms@, atom_id@);
                    &&& r is Ok
                    &&& only_entry_changed(old(self).atoms@, final(self).atoms@, i, atom_id@)
                    &&& final(self).atoms@[i].atom.lesson == Some(body)
                    &&& i < old(self).atoms@.len() ==> final(self).atoms@[i].atom.quizzes == old(self).atoms@[i].atom.quizzes
                        && final(self).atoms@[i].atom.removed == old(self).atoms@[i].atom.removed
                    &&& i == old(self).atoms@.len() ==> final(self).atoms@[i].atom.quizzes@.len() == 0
                        && final(self).atoms@[i].atom.removed@ == Set::<Seq<char>>::empty()
                },
            },
    {
        if let Some(j) = self.find(atom_id) {
            if self.atoms[j].atom.lesson.is_some() {
                return Err(Error::LessonAlreadyExists(to_owned(atom_id)));
            }
        }
        let (i, atom) = self.take_atom(atom_id);
        let OverlayAtom { lesson: _, quizzes, removed } = atom;
        self.put_atom(i, OverlayAtom { lesson: Some(body), quizzes, removed });
        Ok(())
    }

    /// Sets the lesson of `atom_id`, replacing one the overlay already has.
    pub fn upsert_lesson(&mut self, atom_id: &str, body: String)
        ensures
            final(self).schema_version == old(self).schema_version,
            ({
                let i = target_entry(old(self).atoms@, atom_id@);
                &&& only_entry_changed(old(self).atoms@, final(self).atoms@, i, atom_id@)
                &&& final(self).atoms@[i].atom.lesson == Some(body)
                &&& i < old(self).atoms@.len() ==> final(self).atoms@[i].atom.quizzes == old(self).atoms@[i].atom.quizzes
                    && final(self).atoms@[i].atom.removed == old(self).atoms@[i].atom.removed
                &&& i == old(self).atoms@.len() ==> final(self).atoms@[i].atom.quizzes@.len() == 0
                    && final(self).atoms@[i].atom.removed@ == Set::<Seq<char>>::empty()
            }),
    {
        let (i, atom) = self.take_atom(atom_id);
        let OverlayAtom { lesson: _, quizzes, removed } = atom;
        self.put_atom(i, OverlayAtom { lesson: Some(body), quizzes, removed });
    }

    /// Appends an authored quiz to `atom_id`.
    pub fn add_quiz(&mut self, atom_id: &str, quiz: QuizRaw)
        ensures
            final(self).schema_version == old(self).schema_version,
            ({
                let i = target_entry(old(self).atoms@, atom_id@);
                &&& only_entry_changed(old(self).atoms@, final(self).atoms@, i, atom_id@)
                &&& i < old(self).atoms@.len() ==> final(self).atoms@[i].atom.lesson == old(self).atoms@[i].atom.lesson
                    && final(self).atoms@[i].atom.quizzes@ == old(self).atoms@[i].atom.quizzes@.push(quiz)
                    && final(self).atoms@[i].atom.removed == old(self).atoms@[i].atom.removed
                &&& i == old(self).atoms@.len() ==> final(self).atoms@[i].atom.lesson is None
                    && final(self).atoms@[i].atom.quizzes@ == seq![quiz]
                    && final(self).atoms@[i].atom.removed@ == Set::<Seq<char>>::empty()
            }),
    {
        let ghost before = self.atoms@;
        let (i, atom) = self.take_atom(atom_id);
        let OverlayAtom { lesson, mut quizzes, removed } = atom;
        let ghost q0 = quizzes@;
        quizzes.push(quiz);
        proof {
            if i == before.len() {
                assert(q0.push(quiz) =~= seq![quiz]);
            }
        }
        self.put_atom(i, OverlayAtom { lesson, quizzes, removed });
    }

    /// Stores `updated` as the authored version of its quiz on `atom_id`:
    /// it replaces the first authored quiz with its id, or is appended; the
    /// id is no longer removed.
    pub fn amend_quiz(&mut self, atom_id: &str, updated: QuizRaw)
        ensures
            final(self).schema_version == old(self).schema_version,
            ({
                let i = target_entry(old(self).atoms@, atom_id@);
                &&& only_entry_changed(old(self).atoms@, final(self).atoms@, i, atom_id@)
                &&& i < old(self).atoms@.len() ==> {
                    &&& final(self).atoms@[i].atom.lesson == old(self).atoms@[i].atom.lesson
                    &&& final(self).atoms@[i].atom.quizzes@ == upserted(old(self).atoms@[i].atom.quizzes@, updated)
                    &&& final(self).atoms@[i].atom.removed@ == old(self).atoms@[i].atom.removed@.remove(updated.id@)
                }
                &&& i == old(self).atoms@.len() ==> {
                    &&& final(self).atoms@[i].atom.lesson is None
                    &&& final(self).atoms@[i].atom.quizzes@ == seq![updated]
                    &&& final(self).atoms@[i].atom.removed@ == Set::<Seq<char>>::empty()
                }
            }),
    {
        let ghost before = self.atoms@;
        let (i, atom) = self.take_atom(atom_id);
        let OverlayAtom { lesson, mut quizzes, mut removed } = atom;
        let ghost q0 = quizzes@;
        removed.remove(updated.id.as_str());
        match find_raw(&quizzes, updated.id.as_str()) {
            Some(j) => {
                quizzes.set(j, updated);
            },
            None => {
                quizzes.push(updated);
            },
        }
        proof {
            if i == before.len() {
                assert(q0.push(updated) =~= seq![updated]);
            }
        }
        self.put_atom(i, OverlayAtom { lesson, quizzes, removed });
    }

    /// Removes quiz `quiz_id` of `atom_id` from the merged view. Removing
    /// twice is the same as removing once.
    pub fn remove_quiz(&mut self, atom_id: &str, quiz_id: &str)
        ensures
            final(self).schema_version == old(self).schema_version,
            quiz_removal(old(self).atoms@, final(self).atoms@, atom_id@, quiz_id@),
    {
        let (i, atom) = self.take_atom(atom_id);
        let OverlayAtom { lesson, quizzes, mut removed } = atom;
        removed.insert(quiz_id);
        self.put_atom(i, OverlayAtom { lesson, quizzes, removed });
    }
}

/// An atom with no lesson, no quizzes and no removals.
pub open spec fn is_blank(a: OverlayAtom) -> bool {
    a.lesson is None && a.quizzes@.len() == 0 && a.removed@ == Set::<Seq<char>>::empty()
}

/// The first authored quiz with an id has that id.
proof fn lemma_first_raw_id(ov: Seq<QuizRaw>, id: Seq<char>)
    ensures
        first_raw(ov, id) matches Some(r) ==> r.id@ == id && ov.contains(r),
    decreases ov.len(),
{
    if ov.len() > 0 && ov[0].id@ != id {
        lemma_first_raw_id(ov.drop_first(), id);
        if first_raw(ov, id) is Some {
            let r = first_raw(ov, id)->0;
            let j = choose|j: int| 0 <= j < ov.drop_first().len() && ov.drop_first()[j] == r;
            assert(ov[j + 1] == r);
        }
    } else if ov.len() > 0 {
        assert(ov[0] == ov[0]);
        assert(ov.contains(ov[0]));
    }
}

proof fn lemma_shipped_ids(shipped: Seq<Quiz>, e: OverlayAtom, id: Seq<char>)
    requires
        e.removed@.contains(id),
    ensures
        forall|i: int| 0 <= i < merged_shipped(shipped, e).len() ==> (#[trigger] merged_shipped(shipped, e)[i]).0 != id,
    decreases shipped.len(),
{
    if shipped.len() > 0 {
        let q = shipped.last();
        lemma_shipped_ids(shipped.drop_last(), e, id);
        lemma_first_raw_id(e.quizzes@, q.id@);
        let prev = merged_shipped(shipped.drop_last(), e);
        assert forall|i: int| 0 <= i < merged_shipped(shipped, e).len() implies (#[trigger] merged_shipped(shipped, e)[i]).0 != id by {
            if i >= prev.len() {
                assert(merged_shipped(shipped, e)[i] == replaced(q, e.quizzes@));
            } else {
                assert(merged_shipped(shipped, e)[i] == prev[i]);
            }
        }
    }
}

proof fn lemma_added_ids(shipped: Seq<Quiz>, ov: Seq<QuizRaw>, removed: Set<Seq<char>>, id: Seq<char>)
    requires
        removed.contains(id),
    ensures
        forall|i: int| 0 <= i < merged_added(shipped, ov, removed).len() ==> (#[trigger] merged_added(shipped, ov, removed)[i]).0 != id,
    decreases ov.len(),
{
    if ov.len() > 0 {
        lemma_added_ids(shipped, ov.drop_last(), removed, id);
        let prev = merged_added(shipped, ov.drop_last(), removed);
        assert forall|i: int| 0 <= i < merged_added(shipped, ov, removed).len() implies (#[trigger] merged_added(shipped, ov, removed)[i]).0 != id by {
            if i < prev.len() {
                assert(merged_added(shipped, ov, removed)[i] == prev[i]);
            }
        }
    }
}

/// A removed quiz id is absent from the merged view of its atom, whether
/// the quiz was shipped or authored.
pub proof fn law_removed_absent(shipped: Seq<Quiz>, e: OverlayAtom, id: Seq<char>)
    requires
        e.removed@.contains(id),
    ensures
        forall|i: int| 0 <= i < merged_quizzes(shipped, e).len() ==> (#[trigger] merged_quizzes(shipped, e)[i]).0 != id,
{
    lemma_shipped_ids(shipped, e, id);
    lemma_added_ids(shipped, e.quizzes@, e.removed@, id);
    let a = merged_shipped(shipped, e);
    let b = merged_added(shipped, e.quizzes@, e.removed@);
    assert forall|i: int| 0 <= i < merged_quizzes(shipped, e).len() implies (#[trigger] merged_quizzes(shipped, e)[i]).0 != id by {
        if i < a.len() {
            assert(merged_quizzes(shipped, e)[i] == a[i]);
        } else {
            assert(merged_quizzes(shipped, e)[i] == b[i - a.len()]);
        }
    }
}

proof fn lemma_shipped_has(shipped: Seq<Quiz>, e: OverlayAtom, j: int)
    requires
        0 <= j < shipped.len(),
        !e.removed@.contains(shipped[j].id@),
    ensures
        merged_shipped(shipped, e).contains(replaced(shipped[j], e.quizzes@)),
    decreases shipped.len(),
{
    let prev = merged_shipped(shipped.drop_last(), e);
    if j == shipped.len() - 1 {
        assert(merged_shipped(shipped, e)[prev.len() as int] == replaced(shipped[j], e.quizzes@));
    } else {
        lemma_shipped_has(shipped.drop_last(), e, j);
        let k = choose|k: int| 0 <= k < prev.len() && prev[k] == replaced(shipped[j], e.quizzes@);
        assert(merged_shipped(shipped, e)[k] == prev[k]);
    }
}

proof fn lemma_added_has(shipped: Seq<Quiz>, ov: Seq<QuizRaw>, removed: Set<Seq<char>>, j: int)
    requires
        0 <= j < ov.len(),
        !removed.contains(ov[j].id@),
        !quiz_views(shipped).map_values(|v: QuizV| v.0).contains(ov[j].id@),
    ensures
        merged_added(shipped, ov, removed).contains(raw_v(ov[j])),
    decreases ov.len(),
{
    let prev = merged_added(shipped, ov.drop_last(), removed);
    if j == ov.len() - 1 {
        assert(merged_added(shipped, ov, removed)[prev.len() as int] == raw_v(ov[j]));
    } else {
        lemma_added_has(shipped, ov.drop_last(), removed, j);
        let k = choose|k: int| 0 <= k < prev.len() && prev[k] == raw_v(ov[j]);
        assert(merged_added(shipped, ov, removed)[k] == prev[k]);
    }
}

/// An authored quiz whose id is not removed shows in the merged view: the
/// first authored version with its id, in place of a shipped quiz with that
/// id or appended after the shipped ones.
pub proof fn law_authored_visible(shipped: Seq<Quiz>, e: OverlayAtom, id: Seq<char>)
    requires
        !e.removed@.contains(id),
        first_raw(e.quizzes@, id) is Some,
    ensures
        merged_quizzes(shipped, e).contains(raw_v(first_raw(e.quizzes@, id)->0)),
{
    let r = first_raw(e.quizzes@, id)->0;
    lemma_first_raw_id(e.quizzes@, id);
    let a = merged_shipped(shipped, e);
    let b = merged_added(shipped, e.quizzes@, e.removed@);
    let ids = quiz_views(shipped).map_values(|v: QuizV| v.0);
    if ids.contains(id) {
        let j = choose|j: int| 0 <= j < ids.len() && ids[j] == id;
        assert(shipped[j].id@ == id);
        lemma_shipped_has(shipped, e, j);
        assert(replaced(shipped[j], e.quizzes@) == raw_v(r));
        let k = choose|k: int| 0 <= k < a.len() && a[k] == raw_v(r);
        assert(merged_quizzes(shipped, e)[k] == a[k]);
    } else {
        let j = choose|j: int| 0 <= j < e.quizzes@.len() && e.quizzes@[j] == r;
        lemma_added_has(shipped, e.quizzes@, e.removed@, j);
        let k = choose|k: int| 0 <= k < b.len() && b[k] == raw_v(r);
        assert(merged_quizzes(shipped, e)[a.len() + k] == b[k]);
    }
}

/// `new` is `old` after removing quiz `quiz` of `atom`: the entry about
/// the atom (a new one at the end when there was none) gains the id among
/// its removed ones; nothing else changes.
pub open spec fn quiz_removal(old: Seq<OverlayEntry>, new: Seq<OverlayEntry>, atom: Seq<char>, quiz: Seq<char>) -> bool {
    let i = target_entry(old, atom);
    &&& only_entry_changed(old, new, i, atom)
    &&& i < old.len() ==> new[i].atom.lesson == old[i].atom.lesson && new[i].atom.quizzes == old[i].atom.quizzes
        && new[i].atom.removed@ == old[i].atom.removed@.insert(quiz)
    &&& i == old.len() ==> new[i].atom.lesson is None && new[i].atom.quizzes@.len() == 0
        && new[i].atom.removed@ == Set::<Seq<char>>::empty().insert(quiz)
}

/// The first entry about `atom` is at `i`.
proof fn lemma_entry_pos_at(es: Seq<OverlayEntry>, atom: Seq<char>, i: int)
    requires
        0 <= i < es.len(),
        es[i].atom_id@ == atom,
        forall|x: int| 0 <= x < i ==> es[x].atom_id@ != atom,
    ensures
        entry_pos(es, atom) == Some(i),
{
    assert(exists|y: int| 0 <= y < es.len() && es[y].atom_id@ == atom);
    let j = choose|j: int| 0 <= j < es.len() && es[j].atom_id@ == atom && forall|x: int| 0 <= x < j ==> es[x].atom_id@ != atom;
    if j < i {
        assert(es[j].atom_id@ != atom);
    } else if j > i {
        assert(es[i].atom_id@ != atom);
    }
}

/// Some entry about `atom` comes before every other one.
proof fn lemma_first_entry_exists(es: Seq<OverlayEntry>, atom: Seq<char>, i: int)
    requires
        0 <= i < es.len(),
        es[i].atom_id@ == atom,
    ensures
        exists|j: int| 0 <= j < es.len() && es[j].atom_id@ == atom && forall|x: int| 0 <= x < j ==> es[x].atom_id@ != atom,
    decreases i,
{
    if exists|x: int| 0 <= x < i && es[x].atom_id@ == atom {
        let x = choose|x: int| 0 <= x < i && es[x].atom_id@ == atom;
        lemma_first_entry_exists(es, atom, x);
    } else {
        assert(forall|x: int| 0 <= x < i ==> es[x].atom_id@ != atom);
    }
}

/// No entry before the target position is about `atom`.
proof fn lemma_target_entry_first(es: Seq<OverlayEntry>, atom: Seq<char>)
    ensures
        0 <= target_entry(es, atom) <= es.len(),
        forall|x: int| 0 <= x < target_entry(es, atom) ==> es[x].atom_id@ != atom,
{
    if exists|i: int| 0 <= i < es.len() && es[i].atom_id@ == atom {
        let i = choose|i: int| 0 <= i < es.len() && es[i].atom_id@ == atom;
        lemma_first_entry_exists(es, atom, i);
    }
}

/// After a removal, the entry about the atom is the first one about it,
/// at the same place, and holds the removed id.
proof fn lemma_removal_target(o0: Seq<OverlayEntry>, o1: Seq<OverlayEntry>, atom: Seq<char>, quiz: Seq<char>)
    requires
        quiz_removal(o0, o1, atom, quiz),
    ensures
        target_entry(o1, atom) == target_entry(o0, atom),
        0 <= target_entry(o0, atom) < o1.len(),
        o1[target_entry(o0, atom)].atom.removed@.contains(quiz),
{
    let i = target_entry(o0, atom);
    lemma_target_entry_first(o0, atom);
    assert forall|x: int| 0 <= x < i implies o1[x].atom_id@ != atom by {
        assert(o1[x] == o0[x]);
    }
    lemma_entry_pos_at(o1, atom, i);
}

/// Removing a quiz twice leaves the overlay as removing it once: every
/// entry keeps its atom, lesson, quizzes and removed ids.
pub proof fn law_remove_idempotent(
    o0: Seq<OverlayEntry>,
    o1: Seq<OverlayEntry>,
    o2: Seq<OverlayEntry>,
    atom: Seq<char>,
    quiz: Seq<char>,
)
    requires
        quiz_removal(o0, o1, atom, quiz),
        quiz_removal(o1, o2, atom, quiz),
    ensures
        o2.len() == o1.len(),
        forall|k: int|
            0 <= k < o1.len() ==> #[trigger] o2[k].atom_id@ == o1[k].atom_id@ && o2[k].atom.lesson == o1[k].atom.lesson
                && o2[k].atom.quizzes == o1[k].atom.quizzes && o2[k].atom.removed@ == o1[k].atom.removed@,
{
    lemma_removal_target(o0, o1, atom, quiz);
    let i = target_entry(o1, atom);
    assert(o1[i].atom.removed@.insert(quiz) =~= o1[i].atom.removed@);
}

} // verus!
