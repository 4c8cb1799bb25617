//! `mt path next`: choosing the next learning action for a path.
//!
//! Bottom-up, the walker visits each target depth-first, prerequisites (and,
//! for a cluster, children) before the concept itself, and returns the first
//! atom that still needs work. Top-down, it serves the first incomplete atom
//! of the subpath, then of the targets, without walking prerequisites. In
//! either mode a due review card comes first, unless only new material is
//! asked for.
use crate::answer::{atom_from_quiz_id, spec_atom_of_quiz};
use crate::graph::{pos, FlatConcept, Graph, Quiz};
use crate::path::PathFile;
use crate::ids::{copy, strs};
use crate::progress::PathProgress;
use crate::reach::{lemma_closed_holds_reach, lemma_reach_step, lemma_reach_target, reachable_atom_set, reaches, succ};
use crate::types::{Difficulty, Strategy};
use vstd::prelude::*;

verus! {

/// What `mt path next` asks the agent to do.
#[derive(Debug)]
pub enum Action {
    PresentQuiz { quiz_id: String, atom_id: String },
    CreateLesson { atom_id: String },
    PresentLesson { atom_id: String },
    CreateQuiz { atom_id: String, difficulty: Difficulty },
    Done,
}

/// Mathematical model of an [`Action`].
pub enum Step {
    PresentQuiz { quiz: Seq<char>, atom: Seq<char> },
    CreateLesson { atom: Seq<char> },
    PresentLesson { atom: Seq<char> },
    CreateQuiz { atom: Seq<char>, difficulty: Difficulty },
    Done,
}

impl View for Action {
    type V = Step;

    open spec fn view(&self) -> Step {
        match self {
            Action::PresentQuiz { quiz_id, atom_id } => Step::PresentQuiz {
                quiz: quiz_id@,
                atom: atom_id@,
            },
            Action::CreateLesson { atom_id } => Step::CreateLesson { atom: atom_id@ },
            Action::PresentLesson { atom_id } => Step::PresentLesson { atom: atom_id@ },
            Action::CreateQuiz { atom_id, difficulty } => Step::CreateQuiz {
                atom: atom_id@,
                difficulty: *difficulty,
            },
            Action::Done => Step::Done,
        }
    }
}

/// The atom an action is about (none for `Done`).
pub open spec fn step_atom(s: Step) -> Option<Seq<char>> {
    match s {
        Step::PresentQuiz { atom, .. } => Some(atom),
        Step::CreateLesson { atom } => Some(atom),
        Step::PresentLesson { atom } => Some(atom),
        Step::CreateQuiz { atom, .. } => Some(atom),
        Step::Done => None,
    }
}

impl Action {
    pub fn atom_id(&self) -> (r: Option<&str>)
        ensures
            match step_atom(self@) {
                Some(a) => r matches Some(x) && x@ == a,
                None => r is None,
            },
    {
        match self {
            Action::CreateLesson { atom_id } => Some(atom_id.as_str()),
            Action::PresentLesson { atom_id } => Some(atom_id.as_str()),
            Action::CreateQuiz { atom_id, .. } => Some(atom_id.as_str()),
            Action::PresentQuiz { atom_id, .. } => Some(atom_id.as_str()),
            Action::Done => None,
        }
    }
}

/// Whether `next` may serve a due review card first (`Default`) or only
/// new material (`New`).
#[derive(Debug, Clone, Copy, PartialEq, Eq, Structural)]
pub enum NextMode {
    Default,
    New,
}

// ── Quiz slots ──────────────────────────────────────────────────────

/// Position of the first quiz of difficulty `d` in `qs`.
pub open spec fn slot_index(qs: Seq<Quiz>, d: Difficulty) -> Option<int>
    decreases qs.len(),
{
    if qs.len() == 0 {
        None
    } else {
        match slot_index(qs.drop_last(), d) {
            Some(j) => Some(j),
            None => if qs.last().difficulty == d {
                Some(qs.len() - 1)
            } else {
                None
            },
        }
    }
}

/// `j` is the position of the first quiz of difficulty `d`.
pub open spec fn is_first_of(qs: Seq<Quiz>, d: Difficulty, j: int) -> bool {
    0 <= j < qs.len() && qs[j].difficulty == d && forall|i: int| 0 <= i < j ==> qs[i].difficulty != d
}

pub proof fn lemma_slot_index(qs: Seq<Quiz>, d: Difficulty)
    ensures
        match slot_index(qs, d) {
            Some(j) => is_first_of(qs, d, j),
            None => forall|i: int| 0 <= i < qs.len() ==> qs[i].difficulty != d,
        },
    decreases qs.len(),
{
    if qs.len() > 0 {
        let init = qs.drop_last();
        lemma_slot_index(init, d);
        assert forall|i: int| 0 <= i < init.len() implies init[i] == qs[i] by {}
    }
}

/// The per-slot step: author the quiz of difficulty `d`, or present it
/// until it has been answered correctly.
pub open spec fn slot_step(c: FlatConcept, correct: Set<Seq<char>>, d: Difficulty) -> Option<Step> {
    match slot_index(c.quizzes@, d) {
        None => Some(Step::CreateQuiz { atom: c.id@, difficulty: d }),
        Some(j) => if correct.contains(c.quizzes@[j].id@) {
            None
        } else {
            Some(Step::PresentQuiz { quiz: c.quizzes@[j].id@, atom: c.id@ })
        },
    }
}

/// The per-atom sequence: create the lesson, present it, then for easy,
/// medium and hard in turn author the quiz or present it until answered
/// correctly. `None` once all of that is done.
pub open spec fn atom_step(c: FlatConcept, taught: Set<Seq<char>>, correct: Set<Seq<char>>) -> Option<Step> {
    if c.lesson is None {
        Some(Step::CreateLesson { atom: c.id@ })
    } else if !taught.contains(c.id@) {
        Some(Step::PresentLesson { atom: c.id@ })
    } else if slot_step(c, correct, Difficulty::Easy) is Some {
        slot_step(c, correct, Difficulty::Easy)
    } else if slot_step(c, correct, Difficulty::Medium) is Some {
        slot_step(c, correct, Difficulty::Medium)
    } else {
        slot_step(c, correct, Difficulty::Hard)
    }
}

/// "Complete": the concept exists, has a lesson, and each difficulty slot
/// holds a quiz that has been answered correctly.
pub open spec fn complete(g: Map<Seq<char>, FlatConcept>, correct: Set<Seq<char>>, id: Seq<char>) -> bool {
    &&& g.contains_key(id)
    &&& g[id].lesson is Some
    &&& slot_done(g[id], correct, Difficulty::Easy)
    &&& slot_done(g[id], correct, Difficulty::Medium)
    &&& slot_done(g[id], correct, Difficulty::Hard)
}

pub open spec fn slot_done(c: FlatConcept, correct: Set<Seq<char>>, d: Difficulty) -> bool {
    slot_index(c.quizzes@, d) matches Some(j) && correct.contains(c.quizzes@[j].id@)
}

/// An atom whose steps are all done is complete, and a complete atom whose
/// lesson was taught has no step left.
pub proof fn lemma_atom_step_complete(g: Map<Seq<char>, FlatConcept>, taught: Set<Seq<char>>, correct: Set<Seq<char>>, id: Seq<char>)
    requires
        g.contains_key(id),
    ensures
        atom_step(g[id], taught, correct) is None ==> complete(g, correct, id),
        complete(g, correct, id) && taught.contains(g[id].id@) ==> atom_step(g[id], taught, correct) is None,
{
}

/// The place of difficulty `d` in the order an atom's quizzes are worked
/// through: easy, medium, hard.
pub open spec fn difficulty_rank(d: Difficulty) -> int {
    match d {
        Difficulty::Easy => 0,
        Difficulty::Medium => 1,
        Difficulty::Hard => 2,
    }
}

/// Difficulty `d` of atom `c` still has work: it has no quiz, or its
/// first quiz has not been answered correctly.
pub open spec fn has_work(c: FlatConcept, correct: Set<Seq<char>>, d: Difficulty) -> bool {
    forall|j: int| #[trigger] is_first_of(c.quizzes@, d, j) ==> !correct.contains(c.quizzes@[j].id@)
}

/// The first quiz of a difficulty is unique.
proof fn lemma_first_unique(qs: Seq<Quiz>, d: Difficulty, j: int, k: int)
    requires
        is_first_of(qs, d, j),
        is_first_of(qs, d, k),
    ensures
        j == k,
{
}

/// An atom's steps come in order: author the lesson, present it, then
/// the work of the easiest difficulty (easy, medium, hard) that still
/// has work, whatever the harder ones hold: author its quiz when it has
/// none, else present its first quiz. With no work left there is no
/// step.
pub proof fn law_atom_step_easiest_first(c: FlatConcept, taught: Set<Seq<char>>, correct: Set<Seq<char>>)
    ensures
        c.lesson is None ==> atom_step(c, taught, correct) == Some(Step::CreateLesson { atom: c.id@ }),
        c.lesson is Some && !taught.contains(c.id@) ==> atom_step(c, taught, correct) == Some(
            Step::PresentLesson { atom: c.id@ },
        ),
        c.lesson is Some && taught.contains(c.id@) && (forall|d: Difficulty| !#[trigger] has_work(c, correct, d))
            ==> atom_step(c, taught, correct) is None,
        forall|d: Difficulty|
            c.lesson is Some && taught.contains(c.id@) && #[trigger] has_work(c, correct, d) && (forall|e: Difficulty|
                difficulty_rank(e) < difficulty_rank(d) ==> !#[trigger] has_work(c, correct, e))
                ==> (forall|i: int| 0 <= i < c.quizzes@.len() ==> c.quizzes@[i].difficulty != d) ==> atom_step(
                c,
                taught,
                correct,
            ) == Some(Step::CreateQuiz { atom: c.id@, difficulty: d }),
        forall|d: Difficulty, j: int|
            c.lesson is Some && taught.contains(c.id@) && has_work(c, correct, d) && (forall|e: Difficulty|
                difficulty_rank(e) < difficulty_rank(d) ==> !#[trigger] has_work(c, correct, e))
                && #[trigger] is_first_of(c.quizzes@, d, j) ==> atom_step(c, taught, correct) == Some(
                Step::PresentQuiz { quiz: c.quizzes@[j].id@, atom: c.id@ },
            ),
{
    let qs = c.quizzes@;
    lemma_slot_index(qs, Difficulty::Easy);
    lemma_slot_index(qs, Difficulty::Medium);
    lemma_slot_index(qs, Difficulty::Hard);
    // A difficulty has work exactly when its slot has a step.
    assert forall|d: Difficulty| #[trigger] has_work(c, correct, d) <==> slot_step(c, correct, d) is Some by {
        lemma_slot_index(qs, d);
        match slot_index(qs, d) {
            Some(k) => {
                if has_work(c, correct, d) {
                    assert(is_first_of(qs, d, k));
                } else {
                    let j = choose|j: int| is_first_of(qs, d, j) && correct.contains(qs[j].id@);
                    lemma_first_unique(qs, d, j, k);
                }
            },
            None => {
                assert forall|j: int| #[trigger] is_first_of(qs, d, j) implies !correct.contains(qs[j].id@) by {
                    assert(qs[j].difficulty != d);
                }
            },
        }
    }
    assert forall|d: Difficulty, j: int| #[trigger] is_first_of(qs, d, j) implies slot_index(qs, d) == Some(j) by {
        lemma_slot_index(qs, d);
        match slot_index(qs, d) {
            Some(k) => lemma_first_unique(qs, d, j, k),
            None => {
                assert(qs[j].difficulty != d);
            },
        }
    }
    assert forall|d: Difficulty| (forall|i: int| 0 <= i < qs.len() ==> qs[i].difficulty != d) implies #[trigger] slot_index(qs, d) is None by {
        lemma_slot_index(qs, d);
        if slot_index(qs, d) is Some {
            let k = slot_index(qs, d)->0;
            assert(qs[k].difficulty == d);
        }
    }
    assert(difficulty_rank(Difficulty::Easy) < difficulty_rank(Difficulty::Medium));
    assert(difficulty_rank(Difficulty::Easy) < difficulty_rank(Difficulty::Hard));
    assert(difficulty_rank(Difficulty::Medium) < difficulty_rank(Difficulty::Hard));
    assert(has_work(c, correct, Difficulty::Easy) <==> slot_step(c, correct, Difficulty::Easy) is Some);
    assert(has_work(c, correct, Difficulty::Medium) <==> slot_step(c, correct, Difficulty::Medium) is Some);
    assert(has_work(c, correct, Difficulty::Hard) <==> slot_step(c, correct, Difficulty::Hard) is Some);
}

/// Position of the first quiz of difficulty `d`.
fn find_slot(qs: &Vec<Quiz>, d: Difficulty) -> (r: Option<usize>)
    ensures
        match r {
            Some(j) => j < qs@.len() && slot_index(qs@, d) == Some(j as int),
            None => slot_index(qs@, d) is None,
        },
{
    proof {
        lemma_slot_index(qs@, d);
    }
    let mut j: usize = 0;
    while j < qs.len()
        invariant
            j <= qs@.len(),
            forall|i: int| 0 <= i < j ==> qs@[i].difficulty != d,
            match slot_index(qs@, d) {
                Some(k) => is_first_of(qs@, d, k),
                None => forall|i: int| 0 <= i < qs@.len() ==> qs@[i].difficulty != d,
            },
        decreases qs@.len() - j,
    {
        if qs[j].difficulty == d {
            proof {
                match slot_index(qs@, d) {
                    Some(k) => {
                        if k < j {
                        } else if j < k {
                        }
                    },
                    None => {},
                }
            }
            return Some(j);
        }
        j = j + 1;
    }
    None
}

fn slot_action(c: &FlatConcept, progress: &PathProgress, d: Difficulty) -> (r: Option<Action>)
    ensures
        match r {
            Some(a) => slot_step(*c, progress.correct_quizzes@, d) == Some(a@),
            None => slot_step(*c, progress.correct_quizzes@, d) is None,
        },
{
    match find_slot(&c.quizzes, d) {
        None => Some(Action::CreateQuiz { atom_id: copy(&c.id), difficulty: d }),
        Some(j) => {
            if progress.quiz_answered_correctly(c.quizzes[j].id.as_str()) {
                None
            } else {
                Some(Action::PresentQuiz { quiz_id: copy(&c.quizzes[j].id), atom_id: copy(&c.id) })
            }
        },
    }
}

fn slot_complete(c: &FlatConcept, progress: &PathProgress, d: Difficulty) -> (r: bool)
    ensures
        r == slot_done(*c, progress.correct_quizzes@, d),
{
    match find_slot(&c.quizzes, d) {
        None => false,
        Some(j) => progress.quiz_answered_correctly(c.quizzes[j].id.as_str()),
    }
}

/// The next step of one atom, ignoring its prerequisites.
pub fn atom_action(c: &FlatConcept, progress: &PathProgress) -> (r: Option<Action>)
    ensures
        match r {
            Some(a) => atom_step(*c, progress.taught_atoms@, progress.correct_quizzes@) == Some(a@),
            None => atom_step(*c, progress.taught_atoms@, progress.correct_quizzes@) is None,
        },
{
    if c.lesson.is_none() {
        return Some(Action::CreateLesson { atom_id: copy(&c.id) });
    }
    if !progress.lesson_taught(c.id.as_str()) {
        return Some(Action::PresentLesson { atom_id: copy(&c.id) });
    }
    let e = slot_action(c, progress, Difficulty::Easy);
    if e.is_some() {
        return e;
    }
    let m = slot_action(c, progress, Difficulty::Medium);
    if m.is_some() {
        return m;
    }
    slot_action(c, progress, Difficulty::Hard)
}

/// "Complete" = lesson stored in the merged graph and each of the three
/// difficulty quizzes exists and has at least one correct answer.
pub fn is_atom_complete(g: &Graph, progress: &PathProgress, atom_id: &str) -> (r: bool)
    ensures
        r == complete(g@, progress.correct_quizzes@, atom_id@),
{
    let c = match g.get(atom_id) {
        None => return false,
        Some(c) => c,
    };
    if c.lesson.is_none() {
        return false;
    }
    slot_complete(c, progress, Difficulty::Easy) && slot_complete(c, progress, Difficulty::Medium)
        && slot_complete(c, progress, Difficulty::Hard)
}

// ── Bottom-up walk ──────────────────────────────────────────────────

/// Number of `false` entries.
pub open spec fn unvisited(v: Seq<bool>) -> nat
    decreases v.len(),
{
    if v.len() == 0 {
        0
    } else {
        unvisited(v.drop_last()) + if v.last() {
            0nat
        } else {
            1nat
        }
    }
}

pub proof fn lemma_unvisited_update(v: Seq<bool>, i: int)
    requires
        0 <= i < v.len(),
        !v[i],
    ensures
        unvisited(v.update(i, true)) + 1 == unvisited(v),
    decreases v.len(),
{
    let w = v.update(i, true);
    if i == v.len() - 1 {
        assert(w.drop_last() =~= v.drop_last());
    } else {
        assert(w.drop_last() =~= v.drop_last().update(i, true));
        lemma_unvisited_update(v.drop_last(), i);
    }
}

pub proof fn lemma_unvisited_mono(v: Seq<bool>, w: Seq<bool>)
    requires
        v.len() == w.len(),
        forall|i: int| 0 <= i < v.len() && v[i] ==> w[i],
    ensures
        unvisited(w) <= unvisited(v),
    decreases v.len(),
{
    if v.len() > 0 {
        lemma_unvisited_mono(v.drop_last(), w.drop_last());
    }
}

/// The ids a concept's walk visits before the concept itself:
/// prerequisites, then children.
pub open spec fn walk_ids(c: FlatConcept) -> Seq<Seq<char>> {
    c.prereqs() + c.children()
}

/// Depth-first walk from `id`. `vis` marks visited concepts by position;
/// `fuel` bounds the recursion and is never exhausted when it is at least
/// the number of unvisited concepts. Returns the first pending step and the
/// updated marks.
pub open spec fn walk_node(
    g: Graph,
    taught: Set<Seq<char>>,
    correct: Set<Seq<char>>,
    id: Seq<char>,
    vis: Seq<bool>,
    fuel: nat,
) -> (Option<Step>, Seq<bool>)
    decreases fuel, 0nat, 0nat,
{
    if !g@.contains_key(id) || fuel == 0 {
        (None, vis)
    } else if vis[pos(g, id)] {
        (None, vis)
    } else {
        let c = g@[id];
        let (r, v2) = walk_list(g, taught, correct, walk_ids(c), 0, vis.update(pos(g, id), true), (fuel - 1) as nat);
        if r is Some {
            (r, v2)
        } else if !c.spec_is_atom() {
            (None, v2)
        } else {
            (atom_step(c, taught, correct), v2)
        }
    }
}

/// Walks `l[k..]` in order, stopping at the first pending step.
pub open spec fn walk_list(
    g: Graph,
    taught: Set<Seq<char>>,
    correct: Set<Seq<char>>,
    l: Seq<Seq<char>>,
    k: int,
    vis: Seq<bool>,
    fuel: nat,
) -> (Option<Step>, Seq<bool>)
    decreases fuel, 1nat, (l.len() - k) as nat,
{
    if k < 0 || k >= l.len() {
        (None, vis)
    } else {
        let (r, v2) = walk_node(g, taught, correct, l[k], vis, fuel);
        if r is Some {
            (r, v2)
        } else {
            walk_list(g, taught, correct, l, k + 1, v2, fuel)
        }
    }
}

/// Enough fuel gives the same walk, and a walk only ever adds marks.
pub proof fn lemma_walk_node(
    g: Graph,
    taught: Set<Seq<char>>,
    correct: Set<Seq<char>>,
    id: Seq<char>,
    vis: Seq<bool>,
    f1: nat,
    f2: nat,
)
    requires
        g.wf(),
        vis.len() == g.nodes().len(),
        f1 >= unvisited(vis),
        f2 >= unvisited(vis),
    ensures
        walk_node(g, taught, correct, id, vis, f1) == walk_node(g, taught, correct, id, vis, f2),
        walk_node(g, taught, correct, id, vis, f1).1.len() == vis.len(),
        forall|i: int|
            0 <= i < vis.len() && vis[i] ==> #[trigger] walk_node(g, taught, correct, id, vis, f1).1[i],
        unvisited(walk_node(g, taught, correct, id, vis, f1).1) <= unvisited(vis),
    decreases f1, 0nat, 0nat,
{
    g.lemma_nodes();
    if g@.contains_key(id) {
        let p = pos(g, id);
        assert(0 <= p < g.nodes().len() && g.nodes()[p].id@ == id);
        if !vis[p] {
            lemma_unvisited_update(vis, p);
            let v1 = vis.update(p, true);
            assert(f1 >= 1 && f2 >= 1);
            lemma_walk_list(g, taught, correct, walk_ids(g@[id]), 0, v1, (f1 - 1) as nat, (f2 - 1) as nat);
        }
    }
}

pub proof fn lemma_walk_list(
    g: Graph,
    taught: Set<Seq<char>>,
    correct: Set<Seq<char>>,
    l: Seq<Seq<char>>,
    k: int,
    vis: Seq<bool>,
    f1: nat,
    f2: nat,
)
    requires
        g.wf(),
        vis.len() == g.nodes().len(),
        f1 >= unvisited(vis),
        f2 >= unvisited(vis),
    ensures
        walk_list(g, taught, correct, l, k, vis, f1) == walk_list(g, taught, correct, l, k, vis, f2),
        walk_list(g, taught, correct, l, k, vis, f1).1.len() == vis.len(),
        forall|i: int|
            0 <= i < vis.len() && vis[i] ==> #[trigger] walk_list(g, taught, correct, l, k, vis, f1).1[i],
        unvisited(walk_list(g, taught, correct, l, k, vis, f1).1) <= unvisited(vis),
    decreases f1, 1nat, (l.len() - k) as nat,
{
    if 0 <= k < l.len() {
        lemma_walk_node(g, taught, correct, l[k], vis, f1, f2);
        let v2 = walk_node(g, taught, correct, l[k], vis, f1).1;
        if walk_node(g, taught, correct, l[k], vis, f1).0 is None {
            lemma_walk_list(g, taught, correct, l, k + 1, v2, f1, f2);
        }
    }
}

/// The bottom-up step for a target list, with nothing visited yet.
pub open spec fn bottom_up_step(g: Graph, taught: Set<Seq<char>>, correct: Set<Seq<char>>, targets: Seq<Seq<char>>) -> Option<Step> {
    walk_list(g, taught, correct, targets, 0, Seq::new(g.nodes().len(), |i: int| false), g.nodes().len()).0
}

/// Walk one concept (its prerequisites, then its children, then the concept
/// itself) and return the first pending action, or `None` if everything
/// reachable from it is complete or already visited.
fn next_atom_action(g: &Graph, progress: &PathProgress, id: &str, visited: &mut Vec<bool>) -> (r: Option<Action>)
    requires
        old(visited)@.len() == g.nodes().len(),
    ensures
        ({
            let w = walk_node(*g, progress.taught_atoms@, progress.correct_quizzes@, id@, old(visited)@, unvisited(old(visited)@));
            &&& r matches Some(a) ==> w.0 == Some(a@)
            &&& r is None ==> w.0 is None
            &&& final(visited)@ == w.1
        }),
        final(visited)@.len() == old(visited)@.len(),
        unvisited(final(visited)@) <= unvisited(old(visited)@),
        forall|i: int| 0 <= i < old(visited)@.len() && old(visited)@[i] ==> final(visited)@[i],
    decreases unvisited(old(visited)@),
{
    proof {
        use_type_invariant(g);
        g.lemma_nodes();
    }
    let ghost taught = progress.taught_atoms@;
    let ghost correct = progress.correct_quizzes@;
    let ghost v0 = visited@;
    let ghost f0 = unvisited(v0);
    let i = match g.find(id) {
        None => return None,
        Some(i) => i,
    };
    assert(pos(*g, id@) == i as int);
    if visited[i] {
        return None;
    }
    proof {
        lemma_unvisited_update(visited@, i as int);
    }
    visited.set(i, true);
    let c = g.node_at(i);
    let ghost v1 = visited@;
    let ghost l = walk_ids(*c);
    let ghost fuel: nat = (f0 - 1) as nat;
    assert(*c == g@[id@]);
    assert(walk_node(*g, taught, correct, id@, v0, f0) == ({
        let (r, v2) = walk_list(*g, taught, correct, l, 0, v1, fuel);
        if r is Some {
            (r, v2)
        } else if !c.spec_is_atom() {
            (None, v2)
        } else {
            (atom_step(*c, taught, correct), v2)
        }
    }));
    let ghost whole = walk_list(*g, taught, correct, l, 0, v1, fuel);
    let ghost result = if whole.0 is Some {
        whole
    } else if !c.spec_is_atom() {
        (None, whole.1)
    } else {
        (atom_step(*c, taught, correct), whole.1)
    };
    assert(walk_node(*g, taught, correct, id@, v0, f0) == result);
    let np = c.prerequisites.len();
    let mut k: usize = 0;
    while k < np
        invariant
            g.wf(),
            np == c.prerequisites@.len(),
            l == walk_ids(*c),
            l.len() == np + c.children_ids@.len(),
            k <= np,
            v0 == old(visited)@,
            v0.len() == g.nodes().len(),
            visited@.len() == g.nodes().len(),
            unvisited(visited@) <= fuel,
            fuel + 1 == f0,
            f0 == unvisited(v0),
            forall|j: int| 0 <= j < v0.len() && v0[j] ==> visited@[j],
            taught == progress.taught_atoms@,
            correct == progress.correct_quizzes@,
            whole == walk_list(*g, taught, correct, l, k as int, visited@, fuel),
            walk_node(*g, taught, correct, id@, v0, f0) == result,
            result == (if whole.0 is Some {
                whole
            } else if !c.spec_is_atom() {
                (None, whole.1)
            } else {
                (atom_step(*c, taught, correct), whole.1)
            }),
        decreases np - k,
    {
        let next = &c.prerequisites[k];
        assert(next@ == l[k as int]);
        let ghost vk = visited@;
        proof {
            lemma_walk_node(*g, taught, correct, l[k as int], vk, fuel, unvisited(vk));
            lemma_walk_list(*g, taught, correct, l, k as int, vk, fuel, unvisited(vk));
        }
        let sub = next_atom_action(g, progress, next.as_str(), visited);
        if sub.is_some() {
            return sub;
        }
        k = k + 1;
    }
    let nc = c.children_ids.len();
    let mut k: usize = 0;
    while k < nc
        invariant
            g.wf(),
            np == c.prerequisites@.len(),
            nc == c.children_ids@.len(),
            l == walk_ids(*c),
            l.len() == np + nc,
            k <= nc,
            v0 == old(visited)@,
            v0.len() == g.nodes().len(),
            visited@.len() == g.nodes().len(),
            unvisited(visited@) <= fuel,
            fuel + 1 == f0,
            f0 == unvisited(v0),
            forall|j: int| 0 <= j < v0.len() && v0[j] ==> visited@[j],
            taught == progress.taught_atoms@,
            correct == progress.correct_quizzes@,
            whole == walk_list(*g, taught, correct, l, np + k, visited@, fuel),
            walk_node(*g, taught, correct, id@, v0, f0) == result,
            result == (if whole.0 is Some {
                whole
            } else if !c.spec_is_atom() {
                (None, whole.1)
            } else {
                (atom_step(*c, taught, correct), whole.1)
            }),
        decreases nc - k,
    {
        let next = &c.children_ids[k];
        assert(next@ == l[np + k]);
        let ghost vk = visited@;
        proof {
            lemma_walk_node(*g, taught, correct, l[np + k], vk, fuel, unvisited(vk));
            lemma_walk_list(*g, taught, correct, l, np + k, vk, fuel, unvisited(vk));
        }
        let sub = next_atom_action(g, progress, next.as_str(), visited);
        if sub.is_some() {
            return sub;
        }
        k = k + 1;
    }
    if !c.is_atom() {
        return None;
    }
    atom_action(c, progress)
}

/// Depth-first over `targets` in order, sharing one visited set.
fn bottom_up_action(g: &Graph, progress: &PathProgress, targets: &Vec<String>) -> (r: Option<Action>)
    ensures
        match r {
            Some(a) => bottom_up_step(*g, progress.taught_atoms@, progress.correct_quizzes@, strs(targets@)) == Some(a@),
            None => bottom_up_step(*g, progress.taught_atoms@, progress.correct_quizzes@, strs(targets@)) is None,
        },
{
    proof {
        use_type_invariant(g);
    }
    let ghost taught = progress.taught_atoms@;
    let ghost correct = progress.correct_quizzes@;
    let n = g.len();
    let mut visited: Vec<bool> = Vec::new();
    let mut j: usize = 0;
    while j < n
        invariant
            j <= n,
            visited@.len() == j,
            forall|x: int| 0 <= x < j ==> !visited@[x],
        decreases n - j,
    {
        visited.push(false);
        j = j + 1;
    }
    let ghost v0 = visited@;
    assert(v0 =~= Seq::new(g.nodes().len(), |i: int| false));
    let ghost l = strs(targets@);
    let ghost fuel: nat = g.nodes().len() as nat;
    proof {
        assert(unvisited(v0) <= fuel) by {
            lemma_unvisited_le_len(v0);
        }
    }
    let mut k: usize = 0;
    while k < targets.len()
        invariant
            g.wf(),
            l == strs(targets@),
            k <= targets@.len(),
            v0 == Seq::new(g.nodes().len(), |i: int| false),
            fuel == g.nodes().len(),
            visited@.len() == g.nodes().len(),
            unvisited(visited@) <= fuel,
            taught == progress.taught_atoms@,
            correct == progress.correct_quizzes@,
            walk_list(*g, taught, correct, l, 0, v0, fuel) == walk_list(*g, taught, correct, l, k as int, visited@, fuel),
        decreases targets@.len() - k,
    {
        let ghost vk = visited@;
        proof {
            lemma_walk_node(*g, taught, correct, l[k as int], vk, fuel, unvisited(vk));
            lemma_walk_list(*g, taught, correct, l, k as int, vk, fuel, unvisited(vk));
        }
        let sub = next_atom_action(g, progress, targets[k].as_str(), &mut visited);
        if sub.is_some() {
            return sub;
        }
        k = k + 1;
    }
    None
}

pub proof fn lemma_unvisited_le_len(v: Seq<bool>)
    ensures
        unvisited(v) <= v.len(),
    decreases v.len(),
{
    if v.len() > 0 {
        lemma_unvisited_le_len(v.drop_last());
    }
}

} // verus!

verus! {

// ── Due review cards ────────────────────────────────────────────────

/// A due quiz id that still resolves in the merged graph: its atom (the
/// text before the last `.q`) exists and owns a quiz with that id.
pub open spec fn due_hit(g: Map<Seq<char>, FlatConcept>, q: Seq<char>) -> bool {
    spec_atom_of_quiz(q) matches Some(a) && g.contains_key(a) && exists|j: int|
        0 <= j < g[a].quizzes@.len() && g[a].quizzes@[j].id@ == q
}

/// The first resolvable due quiz of `due[k..]`, as a step.
pub open spec fn due_step(g: Map<Seq<char>, FlatConcept>, due: Seq<Seq<char>>, k: int) -> Option<Step>
    decreases due.len() - k,
{
    if k < 0 || k >= due.len() {
        None
    } else if due_hit(g, due[k]) {
        Some(Step::PresentQuiz { quiz: due[k], atom: spec_atom_of_quiz(due[k])->0 })
    } else {
        due_step(g, due, k + 1)
    }
}

/// First due quiz that is still present in the merged graph, with its atom
/// id. Due quizzes whose id is malformed, whose atom is gone, or which the
/// atom no longer has (tombstoned) are skipped.
pub fn first_due_card(g: &Graph, due_quizzes: &Vec<String>) -> (r: Option<(String, String)>)
    ensures
        match r {
            Some((q, a)) => due_step(g@, strs(due_quizzes@), 0) == Some(Step::PresentQuiz { quiz: q@, atom: a@ }),
            None => due_step(g@, strs(due_quizzes@), 0) is None,
        },
{
    let ghost l = strs(due_quizzes@);
    let mut k: usize = 0;
    while k < due_quizzes.len()
        invariant
            l == strs(due_quizzes@),
            k <= due_quizzes@.len(),
            due_step(g@, l, 0) == due_step(g@, l, k as int),
        decreases due_quizzes@.len() - k,
    {
        let quiz_id = &due_quizzes[k];
        let r0 = atom_from_quiz_id(quiz_id.as_str());
        assert(quiz_id@ == l[k as int]);
        if let Some(atom_id) = r0 {
            if let Some(c) = g.get(atom_id.as_str()) {
                let mut j: usize = 0;
                while j < c.quizzes.len()
                    invariant
                        j <= c.quizzes@.len(),
                        forall|i: int| 0 <= i < j ==> c.quizzes@[i].id@ != quiz_id@,
                        l == strs(due_quizzes@),
                        k < due_quizzes@.len(),
                        quiz_id@ == l[k as int],
                        spec_atom_of_quiz(quiz_id@) == Some(atom_id@),
                        g@.contains_key(atom_id@),
                        *c == g@[atom_id@],
                        due_step(g@, l, 0) == due_step(g@, l, k as int),
                    decreases c.quizzes@.len() - j,
                {
                    if crate::ids::str_eq(c.quizzes[j].id.as_str(), quiz_id.as_str()) {
                        assert(due_hit(g@, l[k as int]));
                        return Some((copy(quiz_id), atom_id));
                    }
                    j = j + 1;
                }
                assert(!due_hit(g@, l[k as int]));
            }
        }
        k = k + 1;
    }
    None
}

// ── Top-down ────────────────────────────────────────────────────────

/// Top-down pick for one id: the next step of an incomplete atom; clusters,
/// unknown ids and complete atoms are passed over.
pub open spec fn td_pick(g: Map<Seq<char>, FlatConcept>, taught: Set<Seq<char>>, correct: Set<Seq<char>>, id: Seq<char>) -> Option<Step> {
    if g.contains_key(id) && g[id].spec_is_atom() && !complete(g, correct, id) {
        atom_step(g[id], taught, correct)
    } else {
        None
    }
}

/// The first top-down pick among `ids[k..]`.
pub open spec fn top_down_step(g: Map<Seq<char>, FlatConcept>, taught: Set<Seq<char>>, correct: Set<Seq<char>>, ids: Seq<Seq<char>>, k: int) -> Option<Step>
    decreases ids.len() - k,
{
    if k < 0 || k >= ids.len() {
        None
    } else if td_pick(g, taught, correct, ids[k]) is Some {
        td_pick(g, taught, correct, ids[k])
    } else {
        top_down_step(g, taught, correct, ids, k + 1)
    }
}

fn top_down_action(g: &Graph, progress: &PathProgress, ids: &Vec<String>) -> (r: Option<Action>)
    ensures
        match r {
            Some(a) => top_down_step(g@, progress.taught_atoms@, progress.correct_quizzes@, strs(ids@), 0) == Some(a@),
            None => top_down_step(g@, progress.taught_atoms@, progress.correct_quizzes@, strs(ids@), 0) is None,
        },
{
    let ghost l = strs(ids@);
    let ghost taught = progress.taught_atoms@;
    let ghost correct = progress.correct_quizzes@;
    let mut k: usize = 0;
    while k < ids.len()
        invariant
            l == strs(ids@),
            k <= ids@.len(),
            taught == progress.taught_atoms@,
            correct == progress.correct_quizzes@,
            top_down_step(g@, taught, correct, l, 0) == top_down_step(g@, taught, correct, l, k as int),
        decreases ids@.len() - k,
    {
        let id = ids[k].as_str();
        if let Some(c) = g.get(id) {
            if c.is_atom() && !is_atom_complete(g, progress, id) {
                let a = atom_action(c, progress);
                proof {
                    lemma_atom_step_complete(g@, taught, correct, id@);
                }
                if a.is_some() {
                    return a;
                }
            }
        }
        k = k + 1;
    }
    None
}

// ── Entry point ─────────────────────────────────────────────────────

/// The step `next_action` returns: a due review card first (unless only
/// new material is asked for); then, bottom-up, the first pending step of
/// the depth-first walk over the targets, or, top-down, the first
/// incomplete atom of the subpath and then of the targets; else `Done`.
pub open spec fn next_step(
    g: Graph,
    strategy: Strategy,
    targets: Seq<Seq<char>>,
    taught: Set<Seq<char>>,
    correct: Set<Seq<char>>,
    due: Seq<Seq<char>>,
    subpath: Seq<Seq<char>>,
    mode: NextMode,
) -> Step {
    if mode == NextMode::Default && due_step(g@, due, 0) is Some {
        due_step(g@, due, 0)->0
    } else {
        let walked = match strategy {
            Strategy::BottomUp => bottom_up_step(g, taught, correct, targets),
            Strategy::TopDown => top_down_step(g@, taught, correct, subpath + targets, 0),
        };
        match walked {
            Some(s) => s,
            None => Step::Done,
        }
    }
}

/// Pick the next action for a path whose targets resolve to `targets`.
/// `due_quizzes` are the path's due quiz ids, oldest due first; `subpath`
/// is the path's (resolved) top-down subpath, ignored bottom-up.
pub fn next_action(
    g: &Graph,
    p: &PathFile,
    targets: &Vec<String>,
    progress: &PathProgress,
    due_quizzes: &Vec<String>,
    subpath: &Vec<String>,
    mode: NextMode,
) -> (a: Action)
    ensures
        a@ == next_step(*g, p.strategy, strs(targets@), progress.taught_atoms@, progress.correct_quizzes@, strs(due_quizzes@), strs(subpath@), mode),
{
    if mode == NextMode::Default {
        if let Some((quiz_id, atom_id)) = first_due_card(g, due_quizzes) {
            return Action::PresentQuiz { quiz_id, atom_id };
        }
    }
    let walked = match p.strategy {
        Strategy::BottomUp => bottom_up_action(g, progress, targets),
        Strategy::TopDown => {
            let mut ids = crate::ids::copy_all(subpath);
            let mut rest = crate::ids::copy_all(targets);
            let ghost s1 = strs(ids@);
            let ghost s2 = strs(rest@);
            ids.append(&mut rest);
            assert(strs(ids@) =~= s1 + s2);
            top_down_action(g, progress, &ids)
        },
    };
    match walked {
        Some(a) => a,
        None => Action::Done,
    }
}

// ── Soundness of the next step ──────────────────────────────────────

/// A step fits the state it was chosen in: a lesson is created only where
/// none is stored and presented only once stored and not yet taught; a
/// quiz is authored only for a difficulty the taught atom has none of; a
/// presented quiz belongs to its atom, and, when `fresh`, has not been
/// answered correctly yet.
pub open spec fn step_fits(
    g: Map<Seq<char>, FlatConcept>,
    taught: Set<Seq<char>>,
    correct: Set<Seq<char>>,
    s: Step,
    fresh: bool,
) -> bool {
    match s {
        Step::CreateLesson { atom } => g.contains_key(atom) && g[atom].lesson is None,
        Step::PresentLesson { atom } => g.contains_key(atom) && g[atom].lesson is Some && !taught.contains(atom),
        Step::CreateQuiz { atom, difficulty } => g.contains_key(atom) && g[atom].lesson is Some && taught.contains(atom)
            && slot_index(g[atom].quizzes@, difficulty) is None,
        Step::PresentQuiz { quiz, atom } => g.contains_key(atom) && (exists|j: int|
            0 <= j < g[atom].quizzes@.len() && #[trigger] g[atom].quizzes@[j].id@ == quiz) && (fresh ==> !correct.contains(
            quiz,
        )),
        Step::Done => true,
    }
}

proof fn lemma_atom_step_fits(g: Map<Seq<char>, FlatConcept>, taught: Set<Seq<char>>, correct: Set<Seq<char>>, id: Seq<char>)
    requires
        g.contains_key(id),
        g[id].id@ == id,
    ensures
        atom_step(g[id], taught, correct) matches Some(s) ==> step_fits(g, taught, correct, s, true),
{
    let c = g[id];
    lemma_slot_index(c.quizzes@, Difficulty::Easy);
    lemma_slot_index(c.quizzes@, Difficulty::Medium);
    lemma_slot_index(c.quizzes@, Difficulty::Hard);
}

/// Every step the bottom-up walk finds is the step of an atom of the
/// graph, so it fits.
proof fn lemma_walk_node_fits(g: Graph, taught: Set<Seq<char>>, correct: Set<Seq<char>>, id: Seq<char>, vis: Seq<bool>, fuel: nat)
    requires
        g.wf(),
    ensures
        walk_node(g, taught, correct, id, vis, fuel).0 matches Some(s) ==> step_fits(g@, taught, correct, s, true) && !(s is Done),
    decreases fuel, 0nat, 0nat,
{
    if g@.contains_key(id) && fuel > 0 && !vis[pos(g, id)] {
        lemma_walk_list_fits(g, taught, correct, walk_ids(g@[id]), 0, vis.update(pos(g, id), true), (fuel - 1) as nat);
        g.lemma_nodes();
        let p = pos(g, id);
        assert(0 <= p < g.nodes().len() && g.nodes()[p].id@ == id);
        lemma_atom_step_fits(g@, taught, correct, id);
    }
}

proof fn lemma_walk_list_fits(
    g: Graph,
    taught: Set<Seq<char>>,
    correct: Set<Seq<char>>,
    l: Seq<Seq<char>>,
    k: int,
    vis: Seq<bool>,
    fuel: nat,
)
    requires
        g.wf(),
    ensures
        walk_list(g, taught, correct, l, k, vis, fuel).0 matches Some(s) ==> step_fits(g@, taught, correct, s, true) && !(s is Done),
    decreases fuel, 1nat, (l.len() - k) as nat,
{
    if 0 <= k < l.len() {
        lemma_walk_node_fits(g, taught, correct, l[k], vis, fuel);
        let v2 = walk_node(g, taught, correct, l[k], vis, fuel).1;
        lemma_walk_list_fits(g, taught, correct, l, k + 1, v2, fuel);
    }
}

proof fn lemma_top_down_fits(g: Graph, taught: Set<Seq<char>>, correct: Set<Seq<char>>, ids: Seq<Seq<char>>, k: int)
    requires
        g.wf(),
    ensures
        top_down_step(g@, taught, correct, ids, k) matches Some(s) ==> step_fits(g@, taught, correct, s, true),
    decreases ids.len() - k,
{
    if 0 <= k < ids.len() {
        lemma_top_down_fits(g, taught, correct, ids, k + 1);
        if g@.contains_key(ids[k]) {
            g.lemma_nodes();
            let i = choose|i: int| 0 <= i < g.nodes().len() && g.nodes()[i].id@ == ids[k];
            assert(g@[ids[k]] == g.nodes()[i]);
            lemma_atom_step_fits(g@, taught, correct, ids[k]);
        }
    }
}

proof fn lemma_due_fits(g: Map<Seq<char>, FlatConcept>, taught: Set<Seq<char>>, correct: Set<Seq<char>>, due: Seq<Seq<char>>, k: int)
    ensures
        due_step(g, due, k) matches Some(s) ==> step_fits(g, taught, correct, s, false),
    decreases due.len() - k,
{
    if 0 <= k < due.len() {
        lemma_due_fits(g, taught, correct, due, k + 1);
    }
}

/// The next step fits the path's state (see `step_fits`): the scheduler
/// never presents a lesson twice, never authors a second lesson or a
/// second quiz of a difficulty, and only reviews quizzes of their atom;
/// apart from due review cards it never presents a quiz already answered
/// correctly.
pub proof fn law_next_step_fits(
    g: Graph,
    strategy: Strategy,
    targets: Seq<Seq<char>>,
    taught: Set<Seq<char>>,
    correct: Set<Seq<char>>,
    due: Seq<Seq<char>>,
    subpath: Seq<Seq<char>>,
    mode: NextMode,
)
    requires
        g.wf(),
    ensures
        step_fits(g@, taught, correct, next_step(g, strategy, targets, taught, correct, due, subpath, mode), false),
        mode == NextMode::New ==> step_fits(
            g@,
            taught,
            correct,
            next_step(g, strategy, targets, taught, correct, due, subpath, mode),
            true,
        ),
{
    lemma_due_fits(g@, taught, correct, due, 0);
    lemma_walk_list_fits(g, taught, correct, targets, 0, Seq::new(g.nodes().len(), |i: int| false), g.nodes().len());
    lemma_top_down_fits(g, taught, correct, subpath + targets, 0);
}


// ── Foundations first ───────────────────────────────────────────────

/// `rank` witnesses that the prerequisite and child links never loop:
/// every concept has a rank, and each link of a concept to a concept of
/// the graph goes to a lower rank.
pub open spec fn ranked(g: Map<Seq<char>, FlatConcept>, rank: Map<Seq<char>, nat>) -> bool {
    &&& forall|m: Seq<char>| #[trigger] g.contains_key(m) ==> rank.contains_key(m)
    &&& forall|m: Seq<char>, j: int|
        g.contains_key(m) && 0 <= j < walk_ids(g[m]).len() && g.contains_key(#[trigger] walk_ids(g[m])[j])
            ==> rank[walk_ids(g[m])[j]] < rank[m]
}

/// Concept `id` and everything below it through prerequisite and child
/// links is done: each atom among them has had its lesson taught and has
/// nothing left to author or answer (see `atom_step`). Ids the graph
/// lacks count as done.
pub open spec fn settled(
    g: Map<Seq<char>, FlatConcept>,
    taught: Set<Seq<char>>,
    correct: Set<Seq<char>>,
    rank: Map<Seq<char>, nat>,
    id: Seq<char>,
) -> bool
    decreases rank[id],
{
    g.contains_key(id) ==> {
        &&& (g[id].spec_is_atom() ==> atom_step(g[id], taught, correct) is None)
        &&& forall|j: int| 0 <= j < walk_ids(g[id]).len() ==> (rank[#[trigger] walk_ids(g[id])[j]] < rank[id] ==> settled(
            g,
            taught,
            correct,
            rank,
            walk_ids(g[id])[j],
        ))
    }
}

/// Every marked concept of rank below `r` is settled.
pub open spec fn marks_settled(
    g: Graph,
    taught: Set<Seq<char>>,
    correct: Set<Seq<char>>,
    rank: Map<Seq<char>, nat>,
    vis: Seq<bool>,
    r: nat,
) -> bool {
    forall|i: int|
        0 <= i < vis.len() && #[trigger] vis[i] && rank[g.nodes()[i].id@] < r ==> settled(g@, taught, correct, rank, g.nodes()[i].id@)
}

/// What a walk that found nothing leaves behind: everything it marked is
/// settled.
pub open spec fn new_marks_settled(
    g: Graph,
    taught: Set<Seq<char>>,
    correct: Set<Seq<char>>,
    rank: Map<Seq<char>, nat>,
    before: Seq<bool>,
    after: Seq<bool>,
) -> bool {
    forall|i: int| 0 <= i < after.len() && #[trigger] after[i] && !before[i] ==> settled(g@, taught, correct, rank, g.nodes()[i].id@)
}

/// The step a walk found is that of an atom of the graph whose
/// prerequisites are all settled.
pub open spec fn found_on_settled(
    g: Map<Seq<char>, FlatConcept>,
    taught: Set<Seq<char>>,
    correct: Set<Seq<char>>,
    rank: Map<Seq<char>, nat>,
    s: Step,
) -> bool {
    step_atom(s) matches Some(a) && g.contains_key(a) && g[a].spec_is_atom() && forall|j: int|
        0 <= j < g[a].prereqs().len() ==> settled(g, taught, correct, rank, #[trigger] g[a].prereqs()[j])
}

proof fn lemma_unvisited_zero(v: Seq<bool>, i: int)
    requires
        unvisited(v) == 0,
        0 <= i < v.len(),
    ensures
        v[i],
    decreases v.len(),
{
    if i < v.len() - 1 {
        assert(v.drop_last()[i] == v[i]);
        lemma_unvisited_zero(v.drop_last(), i);
    }
}

proof fn lemma_node_settles(
    g: Graph,
    taught: Set<Seq<char>>,
    correct: Set<Seq<char>>,
    rank: Map<Seq<char>, nat>,
    id: Seq<char>,
    vis: Seq<bool>,
    fuel: nat,
)
    requires
        g.wf(),
        ranked(g@, rank),
        vis.len() == g.nodes().len(),
        fuel >= unvisited(vis),
        g@.contains_key(id) ==> marks_settled(g, taught, correct, rank, vis, rank[id] + 1),
    ensures
        ({
            let (r, v2) = walk_node(g, taught, correct, id, vis, fuel);
            &&& r is None ==> settled(g@, taught, correct, rank, id) && new_marks_settled(g, taught, correct, rank, vis, v2)
            &&& r matches Some(s) ==> found_on_settled(g@, taught, correct, rank, s)
        }),
    decreases fuel, 0nat, 0nat,
{
    g.lemma_nodes();
    lemma_walk_node(g, taught, correct, id, vis, fuel, fuel);
    if !g@.contains_key(id) {
        return;
    }
    let p = pos(g, id);
    assert(0 <= p < g.nodes().len() && g.nodes()[p].id@ == id);
    if fuel == 0 || vis[p] {
        if fuel == 0 {
            lemma_unvisited_zero(vis, p);
        }
        assert(vis[p] && rank[g.nodes()[p].id@] < rank[id] + 1);
        return;
    }
    let c = g@[id];
    assert(c == g.nodes()[p]);
    let v1 = vis.update(p, true);
    lemma_unvisited_update(vis, p);
    let l = walk_ids(c);
    assert forall|i: int| 0 <= i < v1.len() && #[trigger] v1[i] && rank[g.nodes()[i].id@] < rank[id] implies settled(
        g@, taught, correct, rank, g.nodes()[i].id@) by {
        if i != p {
            assert(vis[i]);
        }
    }
    assert forall|k: int| 0 <= k < l.len() && g@.contains_key(l[k]) implies rank[l[k]] < rank[id] by {
        assert(g@.contains_key(id) && 0 <= k < walk_ids(g@[id]).len() && g@.contains_key(walk_ids(g@[id])[k]));
    }
    lemma_list_settles(g, taught, correct, rank, l, 0, v1, (fuel - 1) as nat, rank[id]);
    let (r, v2) = walk_list(g, taught, correct, l, 0, v1, (fuel - 1) as nat);
    lemma_walk_list(g, taught, correct, l, 0, v1, (fuel - 1) as nat, (fuel - 1) as nat);
    if r is None {
        assert forall|j: int| 0 <= j < walk_ids(g@[id]).len() implies (rank[#[trigger] walk_ids(g@[id])[j]] < rank[id] ==> settled(
            g@, taught, correct, rank, walk_ids(g@[id])[j])) by {
            assert(l[j] == walk_ids(g@[id])[j]);
        }
        if c.spec_is_atom() && atom_step(c, taught, correct) is Some {
            let s = atom_step(c, taught, correct)->0;
            assert(step_atom(s) == Some(c.id@));
            assert(c.id@ == id);
            assert(c.children().len() == 0);
            assert forall|j: int| 0 <= j < c.prereqs().len() implies settled(g@, taught, correct, rank, #[trigger] c.prereqs()[j]) by {
                assert(l[j] == c.prereqs()[j]);
            }
        } else {
            assert(settled(g@, taught, correct, rank, id));
            assert forall|i: int| 0 <= i < v2.len() && #[trigger] v2[i] && !vis[i] implies settled(
                g@, taught, correct, rank, g.nodes()[i].id@) by {
                if i == p {
                } else {
                    assert(!v1[i]);
                }
            }
        }
    }
}

proof fn lemma_list_settles(
    g: Graph,
    taught: Set<Seq<char>>,
    correct: Set<Seq<char>>,
    rank: Map<Seq<char>, nat>,
    l: Seq<Seq<char>>,
    k: int,
    vis: Seq<bool>,
    fuel: nat,
    bound: nat,
)
    requires
        g.wf(),
        ranked(g@, rank),
        vis.len() == g.nodes().len(),
        fuel >= unvisited(vis),
        0 <= k,
        marks_settled(g, taught, correct, rank, vis, bound),
        forall|i: int| k <= i < l.len() && g@.contains_key(#[trigger] l[i]) ==> rank[l[i]] < bound,
    ensures
        ({
            let (r, v2) = walk_list(g, taught, correct, l, k, vis, fuel);
            &&& r is None ==> new_marks_settled(g, taught, correct, rank, vis, v2) && forall|i: int|
                k <= i < l.len() ==> settled(g@, taught, correct, rank, #[trigger] l[i])
            &&& r matches Some(s) ==> found_on_settled(g@, taught, correct, rank, s)
        }),
    decreases fuel, 1nat, (l.len() - k) as nat,
{
    if k >= l.len() {
        return;
    }
    g.lemma_nodes();
    let id = l[k];
    if g@.contains_key(id) {
        assert forall|i: int| 0 <= i < vis.len() && #[trigger] vis[i] && rank[g.nodes()[i].id@] < rank[id] + 1 implies settled(
            g@, taught, correct, rank, g.nodes()[i].id@) by {
        }
    }
    lemma_node_settles(g, taught, correct, rank, id, vis, fuel);
    lemma_walk_node(g, taught, correct, id, vis, fuel, fuel);
    let (r, v2) = walk_node(g, taught, correct, id, vis, fuel);
    if r is None {
        assert(settled(g@, taught, correct, rank, id));
        assert(new_marks_settled(g, taught, correct, rank, vis, v2));
        assert forall|i: int| 0 <= i < v2.len() && #[trigger] v2[i] && rank[g.nodes()[i].id@] < bound implies settled(
            g@, taught, correct, rank, g.nodes()[i].id@) by {
            if !vis[i] {
            }
        }
        lemma_list_settles(g, taught, correct, rank, l, k + 1, v2, fuel, bound);
        lemma_walk_list(g, taught, correct, l, k + 1, v2, fuel, fuel);
        let v3 = walk_list(g, taught, correct, l, k + 1, v2, fuel).1;
        if walk_list(g, taught, correct, l, k + 1, v2, fuel).0 is None {
            assert(new_marks_settled(g, taught, correct, rank, v2, v3));
            assert forall|i: int| 0 <= i < v3.len() && #[trigger] v3[i] && !vis[i] implies settled(
                g@, taught, correct, rank, g.nodes()[i].id@) by {
                if v2[i] {
                    assert(v2[i] && !vis[i]);
                } else {
                    assert(v3[i] && !v2[i]);
                }
            }
        }
        if walk_list(g, taught, correct, l, k + 1, v2, fuel).0 is None {
            assert forall|i: int| k <= i < l.len() implies settled(g@, taught, correct, rank, #[trigger] l[i]) by {
                if i > k {
                    assert(k + 1 <= i < l.len());
                }
            }
        }
    }
}

/// Bottom-up teaches foundations first: on a graph whose prerequisite
/// and child links never loop, the walk toward the targets stops only at
/// an atom whose prerequisites are all settled — they and everything
/// below them are taught and complete.
pub proof fn law_bottom_up_foundations_first(
    g: Graph,
    taught: Set<Seq<char>>,
    correct: Set<Seq<char>>,
    targets: Seq<Seq<char>>,
    rank: Map<Seq<char>, nat>,
)
    requires
        g.wf(),
        ranked(g@, rank),
    ensures
        bottom_up_step(g, taught, correct, targets) matches Some(s) ==> found_on_settled(g@, taught, correct, rank, s),
{
    let n = g.nodes().len();
    let vis = Seq::new(n, |i: int| false);
    lemma_unvisited_le_len(vis);
    let top: nat = 1 + rank_bound(g, rank, targets, 0);
    lemma_list_settles(g, taught, correct, rank, targets, 0, vis, n, top);
}

/// A number above the rank of every target the graph has.
proof fn rank_bound(g: Graph, rank: Map<Seq<char>, nat>, targets: Seq<Seq<char>>, k: int) -> (b: nat)
    requires
        0 <= k,
    ensures
        forall|i: int| k <= i < targets.len() && g@.contains_key(#[trigger] targets[i]) ==> rank[targets[i]] <= b,
    decreases targets.len() - k,
{
    if k >= targets.len() {
        0
    } else {
        let rest = rank_bound(g, rank, targets, k + 1);
        let here: nat = if g@.contains_key(targets[k]) { rank[targets[k]] } else { 0 };
        let b = if here > rest { here } else { rest };
        assert forall|i: int| k <= i < targets.len() && g@.contains_key(#[trigger] targets[i]) implies rank[targets[i]] <= b by {
            if i > k {
                assert(k + 1 <= i);
            }
        }
        b
    }
}


// ── When the walk is done ──────────────────────────────────────────

/// Every atom the targets reach has nothing left to do: its lesson is
/// taught, and no quiz is left to author or answer.
pub open spec fn all_reached_done(
    g: Map<Seq<char>, FlatConcept>,
    taught: Set<Seq<char>>,
    correct: Set<Seq<char>>,
    targets: Seq<Seq<char>>,
) -> bool {
    forall|x: Seq<char>| #[trigger] reachable_atom_set(g, targets).contains(x) ==> atom_step(g[x], taught, correct) is None
}

/// The id at position `j` of a concept's walk list is one of its
/// prerequisites or children.
proof fn lemma_walk_ids_succ(g: Map<Seq<char>, FlatConcept>, x: Seq<char>, j: int)
    requires
        g.contains_key(x),
        0 <= j < walk_ids(g[x]).len(),
        g.contains_key(walk_ids(g[x])[j]),
    ensures
        succ(g, true, x, walk_ids(g[x])[j]),
{
    let c = g[x];
    if j < c.prereqs().len() {
        assert(walk_ids(c)[j] == c.prereqs()[j]);
    } else {
        assert(walk_ids(c)[j] == c.children()[j - c.prereqs().len()]);
    }
}

proof fn lemma_node_quiet(
    g: Graph,
    taught: Set<Seq<char>>,
    correct: Set<Seq<char>>,
    targets: Seq<Seq<char>>,
    id: Seq<char>,
    vis: Seq<bool>,
    fuel: nat,
)
    requires
        g.wf(),
        vis.len() == g.nodes().len(),
        fuel >= unvisited(vis),
        all_reached_done(g@, taught, correct, targets),
        g@.contains_key(id) ==> reaches(g@, true, targets, id),
    ensures
        walk_node(g, taught, correct, id, vis, fuel).0 is None,
    decreases fuel, 0nat, 0nat,
{
    g.lemma_nodes();
    if !g@.contains_key(id) || fuel == 0 {
        return;
    }
    let p = pos(g, id);
    if vis[p] {
        return;
    }
    let c = g@[id];
    let l = walk_ids(c);
    assert forall|i: int| 0 <= i < l.len() && g@.contains_key(#[trigger] l[i]) implies reaches(g@, true, targets, l[i]) by {
        lemma_walk_ids_succ(g@, id, i);
        lemma_reach_step(g@, true, targets, id, l[i]);
    }
    lemma_unvisited_update(vis, p);
    lemma_list_quiet(g, taught, correct, targets, l, 0, vis.update(p, true), (fuel - 1) as nat);
    if c.spec_is_atom() {
        assert(reachable_atom_set(g@, targets).contains(id));
    }
}

proof fn lemma_list_quiet(
    g: Graph,
    taught: Set<Seq<char>>,
    correct: Set<Seq<char>>,
    targets: Seq<Seq<char>>,
    l: Seq<Seq<char>>,
    k: int,
    vis: Seq<bool>,
    fuel: nat,
)
    requires
        g.wf(),
        vis.len() == g.nodes().len(),
        fuel >= unvisited(vis),
        all_reached_done(g@, taught, correct, targets),
        forall|i: int| k <= i < l.len() && g@.contains_key(#[trigger] l[i]) ==> reaches(g@, true, targets, l[i]),
    ensures
        walk_list(g, taught, correct, l, k, vis, fuel).0 is None,
    decreases fuel, 1nat, (l.len() - k) as nat,
{
    if k < 0 || k >= l.len() {
        return;
    }
    lemma_node_quiet(g, taught, correct, targets, l[k], vis, fuel);
    let v2 = walk_node(g, taught, correct, l[k], vis, fuel).1;
    g.lemma_nodes();
    lemma_walk_node(g, taught, correct, l[k], vis, fuel, fuel);
    lemma_list_quiet(g, taught, correct, targets, l, k + 1, v2, fuel);
}

proof fn lemma_quiet_when_done(
    g: Graph,
    taught: Set<Seq<char>>,
    correct: Set<Seq<char>>,
    targets: Seq<Seq<char>>,
)
    requires
        g.wf(),
        all_reached_done(g@, taught, correct, targets),
    ensures
        bottom_up_step(g, taught, correct, targets) is None,
{
    let n = g.nodes().len();
    let vis = Seq::new(n, |i: int| false);
    lemma_unvisited_le_len(vis);
    assert forall|i: int| 0 <= i < targets.len() && g@.contains_key(#[trigger] targets[i]) implies reaches(
        g@, true, targets, targets[i]) by {
        lemma_reach_target(g@, true, targets, targets[i]);
    }
    lemma_list_quiet(g, taught, correct, targets, targets, 0, vis, n);
}

/// Concept `i` of the graph has been dealt with by the walk, judged by
/// the marks `v`: if it is an atom it has nothing left to do, and every
/// concept of the graph it links to is marked.
spec fn processed(g: Graph, taught: Set<Seq<char>>, correct: Set<Seq<char>>, v: Seq<bool>, i: int) -> bool {
    let c = g.nodes()[i];
    &&& (c.spec_is_atom() ==> atom_step(c, taught, correct) is None)
    &&& forall|j: int| 0 <= j < walk_ids(c).len() && g@.contains_key(#[trigger] walk_ids(c)[j]) ==> v[pos(g, walk_ids(c)[j])]
}

/// Every concept marked between `before` and `after` is processed.
spec fn new_marks_processed(
    g: Graph,
    taught: Set<Seq<char>>,
    correct: Set<Seq<char>>,
    before: Seq<bool>,
    after: Seq<bool>,
) -> bool {
    forall|i: int| 0 <= i < after.len() && #[trigger] after[i] && !before[i] ==> processed(g, taught, correct, after, i)
}

/// A walk from `id` that finds nothing marks `id` and processes all it
/// marks, whether or not the links loop.
proof fn lemma_node_closes(
    g: Graph,
    taught: Set<Seq<char>>,
    correct: Set<Seq<char>>,
    id: Seq<char>,
    vis: Seq<bool>,
    fuel: nat,
)
    requires
        g.wf(),
        vis.len() == g.nodes().len(),
        fuel >= unvisited(vis),
    ensures
        ({
            let (r, v2) = walk_node(g, taught, correct, id, vis, fuel);
            r is None ==> new_marks_processed(g, taught, correct, vis, v2) && (g@.contains_key(id) ==> v2[pos(g, id)])
        }),
    decreases fuel, 0nat, 0nat,
{
    g.lemma_nodes();
    lemma_walk_node(g, taught, correct, id, vis, fuel, fuel);
    if !g@.contains_key(id) {
        return;
    }
    let p = pos(g, id);
    assert(0 <= p < g.nodes().len() && g.nodes()[p].id@ == id);
    if fuel == 0 || vis[p] {
        if fuel == 0 {
            lemma_unvisited_zero(vis, p);
        }
        return;
    }
    let c = g@[id];
    assert(c == g.nodes()[p]);
    let v1 = vis.update(p, true);
    lemma_unvisited_update(vis, p);
    let l = walk_ids(c);
    lemma_list_closes(g, taught, correct, l, 0, v1, (fuel - 1) as nat);
    lemma_walk_list(g, taught, correct, l, 0, v1, (fuel - 1) as nat, (fuel - 1) as nat);
    let (r, v2) = walk_list(g, taught, correct, l, 0, v1, (fuel - 1) as nat);
    if r is None && !(c.spec_is_atom() && atom_step(c, taught, correct) is Some) {
        assert(v1[p]);
        assert(v2[p]);
        assert(processed(g, taught, correct, v2, p));
        assert forall|i: int| 0 <= i < v2.len() && #[trigger] v2[i] && !vis[i] implies processed(g, taught, correct, v2, i) by {
            if i != p {
                assert(!v1[i]);
            }
        }
    }
}

/// A walk of `l[k..]` that finds nothing marks each of them that the
/// graph has and processes all it marks.
proof fn lemma_list_closes(
    g: Graph,
    taught: Set<Seq<char>>,
    correct: Set<Seq<char>>,
    l: Seq<Seq<char>>,
    k: int,
    vis: Seq<bool>,
    fuel: nat,
)
    requires
        g.wf(),
        vis.len() == g.nodes().len(),
        fuel >= unvisited(vis),
        0 <= k,
    ensures
        ({
            let (r, v2) = walk_list(g, taught, correct, l, k, vis, fuel);
            r is None ==> new_marks_processed(g, taught, correct, vis, v2) && forall|i: int|
                k <= i < l.len() && g@.contains_key(#[trigger] l[i]) ==> v2[pos(g, l[i])]
        }),
    decreases fuel, 1nat, (l.len() - k) as nat,
{
    if k >= l.len() {
        return;
    }
    g.lemma_nodes();
    lemma_node_closes(g, taught, correct, l[k], vis, fuel);
    lemma_walk_node(g, taught, correct, l[k], vis, fuel, fuel);
    let (r, v2) = walk_node(g, taught, correct, l[k], vis, fuel);
    if r is None {
        lemma_list_closes(g, taught, correct, l, k + 1, v2, fuel);
        lemma_walk_list(g, taught, correct, l, k + 1, v2, fuel, fuel);
        let v3 = walk_list(g, taught, correct, l, k + 1, v2, fuel).1;
        if walk_list(g, taught, correct, l, k + 1, v2, fuel).0 is None {
            assert forall|i: int| 0 <= i < v3.len() && #[trigger] v3[i] && !vis[i] implies processed(g, taught, correct, v3, i) by {
                if v2[i] {
                    assert(processed(g, taught, correct, v2, i));
                    let c = g.nodes()[i];
                    assert forall|j: int| 0 <= j < walk_ids(c).len() && g@.contains_key(#[trigger] walk_ids(c)[j]) implies v3[pos(
                        g,
                        walk_ids(c)[j],
                    )] by {
                        let q = pos(g, walk_ids(c)[j]);
                        assert(0 <= q < g.nodes().len() && g.nodes()[q].id@ == walk_ids(c)[j]);
                        assert(v2[q]);
                    }
                } else {
                    assert(v3[i] && !v2[i]);
                }
            }
            assert forall|i: int| k <= i < l.len() && g@.contains_key(#[trigger] l[i]) implies v3[pos(g, l[i])] by {
                if i == k {
                    let q = pos(g, l[k]);
                    assert(0 <= q < g.nodes().len() && g.nodes()[q].id@ == l[k]);
                    assert(v2[q]);
                } else {
                    assert(k + 1 <= i);
                }
            }
        }
    }
}

/// A bottom-up walk that finds nothing leaves every reached atom done,
/// whether or not the links loop.
proof fn lemma_done_when_quiet(g: Graph, taught: Set<Seq<char>>, correct: Set<Seq<char>>, targets: Seq<Seq<char>>)
    requires
        g.wf(),
        bottom_up_step(g, taught, correct, targets) is None,
    ensures
        all_reached_done(g@, taught, correct, targets),
{
    let n = g.nodes().len();
    let vis = Seq::new(n, |i: int| false);
    lemma_unvisited_le_len(vis);
    lemma_list_closes(g, taught, correct, targets, 0, vis, n);
    lemma_walk_list(g, taught, correct, targets, 0, vis, n, n);
    let v = walk_list(g, taught, correct, targets, 0, vis, n).1;
    g.lemma_nodes();
    let s = Set::new(|x: Seq<char>| g@.contains_key(x) && v[pos(g, x)]);
    assert forall|t: Seq<char>| targets.contains(t) && g@.contains_key(t) implies #[trigger] s.contains(t) by {
        let i = choose|i: int| 0 <= i < targets.len() && targets[i] == t;
        assert(g@.contains_key(targets[i]));
    }
    assert forall|a: Seq<char>, b: Seq<char>| #![trigger s.contains(a), succ(g@, true, a, b)] s.contains(a) && succ(g@, true, a, b) implies s.contains(b) by {
        let p = pos(g, a);
        assert(0 <= p < n && g.nodes()[p].id@ == a);
        assert(v[p] && !vis[p]);
        assert(processed(g, taught, correct, v, p));
        let c = g.nodes()[p];
        assert(c == g@[a]);
        let j: int = if c.prereqs().contains(b) {
            let x = choose|x: int| 0 <= x < c.prereqs().len() && c.prereqs()[x] == b;
            assert(walk_ids(c)[x] == b);
            x
        } else {
            let y = choose|y: int| 0 <= y < c.children().len() && c.children()[y] == b;
            assert(walk_ids(c)[c.prereqs().len() + y] == b);
            c.prereqs().len() + y
        };
        assert(0 <= j < walk_ids(c).len() && walk_ids(c)[j] == b);
        assert(g@.contains_key(walk_ids(c)[j]));
    }
    assert forall|x: Seq<char>| #[trigger] reachable_atom_set(g@, targets).contains(x) implies atom_step(
        g@[x],
        taught,
        correct,
    ) is None by {
        lemma_closed_holds_reach(g@, true, targets, s, x);
        let p = pos(g, x);
        assert(0 <= p < n && g.nodes()[p].id@ == x);
        assert(v[p] && !vis[p]);
        assert(processed(g, taught, correct, v, p));
    }
}

/// The bottom-up walk is done exactly when the path is: whether or not
/// the links loop, it finds no step if and only if every atom the
/// targets reach (through prerequisites, and children of clusters) has
/// its lesson taught and nothing left to author or answer. So with no
/// due review first, `next` says `done` exactly then.
pub proof fn law_bottom_up_done(
    g: Graph,
    taught: Set<Seq<char>>,
    correct: Set<Seq<char>>,
    targets: Seq<Seq<char>>,
    due: Seq<Seq<char>>,
    mode: NextMode,
)
    requires
        g.wf(),
    ensures
        bottom_up_step(g, taught, correct, targets) is None <==> all_reached_done(g@, taught, correct, targets),
        (mode == NextMode::New || due_step(g@, due, 0) is None) ==> (next_step(
            g,
            Strategy::BottomUp,
            targets,
            taught,
            correct,
            due,
            Seq::empty(),
            mode,
        ) == Step::Done <==> all_reached_done(g@, taught, correct, targets)),
{
    if all_reached_done(g@, taught, correct, targets) {
        lemma_quiet_when_done(g, taught, correct, targets);
    }
    if bottom_up_step(g, taught, correct, targets) is None {
        lemma_done_when_quiet(g, taught, correct, targets);
    }
    let n = g.nodes().len();
    lemma_walk_list_fits(g, taught, correct, targets, 0, Seq::new(n, |i: int| false), n);
}

} // verus!
