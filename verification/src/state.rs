//! Learning path progress summary: how many targets are learned, and how
//! far the prerequisite graph below them is covered.
use crate::error::Error;
use crate::db::{instant_before, instant_lt};
use crate::graph::{FlatConcept, Graph, Quiz};
use crate::ids::{copy, str_eq, strs, IdSet};
use crate::path::{resolve_error, target_order, PathFile};
use crate::progress::PathProgress;
use crate::reach::reachable_atom_set;
use crate::scheduler::{complete, is_atom_complete, next_action, next_step, step_atom, NextMode};
use crate::text::{concat, decimal, decimal_string, joined, views};
use crate::types::{strategy_word, Strategy};
use vstd::prelude::*;
use vstd::string::*;

verus! {

broadcast use vstd::seq::Seq::lemma_push_to_set_commute;

/// Completion of the path's target atoms.
#[derive(Debug)]
pub struct TargetProgress {
    pub total: usize,
    pub learned: usize,
    pub learned_pct: usize,
}

/// Completion across the targets and their prerequisites.
#[derive(Debug)]
pub struct ReachProgress {
    pub total: usize,
    pub taught: usize,
    pub learned: usize,
}

/// An atom by id and name.
#[derive(Debug)]
pub struct AtomRef {
    pub id: String,
    pub name: String,
}

/// The reachable atoms that are complete on the path.
pub fn complete_set(g: &Graph, reachable: &IdSet, progress: &PathProgress) -> (r: IdSet)
    ensures
        r@ == reachable@.filter(|a: Seq<char>| complete(g@, progress.correct_quizzes@, a)),
{
    let v = reachable.to_vec();
    let mut out = IdSet::new();
    let mut i: usize = 0;
    while i < v.len()
        invariant
            i <= v@.len(),
            strs(v@).to_set() == reachable@,
            out@ == strs(v@).take(i as int).to_set().filter(|a: Seq<char>| complete(g@, progress.correct_quizzes@, a)),
        decreases v@.len() - i,
    {
        if is_atom_complete(g, progress, v[i].as_str()) {
            out.insert(v[i].as_str());
        }
        assert(strs(v@).take(i + 1) =~= strs(v@).take(i as int).push(v@[i as int]@));
        assert(out@ =~= strs(v@).take(i + 1).to_set().filter(|a: Seq<char>| complete(g@, progress.correct_quizzes@, a)));
        i = i + 1;
    }
    assert(strs(v@).take(v@.len() as int) =~= strs(v@));
    out
}

/// How many of `s` the set holds, counting repeats.
pub open spec fn count_in(s: Seq<Seq<char>>, set: Set<Seq<char>>) -> nat
    decreases s.len(),
{
    if s.len() == 0 {
        0
    } else {
        count_in(s.drop_last(), set) + if set.contains(s.last()) {
            1nat
        } else {
            0nat
        }
    }
}

/// `learned` as a whole percentage of `total`, rounded down; 0 when there
/// is nothing to learn.
pub open spec fn floor_pct(learned: nat, total: nat) -> nat {
    if total == 0 {
        0
    } else {
        (learned * 100 / total) as nat
    }
}

/// Percentage, rounded down, of `learned` over `total` (0 when `total` is 0).
pub fn learned_percent(learned: usize, total: usize) -> (r: usize)
    requires
        learned <= total,
    ensures
        r == floor_pct(learned as nat, total as nat),
{
    if total == 0 {
        return 0;
    }
    let num: u128 = (learned as u128) * 100;
    let q: u128 = num / (total as u128);
    assert(q <= 100) by (nonlinear_arith)
        requires
            q == num / (total as u128),
            num == learned * 100,
            learned <= total,
            total > 0,
    {
        assert(learned * 100 <= total * 100);
        assert(num / (total as u128) <= (total * 100) / (total as int));
    }
    q as usize
}

/// The counters of the progress summary: target count and learned
/// targets, reachable atoms, those whose lesson was taught, and those
/// complete.
pub fn counters(targets: &Vec<String>, reachable: &IdSet, complete: &IdSet, progress: &PathProgress) -> (r: (TargetProgress, ReachProgress))
    ensures
        r.0.total == targets@.len(),
        r.0.learned == count_in(strs(targets@), complete@),
        r.0.learned_pct == floor_pct(r.0.learned as nat, r.0.total as nat),
        r.1.total == reachable@.len(),
        r.1.taught == reachable@.filter(|a: Seq<char>| progress.taught_atoms@.contains(a)).len(),
        r.1.learned == complete@.len(),
{
    let total = targets.len();
    let mut learned: usize = 0;
    let mut i: usize = 0;
    while i < targets.len()
        invariant
            i <= targets@.len(),
            learned <= i,
            learned == count_in(strs(targets@).take(i as int), complete@),
        decreases targets@.len() - i,
    {
        assert(strs(targets@).take(i + 1).drop_last() =~= strs(targets@).take(i as int));
        assert(strs(targets@).take(i + 1).last() == targets@[i as int]@);
        if complete.contains(targets[i].as_str()) {
            learned = learned + 1;
        }
        i = i + 1;
    }
    assert(strs(targets@).take(targets@.len() as int) =~= strs(targets@));
    let learned_pct = learned_percent(learned, total);
    let v = reachable.to_vec();
    let mut taught = IdSet::new();
    let mut k: usize = 0;
    while k < v.len()
        invariant
            k <= v@.len(),
            strs(v@).to_set() == reachable@,
            taught@ == strs(v@).take(k as int).to_set().filter(|a: Seq<char>| progress.taught_atoms@.contains(a)),
        decreases v@.len() - k,
    {
        if progress.lesson_taught(v[k].as_str()) {
            taught.insert(v[k].as_str());
        }
        assert(strs(v@).take(k + 1) =~= strs(v@).take(k as int).push(v@[k as int]@));
        assert(taught@ =~= strs(v@).take(k + 1).to_set().filter(|a: Seq<char>| progress.taught_atoms@.contains(a)));
        k = k + 1;
    }
    assert(strs(v@).take(v@.len() as int) =~= strs(v@));
    (
        TargetProgress { total, learned, learned_pct },
        ReachProgress { total: reachable.len(), taught: taught.len(), learned: complete.len() },
    )
}

/// The atom with id `id`, by id and name.
pub fn atom_ref(g: &Graph, id: &str) -> (r: Option<AtomRef>)
    ensures
        match r {
            Some(a) => g@.contains_key(id@) && a.id@ == g@[id@].id@ && a.name@ == g@[id@].name@,
            None => !g@.contains_key(id@),
        },
{
    match g.get(id) {
        Some(c) => Some(atom_ref_of(c)),
        None => None,
    }
}

/// A concept by id and name.
pub fn atom_ref_of(c: &FlatConcept) -> (r: AtomRef)
    ensures
        r.id@ == c.id@,
        r.name@ == c.name@,
{
    AtomRef { id: copy(&c.id), name: copy(&c.name) }
}

/// Count completed targets and completed reachable atoms. Resolves the
/// path's stored targets to atoms against `g` (see
/// `PathFile::resolve_targets`) before counting; a resolution error is
/// returned as is.
pub fn compute_progress(g: &Graph, p: &PathFile, progress: &PathProgress) -> (r: Result<(TargetProgress, ReachProgress), Error>)
    ensures
        match r {
            Ok((t, rp)) => exists|atoms: Seq<Seq<char>>| #[trigger] target_order(g@, strs(p.targets@), atoms) && {
                let reach = reachable_atom_set(g@, atoms);
                let done = reach.filter(|a: Seq<char>| complete(g@, progress.correct_quizzes@, a));
                &&& t.total == atoms.len()
                &&& t.learned == count_in(atoms, done)
                &&& t.learned_pct == floor_pct(t.learned as nat, t.total as nat)
                &&& rp.total == reach.len()
                &&& rp.taught == reach.filter(|a: Seq<char>| progress.taught_atoms@.contains(a)).len()
                &&& rp.learned == done.len()
            },
            Err(e) => resolve_error(g@, strs(p.targets@), e),
        },
{
    let targets = match p.resolve_targets(g) {
        Ok(t) => t,
        Err(e) => return Err(e),
    };
    let reachable = g.reachable_atoms(targets.as_slice());
    let complete = complete_set(g, &reachable, progress);
    Ok(counters(&targets, &reachable, &complete, progress))
}

// ── Summary of a path ───────────────────────────────────────────────

/// The progress summary of a path.
#[derive(Debug)]
pub struct StateSummary {
    pub path: String,
    pub goal: String,
    pub strategy: Strategy,
    /// Creation time, as displayed (UTC, whole seconds).
    pub created_at: String,
    /// Time of the latest event (the creation time when there is none), as
    /// displayed.
    pub updated_at: String,
    pub targets: TargetProgress,
    /// Coverage of the prerequisite graph; bottom-up only.
    pub reachable: Option<ReachProgress>,
    /// The atoms of the top-down subpath still to complete, in order.
    pub subpath: Vec<AtomRef>,
    pub past_due: usize,
    pub most_recent: Option<AtomRef>,
    pub next: Option<AtomRef>,
}

/// `r` names concept `c`.
pub open spec fn ref_of(r: AtomRef, c: FlatConcept) -> bool {
    r.id@ == c.id@ && r.name@ == c.name@
}

/// The atoms of `ids` the graph has and that are not complete, in order.
pub open spec fn open_subpath(g: Map<Seq<char>, FlatConcept>, correct: Set<Seq<char>>, ids: Seq<Seq<char>>) -> Seq<FlatConcept>
    decreases ids.len(),
{
    if ids.len() == 0 {
        Seq::empty()
    } else if !complete(g, correct, ids.last()) && g.contains_key(ids.last()) {
        open_subpath(g, correct, ids.drop_last()).push(g[ids.last()])
    } else {
        open_subpath(g, correct, ids.drop_last())
    }
}

/// The summary of path `p`: its targets resolved against the graph (a
/// resolution error is returned as is); the counters of `compute_progress`,
/// the reachable ones bottom-up only; the subpath atoms still to complete;
/// the number of due cards; the atom of the scheduler's next step. The
/// display times and the most recent completed target come from the
/// event log.
pub fn summarize_state(
    g: &Graph,
    p: &PathFile,
    progress: &PathProgress,
    due: &Vec<String>,
    subpath: &Vec<String>,
    created_at: String,
    updated_at: String,
    most_recent: Option<AtomRef>,
) -> (r: Result<StateSummary, Error>)
    ensures
        match r {
            Err(e) => resolve_error(g@, strs(p.targets@), e),
            Ok(s) => exists|atoms: Seq<Seq<char>>| #[trigger] target_order(g@, strs(p.targets@), atoms) && {
                let reach = reachable_atom_set(g@, atoms);
                let done = reach.filter(|a: Seq<char>| complete(g@, progress.correct_quizzes@, a));
                let nx = step_atom(next_step(*g, p.strategy, atoms, progress.taught_atoms@, progress.correct_quizzes@, strs(due@), strs(subpath@), NextMode::Default));
                let open = open_subpath(g@, progress.correct_quizzes@, strs(subpath@));
                &&& s.path@ == p.id@ && s.goal@ == p.goal@ && s.strategy == p.strategy
                &&& s.created_at == created_at && s.updated_at == updated_at && s.most_recent == most_recent
                &&& s.targets.total == atoms.len()
                &&& s.targets.learned == count_in(atoms, done)
                &&& s.targets.learned_pct == floor_pct(s.targets.learned as nat, s.targets.total as nat)
                &&& match p.strategy {
                    Strategy::BottomUp => s.reachable matches Some(rp) && rp.total == reach.len()
                        && rp.taught == reach.filter(|a: Seq<char>| progress.taught_atoms@.contains(a)).len()
                        && rp.learned == done.len(),
                    Strategy::TopDown => s.reachable is None,
                }
                &&& s.subpath@.len() == open.len()
                &&& forall|i: int| 0 <= i < open.len() ==> #[trigger] ref_of(s.subpath@[i], open[i])
                &&& s.past_due == due@.len()
                &&& match nx {
                    Some(a) if g@.contains_key(a) => s.next matches Some(n) && ref_of(n, g@[a]),
                    _ => s.next is None,
                }
            },
        },
{
    let targets = match p.resolve_targets(g) {
        Ok(t) => t,
        Err(e) => return Err(e),
    };
    let reachable = g.reachable_atoms(targets.as_slice());
    let done = complete_set(g, &reachable, progress);
    let (tp, rp) = counters(&targets, &reachable, &done, progress);
    let action = next_action(g, p, &targets, progress, due, subpath, NextMode::Default);
    let next = match action.atom_id() {
        Some(a) => atom_ref(g, a),
        None => None,
    };
    let reach = match p.strategy {
        Strategy::BottomUp => Some(rp),
        Strategy::TopDown => None,
    };
    let ghost ids = strs(subpath@);
    let mut open: Vec<AtomRef> = Vec::new();
    let mut i: usize = 0;
    assert(ids.take(0) =~= Seq::<Seq<char>>::empty());
    while i < subpath.len()
        invariant
            i <= subpath@.len(),
            ids == strs(subpath@),
            open@.len() == open_subpath(g@, progress.correct_quizzes@, ids.take(i as int)).len(),
            forall|k: int| 0 <= k < open@.len() ==> #[trigger] ref_of(open@[k], open_subpath(g@, progress.correct_quizzes@, ids.take(i as int))[k]),
        decreases subpath@.len() - i,
    {
        assert(ids.take(i + 1).drop_last() =~= ids.take(i as int));
        assert(ids.take(i + 1).last() == subpath@[i as int]@);
        if !is_atom_complete(g, progress, subpath[i].as_str()) {
            match atom_ref(g, subpath[i].as_str()) {
                Some(a) => {
                    let ghost before = open@;
                    open.push(a);
                    assert forall|k: int| 0 <= k < open@.len() implies #[trigger] ref_of(open@[k], open_subpath(g@, progress.correct_quizzes@, ids.take(i + 1))[k]) by {
                        if k < before.len() {
                            assert(open@[k] == before[k]);
                        }
                    }
                },
                None => {},
            }
        }
        i = i + 1;
    }
    assert(ids.take(subpath@.len() as int) =~= ids);
    Ok(StateSummary {
        path: copy(&p.id),
        goal: copy(&p.goal),
        strategy: p.strategy,
        created_at,
        updated_at,
        targets: tp,
        reachable: reach,
        subpath: open,
        past_due: due.len(),
        most_recent,
        next,
    })
}

// ── Text of the summary ─────────────────────────────────────────────

/// The ids joined by ` → `.
pub open spec fn route(ids: Seq<Seq<char>>) -> Seq<char>
    decreases ids.len(),
{
    if ids.len() == 0 {
        Seq::empty()
    } else if ids.len() == 1 {
        ids[0]
    } else {
        route(ids.drop_last()) + " → "@ + ids.last()
    }
}

/// A labelled atom line: `id — name`, or `—` for none.
pub open spec fn atom_line(label: Seq<char>, a: Option<AtomRef>) -> Seq<char> {
    match a {
        Some(x) => joined(seq![label, x.id@, " — "@, x.name@]),
        None => joined(seq![label, "—"@]),
    }
}

/// The lines of the summary, labels padded to 13 columns.
pub open spec fn state_text(s: StateSummary) -> Seq<Seq<char>> {
    seq![
        joined(seq!["path:        "@, s.path@]),
        joined(seq!["goal:        "@, s.goal@]),
        joined(seq!["strategy:    "@, strategy_word(s.strategy)]),
        joined(seq!["created:     "@, s.created_at@]),
        joined(seq!["updated:     "@, s.updated_at@]),
        joined(seq!["targets:     "@, decimal(s.targets.learned as nat), " / "@, decimal(s.targets.total as nat), " learned ("@,
            decimal(s.targets.learned_pct as nat), "%)"@]),
    ] + match s.reachable {
        Some(r) => seq![joined(seq!["reachable:   "@, decimal(r.total as nat), " atoms ("@, decimal(r.taught as nat),
            " with lesson, "@, decimal(r.learned as nat), " learned)"@])],
        None => Seq::empty(),
    } + if s.subpath@.len() > 0 {
        seq![joined(seq!["subpath:     "@, route(s.subpath@.map_values(|a: AtomRef| a.id@))])]
    } else {
        Seq::empty()
    } + seq![
        joined(seq!["past due:    "@, decimal(s.past_due as nat)]),
        atom_line("most recent: "@, s.most_recent),
        atom_line("next:        "@, s.next),
    ]
}

fn line2(a: &str, b: &str) -> (r: String)
    ensures
        r@ == joined(seq![a@, b@]),
{
    let parts: [&str; 2] = [a, b];
    let r = concat(&parts);
    assert(views(parts@) =~= seq![a@, b@]);
    r
}

fn atom_line_exec(label: &str, a: &Option<AtomRef>) -> (r: String)
    ensures
        r@ == atom_line(label@, *a),
{
    match a {
        Some(x) => {
            let parts: [&str; 4] = [label, x.id.as_str(), " — ", x.name.as_str()];
            let r = concat(&parts);
            assert(views(parts@) =~= seq![label@, x.id@, " — "@, x.name@]);
            r
        },
        None => line2(label, "—"),
    }
}

/// The lines `mt path state` prints for the summary (see `state_text`).
pub fn state_lines(s: &StateSummary) -> (r: Vec<String>)
    ensures
        strs(r@) == state_text(*s),
{
    let mut out: Vec<String> = Vec::new();
    out.push(line2("path:        ", s.path.as_str()));
    out.push(line2("goal:        ", s.goal.as_str()));
    out.push(line2("strategy:    ", s.strategy.as_str()));
    out.push(line2("created:     ", s.created_at.as_str()));
    out.push(line2("updated:     ", s.updated_at.as_str()));
    let l = decimal_string(s.targets.learned as u64);
    let t = decimal_string(s.targets.total as u64);
    let p = decimal_string(s.targets.learned_pct as u64);
    let parts: [&str; 7] = ["targets:     ", l.as_str(), " / ", t.as_str(), " learned (", p.as_str(), "%)"];
    let tl = concat(&parts);
    assert(views(parts@) =~= seq!["targets:     "@, l@, " / "@, t@, " learned ("@, p@, "%)"@]);
    out.push(tl);
    let ghost head = strs(out@);
    match &s.reachable {
        Some(rp) => {
            let a = decimal_string(rp.total as u64);
            let b = decimal_string(rp.taught as u64);
            let c = decimal_string(rp.learned as u64);
            let parts: [&str; 7] = ["reachable:   ", a.as_str(), " atoms (", b.as_str(), " with lesson, ", c.as_str(), " learned)"];
            let rl = concat(&parts);
            assert(views(parts@) =~= seq!["reachable:   "@, a@, " atoms ("@, b@, " with lesson, "@, c@, " learned)"@]);
            out.push(rl);
        },
        None => {},
    }
    let ghost mid = strs(out@);
    if s.subpath.len() > 0 {
        let ghost ids = s.subpath@.map_values(|a: AtomRef| a.id@);
        let mut route_text = String::new();
        let mut i: usize = 0;
        proof {
            reveal_strlit(" → ");
        }
        while i < s.subpath.len()
            invariant
                i <= s.subpath@.len(),
                ids == s.subpath@.map_values(|a: AtomRef| a.id@),
                route_text@ == route(ids.take(i as int)),
            decreases s.subpath@.len() - i,
        {
            assert(ids.take(i + 1).drop_last() =~= ids.take(i as int));
            if i > 0 {
                route_text.append(" → ");
            }
            route_text.append(s.subpath[i].id.as_str());
            proof {
                if i == 0 {
                    assert(ids.take(0) =~= Seq::<Seq<char>>::empty());
                    assert(route_text@ =~= ids.take(1)[0]);
                }
            }
            i = i + 1;
        }
        assert(ids.take(s.subpath@.len() as int) =~= ids);
        out.push(line2("subpath:     ", route_text.as_str()));
    }
    let ghost mid2 = strs(out@);
    let pd = decimal_string(s.past_due as u64);
    out.push(line2("past due:    ", pd.as_str()));
    out.push(atom_line_exec("most recent: ", &s.most_recent));
    out.push(atom_line_exec("next:        ", &s.next));
    assert(strs(out@) =~= state_text(*s));
    out
}


/// When a quiz was first answered correctly on a path (an instant as
/// seconds and nanoseconds since the epoch).
pub struct FirstCorrect {
    pub quiz_id: String,
    pub secs: i64,
    pub nanos: u32,
}

/// The instant the first entry of `fc` for quiz `q` records.
pub open spec fn first_correct_at(fc: Seq<FirstCorrect>, q: Seq<char>) -> Option<(i64, u32)>
    decreases fc.len(),
{
    if fc.len() == 0 {
        None
    } else if fc[0].quiz_id@ == q {
        Some((fc[0].secs, fc[0].nanos))
    } else {
        first_correct_at(fc.drop_first(), q)
    }
}

/// Every quiz of `qs` has an entry in `fc`.
pub open spec fn all_recorded(fc: Seq<FirstCorrect>, qs: Seq<Quiz>) -> bool {
    forall|i: int| 0 <= i < qs.len() ==> #[trigger] first_correct_at(fc, qs[i].id@) is Some
}

/// The latest of the first-correct instants of the quizzes `qs`.
pub open spec fn latest_first_correct(fc: Seq<FirstCorrect>, qs: Seq<Quiz>) -> (i64, u32)
    decreases qs.len(),
{
    if qs.len() <= 1 {
        first_correct_at(fc, qs[0].id@).unwrap()
    } else {
        let a = latest_first_correct(fc, qs.drop_last());
        let b = first_correct_at(fc, qs.last().id@).unwrap();
        if instant_lt(b, a) { a } else { b }
    }
}

/// Of the complete atoms among `ts`, the one whose latest first-correct
/// instant is the most recent; on a tie, the later one in `ts`.
pub open spec fn latest_completed(g: Map<Seq<char>, FlatConcept>, correct: Set<Seq<char>>, fc: Seq<FirstCorrect>, ts: Seq<Seq<char>>) -> Option<Seq<char>>
    decreases ts.len(),
{
    if ts.len() == 0 {
        None
    } else {
        let rest = latest_completed(g, correct, fc, ts.drop_last());
        let a = ts.last();
        if complete(g, correct, a) {
            match rest {
                Some(b) => if instant_lt(latest_first_correct(fc, g[a].quizzes@), latest_first_correct(fc, g[b].quizzes@)) {
                    Some(b)
                } else {
                    Some(a)
                },
                None => Some(a),
            }
        } else {
            rest
        }
    }
}

/// Every complete atom of `ts` has its quizzes recorded in `fc`.
pub open spec fn completed_recorded(g: Map<Seq<char>, FlatConcept>, correct: Set<Seq<char>>, fc: Seq<FirstCorrect>, ts: Seq<Seq<char>>) -> bool {
    forall|i: int| 0 <= i < ts.len() && #[trigger] complete(g, correct, ts[i]) ==> all_recorded(fc, g[ts[i]].quizzes@)
}

/// The first-correct instant `fc` records for quiz `q`.
pub fn find_first_correct(fc: &Vec<FirstCorrect>, q: &str) -> (r: Option<(i64, u32)>)
    ensures
        r == first_correct_at(fc@, q@),
{
    let mut i: usize = 0;
    assert(fc@.skip(0) =~= fc@);
    while i < fc.len()
        invariant
            i <= fc@.len(),
            first_correct_at(fc@, q@) == first_correct_at(fc@.skip(i as int), q@),
        decreases fc@.len() - i,
    {
        assert(fc@.skip(i as int).drop_first() =~= fc@.skip(i + 1));
        if str_eq(fc[i].quiz_id.as_str(), q) {
            return Some((fc[i].secs, fc[i].nanos));
        }
        i = i + 1;
    }
    None
}

/// The latest first-correct instant of a non-empty list of recorded quizzes.
pub fn latest_of(fc: &Vec<FirstCorrect>, qs: &Vec<Quiz>) -> (r: (i64, u32))
    requires
        qs@.len() > 0,
        all_recorded(fc@, qs@),
    ensures
        r == latest_first_correct(fc@, qs@),
{
    assert(first_correct_at(fc@, qs@[0].id@) is Some);
    let mut best = match find_first_correct(fc, qs[0].id.as_str()) {
        Some(t) => t,
        None => (0, 0),
    };
    let mut i: usize = 1;
    while i < qs.len()
        invariant
            1 <= i <= qs@.len(),
            all_recorded(fc@, qs@),
            best == latest_first_correct(fc@, qs@.take(i as int)),
        decreases qs@.len() - i,
    {
        assert(first_correct_at(fc@, qs@[i as int].id@) is Some);
        let t = match find_first_correct(fc, qs[i].id.as_str()) {
            Some(t) => t,
            None => (0, 0),
        };
        assert(qs@.take(i + 1).drop_last() =~= qs@.take(i as int));
        if !instant_before(t, best) {
            best = t;
        }
        i = i + 1;
    }
    assert(qs@.take(qs@.len() as int) =~= qs@);
    best
}

/// The target completed most recently: of the targets `targets` that are
/// complete on the path, the one whose quizzes' latest first correct
/// answer (as `fc` records them) is the most recent, the later target on
/// a tie; `None` when no target is complete.
pub fn most_recent_completed(g: &Graph, targets: &Vec<String>, progress: &PathProgress, fc: &Vec<FirstCorrect>) -> (r: Option<AtomRef>)
    requires
        completed_recorded(g@, progress.correct_quizzes@, fc@, strs(targets@)),
    ensures
        match latest_completed(g@, progress.correct_quizzes@, fc@, strs(targets@)) {
            Some(a) => r matches Some(x) && ref_of(x, g@[a]),
            None => r is None,
        },
{
    let ghost ts = strs(targets@);
    let ghost correct = progress.correct_quizzes@;
    let mut best: Option<(&FlatConcept, (i64, u32))> = None;
    let mut i: usize = 0;
    while i < targets.len()
        invariant
            i <= targets@.len(),
            ts == strs(targets@),
            correct == progress.correct_quizzes@,
            completed_recorded(g@, correct, fc@, ts),
            match latest_completed(g@, correct, fc@, ts.take(i as int)) {
                Some(a) => best matches Some((c, t)) && g@.contains_key(a) && *c == g@[a]
                    && t == latest_first_correct(fc@, g@[a].quizzes@),
                None => best is None,
            },
        decreases targets@.len() - i,
    {
        assert(ts.take(i + 1).drop_last() =~= ts.take(i as int));
        assert(ts.take(i + 1).last() == targets@[i as int]@);
        if is_atom_complete(g, progress, targets[i].as_str()) {
            assert(ts[i as int] == targets@[i as int]@);
            match g.get(targets[i].as_str()) {
                Some(c) => {
                    let t = latest_of(fc, &c.quizzes);
                    match best {
                        Some((_, bt)) => {
                            if !instant_before(t, bt) {
                                best = Some((c, t));
                            }
                        },
                        None => {
                            best = Some((c, t));
                        },
                    }
                },
                None => {},
            }
        }
        i = i + 1;
    }
    assert(ts.take(targets@.len() as int) =~= ts);
    match best {
        Some((c, _)) => Some(atom_ref_of(c)),
        None => None,
    }
}


/// Whether `fc` records every quiz of every complete target, as
/// `most_recent_completed` needs.
pub fn first_correct_covers(g: &Graph, targets: &Vec<String>, progress: &PathProgress, fc: &Vec<FirstCorrect>) -> (r: bool)
    ensures
        r == completed_recorded(g@, progress.correct_quizzes@, fc@, strs(targets@)),
{
    let ghost ts = strs(targets@);
    let ghost correct = progress.correct_quizzes@;
    let mut i: usize = 0;
    while i < targets.len()
        invariant
            i <= targets@.len(),
            ts == strs(targets@),
            correct == progress.correct_quizzes@,
            forall|k: int| 0 <= k < i && #[trigger] complete(g@, correct, ts[k]) ==> all_recorded(fc@, g@[ts[k]].quizzes@),
        decreases targets@.len() - i,
    {
        assert(ts[i as int] == targets@[i as int]@);
        if is_atom_complete(g, progress, targets[i].as_str()) {
            match g.get(targets[i].as_str()) {
                Some(c) => {
                    let mut j: usize = 0;
                    while j < c.quizzes.len()
                        invariant
                            j <= c.quizzes@.len(),
                            i < targets@.len(),
                            ts == strs(targets@),
                            correct == progress.correct_quizzes@,
                            complete(g@, correct, ts[i as int]),
                            *c == g@[ts[i as int]],
                            forall|k: int| 0 <= k < j ==> #[trigger] first_correct_at(fc@, c.quizzes@[k].id@) is Some,
                        decreases c.quizzes@.len() - j,
                    {
                        if find_first_correct(fc, c.quizzes[j].id.as_str()).is_none() {
                            assert(!all_recorded(fc@, c.quizzes@));
                            assert(!completed_recorded(g@, correct, fc@, ts));
                            return false;
                        }
                        j = j + 1;
                    }
                },
                None => {},
            }
        }
        i = i + 1;
    }
    true
}

} // verus!
