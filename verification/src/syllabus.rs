//! The syllabus: the atoms whose lessons are still to come, in the order
//! the scheduler would teach them. Bottom-up walks the prerequisite graph
//! from the targets; top-down lists the subpath's atoms, then the targets.
use crate::error::Error;
use crate::event_log::Event;
use crate::graph::{known_concepts, pos, FlatConcept, Graph};
use crate::ids::{copy, copy_opt, opt_view, strs, to_owned, IdSet};
use crate::path::{resolve_error, target_order, PathFile};
use crate::progress::{taught_in, PathProgress};
use crate::scheduler::{lemma_unvisited_le_len, lemma_unvisited_mono, lemma_unvisited_update, unvisited, walk_ids};
use crate::types::Strategy;
use vstd::prelude::*;

verus! {

#[derive(Debug)]
pub struct SyllabusView {
    pub schema_version: u32,
    pub path: String,
    pub goal: String,
    /// All upcoming atoms, however many `atoms` shows.
    pub total_remaining: usize,
    pub atoms: Vec<SyllabusAtom>,
}

#[derive(Debug)]
pub struct SyllabusAtom {
    pub id: String,
    pub name: String,
    pub description: Option<String>,
}

// ── Model ─────────────────────────────────────────────────────────

/// Depth-first from `id` (prerequisites, then children, then the concept),
/// collecting the atoms not in `taught`. `vis` marks visited concepts by
/// position; `fuel` bounds the recursion and is never exhausted when it is
/// at least the number of unvisited concepts.
pub open spec fn collect_node(
    g: Graph,
    taught: Set<Seq<char>>,
    id: Seq<char>,
    vis: Seq<bool>,
    fuel: nat,
) -> (Seq<Seq<char>>, Seq<bool>)
    decreases fuel, 0nat, 0nat,
{
    if !g@.contains_key(id) || fuel == 0 {
        (Seq::empty(), vis)
    } else if vis[pos(g, id)] {
        (Seq::empty(), vis)
    } else {
        let c = g@[id];
        let (o, v2) = collect_list(g, taught, walk_ids(c), 0, vis.update(pos(g, id), true), (fuel - 1) as nat);
        if c.spec_is_atom() && !taught.contains(id) {
            (o.push(id), v2)
        } else {
            (o, v2)
        }
    }
}

/// `collect_node` over `l[k..]` in order, sharing the marks.
pub open spec fn collect_list(
    g: Graph,
    taught: Set<Seq<char>>,
    l: Seq<Seq<char>>,
    k: int,
    vis: Seq<bool>,
    fuel: nat,
) -> (Seq<Seq<char>>, Seq<bool>)
    decreases fuel, 1nat, (l.len() - k) as nat,
{
    if k < 0 || k >= l.len() {
        (Seq::empty(), vis)
    } else {
        let (o1, v1) = collect_node(g, taught, l[k], vis, fuel);
        let (o2, v2) = collect_list(g, taught, l, k + 1, v1, fuel);
        (o1 + o2, v2)
    }
}

/// The bottom-up syllabus of `targets`, nothing visited at the start.
pub open spec fn upcoming(g: Graph, taught: Set<Seq<char>>, targets: Seq<Seq<char>>) -> Seq<Seq<char>> {
    collect_list(g, taught, targets, 0, Seq::new(g.nodes().len(), |i: int| false), g.nodes().len()).0
}

/// The top-down syllabus of `ids`: each id at its first occurrence when it
/// is an atom of `g` not in `taught`.
pub open spec fn top_down_upcoming(
    g: Map<Seq<char>, FlatConcept>,
    taught: Set<Seq<char>>,
    ids: Seq<Seq<char>>,
) -> Seq<Seq<char>>
    decreases ids.len(),
{
    if ids.len() == 0 {
        Seq::empty()
    } else {
        let prev = top_down_upcoming(g, taught, ids.drop_last());
        let x = ids.last();
        if !ids.drop_last().contains(x) && g.contains_key(x) && g[x].spec_is_atom() && !taught.contains(x) {
            prev.push(x)
        } else {
            prev
        }
    }
}

/// `a` shows concept `c`.
pub open spec fn syllabus_atom_of(a: SyllabusAtom, c: FlatConcept) -> bool {
    a.id@ == c.id@ && a.name@ == c.name@ && opt_view(a.description) == opt_view(c.description)
}

/// `v` is the syllabus of path `p` with upcoming atoms `up`, showing at
/// most `n` of them.
pub open spec fn syllabus_of(v: SyllabusView, g: Map<Seq<char>, FlatConcept>, p: PathFile, up: Seq<Seq<char>>, n: usize) -> bool {
    let shown = known_concepts(g, up.take(if n < up.len() { n as int } else { up.len() as int }));
    &&& v.schema_version == 1
    &&& v.path@ == p.id@
    &&& v.goal@ == p.goal@
    &&& v.total_remaining == up.len()
    &&& v.atoms@.len() == shown.len()
    &&& forall|i: int| 0 <= i < shown.len() ==> #[trigger] syllabus_atom_of(v.atoms@[i], shown[i])
}

/// Enough fuel gives the same walk, and a walk only ever adds marks.
pub proof fn lemma_collect_node(g: Graph, taught: Set<Seq<char>>, id: Seq<char>, vis: Seq<bool>, f1: nat, f2: nat)
    requires
        g.wf(),
        vis.len() == g.nodes().len(),
        f1 >= unvisited(vis),
        f2 >= unvisited(vis),
    ensures
        collect_node(g, taught, id, vis, f1) == collect_node(g, taught, id, vis, f2),
        collect_node(g, taught, id, vis, f1).1.len() == vis.len(),
        forall|i: int| 0 <= i < vis.len() && vis[i] ==> #[trigger] collect_node(g, taught, id, vis, f1).1[i],
        unvisited(collect_node(g, taught, id, vis, f1).1) <= unvisited(vis),
    decreases f1, 0nat, 0nat,
{
    g.lemma_nodes();
    if g@.contains_key(id) {
        let p = pos(g, id);
        assert(0 <= p < g.nodes().len() && g.nodes()[p].id@ == id);
        if !vis[p] {
            lemma_unvisited_update(vis, p);
            let v1 = vis.update(p, true);
            lemma_collect_list(g, taught, walk_ids(g@[id]), 0, v1, (f1 - 1) as nat, (f2 - 1) as nat);
        }
    }
}

pub proof fn lemma_collect_list(
    g: Graph,
    taught: Set<Seq<char>>,
    l: Seq<Seq<char>>,
    k: int,
    vis: Seq<bool>,
    f1: nat,
    f2: nat,
)
    requires
        g.wf(),
        vis.len() == g.nodes().len(),
        f1 >= unvisited(vis),
        f2 >= unvisited(vis),
    ensures
        collect_list(g, taught, l, k, vis, f1) == collect_list(g, taught, l, k, vis, f2),
        collect_list(g, taught, l, k, vis, f1).1.len() == vis.len(),
        forall|i: int| 0 <= i < vis.len() && vis[i] ==> #[trigger] collect_list(g, taught, l, k, vis, f1).1[i],
        unvisited(collect_list(g, taught, l, k, vis, f1).1) <= unvisited(vis),
    decreases f1, 1nat, (l.len() - k) as nat,
{
    if 0 <= k < l.len() {
        lemma_collect_node(g, taught, l[k], vis, f1, f2);
        let v1 = collect_node(g, taught, l[k], vis, f1).1;
        lemma_collect_list(g, taught, l, k + 1, v1, f1, f2);
    }
}

/// What a walk collects: atoms of the graph not taught, each once, none
/// marked before the walk and all marked after it; marks are only added.
pub proof fn lemma_collect_node_facts(g: Graph, taught: Set<Seq<char>>, id: Seq<char>, vis: Seq<bool>, fuel: nat)
    requires
        g.wf(),
        vis.len() == g.nodes().len(),
    ensures
        ({
            let (o, v2) = collect_node(g, taught, id, vis, fuel);
            &&& v2.len() == vis.len()
            &&& forall|i: int| 0 <= i < vis.len() && vis[i] ==> #[trigger] v2[i]
            &&& o.no_duplicates()
            &&& forall|x: Seq<char>| #[trigger] o.contains(x) ==> g@.contains_key(x) && g@[x].spec_is_atom() && !taught.contains(x)
                && !vis[pos(g, x)] && v2[pos(g, x)]
        }),
    decreases fuel, 0nat, 0nat,
{
    g.lemma_nodes();
    if g@.contains_key(id) && fuel > 0 {
        let p = pos(g, id);
        assert(0 <= p < g.nodes().len() && g.nodes()[p].id@ == id);
        if !vis[p] {
            let v1 = vis.update(p, true);
            let c = g@[id];
            lemma_collect_list_facts(g, taught, walk_ids(c), 0, v1, (fuel - 1) as nat);
            let (o, v2) = collect_list(g, taught, walk_ids(c), 0, v1, (fuel - 1) as nat);
            if c.spec_is_atom() && !taught.contains(id) {
                let o2 = o.push(id);
                assert forall|x: Seq<char>| #[trigger] o2.contains(x) implies g@.contains_key(x) && g@[x].spec_is_atom()
                    && !taught.contains(x) && !vis[pos(g, x)] && v2[pos(g, x)] by {
                    if x != id {
                        assert(o.contains(x));
                        assert(!v1[pos(g, x)]);
                    }
                }
                assert(!o.contains(id)) by {
                    if o.contains(id) {
                        assert(!v1[pos(g, id)]);
                    }
                }
                assert forall|a: int, b: int| 0 <= a < b < o2.len() implies o2[a] != o2[b] by {
                    if b == o.len() {
                        assert(o.contains(o2[a]));
                    }
                }
            } else {
                assert forall|x: Seq<char>| #[trigger] o.contains(x) implies !vis[pos(g, x)] by {
                    assert(!v1[pos(g, x)]);
                }
            }
        }
    }
}

pub proof fn lemma_collect_list_facts(g: Graph, taught: Set<Seq<char>>, l: Seq<Seq<char>>, k: int, vis: Seq<bool>, fuel: nat)
    requires
        g.wf(),
        vis.len() == g.nodes().len(),
    ensures
        ({
            let (o, v2) = collect_list(g, taught, l, k, vis, fuel);
            &&& v2.len() == vis.len()
            &&& forall|i: int| 0 <= i < vis.len() && vis[i] ==> #[trigger] v2[i]
            &&& o.no_duplicates()
            &&& forall|x: Seq<char>| #[trigger] o.contains(x) ==> g@.contains_key(x) && g@[x].spec_is_atom() && !taught.contains(x)
                && !vis[pos(g, x)] && v2[pos(g, x)]
        }),
    decreases fuel, 1nat, (l.len() - k) as nat,
{
    if 0 <= k < l.len() {
        lemma_collect_node_facts(g, taught, l[k], vis, fuel);
        let (o1, v1) = collect_node(g, taught, l[k], vis, fuel);
        lemma_collect_list_facts(g, taught, l, k + 1, v1, fuel);
        let (o2, v2) = collect_list(g, taught, l, k + 1, v1, fuel);
        let o = o1 + o2;
        assert forall|x: Seq<char>| #[trigger] o.contains(x) implies g@.contains_key(x) && g@[x].spec_is_atom()
            && !taught.contains(x) && !vis[pos(g, x)] && v2[pos(g, x)] by {
            if o1.contains(x) {
                g.lemma_nodes();
            } else {
                let j = choose|j: int| 0 <= j < o.len() && o[j] == x;
                assert(o2[j - o1.len()] == x);
                assert(o2.contains(x));
                g.lemma_nodes();
            }
        }
        assert forall|a: int, b: int| 0 <= a < b < o.len() implies o[a] != o[b] by {
            if a < o1.len() && b >= o1.len() {
                assert(o1.contains(o[a]));
                assert(o2.contains(o[b]));
                assert(o2[b - o1.len()] == o[b]);
                g.lemma_nodes();
            } else if a >= o1.len() {
                assert(o[a] == o2[a - o1.len()] && o[b] == o2[b - o1.len()]);
            }
        }
    }
}

/// The bottom-up syllabus lists atoms of the graph whose lessons have not
/// been taught, each once.
pub proof fn law_upcoming_untaught_once(g: Graph, taught: Set<Seq<char>>, targets: Seq<Seq<char>>)
    requires
        g.wf(),
    ensures
        upcoming(g, taught, targets).no_duplicates(),
        forall|x: Seq<char>| #[trigger] upcoming(g, taught, targets).contains(x) ==> g@.contains_key(x) && g@[x].spec_is_atom()
            && !taught.contains(x),
{
    lemma_collect_list_facts(g, taught, targets, 0, Seq::new(g.nodes().len(), |i: int| false), g.nodes().len());
}

/// The top-down syllabus lists, each once, atoms of the graph among
/// `ids` whose lessons have not been taught.
pub proof fn law_top_down_untaught_once(g: Map<Seq<char>, FlatConcept>, taught: Set<Seq<char>>, ids: Seq<Seq<char>>)
    ensures
        top_down_upcoming(g, taught, ids).no_duplicates(),
        forall|x: Seq<char>| #[trigger] top_down_upcoming(g, taught, ids).contains(x) ==> ids.contains(x)
            && g.contains_key(x) && g[x].spec_is_atom() && !taught.contains(x),
    decreases ids.len(),
{
    if ids.len() > 0 {
        let init = ids.drop_last();
        law_top_down_untaught_once(g, taught, init);
        let prev = top_down_upcoming(g, taught, init);
        let x = ids.last();
        assert forall|y: Seq<char>| #[trigger] prev.contains(y) implies ids.contains(y) by {
            let j = choose|j: int| 0 <= j < init.len() && init[j] == y;
            assert(ids[j] == y);
        }
        if !init.contains(x) && g.contains_key(x) && g[x].spec_is_atom() && !taught.contains(x) {
            let r = prev.push(x);
            assert(!prev.contains(x));
            assert forall|a: int, b: int| 0 <= a < b < r.len() implies r[a] != r[b] by {
                if b == prev.len() {
                    assert(prev.contains(r[a]));
                }
            }
            assert forall|y: Seq<char>| #[trigger] r.contains(y) implies ids.contains(y) && g.contains_key(y) && g[y].spec_is_atom()
                && !taught.contains(y) by {
                if y != x {
                    assert(prev.contains(y));
                } else {
                    assert(ids[ids.len() - 1] == x);
                }
            }
        }
    }
}

// ── Walks ─────────────────────────────────────────────────────────

/// The bottom-up walk from `id`: appends to `out` the atoms it reaches that
/// are not in `taught`, marking what it visits.
fn collect_untaught(g: &Graph, taught: &IdSet, id: &str, visited: &mut Vec<bool>, out: &mut Vec<String>)
    requires
        old(visited)@.len() == g.nodes().len(),
    ensures
        ({
            let w = collect_node(*g, taught@, id@, old(visited)@, unvisited(old(visited)@));
            &&& strs(final(out)@) == strs(old(out)@) + w.0
            &&& final(visited)@ == w.1
        }),
        final(visited)@.len() == old(visited)@.len(),
        unvisited(final(visited)@) <= unvisited(old(visited)@),
        forall|i: int| 0 <= i < old(visited)@.len() && old(visited)@[i] ==> final(visited)@[i],
    decreases unvisited(old(visited)@),
{
    proof {
        use_type_invariant(g);
        g.lemma_nodes();
    }
    let ghost t = taught@;
    let ghost v0 = visited@;
    let ghost o0 = strs(out@);
    let ghost f0 = unvisited(v0);
    let i = match g.find(id) {
        None => return,
        Some(i) => i,
    };
    assert(pos(*g, id@) == i as int);
    if visited[i] {
        return;
    }
    proof {
        lemma_unvisited_update(visited@, i as int);
    }
    visited.set(i, true);
    let c = g.node_at(i);
    let ghost v1 = visited@;
    let ghost l = walk_ids(*c);
    let ghost fuel: nat = (f0 - 1) as nat;
    assert(*c == g@[id@]);
    let ghost whole = collect_list(*g, t, l, 0, v1, fuel);
    let ghost result = if c.spec_is_atom() && !t.contains(id@) {
        (whole.0.push(id@), whole.1)
    } else {
        whole
    };
    assert(collect_node(*g, t, id@, v0, f0) == result);
    let ghost mut acc: Seq<Seq<char>> = Seq::empty();
    assert(whole.0 =~= acc + collect_list(*g, t, l, 0, visited@, fuel).0);
    let np = c.prerequisites.len();
    let nc = c.children_ids.len();
    let mut k: usize = 0;
    while k < np
        invariant
            g.wf(),
            np == c.prerequisites@.len(),
            nc == c.children_ids@.len(),
            l == walk_ids(*c),
            l.len() == np + nc,
            k <= np,
            v0 == old(visited)@,
            v0.len() == g.nodes().len(),
            visited@.len() == g.nodes().len(),
            unvisited(visited@) <= fuel,
            fuel + 1 == f0,
            f0 == unvisited(v0),
            forall|j: int| 0 <= j < v0.len() && v0[j] ==> visited@[j],
            t == taught@,
            strs(out@) == o0 + acc,
            whole.0 == acc + collect_list(*g, t, l, k as int, visited@, fuel).0,
            whole.1 == collect_list(*g, t, l, k as int, visited@, fuel).1,
        decreases np - k,
    {
        let next = &c.prerequisites[k];
        assert(next@ == l[k as int]);
        let ghost vk = visited@;
        proof {
            lemma_collect_node(*g, t, l[k as int], vk, fuel, unvisited(vk));
        }
        let ghost step = collect_node(*g, t, l[k as int], vk, fuel);
        collect_untaught(g, taught, next.as_str(), visited, out);
        proof {
            assert(collect_list(*g, t, l, k as int, vk, fuel).0
                == step.0 + collect_list(*g, t, l, k + 1, visited@, fuel).0);
            assert(whole.0 =~= (acc + step.0) + collect_list(*g, t, l, k + 1, visited@, fuel).0);
            assert(strs(out@) =~= o0 + (acc + step.0));
            acc = acc + step.0;
        }
        k = k + 1;
    }
    let mut j: usize = 0;
    while j < nc
        invariant
            g.wf(),
            np == c.prerequisites@.len(),
            nc == c.children_ids@.len(),
            l == walk_ids(*c),
            l.len() == np + nc,
            j <= nc,
            v0 == old(visited)@,
            v0.len() == g.nodes().len(),
            visited@.len() == g.nodes().len(),
            unvisited(visited@) <= fuel,
            fuel + 1 == f0,
            f0 == unvisited(v0),
            forall|j: int| 0 <= j < v0.len() && v0[j] ==> visited@[j],
            t == taught@,
            strs(out@) == o0 + acc,
            whole.0 == acc + collect_list(*g, t, l, np + j as int, visited@, fuel).0,
            whole.1 == collect_list(*g, t, l, np + j as int, visited@, fuel).1,
        decreases nc - j,
    {
        let next = &c.children_ids[j];
        assert(next@ == l[np + j as int]);
        let ghost vk = visited@;
        proof {
            lemma_collect_node(*g, t, l[np + j as int], vk, fuel, unvisited(vk));
        }
        let ghost step = collect_node(*g, t, l[np + j as int], vk, fuel);
        collect_untaught(g, taught, next.as_str(), visited, out);
        proof {
            assert(collect_list(*g, t, l, np + j as int, vk, fuel).0
                == step.0 + collect_list(*g, t, l, np + j as int + 1, visited@, fuel).0);
            assert(whole.0 =~= (acc + step.0) + collect_list(*g, t, l, np + j as int + 1, visited@, fuel).0);
            assert(strs(out@) =~= o0 + (acc + step.0));
            acc = acc + step.0;
        }
        j = j + 1;
    }
    if c.children_ids.len() == 0 && !taught.contains(id) {
        let ghost before = strs(out@);
        out.push(to_owned(id));
        assert(strs(out@) =~= before.push(id@));
        assert(strs(out@) =~= o0 + whole.0.push(id@));
    } else {
        assert(strs(out@) =~= o0 + whole.0);
    }
}

/// The bottom-up syllabus of the target list `targets`: depth-first from
/// each target in order (prerequisites, then children, then the concept
/// itself), every atom whose lesson has not been taught (a `LessonTaught`
/// or `LessonAuthored` event in `events`), each once. Ids the graph lacks
/// are passed over.
pub fn upcoming_from(g: &Graph, targets: &[String], events: &[Event]) -> (r: Vec<String>)
    ensures
        strs(r@) == upcoming(*g, taught_in(events@), strs(targets@)),
{
    proof {
        use_type_invariant(g);
    }
    let progress = PathProgress::from_events(events);
    let taught = &progress.taught_atoms;
    let ghost t = taught@;
    let n = g.len();
    let mut visited: Vec<bool> = Vec::new();
    let mut j: usize = 0;
    while j < n
        invariant
            j <= n,
            visited@.len() == j,
            forall|x: int| 0 <= x < j ==> !visited@[x],
        decreases n - j,
    {
        visited.push(false);
        j = j + 1;
    }
    let ghost v0 = visited@;
    assert(v0 =~= Seq::new(g.nodes().len(), |i: int| false));
    let ghost l = strs(targets@);
    let ghost fuel: nat = g.nodes().len() as nat;
    proof {
        lemma_unvisited_le_len(v0);
    }
    let ghost whole = collect_list(*g, t, l, 0, v0, fuel);
    let mut out: Vec<String> = Vec::new();
    let ghost mut acc: Seq<Seq<char>> = Seq::empty();
    assert(whole.0 =~= acc + collect_list(*g, t, l, 0, visited@, fuel).0);
    let mut k: usize = 0;
    while k < targets.len()
        invariant
            g.wf(),
            l == strs(targets@),
            k <= targets@.len(),
            fuel == g.nodes().len(),
            visited@.len() == g.nodes().len(),
            unvisited(visited@) <= fuel,
            t == taught@,
            strs(out@) == acc,
            whole.0 == acc + collect_list(*g, t, l, k as int, visited@, fuel).0,
        decreases targets@.len() - k,
    {
        let ghost vk = visited@;
        proof {
            lemma_collect_node(*g, t, l[k as int], vk, fuel, unvisited(vk));
        }
        let ghost step = collect_node(*g, t, l[k as int], vk, fuel);
        collect_untaught(g, taught, targets[k].as_str(), &mut visited, &mut out);
        proof {
            assert(whole.0 =~= (acc + step.0) + collect_list(*g, t, l, k + 1, visited@, fuel).0);
            acc = acc + step.0;
        }
        k = k + 1;
    }
    assert(whole.0 =~= acc);
    out
}

/// The bottom-up syllabus of path `p`'s stored target list (see
/// `upcoming_from`).
pub fn upcoming_atoms(g: &Graph, p: &PathFile, events: &[Event]) -> (r: Vec<String>)
    ensures
        strs(r@) == upcoming(*g, taught_in(events@), strs(p.targets@)),
{
    upcoming_from(g, p.targets.as_slice(), events)
}

proof fn lemma_take_to_set(ids: Seq<Seq<char>>, k: int)
    requires
        0 <= k < ids.len(),
    ensures
        ids.take(k + 1).to_set() == ids.take(k).to_set().insert(ids[k]),
        ids.take(k + 1).drop_last() == ids.take(k),
        ids.take(k + 1).last() == ids[k],
{
    let a = ids.take(k + 1);
    let b = ids.take(k);
    assert(a.drop_last() =~= b);
    assert forall|x: Seq<char>| a.to_set().contains(x) == b.to_set().insert(ids[k]).contains(x) by {
        if a.contains(x) {
            let i = choose|i: int| 0 <= i < a.len() && #[trigger] a[i] == x;
            if i < k {
                assert(b[i] == x);
            }
        }
        if b.contains(x) {
            let i = choose|i: int| 0 <= i < b.len() && #[trigger] b[i] == x;
            assert(a[i] == x);
        }
        if x == ids[k] {
            assert(a[k] == x);
        }
    }
    assert(a.to_set() =~= b.to_set().insert(ids[k]));
}

/// Appends `id` to `out` when it was not seen yet and is an atom of the
/// graph whose lesson `progress` has not marked taught; marks it seen.
fn push_upcoming_leaf(g: &Graph, progress: &PathProgress, id: &str, seen: &mut IdSet, out: &mut Vec<String>)
    ensures
        final(seen)@ == old(seen)@.insert(id@),
        strs(final(out)@) == (if !old(seen)@.contains(id@) && g@.contains_key(id@) && g@[id@].spec_is_atom()
            && !progress.taught_atoms@.contains(id@) {
            strs(old(out)@).push(id@)
        } else {
            strs(old(out)@)
        }),
{
    if !seen.insert(id) {
        return;
    }
    match g.get(id) {
        Some(c) => {
            if c.children_ids.len() == 0 && !progress.lesson_taught(id) {
                let ghost before = strs(out@);
                out.push(to_owned(id));
                assert(strs(out@) =~= before.push(id@));
            }
        },
        None => {},
    }
}

/// The top-down syllabus: the ids of `subpath`, then those of `targets`,
/// each at its first occurrence when it is an atom of the graph whose
/// lesson has not been taught. No prerequisites are walked.
pub fn upcoming_top_down_from(g: &Graph, targets: &[String], events: &[Event], subpath: &[String]) -> (r: Vec<String>)
    ensures
        strs(r@) == top_down_upcoming(g@, taught_in(events@), strs(subpath@) + strs(targets@)),
{
    let progress = PathProgress::from_events(events);
    let ghost t = progress.taught_atoms@;
    let ghost ids = strs(subpath@) + strs(targets@);
    let mut seen = IdSet::new();
    let mut out: Vec<String> = Vec::new();
    let ns = subpath.len();
    assert(ids.take(0) =~= Seq::<Seq<char>>::empty());
    assert(seen@ =~= ids.take(0).to_set());
    let mut k: usize = 0;
    while k < ns
        invariant
            ns == subpath@.len(),
            ids == strs(subpath@) + strs(targets@),
            k <= ns,
            t == progress.taught_atoms@,
            seen@ == ids.take(k as int).to_set(),
            strs(out@) == top_down_upcoming(g@, t, ids.take(k as int)),
        decreases ns - k,
    {
        proof {
            lemma_take_to_set(ids, k as int);
        }
        assert(subpath@[k as int]@ == ids[k as int]);
        push_upcoming_leaf(g, &progress, subpath[k].as_str(), &mut seen, &mut out);
        k = k + 1;
    }
    let mut j: usize = 0;
    while j < targets.len()
        invariant
            ns == subpath@.len(),
            ids == strs(subpath@) + strs(targets@),
            j <= targets@.len(),
            t == progress.taught_atoms@,
            seen@ == ids.take(ns + j).to_set(),
            strs(out@) == top_down_upcoming(g@, t, ids.take(ns + j)),
        decreases targets@.len() - j,
    {
        proof {
            lemma_take_to_set(ids, ns + j);
        }
        assert(targets@[j as int]@ == ids[ns + j]);
        push_upcoming_leaf(g, &progress, targets[j].as_str(), &mut seen, &mut out);
        j = j + 1;
    }
    assert(ids.take(ids.len() as int) =~= ids);
    out
}

/// The top-down syllabus of path `p` (see `upcoming_top_down_from`).
pub fn upcoming_top_down(g: &Graph, p: &PathFile, events: &[Event], subpath: &[String]) -> (r: Vec<String>)
    ensures
        strs(r@) == top_down_upcoming(g@, taught_in(events@), strs(subpath@) + strs(p.targets@)),
{
    upcoming_top_down_from(g, p.targets.as_slice(), events, subpath)
}

/// The syllabus of path `p`: its targets resolved against the graph, the
/// upcoming atoms by its strategy (bottom-up, or top-down with `subpath`
/// first), the first `n` shown. A resolution error is returned as is.
pub fn compute_syllabus(g: &Graph, p: &PathFile, events: &[Event], subpath: &[String], n: usize) -> (r: Result<SyllabusView, Error>)
    ensures
        match r {
            Err(e) => resolve_error(g@, strs(p.targets@), e),
            Ok(v) => exists|atoms: Seq<Seq<char>>| {
                &&& #[trigger] target_order(g@, strs(p.targets@), atoms)
                &&& syllabus_of(v, g@, *p, match p.strategy {
                    Strategy::BottomUp => upcoming(*g, taught_in(events@), atoms),
                    Strategy::TopDown => top_down_upcoming(g@, taught_in(events@), strs(subpath@) + atoms),
                }, n)
            },
        },
{
    let targets = match p.resolve_targets(g) {
        Ok(v) => v,
        Err(e) => return Err(e),
    };
    let up = match p.strategy {
        Strategy::BottomUp => upcoming_from(g, targets.as_slice(), events),
        Strategy::TopDown => upcoming_top_down_from(g, targets.as_slice(), events, subpath),
    };
    let ghost ups = strs(up@);
    let total = up.len();
    let m = if n < total {
        n
    } else {
        total
    };
    let mut atoms: Vec<SyllabusAtom> = Vec::new();
    let mut i: usize = 0;
    assert(ups.take(0) =~= Seq::<Seq<char>>::empty());
    while i < m
        invariant
            m <= up@.len(),
            ups == strs(up@),
            i <= m,
            atoms@.len() == known_concepts(g@, ups.take(i as int)).len(),
            forall|k: int| 0 <= k < atoms@.len() ==> #[trigger] syllabus_atom_of(atoms@[k], known_concepts(g@, ups.take(i as int))[k]),
        decreases m - i,
    {
        assert(ups.take(i + 1).drop_last() =~= ups.take(i as int));
        assert(ups.take(i + 1).last() == up@[i as int]@);
        match g.get(up[i].as_str()) {
            Some(c) => {
                let ghost before = atoms@;
                atoms.push(SyllabusAtom { id: copy(&c.id), name: copy(&c.name), description: copy_opt(&c.description) });
                assert forall|k: int| 0 <= k < atoms@.len() implies #[trigger] syllabus_atom_of(atoms@[k], known_concepts(g@, ups.take(i + 1))[k]) by {
                    if k < before.len() {
                        assert(atoms@[k] == before[k]);
                    }
                }
            },
            None => {},
        }
        i = i + 1;
    }
    let v = SyllabusView { schema_version: 1, path: copy(&p.id), goal: copy(&p.goal), total_remaining: total, atoms };
    assert(syllabus_of(v, g@, *p, ups, n));
    Ok(v)
}

} // verus!
