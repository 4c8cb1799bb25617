//! The structured tree of a path, as the MCP server returns it: progress
//! counters and, per area, the concepts of the spine nested by the cluster
//! hierarchy, each level in natural-numeric order, optionally cut at a
//! depth.
use crate::curriculum::ManifestArea;
use crate::discover::AtomStatus;
use crate::graph::{FlatConcept, Graph};
use crate::ids::{copy, strs, IdSet};
use crate::path::PathFile;
use crate::progress::PathProgress;
use crate::reach::reachable_atom_set;
use crate::scheduler::{complete, is_atom_complete};
use crate::state::{complete_set, count_in, counters, floor_pct, ReachProgress, TargetProgress};
use crate::tree::{
    build_spine, in_spine, key_less, key_lt, kid_concepts, kids_of, natural_id_key, natural_key, reachable_atoms,
    spine_of, top_level_in_area, top_level_order, top_roots, top_level_set, lemma_key_lt_order, lemma_listing_unique, TreeCtx,
};
use crate::text::{concat, decimal, decimal_string, joined, views};
use vstd::prelude::*;
use vstd::string::*;

verus! {

/// The tree of a path.
#[derive(Debug)]
pub struct TreeView {
    pub path: String,
    pub goal: String,
    pub targets: TargetProgress,
    pub reachable: ReachProgress,
    pub nodes: Vec<TreeNode>,
}

/// One concept of the tree with its children in the spine.
#[derive(Debug)]
pub struct TreeNode {
    pub id: String,
    pub name: String,
    pub is_atom: bool,
    pub is_target: bool,
    /// Set for atoms only.
    pub status: Option<AtomStatus>,
    pub children: Vec<TreeNode>,
}

// ── Model ─────────────────────────────────────────────────────────

/// `c` inserted into `s` before the first concept whose natural key is
/// greater than its own.
pub open spec fn insert_by_key(s: Seq<FlatConcept>, c: FlatConcept) -> Seq<FlatConcept>
    decreases s.len(),
{
    if s.len() == 0 {
        seq![c]
    } else if key_lt(natural_key(c.id@), natural_key(s[0].id@)) {
        seq![c] + s
    } else {
        seq![s[0]] + insert_by_key(s.drop_first(), c)
    }
}

/// `cs` sorted by natural key, stably (equal keys keep their order).
pub open spec fn sort_by_key(cs: Seq<FlatConcept>) -> Seq<FlatConcept>
    decreases cs.len(),
{
    if cs.len() == 0 {
        Seq::empty()
    } else {
        insert_by_key(sort_by_key(cs.drop_last()), cs.last())
    }
}

/// The status of an atom on the path.
pub open spec fn status_in(ctx: TreeCtx, c: FlatConcept) -> Option<AtomStatus> {
    if c.spec_is_atom() {
        Some(AtomStatus { lesson_taught: ctx.taught.contains(c.id@), complete: complete(ctx.graph, ctx.correct, c.id@) })
    } else {
        None
    }
}

/// The children of `c` in the tree: those the graph has and the spine
/// holds, sorted by natural key.
pub open spec fn tree_kids(ctx: TreeCtx, c: FlatConcept) -> Seq<FlatConcept> {
    sort_by_key(kid_concepts(ctx.graph, ctx.spine, c.children()))
}

/// `n` is the node of `c` at `depth` (the top level is depth 1): its
/// children are cut when `depth` reaches `max_depth`, and `fuel` bounds
/// the nesting.
pub open spec fn node_ok(ctx: TreeCtx, n: TreeNode, c: FlatConcept, depth: nat, max_depth: Option<u32>, fuel: nat) -> bool
    decreases fuel, 0nat, 0nat,
{
    &&& n.id@ == c.id@
    &&& n.name@ == c.name@
    &&& n.is_atom == c.spec_is_atom()
    &&& n.is_target == ctx.targets.contains(c.id@)
    &&& n.status == status_in(ctx, c)
    &&& if (max_depth matches Some(md) && depth >= md) || fuel == 0 {
        n.children@.len() == 0
    } else {
        nodes_ok(ctx, n.children@, tree_kids(ctx, c), 0, depth + 1, max_depth, (fuel - 1) as nat)
    }
}

/// `ns[k..]` are the nodes of `cs[k..]`, one for one.
pub open spec fn nodes_ok(
    ctx: TreeCtx,
    ns: Seq<TreeNode>,
    cs: Seq<FlatConcept>,
    k: int,
    depth: nat,
    max_depth: Option<u32>,
    fuel: nat,
) -> bool
    decreases fuel, 1nat, (cs.len() - k) as nat,
{
    &&& ns.len() == cs.len()
    &&& (k < 0 || k >= cs.len() || (node_ok(ctx, ns[k], cs[k], depth, max_depth, fuel) && nodes_ok(
        ctx,
        ns,
        cs,
        k + 1,
        depth,
        max_depth,
        fuel,
    )))
}

/// The top-level concepts of the areas, area by area, those in the spine.
pub open spec fn area_roots(g: Graph, spine: Set<Seq<char>>, areas: Seq<ManifestArea>) -> Seq<FlatConcept>
    decreases areas.len(),
{
    if areas.len() == 0 {
        Seq::empty()
    } else {
        area_roots(g, spine, areas.drop_last()) + in_spine(g, spine, top_roots(g, areas.last().prefix@))
    }
}

/// Context of the tree of a path: its progress, the spine of the atoms
/// reachable from `targets`, and the targets.
pub open spec fn view_ctx(g: Graph, targets: Seq<Seq<char>>, progress: PathProgress) -> TreeCtx {
    TreeCtx {
        taught: progress.taught_atoms@,
        correct: progress.correct_quizzes@,
        graph: g@,
        spine: spine_of(g@, reachable_atom_set(g@, targets)),
        targets: targets.to_set(),
        next: None,
    }
}

proof fn lemma_insert_at(s: Seq<FlatConcept>, c: FlatConcept, p: int)
    requires
        0 <= p <= s.len(),
        forall|i: int| 0 <= i < p ==> !key_lt(natural_key(c.id@), #[trigger] natural_key(s[i].id@)),
        p < s.len() ==> key_lt(natural_key(c.id@), natural_key(s[p].id@)),
    ensures
        insert_by_key(s, c) == s.insert(p, c),
    decreases s.len(),
{
    if s.len() == 0 {
        assert(s.insert(p, c) =~= seq![c]);
    } else if p == 0 {
        assert(s.insert(0, c) =~= seq![c] + s);
    } else {
        let t = s.drop_first();
        assert forall|i: int| 0 <= i < p - 1 implies !key_lt(natural_key(c.id@), #[trigger] natural_key(t[i].id@)) by {
            assert(t[i] == s[i + 1]);
        }
        if p < s.len() {
            assert(t[p - 1] == s[p]);
        }
        lemma_insert_at(t, c, p - 1);
        assert(s.insert(p, c) =~= seq![s[0]] + t.insert(p - 1, c));
    }
}

proof fn lemma_insert_len(s: Seq<FlatConcept>, c: FlatConcept)
    ensures
        insert_by_key(s, c).len() == s.len() + 1,
    decreases s.len(),
{
    if s.len() > 0 && !key_lt(natural_key(c.id@), natural_key(s[0].id@)) {
        lemma_insert_len(s.drop_first(), c);
    }
}

proof fn lemma_sort_len(cs: Seq<FlatConcept>)
    ensures
        sort_by_key(cs).len() == cs.len(),
    decreases cs.len(),
{
    if cs.len() > 0 {
        lemma_sort_len(cs.drop_last());
        lemma_insert_len(sort_by_key(cs.drop_last()), cs.last());
    }
}

/// `cs` sorted stably by natural key (see `sort_by_key`).
fn sorted_by_key<'a>(cs: &Vec<&'a FlatConcept>) -> (r: Vec<&'a FlatConcept>)
    ensures
        r@.len() == cs@.len(),
        forall|i: int| 0 <= i < r@.len() ==> *r@[i] == sort_by_key(cs@.map_values(|c: &FlatConcept| *c))[i],
{
    let ghost cv = cs@.map_values(|c: &FlatConcept| *c);
    let mut out: Vec<&FlatConcept> = Vec::new();
    let mut keys: Vec<Vec<u32>> = Vec::new();
    let mut k: usize = 0;
    assert(cv.take(0) =~= Seq::<FlatConcept>::empty());
    while k < cs.len()
        invariant
            k <= cs@.len(),
            cv == cs@.map_values(|c: &FlatConcept| *c),
            keys@.len() == out@.len(),
            out@.len() == sort_by_key(cv.take(k as int)).len(),
            forall|i: int| 0 <= i < out@.len() ==> *out@[i] == sort_by_key(cv.take(k as int))[i],
            forall|i: int| 0 <= i < out@.len() ==> (#[trigger] keys@[i])@ == natural_key(out@[i].id@),
        decreases cs@.len() - k,
    {
        let c = cs[k];
        let key = natural_id_key(c.id.as_str());
        let ghost s = sort_by_key(cv.take(k as int));
        let mut p: usize = 0;
        while p < out.len() && !key_less(&key, &keys[p])
            invariant
                p <= out@.len(),
                keys@.len() == out@.len(),
                key@ == natural_key(c.id@),
                out@.len() == s.len(),
                forall|i: int| 0 <= i < out@.len() ==> *out@[i] == s[i],
                forall|i: int| 0 <= i < out@.len() ==> (#[trigger] keys@[i])@ == natural_key(out@[i].id@),
                forall|i: int| 0 <= i < p ==> !key_lt(natural_key(c.id@), #[trigger] natural_key(s[i].id@)),
            decreases out@.len() - p,
        {
            p = p + 1;
        }
        proof {
            lemma_insert_at(s, *c, p as int);
            assert(cv.take(k + 1).drop_last() =~= cv.take(k as int));
            assert(cv.take(k + 1).last() == *c);
        }
        let ghost before = out@;
        let ghost kb = keys@;
        out.insert(p, c);
        keys.insert(p, key);
        proof {
            assert(out@ =~= before.insert(p as int, c));
            assert(keys@ =~= kb.insert(p as int, key));
            assert forall|i: int| 0 <= i < out@.len() implies *out@[i] == sort_by_key(cv.take(k + 1))[i] by {
                if i < p {
                    assert(out@[i] == before[i]);
                } else if i > p {
                    assert(out@[i] == before[i - 1]);
                }
            }
            assert forall|i: int| 0 <= i < out@.len() implies (#[trigger] keys@[i])@ == natural_key(out@[i].id@) by {
                if i < p {
                    assert(keys@[i] == kb[i]);
                } else if i > p {
                    assert(keys@[i] == kb[i - 1]);
                }
            }
        }
        k = k + 1;
    }
    assert(cv.take(cs@.len() as int) =~= cv);
    proof {
        lemma_sort_len(cv);
    }
    out
}

proof fn lemma_nodes_ok(ctx: TreeCtx, ns: Seq<TreeNode>, cs: Seq<FlatConcept>, k: int, depth: nat, max_depth: Option<u32>, fuel: nat)
    requires
        ns.len() == cs.len(),
        0 <= k,
        forall|i: int| 0 <= i < cs.len() ==> node_ok(ctx, #[trigger] ns[i], cs[i], depth, max_depth, fuel),
    ensures
        nodes_ok(ctx, ns, cs, k, depth, max_depth, fuel),
    decreases cs.len() - k,
{
    if k < cs.len() {
        lemma_nodes_ok(ctx, ns, cs, k + 1, depth, max_depth, fuel);
    }
}

/// The node of `c` at `depth` (see `node_ok`).
fn build_tree_node(
    g: &Graph,
    progress: &PathProgress,
    spine: &IdSet,
    targets: &IdSet,
    c: &FlatConcept,
    max_depth: Option<u32>,
    depth: u128,
    fuel: usize,
) -> (n: TreeNode)
    requires
        depth + fuel <= 0x2_0000_0000_0000_0000,
    ensures
        node_ok(crate::tree::tree_ctx(g, progress, spine, targets, None), n, *c, depth as nat, max_depth, fuel as nat),
    decreases fuel,
{
    let ghost ctx = crate::tree::tree_ctx(g, progress, spine, targets, None);
    let is_atom = c.is_atom();
    let status = if is_atom {
        Some(AtomStatus {
            lesson_taught: progress.lesson_taught(c.id.as_str()),
            complete: is_atom_complete(g, progress, c.id.as_str()),
        })
    } else {
        None
    };
    let cut = match max_depth {
        Some(md) => depth >= md as u128,
        None => false,
    };
    let mut children: Vec<TreeNode> = Vec::new();
    if !cut && fuel > 0 {
        let kids = kids_of(g, spine, c);
        let sorted = sorted_by_key(&kids);
        let ghost kv = kids@.map_values(|x: &FlatConcept| *x);
        proof {
            assert(kv =~= kid_concepts(g@, spine@, c.children()));
            lemma_sort_len(kv);
        }
        let ghost tk = tree_kids(ctx, *c);
        let mut k: usize = 0;
        while k < sorted.len()
            invariant
                k <= sorted@.len(),
                sorted@.len() == tk.len(),
                forall|i: int| 0 <= i < sorted@.len() ==> *sorted@[i] == tk[i],
                children@.len() == k,
                depth + fuel <= 0x2_0000_0000_0000_0000,
                fuel > 0,
                ctx == crate::tree::tree_ctx(g, progress, spine, targets, None),
                forall|i: int| 0 <= i < k ==> node_ok(ctx, #[trigger] children@[i], tk[i], (depth + 1) as nat, max_depth, (fuel - 1) as nat),
            decreases sorted@.len() - k,
        {
            let ch = build_tree_node(g, progress, spine, targets, sorted[k], max_depth, depth + 1, fuel - 1);
            children.push(ch);
            k = k + 1;
        }
        proof {
            lemma_nodes_ok(ctx, children@, tk, 0, (depth + 1) as nat, max_depth, (fuel - 1) as nat);
        }
    }
    TreeNode {
        id: copy(&c.id),
        name: copy(&c.name),
        is_atom,
        is_target: targets.contains(c.id.as_str()),
        status,
        children,
    }
}

/// The tree of path `p` with target atoms `targets`: the targets' count
/// and how many are complete (with the whole percentage), the count of
/// atoms reachable from them, taught and complete; then, area by area in
/// manifest order, the nodes of the top-level concepts of the spine (see
/// `node_ok`), in natural-numeric order with ties in storage order,
/// children cut at `depth` when given. Nesting is bounded by the number of
/// concepts.
pub fn compute_tree(
    g: &Graph,
    p: &PathFile,
    targets: &Vec<String>,
    areas: &Vec<ManifestArea>,
    progress: &PathProgress,
    depth: Option<u32>,
) -> (v: TreeView)
    ensures
        v.path@ == p.id@,
        v.goal@ == p.goal@,
        ({
            let ts = strs(targets@);
            let reach = reachable_atom_set(g@, ts);
            &&& v.targets.total == ts.len()
            &&& v.targets.learned == count_in(ts, Set::new(|a: Seq<char>| complete(g@, progress.correct_quizzes@, a)))
            &&& v.targets.learned_pct == floor_pct(v.targets.learned as nat, v.targets.total as nat)
            &&& v.reachable.total == reach.len()
            &&& v.reachable.taught == reach.filter(|a: Seq<char>| progress.taught_atoms@.contains(a)).len()
            &&& v.reachable.learned == reach.filter(|a: Seq<char>| complete(g@, progress.correct_quizzes@, a)).len()
        }),
        nodes_ok(
            view_ctx(*g, strs(targets@), *progress),
            v.nodes@,
            area_roots(*g, spine_of(g@, reachable_atom_set(g@, strs(targets@))), areas@),
            0,
            1,
            depth,
            g.nodes().len() as nat,
        ),
{
    let reachable = reachable_atoms(g, targets.as_slice());
    let spine = build_spine(g, &reachable);
    let done = complete_set(g, &reachable, progress);
    let (_, reach) = counters(targets, &reachable, &done, progress);
    let ghost ts = strs(targets@);
    let ghost cset = Set::new(|a: Seq<char>| complete(g@, progress.correct_quizzes@, a));
    let total = targets.len();
    let mut learned: usize = 0;
    let mut i: usize = 0;
    while i < targets.len()
        invariant
            i <= targets@.len(),
            ts == strs(targets@),
            learned <= i,
            learned == count_in(ts.take(i as int), cset),
            cset == Set::new(|a: Seq<char>| complete(g@, progress.correct_quizzes@, a)),
        decreases targets@.len() - i,
    {
        assert(ts.take(i + 1).drop_last() =~= ts.take(i as int));
        assert(ts.take(i + 1).last() == targets@[i as int]@);
        if is_atom_complete(g, progress, targets[i].as_str()) {
            learned = learned + 1;
        }
        i = i + 1;
    }
    assert(ts.take(targets@.len() as int) =~= ts);
    let learned_pct = crate::state::learned_percent(learned, total);
    let target_set = IdSet::from_vec(targets);
    let ghost ctx = crate::tree::tree_ctx(g, progress, &spine, &target_set, None);
    assert(ctx == view_ctx(*g, ts, *progress));
    let fuel = g.len();
    let mut nodes: Vec<TreeNode> = Vec::new();
    let ghost mut roots_so_far: Seq<FlatConcept> = Seq::empty();
    let mut k: usize = 0;
    assert(areas@.take(0) =~= Seq::<ManifestArea>::empty());
    while k < areas.len()
        invariant
            k <= areas@.len(),
            fuel == g.nodes().len(),
            ctx == crate::tree::tree_ctx(g, progress, &spine, &target_set, None),
            roots_so_far == area_roots(*g, spine@, areas@.take(k as int)),
            nodes@.len() == roots_so_far.len(),
            forall|x: int| 0 <= x < nodes@.len() ==> node_ok(ctx, #[trigger] nodes@[x], roots_so_far[x], 1, depth, fuel as nat),
        decreases areas@.len() - k,
    {
        let a = &areas[k];
        assert(areas@.take(k + 1).drop_last() =~= areas@.take(k as int));
        assert(areas@.take(k + 1).last() == *a);
        let all = top_level_in_area(g, a.prefix.as_str());
        let ghost ps = choose|ps: Seq<usize>| #[trigger] top_level_order(*g, a.prefix@, ps) && ps.len() == all@.len() && forall|i: int|
            0 <= i < all@.len() ==> *all@[i] == g.nodes()[ps[i] as int];
        proof {
            lemma_listing_unique(*g, top_level_set(*g, a.prefix@), ps, top_roots(*g, a.prefix@));
        }
        let ghost rv = in_spine(*g, spine@, ps);
        let ghost base = nodes@.len();
        let mut j: usize = 0;
        let ghost mut got: Seq<FlatConcept> = Seq::empty();
        assert(ps.take(0) =~= Seq::<usize>::empty());
        while j < all.len()
            invariant
                j <= all@.len(),
                ps.len() == all@.len(),
                forall|x: int| 0 <= x < all@.len() ==> *all@[x] == g.nodes()[ps[x] as int],
                got == in_spine(*g, spine@, ps.take(j as int)),
                fuel == g.nodes().len(),
                ctx == crate::tree::tree_ctx(g, progress, &spine, &target_set, None),
                nodes@.len() == roots_so_far.len() + got.len(),
                forall|x: int| 0 <= x < roots_so_far.len() ==> node_ok(ctx, #[trigger] nodes@[x], roots_so_far[x], 1, depth, fuel as nat),
                forall|x: int| 0 <= x < got.len() ==> node_ok(ctx, #[trigger] nodes@[roots_so_far.len() + x], got[x], 1, depth, fuel as nat),
            decreases all@.len() - j,
        {
            assert(ps.take(j + 1).drop_last() =~= ps.take(j as int));
            assert(ps.take(j + 1).last() == ps[j as int]);
            if spine.contains(all[j].id.as_str()) {
                let ghost nb = nodes@;
                let n = build_tree_node(g, progress, &spine, &target_set, all[j], depth, 1, fuel);
                nodes.push(n);
                proof {
                    assert forall|x: int| 0 <= x < roots_so_far.len() implies node_ok(ctx, #[trigger] nodes@[x], roots_so_far[x], 1, depth, fuel as nat) by {
                        assert(nodes@[x] == nb[x]);
                    }
                    let g2 = got.push(*all@[j as int]);
                    assert forall|x: int| 0 <= x < g2.len() implies node_ok(ctx, #[trigger] nodes@[roots_so_far.len() + x], g2[x], 1, depth, fuel as nat) by {
                        if x < got.len() {
                            assert(nodes@[roots_so_far.len() + x] == nb[roots_so_far.len() + x]);
                        }
                    }
                    got = g2;
                }
            }
            j = j + 1;
        }
        assert(ps.take(all@.len() as int) =~= ps);
        proof {
            let r2 = roots_so_far + got;
            assert(r2 == area_roots(*g, spine@, areas@.take(k + 1)));
            assert forall|x: int| 0 <= x < nodes@.len() implies node_ok(ctx, #[trigger] nodes@[x], r2[x], 1, depth, fuel as nat) by {
                if x >= roots_so_far.len() {
                    assert(r2[x] == got[x - roots_so_far.len()]);
                    assert(nodes@[roots_so_far.len() + (x - roots_so_far.len())] == nodes@[x]);
                }
            }
            roots_so_far = r2;
        }
        k = k + 1;
    }
    assert(areas@.take(areas@.len() as int) =~= areas@);
    proof {
        lemma_nodes_ok(ctx, nodes@, roots_so_far, 0, 1, depth, fuel as nat);
    }
    TreeView {
        path: copy(&p.id),
        goal: copy(&p.goal),
        targets: TargetProgress { total, learned, learned_pct },
        reachable: reach,
        nodes,
    }
}

/// The header `mt path tree` prints above the tree: the path, its goal,
/// the counters, and the legend of the badges.
pub open spec fn tree_header_text(path: Seq<char>, goal: Seq<char>, t: TargetProgress, r: ReachProgress) -> Seq<Seq<char>> {
    seq![
        joined(seq!["path:        "@, path]),
        joined(seq!["goal:        "@, goal]),
        joined(seq!["targets:     "@, decimal(t.learned as nat), " / "@, decimal(t.total as nat), " learned ("@, decimal(t.learned_pct as nat), "%)"@]),
        joined(seq!["reachable:   "@, decimal(r.total as nat), " atoms ("@, decimal(r.taught as nat), " with lesson, "@, decimal(r.learned as nat), " learned)"@]),
        ""@,
        "legend: [LEMH]  L=lesson  E/M/H=easy/medium/hard quiz"@,
        "        UPPER=correct  lower=authored,not-yet-correct  ·=none"@,
        "        *=path target  ← NEXT=scheduler's next action"@,
        ""@,
    ]
}

/// The header lines of `mt path tree` (see `tree_header_text`).
pub fn tree_header(path: &str, goal: &str, t: &TargetProgress, r: &ReachProgress) -> (lines: Vec<String>)
    ensures
        strs(lines@) == tree_header_text(path@, goal@, *t, *r),
{
    let mut out: Vec<String> = Vec::new();
    let p1: [&str; 2] = ["path:        ", path];
    out.push(concat(&p1));
    assert(views(p1@) =~= seq!["path:        "@, path@]);
    let p2: [&str; 2] = ["goal:        ", goal];
    out.push(concat(&p2));
    assert(views(p2@) =~= seq!["goal:        "@, goal@]);
    let l = decimal_string(t.learned as u64);
    let tt = decimal_string(t.total as u64);
    let pc = decimal_string(t.learned_pct as u64);
    let p3: [&str; 7] = ["targets:     ", l.as_str(), " / ", tt.as_str(), " learned (", pc.as_str(), "%)"];
    out.push(concat(&p3));
    assert(views(p3@) =~= seq!["targets:     "@, l@, " / "@, tt@, " learned ("@, pc@, "%)"@]);
    let a = decimal_string(r.total as u64);
    let b = decimal_string(r.taught as u64);
    let c = decimal_string(r.learned as u64);
    let p4: [&str; 7] = ["reachable:   ", a.as_str(), " atoms (", b.as_str(), " with lesson, ", c.as_str(), " learned)"];
    out.push(concat(&p4));
    assert(views(p4@) =~= seq!["reachable:   "@, a@, " atoms ("@, b@, " with lesson, "@, c@, " learned)"@]);
    out.push(crate::ids::to_owned(""));
    out.push(crate::ids::to_owned("legend: [LEMH]  L=lesson  E/M/H=easy/medium/hard quiz"));
    out.push(crate::ids::to_owned("        UPPER=correct  lower=authored,not-yet-correct  ·=none"));
    out.push(crate::ids::to_owned("        *=path target  ← NEXT=scheduler's next action"));
    out.push(crate::ids::to_owned(""));
    assert(strs(out@) =~= tree_header_text(path@, goal@, *t, *r));
    out
}


/// The concepts of `s` in non-decreasing order of natural key.
pub open spec fn keys_sorted(s: Seq<FlatConcept>) -> bool {
    forall|i: int, j: int| 0 <= i < j < s.len() ==> !key_lt(natural_key(#[trigger] s[j].id@), natural_key(#[trigger] s[i].id@))
}

/// The first position of `s` from `k` on whose natural key is above `c`'s.
pub open spec fn first_above(s: Seq<FlatConcept>, c: FlatConcept, k: int) -> int
    decreases s.len() - k,
{
    if k < 0 || k >= s.len() {
        s.len() as int
    } else if key_lt(natural_key(c.id@), natural_key(s[k].id@)) {
        k
    } else {
        first_above(s, c, k + 1)
    }
}

proof fn lemma_first_above(s: Seq<FlatConcept>, c: FlatConcept, k: int)
    requires
        0 <= k <= s.len(),
    ensures
        k <= first_above(s, c, k) <= s.len(),
        forall|i: int| k <= i < first_above(s, c, k) ==> !key_lt(natural_key(c.id@), #[trigger] natural_key(s[i].id@)),
        first_above(s, c, k) < s.len() ==> key_lt(natural_key(c.id@), natural_key(s[first_above(s, c, k)].id@)),
    decreases s.len() - k,
{
    if k < s.len() && !key_lt(natural_key(c.id@), natural_key(s[k].id@)) {
        lemma_first_above(s, c, k + 1);
    }
}

proof fn lemma_insert_sorted(s: Seq<FlatConcept>, c: FlatConcept)
    requires
        keys_sorted(s),
    ensures
        keys_sorted(insert_by_key(s, c)),
        insert_by_key(s, c).to_multiset() == s.to_multiset().insert(c),
{
    broadcast use vstd::seq_lib::group_to_multiset_ensures;

    lemma_first_above(s, c, 0);
    let p = first_above(s, c, 0);
    lemma_insert_at(s, c, p);
    let t = s.insert(p, c);
    let kc = natural_key(c.id@);
    assert forall|i: int, j: int| 0 <= i < j < t.len() implies !key_lt(natural_key(#[trigger] t[j].id@), natural_key(#[trigger] t[i].id@)) by {
        if j < p {
            assert(t[i] == s[i] && t[j] == s[j]);
        } else if j == p {
            assert(t[j] == c && t[i] == s[i]);
            lemma_key_lt_order(kc, natural_key(s[i].id@), kc);
        } else if i > p {
            assert(t[i] == s[i - 1] && t[j] == s[j - 1]);
        } else if i == p {
            assert(t[i] == c && t[j] == s[j - 1]);
            let kp = natural_key(s[p].id@);
            let kj = natural_key(s[j - 1].id@);
            if p < j - 1 {
                assert(!key_lt(natural_key(s[j - 1].id@), natural_key(s[p].id@)));
            }
            lemma_key_lt_order(kj, kc, kp);
            lemma_key_lt_order(kj, kp, kc);
        } else {
            assert(t[i] == s[i] && t[j] == s[j - 1]);
        }
    }
}

/// The tree lists a concept's children in natural-key order (`tx.2`
/// before `tx.10`), each child once for each time it was listed.
pub proof fn law_children_sorted(cs: Seq<FlatConcept>)
    ensures
        keys_sorted(sort_by_key(cs)),
        sort_by_key(cs).to_multiset() == cs.to_multiset(),
    decreases cs.len(),
{
    broadcast use vstd::seq_lib::group_to_multiset_ensures;

    if cs.len() == 0 {
        assert(cs.to_multiset() =~= vstd::multiset::Multiset::<FlatConcept>::empty());
        assert(sort_by_key(cs).to_multiset() =~= vstd::multiset::Multiset::<FlatConcept>::empty());
    } else {
        law_children_sorted(cs.drop_last());
        lemma_insert_sorted(sort_by_key(cs.drop_last()), cs.last());
        assert(cs.drop_last().push(cs.last()) =~= cs);
    }
}

} // verus!
