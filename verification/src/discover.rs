//! Read-only curriculum lookup: the view of one concept, and the list of
//! areas or of a cluster's children, optionally with per-path atom status.
use crate::curriculum::{Manifest, ManifestArea};
use crate::error::Error;
use crate::graph::{known_concepts, FlatConcept, Graph};
use crate::ids::{copy, copy_opt, lemma_str_lt_order, opt_view, str_less, str_lt, strs, to_owned};
use crate::progress::PathProgress;
use crate::scheduler::{complete, is_atom_complete};
use vstd::prelude::*;

verus! {

/// Output of `show_view`.
#[derive(Debug)]
pub enum ShowView {
    Concept(ConceptView),
}

/// Output of `list_view`.
#[derive(Debug)]
pub enum ListView {
    Areas(AreasView),
    Children(ChildrenListView),
}

#[derive(Debug)]
pub struct AreasView {
    pub areas: Vec<AreaSummary>,
}

#[derive(Debug)]
pub struct AreaSummary {
    pub prefix: String,
    pub slug: String,
    pub summary: String,
}

#[derive(Debug)]
pub struct ChildrenListView {
    pub id: String,
    pub name: String,
    pub children: Vec<ChildBrief>,
}

#[derive(Debug)]
pub struct ChildBrief {
    pub id: String,
    pub name: String,
    pub is_atom: bool,
    /// Per-path status; set only when a path is given.
    pub status: Option<AtomStatus>,
}

/// Per-path status of an atom: its lesson was taught in the path, and it is
/// complete (see `scheduler::complete`).
#[derive(Debug, Clone, Copy)]
pub struct AtomStatus {
    pub lesson_taught: bool,
    pub complete: bool,
}

#[derive(Debug)]
pub enum ConceptView {
    Atom(AtomView),
    Cluster(ClusterView),
}

#[derive(Debug)]
pub struct AtomView {
    pub id: String,
    pub name: String,
    pub description: Option<String>,
    pub is_atom: bool,
    pub prerequisites: Vec<ChildBrief>,
    pub has_lesson: bool,
    pub quizzes: usize,
    /// Set only when a path is given.
    pub status: Option<AtomStatus>,
}

#[derive(Debug)]
pub struct ClusterView {
    pub id: String,
    pub name: String,
    pub description: Option<String>,
    pub is_atom: bool,
    pub prerequisites: Vec<ChildBrief>,
    pub children: Vec<ChildBrief>,
    pub atomic_descendants: usize,
}

// ── Model ─────────────────────────────────────────────────────────

/// `b` is the status-less brief of concept `c`.
pub open spec fn brief_of(b: ChildBrief, c: FlatConcept) -> bool {
    &&& b.id@ == c.id@
    &&& b.name@ == c.name@
    &&& b.is_atom == c.spec_is_atom()
    &&& b.status is None
}

/// `bs` are the briefs of `cs`, one for one.
pub open spec fn briefs_of(bs: Seq<ChildBrief>, cs: Seq<FlatConcept>) -> bool {
    bs.len() == cs.len() && forall|i: int| 0 <= i < bs.len() ==> #[trigger] brief_of(bs[i], cs[i])
}

/// Atoms under concept `id`, counted once per way down the children links
/// (an atom counts one, a cluster the sum over its children, an unknown id
/// nothing), following at most `fuel` links.
pub open spec fn atom_count(g: Map<Seq<char>, FlatConcept>, id: Seq<char>, fuel: nat) -> nat
    decreases fuel, 0nat,
{
    if fuel == 0 || !g.contains_key(id) {
        0
    } else if g[id].spec_is_atom() {
        1
    } else {
        children_count(g, g[id].children(), (fuel - 1) as nat)
    }
}

/// The sum of `atom_count` over `ids`.
pub open spec fn children_count(g: Map<Seq<char>, FlatConcept>, ids: Seq<Seq<char>>, fuel: nat) -> nat
    decreases fuel, ids.len(),
{
    if ids.len() == 0 {
        0
    } else {
        children_count(g, ids.drop_last(), fuel) + atom_count(g, ids.last(), fuel)
    }
}

/// The sum of `xs`.
pub open spec fn sum_nat(xs: Seq<nat>) -> nat
    decreases xs.len(),
{
    if xs.len() == 0 {
        0
    } else {
        sum_nat(xs.drop_last()) + xs.last()
    }
}

proof fn lemma_children_count_sum(g: Map<Seq<char>, FlatConcept>, ids: Seq<Seq<char>>, fuel: nat)
    ensures
        children_count(g, ids, fuel) == sum_nat(ids.map_values(|x: Seq<char>| atom_count(g, x, fuel))),
    decreases ids.len(),
{
    if ids.len() > 0 {
        lemma_children_count_sum(g, ids.drop_last(), fuel);
        assert(ids.map_values(|x: Seq<char>| atom_count(g, x, fuel)).drop_last() =~= ids.drop_last().map_values(
            |x: Seq<char>| atom_count(g, x, fuel),
        ));
    }
}

/// Atomic descendants add up through the child links: an atom counts
/// one, an id the graph lacks none, and a cluster the sum of its
/// children's counts (each following one link less). So a cluster whose
/// children are clusters holding `n` atoms in all counts `n`, not the
/// number of its children.
pub proof fn law_atom_count_sums(g: Map<Seq<char>, FlatConcept>, id: Seq<char>, fuel: nat)
    ensures
        !g.contains_key(id) ==> atom_count(g, id, fuel + 1) == 0,
        g.contains_key(id) && g[id].spec_is_atom() ==> atom_count(g, id, fuel + 1) == 1,
        g.contains_key(id) && !g[id].spec_is_atom() ==> atom_count(g, id, fuel + 1) == sum_nat(
            g[id].children().map_values(|x: Seq<char>| atom_count(g, x, fuel)),
        ),
{
    if g.contains_key(id) && !g[id].spec_is_atom() {
        lemma_children_count_sum(g, g[id].children(), fuel);
    }
}

/// The atomic-descendant count of a concept: `atom_count` with one link per
/// concept of the graph, which a chain of distinct concepts never exceeds.
pub open spec fn descendant_count(g: Map<Seq<char>, FlatConcept>, id: Seq<char>) -> nat {
    atom_count(g, id, g.len())
}

/// The per-path status of `id`: present for an atom of `g` only.
pub open spec fn status_of(
    g: Map<Seq<char>, FlatConcept>,
    taught: Set<Seq<char>>,
    correct: Set<Seq<char>>,
    id: Seq<char>,
) -> Option<AtomStatus> {
    if g.contains_key(id) && g[id].spec_is_atom() {
        Some(AtomStatus { lesson_taught: taught.contains(id), complete: complete(g, correct, id) })
    } else {
        None
    }
}

/// `v` is the view of concept `c` of `g`.
pub open spec fn concept_view_of(v: ConceptView, g: Map<Seq<char>, FlatConcept>, c: FlatConcept) -> bool {
    match v {
        ConceptView::Atom(av) => {
            &&& c.spec_is_atom()
            &&& av.id@ == c.id@
            &&& av.name@ == c.name@
            &&& opt_view(av.description) == opt_view(c.description)
            &&& av.is_atom
            &&& briefs_of(av.prerequisites@, known_concepts(g, c.prereqs()))
            &&& av.has_lesson == c.lesson is Some
            &&& av.quizzes == c.quizzes@.len()
            &&& av.status is None
        },
        ConceptView::Cluster(cv) => {
            &&& !c.spec_is_atom()
            &&& cv.id@ == c.id@
            &&& cv.name@ == c.name@
            &&& opt_view(cv.description) == opt_view(c.description)
            &&& !cv.is_atom
            &&& briefs_of(cv.prerequisites@, known_concepts(g, c.prereqs()))
            &&& briefs_of(cv.children@, known_concepts(g, c.children()))
            &&& cv.atomic_descendants == descendant_count(g, c.id@)
        },
    }
}

/// `s` summarises manifest area `a`.
pub open spec fn area_summary_of(s: AreaSummary, a: ManifestArea) -> bool {
    s.prefix@ == a.prefix@ && s.slug@ == a.slug@ && s.summary@ == a.summary@
}

/// `v` lists the children of concept `c` of `g`.
pub open spec fn children_view_of(v: ChildrenListView, g: Map<Seq<char>, FlatConcept>, c: FlatConcept) -> bool {
    &&& v.id@ == c.id@
    &&& v.name@ == c.name@
    &&& briefs_of(v.children@, known_concepts(g, c.children()))
}

/// The bound under which the view of `id` can be built: a cluster's
/// atomic-descendant count fits in `usize`.
pub open spec fn count_fits(g: Map<Seq<char>, FlatConcept>, id: Seq<char>) -> bool {
    g.contains_key(id) && !g[id].spec_is_atom() ==> descendant_count(g, id) <= usize::MAX
}

// ── Builders ──────────────────────────────────────────────────────

/// The view of concept `id` (an atom or a cluster); `UnknownId` when the
/// graph lacks it.
pub fn show_view(g: &Graph, id: &str) -> (r: Result<ShowView, Error>)
    requires
        count_fits(g@, id@),
    ensures
        match r {
            Ok(ShowView::Concept(v)) => g@.contains_key(id@) && concept_view_of(v, g@, g@[id@]),
            Err(e) => !g@.contains_key(id@) && (e matches Error::UnknownId(x) && x@ == id@),
        },
{
    match g.get(id) {
        Some(c) => Ok(ShowView::Concept(concept_view(g, c))),
        None => Err(Error::UnknownId(to_owned(id))),
    }
}

/// The list view: the manifest's areas for no id, else the children of
/// cluster `id`; `UnknownId` when the graph lacks `id`.
pub fn list_view(g: &Graph, manifest: &Manifest, id: Option<&str>) -> (r: Result<ListView, Error>)
    ensures
        match id {
            None => r matches Ok(ListView::Areas(av)) && av.areas@.len() == manifest.areas@.len()
                && forall|i: int| 0 <= i < av.areas@.len() ==> #[trigger] area_summary_of(av.areas@[i], manifest.areas@[i]),
            Some(x) => match r {
                Ok(ListView::Children(cv)) => g@.contains_key(x@) && children_view_of(cv, g@, g@[x@]),
                Ok(ListView::Areas(_)) => false,
                Err(e) => !g@.contains_key(x@) && (e matches Error::UnknownId(y) && y@ == x@),
            },
        },
{
    match id {
        None => Ok(ListView::Areas(areas_view(manifest))),
        Some(x) => match g.get(x) {
            Some(c) => Ok(ListView::Children(children_list_view(g, c))),
            None => Err(Error::UnknownId(to_owned(x))),
        },
    }
}

fn areas_view(manifest: &Manifest) -> (r: AreasView)
    ensures
        r.areas@.len() == manifest.areas@.len(),
        forall|i: int| 0 <= i < r.areas@.len() ==> #[trigger] area_summary_of(r.areas@[i], manifest.areas@[i]),
{
    let mut areas: Vec<AreaSummary> = Vec::new();
    let mut i: usize = 0;
    while i < manifest.areas.len()
        invariant
            i <= manifest.areas@.len(),
            areas@.len() == i,
            forall|k: int| 0 <= k < i ==> #[trigger] area_summary_of(areas@[k], manifest.areas@[k]),
        decreases manifest.areas@.len() - i,
    {
        let a = &manifest.areas[i];
        areas.push(AreaSummary { prefix: copy(&a.prefix), slug: copy(&a.slug), summary: copy(&a.summary) });
        i = i + 1;
    }
    AreasView { areas }
}

fn children_list_view(g: &Graph, c: &FlatConcept) -> (r: ChildrenListView)
    ensures
        children_view_of(r, g@, *c),
{
    ChildrenListView { id: copy(&c.id), name: copy(&c.name), children: known_briefs(g, &c.children_ids) }
}

fn concept_view(g: &Graph, c: &FlatConcept) -> (r: ConceptView)
    requires
        g@.contains_key(c.id@),
        g@[c.id@] == *c,
        count_fits(g@, c.id@),
    ensures
        concept_view_of(r, g@, *c),
{
    let prerequisites = known_briefs(g, &c.prerequisites);
    if c.children_ids.len() == 0 {
        ConceptView::Atom(AtomView {
            id: copy(&c.id),
            name: copy(&c.name),
            description: copy_opt(&c.description),
            is_atom: true,
            prerequisites,
            has_lesson: c.lesson.is_some(),
            quizzes: c.quizzes.len(),
            status: None,
        })
    } else {
        let children = known_briefs(g, &c.children_ids);
        ConceptView::Cluster(ClusterView {
            id: copy(&c.id),
            name: copy(&c.name),
            description: copy_opt(&c.description),
            is_atom: false,
            prerequisites,
            children,
            atomic_descendants: count_atomic_descendants(g, c.id.as_str()),
        })
    }
}

fn child_brief(c: &FlatConcept) -> (r: ChildBrief)
    ensures
        brief_of(r, *c),
{
    ChildBrief { id: copy(&c.id), name: copy(&c.name), is_atom: c.children_ids.len() == 0, status: None }
}

/// Briefs of the concepts named by `ids` that the graph has, in order.
fn known_briefs(g: &Graph, ids: &Vec<String>) -> (r: Vec<ChildBrief>)
    ensures
        briefs_of(r@, known_concepts(g@, strs(ids@))),
{
    let ghost ps = strs(ids@);
    let mut out: Vec<ChildBrief> = Vec::new();
    let mut i: usize = 0;
    assert(ps.take(0) =~= Seq::<Seq<char>>::empty());
    while i < ids.len()
        invariant
            i <= ids@.len(),
            ps == strs(ids@),
            briefs_of(out@, known_concepts(g@, ps.take(i as int))),
        decreases ids@.len() - i,
    {
        assert(ps.take(i + 1).drop_last() =~= ps.take(i as int));
        assert(ps.take(i + 1).last() == ids@[i as int]@);
        match g.get(ids[i].as_str()) {
            Some(c) => {
                let ghost before = out@;
                out.push(child_brief(c));
                assert forall|k: int| 0 <= k < out@.len() implies #[trigger] brief_of(out@[k], known_concepts(g@, ps.take(i + 1))[k]) by {
                    if k < before.len() {
                        assert(out@[k] == before[k]);
                    }
                }
            },
            None => {},
        }
        i = i + 1;
    }
    assert(ps.take(ids@.len() as int) =~= ps);
    out
}

/// The status of atom `atom_id` in a path; `None` for a cluster or an id
/// the graph lacks.
fn atom_status(g: &Graph, progress: &PathProgress, atom_id: &str) -> (r: Option<AtomStatus>)
    ensures
        r == status_of(g@, progress.taught_atoms@, progress.correct_quizzes@, atom_id@),
{
    let c = match g.get(atom_id) {
        Some(c) => c,
        None => return None,
    };
    if c.children_ids.len() != 0 {
        return None;
    }
    Some(AtomStatus {
        lesson_taught: progress.lesson_taught(atom_id),
        complete: is_atom_complete(g, progress, atom_id),
    })
}

/// Sets the path status of an atom view; other views are left as they are.
pub fn enrich_show_view(view: &mut ShowView, g: &Graph, progress: &PathProgress, id: &str)
    ensures
        match *old(view) {
            ShowView::Concept(ConceptView::Atom(av)) => *final(view) == ShowView::Concept(
                ConceptView::Atom(
                    AtomView {
                        status: status_of(g@, progress.taught_atoms@, progress.correct_quizzes@, id@),
                        ..av
                    },
                ),
            ),
            _ => *final(view) == *old(view),
        },
{
    match view {
        ShowView::Concept(ConceptView::Atom(av)) => {
            av.status = atom_status(g, progress, id);
        },
        _ => {},
    }
}

/// Sets the path status of each atom child of a children list; an areas
/// list is left as it is.
pub fn enrich_list_view(view: &mut ListView, g: &Graph, progress: &PathProgress)
    ensures
        match *old(view) {
            ListView::Children(cv) => *final(view) matches ListView::Children(nv) && {
                &&& nv.id == cv.id
                &&& nv.name == cv.name
                &&& nv.children@.len() == cv.children@.len()
                &&& forall|k: int|
                    0 <= k < nv.children@.len() ==> {
                        let o = #[trigger] cv.children@[k];
                        let n = nv.children@[k];
                        &&& n.id@ == o.id@
                        &&& n.name@ == o.name@
                        &&& n.is_atom == o.is_atom
                        &&& n.status == (if o.is_atom {
                            status_of(g@, progress.taught_atoms@, progress.correct_quizzes@, o.id@)
                        } else {
                            o.status
                        })
                    }
            },
            _ => *final(view) == *old(view),
        },
{
    match view {
        ListView::Children(cv) => {
            let ghost kids0 = cv.children@;
            let ghost id0 = cv.id;
            let ghost name0 = cv.name;
            let mut i: usize = 0;
            while i < cv.children.len()
                invariant
                    cv.id == id0,
                    cv.name == name0,
                    i <= cv.children@.len(),
                    cv.children@.len() == kids0.len(),
                    forall|k: int| i <= k < kids0.len() ==> cv.children@[k] == kids0[k],
                    forall|k: int|
                        0 <= k < i ==> {
                            let o = #[trigger] kids0[k];
                            let n = cv.children@[k];
                            &&& n.id@ == o.id@
                            &&& n.name@ == o.name@
                            &&& n.is_atom == o.is_atom
                            &&& n.status == (if o.is_atom {
                                status_of(g@, progress.taught_atoms@, progress.correct_quizzes@, o.id@)
                            } else {
                                o.status
                            })
                        },
                decreases cv.children@.len() - i,
            {
                let o = &cv.children[i];
                let status = if o.is_atom {
                    atom_status(g, progress, o.id.as_str())
                } else {
                    o.status
                };
                let n = ChildBrief { id: copy(&o.id), name: copy(&o.name), is_atom: o.is_atom, status };
                cv.children.set(i, n);
                i = i + 1;
            }
        },
        ListView::Areas(_) => {},
    }
}

/// The atomic-descendant count of `id` (see `descendant_count`).
fn count_atomic_descendants(g: &Graph, id: &str) -> (r: usize)
    requires
        descendant_count(g@, id@) <= usize::MAX,
    ensures
        r == descendant_count(g@, id@),
{
    let n = g.len();
    count_under(g, id, n)
}

/// `atom_count` with the sum checked: `None` when it exceeds `usize`.
fn count_under_checked(g: &Graph, id: &str, fuel: usize) -> (r: Option<usize>)
    ensures
        match r {
            Some(n) => n == atom_count(g@, id@, fuel as nat),
            None => atom_count(g@, id@, fuel as nat) > usize::MAX,
        },
    decreases fuel,
{
    if fuel == 0 {
        return Some(0);
    }
    let c = match g.get(id) {
        Some(c) => c,
        None => return Some(0),
    };
    if c.children_ids.len() == 0 {
        return Some(1);
    }
    let ghost ids = c.children();
    let ghost f = (fuel - 1) as nat;
    let mut sum: usize = 0;
    let mut i: usize = 0;
    assert(ids.take(0) =~= Seq::<Seq<char>>::empty());
    while i < c.children_ids.len()
        invariant
            i <= c.children_ids@.len(),
            ids == c.children(),
            fuel > 0,
            f == fuel - 1,
            *c == g@[id@],
            g@.contains_key(id@),
            sum == children_count(g@, ids.take(i as int), f),
        decreases c.children_ids@.len() - i,
    {
        assert(ids.take(i + 1).drop_last() =~= ids.take(i as int));
        assert(ids.take(i + 1).last() == c.children_ids@[i as int]@);
        proof {
            lemma_children_count_prefix(g@, ids, i + 1, f);
        }
        match count_under_checked(g, c.children_ids[i].as_str(), fuel - 1) {
            Some(k) => match sum.checked_add(k) {
                Some(t) => {
                    sum = t;
                },
                None => return None,
            },
            None => return None,
        }
        i = i + 1;
    }
    assert(ids.take(c.children_ids@.len() as int) =~= ids);
    Some(sum)
}

/// Whether the view of `id` can be built: `count_fits` as a check.
pub fn view_fits(g: &Graph, id: &str) -> (r: bool)
    ensures
        r == count_fits(g@, id@),
{
    match g.get(id) {
        Some(c) => {
            if c.children_ids.len() == 0 {
                true
            } else {
                let n = g.len();
                count_under_checked(g, id, n).is_some()
            }
        },
        None => true,
    }
}

proof fn lemma_children_count_prefix(g: Map<Seq<char>, FlatConcept>, ids: Seq<Seq<char>>, k: int, fuel: nat)
    requires
        0 <= k <= ids.len(),
    ensures
        children_count(g, ids.take(k), fuel) <= children_count(g, ids, fuel),
    decreases ids.len(),
{
    if k < ids.len() {
        assert(ids.drop_last().take(k) =~= ids.take(k));
        lemma_children_count_prefix(g, ids.drop_last(), k, fuel);
    } else {
        assert(ids.take(k) =~= ids);
    }
}

fn count_under(g: &Graph, id: &str, fuel: usize) -> (r: usize)
    requires
        atom_count(g@, id@, fuel as nat) <= usize::MAX,
    ensures
        r == atom_count(g@, id@, fuel as nat),
    decreases fuel,
{
    if fuel == 0 {
        return 0;
    }
    let c = match g.get(id) {
        Some(c) => c,
        None => return 0,
    };
    if c.children_ids.len() == 0 {
        return 1;
    }
    let ghost ids = c.children();
    let ghost f = (fuel - 1) as nat;
    let mut sum: usize = 0;
    let mut i: usize = 0;
    assert(ids.take(0) =~= Seq::<Seq<char>>::empty());
    while i < c.children_ids.len()
        invariant
            i <= c.children_ids@.len(),
            ids == c.children(),
            fuel > 0,
            f == fuel - 1,
            children_count(g@, ids, f) <= usize::MAX,
            sum == children_count(g@, ids.take(i as int), f),
        decreases c.children_ids@.len() - i,
    {
        assert(ids.take(i + 1).drop_last() =~= ids.take(i as int));
        assert(ids.take(i + 1).last() == c.children_ids@[i as int]@);
        proof {
            lemma_children_count_prefix(g@, ids, i + 1, f);
        }
        let k = count_under(g, c.children_ids[i].as_str(), fuel - 1);
        sum = sum + k;
        i = i + 1;
    }
    assert(ids.take(c.children_ids@.len() as int) =~= ids);
    sum
}


// ── Descendants ───────────────────────────────────────────────────

/// The concepts met walking down from `ids` the way a stack does: the
/// last id first, then everything under it, then the ids before it. Ids
/// the graph lacks are skipped; `fuel` bounds the depth of the walk.
pub open spec fn stack_walk(g: Map<Seq<char>, FlatConcept>, ids: Seq<Seq<char>>, fuel: nat) -> Seq<Seq<char>>
    decreases fuel, ids.len(),
{
    if ids.len() == 0 {
        Seq::empty()
    } else {
        let a = ids.last();
        let here = if !g.contains_key(a) {
            Seq::<Seq<char>>::empty()
        } else if fuel == 0 {
            seq![a]
        } else {
            seq![a] + stack_walk(g, g[a].children(), (fuel - 1) as nat)
        };
        here + stack_walk(g, ids.drop_last(), fuel)
    }
}

/// `a` inserted into `s` before the first id that orders after it.
pub open spec fn insert_id(s: Seq<Seq<char>>, a: Seq<char>) -> Seq<Seq<char>>
    decreases s.len(),
{
    if s.len() == 0 {
        seq![a]
    } else if str_lt(a, s[0]) {
        seq![a] + s
    } else {
        seq![s[0]] + insert_id(s.drop_first(), a)
    }
}

/// `s` sorted by id, stably.
pub open spec fn sort_ids(s: Seq<Seq<char>>) -> Seq<Seq<char>>
    decreases s.len(),
{
    if s.len() == 0 {
        Seq::empty()
    } else {
        insert_id(sort_ids(s.drop_last()), s.last())
    }
}

/// The concepts under `roots` (the roots included), one entry per way
/// down, sorted by id. The walk follows at most one link per concept of
/// the graph, which a chain of distinct concepts never exceeds.
pub open spec fn descendants(g: Map<Seq<char>, FlatConcept>, roots: Seq<Seq<char>>) -> Seq<Seq<char>> {
    sort_ids(stack_walk(g, roots, g.len()))
}

/// `b` describes concept `id` of `g`, with its status on the path whose
/// progress is `p` (none without a path).
pub open spec fn entry_of(b: ChildBrief, g: Map<Seq<char>, FlatConcept>, p: Option<PathProgress>, id: Seq<char>) -> bool {
    &&& g.contains_key(id)
    &&& b.id@ == id
    &&& b.name@ == g[id].name@
    &&& b.is_atom == g[id].spec_is_atom()
    &&& b.status == match p {
        Some(pp) => status_of(g, pp.taught_atoms@, pp.correct_quizzes@, id),
        None => None,
    }
}

proof fn lemma_insert_id_at(s: Seq<Seq<char>>, a: Seq<char>, p: int)
    requires
        0 <= p <= s.len(),
        forall|i: int| 0 <= i < p ==> !str_lt(a, #[trigger] s[i]),
        p < s.len() ==> str_lt(a, s[p]),
    ensures
        insert_id(s, a) == s.insert(p, a),
    decreases s.len(),
{
    if s.len() == 0 {
        assert(s.insert(p, a) =~= seq![a]);
    } else if p == 0 {
        assert(s.insert(0, a) =~= seq![a] + s);
    } else {
        let t = s.drop_first();
        assert forall|i: int| 0 <= i < p - 1 implies !str_lt(a, #[trigger] t[i]) by {
            assert(t[i] == s[i + 1]);
        }
        if p < s.len() {
            assert(t[p - 1] == s[p]);
        }
        lemma_insert_id_at(t, a, p - 1);
        assert(s.insert(p, a) =~= seq![s[0]] + t.insert(p - 1, a));
    }
}

/// The entry for concept `c`, found in the graph under id `id`.
fn entry_for(g: &Graph, c: &FlatConcept, progress: Option<&PathProgress>, id: &str) -> (r: ChildBrief)
    requires
        g@.contains_key(id@),
        *c == g@[id@],
    ensures
        entry_of(r, g@, match progress { Some(pp) => Some(*pp), None => None }, id@),
{
    let status = match progress {
        Some(pp) => atom_status(g, pp, id),
        None => None,
    };
    ChildBrief { id: to_owned(id), name: copy(&c.name), is_atom: c.is_atom(), status }
}

/// Appends the entries of the walk from `ids` to `out`.
fn walk_into(g: &Graph, ids: &Vec<String>, fuel: usize, progress: Option<&PathProgress>, out: &mut Vec<ChildBrief>)
    ensures
        final(out)@.len() == old(out)@.len() + stack_walk(g@, strs(ids@), fuel as nat).len(),
        forall|i: int| 0 <= i < old(out)@.len() ==> #[trigger] final(out)@[i] == old(out)@[i],
        forall|i: int| 0 <= i < stack_walk(g@, strs(ids@), fuel as nat).len() ==> entry_of(
            #[trigger] final(out)@[old(out)@.len() + i],
            g@,
            match progress { Some(pp) => Some(*pp), None => None },
            stack_walk(g@, strs(ids@), fuel as nat)[i],
        ),
    decreases fuel, ids@.len(),
{
    let ghost pr = match progress { Some(pp) => Some(*pp), None => None };
    let ghost ws = strs(ids@);
    let ghost out0 = out@;
    let ghost mut done: Seq<Seq<char>> = Seq::empty();
    let mut i: usize = ids.len();
    proof {
        assert(ws.take(i as int) =~= ws);
        assert(done + stack_walk(g@, ws.take(i as int), fuel as nat) =~= stack_walk(g@, ws, fuel as nat));
    }
    while i > 0
        invariant
            i <= ids@.len(),
            ws == strs(ids@),
            pr == match progress { Some(pp) => Some(*pp), None => None },
            done + stack_walk(g@, ws.take(i as int), fuel as nat) == stack_walk(g@, ws, fuel as nat),
            out@.len() == out0.len() + done.len(),
            forall|k: int| 0 <= k < out0.len() ==> #[trigger] out@[k] == out0[k],
            forall|k: int| 0 <= k < done.len() ==> entry_of(#[trigger] out@[out0.len() + k], g@, pr, done[k]),
        decreases i,
    {
        let ghost pre = ws.take(i as int);
        let ghost rest = ws.take(i - 1);
        assert(pre.drop_last() =~= rest);
        assert(pre.last() == ids@[i - 1]@);
        let ghost before = out@;
        let id = ids[i - 1].as_str();
        match g.get(id) {
            Some(c) => {
                let e = entry_for(g, c, progress, id);
                out.push(e);
                let ghost mid = out@;
                if fuel > 0 {
                    walk_into(g, &c.children_ids, fuel - 1, progress, out);
                }
                proof {
                    let sub = if fuel == 0 { Seq::<Seq<char>>::empty() } else { stack_walk(g@, c.children(), (fuel - 1) as nat) };
                    let here = seq![id@] + sub;
                    assert(stack_walk(g@, pre, fuel as nat) == here + stack_walk(g@, rest, fuel as nat));
                    assert(out@.len() == mid.len() + sub.len());
                    let nd = done + here;
                    assert forall|k: int| 0 <= k < out0.len() implies #[trigger] out@[k] == out0[k] by {
                        assert(out@[k] == mid[k]);
                    }
                    assert forall|k: int| 0 <= k < nd.len() implies entry_of(#[trigger] out@[out0.len() + k], g@, pr, nd[k]) by {
                        if k < done.len() {
                            assert(out@[out0.len() + k] == mid[out0.len() + k]);
                            assert(mid[out0.len() + k] == before[out0.len() + k]);
                        } else if k == done.len() {
                            assert(out@[out0.len() + k] == mid[out0.len() + k]);
                        } else {
                            let m = k - done.len() - 1;
                            assert(out@[mid.len() + m] == out@[out0.len() + k]);
                        }
                    }
                    assert(nd + stack_walk(g@, rest, fuel as nat) =~= done + stack_walk(g@, pre, fuel as nat));
                    done = nd;
                }
            },
            None => {
                proof {
                    assert(stack_walk(g@, pre, fuel as nat) == stack_walk(g@, rest, fuel as nat));
                }
            },
        }
        i = i - 1;
    }
    proof {
        assert(ws.take(0) =~= Seq::<Seq<char>>::empty());
        assert(done =~= stack_walk(g@, ws, fuel as nat));
    }
}

/// Every concept under `roots` (the roots included), one entry per way
/// down the children links, sorted by id; each entry carries the atom's
/// status on the path whose progress is given. Ids the graph lacks are
/// skipped.
pub fn gather_descendants(g: &Graph, roots: &Vec<String>, progress: Option<&PathProgress>) -> (r: Vec<ChildBrief>)
    ensures
        r@.len() == descendants(g@, strs(roots@)).len(),
        forall|i: int| 0 <= i < r@.len() ==> entry_of(
            #[trigger] r@[i], g@,
            match progress { Some(pp) => Some(*pp), None => None },
            descendants(g@, strs(roots@))[i],
        ),
{
    let ghost pr = match progress { Some(pp) => Some(*pp), None => None };
    let mut walked: Vec<ChildBrief> = Vec::new();
    let n = g.len();
    walk_into(g, roots, n, progress, &mut walked);
    let ghost ws = stack_walk(g@, strs(roots@), g@.len());
    assert forall|k: int| 0 <= k < ws.len() implies entry_of(#[trigger] walked@[k], g@, pr, ws[k]) by {
        assert(walked@[0 + k] == walked@[k]);
    }
    let mut out: Vec<ChildBrief> = Vec::new();
    let mut j: usize = 0;
    while j < walked.len()
        invariant
            j <= walked@.len(),
            walked@.len() == ws.len(),
            forall|k: int| 0 <= k < ws.len() ==> entry_of(#[trigger] walked@[k], g@, pr, ws[k]),
            out@.len() == sort_ids(ws.take(j as int)).len(),
            forall|k: int| 0 <= k < out@.len() ==> entry_of(#[trigger] out@[k], g@, pr, sort_ids(ws.take(j as int))[k]),
        decreases walked@.len() - j,
    {
        let ghost sorted = sort_ids(ws.take(j as int));
        assert(ws.take(j + 1).drop_last() =~= ws.take(j as int));
        assert(ws.take(j + 1).last() == ws[j as int]);
        let key = walked[j].id.as_str();
        let mut p: usize = 0;
        while p < out.len() && !str_less(key, out[p].id.as_str())
            invariant
                p <= out@.len(),
                out@.len() == sorted.len(),
                key@ == ws[j as int],
                forall|k: int| 0 <= k < out@.len() ==> entry_of(#[trigger] out@[k], g@, pr, sorted[k]),
                forall|k: int| 0 <= k < p ==> !str_lt(key@, #[trigger] sorted[k]),
            decreases out@.len() - p,
        {
            assert(out@[p as int].id@ == sorted[p as int]);
            p = p + 1;
        }
        proof {
            if p < out@.len() {
                assert(out@[p as int].id@ == sorted[p as int]);
            }
            lemma_insert_id_at(sorted, ws[j as int], p as int);
        }
        let e = ChildBrief {
            id: copy(&walked[j].id),
            name: copy(&walked[j].name),
            is_atom: walked[j].is_atom,
            status: walked[j].status,
        };
        let ghost before = out@;
        out.insert(p, e);
        proof {
            assert forall|k: int| 0 <= k < out@.len() implies entry_of(#[trigger] out@[k], g@, pr, sort_ids(ws.take(j + 1))[k]) by {
                assert(sort_ids(ws.take(j + 1)) == sorted.insert(p as int, ws[j as int]));
                if k < p {
                    assert(out@[k] == before[k]);
                } else if k > p {
                    assert(out@[k] == before[k - 1]);
                }
            }
        }
        j = j + 1;
    }
    assert(ws.take(walked@.len() as int) =~= ws);
    out
}


/// The ids of `s` in non-decreasing order.
pub open spec fn ids_sorted(s: Seq<Seq<char>>) -> bool {
    forall|i: int, j: int| 0 <= i < j < s.len() ==> !str_lt(#[trigger] s[j], #[trigger] s[i])
}

/// The first position of `s` from `k` on whose id orders after `a`.
pub open spec fn first_after(s: Seq<Seq<char>>, a: Seq<char>, k: int) -> int
    decreases s.len() - k,
{
    if k < 0 || k >= s.len() {
        s.len() as int
    } else if str_lt(a, s[k]) {
        k
    } else {
        first_after(s, a, k + 1)
    }
}

proof fn lemma_first_after(s: Seq<Seq<char>>, a: Seq<char>, k: int)
    requires
        0 <= k <= s.len(),
    ensures
        k <= first_after(s, a, k) <= s.len(),
        forall|i: int| k <= i < first_after(s, a, k) ==> !str_lt(a, #[trigger] s[i]),
        first_after(s, a, k) < s.len() ==> str_lt(a, s[first_after(s, a, k)]),
    decreases s.len() - k,
{
    if k < s.len() && !str_lt(a, s[k]) {
        lemma_first_after(s, a, k + 1);
    }
}

proof fn lemma_insert_id_sorted(s: Seq<Seq<char>>, a: Seq<char>)
    requires
        ids_sorted(s),
    ensures
        ids_sorted(insert_id(s, a)),
        insert_id(s, a).to_multiset() == s.to_multiset().insert(a),
{
    broadcast use vstd::seq_lib::group_to_multiset_ensures;

    lemma_first_after(s, a, 0);
    let p = first_after(s, a, 0);
    lemma_insert_id_at(s, a, p);
    let t = s.insert(p, a);
    assert forall|i: int, j: int| 0 <= i < j < t.len() implies !str_lt(#[trigger] t[j], #[trigger] t[i]) by {
        if j < p {
            assert(t[i] == s[i] && t[j] == s[j]);
        } else if j == p {
            assert(t[j] == a && t[i] == s[i]);
            lemma_str_lt_order(a, s[i], a);
        } else if i > p {
            assert(t[i] == s[i - 1] && t[j] == s[j - 1]);
        } else if i == p {
            assert(t[i] == a && t[j] == s[j - 1]);
            lemma_str_lt_order(a, s[p], s[j - 1]);
            if p < j - 1 {
                assert(!str_lt(s[j - 1], s[p]));
            }
            lemma_str_lt_order(s[j - 1], a, s[p]);
            lemma_str_lt_order(s[j - 1], s[p], a);
        } else {
            assert(t[i] == s[i] && t[j] == s[j - 1]);
        }
    }
}

/// The descendants `gather_descendants` lists come sorted by id, and they
/// are the concepts the walk meets, each as often as it meets it.
pub proof fn law_descendants_sorted(g: Map<Seq<char>, FlatConcept>, roots: Seq<Seq<char>>)
    ensures
        ids_sorted(descendants(g, roots)),
        descendants(g, roots).to_multiset() == stack_walk(g, roots, g.len()).to_multiset(),
{
    lemma_sort_ids(stack_walk(g, roots, g.len()));
}

proof fn lemma_sort_ids(s: Seq<Seq<char>>)
    ensures
        ids_sorted(sort_ids(s)),
        sort_ids(s).to_multiset() == s.to_multiset(),
    decreases s.len(),
{
    broadcast use vstd::seq_lib::group_to_multiset_ensures;

    if s.len() == 0 {
        assert(s.to_multiset() =~= vstd::multiset::Multiset::<Seq<char>>::empty());
        assert(sort_ids(s).to_multiset() =~= vstd::multiset::Multiset::<Seq<char>>::empty());
    } else {
        lemma_sort_ids(s.drop_last());
        lemma_insert_id_sorted(sort_ids(s.drop_last()), s.last());
        assert(s.drop_last().push(s.last()) =~= s);
    }
}

} // verus!
