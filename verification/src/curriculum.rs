//! Curriculum files: the manifest, the area files of both schema versions,
//! the unified concept tree they are normalized to, and the flattening of
//! that tree into the lookup graph.
use crate::graph::{concepts_map, FlatConcept, Graph, Quiz, QuizRaw};
use crate::ids::{copy, strs};
use vstd::prelude::*;

verus! {

/// The curriculum manifest: the areas, in order.
#[derive(Debug)]
pub struct Manifest {
    pub schema_version: u32,
    pub areas: Vec<ManifestArea>,
}

/// One area of the manifest.
#[derive(Debug)]
pub struct ManifestArea {
    pub prefix: String,
    pub slug: String,
    pub file: String,
    pub summary: String,
}

/// An area file as written on disk. Schema 1 groups leaves under topics;
/// schema 2 nests concept nodes.
#[derive(Debug)]
pub struct AreaFile {
    pub schema_version: u32,
    pub area: String,
    pub prefix: String,
    pub summary: String,
    pub motivation: String,
    pub cross_references: Vec<String>,
    pub topics: Option<Vec<Topic>>,
    pub children: Option<Vec<Node>>,
}

/// Schema 1 topic: a cluster of leaves.
#[derive(Debug)]
pub struct Topic {
    pub id: String,
    pub name: String,
    pub why: Option<String>,
    pub leaves: Vec<Leaf>,
}

/// Schema 1 leaf: an atom.
#[derive(Debug)]
pub struct Leaf {
    pub id: String,
    pub name: String,
    pub description: String,
    pub prerequisites: Vec<String>,
    pub lesson: Option<String>,
    pub quizzes: Option<Vec<QuizRaw>>,
    pub relevant_for: Vec<String>,
    pub tags: Vec<String>,
    pub status: Option<String>,
    pub difficulty: Option<u32>,
    pub terminal: bool,
}

/// Schema 2 node: a cluster when it has children, else an atom.
#[derive(Debug)]
pub struct Node {
    pub id: String,
    pub name: String,
    pub description: Option<String>,
    pub prerequisites: Vec<String>,
    pub children: Option<Vec<Node>>,
    pub lesson: Option<String>,
    pub quizzes: Option<Vec<QuizRaw>>,
    pub relevant_for: Vec<String>,
    pub tags: Vec<String>,
    pub status: Option<String>,
    pub difficulty: Option<u32>,
    pub terminal: bool,
}

/// Normalized concept node, whatever the schema it was read from.
#[derive(Debug)]
pub struct Concept {
    pub id: String,
    pub name: String,
    pub description: Option<String>,
    pub prerequisites: Vec<String>,
    pub children: Vec<Concept>,
    pub lesson: Option<String>,
    pub quizzes: Vec<Quiz>,
    /// The atom ends a line of study by design and need not be anyone's
    /// prerequisite.
    pub terminal: bool,
}

impl Concept {
    /// The prerequisite ids.
    pub open spec fn prereqs(&self) -> Seq<Seq<char>> {
        strs(self.prerequisites@)
    }

    pub open spec fn spec_is_atom(&self) -> bool {
        self.children@.len() == 0
    }

    /// An atom is a concept without children.
    #[verifier::when_used_as_spec(spec_is_atom)]
    pub fn is_atom(&self) -> (r: bool)
        ensures
            r == self.spec_is_atom(),
    {
        self.children.len() == 0
    }
}

/// `q` is the quiz card of the raw quiz `r`, field for field.
pub open spec fn quiz_of(q: Quiz, r: QuizRaw) -> bool {
    &&& q.id == r.id
    &&& q.difficulty == r.difficulty
    &&& q.kind == r.kind
    &&& q.question == r.question
    &&& q.answer == r.answer
    &&& q.rubric == r.rubric
}

/// `qs` are the quiz cards of the raw quizzes `raw` (none when absent).
pub open spec fn quizzes_of(qs: Seq<Quiz>, raw: Option<Vec<QuizRaw>>) -> bool {
    match raw {
        None => qs.len() == 0,
        Some(v) => qs.len() == v@.len() && forall|i: int| 0 <= i < qs.len() ==> #[trigger] quiz_of(qs[i], v@[i]),
    }
}

/// `c` is the normalized concept of the schema 2 node `n`.
pub open spec fn concept_of_node(c: Concept, n: Node) -> bool
    decreases n,
{
    &&& c.id == n.id
    &&& c.name == n.name
    &&& c.description == n.description
    &&& c.prerequisites == n.prerequisites
    &&& c.lesson == n.lesson
    &&& c.terminal == n.terminal
    &&& quizzes_of(c.quizzes@, n.quizzes)
    &&& match n.children {
        None => c.children@.len() == 0,
        Some(v) => concepts_of_nodes(c.children@, v@),
    }
}

/// Element by element, `cs` are the normalized concepts of `ns`.
pub open spec fn concepts_of_nodes(cs: Seq<Concept>, ns: Seq<Node>) -> bool
    decreases ns,
{
    &&& cs.len() == ns.len()
    &&& ns.len() > 0 ==> {
        &&& concept_of_node(cs[0], ns[0])
        &&& concepts_of_nodes(cs.drop_first(), ns.drop_first())
    }
}

/// `concepts_of_nodes` holds exactly when it holds at every position.
pub proof fn lemma_concepts_of_nodes(cs: Seq<Concept>, ns: Seq<Node>)
    ensures
        concepts_of_nodes(cs, ns) <==> (cs.len() == ns.len() && forall|i: int|
            0 <= i < ns.len() ==> #[trigger] concept_of_node(cs[i], ns[i])),
    decreases ns.len(),
{
    if cs.len() == ns.len() && ns.len() > 0 {
        lemma_concepts_of_nodes(cs.drop_first(), ns.drop_first());
        if forall|i: int| 0 <= i < ns.len() ==> #[trigger] concept_of_node(cs[i], ns[i]) {
            assert forall|i: int| 0 <= i < ns.len() - 1 implies #[trigger] concept_of_node(cs.drop_first()[i], ns.drop_first()[i]) by {
                assert(concept_of_node(cs[i + 1], ns[i + 1]));
            }
            assert(concept_of_node(cs[0], ns[0]));
        }
        if concepts_of_nodes(cs, ns) {
            assert forall|i: int| 0 <= i < ns.len() implies #[trigger] concept_of_node(cs[i], ns[i]) by {
                if i > 0 {
                    assert(concept_of_node(cs.drop_first()[i - 1], ns.drop_first()[i - 1]));
                }
            }
        }
    }
}

/// `c` is the normalized concept of the schema 1 leaf `l`.
pub open spec fn concept_of_leaf(c: Concept, l: Leaf) -> bool {
    &&& c.id == l.id
    &&& c.name == l.name
    &&& c.description == Some(l.description)
    &&& c.prerequisites == l.prerequisites
    &&& c.lesson == l.lesson
    &&& c.terminal == l.terminal
    &&& quizzes_of(c.quizzes@, l.quizzes)
    &&& c.children@.len() == 0
}

/// `c` is the normalized concept of the schema 1 topic `t`: a cluster
/// without prerequisites, lesson or quizzes.
pub open spec fn concept_of_topic(c: Concept, t: Topic) -> bool {
    &&& c.id == t.id
    &&& c.name == t.name
    &&& c.description == t.why
    &&& c.prerequisites@.len() == 0
    &&& c.lesson is None
    &&& c.quizzes@.len() == 0
    &&& !c.terminal
    &&& c.children@.len() == t.leaves@.len()
    &&& forall|i: int| 0 <= i < t.leaves@.len() ==> #[trigger] concept_of_leaf(c.children@[i], t.leaves@[i])
}

/// The quiz cards of the raw quizzes, in order.
fn quizzes_from(raw: Option<Vec<QuizRaw>>) -> (qs: Vec<Quiz>)
    ensures
        quizzes_of(qs@, raw),
{
    match raw {
        None => Vec::new(),
        Some(v) => {
            let ghost orig = v@;
            let mut v = v;
            let mut out: Vec<Quiz> = Vec::new();
            while v.len() > 0
                invariant
                    out@.len() + v@.len() == orig.len(),
                    forall|i: int| 0 <= i < v@.len() ==> v@[i] == orig[out@.len() + i],
                    forall|i: int| 0 <= i < out@.len() ==> #[trigger] quiz_of(out@[i], orig[i]),
                decreases v@.len(),
            {
                let ghost k = out@.len();
                let q = v.remove(0);
                assert(q == orig[k as int]);
                out.push(Quiz::from_raw(q));
                assert(quiz_of(out@[k as int], orig[k as int]));
            }
            out
        },
    }
}

/// The normalized concept of a schema 2 node, children included.
pub fn node_to_concept(n: Node) -> (c: Concept)
    ensures
        concept_of_node(c, n),
    decreases n,
{
    let ghost n0 = n;
    let Node { id, name, description, prerequisites, children, lesson, quizzes, terminal, .. } = n;
    let quizzes = quizzes_from(quizzes);
    let mut kids: Vec<Concept> = Vec::new();
    match children {
        None => {},
        Some(v) => {
            let ghost orig = v@;
            assert(n0.children == Some(v));
            let mut v = v;
            while v.len() > 0
                invariant
                    n0 == n,
                    n0.children matches Some(w) && w@ == orig,
                    kids@.len() + v@.len() == orig.len(),
                    forall|i: int| 0 <= i < v@.len() ==> v@[i] == orig[kids@.len() + i],
                    forall|i: int| 0 <= i < kids@.len() ==> #[trigger] concept_of_node(kids@[i], orig[i]),
                decreases v@.len(),
            {
                let ghost k = kids@.len();
                let child = v.remove(0);
                assert(child == orig[k as int]);
                assert(decreases_to!(n0 => child)) by {
                    assert(decreases_to!(n0 => n0.children));
                    assert(decreases_to!(n0.children => n0.children->0));
                    assert(decreases_to!(n0.children->0 => n0.children->0@));
                    assert(decreases_to!(n0.children->0@ => n0.children->0@[k as int]));
                }
                let c = node_to_concept(child);
                kids.push(c);
                assert(concept_of_node(kids@[k as int], orig[k as int]));
            }
        },
    }
    let c = Concept { id, name, description, prerequisites, children: kids, lesson, quizzes, terminal };
    proof {
        if let Some(v) = n0.children {
            lemma_concepts_of_nodes(c.children@, v@);
        }
    }
    c
}

/// The normalized concept of a schema 1 leaf.
fn leaf_to_concept(l: Leaf) -> (c: Concept)
    ensures
        concept_of_leaf(c, l),
{
    let Leaf { id, name, description, prerequisites, lesson, quizzes, terminal, .. } = l;
    Concept {
        id,
        name,
        description: Some(description),
        prerequisites,
        children: Vec::new(),
        lesson,
        quizzes: quizzes_from(quizzes),
        terminal,
    }
}

/// The normalized cluster of a schema 1 topic.
fn topic_to_concept(t: Topic) -> (c: Concept)
    ensures
        concept_of_topic(c, t),
{
    let ghost t0 = t;
    let Topic { id, name, why, leaves } = t;
    let ghost orig = leaves@;
    let mut v = leaves;
    let mut kids: Vec<Concept> = Vec::new();
    while v.len() > 0
        invariant
            kids@.len() + v@.len() == orig.len(),
            forall|i: int| 0 <= i < v@.len() ==> v@[i] == orig[kids@.len() + i],
            forall|i: int| 0 <= i < kids@.len() ==> #[trigger] concept_of_leaf(kids@[i], orig[i]),
        decreases v@.len(),
    {
        let ghost k = kids@.len();
        let l = v.remove(0);
        assert(l == orig[k as int]);
        kids.push(leaf_to_concept(l));
        assert(concept_of_leaf(kids@[k as int], orig[k as int]));
    }
    Concept {
        id,
        name,
        description: why,
        prerequisites: Vec::new(),
        children: kids,
        lesson: None,
        quizzes: Vec::new(),
        terminal: false,
    }
}

/// The concepts an area file declares: schema 1 topics with their
/// leaves, or schema 2 nodes; nothing for another schema version or a
/// missing list.
pub open spec fn area_concepts(cs: Seq<Concept>, a: AreaFile) -> bool {
    if a.schema_version == 1 {
        match a.topics {
            None => cs.len() == 0,
            Some(v) => cs.len() == v@.len() && forall|i: int| 0 <= i < cs.len() ==> #[trigger] concept_of_topic(cs[i], v@[i]),
        }
    } else if a.schema_version == 2 {
        match a.children {
            None => cs.len() == 0,
            Some(v) => cs.len() == v@.len() && forall|i: int| 0 <= i < cs.len() ==> #[trigger] concept_of_node(cs[i], v@[i]),
        }
    } else {
        cs.len() == 0
    }
}

impl AreaFile {
    /// The root concepts of the area, normalized from either schema.
    pub fn into_concepts(self) -> (cs: Vec<Concept>)
        ensures
            area_concepts(cs@, self),
    {
        let ghost a = self;
        if self.schema_version == 1 {
            match self.topics {
                None => Vec::new(),
                Some(v) => {
                    let ghost orig = v@;
                    let mut v = v;
                    let mut out: Vec<Concept> = Vec::new();
                    while v.len() > 0
                        invariant
                            out@.len() + v@.len() == orig.len(),
                            forall|i: int| 0 <= i < v@.len() ==> v@[i] == orig[out@.len() + i],
                            forall|i: int| 0 <= i < out@.len() ==> #[trigger] concept_of_topic(out@[i], orig[i]),
                        decreases v@.len(),
                    {
                        let ghost k = out@.len();
                        let t = v.remove(0);
                        assert(t == orig[k as int]);
                        out.push(topic_to_concept(t));
                        assert(concept_of_topic(out@[k as int], orig[k as int]));
                    }
                    out
                },
            }
        } else if self.schema_version == 2 {
            match self.children {
                None => Vec::new(),
                Some(v) => {
                    let ghost orig = v@;
                    let mut v = v;
                    let mut out: Vec<Concept> = Vec::new();
                    while v.len() > 0
                        invariant
                            out@.len() + v@.len() == orig.len(),
                            forall|i: int| 0 <= i < v@.len() ==> v@[i] == orig[out@.len() + i],
                            forall|i: int| 0 <= i < out@.len() ==> #[trigger] concept_of_node(out@[i], orig[i]),
                        decreases v@.len(),
                    {
                        let ghost k = out@.len();
                        let n = v.remove(0);
                        assert(n == orig[k as int]);
                        out.push(node_to_concept(n));
                        assert(concept_of_node(out@[k as int], orig[k as int]));
                    }
                    out
                },
            }
        } else {
            Vec::new()
        }
    }
}


// ── Flattening ──────────────────────────────────────────────────────

/// The concepts of the trees `cs`: each concept before its descendants,
/// the trees in order.
pub open spec fn preorder(cs: Seq<Concept>) -> Seq<Concept>
    decreases cs,
{
    if cs.len() == 0 {
        Seq::empty()
    } else {
        proof {
            assert(decreases_to!(cs => cs.drop_first()));
        }
        seq![cs[0]] + preorder(cs[0].children@) + preorder(cs.drop_first())
    }
}

/// The ids of a list of concepts.
pub open spec fn concept_ids(cs: Seq<Concept>) -> Seq<Seq<char>> {
    cs.map_values(|k: Concept| k.id@)
}

/// `f` is the lookup entry of `c`: the same fields, with the children
/// replaced by their ids.
pub open spec fn flat_of(f: FlatConcept, c: Concept) -> bool {
    &&& f.id == c.id
    &&& f.name == c.name
    &&& f.description == c.description
    &&& f.prerequisites == c.prerequisites
    &&& strs(f.children_ids@) == concept_ids(c.children@)
    &&& f.lesson == c.lesson
    &&& f.quizzes == c.quizzes
}

/// The concepts of `pre` keyed by id; a later concept replaces an earlier
/// one with the same id.
pub open spec fn tree_map(pre: Seq<Concept>) -> Map<Seq<char>, Concept>
    decreases pre.len(),
{
    if pre.len() == 0 {
        Map::empty()
    } else {
        tree_map(pre.drop_last()).insert(pre.last().id@, pre.last())
    }
}

/// `g` keys the concepts of `pre` by id, later ones replacing earlier ones,
/// each as its lookup entry.
pub open spec fn graph_of(g: Map<Seq<char>, FlatConcept>, pre: Seq<Concept>) -> bool {
    &&& g.dom() == tree_map(pre).dom()
    &&& forall|k: Seq<char>| #[trigger] g.contains_key(k) ==> flat_of(g[k], tree_map(pre)[k])
}

pub proof fn lemma_preorder_concat(a: Seq<Concept>, b: Seq<Concept>)
    ensures
        preorder(a + b) == preorder(a) + preorder(b),
    decreases a.len(),
{
    if a.len() == 0 {
        assert(a + b =~= b);
        assert(preorder(a) =~= Seq::<Concept>::empty());
        assert(preorder(a) + preorder(b) =~= preorder(b));
    } else {
        let ab = a + b;
        assert(ab[0] == a[0]);
        assert(ab.drop_first() =~= a.drop_first() + b);
        lemma_preorder_concat(a.drop_first(), b);
        assert(preorder(ab) =~= seq![a[0]] + preorder(a[0].children@) + (preorder(a.drop_first()) + preorder(b)));
        assert(preorder(a) + preorder(b) =~= seq![a[0]] + preorder(a[0].children@) + preorder(a.drop_first()) + preorder(b));
    }
}

proof fn lemma_preorder_one(c: Concept)
    ensures
        preorder(seq![c]) == seq![c] + preorder(c.children@),
{
    let one = seq![c];
    assert(one[0] == c);
    assert(one.drop_first() =~= Seq::<Concept>::empty());
    assert(preorder(one.drop_first()) =~= Seq::<Concept>::empty());
    assert(seq![c] + preorder(c.children@) + Seq::<Concept>::empty() =~= seq![c] + preorder(c.children@));
}

/// Appends the lookup entries of `c` and of its descendants, each concept
/// before its descendants.
pub fn flatten(c: Concept, out: &mut Vec<FlatConcept>)
    ensures
        final(out)@.len() == old(out)@.len() + preorder(seq![c]).len(),
        forall|i: int| 0 <= i < old(out)@.len() ==> final(out)@[i] == old(out)@[i],
        forall|i: int|
            0 <= i < preorder(seq![c]).len() ==> #[trigger] flat_of(final(out)@[old(out)@.len() + i], preorder(seq![c])[i]),
    decreases c,
{
    let ghost c0 = c;
    let ghost out0 = out@;
    proof {
        lemma_preorder_one(c);
    }
    let mut children_ids: Vec<String> = Vec::new();
    let mut j: usize = 0;
    while j < c.children.len()
        invariant
            j <= c.children@.len(),
            strs(children_ids@) == concept_ids(c.children@).take(j as int),
        decreases c.children@.len() - j,
    {
        let ghost prev = children_ids@;
        let x = copy(&c.children[j].id);
        children_ids.push(x);
        assert(strs(children_ids@) =~= strs(prev).push(x@));
        assert(strs(children_ids@) =~= concept_ids(c.children@).take(j + 1));
        j = j + 1;
    }
    assert(concept_ids(c.children@).take(c.children@.len() as int) =~= concept_ids(c.children@));
    let Concept { id, name, description, prerequisites, children, lesson, quizzes, .. } = c;
    out.push(FlatConcept { id, name, description, prerequisites, children_ids, lesson, quizzes });
    assert(flat_of(out@[out0.len() as int], c0));
    let ghost orig = children@;
    let ghost base = out0.len() + 1;
    let mut v = children;
    let mut k: usize = 0;
    assert(orig.len() == v@.len());
    assert(preorder(orig.take(0)) =~= Seq::<Concept>::empty());
    while v.len() > 0
        invariant
            c0 == c,
            orig == c0.children@,
            k + v@.len() == orig.len(),
            orig.len() <= usize::MAX,
            forall|i: int| 0 <= i < v@.len() ==> v@[i] == orig[k + i],
            base == out0.len() + 1,
            out@.len() == base + preorder(orig.take(k as int)).len(),
            forall|i: int| 0 <= i < out0.len() ==> out@[i] == out0[i],
            flat_of(out@[out0.len() as int], c0),
            forall|i: int|
                0 <= i < preorder(orig.take(k as int)).len() ==> #[trigger] flat_of(out@[base + i], preorder(orig.take(k as int))[i]),
        decreases v@.len(),
    {
        let child = v.remove(0);
        assert(child == orig[k as int]);
        assert(decreases_to!(c0 => child)) by {
            assert(decreases_to!(c0 => c0.children));
            assert(decreases_to!(c0.children => c0.children@));
            assert(decreases_to!(c0.children@ => c0.children@[k as int]));
        }
        let ghost before = out@;
        let ghost pk = preorder(orig.take(k as int));
        flatten(child, out);
        proof {
            assert(orig.take(k + 1) =~= orig.take(k as int) + seq![child]);
            lemma_preorder_concat(orig.take(k as int), seq![child]);
            let pc = preorder(seq![child]);
            assert(preorder(orig.take(k + 1)) == pk + pc);
            assert forall|i: int| 0 <= i < (pk + pc).len() implies #[trigger] flat_of(out@[base + i], (pk + pc)[i]) by {
                if i < pk.len() {
                    assert(out@[base + i] == before[base + i]);
                } else {
                    assert(flat_of(out@[before.len() + (i - pk.len())], pc[i - pk.len()]));
                }
            }
        }
        k = k + 1;
    }
    proof {
        assert(orig.take(k as int) =~= orig);
        let p = preorder(seq![c0]);
        assert(p == seq![c0] + preorder(orig));
        assert forall|i: int| 0 <= i < p.len() implies #[trigger] flat_of(out@[out0.len() + i], p[i]) by {
            if i == 0 {
            } else {
                assert(p[i] == preorder(orig)[i - 1]);
                assert(flat_of(out@[base + (i - 1)], preorder(orig)[i - 1]));
            }
        }
    }
}


proof fn lemma_graph_of(out: Seq<FlatConcept>, pre: Seq<Concept>)
    requires
        out.len() == pre.len(),
        forall|i: int| 0 <= i < out.len() ==> #[trigger] flat_of(out[i], pre[i]),
    ensures
        graph_of(concepts_map(out), pre),
    decreases out.len(),
{
    if out.len() > 0 {
        let a = out.drop_last();
        let b = pre.drop_last();
        assert forall|i: int| 0 <= i < a.len() implies #[trigger] flat_of(a[i], b[i]) by {
            assert(flat_of(out[i], pre[i]));
        }
        lemma_graph_of(a, b);
        assert(flat_of(out[out.len() - 1], pre[pre.len() - 1]));
        let m = concepts_map(out);
        let t = tree_map(pre);
        assert(m.dom() =~= t.dom());
        assert forall|k: Seq<char>| #[trigger] m.contains_key(k) implies flat_of(m[k], t[k]) by {
            if k != out.last().id@ {
                assert(concepts_map(a).contains_key(k));
            }
        }
    }
}

impl Graph {
    /// The lookup graph of concept trees: every concept, cluster or atom,
    /// keyed by id; a later concept (trees in order, each concept before
    /// its descendants) replaces an earlier one with the same id.
    pub fn from_trees(roots: Vec<Concept>) -> (g: Graph)
        ensures
            graph_of(g@, preorder(roots@)),
    {
        let ghost orig = roots@;
        let mut v = roots;
        let mut out: Vec<FlatConcept> = Vec::new();
        let mut k: usize = 0;
        let n = v.len();
        assert(orig.len() == n);
        assert(preorder(orig.take(0)) =~= Seq::<Concept>::empty());
        while v.len() > 0
            invariant
                k + v@.len() == orig.len(),
                orig.len() <= usize::MAX,
                forall|i: int| 0 <= i < v@.len() ==> v@[i] == orig[k + i],
                out@.len() == preorder(orig.take(k as int)).len(),
                forall|i: int| 0 <= i < out@.len() ==> #[trigger] flat_of(out@[i], preorder(orig.take(k as int))[i]),
            decreases v@.len(),
        {
            let root = v.remove(0);
            assert(root == orig[k as int]);
            let ghost before = out@;
            let ghost pk = preorder(orig.take(k as int));
            flatten(root, &mut out);
            proof {
                assert(orig.take(k + 1) =~= orig.take(k as int) + seq![root]);
                lemma_preorder_concat(orig.take(k as int), seq![root]);
                let pc = preorder(seq![root]);
                assert forall|i: int| 0 <= i < out@.len() implies #[trigger] flat_of(out@[i], (pk + pc)[i]) by {
                    if i < pk.len() {
                        assert(out@[i] == before[i]);
                    } else {
                        assert(flat_of(out@[before.len() + (i - pk.len())], pc[i - pk.len()]));
                    }
                }
            }
            k = k + 1;
        }
        assert(orig.take(k as int) =~= orig);
        let g = Graph::from_concepts(out);
        proof {
            lemma_graph_of(out@, preorder(orig));
        }
        g
    }

    /// The lookup graph of the curriculum's area files, in manifest order.
    pub fn from_areas(areas: Vec<AreaFile>) -> (g: Graph)
        ensures
            exists|roots: Seq<Seq<Concept>>|
                roots.len() == areas@.len() && (forall|i: int| 0 <= i < areas@.len() ==> #[trigger] area_concepts(roots[i], areas@[i]))
                    && graph_of(g@, preorder(roots.flatten())),
    {
        let ghost orig = areas@;
        let mut v = areas;
        let mut all: Vec<Concept> = Vec::new();
        let ghost mut roots: Seq<Seq<Concept>> = Seq::empty();
        assert(roots.flatten() =~= Seq::<Concept>::empty());
        while v.len() > 0
            invariant
                roots.len() + v@.len() == orig.len(),
                forall|i: int| 0 <= i < v@.len() ==> v@[i] == orig[roots.len() + i],
                forall|i: int| 0 <= i < roots.len() ==> #[trigger] area_concepts(roots[i], orig[i]),
                all@ == roots.flatten(),
            decreases v@.len(),
        {
            let a = v.remove(0);
            assert(a == orig[roots.len() as int]);
            let mut cs = a.into_concepts();
            let ghost part = cs@;
            all.append(&mut cs);
            proof {
                assert(roots.push(part).flatten() =~= roots.flatten() + part) by {
                    roots.lemma_flatten_push(part);
                }
                roots = roots.push(part);
            }
        }
        Graph::from_trees(all)
    }
}

} // verus!
