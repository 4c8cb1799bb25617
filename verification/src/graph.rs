//! Curriculum graph: concepts (clusters and atoms) keyed by id, with their
//! lessons and quizzes.
use crate::answer::{atom_from_quiz_id, spec_atom_of_quiz};
use crate::error::Error;
use crate::ids::{copy, str_eq, strs};
use crate::types::{Difficulty, QuizType};
use vstd::prelude::*;

verus! {

/// One quiz card of an atom.
#[derive(Debug)]
pub struct Quiz {
    pub id: String,
    pub difficulty: Difficulty,
    pub kind: Option<QuizType>,
    pub question: String,
    pub answer: String,
    pub rubric: Option<String>,
}

/// Quiz card as written in curriculum and overlay files.
#[derive(Debug)]
pub struct QuizRaw {
    pub id: String,
    pub difficulty: Difficulty,
    pub kind: Option<QuizType>,
    pub question: String,
    pub answer: String,
    pub rubric: Option<String>,
}

impl Quiz {
    /// The quiz card of a raw quiz, field for field.
    pub fn from_raw(q: QuizRaw) -> (r: Quiz)
        ensures
            r.id == q.id,
            r.difficulty == q.difficulty,
            r.kind == q.kind,
            r.question == q.question,
            r.answer == q.answer,
            r.rubric == q.rubric,
    {
        Quiz {
            id: q.id,
            difficulty: q.difficulty,
            kind: q.kind,
            question: q.question,
            answer: q.answer,
            rubric: q.rubric,
        }
    }
}

/// A concept of the flattened graph: a cluster (it has children) or an atom
/// (it has none).
#[derive(Debug)]
pub struct FlatConcept {
    pub id: String,
    pub name: String,
    pub description: Option<String>,
    pub prerequisites: Vec<String>,
    pub children_ids: Vec<String>,
    pub lesson: Option<String>,
    pub quizzes: Vec<Quiz>,
}

impl FlatConcept {
    /// An atom is a concept without children.
    pub open spec fn spec_is_atom(&self) -> bool {
        self.children_ids@.len() == 0
    }

    pub open spec fn prereqs(&self) -> Seq<Seq<char>> {
        strs(self.prerequisites@)
    }

    pub open spec fn children(&self) -> Seq<Seq<char>> {
        strs(self.children_ids@)
    }

    #[verifier::when_used_as_spec(spec_is_atom)]
    pub fn is_atom(&self) -> (r: bool)
        ensures
            r == self.spec_is_atom(),
    {
        self.children_ids.len() == 0
    }
}

/// The concepts of `s` keyed by id; a later concept replaces an earlier one
/// with the same id.
pub open spec fn concepts_map(s: Seq<FlatConcept>) -> Map<Seq<char>, FlatConcept>
    decreases s.len(),
{
    if s.len() == 0 {
        Map::empty()
    } else {
        concepts_map(s.drop_last()).insert(s.last().id@, s.last())
    }
}

/// The concepts of `g` named by `ps`, in order; ids it lacks are passed over.
pub open spec fn known_concepts(g: Map<Seq<char>, FlatConcept>, ps: Seq<Seq<char>>) -> Seq<FlatConcept>
    decreases ps.len(),
{
    if ps.len() == 0 {
        Seq::empty()
    } else if g.contains_key(ps.last()) {
        known_concepts(g, ps.drop_last()).push(g[ps.last()])
    } else {
        known_concepts(g, ps.drop_last())
    }
}

/// Position of `id` among the graph's concepts.
pub open spec fn pos(g: Graph, id: Seq<char>) -> int {
    choose|i: int| 0 <= i < g.nodes().len() && g.nodes()[i].id@ == id
}

/// Position of the first concept of `v` with id `id`.
fn index_in(v: &Vec<FlatConcept>, id: &str) -> (r: Option<usize>)
    ensures
        match r {
            Some(i) => i < v@.len() && v@[i as int].id@ == id@,
            None => forall|j: int| 0 <= j < v@.len() ==> v@[j].id@ != id@,
        },
{
    let mut i: usize = 0;
    while i < v.len()
        invariant
            i <= v@.len(),
            forall|j: int| 0 <= j < i ==> v@[j].id@ != id@,
        decreases v@.len() - i,
    {
        if str_eq(v[i].id.as_str(), id) {
            return Some(i);
        }
        i = i + 1;
    }
    None
}

/// Flattened lookup view: every concept (cluster and atom) keyed by id.
#[derive(Debug)]
pub struct Graph {
    by_id: Vec<FlatConcept>,
}

impl View for Graph {
    type V = Map<Seq<char>, FlatConcept>;

    open spec fn view(&self) -> Map<Seq<char>, FlatConcept> {
        Map::new(
            |k: Seq<char>| exists|i: int| 0 <= i < self.nodes().len() && self.nodes()[i].id@ == k,
            |k: Seq<char>|
                self.nodes()[choose|i: int| 0 <= i < self.nodes().len() && self.nodes()[i].id@ == k],
        )
    }
}

impl Graph {
    /// The concepts in storage order.
    pub closed spec fn nodes(&self) -> Seq<FlatConcept> {
        self.by_id@
    }

    /// No two concepts share an id.
    #[verifier::type_invariant]
    pub closed spec fn wf(&self) -> bool {
        forall|i: int, j: int|
            0 <= i < j < self.by_id@.len() ==> self.by_id@[i].id@ != self.by_id@[j].id@
    }

    /// Storage order and the keyed view agree.
    pub proof fn lemma_nodes(&self)
        requires
            self.wf(),
        ensures
            forall|i: int|
                #![trigger self.nodes()[i]]
                0 <= i < self.nodes().len() ==> self@.contains_key(self.nodes()[i].id@)
                    && self@[self.nodes()[i].id@] == self.nodes()[i],
            forall|i: int, j: int|
                0 <= i < self.nodes().len() && 0 <= j < self.nodes().len() && self.nodes()[i].id@
                    == self.nodes()[j].id@ ==> i == j,
            forall|k: Seq<char>|
                #![trigger self@.contains_key(k)]
                self@.contains_key(k) ==> exists|i: int|
                    0 <= i < self.nodes().len() && self.nodes()[i].id@ == k,
            self@.dom() == self.nodes().map_values(|c: FlatConcept| c.id@).to_set(),
            self@.dom().finite(),
    {
        assert forall|i: int|
            #![trigger self.nodes()[i]]
            0 <= i < self.nodes().len() implies self@.contains_key(self.nodes()[i].id@)
            && self@[self.nodes()[i].id@] == self.nodes()[i] by {
            let k = self.nodes()[i].id@;
            let j = choose|j: int| 0 <= j < self.nodes().len() && self.nodes()[j].id@ == k;
            if j < i {
            } else if i < j {
            }
        }
        assert forall|i: int, j: int|
            0 <= i < self.nodes().len() && 0 <= j < self.nodes().len() && self.nodes()[i].id@
                == self.nodes()[j].id@ implies i == j by {
            if i < j {
            } else if j < i {
            }
        }
        let ids = self.nodes().map_values(|c: FlatConcept| c.id@);
        assert forall|k: Seq<char>| self@.dom().contains(k) <==> ids.to_set().contains(k) by {
            if self@.dom().contains(k) {
                let i = choose|i: int| 0 <= i < self.nodes().len() && self.nodes()[i].id@ == k;
                assert(ids[i] == k);
            }
            if ids.to_set().contains(k) {
                let i = choose|i: int| 0 <= i < ids.len() && ids[i] == k;
                assert(self.nodes()[i].id@ == k);
            }
        }
        assert(self@.dom() =~= ids.to_set());
        ids.lemma_cardinality_of_set();
        vstd::seq_lib::seq_to_set_is_finite(ids);
    }

    /// The position of a stored concept's id is that concept's position.
    pub proof fn lemma_pos(&self, j: int)
        requires
            self.wf(),
            0 <= j < self.nodes().len(),
        ensures
            pos(*self, self.nodes()[j].id@) == j,
            self@.contains_key(self.nodes()[j].id@),
            self@[self.nodes()[j].id@] == self.nodes()[j],
    {
        self.lemma_nodes();
        let k = pos(*self, self.nodes()[j].id@);
        assert(0 <= k < self.nodes().len() && self.nodes()[k].id@ == self.nodes()[j].id@);
    }

    /// The empty graph.
    pub fn new() -> (g: Graph)
        ensures
            g@ == Map::<Seq<char>, FlatConcept>::empty(),
            g.nodes().len() == 0,
    {
        let g = Graph { by_id: Vec::new() };
        assert(g@ =~= Map::<Seq<char>, FlatConcept>::empty());
        g
    }

    /// Number of concepts.
    pub fn len(&self) -> (n: usize)
        ensures
            n == self.nodes().len(),
            n == self@.len(),
    {
        proof {
            use_type_invariant(self);
            self.lemma_nodes();
            let ids = self.nodes().map_values(|c: FlatConcept| c.id@);
            assert(ids.no_duplicates());
            ids.unique_seq_to_set();
        }
        self.by_id.len()
    }

    /// The concept stored at position `i`.
    pub fn node_at(&self, i: usize) -> (c: &FlatConcept)
        requires
            i < self.nodes().len(),
        ensures
            *c == self.nodes()[i as int],
            self@.contains_key(c.id@),
            self@[c.id@] == *c,
    {
        proof {
            use_type_invariant(self);
            self.lemma_nodes();
        }
        &self.by_id[i]
    }

    /// Position of the concept with id `id`.
    pub fn find(&self, id: &str) -> (r: Option<usize>)
        ensures
            match r {
                Some(i) => i < self.nodes().len() && self.nodes()[i as int].id@ == id@
                    && self@.contains_key(id@) && self@[id@] == self.nodes()[i as int],
                None => !self@.contains_key(id@),
            },
    {
        proof {
            use_type_invariant(self);
            self.lemma_nodes();
        }
        let mut i: usize = 0;
        while i < self.by_id.len()
            invariant
                i <= self.by_id@.len(),
                forall|j: int| 0 <= j < i ==> self.by_id@[j].id@ != id@,
            decreases self.by_id@.len() - i,
        {
            if str_eq(self.by_id[i].id.as_str(), id) {
                proof {
                    use_type_invariant(self);
                    self.lemma_nodes();
                    assert(self.nodes()[i as int] == self.by_id@[i as int]);
                }
                return Some(i);
            }
            i = i + 1;
        }
        None
    }

    /// The concept with id `id`, if any.
    pub fn get(&self, id: &str) -> (r: Option<&FlatConcept>)
        ensures
            match r {
                Some(c) => self@.contains_key(id@) && *c == self@[id@],
                None => !self@.contains_key(id@),
            },
    {
        match self.find(id) {
            Some(i) => Some(&self.by_id[i]),
            None => None,
        }
    }

    /// Whether the graph has a concept with id `id`.
    pub fn contains(&self, id: &str) -> (r: bool)
        ensures
            r == self@.contains_key(id@),
    {
        self.find(id).is_some()
    }

    /// Adds `c`, replacing any concept with the same id.
    pub fn insert(&mut self, c: FlatConcept)
        ensures
            final(self)@ == old(self)@.insert(c.id@, c),
    {
        proof {
            use_type_invariant(&*self);
            self.lemma_nodes();
        }
        let ghost old_map = self@;
        let mut v: Vec<FlatConcept> = Vec::new();
        std::mem::swap(&mut v, &mut self.by_id);
        let ghost old_v = v@;
        let found = index_in(&v, c.id.as_str());
        let ghost cid = c.id@;
        let ghost cc = c;
        match found {
            Some(i) => {
                v.set(i, c);
                self.by_id = v;
                assert forall|a: int, b: int|
                    0 <= a < b < self.by_id@.len() implies self.by_id@[a].id@
                    != self.by_id@[b].id@ by {
                    if a == i as int {
                        assert(old_v[a].id@ == cid);
                    } else if b == i as int {
                        assert(old_v[b].id@ == cid);
                    }
                }
                proof {
                    self.lemma_nodes();
                    assert forall|k: Seq<char>| #[trigger] self@.contains_key(k) == old_map.insert(cid, cc).contains_key(k) by {
                        if old_map.contains_key(k) {
                            let j = choose|j: int| 0 <= j < old_v.len() && old_v[j].id@ == k;
                            if j == i as int {
                                assert(self.nodes()[j].id@ == k);
                            } else {
                                assert(self.nodes()[j] == old_v[j]);
                            }
                        }
                        if self@.contains_key(k) {
                            let j = choose|j: int| 0 <= j < self.nodes().len() && self.nodes()[j].id@ == k;
                            if j != i as int {
                                assert(old_v[j].id@ == k);
                            }
                        }
                    }
                    assert forall|k: Seq<char>| #[trigger] self@.contains_key(k) implies self@[k] == old_map.insert(cid, cc)[k] by {
                        let j = choose|j: int| 0 <= j < self.nodes().len() && self.nodes()[j].id@ == k;
                        if j != i as int {
                            assert(old_v[j].id@ == k);
                            assert(old_v[j] == self.nodes()[j]);
                        }
                    }
                    assert(self@ =~= old_map.insert(cid, cc));
                }
            },
            None => {
                v.push(c);
                self.by_id = v;
                proof {
                    self.lemma_nodes();
                    let n = old_v.len() as int;
                    assert forall|k: Seq<char>| #[trigger] self@.contains_key(k) == old_map.insert(cid, cc).contains_key(k) by {
                        if old_map.contains_key(k) {
                            let j = choose|j: int| 0 <= j < old_v.len() && old_v[j].id@ == k;
                            assert(self.nodes()[j] == old_v[j]);
                        }
                        if self@.contains_key(k) {
                            let j = choose|j: int| 0 <= j < self.nodes().len() && self.nodes()[j].id@ == k;
                            if j != n {
                                assert(old_v[j].id@ == k);
                            }
                        }
                        if k == cid {
                            assert(self.nodes()[n].id@ == k);
                        }
                    }
                    assert forall|k: Seq<char>| #[trigger] self@.contains_key(k) implies self@[k] == old_map.insert(cid, cc)[k] by {
                        let j = choose|j: int| 0 <= j < self.nodes().len() && self.nodes()[j].id@ == k;
                        if j != n {
                            assert(old_v[j].id@ == k);
                            assert(old_v[j] == self.nodes()[j]);
                        }
                    }
                    assert(self@ =~= old_map.insert(cid, cc));
                }
            },
        }
    }

    /// Replaces the lesson and the quizzes of the concept with id `id`, if
    /// the graph has one; everything else stays.
    pub fn set_content(&mut self, id: &str, lesson: Option<String>, quizzes: Vec<Quiz>)
        ensures
            old(self)@.contains_key(id@) ==> final(self)@ == old(self)@.insert(
                id@,
                FlatConcept { lesson: lesson, quizzes: quizzes, ..old(self)@[id@] },
            ),
            !old(self)@.contains_key(id@) ==> final(self)@ == old(self)@,
    {
        proof {
            use_type_invariant(&*self);
            self.lemma_nodes();
        }
        let ghost old_map = self@;
        let i = match self.find(id) {
            None => return,
            Some(i) => i,
        };
        let mut v: Vec<FlatConcept> = Vec::new();
        std::mem::swap(&mut v, &mut self.by_id);
        let ghost old_v = v@;
        let c = v.remove(i);
        let ghost cc = c;
        let newc = FlatConcept {
            id: c.id,
            name: c.name,
            description: c.description,
            prerequisites: c.prerequisites,
            children_ids: c.children_ids,
            lesson,
            quizzes,
        };
        let ghost nc = newc;
        assert(nc == FlatConcept { lesson: lesson, quizzes: quizzes, ..old_map[id@] });
        v.insert(i, newc);
        assert(v@ =~= old_v.update(i as int, nc));
        self.by_id = v;
        let ghost cid = id@;
        assert forall|a: int, b: int| 0 <= a < b < self.by_id@.len() implies self.by_id@[a].id@ != self.by_id@[b].id@ by {
            if a == i as int {
                assert(old_v[a].id@ == cid);
            } else if b == i as int {
                assert(old_v[b].id@ == cid);
            }
        }
        proof {
            self.lemma_nodes();
            assert forall|k: Seq<char>| #[trigger] self@.contains_key(k) == old_map.insert(cid, nc).contains_key(k) by {
                if old_map.contains_key(k) {
                    let j = choose|j: int| 0 <= j < old_v.len() && old_v[j].id@ == k;
                    if j == i as int {
                        assert(self.nodes()[j].id@ == k);
                    } else {
                        assert(self.nodes()[j] == old_v[j]);
                    }
                }
                if self@.contains_key(k) {
                    let j = choose|j: int| 0 <= j < self.nodes().len() && self.nodes()[j].id@ == k;
                    if j != i as int {
                        assert(old_v[j].id@ == k);
                    }
                }
            }
            assert forall|k: Seq<char>| #[trigger] self@.contains_key(k) implies self@[k] == old_map.insert(cid, nc)[k] by {
                let j = choose|j: int| 0 <= j < self.nodes().len() && self.nodes()[j].id@ == k;
                if j != i as int {
                    assert(old_v[j].id@ == k);
                    assert(old_v[j] == self.nodes()[j]);
                }
            }
            assert(self@ =~= old_map.insert(cid, nc));
        }
    }

    /// The graph of the given concepts; a later concept replaces an earlier
    /// one with the same id.
    pub fn from_concepts(cs: Vec<FlatConcept>) -> (g: Graph)
        ensures
            g@ == concepts_map(cs@),
    {
        let mut g = Graph::new();
        let mut cs = cs;
        let n: usize = cs.len();
        let ghost all = cs@;
        assert(all.len() <= usize::MAX);
        let mut rest: Vec<FlatConcept> = Vec::new();
        // Reverse so that popping yields the concepts in their given order.
        while cs.len() > 0
            invariant
                strs(Seq::<String>::empty()) == Seq::<Seq<char>>::empty(),
                all.len() == cs@.len() + rest@.len(),
                forall|j: int| 0 <= j < cs@.len() ==> cs@[j] == all[j],
                forall|j: int| 0 <= j < rest@.len() ==> rest@[j] == all[all.len() - 1 - j],
            decreases cs@.len(),
        {
            let c = cs.pop().unwrap();
            rest.push(c);
        }
        let mut k: usize = 0;
        while rest.len() > 0
            invariant
                k + rest@.len() == all.len(),
                all.len() <= usize::MAX,
                forall|j: int| 0 <= j < rest@.len() ==> rest@[j] == all[all.len() - 1 - j],
                g@ == concepts_map(all.take(k as int)),
            decreases rest@.len(),
        {
            let c = rest.pop().unwrap();
            assert(c == all[k as int]);
            assert(all.take(k + 1).drop_last() =~= all.take(k as int));
            g.insert(c);
            k = k + 1;
        }
        assert(all.take(k as int) =~= all);
        g
    }

    /// The atom with id `id`: `AtomNotFound` when the graph has no such
    /// concept, `NotAtom` when it is a cluster.
    pub fn atom(&self, id: &str) -> (r: Result<&FlatConcept, Error>)
        ensures
            match r {
                Ok(c) => self@.contains_key(id@) && *c == self@[id@] && c.spec_is_atom(),
                Err(e) => if !self@.contains_key(id@) {
                    e matches Error::AtomNotFound(x) && x@ == id@
                } else {
                    !self@[id@].spec_is_atom() && (e matches Error::NotAtom(x) && x@ == id@)
                },
            },
    {
        match self.get(id) {
            None => Err(Error::AtomNotFound(crate::ids::to_owned(id))),
            Some(c) => {
                if c.is_atom() {
                    Ok(c)
                } else {
                    Err(Error::NotAtom(crate::ids::to_owned(id)))
                }
            },
        }
    }

    /// The atom owning quiz `quiz_id` and the quiz itself. The atom id is
    /// the text before the last `.q`; a quiz id without `.q` is
    /// `UnknownId`, an atom missing from the graph is `AtomNotFound`, and a
    /// quiz the atom does not have is `UnknownId`.
    pub fn quiz(&self, quiz_id: &str) -> (r: Result<(&FlatConcept, &Quiz), Error>)
        ensures
            match spec_atom_of_quiz(quiz_id@) {
                None => r matches Err(e) && (e matches Error::UnknownId(x) && x@ == quiz_id@),
                Some(a) => if !self@.contains_key(a) {
                    r matches Err(e) && (e matches Error::AtomNotFound(x) && x@ == a)
                } else if exists|j: int|
                    0 <= j < self@[a].quizzes@.len() && self@[a].quizzes@[j].id@ == quiz_id@ {
                    r matches Ok((c, q)) && *c == self@[a] && exists|j: int|
                        0 <= j < c.quizzes@.len() && c.quizzes@[j] == *q && q.id@ == quiz_id@
                        && forall|i: int| 0 <= i < j ==> c.quizzes@[i].id@ != quiz_id@
                } else {
                    r matches Err(e) && (e matches Error::UnknownId(x) && x@ == quiz_id@)
                },
            },
    {
        let r0 = atom_from_quiz_id(quiz_id);
        let atom_id = match r0 {
            Some(a) => a,
            None => return Err(Error::UnknownId(crate::ids::to_owned(quiz_id))),
        };
        assert(spec_atom_of_quiz(quiz_id@) == Some(atom_id@));
        let c = match self.get(atom_id.as_str()) {
            Some(c) => c,
            None => return Err(Error::AtomNotFound(atom_id)),
        };
        let mut j: usize = 0;
        while j < c.quizzes.len()
            invariant
                j <= c.quizzes@.len(),
                forall|i: int| 0 <= i < j ==> c.quizzes@[i].id@ != quiz_id@,
                spec_atom_of_quiz(quiz_id@) == Some(atom_id@),
                self@.contains_key(atom_id@),
                *c == self@[atom_id@],
            decreases c.quizzes@.len() - j,
        {
            if str_eq(c.quizzes[j].id.as_str(), quiz_id) {
                assert(c.quizzes@[j as int].id@ == quiz_id@);
                return Ok((c, &c.quizzes[j]));
            }
            j = j + 1;
        }
        Err(Error::UnknownId(crate::ids::to_owned(quiz_id)))
    }
}

} // verus!
