//! Reachability over the curriculum graph: the targets plus everything their
//! prerequisites lead to, with clusters standing for their atoms.
use crate::graph::{pos, FlatConcept, Graph};
use crate::error::Error;
use crate::ids::{copy, is_dotted_prefix, strs, to_owned, IdSet};
use crate::scheduler::{lemma_unvisited_update, unvisited};
use vstd::prelude::*;

verus! {

/// `y` follows `x`: both are concepts of `g`, and `y` is a child of `x` or,
/// when `all` holds, a prerequisite of `x`. A cluster given as a
/// prerequisite thereby stands for all of its atoms.
pub open spec fn succ(g: Map<Seq<char>, FlatConcept>, all: bool, x: Seq<char>, y: Seq<char>) -> bool {
    &&& g.contains_key(x)
    &&& g.contains_key(y)
    &&& ((all && g[x].prereqs().contains(y)) || g[x].children().contains(y))
}

/// `w` starts at one of `targets` present in `g` and follows `succ`.
pub open spec fn is_walk(g: Map<Seq<char>, FlatConcept>, all: bool, targets: Seq<Seq<char>>, w: Seq<Seq<char>>) -> bool {
    &&& w.len() > 0
    &&& targets.contains(w[0])
    &&& g.contains_key(w[0])
    &&& forall|i: int| 0 <= i < w.len() - 1 ==> #[trigger] succ(g, all, w[i], w[i + 1])
}

/// Some walk from the targets ends at `id`.
pub open spec fn reaches(g: Map<Seq<char>, FlatConcept>, all: bool, targets: Seq<Seq<char>>, id: Seq<char>) -> bool {
    exists|w: Seq<Seq<char>>| is_walk(g, all, targets, w) && w.last() == id
}

/// The atoms that the targets reach.
pub open spec fn reachable_atom_set(g: Map<Seq<char>, FlatConcept>, targets: Seq<Seq<char>>) -> Set<Seq<char>> {
    Set::new(|x: Seq<char>| reaches(g, true, targets, x) && g[x].spec_is_atom())
}

/// A target present in the graph is reached.
pub proof fn lemma_reach_target(g: Map<Seq<char>, FlatConcept>, all: bool, targets: Seq<Seq<char>>, t: Seq<char>)
    requires
        targets.contains(t),
        g.contains_key(t),
    ensures
        reaches(g, all, targets, t),
{
    let w = seq![t];
    assert(is_walk(g, all, targets, w));
    assert(w.last() == t);
}

/// What follows a reached concept is reached.
pub proof fn lemma_reach_step(g: Map<Seq<char>, FlatConcept>, all: bool, targets: Seq<Seq<char>>, x: Seq<char>, y: Seq<char>)
    requires
        reaches(g, all, targets, x),
        succ(g, all, x, y),
    ensures
        reaches(g, all, targets, y),
{
    let w = choose|w: Seq<Seq<char>>| is_walk(g, all, targets, w) && w.last() == x;
    let w2 = w.push(y);
    assert forall|i: int| 0 <= i < w2.len() - 1 implies #[trigger] succ(g, all, w2[i], w2[i + 1]) by {
        if i < w.len() - 1 {
            assert(w2[i] == w[i] && w2[i + 1] == w[i + 1]);
        } else {
            assert(w2[i] == x && w2[i + 1] == y);
        }
    }
    assert(is_walk(g, all, targets, w2));
    assert(w2.last() == y);
}

/// A reached concept is in the graph.
pub proof fn lemma_reach_in_graph(g: Map<Seq<char>, FlatConcept>, all: bool, targets: Seq<Seq<char>>, x: Seq<char>)
    requires
        reaches(g, all, targets, x),
    ensures
        g.contains_key(x),
{
    let w = choose|w: Seq<Seq<char>>| is_walk(g, all, targets, w) && w.last() == x;
    if w.len() > 1 {
        assert(succ(g, all, w[w.len() - 2], w[w.len() - 2 + 1]));
    }
}

/// A set that holds the targets present in the graph and is closed under
/// `succ` holds every concept the targets reach.
pub proof fn lemma_closed_holds_reach(g: Map<Seq<char>, FlatConcept>, all: bool, targets: Seq<Seq<char>>, s: Set<Seq<char>>, x: Seq<char>)
    requires
        forall|t: Seq<char>| targets.contains(t) && g.contains_key(t) ==> #[trigger] s.contains(t),
        forall|a: Seq<char>, b: Seq<char>| #![trigger s.contains(a), succ(g, all, a, b)] s.contains(a) && succ(g, all, a, b) ==> s.contains(b),
        reaches(g, all, targets, x),
    ensures
        s.contains(x),
{
    let w = choose|w: Seq<Seq<char>>| is_walk(g, all, targets, w) && w.last() == x;
    lemma_walk_in(g, all, targets, s, w);
}

proof fn lemma_walk_in(g: Map<Seq<char>, FlatConcept>, all: bool, targets: Seq<Seq<char>>, s: Set<Seq<char>>, w: Seq<Seq<char>>)
    requires
        forall|t: Seq<char>| targets.contains(t) && g.contains_key(t) ==> #[trigger] s.contains(t),
        forall|a: Seq<char>, b: Seq<char>| #![trigger s.contains(a), succ(g, all, a, b)] s.contains(a) && succ(g, all, a, b) ==> s.contains(b),
        is_walk(g, all, targets, w),
    ensures
        s.contains(w.last()),
    decreases w.len(),
{
    if w.len() > 1 {
        let v = w.drop_last();
        assert forall|i: int| 0 <= i < v.len() - 1 implies #[trigger] succ(g, all, v[i], v[i + 1]) by {
            assert(succ(g, all, w[i], w[i + 1]));
        }
        lemma_walk_in(g, all, targets, s, v);
        assert(succ(g, all, w[w.len() - 2], w[w.len() - 2 + 1]));
    }
}

/// Marks every id of `ids` present in `g` as seen, pushing the position of
/// each newly seen concept onto `stack`.
fn mark_ids(
    g: &Graph,
    ids: &[String],
    seen: &mut Vec<bool>,
    stack: &mut Vec<usize>,
    Ghost(t): Ghost<Seq<Seq<char>>>,
    Ghost(all): Ghost<bool>,
)
    requires
        old(seen)@.len() == g.nodes().len(),
        forall|k: int| 0 <= k < ids@.len() && g@.contains_key(#[trigger] ids@[k]@) ==> reaches(g@, all, t, ids@[k]@),
    ensures
        final(seen)@.len() == old(seen)@.len(),
        forall|j: int| 0 <= j < old(seen)@.len() && old(seen)@[j] ==> #[trigger] final(seen)@[j],
        forall|j: int|
            0 <= j < old(seen)@.len() && #[trigger] final(seen)@[j] && !old(seen)@[j] ==> reaches(g@, all, t, g.nodes()[j].id@)
                && final(stack)@.contains(j as usize),
        final(stack)@.len() >= old(stack)@.len(),
        forall|k: int| 0 <= k < old(stack)@.len() ==> #[trigger] final(stack)@[k] == old(stack)@[k],
        forall|k: int|
            old(stack)@.len() <= k < final(stack)@.len() ==> #[trigger] final(stack)@[k] < g.nodes().len() && final(seen)@[final(stack)@[k] as int],
        forall|k: int| 0 <= k < ids@.len() && g@.contains_key(#[trigger] ids@[k]@) ==> final(seen)@[pos(*g, ids@[k]@)],
        unvisited(final(seen)@) + (final(stack)@.len() - old(stack)@.len()) == unvisited(old(seen)@),
{
    proof {
        use_type_invariant(g);
        g.lemma_nodes();
    }
    let ghost s0 = seen@;
    let ghost st0 = stack@;
    let mut k: usize = 0;
    while k < ids.len()
        invariant
            k <= ids@.len(),
            s0 == old(seen)@,
            st0 == old(stack)@,
            g.wf(),
            seen@.len() == s0.len(),
            s0.len() == g.nodes().len(),
            forall|k: int| 0 <= k < ids@.len() && g@.contains_key(#[trigger] ids@[k]@) ==> reaches(g@, all, t, ids@[k]@),
            forall|j: int| 0 <= j < s0.len() && s0[j] ==> #[trigger] seen@[j],
            forall|j: int|
                0 <= j < s0.len() && #[trigger] seen@[j] && !s0[j] ==> reaches(g@, all, t, g.nodes()[j].id@)
                    && stack@.contains(j as usize),
            stack@.len() >= st0.len(),
            forall|i: int| 0 <= i < st0.len() ==> #[trigger] stack@[i] == st0[i],
            forall|i: int| st0.len() <= i < stack@.len() ==> #[trigger] stack@[i] < g.nodes().len() && seen@[stack@[i] as int],
            forall|i: int| 0 <= i < k && g@.contains_key(#[trigger] ids@[i]@) ==> seen@[pos(*g, ids@[i]@)],
            unvisited(seen@) + (stack@.len() - st0.len()) == unvisited(s0),
        decreases ids@.len() - k,
    {
        match g.find(ids[k].as_str()) {
            None => {},
            Some(j) => {
                proof {
                    g.lemma_pos(j as int);
                }
                if !seen[j] {
                    proof {
                        lemma_unvisited_update(seen@, j as int);
                    }
                    let ghost sb = seen@;
                    let ghost stb = stack@;
                    seen.set(j, true);
                    stack.push(j);
                    assert forall|i: int| 0 <= i < stb.len() implies stack@[i] == stb[i] by {}
                    assert(stack@[stack@.len() - 1] == j);
                    assert forall|x: int|
                        0 <= x < s0.len() && #[trigger] seen@[x] && !s0[x] implies reaches(g@, all, t, g.nodes()[x].id@)
                            && stack@.contains(x as usize) by {
                        if x != j as int {
                            assert(sb[x]);
                            assert(stb.contains(x as usize));
                            let p = choose|p: int| 0 <= p < stb.len() && stb[p] == x as usize;
                            assert(stack@[p] == x as usize);
                        } else {
                            assert(stack@[stack@.len() - 1] == x as usize);
                        }
                    }
                }
            },
        }
        k = k + 1;
    }
}

impl Graph {
    /// Marks, by position, every concept that a walk from `targets` reaches:
    /// along children only, or along prerequisites and children when `all`
    /// holds.
    fn closure(&self, targets: &[String], all: bool) -> (seen: Vec<bool>)
        ensures
            seen@.len() == self.nodes().len(),
            forall|j: int|
                0 <= j < self.nodes().len() ==> #[trigger] seen@[j] == reaches(self@, all, strs(targets@), self.nodes()[j].id@),
    {
        proof {
            use_type_invariant(self);
            self.lemma_nodes();
        }
        let ghost t = strs(targets@);
        let n = self.len();
        let mut seen: Vec<bool> = Vec::new();
        let mut j: usize = 0;
        while j < n
            invariant
                j <= n,
                seen@.len() == j,
                forall|x: int| 0 <= x < j ==> !seen@[x],
            decreases n - j,
        {
            seen.push(false);
            j = j + 1;
        }
        let mut stack: Vec<usize> = Vec::new();
        proof {
            assert forall|k: int| 0 <= k < targets@.len() && self@.contains_key(#[trigger] targets@[k]@) implies reaches(self@, all, t, targets@[k]@) by {
                assert(t[k] == targets@[k]@);
                lemma_reach_target(self@, all, t, targets@[k]@);
            }
        }
        mark_ids(self, targets, &mut seen, &mut stack, Ghost(t), Ghost(all));
        proof {
            assert forall|x: Seq<char>| t.contains(x) && self@.contains_key(x) implies seen@[pos(*self, x)] by {
                let k = choose|k: int| 0 <= k < t.len() && t[k] == x;
                assert(targets@[k]@ == x);
            }
        }
        while stack.len() > 0
            invariant
                self.wf(),
                t == strs(targets@),
                seen@.len() == n,
                n == self.nodes().len(),
                forall|k: int| 0 <= k < stack@.len() ==> #[trigger] stack@[k] < n && seen@[stack@[k] as int],
                forall|j: int| 0 <= j < n && #[trigger] seen@[j] ==> reaches(self@, all, t, self.nodes()[j].id@),
                forall|x: Seq<char>| t.contains(x) && self@.contains_key(x) ==> seen@[pos(*self, x)],
                forall|j: int, y: Seq<char>|
                    #![trigger seen@[j], succ(self@, all, self.nodes()[j].id@, y)]
                    0 <= j < n && seen@[j] && !stack@.contains(j as usize) && succ(self@, all, self.nodes()[j].id@, y) ==> seen@[pos(*self, y)],
            decreases 2 * unvisited(seen@) + stack@.len(),
        {
            let ghost st_before = stack@;
            let ghost seen_before = seen@;
            let i = stack.pop().unwrap();
            assert(st_before =~= stack@.push(i));
            let c = self.node_at(i);
            let ghost x = c.id@;
            let ghost st1 = stack@;
            if all {
                proof {
                    assert(seen@[i as int]);
                    assert(reaches(self@, all, t, x));
                    assert forall|k: int| 0 <= k < c.prerequisites@.len() && self@.contains_key(#[trigger] c.prerequisites@[k]@) implies reaches(self@, all, t, c.prerequisites@[k]@) by {
                        assert(c.prereqs()[k] == c.prerequisites@[k]@);
                        assert(succ(self@, all, x, c.prerequisites@[k]@));
                        lemma_reach_step(self@, all, t, x, c.prerequisites@[k]@);
                    }
                }
                mark_ids(self, c.prerequisites.as_slice(), &mut seen, &mut stack, Ghost(t), Ghost(all));
            }
            let ghost seen_mid = seen@;
            let ghost st2 = stack@;
            proof {
                assert(seen@[i as int]);
                assert(reaches(self@, all, t, x));
                assert forall|k: int| 0 <= k < c.children_ids@.len() && self@.contains_key(#[trigger] c.children_ids@[k]@) implies reaches(self@, all, t, c.children_ids@[k]@) by {
                    assert(c.children()[k] == c.children_ids@[k]@);
                    assert(succ(self@, all, x, c.children_ids@[k]@));
                    lemma_reach_step(self@, all, t, x, c.children_ids@[k]@);
                }
            }
            mark_ids(self, c.children_ids.as_slice(), &mut seen, &mut stack, Ghost(t), Ghost(all));
            proof {
                assert forall|k: int| 0 <= k < stack@.len() implies #[trigger] stack@[k] < n && seen@[stack@[k] as int] by {
                    if k < st1.len() {
                        assert(stack@[k] == st2[k]);
                        assert(st2[k] == st1[k]);
                    } else if k < st2.len() {
                        assert(stack@[k] == st2[k]);
                    }
                }
                assert forall|j: int| 0 <= j < n && #[trigger] seen@[j] implies reaches(self@, all, t, self.nodes()[j].id@) by {
                    if !seen_mid[j] {
                    } else if !seen_before[j] {
                    }
                }
                assert forall|j: int, y: Seq<char>|
                    #![trigger seen@[j], succ(self@, all, self.nodes()[j].id@, y)]
                    0 <= j < n && seen@[j] && !stack@.contains(j as usize) && succ(self@, all, self.nodes()[j].id@, y) implies seen@[pos(*self, y)] by {
                    if j == i as int {
                        if all && c.prereqs().contains(y) {
                            let k = choose|k: int| 0 <= k < c.prereqs().len() && c.prereqs()[k] == y;
                            assert(c.prerequisites@[k]@ == y);
                            assert(seen_mid[pos(*self, y)]);
                        } else {
                            let k = choose|k: int| 0 <= k < c.children().len() && c.children()[k] == y;
                            assert(c.children_ids@[k]@ == y);
                        }
                    } else {
                        if !seen_before[j] {
                            if seen_mid[j] {
                                assert(st2.contains(j as usize));
                                let p = choose|p: int| 0 <= p < st2.len() && st2[p] == j as usize;
                                assert(stack@[p] == j as usize);
                            } else {
                                assert(stack@.contains(j as usize));
                            }
                        } else {
                            if st_before.contains(j as usize) {
                                let p = choose|p: int| 0 <= p < st_before.len() && st_before[p] == j as usize;
                                assert(p < st1.len());
                                assert(stack@[p] == j as usize);
                            }
                            assert(seen_before[pos(*self, y)]);
                        }
                    }
                }
            }
        }
        // Every seen concept is reached, and the seen set is closed, so the
        // seen set is exactly the reached set.
        let ghost s = Set::new(|x: Seq<char>| self@.contains_key(x) && seen@[pos(*self, x)]);
        proof {
            assert forall|a: Seq<char>, b: Seq<char>| #![trigger s.contains(a), succ(self@, all, a, b)] s.contains(a) && succ(self@, all, a, b) implies s.contains(b) by {
                let j = pos(*self, a);
                assert(self.nodes()[j].id@ == a);
                assert(seen@[j] && succ(self@, all, self.nodes()[j].id@, b));
            }
            assert forall|j: int| 0 <= j < n implies #[trigger] seen@[j] == reaches(self@, all, t, self.nodes()[j].id@) by {
                self.lemma_pos(j);
                if reaches(self@, all, t, self.nodes()[j].id@) {
                    lemma_closed_holds_reach(self@, all, t, s, self.nodes()[j].id@);
                }
            }
        }
        seen
    }

    /// The ids of the atoms marked in `seen`, in storage order.
    fn marked_atoms(&self, seen: &Vec<bool>) -> (r: IdSet)
        requires
            seen@.len() == self.nodes().len(),
        ensures
            r@ == Set::new(|x: Seq<char>| self@.contains_key(x) && seen@[pos(*self, x)] && self@[x].spec_is_atom()),
    {
        proof {
            use_type_invariant(self);
            self.lemma_nodes();
        }
        let n = self.len();
        let mut out = IdSet::new();
        let mut j: usize = 0;
        while j < n
            invariant
                self.wf(),
                j <= n,
                n == self.nodes().len(),
                seen@.len() == n,
                out@ == Set::new(|x: Seq<char>| self@.contains_key(x) && pos(*self, x) < j && seen@[pos(*self, x)] && self@[x].spec_is_atom()),
            decreases n - j,
        {
            let c = self.node_at(j);
            proof {
                self.lemma_pos(j as int);
            }
            if seen[j] && c.is_atom() {
                out.insert(c.id.as_str());
            }
            let ghost jj = j as int;
            assert(out@ =~= Set::new(|x: Seq<char>| self@.contains_key(x) && pos(*self, x) < jj + 1 && seen@[pos(*self, x)] && self@[x].spec_is_atom())) by {
                assert forall|x: Seq<char>| self@.contains_key(x) && pos(*self, x) == jj implies x == c.id@ by {
                    self.lemma_nodes();
                    assert(self.nodes()[pos(*self, x)].id@ == x);
                }
            }
            j = j + 1;
        }
        proof {
            assert forall|x: Seq<char>| self@.contains_key(x) implies pos(*self, x) < n by {
                assert(exists|i: int| 0 <= i < self.nodes().len() && self.nodes()[i].id@ == x);
            }
            assert(out@ =~= Set::new(|x: Seq<char>| self@.contains_key(x) && seen@[pos(*self, x)] && self@[x].spec_is_atom()));
        }
        out
    }

    /// The atoms that a walk from `targets` reaches (see `closure`).
    fn reached_atoms(&self, targets: &[String], all: bool) -> (r: IdSet)
        ensures
            r@ == Set::new(|x: Seq<char>| reaches(self@, all, strs(targets@), x) && self@[x].spec_is_atom()),
    {
        let seen = self.closure(targets, all);
        let r = self.marked_atoms(&seen);
        proof {
            use_type_invariant(self);
            self.lemma_nodes();
            let t = strs(targets@);
            let want = Set::new(|x: Seq<char>| reaches(self@, all, t, x) && self@[x].spec_is_atom());
            assert forall|x: Seq<char>| r@.contains(x) == want.contains(x) by {
                if self@.contains_key(x) {
                    assert(exists|i: int| 0 <= i < self.nodes().len() && self.nodes()[i].id@ == x);
                    let p = pos(*self, x);
                    assert(0 <= p < self.nodes().len() && self.nodes()[p].id@ == x);
                    assert(seen@[p] == reaches(self@, all, t, self.nodes()[p].id@));
                }
                if reaches(self@, all, t, x) {
                    lemma_reach_in_graph(self@, all, t, x);
                }
            }
            assert(r@ =~= want);
        }
        r
    }

    /// Targets plus the transitive closure of their prerequisites, as the
    /// set of atoms (no clusters). A cluster met on the way (as a target or
    /// as a prerequisite) stands for all of its atoms, and its own
    /// prerequisites are followed as well. Ids absent from the graph are
    /// passed over.
    pub fn reachable_atoms(&self, targets: &[String]) -> (r: IdSet)
        ensures
            r@ == reachable_atom_set(self@, strs(targets@)),
    {
        self.reached_atoms(targets, true)
    }

    /// The atoms under one target id (see `atoms_under`).
    pub fn atoms_under(&self, id: &str) -> (r: IdSet)
        ensures
            r@ == atoms_under(self@, id@),
    {
        if self.contains(id) {
            let one: Vec<String> = vec![to_owned(id)];
            assert(strs(one@) =~= seq![id@]);
            self.reached_atoms(one.as_slice(), false)
        } else {
            proof {
                use_type_invariant(self);
                self.lemma_nodes();
            }
            let n = self.len();
            let mut out = IdSet::new();
            let mut j: usize = 0;
            while j < n
                invariant
                    self.wf(),
                    !self@.contains_key(id@),
                    j <= n,
                    n == self.nodes().len(),
                    out@ == Set::new(|x: Seq<char>| self@.contains_key(x) && pos(*self, x) < j && self@[x].spec_is_atom() && id@.push('.').is_prefix_of(x)),
                decreases n - j,
            {
                let c = self.node_at(j);
                proof {
                    self.lemma_pos(j as int);
                }
                if c.is_atom() && is_dotted_prefix(id, c.id.as_str()) {
                    out.insert(c.id.as_str());
                }
                let ghost jj = j as int;
                assert(out@ =~= Set::new(|x: Seq<char>| self@.contains_key(x) && pos(*self, x) < jj + 1 && self@[x].spec_is_atom() && id@.push('.').is_prefix_of(x))) by {
                    assert forall|x: Seq<char>| self@.contains_key(x) && pos(*self, x) == jj implies x == c.id@ by {
                        self.lemma_nodes();
                        assert(self.nodes()[pos(*self, x)].id@ == x);
                    }
                }
                j = j + 1;
            }
            proof {
                self.lemma_nodes();
                assert forall|x: Seq<char>| self@.contains_key(x) implies pos(*self, x) < n by {
                    assert(exists|i: int| 0 <= i < self.nodes().len() && self.nodes()[i].id@ == x);
                }
                assert(out@ =~= atoms_under(self@, id@));
            }
            out
        }
    }

    /// Expands target ids to the deduplicated atoms they stand for: an atom
    /// stands for itself, a cluster for its atomic descendants, and an id
    /// outside the graph for the atoms of the area it prefixes. The first id
    /// that stands for no atom is an error: `EmptyCluster` for a concept of
    /// the graph, `UnknownId` otherwise.
    pub fn expand_to_atoms(&self, ids: &[String]) -> (r: Result<Vec<String>, Error>)
        ensures
            match first_empty(self@, strs(ids@), 0) {
                Some(k) => r matches Err(e) && (if self@.contains_key(ids@[k]@) {
                    e matches Error::EmptyCluster(x) && x@ == ids@[k]@
                } else {
                    e matches Error::UnknownId(x) && x@ == ids@[k]@
                }),
                None => r matches Ok(v) && strs(v@).no_duplicates() && strs(v@).to_set() == expansion(self@, strs(ids@)),
            },
    {
        let ghost t = strs(ids@);
        let mut out = IdSet::new();
        let mut k: usize = 0;
        proof {
            assert(expansion(self@, t.take(0)) =~= Set::<Seq<char>>::empty());
        }
        while k < ids.len()
            invariant
                t == strs(ids@),
                k <= ids@.len(),
                first_empty(self@, t, 0) == first_empty(self@, t, k as int),
                out@ == expansion(self@, t.take(k as int)),
            decreases ids@.len() - k,
        {
            let part = self.atoms_under(ids[k].as_str());
            assert(ids@[k as int]@ == t[k as int]);
            if part.is_empty() {
                if self.contains(ids[k].as_str()) {
                    return Err(Error::EmptyCluster(copy(&ids[k])));
                } else {
                    return Err(Error::UnknownId(copy(&ids[k])));
                }
            }
            out.extend(&part);
            proof {
                lemma_expansion_step(self@, t, k as int);
            }
            k = k + 1;
        }
        proof {
            assert(t.take(ids@.len() as int) =~= t);
        }
        Ok(out.to_vec())
    }
}

/// The atoms one target id stands for: when `id` is a concept of `g`, the
/// atoms among it and its descendants; otherwise, reading `id` as an area
/// prefix, the atoms whose id extends it by a dot.
pub open spec fn atoms_under(g: Map<Seq<char>, FlatConcept>, id: Seq<char>) -> Set<Seq<char>> {
    if g.contains_key(id) {
        Set::new(|x: Seq<char>| reaches(g, false, seq![id], x) && g[x].spec_is_atom())
    } else {
        Set::new(|x: Seq<char>| g.contains_key(x) && g[x].spec_is_atom() && id.push('.').is_prefix_of(x))
    }
}

/// The atoms a list of target ids stands for.
pub open spec fn expansion(g: Map<Seq<char>, FlatConcept>, ids: Seq<Seq<char>>) -> Set<Seq<char>> {
    Set::new(|x: Seq<char>| exists|k: int| 0 <= k < ids.len() && #[trigger] atoms_under(g, ids[k]).contains(x))
}

/// Position of the first of `ids[k..]` that stands for no atom.
pub open spec fn first_empty(g: Map<Seq<char>, FlatConcept>, ids: Seq<Seq<char>>, k: int) -> Option<int>
    decreases ids.len() - k,
{
    if k < 0 || k >= ids.len() {
        None
    } else if atoms_under(g, ids[k]) == Set::<Seq<char>>::empty() {
        Some(k)
    } else {
        first_empty(g, ids, k + 1)
    }
}

/// The position `first_empty` finds is in range and stands for no atom.
pub proof fn lemma_first_empty(g: Map<Seq<char>, FlatConcept>, ids: Seq<Seq<char>>, k: int)
    ensures
        first_empty(g, ids, k) matches Some(j) ==> 0 <= k <= j < ids.len() && atoms_under(g, ids[j]) == Set::<Seq<char>>::empty(),
    decreases ids.len() - k,
{
    if 0 <= k < ids.len() {
        lemma_first_empty(g, ids, k + 1);
    }
}

proof fn lemma_expansion_step(g: Map<Seq<char>, FlatConcept>, ids: Seq<Seq<char>>, k: int)
    requires
        0 <= k < ids.len(),
    ensures
        expansion(g, ids.take(k + 1)) == expansion(g, ids.take(k)).union(atoms_under(g, ids[k])),
{
    let a = ids.take(k + 1);
    let b = ids.take(k);
    assert forall|x: Seq<char>| expansion(g, a).contains(x) == expansion(g, b).union(atoms_under(g, ids[k])).contains(x) by {
        if expansion(g, a).contains(x) {
            let i = choose|i: int| 0 <= i < a.len() && #[trigger] atoms_under(g, a[i]).contains(x);
            if i < k {
                assert(b[i] == a[i]);
            }
        }
        if expansion(g, b).contains(x) {
            let i = choose|i: int| 0 <= i < b.len() && #[trigger] atoms_under(g, b[i]).contains(x);
            assert(a[i] == b[i]);
        }
        if atoms_under(g, ids[k]).contains(x) {
            assert(a[k] == ids[k]);
        }
    }
    assert(expansion(g, a) =~= expansion(g, b).union(atoms_under(g, ids[k])));
}

/// Following a walk of children from a reached concept stays reached.
proof fn lemma_children_walk_reached(g: Map<Seq<char>, FlatConcept>, ts: Seq<Seq<char>>, p: Seq<char>, w: Seq<Seq<char>>)
    requires
        reaches(g, true, ts, p),
        is_walk(g, false, seq![p], w),
    ensures
        reaches(g, true, ts, w.last()),
    decreases w.len(),
{
    if w.len() == 1 {
        assert(seq![p].contains(w[0]));
        assert(w[0] == p);
    } else {
        let v = w.drop_last();
        assert forall|i: int| 0 <= i < v.len() - 1 implies #[trigger] succ(g, false, v[i], v[i + 1]) by {
            assert(succ(g, false, w[i], w[i + 1]));
        }
        lemma_children_walk_reached(g, ts, p, v);
        assert(succ(g, false, w[w.len() - 2], w[w.len() - 2 + 1]));
        lemma_reach_step(g, true, ts, v.last(), w.last());
    }
}

/// The reachable atoms of a target list: each target that is an atom of
/// the graph is one of them, every member is an atom of the graph, and
/// the set is closed under prerequisites: every atom at or below a
/// prerequisite of a member is a member too.
pub proof fn law_reachable_closed(g: Map<Seq<char>, FlatConcept>, ts: Seq<Seq<char>>, a: Seq<char>, p: Seq<char>)
    ensures
        ts.contains(a) && g.contains_key(a) && g[a].spec_is_atom() ==> reachable_atom_set(g, ts).contains(a),
        reachable_atom_set(g, ts).contains(a) ==> g.contains_key(a) && g[a].spec_is_atom(),
        reachable_atom_set(g, ts).contains(a) && g[a].prereqs().contains(p) && g.contains_key(p)
            ==> atoms_under(g, p).subset_of(reachable_atom_set(g, ts)),
{
    if ts.contains(a) && g.contains_key(a) {
        lemma_reach_target(g, true, ts, a);
    }
    if reachable_atom_set(g, ts).contains(a) {
        lemma_reach_in_graph(g, true, ts, a);
        if g[a].prereqs().contains(p) && g.contains_key(p) {
            lemma_reach_step(g, true, ts, a, p);
            assert forall|x: Seq<char>| atoms_under(g, p).contains(x) implies reachable_atom_set(g, ts).contains(x) by {
                let w = choose|w: Seq<Seq<char>>| is_walk(g, false, seq![p], w) && w.last() == x;
                lemma_children_walk_reached(g, ts, p, w);
            }
        }
    }
}

} // verus!
