//! Learning paths: the learner's goal and targets plus the traversal
//! strategy, and the resolution of stored targets to an ordered list of
//! atoms.
use crate::error::Error;
use crate::graph::{FlatConcept, Graph};
use crate::ids::{copy, lemma_str_lt_order, str_less, str_lt, strs, vec_position, IdSet};
use crate::reach::{expansion, first_empty};
use crate::scheduler::{lemma_unvisited_update, unvisited};
use crate::types::Strategy;
use vstd::prelude::*;

verus! {

/// Per-path record: the learner's goal and targets (fixed at creation)
/// plus the mutable navigation `strategy`. `targets` holds the ids the
/// learner chose verbatim (atoms, clusters or area roots); `created_at`
/// is an RFC 3339 UTC timestamp.
#[derive(Debug)]
pub struct PathFile {
    pub id: String,
    pub goal: String,
    pub created_at: String,
    pub targets: Vec<String>,
    pub strategy: Strategy,
}

/// The ids of `s` with later repeats dropped, first occurrences kept in
/// order.
pub open spec fn dedup(s: Seq<Seq<char>>) -> Seq<Seq<char>>
    decreases s.len(),
{
    if s.len() == 0 {
        s
    } else if dedup(s.drop_last()).contains(s.last()) {
        dedup(s.drop_last())
    } else {
        dedup(s.drop_last()).push(s.last())
    }
}

/// Deduplicate `ids` while preserving first-seen order.
pub fn dedup_preserving_order(ids: &[String]) -> (r: Vec<String>)
    ensures
        strs(r@) == dedup(strs(ids@)),
{
    let ghost t = strs(ids@);
    let mut seen = IdSet::new();
    let mut i: usize = 0;
    while i < ids.len()
        invariant
            t == strs(ids@),
            i <= ids@.len(),
            seen.order() == dedup(t.take(i as int)),
            seen@ == seen.order().to_set(),
        decreases ids@.len() - i,
    {
        proof {
            seen.lemma_order();
        }
        let ghost before = seen.order();
        seen.insert(ids[i].as_str());
        assert(t.take(i + 1).drop_last() =~= t.take(i as int));
        assert(t.take(i + 1).last() == ids@[i as int]@);
        proof {
            seen.lemma_order();
        }
        i = i + 1;
    }
    assert(t.take(ids@.len() as int) =~= t);
    seen.to_vec()
}

// ── Topological order of the target atoms ──────────────────────────

/// `a` is one of `atoms`, not yet placed in `done`, and every prerequisite
/// of `a` that is itself one of `atoms` is already placed.
pub open spec fn ready(g: Map<Seq<char>, FlatConcept>, atoms: Set<Seq<char>>, done: Seq<Seq<char>>, a: Seq<char>) -> bool {
    &&& atoms.contains(a)
    &&& !done.contains(a)
    &&& g.contains_key(a) ==> forall|p: Seq<char>|
        #![trigger g[a].prereqs().contains(p)]
        g[a].prereqs().contains(p) && atoms.contains(p) ==> done.contains(p)
}

/// `a` is the least ready atom.
pub open spec fn least_ready(g: Map<Seq<char>, FlatConcept>, atoms: Set<Seq<char>>, done: Seq<Seq<char>>, a: Seq<char>) -> bool {
    &&& ready(g, atoms, done, a)
    &&& forall|b: Seq<char>| #[trigger] ready(g, atoms, done, b) ==> b == a || str_lt(a, b)
}

/// `d` places, one after the other, the least atom whose in-set
/// prerequisites are all placed before it (Kahn's order with the
/// lexicographically least ready atom first).
pub open spec fn greedy(g: Map<Seq<char>, FlatConcept>, atoms: Set<Seq<char>>, d: Seq<Seq<char>>) -> bool {
    forall|i: int| 0 <= i < d.len() ==> #[trigger] least_ready(g, atoms, d.take(i), d[i])
}

/// No atom is ready after `d`.
pub open spec fn stuck(g: Map<Seq<char>, FlatConcept>, atoms: Set<Seq<char>>, d: Seq<Seq<char>>) -> bool {
    forall|b: Seq<char>| !#[trigger] ready(g, atoms, d, b)
}

/// Whether the in-set prerequisites of `atoms[i]` are all marked done.
fn prereqs_done(g: &Graph, atoms: &Vec<String>, done: &Vec<bool>, i: usize, Ghost(d): Ghost<Seq<Seq<char>>>) -> (r: bool)
    requires
        strs(atoms@).no_duplicates(),
        done@.len() == atoms@.len(),
        i < atoms@.len(),
        forall|k: int| 0 <= k < atoms@.len() ==> #[trigger] done@[k] == d.contains(atoms@[k]@),
    ensures
        r == (g@.contains_key(atoms@[i as int]@) ==> forall|p: Seq<char>|
            #![trigger g@[atoms@[i as int]@].prereqs().contains(p)]
            g@[atoms@[i as int]@].prereqs().contains(p) && strs(atoms@).to_set().contains(p) ==> d.contains(p)),
{
    let ghost a = atoms@[i as int]@;
    let ghost set = strs(atoms@).to_set();
    let c = match g.get(atoms[i].as_str()) {
        None => return true,
        Some(c) => c,
    };
    let mut j: usize = 0;
    while j < c.prerequisites.len()
        invariant
            j <= c.prerequisites@.len(),
            g@.contains_key(a),
            *c == g@[a],
            a == atoms@[i as int]@,
            set == strs(atoms@).to_set(),
            done@.len() == atoms@.len(),
            forall|k: int| 0 <= k < atoms@.len() ==> #[trigger] done@[k] == d.contains(atoms@[k]@),
            forall|x: int| 0 <= x < j && set.contains(#[trigger] c.prerequisites@[x]@) ==> d.contains(c.prerequisites@[x]@),
        decreases c.prerequisites@.len() - j,
    {
        let p = &c.prerequisites[j];
        match vec_position(atoms, p.as_str()) {
            Some(k) => {
                if !done[k] {
                    proof {
                        assert(c.prereqs()[j as int] == p@);
                        assert(c.prereqs().contains(p@));
                        assert(strs(atoms@)[k as int] == p@);
                        assert(set.contains(p@));
                        assert(!d.contains(p@));
                    }
                    return false;
                }
            },
            None => {},
        }
        j = j + 1;
    }
    proof {
        assert forall|p: Seq<char>| #[trigger] g@[a].prereqs().contains(p) && set.contains(p) implies d.contains(p) by {
            let x = choose|x: int| 0 <= x < c.prereqs().len() && c.prereqs()[x] == p;
            assert(c.prerequisites@[x]@ == p);
        }
    }
    true
}

/// Kahn's algorithm over the prerequisite edges among `atoms`, always
/// placing the lexicographically least ready atom next. `Cycle` when the
/// order gets stuck before every atom is placed.
fn topo_sort(g: &Graph, atoms: &Vec<String>) -> (r: Result<Vec<String>, Error>)
    requires
        strs(atoms@).no_duplicates(),
    ensures
        match r {
            Ok(v) => greedy(g@, strs(atoms@).to_set(), strs(v@)) && strs(v@).to_set() == strs(atoms@).to_set(),
            Err(e) => e == Error::Cycle && exists|d: Seq<Seq<char>>|
                greedy(g@, strs(atoms@).to_set(), d) && stuck(g@, strs(atoms@).to_set(), d) && d.to_set()
                    != strs(atoms@).to_set(),
        },
{
    let ghost set = strs(atoms@).to_set();
    let n = atoms.len();
    let mut done: Vec<bool> = Vec::new();
    let mut j: usize = 0;
    while j < n
        invariant
            j <= n,
            done@.len() == j,
            forall|x: int| 0 <= x < j ==> !done@[x],
        decreases n - j,
    {
        done.push(false);
        j = j + 1;
    }
    let mut result: Vec<String> = Vec::new();
    assert forall|k: int| 0 <= k < atoms@.len() implies #[trigger] done@[k] == strs(result@).contains(atoms@[k]@) by {}
    loop
        invariant
            n == atoms@.len(),
            set == strs(atoms@).to_set(),
            strs(atoms@).no_duplicates(),
            done@.len() == n,
            forall|k: int| 0 <= k < atoms@.len() ==> #[trigger] done@[k] == strs(result@).contains(atoms@[k]@),
            greedy(g@, set, strs(result@)),
        decreases unvisited(done@),
    {
        let ghost d = strs(result@);
        let mut best: Option<usize> = None;
        let mut i: usize = 0;
        while i < n
            invariant
                i <= n,
                n == atoms@.len(),
                set == strs(atoms@).to_set(),
                strs(atoms@).no_duplicates(),
                done@.len() == n,
                d == strs(result@),
                forall|k: int| 0 <= k < atoms@.len() ==> #[trigger] done@[k] == d.contains(atoms@[k]@),
                match best {
                    Some(b) => b < i && ready(g@, set, d, atoms@[b as int]@),
                    None => true,
                },
                forall|k: int|
                    0 <= k < i && #[trigger] ready(g@, set, d, atoms@[k]@) ==> (best matches Some(b) && (b == k
                        || str_lt(atoms@[b as int]@, atoms@[k]@))),
            decreases n - i,
        {
            let ghost a = atoms@[i as int]@;
            assert(set.contains(a)) by {
                assert(strs(atoms@)[i as int] == a);
            }
            if !done[i] && prereqs_done(g, atoms, &done, i, Ghost(d)) {
                assert(ready(g@, set, d, a));
                match best {
                    None => {
                        best = Some(i);
                    },
                    Some(b) => {
                        proof {
                            lemma_str_lt_order(a, atoms@[b as int]@, a);
                            assert(strs(atoms@)[b as int] == atoms@[b as int]@);
                            assert(strs(atoms@)[i as int] == a);
                        }
                        if str_less(atoms[i].as_str(), atoms[b].as_str()) {
                            proof {
                                assert forall|k: int|
                                    0 <= k < i && #[trigger] ready(g@, set, d, atoms@[k]@) implies (k == i as int
                                        || str_lt(a, atoms@[k]@)) by {
                                    lemma_str_lt_order(a, atoms@[b as int]@, atoms@[k]@);
                                }
                            }
                            best = Some(i);
                        }
                    },
                }
            } else {
                assert(!ready(g@, set, d, a));
            }
            i = i + 1;
        }
        match best {
            None => {
                proof {
                    assert forall|b: Seq<char>| !#[trigger] ready(g@, set, d, b) by {
                        if ready(g@, set, d, b) {
                            assert(set.contains(b));
                            let x = choose|x: int| 0 <= x < strs(atoms@).len() && strs(atoms@)[x] == b;
                            assert(atoms@[x]@ == b);
                        }
                    }
                }
                let mut k: usize = 0;
                while k < n
                    invariant
                        k <= n,
                        n == atoms@.len(),
                        set == strs(atoms@).to_set(),
                        d == strs(result@),
                        done@.len() == n,
                        forall|x: int| 0 <= x < atoms@.len() ==> #[trigger] done@[x] == d.contains(atoms@[x]@),
                        forall|x: int| 0 <= x < k ==> done@[x],
                        stuck(g@, set, d),
                        greedy(g@, set, d),
                    decreases n - k,
                {
                    if !done[k] {
                        proof {
                            assert(!d.contains(atoms@[k as int]@));
                            assert(set.contains(atoms@[k as int]@)) by {
                                assert(strs(atoms@)[k as int] == atoms@[k as int]@);
                            }
                            assert(!d.to_set().contains(atoms@[k as int]@));
                        }
                        return Err(Error::Cycle);
                    }
                    k = k + 1;
                }
                proof {
                    assert forall|x: Seq<char>| d.to_set().contains(x) == set.contains(x) by {
                        if set.contains(x) {
                            let y = choose|y: int| 0 <= y < strs(atoms@).len() && strs(atoms@)[y] == x;
                            assert(done@[y]);
                        }
                        if d.to_set().contains(x) {
                            let y = choose|y: int| 0 <= y < d.len() && d[y] == x;
                            assert(least_ready(g@, set, d.take(y), d[y]));
                        }
                    }
                    assert(d.to_set() =~= set);
                }
                return Ok(result);
            },
            Some(b) => {
                let ghost a = atoms@[b as int]@;
                proof {
                    assert forall|x: Seq<char>| #[trigger] ready(g@, set, d, x) implies x == a || str_lt(a, x) by {
                        let k = choose|k: int| 0 <= k < strs(atoms@).len() && strs(atoms@)[k] == x;
                        assert(atoms@[k]@ == x);
                    }
                    assert(least_ready(g@, set, d, a));
                    lemma_unvisited_update(done@, b as int);
                }
                done.set(b, true);
                result.push(copy(&atoms[b]));
                proof {
                    let d2 = strs(result@);
                    assert(d2 =~= d.push(a));
                    assert forall|i: int| 0 <= i < d2.len() implies #[trigger] least_ready(g@, set, d2.take(i), d2[i]) by {
                        if i < d.len() {
                            assert(d2.take(i) =~= d.take(i));
                            assert(least_ready(g@, set, d.take(i), d[i]));
                        } else {
                            assert(d2.take(i) =~= d);
                        }
                    }
                    assert forall|k: int| 0 <= k < atoms@.len() implies #[trigger] done@[k] == d2.contains(atoms@[k]@) by {
                        if k == b as int {
                            assert(d2[d.len() as int] == a);
                        } else {
                            assert(strs(atoms@)[k] == atoms@[k]@ && strs(atoms@)[b as int] == a);
                            if d2.contains(atoms@[k]@) {
                                let y = choose|y: int| 0 <= y < d2.len() && d2[y] == atoms@[k]@;
                                if y < d.len() {
                                    assert(d[y] == atoms@[k]@);
                                }
                            }
                            if d.contains(atoms@[k]@) {
                                let y = choose|y: int| 0 <= y < d.len() && d[y] == atoms@[k]@;
                                assert(d2[y] == atoms@[k]@);
                            }
                        }
                    }
                }
            },
        }
    }
}

/// `v` is the resolution of the target ids `ts`: every id stands for some
/// atom, and `v` orders the atoms they stand for by Kahn's algorithm with
/// the least ready atom first.
pub open spec fn target_order(g: Map<Seq<char>, FlatConcept>, ts: Seq<Seq<char>>, v: Seq<Seq<char>>) -> bool {
    &&& first_empty(g, ts, 0) is None
    &&& greedy(g, expansion(g, ts), v)
    &&& v.to_set() == expansion(g, ts)
}

/// `e` is the error resolving the target ids `ts` gives: `EmptyCluster`
/// or `UnknownId` for the first id that stands for no atom, else `Cycle`
/// when the order gets stuck before placing every atom.
pub open spec fn resolve_error(g: Map<Seq<char>, FlatConcept>, ts: Seq<Seq<char>>, e: Error) -> bool {
    match first_empty(g, ts, 0) {
        Some(k) => if g.contains_key(ts[k]) {
            e matches Error::EmptyCluster(x) && x@ == ts[k]
        } else {
            e matches Error::UnknownId(x) && x@ == ts[k]
        },
        None => e == Error::Cycle && exists|d: Seq<Seq<char>>|
            greedy(g, expansion(g, ts), d) && stuck(g, expansion(g, ts), d) && d.to_set() != expansion(g, ts),
    }
}

impl PathFile {
    /// Expand the stored targets to a topologically sorted list of atom
    /// ids against `g`: the atoms the targets stand for (see
    /// `Graph::expand_to_atoms`), ordered by Kahn's algorithm over their
    /// prerequisite edges with the lexicographically least ready atom
    /// first. Errors if a target resolves to no atom, or with `Cycle` if
    /// the atoms' prerequisites form a cycle.
    pub fn resolve_targets(&self, g: &Graph) -> (r: Result<Vec<String>, Error>)
        ensures
            match r {
                Ok(v) => target_order(g@, strs(self.targets@), strs(v@)),
                Err(e) => resolve_error(g@, strs(self.targets@), e),
            },
    {
        let ts = self.targets.as_slice();
        assert(strs(ts@) == strs(self.targets@));
        match g.expand_to_atoms(ts) {
            Ok(atoms) => {
                assert(first_empty(g@, strs(self.targets@), 0) is None);
                assert(strs(atoms@).to_set() == expansion(g@, strs(self.targets@)));
                let r = topo_sort(g, &atoms);
                match &r {
                    Ok(v) => {
                        assert(greedy(g@, expansion(g@, strs(self.targets@)), strs(v@)));
                        assert(target_order(g@, strs(self.targets@), strs(v@)));
                    },
                    Err(e) => {
                        assert(resolve_error(g@, strs(self.targets@), *e));
                    },
                }
                r
            },
            Err(e) => {
                proof {
                    crate::reach::lemma_first_empty(g@, strs(ts@), 0);
                    let k = first_empty(g@, strs(ts@), 0)->0;
                    assert(strs(ts@)[k] == ts@[k]@);
                }
                Err(e)
            },
        }
    }
}

/// Resolved targets list each atom once, and every prerequisite of an
/// atom that is itself among them comes before it.
pub proof fn law_resolved_topological(g: Map<Seq<char>, FlatConcept>, ts: Seq<Seq<char>>, v: Seq<Seq<char>>)
    requires
        target_order(g, ts, v),
    ensures
        v.no_duplicates(),
        forall|i: int, j: int|
            0 <= i < v.len() && 0 <= j < v.len() && g.contains_key(v[j]) && #[trigger] g[v[j]].prereqs().contains(
                #[trigger] v[i],
            ) ==> i < j,
{
    let atoms = expansion(g, ts);
    assert forall|i: int, j: int| 0 <= i < v.len() && 0 <= j < v.len() && i != j implies v[i] != v[j] by {
        let (lo, hi) = if i < j { (i, j) } else { (j, i) };
        assert(least_ready(g, atoms, v.take(hi), v[hi]));
        assert(v.take(hi)[lo] == v[lo]);
    }
    assert forall|i: int, j: int|
        0 <= i < v.len() && 0 <= j < v.len() && g.contains_key(v[j]) && #[trigger] g[v[j]].prereqs().contains(
            #[trigger] v[i],
        ) implies i < j by {
        assert(least_ready(g, atoms, v.take(j), v[j]));
        assert(v.to_set().contains(v[i]));
        assert(atoms.contains(v[i]));
        assert(v.take(j).contains(v[i]));
        let k = choose|k: int| 0 <= k < v.take(j).len() && v.take(j)[k] == v[i];
        assert(v[k] == v[i]);
        if k != i {
            assert(v[k] != v[i]);
        }
    }
}

/// Two greedy orders of the same atoms agree on their first `k` places.
proof fn lemma_greedy_prefix(g: Map<Seq<char>, FlatConcept>, atoms: Set<Seq<char>>, v: Seq<Seq<char>>, w: Seq<Seq<char>>, k: int)
    requires
        greedy(g, atoms, v),
        greedy(g, atoms, w),
        0 <= k <= v.len(),
        k <= w.len(),
    ensures
        v.take(k) == w.take(k),
    decreases k,
{
    if k == 0 {
        assert(v.take(0) =~= w.take(0));
    } else {
        let j = k - 1;
        lemma_greedy_prefix(g, atoms, v, w, j);
        assert(least_ready(g, atoms, v.take(j), v[j]));
        assert(least_ready(g, atoms, w.take(j), w[j]));
        assert(ready(g, atoms, v.take(j), w[j]));
        assert(ready(g, atoms, v.take(j), v[j]));
        lemma_str_lt_order(v[j], w[j], v[j]);
        assert(v.take(k) =~= v.take(j).push(v[j]));
        assert(w.take(k) =~= w.take(j).push(w[j]));
    }
}

/// Resolving the same targets against the same graph gives one order.
pub proof fn law_resolution_unique(g: Map<Seq<char>, FlatConcept>, ts: Seq<Seq<char>>, v: Seq<Seq<char>>, w: Seq<Seq<char>>)
    requires
        target_order(g, ts, v),
        target_order(g, ts, w),
    ensures
        v == w,
{
    let atoms = expansion(g, ts);
    law_resolved_topological(g, ts, v);
    law_resolved_topological(g, ts, w);
    let n = if v.len() < w.len() { v.len() } else { w.len() };
    lemma_greedy_prefix(g, atoms, v, w, n as int);
    if v.len() < w.len() {
        assert(v.take(n as int) =~= v);
        assert(w.to_set().contains(w[n as int]));
        assert(v.to_set().contains(w[n as int]));
        let j = choose|j: int| 0 <= j < v.len() && v[j] == w[n as int];
        assert(w.take(n as int)[j] == w[j]);
        assert(w[j] == w[n as int]);
    } else if w.len() < v.len() {
        assert(w.take(n as int) =~= w);
        assert(v.to_set().contains(v[n as int]));
        assert(w.to_set().contains(v[n as int]));
        let j = choose|j: int| 0 <= j < w.len() && w[j] == v[n as int];
        assert(v.take(n as int)[j] == v[j]);
        assert(v[j] == v[n as int]);
    } else {
        assert(v =~= v.take(n as int));
        assert(w =~= w.take(n as int));
    }
}

} // verus!
