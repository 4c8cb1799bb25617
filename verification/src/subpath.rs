//! The top-down subpath: an ordered detour through atoms that ends in a
//! target of the path, and the rules a new one must meet.
use crate::error::Error;
use crate::graph::Graph;
use crate::ids::{str_eq, strs, to_owned, IdSet};
use crate::path::{resolve_error, target_order, PathFile};
use crate::types::Strategy;
use vstd::prelude::*;

verus! {

/// Atom `k` of a proposed subpath breaks a rule: it repeats an earlier
/// one, the graph lacks it, or it is a cluster.
pub open spec fn bad_at(g: Map<Seq<char>, crate::graph::FlatConcept>, atoms: Seq<Seq<char>>, k: int) -> bool {
    atoms.take(k).contains(atoms[k]) || !g.contains_key(atoms[k]) || !g[atoms[k]].spec_is_atom()
}

/// The error for the first bad atom `k`.
pub open spec fn bad_atom_error(g: Map<Seq<char>, crate::graph::FlatConcept>, atoms: Seq<Seq<char>>, k: int, e: Error) -> bool {
    if atoms.take(k).contains(atoms[k]) {
        e matches Error::SubpathDuplicateAtom(x) && x@ == atoms[k]
    } else if !g.contains_key(atoms[k]) {
        e matches Error::AtomNotFound(x) && x@ == atoms[k]
    } else {
        e matches Error::NotAtom(x) && x@ == atoms[k]
    }
}

/// Checks a proposed subpath for path `p`. In order: it has atoms
/// (`SubpathEmpty`); the path is top-down (`SubpathNotTopDown`); the
/// path's targets resolve (their error is returned); the last atom is a
/// resolved target (`SubpathTailNotTarget`); then, atom by atom, the
/// first that repeats (`SubpathDuplicateAtom`), is missing from the graph
/// (`AtomNotFound`) or is a cluster (`NotAtom`).
pub fn validate_subpath(g: &Graph, p: &PathFile, atoms: &[String]) -> (r: Result<(), Error>)
    ensures
        ({
            let a = strs(atoms@);
            let ts = strs(p.targets@);
            match r {
                Ok(()) => {
                    &&& a.len() > 0
                    &&& p.strategy == Strategy::TopDown
                    &&& exists|v: Seq<Seq<char>>| #[trigger] target_order(g@, ts, v) && v.contains(a.last())
                    &&& forall|k: int| 0 <= k < a.len() ==> !#[trigger] bad_at(g@, a, k)
                },
                Err(e) => if a.len() == 0 {
                    e == Error::SubpathEmpty
                } else if p.strategy != Strategy::TopDown {
                    e == Error::SubpathNotTopDown
                } else {
                    ||| resolve_error(g@, ts, e)
                    ||| exists|v: Seq<Seq<char>>| #[trigger] target_order(g@, ts, v) && !v.contains(a.last())
                        && (e matches Error::SubpathTailNotTarget(x) && x@ == a.last())
                    ||| exists|v: Seq<Seq<char>>, k: int| #[trigger] target_order(g@, ts, v) && v.contains(a.last())
                        && 0 <= k < a.len() && #[trigger] bad_at(g@, a, k)
                        && (forall|j: int| 0 <= j < k ==> !bad_at(g@, a, j)) && bad_atom_error(g@, a, k, e)
                },
            }
        }),
{
    let ghost a = strs(atoms@);
    let n = atoms.len();
    if n == 0 {
        return Err(Error::SubpathEmpty);
    }
    let tail = &atoms[n - 1];
    assert(tail@ == a.last());
    if p.strategy != Strategy::TopDown {
        return Err(Error::SubpathNotTopDown);
    }
    let targets = match p.resolve_targets(g) {
        Ok(v) => v,
        Err(e) => return Err(e),
    };
    let ghost v = strs(targets@);
    let mut found = false;
    let mut i: usize = 0;
    while i < targets.len()
        invariant
            i <= targets@.len(),
            v == strs(targets@),
            found == (exists|j: int| 0 <= j < i && v[j] == tail@),
        decreases targets@.len() - i,
    {
        assert(targets@[i as int]@ == v[i as int]);
        if str_eq(targets[i].as_str(), tail.as_str()) {
            found = true;
        }
        i = i + 1;
    }
    assert(found == v.contains(tail@));
    if !found {
        return Err(Error::SubpathTailNotTarget(to_owned(tail.as_str())));
    }
    let mut seen = IdSet::new();
    let mut k: usize = 0;
    assert(a.take(0).to_set() =~= Set::<Seq<char>>::empty());
    while k < n
        invariant
            n == atoms@.len(),
            a == strs(atoms@),
            k <= n,
            seen@ == a.take(k as int).to_set(),
            forall|j: int| 0 <= j < k ==> !#[trigger] bad_at(g@, a, j),
            a.len() > 0,
            p.strategy == Strategy::TopDown,
            target_order(g@, strs(p.targets@), v),
            v.contains(a.last()),
        decreases n - k,
    {
        let x = &atoms[k];
        assert(x@ == a[k as int]);
        assert(a.take(k as int).to_set().contains(x@) == a.take(k as int).contains(x@));
        if !seen.insert(x.as_str()) {
            assert(bad_at(g@, a, k as int));
            return Err(Error::SubpathDuplicateAtom(to_owned(x.as_str())));
        }
        match g.get(x.as_str()) {
            Some(c) => {
                if c.children_ids.len() != 0 {
                    assert(bad_at(g@, a, k as int));
                    return Err(Error::NotAtom(to_owned(x.as_str())));
                }
            },
            None => {
                assert(bad_at(g@, a, k as int));
                return Err(Error::AtomNotFound(to_owned(x.as_str())));
            },
        }
        proof {
            let b = a.take(k + 1);
            assert(b.drop_last() =~= a.take(k as int));
            assert forall|y: Seq<char>| b.to_set().contains(y) == seen@.contains(y) by {
                if b.contains(y) {
                    let i = choose|i: int| 0 <= i < b.len() && #[trigger] b[i] == y;
                    if i < k {
                        assert(a.take(k as int)[i] == y);
                    }
                }
                if a.take(k as int).contains(y) {
                    let i = choose|i: int| 0 <= i < a.take(k as int).len() && #[trigger] a.take(k as int)[i] == y;
                    assert(b[i] == y);
                }
                if y == x@ {
                    assert(b[k as int] == y);
                }
            }
            assert(seen@ =~= b.to_set());
        }
        k = k + 1;
    }
    Ok(())
}

} // verus!
