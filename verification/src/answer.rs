//! Quiz-id helpers.
use crate::ids::{chars_of, prefix};
use vstd::prelude::*;

verus! {

/// `s[i..i+2] == ".q"`.
pub open spec fn dot_q_at(s: Seq<char>, i: int) -> bool {
    0 <= i && i + 1 < s.len() && s[i] == '.' && s[i + 1] == 'q'
}

/// The atom id of a quiz id such as `fnd.1.1.1.q3`: everything before the
/// last occurrence of `.q`.
pub open spec fn spec_atom_of_quiz(s: Seq<char>) -> Option<Seq<char>> {
    if exists|i: int| dot_q_at(s, i) {
        let p = choose|p: int| dot_q_at(s, p) && forall|j: int| p < j ==> !dot_q_at(s, j);
        Some(s.take(p))
    } else {
        None
    }
}

/// Recover the atom id from a quiz id like `fnd.1.1.1.q3`: the text before
/// the last `.q`, or `None` when the id has no `.q`.
pub fn atom_from_quiz_id(quiz_id: &str) -> (r: Option<String>)
    ensures
        match r {
            Some(a) => exists|p: int|
                dot_q_at(quiz_id@, p) && (forall|j: int| p < j ==> !dot_q_at(quiz_id@, j))
                    && a@ == quiz_id@.take(p),
            None => forall|i: int| !dot_q_at(quiz_id@, i),
        },
        r matches Some(a) ==> spec_atom_of_quiz(quiz_id@) == Some(a@),
        r is None ==> spec_atom_of_quiz(quiz_id@) is None,
{
    let cs = chars_of(quiz_id);
    let n = cs.len();
    if n < 2 {
        return None;
    }
    let mut i: usize = n - 1;
    // Scan candidate starts from the right: n-2, n-3, ..., 0.
    while i > 0
        invariant
            cs@ == quiz_id@,
            n == cs@.len(),
            n >= 2,
            0 <= i <= n - 1,
            forall|j: int| i <= j ==> !dot_q_at(quiz_id@, j),
        decreases i,
    {
        let k = i - 1;
        if cs[k] == '.' && cs[k + 1] == 'q' {
            assert(dot_q_at(quiz_id@, k as int));
            let a = prefix(quiz_id, k);
            proof {
                let p = choose|p: int| dot_q_at(quiz_id@, p) && forall|j: int| p < j ==> !dot_q_at(quiz_id@, j);
                assert(p == k as int) by {
                    if p < k {
                        assert(!dot_q_at(quiz_id@, k as int));
                    }
                    if p > k {
                        assert(!dot_q_at(quiz_id@, p));
                    }
                }
            }
            return Some(a);
        }
        i = k;
    }
    None
}

} // verus!
