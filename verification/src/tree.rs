//! `mt path tree`: the hierarchical view of a path. Every atom reachable
//! from the path's targets is shown at its place in the cluster
//! hierarchy, areas in manifest order, each atom with its `[LEMH]` badge.
use crate::check::{split_dots, split_dots_exec, lemma_split_dots_len};
use crate::graph::{pos, FlatConcept, Graph};
use crate::ids::{copy, prefix, str_eq, strs, IdSet};
use crate::progress::PathProgress;
use crate::reach::reachable_atom_set;
use crate::scheduler::{is_first_of, lemma_slot_index, slot_index};
use crate::curriculum::ManifestArea;
use crate::text::{concat, decimal, digit_char, joined, views};
use crate::types::Difficulty;
use vstd::prelude::*;
use vstd::string::*;

verus! {

/// Targets plus the transitive closure of their prerequisites, as the set
/// of atoms (see `Graph::reachable_atoms`).
pub fn reachable_atoms(g: &Graph, targets: &[String]) -> (r: IdSet)
    ensures
        r@ == reachable_atom_set(g@, strs(targets@)),
{
    g.reachable_atoms(targets)
}

// ── Parents and the spine ───────────────────────────────────────────

/// The id with its last segment dropped: everything before the last dot.
pub open spec fn spec_parent_id(id: Seq<char>) -> Option<Seq<char>> {
    if id.contains('.') {
        let i = choose|i: int| 0 <= i < id.len() && id[i] == '.' && forall|j: int| i < j < id.len() ==> id[j] != '.';
        Some(id.take(i))
    } else {
        None
    }
}

/// The id with its last segment dropped, or `None` for an id without a dot.
pub fn parent_id(id: &str) -> (r: Option<&str>)
    ensures
        match r {
            Some(p) => spec_parent_id(id@) == Some(p@),
            None => spec_parent_id(id@) is None,
        },
{
    let n = id.unicode_len();
    let mut i: usize = n;
    while i > 0
        invariant
            i <= n,
            n == id@.len(),
            forall|j: int| i <= j < n ==> id@[j] != '.',
        decreases i,
    {
        if id.get_char(i - 1) == '.' {
            let p = id.substring_char(0, i - 1);
            proof {
                assert(id@.contains('.'));
                let k = choose|k: int| 0 <= k < id@.len() && id@[k] == '.' && forall|j: int| k < j < id@.len() ==> id@[j] != '.';
                if k < i - 1 {
                    assert(id@[i - 1] == '.');
                } else if k > i - 1 {
                }
                assert(p@ =~= id@.take(i - 1));
            }
            return Some(p);
        }
        i = i - 1;
    }
    proof {
        if id@.contains('.') {
            let k = choose|k: int| 0 <= k < id@.len() && id@[k] == '.';
        }
    }
    None
}

/// The spine: the atoms, plus every concept of `g` whose id, followed by a
/// dot, begins the id of one of the atoms (the clusters above them).
pub open spec fn spine_of(g: Map<Seq<char>, FlatConcept>, atoms: Set<Seq<char>>) -> Set<Seq<char>> {
    Set::new(
        |x: Seq<char>|
            atoms.contains(x) || (g.contains_key(x) && exists|a: Seq<char>| atoms.contains(a) && #[trigger] x.push('.').is_prefix_of(a)),
    )
}

/// Cluster ids (and atom ids) needed to root every atom in the hierarchy:
/// each atom with its ancestors by id prefix (`la.5.4.7` → `la.5.4` →
/// `la.5`), keeping only ancestors that exist in the graph.
pub fn build_spine(g: &Graph, atoms: &IdSet) -> (spine: IdSet)
    ensures
        spine@ == spine_of(g@, atoms@),
{
    let v = atoms.to_vec();
    let mut spine = IdSet::new();
    let mut k: usize = 0;
    while k < v.len()
        invariant
            k <= v@.len(),
            strs(v@).to_set() == atoms@,
            spine@ == Set::new(
                |x: Seq<char>|
                    strs(v@).take(k as int).contains(x) || (g@.contains_key(x) && exists|a: Seq<char>|
                        strs(v@).take(k as int).contains(a) && #[trigger] x.push('.').is_prefix_of(a)),
            ),
        decreases v@.len() - k,
    {
        let a = v[k].as_str();
        let ghost before = spine@;
        let ghost old_set = strs(v@).take(k as int);
        let ghost new_set = strs(v@).take(k + 1);
        assert(new_set =~= old_set.push(a@));
        spine.insert(a);
        let n = a.unicode_len();
        let mut i: usize = 0;
        while i < n
            invariant
                i <= n,
                n == a@.len(),
                spine@ == before.insert(a@).union(
                    Set::new(|x: Seq<char>| g@.contains_key(x) && x.len() < i && x.push('.').is_prefix_of(a@)),
                ),
            decreases n - i,
        {
            if a.get_char(i) == '.' {
                let p = prefix(a, i);
                if g.contains(p.as_str()) {
                    spine.insert(p.as_str());
                }
            }
            let ghost ii = i as int;
            assert(spine@ =~= before.insert(a@).union(
                Set::new(|x: Seq<char>| g@.contains_key(x) && x.len() < ii + 1 && x.push('.').is_prefix_of(a@)),
            )) by {
                assert forall|x: Seq<char>| g@.contains_key(x) && x.len() == ii && x.push('.').is_prefix_of(a@) implies spine@.contains(x) by {
                    assert(x.push('.')[ii] == a@[ii]);
                    assert(x =~= a@.take(ii)) by {
                        assert forall|j: int| 0 <= j < ii implies x[j] == a@[j] by {
                            assert(x.push('.')[j] == a@[j]);
                        }
                    }
                }
                assert forall|x: Seq<char>| spine@.contains(x) && !before.insert(a@).contains(x) implies g@.contains_key(x) && x.len() < ii + 1 && x.push('.').is_prefix_of(a@) by {
                    if x.len() == ii {
                        assert(x.push('.') =~= a@.take(ii + 1));
                    }
                }
            }
            i = i + 1;
        }
        proof {
            let want = Set::new(
                |x: Seq<char>|
                    new_set.contains(x) || (g@.contains_key(x) && exists|b: Seq<char>| new_set.contains(b) && #[trigger] x.push('.').is_prefix_of(b)),
            );
            assert forall|x: Seq<char>| spine@.contains(x) == want.contains(x) by {
                assert(new_set[new_set.len() - 1] == a@);
                assert(new_set.contains(a@));
                if spine@.contains(x) {
                    if x == a@ {
                    } else if before.contains(x) {
                        if old_set.contains(x) {
                            assert(new_set.contains(x));
                        } else {
                            let b = choose|b: Seq<char>| old_set.contains(b) && #[trigger] x.push('.').is_prefix_of(b);
                            assert(new_set.contains(b));
                        }
                    } else {
                        assert(x.push('.').is_prefix_of(a@));
                    }
                }
                if want.contains(x) {
                    if new_set.contains(x) {
                        if x != a@ {
                            assert(old_set.contains(x));
                        }
                    } else {
                        let b = choose|b: Seq<char>| new_set.contains(b) && #[trigger] x.push('.').is_prefix_of(b);
                        if b == a@ {
                            assert(x.len() < n);
                        } else {
                            assert(old_set.contains(b));
                        }
                    }
                }
            }
            assert(spine@ =~= want);
        }
        k = k + 1;
    }
    assert(strs(v@).take(v@.len() as int) =~= strs(v@));
    spine
}

// ── Natural order of ids ────────────────────────────────────────────

/// A decimal digit.
pub open spec fn dec_digit(c: char) -> bool {
    48 <= (c as int) <= 57
}

/// The value of a run of decimal digits.
pub open spec fn digits_value(s: Seq<char>) -> nat
    decreases s.len(),
{
    if s.len() == 0 {
        0
    } else {
        digits_value(s.drop_last()) * 10 + ((s.last() as int) - 48) as nat
    }
}

/// The decimal numeral of a natural number is a non-empty run of digits
/// worth that number.
pub proof fn lemma_decimal_digits(n: nat)
    ensures
        decimal(n).len() > 0,
        forall|i: int| 0 <= i < decimal(n).len() ==> #[trigger] dec_digit(decimal(n)[i]),
        digits_value(decimal(n)) == n,
    decreases n,
{
    lemma_digit_char((n % 10) as int);
    if n < 10 {
        assert(n % 10 == n);
        assert(decimal(n).drop_last() =~= Seq::<char>::empty());
        assert(digits_value(Seq::<char>::empty()) == 0);
        assert(decimal(n).last() == digit_char(n as int));
        assert(digits_value(decimal(n)) == digits_value(decimal(n).drop_last()) * 10 + ((decimal(n).last() as int) - 48) as nat);
    } else {
        assert(n == (n / 10) * 10 + n % 10);
        lemma_decimal_digits(n / 10);
        let s = decimal(n / 10).push(digit_char((n % 10) as int));
        assert(s.drop_last() =~= decimal(n / 10));
        assert(decimal(n) == s);
        assert(digits_value(s) == digits_value(decimal(n / 10)) * 10 + ((s.last() as int) - 48) as nat);
        assert forall|i: int| 0 <= i < s.len() implies #[trigger] dec_digit(s[i]) by {
            if i < s.len() - 1 {
                assert(s[i] == decimal(n / 10)[i]);
            }
        }
    }
}

proof fn lemma_digit_char(d: int)
    requires
        0 <= d <= 9,
    ensures
        digit_char(d) as int == d + 48,
{
}

/// The text after an optional leading `+`.
pub open spec fn unsigned_digits(s: Seq<char>) -> Seq<char> {
    if s.len() > 0 && s[0] == '+' {
        s.drop_first()
    } else {
        s
    }
}

/// `u32::from_str`: an optional `+`, then at least one decimal digit, and
/// a value that fits in `u32`.
pub open spec fn parse_u32(s: Seq<char>) -> Option<u32> {
    let d = unsigned_digits(s);
    if d.len() > 0 && (forall|i: int| 0 <= i < d.len() ==> #[trigger] dec_digit(d[i])) && digits_value(d) <= u32::MAX {
        Some(digits_value(d) as u32)
    } else {
        None
    }
}

/// `u32::from_str` on a segment.
pub fn parse_u32_exec(s: &str) -> (r: Option<u32>)
    ensures
        r == parse_u32(s@),
{
    let n = s.unicode_len();
    let mut i: usize = 0;
    if n > 0 && s.get_char(0) == '+' {
        i = 1;
    }
    let start = i;
    let ghost d = s@.skip(start as int);
    assert(d == unsigned_digits(s@)) by {
        if start == 1 {
            assert(s@.skip(1) =~= s@.drop_first());
        } else {
            assert(s@.skip(0) =~= s@);
        }
    }
    if i >= n {
        return None;
    }
    let mut v: u64 = 0;
    while i < n
        invariant
            start <= i <= n,
            n == s@.len(),
            start < n,
            d == s@.skip(start as int),
            d == unsigned_digits(s@),
            forall|j: int| 0 <= j < i - start ==> #[trigger] dec_digit(d[j]),
            v == digits_value(d.take(i - start)),
            v <= u32::MAX,
        decreases n - i,
    {
        let c = s.get_char(i);
        assert(d[i - start] == c);
        if !((c as u32) >= 48 && (c as u32) <= 57) {
            assert(!dec_digit(d[i - start]));
            return None;
        }
        let digit: u64 = (c as u32 - 48) as u64;
        let nv = v * 10 + digit;
        assert(d.take(i - start + 1).drop_last() =~= d.take(i - start));
        assert(nv == digits_value(d.take(i - start + 1)));
        if nv > 4294967295 {
            proof {
                lemma_digits_value_mono(d, i - start + 1);
            }
            return None;
        }
        v = nv;
        i = i + 1;
    }
    assert(d.take(n - start) =~= d);
    Some(v as u32)
}

/// A longer run of digits is worth at least as much as its prefix.
pub proof fn lemma_digits_value_mono(d: Seq<char>, k: int)
    requires
        0 <= k <= d.len(),
        forall|j: int| 0 <= j < k ==> #[trigger] dec_digit(d[j]),
    ensures
        (forall|j: int| 0 <= j < d.len() ==> #[trigger] dec_digit(d[j])) ==> digits_value(d.take(k)) <= digits_value(d),
    decreases d.len() - k,
{
    if k < d.len() && forall|j: int| 0 <= j < d.len() ==> #[trigger] dec_digit(d[j]) {
        lemma_digits_value_mono(d, k + 1);
        assert(d.take(k + 1).drop_last() =~= d.take(k));
        assert(dec_digit(d[k]));
    } else if k == d.len() {
        assert(d.take(k) =~= d);
    }
}

/// The numeric segments of an id, in order.
pub open spec fn natural_key(id: Seq<char>) -> Seq<u32> {
    natural_key_of(split_dots(id))
}

pub open spec fn natural_key_of(segs: Seq<Seq<char>>) -> Seq<u32>
    decreases segs.len(),
{
    if segs.len() == 0 {
        Seq::empty()
    } else {
        match parse_u32(segs.last()) {
            Some(v) => natural_key_of(segs.drop_last()).push(v),
            None => natural_key_of(segs.drop_last()),
        }
    }
}

/// Natural-numeric sort key: the id's segments that parse as `u32`, so
/// that `tx.2` sorts before `tx.10`.
pub fn natural_id_key(id: &str) -> (r: Vec<u32>)
    ensures
        r@ == natural_key(id@),
{
    let parts = split_dots_exec(id);
    let ghost p = strs(parts@);
    let mut out: Vec<u32> = Vec::new();
    let mut i: usize = 0;
    assert(p.take(0) =~= Seq::<Seq<char>>::empty());
    while i < parts.len()
        invariant
            i <= parts@.len(),
            p == strs(parts@),
            out@ == natural_key_of(p.take(i as int)),
        decreases parts@.len() - i,
    {
        assert(p.take(i + 1).drop_last() =~= p.take(i as int));
        assert(p.take(i + 1).last() == parts@[i as int]@);
        match parse_u32_exec(parts[i].as_str()) {
            Some(v) => out.push(v),
            None => {},
        }
        i = i + 1;
    }
    assert(p.take(parts@.len() as int) =~= p);
    out
}

/// Lexicographic order on keys (`Vec<u32>`'s `Ord`).
pub open spec fn key_lt(a: Seq<u32>, b: Seq<u32>) -> bool
    decreases a.len(),
{
    if a.len() == 0 {
        b.len() > 0
    } else if b.len() == 0 {
        false
    } else if a[0] != b[0] {
        a[0] < b[0]
    } else {
        key_lt(a.drop_first(), b.drop_first())
    }
}


/// `key_lt` is a strict total order.
pub proof fn lemma_key_lt_order(a: Seq<u32>, b: Seq<u32>, c: Seq<u32>)
    ensures
        !key_lt(a, a),
        key_lt(a, b) ==> !key_lt(b, a),
        a != b ==> key_lt(a, b) || key_lt(b, a),
        key_lt(a, b) && key_lt(b, c) ==> key_lt(a, c),
{
    lemma_key_lt_irrefl(a);
    lemma_key_lt_asym_total(a, b);
    lemma_key_lt_trans(a, b, c);
}

proof fn lemma_key_lt_irrefl(a: Seq<u32>)
    ensures
        !key_lt(a, a),
    decreases a.len(),
{
    if a.len() > 0 {
        lemma_key_lt_irrefl(a.drop_first());
    }
}

proof fn lemma_key_lt_asym_total(a: Seq<u32>, b: Seq<u32>)
    ensures
        key_lt(a, b) ==> !key_lt(b, a),
        a != b ==> key_lt(a, b) || key_lt(b, a),
    decreases a.len(),
{
    if a.len() > 0 && b.len() > 0 {
        lemma_key_lt_asym_total(a.drop_first(), b.drop_first());
        if a[0] == b[0] && a.drop_first() == b.drop_first() {
            assert(a =~= seq![a[0]] + a.drop_first());
            assert(b =~= seq![b[0]] + b.drop_first());
        }
    } else if a.len() == 0 && b.len() == 0 {
        assert(a =~= b);
    }
}

proof fn lemma_key_lt_trans(a: Seq<u32>, b: Seq<u32>, c: Seq<u32>)
    ensures
        key_lt(a, b) && key_lt(b, c) ==> key_lt(a, c),
    decreases a.len(),
{
    if a.len() > 0 && b.len() > 0 && c.len() > 0 {
        lemma_key_lt_trans(a.drop_first(), b.drop_first(), c.drop_first());
    }
}

pub(crate) fn key_less(a: &Vec<u32>, b: &Vec<u32>) -> (r: bool)
    ensures
        r == key_lt(a@, b@),
{
    let mut i: usize = 0;
    proof {
        lemma_key_lt_start(a@, b@);
    }
    while i < a.len() && i < b.len()
        invariant
            i <= a@.len(),
            i <= b@.len(),
            forall|j: int| 0 <= j < i ==> a@[j] == b@[j],
            key_lt(a@, b@) == key_lt(a@.skip(i as int), b@.skip(i as int)),
        decreases a@.len() - i,
    {
        if a[i] != b[i] {
            return a[i] < b[i];
        }
        proof {
            let x = a@.skip(i as int);
            let y = b@.skip(i as int);
            assert(x.drop_first() =~= a@.skip(i + 1));
            assert(y.drop_first() =~= b@.skip(i + 1));
        }
        i = i + 1;
    }
    i == a.len() && i < b.len()
}

proof fn lemma_key_lt_start(a: Seq<u32>, b: Seq<u32>)
    ensures
        key_lt(a, b) == key_lt(a.skip(0), b.skip(0)),
{
    assert(a.skip(0) =~= a);
    assert(b.skip(0) =~= b);
}


// ── Top-level concepts of an area ───────────────────────────────────

/// The order of the tree: natural key first, storage position second.
pub open spec fn pos_lt(g: Graph, a: int, b: int) -> bool {
    let ka = natural_key(g.nodes()[a].id@);
    let kb = natural_key(g.nodes()[b].id@);
    key_lt(ka, kb) || (ka == kb && a < b)
}

proof fn lemma_pos_lt(g: Graph, a: int, b: int, c: int)
    ensures
        !pos_lt(g, a, a),
        pos_lt(g, a, b) ==> !pos_lt(g, b, a),
        a != b ==> pos_lt(g, a, b) || pos_lt(g, b, a),
        pos_lt(g, a, b) && pos_lt(g, b, c) ==> pos_lt(g, a, c),
{
    let ka = natural_key(g.nodes()[a].id@);
    let kb = natural_key(g.nodes()[b].id@);
    let kc = natural_key(g.nodes()[c].id@);
    lemma_key_lt_irrefl(ka);
    lemma_key_lt_asym_total(ka, kb);
    lemma_key_lt_trans(ka, kb, kc);
    lemma_key_lt_irrefl(kb);
    if ka == kb {
        lemma_key_lt_trans(ka, kb, kc);
    }
    if kb == kc {
        lemma_key_lt_trans(ka, kb, kc);
    }
}

/// A top-level concept of the area `prefix`: its id has exactly two
/// segments and the first is the prefix.
pub open spec fn top_level_of(id: Seq<char>, prefix: Seq<char>) -> bool {
    split_dots(id).len() == 2 && split_dots(id)[0] == prefix
}

/// `r` lists the positions of the top-level concepts of area `prefix`,
/// each once, in the tree's order.
pub open spec fn top_level_order(g: Graph, prefix: Seq<char>, r: Seq<usize>) -> bool {
    listing(g, top_level_set(g, prefix), r)
}

/// Positions of the top-level concepts of area `prefix`, natural-numeric
/// order (`tx.2` before `tx.10`), ties in storage order.
fn top_level_positions(g: &Graph, prefix: &str) -> (r: Vec<usize>)
    ensures
        top_level_order(*g, prefix@, r@),
{
    proof {
        use_type_invariant(g);
    }
    let n = g.len();
    let mut r: Vec<usize> = Vec::new();
    let mut keys: Vec<Vec<u32>> = Vec::new();
    let mut j: usize = 0;
    while j < n
        invariant
            j <= n,
            n == g.nodes().len(),
            keys@.len() == r@.len(),
            forall|i: int| 0 <= i < r@.len() ==> (#[trigger] r@[i] as int) < j && top_level_of(g.nodes()[r@[i] as int].id@, prefix@)
                && keys@[i]@ == natural_key(g.nodes()[r@[i] as int].id@),
            forall|x: int| 0 <= x < j && top_level_of(g.nodes()[x].id@, prefix@) ==> exists|i: int| 0 <= i < r@.len() && r@[i] == x,
            forall|i: int, k: int| 0 <= i < k < r@.len() ==> pos_lt(*g, #[trigger] r@[i] as int, #[trigger] r@[k] as int),
        decreases n - j,
    {
        let c = g.node_at(j);
        let parts = split_dots_exec(c.id.as_str());
        proof {
            lemma_split_dots_len(c.id@);
        }
        if parts.len() == 2 && str_eq(parts[0].as_str(), prefix) {
            assert(top_level_of(g.nodes()[j as int].id@, prefix@)) by {
                assert(strs(parts@)[0] == parts@[0]@);
            }
            let key = natural_id_key(c.id.as_str());
            // Insertion point: after every entry that sorts before `j`.
            let mut p: usize = 0;
            while p < r.len() && (key_less(&keys[p], &key) || (!key_less(&key, &keys[p]) && r[p] < j))
                invariant
                    p <= r@.len(),
                    keys@.len() == r@.len(),
                    key@ == natural_key(g.nodes()[j as int].id@),
                    forall|i: int| 0 <= i < r@.len() ==> (#[trigger] r@[i] as int) < j && keys@[i]@ == natural_key(g.nodes()[r@[i] as int].id@),
                    forall|i: int| 0 <= i < p ==> pos_lt(*g, #[trigger] r@[i] as int, j as int),
                decreases r@.len() - p,
            {
                proof {
                    lemma_key_lt_asym_total(keys@[p as int]@, key@);
                }
                p = p + 1;
            }
            let ghost before = r@;
            proof {
                if p < r@.len() {
                    lemma_key_lt_asym_total(keys@[p as int]@, key@);
                    lemma_pos_lt(*g, j as int, before[p as int] as int, j as int);
                    assert(pos_lt(*g, j as int, before[p as int] as int));
                }
            }
            r.insert(p, j);
            keys.insert(p, key);
            proof {
                let after = r@;
                assert(after =~= before.insert(p as int, j));
                assert forall|i: int, k: int| 0 <= i < k < after.len() implies pos_lt(*g, #[trigger] after[i] as int, #[trigger] after[k] as int) by {
                    if k < p {
                        assert(after[i] == before[i] && after[k] == before[k]);
                    } else if k == p {
                        assert(after[i] == before[i]);
                    } else if i == p {
                        assert(after[k] == before[k - 1]);
                        if k - 1 > p {
                            assert(pos_lt(*g, before[p as int] as int, before[k - 1] as int));
                            lemma_pos_lt(*g, j as int, before[p as int] as int, before[k - 1] as int);
                        }
                    } else if i < p {
                        assert(after[i] == before[i] && after[k] == before[k - 1]);
                        if i < k - 1 {
                            assert(pos_lt(*g, before[i] as int, before[k - 1] as int));
                        }
                    } else {
                        assert(after[i] == before[i - 1] && after[k] == before[k - 1]);
                        assert(pos_lt(*g, before[i - 1] as int, before[k - 1] as int));
                    }
                }
                assert forall|x: int| 0 <= x < j + 1 && top_level_of(g.nodes()[x].id@, prefix@) implies exists|i: int| 0 <= i < after.len() && after[i] == x by {
                    if x == j as int {
                        assert(after[p as int] == j);
                    } else {
                        let i = choose|i: int| 0 <= i < before.len() && before[i] == x;
                        if i < p {
                            assert(after[i] == x);
                        } else {
                            assert(after[i + 1] == x);
                        }
                    }
                }
                assert forall|i: int| 0 <= i < after.len() implies (#[trigger] after[i] as int) < j + 1 && top_level_of(g.nodes()[after[i] as int].id@, prefix@)
                    && keys@[i]@ == natural_key(g.nodes()[after[i] as int].id@) by {
                    if i < p {
                        assert(after[i] == before[i]);
                    } else if i > p {
                        assert(after[i] == before[i - 1]);
                    }
                }
            }
        } else {
            assert(!top_level_of(g.nodes()[j as int].id@, prefix@)) by {
                if split_dots(c.id@).len() == 2 {
                    assert(strs(parts@)[0] == parts@[0]@);
                }
            }
        }
        j = j + 1;
    }
    r
}

/// The top-level concepts of area `prefix`: ids with exactly two segments
/// starting with the prefix, in natural-numeric order (`tx.2` before
/// `tx.10`), ties in storage order.
pub fn top_level_in_area<'a>(g: &'a Graph, prefix: &str) -> (r: Vec<&'a FlatConcept>)
    ensures
        exists|ps: Seq<usize>| #[trigger] top_level_order(*g, prefix@, ps) && ps.len() == r@.len() && forall|i: int|
            0 <= i < r@.len() ==> *r@[i] == g.nodes()[ps[i] as int],
{
    let ps = top_level_positions(g, prefix);
    let mut out: Vec<&FlatConcept> = Vec::new();
    let mut i: usize = 0;
    while i < ps.len()
        invariant
            i <= ps@.len(),
            top_level_order(*g, prefix@, ps@),
            out@.len() == i,
            forall|k: int| 0 <= k < i ==> *out@[k] == g.nodes()[ps@[k] as int],
        decreases ps@.len() - i,
    {
        assert((ps@[i as int] as int) < g.nodes().len());
        out.push(g.node_at(ps[i]));
        i = i + 1;
    }
    out
}


// ── Badges ──────────────────────────────────────────────────────────

/// ASCII lowercase of a character.
pub open spec fn ascii_lower(c: char) -> char {
    if 65 <= (c as int) <= 90 {
        ((c as int) + 32) as char
    } else {
        c
    }
}

fn to_ascii_lower(c: char) -> (r: char)
    ensures
        r == ascii_lower(c),
{
    let v = c as u32;
    if v >= 65 && v <= 90 {
        let b: u8 = (v + 32) as u8;
        b as char
    } else {
        c
    }
}


/// The first quiz of `c` with difficulty `d`: its badge is `upper` when it
/// has been answered correctly on the path, the lowercase letter when it
/// exists but has not, and `·` when there is none.
pub open spec fn spec_quiz_badge(correct: Set<Seq<char>>, c: FlatConcept, d: Difficulty, upper: char) -> char {
    match slot_index(c.quizzes@, d) {
        None => '·',
        Some(j) => if correct.contains(c.quizzes@[j].id@) {
            upper
        } else {
            ascii_lower(upper)
        },
    }
}

/// The badge of one quiz slot of `c`.
pub fn quiz_badge(progress: &PathProgress, c: &FlatConcept, diff: Difficulty, upper: char) -> (r: char)
    ensures
        r == spec_quiz_badge(progress.correct_quizzes@, *c, diff, upper),
{
    proof {
        lemma_slot_index(c.quizzes@, diff);
    }
    let mut j: usize = 0;
    while j < c.quizzes.len()
        invariant
            j <= c.quizzes@.len(),
            forall|i: int| 0 <= i < j ==> c.quizzes@[i].difficulty != diff,
            match slot_index(c.quizzes@, diff) {
                Some(k) => is_first_of(c.quizzes@, diff, k),
                None => forall|i: int| 0 <= i < c.quizzes@.len() ==> c.quizzes@[i].difficulty != diff,
            },
        decreases c.quizzes@.len() - j,
    {
        if c.quizzes[j].difficulty == diff {
            proof {
                match slot_index(c.quizzes@, diff) {
                    Some(k) => {
                        if k < j {
                        } else if j < k {
                        }
                    },
                    None => {},
                }
            }
            if progress.quiz_answered_correctly(c.quizzes[j].id.as_str()) {
                return upper;
            } else {
                return to_ascii_lower(upper);
            }
        }
        j = j + 1;
    }
    '·'
}

/// The text of a badge character.
fn badge_char_str(c: char) -> (s: &'static str)
    requires
        c == 'L' || c == 'E' || c == 'M' || c == 'H' || c == 'e' || c == 'm' || c == 'h' || c == '·',
    ensures
        s@ == seq![c],
{
    proof {
        reveal_strlit("L");
        reveal_strlit("E");
        reveal_strlit("M");
        reveal_strlit("H");
        reveal_strlit("e");
        reveal_strlit("m");
        reveal_strlit("h");
        reveal_strlit("·");
    }
    let s = if c == 'L' {
        "L"
    } else if c == 'E' {
        "E"
    } else if c == 'M' {
        "M"
    } else if c == 'H' {
        "H"
    } else if c == 'e' {
        "e"
    } else if c == 'm' {
        "m"
    } else if c == 'h' {
        "h"
    } else {
        "·"
    };
    assert(s@ =~= seq![c]);
    s
}

/// `[LEMH]`: `L` once the lesson has been taught on the path (else `·`),
/// then the easy, medium and hard quiz badges.
pub open spec fn spec_state_badge(taught: Set<Seq<char>>, correct: Set<Seq<char>>, c: FlatConcept) -> Seq<char> {
    seq![
        '[',
        if taught.contains(c.id@) { 'L' } else { '·' },
        spec_quiz_badge(correct, c, Difficulty::Easy, 'E'),
        spec_quiz_badge(correct, c, Difficulty::Medium, 'M'),
        spec_quiz_badge(correct, c, Difficulty::Hard, 'H'),
        ']'
    ]
}

/// The `[LEMH]` state badge of an atom on a path.
pub fn state_badge(progress: &PathProgress, c: &FlatConcept) -> (r: String)
    ensures
        r@ == spec_state_badge(progress.taught_atoms@, progress.correct_quizzes@, *c),
{
    let lesson = if progress.lesson_taught(c.id.as_str()) {
        'L'
    } else {
        '·'
    };
    let easy = quiz_badge(progress, c, Difficulty::Easy, 'E');
    let med = quiz_badge(progress, c, Difficulty::Medium, 'M');
    let hard = quiz_badge(progress, c, Difficulty::Hard, 'H');
    assert(ascii_lower('E') == 'e' && ascii_lower('M') == 'm' && ascii_lower('H') == 'h');
    let mut r = String::new();
    proof {
        reveal_strlit("[");
        reveal_strlit("]");
    }
    r.append("[");
    r.append(badge_char_str(lesson));
    r.append(badge_char_str(easy));
    r.append(badge_char_str(med));
    r.append(badge_char_str(hard));
    r.append("]");
    assert(r@ =~= spec_state_badge(progress.taught_atoms@, progress.correct_quizzes@, *c));
    r
}


// ── Rendering ───────────────────────────────────────────────────────

/// The children of `c` that the graph has and the spine holds, in order.
pub open spec fn kid_concepts(g: Map<Seq<char>, FlatConcept>, spine: Set<Seq<char>>, ids: Seq<Seq<char>>) -> Seq<FlatConcept>
    decreases ids.len(),
{
    if ids.len() == 0 {
        Seq::empty()
    } else if g.contains_key(ids.last()) && spine.contains(ids.last()) {
        kid_concepts(g, spine, ids.drop_last()).push(g[ids.last()])
    } else {
        kid_concepts(g, spine, ids.drop_last())
    }
}

/// The children a tree draws under a cluster are those of its children
/// that the spine holds: each drawn child is the graph's concept for one
/// of `ids` in the spine (so, when the graph keys each concept by its id,
/// it names a concept in the spine), each such child is drawn, and no
/// more are drawn than there are children.
pub proof fn law_kids_in_spine(g: Map<Seq<char>, FlatConcept>, spine: Set<Seq<char>>, ids: Seq<Seq<char>>)
    ensures
        kid_concepts(g, spine, ids).len() <= ids.len(),
        forall|k: int|
            0 <= k < kid_concepts(g, spine, ids).len() ==> exists|i: int|
                0 <= i < ids.len() && g.contains_key(ids[i]) && spine.contains(ids[i]) && #[trigger] kid_concepts(
                    g,
                    spine,
                    ids,
                )[k] == g[ids[i]],
        forall|i: int|
            0 <= i < ids.len() && g.contains_key(#[trigger] ids[i]) && spine.contains(ids[i]) ==> kid_concepts(
                g,
                spine,
                ids,
            ).contains(g[ids[i]]),
        (forall|x: Seq<char>| #[trigger] g.contains_key(x) ==> g[x].id@ == x) ==> forall|k: int|
            0 <= k < kid_concepts(g, spine, ids).len() ==> spine.contains(#[trigger] kid_concepts(g, spine, ids)[k].id@),
    decreases ids.len(),
{
    if ids.len() > 0 {
        let init = ids.drop_last();
        law_kids_in_spine(g, spine, init);
        let prev = kid_concepts(g, spine, init);
        let cur = kid_concepts(g, spine, ids);
        assert forall|k: int| 0 <= k < cur.len() implies exists|i: int|
            0 <= i < ids.len() && g.contains_key(ids[i]) && spine.contains(ids[i]) && #[trigger] cur[k] == g[ids[i]] by {
            if k < prev.len() {
                let i = choose|i: int| 0 <= i < init.len() && g.contains_key(init[i]) && spine.contains(init[i]) && prev[k] == g[init[i]];
                assert(ids[i] == init[i]);
                assert(cur[k] == prev[k]);
            } else {
                assert(cur[k] == g[ids[ids.len() - 1]]);
            }
        }
        assert forall|i: int| 0 <= i < ids.len() && g.contains_key(#[trigger] ids[i]) && spine.contains(ids[i]) implies cur.contains(g[ids[i]]) by {
            if i < init.len() {
                assert(init[i] == ids[i]);
                let k = choose|k: int| 0 <= k < prev.len() && prev[k] == g[init[i]];
                assert(cur[k] == prev[k]);
            } else {
                assert(cur[cur.len() - 1] == g[ids[i]]);
            }
        }
        if forall|x: Seq<char>| #[trigger] g.contains_key(x) ==> g[x].id@ == x {
            assert forall|k: int| 0 <= k < cur.len() implies spine.contains(#[trigger] cur[k].id@) by {
                let i = choose|i: int| 0 <= i < ids.len() && g.contains_key(ids[i]) && spine.contains(ids[i]) && cur[k] == g[ids[i]];
                assert(g.contains_key(ids[i]));
            }
        }
    }
}

/// What a tree line needs besides the concept: the graph, the path's
/// progress, the spine, the targets and the scheduler's next atom.
pub struct TreeCtx {
    pub taught: Set<Seq<char>>,
    pub correct: Set<Seq<char>>,
    pub graph: Map<Seq<char>, FlatConcept>,
    pub spine: Set<Seq<char>>,
    pub targets: Set<Seq<char>>,
    pub next: Option<Seq<char>>,
}

/// The line of one concept: the connector, then for an atom its badge,
/// id and name, ` *` for a target and `  ← NEXT` for the next atom; for a
/// cluster its id and name.
pub open spec fn node_line(ctx: TreeCtx, c: FlatConcept, prefix: Seq<char>, last: bool) -> Seq<char> {
    let conn = if last {
        "└─ "@
    } else {
        "├─ "@
    };
    if c.spec_is_atom() {
        joined(
            seq![
                prefix,
                conn,
                spec_state_badge(ctx.taught, ctx.correct, c),
                " "@,
                c.id@,
                " "@,
                c.name@,
                if ctx.targets.contains(c.id@) { " *"@ } else { ""@ },
                if ctx.next == Some(c.id@) { "  ← NEXT"@ } else { ""@ },
            ],
        )
    } else {
        joined(seq![prefix, conn, c.id@, " "@, c.name@])
    }
}

/// The lines of `c` and, below a cluster, of its children in the spine,
/// drawn with box characters under `prefix`. `fuel` bounds the depth.
pub open spec fn node_lines(ctx: TreeCtx, c: FlatConcept, prefix: Seq<char>, last: bool, fuel: nat) -> Seq<Seq<char>>
    decreases fuel, 0nat, 0nat,
{
    if c.spec_is_atom() || fuel == 0 {
        seq![node_line(ctx, c, prefix, last)]
    } else {
        let child_prefix = prefix + if last {
            "   "@
        } else {
            "│  "@
        };
        seq![node_line(ctx, c, prefix, last)] + kids_lines(
            ctx,
            kid_concepts(ctx.graph, ctx.spine, c.children()),
            0,
            child_prefix,
            (fuel - 1) as nat,
        )
    }
}

/// The lines of `kids[k..]`; the last kid is drawn with the closing
/// connector.
pub open spec fn kids_lines(ctx: TreeCtx, kids: Seq<FlatConcept>, k: int, prefix: Seq<char>, fuel: nat) -> Seq<Seq<char>>
    decreases fuel, 1nat, (kids.len() - k) as nat,
{
    if k < 0 || k >= kids.len() {
        Seq::empty()
    } else {
        node_lines(ctx, kids[k], prefix, k == kids.len() - 1, fuel) + kids_lines(ctx, kids, k + 1, prefix, fuel)
    }
}

pub open spec fn tree_ctx(g: &Graph, progress: &PathProgress, spine: &IdSet, targets: &IdSet, next: Option<&str>) -> TreeCtx {
    TreeCtx {
        taught: progress.taught_atoms@,
        correct: progress.correct_quizzes@,
        graph: g@,
        spine: spine@,
        targets: targets@,
        next: match next {
            Some(n) => Some(n@),
            None => None,
        },
    }
}

/// The children of `c` that the graph has and the spine holds.
pub(crate) fn kids_of<'a>(g: &'a Graph, spine: &IdSet, c: &FlatConcept) -> (r: Vec<&'a FlatConcept>)
    ensures
        r@.len() == kid_concepts(g@, spine@, c.children()).len(),
        forall|i: int| 0 <= i < r@.len() ==> *r@[i] == kid_concepts(g@, spine@, c.children())[i],
{
    let ghost ids = c.children();
    let mut out: Vec<&FlatConcept> = Vec::new();
    let mut i: usize = 0;
    assert(ids.take(0) =~= Seq::<Seq<char>>::empty());
    while i < c.children_ids.len()
        invariant
            i <= c.children_ids@.len(),
            ids == c.children(),
            out@.len() == kid_concepts(g@, spine@, ids.take(i as int)).len(),
            forall|k: int| 0 <= k < out@.len() ==> *out@[k] == kid_concepts(g@, spine@, ids.take(i as int))[k],
        decreases c.children_ids@.len() - i,
    {
        assert(ids.take(i + 1).drop_last() =~= ids.take(i as int));
        assert(ids.take(i + 1).last() == c.children_ids@[i as int]@);
        match g.get(c.children_ids[i].as_str()) {
            Some(kc) => {
                if spine.contains(c.children_ids[i].as_str()) {
                    out.push(kc);
                }
            },
            None => {},
        }
        i = i + 1;
    }
    assert(ids.take(c.children_ids@.len() as int) =~= ids);
    out
}

/// Appends the lines of `c` (see `node_lines`).
fn render_node(
    g: &Graph,
    progress: &PathProgress,
    spine: &IdSet,
    targets: &IdSet,
    c: &FlatConcept,
    prefix: &str,
    is_last: bool,
    next_atom: Option<&str>,
    out: &mut Vec<String>,
    fuel: usize,
)
    ensures
        strs(final(out)@) == strs(old(out)@) + node_lines(tree_ctx(g, progress, spine, targets, next_atom), *c, prefix@, is_last, fuel as nat),
    decreases fuel,
{
    let ghost ctx = tree_ctx(g, progress, spine, targets, next_atom);
    proof {
        reveal_strlit("└─ ");
        reveal_strlit("├─ ");
    }
    let connector = if is_last {
        "└─ "
    } else {
        "├─ "
    };
    let ghost before = strs(out@);
    if c.is_atom() {
        let badge = state_badge(progress, c);
        let star = if targets.contains(c.id.as_str()) {
            " *"
        } else {
            ""
        };
        let is_next = match next_atom {
            Some(n) => str_eq(n, c.id.as_str()),
            None => false,
        };
        let mark = if is_next {
            "  ← NEXT"
        } else {
            ""
        };
        let parts: [&str; 9] = [prefix, connector, badge.as_str(), " ", c.id.as_str(), " ", c.name.as_str(), star, mark];
        let line = concat(&parts);
        proof {
            assert(views(parts@) =~= seq![
                prefix@,
                connector@,
                badge@,
                " "@,
                c.id@,
                " "@,
                c.name@,
                star@,
                mark@,
            ]);
            assert(line@ == node_line(ctx, *c, prefix@, is_last));
        }
        out.push(line);
        assert(strs(out@) =~= before + seq![node_line(ctx, *c, prefix@, is_last)]);
        return;
    }
    let parts: [&str; 5] = [prefix, connector, c.id.as_str(), " ", c.name.as_str()];
    let line = concat(&parts);
    assert(views(parts@) =~= seq![prefix@, connector@, c.id@, " "@, c.name@]);
    out.push(line);
    assert(strs(out@) =~= before + seq![node_line(ctx, *c, prefix@, is_last)]);
    if fuel == 0 {
        return;
    }
    proof {
        reveal_strlit("   ");
        reveal_strlit("│  ");
    }
    let ext = if is_last {
        "   "
    } else {
        "│  "
    };
    let cparts: [&str; 2] = [prefix, ext];
    let child_prefix = concat(&cparts);
    proof {
        let v = seq![prefix@, ext@];
        assert(views(cparts@) =~= v);
        Seq::<Seq<char>>::empty().lemma_flatten_push(prefix@);
        seq![prefix@].lemma_flatten_push(ext@);
        assert(Seq::<Seq<char>>::empty().push(prefix@) =~= seq![prefix@]);
        assert(seq![prefix@].push(ext@) =~= v);
        assert(Seq::<Seq<char>>::empty().flatten() =~= Seq::<char>::empty()) by {
            reveal(Seq::flatten);
        }
        assert(child_prefix@ =~= prefix@ + ext@);
    }
    let kids = kids_of(g, spine, c);
    let ghost kv = kid_concepts(g@, spine@, c.children());
    let ghost f1 = (fuel - 1) as nat;
    let ghost mid = strs(out@);
    let mut k: usize = 0;
    while k < kids.len()
        invariant
            k <= kids@.len(),
            kids@.len() == kv.len(),
            forall|i: int| 0 <= i < kids@.len() ==> *kids@[i] == kv[i],
            f1 + 1 == fuel,
            ctx == tree_ctx(g, progress, spine, targets, next_atom),
            strs(out@) + kids_lines(ctx, kv, k as int, child_prefix@, f1) == mid + kids_lines(ctx, kv, 0, child_prefix@, f1),
        decreases kids@.len() - k,
    {
        let ghost b = strs(out@);
        render_node(g, progress, spine, targets, kids[k], child_prefix.as_str(), k + 1 == kids.len(), next_atom, out, fuel - 1);
        assert(strs(out@) + kids_lines(ctx, kv, k + 1, child_prefix@, f1) =~= b + kids_lines(ctx, kv, k as int, child_prefix@, f1));
        k = k + 1;
    }
    assert(strs(out@) =~= mid + kids_lines(ctx, kv, 0, child_prefix@, f1));
}


/// `r` lists the members of `s`, each once, in the tree's order.
pub open spec fn listing(g: Graph, s: Set<int>, r: Seq<usize>) -> bool {
    &&& forall|i: int| 0 <= i < r.len() ==> s.contains(#[trigger] r[i] as int)
    &&& forall|x: int| s.contains(x) ==> exists|i: int| 0 <= i < r.len() && r[i] == x
    &&& forall|i: int, k: int| 0 <= i < k < r.len() ==> pos_lt(g, #[trigger] r[i] as int, #[trigger] r[k] as int)
}

/// A set has one listing in the tree's order.
pub proof fn lemma_listing_unique(g: Graph, s: Set<int>, a: Seq<usize>, b: Seq<usize>)
    requires
        listing(g, s, a),
        listing(g, s, b),
    ensures
        a == b,
    decreases a.len(),
{
    if a.len() == 0 {
        if b.len() > 0 {
            assert(s.contains(b[0] as int));
            let i = choose|i: int| 0 <= i < a.len() && a[i] == b[0];
        }
        assert(a =~= b);
    } else if b.len() == 0 {
        assert(s.contains(a[0] as int));
        let i = choose|i: int| 0 <= i < b.len() && b[i] == a[0];
    } else {
        assert(s.contains(a[0] as int));
        assert(s.contains(b[0] as int));
        let i = choose|i: int| 0 <= i < b.len() && b[i] == a[0];
        let j = choose|j: int| 0 <= j < a.len() && a[j] == b[0];
        if i > 0 && j > 0 {
            assert(pos_lt(g, b[0] as int, b[i] as int));
            assert(pos_lt(g, a[0] as int, a[j] as int));
            lemma_pos_lt(g, a[0] as int, b[0] as int, a[0] as int);
        }
        assert(a[0] == b[0]);
        let h = a[0] as int;
        let s1 = s.remove(h);
        let a1 = a.drop_first();
        let b1 = b.drop_first();
        assert forall|k: int| 0 <= k < a1.len() implies s1.contains(#[trigger] a1[k] as int) by {
            assert(pos_lt(g, a[0] as int, a[k + 1] as int));
            lemma_pos_lt(g, a[0] as int, a[0] as int, a[0] as int);
            assert(s.contains(a[k + 1] as int));
        }
        assert forall|k: int| 0 <= k < b1.len() implies s1.contains(#[trigger] b1[k] as int) by {
            assert(pos_lt(g, b[0] as int, b[k + 1] as int));
            lemma_pos_lt(g, b[0] as int, b[0] as int, b[0] as int);
            assert(s.contains(b[k + 1] as int));
        }
        assert forall|x: int| s1.contains(x) implies exists|k: int| 0 <= k < a1.len() && a1[k] == x by {
            let p = choose|p: int| 0 <= p < a.len() && a[p] == x;
            assert(a1[p - 1] == x);
        }
        assert forall|x: int| s1.contains(x) implies exists|k: int| 0 <= k < b1.len() && b1[k] == x by {
            let p = choose|p: int| 0 <= p < b.len() && b[p] == x;
            assert(b1[p - 1] == x);
        }
        assert forall|p: int, k: int| 0 <= p < k < a1.len() implies pos_lt(g, #[trigger] a1[p] as int, #[trigger] a1[k] as int) by {
            assert(pos_lt(g, a[p + 1] as int, a[k + 1] as int));
        }
        assert forall|p: int, k: int| 0 <= p < k < b1.len() implies pos_lt(g, #[trigger] b1[p] as int, #[trigger] b1[k] as int) by {
            assert(pos_lt(g, b[p + 1] as int, b[k + 1] as int));
        }
        lemma_listing_unique(g, s1, a1, b1);
        assert(a =~= b) by {
            assert forall|k: int| 0 <= k < a.len() implies a[k] == b[k] by {
                if k > 0 {
                    assert(a1[k - 1] == b1[k - 1]);
                }
            }
        }
    }
}

/// The positions of the top-level concepts of area `prefix`.
pub open spec fn top_level_set(g: Graph, prefix: Seq<char>) -> Set<int> {
    Set::new(|x: int| 0 <= x < g.nodes().len() && top_level_of(g.nodes()[x].id@, prefix))
}

/// The top-level concepts of area `prefix` in the tree's order.
pub open spec fn top_roots(g: Graph, prefix: Seq<char>) -> Seq<usize> {
    choose|r: Seq<usize>| top_level_order(g, prefix, r)
}


/// The concepts at the positions `ps` whose ids the spine holds, in order.
pub open spec fn in_spine(g: Graph, spine: Set<Seq<char>>, ps: Seq<usize>) -> Seq<FlatConcept>
    decreases ps.len(),
{
    if ps.len() == 0 {
        Seq::empty()
    } else if spine.contains(g.nodes()[ps.last() as int].id@) {
        in_spine(g, spine, ps.drop_last()).push(g.nodes()[ps.last() as int])
    } else {
        in_spine(g, spine, ps.drop_last())
    }
}

/// The lines of one area: a heading and its top-level concepts in the
/// spine, then a blank line; nothing when none is in the spine.
pub open spec fn area_lines(ctx: TreeCtx, g: Graph, a: ManifestArea, fuel: nat) -> Seq<Seq<char>> {
    let roots = in_spine(g, ctx.spine, top_roots(g, a.prefix@));
    if roots.len() == 0 {
        Seq::empty()
    } else {
        seq![joined(seq![a.prefix@, " ("@, a.slug@, ")"@])] + kids_lines(ctx, roots, 0, ""@, fuel) + seq![""@]
    }
}

/// The lines of the areas, in manifest order.
pub open spec fn areas_lines(ctx: TreeCtx, g: Graph, areas: Seq<ManifestArea>, fuel: nat) -> Seq<Seq<char>>
    decreases areas.len(),
{
    if areas.len() == 0 {
        Seq::empty()
    } else {
        areas_lines(ctx, g, areas.drop_last(), fuel) + area_lines(ctx, g, areas.last(), fuel)
    }
}

/// The body of `mt path tree`: for each area of the manifest with
/// concepts in the spine, a heading line, the tree of its top-level
/// concepts and a blank line. The depth is bounded by the number of
/// concepts.
pub fn tree_lines(
    g: &Graph,
    areas: &Vec<ManifestArea>,
    progress: &PathProgress,
    spine: &IdSet,
    targets: &IdSet,
    next_atom: Option<&str>,
) -> (lines: Vec<String>)
    ensures
        strs(lines@) == areas_lines(tree_ctx(g, progress, spine, targets, next_atom), *g, areas@, g.nodes().len() as nat),
{
    let ghost ctx = tree_ctx(g, progress, spine, targets, next_atom);
    let fuel = g.len();
    let mut out: Vec<String> = Vec::new();
    let mut k: usize = 0;
    assert(areas@.take(0) =~= Seq::<ManifestArea>::empty());
    while k < areas.len()
        invariant
            k <= areas@.len(),
            fuel == g.nodes().len(),
            ctx == tree_ctx(g, progress, spine, targets, next_atom),
            strs(out@) == areas_lines(ctx, *g, areas@.take(k as int), fuel as nat),
        decreases areas@.len() - k,
    {
        let a = &areas[k];
        assert(areas@.take(k + 1).drop_last() =~= areas@.take(k as int));
        assert(areas@.take(k + 1).last() == *a);
        let ghost before = strs(out@);
        let all = top_level_in_area(g, a.prefix.as_str());
        let ghost ps = choose|ps: Seq<usize>| #[trigger] top_level_order(*g, a.prefix@, ps) && ps.len() == all@.len() && forall|i: int|
            0 <= i < all@.len() ==> *all@[i] == g.nodes()[ps[i] as int];
        proof {
            lemma_listing_unique(*g, top_level_set(*g, a.prefix@), ps, top_roots(*g, a.prefix@));
        }
        let mut roots: Vec<&FlatConcept> = Vec::new();
        let mut i: usize = 0;
        assert(ps.take(0) =~= Seq::<usize>::empty());
        while i < all.len()
            invariant
                i <= all@.len(),
                ps.len() == all@.len(),
                forall|x: int| 0 <= x < all@.len() ==> *all@[x] == g.nodes()[ps[x] as int],
                roots@.len() == in_spine(*g, spine@, ps.take(i as int)).len(),
                forall|x: int| 0 <= x < roots@.len() ==> *roots@[x] == in_spine(*g, spine@, ps.take(i as int))[x],
            decreases all@.len() - i,
        {
            assert(ps.take(i + 1).drop_last() =~= ps.take(i as int));
            assert(ps.take(i + 1).last() == ps[i as int]);
            if spine.contains(all[i].id.as_str()) {
                roots.push(all[i]);
            }
            i = i + 1;
        }
        assert(ps.take(all@.len() as int) =~= ps);
        let ghost rv = in_spine(*g, spine@, ps);
        if roots.len() > 0 {
            let parts: [&str; 4] = [a.prefix.as_str(), " (", a.slug.as_str(), ")"];
            let head = concat(&parts);
            assert(views(parts@) =~= seq![a.prefix@, " ("@, a.slug@, ")"@]);
            out.push(head);
            let ghost mid = strs(out@);
            let mut r: usize = 0;
            proof {
                reveal_strlit("");
            }
            while r < roots.len()
                invariant
                    r <= roots@.len(),
                    roots@.len() == rv.len(),
                    forall|x: int| 0 <= x < roots@.len() ==> *roots@[x] == rv[x],
                    fuel == g.nodes().len(),
                    ctx == tree_ctx(g, progress, spine, targets, next_atom),
                    ""@ == Seq::<char>::empty(),
                    strs(out@) + kids_lines(ctx, rv, r as int, ""@, fuel as nat) == mid + kids_lines(ctx, rv, 0, ""@, fuel as nat),
                decreases roots@.len() - r,
            {
                let ghost b = strs(out@);
                render_node(g, progress, spine, targets, roots[r], "", r + 1 == roots.len(), next_atom, &mut out, fuel);
                assert(strs(out@) + kids_lines(ctx, rv, r + 1, ""@, fuel as nat) =~= b + kids_lines(ctx, rv, r as int, ""@, fuel as nat));
                r = r + 1;
            }
            let ghost m2 = strs(out@);
            out.push(crate::ids::to_owned(""));
            assert(strs(out@) =~= m2.push(""@));
            assert(strs(out@) =~= before + area_lines(ctx, *g, *a, fuel as nat));
        } else {
            assert(area_lines(ctx, *g, *a, fuel as nat) =~= Seq::<Seq<char>>::empty());
            assert(strs(out@) =~= before + area_lines(ctx, *g, *a, fuel as nat));
        }
        k = k + 1;
    }
    assert(areas@.take(areas@.len() as int) =~= areas@);
    out
}

} // verus!
