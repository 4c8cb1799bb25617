//! Identifier utilities: character-level string helpers and a set of ids.
//!
//! Curriculum ids (`la.5.4.7`), quiz ids (`la.5.4.7.q2`) and path ids are
//! plain `String`s. Their mathematical model is the character sequence
//! `s@: Seq<char>`.
use vstd::prelude::*;
use vstd::string::*;

verus! {

broadcast use {vstd::seq_lib::group_seq_properties, vstd::seq::Seq::lemma_push_to_set_commute, vstd::seq::Seq::lemma_push_map_commute};

/// The character sequences of a sequence of strings.
pub open spec fn strs(v: Seq<String>) -> Seq<Seq<char>> {
    v.map_values(|s: String| s@)
}

/// Character-wise string equality.
pub fn str_eq(a: &str, b: &str) -> (r: bool)
    ensures
        r == (a@ == b@),
{
    let n = a.unicode_len();
    let m = b.unicode_len();
    if n != m {
        return false;
    }
    let mut i: usize = 0;
    while i < n
        invariant
            n == a@.len(),
            m == b@.len(),
            n == m,
            i <= n,
            forall|j: int| 0 <= j < i ==> a@[j] == b@[j],
        decreases n - i,
    {
        if a.get_char(i) != b.get_char(i) {
            return false;
        }
        i = i + 1;
    }
    assert(a@ =~= b@);
    true
}

/// The characters of a string slice.
pub fn chars_of(s: &str) -> (v: Vec<char>)
    ensures
        v@ == s@,
{
    let n = s.unicode_len();
    let mut v: Vec<char> = Vec::new();
    let mut i: usize = 0;
    while i < n
        invariant
            n == s@.len(),
            i <= n,
            v@ =~= s@.take(i as int),
        decreases n - i,
    {
        v.push(s.get_char(i));
        i = i + 1;
    }
    assert(s@.take(n as int) =~= s@);
    v
}

/// The prefix of `s` made of its first `n` characters.
pub fn prefix(s: &str, n: usize) -> (r: String)
    requires
        n <= s@.len(),
    ensures
        r@ == s@.take(n as int),
{
    let p = s.substring_char(0, n);
    assert(p@ =~= s@.take(n as int));
    p.to_owned()
}

/// Owned copy of a string slice.
pub fn to_owned(s: &str) -> (r: String)
    ensures
        r@ == s@,
{
    s.to_owned()
}

/// Copy of a string.
pub fn copy(s: &String) -> (r: String)
    ensures
        r@ == s@,
{
    s.clone()
}

/// The view of an optional string.
pub open spec fn opt_view(o: Option<String>) -> Option<Seq<char>> {
    match o {
        Some(s) => Some(s@),
        None => None,
    }
}

/// Copy of an optional string.
pub fn copy_opt(o: &Option<String>) -> (r: Option<String>)
    ensures
        opt_view(r) == opt_view(*o),
{
    match o {
        Some(s) => Some(copy(s)),
        None => None,
    }
}

/// Copies of each string in a vector, in order.
pub fn copy_all(v: &Vec<String>) -> (r: Vec<String>)
    ensures
        strs(r@) == strs(v@),
{
    let mut out: Vec<String> = Vec::new();
    let mut i: usize = 0;
    while i < v.len()
        invariant
            i <= v.len(),
            strs(out@) =~= strs(v@).take(i as int),
        decreases v.len() - i,
    {
        out.push(copy(&v[i]));
        i = i + 1;
    }
    assert(strs(v@).take(v.len() as int) =~= strs(v@));
    out
}

/// Whether `id` occurs in `v`.
pub fn vec_contains(v: &Vec<String>, id: &str) -> (r: bool)
    ensures
        r == strs(v@).contains(id@),
{
    let mut i: usize = 0;
    while i < v.len()
        invariant
            i <= v.len(),
            forall|j: int| 0 <= j < i ==> v@[j]@ != id@,
        decreases v.len() - i,
    {
        if str_eq(v[i].as_str(), id) {
            assert(strs(v@)[i as int] == id@);
            return true;
        }
        i = i + 1;
    }
    proof {
        if strs(v@).contains(id@) {
            let k = choose|k: int| 0 <= k < strs(v@).len() && strs(v@)[k] == id@;
            assert(v@[k]@ == id@);
        }
    }
    false
}

/// Index of the first occurrence of `id` in `v`.
pub fn vec_position(v: &Vec<String>, id: &str) -> (r: Option<usize>)
    ensures
        match r {
            Some(i) => i < v.len() && v@[i as int]@ == id@ && forall|j: int|
                0 <= j < i ==> v@[j]@ != id@,
            None => !strs(v@).contains(id@),
        },
{
    let mut i: usize = 0;
    while i < v.len()
        invariant
            i <= v.len(),
            forall|j: int| 0 <= j < i ==> v@[j]@ != id@,
        decreases v.len() - i,
    {
        if str_eq(v[i].as_str(), id) {
            return Some(i);
        }
        i = i + 1;
    }
    proof {
        if strs(v@).contains(id@) {
            let k = choose|k: int| 0 <= k < strs(v@).len() && strs(v@)[k] == id@;
            assert(v@[k]@ == id@);
        }
    }
    None
}

/// Whether `s` starts with `p` followed by a dot.
pub fn is_dotted_prefix(p: &str, s: &str) -> (r: bool)
    ensures
        r == p@.push('.').is_prefix_of(s@),
{
    let n = p.unicode_len();
    let m = s.unicode_len();
    if m <= n {
        return false;
    }
    let mut i: usize = 0;
    while i < n
        invariant
            n == p@.len(),
            m == s@.len(),
            n < m,
            i <= n,
            forall|j: int| 0 <= j < i ==> p@[j] == s@[j],
        decreases n - i,
    {
        if p.get_char(i) != s.get_char(i) {
            assert(p@.push('.')[i as int] != s@[i as int]);
            return false;
        }
        i = i + 1;
    }
    if s.get_char(n) != '.' {
        assert(p@.push('.')[n as int] != s@[n as int]);
        return false;
    }
    assert(p@.push('.') =~= s@.take(n + 1));
    true
}

/// Strict lexicographic order on character sequences, comparing characters
/// by code point. On strings this is the order of `str`'s `Ord`, since
/// UTF-8 keeps code point order byte for byte.
pub open spec fn str_lt(a: Seq<char>, b: Seq<char>) -> bool
    decreases a.len(),
{
    if a.len() == 0 {
        b.len() > 0
    } else if b.len() == 0 {
        false
    } else if a[0] != b[0] {
        (a[0] as int) < (b[0] as int)
    } else {
        str_lt(a.drop_first(), b.drop_first())
    }
}

/// `str_lt` is a strict total order.
pub proof fn lemma_str_lt_order(a: Seq<char>, b: Seq<char>, c: Seq<char>)
    ensures
        !str_lt(a, a),
        str_lt(a, b) ==> !str_lt(b, a),
        a != b ==> str_lt(a, b) || str_lt(b, a),
        str_lt(a, b) && str_lt(b, c) ==> str_lt(a, c),
{
    lemma_str_lt_irrefl(a);
    lemma_str_lt_asym_total(a, b);
    lemma_str_lt_trans(a, b, c);
}

proof fn lemma_str_lt_irrefl(a: Seq<char>)
    ensures
        !str_lt(a, a),
    decreases a.len(),
{
    if a.len() > 0 {
        lemma_str_lt_irrefl(a.drop_first());
    }
}

proof fn lemma_str_lt_asym_total(a: Seq<char>, b: Seq<char>)
    ensures
        str_lt(a, b) ==> !str_lt(b, a),
        a != b ==> str_lt(a, b) || str_lt(b, a),
    decreases a.len(),
{
    if a.len() > 0 && b.len() > 0 {
        lemma_str_lt_asym_total(a.drop_first(), b.drop_first());
        if a[0] != b[0] {
            assert((a[0] as int) != (b[0] as int));
        }
        if a[0] == b[0] && a.drop_first() == b.drop_first() {
            assert(a =~= seq![a[0]] + a.drop_first());
            assert(b =~= seq![b[0]] + b.drop_first());
        }
    } else if a.len() == 0 && b.len() == 0 {
        assert(a =~= b);
    }
}

proof fn lemma_str_lt_trans(a: Seq<char>, b: Seq<char>, c: Seq<char>)
    ensures
        str_lt(a, b) && str_lt(b, c) ==> str_lt(a, c),
    decreases a.len(),
{
    if a.len() > 0 && b.len() > 0 && c.len() > 0 {
        lemma_str_lt_trans(a.drop_first(), b.drop_first(), c.drop_first());
    }
}

proof fn lemma_str_lt_skip(a: Seq<char>, b: Seq<char>, i: int)
    requires
        0 <= i <= a.len(),
        i <= b.len(),
        forall|j: int| 0 <= j < i ==> a[j] == b[j],
    ensures
        str_lt(a, b) == str_lt(a.skip(i), b.skip(i)),
    decreases i,
{
    if i > 0 {
        lemma_str_lt_skip(a.drop_first(), b.drop_first(), i - 1);
        assert(a.drop_first().skip(i - 1) =~= a.skip(i));
        assert(b.drop_first().skip(i - 1) =~= b.skip(i));
    } else {
        assert(a.skip(0) =~= a);
        assert(b.skip(0) =~= b);
    }
}

/// Whether `a` sorts strictly before `b`.
pub fn str_less(a: &str, b: &str) -> (r: bool)
    ensures
        r == str_lt(a@, b@),
{
    let n = a.unicode_len();
    let m = b.unicode_len();
    let mut i: usize = 0;
    while i < n && i < m
        invariant
            n == a@.len(),
            m == b@.len(),
            i <= n,
            i <= m,
            forall|j: int| 0 <= j < i ==> a@[j] == b@[j],
        decreases n - i,
    {
        let x = a.get_char(i);
        let y = b.get_char(i);
        if x != y {
            proof {
                lemma_str_lt_skip(a@, b@, i as int);
                assert(a@.skip(i as int)[0] == x && b@.skip(i as int)[0] == y);
            }
            return (x as u32) < (y as u32);
        }
        i = i + 1;
    }
    proof {
        lemma_str_lt_skip(a@, b@, i as int);
    }
    i == n && i < m
}

/// A finite set of ids. Iteration order is insertion order.
#[derive(Debug)]
pub struct IdSet {
    items: Vec<String>,
}

impl View for IdSet {
    type V = Set<Seq<char>>;

    closed spec fn view(&self) -> Set<Seq<char>> {
        strs(self.items@).to_set()
    }
}

impl IdSet {
    #[verifier::type_invariant]
    spec fn distinct(&self) -> bool {
        strs(self.items@).no_duplicates()
    }

    /// The members in insertion order.
    pub closed spec fn order(&self) -> Seq<Seq<char>> {
        strs(self.items@)
    }

    /// The members are those of the insertion order.
    pub proof fn lemma_order(&self)
        ensures
            self@ == self.order().to_set(),
    {
    }

    /// The empty set.
    pub fn new() -> (s: IdSet)
        ensures
            s@ == Set::<Seq<char>>::empty(),
            s.order() == Seq::<Seq<char>>::empty(),
    {
        let s = IdSet { items: Vec::new() };
        assert(strs(s.items@) =~= Seq::<Seq<char>>::empty());
        assert(s@ =~= Set::<Seq<char>>::empty());
        s
    }

    /// Membership test.
    pub fn contains(&self, id: &str) -> (r: bool)
        ensures
            r == self@.contains(id@),
    {
        let r = vec_contains(&self.items, id);
        proof {
            if r {
                assert(strs(self.items@).to_set().contains(id@));
            }
        }
        r
    }

    /// Adds `id`; returns whether it was absent before.
    pub fn insert(&mut self, id: &str) -> (fresh: bool)
        ensures
            fresh == !old(self)@.contains(id@),
            final(self)@ == old(self)@.insert(id@),
            final(self).order() == (if fresh {
                old(self).order().push(id@)
            } else {
                old(self).order()
            }),
    {
        proof {
            use_type_invariant(&*self);
        }
        if vec_contains(&self.items, id) {
            assert(strs(self.items@).to_set().insert(id@) =~= strs(self.items@).to_set());
            false
        } else {
            let ghost old_items = strs(self.items@);
            let owned = to_owned(id);
            let mut items: Vec<String> = Vec::new();
            std::mem::swap(&mut items, &mut self.items);
            items.push(owned);
            assert(strs(items@) =~= old_items.push(id@));
            assert(strs(items@).to_set() =~= old_items.to_set().insert(id@));
            self.items = items;
            true
        }
    }

    /// Removes `id`; returns whether it was present.
    pub fn remove(&mut self, id: &str) -> (was: bool)
        ensures
            was == old(self)@.contains(id@),
            final(self)@ == old(self)@.remove(id@),
    {
        proof {
            use_type_invariant(&*self);
        }
        match vec_position(&self.items, id) {
            None => {
                assert(strs(self.items@).to_set().remove(id@) =~= strs(self.items@).to_set());
                false
            },
            Some(i) => {
                let ghost old_items = strs(self.items@);
                assert(old_items[i as int] == id@);
                assert(old_items.to_set().contains(id@));
                let mut items: Vec<String> = Vec::new();
                std::mem::swap(&mut items, &mut self.items);
                items.remove(i);
                let ghost rest = strs(items@);
                assert(rest =~= old_items.remove(i as int));
                assert forall|x: Seq<char>| rest.to_set().contains(x) == old_items.to_set().remove(id@).contains(x) by {
                    if rest.to_set().contains(x) {
                        let k = choose|k: int| 0 <= k < rest.len() && rest[k] == x;
                        if k < i {
                            assert(old_items[k] == x);
                            assert(x != id@) by {
                                if x == id@ {
                                    assert(old_items[i as int] == id@);
                                }
                            }
                        } else {
                            assert(old_items[k + 1] == x);
                            assert(x != id@) by {
                                if x == id@ {
                                    assert(old_items[i as int] == id@);
                                }
                            }
                        }
                    }
                    if old_items.to_set().remove(id@).contains(x) {
                        let k = choose|k: int| 0 <= k < old_items.len() && old_items[k] == x;
                        assert(k != i);
                        if k < i {
                            assert(rest[k] == x);
                        } else {
                            assert(rest[k - 1] == x);
                        }
                    }
                }
                assert(rest.to_set() =~= old_items.to_set().remove(id@));
                assert(rest.no_duplicates()) by {
                    assert forall|a: int, b: int| 0 <= a < rest.len() && 0 <= b < rest.len() && a != b implies rest[a] != rest[b] by {
                        let a2 = if a < i { a } else { a + 1 };
                        let b2 = if b < i { b } else { b + 1 };
                        assert(rest[a] == old_items[a2] && rest[b] == old_items[b2]);
                    }
                }
                self.items = items;
                true
            },
        }
    }

    /// Whether the set has no member.
    pub fn is_empty(&self) -> (r: bool)
        ensures
            r == (self@ == Set::<Seq<char>>::empty()),
    {
        if self.items.len() == 0 {
            assert(strs(self.items@) =~= Seq::<Seq<char>>::empty());
            assert(self@ =~= Set::<Seq<char>>::empty());
            true
        } else {
            assert(strs(self.items@)[0] == self.items@[0]@);
            assert(self@.contains(self.items@[0]@));
            false
        }
    }

    /// Adds every member of `other`.
    pub fn extend(&mut self, other: &IdSet)
        ensures
            final(self)@ == old(self)@.union(other@),
    {
        let v = other.to_vec();
        let ghost s0 = self@;
        let mut i: usize = 0;
        while i < v.len()
            invariant
                i <= v@.len(),
                self@ == s0.union(strs(v@).take(i as int).to_set()),
            decreases v@.len() - i,
        {
            self.insert(v[i].as_str());
            assert(strs(v@).take(i + 1) =~= strs(v@).take(i as int).push(v@[i as int]@));
            assert(strs(v@).take(i + 1).to_set() =~= strs(v@).take(i as int).to_set().insert(v@[i as int]@));
            assert(self@ =~= s0.union(strs(v@).take(i + 1).to_set()));
            i = i + 1;
        }
        assert(strs(v@).take(v.len() as int) =~= strs(v@));
    }

    /// Number of members.
    pub fn len(&self) -> (n: usize)
        ensures
            n == self@.len(),
    {
        proof {
            use_type_invariant(self);
            strs(self.items@).unique_seq_to_set();
        }
        self.items.len()
    }

    /// The members, in insertion order.
    pub fn to_vec(&self) -> (v: Vec<String>)
        ensures
            strs(v@) == self.order(),
            strs(v@).no_duplicates(),
            strs(v@).to_set() == self@,
    {
        proof {
            use_type_invariant(self);
        }
        copy_all(&self.items)
    }

    /// Builds the set of the given ids.
    pub fn from_vec(v: &Vec<String>) -> (s: IdSet)
        ensures
            s@ == strs(v@).to_set(),
    {
        let mut s = IdSet::new();
        let mut i: usize = 0;
        while i < v.len()
            invariant
                i <= v.len(),
                s@ =~= strs(v@).take(i as int).to_set(),
            decreases v.len() - i,
        {
            s.insert(v[i].as_str());
            assert(strs(v@).take(i + 1) =~= strs(v@).take(i as int).push(v@[i as int]@));
            assert(strs(v@).take(i as int).push(v@[i as int]@).to_set() =~= strs(v@).take(
                i as int,
            ).to_set().insert(v@[i as int]@));
            i = i + 1;
        }
        assert(strs(v@).take(v.len() as int) =~= strs(v@));
        s
    }
}

} // verus!
