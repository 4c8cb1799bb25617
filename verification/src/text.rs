//! Building text: concatenation of pieces and decimal numerals.
use vstd::prelude::*;
use vstd::string::*;

verus! {

/// The pieces written one after the other.
pub open spec fn joined(parts: Seq<Seq<char>>) -> Seq<char> {
    parts.flatten()
}

/// The views of a list of string slices.
pub open spec fn views(parts: Seq<&str>) -> Seq<Seq<char>> {
    parts.map_values(|p: &str| p@)
}

/// The pieces written one after the other.
pub fn concat(parts: &[&str]) -> (r: String)
    ensures
        r@ == joined(views(parts@)),
{
    let mut r = String::new();
    let mut i: usize = 0;
    while i < parts.len()
        invariant
            i <= parts@.len(),
            r@ == joined(views(parts@).take(i as int)),
        decreases parts@.len() - i,
    {
        let ghost before = r@;
        r.append(parts[i]);
        proof {
            let v = views(parts@);
            assert(v.take(i + 1) =~= v.take(i as int).push(parts@[i as int]@));
            v.take(i as int).lemma_flatten_push(parts@[i as int]@);
        }
        i = i + 1;
    }
    assert(views(parts@).take(parts@.len() as int) =~= views(parts@));
    r
}

/// The character of a decimal digit.
pub open spec fn digit_char(d: int) -> char {
    if d == 0 {
        '0'
    } else if d == 1 {
        '1'
    } else if d == 2 {
        '2'
    } else if d == 3 {
        '3'
    } else if d == 4 {
        '4'
    } else if d == 5 {
        '5'
    } else if d == 6 {
        '6'
    } else if d == 7 {
        '7'
    } else if d == 8 {
        '8'
    } else {
        '9'
    }
}

/// The decimal numeral of `n`, without leading zeros.
pub open spec fn decimal(n: nat) -> Seq<char>
    decreases n,
{
    if n < 10 {
        seq![digit_char(n as int)]
    } else {
        decimal(n / 10).push(digit_char((n % 10) as int))
    }
}

fn digit_str(d: u64) -> (s: &'static str)
    requires
        d < 10,
    ensures
        s@ == seq![digit_char(d as int)],
{
    proof {
        reveal_strlit("0");
        reveal_strlit("1");
        reveal_strlit("2");
        reveal_strlit("3");
        reveal_strlit("4");
        reveal_strlit("5");
        reveal_strlit("6");
        reveal_strlit("7");
        reveal_strlit("8");
        reveal_strlit("9");
    }
    let s = if d == 0 {
        "0"
    } else if d == 1 {
        "1"
    } else if d == 2 {
        "2"
    } else if d == 3 {
        "3"
    } else if d == 4 {
        "4"
    } else if d == 5 {
        "5"
    } else if d == 6 {
        "6"
    } else if d == 7 {
        "7"
    } else if d == 8 {
        "8"
    } else {
        "9"
    };
    assert(s@ =~= seq![digit_char(d as int)]);
    s
}

/// The decimal numeral of `n`.
pub fn decimal_string(n: u64) -> (r: String)
    ensures
        r@ == decimal(n as nat),
    decreases n,
{
    if n < 10 {
        let mut r = String::new();
        r.append(digit_str(n));
        assert(r@ =~= decimal(n as nat));
        r
    } else {
        let mut r = decimal_string(n / 10);
        r.append(digit_str(n % 10));
        assert(r@ =~= decimal(n as nat));
        r
    }
}

/// The decimal numeral of an integer, with a minus sign when negative.
pub open spec fn signed_decimal(v: int) -> Seq<char> {
    if v < 0 {
        seq!['-'] + decimal((-v) as nat)
    } else {
        decimal(v as nat)
    }
}

pub fn signed_decimal_string(v: i64) -> (r: String)
    ensures
        r@ == signed_decimal(v as int),
{
    if v < 0 {
        let mag: u64 = if v == i64::MIN {
            9223372036854775808u64
        } else {
            (-v) as u64
        };
        let digits = decimal_string(mag);
        proof {
            reveal_strlit("-");
        }
        let parts: [&str; 2] = ["-", digits.as_str()];
        assert("-"@ =~= seq!['-']);
        let r = concat(&parts);
        assert(views(parts@) =~= seq![seq!['-'], digits@]);
        proof {
            let v2 = seq![seq!['-'], digits@];
            Seq::<Seq<char>>::empty().lemma_flatten_push(seq!['-']);
            seq![seq!['-']].lemma_flatten_push(digits@);
            assert(Seq::<Seq<char>>::empty().push(seq!['-']) =~= seq![seq!['-']]);
            assert(seq![seq!['-']].push(digits@) =~= v2);
            assert(Seq::<Seq<char>>::empty().flatten() =~= Seq::<char>::empty()) by {
                reveal(Seq::flatten);
            }
        }
        r
    } else {
        decimal_string(v as u64)
    }
}


} // verus!
