use vstd::prelude::*;

verus! {

/// Relies on alloc's String::push_str: appends the characters of `other`
/// to the end of `s`.
pub assume_specification[ String::push_str ](s: &mut String, other: &str)
    ensures
        final(s)@ == old(s)@ + other@,
;

/// Relies on alloc's String::push: appends one character to the end of `s`.
pub assume_specification[ String::push ](s: &mut String, ch: char)
    ensures
        final(s)@ == old(s)@.push(ch),
;

/// The character for a single decimal digit.
pub open spec fn digit_char(d: int) -> char {
    if d == 0 {
        '0'
    } else if d == 1 {
        '1'
    } else if d == 2 {
        '2'
    } else if d == 3 {
        '3'
    } else if d == 4 {
        '4'
    } else if d == 5 {
        '5'
    } else if d == 6 {
        '6'
    } else if d == 7 {
        '7'
    } else if d == 8 {
        '8'
    } else {
        '9'
    }
}

/// The decimal rendering of a natural number, most significant digit first.
pub open spec fn dec_chars(n: nat) -> Seq<char>
    decreases n,
{
    if n < 10 {
        seq![digit_char(n as int)]
    } else {
        dec_chars(n / 10).push(digit_char((n % 10) as int))
    }
}

fn exec_digit_char(d: usize) -> (c: char)
    requires
        d < 10,
    ensures
        c == digit_char(d as int),
{
    if d == 0 {
        '0'
    } else if d == 1 {
        '1'
    } else if d == 2 {
        '2'
    } else if d == 3 {
        '3'
    } else if d == 4 {
        '4'
    } else if d == 5 {
        '5'
    } else if d == 6 {
        '6'
    } else if d == 7 {
        '7'
    } else if d == 8 {
        '8'
    } else {
        '9'
    }
}

/// Renders `n` in decimal.
pub fn usize_to_string(n: usize) -> (s: String)
    ensures
        s@ == dec_chars(n as nat),
{
    u64_to_string(n as u64)
}

/// The decimal rendering of a signed value: a minus sign before the digits
/// of the magnitude.
pub open spec fn int_chars(v: int) -> Seq<char> {
    if v < 0 {
        seq!['-'] + dec_chars((-v) as nat)
    } else {
        dec_chars(v as nat)
    }
}

/// Renders `x` in decimal, with a leading minus sign when negative.
pub fn i32_to_string(x: i32) -> (s: String)
    ensures
        s@ == int_chars(x as int),
{
    let v: i64 = x as i64;
    if v < 0 {
        let mag: u64 = (-v) as u64;
        let mut s = "-".to_owned();
        s.push_str(u64_to_string(mag).as_str());
        proof {
            reveal_strlit("-");
            assert(s@ =~= int_chars(x as int));
        }
        s
    } else {
        u64_to_string(v as u64)
    }
}

/// Renders `n` in decimal.
pub fn u64_to_string(n: u64) -> (s: String)
    ensures
        s@ == dec_chars(n as nat),
{
    let mut digits: Vec<char> = Vec::new();
    let mut m: u64 = n;
    loop
        invariant_except_break
            digits.len() == 0 ==> m == n,
            digits.len() > 0 ==> m > 0 && dec_chars(n as nat) == dec_chars(m as nat)
                + digits@.reverse(),
        ensures
            dec_chars(n as nat) == digits@.reverse(),
        decreases m, (if digits.len() == 0 { 1int } else { 0int }),
    {
        let d = m % 10;
        let ghost old_digits = digits@;
        digits.push(exec_digit_char((d) as usize));
        proof {
            assert(digits@.reverse() =~= seq![digit_char(d as int)] + old_digits.reverse());
        }
        if m < 10 {
            proof {
                assert(dec_chars(m as nat) == seq![digit_char(d as int)]);
                assert(dec_chars(n as nat) =~= digits@.reverse());
            }
            break ;
        }
        let ghost old_m = m as nat;
        m = m / 10;
        proof {
            assert(dec_chars(old_m) == dec_chars(m as nat).push(digit_char((old_m % 10) as int)));
            assert(dec_chars(n as nat) =~= dec_chars(m as nat) + digits@.reverse());
        }
    }
    let mut s = String::new();
    let mut i: usize = digits.len();
    while i > 0
        invariant
            i <= digits.len(),
            dec_chars(n as nat) == digits@.reverse(),
            s@ == digits@.subrange(i as int, digits@.len() as int).reverse(),
        decreases i,
    {
        i = i - 1;
        let ghost old_s = s@;
        s.push(digits[i]);
        proof {
            assert(digits@.subrange(i as int, digits@.len() as int).reverse() =~= old_s.push(
                digits@[i as int],
            ));
        }
    }
    proof {
        assert(digits@.subrange(0, digits@.len() as int) =~= digits@);
    }
    s
}

/// Strict lexicographic order on byte strings: the order std gives `str`.
pub open spec fn lex_lt(a: Seq<u8>, b: Seq<u8>) -> bool
    decreases a.len(),
{
    if b.len() == 0 {
        false
    } else if a.len() == 0 {
        true
    } else if a[0] < b[0] {
        true
    } else if a[0] > b[0] {
        false
    } else {
        lex_lt(a.drop_first(), b.drop_first())
    }
}

/// Compares two byte slices in lexicographic order.
pub fn bytes_lt(a: &[u8], b: &[u8]) -> (r: bool)
    ensures
        r == lex_lt(a@, b@),
{
    proof {
        assert(a@.skip(0) =~= a@);
        assert(b@.skip(0) =~= b@);
    }
    let mut i: usize = 0;
    while i < a.len() && i < b.len()
        invariant
            i <= a@.len(),
            i <= b@.len(),
            lex_lt(a@, b@) == lex_lt(a@.skip(i as int), b@.skip(i as int)),
        decreases a@.len() - i,
    {
        let x = a[i];
        let y = b[i];
        if x < y {
            proof {
                assert(a@.skip(i as int)[0] == x && b@.skip(i as int)[0] == y);
            }
            return true;
        }
        if x > y {
            proof {
                assert(a@.skip(i as int)[0] == x && b@.skip(i as int)[0] == y);
            }
            return false;
        }
        proof {
            assert(a@.skip(i as int)[0] == x && b@.skip(i as int)[0] == y);
            assert(a@.skip(i as int).drop_first() =~= a@.skip(i as int + 1));
            assert(b@.skip(i as int).drop_first() =~= b@.skip(i as int + 1));
        }
        i = i + 1;
    }
    proof {
        if i == b@.len() {
            assert(b@.skip(i as int).len() == 0);
        } else {
            assert(a@.skip(i as int).len() == 0 && b@.skip(i as int).len() > 0);
        }
    }
    i < b.len()
}

/// Whether two byte slices hold the same bytes.
pub fn bytes_eq(a: &[u8], b: &[u8]) -> (r: bool)
    ensures
        r == (a@ == b@),
{
    if a.len() != b.len() {
        proof {
            assert(a@ != b@);
        }
        return false;
    }
    for i in 0..a.len()
        invariant
            a@.len() == b@.len(),
            forall|k: int| 0 <= k < i ==> a@[k] == b@[k],
    {
        if a[i] != b[i] {
            return false;
        }
    }
    proof {
        assert(a@ =~= b@);
    }
    true
}

/// The pieces joined with `sep` between consecutive pieces.
pub open spec fn join_chars(pieces: Seq<Seq<char>>, sep: Seq<char>) -> Seq<char>
    decreases pieces.len(),
{
    if pieces.len() == 0 {
        Seq::empty()
    } else if pieces.len() == 1 {
        pieces[0]
    } else {
        join_chars(pieces.drop_last(), sep) + sep + pieces.last()
    }
}

/// Joins the strings of `v` with `sep` between consecutive entries.
pub fn join_strings(v: &Vec<String>, sep: &str) -> (r: String)
    ensures
        r@ == join_chars(v@.map_values(|s: String| s@), sep@),
{
    let ghost pieces = v@.map_values(|s: String| s@);
    let mut r = String::new();
    for i in 0..v.len()
        invariant
            pieces == v@.map_values(|s: String| s@),
            pieces.len() == v@.len(),
            r@ == join_chars(pieces.take(i as int), sep@),
    {
        if i > 0 {
            r.push_str(sep);
        }
        r.push_str(v[i].as_str());
        proof {
            assert(pieces.take(i as int + 1).drop_last() =~= pieces.take(i as int));
            assert(pieces.take(i as int + 1).last() == pieces[i as int]);
            if i == 0 {
                assert(r@ =~= join_chars(pieces.take(i as int + 1), sep@));
            } else {
                assert(r@ =~= join_chars(pieces.take(i as int + 1), sep@));
            }
        }
    }
    proof {
        assert(pieces.take(v@.len() as int) =~= pieces);
    }
    r
}

} // verus!
