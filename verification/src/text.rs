//! Building strings.
use vstd::prelude::*;

verus! {

/// `String::push`: appends one character.
#[verifier::external_body]
pub(crate) fn push_char(s: &mut String, c: char)
    ensures
        final(s)@ == old(s)@.push(c),
{
    s.push(c);
}

/// The lower-case letter at position `d` of the alphabet.
pub open spec fn letter(d: int) -> char {
    ((97 + d) as u8) as char
}

/// The letter at position `d`, for `d < 26`.
pub fn letter_exec(d: u8) -> (c: char)
    requires
        d < 26,
    ensures
        c == letter(d as int),
{
    (97u8 + d) as char
}

pub proof fn lemma_letter_injective(d: int, e: int)
    requires
        0 <= d < 26,
        0 <= e < 26,
        letter(d) == letter(e),
    ensures
        d == e,
{
    assert(letter(d) as u32 == 97 + d);
    assert(letter(e) as u32 == 97 + e);
}

} // verus!
verus! {

/// The decimal digit `d`.
pub open spec fn digit(d: int) -> char {
    ((48 + d) as u8) as char
}

/// The decimal numeral of `n`, without leading zeros.
pub open spec fn decimal(n: nat) -> Seq<char>
    decreases n,
{
    if n < 10 {
        seq![digit(n as int)]
    } else {
        decimal(n / 10).push(digit((n % 10) as int))
    }
}

/// A numeral has at least one digit, and at least two from 10 on.
pub proof fn lemma_decimal_len(n: nat)
    ensures
        decimal(n).len() >= 1,
        n >= 10 ==> decimal(n).len() >= 2,
    decreases n,
{
    if n >= 10 {
        lemma_decimal_len(n / 10);
    }
}

/// Distinct numbers have distinct numerals.
pub proof fn lemma_decimal_injective(m: nat, n: nat)
    requires
        decimal(m) == decimal(n),
    ensures
        m == n,
    decreases m,
{
    lemma_decimal_len(m);
    lemma_decimal_len(n);
    if m < 10 && n < 10 {
        assert(decimal(m)[0] == digit(m as int));
        assert(decimal(n)[0] == digit(n as int));
        assert(digit(m as int) as u32 == 48 + m);
        assert(digit(n as int) as u32 == 48 + n);
    } else if m >= 10 && n >= 10 {
        assert(decimal(m).last() == digit((m % 10) as int));
        assert(decimal(n).last() == digit((n % 10) as int));
        assert(digit((m % 10) as int) as u32 == 48 + m % 10);
        assert(digit((n % 10) as int) as u32 == 48 + n % 10);
        assert(decimal(m / 10) =~= decimal(m).drop_last());
        assert(decimal(n / 10) =~= decimal(n).drop_last());
        lemma_decimal_injective(m / 10, n / 10);
    } else {
        if m < 10 {
            assert(decimal(m).len() == 1);
        } else {
            assert(decimal(n).len() == 1);
        }
    }
}

/// The decimal numeral of `n`.
pub fn u64_to_decimal(n: u64) -> (r: String)
    ensures
        r@ == decimal(n as nat),
{
    let mut digits: Vec<char> = Vec::new();
    let mut m = n;
    let d = (m % 10) as u8;
    digits.push((48u8 + d) as char);
    m = m / 10;
    proof {
        if n >= 10 {
            assert(decimal(n as nat) =~= decimal(m as nat) + digits@.reverse());
        } else {
            assert(decimal(n as nat) =~= digits@.reverse());
        }
    }
    while m > 0
        invariant
            m > 0 ==> decimal(n as nat) == decimal(m as nat) + digits@.reverse(),
            m == 0 ==> decimal(n as nat) == digits@.reverse(),
        decreases m,
    {
        let ghost before = m;
        let ghost old_digits = digits@;
        let d = (m % 10) as u8;
        digits.push((48u8 + d) as char);
        m = m / 10;
        proof {
            assert(digits@.reverse() =~= seq![digit((before % 10) as int)] + old_digits.reverse());
            if m > 0 {
                assert(decimal(before as nat) == decimal(m as nat).push(digit((before % 10) as int)));
                assert(decimal(n as nat) =~= decimal(m as nat) + digits@.reverse());
            } else {
                assert(decimal(before as nat) == seq![digit(before as int)]);
                assert(decimal(n as nat) =~= digits@.reverse());
            }
        }
    }
    let mut r = String::new();
    let mut i = digits.len();
    while i > 0
        invariant
            i <= digits@.len(),
            r@ == digits@.subrange(i as int, digits@.len() as int).reverse(),
        decreases i,
    {
        i -= 1;
        push_char(&mut r, digits[i]);
        proof {
            assert(r@ =~= digits@.subrange(i as int, digits@.len() as int).reverse());
        }
    }
    proof {
        assert(digits@.subrange(0, digits@.len() as int) =~= digits@);
    }
    r
}

} // verus!
verus! {

/// The characters of `s`.
pub fn str_chars(s: &str) -> (v: Vec<char>)
    ensures
        v@ == s@,
{
    let mut v: Vec<char> = Vec::new();
    for c in it: s.chars()
        invariant
            v@ == it.seq().take(it.index() as int),
    {
        v.push(c);
    }
    v
}

} // verus!
