//! Decimal literals: recognizing a numeric word, reading its value with a
//! ceiling, and printing a number back as a word.

use vstd::prelude::*;
use crate::text::is_space_char;

verus! {

/// The ten decimal digit characters.
pub open spec fn is_digit_char(c: char) -> bool {
    c == '0' || c == '1' || c == '2' || c == '3' || c == '4' || c == '5' || c == '6' || c == '7'
        || c == '8' || c == '9'
}

/// The value of one digit character.
pub open spec fn digit_val(c: char) -> nat {
    if c == '0' {
        0
    } else if c == '1' {
        1
    } else if c == '2' {
        2
    } else if c == '3' {
        3
    } else if c == '4' {
        4
    } else if c == '5' {
        5
    } else if c == '6' {
        6
    } else if c == '7' {
        7
    } else if c == '8' {
        8
    } else {
        9
    }
}

/// The digit character for a value below ten.
pub open spec fn digit_char(d: nat) -> char {
    if d == 0 {
        '0'
    } else if d == 1 {
        '1'
    } else if d == 2 {
        '2'
    } else if d == 3 {
        '3'
    } else if d == 4 {
        '4'
    } else if d == 5 {
        '5'
    } else if d == 6 {
        '6'
    } else if d == 7 {
        '7'
    } else if d == 8 {
        '8'
    } else {
        '9'
    }
}

/// A plain numeric literal: nonempty, digits only.
pub open spec fn all_digits(s: Seq<char>) -> bool {
    s.len() > 0 && forall|i: int| 0 <= i < s.len() ==> is_digit_char(#[trigger] s[i])
}

/// The numeric value of a digit word, most significant digit first.
pub open spec fn digits_val(s: Seq<char>) -> nat
    decreases s.len(),
{
    if s.len() == 0 {
        0
    } else {
        digits_val(s.take(s.len() - 1)) * 10 + digit_val(s[s.len() - 1])
    }
}

/// The decimal spelling of `n`, without leading zeros.
pub open spec fn dec_digits(n: nat) -> Seq<char>
    decreases n,
{
    if n < 10 {
        seq![digit_char(n)]
    } else {
        dec_digits(n / 10) + seq![digit_char(n % 10)]
    }
}

/// Reading one more digit multiplies the value by ten and adds it.
pub proof fn lemma_digits_val_snoc(s: Seq<char>, i: int)
    requires
        0 <= i < s.len(),
    ensures
        digits_val(s.take(i + 1)) == digits_val(s.take(i)) * 10 + digit_val(s[i]),
{
    let t = s.take(i + 1);
    assert(t.len() == i + 1);
    assert(t.take(i) =~= s.take(i));
    assert(t[i] == s[i]);
}

/// The decimal spelling consists of digits and spells the number back.
pub proof fn lemma_dec_digits(n: nat)
    ensures
        dec_digits(n).len() >= 1,
        all_digits(dec_digits(n)),
        digits_val(dec_digits(n)) == n,
    decreases n,
{
    if n < 10 {
        let d = dec_digits(n);
        assert(d.take(0) =~= Seq::<char>::empty());
        assert(digits_val(d) == digits_val(d.take(0)) * 10 + digit_val(d[0]));
    } else {
        lemma_dec_digits(n / 10);
        let a = dec_digits(n / 10);
        let d = a + seq![digit_char(n % 10)];
        assert(d.len() == a.len() + 1);
        assert forall|i: int| 0 <= i < d.len() implies is_digit_char(#[trigger] d[i]) by {
            if i < a.len() {
                assert(d[i] == a[i]);
            }
        }
        assert(d.take(d.len() - 1) =~= a);
        assert(digits_val(d) == digits_val(a) * 10 + digit_val(d[d.len() - 1]));
        assert(digit_val(digit_char(n % 10)) == n % 10);
        assert(n / 10 * 10 + n % 10 == n) by {
            vstd::arithmetic::div_mod::lemma_fundamental_div_mod(n as int, 10);
        }
    }
}

/// A digit word is a well-formed, semicolon-free word.
pub proof fn lemma_digits_wf(s: Seq<char>)
    requires
        all_digits(s),
    ensures
        crate::text::wf_word(s),
        crate::text::no_semi(s),
{
    assert forall|i: int| 0 <= i < s.len() implies !is_space_char(#[trigger] s[i]) && s[i]
        != ';' by {
        assert(is_digit_char(s[i]));
    }
}

/// Whether `c` is a decimal digit, decided in executable code.
pub fn is_digit_exec(c: char) -> (r: bool)
    ensures
        r == is_digit_char(c),
{
    c == '0' || c == '1' || c == '2' || c == '3' || c == '4' || c == '5' || c == '6' || c == '7'
        || c == '8' || c == '9'
}

/// The value of one digit character, in executable code.
pub fn digit_val_exec(c: char) -> (r: u32)
    requires
        is_digit_char(c),
    ensures
        r == digit_val(c),
{
    if c == '0' {
        0
    } else if c == '1' {
        1
    } else if c == '2' {
        2
    } else if c == '3' {
        3
    } else if c == '4' {
        4
    } else if c == '5' {
        5
    } else if c == '6' {
        6
    } else if c == '7' {
        7
    } else if c == '8' {
        8
    } else {
        9
    }
}

/// The digit character for a value below ten, in executable code.
pub fn digit_char_exec(d: u32) -> (r: char)
    requires
        d < 10,
    ensures
        r == digit_char(d as nat),
{
    if d == 0 {
        '0'
    } else if d == 1 {
        '1'
    } else if d == 2 {
        '2'
    } else if d == 3 {
        '3'
    } else if d == 4 {
        '4'
    } else if d == 5 {
        '5'
    } else if d == 6 {
        '6'
    } else if d == 7 {
        '7'
    } else if d == 8 {
        '8'
    } else {
        '9'
    }
}

/// Whether `w` is a plain numeric literal.
pub fn all_digits_exec(w: &Vec<char>) -> (r: bool)
    ensures
        r == all_digits(w@),
{
    if w.len() == 0 {
        return false;
    }
    let mut i: usize = 0;
    while i < w.len()
        invariant
            i <= w@.len(),
            forall|j: int| 0 <= j < i ==> is_digit_char(#[trigger] w@[j]),
        decreases w@.len() - i,
    {
        if !is_digit_exec(w[i]) {
            return false;
        }
        i = i + 1;
    }
    true
}

/// The value of the digit word `w`, saturated just above `cap`: the exact
/// value when it is at most `cap`, and `cap + 1` when it is larger.
pub fn digits_val_capped(w: &Vec<char>, cap: u64) -> (r: u64)
    requires
        all_digits(w@),
        cap <= 0xFFFF_FFFF,
    ensures
        digits_val(w@) <= cap ==> r == digits_val(w@),
        digits_val(w@) > cap ==> r == cap + 1,
{
    let mut acc: u64 = 0;
    let mut i: usize = 0;
    while i < w.len()
        invariant
            all_digits(w@),
            cap <= 0xFFFF_FFFF,
            i <= w@.len(),
            acc <= cap + 1,
            digits_val(w@.take(i as int)) <= cap ==> acc == digits_val(w@.take(i as int)),
            digits_val(w@.take(i as int)) > cap ==> acc == cap + 1,
        decreases w@.len() - i,
    {
        let d = digit_val_exec(w[i]);
        proof {
            lemma_digits_val_snoc(w@, i as int);
        }
        let ghost v = digits_val(w@.take(i as int));
        let ghost v2 = digits_val(w@.take(i as int + 1));
        if acc <= cap {
            let t = acc * 10 + (d as u64);
            proof {
                assert(v2 == v * 10 + digit_val(w@[i as int]));
            }
            if t > cap {
                acc = cap + 1;
            } else {
                acc = t;
            }
        } else {
            proof {
                assert(v > cap);
                assert(v2 >= v * 10) by {
                    assert(v * 10 >= v) by (nonlinear_arith)
                        requires v >= 0;
                }
                assert(v2 > cap);
            }
        }
        i = i + 1;
    }
    proof {
        assert(w@.take(w@.len() as int) =~= w@);
    }
    acc
}

/// The decimal spelling of `n` appended to `out`.
pub fn push_dec_digits(n: u32, out: &mut Vec<char>)
    ensures
        final(out)@ == old(out)@ + dec_digits(n as nat),
    decreases n,
{
    if n < 10 {
        out.push(digit_char_exec(n));
        proof {
            assert(out@ =~= old(out)@ + dec_digits(n as nat));
        }
    } else {
        let ghost before = out@;
        push_dec_digits(n / 10, out);
        out.push(digit_char_exec(n % 10));
        proof {
            assert(out@ =~= before + dec_digits(n as nat));
        }
    }
}

/// The decimal spelling of `n`, as a fresh word.
pub fn u32_to_chars(n: u32) -> (r: Vec<char>)
    ensures
        r@ == dec_digits(n as nat),
{
    let mut r: Vec<char> = Vec::new();
    push_dec_digits(n, &mut r);
    proof {
        assert(Seq::<char>::empty() + dec_digits(n as nat) =~= dec_digits(n as nat));
    }
    r
}

} // verus!
