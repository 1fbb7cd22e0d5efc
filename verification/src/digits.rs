//! Decimal digit strings: emitting a number as its digits, parsing
//! digits back, and the facts tying the two directions together.

use vstd::prelude::*;

verus! {

/// The character of a decimal digit.
pub open spec fn digit_char(d: nat) -> char {
    if d == 0 {
        '0'
    } else if d == 1 {
        '1'
    } else if d == 2 {
        '2'
    } else if d == 3 {
        '3'
    } else if d == 4 {
        '4'
    } else if d == 5 {
        '5'
    } else if d == 6 {
        '6'
    } else if d == 7 {
        '7'
    } else if d == 8 {
        '8'
    } else {
        '9'
    }
}

/// Whether a character is a decimal digit.
pub open spec fn is_digit(c: char) -> bool {
    c == '0' || c == '1' || c == '2' || c == '3' || c == '4' || c == '5' || c == '6' || c == '7'
        || c == '8' || c == '9'
}

/// The value of a digit character.
pub open spec fn digit_val(c: char) -> nat {
    if c == '0' {
        0
    } else if c == '1' {
        1
    } else if c == '2' {
        2
    } else if c == '3' {
        3
    } else if c == '4' {
        4
    } else if c == '5' {
        5
    } else if c == '6' {
        6
    } else if c == '7' {
        7
    } else if c == '8' {
        8
    } else {
        9
    }
}

/// The decimal digits of `n`, most significant first.
pub open spec fn dec_digits(n: nat) -> Seq<char>
    decreases n,
{
    if n < 10 {
        seq![digit_char(n)]
    } else {
        dec_digits(n / 10).push(digit_char(n % 10))
    }
}

/// A number has at least one digit.
pub proof fn lemma_dec_digits_len(n: nat)
    ensures
        dec_digits(n).len() >= 1,
    decreases n,
{
    if n >= 10 {
        lemma_dec_digits_len(n / 10);
    }
}

/// Every character of a number's digits is a digit.
pub proof fn lemma_dec_digits_are_digits(n: nat)
    ensures
        forall|k: int| 0 <= k < dec_digits(n).len() ==> is_digit(#[trigger] dec_digits(n)[k]),
    decreases n,
{
    if n >= 10 {
        lemma_dec_digits_are_digits(n / 10);
        assert forall|k: int| 0 <= k < dec_digits(n).len() implies is_digit(
            #[trigger] dec_digits(n)[k],
        ) by {
            if k < dec_digits(n).len() - 1 {
                assert(dec_digits(n)[k] == dec_digits(n / 10)[k]);
            }
        }
    }
}

/// Two different numbers have different digit strings.
pub proof fn lemma_dec_digits_inj(m: nat, n: nat)
    requires
        dec_digits(m) == dec_digits(n),
    ensures
        m == n,
    decreases m,
{
    if m < 10 && n < 10 {
        assert(dec_digits(m)[0] == digit_char(m));
        assert(dec_digits(n)[0] == digit_char(n));
    } else if m < 10 && n >= 10 {
        lemma_dec_digits_len(n / 10);
        assert(dec_digits(n).len() >= 2);
    } else if m >= 10 && n < 10 {
        lemma_dec_digits_len(m / 10);
        assert(dec_digits(m).len() >= 2);
    } else {
        assert(dec_digits(m).last() == digit_char(m % 10));
        assert(dec_digits(n).last() == digit_char(n % 10));
        assert(m % 10 == n % 10);
        assert(dec_digits(m).drop_last() =~= dec_digits(m / 10));
        assert(dec_digits(n).drop_last() =~= dec_digits(n / 10));
        lemma_dec_digits_inj(m / 10, n / 10);
    }
}

/// The count of leading digit characters of `s`.
pub open spec fn digits_len(s: Seq<char>) -> nat
    decreases s.len(),
{
    if s.len() > 0 && is_digit(s[0]) {
        1 + digits_len(s.drop_first())
    } else {
        0
    }
}

/// The number a string of digit characters denotes.
pub open spec fn digits_val(s: Seq<char>) -> nat
    decreases s.len(),
{
    if s.len() == 0 {
        0
    } else {
        digits_val(s.drop_last()) * 10 + digit_val(s.last())
    }
}

/// Reading back the digits of `n` gives `n`.
pub proof fn lemma_digits_val_of_dec(n: nat)
    ensures
        digits_val(dec_digits(n)) == n,
    decreases n,
{
    if n < 10 {
        assert(dec_digits(n) == seq![digit_char(n)]);
        assert(dec_digits(n).last() == digit_char(n));
        assert(dec_digits(n).drop_last() =~= Seq::<char>::empty());
        assert(digits_val(Seq::<char>::empty()) == 0);
        assert(digit_val(digit_char(n)) == n);
    } else {
        assert(dec_digits(n).drop_last() =~= dec_digits(n / 10));
        assert(dec_digits(n).last() == digit_char(n % 10));
        assert(digit_val(digit_char(n % 10)) == n % 10);
        lemma_digits_val_of_dec(n / 10);
        assert(digits_val(dec_digits(n)) == (n / 10) * 10 + n % 10);
        assert((n / 10) * 10 + n % 10 == n);
    }
}

/// The leading digit run of digits followed by a non-digit is
/// exactly the digits.
pub proof fn lemma_digits_len_concat(a: Seq<char>, b: Seq<char>)
    requires
        forall|k: int| 0 <= k < a.len() ==> is_digit(#[trigger] a[k]),
        b.len() == 0 || !is_digit(b[0]),
    ensures
        digits_len(a + b) == a.len(),
    decreases a.len(),
{
    if a.len() == 0 {
        assert(a + b =~= b);
    } else {
        assert((a + b).drop_first() =~= a.drop_first() + b);
        lemma_digits_len_concat(a.drop_first(), b);
    }
}

/// A longer digit prefix never denotes a smaller number.
pub proof fn lemma_digits_val_mono(s: Seq<char>, i: int, k: int)
    requires
        0 <= i <= k <= s.len(),
    ensures
        digits_val(s.take(i)) <= digits_val(s.take(k)),
    decreases k - i,
{
    if i < k {
        lemma_digits_val_mono(s, i, k - 1);
        assert(s.take(k).drop_last() =~= s.take(k - 1));
    }
}

/// The leading digits of `s`, read as a number, with the rest of the
/// text; nothing when `s` does not start with a digit or the number
/// does not fit the machine.
pub open spec fn parse_num(s: Seq<char>) -> Option<(nat, Seq<char>)> {
    let k = digits_len(s) as int;
    if k == 0 {
        Option::<(nat, Seq<char>)>::None
    } else if digits_val(s.take(k)) > usize::MAX {
        Option::<(nat, Seq<char>)>::None
    } else {
        Some((digits_val(s.take(k)), s.skip(k)))
    }
}

/// Parsing the digits of a number out of any following text gives
/// the number back.
pub proof fn lemma_parse_num_of_dec(n: nat, rest: Seq<char>)
    requires
        n <= usize::MAX,
        rest.len() == 0 || !is_digit(rest[0]),
    ensures
        parse_num(dec_digits(n) + rest) == Some((n, rest)),
{
    let s = dec_digits(n) + rest;
    lemma_dec_digits_are_digits(n);
    lemma_dec_digits_len(n);
    lemma_digits_len_concat(dec_digits(n), rest);
    assert(digits_len(s) == dec_digits(n).len());
    assert(s.take(dec_digits(n).len() as int) =~= dec_digits(n));
    assert(s.skip(dec_digits(n).len() as int) =~= rest);
    lemma_digits_val_of_dec(n);
}

/// The character of a decimal digit, executably.
pub fn digit_of(d: usize) -> (c: char)
    requires
        d < 10,
    ensures
        c == digit_char(d as nat),
{
    if d == 0 {
        '0'
    } else if d == 1 {
        '1'
    } else if d == 2 {
        '2'
    } else if d == 3 {
        '3'
    } else if d == 4 {
        '4'
    } else if d == 5 {
        '5'
    } else if d == 6 {
        '6'
    } else if d == 7 {
        '7'
    } else if d == 8 {
        '8'
    } else {
        '9'
    }
}

/// Relies on String::push: appends exactly the one character.
#[verifier::external_body]
pub fn push_char(s: &mut String, c: char)
    ensures
        final(s)@ == old(s)@.push(c),
{
    s.push(c);
}

/// Appends the decimal digits of `n` to a string.
pub fn push_digits(out: &mut String, n: usize)
    ensures
        final(out)@ == old(out)@ + dec_digits(n as nat),
    decreases n,
{
    if n < 10 {
        push_char(out, digit_of(n));
        assert(final(out)@ =~= old(out)@ + dec_digits(n as nat));
    } else {
        push_digits(out, n / 10);
        push_char(out, digit_of(n % 10));
        assert(final(out)@ =~= old(out)@ + dec_digits(n as nat));
    }
}

/// Appends the decimal digits of `n` to a character buffer.
pub fn push_digit_chars(out: &mut Vec<char>, n: usize)
    ensures
        final(out)@ == old(out)@ + dec_digits(n as nat),
    decreases n,
{
    if n < 10 {
        out.push(digit_of(n));
        assert(final(out)@ =~= old(out)@ + dec_digits(n as nat));
    } else {
        push_digit_chars(out, n / 10);
        out.push(digit_of(n % 10));
        assert(final(out)@ =~= old(out)@ + dec_digits(n as nat));
    }
}

/// Whether a character is a decimal digit, executably.
pub fn is_digit_char(c: char) -> (r: bool)
    ensures
        r == is_digit(c),
{
    c == '0' || c == '1' || c == '2' || c == '3' || c == '4' || c == '5' || c == '6' || c == '7'
        || c == '8' || c == '9'
}

/// The value of a digit character, executably.
fn digit_val_of(c: char) -> (d: usize)
    requires
        is_digit(c),
    ensures
        d == digit_val(c),
        d < 10,
{
    if c == '0' {
        0
    } else if c == '1' {
        1
    } else if c == '2' {
        2
    } else if c == '3' {
        3
    } else if c == '4' {
        4
    } else if c == '5' {
        5
    } else if c == '6' {
        6
    } else if c == '7' {
        7
    } else if c == '8' {
        8
    } else {
        9
    }
}

/// Reads the number denoted by the leading digits of `text` from
/// position `pos`, deciding [`parse_num`] on the remaining text.
#[verifier::rlimit(60)]
pub fn parse_usize(text: &Vec<char>, pos: usize) -> (r: Option<(usize, usize)>)
    requires
        pos <= text@.len(),
    ensures
        match r {
            Some((v, p2)) => pos < p2 <= text@.len() && parse_num(text@.skip(pos as int)) == Some(
                (v as nat, text@.skip(p2 as int)),
            ),
            None => parse_num(text@.skip(pos as int)) is None,
        },
{
    let ghost s = text@.skip(pos as int);
    let n = text.len();
    let mut j = pos;
    while j < n && is_digit_char(text[j])
        invariant
            pos <= j <= n == text@.len(),
            s == text@.skip(pos as int),
            forall|k: int| pos <= k < j ==> is_digit(#[trigger] text@[k]),
        decreases n - j,
    {
        j += 1;
    }
    proof {
        let run = s.take(j - pos);
        let after = s.skip(j - pos);
        assert forall|k: int| 0 <= k < run.len() implies is_digit(#[trigger] run[k]) by {
            assert(run[k] == text@[k + pos]);
        }
        assert(after.len() == 0 || !is_digit(after[0])) by {
            if after.len() > 0 {
                assert(after[0] == text@[j as int]);
            }
        }
        lemma_digits_len_concat(run, after);
        assert(run + after =~= s);
        assert(digits_len(s) == j - pos);
    }
    if j == pos {
        return None;
    }
    let mut acc: usize = 0;
    let mut i = pos;
    while i < j
        invariant
            pos <= i <= j <= n == text@.len(),
            s == text@.skip(pos as int),
            digits_len(s) == j - pos,
            forall|k: int| pos <= k < j ==> is_digit(#[trigger] text@[k]),
            acc == digits_val(s.take(i - pos)),
        decreases j - i,
    {
        let d = digit_val_of(text[i]);
        proof {
            assert(s.take(i + 1 - pos).drop_last() =~= s.take(i - pos));
            assert(s.take(i + 1 - pos).last() == text@[i as int]);
        }
        if acc > (usize::MAX - d) / 10 {
            proof {
                assert(digits_val(s.take(i + 1 - pos)) == acc * 10 + d);
                assert(acc * 10 + d > usize::MAX) by (nonlinear_arith)
                    requires
                        acc > (usize::MAX - d) / 10,
                        d < 10,
                {}
                lemma_digits_val_mono(s, i + 1 - pos, j - pos);
            }
            return None;
        }
        proof {
            assert(acc * 10 + d <= usize::MAX) by (nonlinear_arith)
                requires
                    acc <= (usize::MAX - d) / 10,
                    d < 10,
            {}
        }
        acc = acc * 10 + d;
        i += 1;
    }
    proof {
        assert(s.skip(j - pos) =~= text@.skip(j as int));
    }
    Some((acc, j))
}

} // verus!
