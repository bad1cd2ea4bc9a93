//! Showing game time as minutes and seconds.
use vstd::prelude::*;

verus! {

/// The character of a decimal digit.
pub open spec fn digit_char(d: int) -> char {
    if d == 0 { '0' }
    else if d == 1 { '1' }
    else if d == 2 { '2' }
    else if d == 3 { '3' }
    else if d == 4 { '4' }
    else if d == 5 { '5' }
    else if d == 6 { '6' }
    else if d == 7 { '7' }
    else if d == 8 { '8' }
    else { '9' }
}

/// The decimal digits of `n`, most significant first, without leading
/// zeros ("0" for zero).
pub open spec fn decimal(n: nat) -> Seq<char>
    decreases n,
{
    if n < 10 {
        seq![digit_char(n as int)]
    } else {
        decimal(n / 10).push(digit_char((n % 10) as int))
    }
}

/// `digits` padded on the left with zeros to at least two characters.
pub open spec fn pad_two(digits: Seq<char>) -> Seq<char> {
    if digits.len() < 2 {
        seq!['0'] + digits
    } else {
        digits
    }
}

/// "MM:SS" for a whole number of seconds: the minutes and the remaining
/// seconds, each with at least two digits.
pub open spec fn mm_ss(total_seconds: nat) -> Seq<char> {
    pad_two(decimal(total_seconds / 60)) + seq![':'] + pad_two(decimal(total_seconds % 60))
}

/// The number that a string of decimal digits spells, read by character
/// codes ('0' is code 48).
pub open spec fn digits_value(s: Seq<char>) -> int
    decreases s.len(),
{
    if s.len() == 0 {
        0
    } else {
        digits_value(s.drop_last()) * 10 + (s.last() as int - 48)
    }
}

/// `c` is one of the ASCII digits '0' to '9'.
pub open spec fn is_digit(c: char) -> bool {
    48 <= c as int <= 57
}

/// Each digit character is the ASCII digit of its value: code 48 + d.
pub proof fn law_digit_char_codes(d: int)
    requires
        0 <= d < 10,
    ensures
        digit_char(d) as int == 48 + d,
{
}

/// The decimal rendering of `n` consists of ASCII digits and reads back as
/// `n`.
pub proof fn law_decimal_reads_back(n: nat)
    ensures
        digits_value(decimal(n)) == n,
        forall|i: int| 0 <= i < decimal(n).len() ==> is_digit(#[trigger] decimal(n)[i]),
        decimal(n).len() >= 1,
    decreases n,
{
    law_digit_char_codes((n % 10) as int);
    if n >= 10 {
        law_decimal_reads_back(n / 10);
        let d = decimal(n);
        assert(d.drop_last() == decimal(n / 10));
        assert(d.last() == digit_char((n % 10) as int));
        assert(digits_value(d) == digits_value(decimal(n / 10)) * 10 + (n % 10));
        assert((n / 10) * 10 + n % 10 == n) by (nonlinear_arith);
        assert forall|i: int| 0 <= i < d.len() implies is_digit(#[trigger] d[i]) by {
            if i < d.len() - 1 {
                assert(d[i] == decimal(n / 10)[i]);
            }
        }
    } else {
        assert(decimal(n).drop_last() =~= Seq::<char>::empty());
        assert(digits_value(Seq::<char>::empty()) == 0);
        assert(decimal(n).last() == digit_char(n as int));
    }
}

/// A leading zero does not change the number a digit string spells.
proof fn lemma_leading_zero(s: Seq<char>)
    ensures
        digits_value(seq!['0'] + s) == digits_value(s),
    decreases s.len(),
{
    let t = seq!['0'] + s;
    if s.len() > 0 {
        lemma_leading_zero(s.drop_last());
        assert(t.drop_last() =~= seq!['0'] + s.drop_last());
        assert(t.last() == s.last());
    } else {
        assert(t.drop_last() =~= Seq::<char>::empty());
        assert(digits_value(Seq::<char>::empty()) == 0);
        assert(t.last() == '0');
        assert(s =~= Seq::<char>::empty());
    }
}

/// Padding to two digits keeps the digits and the number they spell.
proof fn lemma_pad_two_reads_back(n: nat)
    ensures
        digits_value(pad_two(decimal(n))) == n,
        forall|i: int| 0 <= i < pad_two(decimal(n)).len() ==> is_digit(#[trigger] pad_two(decimal(n))[i]),
        pad_two(decimal(n)).len() >= 2,
        n < 100 ==> pad_two(decimal(n)).len() == 2,
{
    law_decimal_reads_back(n);
    let d = decimal(n);
    if d.len() < 2 {
        lemma_leading_zero(d);
        assert forall|i: int| 0 <= i < pad_two(d).len() implies is_digit(#[trigger] pad_two(d)[i]) by {
            if i > 0 {
                assert(pad_two(d)[i] == d[i - 1]);
            }
        }
    }
    if n < 100 {
        if n >= 10 {
            assert(decimal(n / 10).len() == 1);
        }
    } else {
        assert(d.len() == decimal(n / 10).len() + 1);
        law_decimal_reads_back(n / 10);
    }
}

/// "MM:SS" reads back: the colon stands three characters from the end, the
/// digits before it spell the whole minutes `total_seconds / 60` (at least
/// two of them), and the two digits after it spell the remaining seconds
/// `total_seconds % 60`.
pub proof fn law_mm_ss_reads_back(total_seconds: nat)
    ensures
        mm_ss(total_seconds).len() >= 5,
        mm_ss(total_seconds)[mm_ss(total_seconds).len() - 3] == ':',
        digits_value(mm_ss(total_seconds).take(mm_ss(total_seconds).len() - 3)) == total_seconds / 60,
        digits_value(mm_ss(total_seconds).skip(mm_ss(total_seconds).len() - 2)) == total_seconds % 60,
        forall|i: int|
            0 <= i < mm_ss(total_seconds).len() && i != mm_ss(total_seconds).len() - 3 ==> is_digit(
                #[trigger] mm_ss(total_seconds)[i],
            ),
{
    let m = pad_two(decimal(total_seconds / 60));
    let sec = pad_two(decimal(total_seconds % 60));
    lemma_pad_two_reads_back(total_seconds / 60);
    lemma_pad_two_reads_back(total_seconds % 60);
    let r = mm_ss(total_seconds);
    assert(r == m + seq![':'] + sec);
    assert(r.take(r.len() - 3) =~= m);
    assert(r.skip(r.len() - 2) =~= sec);
    assert forall|i: int| 0 <= i < r.len() && i != r.len() - 3 implies is_digit(#[trigger] r[i]) by {
        if i < m.len() {
            assert(r[i] == m[i]);
        } else {
            assert(r[i] == sec[i - m.len() - 1]);
        }
    }
}

/// `String::push`: the character is appended at the end.
#[verifier::external_body]
fn push_char(s: &mut String, c: char)
    ensures
        final(s)@ == old(s)@.push(c),
{
    s.push(c);
}

fn digit(d: u32) -> (c: char)
    requires
        d < 10,
    ensures
        c == digit_char(d as int),
{
    if d == 0 { '0' }
    else if d == 1 { '1' }
    else if d == 2 { '2' }
    else if d == 3 { '3' }
    else if d == 4 { '4' }
    else if d == 5 { '5' }
    else if d == 6 { '6' }
    else if d == 7 { '7' }
    else if d == 8 { '8' }
    else { '9' }
}

fn push_decimal(s: &mut String, n: u32)
    ensures
        final(s)@ == old(s)@ + decimal(n as nat),
    decreases n,
{
    if n >= 10 {
        push_decimal(s, n / 10);
    }
    push_char(s, digit(n % 10));
    assert(final(s)@ =~= old(s)@ + decimal(n as nat)) by {
        if n >= 10 {
            assert(decimal(n as nat) == decimal((n / 10) as nat).push(digit_char((n % 10) as int)));
        }
    }
}

fn push_two_digits(s: &mut String, n: u32)
    ensures
        final(s)@ == old(s)@ + pad_two(decimal(n as nat)),
{
    if n < 10 {
        push_char(s, '0');
    }
    push_decimal(s, n);
    assert(final(s)@ =~= old(s)@ + pad_two(decimal(n as nat))) by {
        if n >= 10 {
            lemma_decimal_len_two(n as nat);
        }
    }
}

proof fn lemma_decimal_len_two(n: nat)
    requires
        n >= 10,
    ensures
        decimal(n).len() >= 2,
    decreases n,
{
    assert(decimal(n).len() == decimal(n / 10).len() + 1);
    if n / 10 >= 10 {
        lemma_decimal_len_two(n / 10);
    }
}

/// Formats a whole number of seconds as "MM:SS", e.g. 90 gives "01:30".
/// The minutes are not wrapped into hours, so they may have more than two
/// digits.
pub fn format_time_to_mm_ss(total_seconds: u32) -> (s: String)
    ensures
        s@ == mm_ss(total_seconds as nat),
        s@.len() >= 5,
        s@[s@.len() - 3] == ':',
        digits_value(s@.take(s@.len() - 3)) == total_seconds / 60,
        digits_value(s@.skip(s@.len() - 2)) == total_seconds % 60,
        forall|i: int| 0 <= i < s@.len() && i != s@.len() - 3 ==> is_digit(#[trigger] s@[i]),
{
    let minutes = total_seconds / 60;
    let seconds = total_seconds % 60;
    let mut s = String::new();
    push_two_digits(&mut s, minutes);
    push_char(&mut s, ':');
    push_two_digits(&mut s, seconds);
    assert(s@ =~= mm_ss(total_seconds as nat));
    proof {
        law_mm_ss_reads_back(total_seconds as nat);
    }
    s
}

} // verus!
