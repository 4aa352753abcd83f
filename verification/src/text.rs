use vstd::prelude::*;

verus! {

/// The character of the decimal digit `d` (`0 <= d < 10`).
pub open spec fn digit_char(d: int) -> char {
    (d + ('0' as int)) as char
}

/// `c` is one of the ASCII digits `'0'..='9'`.
pub open spec fn is_ascii_digit_char(c: char) -> bool {
    '0' <= c && c <= '9'
}

/// The decimal digits of `n`, most significant first, without leading zeros.
pub open spec fn nat_digits(n: nat) -> Seq<char>
    decreases n,
{
    if n < 10 {
        seq![digit_char(n as int)]
    } else {
        nat_digits(n / 10).push(digit_char((n % 10) as int))
    }
}

/// The decimal text of an integer, with a leading `-` when it is negative.
pub open spec fn decimal_text(n: int) -> Seq<char> {
    if n < 0 {
        seq!['-'] + nat_digits((-n) as nat)
    } else {
        nat_digits(n as nat)
    }
}

/// The number written by a sequence of ASCII digits.
pub open spec fn digits_value(s: Seq<char>) -> nat
    decreases s.len(),
{
    if s.len() == 0 {
        0
    } else {
        digits_value(s.drop_last()) * 10 + ((s.last() as int - '0' as int) as nat)
    }
}

/// Every character of `s` is an ASCII digit.
pub open spec fn all_digits(s: Seq<char>) -> bool {
    forall|i: int| 0 <= i < s.len() ==> is_ascii_digit_char(#[trigger] s[i])
}

/// What `str::parse::<i64>` gives for a string of ASCII digits: its value,
/// or nothing when the string is empty or the value does not fit.
pub open spec fn decimal_i64(s: Seq<char>) -> Option<i64> {
    if s.len() == 0 || digits_value(s) > i64::MAX {
        None
    } else {
        Some(digits_value(s) as i64)
    }
}

proof fn lemma_digit_char_value(d: int)
    requires
        0 <= d < 10,
    ensures
        digit_char(d) as int == d + '0' as int,
        is_ascii_digit_char(digit_char(d)),
{
    assert(digit_char(d) as int == d + '0' as int);
}

/// Integers print as the digits the lexer reads back: the decimal digits of
/// `n` are all digits, and their value is `n`.
pub proof fn law_decimal_roundtrip(n: nat)
    ensures
        all_digits(nat_digits(n)),
        nat_digits(n).len() > 0,
        digits_value(nat_digits(n)) == n,
        n <= i64::MAX ==> decimal_i64(nat_digits(n)) == Some(n as i64),
    decreases n,
{
    if n >= 10 {
        law_decimal_roundtrip(n / 10);
        let d = nat_digits(n / 10);
        let s = d.push(digit_char((n % 10) as int));
        assert(s.drop_last() =~= d);
        lemma_digit_char_value((n % 10) as int);
        assert((n / 10) * 10 + n % 10 == n);
        assert(nat_digits(n) == s);
        assert(s.last() == digit_char((n % 10) as int));
        assert(digits_value(s) == digits_value(d) * 10 + (n % 10));
        assert forall|i: int| 0 <= i < s.len() implies is_ascii_digit_char(#[trigger] s[i]) by {
            if i < d.len() {
                assert(s[i] == d[i]);
            }
        }
    } else {
        let s = seq![digit_char(n as int)];
        assert(s.drop_last() =~= Seq::<char>::empty());
        lemma_digit_char_value(n as int);
        assert(digits_value(Seq::<char>::empty()) == 0);
        assert(nat_digits(n) == s);
        assert(digits_value(s) == n);
    }
}

/// Builds a `String` from its characters.
#[verifier::external_body]
pub(crate) fn string_from_chars(chars: &[char]) -> (r: String)
    ensures
        r@ == chars@,
{
    chars.iter().collect()
}

/// The characters of a string slice, in order.
pub(crate) fn chars_of(s: &str) -> (r: Vec<char>)
    ensures
        r@ == s@,
{
    let mut out: Vec<char> = Vec::new();
    for c in it: s.chars()
        invariant
            out@ == it.seq().take(it.index() as int),
    {
        out.push(c);
    }
    out
}

fn digit_to_char(d: u64) -> (r: char)
    requires
        d < 10,
    ensures
        r == digit_char(d as int),
{
    let b: u8 = (d as u8) + 48u8;
    b as char
}

fn push_digits(m: u64, out: &mut Vec<char>)
    ensures
        final(out)@ == old(out)@ + nat_digits(m as nat),
    decreases m,
{
    if m >= 10 {
        push_digits(m / 10, out);
    }
    out.push(digit_to_char(m % 10));
}

/// The decimal text of `n`, as `usize`'s `Display` writes it.
pub fn usize_to_text(n: usize) -> (r: String)
    ensures
        r@ == nat_digits(n as nat),
{
    let mut out: Vec<char> = Vec::new();
    let m: u64 = n as u64;
    push_digits(m, &mut out);
    string_from_chars(out.as_slice())
}

/// The decimal text of `n`, as `i64`'s `Display` writes it.
pub fn i64_to_text(n: i64) -> (r: String)
    ensures
        r@ == decimal_text(n as int),
{
    let mut out: Vec<char> = Vec::new();
    let m: u64 = if n < 0 {
        out.push('-');
        (0i128 - (n as i128)) as u64
    } else {
        n as u64
    };
    push_digits(m, &mut out);
    string_from_chars(out.as_slice())
}

} // verus!
