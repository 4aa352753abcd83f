//! What the language's operations are for, stated over all inputs: how a
//! condition decides, how values compare and print, and how the lexer reads
//! a word.
use vstd::prelude::*;
use crate::semantics::{
    BinOp, Env, Fault, Frame, ValView, compare_values, condition_truth, elif_chain,
    eval_expression, expect_at, if_statement, kind_at, loop_test, skip_block, skip_braces,
    value_text, while_statement, lemma_comparison_no_braces, add_values, multiply_values,
    eval_unary, law_truncated_division, trunc_div, trunc_rem, eval_addition, eval_multiplication,
    eval_comparison, print_statement,
};
use vstd::math::abs;
use crate::tokenize::{
    KindView, LexState, TokenView, advanced, after_alphanumeric, after_whitespace, current_char,
    is_alphanumeric_char, is_white_space, keyword_kind, lex_token, lex_wf, after_digits,
    string_scan, is_alphabetic_char, kind_text, char_at,
};
use crate::compiler::{line_end, line_text, nth_line};
use crate::text::{all_digits, digits_value, is_ascii_digit_char, law_decimal_roundtrip, nat_digits};

verus! {

// ---------------------------------------------------------------------------
// Conditions
// ---------------------------------------------------------------------------

/// A condition decides by its value: a bool as it is, and an integer by not
/// being zero, so that every negative integer counts as true as every
/// positive one does; a string does not decide.
pub proof fn law_condition_truth(n: i64, b: bool, s: Seq<char>)
    ensures
        condition_truth(ValView::Int(n)) == Some(n != 0),
        n < 0 ==> condition_truth(ValView::Int(n)) == Some(true),
        n > 0 ==> condition_truth(ValView::Int(n)) == Some(true),
        condition_truth(ValView::Int(0)) == Some(false),
        condition_truth(ValView::Bool(b)) == Some(b),
        condition_truth(ValView::Str(s)) is None,
{
}

proof fn lemma_skip_braces_forward(toks: Seq<TokenView>, p: nat, d: nat)
    ensures
        skip_braces(toks, p, d) matches Ok(q) ==> p < q,
    decreases toks.len() - p,
{
    match kind_at(toks, p) {
        None => {},
        Some(KindView::LBrace) => lemma_skip_braces_forward(toks, p + 1, d + 1),
        Some(KindView::RBrace) => if d > 1 {
            lemma_skip_braces_forward(toks, p + 1, (d - 1) as nat);
        },
        Some(_) => lemma_skip_braces_forward(toks, p + 1, d),
    }
}

proof fn lemma_elif_chain_forward(toks: Seq<TokenView>, env: Env, p: nat)
    ensures
        elif_chain(toks, env, p) matches Ok((q, _)) ==> p <= q,
    decreases toks.len() - p,
{
    if kind_at(toks, p) == Some(KindView::Elif) && kind_at(toks, p + 1) is Some {
        lemma_comparison_no_braces(toks, env, p + 2);
        if let Ok((c, p3)) = eval_expression(toks, env, p + 2) {
            if let Ok(p5) = skip_block(toks, p3 + 1) {
                if p < p5 <= toks.len() {
                    lemma_elif_chain_forward(toks, env, p5);
                }
            }
        }
    }
}

/// An `if` whose condition evaluates to the integer `n` enters its own block,
/// just after the `{` that follows the condition, exactly when `n` is not zero.
pub proof fn law_if_integer_condition(toks: Seq<TokenView>, env: Env, p: nat, n: i64, q: nat)
    requires
        kind_at(toks, p) == Some(KindView::If),
        kind_at(toks, p + 1) == Some(KindView::LParen),
        eval_expression(toks, env, p + 2) == Ok::<(ValView, nat), Fault>((ValView::Int(n), q)),
        kind_at(toks, q) == Some(KindView::RParen),
        kind_at(toks, q + 1) == Some(KindView::LBrace),
    ensures
        if_statement(toks, env, p) == Ok::<(nat, Option<Frame>), Fault>(
            (q + 2, Some(Frame::Branch)),
        ) <==> n != 0,
{
    if n == 0 {
        lemma_skip_braces_forward(toks, q + 2, 1);
        if let Ok(p5) = skip_block(toks, q + 1) {
            lemma_elif_chain_forward(toks, env, p5);
        }
    }
}

/// An `elif` whose condition evaluates to the integer `n` enters its own
/// block exactly when `n` is not zero.
pub proof fn law_elif_integer_condition(toks: Seq<TokenView>, env: Env, p: nat, n: i64, q: nat)
    requires
        kind_at(toks, p) == Some(KindView::Elif),
        kind_at(toks, p + 1) == Some(KindView::LParen),
        eval_expression(toks, env, p + 2) == Ok::<(ValView, nat), Fault>((ValView::Int(n), q)),
        kind_at(toks, q) == Some(KindView::RParen),
        kind_at(toks, q + 1) == Some(KindView::LBrace),
    ensures
        elif_chain(toks, env, p) == Ok::<(nat, Option<Frame>), Fault>(
            (q + 2, Some(Frame::Branch)),
        ) <==> n != 0,
{
    if n == 0 {
        lemma_skip_braces_forward(toks, q + 2, 1);
        if let Ok(p5) = skip_block(toks, q + 1) {
            if p < p5 <= toks.len() {
                lemma_elif_chain_forward(toks, env, p5);
            }
        }
    }
}

/// A `while` whose condition evaluates to the integer `n` enters its body,
/// as a loop that tests that condition again, exactly when `n` is not zero;
/// otherwise it enters no block.
pub proof fn law_while_integer_condition(toks: Seq<TokenView>, env: Env, p: nat, n: i64, q: nat)
    requires
        kind_at(toks, p) == Some(KindView::While),
        kind_at(toks, p + 1) == Some(KindView::LParen),
        eval_expression(toks, env, p + 2) == Ok::<(ValView, nat), Fault>((ValView::Int(n), q)),
        kind_at(toks, q) == Some(KindView::RParen),
        kind_at(toks, q + 1) == Some(KindView::LBrace),
    ensures
        while_statement(toks, env, p) == Ok::<(nat, Option<Frame>), Fault>(
            (q + 2, Some(Frame::Loop((p + 2) as usize))),
        ) <==> n != 0,
        n == 0 ==> !(while_statement(toks, env, p) matches Ok((_, Some(_)))),
{
}

// ---------------------------------------------------------------------------
// Comparisons
// ---------------------------------------------------------------------------

/// Integers compare by their mathematical order, so that every negative
/// number is less than zero and less than every non-negative number.
pub proof fn law_integer_comparison(toks: Seq<TokenView>, a: i64, b: i64, at: nat)
    ensures
        compare_values(toks, BinOp::Lt, ValView::Int(a), ValView::Int(b), at) == Ok::<
            ValView,
            Fault,
        >(ValView::Bool((a as int) < (b as int))),
        compare_values(toks, BinOp::Gt, ValView::Int(a), ValView::Int(b), at) == Ok::<
            ValView,
            Fault,
        >(ValView::Bool((a as int) > (b as int))),
        compare_values(toks, BinOp::Eq, ValView::Int(a), ValView::Int(b), at) == Ok::<
            ValView,
            Fault,
        >(ValView::Bool(a as int == b as int)),
        compare_values(toks, BinOp::Ne, ValView::Int(a), ValView::Int(b), at) == Ok::<
            ValView,
            Fault,
        >(ValView::Bool(a as int != b as int)),
        a < 0 <= b ==> compare_values(toks, BinOp::Lt, ValView::Int(a), ValView::Int(b), at)
            == Ok::<ValView, Fault>(ValView::Bool(true)),
        a < 0 <= b ==> compare_values(toks, BinOp::Gt, ValView::Int(a), ValView::Int(b), at)
            == Ok::<ValView, Fault>(ValView::Bool(false)),
{
}

// ---------------------------------------------------------------------------
// Arithmetic
// ---------------------------------------------------------------------------

/// `x` brought back into the range of `i64` by one turn of 2^64, as a
/// machine adds and subtracts.
pub open spec fn wrap_once(x: int) -> int {
    if x > i64::MAX {
        x - 0x1_0000_0000_0000_0000
    } else if x < i64::MIN {
        x + 0x1_0000_0000_0000_0000
    } else {
        x
    }
}

/// Integer `+` and `-` give the sum and difference, wrapped around into the
/// range of `i64` when they leave it.
pub proof fn law_integer_addition(toks: Seq<TokenView>, a: i64, b: i64, at: nat)
    ensures
        add_values(toks, BinOp::Add, ValView::Int(a), ValView::Int(b), at) matches Ok(
            ValView::Int(r),
        ) && r as int == wrap_once(a + b),
        add_values(toks, BinOp::Sub, ValView::Int(a), ValView::Int(b), at) matches Ok(
            ValView::Int(r),
        ) && r as int == wrap_once(a - b),
        i64::MIN <= a + b <= i64::MAX ==> add_values(
            toks,
            BinOp::Add,
            ValView::Int(a),
            ValView::Int(b),
            at,
        ) == Ok::<ValView, Fault>(ValView::Int((a + b) as i64)),
{
}

/// Integer `*` gives the product when it fits in `i64`, and otherwise a
/// number of `i64` that differs from it by a multiple of 2^64.
pub proof fn law_integer_multiplication(toks: Seq<TokenView>, a: i64, b: i64, at: nat)
    ensures
        multiply_values(toks, BinOp::Mul, ValView::Int(a), ValView::Int(b), at) matches Ok(
            ValView::Int(r),
        ) && (r - a * b) % 0x1_0000_0000_0000_0000int == 0 && (i64::MIN <= a * b <= i64::MAX
            ==> r == a * b),
{
    let m: int = 0x1_0000_0000_0000_0000int;
    let x: int = a * b;
    let c: int = x % m;
    let k: int = x / m;
    assert(x == m * k + c && 0 <= c < m) by (nonlinear_arith)
        requires
            m > 0,
            c == x % m,
            k == x / m,
    ;
    let r: int = if c > i64::MAX {
        c - m
    } else {
        c
    };
    assert(multiply_values(toks, BinOp::Mul, ValView::Int(a), ValView::Int(b), at) == Ok::<
        ValView,
        Fault,
    >(ValView::Int(r as i64)));
    assert((r - x) % m == 0) by (nonlinear_arith)
        requires
            x == m * k + c,
            r == c || r == c - m,
            m > 0,
    {
        if r == c {
            assert(r - x == m * (-k));
        } else {
            assert(r - x == m * (-k - 1));
        }
    }
    if i64::MIN <= x <= i64::MAX {
        if x >= 0 {
            assert(k == 0) by (nonlinear_arith)
                requires
                    x == m * k + c,
                    0 <= c < m,
                    0 <= x < m,
            ;
        } else {
            assert(k == -1) by (nonlinear_arith)
                requires
                    x == m * k + c,
                    0 <= c < m,
                    -m < x < 0,
            ;
        }
    }
}

/// Integer `/` and `%` truncate toward zero: the quotient times the divisor
/// plus the remainder gives back the dividend, the remainder is smaller than
/// the divisor and has the dividend's sign. Dividing by zero fails, and the
/// least integer divided by -1 overflows.
pub proof fn law_integer_division(toks: Seq<TokenView>, a: i64, b: i64, at: nat)
    ensures
        b == 0 ==> (multiply_values(toks, BinOp::Div, ValView::Int(a), ValView::Int(b), at) matches Err(
            f,
        ) && f !is Overflow),
        b == 0 ==> (multiply_values(toks, BinOp::Rem, ValView::Int(a), ValView::Int(b), at) matches Err(
            f,
        ) && f !is Overflow),
        a == i64::MIN && b == -1 ==> multiply_values(
            toks,
            BinOp::Div,
            ValView::Int(a),
            ValView::Int(b),
            at,
        ) is Err,
        b != 0 && !(a == i64::MIN && b == -1) ==> ({
            &&& multiply_values(toks, BinOp::Div, ValView::Int(a), ValView::Int(b), at) matches Ok(
                ValView::Int(q),
            ) && multiply_values(toks, BinOp::Rem, ValView::Int(a), ValView::Int(b), at) matches Ok(
                ValView::Int(r),
            ) && q * b + r == a && abs(r as int) < abs(b as int) && (r == 0 || (r < 0) == (a < 0))
        }),
{
    if b != 0 && !(a == i64::MIN && b == -1) {
        law_truncated_division(a as int, b as int);
        let n: int = abs(a as int) as int;
        let k: int = abs(b as int) as int;
        let q0: int = n / k;
        assert(q0 <= n) by (nonlinear_arith)
            requires
                n >= 0,
                k >= 1,
                q0 == n / k,
        ;
        if k >= 2 {
            vstd::arithmetic::div_mod::lemma_div_is_ordered_by_denominator(n, 2, k);
        }
        assert(n % k < k) by (nonlinear_arith)
            requires
                n >= 0,
                k >= 1,
        ;
        let q = trunc_div(a as int, b as int);
        let r = trunc_rem(a as int, b as int);
        assert(i64::MIN <= q <= i64::MAX);
        assert(i64::MIN <= r <= i64::MAX);
    }
}

/// Unary `-` negates an integer (the least integer, which has no negation in
/// `i64`, stays as it is) and unary `!` negates a bool.
pub proof fn law_unary_operators(toks: Seq<TokenView>, env: Env, p: nat, v: ValView, q: nat)
    requires
        eval_unary(toks, env, p + 1) == Ok::<(ValView, nat), Fault>((v, q)),
    ensures
        kind_at(toks, p) == Some(KindView::Minus) ==> match v {
            ValView::Int(n) => eval_unary(toks, env, p) == Ok::<(ValView, nat), Fault>(
                (ValView::Int(if n == i64::MIN { n } else { (-n) as i64 }), q),
            ),
            _ => eval_unary(toks, env, p) is Err,
        },
        kind_at(toks, p) == Some(KindView::Not) ==> match v {
            ValView::Bool(b) => eval_unary(toks, env, p) == Ok::<(ValView, nat), Fault>(
                (ValView::Bool(!b), q),
            ),
            _ => eval_unary(toks, env, p) is Err,
        },
{
}

// ---------------------------------------------------------------------------
// Strings and bools
// ---------------------------------------------------------------------------

/// Strings join with `+` and compare for equality by their text; no other
/// arithmetic or ordering applies to them. Bools compare for equality only.
pub proof fn law_string_and_bool_operators(
    toks: Seq<TokenView>,
    s: Seq<char>,
    t: Seq<char>,
    b: bool,
    c: bool,
    at: nat,
)
    ensures
        add_values(toks, BinOp::Add, ValView::Str(s), ValView::Str(t), at) == Ok::<ValView, Fault>(
            ValView::Str(s + t),
        ),
        add_values(toks, BinOp::Sub, ValView::Str(s), ValView::Str(t), at) is Err,
        compare_values(toks, BinOp::Eq, ValView::Str(s), ValView::Str(t), at) == Ok::<
            ValView,
            Fault,
        >(ValView::Bool(s =~= t)),
        compare_values(toks, BinOp::Ne, ValView::Str(s), ValView::Str(t), at) == Ok::<
            ValView,
            Fault,
        >(ValView::Bool(!(s =~= t))),
        compare_values(toks, BinOp::Lt, ValView::Str(s), ValView::Str(t), at) is Err,
        compare_values(toks, BinOp::Eq, ValView::Bool(b), ValView::Bool(c), at) == Ok::<
            ValView,
            Fault,
        >(ValView::Bool(b == c)),
        compare_values(toks, BinOp::Ne, ValView::Bool(b), ValView::Bool(c), at) == Ok::<
            ValView,
            Fault,
        >(ValView::Bool(b != c)),
        compare_values(toks, BinOp::Gt, ValView::Bool(b), ValView::Bool(c), at) is Err,
        compare_values(toks, BinOp::Eq, ValView::Int(0), ValView::Bool(b), at) is Err,
{
    if s =~= t {
        assert(s == t);
    }
}

// ---------------------------------------------------------------------------
// Printed text
// ---------------------------------------------------------------------------

/// A bool prints as Rust writes it, `true` or `false`; two different bools
/// never print the same text.
pub proof fn law_bool_text(b: bool, c: bool)
    ensures
        value_text(ValView::Bool(true)) == seq!['t', 'r', 'u', 'e'],
        value_text(ValView::Bool(false)) == seq!['f', 'a', 'l', 's', 'e'],
        value_text(ValView::Bool(b)) == value_text(ValView::Bool(c)) <==> b == c,
{
    reveal_strlit("true");
    reveal_strlit("false");
    assert(value_text(ValView::Bool(true)) =~= seq!['t', 'r', 'u', 'e']);
    assert(value_text(ValView::Bool(false)) =~= seq!['f', 'a', 'l', 's', 'e']);
    assert(seq!['t', 'r', 'u', 'e'].len() != seq!['f', 'a', 'l', 's', 'e'].len());
}

proof fn lemma_no_leading_zero(n: nat)
    requires
        n >= 1,
    ensures
        nat_digits(n)[0] != '0',
        nat_digits(n).len() >= 1,
    decreases n,
{
    if n >= 10 {
        lemma_no_leading_zero(n / 10);
        law_decimal_roundtrip(n / 10);
        assert(nat_digits(n)[0] == nat_digits(n / 10)[0]);
    } else {
        assert(nat_digits(n)[0] as int == n + '0' as int);
    }
}

/// An integer prints in decimal: a `-` before a negative number, then the
/// digits of its magnitude, which read back as that magnitude and start with
/// `0` only for zero itself.
pub proof fn law_integer_text(n: i64)
    ensures
        ({
            let t = value_text(ValView::Int(n));
            let digits = if n < 0 { t.drop_first() } else { t };
            &&& n < 0 <==> (t.len() > 0 && t[0] == '-')
            &&& digits.len() >= 1
            &&& all_digits(digits)
            &&& digits_value(digits) == abs(n as int)
            &&& digits[0] == '0' ==> n == 0 && digits.len() == 1
        }),
{
    let m: nat = abs(n as int) as nat;
    law_decimal_roundtrip(m);
    let t = value_text(ValView::Int(n));
    if n < 0 {
        assert(t.drop_first() =~= nat_digits(m));
        lemma_no_leading_zero(m);
    } else {
        assert(t == nat_digits(m));
        if m >= 1 {
            lemma_no_leading_zero(m);
        } else {
            assert(nat_digits(0) =~= seq!['0']);
        }
        assert(t[0] != '-');
    }
}

proof fn lemma_digits_rest(st: LexState, end: nat)
    requires
        st.position <= end <= st.input.len(),
        forall|i: int| st.position <= i < end ==> #[trigger] is_ascii_digit_char(st.input[i]),
        end == st.input.len() || !is_ascii_digit_char(st.input[end as int]),
    ensures
        after_digits(st).position == end,
        after_digits(st).input == st.input,
    decreases end - st.position,
{
    if st.position < end {
        lemma_digits_rest(advanced(st), end);
    }
}

/// A run of ASCII digits not followed by a letter or digit is read as one
/// integer token with the value the digits write, or as an illegal token
/// when that value does not fit in `i64`.
pub proof fn law_digits_are_one_integer(st: LexState, len: nat)
    requires
        lex_wf(st),
        len >= 1,
        st.position + len <= st.input.len(),
        forall|i: int|
            st.position <= i < st.position + len ==> #[trigger] is_ascii_digit_char(st.input[i]),
        st.position + len == st.input.len() || !is_alphanumeric_char(
            st.input[(st.position + len) as int],
        ),
    ensures
        ({
            let w = st.input.subrange(st.position as int, (st.position + len) as int);
            &&& lex_token(st).0.kind == if digits_value(w) <= i64::MAX {
                KindView::Integer(digits_value(w) as i64)
            } else {
                KindView::Illegal
            }
            &&& lex_token(st).1.position == st.position + len
        }),
{
    let c = st.input[st.position as int];
    assert(is_ascii_digit_char(c));
    assert(!is_white_space(c));
    assert(after_whitespace(st) == st);
    let e = st.position + len;
    if e < st.input.len() {
        let d = st.input[e as int];
        if (d as u32) < 128 {
            assert(!is_ascii_digit_char(d));
        } else {
            assert(!('0' <= d && d <= '9'));
        }
        assert(!is_alphabetic_char(d));
    }
    lemma_digits_rest(st, e);
}

/// Digits run straight into a letter make one illegal token, which ends
/// where the digits end.
pub proof fn law_digits_before_letter_are_illegal(st: LexState, len: nat)
    requires
        lex_wf(st),
        len >= 1,
        st.position + len < st.input.len(),
        forall|i: int|
            st.position <= i < st.position + len ==> #[trigger] is_ascii_digit_char(st.input[i]),
        is_letter(st.input[(st.position + len) as int]),
    ensures
        lex_token(st).0.kind == KindView::Illegal,
        lex_token(st).1.position == st.position + len,
{
    let c = st.input[st.position as int];
    assert(is_ascii_digit_char(c));
    assert(!is_white_space(c));
    assert(after_whitespace(st) == st);
    let e = st.position + len;
    let d = st.input[e as int];
    assert((d as u32) < 128);
    lemma_digits_rest(st, e);
}

proof fn lemma_string_rest(st: LexState, prev: char, end: nat)
    requires
        st.position <= end < st.input.len(),
        prev != '\\',
        forall|i: int|
            st.position <= i < end ==> #[trigger] st.input[i] != '"' && st.input[i] != '\\',
        st.input[end as int] == '"',
    ensures
        string_scan(st, prev).0,
        string_scan(st, prev).1.position == end,
    decreases end - st.position,
{
    if st.position < end {
        lemma_string_rest(advanced(st), st.input[st.position as int], end);
    }
}

/// Text between two double quotes, holding no quote or backslash, is read
/// as one string token with exactly that text.
pub proof fn law_quoted_text_is_one_string(st: LexState, len: nat)
    requires
        lex_wf(st),
        st.position + len + 1 < st.input.len(),
        st.input[st.position as int] == '"',
        forall|i: int|
            st.position < i <= st.position + len ==> #[trigger] st.input[i] != '"'
                && st.input[i] != '\\',
        st.input[(st.position + len + 1) as int] == '"',
    ensures
        lex_token(st).0.kind == KindView::Str(
            st.input.subrange((st.position + 1) as int, (st.position + len + 1) as int),
        ),
        lex_token(st).1.position == st.position + len + 2,
{
    assert(!is_white_space('"'));
    assert(after_whitespace(st) == st);
    lemma_string_rest(advanced(st), '"', st.position + len + 1);
}

// ---------------------------------------------------------------------------
// The lexer reads words
// ---------------------------------------------------------------------------

/// An ASCII letter, upper- or lower-case.
pub open spec fn is_letter(c: char) -> bool {
    ('A' <= c && c <= 'Z') || ('a' <= c && c <= 'z')
}

proof fn lemma_word_rest(st: LexState, end: nat)
    requires
        st.position <= end <= st.input.len(),
        forall|i: int|
            st.position <= i < end ==> #[trigger] is_letter(st.input[i]) || is_ascii_digit_char(
                st.input[i],
            ),
        end == st.input.len() || !is_alphanumeric_char(st.input[end as int]),
    ensures
        after_alphanumeric(st).position == end,
        after_alphanumeric(st).input == st.input,
    decreases end - st.position,
{
    if st.position < end {
        let c = st.input[st.position as int];
        assert(is_letter(c) || is_ascii_digit_char(c));
        assert((c as u32) < 128);
        lemma_word_rest(advanced(st), end);
    }
}

/// A word that starts with an ASCII letter, upper- or lower-case, goes on
/// with ASCII letters and digits and is not followed by a letter or digit is
/// read as one token: the keyword it spells, shown as that word, or else the
/// identifier of that name; never an illegal character.
pub proof fn law_word_is_one_token(st: LexState, len: nat)
    requires
        lex_wf(st),
        len >= 1,
        st.position + len <= st.input.len(),
        is_letter(st.input[st.position as int]),
        forall|i: int|
            st.position < i < st.position + len ==> #[trigger] is_letter(st.input[i])
                || is_ascii_digit_char(st.input[i]),
        st.position + len == st.input.len() || !is_alphanumeric_char(
            st.input[(st.position + len) as int],
        ),
    ensures
        ({
            let w = st.input.subrange(st.position as int, (st.position + len) as int);
            &&& lex_token(st).0.kind == keyword_kind(w)
            &&& lex_token(st).0.kind != KindView::Illegal
            &&& keyword_kind(w) is Identifier ==> keyword_kind(w) == KindView::Identifier(w)
            &&& !(keyword_kind(w) is Identifier) ==> kind_text(keyword_kind(w)) == w
            &&& lex_token(st).1.position == st.position + len
        }),
{
    reveal_strlit("let");
    reveal_strlit("mut");
    reveal_strlit("if");
    reveal_strlit("elif");
    reveal_strlit("else");
    reveal_strlit("while");
    reveal_strlit("print");
    let c = st.input[st.position as int];
    assert(is_letter(c));
    assert(!is_white_space(c));
    assert(after_whitespace(st) == st);
    assert(current_char(st) == Some(c));
    lemma_word_rest(advanced(st), st.position + len);
}

// ---------------------------------------------------------------------------
// The lexer reads symbols
// ---------------------------------------------------------------------------

/// The characters that begin an operator or punctuation token.
pub open spec fn is_symbol_char(c: char) -> bool {
    c == '+' || c == '-' || c == '*' || c == '/' || c == '%' || c == '(' || c == ')' || c == '{'
        || c == '}' || c == '<' || c == '>' || c == ';' || c == ',' || c == '=' || c == '!'
}

/// A token that starts with an operator or punctuation character is read
/// from exactly the characters its kind is shown with: `==` and `!=` take two
/// characters when the second is `=`, every other symbol one.
pub proof fn law_symbol_token_text(st: LexState)
    requires
        lex_wf(st),
        st.position < st.input.len(),
        is_symbol_char(st.input[st.position as int]),
    ensures
        ({
            let (t, st2) = lex_token(st);
            &&& t.kind != KindView::Illegal
            &&& st2.position == st.position + kind_text(t.kind).len()
            &&& st.input.subrange(st.position as int, st2.position as int) == kind_text(t.kind)
            &&& (st.input[st.position as int] == '=' || st.input[st.position as int] == '!')
                && char_at(st, st.position + 1int) == Some('=') ==> st2.position == st.position + 2
        }),
{
    let c = st.input[st.position as int];
    assert(!is_white_space(c));
    assert(after_whitespace(st) == st);
    reveal_strlit("+");
    reveal_strlit("-");
    reveal_strlit("*");
    reveal_strlit("/");
    reveal_strlit("%");
    reveal_strlit("(");
    reveal_strlit(")");
    reveal_strlit("{");
    reveal_strlit("}");
    reveal_strlit("<");
    reveal_strlit(">");
    reveal_strlit(";");
    reveal_strlit(",");
    reveal_strlit("=");
    reveal_strlit("!");
    reveal_strlit("==");
    reveal_strlit("!=");
    let (t, st2) = lex_token(st);
    let p = st.position as int;
    if (c == '=' || c == '!') && char_at(st, st.position + 1int) == Some('=') {
        assert(st.input.subrange(p, p + 2) =~= seq![c, '=']);
    } else {
        assert(st.input.subrange(p, p + 1) =~= seq![c]);
    }
}

// ---------------------------------------------------------------------------
// Expressions over literals
// ---------------------------------------------------------------------------

/// The token at `e` ends an expression.
pub open spec fn ends_expression(toks: Seq<TokenView>, e: nat) -> bool {
    kind_at(toks, e) == Some(KindView::Semicolon) || kind_at(toks, e) == Some(KindView::RParen)
}

proof fn lemma_integer_operand(toks: Seq<TokenView>, env: Env, p: nat, n: i64)
    requires
        kind_at(toks, p) == Some(KindView::Integer(n)),
        kind_at(toks, p + 1) is Some,
        kind_at(toks, p + 1) != Some(KindView::Star),
        kind_at(toks, p + 1) != Some(KindView::Slash),
        kind_at(toks, p + 1) != Some(KindView::Percent),
    ensures
        eval_multiplication(toks, env, p) == Ok::<(ValView, nat), Fault>((ValView::Int(n), p + 1)),
        kind_at(toks, p + 1) != Some(KindView::Plus) && kind_at(toks, p + 1) != Some(
            KindView::Minus,
        ) ==> eval_addition(toks, env, p) == Ok::<(ValView, nat), Fault>(
            (ValView::Int(n), p + 1),
        ),
{
    assert(eval_unary(toks, env, p) == Ok::<(ValView, nat), Fault>((ValView::Int(n), p + 1)));
}

/// `a < b` and `a > b` between integer literals evaluate to whether the
/// first is less, or greater, than the second as integers.
pub proof fn law_literal_comparison(toks: Seq<TokenView>, env: Env, p: nat, a: i64, b: i64)
    requires
        kind_at(toks, p) == Some(KindView::Integer(a)),
        kind_at(toks, p + 1) == Some(KindView::Less) || kind_at(toks, p + 1) == Some(
            KindView::Greater,
        ),
        kind_at(toks, p + 2) == Some(KindView::Integer(b)),
        ends_expression(toks, p + 3),
    ensures
        eval_expression(toks, env, p) == Ok::<(ValView, nat), Fault>(
            (
                ValView::Bool(
                    if kind_at(toks, p + 1) == Some(KindView::Less) {
                        (a as int) < (b as int)
                    } else {
                        (a as int) > (b as int)
                    },
                ),
                p + 3,
            ),
        ),
{
    lemma_integer_operand(toks, env, p, a);
    lemma_integer_operand(toks, env, p + 2, b);
}

proof fn lemma_multiple_sum(x: int, y: int, m: int)
    requires
        m > 0,
        x % m == 0,
        y % m == 0,
    ensures
        (x + y) % m == 0,
{
    assert((x + y) % m == 0) by (nonlinear_arith)
        requires
            m > 0,
            x % m == 0,
            y % m == 0,
    {
        let i = x / m;
        let j = y / m;
        assert(x == m * i);
        assert(y == m * j);
        assert(x + y == m * (i + j));
    }
}

/// `*` binds tighter than `+`: `a + b * c` over integer literals is `a`
/// plus the product of `b` and `c`, up to whole turns of 2^64, and exactly
/// so when nothing overflows.
pub proof fn law_multiplication_binds_tighter(
    toks: Seq<TokenView>,
    env: Env,
    p: nat,
    a: i64,
    b: i64,
    c: i64,
)
    requires
        kind_at(toks, p) == Some(KindView::Integer(a)),
        kind_at(toks, p + 1) == Some(KindView::Plus),
        kind_at(toks, p + 2) == Some(KindView::Integer(b)),
        kind_at(toks, p + 3) == Some(KindView::Star),
        kind_at(toks, p + 4) == Some(KindView::Integer(c)),
        ends_expression(toks, p + 5),
    ensures
        eval_expression(toks, env, p) matches Ok((ValView::Int(r), q)) && q == p + 5 && (r - (a
            + b * c)) % 0x1_0000_0000_0000_0000int == 0 && (i64::MIN <= b * c <= i64::MAX
            && i64::MIN <= a + b * c <= i64::MAX ==> r == a + b * c),
{
    let m: int = 0x1_0000_0000_0000_0000int;
    lemma_integer_operand(toks, env, p, a);
    lemma_integer_operand(toks, env, p + 4, c);
    assert(eval_unary(toks, env, p + 2) == Ok::<(ValView, nat), Fault>((ValView::Int(b), p + 3)));
    law_integer_multiplication(toks, b, c, p + 5);
    let bc = multiply_values(toks, BinOp::Mul, ValView::Int(b), ValView::Int(c), p + 5)->Ok_0->Int_0;
    assert(eval_multiplication(toks, env, p + 2) == Ok::<(ValView, nat), Fault>(
        (ValView::Int(bc), p + 5),
    ));
    law_integer_addition(toks, a, bc, p + 5);
    let r = add_values(toks, BinOp::Add, ValView::Int(a), ValView::Int(bc), p + 5)->Ok_0->Int_0;
    assert(eval_addition(toks, env, p) == Ok::<(ValView, nat), Fault>((ValView::Int(r), p + 5)));
    assert(eval_expression(toks, env, p) == Ok::<(ValView, nat), Fault>((ValView::Int(r), p + 5)));
    assert((r - (a + bc)) % m == 0);
    lemma_multiple_sum(r - (a + bc), bc - b * c, m);
    assert(r - (a + b * c) == (r - (a + bc)) + (bc - b * c));
}

/// `-` groups from the left: `a - b - c` over integer literals is `a - b`,
/// then `c` taken from that, each wrapped into `i64`.
pub proof fn law_subtraction_groups_left(
    toks: Seq<TokenView>,
    env: Env,
    p: nat,
    a: i64,
    b: i64,
    c: i64,
)
    requires
        kind_at(toks, p) == Some(KindView::Integer(a)),
        kind_at(toks, p + 1) == Some(KindView::Minus),
        kind_at(toks, p + 2) == Some(KindView::Integer(b)),
        kind_at(toks, p + 3) == Some(KindView::Minus),
        kind_at(toks, p + 4) == Some(KindView::Integer(c)),
        ends_expression(toks, p + 5),
    ensures
        eval_expression(toks, env, p) matches Ok((ValView::Int(r), q)) && q == p + 5 && r as int
            == wrap_once(wrap_once(a - b) - c),
{
    lemma_integer_operand(toks, env, p, a);
    lemma_integer_operand(toks, env, p + 2, b);
    lemma_integer_operand(toks, env, p + 4, c);
    law_integer_addition(toks, a, b, p + 3);
    let ab = add_values(toks, BinOp::Sub, ValView::Int(a), ValView::Int(b), p + 3)->Ok_0->Int_0;
    law_integer_addition(toks, ab, c, p + 5);
}

// ---------------------------------------------------------------------------
// Printing
// ---------------------------------------------------------------------------

proof fn lemma_expression_not_at_semicolon(toks: Seq<TokenView>, env: Env, p: nat)
    requires
        kind_at(toks, p) == Some(KindView::Semicolon),
    ensures
        eval_expression(toks, env, p) is Err,
{
    assert(crate::semantics::eval_primary(toks, env, p) is Err);
    assert(eval_unary(toks, env, p) is Err);
    assert(eval_multiplication(toks, env, p) is Err);
    assert(eval_addition(toks, env, p) is Err);
}

/// `print e;` writes the text of the value of `e` and then a newline, and
/// goes on after the `;`.
pub proof fn law_print_writes_line(toks: Seq<TokenView>, env: Env, p: nat, v: ValView, q: nat)
    requires
        kind_at(toks, p) == Some(KindView::Print),
        eval_expression(toks, env, p + 1) == Ok::<(ValView, nat), Fault>((v, q)),
        kind_at(toks, q) == Some(KindView::Semicolon),
    ensures
        print_statement(toks, env, p) == (value_text(v) + seq!['\n'], Ok::<nat, Fault>(q + 1)),
{
    reveal_strlit("\n");
    lemma_comparison_no_braces(toks, env, p + 1);
    if kind_at(toks, p + 1) == Some(KindView::Semicolon) {
        lemma_expression_not_at_semicolon(toks, env, p + 1);
    }
    assert(crate::semantics::print_items(toks, env, q, false) == (
        Seq::<char>::empty(),
        Ok::<nat, Fault>(q),
    ));
    assert(crate::semantics::print_items(toks, env, p + 1, true) == (
        value_text(v) + Seq::<char>::empty(),
        Ok::<nat, Fault>(q),
    ));
    assert(value_text(v) + Seq::<char>::empty() =~= value_text(v));
    assert(value_text(v) + "\n"@ =~= value_text(v) + seq!['\n']);
}

// ---------------------------------------------------------------------------
// Lines of a source text
// ---------------------------------------------------------------------------

proof fn lemma_line_end_shift(pre: Seq<char>, b: Seq<char>, i: int)
    requires
        0 <= i,
    ensures
        line_end(pre + b, pre.len() + i) == pre.len() + line_end(b, i),
    decreases b.len() - i,
{
    let s = pre + b;
    if i < b.len() {
        assert(s[pre.len() + i] == b[i]);
        if b[i] != '\n' {
            lemma_line_end_shift(pre, b, i + 1);
            assert(pre.len() + i + 1 == pre.len() + (i + 1));
        }
    }
}

proof fn lemma_line_end_skip(s: Seq<char>, j: int, m: int)
    requires
        0 <= j <= m <= s.len(),
        forall|i: int| j <= i < m ==> s[i] != '\n',
    ensures
        line_end(s, j) == line_end(s, m),
    decreases m - j,
{
    if j < m {
        lemma_line_end_skip(s, j + 1, m);
    }
}

proof fn lemma_line_end_ge(s: Seq<char>, i: int)
    requires
        0 <= i <= s.len(),
    ensures
        i <= line_end(s, i) <= s.len(),
    decreases s.len() - i,
{
    if i < s.len() && s[i] != '\n' {
        lemma_line_end_ge(s, i + 1);
    }
}

proof fn lemma_nth_line_shift(pre: Seq<char>, b: Seq<char>, j: int, n: nat)
    requires
        0 <= j,
    ensures
        nth_line(pre + b, pre.len() + j, n) == nth_line(b, j, n),
    decreases b.len() - j,
{
    let s = pre + b;
    let k = pre.len() as int;
    if j < b.len() {
        lemma_line_end_shift(pre, b, j);
        lemma_line_end_ge(b, j);
        let e = line_end(b, j);
        if e > j && e < b.len() {
            assert(s[k + e - 1] == b[e - 1]);
        }
        assert(s.subrange(k + j, k + e) =~= b.subrange(j, e));
        if e > j {
            assert(s.subrange(k + j, k + e - 1) =~= b.subrange(j, e - 1));
        }
        assert(line_text(s, k + j, k + e) == line_text(b, j, e));
        if n > 0 && e < b.len() {
            lemma_nth_line_shift(pre, b, e + 1, (n - 1) as nat);
            assert(k + e + 1 == k + (e + 1));
        }
    }
}

proof fn lemma_nth_line_no_newline(s: Seq<char>, start: int, n: nat)
    ensures
        nth_line(s, start, n) matches Some(l) ==> forall|i: int| 0 <= i < l.len() ==> l[i] != '\n',
    decreases s.len() - start,
{
    if 0 <= start < s.len() {
        lemma_line_end_ge(s, start);
        let e = line_end(s, start);
        if n == 0 {
            assert forall|j: int| start <= j < e implies s[j] != '\n' by {
                lemma_line_end_no_newline(s, start, j);
            }
        } else if start <= e < s.len() {
            lemma_nth_line_no_newline(s, e + 1, (n - 1) as nat);
        }
    }
}

proof fn lemma_line_end_no_newline(s: Seq<char>, i: int, j: int)
    requires
        0 <= i <= j < line_end(s, i),
    ensures
        s[j] != '\n',
    decreases s.len() - i,
{
    if i < j {
        lemma_line_end_no_newline(s, i + 1, j);
    }
}

/// How a text splits into the lines that error reports quote: no line holds
/// a line break; the first line of `a`, a line break and `b` is `a` without
/// a trailing `\r`, and the lines after it are the lines of `b`.
pub proof fn law_source_lines(a: Seq<char>, b: Seq<char>, n: nat)
    requires
        forall|i: int| 0 <= i < a.len() ==> a[i] != '\n',
    ensures
        nth_line(a + seq!['\n'] + b, 0, n + 1) == nth_line(b, 0, n),
        nth_line(a + seq!['\n'] + b, 0, 0) == Some(
            if a.len() > 0 && a.last() == '\r' {
                a.drop_last()
            } else {
                a
            },
        ),
        a.len() > 0 ==> nth_line(a, 0, 0) == Some(a),
        nth_line(a, 0, n + 1) is None,
        nth_line(a + b, 0, n) matches Some(l) ==> forall|i: int| 0 <= i < l.len() ==> l[i] != '\n',
{
    let pre = a + seq!['\n'];
    let s = pre + b;
    assert(a + seq!['\n'] + b == s);
    assert forall|i: int| 0 <= i < a.len() implies s[i] != '\n' by {
        assert(s[i] == a[i]);
    }
    lemma_line_end_skip(s, 0, a.len() as int);
    assert(s[a.len() as int] == '\n');
    assert(line_end(s, 0) == a.len());
    lemma_nth_line_shift(pre, b, 0, n);
    assert(s.subrange(0, a.len() as int) =~= a);
    if a.len() > 0 {
        assert(s.subrange(0, a.len() - 1) =~= a.drop_last());
    }
    lemma_line_end_skip(a, 0, a.len() as int);
    assert(a.subrange(0, a.len() as int) =~= a);
    lemma_nth_line_no_newline(a + b, 0, n);
}

} // verus!
