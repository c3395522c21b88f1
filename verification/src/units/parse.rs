//! The text syntax of quantities and compound units.

use vstd::prelude::*;
use crate::units::error::{Dimensions, UnitError};
use crate::units::unit::{build_compound_symbol, build_power_symbol, divide_dimensions, dims_difference, dims_scaled, dims_sum, fits_i8, multiply_dimensions, raise_dimensions, spec_compound_symbol, spec_power_symbol};
use crate::text::extend;
use crate::text::{chars_of, is_digit, is_ws, string_from_chars, string_views, sub_chars, trim_start_chars, trim_start_spec, ws_prefix_len};

verus! {

/// Number of leading ASCII digits of `s`.
pub open spec fn digit_run(s: Seq<char>) -> nat
    decreases s.len(),
{
    if s.len() > 0 && is_digit(s[0]) {
        1 + digit_run(s.skip(1))
    } else {
        0
    }
}

/// Index just past `j` and an optional sign at `j`.
pub open spec fn after_sign(s: Seq<char>, j: int) -> int {
    if j < s.len() && (s[j] == '-' || s[j] == '+') { j + 1 } else { j }
}

/// Index just past the digits starting at `j`.
pub open spec fn after_digits(s: Seq<char>, j: int) -> int {
    j + digit_run(s.skip(j))
}

/// Where the numeric value at the start of `s` ends: leading whitespace, an
/// optional sign, digits, an optional `.` and digits, an optional exponent
/// (`e` or `E`, an optional sign, digits).
pub open spec fn number_end(s: Seq<char>) -> int {
    let i1 = after_sign(s, ws_prefix_len(s) as int);
    let i2 = after_digits(s, i1);
    let i3 = if i2 < s.len() && s[i2] == '.' { after_digits(s, i2 + 1) } else { i2 };
    if i3 < s.len() && (s[i3] == 'e' || s[i3] == 'E') {
        after_digits(s, after_sign(s, i3 + 1))
    } else {
        i3
    }
}

/// The value text and the unit text of a quantity: the numeric prefix, and
/// the rest without its leading whitespace; an error when there is no
/// numeric prefix or no unit.
pub open spec fn spec_split_value_and_unit(s: Seq<char>) -> Result<(Seq<char>, Seq<char>), Seq<char>> {
    let i = number_end(s);
    if i == 0 {
        Err(no_number_reason())
    } else if trim_start_spec(s.skip(i)).len() == 0 {
        Err(no_unit_reason())
    } else {
        Ok((s.take(i), trim_start_spec(s.skip(i))))
    }
}

/// The reason given when a quantity has no numeric value.
pub open spec fn no_number_reason() -> Seq<char> {
    seq!['n', 'o', ' ', 'n', 'u', 'm', 'e', 'r', 'i', 'c', ' ', 'v', 'a', 'l', 'u', 'e', ' ', 'f', 'o', 'u', 'n', 'd']
}

/// The reason given when a quantity has no unit.
pub open spec fn no_unit_reason() -> Seq<char> {
    seq!['n', 'o', ' ', 'u', 'n', 'i', 't', ' ', 'f', 'o', 'u', 'n', 'd']
}

proof fn lemma_digit_run_from(s: Seq<char>, j: int, k: int)
    requires
        0 <= j <= k <= s.len(),
        forall|m: int| j <= m < k ==> is_digit(#[trigger] s[m]),
    ensures
        after_digits(s, j) == after_digits(s, k),
    decreases k - j,
{
    if j < k {
        assert(s.skip(j)[0] == s[j]);
        assert(s.skip(j).skip(1) == s.skip(j + 1));
        lemma_digit_run_from(s, j + 1, k);
    }
}

proof fn lemma_digit_run_stop(s: Seq<char>, k: int)
    requires
        0 <= k <= s.len(),
        k < s.len() ==> !is_digit(s[k]),
    ensures
        after_digits(s, k) == k,
{
    if k < s.len() {
        assert(s.skip(k)[0] == s[k]);
    }
}

/// All characters of `s` are ASCII digits.
pub open spec fn all_digits(s: Seq<char>) -> bool {
    forall|k: int| 0 <= k < s.len() ==> is_digit(#[trigger] s[k])
}

proof fn lemma_digits_then_stop(s: Seq<char>, j: int, n: int)
    requires
        0 <= j,
        0 <= n,
        j + n <= s.len(),
        forall|k: int| j <= k < j + n ==> is_digit(#[trigger] s[k]),
        j + n < s.len() ==> !is_digit(s[j + n]),
    ensures
        after_digits(s, j) == j + n,
{
    lemma_digit_run_from(s, j, j + n);
    lemma_digit_run_stop(s, j + n);
}

/// Leading whitespace, an optional sign and a run of digits: where the run
/// ends.
proof fn lemma_mantissa_start(s: Seq<char>, w: Seq<char>, msign: Seq<char>, a: Seq<char>)
    requires
        forall|k: int| 0 <= k < w.len() ==> is_ws(#[trigger] w[k]),
        msign.len() == 0 || msign == seq!['-'] || msign == seq!['+'],
        all_digits(a),
        w.len() + msign.len() + a.len() < s.len(),
        s.take((w.len() + msign.len() + a.len()) as int) == w + msign + a,
        !is_digit(s[(w.len() + msign.len() + a.len()) as int]),
        msign.len() == 0 && a.len() == 0 ==> !is_ws(s[w.len() as int]) && s[w.len() as int] != '-' && s[w.len() as int] != '+',
    ensures
        ws_prefix_len(s) == w.len(),
        after_sign(s, w.len() as int) == w.len() + msign.len(),
        after_digits(s, (w.len() + msign.len()) as int) == w.len() + msign.len() + a.len(),
{
    let lw = w.len() as int;
    let ls = msign.len() as int;
    let la = a.len() as int;
    let p = w + msign + a;
    assert forall|k: int| 0 <= k < lw implies is_ws(#[trigger] s[k]) by {
        assert(s[k] == s.take(lw + ls + la)[k]);
        assert(p[k] == w[k]);
    }
    assert(s[lw] == s.take(lw + ls + la + 1)[lw]) by {
        assert(s.take(lw + ls + la + 1)[lw] == s[lw]);
    }
    if ls > 0 {
        assert(s[lw] == s.take(lw + ls + la)[lw]);
        assert(p[lw] == msign[0]);
        assert(!is_ws(s[lw]));
    } else if la > 0 {
        assert(s[lw] == s.take(lw + ls + la)[lw]);
        assert(p[lw] == a[0]);
        assert(is_digit(a[0]));
        assert(!is_ws(s[lw]));
    }
    crate::text::lemma_ws_prefix_exact(s, lw);
    if ls == 0 && la > 0 {
        assert(s[lw] == a[0]);
    }
    assert forall|k: int| lw + ls <= k < lw + ls + la implies is_digit(#[trigger] s[k]) by {
        assert(s[k] == s.take(lw + ls + la)[k]);
        assert(p[k] == a[k - lw - ls]);
    }
    lemma_digits_then_stop(s, lw + ls, la);
}

/// A number is read whole: leading whitespace, an optional sign, digits, a
/// fraction, and an exponent marked by `e` or `E` alike with an optional
/// sign and digits. For `1.5E3 m` the value text is `1.5E3`.
pub proof fn lemma_number_end_reads_exponent(w: Seq<char>, msign: Seq<char>, a: Seq<char>, f: Seq<char>, c: char, sign: Seq<char>, x: Seq<char>, rest: Seq<char>)
    requires
        forall|k: int| 0 <= k < w.len() ==> is_ws(#[trigger] w[k]),
        msign.len() == 0 || msign == seq!['-'] || msign == seq!['+'],
        a.len() > 0,
        all_digits(a),
        all_digits(f),
        c == 'e' || c == 'E',
        sign.len() == 0 || sign == seq!['-'] || sign == seq!['+'],
        x.len() > 0,
        all_digits(x),
        rest.len() > 0 ==> !is_digit(rest[0]),
    ensures
        number_end(w + msign + a + seq!['.'] + f + seq![c] + sign + x + rest)
            == w.len() + msign.len() + a.len() + 1 + f.len() + 1 + sign.len() + x.len(),
        number_end(w + msign + a + seq![c] + sign + x + rest) == w.len() + msign.len() + a.len() + 1 + sign.len() + x.len(),
{
    let m: int = (w.len() + msign.len() + a.len()) as int;
    let s = w + msign + a + seq!['.'] + f + seq![c] + sign + x + rest;
    assert(s.take(m) =~= w + msign + a);
    assert(s[m] == '.');
    lemma_mantissa_start(s, w, msign, a);
    let lf = f.len() as int;
    let ls = sign.len() as int;
    let lx = x.len() as int;
    assert forall|k: int| m + 1 <= k < m + 1 + lf implies is_digit(#[trigger] s[k]) by { assert(s[k] == f[k - m - 1]); }
    assert(s[m + 1 + lf] == c);
    lemma_digits_then_stop(s, m + 1, lf);
    let e = m + 1 + lf;
    if ls > 0 {
        assert(s[e + 1] == sign[0]);
    } else {
        assert(s[e + 1] == x[0]);
    }
    assert(after_sign(s, e + 1) == e + 1 + ls);
    assert forall|k: int| e + 1 + ls <= k < e + 1 + ls + lx implies is_digit(#[trigger] s[k]) by { assert(s[k] == x[k - (e + 1 + ls)]); }
    if rest.len() > 0 {
        assert(s[e + 1 + ls + lx] == rest[0]);
    }
    lemma_digits_then_stop(s, e + 1 + ls, lx);

    let t = w + msign + a + seq![c] + sign + x + rest;
    assert(t.take(m) =~= w + msign + a);
    assert(t[m] == c);
    lemma_mantissa_start(t, w, msign, a);
    if ls > 0 {
        assert(t[m + 1] == sign[0]);
    } else {
        assert(t[m + 1] == x[0]);
    }
    assert(after_sign(t, m + 1) == m + 1 + ls);
    assert forall|k: int| m + 1 + ls <= k < m + 1 + ls + lx implies is_digit(#[trigger] t[k]) by { assert(t[k] == x[k - (m + 1 + ls)]); }
    if rest.len() > 0 {
        assert(t[m + 1 + ls + lx] == rest[0]);
    }
    lemma_digits_then_stop(t, m + 1 + ls, lx);
}

/// A number without an exponent ends after its digits and fraction: what
/// follows (a unit, say) is not part of it. For ` -12.5 kg` the value text
/// is ` -12.5`; for `7 m` it is `7`.
pub proof fn lemma_number_end_plain(w: Seq<char>, msign: Seq<char>, a: Seq<char>, f: Seq<char>, rest: Seq<char>)
    requires
        forall|k: int| 0 <= k < w.len() ==> is_ws(#[trigger] w[k]),
        msign.len() == 0 || msign == seq!['-'] || msign == seq!['+'],
        a.len() > 0,
        all_digits(a),
        all_digits(f),
        rest.len() > 0,
        !is_digit(rest[0]),
        rest[0] != '.',
        rest[0] != 'e',
        rest[0] != 'E',
    ensures
        number_end(w + msign + a + seq!['.'] + f + rest) == w.len() + msign.len() + a.len() + 1 + f.len(),
        number_end(w + msign + a + rest) == w.len() + msign.len() + a.len(),
{
    let m: int = (w.len() + msign.len() + a.len()) as int;
    let lf = f.len() as int;
    let s = w + msign + a + seq!['.'] + f + rest;
    assert(s.take(m) =~= w + msign + a);
    assert(s[m] == '.');
    lemma_mantissa_start(s, w, msign, a);
    assert forall|k: int| m + 1 <= k < m + 1 + lf implies is_digit(#[trigger] s[k]) by { assert(s[k] == f[k - m - 1]); }
    assert(s[m + 1 + lf] == rest[0]);
    lemma_digits_then_stop(s, m + 1, lf);

    let t = w + msign + a + rest;
    assert(t.take(m) =~= w + msign + a);
    assert(t[m] == rest[0]);
    lemma_mantissa_start(t, w, msign, a);
}

/// The case of the exponent marker does not matter: writing `e` for an `E`
/// anywhere in a quantity leaves where its number ends unchanged.
pub proof fn lemma_number_end_marker_case(s: Seq<char>, k: int)
    requires
        0 <= k < s.len(),
        s[k] == 'E',
    ensures
        number_end(s.update(k, 'e')) == number_end(s),
{
    let t = s.update(k, 'e');
    assert forall|m: int| 0 <= m < s.len() implies is_digit(#[trigger] s[m]) == is_digit(t[m]) by {}
    crate::text::lemma_ws_prefix_len(s);
    let w = ws_prefix_len(s) as int;
    assert forall|j: int| 0 <= j < w implies is_ws(#[trigger] t[j]) by {
        assert(is_ws(s[j]));
    }
    crate::text::lemma_ws_prefix_exact(t, w);
    let i1 = after_sign(s, w);
    assert(after_sign(t, w) == i1);
    lemma_after_digits_same(s, t, i1);
    let i2 = after_digits(s, i1);
    if i2 < s.len() && s[i2] == '.' {
        lemma_after_digits_same(s, t, i2 + 1);
    }
    let i3 = if i2 < s.len() && s[i2] == '.' { after_digits(s, i2 + 1) } else { i2 };
    if i3 < s.len() && (s[i3] == 'e' || s[i3] == 'E') {
        assert(after_sign(t, i3 + 1) == after_sign(s, i3 + 1));
        lemma_after_digits_same(s, t, after_sign(s, i3 + 1));
    }
}

proof fn lemma_after_digits_same(s: Seq<char>, t: Seq<char>, j: int)
    requires
        s.len() == t.len(),
        0 <= j <= s.len(),
        forall|m: int| 0 <= m < s.len() ==> is_digit(#[trigger] s[m]) == is_digit(t[m]),
    ensures
        after_digits(s, j) == after_digits(t, j),
        j <= after_digits(s, j) <= s.len(),
    decreases s.len() - j,
{
    if j < s.len() && is_digit(s[j]) {
        assert(is_digit(t[j]));
        lemma_digit_run_from(s, j, j + 1);
        lemma_digit_run_from(t, j, j + 1);
        lemma_after_digits_same(s, t, j + 1);
    } else {
        lemma_digit_run_stop(s, j);
        lemma_digit_run_stop(t, j);
    }
}

/// Skips the digits starting at `j`.
fn skip_digits(s: &[char], j: usize) -> (res: usize)
    requires
        j <= s.len(),
    ensures
        res as int == after_digits(s@, j as int),
        res <= s.len(),
{
    let mut k = j;
    while k < s.len() && '0' <= s[k] && s[k] <= '9'
        invariant
            j <= k <= s.len(),
            forall|m: int| j <= m < k ==> is_digit(#[trigger] s@[m]),
        decreases s.len() - k,
    {
        k = k + 1;
    }
    proof {
        lemma_digit_run_from(s@, j as int, k as int);
        lemma_digit_run_stop(s@, k as int);
    }
    k
}

/// Index where the numeric value at the start of `s` ends.
fn number_end_index(s: &[char]) -> (res: usize)
    ensures
        res as int == number_end(s@),
        res <= s.len(),
{
    let mut i: usize = 0;
    while i < s.len() && crate::text::char_is_ws(s[i])
        invariant
            i <= s.len(),
            forall|j: int| 0 <= j < i ==> is_ws(#[trigger] s@[j]),
        decreases s.len() - i,
    {
        i = i + 1;
    }
    proof {
        crate::text::lemma_ws_prefix_exact(s@, i as int);
    }
    if i < s.len() && (s[i] == '-' || s[i] == '+') {
        i = i + 1;
    }
    i = skip_digits(s, i);
    if i < s.len() && s[i] == '.' {
        i = skip_digits(s, i + 1);
    }
    if i < s.len() && (s[i] == 'e' || s[i] == 'E') {
        i = i + 1;
        if i < s.len() && (s[i] == '-' || s[i] == '+') {
            i = i + 1;
        }
        i = skip_digits(s, i);
    }
    i
}

fn parse_error(input: &str, reason: Vec<char>) -> (res: UnitError)
    ensures
        res matches UnitError::ParseError { input: i, reason: r } && i@ == input@ && r@ == reason@,
{
    let i = string_from_chars(chars_of(input).as_slice());
    UnitError::ParseError { input: i, reason: string_from_chars(reason.as_slice()) }
}

/// Splits a quantity into its value text and its unit text.
pub fn split_value_and_unit(input: &str) -> (res: Result<(String, String), UnitError>)
    ensures
        match res {
            Ok((v, u)) => spec_split_value_and_unit(input@) == Ok::<(Seq<char>, Seq<char>), Seq<char>>((v@, u@)),
            Err(e) => spec_split_value_and_unit(input@) matches Err(r)
                && e matches UnitError::ParseError { input: i, reason } && i@ == input@ && reason@ == r,
        },
{
    let s = chars_of(input);
    let i = number_end_index(s.as_slice());
    if i == 0 {
        let r: Vec<char> = vec!['n', 'o', ' ', 'n', 'u', 'm', 'e', 'r', 'i', 'c', ' ', 'v', 'a', 'l', 'u', 'e', ' ', 'f', 'o', 'u', 'n', 'd'];
        assert(r@ == no_number_reason());
        return Err(parse_error(input, r));
    }
    let value = sub_chars(s.as_slice(), 0, i);
    let rest = sub_chars(s.as_slice(), i, s.len());
    assert(value@ == s@.take(i as int));
    assert(rest@ == s@.skip(i as int));
    let unit = trim_start_chars(rest.as_slice());
    if unit.len() == 0 {
        let r: Vec<char> = vec!['n', 'o', ' ', 'u', 'n', 'i', 't', ' ', 'f', 'o', 'u', 'n', 'd'];
        assert(r@ == no_unit_reason());
        return Err(parse_error(input, r));
    }
    Ok((string_from_chars(value.as_slice()), string_from_chars(unit.as_slice())))
}

/// The tokenizer's state after `s`: finished tokens and the token being
/// read. `*`, `/` and `^` are tokens of their own, spaces separate tokens,
/// every other character extends the current token.
pub open spec fn token_state(s: Seq<char>) -> (Seq<Seq<char>>, Seq<char>)
    decreases s.len(),
{
    if s.len() == 0 {
        (Seq::<Seq<char>>::empty(), Seq::<char>::empty())
    } else {
        let (toks, cur) = token_state(s.drop_last());
        let ch = s.last();
        let flushed = if cur.len() > 0 { toks.push(cur) } else { toks };
        if ch == '*' || ch == '/' || ch == '^' {
            (flushed.push(seq![ch]), Seq::<char>::empty())
        } else if ch == ' ' {
            (flushed, Seq::<char>::empty())
        } else {
            (toks, cur.push(ch))
        }
    }
}

/// The tokens of a unit text.
pub open spec fn spec_tokens(s: Seq<char>) -> Seq<Seq<char>> {
    let (toks, cur) = token_state(s);
    if cur.len() > 0 { toks.push(cur) } else { toks }
}

/// Tokenizes a unit text into names and the operators `*`, `/` and `^`.
pub fn tokenize_unit(input: &str) -> (res: Result<Vec<String>, UnitError>)
    ensures
        res matches Ok(v) && string_views(v@) == spec_tokens(input@),
{
    let s = chars_of(input);
    let mut toks: Vec<Vec<char>> = Vec::new();
    let mut cur: Vec<char> = Vec::new();
    let mut i: usize = 0;
    while i < s.len()
        invariant
            i <= s.len(),
            token_state(s@.take(i as int)) == (crate::text::views(toks@), cur@),
        decreases s.len() - i,
    {
        let ch = s[i];
        assert(s@.take(i + 1).drop_last() == s@.take(i as int));
        assert(s@.take(i + 1).last() == ch);
        if ch == '*' || ch == '/' || ch == '^' {
            if cur.len() > 0 {
                proof { crate::text::lemma_views_push(toks@, cur); }
                toks.push(cur);
            }
            let mut t: Vec<char> = Vec::new();
            t.push(ch);
            proof { crate::text::lemma_views_push(toks@, t); }
            toks.push(t);
            cur = Vec::new();
        } else if ch == ' ' {
            if cur.len() > 0 {
                proof { crate::text::lemma_views_push(toks@, cur); }
                toks.push(cur);
            }
            cur = Vec::new();
        } else {
            cur.push(ch);
        }
        i = i + 1;
    }
    assert(s@.take(s.len() as int) == s@);
    if cur.len() > 0 {
        proof { crate::text::lemma_views_push(toks@, cur); }
        toks.push(cur);
    }
    let mut out: Vec<String> = Vec::new();
    let mut j: usize = 0;
    while j < toks.len()
        invariant
            j <= toks.len(),
            string_views(out@) == crate::text::views(toks@).take(j as int),
        decreases toks.len() - j,
    {
        let ghost before = string_views(out@);
        out.push(string_from_chars(toks[j].as_slice()));
        assert(string_views(out@) == before.push(toks@[j as int]@));
        assert(crate::text::views(toks@).take(j + 1) == crate::text::views(toks@).take(j as int).push(toks@[j as int]@));
        j = j + 1;
    }
    assert(crate::text::views(toks@).take(toks.len() as int) == crate::text::views(toks@));
    Ok(out)
}

/// One factor of a compound unit: whether it divides (as the operator
/// before it says; the first factor's operator has no effect), the unit
/// name, and the exponent text after a `^`, if any.
pub struct UnitTerm {
    pub divide: bool,
    pub base: String,
    pub exponent: Option<String>,
}

/// A term as plain values.
pub open spec fn term_view(t: UnitTerm) -> (bool, Seq<char>, Option<Seq<char>>) {
    (t.divide, t.base@, match t.exponent { Some(e) => Some(e@), None => None })
}

/// The factors of a compound unit read from token `i` on, `divide` being
/// the operator in force: `*` and `/` set the operator, any other token is
/// a unit name, followed by `^` and an exponent token when two more tokens
/// follow it and the next is `^`; the operator goes back to `*` after each
/// factor.
pub open spec fn spec_terms(tokens: Seq<Seq<char>>, i: int, divide: bool) -> Seq<(bool, Seq<char>, Option<Seq<char>>)>
    decreases tokens.len() - i,
{
    if i < 0 || i >= tokens.len() {
        Seq::empty()
    } else if tokens[i] == seq!['*'] {
        spec_terms(tokens, i + 1, false)
    } else if tokens[i] == seq!['/'] {
        spec_terms(tokens, i + 1, true)
    } else if i + 2 < tokens.len() && tokens[i + 1] == seq!['^'] {
        seq![(divide, tokens[i], Some(tokens[i + 2]))] + spec_terms(tokens, i + 3, false)
    } else {
        seq![(divide, tokens[i], None::<Seq<char>>)] + spec_terms(tokens, i + 1, false)
    }
}

fn is_single(t: &String, c: char) -> (res: bool)
    ensures
        res == (t@ == seq![c]),
{
    let v = chars_of(t.as_str());
    if v.len() == 1 && v[0] == c {
        assert(v@ =~= seq![c]);
        true
    } else {
        false
    }
}

/// Groups the tokens of a compound unit into its factors.
pub fn group_unit_terms(tokens: &Vec<String>) -> (res: Vec<UnitTerm>)
    ensures
        res@.map_values(|t: UnitTerm| term_view(t)) == spec_terms(string_views(tokens@), 0, false),
{
    let ghost tv = string_views(tokens@);
    let mut res: Vec<UnitTerm> = Vec::new();
    let mut i: usize = 0;
    let mut divide = false;
    while i < tokens.len()
        invariant
            i <= tokens.len() + 2,
            tv == string_views(tokens@),
            res@.map_values(|t: UnitTerm| term_view(t)) + spec_terms(tv, i as int, divide) == spec_terms(tv, 0, false),
        decreases tokens.len() + 2 - i,
    {
        let ghost before = res@.map_values(|t: UnitTerm| term_view(t));
        if is_single(&tokens[i], '*') {
            divide = false;
            i = i + 1;
        } else if is_single(&tokens[i], '/') {
            divide = true;
            i = i + 1;
        } else if tokens.len() - i > 2 && is_single(&tokens[i + 1], '^') {
            let base = string_from_chars(chars_of(tokens[i].as_str()).as_slice());
            let e = string_from_chars(chars_of(tokens[i + 2].as_str()).as_slice());
            let t = UnitTerm { divide, base, exponent: Some(e) };
            res.push(t);
            assert(res@.map_values(|t: UnitTerm| term_view(t)) =~= before.push(term_view(t)));
            assert(before.push(term_view(t)) + spec_terms(tv, i + 3, false) =~= before + (seq![term_view(t)] + spec_terms(tv, i + 3, false)));
            divide = false;
            i = i + 3;
        } else {
            let base = string_from_chars(chars_of(tokens[i].as_str()).as_slice());
            let t = UnitTerm { divide, base, exponent: None };
            res.push(t);
            assert(res@.map_values(|t: UnitTerm| term_view(t)) =~= before.push(term_view(t)));
            assert(before.push(term_view(t)) + spec_terms(tv, i + 1, false) =~= before + (seq![term_view(t)] + spec_terms(tv, i + 1, false)));
            divide = false;
            i = i + 1;
        }
    }
    assert(spec_terms(tv, i as int, divide) == Seq::<(bool, Seq<char>, Option<Seq<char>>)>::empty());
    assert(res@.map_values(|t: UnitTerm| term_view(t)) + Seq::<(bool, Seq<char>, Option<Seq<char>>)>::empty() == res@.map_values(|t: UnitTerm| term_view(t)));
    res
}

/// The value of a string of decimal digits.
pub open spec fn digits_value(s: Seq<char>) -> int
    decreases s.len(),
{
    if s.len() == 0 {
        0
    } else {
        digits_value(s.drop_last()) * 10 + (s.last() as int - '0' as int)
    }
}

/// A number's text without its sign.
pub open spec fn unsigned_part(s: Seq<char>) -> Seq<char> {
    if s.len() > 0 && (s[0] == '-' || s[0] == '+') { s.skip(1) } else { s }
}

/// The integer a text denotes in the syntax of `str::parse` for signed
/// integers: an optional `+` or `-`, then one or more ASCII digits.
pub open spec fn spec_parse_int(s: Seq<char>) -> Option<int> {
    if s.len() == 0 {
        None
    } else {
        let neg = s[0] == '-';
        let digits = unsigned_part(s);
        if digits.len() == 0 || !(forall|k: int| 0 <= k < digits.len() ==> is_digit(#[trigger] digits[k])) {
            None
        } else if neg {
            Some(-digits_value(digits))
        } else {
            Some(digits_value(digits))
        }
    }
}

proof fn lemma_digits_value_grows(s: Seq<char>, k: int)
    requires
        0 <= k <= s.len(),
        forall|m: int| 0 <= m < s.len() ==> is_digit(#[trigger] s[m]),
    ensures
        0 <= digits_value(s.take(k)) <= digits_value(s),
    decreases s.len(),
{
    if k == s.len() {
        assert(s.take(k) == s);
        lemma_digits_value_nonneg(s);
    } else {
        assert forall|m: int| 0 <= m < s.drop_last().len() implies is_digit(#[trigger] s.drop_last()[m]) by {
            assert(s.drop_last()[m] == s[m]);
        }
        lemma_digits_value_grows(s.drop_last(), k);
        assert(s.drop_last().take(k) == s.take(k));
        assert(is_digit(s[s.len() - 1]));
    }
}

proof fn lemma_digits_value_nonneg(s: Seq<char>)
    requires
        forall|m: int| 0 <= m < s.len() ==> is_digit(#[trigger] s[m]),
    ensures
        digits_value(s) >= 0,
    decreases s.len(),
{
    if s.len() > 0 {
        assert forall|m: int| 0 <= m < s.drop_last().len() implies is_digit(#[trigger] s.drop_last()[m]) by {
            assert(s.drop_last()[m] == s[m]);
        }
        lemma_digits_value_nonneg(s.drop_last());
        assert(is_digit(s[s.len() - 1]));
    }
}

/// `str::parse::<i8>`: the integer the text denotes, if it is one and fits.
#[verifier::loop_isolation(false)]
pub fn parse_i8(text: &str) -> (res: Option<i8>)
    ensures
        match res {
            Some(v) => spec_parse_int(text@) == Some(v as int),
            None => match spec_parse_int(text@) {
                Some(n) => n < i8::MIN || n > i8::MAX,
                None => true,
            },
        },
{
    let s = chars_of(text);
    if s.len() == 0 {
        return None;
    }
    let neg = s[0] == '-';
    let start: usize = if s[0] == '-' || s[0] == '+' { 1 } else { 0 };
    let digits = sub_chars(s.as_slice(), start, s.len());
    assert(digits@ == unsigned_part(text@));
    if digits.len() == 0 {
        return None;
    }
    let mut k: usize = 0;
    while k < digits.len()
        invariant
            k <= digits.len(),
            forall|m: int| 0 <= m < k ==> is_digit(#[trigger] digits@[m]),
        decreases digits.len() - k,
    {
        if !('0' <= digits[k] && digits[k] <= '9') {
            assert(!is_digit(digits@[k as int]));
            return None;
        }
        k = k + 1;
    }
    let mut acc: i64 = 0;
    let mut j: usize = 0;
    while j < digits.len()
        invariant
            j <= digits.len(),
            forall|m: int| 0 <= m < digits.len() ==> is_digit(#[trigger] digits@[m]),
            acc as int == digits_value(digits@.take(j as int)),
            0 <= acc <= 128,
        decreases digits.len() - j,
    {
        assert(digits@.take(j + 1).drop_last() == digits@.take(j as int));
        assert(is_digit(digits@[j as int]));
        let d: i64 = (digits[j] as u32 - '0' as u32) as i64;
        let next = acc * 10 + d;
        assert(digits_value(digits@.take(j + 1)) == next as int);
        if next > 128 {
            proof { lemma_digits_value_grows(digits@, j + 1); }
            return None;
        }
        acc = next;
        j = j + 1;
    }
    assert(digits@.take(digits.len() as int) == digits@);
    if neg {
        Some((-acc) as i8)
    } else if acc > 127 {
        None
    } else {
        Some(acc as i8)
    }
}

/// A digit string's value is at least that of each of its prefixes.
pub proof fn lemma_digits_grow(s: Seq<char>, k: int)
    requires
        0 <= k <= s.len(),
        forall|m: int| 0 <= m < s.len() ==> is_digit(#[trigger] s[m]),
    ensures
        0 <= digits_value(s.take(k)) <= digits_value(s),
{
    lemma_digits_value_grows(s, k);
}

/// Dimensions as integers.
pub open spec fn int_dims(d: Seq<i8>) -> Seq<int> {
    d.map_values(|x: i8| x as int)
}

/// Componentwise sum of integer dimensions.
pub open spec fn add_dims(a: Seq<int>, b: Seq<int>) -> Seq<int> {
    Seq::new(8, |i: int| a[i] + b[i])
}

/// Componentwise difference of integer dimensions.
pub open spec fn sub_dims(a: Seq<int>, b: Seq<int>) -> Seq<int> {
    Seq::new(8, |i: int| a[i] - b[i])
}

/// Why composing the terms of a compound unit stops: a parse failure with
/// its reason, or a dimension exponent past what an `i8` holds.
pub enum ComposeStop {
    Reason(Seq<char>),
    Overflow,
}

/// The reason for a term whose base is no known unit.
pub open spec fn unknown_unit_reason(base: Seq<char>) -> Seq<char> {
    "unknown unit: '"@ + base + seq!['\'']
}

/// The reason for an exponent that is no `i8`.
pub open spec fn invalid_exponent_reason(e: Seq<char>) -> Seq<char> {
    "invalid exponent: '"@ + e + seq!['\'']
}

/// The reason for a compound unit without a term.
pub open spec fn no_term_reason() -> Seq<char> {
    "failed to parse compound unit"@
}

/// A looked-up base as plain values.
pub open spec fn base_view(b: Option<(Dimensions, String)>) -> Option<(Seq<i8>, Seq<char>)> {
    match b {
        Some((d, s)) => Some((d@, s@)),
        None => None,
    }
}

/// One term of a compound unit: its base (as looked up) raised to its
/// exponent, or why that fails.
pub open spec fn spec_unit_term(term: (bool, Seq<char>, Option<Seq<char>>), base: Option<(Seq<i8>, Seq<char>)>)
    -> Result<(Seq<int>, Seq<char>), ComposeStop>
{
    match base {
        None => Err(ComposeStop::Reason(unknown_unit_reason(term.1))),
        Some((d, sym)) => match term.2 {
            None => Ok((int_dims(d), sym)),
            Some(e) => match spec_parse_int(e) {
                Some(p) => if i8::MIN <= p <= i8::MAX {
                    if fits_i8(dims_scaled(d, p)) {
                        Ok((dims_scaled(d, p), spec_power_symbol(sym, p)))
                    } else {
                        Err(ComposeStop::Overflow)
                    }
                } else {
                    Err(ComposeStop::Reason(invalid_exponent_reason(e)))
                },
                None => Err(ComposeStop::Reason(invalid_exponent_reason(e))),
            },
        },
    }
}

/// The compound unit of the first `n` terms, each with its looked-up base:
/// none before the first term; each later term multiplies or divides what
/// came before (dimensions added or subtracted, symbols joined by `*` or
/// `/`).
pub open spec fn spec_compose(terms: Seq<(bool, Seq<char>, Option<Seq<char>>)>, bases: Seq<Option<(Seq<i8>, Seq<char>)>>, n: nat)
    -> Result<Option<(Seq<int>, Seq<char>)>, ComposeStop>
    decreases n,
{
    if n == 0 {
        Ok(None)
    } else {
        match spec_compose(terms, bases, (n - 1) as nat) {
            Err(s) => Err(s),
            Ok(acc) => match spec_unit_term(terms[n - 1], bases[n - 1]) {
                Err(s) => Err(s),
                Ok((td, ts)) => match acc {
                    None => Ok(Some((td, ts))),
                    Some((ad, asym)) => {
                        let divide = terms[n - 1].0;
                        let nd = if divide { sub_dims(ad, td) } else { add_dims(ad, td) };
                        if fits_i8(nd) {
                            Ok(Some((nd, spec_compound_symbol(asym, if divide { seq!['/'] } else { seq!['*'] }, ts))))
                        } else {
                            Err(ComposeStop::Overflow)
                        }
                    },
                },
            },
        }
    }
}

proof fn lemma_compose_stops(terms: Seq<(bool, Seq<char>, Option<Seq<char>>)>, bases: Seq<Option<(Seq<i8>, Seq<char>)>>, k: nat, n: nat)
    requires
        k <= n,
        spec_compose(terms, bases, k) is Err,
    ensures
        spec_compose(terms, bases, n) == spec_compose(terms, bases, k),
    decreases n,
{
    if n > k {
        lemma_compose_stops(terms, bases, k, (n - 1) as nat);
    }
}

fn reason_quoted(prefix: &str, text: &str) -> (res: String)
    ensures
        res@ == prefix@ + text@ + seq!['\''],
{
    let mut m = chars_of(prefix);
    extend(&mut m, chars_of(text).as_slice());
    m.push('\'');
    string_from_chars(m.as_slice())
}

fn scaled_fits(d: &Dimensions, p: i8) -> (res: bool)
    ensures
        res == fits_i8(dims_scaled(d@, p as int)),
{
    let mut i: usize = 0;
    while i < 8
        invariant
            i <= 8,
            forall|k: int| 0 <= k < i ==> i8::MIN <= #[trigger] dims_scaled(d@, p as int)[k] <= i8::MAX,
        decreases 8 - i,
    {
        let a = d[i] as i32;
        let b = p as i32;
        assert(-16384 <= a * b <= 16384) by (nonlinear_arith)
            requires
                -128 <= a <= 127,
                -128 <= b <= 127,
        ;
        let x = a * b;
        if x < -128 || x > 127 {
            assert(dims_scaled(d@, p as int)[i as int] == x);
            return false;
        }
        i = i + 1;
    }
    true
}

fn combined_fits(a: &Dimensions, b: &Dimensions, divide: bool) -> (res: bool)
    ensures
        res == fits_i8(if divide { sub_dims(int_dims(a@), int_dims(b@)) } else { add_dims(int_dims(a@), int_dims(b@)) }),
{
    let ghost nd = if divide { sub_dims(int_dims(a@), int_dims(b@)) } else { add_dims(int_dims(a@), int_dims(b@)) };
    let mut i: usize = 0;
    while i < 8
        invariant
            i <= 8,
            nd == (if divide { sub_dims(int_dims(a@), int_dims(b@)) } else { add_dims(int_dims(a@), int_dims(b@)) }),
            forall|k: int| 0 <= k < i ==> i8::MIN <= #[trigger] nd[k] <= i8::MAX,
        decreases 8 - i,
    {
        let x = if divide { (a[i] as i16) - (b[i] as i16) } else { (a[i] as i16) + (b[i] as i16) };
        assert(nd[i as int] == x);
        if x < -128 || x > 127 {
            return false;
        }
        i = i + 1;
    }
    true
}

/// One term of a compound unit with its base as looked up: the base raised
/// to the term's exponent (dimensions scaled, symbol with the power), the
/// reason when the base is no known unit or the exponent no `i8`, or `None`
/// where a dimension exponent would overflow.
pub fn parse_unit_term(term: &UnitTerm, base: &Option<(Dimensions, String)>) -> (res: Option<Result<(Dimensions, String), String>>)
    ensures
        match spec_unit_term(term_view(*term), base_view(*base)) {
            Err(ComposeStop::Overflow) => res is None,
            Err(ComposeStop::Reason(m)) => res matches Some(Err(r)) && r@ == m,
            Ok((d, s)) => res matches Some(Ok((rd, rs))) && int_dims(rd@) == d && rs@ == s,
        },
{
    match base {
        None => Some(Err(reason_quoted("unknown unit: '", term.base.as_str()))),
        Some((d, sym)) => match &term.exponent {
            None => Some(Ok((*d, String::from_str(sym.as_str())))),
            Some(e) => match parse_i8(e.as_str()) {
                Some(p) => {
                    if scaled_fits(d, p) {
                        let nd = raise_dimensions(d, p);
                        assert(int_dims(nd@) =~= dims_scaled(d@, p as int));
                        Some(Ok((nd, build_power_symbol(sym.as_str(), p))))
                    } else {
                        None
                    }
                },
                None => Some(Err(reason_quoted("invalid exponent: '", e.as_str()))),
            },
        },
    }
}

/// Composes the terms of a compound unit, each with its base as looked up
/// (`bases[i]` for `terms[i]`): the dimensions and symbol of the unit; the
/// reason of the first term that fails, or `failed to parse compound unit`
/// when there is no term; `None` where a dimension exponent would overflow.
pub fn parse_compound_unit(terms: &Vec<UnitTerm>, bases: &Vec<Option<(Dimensions, String)>>)
    -> (res: Option<Result<(Dimensions, String), String>>)
    requires
        terms.len() == bases.len(),
    ensures
        match spec_compose(terms@.map_values(|t: UnitTerm| term_view(t)), bases@.map_values(|b: Option<(Dimensions, String)>| base_view(b)), terms.len() as nat) {
            Err(ComposeStop::Overflow) => res is None,
            Err(ComposeStop::Reason(m)) => res matches Some(Err(r)) && r@ == m,
            Ok(None) => res matches Some(Err(r)) && r@ == no_term_reason(),
            Ok(Some((d, s))) => res matches Some(Ok((rd, rs))) && int_dims(rd@) == d && rs@ == s,
        },
{
    let ghost tv = terms@.map_values(|t: UnitTerm| term_view(t));
    let ghost bv = bases@.map_values(|b: Option<(Dimensions, String)>| base_view(b));
    let mut acc: Option<(Dimensions, String)> = None;
    let mut i: usize = 0;
    while i < terms.len()
        invariant
            i <= terms.len(),
            terms.len() == bases.len(),
            tv == terms@.map_values(|t: UnitTerm| term_view(t)),
            bv == bases@.map_values(|b: Option<(Dimensions, String)>| base_view(b)),
            spec_compose(tv, bv, i as nat) == Ok::<Option<(Seq<int>, Seq<char>)>, ComposeStop>(match acc {
                Some((d, s)) => Some((int_dims(d@), s@)),
                None => None,
            }),
        decreases terms.len() - i,
    {
        assert(tv[i as int] == term_view(terms@[i as int]));
        assert(bv[i as int] == base_view(bases@[i as int]));
        let (td, ts) = match parse_unit_term(&terms[i], &bases[i]) {
            None => {
                proof { lemma_compose_stops(tv, bv, (i + 1) as nat, terms.len() as nat); }
                return None;
            },
            Some(Err(r)) => {
                proof { lemma_compose_stops(tv, bv, (i + 1) as nat, terms.len() as nat); }
                return Some(Err(r));
            },
            Some(Ok(x)) => x,
        };
        acc = match acc {
            None => Some((td, ts)),
            Some((ad, asym)) => {
                let divide = terms[i].divide;
                if !combined_fits(&ad, &td, divide) {
                    proof { lemma_compose_stops(tv, bv, (i + 1) as nat, terms.len() as nat); }
                    return None;
                }
                if divide {
                    assert(dims_difference(ad@, td@) =~= sub_dims(int_dims(ad@), int_dims(td@)));
                    let nd = divide_dimensions(&ad, &td);
                    assert(int_dims(nd@) =~= sub_dims(int_dims(ad@), int_dims(td@)));
                    let slash: [char; 1] = ['/'];
                    assert(slash@ == seq!['/']);
                    let op = string_from_chars(&slash);
                    Some((nd, build_compound_symbol(asym.as_str(), op.as_str(), ts.as_str())))
                } else {
                    assert(dims_sum(ad@, td@) =~= add_dims(int_dims(ad@), int_dims(td@)));
                    let nd = multiply_dimensions(&ad, &td);
                    assert(int_dims(nd@) =~= add_dims(int_dims(ad@), int_dims(td@)));
                    let star: [char; 1] = ['*'];
                    assert(star@ == seq!['*']);
                    let op = string_from_chars(&star);
                    Some((nd, build_compound_symbol(asym.as_str(), op.as_str(), ts.as_str())))
                }
            },
        };
        i = i + 1;
    }
    match acc {
        Some(x) => Some(Ok(x)),
        None => Some(Err(String::from_str("failed to parse compound unit"))),
    }
}

} // verus!
