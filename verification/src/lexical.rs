//! Lexical classification of text values: boolean, unsigned-integer and
//! floating-point literals, whitespace tokenization and trimming.  These are
//! the grammars the structured-value serializer guesses types with.
//! Whitespace throughout is XML whitespace (space, tab, carriage return,
//! line feed), not the wider Unicode set.

use vstd::prelude::*;
use vstd::assert_by_contradiction;

verus! {

use crate::text::{is_ws, lower};

/// A decimal digit.
pub open spec fn is_digit(c: char) -> bool {
    '0' <= c && c <= '9'
}

/// The value of a decimal digit.
pub open spec fn digit_val(c: char) -> int {
    (c as int) - 48
}

/// Whether every character is a decimal digit.
pub open spec fn all_digits(s: Seq<char>) -> bool {
    forall|i: int| 0 <= i < s.len() ==> is_digit(#[trigger] s[i])
}

/// The number denoted by a sequence of decimal digits, most significant
/// first.
pub open spec fn digits_val(s: Seq<char>) -> int
    decreases s.len(),
{
    if s.len() == 0 {
        0
    } else {
        digits_val(s.drop_last()) * 10 + digit_val(s.last())
    }
}

/// A possible leading `+` or `-` removed.
pub open spec fn strip_sign(s: Seq<char>) -> Seq<char> {
    if s.len() > 0 && (s[0] == '+' || s[0] == '-') {
        s.drop_first()
    } else {
        s
    }
}

/// A possible leading `+` removed.
pub open spec fn strip_plus(s: Seq<char>) -> Seq<char> {
    if s.len() > 0 && s[0] == '+' {
        s.drop_first()
    } else {
        s
    }
}

/// An unsigned decimal integer literal that fits in 64 bits: an optional
/// `+`, then one or more digits denoting a value at most `u64::MAX`.
pub open spec fn is_u64_lit(s: Seq<char>) -> bool {
    let t = strip_plus(s);
    t.len() > 0 && all_digits(t) && digits_val(t) <= u64::MAX
}

/// The value of an unsigned decimal integer literal.
pub open spec fn u64_lit_val(s: Seq<char>) -> int {
    digits_val(strip_plus(s))
}

/// A boolean literal: exactly `true` or `false`.
pub open spec fn is_bool_lit(s: Seq<char>) -> bool {
    s == "true"@ || s == "false"@
}

/// The value of a boolean literal.
pub open spec fn bool_lit_val(s: Seq<char>) -> bool {
    s == "true"@
}

/// The number of leading decimal digits.
pub open spec fn digits_len(s: Seq<char>) -> int
    decreases s.len(),
{
    if s.len() == 0 || !is_digit(s[0]) {
        0
    } else {
        1 + digits_len(s.drop_first())
    }
}

/// The position of the first exponent marker `e` or `E`, or the length when
/// there is none.
pub open spec fn exp_pos(s: Seq<char>) -> int
    decreases s.len(),
{
    if s.len() == 0 {
        0
    } else if s[0] == 'e' || s[0] == 'E' {
        0
    } else {
        1 + exp_pos(s.drop_first())
    }
}

/// A mantissa: `digits`, `digits.`, `.digits` or `digits.digits`.
pub open spec fn is_mantissa(m: Seq<char>) -> bool {
    let a = digits_len(m);
    if a == m.len() {
        a > 0
    } else if m[a] == '.' {
        let rest = m.skip(a + 1);
        all_digits(rest) && (a > 0 || rest.len() > 0)
    } else {
        false
    }
}

/// An exponent part: `e` or `E`, an optional sign, one or more digits.
pub open spec fn is_exp_part(t: Seq<char>) -> bool {
    t.len() > 0 && (t[0] == 'e' || t[0] == 'E') && {
        let u = strip_sign(t.drop_first());
        u.len() > 0 && all_digits(u)
    }
}

/// A floating-point literal, as `f32` parsing accepts it: an optional sign,
/// then `inf`, `infinity` or `nan` in any case, or a mantissa with an
/// optional exponent part.
pub open spec fn is_float_lit(s: Seq<char>) -> bool {
    let t = strip_sign(s);
    ||| lower(t) == "inf"@
    ||| lower(t) == "infinity"@
    ||| lower(t) == "nan"@
    ||| {
        let p = exp_pos(t);
        is_mantissa(t.take(p)) && (p == t.len() || is_exp_part(t.skip(p)))
    }
}

/// The number of leading non-whitespace characters.
pub open spec fn nonws_len(s: Seq<char>) -> int
    decreases s.len(),
{
    if s.len() == 0 || is_ws(s[0]) {
        0
    } else {
        1 + nonws_len(s.drop_first())
    }
}

/// The maximal non-whitespace runs of `s`, in order, split on XML
/// whitespace.
pub open spec fn tok_split(s: Seq<char>) -> Seq<Seq<char>>
    decreases s.len(),
    via tok_split_dec
{
    if s.len() == 0 {
        Seq::empty()
    } else if is_ws(s[0]) {
        tok_split(s.drop_first())
    } else {
        let n = nonws_len(s);
        seq![s.take(n)] + tok_split(s.skip(n))
    }
}

/// The leading non-whitespace run is never empty and never longer than the
/// whole.
pub proof fn lemma_nonws_len_bounds(s: Seq<char>)
    ensures
        0 <= nonws_len(s) <= s.len(),
        s.len() > 0 && !is_ws(s[0]) ==> nonws_len(s) >= 1,
    decreases s.len(),
{
    if s.len() > 0 && !is_ws(s[0]) {
        lemma_nonws_len_bounds(s.drop_first());
    }
}

#[via_fn]
proof fn tok_split_dec(s: Seq<char>) {
    if s.len() > 0 && !is_ws(s[0]) {
        lemma_nonws_len_bounds(s);
    }
}

/// Leading whitespace removed.
pub open spec fn trim_start(s: Seq<char>) -> Seq<char>
    decreases s.len(),
{
    if s.len() > 0 && is_ws(s[0]) {
        trim_start(s.drop_first())
    } else {
        s
    }
}

/// Trailing whitespace removed.
pub open spec fn trim_end(s: Seq<char>) -> Seq<char>
    decreases s.len(),
{
    if s.len() > 0 && is_ws(s.last()) {
        trim_end(s.drop_last())
    } else {
        s
    }
}

/// Surrounding XML whitespace removed.
pub open spec fn trim(s: Seq<char>) -> Seq<char> {
    trim_end(trim_start(s))
}

proof fn lemma_digits_val_nonneg(s: Seq<char>)
    requires
        all_digits(s),
    ensures
        digits_val(s) >= 0,
    decreases s.len(),
{
    if s.len() > 0 {
        assert(all_digits(s.drop_last()));
        lemma_digits_val_nonneg(s.drop_last());
        assert(digits_val(s.drop_last()) * 10 >= 0) by (nonlinear_arith)
            requires
                digits_val(s.drop_last()) >= 0,
        ;
    }
}

proof fn lemma_digits_val_prefix(s: Seq<char>, k: int)
    requires
        all_digits(s),
        0 <= k <= s.len(),
    ensures
        digits_val(s.take(k)) <= digits_val(s),
    decreases s.len() - k,
{
    if k < s.len() {
        lemma_digits_val_prefix(s, k + 1);
        let t = s.take(k + 1);
        assert(t.drop_last() =~= s.take(k));
        assert(all_digits(s.take(k)));
        lemma_digits_val_nonneg(s.take(k));
        assert(digits_val(t) == digits_val(s.take(k)) * 10 + digit_val(t.last()));
        assert(digits_val(s.take(k)) * 10 >= digits_val(s.take(k))) by (nonlinear_arith)
            requires
                digits_val(s.take(k)) >= 0,
        ;
        assert(is_digit(s[k]));
        assert(digit_val(t.last()) >= 0);
    } else {
        assert(s.take(k) =~= s);
    }
}

/// Parses an unsigned decimal integer literal, exactly as [`is_u64_lit`]
/// describes one.
pub fn parse_u64(cs: &Vec<char>) -> (r: Option<u64>)
    ensures
        match r {
            Some(v) => is_u64_lit(cs@) && v == u64_lit_val(cs@),
            None => !is_u64_lit(cs@),
        },
{
    let start: usize = if cs.len() > 0 && cs[0] == '+' {
        1
    } else {
        0
    };
    let ghost t = strip_plus(cs@);
    proof {
        assert(t =~= cs@.skip(start as int));
    }
    if cs.len() == start {
        return None;
    }
    let mut val: u64 = 0;
    let mut i: usize = start;
    while i < cs.len()
        invariant
            start <= i <= cs@.len(),
            t == strip_plus(cs@),
            t == cs@.skip(start as int),
            all_digits(t.take(i - start)),
            val == digits_val(t.take(i - start)),
        decreases cs@.len() - i,
    {
        let c = cs[i];
        if !('0' <= c && c <= '9') {
            proof {
                assert(t[i - start] == cs@[i as int]);
                assert(!is_digit(t[i - start]));
                assert(!all_digits(t));
                assert(!is_u64_lit(cs@));
            }
            return None;
        }
        let d: u64 = ((c as u32) - 48) as u64;
        proof {
            assert(t.take(i - start + 1).drop_last() =~= t.take(i - start));
            assert(t.take(i - start + 1).last() == cs@[i as int]);
        }
        let next = match val.checked_mul(10) {
            Some(x) => x.checked_add(d),
            None => None,
        };
        match next {
            Some(x) => {
                val = x;
            },
            None => {
                proof {
                    assert(digits_val(t.take(i - start + 1)) > u64::MAX);
                    assert_by_contradiction!(!is_u64_lit(cs@), {
                        assert(is_u64_lit(cs@));
                        assert(all_digits(strip_plus(cs@)));
                        assert(all_digits(t));
                        lemma_digits_val_prefix(t, i - start + 1);
                        assert(t.take(t.len() as int) =~= t);
                    });
                }
                return None;
            },
        }
        i = i + 1;
    }
    proof {
        assert(t.take(t.len() as int) =~= t);
    }
    Some(val)
}

/// Tests a boolean literal, exactly as [`is_bool_lit`] describes one.
pub fn parse_bool(s: &str) -> (r: Option<bool>)
    ensures
        match r {
            Some(v) => is_bool_lit(s@) && v == bool_lit_val(s@),
            None => !is_bool_lit(s@),
        },
{
    if crate::text::str_eq(s, "true") {
        Some(true)
    } else if crate::text::str_eq(s, "false") {
        Some(false)
    } else {
        None
    }
}

proof fn lemma_digits_len_char(s: Seq<char>, n: int)
    requires
        0 <= n <= s.len(),
        forall|k: int| 0 <= k < n ==> is_digit(#[trigger] s[k]),
        n == s.len() || !is_digit(s[n]),
    ensures
        digits_len(s) == n,
    decreases n,
{
    if n == 0 {
    } else {
        assert(forall|k: int| 0 <= k < n - 1 ==> is_digit(#[trigger] s.drop_first()[k]));
        assert(n - 1 == s.drop_first().len() || !is_digit(s.drop_first()[n - 1]));
        lemma_digits_len_char(s.drop_first(), n - 1);
    }
}

proof fn lemma_exp_pos_char(s: Seq<char>, n: int)
    requires
        0 <= n <= s.len(),
        forall|k: int| 0 <= k < n ==> !(#[trigger] s[k] == 'e' || s[k] == 'E'),
        n == s.len() || s[n] == 'e' || s[n] == 'E',
    ensures
        exp_pos(s) == n,
    decreases n,
{
    if n == 0 {
    } else {
        assert(forall|k: int|
            0 <= k < n - 1 ==> !(#[trigger] s.drop_first()[k] == 'e' || s.drop_first()[k] == 'E'));
        assert(n - 1 == s.drop_first().len() || s.drop_first()[n - 1] == 'e' || s.drop_first()[n
            - 1] == 'E');
        lemma_exp_pos_char(s.drop_first(), n - 1);
    }
}

/// ASCII case folding of the characters from `start` on.
fn lower_chars_from(cs: &Vec<char>, start: usize) -> (w: Vec<char>)
    requires
        start <= cs@.len(),
    ensures
        w@ == lower(cs@.skip(start as int)),
{
    let ghost t = cs@.skip(start as int);
    let mut w: Vec<char> = Vec::new();
    let mut i: usize = start;
    proof {
        assert(t.take(0).map_values(|c: char| crate::text::lower_char(c)) =~= Seq::<char>::empty());
    }
    while i < cs.len()
        invariant
            start <= i <= cs@.len(),
            t == cs@.skip(start as int),
            w@ == lower(t.take(i - start)),
        decreases cs@.len() - i,
    {
        let c = cs[i];
        proof {
            assert(t[i - start] == cs@[i as int]);
            assert(t.take(i - start + 1) =~= t.take(i - start).push(t[i - start]));
            assert(t.take(i - start + 1).map_values(|c: char| crate::text::lower_char(c))
                =~= t.take(i - start).map_values(|c: char| crate::text::lower_char(c)).push(
                crate::text::lower_char(t[i - start]),
            ));
        }
        if 'A' <= c && c <= 'Z' {
            w.push(((c as u8) + 32) as char);
        } else {
            w.push(c);
        }
        i = i + 1;
    }
    proof {
        assert(t.take(t.len() as int) =~= t);
    }
    w
}

/// Whether the folded text is one of the named special float values.
fn is_named_special(w: &Vec<char>) -> (r: bool)
    ensures
        r == (w@ == "inf"@ || w@ == "infinity"@ || w@ == "nan"@),
{
    proof {
        reveal_strlit("inf");
        reveal_strlit("infinity");
        reveal_strlit("nan");
    }
    if w.len() == 3 && w[0] == 'i' && w[1] == 'n' && w[2] == 'f' {
        proof {
            assert(w@ =~= "inf"@);
        }
        return true;
    }
    if w.len() == 3 && w[0] == 'n' && w[1] == 'a' && w[2] == 'n' {
        proof {
            assert(w@ =~= "nan"@);
        }
        return true;
    }
    if w.len() == 8 && w[0] == 'i' && w[1] == 'n' && w[2] == 'f' && w[3] == 'i' && w[4] == 'n'
        && w[5] == 'i' && w[6] == 't' && w[7] == 'y' {
        proof {
            assert(w@ =~= "infinity"@);
        }
        return true;
    }
    proof {
        assert(w@ != "inf"@ && w@ != "infinity"@ && w@ != "nan"@);
    }
    false
}

/// Whether the characters from `start` on form a number: a mantissa with an
/// optional exponent part.
#[verifier::rlimit(60)]
fn is_number_from(cs: &Vec<char>, start: usize) -> (r: bool)
    requires
        start <= cs@.len(),
    ensures
        r == ({
            let t = cs@.skip(start as int);
            let p = exp_pos(t);
            is_mantissa(t.take(p)) && (p == t.len() || is_exp_part(t.skip(p)))
        }),
{
    let ghost t = cs@.skip(start as int);
    // Find the exponent marker.
    let mut p: usize = start;
    while p < cs.len() && !(cs[p] == 'e' || cs[p] == 'E')
        invariant
            start <= p <= cs@.len(),
            t == cs@.skip(start as int),
            forall|k: int| start <= k < p ==> !(#[trigger] cs@[k] == 'e' || cs@[k] == 'E'),
        decreases cs@.len() - p,
    {
        p = p + 1;
    }
    proof {
        assert(forall|k: int| 0 <= k < t.len() ==> #[trigger] t[k] == cs@[k + start]);
        assert(forall|k: int| 0 <= k < p - start ==> !(#[trigger] t[k] == 'e' || t[k] == 'E'));
        if (p as int) < cs@.len() as int {
            assert(t[p - start] == cs@[p as int]);
        }
        lemma_exp_pos_char(t, p - start);
    }
    // Mantissa: digits, optionally a dot and more digits.
    let ghost m = t.take(p - start);
    proof {
        assert(forall|k: int| 0 <= k < m.len() ==> #[trigger] m[k] == cs@[k + start]);
    }
    let a = scan_digits_upto(cs, start, p);
    proof {
        assert forall|k: int| 0 <= k < a - start implies is_digit(#[trigger] m[k]) by {
            assert(m[k] == cs@[k + start]);
        }
    }
    let mantissa_ok: bool;
    if a == p {
        mantissa_ok = a > start;
        proof {
            lemma_digits_len_char(m, a - start);
            assert(mantissa_ok == is_mantissa(m));
        }
    } else if cs[a] == '.' {
        let b = scan_digits_upto(cs, a + 1, p);
        mantissa_ok = b == p && (a > start || b > a + 1);
        proof {
            assert(m[a - start] == cs@[a as int]);
            lemma_digits_len_char(m, a - start);
            let rest = m.skip(a - start + 1);
            assert(forall|k: int| 0 <= k < rest.len() ==> #[trigger] rest[k] == cs@[k + a + 1]);
            if b == p {
                assert forall|k: int| 0 <= k < rest.len() implies is_digit(#[trigger] rest[k]) by {
                    assert(rest[k] == cs@[k + a + 1]);
                }
                assert(all_digits(rest));
            } else {
                assert(!is_digit(cs@[b as int]));
                assert(rest[b - a - 1] == cs@[b as int]);
                assert(!all_digits(rest));
            }
            assert(mantissa_ok == is_mantissa(m));
        }
    } else {
        mantissa_ok = false;
        proof {
            assert(m[a - start] == cs@[a as int]);
            lemma_digits_len_char(m, a - start);
            assert(!is_mantissa(m));
        }
    }
    if !mantissa_ok {
        return false;
    }
    if p == cs.len() {
        return true;
    }
    // Exponent part: the marker, an optional sign, one or more digits.
    let es: usize = if p + 1 < cs.len() && (cs[p + 1] == '+' || cs[p + 1] == '-') {
        p + 2
    } else {
        p + 1
    };
    let e = scan_digits_upto(cs, es, cs.len());
    let r = e == cs.len() && e > es;
    proof {
        let ep = t.skip(p - start);
        assert(forall|k: int| 0 <= k < ep.len() ==> #[trigger] ep[k] == cs@[k + p]);
        assert(ep[0] == 'e' || ep[0] == 'E');
        let u = strip_sign(ep.drop_first());
        assert(u =~= cs@.skip(es as int));
        assert(forall|k: int| 0 <= k < u.len() ==> #[trigger] u[k] == cs@[k + es]);
        if e < cs.len() {
            assert(u[e - es] == cs@[e as int]);
        }
        assert forall|k: int| 0 <= k < e - es implies is_digit(#[trigger] u[k]) by {
            assert(u[k] == cs@[k + es]);
        }
        lemma_digits_len_char(u, e - es);
        if r {
            assert(u.len() > 0 && all_digits(u));
            assert(is_exp_part(ep));
        } else {
            if e < cs.len() {
                assert(!is_digit(u[e - es]));
                assert(!(u.len() > 0 && all_digits(u)) || e - es == u.len());
            }
            assert(!is_exp_part(ep));
        }
    }
    r
}

/// Tests a floating-point literal, exactly as [`is_float_lit`] describes
/// one.
pub fn is_float(cs: &Vec<char>) -> (r: bool)
    ensures
        r == is_float_lit(cs@),
{
    let start: usize = if cs.len() > 0 && (cs[0] == '+' || cs[0] == '-') {
        1
    } else {
        0
    };
    let ghost t = strip_sign(cs@);
    proof {
        assert(t =~= cs@.skip(start as int));
    }
    let low = lower_chars_from(cs, start);
    if is_named_special(&low) {
        return true;
    }
    is_number_from(cs, start)
}

/// Scans the digit run starting at `from` and stopping at `to`, returning
/// its end.
fn scan_digits_upto(cs: &Vec<char>, from: usize, to: usize) -> (r: usize)
    requires
        from <= cs@.len(),
        to <= cs@.len(),
    ensures
        from <= to ==> from <= r <= to,
        from > to ==> r == from,
        forall|k: int| from <= k < r ==> is_digit(#[trigger] cs@[k]),
        from <= to ==> (r == to || !is_digit(cs@[r as int])),
{
    let mut i: usize = from;
    if from > to {
        return from;
    }
    while i < to && digit_at(cs, i)
        invariant
            from <= i <= to <= cs@.len(),
            forall|k: int| from <= k < i ==> is_digit(#[trigger] cs@[k]),
        decreases to - i,
    {
        i = i + 1;
    }
    i
}

fn digit_at(cs: &Vec<char>, i: usize) -> (r: bool)
    requires
        i < cs@.len(),
    ensures
        r == is_digit(cs@[i as int]),
{
    let c = cs[i];
    '0' <= c && c <= '9'
}

fn chars_eq_lit3(v: &Vec<char>, a: char, b: char, c: char) -> (r: bool)
    ensures
        r == (v@ =~= seq![a, b, c]),
{
    let r = v.len() == 3 && v[0] == a && v[1] == b && v[2] == c;
    proof {
        if r {
            assert(v@ =~= seq![a, b, c]);
        }
    }
    r
}


proof fn lemma_nonws_len_char(t: Seq<char>, n: int)
    requires
        0 <= n <= t.len(),
        forall|k: int| 0 <= k < n ==> !is_ws(#[trigger] t[k]),
        n == t.len() || is_ws(t[n]),
    ensures
        nonws_len(t) == n,
    decreases n,
{
    if n == 0 {
    } else {
        assert(forall|k: int| 0 <= k < n - 1 ==> !is_ws(#[trigger] t.drop_first()[k]));
        assert(n - 1 == t.drop_first().len() || is_ws(t.drop_first()[n - 1]));
        lemma_nonws_len_char(t.drop_first(), n - 1);
    }
}

fn ws_at(cs: &Vec<char>, i: usize) -> (r: bool)
    requires
        i < cs@.len(),
    ensures
        r == is_ws(cs@[i as int]),
{
    crate::text::is_ws_char(cs[i])
}

/// Splits a string into its maximal non-whitespace runs, exactly as
/// [`tok_split`] describes them.
pub fn split_tokens(s: &str) -> (r: Vec<String>)
    ensures
        r@.map_values(|t: String| t@) == tok_split(s@),
{
    let cs = crate::text::str_chars(s);
    let mut r: Vec<String> = Vec::new();
    let mut i: usize = 0;
    proof {
        assert(cs@.skip(0) =~= s@);
        assert(r@.map_values(|t: String| t@) =~= Seq::<Seq<char>>::empty());
    }
    while i < cs.len()
        invariant
            i <= cs@.len(),
            cs@ == s@,
            r@.map_values(|t: String| t@) + tok_split(s@.skip(i as int)) == tok_split(s@),
        decreases cs@.len() - i,
    {
        if ws_at(&cs, i) {
            proof {
                assert(s@.skip(i as int).drop_first() =~= s@.skip(i + 1 as int));
            }
            i = i + 1;
        } else {
            let start = i;
            let mut tok: Vec<char> = Vec::new();
            while i < cs.len() && !ws_at(&cs, i)
                invariant
                    start <= i <= cs@.len(),
                    cs@ == s@,
                    tok@ == s@.subrange(start as int, i as int),
                    forall|k: int| start <= k < i ==> !is_ws(#[trigger] s@[k]),
                decreases cs@.len() - i,
            {
                tok.push(cs[i]);
                proof {
                    assert(s@.subrange(start as int, i + 1 as int) =~= s@.subrange(
                        start as int,
                        i as int,
                    ).push(s@[i as int]));
                }
                i = i + 1;
            }
            proof {
                let t = s@.skip(start as int);
                let n = (i - start) as int;
                assert(forall|k: int| 0 <= k < t.len() ==> #[trigger] t[k] == s@[k + start]);
                assert forall|k: int| 0 <= k < n implies !is_ws(#[trigger] t[k]) by {
                    assert(t[k] == s@[k + start]);
                }
                if (i as int) < s@.len() as int {
                    assert(t[n] == s@[i as int]);
                }
                lemma_nonws_len_char(t, n);
                assert(!is_ws(t[0]));
                assert(tok_split(t) == seq![t.take(n)] + tok_split(t.skip(n)));
                assert(t.take(n) =~= s@.subrange(start as int, i as int));
                assert(t.skip(n) =~= s@.skip(i as int));
            }
            let ghost rpre = r@;
            let tk = crate::text::chars_to_string(tok.as_slice());
            r.push(tk);
            proof {
                assert(r@.map_values(|t: String| t@) =~= rpre.map_values(|t: String| t@).push(
                    s@.subrange(start as int, i as int),
                ));
                assert(r@.map_values(|t: String| t@) + tok_split(s@.skip(i as int)) =~= tok_split(
                    s@,
                ));
            }
        }
    }
    proof {
        assert(s@.skip(s@.len() as int) =~= Seq::<char>::empty());
        assert(r@.map_values(|t: String| t@) =~= tok_split(s@));
    }
    r
}

proof fn lemma_trim_start_at(s: Seq<char>, a: int)
    requires
        0 <= a <= s.len(),
        forall|k: int| 0 <= k < a ==> is_ws(#[trigger] s[k]),
        a == s.len() || !is_ws(s[a]),
    ensures
        trim_start(s) == s.skip(a),
    decreases a,
{
    if a == 0 {
        assert(s.skip(0) =~= s);
    } else {
        assert(forall|k: int| 0 <= k < a - 1 ==> is_ws(#[trigger] s.drop_first()[k]));
        assert(a - 1 == s.drop_first().len() || !is_ws(s.drop_first()[a - 1]));
        lemma_trim_start_at(s.drop_first(), a - 1);
        assert(s.drop_first().skip(a - 1) =~= s.skip(a));
    }
}

proof fn lemma_trim_end_at(s: Seq<char>, b: int)
    requires
        0 <= b <= s.len(),
        forall|k: int| b <= k < s.len() ==> is_ws(#[trigger] s[k]),
        b == 0 || !is_ws(s[b - 1]),
    ensures
        trim_end(s) == s.take(b),
    decreases s.len(),
{
    if b == s.len() {
        assert(s.take(b) =~= s);
    } else {
        assert(is_ws(s.last()));
        assert(forall|k: int| b <= k < s.drop_last().len() ==> is_ws(#[trigger] s.drop_last()[k]));
        assert(b == 0 || !is_ws(s.drop_last()[b - 1]));
        lemma_trim_end_at(s.drop_last(), b);
        assert(s.drop_last().take(b) =~= s.take(b));
    }
}

/// Removes surrounding whitespace, exactly as [`trim`] describes it.
pub fn trim_str(s: &str) -> (r: String)
    ensures
        r@ == trim(s@),
{
    let cs = crate::text::str_chars(s);
    let mut a: usize = 0;
    while a < cs.len() && ws_at(&cs, a)
        invariant
            a <= cs@.len(),
            cs@ == s@,
            forall|k: int| 0 <= k < a ==> is_ws(#[trigger] s@[k]),
        decreases cs@.len() - a,
    {
        a = a + 1;
    }
    proof {
        lemma_trim_start_at(s@, a as int);
    }
    if a == cs.len() {
        proof {
            assert(s@.skip(a as int).len() == 0);
            assert(trim_end(s@.skip(a as int)) =~= s@.skip(a as int));
        }
        let out: Vec<char> = Vec::new();
        return crate::text::chars_to_string(out.as_slice());
    }
    let mut b: usize = cs.len();
    while b > a && ws_at(&cs, b - 1)
        invariant
            a <= b <= cs@.len(),
            cs@ == s@,
            forall|k: int| b <= k < s@.len() ==> is_ws(#[trigger] s@[k]),
        decreases b,
    {
        b = b - 1;
    }
    proof {
        let u = s@.skip(a as int);
        assert(forall|k: int| 0 <= k < u.len() ==> #[trigger] u[k] == s@[k + a]);
        assert(!is_ws(s@[a as int]));
        assert(b > a);
        assert forall|k: int| b - a <= k < u.len() implies is_ws(#[trigger] u[k]) by {
            assert(u[k] == s@[k + a]);
        }
        assert(!is_ws(u[b - a - 1]));
        lemma_trim_end_at(u, b - a);
        assert(u.take(b - a) =~= s@.subrange(a as int, b as int));
    }
    let mut out: Vec<char> = Vec::new();
    let mut i: usize = a;
    while i < b
        invariant
            a <= i <= b <= cs@.len(),
            cs@ == s@,
            out@ == s@.subrange(a as int, i as int),
        decreases b - i,
    {
        out.push(cs[i]);
        proof {
            assert(s@.subrange(a as int, i + 1 as int) =~= s@.subrange(a as int, i as int).push(
                s@[i as int],
            ));
        }
        i = i + 1;
    }
    crate::text::chars_to_string(out.as_slice())
}

} // verus!
