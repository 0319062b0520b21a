//! Input normalisation for the interactive menu, and the grammar of
//! amount input.
//!
//! The front end reads raw lines; [`normalize_input`] trims surrounding
//! whitespace and treats an empty result as "no input", the uniform
//! abort/cancel signal of the menu. [`is_amount_text`] decides whether a
//! line of text is a well-formed floating-point literal, the acceptance
//! rule of the numeric-input sub-routine.

use vstd::prelude::*;

verus! {

/// Whether `c` is a white-space character: the Unicode White_Space set,
/// exactly the characters that line trimming removes.
pub open spec fn is_space(c: char) -> bool {
    c == '\t' || c == '\n' || c == '\x0b' || c == '\x0c' || c == '\r' || c == ' ' || c == '\u{85}'
        || c == '\u{a0}' || c == '\u{1680}' || (0x2000 <= (c as u32) && (c as u32) <= 0x200a) || c
        == '\u{2028}' || c == '\u{2029}' || c == '\u{202f}' || c == '\u{205f}' || c == '\u{3000}'
}

/// `s` without its leading whitespace.
pub open spec fn trim_start_spec(s: Seq<char>) -> Seq<char>
    decreases s.len(),
{
    if s.len() > 0 && is_space(s[0]) {
        trim_start_spec(s.subrange(1, s.len() as int))
    } else {
        s
    }
}

/// `s` without its trailing whitespace.
pub open spec fn trim_end_spec(s: Seq<char>) -> Seq<char>
    decreases s.len(),
{
    if s.len() > 0 && is_space(s[s.len() - 1]) {
        trim_end_spec(s.drop_last())
    } else {
        s
    }
}

/// `s` without its leading and trailing whitespace.
pub open spec fn trimmed(s: Seq<char>) -> Seq<char> {
    trim_end_spec(trim_start_spec(s))
}

/// Trimming from the start keeps the part after the leading whitespace.
proof fn lemma_trim_start(s: Seq<char>, i: int)
    requires
        0 <= i <= s.len(),
        forall|k: int| 0 <= k < i ==> is_space(s[k]),
        i == s.len() || !is_space(s[i]),
    ensures
        trim_start_spec(s) == s.subrange(i, s.len() as int),
    decreases i,
{
    if i == 0 {
        assert(s.subrange(0, s.len() as int) =~= s);
    } else {
        let t = s.subrange(1, s.len() as int);
        lemma_trim_start(t, i - 1);
        assert(t.subrange(i - 1, t.len() as int) =~= s.subrange(i, s.len() as int));
    }
}

/// Trimming from the end keeps the part before the trailing whitespace.
proof fn lemma_trim_end(s: Seq<char>, j: int)
    requires
        0 <= j <= s.len(),
        forall|k: int| j <= k < s.len() ==> is_space(s[k]),
        j == 0 || !is_space(s[j - 1]),
    ensures
        trim_end_spec(s) == s.subrange(0, j),
    decreases s.len() - j,
{
    if j == s.len() {
        assert(s.subrange(0, s.len() as int) =~= s);
    } else {
        let t = s.drop_last();
        assert(is_space(s[s.len() - 1]));
        lemma_trim_end(t, j);
        assert(t.subrange(0, j) =~= s.subrange(0, j));
    }
}

/// Whether `c` is a white-space character (the Unicode White_Space set).
fn is_space_char(c: char) -> (r: bool)
    ensures
        r == is_space(c),
{
    c == '\t' || c == '\n' || c == '\x0b' || c == '\x0c' || c == '\r' || c == ' ' || c == '\u{85}'
        || c == '\u{a0}' || c == '\u{1680}' || (0x2000 <= (c as u32) && (c as u32) <= 0x200a) || c
        == '\u{2028}' || c == '\u{2029}' || c == '\u{202f}' || c == '\u{205f}' || c == '\u{3000}'
}

/// Normalise one raw line of user input: trim surrounding whitespace and
/// treat an empty result as "no input".
pub fn normalize_input(line: &str) -> (r: Option<String>)
    ensures
        match r {
            Some(s) => s@ == trimmed(line@) && s@.len() > 0,
            None => trimmed(line@).len() == 0,
        },
{
    let n = line.unicode_len();
    let mut i: usize = 0;
    while i < n && is_space_char(line.get_char(i))
        invariant
            n == line@.len(),
            i <= n,
            forall|k: int| 0 <= k < i ==> is_space(line@[k]),
        decreases n - i,
    {
        i += 1;
    }
    if i == n {
        proof {
            lemma_trim_start(line@, i as int);
            assert(trim_start_spec(line@) =~= Seq::<char>::empty());
        }
        return None;
    }
    proof {
        lemma_trim_start(line@, i as int);
    }
    let mut j: usize = n;
    while is_space_char(line.get_char(j - 1))
        invariant
            n == line@.len(),
            i < j <= n,
            !is_space(line@[i as int]),
            forall|k: int| j <= k < n ==> is_space(line@[k]),
        decreases j,
    {
        j -= 1;
    }
    proof {
        let t = line@.subrange(i as int, n as int);
        lemma_trim_end(t, j - i);
        assert(t.subrange(0, j - i) =~= line@.subrange(i as int, j as int));
    }
    let out = line.substring_char(i, j);
    Some(out.to_owned())
}

/// Whether `c` is a decimal digit.
pub open spec fn is_digit(c: char) -> bool {
    ('0' as u32) <= (c as u32) && (c as u32) <= ('9' as u32)
}

/// Whether `c` is a leading sign.
pub open spec fn is_sign(c: char) -> bool {
    c == '+' || c == '-'
}

/// Whether `c` introduces an exponent.
pub open spec fn is_exp_char(c: char) -> bool {
    c == 'e' || c == 'E'
}

/// Whether every character of `s` is a decimal digit.
pub open spec fn all_digits(s: Seq<char>) -> bool {
    forall|i: int| 0 <= i < s.len() ==> is_digit(#[trigger] s[i])
}

/// The mantissa of a floating-point literal: a non-empty run of digits
/// with at most one decimal point somewhere in it, and at least one digit.
pub open spec fn is_mantissa(s: Seq<char>) -> bool {
    (s.len() > 0 && all_digits(s)) || (s.len() >= 2 && exists|k: int|
        0 <= k < s.len() && #[trigger] s[k] == '.' && (forall|j: int|
            0 <= j < s.len() && j != k ==> is_digit(#[trigger] s[j])))
}

/// `s` without a single leading sign, if one is there.
pub open spec fn strip_sign(s: Seq<char>) -> Seq<char> {
    if s.len() > 0 && is_sign(s[0]) {
        s.subrange(1, s.len() as int)
    } else {
        s
    }
}

/// The exponent part of a floating-point literal, after the `e`: an
/// optional sign followed by at least one digit.
pub open spec fn is_exponent(s: Seq<char>) -> bool {
    strip_sign(s).len() > 0 && all_digits(strip_sign(s))
}

/// A number: a mantissa, optionally followed by an exponent marker and an
/// exponent.
pub open spec fn is_number(s: Seq<char>) -> bool {
    is_mantissa(s) || exists|k: int|
        0 <= k < s.len() && is_exp_char(#[trigger] s[k]) && is_mantissa(s.subrange(0, k))
            && is_exponent(s.subrange(k + 1, s.len() as int))
}

/// Whether `c` is `lo` or its upper-case form `up`.
pub open spec fn ci_eq(c: char, lo: char, up: char) -> bool {
    c == lo || c == up
}

/// The word `inf`, in any mix of case.
pub open spec fn is_inf_text(s: Seq<char>) -> bool {
    s.len() == 3 && ci_eq(s[0], 'i', 'I') && ci_eq(s[1], 'n', 'N') && ci_eq(s[2], 'f', 'F')
}

/// The word `infinity`, in any mix of case.
pub open spec fn is_infinity_text(s: Seq<char>) -> bool {
    s.len() == 8 && ci_eq(s[0], 'i', 'I') && ci_eq(s[1], 'n', 'N') && ci_eq(s[2], 'f', 'F')
        && ci_eq(s[3], 'i', 'I') && ci_eq(s[4], 'n', 'N') && ci_eq(s[5], 'i', 'I') && ci_eq(
        s[6],
        't',
        'T',
    ) && ci_eq(s[7], 'y', 'Y')
}

/// The word `nan`, in any mix of case.
pub open spec fn is_nan_text(s: Seq<char>) -> bool {
    s.len() == 3 && ci_eq(s[0], 'n', 'N') && ci_eq(s[1], 'a', 'A') && ci_eq(s[2], 'n', 'N')
}

/// The named non-finite values a floating-point literal may spell.
pub open spec fn is_special(s: Seq<char>) -> bool {
    is_inf_text(s) || is_infinity_text(s) || is_nan_text(s)
}

/// The grammar of a floating-point literal: an optional sign, then either
/// a named non-finite value or a number in decimal or scientific notation.
pub open spec fn is_float_literal(s: Seq<char>) -> bool {
    is_special(strip_sign(s)) || is_number(strip_sign(s))
}

/// Every character of a mantissa is a digit or the decimal point.
proof fn lemma_mantissa_chars(t: Seq<char>, j: int)
    requires
        is_mantissa(t),
        0 <= j < t.len(),
    ensures
        is_digit(t[j]) || t[j] == '.',
{
}

/// Whether `c` introduces an exponent.
fn is_exp_char_exec(c: char) -> (r: bool)
    ensures
        r == is_exp_char(c),
{
    c == 'e' || c == 'E'
}

/// Whether `c` is a decimal digit.
fn is_digit_char(c: char) -> (r: bool)
    ensures
        r == is_digit(c),
{
    ('0' as u32) <= (c as u32) && (c as u32) <= ('9' as u32)
}

/// Whether the characters of `s` at `[from, to)` form a mantissa.
fn check_mantissa(s: &str, from: usize, to: usize) -> (r: bool)
    requires
        from <= to <= s@.len(),
    ensures
        r == is_mantissa(s@.subrange(from as int, to as int)),
{
    let ghost t = s@.subrange(from as int, to as int);
    let mut dot: Option<usize> = None;
    let mut digits: bool = false;
    let mut i: usize = from;
    while i < to
        invariant
            from <= i <= to <= s@.len(),
            t == s@.subrange(from as int, to as int),
            match dot {
                None => forall|k: int| from <= k < i ==> is_digit(#[trigger] s@[k]),
                Some(d) => from <= d < i && s@[d as int] == '.' && (forall|k: int|
                    from <= k < i && k != d ==> is_digit(#[trigger] s@[k])),
            },
            digits == exists|k: int| from <= k < i && is_digit(#[trigger] s@[k]),
        decreases to - i,
    {
        let c = s.get_char(i);
        if is_digit_char(c) {
            digits = true;
            assert(is_digit(s@[i as int]));
        } else if c == '.' {
            match dot {
                None => {
                    dot = Some(i);
                },
                Some(d) => {
                    proof {
                        if is_mantissa(t) {
                            assert(t[d - from] == '.' && t[i - from] == '.');
                            if t.len() > 0 && all_digits(t) {
                                assert(is_digit(t[d - from]));
                            } else {
                                let k = choose|k: int|
                                    0 <= k < t.len() && #[trigger] t[k] == '.' && (forall|j: int|
                                        0 <= j < t.len() && j != k ==> is_digit(#[trigger] t[j]));
                                if k != d - from {
                                    assert(is_digit(t[d - from]));
                                } else {
                                    assert(is_digit(t[i - from]));
                                }
                            }
                        }
                    }
                    return false;
                },
            }
        } else {
            proof {
                if is_mantissa(t) {
                    lemma_mantissa_chars(t, i - from);
                    assert(t[i - from] == s@[i as int]);
                }
            }
            return false;
        }
        i += 1;
    }
    proof {
        if digits {
            let k = choose|k: int| from <= k < to && is_digit(#[trigger] s@[k]);
            assert(is_digit(t[k - from]));
            match dot {
                None => {
                    assert forall|j: int| 0 <= j < t.len() implies is_digit(#[trigger] t[j]) by {
                        assert(t[j] == s@[from + j]);
                    }
                    assert(is_mantissa(t));
                },
                Some(d) => {
                    assert(t[d - from] == '.');
                    assert(k != d);
                    assert(t.len() >= 2);
                    assert forall|j: int|
                        0 <= j < t.len() && j != d - from implies is_digit(#[trigger] t[j]) by {
                        assert(t[j] == s@[from + j]);
                    }
                    assert(is_mantissa(t));
                },
            }
        } else {
            if is_mantissa(t) {
                match dot {
                    None => {
                        assert(t.len() == 0) by {
                            if t.len() > 0 {
                                lemma_mantissa_chars(t, 0);
                                assert(t[0] == s@[from as int]);
                            }
                        }
                    },
                    Some(d) => {
                        if t.len() >= 2 {
                            let j: int = if d - from == 0 {
                                1
                            } else {
                                0
                            };
                            assert(!is_digit(s@[from + j]));
                            assert(is_digit(s@[from + j]));
                        } else {
                            assert(t.len() == 1);
                            assert(all_digits(t));
                            assert(is_digit(t[d - from]));
                            assert(t[d - from] == '.');
                        }
                        assert(false);
                    },
                }
            }
        }
    }
    digits
}

/// Whether the characters of `s` at `[from, to)` form an exponent.
fn check_exponent(s: &str, from: usize, to: usize) -> (r: bool)
    requires
        from <= to <= s@.len(),
    ensures
        r == is_exponent(s@.subrange(from as int, to as int)),
{
    let ghost t = s@.subrange(from as int, to as int);
    let mut i: usize = from;
    if i < to {
        let c = s.get_char(i);
        if c == '+' || c == '-' {
            i += 1;
            proof {
                assert(strip_sign(t) =~= s@.subrange(i as int, to as int));
            }
        } else {
            proof {
                assert(strip_sign(t) =~= s@.subrange(i as int, to as int));
            }
        }
    } else {
        proof {
            assert(strip_sign(t) =~= s@.subrange(i as int, to as int));
        }
    }
    let ghost u = s@.subrange(i as int, to as int);
    if i == to {
        return false;
    }
    let mut j: usize = i;
    while j < to
        invariant
            from <= i <= j <= to <= s@.len(),
            u == s@.subrange(i as int, to as int),
            u == strip_sign(s@.subrange(from as int, to as int)),
            forall|k: int| i <= k < j ==> is_digit(#[trigger] s@[k]),
        decreases to - j,
    {
        if !is_digit_char(s.get_char(j)) {
            proof {
                assert(u[j - i] == s@[j as int]);
            }
            return false;
        }
        j += 1;
    }
    proof {
        assert forall|k: int| 0 <= k < u.len() implies is_digit(#[trigger] u[k]) by {
            assert(u[k] == s@[i + k]);
        }
    }
    true
}

/// Whether the characters of `s` at `[start, n)` spell a non-finite value.
fn check_special(s: &str, start: usize) -> (r: bool)
    requires
        start <= s@.len(),
    ensures
        r == is_special(s@.subrange(start as int, s@.len() as int)),
{
    let ghost t = s@.subrange(start as int, s@.len() as int);
    let n = s.unicode_len();
    if n - start == 3 {
        let c0 = s.get_char(start);
        let c1 = s.get_char(start + 1);
        let c2 = s.get_char(start + 2);
        proof {
            assert(t[0] == s@[start as int] && t[1] == s@[start + 1] && t[2] == s@[start + 2]);
        }
        ((c0 == 'i' || c0 == 'I') && (c1 == 'n' || c1 == 'N') && (c2 == 'f' || c2 == 'F')) || ((c0
            == 'n' || c0 == 'N') && (c1 == 'a' || c1 == 'A') && (c2 == 'n' || c2 == 'N'))
    } else if n - start == 8 {
        let c0 = s.get_char(start);
        let c1 = s.get_char(start + 1);
        let c2 = s.get_char(start + 2);
        let c3 = s.get_char(start + 3);
        let c4 = s.get_char(start + 4);
        let c5 = s.get_char(start + 5);
        let c6 = s.get_char(start + 6);
        let c7 = s.get_char(start + 7);
        proof {
            assert forall|k: int| 0 <= k < 8 implies t[k] == s@[start + k] by {}
        }
        (c0 == 'i' || c0 == 'I') && (c1 == 'n' || c1 == 'N') && (c2 == 'f' || c2 == 'F') && (c3
            == 'i' || c3 == 'I') && (c4 == 'n' || c4 == 'N') && (c5 == 'i' || c5 == 'I') && (c6
            == 't' || c6 == 'T') && (c7 == 'y' || c7 == 'Y')
    } else {
        false
    }
}

/// Decide whether one line of text is a well-formed floating-point
/// literal: the inputs the numeric-input sub-routine accepts.
pub fn is_amount_text(s: &str) -> (r: bool)
    ensures
        r == is_float_literal(s@),
{
    let n = s.unicode_len();
    let start: usize = if n > 0 {
        let c = s.get_char(0);
        if c == '+' || c == '-' {
            1
        } else {
            0
        }
    } else {
        0
    };
    proof {
        assert(strip_sign(s@) =~= s@.subrange(start as int, n as int));
    }
    let ghost b = s@.subrange(start as int, n as int);
    if check_special(s, start) {
        return true;
    }
    // Find the first exponent marker, if any.
    let mut e: usize = start;
    while e < n && !is_exp_char_exec(s.get_char(e))
        invariant
            start <= e <= n == s@.len(),
            forall|k: int| start <= k < e ==> !is_exp_char(#[trigger] s@[k]),
        decreases n - e,
    {
        e += 1;
    }
    if e == n {
        let r = check_mantissa(s, start, n);
        proof {
            if !r && is_number(b) {
                let k = choose|k: int|
                    0 <= k < b.len() && is_exp_char(#[trigger] b[k]) && is_mantissa(
                        b.subrange(0, k),
                    ) && is_exponent(b.subrange(k + 1, b.len() as int));
                assert(b[k] == s@[start + k]);
            }
        }
        r
    } else {
        let rm = check_mantissa(s, start, e);
        let re = check_exponent(s, e + 1, n);
        proof {
            assert(is_exp_char(s@[e as int]));
            assert(b[e - start] == s@[e as int]);
            assert(b.subrange(0, e - start) =~= s@.subrange(start as int, e as int));
            assert(b.subrange(e - start + 1, b.len() as int) =~= s@.subrange(e + 1, n as int));
            if is_mantissa(b) {
                lemma_mantissa_chars(b, e - start);
            }
            if rm && re {
                assert(is_number(b));
            } else {
                if is_number(b) {
                    assert(!is_mantissa(b));
                    let k = choose|k: int|
                        0 <= k < b.len() && is_exp_char(#[trigger] b[k]) && is_mantissa(
                            b.subrange(0, k),
                        ) && is_exponent(b.subrange(k + 1, b.len() as int));
                    if k < e - start {
                        assert(!is_exp_char(s@[start + k]));
                        assert(false);
                    } else if k > e - start {
                        lemma_mantissa_chars(b.subrange(0, k), e - start);
                        assert(b.subrange(0, k)[e - start] == b[e - start]);
                        assert(false);
                    } else {
                        assert(false);
                    }
                }
            }
        }
        rm && re
    }
}

} // verus!
