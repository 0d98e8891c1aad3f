//! Reading integers and rows of integers from text.
use vstd::prelude::*;

use crate::decimal::{
    digit_value, digits_value, is_digit, lemma_digits_value_monotone, lemma_digits_value_nonneg,
    value_of_digit,
};

verus! {

pub open spec fn is_space(c: char) -> bool {
    c == ' ' || c == '\t'
}

pub open spec fn is_newline(c: char) -> bool {
    c == '\n' || c == '\r'
}

pub open spec fn is_number_char(c: char) -> bool {
    is_digit(c) || c == '_'
}

/// The first position at or after `p` that is not a space or tab.
pub open spec fn skip_spaces(s: Seq<char>, p: int) -> int
    decreases s.len() - p,
{
    if 0 <= p < s.len() && is_space(s[p]) {
        skip_spaces(s, p + 1)
    } else {
        p
    }
}

/// The first position at or after `p` that is not a space, tab or line break.
pub open spec fn skip_whitespace(s: Seq<char>, p: int) -> int
    decreases s.len() - p,
{
    if 0 <= p < s.len() && (is_space(s[p]) || is_newline(s[p])) {
        skip_whitespace(s, p + 1)
    } else {
        p
    }
}

/// The first position at or after `p` that is not a digit or `_`.
pub open spec fn digits_end(s: Seq<char>, p: int) -> int
    decreases s.len() - p,
{
    if 0 <= p < s.len() && is_number_char(s[p]) {
        digits_end(s, p + 1)
    } else {
        p
    }
}

pub open spec fn has_digit(t: Seq<char>) -> bool {
    exists|i: int| 0 <= i < t.len() && is_digit(t[i])
}

pub open spec fn starts_with_inf(s: Seq<char>, q: int) -> bool {
    0 <= q && q + 3 <= s.len() && s[q] == 'i' && s[q + 1] == 'n' && s[q + 2] == 'f'
}

/// Reads an integer in `lo..=hi` at `p`: an optional `+` or `-`, then either
/// `inf` (which stands for `hi`, or for `lo` after `-`) or digits with optional
/// `_` separators. Gives the value and the position after it. A `-` is refused
/// where `lo` is zero, and so is a value out of range or a number without digits.
pub open spec fn parse_number(s: Seq<char>, p: int, lo: int, hi: int) -> Option<(int, int)> {
    if p < 0 || p >= s.len() {
        None
    } else {
        let negative = s[p] == '-';
        let q = if s[p] == '-' || s[p] == '+' {
            p + 1
        } else {
            p
        };
        if negative && lo == 0 {
            None
        } else if starts_with_inf(s, q) {
            Some(
                (
                    if negative {
                        lo
                    } else {
                        hi
                    },
                    q + 3,
                ),
            )
        } else {
            let e = digits_end(s, q);
            let t = s.subrange(q, e);
            let v = if negative {
                -digits_value(t)
            } else {
                digits_value(t)
            };
            if !has_digit(t) || v < lo || v > hi {
                None
            } else {
                Some((v, e))
            }
        }
    }
}

/// Reads a row of integers in `lo..=hi` separated by spaces or tabs, from `p`
/// up to a line break (or, if `may_end`, the end of the text). Gives the values
/// and the position of the line break or end, or else the position of the
/// number that could not be read.
pub open spec fn parse_row(s: Seq<char>, p: int, lo: int, hi: int, may_end: bool) -> Result<
    (Seq<int>, int),
    int,
>
    decreases s.len() - p,
{
    if p < 0 || p > s.len() {
        Err(p)
    } else if p < s.len() && is_newline(s[p]) {
        Ok((Seq::empty(), p))
    } else if p == s.len() && may_end {
        Ok((Seq::empty(), p))
    } else {
        match parse_number(s, p, lo, hi) {
            None => Err(p),
            Some((v, e)) => {
                let q = skip_spaces(s, e);
                if p < q && q <= s.len() {
                    match parse_row(s, q, lo, hi, may_end) {
                        Ok((vs, end)) => Ok((seq![v] + vs, end)),
                        Err(f) => Err(f),
                    }
                } else {
                    Err(p)
                }
            },
        }
    }
}

pub proof fn lemma_skip_spaces(s: Seq<char>, p: int)
    requires
        0 <= p <= s.len(),
    ensures
        p <= skip_spaces(s, p) <= s.len(),
        forall|j: int| p <= j < skip_spaces(s, p) ==> is_space(s[j]),
        skip_spaces(s, p) < s.len() ==> !is_space(s[skip_spaces(s, p)]),
    decreases s.len() - p,
{
    if p < s.len() && is_space(s[p]) {
        lemma_skip_spaces(s, p + 1);
    }
}

pub proof fn lemma_skip_whitespace(s: Seq<char>, p: int)
    requires
        0 <= p <= s.len(),
    ensures
        p <= skip_whitespace(s, p) <= s.len(),
        skip_whitespace(s, p) < s.len() ==> !is_space(s[skip_whitespace(s, p)]) && !is_newline(
            s[skip_whitespace(s, p)],
        ),
    decreases s.len() - p,
{
    if p < s.len() && (is_space(s[p]) || is_newline(s[p])) {
        lemma_skip_whitespace(s, p + 1);
    }
}

pub proof fn lemma_digits_end(s: Seq<char>, p: int)
    requires
        0 <= p <= s.len(),
    ensures
        p <= digits_end(s, p) <= s.len(),
        forall|j: int| p <= j < digits_end(s, p) ==> is_number_char(s[j]),
        digits_end(s, p) < s.len() ==> !is_number_char(s[digits_end(s, p)]),
    decreases s.len() - p,
{
    if p < s.len() && is_number_char(s[p]) {
        lemma_digits_end(s, p + 1);
    }
}

pub proof fn lemma_parse_number_advances(s: Seq<char>, p: int, lo: int, hi: int)
    requires
        parse_number(s, p, lo, hi) is Some,
    ensures
        p < parse_number(s, p, lo, hi)->Some_0.1 <= s.len(),
        lo <= parse_number(s, p, lo, hi)->Some_0.0 <= hi || starts_with_inf(
            s,
            if s[p] == '-' || s[p] == '+' {
                p + 1
            } else {
                p
            },
        ),
{
    let q = if s[p] == '-' || s[p] == '+' {
        p + 1
    } else {
        p
    };
    if !starts_with_inf(s, q) {
        lemma_digits_end(s, q);
        let e = digits_end(s, q);
        let t = s.subrange(q, e);
        if e == q {
            assert(!has_digit(t));
        }
    }
}

/// Reads the number at `p`; the exact counterpart of `parse_number`.
pub fn parse_inf_integer(s: &Vec<char>, p: usize, lo: i128, hi: i128) -> (r: Option<(i128, usize)>)
    requires
        -0x1_0000_0000_0000_0000 <= lo <= 0 <= hi <= 0x1_0000_0000_0000_0000,
    ensures
        match parse_number(s@, p as int, lo as int, hi as int) {
            Some((v, e)) => r == Some((v as i128, e as usize)),
            None => r is None,
        },
{
    if p >= s.len() {
        return None;
    }
    let c = s[p];
    let negative = c == '-';
    let q = if c == '-' || c == '+' {
        p + 1
    } else {
        p
    };
    if negative && lo == 0 {
        return None;
    }
    if q < s.len() && s.len() - q >= 3 && s[q] == 'i' && s[q + 1] == 'n' && s[q + 2] == 'f' {
        return Some(
            (
                if negative {
                    lo
                } else {
                    hi
                },
                q + 3,
            ),
        );
    }
    proof {
        lemma_digits_end(s@, q as int);
    }
    let ghost e = digits_end(s@, q as int);
    let mut acc: i128 = 0;
    let mut seen_digit = false;
    let mut i = q;
    proof {
        assert(s@.subrange(q as int, q as int) =~= Seq::<char>::empty());
    }
    while i < s.len() && (is_digit_exec(s[i]) || s[i] == '_')
        invariant
            p < s@.len(),
            c == s@[p as int],
            negative == (c == '-'),
            q == (if c == '-' || c == '+' {
                p + 1
            } else {
                p as int
            }),
            !starts_with_inf(s@, q as int),
            !(negative && lo == 0),
            q <= i <= s@.len(),
            q <= e <= s@.len(),
            e == digits_end(s@, q as int),
            forall|j: int| q <= j < e ==> is_number_char(s@[j]),
            e < s@.len() ==> !is_number_char(s@[e]),
            i <= e,
            -0x1_0000_0000_0000_0000 <= lo <= 0 <= hi <= 0x1_0000_0000_0000_0000,
            lo <= acc <= hi,
            acc == (if negative {
                -digits_value(s@.subrange(q as int, i as int))
            } else {
                digits_value(s@.subrange(q as int, i as int))
            }),
            seen_digit == has_digit(s@.subrange(q as int, i as int)),
        decreases s@.len() - i,
    {
        let ghost t1 = s@.subrange(q as int, i + 1);
        proof {
            assert(t1.drop_last() =~= s@.subrange(q as int, i as int));
            if i >= e {
                assert(i == e);
            }
        }
        if s[i] != '_' {
            let d = value_of_digit(s[i]) as i128;
            let next = if negative {
                acc * 10 - d
            } else {
                acc * 10 + d
            };
            proof {
                assert(t1.last() == s@[i as int]);
                assert(t1.last() != '_');
                assert(digits_value(t1) == digits_value(t1.drop_last()) * 10 + digit_value(
                    t1.last(),
                ));
            }
            if next < lo || next > hi {
                proof {
                    let t = s@.subrange(q as int, e);
                    assert(i < e);
                    assert(t.subrange(0, i + 1 - q) =~= t1);
                    assert forall|j: int| 0 <= j < t.len() implies is_digit(t[j]) || t[j] == '_' by {
                        assert(t[j] == s@[q + j]);
                        assert(is_number_char(s@[q + j]));
                    }
                    lemma_digits_value_monotone(t, i + 1 - q);
                    assert(!starts_with_inf(s@, q as int));
                    assert(next == (if negative {
                        -digits_value(t1)
                    } else {
                        digits_value(t1)
                    }));
                    assert(digits_value(t1) <= digits_value(t));
                    assert forall|j: int| 0 <= j < t1.len() implies is_digit(t1[j]) || t1[j] == '_' by {
                        assert(t1[j] == t[j]);
                    }
                    lemma_digits_value_nonneg(t1);
                    let v = if negative {
                        -digits_value(t)
                    } else {
                        digits_value(t)
                    };

                }
                return None;
            }
            acc = next;
            proof {
                assert(is_digit(t1[i - q]));
            }
            seen_digit = true;
        } else {
            proof {
                if has_digit(t1) {
                    let w = choose|w: int| 0 <= w < t1.len() && is_digit(t1[w]);
                    assert(s@.subrange(q as int, i as int)[w] == t1[w]);
                }
            }
        }
        proof {
            if has_digit(s@.subrange(q as int, i as int)) {
                let w = choose|w: int|
                    0 <= w < s@.subrange(q as int, i as int).len() && is_digit(
                        s@.subrange(q as int, i as int)[w],
                    );
                assert(t1[w] == s@.subrange(q as int, i as int)[w]);
            }
        }
        i = i + 1;
    }
    proof {
        assert(i == e);
    }
    if !seen_digit {
        return None;
    }
    Some((acc, i))
}

pub fn is_digit_exec(c: char) -> (r: bool)
    ensures
        r == is_digit(c),
{
    '0' <= c && c <= '9'
}

pub fn is_space_exec(c: char) -> (r: bool)
    ensures
        r == is_space(c),
{
    c == ' ' || c == '\t'
}

pub fn is_newline_exec(c: char) -> (r: bool)
    ensures
        r == is_newline(c),
{
    c == '\n' || c == '\r'
}

/// The exact counterpart of `skip_spaces`.
pub fn skip_spaces_exec(s: &Vec<char>, p: usize) -> (r: usize)
    requires
        p <= s@.len(),
    ensures
        r == skip_spaces(s@, p as int),
{
    let mut i = p;
    while i < s.len() && is_space_exec(s[i])
        invariant
            p <= i <= s@.len(),
            skip_spaces(s@, p as int) == skip_spaces(s@, i as int),
        decreases s@.len() - i,
    {
        i = i + 1;
    }
    i
}

/// The exact counterpart of `skip_whitespace`.
pub fn skip_whitespace_exec(s: &Vec<char>, p: usize) -> (r: usize)
    requires
        p <= s@.len(),
    ensures
        r == skip_whitespace(s@, p as int),
{
    let mut i = p;
    while i < s.len() && (is_space_exec(s[i]) || is_newline_exec(s[i]))
        invariant
            p <= i <= s@.len(),
            skip_whitespace(s@, p as int) == skip_whitespace(s@, i as int),
        decreases s@.len() - i,
    {
        i = i + 1;
    }
    i
}

/// Reads a row; the exact counterpart of `parse_row`.
pub fn parse_row_exec(s: &Vec<char>, p: usize, lo: i128, hi: i128, may_end: bool) -> (r: Result<
    (Vec<i128>, usize),
    usize,
>)
    requires
        p <= s@.len(),
        -0x1_0000_0000_0000_0000 <= lo <= 0 <= hi <= 0x1_0000_0000_0000_0000,
    ensures
        match parse_row(s@, p as int, lo as int, hi as int, may_end) {
            Ok((vs, e)) => r matches Ok((values, end)) && values@.map_values(|x: i128| x as int)
                == vs && end == e,
            Err(f) => r == Err::<(Vec<i128>, usize), usize>(f as usize),
        },
{
    let mut values: Vec<i128> = Vec::new();
    let mut i = p;
    proof {
        assert(values@.map_values(|x: i128| x as int) =~= Seq::<int>::empty());
        assert(parse_row(s@, p as int, lo as int, hi as int, may_end) == match parse_row(
            s@,
            i as int,
            lo as int,
            hi as int,
            may_end,
        ) {
            Ok((vs, e)) => Ok((values@.map_values(|x: i128| x as int) + vs, e)),
            Err(f) => Err(f),
        }) by {
            match parse_row(s@, i as int, lo as int, hi as int, may_end) {
                Ok((vs, e)) => {
                    assert(Seq::<int>::empty() + vs =~= vs);
                },
                Err(f) => {},
            }
        }
    }
    loop
        invariant
            p <= i <= s@.len(),
            -0x1_0000_0000_0000_0000 <= lo <= 0 <= hi <= 0x1_0000_0000_0000_0000,
            parse_row(s@, p as int, lo as int, hi as int, may_end) == match parse_row(
                s@,
                i as int,
                lo as int,
                hi as int,
                may_end,
            ) {
                Ok((vs, e)) => Ok((values@.map_values(|x: i128| x as int) + vs, e)),
                Err(f) => Err(f),
            },
        decreases s@.len() - i,
    {
        if i < s.len() && is_newline_exec(s[i]) {
            proof {
                assert(values@.map_values(|x: i128| x as int) + Seq::<int>::empty()
                    =~= values@.map_values(|x: i128| x as int));
            }
            return Ok((values, i));
        }
        if i == s.len() && may_end {
            proof {
                assert(values@.map_values(|x: i128| x as int) + Seq::<int>::empty()
                    =~= values@.map_values(|x: i128| x as int));
            }
            return Ok((values, i));
        }
        match parse_inf_integer(s, i, lo, hi) {
            None => {
                return Err(i);
            },
            Some((v, e)) => {
                proof {
                    lemma_parse_number_advances(s@, i as int, lo as int, hi as int);
                    lemma_skip_spaces(s@, e as int);
                }
                let next = skip_spaces_exec(s, e);
                let ghost before = values@.map_values(|x: i128| x as int);
                values.push(v);
                proof {
                    assert(values@.map_values(|x: i128| x as int) =~= before.push(v as int));
                    match parse_row(s@, next as int, lo as int, hi as int, may_end) {
                        Ok((vs, end)) => {
                            assert(before + (seq![v as int] + vs) =~= before.push(v as int) + vs);
                        },
                        Err(f) => {},
                    }
                }
                i = next;
            },
        }
    }
}

/// A literal whose value does not fit `lo..=hi` is refused, never wrapped or
/// clamped: reading the row fails at the literal's first character (its sign,
/// if it has one).
pub proof fn lemma_out_of_range_literal_refused(
    s: Seq<char>,
    p: int,
    lo: int,
    hi: int,
    may_end: bool,
)
    requires
        0 <= p < s.len(),
        !is_newline(s[p]),
        ({
            let negative = s[p] == '-';
            let q = if s[p] == '-' || s[p] == '+' {
                p + 1
            } else {
                p
            };
            let t = s.subrange(q, digits_end(s, q));
            let v = if negative {
                -digits_value(t)
            } else {
                digits_value(t)
            };
            &&& !starts_with_inf(s, q)
            &&& (v < lo || v > hi)
        }),
    ensures
        parse_number(s, p, lo, hi) is None,
        parse_row(s, p, lo, hi, may_end) == Err::<(Seq<int>, int), int>(p),
{
}

} // verus!
