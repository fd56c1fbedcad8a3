//! Which strings read as a number: the syntax that Rust's `f64` parser
//! accepts (`str::parse::<f64>` is `Ok` exactly for these).

use vstd::prelude::*;

use crate::text::{chars_of, lower, str_eq, string_of, to_ascii_lower};

verus! {

pub open spec fn is_digit(c: char) -> bool {
    '0' <= c && c <= '9'
}

/// `s` without one leading `+` or `-`.
pub open spec fn without_sign(s: Seq<char>) -> Seq<char> {
    if s.len() > 0 && (s[0] == '+' || s[0] == '-') {
        s.skip(1)
    } else {
        s
    }
}

/// Digits with at most one `.` among them, and at least one digit:
/// `Digit+ | Digit+ '.' Digit* | Digit* '.' Digit+`.
pub open spec fn mantissa_syntax(m: Seq<char>) -> bool {
    &&& forall|i: int| 0 <= i < m.len() ==> m[i] == '.' || is_digit(#[trigger] m[i])
    &&& forall|i: int, j: int|
        0 <= i < j < m.len() ==> !(#[trigger] m[i] == '.' && #[trigger] m[j] == '.')
    &&& exists|i: int| 0 <= i < m.len() && is_digit(#[trigger] m[i])
}

/// `Sign? Digit+`.
pub open spec fn exponent_syntax(e: Seq<char>) -> bool {
    let u = without_sign(e);
    u.len() > 0 && forall|i: int| 0 <= i < u.len() ==> is_digit(#[trigger] u[i])
}

/// `Mantissa ('e' Exponent)?`.
pub open spec fn number_syntax(s: Seq<char>) -> bool {
    ||| (forall|i: int| 0 <= i < s.len() ==> #[trigger] s[i] != 'e') && mantissa_syntax(s)
    ||| exists|i: int|
        0 <= i < s.len() && #[trigger] s[i] == 'e' && mantissa_syntax(s.take(i)) && exponent_syntax(
            s.skip(i + 1),
        )
}

/// The strings that, lower-cased, follow `Sign? ('inf' | 'infinity' | 'nan'
/// | Number)`.
pub open spec fn float_syntax(s: Seq<char>) -> bool {
    let u = without_sign(lower(s));
    u == "inf"@ || u == "infinity"@ || u == "nan"@ || number_syntax(u)
}

/// The characters of `v` from `lo` up to `hi`.
fn slice_chars(v: &Vec<char>, lo: usize, hi: usize) -> (r: Vec<char>)
    requires
        lo <= hi <= v@.len(),
    ensures
        r@ == v@.subrange(lo as int, hi as int),
{
    let mut r: Vec<char> = Vec::new();
    let mut i = lo;
    while i < hi
        invariant
            lo <= i <= hi <= v@.len(),
            r@ == v@.subrange(lo as int, i as int),
        decreases hi - i,
    {
        r.push(v[i]);
        i = i + 1;
        assert(r@ =~= v@.subrange(lo as int, i as int));
    }
    r
}

fn mantissa_ok(m: &Vec<char>) -> (r: bool)
    ensures
        r == mantissa_syntax(m@),
{
    let mut dot = false;
    let mut digit = false;
    let mut i: usize = 0;
    while i < m.len()
        invariant
            i <= m@.len(),
            forall|q: int| 0 <= q < i ==> m@[q] == '.' || is_digit(#[trigger] m@[q]),
            forall|p: int, q: int|
                0 <= p < q < i ==> !(#[trigger] m@[p] == '.' && #[trigger] m@[q] == '.'),
            dot <==> exists|q: int| 0 <= q < i && #[trigger] m@[q] == '.',
            digit <==> exists|q: int| 0 <= q < i && is_digit(#[trigger] m@[q]),
        decreases m@.len() - i,
    {
        let c = m[i];
        if c == '.' {
            if dot {
                let ghost q = choose|q: int| 0 <= q < i && #[trigger] m@[q] == '.';
                assert(m@[q] == '.' && m@[i as int] == '.');
                return false;
            }
            dot = true;
        } else if '0' <= c && c <= '9' {
            digit = true;
        } else {
            assert(!(m@[i as int] == '.' || is_digit(m@[i as int])));
            return false;
        }
        i = i + 1;
    }
    digit
}

fn exponent_ok(e: &Vec<char>) -> (r: bool)
    ensures
        r == exponent_syntax(e@),
{
    let start: usize = if e.len() > 0 && (e[0] == '+' || e[0] == '-') {
        1
    } else {
        0
    };
    assert(without_sign(e@) =~= e@.skip(start as int));
    if start >= e.len() {
        return false;
    }
    let mut i = start;
    while i < e.len()
        invariant
            start <= i <= e@.len(),
            without_sign(e@) == e@.skip(start as int),
            forall|q: int| start <= q < i ==> is_digit(#[trigger] e@[q]),
        decreases e@.len() - i,
    {
        if !('0' <= e[i] && e[i] <= '9') {
            assert(without_sign(e@)[i - start] == e@[i as int]);
            assert(!is_digit(without_sign(e@)[i - start]));
            return false;
        }
        i = i + 1;
    }
    assert forall|q: int| 0 <= q < without_sign(e@).len() implies is_digit(
        #[trigger] without_sign(e@)[q],
    ) by {
        assert(without_sign(e@)[q] == e@[q + start]);
    }
    true
}

/// Whether `s` reads as a number (an `f64`).
pub fn is_number(s: &str) -> (r: bool)
    ensures
        r == float_syntax(s@),
{
    let low = to_ascii_lower(s);
    let v = chars_of(low.as_str());
    let start: usize = if v.len() > 0 && (v[0] == '+' || v[0] == '-') {
        1
    } else {
        0
    };
    let uv = slice_chars(&v, start, v.len());
    let ghost u = without_sign(lower(s@));
    assert(uv@ =~= u);
    let us = string_of(&uv);
    if str_eq(us.as_str(), "inf") || str_eq(us.as_str(), "infinity") || str_eq(us.as_str(), "nan") {
        return true;
    }
    let mut i: usize = 0;
    while i < uv.len() && uv[i] != 'e'
        invariant
            i <= uv@.len(),
            forall|q: int| 0 <= q < i ==> #[trigger] uv@[q] != 'e',
        decreases uv@.len() - i,
    {
        i = i + 1;
    }
    if i == uv.len() {
        let r = mantissa_ok(&uv);
        proof {
            if !r {
                assert forall|k: int| 0 <= k < u.len() && #[trigger] u[k] == 'e' implies !(
                mantissa_syntax(u.take(k)) && exponent_syntax(u.skip(k + 1))) by {
                    assert(uv@[k] != 'e');
                }
            }
        }
        r
    } else {
        let head = slice_chars(&uv, 0, i);
        let tail = slice_chars(&uv, i + 1, uv.len());
        assert(head@ =~= u.take(i as int));
        assert(tail@ =~= u.skip(i + 1));
        let r = mantissa_ok(&head) && exponent_ok(&tail);
        proof {
            assert(u[i as int] == 'e');
            if !r {
                assert forall|k: int| 0 <= k < u.len() && #[trigger] u[k] == 'e' implies !(
                mantissa_syntax(u.take(k)) && exponent_syntax(u.skip(k + 1))) by {
                    if k < i {
                        assert(uv@[k] != 'e');
                    } else if k > i {
                        assert(u.take(k)[i as int] == 'e');
                        assert(!(u.take(k)[i as int] == '.' || is_digit(u.take(k)[i as int])));
                    }
                }
            }
        }
        r
    }
}

} // verus!
