//! The viewer window's remembered size: the one-line state file (width,
//! height, maximized flag, details-panel width) and the divider between the
//! image and the details panel.

use vstd::prelude::*;

use crate::numeric::is_digit;
use crate::text::{chars_of, decimal, is_ws, is_ws_exec, usize_to_decimal, views};

verus! {

pub const DEFAULT_WIDTH: i32 = 1280;

pub const DEFAULT_HEIGHT: i32 = 820;

pub const DEFAULT_INFO_WIDTH: i32 = 320;

/// The words of `s`: the runs of characters between whitespace, as
/// `str::split_whitespace` gives them.
pub open spec fn words(s: Seq<char>) -> Seq<Seq<char>>
    decreases s.len(),
{
    if s.len() == 0 {
        Seq::empty()
    } else {
        let w = words(s.drop_last());
        let c = s.last();
        if is_ws(c) {
            w
        } else if s.len() >= 2 && !is_ws(s[s.len() - 2]) {
            w.update(w.len() - 1, w.last().push(c))
        } else {
            w.push(seq![c])
        }
    }
}

proof fn lemma_words_nonempty(s: Seq<char>)
    requires
        s.len() > 0,
        !is_ws(s.last()),
    ensures
        words(s).len() >= 1,
    decreases s.len(),
{
    if s.len() >= 2 && !is_ws(s[s.len() - 2]) {
        assert(s.drop_last().last() == s[s.len() - 2]);
        lemma_words_nonempty(s.drop_last());
    }
}

/// The words of `text`.
pub fn split_words(text: &str) -> (r: Vec<String>)
    ensures
        views(r@) == words(text@),
{
    let v = chars_of(text);
    let mut done: Vec<String> = Vec::new();
    let mut cur = String::new();
    let mut i: usize = 0;
    while i < v.len()
        invariant
            i <= v@.len(),
            v@ == text@,
            cur@.len() > 0 ==> i > 0 && !is_ws(text@[i - 1]) && views(done@).push(cur@) == words(
                text@.take(i as int),
            ),
            cur@.len() == 0 ==> views(done@) == words(text@.take(i as int)) && (i > 0 ==> is_ws(
                text@[i - 1],
            )),
        decreases v@.len() - i,
    {
        let c = v[i];
        let ghost t = text@.take(i as int);
        assert(text@.take(i + 1).drop_last() =~= t);
        assert(text@.take(i + 1).last() == c);
        if is_ws_exec(c) {
            if crate::text::chars_of(cur.as_str()).len() > 0 {
                let finished = cur;
                let ghost before = views(done@);
                done.push(finished);
                assert(views(done@) =~= before.push(finished@));
                cur = String::new();
            }
        } else {
            let ghost c0 = cur@;
            let ghost d0 = views(done@);
            proof {
                if c0.len() > 0 {
                    assert(text@.take(i + 1)[i - 1] == text@[i - 1]);
                    assert(t.last() == text@[i - 1]);
                    lemma_words_nonempty(t);
                    let s1 = text@.take(i + 1);
                    assert(s1[s1.len() - 2] == text@[i - 1]);
                    assert(words(s1) == words(t).update(words(t).len() - 1, words(t).last().push(c)));
                    assert(d0.push(c0.push(c)) =~= words(t).update(
                        words(t).len() - 1,
                        words(t).last().push(c),
                    ));
                } else {
                    let s1 = text@.take(i + 1);
                    if i > 0 {
                        assert(s1[s1.len() - 2] == text@[i - 1]);
                    }
                    assert(words(s1) == words(t).push(seq![c]));
                    assert(c0 =~= Seq::<char>::empty());
                }
            }
            cur.push(c);
            assert(views(done@).push(cur@) =~= words(text@.take(i + 1)));
        }
        i = i + 1;
    }
    assert(text@.take(i as int) =~= text@);
    if chars_of(cur.as_str()).len() > 0 {
        let last = cur;
        let ghost before = views(done@);
        done.push(last);
        assert(views(done@) =~= before.push(last@));
    }
    done
}

/// The value of a string of decimal digits.
pub open spec fn digits_value(s: Seq<char>) -> nat
    decreases s.len(),
{
    if s.len() == 0 {
        0
    } else {
        digits_value(s.drop_last()) * 10 + (s.last() as nat - '0' as nat) as nat
    }
}

/// One or more decimal digits.
pub open spec fn all_digits(s: Seq<char>) -> bool {
    s.len() > 0 && forall|i: int| 0 <= i < s.len() ==> is_digit(#[trigger] s[i])
}

/// What `str::parse::<i32>` gives: an optional sign, then digits, with a
/// value in range.
pub open spec fn parse_i32_of(s: Seq<char>) -> Option<i32> {
    let v: Option<int> = if s.len() > 0 && s[0] == '-' && all_digits(s.skip(1)) {
        Some(-(digits_value(s.skip(1)) as int))
    } else if s.len() > 0 && s[0] == '+' && all_digits(s.skip(1)) {
        Some(digits_value(s.skip(1)) as int)
    } else if all_digits(s) {
        Some(digits_value(s) as int)
    } else {
        None
    };
    match v {
        Some(x) => if i32::MIN <= x <= i32::MAX {
            Some(x as i32)
        } else {
            None
        },
        None => None,
    }
}

/// What `str::parse::<u8>` gives: an optional `+`, then digits, with a value
/// in range.
pub open spec fn parse_u8_of(s: Seq<char>) -> Option<u8> {
    let u = if s.len() > 0 && s[0] == '+' {
        s.skip(1)
    } else {
        s
    };
    if all_digits(u) && digits_value(u) <= 255 {
        Some(digits_value(u) as u8)
    } else {
        None
    }
}

/// The value of the digits of `v` from `start` on, capped at `2^32`; `None`
/// unless they are one or more digits.
fn capped_digits(v: &Vec<char>, start: usize) -> (r: Option<u64>)
    requires
        start <= v@.len(),
    ensures
        r is Some <==> all_digits(v@.skip(start as int)),
        r matches Some(x) ==> x == if digits_value(v@.skip(start as int)) < 0x1_0000_0000 {
            digits_value(v@.skip(start as int))
        } else {
            0x1_0000_0000
        },
{
    if start >= v.len() {
        return None;
    }
    let ghost s = v@.skip(start as int);
    let mut acc: u64 = 0;
    let mut i = start;
    while i < v.len()
        invariant
            start <= i <= v@.len(),
            start < v@.len(),
            s == v@.skip(start as int),
            forall|q: int| 0 <= q < i - start ==> is_digit(#[trigger] s[q]),
            acc == if digits_value(s.take(i - start)) < 0x1_0000_0000 {
                digits_value(s.take(i - start))
            } else {
                0x1_0000_0000
            },
        decreases v@.len() - i,
    {
        let c = v[i];
        assert(s[i - start] == c);
        if !('0' <= c && c <= '9') {
            assert(!is_digit(s[i - start]));
            return None;
        }
        let d = (c as u32 - '0' as u32) as u64;
        assert(s.take(i + 1 - start).drop_last() =~= s.take(i - start));
        assert(s.take(i + 1 - start).last() == c);
        let next = acc * 10 + d;
        acc = if next < 0x1_0000_0000 {
            next
        } else {
            0x1_0000_0000
        };
        i = i + 1;
    }
    assert(s.take(i - start) =~= s);
    Some(acc)
}

/// `s` read as an `i32`, as `str::parse` reads it.
pub fn parse_i32(s: &str) -> (r: Option<i32>)
    ensures
        r == parse_i32_of(s@),
{
    let v = chars_of(s);
    if v.len() > 0 && v[0] == '-' {
        match capped_digits(&v, 1) {
            Some(x) => if x <= 0x8000_0000 {
                Some((0 - (x as i64)) as i32)
            } else {
                None
            },
            None => None,
        }
    } else if v.len() > 0 && v[0] == '+' {
        match capped_digits(&v, 1) {
            Some(x) => if x <= 0x7fff_ffff {
                Some(x as i32)
            } else {
                None
            },
            None => None,
        }
    } else {
        assert(v@.skip(0) =~= v@);
        match capped_digits(&v, 0) {
            Some(x) => if x <= 0x7fff_ffff {
                Some(x as i32)
            } else {
                None
            },
            None => None,
        }
    }
}

/// `s` read as a `u8`, as `str::parse` reads it.
pub fn parse_u8(s: &str) -> (r: Option<u8>)
    ensures
        r == parse_u8_of(s@),
{
    let v = chars_of(s);
    let start: usize = if v.len() > 0 && v[0] == '+' {
        1
    } else {
        0
    };
    assert(v@.skip(0) =~= v@);
    match capped_digits(&v, start) {
        Some(x) => if x <= 255 {
            Some(x as u8)
        } else {
            None
        },
        None => None,
    }
}

/// An integer in decimal, with a leading `-` when negative.
pub open spec fn int_text(n: int) -> Seq<char> {
    if n < 0 {
        "-"@ + decimal((-n) as nat)
    } else {
        decimal(n as nat)
    }
}

fn i32_text(n: i32) -> (r: String)
    ensures
        r@ == int_text(n as int),
{
    if n < 0 {
        let m = (0 - (n as i64)) as usize;
        let mut s = String::from_str("-");
        s.append(usize_to_decimal(m).as_str());
        s
    } else {
        usize_to_decimal(n as usize)
    }
}

/// The state line for a window `w` by `h`, maximized or not, whose details
/// panel is `info_w` wide; nothing for a window with no size.
pub open spec fn window_state_text_of(w: i32, h: i32, maximized: bool, info_w: i32) -> Option<Seq<char>> {
    if w <= 0 || h <= 0 {
        None
    } else {
        Some(
            int_text(w as int) + " "@ + int_text(h as int) + " "@ + (if maximized {
                "1"@
            } else {
                "0"@
            }) + " "@ + int_text(info_w as int),
        )
    }
}

/// The line the window state file holds.
pub fn window_state_text(w: i32, h: i32, maximized: bool, info_w: i32) -> (r: Option<String>)
    ensures
        r matches Some(t) ==> window_state_text_of(w, h, maximized, info_w) == Some(t@),
        r is None ==> window_state_text_of(w, h, maximized, info_w) is None,
{
    if w <= 0 || h <= 0 {
        return None;
    }
    let mut s = i32_text(w);
    s.append(" ");
    s.append(i32_text(h).as_str());
    s.append(if maximized {
        " 1 "
    } else {
        " 0 "
    });
    s.append(i32_text(info_w).as_str());
    proof {
        reveal_strlit(" 1 ");
        reveal_strlit(" 0 ");
        reveal_strlit(" ");
        reveal_strlit("1");
        reveal_strlit("0");
    }
    assert(s@ =~= window_state_text_of(w, h, maximized, info_w)->0);
    Some(s)
}

/// A positive size from word `i` of the state line, else `default`.
pub open spec fn size_word(ws: Seq<Seq<char>>, i: int, default: i32) -> i32 {
    if i < ws.len() && (parse_i32_of(ws[i]) matches Some(v) && v > 0) {
        parse_i32_of(ws[i])->0
    } else {
        default
    }
}

/// The window state a state line gives: width, height, maximized, details
/// panel width; each missing or unreadable value takes its default.
pub open spec fn window_state_of(text: Seq<char>) -> (i32, i32, bool, i32) {
    let ws = words(text);
    (
        size_word(ws, 0, DEFAULT_WIDTH),
        size_word(ws, 1, DEFAULT_HEIGHT),
        2 < ws.len() && (parse_u8_of(ws[2]) matches Some(v) && v != 0),
        size_word(ws, 3, DEFAULT_INFO_WIDTH),
    )
}

fn size_at(ws: &Vec<String>, i: usize, default: i32) -> (r: i32)
    ensures
        r == size_word(views(ws@), i as int, default),
{
    if i < ws.len() {
        assert(views(ws@)[i as int] == ws@[i as int]@);
        match parse_i32(ws[i].as_str()) {
            Some(v) => if v > 0 {
                v
            } else {
                default
            },
            None => default,
        }
    } else {
        default
    }
}

/// Read the window state line (see `window_state_text`).
pub fn parse_window_state(text: &str) -> (r: (i32, i32, bool, i32))
    ensures
        r == window_state_of(text@),
{
    let ws = split_words(text);
    let w = size_at(&ws, 0, DEFAULT_WIDTH);
    let h = size_at(&ws, 1, DEFAULT_HEIGHT);
    let m = if ws.len() > 2 {
        assert(views(ws@)[2] == ws@[2]@);
        match parse_u8(ws[2].as_str()) {
            Some(v) => v != 0,
            None => false,
        }
    } else {
        false
    };
    let info = size_at(&ws, 3, DEFAULT_INFO_WIDTH);
    (w, h, m, info)
}

/// Where the divider starts: the window width less the details panel, but
/// at least 200.
pub fn divider_position(width: i32, info_width: i32) -> (r: i32)
    requires
        i32::MIN <= width - info_width <= i32::MAX,
    ensures
        r == if width - info_width > 200 {
            width - info_width
        } else {
            200
        },
{
    let p = width - info_width;
    if p > 200 {
        p
    } else {
        200
    }
}

/// Where the divider goes once the split is `total` wide: the details panel
/// keeps its width, clamped to at least 120 and at most `total - 200` (or
/// 120 when that is less).
pub fn settled_divider(total: i32, info_width: i32) -> (r: i32)
    requires
        total > 1,
    ensures
        r == total - if info_width < 120 {
            120
        } else if info_width > (if total - 200 > 120 {
            total - 200
        } else {
            120
        }) {
            if total - 200 > 120 {
                total - 200
            } else {
                120
            }
        } else {
            info_width as int
        },
{
    let hi = if total - 200 > 120 {
        total - 200
    } else {
        120
    };
    let iw = if info_width < 120 {
        120
    } else if info_width > hi {
        hi
    } else {
        info_width
    };
    total - iw
}

proof fn lemma_words_then_space(p: Seq<char>)
    ensures
        words(p + " "@) == words(p),
{
    reveal_strlit(" ");
    assert((p + " "@).drop_last() =~= p);
}

proof fn lemma_words_append_word(p: Seq<char>, y: Seq<char>)
    requires
        p.len() == 0 || is_ws(p.last()),
        y.len() > 0,
        forall|i: int| 0 <= i < y.len() ==> !is_ws(#[trigger] y[i]),
    ensures
        words(p + y) == words(p).push(y),
    decreases y.len(),
{
    let s = p + y;
    assert(s.drop_last() =~= p + y.drop_last());
    if y.len() == 1 {
        assert(p + y.drop_last() =~= p);
        assert(seq![y.last()] =~= y);
        if p.len() > 0 {
            assert(s[s.len() - 2] == p.last());
        }
    } else {
        lemma_words_append_word(p, y.drop_last());
        assert(s[s.len() - 2] == y[y.len() - 2]);
        assert(y.drop_last().push(y.last()) =~= y);
        assert(!is_ws(s.last()));
        assert(words(s) == words(p).push(y.drop_last()).update(
            words(p).len() as int,
            y.drop_last().push(y.last()),
        ));
        assert(words(s) =~= words(p).push(y));
    }
}

proof fn lemma_decimal_digits(n: nat)
    ensures
        all_digits(decimal(n)),
        digits_value(decimal(n)) == n,
        forall|i: int| 0 <= i < decimal(n).len() ==> !is_ws(#[trigger] decimal(n)[i]),
    decreases n,
{
    let d = decimal(n);
    let last = crate::text::digit_char(n % 10);
    assert(last as nat == 48 + n % 10);
    assert('0' as nat == 48);
    assert((last as nat - '0' as nat) as nat == n % 10);
    assert(digits_value(Seq::<char>::empty()) == 0);
    if n < 10 {
        assert(d[0] == crate::text::digit_char(n));
        assert(d.drop_last() =~= Seq::<char>::empty());
        assert(d.last() == last);
        assert(digits_value(d) == digits_value(d.drop_last()) * 10 + (d.last() as nat - '0' as nat) as nat);
    } else {
        lemma_decimal_digits(n / 10);
        assert(d.drop_last() =~= decimal(n / 10));
        assert(d.last() == last);
        assert(digits_value(d) == digits_value(d.drop_last()) * 10 + (d.last() as nat - '0' as nat) as nat);
        assert((n / 10) * 10 + n % 10 == n) by (nonlinear_arith);
    }
}

proof fn lemma_int_text_parses(n: int)
    requires
        0 < n <= i32::MAX,
    ensures
        parse_i32_of(int_text(n)) == Some(n as i32),
        int_text(n).len() > 0,
        forall|i: int| 0 <= i < int_text(n).len() ==> !is_ws(#[trigger] int_text(n)[i]),
{
    lemma_decimal_digits(n as nat);
    let t = int_text(n);
    assert(is_digit(t[0]));
}

/// A saved window state reads back as it was: a window with a size, and a
/// details panel with a width, comes back with the same width, height,
/// maximized flag and panel width.
pub proof fn law_window_state_roundtrip(w: i32, h: i32, maximized: bool, info_w: i32)
    requires
        w > 0,
        h > 0,
        info_w > 0,
    ensures
        window_state_text_of(w, h, maximized, info_w) matches Some(t) && window_state_of(t) == (
            w,
            h,
            maximized,
            info_w,
        ),
{
    let a = int_text(w as int);
    let b = int_text(h as int);
    let m = if maximized {
        "1"@
    } else {
        "0"@
    };
    let c = int_text(info_w as int);
    lemma_int_text_parses(w as int);
    lemma_int_text_parses(h as int);
    lemma_int_text_parses(info_w as int);
    reveal_strlit("1");
    reveal_strlit("0");
    reveal_strlit(" ");
    assert(forall|i: int| 0 <= i < m.len() ==> !is_ws(#[trigger] m[i]));
    let sp = " "@;
    lemma_words_append_word(Seq::empty(), a);
    assert(Seq::<char>::empty() + a =~= a);
    lemma_words_then_space(a);
    lemma_words_append_word(a + sp, b);
    lemma_words_then_space(a + sp + b);
    lemma_words_append_word(a + sp + b + sp, m);
    lemma_words_then_space(a + sp + b + sp + m);
    lemma_words_append_word(a + sp + b + sp + m + sp, c);
    let t = a + sp + b + sp + m + sp + c;
    assert(words(Seq::<char>::empty()) =~= Seq::<Seq<char>>::empty());
    let ws = words(t);
    assert(ws =~= seq![a, b, m, c]);
    if maximized {
        assert(all_digits(m));
        assert(digits_value(m) == 1) by {
            assert(m.drop_last() =~= Seq::<char>::empty());
            assert(m.last() == '1');
            assert(digits_value(Seq::<char>::empty()) == 0);
            assert(digits_value(m) == digits_value(m.drop_last()) * 10 + (m.last() as nat - '0' as nat) as nat);
        }
    } else {
        assert(all_digits(m));
        assert(digits_value(m) == 0) by {
            assert(m.drop_last() =~= Seq::<char>::empty());
            assert(m.last() == '0');
            assert(digits_value(Seq::<char>::empty()) == 0);
            assert(digits_value(m) == digits_value(m.drop_last()) * 10 + (m.last() as nat - '0' as nat) as nat);
        }
    }
}

} // verus!
