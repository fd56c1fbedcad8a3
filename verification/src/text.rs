//! Character-level string helpers used throughout the library.

use vstd::prelude::*;

verus! {

/// `String::push` appends one character.
pub assume_specification[ String::push ](s: &mut String, ch: char)
    ensures
        final(s)@ == old(s)@.push(ch),
;

/// The characters of `s`, in order.
pub fn chars_of(s: &str) -> (v: Vec<char>)
    ensures
        v@ == s@,
{
    let mut v: Vec<char> = Vec::new();
    for c in it: s.chars()
        invariant
            v@ == it.seq().take(it.index() as int),
    {
        v.push(c);
    }
    v
}

/// A string holding exactly the characters of `v`.
pub fn string_of(v: &[char]) -> (s: String)
    ensures
        s@ == v@,
{
    let mut s = String::new();
    let mut i: usize = 0;
    while i < v.len()
        invariant
            i <= v.len(),
            s@ == v@.take(i as int),
        decreases v.len() - i,
    {
        s.push(v[i]);
        i = i + 1;
        assert(v@.take(i as int) =~= v@.take((i - 1) as int).push(v@[i - 1]));
    }
    assert(v@.take(v.len() as int) =~= v@);
    s
}


/// ASCII lower-casing of one character: 'A'..='Z' map to 'a'..='z'.
pub open spec fn lower_char(c: char) -> char {
    if 'A' <= c && c <= 'Z' {
        ((c as u32) + 32) as char
    } else {
        c
    }
}

/// ASCII lower-casing of a whole string.
pub open spec fn lower(s: Seq<char>) -> Seq<char> {
    s.map_values(|c: char| lower_char(c))
}

/// Equality up to ASCII case.
pub open spec fn eq_ignore_case(a: Seq<char>, b: Seq<char>) -> bool {
    lower(a) == lower(b)
}

pub fn lower_char_exec(c: char) -> (r: char)
    ensures
        r == lower_char(c),
{
    if 'A' <= c && c <= 'Z' {
        let b: u8 = (c as u8) + 32;
        b as char
    } else {
        c
    }
}

/// `s` with every ASCII upper-case letter lower-cased.
pub fn to_ascii_lower(s: &str) -> (r: String)
    ensures
        r@ == lower(s@),
{
    let v = chars_of(s);
    let mut out = String::new();
    let mut i: usize = 0;
    while i < v.len()
        invariant
            i <= v.len(),
            v@ == s@,
            out@ == lower(s@.take(i as int)),
        decreases v.len() - i,
    {
        let c = lower_char_exec(v[i]);
        out.push(c);
        i = i + 1;
        assert(lower(s@.take(i as int)) =~= lower(s@.take((i - 1) as int)).push(c));
    }
    assert(s@.take(v.len() as int) =~= s@);
    out
}

/// Whether `a` and `b` are equal up to ASCII case.
pub fn eq_ignore_ascii_case(a: &str, b: &str) -> (r: bool)
    ensures
        r == eq_ignore_case(a@, b@),
{
    let va = chars_of(a);
    let vb = chars_of(b);
    if va.len() != vb.len() {
        assert(lower(a@).len() != lower(b@).len());
        return false;
    }
    let mut i: usize = 0;
    while i < va.len()
        invariant
            i <= va.len(),
            va.len() == vb.len(),
            va@ == a@,
            vb@ == b@,
            forall|k: int| 0 <= k < i ==> lower_char(a@[k]) == lower_char(b@[k]),
        decreases va.len() - i,
    {
        if lower_char_exec(va[i]) != lower_char_exec(vb[i]) {
            assert(lower(a@)[i as int] != lower(b@)[i as int]);
            return false;
        }
        i = i + 1;
    }
    assert(lower(a@) =~= lower(b@));
    true
}

/// Whether two strings hold the same characters.
pub fn str_eq(a: &str, b: &str) -> (r: bool)
    ensures
        r == (a@ == b@),
{
    let va = chars_of(a);
    let vb = chars_of(b);
    if va.len() != vb.len() {
        return false;
    }
    let mut i: usize = 0;
    while i < va.len()
        invariant
            i <= va.len(),
            va.len() == vb.len(),
            va@ == a@,
            vb@ == b@,
            forall|k: int| 0 <= k < i ==> a@[k] == b@[k],
        decreases va.len() - i,
    {
        if va[i] != vb[i] {
            return false;
        }
        i = i + 1;
    }
    assert(a@ =~= b@);
    true
}

/// Unicode `White_Space`, the set of characters that `str::trim` removes.
pub open spec fn is_ws(c: char) -> bool {
    ||| ('\u{9}' <= c && c <= '\u{d}')
    ||| c == ' '
    ||| c == '\u{85}'
    ||| c == '\u{a0}'
    ||| c == '\u{1680}'
    ||| ('\u{2000}' <= c && c <= '\u{200a}')
    ||| c == '\u{2028}'
    ||| c == '\u{2029}'
    ||| c == '\u{202f}'
    ||| c == '\u{205f}'
    ||| c == '\u{3000}'
}

pub fn is_ws_exec(c: char) -> (r: bool)
    ensures
        r == is_ws(c),
{
    ('\u{9}' <= c && c <= '\u{d}') || c == ' ' || c == '\u{85}' || c == '\u{a0}' || c
        == '\u{1680}' || ('\u{2000}' <= c && c <= '\u{200a}') || c == '\u{2028}' || c
        == '\u{2029}' || c == '\u{202f}' || c == '\u{205f}' || c == '\u{3000}'
}

/// Number of leading white-space characters of `s`.
pub open spec fn lead_ws(s: Seq<char>) -> nat
    decreases s.len(),
{
    if s.len() > 0 && is_ws(s[0]) {
        1 + lead_ws(s.drop_first())
    } else {
        0
    }
}

/// Number of trailing white-space characters of `s`.
pub open spec fn trail_ws(s: Seq<char>) -> nat
    decreases s.len(),
{
    if s.len() > 0 && is_ws(s.last()) {
        1 + trail_ws(s.drop_last())
    } else {
        0
    }
}

/// `s` without leading and trailing white space, as `str::trim` gives it.
pub open spec fn trim(s: Seq<char>) -> Seq<char> {
    let a = lead_ws(s);
    if a == s.len() {
        Seq::empty()
    } else {
        s.subrange(a as int, s.len() - trail_ws(s))
    }
}

proof fn lemma_lead_ws(s: Seq<char>)
    ensures
        lead_ws(s) <= s.len(),
        forall|k: int| 0 <= k < lead_ws(s) ==> is_ws(#[trigger] s[k]),
        lead_ws(s) < s.len() ==> !is_ws(s[lead_ws(s) as int]),
    decreases s.len(),
{
    if s.len() > 0 && is_ws(s[0]) {
        lemma_lead_ws(s.drop_first());
        assert forall|k: int| 0 <= k < lead_ws(s) implies is_ws(#[trigger] s[k]) by {
            if k > 0 {
                assert(s[k] == s.drop_first()[k - 1]);
            }
        }
    }
}

proof fn lemma_trail_ws(s: Seq<char>)
    ensures
        trail_ws(s) <= s.len(),
        forall|k: int| s.len() - trail_ws(s) <= k < s.len() ==> is_ws(#[trigger] s[k]),
        trail_ws(s) < s.len() ==> !is_ws(s[s.len() - trail_ws(s) - 1]),
    decreases s.len(),
{
    if s.len() > 0 && is_ws(s.last()) {
        lemma_trail_ws(s.drop_last());
        assert forall|k: int| s.len() - trail_ws(s) <= k < s.len() implies is_ws(#[trigger] s[k]) by {
            if k < s.len() - 1 {
                assert(s[k] == s.drop_last()[k]);
            }
        }
    }
}

/// The prefix of length `n` is all white space and is followed by a
/// non-white-space character or the end: then `n` is `lead_ws(s)`.
proof fn lemma_lead_ws_is(s: Seq<char>, n: int)
    requires
        0 <= n <= s.len(),
        forall|k: int| 0 <= k < n ==> is_ws(#[trigger] s[k]),
        n < s.len() ==> !is_ws(s[n]),
    ensures
        lead_ws(s) == n,
    decreases n,
{
    if n > 0 {
        assert(is_ws(s[0]));
        let t = s.drop_first();
        assert forall|k: int| 0 <= k < n - 1 implies is_ws(#[trigger] t[k]) by {
            assert(t[k] == s[k + 1]);
        }
        if n - 1 < t.len() {
            assert(t[n - 1] == s[n]);
        }
        lemma_lead_ws_is(t, n - 1);
    }
}

proof fn lemma_trail_ws_is(s: Seq<char>, n: int)
    requires
        0 <= n <= s.len(),
        forall|k: int| s.len() - n <= k < s.len() ==> is_ws(#[trigger] s[k]),
        n < s.len() ==> !is_ws(s[s.len() - n - 1]),
    ensures
        trail_ws(s) == n,
    decreases n,
{
    if n > 0 {
        assert(is_ws(s[s.len() - 1]));
        let t = s.drop_last();
        assert forall|k: int| t.len() - (n - 1) <= k < t.len() implies is_ws(#[trigger] t[k]) by {
            assert(t[k] == s[k]);
        }
        if n - 1 < t.len() {
            assert(t[t.len() - (n - 1) - 1] == s[s.len() - n - 1]);
        }
        lemma_trail_ws_is(t, n - 1);
    }
}

/// `s` with leading and trailing white space removed.
pub fn trim_str(s: &str) -> (r: String)
    ensures
        r@ == trim(s@),
{
    let v = chars_of(s);
    let n = v.len();
    let mut a: usize = 0;
    while a < n && is_ws_exec(v[a])
        invariant
            a <= n,
            n == s@.len(),
            v@ == s@,
            forall|k: int| 0 <= k < a ==> is_ws(#[trigger] s@[k]),
        decreases n - a,
    {
        a = a + 1;
    }
    proof {
        lemma_lead_ws_is(s@, a as int);
    }
    if a == n {
        return String::new();
    }
    let mut b: usize = n;
    while b > a && is_ws_exec(v[b - 1])
        invariant
            a < n,
            a <= b <= n,
            n == s@.len(),
            v@ == s@,
            forall|k: int| b <= k < n ==> is_ws(#[trigger] s@[k]),
        decreases b,
    {
        b = b - 1;
    }
    proof {
        assert(!is_ws(s@[a as int]));
        lemma_trail_ws_is(s@, n - b);
    }
    let mut out = String::new();
    let mut i: usize = a;
    while i < b
        invariant
            a <= i <= b <= n,
            n == v.len(),
            v@ == s@,
            out@ == s@.subrange(a as int, i as int),
        decreases b - i,
    {
        out.push(v[i]);
        i = i + 1;
        assert(s@.subrange(a as int, i as int) =~= s@.subrange(a as int, i - 1).push(v@[i - 1]));
    }
    out
}

/// Whether `p` is a prefix of `s`.
pub open spec fn has_prefix(s: Seq<char>, p: Seq<char>) -> bool {
    p.len() <= s.len() && s.take(p.len() as int) == p
}

pub fn starts_with(s: &str, p: &str) -> (r: bool)
    ensures
        r == has_prefix(s@, p@),
{
    let vs = chars_of(s);
    let vp = chars_of(p);
    if vp.len() > vs.len() {
        return false;
    }
    let mut i: usize = 0;
    while i < vp.len()
        invariant
            i <= vp.len() <= vs.len(),
            vs@ == s@,
            vp@ == p@,
            forall|k: int| 0 <= k < i ==> s@[k] == p@[k],
        decreases vp.len() - i,
    {
        if vs[i] != vp[i] {
            assert(s@.take(p@.len() as int)[i as int] != p@[i as int]);
            return false;
        }
        i = i + 1;
    }
    assert(s@.take(p@.len() as int) =~= p@);
    true
}

/// `s` with the prefix `p` removed, when `p` is a prefix of `s`.
pub fn strip_prefix(s: &str, p: &str) -> (r: Option<String>)
    ensures
        r is Some <==> has_prefix(s@, p@),
        r matches Some(t) ==> t@ == s@.skip(p@.len() as int),
{
    if !starts_with(s, p) {
        return None;
    }
    let vs = chars_of(s);
    let vp = chars_of(p);
    let mut out = String::new();
    let mut i: usize = vp.len();
    while i < vs.len()
        invariant
            vp.len() <= i <= vs.len(),
            vs@ == s@,
            vp@ == p@,
            out@ == s@.subrange(p@.len() as int, i as int),
        decreases vs.len() - i,
    {
        out.push(vs[i]);
        i = i + 1;
        assert(s@.subrange(p@.len() as int, i as int) =~= s@.subrange(p@.len() as int, i - 1).push(
            vs@[i - 1],
        ));
    }
    assert(s@.subrange(p@.len() as int, s@.len() as int) =~= s@.skip(p@.len() as int));
    Some(out)
}

/// Whether `c` occurs in `s`.
pub fn has_char(s: &str, c: char) -> (r: bool)
    ensures
        r == s@.contains(c),
{
    let v = chars_of(s);
    let mut i: usize = 0;
    while i < v.len()
        invariant
            i <= v.len(),
            v@ == s@,
            forall|k: int| 0 <= k < i ==> s@[k] != c,
        decreases v.len() - i,
    {
        if v[i] == c {
            return true;
        }
        i = i + 1;
    }
    false
}

/// Every `from` replaced by `to`.
pub open spec fn replace_char(s: Seq<char>, from: char, to: char) -> Seq<char> {
    s.map_values(|c: char| if c == from { to } else { c })
}

pub fn replace_char_str(s: &str, from: char, to: char) -> (r: String)
    ensures
        r@ == replace_char(s@, from, to),
{
    let v = chars_of(s);
    let mut out = String::new();
    let mut i: usize = 0;
    while i < v.len()
        invariant
            i <= v.len(),
            v@ == s@,
            out@ == replace_char(s@.take(i as int), from, to),
        decreases v.len() - i,
    {
        let c = v[i];
        out.push(if c == from { to } else { c });
        i = i + 1;
        assert(replace_char(s@.take(i as int), from, to) =~= replace_char(
            s@.take((i - 1) as int),
            from,
            to,
        ).push(if c == from { to } else { c }));
    }
    assert(s@.take(v.len() as int) =~= s@);
    out
}

/// A copy of `s` with `t` appended.
pub fn concat(s: &str, t: &str) -> (r: String)
    ensures
        r@ == s@ + t@,
{
    let mut out = String::from_str(s);
    out.append(t);
    out
}

/// Decimal digits of `n`, most significant first, without leading zeros.
pub open spec fn decimal(n: nat) -> Seq<char>
    decreases n,
{
    if n < 10 {
        seq![digit_char(n)]
    } else {
        decimal(n / 10).push(digit_char(n % 10))
    }
}

pub open spec fn digit_char(d: nat) -> char {
    (('0' as u32) + d) as char
}

/// `n` written in decimal.
pub fn usize_to_decimal(n: usize) -> (r: String)
    ensures
        r@ == decimal(n as nat),
    decreases n,
{
    let d: u8 = (n % 10) as u8;
    let c: char = (48u8 + d) as char;
    assert(c == digit_char((n % 10) as nat));
    if n < 10 {
        let mut s = String::new();
        s.push(c);
        assert(s@ =~= seq![c]);
        s
    } else {
        let mut s = usize_to_decimal(n / 10);
        s.push(c);
        s
    }
}

/// Strict lexicographic order on character sequences, by code point: the
/// order `str`'s `Ord` gives (UTF-8 byte order agrees with code point order).
pub open spec fn str_lt(a: Seq<char>, b: Seq<char>) -> bool
    decreases a.len(),
{
    if a.len() == 0 {
        b.len() > 0
    } else if b.len() == 0 {
        false
    } else if a[0] != b[0] {
        a[0] < b[0]
    } else {
        str_lt(a.drop_first(), b.drop_first())
    }
}

pub proof fn lemma_str_lt_irrefl(a: Seq<char>)
    ensures
        !str_lt(a, a),
    decreases a.len(),
{
    if a.len() > 0 {
        lemma_str_lt_irrefl(a.drop_first());
    }
}

pub proof fn lemma_str_lt_total(a: Seq<char>, b: Seq<char>)
    ensures
        str_lt(a, b) ==> !str_lt(b, a),
        a != b ==> str_lt(a, b) || str_lt(b, a),
    decreases a.len(),
{
    if a.len() > 0 && b.len() > 0 {
        lemma_str_lt_total(a.drop_first(), b.drop_first());
        if a != b && a[0] == b[0] {
            assert(a =~= seq![a[0]] + a.drop_first());
            assert(b =~= seq![b[0]] + b.drop_first());
        }
    }
    if a.len() == 0 && b.len() == 0 {
        assert(a =~= b);
    }
}

pub proof fn lemma_str_lt_trans(a: Seq<char>, b: Seq<char>, c: Seq<char>)
    ensures
        str_lt(a, b) && str_lt(b, c) ==> str_lt(a, c),
    decreases a.len(),
{
    if a.len() > 0 && b.len() > 0 && c.len() > 0 {
        lemma_str_lt_trans(a.drop_first(), b.drop_first(), c.drop_first());
    }
}

/// `str_lt` is a strict total order.
pub proof fn lemma_str_lt_order(a: Seq<char>, b: Seq<char>, c: Seq<char>)
    ensures
        !str_lt(a, a),
        str_lt(a, b) ==> !str_lt(b, a),
        a != b ==> str_lt(a, b) || str_lt(b, a),
        str_lt(a, b) && str_lt(b, c) ==> str_lt(a, c),
{
    lemma_str_lt_irrefl(a);
    lemma_str_lt_total(a, b);
    lemma_str_lt_trans(a, b, c);
}

/// Whether `a` sorts strictly before `b`.
pub fn str_less(a: &str, b: &str) -> (r: bool)
    ensures
        r == str_lt(a@, b@),
{
    let va = chars_of(a);
    let vb = chars_of(b);
    let mut i: usize = 0;
    assert(a@.skip(0) =~= a@);
    assert(b@.skip(0) =~= b@);
    while i < va.len() && i < vb.len() && va[i] == vb[i]
        invariant
            i <= va.len(),
            i <= vb.len(),
            va@ == a@,
            vb@ == b@,
            str_lt(a@, b@) == str_lt(a@.skip(i as int), b@.skip(i as int)),
        decreases va.len() - i,
    {
        assert(a@.skip(i as int).drop_first() =~= a@.skip(i + 1));
        assert(b@.skip(i as int).drop_first() =~= b@.skip(i + 1));
        i = i + 1;
    }
    if i == va.len() {
        i < vb.len()
    } else if i == vb.len() {
        false
    } else {
        va[i] < vb[i]
    }
}

/// The characters of each string.
pub open spec fn views(v: Seq<String>) -> Seq<Seq<char>> {
    v.map_values(|s: String| s@)
}

/// Sorted, ascending, by `str_lt`.
pub open spec fn strs_sorted(s: Seq<Seq<char>>) -> bool {
    forall|i: int, j: int| 0 <= i < j < s.len() ==> !str_lt(#[trigger] s[j], #[trigger] s[i])
}

/// Inserting an element adds it to the multiset.
pub proof fn lemma_insert_multiset<A>(s: Seq<A>, p: int, x: A)
    requires
        0 <= p <= s.len(),
    ensures
        s.insert(p, x).to_multiset() == s.to_multiset().insert(x),
{
    broadcast use vstd::seq_lib::group_to_multiset_ensures;

    let l = s.take(p);
    let r = s.skip(p);
    assert(s =~= l + r);
    assert(s.insert(p, x) =~= l.push(x) + r);
    vstd::seq_lib::lemma_multiset_commutative(l, r);
    vstd::seq_lib::lemma_multiset_commutative(l.push(x), r);
    assert(s.insert(p, x).to_multiset() =~= s.to_multiset().insert(x));
}

/// The strings of `s` in ascending order.
pub open spec fn sorted_strs(s: Seq<Seq<char>>) -> Seq<Seq<char>> {
    choose|v: Seq<Seq<char>>| v.to_multiset() == s.to_multiset() && strs_sorted(v)
}

/// Two ascending arrangements of the same strings are the same sequence.
pub proof fn lemma_sorted_unique(a: Seq<Seq<char>>, b: Seq<Seq<char>>)
    requires
        a.to_multiset() == b.to_multiset(),
        strs_sorted(a),
        strs_sorted(b),
    ensures
        a == b,
    decreases a.len(),
{
    broadcast use vstd::seq_lib::group_to_multiset_ensures;

    a.to_multiset_ensures();
    b.to_multiset_ensures();
    if a.len() == 0 {
        assert(a =~= b);
    } else {
        let x = a.last();
        let y = b.last();
        assert(a.contains(x));
        assert(b.to_multiset().count(x) > 0);
        let i = choose|i: int| 0 <= i < b.len() && b[i] == x;
        assert(b.contains(y));
        assert(a.to_multiset().count(y) > 0);
        let j = choose|j: int| 0 <= j < a.len() && a[j] == y;
        if i < b.len() - 1 {
            assert(!str_lt(b[b.len() - 1], b[i]));
        }
        if j < a.len() - 1 {
            assert(!str_lt(a[a.len() - 1], a[j]));
        }
        lemma_str_lt_order(x, y, x);
        assert(x == y);
        let a0 = a.drop_last();
        let b0 = b.drop_last();
        assert(a =~= a0.push(x));
        assert(b =~= b0.push(x));
        a0.to_multiset_ensures();
        b0.to_multiset_ensures();
        assert(a0.to_multiset() =~= b0.to_multiset()) by {
            assert(a.to_multiset() == a0.to_multiset().insert(x));
            assert(b.to_multiset() == b0.to_multiset().insert(x));
            assert forall|z: Seq<char>| a0.to_multiset().count(z) == b0.to_multiset().count(z) by {
                assert(a.to_multiset().count(z) == b.to_multiset().count(z));
                assert(a.to_multiset().count(z) == a0.to_multiset().insert(x).count(z));
                assert(b.to_multiset().count(z) == b0.to_multiset().insert(x).count(z));
            }
        }
        assert(strs_sorted(a0));
        assert(strs_sorted(b0));
        lemma_sorted_unique(a0, b0);
        assert(a =~= b);
    }
}

/// The strings of `v` in ascending order, as `slice::sort` leaves them.
pub fn sort_strings(v: Vec<String>) -> (r: Vec<String>)
    ensures
        views(r@).to_multiset() == views(v@).to_multiset(),
        strs_sorted(views(r@)),
        views(r@) == sorted_strs(views(v@)),
{
    broadcast use vstd::seq_lib::group_to_multiset_ensures;

    let mut out: Vec<String> = Vec::new();
    let mut i: usize = 0;
    while i < v.len()
        invariant
            i <= v.len(),
            views(out@).to_multiset() == views(v@.take(i as int)).to_multiset(),
            strs_sorted(views(out@)),
        decreases v.len() - i,
    {
        let s = v[i].clone();
        let mut pos: usize = 0;
        while pos < out.len() && !str_less(s.as_str(), out[pos].as_str())
            invariant
                pos <= out.len(),
                forall|k: int| 0 <= k < pos ==> !str_lt(s@, #[trigger] out@[k]@),
            decreases out.len() - pos,
        {
            pos = pos + 1;
        }
        let ghost before = views(out@);
        out.insert(pos, s);
        proof {
            let after = views(out@);
            assert(after =~= before.insert(pos as int, s@));
            assert(views(v@.take(i + 1)) =~= views(v@.take(i as int)).push(s@));
            lemma_insert_multiset(before, pos as int, s@);
            views(v@.take(i as int)).to_multiset_ensures();
            assert(views(out@).to_multiset() =~= views(v@.take(i + 1)).to_multiset());
            assert forall|a: int, b: int| 0 <= a < b < after.len() implies !str_lt(
                #[trigger] after[b],
                #[trigger] after[a],
            ) by {
                if a < pos && b == pos {
                    lemma_str_lt_order(after[b], after[a], after[a]);
                } else if a == pos && b > pos {
                    lemma_str_lt_order(before[b - 1], s@, before[pos as int]);
                }
            }
        }
        i = i + 1;
    }
    assert(v@.take(v.len() as int) =~= v@);
    proof {
        let w = sorted_strs(views(v@));
        assert(views(out@).to_multiset() == views(v@).to_multiset() && strs_sorted(views(out@)));
        lemma_sorted_unique(views(out@), w);
    }
    out
}

/// The strings of `v` with `sep` between them.
pub open spec fn joined(v: Seq<Seq<char>>, sep: Seq<char>) -> Seq<char>
    decreases v.len(),
{
    if v.len() == 0 {
        Seq::empty()
    } else if v.len() == 1 {
        v[0]
    } else {
        joined(v.drop_last(), sep) + sep + v.last()
    }
}

/// The strings of `v` with `sep` between them.
pub fn join_strs(v: &Vec<String>, sep: &str) -> (r: String)
    ensures
        r@ == joined(views(v@), sep@),
{
    let mut out = String::new();
    let mut i: usize = 0;
    while i < v.len()
        invariant
            i <= v@.len(),
            out@ == joined(views(v@).take(i as int), sep@),
        decreases v@.len() - i,
    {
        assert(views(v@).take(i + 1).drop_last() =~= views(v@).take(i as int));
        if i > 0 {
            out.append(sep);
        }
        out.append(v[i].as_str());
        i = i + 1;
        assert(out@ =~= joined(views(v@).take(i as int), sep@));
    }
    assert(views(v@).take(i as int) =~= views(v@));
    out
}

} // verus!
