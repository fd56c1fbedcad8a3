//! Sortable values and the stable sort of a list by them.

use std::cmp::Ordering;

use vstd::prelude::*;

use crate::text::{lemma_str_lt_order, lower, str_less, str_lt, to_ascii_lower};

verus! {

/// A sortable value: numbers sort before text, missing values sort last.
/// A number is held as the IEEE-754 bit pattern of an `f64` and ordered as
/// `f64::total_cmp` orders it.
#[derive(Debug, PartialEq, Eq)]
pub enum SortKey {
    Num(u64),
    Text(String),
    Missing,
}

/// Position of an `f64` bit pattern in the order of `f64::total_cmp`: negative
/// values (sign bit set) have all bits flipped, the others the sign bit set.
pub open spec fn num_rank(bits: u64) -> int {
    if bits >= 0x8000_0000_0000_0000u64 {
        0xFFFF_FFFF_FFFF_FFFFu64 - bits
    } else {
        bits + 0x8000_0000_0000_0000u64
    }
}

pub open spec fn kind_rank(k: SortKey) -> int {
    match k {
        SortKey::Num(_) => 0,
        SortKey::Text(_) => 1,
        SortKey::Missing => 2,
    }
}

/// Strictly before: numbers by `total_cmp`, text by code point, and across
/// kinds numbers < text < missing.
pub open spec fn key_lt(a: SortKey, b: SortKey) -> bool {
    match (a, b) {
        (SortKey::Num(x), SortKey::Num(y)) => num_rank(x) < num_rank(y),
        (SortKey::Text(x), SortKey::Text(y)) => str_lt(x@, y@),
        _ => kind_rank(a) < kind_rank(b),
    }
}

/// The two keys compare equal.
pub open spec fn key_same(a: SortKey, b: SortKey) -> bool {
    match (a, b) {
        (SortKey::Num(x), SortKey::Num(y)) => x == y,
        (SortKey::Text(x), SortKey::Text(y)) => x@ == y@,
        (SortKey::Missing, SortKey::Missing) => true,
        _ => false,
    }
}

/// `key_lt` is a strict weak order whose incomparable pairs are `key_same`.
pub proof fn lemma_key_order(a: SortKey, b: SortKey, c: SortKey)
    ensures
        !key_lt(a, a),
        key_same(a, a),
        key_lt(a, b) ==> !key_lt(b, a),
        key_lt(a, b) || key_lt(b, a) || key_same(a, b),
        key_same(a, b) ==> !key_lt(a, b) && !key_lt(b, a),
        key_same(a, b) ==> key_same(b, a),
        key_same(a, b) ==> (key_lt(a, c) == key_lt(b, c) && key_lt(c, a) == key_lt(c, b)),
        key_same(a, b) && key_same(b, c) ==> key_same(a, c),
        key_lt(a, b) && key_lt(b, c) ==> key_lt(a, c),
{
    match (a, b, c) {
        (SortKey::Text(x), SortKey::Text(y), SortKey::Text(z)) => {
            lemma_str_lt_order(x@, y@, z@);
            lemma_str_lt_order(y@, x@, z@);
        },
        (SortKey::Text(x), SortKey::Text(y), _) => {
            lemma_str_lt_order(x@, y@, y@);
            lemma_str_lt_order(y@, x@, x@);
        },
        (SortKey::Text(x), _, _) => {
            lemma_str_lt_order(x@, x@, x@);
        },
        _ => {},
    }
}

/// Index `i` comes strictly before index `j` in the stable order by key.
pub open spec fn idx_before(keys: Seq<SortKey>, i: int, j: int) -> bool {
    key_lt(keys[i], keys[j]) || (key_same(keys[i], keys[j]) && i < j)
}

pub proof fn lemma_idx_order(keys: Seq<SortKey>, i: int, j: int, k: int)
    ensures
        !idx_before(keys, i, i),
        i != j ==> idx_before(keys, i, j) || idx_before(keys, j, i),
        idx_before(keys, i, j) ==> !idx_before(keys, j, i),
        idx_before(keys, i, j) && idx_before(keys, j, k) ==> idx_before(keys, i, k),
{
    lemma_key_order(keys[i], keys[j], keys[k]);
    lemma_key_order(keys[j], keys[i], keys[k]);
    lemma_key_order(keys[i], keys[k], keys[j]);
    lemma_key_order(keys[j], keys[k], keys[i]);
    lemma_key_order(keys[k], keys[i], keys[j]);
}

fn num_rank_exec(bits: u64) -> (r: u64)
    ensures
        r == num_rank(bits),
{
    if bits >= 0x8000_0000_0000_0000u64 {
        0xFFFF_FFFF_FFFF_FFFFu64 - bits
    } else {
        bits + 0x8000_0000_0000_0000u64
    }
}

pub(crate) fn kind_rank_exec(k: &SortKey) -> (r: u8)
    ensures
        r == kind_rank(*k),
{
    match k {
        SortKey::Num(_) => 0,
        SortKey::Text(_) => 1,
        SortKey::Missing => 2,
    }
}

impl SortKey {
    /// Whether `self` sorts strictly before `other`.
    pub fn less(&self, other: &SortKey) -> (r: bool)
        ensures
            r == key_lt(*self, *other),
    {
        match (self, other) {
            (SortKey::Num(x), SortKey::Num(y)) => num_rank_exec(*x) < num_rank_exec(*y),
            (SortKey::Text(x), SortKey::Text(y)) => str_less(x.as_str(), y.as_str()),
            _ => kind_rank_exec(self) < kind_rank_exec(other),
        }
    }

    /// Three-way comparison in the order of `less`.
    pub fn compare(&self, other: &SortKey) -> (r: Ordering)
        ensures
            r == Ordering::Less <==> key_lt(*self, *other),
            r == Ordering::Greater <==> key_lt(*other, *self),
            r == Ordering::Equal <==> key_same(*self, *other),
    {
        proof {
            lemma_key_order(*self, *other, *other);
        }
        if self.less(other) {
            Ordering::Less
        } else if other.less(self) {
            Ordering::Greater
        } else {
            Ordering::Equal
        }
    }

    /// The key of a text value: compared case-insensitively (ASCII).
    pub fn text(s: &str) -> (r: SortKey)
        ensures
            r matches SortKey::Text(t) && t@ == lower(s@),
    {
        SortKey::Text(to_ascii_lower(s))
    }
}

/// Index `a` of `keys` comes before index `b` in the stable order by key.
fn idx_before_exec(keys: &Vec<SortKey>, a: usize, b: usize) -> (r: bool)
    requires
        a < keys.len(),
        b < keys.len(),
    ensures
        r == idx_before(keys@, a as int, b as int),
{
    if keys[a].less(&keys[b]) {
        true
    } else if keys[b].less(&keys[a]) {
        false
    } else {
        proof {
            lemma_key_order(keys@[a as int], keys@[b as int], keys@[b as int]);
        }
        a < b
    }
}

/// Along a list in the stable order by key, the kinds never go down:
/// numbers, then text, then missing values.
pub proof fn lemma_kind_monotone(keys: Seq<SortKey>, p: Seq<usize>, i: int, j: int)
    requires
        idx_sorted(keys, p),
        0 <= i < j < p.len(),
    ensures
        kind_rank(keys[p[i] as int]) <= kind_rank(keys[p[j] as int]),
{
    assert(!idx_before(keys, p[j] as int, p[i] as int));
}

/// Every element is an index into `keys`.
pub open spec fn all_below(v: Seq<usize>, n: int) -> bool {
    forall|i: int| 0 <= i < v.len() ==> #[trigger] v[i] < n
}

/// Ascending in the stable order by key.
pub open spec fn idx_sorted(keys: Seq<SortKey>, v: Seq<usize>) -> bool {
    forall|i: int, j: int|
        0 <= i < j < v.len() ==> !idx_before(keys, #[trigger] v[j] as int, #[trigger] v[i] as int)
}

proof fn lemma_all_below_ms(a: Seq<usize>, b: Seq<usize>, n: int)
    requires
        all_below(a, n),
        a.to_multiset() == b.to_multiset(),
    ensures
        all_below(b, n),
{
    broadcast use vstd::seq_lib::group_to_multiset_ensures;

    assert forall|i: int| 0 <= i < b.len() implies #[trigger] b[i] < n by {
        assert(b.contains(b[i]));
        assert(a.to_multiset().count(b[i]) > 0);
        assert(a.contains(b[i]));
    }
}

/// Merge two ascending lists.
fn merge_idx(keys: &Vec<SortKey>, l: Vec<usize>, r: Vec<usize>) -> (out: Vec<usize>)
    requires
        all_below(l@, keys.len() as int),
        all_below(r@, keys.len() as int),
        idx_sorted(keys@, l@),
        idx_sorted(keys@, r@),
    ensures
        out@.to_multiset() == l@.to_multiset().add(r@.to_multiset()),
        idx_sorted(keys@, out@),
{
    broadcast use vstd::seq_lib::group_to_multiset_ensures;

    let mut out: Vec<usize> = Vec::new();
    let mut i: usize = 0;
    let mut j: usize = 0;
    while i < l.len() || j < r.len()
        invariant
            i <= l.len(),
            j <= r.len(),
            all_below(l@, keys.len() as int),
            all_below(r@, keys.len() as int),
            idx_sorted(keys@, l@),
            idx_sorted(keys@, r@),
            out@.len() == i + j,
            out@.to_multiset() == l@.take(i as int).to_multiset().add(r@.take(j as int).to_multiset()),
            idx_sorted(keys@, out@),
            all_below(out@, keys.len() as int),
            out@.len() > 0 && i < l.len() ==> !idx_before(keys@, l@[i as int] as int, out@.last() as int),
            out@.len() > 0 && j < r.len() ==> !idx_before(keys@, r@[j as int] as int, out@.last() as int),
        decreases l.len() + r.len() - i - j,
    {
        let take_left = if i >= l.len() {
            false
        } else if j >= r.len() {
            true
        } else {
            !idx_before_exec(keys, r[j], l[i])
        };
        let ghost old_out = out@;
        if take_left {
            let x = l[i];
            out.push(x);
            proof {
                assert(l@.take(i + 1) =~= l@.take(i as int).push(x));
                old_out.to_multiset_ensures();
                l@.take(i as int).to_multiset_ensures();
                assert(out@ == old_out.push(x));
                assert(out@.to_multiset() =~= l@.take(i + 1).to_multiset().add(
                    r@.take(j as int).to_multiset(),
                ));
                assert forall|a: int, b: int| 0 <= a < b < out@.len() implies !idx_before(
                    keys@,
                    #[trigger] out@[b] as int,
                    #[trigger] out@[a] as int,
                ) by {
                    if b == out@.len() - 1 {
                        lemma_idx_order(keys@, x as int, out@[a] as int, old_out.last() as int);
                        lemma_idx_order(keys@, out@[a] as int, old_out.last() as int, x as int);
                        lemma_idx_order(keys@, x as int, x as int, x as int);
                    } else {
                        assert(out@[a] == old_out[a] && out@[b] == old_out[b]);
                    }
                }
                if i + 1 < l.len() {
                    assert(!idx_before(keys@, l@[i + 1] as int, l@[i as int] as int));
                }
                if j < r.len() {
                    lemma_idx_order(keys@, r@[j as int] as int, x as int, x as int);
                }
            }
            i = i + 1;
        } else {
            let x = r[j];
            out.push(x);
            proof {
                assert(r@.take(j + 1) =~= r@.take(j as int).push(x));
                old_out.to_multiset_ensures();
                r@.take(j as int).to_multiset_ensures();
                assert(out@ == old_out.push(x));
                assert(out@.to_multiset() =~= l@.take(i as int).to_multiset().add(
                    r@.take(j + 1).to_multiset(),
                ));
                assert forall|a: int, b: int| 0 <= a < b < out@.len() implies !idx_before(
                    keys@,
                    #[trigger] out@[b] as int,
                    #[trigger] out@[a] as int,
                ) by {
                    if b == out@.len() - 1 {
                        lemma_idx_order(keys@, x as int, out@[a] as int, old_out.last() as int);
                        lemma_idx_order(keys@, out@[a] as int, old_out.last() as int, x as int);
                        lemma_idx_order(keys@, x as int, x as int, x as int);
                    } else {
                        assert(out@[a] == old_out[a] && out@[b] == old_out[b]);
                    }
                }
                if j + 1 < r.len() {
                    assert(!idx_before(keys@, r@[j + 1] as int, r@[j as int] as int));
                }
                if i < l.len() {
                    lemma_idx_order(keys@, l@[i as int] as int, x as int, x as int);
                }
            }
            j = j + 1;
        }
    }
    assert(l@.take(l.len() as int) =~= l@);
    assert(r@.take(r.len() as int) =~= r@);
    out
}

/// `v` sorted by the stable order of `keys`: by key, and by position among
/// equal keys.
fn merge_sort_idx(keys: &Vec<SortKey>, v: Vec<usize>) -> (out: Vec<usize>)
    requires
        all_below(v@, keys.len() as int),
    ensures
        out@.to_multiset() == v@.to_multiset(),
        idx_sorted(keys@, out@),
        all_below(out@, keys.len() as int),
    decreases v.len(),
{
    broadcast use vstd::seq_lib::group_to_multiset_ensures;

    if v.len() <= 1 {
        return v;
    }
    let mut left = v;
    let ghost whole = left@;
    let mid = left.len() / 2;
    let right = left.split_off(mid);
    proof {
        assert(whole =~= left@ + right@);
        vstd::seq_lib::lemma_multiset_commutative(left@, right@);
    }
    let ls = merge_sort_idx(keys, left);
    let rs = merge_sort_idx(keys, right);
    let out = merge_idx(keys, ls, rs);
    proof {
        lemma_all_below_ms(whole, out@, keys.len() as int);
    }
    out
}

/// The positions `0..n` where `n` is the number of keys, in the stable order
/// by key: position `p` holds the index that a stable ascending sort puts at
/// `p`.
pub fn stable_order(keys: &Vec<SortKey>) -> (out: Vec<usize>)
    ensures
        out@.len() == keys.len(),
        all_below(out@, keys.len() as int),
        out@.no_duplicates(),
        idx_sorted(keys@, out@),
{
    let mut v: Vec<usize> = Vec::new();
    let mut i: usize = 0;
    while i < keys.len()
        invariant
            i <= keys.len(),
            v@.len() == i,
            forall|k: int| 0 <= k < i ==> v@[k] == k,
        decreases keys.len() - i,
    {
        v.push(i);
        i = i + 1;
    }
    let ghost start = v@;
    let out = merge_sort_idx(keys, v);
    proof {
        start.to_multiset_ensures();
        out@.to_multiset_ensures();
        assert forall|a: int, b: int| 0 <= a < b < out@.len() implies out@[a] != out@[b] by {
            lemma_idx_order(keys@, out@[a] as int, out@[a] as int, out@[a] as int);
            if out@[a] == out@[b] {
                // two equal entries would need the value twice in 0..n
                assert(start.to_multiset().count(out@[a]) >= 2) by {
                    lemma_count_two(out@, a, b);
                }
                lemma_distinct_count(start, out@[a]);
            }
        }
    }
    out
}

proof fn lemma_count_two(s: Seq<usize>, a: int, b: int)
    requires
        0 <= a < b < s.len(),
        s[a] == s[b],
    ensures
        s.to_multiset().count(s[a]) >= 2,
{
    broadcast use vstd::seq_lib::group_to_multiset_ensures;

    let x = s[a];
    let t = s.remove(b);
    assert(t[a] == x);
    assert(t.contains(x));
    assert(t.to_multiset().count(x) >= 1);
    assert(s.to_multiset().count(x) == t.to_multiset().count(x) + 1);
}

proof fn lemma_distinct_count(s: Seq<usize>, x: usize)
    requires
        forall|k: int| 0 <= k < s.len() ==> s[k] == k,
    ensures
        s.to_multiset().count(x) <= 1,
    decreases s.len(),
{
    broadcast use vstd::seq_lib::group_to_multiset_ensures;

    if s.len() > 0 {
        let t = s.drop_last();
        lemma_distinct_count(t, x);
        assert(s =~= t.push(s.last()));
        if x == s.last() {
            assert(!t.contains(x)) by {
                if t.contains(x) {
                    let k = choose|k: int| 0 <= k < t.len() && t[k] == x;
                    assert(t[k] == k);
                }
            }
        }
    }
}

} // verus!
