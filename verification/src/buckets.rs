//! Bucket configuration: where images get moved and by which hotkey.
//!
//! Zero config is a single built-in "reject" bucket bound to Delete, plus any
//! `_name/` folders already in the scan root. An optional `.winnow.toml` in the
//! scan root adds category buckets; once it exists it is authoritative.

use vstd::prelude::*;

use crate::paths::{file_name_of, join, path_file_name, path_join};
use crate::text::{
    concat, decimal, digit_char, eq_ignore_ascii_case, eq_ignore_case, lower, sort_strings,
    sorted_strs, str_eq, to_ascii_lower, usize_to_decimal, views,
};

verus! {

/// File name of the bucket configuration in the scan root.
pub const CONFIG_NAME: &'static str = ".winnow.toml";

#[derive(Debug, PartialEq, Eq)]
pub struct Bucket {
    pub name: String,
    /// GDK key name, e.g. "Delete", "1", "c"; empty for no hotkey.
    pub key: String,
    /// Folder relative to root (or absolute).
    pub folder: String,
    pub is_reject: bool,
}

impl Bucket {
    /// A copy of this bucket.
    pub fn duplicate(&self) -> (r: Bucket)
        ensures
            r == *self,
    {
        Bucket {
            name: self.name.clone(),
            key: self.key.clone(),
            folder: self.folder.clone(),
            is_reject: self.is_reject,
        }
    }

    /// The folder images of this bucket go to: `folder` itself when absolute,
    /// else under `root`.
    pub fn target_dir(&self, root: &str) -> (r: String)
        ensures
            r@ == join(root@, self.folder@),
    {
        path_join(root, self.folder.as_str())
    }
}

/// The built-in reject bucket: "reject", bound to Delete, folder `_rejected`.
pub fn default_reject() -> (b: Bucket)
    ensures
        b.name@ == "reject"@,
        b.key@ == "Delete"@,
        b.folder@ == "_rejected"@,
        b.is_reject,
{
    Bucket {
        name: String::from_str("reject"),
        key: String::from_str("Delete"),
        folder: String::from_str("_rejected"),
        is_reject: true,
    }
}

/// Where the bucket config lives: the explicit path, else `root/.winnow.toml`.
pub fn config_file(root: &str, config_path: Option<&str>) -> (r: String)
    ensures
        config_path matches Some(p) ==> r@ == p@,
        config_path is None ==> r@ == join(root@, CONFIG_NAME@),
{
    match config_path {
        Some(p) => String::from_str(p),
        None => path_join(root, CONFIG_NAME),
    }
}

/// Some bucket has hotkey `k`, ignoring ASCII case.
pub open spec fn key_taken(bs: Seq<(Seq<char>, Seq<char>, Seq<char>, bool)>, k: Seq<char>) -> bool {
    exists|i: int| 0 <= i < bs.len() && eq_ignore_case(#[trigger] bs[i].1, k)
}

/// The one-digit hotkey `d`.
pub open spec fn digit_key(d: nat) -> Seq<char> {
    seq![digit_char(d)]
}

/// First digit hotkey from `d` to 9 that no bucket uses, or empty.
pub open spec fn first_free_from(bs: Seq<(Seq<char>, Seq<char>, Seq<char>, bool)>, d: nat) -> Seq<char>
    decreases 10 - d,
{
    if d > 9 {
        Seq::empty()
    } else if !key_taken(bs, digit_key(d)) {
        digit_key(d)
    } else {
        first_free_from(bs, d + 1)
    }
}

/// First unused digit hotkey 1–9, or empty when all are taken.
pub open spec fn free_key(bs: Seq<(Seq<char>, Seq<char>, Seq<char>, bool)>) -> Seq<char> {
    first_free_from(bs, 1)
}

proof fn lemma_first_free_from(bs: Seq<(Seq<char>, Seq<char>, Seq<char>, bool)>, d: nat)
    requires
        d >= 1,
    ensures
        first_free_from(bs, d).len() > 0 ==> exists|e: nat|
            d <= e <= 9 && first_free_from(bs, d) == #[trigger] digit_key(e) && !key_taken(
                bs,
                digit_key(e),
            ),
        first_free_from(bs, d).len() == 0 ==> forall|e: nat|
            d <= e <= 9 ==> key_taken(bs, #[trigger] digit_key(e)),
    decreases 10 - d,
{
    if d <= 9 {
        if key_taken(bs, digit_key(d)) {
            lemma_first_free_from(bs, d + 1);
            assert forall|e: nat| d <= e <= 9 && first_free_from(bs, d).len() == 0 implies key_taken(
                bs,
                #[trigger] digit_key(e),
            ) by {
                if e > d {
                    assert(d + 1 <= e);
                }
            }
        } else {
            assert(digit_key(d).len() == 1);
        }
    }
}

/// The hotkey handed to a new bucket is free: when it is not empty it is a
/// digit from 1 to 9 that no bucket uses (ignoring ASCII case); it is empty
/// only when every digit from 1 to 9 is taken.
pub proof fn law_free_key_unused(bs: Seq<(Seq<char>, Seq<char>, Seq<char>, bool)>)
    ensures
        free_key(bs).len() > 0 ==> !key_taken(bs, free_key(bs)) && exists|d: nat|
            1 <= d <= 9 && free_key(bs) == #[trigger] digit_key(d),
        free_key(bs).len() == 0 ==> forall|d: nat| 1 <= d <= 9 ==> key_taken(bs, #[trigger] digit_key(d)),
{
    lemma_first_free_from(bs, 1);
}

/// Whether some bucket uses hotkey `k` (ignoring ASCII case).
pub fn is_key_taken(buckets: &[Bucket], k: &str) -> (r: bool)
    ensures
        r == key_taken(bucket_views(buckets@), k@),
{
    let mut i: usize = 0;
    while i < buckets.len()
        invariant
            i <= buckets.len(),
            forall|j: int| 0 <= j < i ==> !eq_ignore_case(#[trigger] bucket_views(buckets@)[j].1, k@),
        decreases buckets.len() - i,
    {
        assert(bucket_views(buckets@)[i as int].1 == buckets@[i as int].key@);
        if eq_ignore_ascii_case(buckets[i].key.as_str(), k) {
            return true;
        }
        i = i + 1;
    }
    false
}

/// First unused digit hotkey 1–9, or "" (no hotkey) when all are taken.
pub fn next_free_key(buckets: &[Bucket]) -> (r: String)
    ensures
        r@ == free_key(bucket_views(buckets@)),
{
    let mut d: usize = 1;
    while d <= 9
        invariant
            1 <= d <= 10,
            free_key(bucket_views(buckets@)) == first_free_from(bucket_views(buckets@), d as nat),
        decreases 10 - d,
    {
        let k = usize_to_decimal(d);
        assert(k@ == digit_key(d as nat)) by {
            assert(decimal(d as nat) =~= digit_key(d as nat));
        }
        if !is_key_taken(buckets, k.as_str()) {
            return k;
        }
        d = d + 1;
    }
    String::new()
}

/// The characters of a bucket: name, key, folder, and whether it is the
/// reject bucket.
pub open spec fn bucket_view(b: Bucket) -> (Seq<char>, Seq<char>, Seq<char>, bool) {
    (b.name@, b.key@, b.folder@, b.is_reject)
}

pub open spec fn bucket_views(bs: Seq<Bucket>) -> Seq<(Seq<char>, Seq<char>, Seq<char>, bool)> {
    bs.map_values(|b: Bucket| bucket_view(b))
}

#[derive(Debug)]
pub enum BucketError {
    Toml(String),
    DuplicateKey(String),
}

/// The sentence that describes an error.
pub open spec fn bucket_error_text(e: BucketError) -> Seq<char> {
    match e {
        BucketError::Toml(e) => "invalid .winnow.toml: "@ + e@,
        BucketError::DuplicateKey(k) => "bucket reuses hotkey '"@ + k@ + "'"@,
    }
}

impl BucketError {
    /// The error as a sentence.
    pub fn message(&self) -> (r: String)
        ensures
            r@ == bucket_error_text(*self),
    {
        match self {
            BucketError::Toml(e) => concat("invalid .winnow.toml: ", e.as_str()),
            BucketError::DuplicateKey(k) => {
                let a = concat("bucket reuses hotkey '", k.as_str());
                concat(a.as_str(), "'")
            },
        }
    }
}

/// The `[reject]` table of a config file; absent fields take the defaults.
pub struct RawReject {
    pub name: Option<String>,
    pub key: Option<String>,
    pub folder: Option<String>,
}

/// One `[[bucket]]` table of a config file; the folder defaults to `_name`.
pub struct RawBucket {
    pub name: String,
    pub key: String,
    pub folder: Option<String>,
}

/// The contents of a config file.
pub struct RawConfig {
    pub reject: Option<RawReject>,
    pub bucket: Vec<RawBucket>,
}

pub open spec fn opt_or(o: Option<String>, d: Seq<char>) -> Seq<char> {
    match o {
        Some(s) => s@,
        None => d,
    }
}

/// The reject bucket a config gives.
pub open spec fn reject_view(r: Option<RawReject>) -> (Seq<char>, Seq<char>, Seq<char>, bool) {
    match r {
        Some(r) => (
            opt_or(r.name, "reject"@),
            opt_or(r.key, "Delete"@),
            opt_or(r.folder, "_rejected"@),
            true,
        ),
        None => ("reject"@, "Delete"@, "_rejected"@, true),
    }
}

/// The category bucket a `[[bucket]]` table gives.
pub open spec fn raw_bucket_view(b: RawBucket) -> (Seq<char>, Seq<char>, Seq<char>, bool) {
    (b.name@, b.key@, opt_or(b.folder, seq!['_'] + b.name@), false)
}

/// Bucket `i` reuses a hotkey: its key is not empty and, ignoring ASCII
/// case, equals the reject key or an earlier bucket's.
pub open spec fn reuses_key(rk: Seq<char>, bs: Seq<RawBucket>, i: int) -> bool {
    &&& lower(bs[i].key@).len() > 0
    &&& (lower(bs[i].key@) == lower(rk) || exists|j: int|
        0 <= j < i && lower(#[trigger] bs[j].key@) == lower(bs[i].key@))
}

/// The first bucket among the first `n` that reuses a hotkey.
pub open spec fn first_reuse(rk: Seq<char>, bs: Seq<RawBucket>, n: int) -> Option<int>
    decreases n,
{
    if n <= 0 {
        None
    } else if first_reuse(rk, bs, n - 1) is Some {
        first_reuse(rk, bs, n - 1)
    } else if reuses_key(rk, bs, n - 1) {
        Some(n - 1)
    } else {
        None
    }
}

/// What a config resolves to: the reject bucket first, then the category
/// buckets in file order; or the key of the first bucket that reuses a hotkey.
pub open spec fn resolve_config(reject: Option<RawReject>, bs: Seq<RawBucket>) -> Result<
    Seq<(Seq<char>, Seq<char>, Seq<char>, bool)>,
    Seq<char>,
> {
    match first_reuse(reject_view(reject).1, bs, bs.len() as int) {
        Some(i) => Err(bs[i].key@),
        None => Ok(seq![reject_view(reject)] + bs.map_values(|b: RawBucket| raw_bucket_view(b))),
    }
}

fn or_default(o: &Option<String>, d: &str) -> (r: String)
    ensures
        r@ == opt_or(*o, d@),
{
    match o {
        Some(s) => s.clone(),
        None => String::from_str(d),
    }
}

/// The ordered bucket list of a config: reject first, then the category
/// buckets; an error when a bucket reuses a hotkey (empty keys may repeat).
pub fn buckets_from_config(raw: &RawConfig) -> (r: Result<Vec<Bucket>, BucketError>)
    ensures
        match r {
            Ok(v) => resolve_config(raw.reject, raw.bucket@) == Ok::<
                Seq<(Seq<char>, Seq<char>, Seq<char>, bool)>,
                Seq<char>,
            >(bucket_views(v@)),
            Err(BucketError::DuplicateKey(k)) => resolve_config(raw.reject, raw.bucket@) == Err::<
                Seq<(Seq<char>, Seq<char>, Seq<char>, bool)>,
                Seq<char>,
            >(k@),
            Err(BucketError::Toml(_)) => false,
        },
{
    let reject = match &raw.reject {
        Some(r) => Bucket {
            name: or_default(&r.name, "reject"),
            key: or_default(&r.key, "Delete"),
            folder: or_default(&r.folder, "_rejected"),
            is_reject: true,
        },
        None => default_reject(),
    };
    let ghost rk = reject_view(raw.reject).1;
    assert(reject.key@ == rk);
    let mut seen: Vec<String> = Vec::new();
    seen.push(to_ascii_lower(reject.key.as_str()));
    let mut buckets: Vec<Bucket> = Vec::new();
    buckets.push(reject);
    let ghost bs = raw.bucket@;
    let mut i: usize = 0;
    while i < raw.bucket.len()
        invariant
            i <= bs.len(),
            bs == raw.bucket@,
            rk == reject_view(raw.reject).1,
            first_reuse(rk, bs, i as int) is None,
            views(seen@).len() == i + 1,
            views(seen@)[0] == lower(rk),
            forall|j: int| 1 <= j <= i ==> #[trigger] views(seen@)[j] == lower(bs[j - 1].key@),
            bucket_views(buckets@) == seq![reject_view(raw.reject)] + bs.take(i as int).map_values(
                |b: RawBucket| raw_bucket_view(b),
            ),
        decreases bs.len() - i,
    {
        let b = &raw.bucket[i];
        let key_l = to_ascii_lower(b.key.as_str());
        if !key_l.as_str().is_empty() {
            let mut s: usize = 0;
            while s < seen.len()
                invariant
                    s <= seen@.len(),
                    i < bs.len(),
                    first_reuse(rk, bs, i as int) is None,
                    rk == reject_view(raw.reject).1,
                    *b == bs[i as int],
                    bs == raw.bucket@,
                    key_l@ == lower(bs[i as int].key@),
                    lower(bs[i as int].key@).len() > 0,
                    views(seen@)[0] == lower(rk),
                    forall|j: int| 1 <= j <= i ==> #[trigger] views(seen@)[j] == lower(bs[j - 1].key@),
                    views(seen@).len() == i + 1,
                    forall|t: int| 0 <= t < s ==> #[trigger] views(seen@)[t] != key_l@,
                decreases seen@.len() - s,
            {
                if str_eq(seen[s].as_str(), key_l.as_str()) {
                    proof {
                        assert(views(seen@)[s as int] == key_l@);
                        if s > 0 {
                            assert(lower(bs[s - 1].key@) == lower(bs[i as int].key@));
                        }
                        assert(reuses_key(rk, bs, i as int));
                        assert(first_reuse(rk, bs, i as int + 1) == Some(i as int));
                        lemma_first_reuse_prefix(rk, bs, i as int + 1);
                        assert(resolve_config(raw.reject, raw.bucket@) == Err::<
                            Seq<(Seq<char>, Seq<char>, Seq<char>, bool)>,
                            Seq<char>,
                        >(bs[i as int].key@));
                    }
                    let k = b.key.clone();
                    assert(k@ == bs[i as int].key@);
                    return Err(BucketError::DuplicateKey(k));
                }
                s = s + 1;
            }
            proof {
                assert forall|j: int| 0 <= j < i implies lower(#[trigger] bs[j].key@) != lower(bs[i as int].key@) by {
                    assert(views(seen@)[j + 1] != key_l@);
                    assert(views(seen@)[j + 1] == lower(bs[j].key@));
                }
                assert(views(seen@)[0] != key_l@);
                assert(!reuses_key(rk, bs, i as int));
            }
        }
        let ghost before_seen = views(seen@);
        seen.push(key_l);
        assert(views(seen@) =~= before_seen.push(lower(bs[i as int].key@)));
        let folder = match &b.folder {
            Some(f) => f.clone(),
            None => {
                let mut f = String::new();
                f.push('_');
                f.append(b.name.as_str());
                f
            },
        };
        let ghost before = bucket_views(buckets@);
        buckets.push(Bucket { name: b.name.clone(), key: b.key.clone(), folder, is_reject: false });
        proof {
            assert(bucket_views(buckets@) =~= before.push(raw_bucket_view(bs[i as int])));
            assert(bs.take(i + 1).map_values(|b: RawBucket| raw_bucket_view(b)) =~= bs.take(
                i as int,
            ).map_values(|b: RawBucket| raw_bucket_view(b)).push(raw_bucket_view(bs[i as int])));
        }
        i = i + 1;
    }
    assert(bs.take(i as int) =~= bs);
    Ok(buckets)
}

proof fn lemma_first_reuse_prefix(rk: Seq<char>, bs: Seq<RawBucket>, k: int)
    requires
        0 <= k <= bs.len(),
        first_reuse(rk, bs, k) is Some,
    ensures
        first_reuse(rk, bs, bs.len() as int) == first_reuse(rk, bs, k),
    decreases bs.len() - k,
{
    if k < bs.len() {
        lemma_first_reuse_prefix(rk, bs, k + 1);
    }
}

/// No two buckets share a non-empty hotkey, ignoring ASCII case.
pub open spec fn hotkeys_distinct(bs: Seq<Bucket>) -> bool {
    forall|i: int, j: int|
        0 <= i < j < bs.len() && lower(bs[j].key@).len() > 0 ==> lower(#[trigger] bs[i].key@)
            != lower(#[trigger] bs[j].key@)
}

/// The `[reject]` table that a saved config holds for `b`.
pub open spec fn saved_reject(b: Bucket) -> RawReject {
    RawReject { name: Some(b.name), key: Some(b.key), folder: Some(b.folder) }
}

/// The `[[bucket]]` table that a saved config holds for `b`.
pub open spec fn saved_bucket(b: Bucket) -> RawBucket {
    RawBucket { name: b.name, key: b.key, folder: Some(b.folder) }
}

/// The tables that a saved config holds for the category buckets of `bs`.
pub open spec fn saved_buckets(bs: Seq<Bucket>) -> Seq<RawBucket> {
    bs.skip(1).map_values(|b: Bucket| saved_bucket(b))
}

/// A bucket list comes back unchanged from the tables it is saved as: when
/// the reject bucket comes first, no other bucket is a reject bucket and no
/// two buckets share a non-empty hotkey, the config written for the list
/// resolves to that same list.
pub proof fn law_saved_config_resolves(bs: Seq<Bucket>)
    requires
        bs.len() >= 1,
        bs[0].is_reject,
        forall|i: int| 1 <= i < bs.len() ==> !(#[trigger] bs[i]).is_reject,
        hotkeys_distinct(bs),
    ensures
        resolve_config(Some(saved_reject(bs[0])), saved_buckets(bs)) == Ok::<
            Seq<(Seq<char>, Seq<char>, Seq<char>, bool)>,
            Seq<char>,
        >(bucket_views(bs)),
{
    let raw = saved_buckets(bs);
    let rk = reject_view(Some(saved_reject(bs[0]))).1;
    assert(rk == bs[0].key@);
    assert forall|n: int| 0 <= n <= raw.len() implies first_reuse(rk, raw, n) is None by {
        lemma_no_reuse(bs, n);
    }
    assert(seq![reject_view(Some(saved_reject(bs[0])))] + raw.map_values(
        |b: RawBucket| raw_bucket_view(b),
    ) =~= bucket_views(bs));
}

proof fn lemma_no_reuse(bs: Seq<Bucket>, n: int)
    requires
        bs.len() >= 1,
        hotkeys_distinct(bs),
        0 <= n <= bs.len() - 1,
    ensures
        first_reuse(bs[0].key@, saved_buckets(bs), n) is None,
    decreases n,
{
    let raw = saved_buckets(bs);
    if n > 0 {
        lemma_no_reuse(bs, n - 1);
        let i = n - 1;
        assert(raw[i].key@ == bs[i + 1].key@);
        if reuses_key(bs[0].key@, raw, i) {
            if lower(raw[i].key@) == lower(bs[0].key@) {
                assert(lower(bs[0].key@) != lower(bs[i + 1].key@));
            } else {
                let j = choose|j: int| 0 <= j < i && lower(#[trigger] raw[j].key@) == lower(raw[i].key@);
                assert(raw[j].key@ == bs[j + 1].key@);
                assert(lower(bs[j + 1].key@) != lower(bs[i + 1].key@));
            }
        }
    }
}

/// A folder name that marks a bucket: `_` followed by at least one more
/// character.
pub open spec fn is_bucket_folder_name(n: Seq<char>) -> bool {
    n.len() >= 2 && n[0] == '_'
}

/// The names among `ns` that mark a bucket, in order.
pub open spec fn bucket_folder_candidates(ns: Seq<Seq<char>>) -> Seq<Seq<char>>
    decreases ns.len(),
{
    if ns.len() == 0 {
        Seq::empty()
    } else if is_bucket_folder_name(ns.last()) {
        bucket_folder_candidates(ns.drop_last()).push(ns.last())
    } else {
        bucket_folder_candidates(ns.drop_last())
    }
}

/// Every name among the candidates marks a bucket.
proof fn lemma_candidates_mark(ns: Seq<Seq<char>>)
    ensures
        forall|q: int|
            0 <= q < bucket_folder_candidates(ns).len() ==> is_bucket_folder_name(
                #[trigger] bucket_folder_candidates(ns)[q],
            ),
    decreases ns.len(),
{
    if ns.len() > 0 {
        let prev = bucket_folder_candidates(ns.drop_last());
        lemma_candidates_mark(ns.drop_last());
        assert forall|q: int|
            0 <= q < bucket_folder_candidates(ns).len() implies is_bucket_folder_name(
            #[trigger] bucket_folder_candidates(ns)[q],
        ) by {
            if q < prev.len() {
                assert(bucket_folder_candidates(ns)[q] == prev[q]);
            }
        }
    }
}

/// An element of a reordering of the candidates marks a bucket.
proof fn lemma_reordered_candidate(fs: Seq<Seq<char>>, ns: Seq<Seq<char>>, k: int)
    requires
        fs.to_multiset() == bucket_folder_candidates(ns).to_multiset(),
        0 <= k < fs.len(),
    ensures
        is_bucket_folder_name(fs[k]),
{
    broadcast use vstd::seq_lib::group_to_multiset_ensures;

    lemma_candidates_mark(ns);
    assert(fs.contains(fs[k]));
    assert(bucket_folder_candidates(ns).to_multiset().count(fs[k]) > 0);
    let q = choose|q: int| 0 <= q < bucket_folder_candidates(ns).len() && bucket_folder_candidates(ns)[q] == fs[k];
    assert(is_bucket_folder_name(bucket_folder_candidates(ns)[q]));
}

/// The buckets after taking in the folders `fs` in order: a folder no bucket
/// uses yet becomes a bucket named after it (without the `_`) with the next
/// free digit hotkey.
pub open spec fn discover_fold(
    bs: Seq<(Seq<char>, Seq<char>, Seq<char>, bool)>,
    fs: Seq<Seq<char>>,
) -> Seq<(Seq<char>, Seq<char>, Seq<char>, bool)>
    decreases fs.len(),
{
    if fs.len() == 0 {
        bs
    } else {
        let t = discover_fold(bs, fs.drop_last());
        let f = fs.last();
        if exists|i: int| 0 <= i < t.len() && (#[trigger] t[i]).2 == f {
            t
        } else {
            t.push((f.skip(1), free_key(t), f, false))
        }
    }
}

/// Discovery keeps the buckets it starts from, in place; afterwards every
/// discovered folder is some bucket's folder, and each bucket it added is a
/// category bucket named after its folder without the leading `_`.
pub proof fn law_discovery_covers_folders(
    bs: Seq<(Seq<char>, Seq<char>, Seq<char>, bool)>,
    fs: Seq<Seq<char>>,
)
    ensures
        discover_fold(bs, fs).len() >= bs.len(),
        discover_fold(bs, fs).take(bs.len() as int) == bs,
        forall|i: int|
            0 <= i < fs.len() ==> exists|j: int|
                0 <= j < discover_fold(bs, fs).len() && (#[trigger] discover_fold(bs, fs)[j]).2
                    == #[trigger] fs[i],
        forall|j: int|
            bs.len() <= j < discover_fold(bs, fs).len() ==> !(#[trigger] discover_fold(bs, fs)[j]).3
                && discover_fold(bs, fs)[j].0 == discover_fold(bs, fs)[j].2.skip(1),
    decreases fs.len(),
{
    if fs.len() > 0 {
        let t = discover_fold(bs, fs.drop_last());
        let r = discover_fold(bs, fs);
        law_discovery_covers_folders(bs, fs.drop_last());
        assert(r.take(t.len() as int) =~= t);
        assert(r.take(bs.len() as int) =~= bs) by {
            assert(t.take(bs.len() as int) =~= bs);
        }
        assert forall|i: int| 0 <= i < fs.len() implies exists|j: int|
            0 <= j < r.len() && (#[trigger] r[j]).2 == #[trigger] fs[i] by {
            if i < fs.len() - 1 {
                assert(fs[i] == fs.drop_last()[i]);
                let j = choose|j: int| 0 <= j < t.len() && (#[trigger] t[j]).2 == fs.drop_last()[i];
                assert(r[j] == t[j]);
            } else {
                let f = fs.last();
                if exists|j: int| 0 <= j < t.len() && (#[trigger] t[j]).2 == f {
                    let j = choose|j: int| 0 <= j < t.len() && (#[trigger] t[j]).2 == f;
                    assert(r[j] == t[j]);
                } else {
                    assert(r[t.len() as int].2 == f);
                }
            }
        }
        assert forall|j: int| bs.len() <= j < r.len() implies !(#[trigger] r[j]).3 && r[j].0 == r[j].2.skip(
            1,
        ) by {
            if j < t.len() {
                assert(r[j] == t[j]);
            }
        }
    }
}

/// Whether `name` marks a bucket folder.
fn marks_bucket(name: &str) -> (r: bool)
    ensures
        r == is_bucket_folder_name(name@),
{
    let v = crate::text::chars_of(name);
    v.len() >= 2 && v[0] == '_'
}

/// `name` without its first character.
fn without_first(name: &str) -> (r: String)
    requires
        name@.len() >= 1,
    ensures
        r@ == name@.skip(1),
{
    let v = crate::text::chars_of(name);
    let mut out = String::new();
    let mut i: usize = 1;
    while i < v.len()
        invariant
            1 <= i <= v@.len(),
            v@ == name@,
            out@ == name@.subrange(1, i as int),
        decreases v@.len() - i,
    {
        out.push(v[i]);
        i = i + 1;
        assert(name@.subrange(1, i as int) =~= name@.subrange(1, i - 1).push(v@[i - 1]));
    }
    assert(name@.subrange(1, i as int) =~= name@.skip(1));
    out
}

/// Append a bucket for every `_name` folder among `names` (the folders
/// directly under the scan root) that isn't already a bucket, in name
/// order, with the next free digit hotkeys.
pub fn discover_buckets(names: Vec<String>, buckets: &mut Vec<Bucket>)
    ensures
        bucket_views(final(buckets)@) == discover_fold(
            bucket_views(old(buckets)@),
            sorted_strs(bucket_folder_candidates(views(names@))),
        ),
{
    let mut cands: Vec<String> = Vec::new();
    let mut i: usize = 0;
    while i < names.len()
        invariant
            i <= names@.len(),
            views(cands@) == bucket_folder_candidates(views(names@).take(i as int)),
        decreases names@.len() - i,
    {
        assert(views(names@).take(i + 1).drop_last() =~= views(names@).take(i as int));
        if marks_bucket(names[i].as_str()) {
            let ghost before = views(cands@);
            cands.push(names[i].clone());
            assert(views(cands@) =~= before.push(names@[i as int]@));
        }
        i = i + 1;
    }
    assert(views(names@).take(i as int) =~= views(names@));
    let sorted = sort_strings(cands);
    let ghost fs = views(sorted@);
    let ghost start = bucket_views(buckets@);
    let mut k: usize = 0;
    while k < sorted.len()
        invariant
            k <= sorted@.len(),
            fs == views(sorted@),
            fs.to_multiset() == bucket_folder_candidates(views(names@)).to_multiset(),
            bucket_views(buckets@) == discover_fold(start, fs.take(k as int)),
        decreases sorted@.len() - k,
    {
        assert(fs.take(k + 1).drop_last() =~= fs.take(k as int));
        let folder = &sorted[k];
        let ghost t = bucket_views(buckets@);
        let mut used = false;
        let mut j: usize = 0;
        while j < buckets.len()
            invariant
                j <= buckets@.len(),
                t == bucket_views(buckets@),
                !used ==> forall|q: int| 0 <= q < j ==> (#[trigger] t[q]).2 != folder@,
                used ==> exists|q: int| 0 <= q < t.len() && (#[trigger] t[q]).2 == folder@,
            decreases buckets@.len() - j,
        {
            assert(t[j as int].2 == buckets@[j as int].folder@);
            if str_eq(buckets[j].folder.as_str(), folder.as_str()) {
                used = true;
            }
            j = j + 1;
        }
        assert(fs.take(k + 1).last() == folder@);
        if !used {
            let key = next_free_key(buckets.as_slice());
            proof {
                assert(fs[k as int] == folder@);
                lemma_reordered_candidate(fs, views(names@), k as int);
            }
            let name = without_first(folder.as_str());
            buckets.push(Bucket { name, key, folder: folder.clone(), is_reject: false });
            assert(bucket_views(buckets@) =~= t.push((folder@.skip(1), free_key(t), folder@, false)));
        }
        k = k + 1;
    }
    assert(fs.take(k as int) =~= fs);
}

/// The buckets a session works with: those loaded from the config file, and,
/// only while no config file exists yet, also the `_name` folders among
/// `folder_names` (the folders directly under the root), discovered as
/// `discover_buckets` does. Once the config file exists, discovery is off.
pub fn session_buckets(loaded: Vec<Bucket>, config_exists: bool, folder_names: Vec<String>) -> (r: Vec<Bucket>)
    ensures
        config_exists ==> bucket_views(r@) == bucket_views(loaded@),
        !config_exists ==> bucket_views(r@) == discover_fold(
            bucket_views(loaded@),
            sorted_strs(bucket_folder_candidates(views(folder_names@))),
        ),
{
    let mut buckets = loaded;
    if !config_exists {
        discover_buckets(folder_names, &mut buckets);
    }
    buckets
}

/// What the `toml` crate writes for a string value (a TOML string literal).
pub uninterp spec fn toml_string_repr(s: Seq<char>) -> Seq<char>;

/// Calls `Display` of `toml::Value::String`: the TOML literal for `s`. Claims
/// only that it is a function of the characters of `s`.
#[verifier::external_body]
fn toml_quote(s: &str) -> (r: String)
    ensures
        r@ == toml_string_repr(s@),
{
    toml::Value::String(s.to_string()).to_string()
}

/// The first line of a saved bucket config.
pub open spec fn config_header() -> Seq<char> {
    "# Buckets for winnow. Edited by the app; hand edits are fine too.\n"@
}

/// One bucket as a TOML table.
pub open spec fn bucket_table(b: Bucket) -> Seq<char> {
    (if b.is_reject {
        "\n[reject]\n"@
    } else {
        "\n[[bucket]]\n"@
    }) + "name = "@ + toml_string_repr(b.name@) + "\nkey = "@ + toml_string_repr(b.key@)
        + "\nfolder = "@ + toml_string_repr(b.folder@) + "\n"@
}

/// The text of a bucket config listing `bs` in order.
pub open spec fn config_text(bs: Seq<Bucket>) -> Seq<char>
    decreases bs.len(),
{
    if bs.len() == 0 {
        config_header()
    } else {
        config_text(bs.drop_last()) + bucket_table(bs.last())
    }
}

/// The bucket list as `.winnow.toml` text: a comment line, then one table
/// per bucket (`[reject]` for the reject bucket, `[[bucket]]` for the
/// others) with its name, key and folder.
pub fn render_buckets(buckets: &[Bucket]) -> (r: String)
    ensures
        r@ == config_text(buckets@),
{
    let mut out = String::from_str("# Buckets for winnow. Edited by the app; hand edits are fine too.\n");
    let mut i: usize = 0;
    while i < buckets.len()
        invariant
            i <= buckets@.len(),
            out@ == config_text(buckets@.take(i as int)),
        decreases buckets@.len() - i,
    {
        assert(buckets@.take(i + 1).drop_last() =~= buckets@.take(i as int));
        let b = &buckets[i];
        if b.is_reject {
            out.append("\n[reject]\n");
        } else {
            out.append("\n[[bucket]]\n");
        }
        out.append("name = ");
        out.append(toml_quote(b.name.as_str()).as_str());
        out.append("\nkey = ");
        out.append(toml_quote(b.key.as_str()).as_str());
        out.append("\nfolder = ");
        out.append(toml_quote(b.folder.as_str()).as_str());
        out.append("\n");
        i = i + 1;
        assert(out@ =~= config_text(buckets@.take(i as int)));
    }
    assert(buckets@.take(i as int) =~= buckets@);
    out
}

/// The folder names (their last component) of the buckets whose folder sits
/// directly under the scan root, in bucket order.
pub open spec fn folder_names(bs: Seq<Bucket>, under_root: Seq<bool>) -> Seq<Seq<char>>
    decreases bs.len(),
{
    if bs.len() == 0 {
        Seq::empty()
    } else {
        let t = folder_names(bs.drop_last(), under_root);
        if under_root[bs.len() - 1] {
            match file_name_of(bs.last().folder@) {
                Some(n) => t.push(n),
                None => t,
            }
        } else {
            t
        }
    }
}

/// Names of bucket folders sitting directly under root, to exclude from
/// scanning; `under_root[i]` tells whether bucket `i`'s folder is there.
pub fn bucket_folder_names(buckets: &[Bucket], under_root: &[bool]) -> (r: Vec<String>)
    requires
        under_root@.len() == buckets@.len(),
    ensures
        views(r@) == folder_names(buckets@, under_root@),
{
    let mut names: Vec<String> = Vec::new();
    let mut i: usize = 0;
    while i < buckets.len()
        invariant
            i <= buckets@.len(),
            under_root@.len() == buckets@.len(),
            views(names@) == folder_names(buckets@.take(i as int), under_root@),
        decreases buckets@.len() - i,
    {
        assert(buckets@.take(i + 1).drop_last() =~= buckets@.take(i as int));
        if under_root[i] {
            if let Some(n) = path_file_name(buckets[i].folder.as_str()) {
                let ghost before = views(names@);
                let ghost nv = n@;
                names.push(n);
                assert(views(names@) =~= before.push(nv));
            }
        }
        i = i + 1;
    }
    assert(buckets@.take(i as int) =~= buckets@);
    names
}

} // verus!
