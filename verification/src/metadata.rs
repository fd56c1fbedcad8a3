//! Optional per-image metadata (CSV) keyed by image path.

use vstd::prelude::*;

use crate::assoc::Assoc;
use crate::numeric::float_syntax;
use crate::paths::join;
use crate::sortkey::SortKey;
use crate::text::{
    chars_of, eq_ignore_ascii_case, eq_ignore_case, has_prefix, lower, replace_char, replace_char_str,
    str_eq, strip_prefix, to_ascii_lower, trim, trim_str, views,
};

verus! {

/// One metadata row: column name to cell text.
pub type Row = Assoc<String>;

pub struct Metadata {
    /// Display order of columns, excluding the path key column.
    pub columns: Vec<String>,
    /// Header of the column used as the image path.
    pub key_column: String,
    /// False when no known path column name was found and the first column
    /// was used as a fallback.
    pub key_column_recognized: bool,
    /// Path keys that appeared on more than one row (the last row wins).
    pub duplicate_keys: Vec<String>,
    /// Rows by path key.
    pub rows: Assoc<Row>,
}

/// Candidate column names that hold the image path (relative to root), in
/// order of preference.
pub open spec fn path_columns() -> Seq<Seq<char>> {
    seq![
        "path"@,
        "filepath"@,
        "file_path"@,
        "image_path"@,
        "img_path"@,
        "file"@,
        "filename"@,
        "file_name"@,
        "image"@,
        "img"@,
        "name"@,
    ]
}

/// Candidate column names that hold the image path, in order of preference.
pub fn path_column_names() -> (r: Vec<&'static str>)
    ensures
        r@.map_values(|s: &str| s@) == path_columns(),
{
    let r = vec![
        "path",
        "filepath",
        "file_path",
        "image_path",
        "img_path",
        "file",
        "filename",
        "file_name",
        "image",
        "img",
        "name",
    ];
    assert(r@.map_values(|s: &str| s@) =~= path_columns());
    r
}

/// The paths under `root` where a metadata file is looked for, in order.
pub fn metadata_candidates(root: &str) -> (r: Vec<String>)
    ensures
        r@.len() == 2,
        r@[0]@ == join(root@, "metadata.csv"@),
        r@[1]@ == join(root@, "metadata.tsv"@),
{
    let mut r = Vec::new();
    r.push(crate::paths::path_join(root, "metadata.csv"));
    r.push(crate::paths::path_join(root, "metadata.tsv"));
    r
}

/// The metadata file picked up in `root`: the first of the candidates
/// (`metadata_candidates`) that is a file; `is_file[i]` tells whether
/// candidate `i` is one.
pub fn find_metadata(root: &str, is_file: &[bool]) -> (r: Option<String>)
    requires
        is_file@.len() == 2,
    ensures
        is_file@[0] ==> (r matches Some(p) && p@ == join(root@, "metadata.csv"@)),
        !is_file@[0] && is_file@[1] ==> (r matches Some(p) && p@ == join(root@, "metadata.tsv"@)),
        !is_file@[0] && !is_file@[1] ==> r is None,
{
    let mut c = metadata_candidates(root);
    if is_file[0] {
        Some(c.remove(0))
    } else if is_file[1] {
        Some(c.remove(1))
    } else {
        None
    }
}

/// The text of a row: column to cell.
pub open spec fn row_view(r: Row) -> Map<Seq<char>, Seq<char>> {
    r.map().map_values(|s: String| s@)
}

/// Part after the last `/`, or all of `s`.
pub open spec fn basename(s: Seq<char>) -> Seq<char>
    decreases s.len(),
{
    if s.len() == 0 {
        s
    } else if s.last() == '/' {
        Seq::empty()
    } else {
        basename(s.drop_last()).push(s.last())
    }
}

/// The keys among `ks` whose base name is `b`, in order.
pub open spec fn base_owners(ks: Seq<Seq<char>>, b: Seq<char>) -> Seq<Seq<char>>
    decreases ks.len(),
{
    if ks.len() == 0 {
        Seq::empty()
    } else if basename(ks.last()) == b {
        base_owners(ks.drop_last(), b).push(ks.last())
    } else {
        base_owners(ks.drop_last(), b)
    }
}

/// Position of the first header equal to `c` up to ASCII case.
pub open spec fn header_pos(hs: Seq<Seq<char>>, c: Seq<char>) -> Option<int>
    decreases hs.len(),
{
    if hs.len() == 0 {
        None
    } else if header_pos(hs.drop_last(), c) is Some {
        header_pos(hs.drop_last(), c)
    } else if eq_ignore_case(hs.last(), c) {
        Some(hs.len() - 1)
    } else {
        None
    }
}

/// The path column from candidate `k` on: the first candidate that some
/// header names, at that header's position; else column 0, unrecognized.
pub open spec fn pick_from(hs: Seq<Seq<char>>, k: nat) -> (int, bool)
    decreases path_columns().len() - k,
{
    if k >= path_columns().len() {
        (0, false)
    } else {
        match header_pos(hs, path_columns()[k as int]) {
            Some(i) => (i, true),
            None => pick_from(hs, k + 1),
        }
    }
}

/// Cell `i` of a record, or empty when the record is short.
pub open spec fn cell(rec: Seq<Seq<char>>, i: int) -> Seq<char> {
    if 0 <= i < rec.len() {
        rec[i]
    } else {
        Seq::empty()
    }
}

/// The path key of a record: its key cell trimmed, backslashes made slashes,
/// and a leading `./` dropped.
pub open spec fn record_key(rec: Seq<Seq<char>>, kc: int) -> Seq<char> {
    let k = replace_char(trim(cell(rec, kc)), '\\', '/');
    if has_prefix(k, "./"@) {
        k.skip(2)
    } else {
        k
    }
}

/// The row of a record: each header but the key column's, to its cell (a
/// later header of the same name wins), over the first `n` headers.
pub open spec fn record_row(hs: Seq<Seq<char>>, kc: int, rec: Seq<Seq<char>>, n: int) -> Map<
    Seq<char>,
    Seq<char>,
>
    decreases n,
{
    if n <= 0 {
        Map::empty()
    } else if n - 1 != kc {
        record_row(hs, kc, rec, n - 1).insert(hs[n - 1], cell(rec, n - 1))
    } else {
        record_row(hs, kc, rec, n - 1)
    }
}

/// Rows by key, and the keys seen again, after the first `n` records (a
/// later row for the same key replaces the earlier one; empty keys skipped).
pub open spec fn table_rows(hs: Seq<Seq<char>>, kc: int, recs: Seq<Seq<Seq<char>>>, n: int) -> (
    Map<Seq<char>, Map<Seq<char>, Seq<char>>>,
    Seq<Seq<char>>,
)
    decreases n,
{
    if n <= 0 {
        (Map::empty(), Seq::empty())
    } else {
        let t = table_rows(hs, kc, recs, n - 1);
        let k = record_key(recs[n - 1], kc);
        if k.len() == 0 {
            t
        } else {
            (
                t.0.insert(k, record_row(hs, kc, recs[n - 1], hs.len() as int)),
                if t.0.contains_key(k) {
                    t.1.push(k)
                } else {
                    t.1
                },
            )
        }
    }
}

/// The text of the records.
pub open spec fn records_view(records: Seq<Vec<String>>) -> Seq<Seq<Seq<char>>> {
    records.map_values(|r: Vec<String>| crate::text::views(r@))
}

/// Headers after trimming.
pub open spec fn trimmed(hs: Seq<Seq<char>>) -> Seq<Seq<char>> {
    hs.map_values(|h: Seq<char>| trim(h))
}

/// `s` without its trailing `/` characters.
pub open spec fn trim_end_slashes(s: Seq<char>) -> Seq<char>
    decreases s.len(),
{
    if s.len() > 0 && s.last() == '/' {
        trim_end_slashes(s.drop_last())
    } else {
        s
    }
}

/// The prefix that `relativize` strips for root `root`.
pub open spec fn root_prefix(root: Seq<char>) -> Seq<char> {
    trim_end_slashes(replace_char(root, '\\', '/')).push('/')
}

/// Trailing slashes (or backslashes) on the root do not matter to
/// `relativize`: `/data/set/` and `/data/set` strip the same prefix, so the
/// table gets the same keys.
pub proof fn law_relativize_ignores_trailing_slash(
    entries: Seq<(String, Row)>,
    root: Seq<char>,
    sep: char,
)
    requires
        sep == '/' || sep == '\\',
    ensures
        root_prefix(root.push(sep)) == root_prefix(root),
        rekeyed(entries, root_prefix(root.push(sep)), entries.len() as int) == rekeyed(
            entries,
            root_prefix(root),
            entries.len() as int,
        ),
{
    let r = replace_char(root, '\\', '/');
    assert(replace_char(root.push(sep), '\\', '/') =~= r.push('/'));
    assert(r.push('/').drop_last() =~= r);
}

/// A key made relative: without `prefix` when it starts with it.
pub open spec fn relative_key(k: Seq<char>, prefix: Seq<char>) -> Seq<char> {
    if has_prefix(k, prefix) {
        k.skip(prefix.len() as int)
    } else {
        k
    }
}

/// The rows after re-keying the first `n` entries (in order; a later entry
/// landing on the same key replaces an earlier one).
pub open spec fn rekeyed(entries: Seq<(String, Row)>, prefix: Seq<char>, n: int) -> Map<
    Seq<char>,
    Map<Seq<char>, Seq<char>>,
>
    decreases n,
{
    if n <= 0 {
        Map::empty()
    } else {
        rekeyed(entries, prefix, n - 1).insert(
            relative_key(entries[n - 1].0@, prefix),
            row_view(entries[n - 1].1),
        )
    }
}

/// The row key an image path resolves to and whether the match was by full
/// relative path (true) or only by file name (false): the exact key, else a
/// key equal to the file name, else the one key with that file name.
pub open spec fn resolve_key(m: Metadata, relpath: Seq<char>) -> Option<(Seq<char>, bool)> {
    let rel = replace_char(relpath, '\\', '/');
    let base = basename(rel);
    if m.rows.map().contains_key(rel) {
        Some((rel, true))
    } else if m.rows.map().contains_key(base) {
        Some((base, false))
    } else if base_owners(m.rows.key_seq(), base).len() == 1 {
        Some((base_owners(m.rows.key_seq(), base)[0], false))
    } else {
        None
    }
}

/// The cell of `column` in the row that `relpath` resolves to, or empty.
pub open spec fn cell_of(m: Metadata, relpath: Seq<char>, column: Seq<char>) -> Seq<char> {
    match resolve_key(m, relpath) {
        Some((k, _)) => {
            let r = row_view(m.rows.map()[k]);
            if r.contains_key(column) {
                r[column]
            } else {
                Seq::empty()
            }
        },
        None => Seq::empty(),
    }
}

/// The sort key of a cell: missing when `raw` is empty; the number when the
/// trimmed cell reads as one (`number` is that `f64`, as bits, given by the
/// caller exactly then); else its text, lower-cased.
pub fn sort_key_of_cell(raw: &str, number: Option<u64>) -> (r: SortKey)
    requires
        raw@.len() > 0 ==> (number is Some <==> float_syntax(trim(raw@))),
    ensures
        raw@.len() == 0 ==> r == SortKey::Missing,
        raw@.len() > 0 && float_syntax(trim(raw@)) ==> r == SortKey::Num(number->0),
        raw@.len() > 0 && !float_syntax(trim(raw@)) ==> (r matches SortKey::Text(t) && t@ == lower(raw@)),
{
    let v = chars_of(raw);
    if v.len() == 0 {
        return SortKey::Missing;
    }
    match number {
        Some(b) => SortKey::Num(b),
        None => SortKey::Text(to_ascii_lower(raw)),
    }
}

fn last_slash(v: &Vec<char>) -> (r: Option<usize>)
    ensures
        r matches Some(i) ==> i < v@.len() && v@[i as int] == '/' && forall|k: int|
            i < k < v@.len() ==> v@[k] != '/',
        r is None ==> forall|k: int| 0 <= k < v@.len() ==> v@[k] != '/',
{
    let mut i = v.len();
    while i > 0
        invariant
            i <= v@.len(),
            forall|k: int| i <= k < v@.len() ==> v@[k] != '/',
        decreases i,
    {
        if v[i - 1] == '/' {
            return Some(i - 1);
        }
        i = i - 1;
    }
    None
}

proof fn lemma_basename(s: Seq<char>, i: int)
    requires
        -1 <= i < s.len(),
        i >= 0 ==> s[i] == '/',
        forall|k: int| i < k < s.len() ==> s[k] != '/',
    ensures
        basename(s) == s.skip(i + 1),
    decreases s.len(),
{
    if s.len() > 0 {
        if s.last() == '/' {
            assert(i == s.len() - 1);
            assert(s.skip(i + 1) =~= Seq::<char>::empty());
        } else {
            lemma_basename(s.drop_last(), i);
            assert(s.skip(i + 1) =~= s.drop_last().skip(i + 1).push(s.last()));
        }
    } else {
        assert(s.skip(i + 1) =~= s);
    }
}

/// The part of `rel` after its last `/`.
pub fn basename_of(rel: &str) -> (r: String)
    ensures
        r@ == basename(rel@),
{
    let v = chars_of(rel);
    let start = match last_slash(&v) {
        Some(i) => {
            assert(i < v.len());
            i + 1
        },
        None => 0,
    };
    proof {
        lemma_basename(rel@, start - 1);
    }
    let mut out = String::new();
    let mut i = start;
    while i < v.len()
        invariant
            start <= i <= v@.len(),
            v@ == rel@,
            out@ == rel@.subrange(start as int, i as int),
        decreases v@.len() - i,
    {
        out.push(v[i]);
        i = i + 1;
        assert(rel@.subrange(start as int, i as int) =~= rel@.subrange(start as int, i - 1).push(
            v@[i - 1],
        ));
    }
    assert(rel@.subrange(start as int, v@.len() as int) =~= rel@.skip(start as int));
    out
}

/// Drop all trailing `/`.
fn trim_end_slash_str(s: &str) -> (r: String)
    ensures
        r@ == trim_end_slashes(s@),
{
    let v = chars_of(s);
    let mut n = v.len();
    assert(s@.take(n as int) =~= s@);
    while n > 0 && v[n - 1] == '/'
        invariant
            n <= v@.len(),
            v@ == s@,
            trim_end_slashes(s@) == trim_end_slashes(s@.take(n as int)),
        decreases n,
    {
        assert(s@.take(n as int).drop_last() =~= s@.take(n - 1));
        n = n - 1;
    }
    assert(trim_end_slashes(s@.take(n as int)) == s@.take(n as int));
    let mut out = String::new();
    let mut i: usize = 0;
    while i < n
        invariant
            i <= n <= v@.len(),
            v@ == s@,
            out@ == s@.take(i as int),
        decreases n - i,
    {
        out.push(v[i]);
        i = i + 1;
        assert(s@.take(i as int) =~= s@.take(i - 1).push(v@[i - 1]));
    }
    out
}

proof fn lemma_base_owners_len(ks: Seq<Seq<char>>, b: Seq<char>)
    ensures
        base_owners(ks, b).len() <= ks.len(),
    decreases ks.len(),
{
    if ks.len() > 0 {
        lemma_base_owners_len(ks.drop_last(), b);
    }
}

impl Metadata {
    /// Keys are distinct and each row's columns are distinct.
    pub open spec fn wf(&self) -> bool {
        &&& self.rows.wf()
        &&& forall|k: Seq<char>| #[trigger] self.rows.map().contains_key(k) ==> self.rows.map()[k].wf()
    }

    /// Rows by key, as text.
    pub open spec fn table(&self) -> Map<Seq<char>, Map<Seq<char>, Seq<char>>> {
        self.rows.map().map_values(|r: Row| row_view(r))
    }

    /// Metadata with no columns and no rows.
    pub fn empty() -> (m: Metadata)
        ensures
            m.wf(),
            m.columns@.len() == 0,
            m.key_column@.len() == 0,
            !m.key_column_recognized,
            m.duplicate_keys@.len() == 0,
            m.rows.entries().len() == 0,
            m.rows.map() == Map::<Seq<char>, Row>::empty(),
    {
        Metadata {
            columns: Vec::new(),
            key_column: String::new(),
            key_column_recognized: false,
            duplicate_keys: Vec::new(),
            rows: Assoc::new(),
        }
    }

    pub fn is_empty(&self) -> (r: bool)
        ensures
            r == (self.rows.entries().len() == 0),
    {
        self.rows.len() == 0
    }

    /// Row keys in the file.
    pub fn keys(&self) -> (r: Vec<&str>)
        ensures
            r@.map_values(|s: &str| s@) == self.rows.key_seq(),
    {
        let mut r: Vec<&str> = Vec::new();
        let mut i: usize = 0;
        while i < self.rows.len()
            invariant
                i <= self.rows.entries().len(),
                r@.map_values(|s: &str| s@) == self.rows.key_seq().take(i as int),
            decreases self.rows.entries().len() - i,
        {
            let ghost before = r@;
            let k = self.rows.key_at(i).as_str();
            r.push(k);
            assert(self.rows.key_seq()[i as int] == k@);
            assert(r@.map_values(|s: &str| s@) =~= before.map_values(|s: &str| s@).push(k@));
            i = i + 1;
            assert(self.rows.key_seq().take(i as int) =~= self.rows.key_seq().take(i - 1).push(k@));
        }
        assert(self.rows.key_seq().take(i as int) =~= self.rows.key_seq());
        r
    }

    /// The keys whose base name is `b`, counting up to two.
    fn owners_of(&self, b: &str) -> (r: (usize, Option<usize>))
        requires
            self.wf(),
        ensures
            r.0 == if base_owners(self.rows.key_seq(), b@).len() >= 2 {
                2
            } else {
                base_owners(self.rows.key_seq(), b@).len()
            },
            r.0 == 1 ==> (r.1 matches Some(i) && i < self.rows.entries().len()
                && self.rows.entries()[i as int].0@ == base_owners(self.rows.key_seq(), b@)[0]),
    {
        let mut count: usize = 0;
        let mut first: Option<usize> = None;
        let mut i: usize = 0;
        while i < self.rows.len()
            invariant
                i <= self.rows.entries().len(),
                self.wf(),
                count == if base_owners(self.rows.key_seq().take(i as int), b@).len() >= 2 {
                    2
                } else {
                    base_owners(self.rows.key_seq().take(i as int), b@).len()
                },
                count >= 1 ==> (first matches Some(f) && f < self.rows.entries().len()
                    && self.rows.entries()[f as int].0@ == base_owners(
                    self.rows.key_seq().take(i as int),
                    b@,
                )[0]),
            decreases self.rows.entries().len() - i,
        {
            let ghost ks = self.rows.key_seq();
            assert(ks.take(i + 1).drop_last() =~= ks.take(i as int));
            proof {
                lemma_base_owners_prefix(ks.take(i as int), ks[i as int], b@);
            }
            let base = basename_of(self.rows.key_at(i).as_str());
            if crate::text::str_eq(base.as_str(), b) {
                if count == 0 {
                    first = Some(i);
                }
                if count < 2 {
                    count = count + 1;
                }
            }
            i = i + 1;
        }
        assert(self.rows.key_seq().take(i as int) =~= self.rows.key_seq());
        (count, first)
    }

    /// The row key an image resolves to, and whether it matched by full
    /// relative path (true) or only by filename (false).
    pub fn row_key(&self, relpath: &str) -> (r: Option<(&str, bool)>)
        requires
            self.wf(),
        ensures
            r matches Some((k, exact)) ==> resolve_key(*self, relpath@) == Some((k@, exact)),
            r is None ==> resolve_key(*self, relpath@) is None,
    {
        let rel = replace_char_str(relpath, '\\', '/');
        if let Some(i) = self.rows.find(rel.as_str()) {
            return Some((self.rows.key_at(i).as_str(), true));
        }
        let base = basename_of(rel.as_str());
        if let Some(i) = self.rows.find(base.as_str()) {
            return Some((self.rows.key_at(i).as_str(), false));
        }
        let (n, first) = self.owners_of(base.as_str());
        if n == 1 {
            match first {
                Some(i) => Some((self.rows.key_at(i).as_str(), false)),
                None => None,
            }
        } else {
            None
        }
    }

    /// Row for `relpath`, falling back to a unique basename match.
    pub fn get(&self, relpath: &str) -> (r: Option<&Row>)
        requires
            self.wf(),
        ensures
            r matches Some(row) ==> (resolve_key(*self, relpath@) matches Some((k, _)) && *row
                == self.rows.map()[k] && self.rows.map().contains_key(k)),
            r is None ==> resolve_key(*self, relpath@) is None,
    {
        match self.row_key(relpath) {
            Some((k, _)) => {
                let r = self.rows.get(k);
                proof {
                    lemma_resolved_present(*self, relpath@);
                }
                r
            },
            None => None,
        }
    }

    /// Raw cell value.
    pub fn value(&self, key: &str, column: &str) -> (r: Option<&str>)
        requires
            self.wf(),
        ensures
            r is Some <==> (self.table().contains_key(key@) && self.table()[key@].contains_key(
                column@,
            )),
            r matches Some(v) ==> v@ == self.table()[key@][column@],
    {
        match self.rows.get(key) {
            Some(row) => {
                proof {
                    self.lemma_row_wf(key@);
                }
                match row.get(column) {
                    Some(v) => Some(v.as_str()),
                    None => None,
                }
            },
            None => None,
        }
    }

    proof fn lemma_row_wf(&self, k: Seq<char>)
        requires
            self.wf(),
            self.rows.map().contains_key(k),
        ensures
            self.rows.map()[k].wf(),
    {
    }

    /// The cell of `column` for the image at `relpath`, or "".
    pub fn cell_text(&self, relpath: &str, column: &str) -> (r: String)
        requires
            self.wf(),
        ensures
            r@ == cell_of(*self, relpath@, column@),
    {
        match self.get(relpath) {
            Some(row) => {
                proof {
                    lemma_resolved_present(*self, relpath@);
                }
                match row.get(column) {
                    Some(v) => v.clone(),
                    None => String::new(),
                }
            },
            None => String::new(),
        }
    }

    /// The sort key of `column` for the image at `relpath`: missing for an
    /// empty cell, the number when the trimmed cell reads as one (`number`
    /// is that `f64`, as bits, given by the caller exactly then), else the
    /// text lower-cased.
    pub fn sort_value(&self, relpath: &str, column: &str, number: Option<u64>) -> (r: SortKey)
        requires
            self.wf(),
            cell_of(*self, relpath@, column@).len() > 0 ==> (number is Some <==> float_syntax(
                trim(cell_of(*self, relpath@, column@)),
            )),
        ensures
            cell_of(*self, relpath@, column@).len() == 0 ==> r == SortKey::Missing,
            cell_of(*self, relpath@, column@).len() > 0 && float_syntax(
                trim(cell_of(*self, relpath@, column@)),
            ) ==> r == SortKey::Num(number->0),
            cell_of(*self, relpath@, column@).len() > 0 && !float_syntax(
                trim(cell_of(*self, relpath@, column@)),
            ) ==> (r matches SortKey::Text(t) && t@ == lower(cell_of(*self, relpath@, column@))),
    {
        let raw = self.cell_text(relpath, column);
        sort_key_of_cell(raw.as_str(), number)
    }

    /// Make keys relative to `root`: keys under root lose the root prefix.
    pub fn relativize(&mut self, root: &str)
        requires
            old(self).wf(),
        ensures
            final(self).wf(),
            final(self).table() == rekeyed(
                old(self).rows.entries(),
                root_prefix(root@),
                old(self).rows.entries().len() as int,
            ),
            final(self).columns == old(self).columns,
            final(self).key_column == old(self).key_column,
            final(self).key_column_recognized == old(self).key_column_recognized,
            final(self).duplicate_keys == old(self).duplicate_keys,
    {
        let r = replace_char_str(root, '\\', '/');
        let t = trim_end_slash_str(r.as_str());
        let mut prefix = t;
        prefix.push('/');
        assert(prefix@ == root_prefix(root@));
        let ghost old_rows = self.rows;
        let mut rows: Assoc<Row> = Assoc::new();
        assert(rows.map().map_values(|r: Row| row_view(r)) =~= Map::empty());
        let mut i: usize = 0;
        let n = self.rows.len();
        while i < n
            invariant
                i <= n,
                n == old_rows.entries().len(),
                old_rows == self.rows,
                self.wf(),
                rows.wf(),
                forall|q: Seq<char>| #[trigger] rows.map().contains_key(q) ==> rows.map()[q].wf(),
                rows.map().map_values(|r: Row| row_view(r)) == rekeyed(old_rows.entries(), prefix@, i as int),
            decreases n - i,
        {
            let k = self.rows.key_at(i);
            let k2 = match strip_prefix(k.as_str(), prefix.as_str()) {
                Some(s) => s,
                None => k.clone(),
            };
            let row = self.rows.value_at(i).duplicate();
            proof {
                self.rows.lemma_pos(i as int);
                assert(row.map() =~= self.rows.entries()[i as int].1.map());
                assert(row.wf()) by {
                    assert(row.key_seq() =~= self.rows.entries()[i as int].1.key_seq());
                }
            }
            let ghost before = rows;
            let ghost rv = row_view(row);
            rows.insert(k2, row);
            proof {
                assert(rows.map().map_values(|r: Row| row_view(r)) =~= before.map().map_values(
                    |r: Row| row_view(r),
                ).insert(k2@, rv));
            }
            i = i + 1;
        }
        self.rows = rows;
    }
}

proof fn lemma_base_owners_member(ks: Seq<Seq<char>>, b: Seq<char>)
    ensures
        forall|j: int| 0 <= j < base_owners(ks, b).len() ==> ks.contains(#[trigger] base_owners(ks, b)[j]),
    decreases ks.len(),
{
    if ks.len() > 0 {
        lemma_base_owners_member(ks.drop_last(), b);
        assert forall|j: int| 0 <= j < base_owners(ks, b).len() implies ks.contains(#[trigger] base_owners(ks, b)[j]) by {
            if j < base_owners(ks.drop_last(), b).len() {
                let x = base_owners(ks.drop_last(), b)[j];
                assert(ks.drop_last().contains(x));
                let i = choose|i: int| 0 <= i < ks.drop_last().len() && ks.drop_last()[i] == x;
                assert(ks[i] == x);
            } else {
                assert(ks[ks.len() - 1] == ks.last());
            }
        }
    }
}

pub proof fn lemma_resolved_present(m: Metadata, relpath: Seq<char>)
    requires
        m.wf(),
    ensures
        match resolve_key(m, relpath) {
            Some((k, _)) => m.rows.map().contains_key(k),
            None => true,
        },
{
    let rel = replace_char(relpath, '\\', '/');
    let base = basename(rel);
    let ks = m.rows.key_seq();
    if !m.rows.map().contains_key(rel) && !m.rows.map().contains_key(base) && base_owners(ks, base).len() == 1 {
        lemma_base_owners_member(ks, base);
        let x = base_owners(ks, base)[0];
        assert(ks.contains(x));
        let i = choose|i: int| 0 <= i < ks.len() && ks[i] == x;
        assert(m.rows.entries()[i].0@ == x);
    }
}

proof fn lemma_base_owners_prefix(ks: Seq<Seq<char>>, k: Seq<char>, b: Seq<char>)
    ensures
        base_owners(ks.push(k), b) == if basename(k) == b {
            base_owners(ks, b).push(k)
        } else {
            base_owners(ks, b)
        },
{
    assert(ks.push(k).drop_last() =~= ks);
}

/// What the `csv` reader (headers on, flexible record lengths) reads from
/// `data` with field delimiter `delimiter`: the header record and the other
/// records, or `None` when it reports an error.
pub uninterp spec fn csv_table(data: Seq<u8>, delimiter: u8) -> Option<
    (Seq<Seq<char>>, Seq<Seq<Seq<char>>>),
>;

/// The `csv` crate's error type, carried through as it is: `load_csv`
/// hands it to the caller.
#[verifier::external_type_specification]
#[verifier::external_body]
pub struct ExCsvError(csv::Error);

/// Reads `data` with `csv::ReaderBuilder` (the given delimiter, headers on,
/// flexible) and returns the header record and all other records as text.
/// Claims only that success and the records are a function of the bytes and
/// the delimiter.
#[verifier::external_body]
fn csv_read(data: &[u8], delimiter: u8) -> (r: Result<(Vec<String>, Vec<Vec<String>>), csv::Error>)
    ensures
        r is Ok <==> csv_table(data@, delimiter) is Some,
        r matches Ok((h, recs)) ==> csv_table(data@, delimiter) == Some(
            (views(h@), records_view(recs@)),
        ),
{
    let mut rdr = csv::ReaderBuilder::new().delimiter(delimiter).has_headers(true).flexible(
        true,
    ).from_reader(data);
    let headers: Vec<String> = rdr.headers()?.iter().map(|h| h.to_string()).collect();
    let records = rdr.records().map(|r| r.map(|rec| rec.iter().map(|f| f.to_string()).collect()))
        .collect::<Result<Vec<Vec<String>>, csv::Error>>()?;
    Ok((headers, records))
}

/// `m` is the metadata of a table with header record `headers` and records
/// `recs`: headers are trimmed; the path column is picked among them; its
/// cells key the rows.
pub open spec fn is_table_metadata(m: Metadata, headers: Seq<Seq<char>>, recs: Seq<Seq<Seq<char>>>) -> bool {
    let hs = trimmed(headers);
    if hs.len() == 0 {
        &&& m.columns@.len() == 0
        &&& m.key_column@.len() == 0
        &&& !m.key_column_recognized
        &&& m.duplicate_keys@.len() == 0
        &&& m.table() == Map::<Seq<char>, Map<Seq<char>, Seq<char>>>::empty()
    } else {
        let kc = pick_from(hs, 0).0;
        let t = table_rows(hs, kc, recs, recs.len() as int);
        &&& views(m.columns@) == hs.remove(kc)
        &&& m.key_column@ == hs[kc]
        &&& m.key_column_recognized == pick_from(hs, 0).1
        &&& m.table() == t.0
        &&& views(m.duplicate_keys@) == t.1
    }
}

proof fn lemma_header_pos_bound(hs: Seq<Seq<char>>, c: Seq<char>)
    ensures
        header_pos(hs, c) matches Some(i) ==> 0 <= i < hs.len(),
    decreases hs.len(),
{
    if hs.len() > 0 {
        lemma_header_pos_bound(hs.drop_last(), c);
    }
}

proof fn lemma_pick_bound(hs: Seq<Seq<char>>, k: nat)
    requires
        hs.len() > 0,
    ensures
        0 <= pick_from(hs, k).0 < hs.len(),
    decreases path_columns().len() - k,
{
    if k < path_columns().len() {
        lemma_header_pos_bound(hs, path_columns()[k as int]);
        lemma_pick_bound(hs, k + 1);
    }
}

proof fn lemma_header_pos_prefix(hs: Seq<Seq<char>>, c: Seq<char>, k: int)
    requires
        0 <= k <= hs.len(),
        header_pos(hs.take(k), c) is Some,
    ensures
        header_pos(hs, c) == header_pos(hs.take(k), c),
    decreases hs.len() - k,
{
    if k < hs.len() {
        assert(hs.take(k + 1).drop_last() =~= hs.take(k));
        lemma_header_pos_prefix(hs, c, k + 1);
    } else {
        assert(hs.take(k) =~= hs);
    }
}

proof fn lemma_header_pos_spec(hs: Seq<Seq<char>>, c: Seq<char>)
    ensures
        header_pos(hs, c) matches Some(i) ==> 0 <= i < hs.len() && lower(hs[i]) == lower(c) && forall|j: int|
            0 <= j < i ==> lower(#[trigger] hs[j]) != lower(c),
        header_pos(hs, c) is None ==> forall|j: int| 0 <= j < hs.len() ==> lower(#[trigger] hs[j]) != lower(c),
    decreases hs.len(),
{
    if hs.len() > 0 {
        let q = hs.drop_last();
        lemma_header_pos_spec(q, c);
        assert forall|j: int| 0 <= j < q.len() implies q[j] == hs[j] by {}
    }
}

/// Some header names path-column candidate `k` up to ASCII case.
pub open spec fn names_candidate(hs: Seq<Seq<char>>, k: int) -> bool {
    exists|i: int| 0 <= i < hs.len() && lower(#[trigger] hs[i]) == lower(path_columns()[k])
}

proof fn lemma_pick_from_spec(hs: Seq<Seq<char>>, k: nat)
    ensures
        pick_from(hs, k).1 <==> exists|q: int| k <= q < path_columns().len() && #[trigger] names_candidate(hs, q),
        pick_from(hs, k).1 ==> exists|q: int|
            k <= q < path_columns().len() && 0 <= pick_from(hs, k).0 < hs.len() && lower(hs[pick_from(hs, k).0])
                == lower(#[trigger] path_columns()[q]) && forall|q2: int|
                k <= q2 < q ==> !#[trigger] names_candidate(hs, q2),
    decreases path_columns().len() - k,
{
    if k < path_columns().len() {
        let c = path_columns()[k as int];
        lemma_header_pos_spec(hs, c);
        lemma_pick_from_spec(hs, k + 1);
        match header_pos(hs, c) {
            Some(i) => {
                assert(names_candidate(hs, k as int));
                assert(lower(hs[pick_from(hs, k).0]) == lower(path_columns()[k as int]));
            },
            None => {
                assert(!names_candidate(hs, k as int));
                if exists|q: int| k <= q < path_columns().len() && #[trigger] names_candidate(hs, q) {
                    let q = choose|q: int| k <= q < path_columns().len() && #[trigger] names_candidate(hs, q);
                    assert(q != k);
                }
                if pick_from(hs, k).1 {
                    let q = choose|q: int|
                        k + 1 <= q < path_columns().len() && 0 <= pick_from(hs, k + 1).0 < hs.len() && lower(
                            hs[pick_from(hs, k + 1).0],
                        ) == lower(#[trigger] path_columns()[q]) && forall|q2: int|
                            k + 1 <= q2 < q ==> !#[trigger] names_candidate(hs, q2);
                    assert forall|q2: int| k <= q2 < q implies !#[trigger] names_candidate(hs, q2) by {
                        if q2 == k {
                        }
                    }
                }
            },
        }
    }
}

/// The path column is found among the (trimmed) headers ignoring ASCII case:
/// it is recognized exactly when some header equals a known path-column name
/// up to case, and then it is a header naming the first such name in order
/// of preference (`path`, then `filepath`, ...); e.g. `Path` and `FILENAME`
/// are recognized.
pub proof fn law_path_column_ignores_case(m: Metadata, headers: Seq<Seq<char>>, recs: Seq<Seq<Seq<char>>>)
    requires
        is_table_metadata(m, headers, recs),
    ensures
        m.key_column_recognized <==> exists|q: int|
            0 <= q < path_columns().len() && #[trigger] names_candidate(trimmed(headers), q),
        m.key_column_recognized ==> exists|q: int|
            0 <= q < path_columns().len() && lower(m.key_column@) == lower(#[trigger] path_columns()[q])
                && forall|q2: int| 0 <= q2 < q ==> !#[trigger] names_candidate(trimmed(headers), q2),
{
    let hs = trimmed(headers);
    lemma_pick_from_spec(hs, 0);
    if hs.len() == 0 {
        assert forall|q: int| 0 <= q < path_columns().len() implies !#[trigger] names_candidate(hs, q) by {}
    }
}

/// Position of the first header equal to `c` up to ASCII case.
fn find_header(headers: &Vec<String>, c: &str) -> (r: Option<usize>)
    ensures
        r matches Some(i) ==> header_pos(views(headers@), c@) == Some(i as int),
        r is None ==> header_pos(views(headers@), c@) is None,
{
    let ghost hs = views(headers@);
    let mut i: usize = 0;
    while i < headers.len()
        invariant
            i <= headers@.len(),
            hs == views(headers@),
            header_pos(hs.take(i as int), c@) is None,
        decreases headers@.len() - i,
    {
        assert(hs.take(i + 1).drop_last() =~= hs.take(i as int));
        if eq_ignore_ascii_case(headers[i].as_str(), c) {
            assert(header_pos(hs.take(i + 1), c@) == Some(i as int));
            proof {
                lemma_header_pos_prefix(hs, c@, i + 1);
            }
            return Some(i);
        }
        i = i + 1;
    }
    assert(hs.take(i as int) =~= hs);
    None
}

/// The path column: the first known path-column name that some header has
/// (at that header), else column 0 (not recognized).
fn pick_path_column(headers: &Vec<String>) -> (r: (usize, bool))
    ensures
        (r.0 as int, r.1) == pick_from(views(headers@), 0),
{
    let cands = path_column_names();
    let mut k: usize = 0;
    while k < cands.len()
        invariant
            k <= cands@.len(),
            cands@.map_values(|s: &str| s@) == path_columns(),
            pick_from(views(headers@), 0) == pick_from(views(headers@), k as nat),
        decreases cands@.len() - k,
    {
        assert(cands@[k as int]@ == path_columns()[k as int]);
        if let Some(i) = find_header(headers, cands[k]) {
            return (i, true);
        }
        k = k + 1;
    }
    (0, false)
}

/// Cell `i` of a record, or "" when the record is short.
fn cell_at(rec: &Vec<String>, i: usize) -> (r: String)
    ensures
        r@ == cell(views(rec@), i as int),
{
    if i < rec.len() {
        rec[i].clone()
    } else {
        String::new()
    }
}

/// The path key of a record.
fn key_of_record(rec: &Vec<String>, kc: usize) -> (r: String)
    ensures
        r@ == record_key(views(rec@), kc as int),
{
    let c = cell_at(rec, kc);
    let t = trim_str(c.as_str());
    let k = replace_char_str(t.as_str(), '\\', '/');
    match strip_prefix(k.as_str(), "./") {
        Some(rest) => {
            proof {
                reveal_strlit("./");
            }
            rest
        },
        None => k,
    }
}

/// The row of a record: each header but the key column's, to its cell.
fn row_of_record(hs: &Vec<String>, kc: usize, rec: &Vec<String>) -> (r: Row)
    ensures
        r.wf(),
        row_view(r) == record_row(views(hs@), kc as int, views(rec@), hs@.len() as int),
{
    let mut row: Row = Assoc::new();
    assert(row_view(row) =~= Map::empty());
    let mut i: usize = 0;
    while i < hs.len()
        invariant
            i <= hs@.len(),
            row.wf(),
            row_view(row) == record_row(views(hs@), kc as int, views(rec@), i as int),
        decreases hs@.len() - i,
    {
        if i != kc {
            let ghost before = row;
            let v = cell_at(rec, i);
            let ghost vv = v@;
            row.insert(hs[i].clone(), v);
            assert(row_view(row) =~= row_view(before).insert(hs@[i as int]@, vv));
        }
        i = i + 1;
    }
    row
}

impl Metadata {
    /// The metadata of a table: header record `headers` and the other
    /// records, as a CSV reader gives them.
    pub fn from_table(headers: Vec<String>, records: Vec<Vec<String>>) -> (m: Metadata)
        ensures
            m.wf(),
            is_table_metadata(m, views(headers@), records_view(records@)),
    {
        let ghost recs = records_view(records@);
        let mut hs: Vec<String> = Vec::new();
        let mut i: usize = 0;
        while i < headers.len()
            invariant
                i <= headers@.len(),
                views(hs@) == trimmed(views(headers@)).take(i as int),
            decreases headers@.len() - i,
        {
            let ghost before = views(hs@);
            let t = trim_str(headers[i].as_str());
            hs.push(t);
            assert(views(hs@) =~= before.push(t@));
            i = i + 1;
            assert(trimmed(views(headers@)).take(i as int) =~= trimmed(views(headers@)).take(i - 1).push(
                t@,
            ));
        }
        assert(views(hs@) =~= trimmed(views(headers@)));
        if hs.len() == 0 {
            let m = Metadata::empty();
            assert(m.table() =~= Map::<Seq<char>, Map<Seq<char>, Seq<char>>>::empty());
            return m;
        }
        let ghost h = views(hs@);
        let (kc, recognized) = pick_path_column(&hs);
        proof {
            lemma_pick_bound(h, 0);
        }
        let mut columns: Vec<String> = Vec::new();
        let mut c: usize = 0;
        while c < hs.len()
            invariant
                c <= hs@.len(),
                kc < hs@.len(),
                h == views(hs@),
                views(columns@) == if c <= kc {
                    h.take(c as int)
                } else {
                    h.take(c as int).remove(kc as int)
                },
            decreases hs@.len() - c,
        {
            let ghost before = views(columns@);
            if c != kc {
                let x = hs[c].clone();
                columns.push(x);
                assert(views(columns@) =~= before.push(h[c as int]));
            }
            c = c + 1;
            if c <= kc {
                assert(h.take(c as int) =~= h.take(c - 1).push(h[c - 1]));
            } else if c == kc + 1 {
                assert(h.take(c as int).remove(kc as int) =~= h.take(c - 1));
            } else {
                assert(h.take(c as int).remove(kc as int) =~= h.take(c - 1).remove(kc as int).push(
                    h[c - 1],
                ));
            }
        }
        assert(h.take(c as int) =~= h);
        let mut rows: Assoc<Row> = Assoc::new();
        let mut dups: Vec<String> = Vec::new();
        assert(rows.map().map_values(|r: Row| row_view(r)) =~= Map::empty());
        let mut r: usize = 0;
        while r < records.len()
            invariant
                r <= records@.len(),
                kc < hs@.len(),
                h == views(hs@),
                recs == records_view(records@),
                rows.wf(),
                forall|q: Seq<char>| #[trigger] rows.map().contains_key(q) ==> rows.map()[q].wf(),
                rows.map().map_values(|x: Row| row_view(x)) == table_rows(h, kc as int, recs, r as int).0,
                views(dups@) == table_rows(h, kc as int, recs, r as int).1,
            decreases records@.len() - r,
        {
            let rec = &records[r];
            assert(recs[r as int] == views(rec@));
            let key = key_of_record(rec, kc);
            if !key.as_str().is_empty() {
                assert(key@.len() > 0);
                let ghost before = rows;
                let ghost bt = table_rows(h, kc as int, recs, r as int);
                assert(before.map().contains_key(key@) == bt.0.contains_key(key@));
                if rows.find(key.as_str()).is_some() {
                    dups.push(key.clone());
                    assert(views(dups@) =~= bt.1.push(key@));
                }
                let row = row_of_record(&hs, kc, rec);
                let ghost rv = row_view(row);
                rows.insert(key, row);
                assert(rows.map().map_values(|x: Row| row_view(x)) =~= before.map().map_values(
                    |x: Row| row_view(x),
                ).insert(key@, rv));
            } else {
                assert(key@.len() == 0);
            }
            r = r + 1;
        }
        let m = Metadata {
            columns,
            key_column: hs[kc].clone(),
            key_column_recognized: recognized,
            duplicate_keys: dups,
            rows,
        };
        assert(m.table() == rows.map().map_values(|x: Row| row_view(x)));
        m
    }

    /// Load metadata from the text of a CSV file at `path` (tab-separated
    /// when the path's extension is `tsv`).
    pub fn load_csv(path: &str, data: &[u8]) -> (r: Result<Metadata, csv::Error>)
        ensures
            r is Ok <==> csv_table(data@, csv_delimiter(path@)) is Some,
            r matches Ok(m) ==> m.wf() && (csv_table(data@, csv_delimiter(path@)) matches Some(
                (h, recs),
            ) && is_table_metadata(m, h, recs)),
    {
        let delimiter = delimiter_for(path);
        match csv_read(data, delimiter) {
            Ok((headers, records)) => Ok(Metadata::from_table(headers, records)),
            Err(e) => Err(e),
        }
    }
}

/// Tab for a `.tsv` path, else comma.
pub open spec fn csv_delimiter(path: Seq<char>) -> u8 {
    if crate::paths::extension_of(path) == Some("tsv"@) {
        9u8
    } else {
        44u8
    }
}

fn delimiter_for(path: &str) -> (r: u8)
    ensures
        r == csv_delimiter(path@),
{
    match crate::paths::path_extension(path) {
        Some(e) => {
            if str_eq(e.as_str(), "tsv") {
                9
            } else {
                44
            }
        },
        None => 44,
    }
}

} // verus!
