//! Checking a folder's metadata file against its images: a report that
//! explains what will be made of the file, line by line, for whoever wrote it.
//!
//! The caller looks at the disk (is the folder there, which metadata file,
//! does it exist, which rows have their image inside a bucket folder) and
//! opens the session and the metadata; the report is decided here.

use vstd::prelude::*;

use crate::buckets::{bucket_error_text, Bucket, BucketError};
use crate::metadata::{path_column_names, path_columns, resolve_key, Metadata};
use crate::model::{ImageItem, Session};
use crate::numeric::float_syntax;
use crate::paths::{extension_of, path_extension};
use crate::text::{
    decimal, join_strs, joined, lower, sort_strings, sorted_strs, str_eq, to_ascii_lower, trim, usize_to_decimal,
    views,
};

verus! {

#[derive(Clone, Copy, Debug, PartialEq, Eq, Structural)]
pub enum Level {
    Info,
    Warn,
    Error,
}

/// The lines of a check, each with its level, in order.
pub struct CheckReport {
    pub lines: Vec<(Level, String)>,
}

impl View for CheckReport {
    type V = Seq<(Level, Seq<char>)>;

    open spec fn view(&self) -> Seq<(Level, Seq<char>)> {
        self.lines@.map_values(|p: (Level, String)| (p.0, p.1@))
    }
}

/// How many of `ls` have level `l`.
pub open spec fn level_count(ls: Seq<(Level, Seq<char>)>, l: Level) -> nat
    decreases ls.len(),
{
    if ls.len() == 0 {
        0
    } else {
        level_count(ls.drop_last(), l) + if ls.last().0 == l {
            1nat
        } else {
            0nat
        }
    }
}

proof fn lemma_level_count_bound(ls: Seq<(Level, Seq<char>)>, l: Level)
    ensures
        level_count(ls, l) <= ls.len(),
    decreases ls.len(),
{
    if ls.len() > 0 {
        lemma_level_count_bound(ls.drop_last(), l);
    }
}

/// The tag that starts a line of the given level in the printed report.
pub open spec fn level_tag(l: Level) -> Seq<char> {
    match l {
        Level::Info => "     "@,
        Level::Warn => "WARN "@,
        Level::Error => "ERROR"@,
    }
}

/// The printed lines: tag, a space, the text, a line break.
pub open spec fn lines_text(ls: Seq<(Level, Seq<char>)>) -> Seq<char>
    decreases ls.len(),
{
    if ls.len() == 0 {
        Seq::empty()
    } else {
        lines_text(ls.drop_last()) + level_tag(ls.last().0) + " "@ + ls.last().1 + "\n"@
    }
}

/// The closing line: the numbers of errors and warnings.
pub open spec fn summary_line(ls: Seq<(Level, Seq<char>)>) -> Seq<char> {
    let e = level_count(ls, Level::Error);
    let w = level_count(ls, Level::Warn);
    if e > 0 {
        "Result: "@ + decimal(e) + " error(s), "@ + decimal(w) + " warning(s)"@
    } else {
        "Result: OK, "@ + decimal(w) + " warning(s)"@
    }
}

impl CheckReport {
    /// A report with no lines.
    pub fn new() -> (r: CheckReport)
        ensures
            r@ == Seq::<(Level, Seq<char>)>::empty(),
    {
        let r = CheckReport { lines: Vec::new() };
        assert(r@ =~= Seq::<(Level, Seq<char>)>::empty());
        r
    }

    fn add(&mut self, level: Level, s: String)
        ensures
            final(self)@ == old(self)@.push((level, s@)),
    {
        let ghost before = self@;
        let ghost sv = s@;
        self.lines.push((level, s));
        assert(self@ =~= before.push((level, sv)));
    }

    fn info(&mut self, s: String)
        ensures
            final(self)@ == old(self)@.push((Level::Info, s@)),
    {
        self.add(Level::Info, s);
    }

    fn warn(&mut self, s: String)
        ensures
            final(self)@ == old(self)@.push((Level::Warn, s@)),
    {
        self.add(Level::Warn, s);
    }

    fn error(&mut self, s: String)
        ensures
            final(self)@ == old(self)@.push((Level::Error, s@)),
    {
        self.add(Level::Error, s);
    }

    /// How many lines have level `level`.
    pub fn count(&self, level: Level) -> (n: usize)
        ensures
            n == level_count(self@, level),
    {
        let mut n: usize = 0;
        let mut i: usize = 0;
        while i < self.lines.len()
            invariant
                i <= self@.len(),
                self@.len() == self.lines@.len(),
                n == level_count(self@.take(i as int), level),
                n <= i,
            decreases self@.len() - i,
        {
            assert(self@.take(i + 1).drop_last() =~= self@.take(i as int));
            assert(self@[i as int].0 == self.lines@[i as int].0);
            if self.lines[i].0 == level {
                n = n + 1;
            }
            i = i + 1;
        }
        assert(self@.take(i as int) =~= self@);
        n
    }

    /// Whether some line is an error.
    pub fn has_errors(&self) -> (r: bool)
        ensures
            r == (level_count(self@, Level::Error) > 0),
    {
        self.count(Level::Error) > 0
    }

    /// The report as printed: one tagged line each, then the result line.
    pub fn render(&self) -> (r: String)
        ensures
            r@ == lines_text(self@) + summary_line(self@),
    {
        let mut out = String::new();
        let mut i: usize = 0;
        while i < self.lines.len()
            invariant
                i <= self@.len(),
                self@.len() == self.lines@.len(),
                out@ == lines_text(self@.take(i as int)),
            decreases self@.len() - i,
        {
            assert(self@.take(i + 1).drop_last() =~= self@.take(i as int));
            let (level, line) = (self.lines[i].0, &self.lines[i].1);
            let tag = match level {
                Level::Info => "     ",
                Level::Warn => "WARN ",
                Level::Error => "ERROR",
            };
            out.append(tag);
            out.append(" ");
            out.append(line.as_str());
            out.append("\n");
            i = i + 1;
            assert(out@ =~= lines_text(self@.take(i as int)));
        }
        assert(self@.take(i as int) =~= self@);
        let e = self.count(Level::Error);
        let w = self.count(Level::Warn);
        if e > 0 {
            out.append("Result: ");
            out.append(usize_to_decimal(e).as_str());
            out.append(" error(s), ");
            out.append(usize_to_decimal(w).as_str());
            out.append(" warning(s)");
        } else {
            out.append("Result: OK, ");
            out.append(usize_to_decimal(w).as_str());
            out.append(" warning(s)");
        }
        out
    }
}

pub open spec fn quote(s: Seq<char>) -> Seq<char> {
    "'"@ + s + "'"@
}

/// Up to `n` of the strings `s`, in ascending order, quoted and separated by
/// commas; when some are left out, how many.
pub open spec fn examples_text(s: Seq<Seq<char>>, n: nat) -> Seq<char> {
    let v = sorted_strs(s);
    if v.len() > n {
        joined(v.take(n as int).map_values(|x: Seq<char>| quote(x)), ", "@) + ", … (+"@ + decimal(
            (v.len() - n) as nat,
        ) + ")"@
    } else {
        joined(v.map_values(|x: Seq<char>| quote(x)), ", "@)
    }
}

fn examples(items: Vec<String>, n: usize) -> (r: String)
    ensures
        r@ == examples_text(views(items@), n as nat),
{
    let v = sort_strings(items);
    let ghost sv = sorted_strs(views(items@));
    let shown: usize = if v.len() > n {
        n
    } else {
        v.len()
    };
    let mut quoted: Vec<String> = Vec::new();
    let mut i: usize = 0;
    while i < shown
        invariant
            i <= shown <= v@.len(),
            views(v@) == sv,
            views(quoted@) == sv.take(i as int).map_values(|x: Seq<char>| quote(x)),
        decreases shown - i,
    {
        let mut q = String::from_str("'");
        q.append(v[i].as_str());
        q.append("'");
        let ghost before = views(quoted@);
        quoted.push(q);
        proof {
            assert(views(quoted@) =~= before.push(quote(sv[i as int])));
            assert(sv.take(i + 1).map_values(|x: Seq<char>| quote(x)) =~= sv.take(i as int).map_values(
                |x: Seq<char>| quote(x),
            ).push(quote(sv[i as int])));
        }
        i = i + 1;
    }
    let mut s = join_strs(&quoted, ", ");
    if v.len() > n {
        s.append(", … (+");
        s.append(usize_to_decimal(v.len() - n).as_str());
        s.append(")");
    } else {
        assert(sv.take(i as int) =~= sv);
    }
    s
}

/// The relative paths of the images, in list order.
pub open spec fn item_paths(items: Seq<ImageItem>) -> Seq<Seq<char>> {
    items.map_values(|it: ImageItem| it.rel_path@)
}

/// The row key that `p` resolves to, or empty.
pub open spec fn resolved_key(m: Metadata, p: Seq<char>) -> Seq<char> {
    match resolve_key(m, p) {
        Some((k, _)) => k,
        None => Seq::empty(),
    }
}

/// `p` found its row by file name only.
pub open spec fn by_name_match(m: Metadata, p: Seq<char>) -> bool {
    resolve_key(m, p) matches Some((_, exact)) && !exact
}

/// `p` found its row by file name only, and that row's key names a folder.
pub open spec fn folder_mismatch(m: Metadata, p: Seq<char>) -> bool {
    by_name_match(m, p) && resolved_key(m, p).contains('/')
}

/// The paths among `ps` that have no row.
pub open spec fn unmatched(m: Metadata, ps: Seq<Seq<char>>) -> Seq<Seq<char>> {
    ps.filter(|p: Seq<char>| resolve_key(m, p) is None)
}

/// The paths among `ps` that found their row by file name only.
pub open spec fn name_matched(m: Metadata, ps: Seq<Seq<char>>) -> Seq<Seq<char>> {
    ps.filter(|p: Seq<char>| by_name_match(m, p))
}

/// The paths among `ps` whose row was found by file name while its key
/// names another folder.
pub open spec fn misplaced(m: Metadata, ps: Seq<Seq<char>>) -> Seq<Seq<char>> {
    ps.filter(|p: Seq<char>| folder_mismatch(m, p))
}

/// How many of `ps` found row `k` by file name only.
pub open spec fn name_hits(m: Metadata, ps: Seq<Seq<char>>, k: Seq<char>) -> nat
    decreases ps.len(),
{
    if ps.len() == 0 {
        0
    } else {
        name_hits(m, ps.drop_last(), k) + if resolve_key(m, ps.last()) == Some((k, false)) {
            1nat
        } else {
            0nat
        }
    }
}

/// Some path among `ps` found row `k`.
pub open spec fn key_used(m: Metadata, ps: Seq<Seq<char>>, k: Seq<char>) -> bool
    decreases ps.len(),
{
    ps.len() > 0 && (key_used(m, ps.drop_last(), k) || (resolve_key(m, ps.last()) is Some
        && resolved_key(m, ps.last()) == k))
}

/// The keys among `ks` found by file name by more than one of `ps`.
pub open spec fn hit_by_many(m: Metadata, ps: Seq<Seq<char>>, ks: Seq<Seq<char>>) -> Seq<Seq<char>> {
    ks.filter(|k: Seq<char>| name_hits(m, ps, k) > 1)
}

/// The keys among `ks` that none of `ps` found.
pub open spec fn unused(m: Metadata, ps: Seq<Seq<char>>, ks: Seq<Seq<char>>) -> Seq<Seq<char>> {
    ks.filter(|k: Seq<char>| !key_used(m, ps, k))
}

/// The rows found by file name by more than one image.
pub open spec fn shared_keys(m: Metadata, ps: Seq<Seq<char>>) -> Seq<Seq<char>> {
    hit_by_many(m, ps, m.rows.key_seq())
}

/// Two different images among `ps` found row `k` by file name.
pub open spec fn found_by_two(m: Metadata, ps: Seq<Seq<char>>, k: Seq<char>) -> bool {
    exists|i: int, j: int|
        0 <= i < j < ps.len() && #[trigger] resolve_key(m, ps[i]) == Some((k, false)) && #[trigger] resolve_key(
            m,
            ps[j],
        ) == Some((k, false))
}

proof fn lemma_name_hits(m: Metadata, ps: Seq<Seq<char>>, k: Seq<char>)
    ensures
        name_hits(m, ps, k) >= 1 <==> exists|i: int|
            0 <= i < ps.len() && #[trigger] resolve_key(m, ps[i]) == Some((k, false)),
        name_hits(m, ps, k) >= 2 <==> found_by_two(m, ps, k),
    decreases ps.len(),
{
    if ps.len() > 0 {
        let q = ps.drop_last();
        let l = ps.len() - 1;
        lemma_name_hits(m, q, k);
        assert forall|i: int| 0 <= i < q.len() implies q[i] == ps[i] by {}
        if exists|i: int| 0 <= i < ps.len() && #[trigger] resolve_key(m, ps[i]) == Some((k, false)) {
            let i = choose|i: int| 0 <= i < ps.len() && #[trigger] resolve_key(m, ps[i]) == Some((k, false));
            if i < l {
                assert(resolve_key(m, q[i]) == Some((k, false)));
            }
        }
        if name_hits(m, q, k) >= 1 {
            let i = choose|i: int| 0 <= i < q.len() && #[trigger] resolve_key(m, q[i]) == Some((k, false));
            assert(resolve_key(m, ps[i]) == Some((k, false)));
        }
        if found_by_two(m, ps, k) {
            let (i, j) = choose|i: int, j: int|
                0 <= i < j < ps.len() && #[trigger] resolve_key(m, ps[i]) == Some((k, false))
                    && #[trigger] resolve_key(m, ps[j]) == Some((k, false));
            assert(resolve_key(m, q[i]) == Some((k, false)));
            if j < l {
                assert(resolve_key(m, q[j]) == Some((k, false)));
                assert(found_by_two(m, q, k));
            }
        }
        if found_by_two(m, q, k) {
            let (i, j) = choose|i: int, j: int|
                0 <= i < j < q.len() && #[trigger] resolve_key(m, q[i]) == Some((k, false))
                    && #[trigger] resolve_key(m, q[j]) == Some((k, false));
            assert(resolve_key(m, ps[i]) == Some((k, false)) && resolve_key(m, ps[j]) == Some((k, false)));
        }
        if name_hits(m, q, k) == 1 && resolve_key(m, ps[l]) == Some((k, false)) {
            let i = choose|i: int| 0 <= i < q.len() && #[trigger] resolve_key(m, q[i]) == Some((k, false));
            assert(resolve_key(m, ps[i]) == Some((k, false)));
            assert(found_by_two(m, ps, k));
        }
    }
}

/// The check warns that a file-name key applies to several images exactly
/// for the rows that at least two different images found by file name; a
/// row that only one image found by name is never in that warning.
pub proof fn law_shared_keys_are_found_twice(m: Metadata, ps: Seq<Seq<char>>, k: Seq<char>)
    ensures
        shared_keys(m, ps).contains(k) <==> m.rows.key_seq().contains(k) && found_by_two(m, ps, k),
        (shared_lines(m, ps).len() > 0) <==> exists|x: Seq<char>|
            #[trigger] m.rows.key_seq().contains(x) && found_by_two(m, ps, x),
{
    broadcast use vstd::seq_lib::group_filter_ensures;

    let ks = m.rows.key_seq();
    let f = |x: Seq<char>| name_hits(m, ps, x) > 1;
    lemma_name_hits(m, ps, k);
    if ks.contains(k) && found_by_two(m, ps, k) {
        let i = choose|i: int| 0 <= i < ks.len() && ks[i] == k;
        ks.lemma_filter_contains(f, i);
    }
    if shared_keys(m, ps).contains(k) {
        ks.lemma_filter_contains_rev(f, k);
        let i = choose|i: int| 0 <= i < ks.filter(f).len() && ks.filter(f)[i] == k;
        ks.lemma_filter_pred(f, i);
    }
    if shared_lines(m, ps).len() > 0 {
        let sh = shared_keys(m, ps);
        ks.lemma_filter_contains_rev(f, sh[0]);
        ks.lemma_filter_pred(f, 0);
        assert(sh.contains(sh[0]));
        lemma_name_hits(m, ps, sh[0]);
    }
    if exists|x: Seq<char>| #[trigger] ks.contains(x) && found_by_two(m, ps, x) {
        let x = choose|x: Seq<char>| #[trigger] ks.contains(x) && found_by_two(m, ps, x);
        lemma_name_hits(m, ps, x);
        let i = choose|i: int| 0 <= i < ks.len() && ks[i] == x;
        ks.lemma_filter_contains(f, i);
        assert(shared_keys(m, ps).len() > 0);
    }
}

/// The rows that no image found.
pub open spec fn orphans(m: Metadata, ps: Seq<Seq<char>>) -> Seq<Seq<char>> {
    unused(m, ps, m.rows.key_seq())
}

/// The strings of `ks` that occur in `list`.
pub open spec fn listed(ks: Seq<Seq<char>>, list: Seq<Seq<char>>) -> Seq<Seq<char>> {
    ks.filter(|k: Seq<char>| list.contains(k))
}

/// The strings of `ks` that do not occur in `list`.
pub open spec fn unlisted(ks: Seq<Seq<char>>, list: Seq<Seq<char>>) -> Seq<Seq<char>> {
    ks.filter(|k: Seq<char>| !list.contains(k))
}

/// How the images met the rows.
struct MatchFacts {
    used: Vec<bool>,
    hits: Vec<usize>,
    unmatched: Vec<String>,
    by_name: usize,
    misplaced: Vec<String>,
}

fn match_rows(m: &Metadata, items: &Vec<ImageItem>) -> (f: MatchFacts)
    requires
        m.wf(),
    ensures
        f.used@.len() == m.rows.key_seq().len(),
        f.hits@.len() == m.rows.key_seq().len(),
        forall|t: int|
            0 <= t < f.used@.len() ==> f.used@[t] == key_used(
                *m,
                item_paths(items@),
                #[trigger] m.rows.key_seq()[t],
            ),
        forall|t: int|
            0 <= t < f.hits@.len() ==> f.hits@[t] == name_hits(
                *m,
                item_paths(items@),
                #[trigger] m.rows.key_seq()[t],
            ),
        views(f.unmatched@) == unmatched(*m, item_paths(items@)),
        f.by_name == name_matched(*m, item_paths(items@)).len(),
        views(f.misplaced@) == misplaced(*m, item_paths(items@)),
{
    let ghost keys = m.rows.key_seq();
    let ghost ps = item_paths(items@);
    let nk = m.rows.len();
    let mut used: Vec<bool> = Vec::new();
    let mut hits: Vec<usize> = Vec::new();
    let mut t: usize = 0;
    while t < nk
        invariant
            t <= nk,
            nk == keys.len(),
            used@.len() == t,
            hits@.len() == t,
            forall|q: int| 0 <= q < t ==> !used@[q] && hits@[q] == 0,
        decreases nk - t,
    {
        used.push(false);
        hits.push(0);
        t = t + 1;
    }
    let mut unmatched_v: Vec<String> = Vec::new();
    let mut misplaced_v: Vec<String> = Vec::new();
    let mut by_name: usize = 0;
    let mut j: usize = 0;
    assert(ps.take(0) =~= Seq::<Seq<char>>::empty());
    while j < items.len()
        invariant
            j <= items@.len(),
            ps == item_paths(items@),
            ps.len() == items@.len(),
            keys == m.rows.key_seq(),
            m.wf(),
            nk == keys.len(),
            used@.len() == nk,
            hits@.len() == nk,
            forall|q: int| 0 <= q < nk ==> used@[q] == key_used(*m, ps.take(j as int), #[trigger] keys[q]),
            forall|q: int| 0 <= q < nk ==> hits@[q] == name_hits(*m, ps.take(j as int), #[trigger] keys[q]),
            forall|q: int| 0 <= q < nk ==> hits@[q] <= j,
            views(unmatched_v@) == unmatched(*m, ps.take(j as int)),
            by_name == name_matched(*m, ps.take(j as int)).len(),
            by_name <= j,
            views(misplaced_v@) == misplaced(*m, ps.take(j as int)),
        decreases items@.len() - j,
    {
        let ghost p = ps[j as int];
        assert(ps.take(j + 1).drop_last() =~= ps.take(j as int));
        assert(ps.take(j + 1).last() == p);
        let rel = &items[j].rel_path;
        assert(rel@ == p);
        proof {
            reveal_with_fuel(Seq::filter, 1);
            assert(unmatched(*m, ps.take(j + 1)) == if resolve_key(*m, p) is None {
                unmatched(*m, ps.take(j as int)).push(p)
            } else {
                unmatched(*m, ps.take(j as int))
            });
            assert(name_matched(*m, ps.take(j + 1)) == if by_name_match(*m, p) {
                name_matched(*m, ps.take(j as int)).push(p)
            } else {
                name_matched(*m, ps.take(j as int))
            });
        }
        match m.row_key(rel.as_str()) {
            Some((k, exact)) => {
                proof {
                    crate::metadata::lemma_resolved_present(*m, p);
                }
                let found = m.rows.find(k);
                let ti = match found {
                    Some(x) => x,
                    None => {
                        assert(false);
                        0
                    },
                };
                assert(keys[ti as int] == k@);
                let ghost used0 = used@;
                let ghost hits0 = hits@;
                used.set(ti, true);
                if !exact {
                    hits.set(ti, hits[ti] + 1);
                    by_name = by_name + 1;
                    if crate::text::has_char(k, '/') {
                        let ghost before = views(misplaced_v@);
                        misplaced_v.push(rel.clone());
                        assert(views(misplaced_v@) =~= before.push(p));
                    }
                }
                proof {
                    assert forall|q: int| 0 <= q < nk implies used@[q] == key_used(
                        *m,
                        ps.take(j + 1),
                        #[trigger] keys[q],
                    ) by {
                        if q != ti {
                            assert(keys[q] != keys[ti as int]) by {
                                assert(keys.no_duplicates());
                            }
                        }
                    }
                    assert forall|q: int| 0 <= q < nk implies hits@[q] == name_hits(
                        *m,
                        ps.take(j + 1),
                        #[trigger] keys[q],
                    ) by {
                        if q != ti {
                            assert(keys[q] != keys[ti as int]) by {
                                assert(keys.no_duplicates());
                            }
                        }
                    }
                }
            },
            None => {
                let ghost before = views(unmatched_v@);
                unmatched_v.push(rel.clone());
                assert(views(unmatched_v@) =~= before.push(p));
            },
        }
        j = j + 1;
    }
    assert(ps.take(j as int) =~= ps);
    MatchFacts { used, hits, unmatched: unmatched_v, by_name, misplaced: misplaced_v }
}

/// The first line about matching: how many images found a row, or an error
/// when none did.
pub open spec fn row_match_line(m: Metadata, ps: Seq<Seq<char>>) -> (Level, Seq<char>) {
    let matched = (ps.len() - unmatched(m, ps).len()) as nat;
    if ps.len() > 0 && matched == 0 {
        (
            Level::Error,
            "No image matched any row. Paths must be relative to the folder, like '"@ + ps[0]
                + "'; the file has keys like "@ + examples_text(m.rows.key_seq(), 3),
        )
    } else {
        (Level::Info, "Images with a row: "@ + decimal(matched) + " of "@ + decimal(ps.len()))
    }
}

/// A warning about the images without a row, when some others have one.
pub open spec fn unmatched_lines(m: Metadata, ps: Seq<Seq<char>>) -> Seq<(Level, Seq<char>)> {
    let um = unmatched(m, ps);
    if um.len() > 0 && um.len() < ps.len() {
        seq![
            (
                Level::Warn,
                decimal(um.len()) + " image(s) have no row (shown with blank values, sorted last): "@
                    + examples_text(um, 5),
            ),
        ]
    } else {
        Seq::empty()
    }
}

/// A line about the images that found their row by file name only.
pub open spec fn name_only_lines(m: Metadata, ps: Seq<Seq<char>>) -> Seq<(Level, Seq<char>)> {
    let wp = misplaced(m, ps);
    let bn = name_matched(m, ps).len();
    if wp.len() > 0 {
        seq![
            (
                Level::Warn,
                decimal(wp.len())
                    + " row(s) only matched by filename because their folder part is wrong, e.g. '"@
                    + resolved_key(m, wp[0]) + "' for image '"@ + wp[0]
                    + "' — write paths relative to the folder"@,
            ),
        ]
    } else if bn > 0 {
        seq![
            (
                Level::Info,
                decimal(bn) + " image(s) matched by filename only (key without subfolder)"@,
            ),
        ]
    } else {
        Seq::empty()
    }
}

/// A warning about file-name keys that several images found.
pub open spec fn shared_lines(m: Metadata, ps: Seq<Seq<char>>) -> Seq<(Level, Seq<char>)> {
    let sh = shared_keys(m, ps);
    if sh.len() > 0 {
        seq![
            (
                Level::Warn,
                decimal(sh.len())
                    + " filename-only key(s) apply to several images in different subfolders — use the full relative path: "@
                    + examples_text(sh, 5),
            ),
        ]
    } else {
        Seq::empty()
    }
}

/// Lines about the rows no image found: those whose image is already in a
/// bucket (`moved`), and the others.
pub open spec fn orphan_lines(m: Metadata, ps: Seq<Seq<char>>, moved: Seq<Seq<char>>) -> Seq<
    (Level, Seq<char>),
> {
    let o = orphans(m, ps);
    let inb = listed(o, moved);
    let miss = unlisted(o, moved);
    (if inb.len() > 0 {
        seq![
            (
                Level::Info,
                decimal(inb.len()) + " row(s) belong to images already moved into a bucket"@,
            ),
        ]
    } else {
        Seq::empty()
    }) + (if miss.len() > 0 {
        seq![(Level::Warn, decimal(miss.len()) + " row(s) match no image: "@ + examples_text(miss, 5))]
    } else {
        Seq::empty()
    })
}

/// Everything the check says about rows and images meeting.
pub open spec fn match_lines(m: Metadata, ps: Seq<Seq<char>>, moved: Seq<Seq<char>>) -> Seq<
    (Level, Seq<char>),
> {
    seq![row_match_line(m, ps)] + unmatched_lines(m, ps) + name_only_lines(m, ps) + shared_lines(
        m,
        ps,
    ) + orphan_lines(m, ps, moved)
}

/// Whether `k` is one of `list`.
fn list_has(list: &[String], k: &str) -> (r: bool)
    ensures
        r == views(list@).contains(k@),
{
    let mut i: usize = 0;
    while i < list.len()
        invariant
            i <= list@.len(),
            forall|q: int| 0 <= q < i ==> #[trigger] list@[q]@ != k@,
        decreases list@.len() - i,
    {
        if crate::text::str_eq(list[i].as_str(), k) {
            assert(views(list@)[i as int] == k@);
            return true;
        }
        i = i + 1;
    }
    proof {
        if views(list@).contains(k@) {
            let q = choose|q: int| 0 <= q < views(list@).len() && views(list@)[q] == k@;
            assert(list@[q]@ == k@);
        }
    }
    false
}

/// The row keys, as strings.
fn key_strings(m: &Metadata) -> (v: Vec<String>)
    ensures
        views(v@) == m.rows.key_seq(),
{
    let ks = m.keys();
    let mut v: Vec<String> = Vec::new();
    let mut i: usize = 0;
    while i < ks.len()
        invariant
            i <= ks@.len(),
            ks@.map_values(|s: &str| s@) == m.rows.key_seq(),
            views(v@) == m.rows.key_seq().take(i as int),
        decreases ks@.len() - i,
    {
        let ghost before = views(v@);
        let k = String::from_str(ks[i]);
        assert(ks@.map_values(|s: &str| s@)[i as int] == ks@[i as int]@);
        assert(k@ == m.rows.key_seq()[i as int]);
        v.push(k);
        assert(views(v@) =~= before.push(m.rows.key_seq()[i as int]));
        assert(views(v@) =~= m.rows.key_seq().take(i + 1));
        i = i + 1;
    }
    assert(m.rows.key_seq().take(i as int) =~= m.rows.key_seq());
    v
}

fn push_row_match(r: &mut CheckReport, m: &Metadata, items: &Vec<ImageItem>, n_unmatched: usize)
    requires
        m.wf(),
        n_unmatched == unmatched(*m, item_paths(items@)).len(),
    ensures
        final(r)@ == old(r)@.push(row_match_line(*m, item_paths(items@))),
{
    let ghost ps = item_paths(items@);
    proof {
        ps.lemma_filter_len(|p: Seq<char>| resolve_key(*m, p) is None);
    }
    assert(n_unmatched <= items@.len());
    let matched = items.len() - n_unmatched;
    if items.len() > 0 && matched == 0 {
        let mut s = String::from_str(
            "No image matched any row. Paths must be relative to the folder, like '",
        );
        s.append(items[0].rel_path.as_str());
        s.append("'; the file has keys like ");
        s.append(examples(key_strings(m), 3).as_str());
        assert(s@ =~= row_match_line(*m, ps).1);
        r.error(s);
    } else {
        let mut s = String::from_str("Images with a row: ");
        s.append(usize_to_decimal(matched).as_str());
        s.append(" of ");
        s.append(usize_to_decimal(items.len()).as_str());
        assert(s@ =~= row_match_line(*m, ps).1);
        r.info(s);
    }
}

fn push_unmatched(r: &mut CheckReport, m: &Metadata, items: &Vec<ImageItem>, um: Vec<String>)
    requires
        m.wf(),
        views(um@) == unmatched(*m, item_paths(items@)),
    ensures
        final(r)@ == old(r)@ + unmatched_lines(*m, item_paths(items@)),
{
    let ghost ps = item_paths(items@);
    let n = um.len();
    if n > 0 && n < items.len() {
        let mut s = usize_to_decimal(n);
        s.append(" image(s) have no row (shown with blank values, sorted last): ");
        s.append(examples(um, 5).as_str());
        assert(s@ =~= unmatched_lines(*m, ps)[0].1);
        r.warn(s);
        assert(r@ =~= old(r)@ + unmatched_lines(*m, ps));
    } else {
        assert(r@ =~= old(r)@ + unmatched_lines(*m, ps));
    }
}

fn push_name_only(
    r: &mut CheckReport,
    m: &Metadata,
    items: &Vec<ImageItem>,
    wp: &Vec<String>,
    by_name: usize,
)
    requires
        m.wf(),
        views(wp@) == misplaced(*m, item_paths(items@)),
        by_name == name_matched(*m, item_paths(items@)).len(),
    ensures
        final(r)@ == old(r)@ + name_only_lines(*m, item_paths(items@)),
{
    let ghost ps = item_paths(items@);
    if wp.len() > 0 {
        let rel = &wp[0];
        assert(rel@ == misplaced(*m, ps)[0]);
        let key = match m.row_key(rel.as_str()) {
            Some((k, _)) => String::from_str(k),
            None => String::new(),
        };
        assert(key@ == resolved_key(*m, rel@));
        let mut s = usize_to_decimal(wp.len());
        s.append(" row(s) only matched by filename because their folder part is wrong, e.g. '");
        s.append(key.as_str());
        s.append("' for image '");
        s.append(rel.as_str());
        s.append("' — write paths relative to the folder");
        assert(s@ =~= name_only_lines(*m, ps)[0].1);
        r.warn(s);
        assert(r@ =~= old(r)@ + name_only_lines(*m, ps));
    } else if by_name > 0 {
        let mut s = usize_to_decimal(by_name);
        s.append(" image(s) matched by filename only (key without subfolder)");
        assert(s@ =~= name_only_lines(*m, ps)[0].1);
        r.info(s);
        assert(r@ =~= old(r)@ + name_only_lines(*m, ps));
    } else {
        assert(r@ =~= old(r)@ + name_only_lines(*m, ps));
    }
}

fn push_shared(r: &mut CheckReport, m: &Metadata, items: &Vec<ImageItem>, hits: &Vec<usize>)
    requires
        m.wf(),
        hits@.len() == m.rows.key_seq().len(),
        forall|t: int|
            0 <= t < hits@.len() ==> hits@[t] == name_hits(
                *m,
                item_paths(items@),
                #[trigger] m.rows.key_seq()[t],
            ),
    ensures
        final(r)@ == old(r)@ + shared_lines(*m, item_paths(items@)),
{
    let ghost ps = item_paths(items@);
    let ghost ks = m.rows.key_seq();
    let keys = key_strings(m);
    let mut sh: Vec<String> = Vec::new();
    let mut t: usize = 0;
    while t < keys.len()
        invariant
            t <= keys@.len(),
            views(keys@) == ks,
            ks == m.rows.key_seq(),
            hits@.len() == ks.len(),
            forall|q: int| 0 <= q < hits@.len() ==> hits@[q] == name_hits(*m, ps, #[trigger] ks[q]),
            views(sh@) == hit_by_many(*m, ps, ks.take(t as int)),
        decreases keys@.len() - t,
    {
        proof {
            reveal_with_fuel(Seq::filter, 1);
            assert(ks.take(t + 1).drop_last() =~= ks.take(t as int));
        }
        assert(keys@[t as int]@ == ks[t as int]);
        if hits[t] > 1 {
            let ghost before = views(sh@);
            sh.push(keys[t].clone());
            assert(views(sh@) =~= before.push(ks[t as int]));
        }
        t = t + 1;
    }
    assert(ks.take(t as int) =~= ks);
    if sh.len() > 0 {
        let mut s = usize_to_decimal(sh.len());
        s.append(
            " filename-only key(s) apply to several images in different subfolders — use the full relative path: ",
        );
        s.append(examples(sh, 5).as_str());
        assert(s@ =~= shared_lines(*m, ps)[0].1);
        r.warn(s);
        assert(r@ =~= old(r)@ + shared_lines(*m, ps));
    } else {
        assert(r@ =~= old(r)@ + shared_lines(*m, ps));
    }
}

fn push_orphans(
    r: &mut CheckReport,
    m: &Metadata,
    items: &Vec<ImageItem>,
    used: &Vec<bool>,
    moved: &[String],
)
    requires
        m.wf(),
        used@.len() == m.rows.key_seq().len(),
        forall|t: int|
            0 <= t < used@.len() ==> used@[t] == key_used(
                *m,
                item_paths(items@),
                #[trigger] m.rows.key_seq()[t],
            ),
    ensures
        final(r)@ == old(r)@ + orphan_lines(*m, item_paths(items@), views(moved@)),
{
    let ghost ps = item_paths(items@);
    let ghost ks = m.rows.key_seq();
    let ghost mv = views(moved@);
    let keys = key_strings(m);
    let mut inb: usize = 0;
    let mut miss: Vec<String> = Vec::new();
    let ghost mut orph: Seq<Seq<char>> = Seq::empty();
    let mut t: usize = 0;
    while t < keys.len()
        invariant
            t <= keys@.len(),
            views(keys@) == ks,
            ks == m.rows.key_seq(),
            mv == views(moved@),
            used@.len() == ks.len(),
            forall|q: int| 0 <= q < used@.len() ==> used@[q] == key_used(*m, ps, #[trigger] ks[q]),
            orph == unused(*m, ps, ks.take(t as int)),
            inb == listed(orph, mv).len(),
            inb <= t,
            views(miss@) == unlisted(orph, mv),
        decreases keys@.len() - t,
    {
        proof {
            reveal_with_fuel(Seq::filter, 1);
            assert(ks.take(t + 1).drop_last() =~= ks.take(t as int));
        }
        let k = &keys[t];
        assert(k@ == ks[t as int]);
        if !used[t] {
            let ghost o0 = orph;
            proof {
                orph = orph.push(k@);
                assert(orph.drop_last() =~= o0);
            }
            if list_has(moved, k.as_str()) {
                inb = inb + 1;
            } else {
                let ghost before = views(miss@);
                miss.push(k.clone());
                assert(views(miss@) =~= before.push(k@));
            }
        }
        t = t + 1;
    }
    assert(ks.take(t as int) =~= ks);
    let ghost o = orphans(*m, ps);
    if inb > 0 {
        let mut s = usize_to_decimal(inb);
        s.append(" row(s) belong to images already moved into a bucket");
        r.info(s);
    }
    let ghost mid = r@;
    if miss.len() > 0 {
        let mut s = usize_to_decimal(miss.len());
        s.append(" row(s) match no image: ");
        s.append(examples(miss, 5).as_str());
        r.warn(s);
    }
    assert(r@ =~= old(r)@ + orphan_lines(*m, ps, mv));
}

/// Push the lines about rows and images meeting.
fn match_report(r: &mut CheckReport, m: &Metadata, items: &Vec<ImageItem>, moved: &[String])
    requires
        m.wf(),
    ensures
        final(r)@ == old(r)@ + match_lines(*m, item_paths(items@), views(moved@)),
{
    let ghost ps = item_paths(items@);
    let f = match_rows(m, items);
    push_row_match(r, m, items, f.unmatched.len());
    let ghost r1 = r@;
    push_unmatched(r, m, items, f.unmatched);
    let ghost r2 = r@;
    push_name_only(r, m, items, &f.misplaced, f.by_name);
    let ghost r3 = r@;
    push_shared(r, m, items, &f.hits);
    let ghost r4 = r@;
    push_orphans(r, m, items, &f.used, moved);
    assert(r@ =~= old(r)@ + match_lines(*m, ps, views(moved@)));
}

/// The cell of row `k` in column `c`, or empty.
pub open spec fn row_cell(m: Metadata, k: Seq<char>, c: Seq<char>) -> Seq<char> {
    if m.table().contains_key(k) && m.table()[k].contains_key(c) {
        m.table()[k][c]
    } else {
        Seq::empty()
    }
}

/// The trimmed cells of column `c` in the rows `ks`.
pub open spec fn column_cells(m: Metadata, ks: Seq<Seq<char>>, c: Seq<char>) -> Seq<Seq<char>> {
    ks.map_values(|k: Seq<char>| trim(row_cell(m, k, c)))
}

pub open spec fn blank_cells(cs: Seq<Seq<char>>) -> Seq<Seq<char>> {
    cs.filter(|v: Seq<char>| v.len() == 0)
}

pub open spec fn number_cells(cs: Seq<Seq<char>>) -> Seq<Seq<char>> {
    cs.filter(|v: Seq<char>| v.len() > 0 && float_syntax(v))
}

pub open spec fn text_cells(cs: Seq<Seq<char>>) -> Seq<Seq<char>> {
    cs.filter(|v: Seq<char>| v.len() > 0 && !float_syntax(v))
}

/// The strings of `s`, each once, in order of first occurrence.
pub open spec fn distinct(s: Seq<Seq<char>>) -> Seq<Seq<char>>
    decreases s.len(),
{
    if s.len() == 0 {
        Seq::empty()
    } else if distinct(s.drop_last()).contains(s.last()) {
        distinct(s.drop_last())
    } else {
        distinct(s.drop_last()).push(s.last())
    }
}

pub open spec fn blanks_note(blank: nat) -> Seq<char> {
    if blank > 0 {
        ", "@ + decimal(blank) + " blank (sorted last)"@
    } else {
        Seq::empty()
    }
}

/// What the check says of column `c`: numeric, text, mixed, or blank.
pub open spec fn column_line(m: Metadata, c: Seq<char>) -> (Level, Seq<char>) {
    let cs = column_cells(m, m.rows.key_seq(), c);
    let num = number_cells(cs).len();
    let blank = blank_cells(cs).len();
    let text = text_cells(cs);
    if num > 0 && text.len() > 0 {
        (
            Level::Warn,
            "Column '"@ + c + "': "@ + decimal(num) + " numbers but "@ + decimal(text.len())
                + " text value(s) such as "@ + examples_text(distinct(text), 3)
                + " — text sorts after all numbers; leave cells blank instead"@ + blanks_note(blank),
        )
    } else if num > 0 {
        (Level::Info, "Column '"@ + c + "': numeric (sorts by value)"@ + blanks_note(blank))
    } else if text.len() > 0 {
        (Level::Info, "Column '"@ + c + "': text (sorts A→Z, case-insensitive)"@ + blanks_note(blank))
    } else {
        (Level::Warn, "Column '"@ + c + "': every cell is blank"@)
    }
}

/// One line per column, in column order.
pub open spec fn column_lines(m: Metadata, cols: Seq<Seq<char>>) -> Seq<(Level, Seq<char>)> {
    cols.map_values(|c: Seq<char>| column_line(m, c))
}

fn column_report_line(m: &Metadata, keys: &Vec<String>, col: &str) -> (l: (Level, String))
    requires
        m.wf(),
        views(keys@) == m.rows.key_seq(),
    ensures
        (l.0, l.1@) == column_line(*m, col@),
{
    let ghost ks = m.rows.key_seq();
    let mut num: usize = 0;
    let mut blank: usize = 0;
    let mut text: usize = 0;
    let mut uniq: Vec<String> = Vec::new();
    let ghost mut tv: Seq<Seq<char>> = Seq::empty();
    let mut t: usize = 0;
    while t < keys.len()
        invariant
            t <= keys@.len(),
            m.wf(),
            views(keys@) == ks,
            ks == m.rows.key_seq(),
            num == number_cells(column_cells(*m, ks.take(t as int), col@)).len(),
            blank == blank_cells(column_cells(*m, ks.take(t as int), col@)).len(),
            tv == text_cells(column_cells(*m, ks.take(t as int), col@)),
            text == tv.len(),
            views(uniq@) == distinct(tv),
            num + blank + text <= t,
        decreases keys@.len() - t,
    {
        let ghost before = column_cells(*m, ks.take(t as int), col@);
        let k = &keys[t];
        assert(k@ == ks[t as int]);
        let v = match m.value(k.as_str(), col) {
            Some(x) => crate::text::trim_str(x),
            None => crate::text::trim_str(""),
        };
        proof {
            assert(""@ =~= Seq::<char>::empty()) by {
                reveal_strlit("");
            }
            assert(v@ == trim(row_cell(*m, k@, col@)));
            assert(column_cells(*m, ks.take(t + 1), col@) =~= before.push(v@));
            reveal_with_fuel(Seq::filter, 1);
            assert(before.push(v@).drop_last() =~= before);
        }
        let blank_v = crate::text::chars_of(v.as_str()).len() == 0;
        if blank_v {
            blank = blank + 1;
        } else if crate::numeric::is_number(v.as_str()) {
            num = num + 1;
        } else {
            text = text + 1;
            proof {
                let t0 = tv;
                tv = tv.push(v@);
                assert(tv.drop_last() =~= t0);
            }
            if !list_has(&uniq, v.as_str()) {
                let ghost u0 = views(uniq@);
                uniq.push(v);
                assert(views(uniq@) =~= u0.push(tv.last()));
            }
        }
        t = t + 1;
    }
    assert(ks.take(t as int) =~= ks);
    let ghost line = column_line(*m, col@);
    let mut blanks = String::new();
    if blank > 0 {
        blanks.append(", ");
        blanks.append(usize_to_decimal(blank).as_str());
        blanks.append(" blank (sorted last)");
    }
    assert(blanks@ =~= blanks_note(blank as nat));
    let mut s = String::from_str("Column '");
    s.append(col);
    if num > 0 && text > 0 {
        s.append("': ");
        s.append(usize_to_decimal(num).as_str());
        s.append(" numbers but ");
        s.append(usize_to_decimal(text).as_str());
        s.append(" text value(s) such as ");
        s.append(examples(uniq, 3).as_str());
        s.append(" — text sorts after all numbers; leave cells blank instead");
        s.append(blanks.as_str());
        assert(s@ =~= line.1);
        (Level::Warn, s)
    } else if num > 0 {
        s.append("': numeric (sorts by value)");
        s.append(blanks.as_str());
        assert(s@ =~= line.1);
        (Level::Info, s)
    } else if text > 0 {
        s.append("': text (sorts A→Z, case-insensitive)");
        s.append(blanks.as_str());
        assert(s@ =~= line.1);
        (Level::Info, s)
    } else {
        s.append("': every cell is blank");
        assert(s@ =~= line.1);
        (Level::Warn, s)
    }
}

/// Push one line per column.
fn column_report(r: &mut CheckReport, m: &Metadata)
    requires
        m.wf(),
    ensures
        final(r)@ == old(r)@ + column_lines(*m, views(m.columns@)),
{
    let keys = key_strings(m);
    let ghost cols = views(m.columns@);
    let mut i: usize = 0;
    while i < m.columns.len()
        invariant
            i <= cols.len(),
            m.wf(),
            cols == views(m.columns@),
            views(keys@) == m.rows.key_seq(),
            r@ == old(r)@ + column_lines(*m, cols.take(i as int)),
        decreases cols.len() - i,
    {
        let l = column_report_line(m, &keys, m.columns[i].as_str());
        assert(m.columns@[i as int]@ == cols[i as int]);
        r.add(l.0, l.1);
        assert(column_lines(*m, cols.take(i + 1)) =~= column_lines(*m, cols.take(i as int)).push(
            column_line(*m, cols[i as int]),
        ));
        i = i + 1;
        assert(r@ =~= old(r)@ + column_lines(*m, cols.take(i as int)));
    }
    assert(cols.take(i as int) =~= cols);
}

/// The folders of the buckets, in order.
pub open spec fn bucket_folders(bs: Seq<Bucket>) -> Seq<Seq<char>> {
    bs.map_values(|b: Bucket| b.folder@)
}

/// The opening lines: the folder, and how many images are up for review.
pub open spec fn folder_lines(s: Session, recursive: bool) -> Seq<(Level, Seq<char>)> {
    seq![
        (Level::Info, "Folder: "@ + s.root@),
        (
            Level::Info,
            "Images to review: "@ + decimal(s.items@.len()) + " ("@ + (if recursive {
                "recursive"@
            } else {
                "top level only"@
            }) + "; bucket folders skipped: "@ + joined(bucket_folders(s.buckets@), ", "@) + ")"@,
        ),
    ]
}

/// Which column holds the image paths.
pub open spec fn path_column_line(m: Metadata) -> (Level, Seq<char>) {
    if m.key_column_recognized {
        (Level::Info, "Path column: '"@ + m.key_column@ + "'"@)
    } else {
        (
            Level::Warn,
            "No path column found (expected a header named one of: "@ + joined(path_columns(), ", "@)
                + "); using the first column '"@ + m.key_column@ + "'"@,
        )
    }
}

/// How many rows, and the other columns.
pub open spec fn rows_line(m: Metadata) -> (Level, Seq<char>) {
    (
        Level::Info,
        "Rows: "@ + decimal(m.rows.key_seq().len()) + ", other columns: "@ + joined(
            views(m.columns@),
            ", "@,
        ),
    )
}

/// A warning about paths that appear on several rows.
pub open spec fn duplicate_lines(m: Metadata) -> Seq<(Level, Seq<char>)> {
    if m.duplicate_keys@.len() > 0 {
        seq![
            (
                Level::Warn,
                decimal(m.duplicate_keys@.len())
                    + " path(s) appear on more than one row; the last row wins: "@ + examples_text(
                    views(m.duplicate_keys@),
                    5,
                ),
            ),
        ]
    } else {
        Seq::empty()
    }
}

/// A command line that sorts by the first column.
pub open spec fn try_lines(m: Metadata, root: Seq<char>) -> Seq<(Level, Seq<char>)> {
    if m.columns@.len() > 0 {
        seq![
            (
                Level::Info,
                "Try: winnow "@ + root + " --sort meta:"@ + m.columns@[0]@ + " --sort-desc"@,
            ),
        ]
    } else {
        Seq::empty()
    }
}

/// What the check says of a parsed metadata file.
pub open spec fn metadata_report(s: Session, m: Metadata, moved: Seq<Seq<char>>) -> Seq<
    (Level, Seq<char>),
> {
    seq![path_column_line(m), rows_line(m)] + if m.rows.key_seq().len() == 0 {
        seq![(Level::Error, "The file has no data rows"@)]
    } else {
        duplicate_lines(m) + match_lines(m, item_paths(s.items@), moved) + column_lines(
            m,
            views(m.columns@),
        ) + try_lines(m, s.root@)
    }
}

/// The extension of a path, lower-cased (empty when it has none).
pub open spec fn lower_extension(p: Seq<char>) -> Seq<char> {
    lower(
        match extension_of(p) {
            Some(e) => e,
            None => Seq::empty(),
        },
    )
}

/// What the check says once the folder is open: which metadata file, and
/// what is wrong with it or what it holds.
pub open spec fn metadata_lines(
    s: Session,
    meta_path: Option<Seq<char>>,
    meta_is_file: bool,
    meta: Result<Metadata, String>,
    moved: Seq<Seq<char>>,
) -> Seq<(Level, Seq<char>)> {
    match meta_path {
        None => seq![
            (
                Level::Error,
                "No metadata file: looked for metadata.csv / metadata.tsv in the folder (or pass --metadata FILE)"@,
            ),
        ],
        Some(p) => seq![(Level::Info, "Metadata: "@ + p)] + {
            let ext = lower_extension(p);
            if ext != "csv"@ && ext != "tsv"@ {
                seq![
                    (
                        Level::Error,
                        "Unsupported metadata format '."@ + ext + "': use .csv (or tab-separated .tsv)"@,
                    ),
                ]
            } else if !meta_is_file {
                seq![(Level::Error, p + " does not exist"@)]
            } else {
                match meta {
                    Err(e) => seq![(Level::Error, "Could not parse: "@ + e@)],
                    Ok(m) => metadata_report(s, m, moved),
                }
            }
        },
    }
}

/// The whole report of a check.
pub open spec fn check_lines(
    root: Seq<char>,
    root_is_dir: bool,
    recursive: bool,
    session: Result<Session, BucketError>,
    meta_path: Option<Seq<char>>,
    meta_is_file: bool,
    meta: Result<Metadata, String>,
    moved: Seq<Seq<char>>,
) -> Seq<(Level, Seq<char>)> {
    if !root_is_dir {
        seq![(Level::Error, root + " is not a folder"@)]
    } else {
        match session {
            Err(e) => seq![(Level::Error, "Bucket config: "@ + bucket_error_text(e))],
            Ok(s) => folder_lines(s, recursive) + metadata_lines(s, meta_path, meta_is_file, meta, moved),
        }
    }
}

pub open spec fn opt_view(o: Option<&str>) -> Option<Seq<char>> {
    match o {
        Some(p) => Some(p@),
        None => None,
    }
}

fn push_folder(r: &mut CheckReport, s: &Session, recursive: bool)
    ensures
        final(r)@ == old(r)@ + folder_lines(*s, recursive),
{
    let mut a = String::from_str("Folder: ");
    a.append(s.root.as_str());
    r.info(a);
    let mut folders: Vec<String> = Vec::new();
    let mut i: usize = 0;
    while i < s.buckets.len()
        invariant
            i <= s.buckets@.len(),
            views(folders@) == bucket_folders(s.buckets@).take(i as int),
        decreases s.buckets@.len() - i,
    {
        let ghost before = views(folders@);
        let f = s.buckets[i].folder.clone();
        assert(f@ == bucket_folders(s.buckets@)[i as int]);
        folders.push(f);
        assert(views(folders@) =~= before.push(bucket_folders(s.buckets@)[i as int]));
        assert(views(folders@) =~= bucket_folders(s.buckets@).take(i + 1));
        i = i + 1;
    }
    assert(bucket_folders(s.buckets@).take(i as int) =~= bucket_folders(s.buckets@));
    let mut b = String::from_str("Images to review: ");
    b.append(usize_to_decimal(s.items.len()).as_str());
    b.append(" (");
    if recursive {
        b.append("recursive");
    } else {
        b.append("top level only");
    }
    b.append("; bucket folders skipped: ");
    b.append(join_strs(&folders, ", ").as_str());
    b.append(")");
    r.info(b);
    assert(r@ =~= old(r)@ + folder_lines(*s, recursive));
}

fn push_metadata(r: &mut CheckReport, s: &Session, m: &Metadata, moved: &[String])
    requires
        m.wf(),
    ensures
        final(r)@ == old(r)@ + metadata_report(*s, *m, views(moved@)),
{
    if m.key_column_recognized {
        let mut a = String::from_str("Path column: '");
        a.append(m.key_column.as_str());
        a.append("'");
        r.info(a);
    } else {
        let names = path_column_names();
        let mut cols: Vec<String> = Vec::new();
        let mut i: usize = 0;
        while i < names.len()
            invariant
                i <= names@.len(),
                names@.map_values(|s: &str| s@) == path_columns(),
                views(cols@) == path_columns().take(i as int),
            decreases names@.len() - i,
        {
            let ghost before = views(cols@);
            let c = String::from_str(names[i]);
            assert(names@.map_values(|s: &str| s@)[i as int] == names@[i as int]@);
            assert(c@ == path_columns()[i as int]);
            cols.push(c);
            assert(views(cols@) =~= before.push(path_columns()[i as int]));
            assert(views(cols@) =~= path_columns().take(i + 1));
            i = i + 1;
        }
        assert(path_columns().take(i as int) =~= path_columns());
        let mut a = String::from_str("No path column found (expected a header named one of: ");
        a.append(join_strs(&cols, ", ").as_str());
        a.append("); using the first column '");
        a.append(m.key_column.as_str());
        a.append("'");
        r.warn(a);
    }
    let n_rows = m.rows.len();
    let mut b = String::from_str("Rows: ");
    b.append(usize_to_decimal(n_rows).as_str());
    b.append(", other columns: ");
    b.append(join_strs(&m.columns, ", ").as_str());
    r.info(b);
    let ghost head = r@;
    assert(head =~= old(r)@ + seq![path_column_line(*m), rows_line(*m)]);
    if n_rows == 0 {
        r.error(String::from_str("The file has no data rows"));
        assert(r@ =~= old(r)@ + metadata_report(*s, *m, views(moved@)));
        return ;
    }
    if m.duplicate_keys.len() > 0 {
        let mut d = usize_to_decimal(m.duplicate_keys.len());
        d.append(" path(s) appear on more than one row; the last row wins: ");
        d.append(examples(m.duplicate_keys.clone(), 5).as_str());
        r.warn(d);
    }
    let ghost r1 = r@;
    assert(r1 =~= head + duplicate_lines(*m));
    match_report(r, m, &s.items, moved);
    let ghost r2 = r@;
    column_report(r, m);
    let ghost r3 = r@;
    if m.columns.len() > 0 {
        let mut t = String::from_str("Try: winnow ");
        t.append(s.root.as_str());
        t.append(" --sort meta:");
        t.append(m.columns[0].as_str());
        t.append(" --sort-desc");
        r.info(t);
    }
    assert(r@ =~= r3 + try_lines(*m, s.root@));
    assert(r@ =~= old(r)@ + metadata_report(*s, *m, views(moved@)));
}

/// Check a folder's metadata file against its images. The caller says
/// whether `root` is a folder, opens the session on it, finds the metadata
/// file (the one given, else `metadata.csv` or `metadata.tsv` in the folder),
/// says whether it is a file, loads it with `Metadata::load_csv` and makes
/// its keys relative to the session root with `relativize` (or gives the
/// error text), and lists the rows whose image lies in a bucket folder
/// (`moved`). Values the check does not get to are not looked at.
pub fn check(
    root: &str,
    root_is_dir: bool,
    recursive: bool,
    session: &Result<Session, BucketError>,
    meta_path: Option<&str>,
    meta_is_file: bool,
    meta: &Result<Metadata, String>,
    moved: &[String],
) -> (r: CheckReport)
    requires
        meta matches Ok(m) ==> m.wf(),
    ensures
        r@ == check_lines(
            root@,
            root_is_dir,
            recursive,
            *session,
            opt_view(meta_path),
            meta_is_file,
            *meta,
            views(moved@),
        ),
{
    let mut r = CheckReport::new();
    if !root_is_dir {
        let mut a = String::from_str(root);
        a.append(" is not a folder");
        r.error(a);
        return r;
    }
    let s = match session {
        Ok(s) => s,
        Err(e) => {
            let mut a = String::from_str("Bucket config: ");
            a.append(e.message().as_str());
            r.error(a);
            return r;
        },
    };
    push_folder(&mut r, s, recursive);
    let ghost head = r@;
    let p = match meta_path {
        Some(p) => p,
        None => {
            r.error(
                String::from_str(
                    "No metadata file: looked for metadata.csv / metadata.tsv in the folder (or pass --metadata FILE)",
                ),
            );
            return r;
        },
    };
    let mut a = String::from_str("Metadata: ");
    a.append(p);
    r.info(a);
    let ext = match path_extension(p) {
        Some(e) => to_ascii_lower(e.as_str()),
        None => to_ascii_lower(""),
    };
    proof {
        assert(""@ =~= Seq::<char>::empty()) by {
            reveal_strlit("");
        }
    }
    assert(ext@ == lower_extension(p@));
    if !str_eq(ext.as_str(), "csv") && !str_eq(ext.as_str(), "tsv") {
        let mut u = String::from_str("Unsupported metadata format '.");
        u.append(ext.as_str());
        u.append("': use .csv (or tab-separated .tsv)");
        r.error(u);
        return r;
    }
    if !meta_is_file {
        let mut u = String::from_str(p);
        u.append(" does not exist");
        r.error(u);
        return r;
    }
    match meta {
        Err(e) => {
            let mut u = String::from_str("Could not parse: ");
            u.append(e.as_str());
            r.error(u);
            r
        },
        Ok(m) => {
            let ghost mid = r@;
            push_metadata(&mut r, s, m, moved);
            r
        },
    }
}

} // verus!
