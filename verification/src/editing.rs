//! Sorting choices and bucket editing on a session: which sort keys exist,
//! the sort key of an image, and adding, renaming and removing buckets.
//!
//! Saving the bucket list and moving folders on disk is the caller's part;
//! the session decides and records.

use vstd::prelude::*;

use crate::buckets::{bucket_view, bucket_views, free_key, next_free_key, Bucket};
use crate::metadata::{cell_of, Metadata};
use crate::numeric::float_syntax;
use crate::model::{
    clamp_after, clamp_to, first_named, lemma_first_at_bound, lemma_first_at_found, lemma_fold_moves_shape,
    law_history_keeps_wf, moved_current, moved_positions, name_of, redo_pos, redone, resorted, same_but_index,
    session_wf, undone, ImageItem, MoveOp, Session,
};
use crate::paths::{join, path_join, path_strip_base, strip_base_of};
use crate::sortkey::SortKey;
use crate::text::{
    eq_ignore_ascii_case, eq_ignore_case, has_char, has_prefix, lower, starts_with, str_eq, strip_prefix,
    to_ascii_lower, trim, trim_str, views,
};

verus! {

/// The built-in sort keys: (id, label).
pub open spec fn builtin_sorts() -> Seq<(Seq<char>, Seq<char>)> {
    seq![
        ("name"@, "Name"@),
        ("path"@, "Path"@),
        ("mtime"@, "Date modified"@),
        ("size"@, "File size"@),
    ]
}

/// A sort key per metadata column: (`meta:` + column, `[meta] ` + column).
pub open spec fn meta_sorts(cols: Seq<Seq<char>>) -> Seq<(Seq<char>, Seq<char>)> {
    cols.map_values(|c: Seq<char>| ("meta:"@ + c, "[meta] "@ + c))
}

pub open spec fn pair_views(v: Seq<(String, String)>) -> Seq<(Seq<char>, Seq<char>)> {
    v.map_values(|p: (String, String)| (p.0@, p.1@))
}

/// `r` is the sort key that metadata column `col` gives the image at `rel`:
/// missing for an empty cell, the number (`number`) when the trimmed cell
/// reads as one, else the text lower-cased.
pub open spec fn is_cell_key(r: SortKey, m: Metadata, rel: Seq<char>, col: Seq<char>, number: Option<u64>) -> bool {
    let cell = cell_of(m, rel, col);
    &&& cell.len() == 0 ==> r == SortKey::Missing
    &&& cell.len() > 0 && float_syntax(trim(cell)) ==> r == SortKey::Num(number->0)
    &&& cell.len() > 0 && !float_syntax(trim(cell)) ==> (r matches SortKey::Text(t) && t@ == lower(cell))
}

/// The sort key is one of the metadata columns.
pub open spec fn is_meta_key(key: Seq<char>) -> bool {
    key != "name"@ && key != "path"@ && key != "mtime"@ && key != "size"@ && has_prefix(key, "meta:"@)
}

/// The names of the buckets other than `except` (ignoring ASCII case) or
/// their folders include `n`, respectively `_n`.
pub open spec fn name_taken(bs: Seq<Bucket>, n: Seq<char>, except: Option<usize>) -> bool {
    exists|i: int|
        0 <= i < bs.len() && except != Some(i as usize) && (eq_ignore_case(#[trigger] bs[i].name@, n)
            || eq_ignore_case(bs[i].folder@, seq!['_'] + n))
}

/// The outcome of checking a bucket name: the trimmed name, or why it
/// cannot be used.
pub open spec fn name_check(bs: Seq<Bucket>, name: Seq<char>, except: Option<usize>) -> Result<
    Seq<char>,
    Seq<char>,
> {
    let n = trim(name);
    if n.len() == 0 {
        Err("Bucket name is empty"@)
    } else if has_prefix(n, "."@) || n.contains('/') || n.contains('\\') {
        Err("“"@ + n + "” can't be used as a folder name"@)
    } else if name_taken(bs, n, except) {
        Err("A bucket named “"@ + n + "” already exists"@)
    } else {
        Ok(n)
    }
}

pub open spec fn result_view(r: Result<String, String>) -> Result<Seq<char>, Seq<char>> {
    match r {
        Ok(s) => Ok(s@),
        Err(e) => Err(e@),
    }
}

/// The images not lying under `dir`.
pub open spec fn outside(items: Seq<ImageItem>, dir: Seq<char>) -> Seq<ImageItem> {
    items.filter(|it: ImageItem| strip_base_of(it.abs_path@, dir) is None)
}

/// Same except the buckets, their counts, the images and the position.
pub open spec fn same_but_buckets(a: Session, b: Session) -> bool {
    &&& a.root == b.root
    &&& a.recursive == b.recursive
    &&& a.config_path == b.config_path
    &&& a.metadata == b.metadata
    &&& a.undo_stack == b.undo_stack
    &&& a.redo_stack == b.redo_stack
    &&& a.sort_key == b.sort_key
    &&& a.sort_reverse == b.sort_reverse
}

/// `add_bucket(name, images)` took `s0` to `s1`, answering `r`.
pub open spec fn added_bucket(s0: Session, s1: Session, name: Seq<char>, images: usize, r: Result<usize, String>) -> bool {
    &&& same_but_buckets(s0, s1)
    &&& s0.root@.len() == 0 ==> (r matches Err(e) && e@ == "Open a folder first"@ && s1 == s0)
    &&& s0.root@.len() > 0 ==> match name_check(s0.buckets@, name, None) {
        Err(msg) => r matches Err(e) && e@ == msg && s1 == s0,
        Ok(n) => {
            let dir = join(s0.root@, seq!['_'] + n);
            let kept = outside(s0.items@, dir);
            &&& r == Ok::<usize, String>(s0.buckets@.len() as usize)
            &&& bucket_views(s1.buckets@) == bucket_views(s0.buckets@).push(
                (n, free_key(bucket_views(s0.buckets@)), seq!['_'] + n, false),
            )
            &&& s1.bucket_counts@ == s0.bucket_counts@.push(images)
            &&& s1.items@ == kept
            &&& s1.index == if kept.len() == s0.items@.len() {
                s0.index as int
            } else {
                clamp_after(s0.index as int, kept.len() as int)
            }
        },
    }
}

/// `rename_bucket(idx, name, moved)` took `s0` to `s1`: bucket `idx` has the
/// new name (and folder `_name` when its folder moved), the history names
/// it and its new folder, and nothing else changed.
pub open spec fn renamed_bucket(
    s0: Session,
    s1: Session,
    idx: int,
    name: Seq<char>,
    moved: Option<(Seq<char>, Seq<char>)>,
) -> bool {
    &&& s1.buckets@.len() == s0.buckets@.len()
    &&& forall|i: int|
        0 <= i < s0.buckets@.len() && i != idx ==> #[trigger] s1.buckets@[i] == s0.buckets@[i]
    &&& bucket_view(s1.buckets@[idx]) == (
        name,
        s0.buckets@[idx].key@,
        if moved is Some {
            seq!['_'] + name
        } else {
            s0.buckets@[idx].folder@
        },
        s0.buckets@[idx].is_reject,
    )
    &&& ops_renamed(s0.undo_stack@, s1.undo_stack@, s0.buckets@[idx].name@, name, moved)
    &&& ops_renamed(s0.redo_stack@, s1.redo_stack@, s0.buckets@[idx].name@, name, moved)
    &&& s1.root == s0.root
    &&& s1.recursive == s0.recursive
    &&& s1.bucket_counts == s0.bucket_counts
    &&& s1.config_path == s0.config_path
    &&& s1.metadata == s0.metadata
    &&& s1.items == s0.items
    &&& s1.index == s0.index
    &&& s1.sort_key == s0.sort_key
    &&& s1.sort_reverse == s0.sort_reverse
}

/// `remove_bucket(idx)` took `s0` to `s1`, answering `r`: the reject bucket
/// and unknown indices are refused; otherwise the bucket and its count go.
pub open spec fn removed_bucket(s0: Session, s1: Session, idx: int, r: Result<(), String>) -> bool {
    &&& (idx >= s0.buckets@.len() || s0.buckets@[idx].is_reject) ==> (r matches Err(e) && e@
        == "That bucket can't be removed"@ && s1 == s0)
    &&& (0 <= idx < s0.buckets@.len() && !s0.buckets@[idx].is_reject) ==> {
        &&& r is Ok
        &&& s1.buckets@ == s0.buckets@.remove(idx)
        &&& s1.bucket_counts@ == s0.bucket_counts@.remove(idx)
        &&& same_but_buckets(s0, s1)
        &&& s1.items == s0.items
        &&& s1.index == s0.index
    }
}

/// `after` is `before` once bucket `old_name` was renamed `new_name` and,
/// when `moved` is `Some((from, to))`, its folder moved from `from` to `to`.
pub open spec fn op_renamed(
    before: MoveOp,
    after: MoveOp,
    old_name: Seq<char>,
    new_name: Seq<char>,
    moved: Option<(Seq<char>, Seq<char>)>,
) -> bool {
    &&& after.item == before.item
    &&& after.from_abs == before.from_abs
    &&& after.list_index == before.list_index
    &&& after.to_abs@ == match moved {
        Some((from, to)) => match strip_base_of(before.to_abs@, from) {
            Some(rest) => join(to, rest),
            None => before.to_abs@,
        },
        None => before.to_abs@,
    }
    &&& after.bucket_name@ == if before.bucket_name@ == old_name {
        new_name
    } else {
        before.bucket_name@
    }
}

pub open spec fn ops_renamed(
    before: Seq<MoveOp>,
    after: Seq<MoveOp>,
    old_name: Seq<char>,
    new_name: Seq<char>,
    moved: Option<(Seq<char>, Seq<char>)>,
) -> bool {
    &&& after.len() == before.len()
    &&& forall|i: int|
        0 <= i < before.len() ==> op_renamed(
            #[trigger] before[i],
            after[i],
            old_name,
            new_name,
            moved,
        )
}

pub open spec fn pair_view(m: Option<(String, String)>) -> Option<(Seq<char>, Seq<char>)> {
    match m {
        Some((a, b)) => Some((a@, b@)),
        None => None,
    }
}

/// `ops` after a rename.
fn rename_ops(
    ops: &Vec<MoveOp>,
    old_name: &str,
    new_name: &str,
    moved: &Option<(String, String)>,
) -> (r: Vec<MoveOp>)
    ensures
        ops_renamed(ops@, r@, old_name@, new_name@, pair_view(*moved)),
{
    let mut out: Vec<MoveOp> = Vec::new();
    let mut i: usize = 0;
    while i < ops.len()
        invariant
            i <= ops@.len(),
            out@.len() == i,
            forall|q: int|
                0 <= q < i ==> op_renamed(
                    #[trigger] ops@[q],
                    out@[q],
                    old_name@,
                    new_name@,
                    pair_view(*moved),
                ),
        decreases ops@.len() - i,
    {
        let op = &ops[i];
        let to_abs = match moved {
            Some((from, to)) => match path_strip_base(op.to_abs.as_str(), from.as_str()) {
                Some(rest) => path_join(to.as_str(), rest.as_str()),
                None => op.to_abs.clone(),
            },
            None => op.to_abs.clone(),
        };
        let bucket_name = if str_eq(op.bucket_name.as_str(), old_name) {
            String::from_str(new_name)
        } else {
            op.bucket_name.clone()
        };
        let renamed = MoveOp {
            item: op.item.duplicate(),
            from_abs: op.from_abs.clone(),
            to_abs,
            list_index: op.list_index,
            bucket_name,
        };
        out.push(renamed);
        i = i + 1;
    }
    out
}

/// No two buckets have names that are equal ignoring ASCII case.
pub open spec fn names_distinct(bs: Seq<Bucket>) -> bool {
    forall|i: int, j: int|
        0 <= i < j < bs.len() ==> !eq_ignore_case(#[trigger] bs[i].name@, #[trigger] bs[j].name@)
}

/// A bucket added under a name that passed the check keeps the bucket names
/// distinct (ignoring ASCII case): a name already taken is refused.
pub proof fn law_added_names_stay_distinct(bs: Seq<Bucket>, name: Seq<char>, b: Bucket)
    requires
        names_distinct(bs),
        name_check(bs, name, None) == Ok::<Seq<char>, Seq<char>>(b.name@),
    ensures
        names_distinct(bs.push(b)),
{
    let r = bs.push(b);
    assert forall|i: int, j: int| 0 <= i < j < r.len() implies !eq_ignore_case(
        #[trigger] r[i].name@,
        #[trigger] r[j].name@,
    ) by {
        if j == bs.len() {
            assert(r[i] == bs[i]);
            if eq_ignore_case(bs[i].name@, b.name@) {
                assert(name_taken(bs, trim(name), None));
            }
        } else {
            assert(r[i] == bs[i] && r[j] == bs[j]);
        }
    }
}

/// Renaming a bucket to a name that passed the check (for that bucket)
/// keeps the bucket names distinct, ignoring ASCII case.
pub proof fn law_renamed_names_stay_distinct(bs: Seq<Bucket>, idx: usize, name: Seq<char>, b: Bucket)
    requires
        names_distinct(bs),
        bs.len() <= usize::MAX,
        idx < bs.len(),
        name_check(bs, name, Some(idx)) == Ok::<Seq<char>, Seq<char>>(b.name@),
    ensures
        names_distinct(bs.update(idx as int, b)),
{
    let r = bs.update(idx as int, b);
    assert forall|i: int, j: int| 0 <= i < j < r.len() implies !eq_ignore_case(
        #[trigger] r[i].name@,
        #[trigger] r[j].name@,
    ) by {
        if i == idx {
            assert(r[j] == bs[j]);
            if eq_ignore_case(b.name@, bs[j].name@) {
                assert(eq_ignore_case(bs[j].name@, trim(name)));
                assert(Some(j as usize) != Some(idx));
                assert(name_taken(bs, trim(name), Some(idx)));
            }
        } else if j == idx {
            assert(r[i] == bs[i]);
            if eq_ignore_case(bs[i].name@, b.name@) {
                assert(Some(i as usize) != Some(idx));
                assert(name_taken(bs, trim(name), Some(idx)));
            }
        } else {
            assert(r[i] == bs[i] && r[j] == bs[j]);
        }
    }
}

impl Session {
    /// The keys the images can be sorted by: the built-in ones, then one per
    /// metadata column.
    pub fn sortable_keys(&self) -> (r: Vec<(String, String)>)
        ensures
            pair_views(r@) == builtin_sorts() + meta_sorts(views(self.metadata.columns@)),
    {
        let mut keys: Vec<(String, String)> = Vec::new();
        keys.push((String::from_str("name"), String::from_str("Name")));
        keys.push((String::from_str("path"), String::from_str("Path")));
        keys.push((String::from_str("mtime"), String::from_str("Date modified")));
        keys.push((String::from_str("size"), String::from_str("File size")));
        assert(pair_views(keys@) =~= builtin_sorts());
        let ghost cols = views(self.metadata.columns@);
        let mut i: usize = 0;
        while i < self.metadata.columns.len()
            invariant
                i <= cols.len(),
                cols == views(self.metadata.columns@),
                pair_views(keys@) == builtin_sorts() + meta_sorts(cols.take(i as int)),
            decreases cols.len() - i,
        {
            let col = self.metadata.columns[i].as_str();
            let mut id = String::from_str("meta:");
            id.append(col);
            let mut label = String::from_str("[meta] ");
            label.append(col);
            let ghost before = pair_views(keys@);
            keys.push((id, label));
            assert(meta_sorts(cols.take(i + 1)) =~= meta_sorts(cols.take(i as int)).push(
                ("meta:"@ + cols[i as int], "[meta] "@ + cols[i as int]),
            ));
            assert(pair_views(keys@) =~= before.push(("meta:"@ + cols[i as int], "[meta] "@ + cols[i as int])));
            i = i + 1;
        }
        assert(cols.take(i as int) =~= cols);
        keys
    }

    /// The sort key of `item` under sort `key`. The caller gives what only the
    /// disk knows, as the bits of an `f64`: the file's modification time in
    /// seconds (`mtime`), its size in bytes (`size`), and, for a metadata
    /// column, the number that the trimmed cell reads as (`number`, given
    /// exactly when it does). An unknown key sorts by name.
    pub fn sort_value(&self, item: &ImageItem, key: &str, mtime: u64, size: u64, number: Option<u64>) -> (r:
        SortKey)
        requires
            self.metadata.wf(),
            is_meta_key(key@) && cell_of(self.metadata, item.rel_path@, key@.skip(5)).len() > 0 ==> (
            number is Some <==> float_syntax(trim(cell_of(self.metadata, item.rel_path@, key@.skip(5))))),
        ensures
            key@ == "mtime"@ ==> r == SortKey::Num(mtime),
            key@ == "size"@ ==> r == SortKey::Num(size),
            key@ == "path"@ ==> (r matches SortKey::Text(t) && t@ == lower(item.rel_path@)),
            key@ == "name"@ || (key@ != "path"@ && key@ != "mtime"@ && key@ != "size"@ && !has_prefix(
                key@,
                "meta:"@,
            )) ==> (r matches SortKey::Text(t) && t@ == lower(name_of(item.abs_path@))),
            key@ != "name"@ && key@ != "path"@ && key@ != "mtime"@ && key@ != "size"@ && has_prefix(
                key@,
                "meta:"@,
            ) ==> is_cell_key(r, self.metadata, item.rel_path@, key@.skip(5), number),
    {
        proof {
            reveal_strlit("name");
            reveal_strlit("path");
            reveal_strlit("mtime");
            reveal_strlit("size");
            reveal_strlit("meta:");
            assert("name"@[0] == 'n' && "path"@[0] == 'p' && "mtime"@[0] == 'm' && "size"@[0] == 's');
            assert("mtime"@[1] == 't' && "meta:"@[1] == 'e');
        }
        if str_eq(key, "name") {
            SortKey::Text(to_ascii_lower(item.name().as_str()))
        } else if str_eq(key, "path") {
            SortKey::Text(to_ascii_lower(item.rel_path.as_str()))
        } else if str_eq(key, "mtime") {
            SortKey::Num(mtime)
        } else if str_eq(key, "size") {
            SortKey::Num(size)
        } else {
            match strip_prefix(key, "meta:") {
                Some(col) => {
                    self.metadata.sort_value(item.rel_path.as_str(), col.as_str(), number)
                },
                None => SortKey::Text(to_ascii_lower(item.name().as_str())),
            }
        }
    }

    /// Check a bucket name: trimmed, not empty, usable as a folder name, and
    /// not the name (or `_name` folder) of another bucket than `except`.
    fn check_name(&self, name: &str, except: Option<usize>) -> (r: Result<String, String>)
        ensures
            result_view(r) == name_check(self.buckets@, name@, except),
    {
        let n = trim_str(name);
        proof {
            reveal_strlit(".");
        }
        if crate::text::chars_of(n.as_str()).len() == 0 {
            return Err(String::from_str("Bucket name is empty"));
        }
        if starts_with(n.as_str(), ".") || has_char(n.as_str(), '/') || has_char(n.as_str(), '\\') {
            let mut e = String::from_str("“");
            e.append(n.as_str());
            e.append("” can't be used as a folder name");
            return Err(e);
        }
        let mut folder = String::from_str("_");
        folder.append(n.as_str());
        proof {
            reveal_strlit("_");
            assert(folder@ =~= seq!['_'] + n@);
        }
        let mut i: usize = 0;
        while i < self.buckets.len()
            invariant
                i <= self.buckets@.len(),
                folder@ == seq!['_'] + n@,
                n@ == trim(name@),
                n@.len() > 0,
                !(has_prefix(n@, "."@) || n@.contains('/') || n@.contains('\\')),
                forall|q: int|
                    0 <= q < i ==> !(except != Some(q as usize) && (eq_ignore_case(
                        #[trigger] self.buckets@[q].name@,
                        n@,
                    ) || eq_ignore_case(self.buckets@[q].folder@, seq!['_'] + n@))),
            decreases self.buckets@.len() - i,
        {
            let skip = match except {
                Some(x) => x == i,
                None => false,
            };
            if !skip && (eq_ignore_ascii_case(self.buckets[i].name.as_str(), n.as_str())
                || eq_ignore_ascii_case(self.buckets[i].folder.as_str(), folder.as_str())) {
                assert(name_taken(self.buckets@, n@, except)) by {
                    assert(eq_ignore_case(self.buckets@[i as int].name@, n@) || eq_ignore_case(
                        self.buckets@[i as int].folder@,
                        seq!['_'] + n@,
                    ));
                }
                let mut e = String::from_str("A bucket named “");
                e.append(n.as_str());
                e.append("” already exists");
                return Err(e);
            }
            i = i + 1;
        }
        Ok(n)
    }

    /// The folder a new bucket named `name` would use: `_` and the trimmed
    /// name, under the root.
    pub fn planned_dir(&self, name: &str) -> (r: String)
        ensures
            r@ == join(self.root@, seq!['_'] + trim(name@)),
    {
        let n = trim_str(name);
        let mut folder = String::from_str("_");
        folder.append(n.as_str());
        proof {
            reveal_strlit("_");
            assert(folder@ =~= seq!['_'] + n@);
        }
        path_join(self.root.as_str(), folder.as_str())
    }

    /// Add a bucket `name` (folder `_name`, the next free digit hotkey);
    /// images already inside that folder leave the queue. The caller counts
    /// the images in the folder (`planned_dir`) and saves the bucket list
    /// afterwards. Returns the new bucket's index.
    pub fn add_bucket(&mut self, name: &str, images_in_folder: usize) -> (r: Result<usize, String>)
        requires
            session_wf(*old(self)),
        ensures
            session_wf(*final(self)),
            added_bucket(*old(self), *final(self), name@, images_in_folder, r),
    {
        if crate::text::chars_of(self.root.as_str()).len() == 0 {
            return Err(String::from_str("Open a folder first"));
        }
        let n = match self.check_name(name, None) {
            Ok(n) => n,
            Err(e) => return Err(e),
        };
        let key = next_free_key(self.buckets.as_slice());
        let mut folder = String::from_str("_");
        folder.append(n.as_str());
        proof {
            reveal_strlit("_");
            assert(folder@ =~= seq!['_'] + n@);
        }
        let dir = path_join(self.root.as_str(), folder.as_str());
        let bucket = Bucket { name: n, key, folder, is_reject: false };
        let ghost items0 = self.items@;
        let mut kept: Vec<ImageItem> = Vec::new();
        let mut i: usize = 0;
        while i < self.items.len()
            invariant
                i <= self.items@.len(),
                self.items@ == items0,
                kept@ == outside(items0.take(i as int), dir@),
            decreases self.items@.len() - i,
        {
            proof {
                reveal_with_fuel(Seq::filter, 1);
                assert(items0.take(i + 1).drop_last() =~= items0.take(i as int));
            }
            if path_strip_base(self.items[i].abs_path.as_str(), dir.as_str()).is_none() {
                kept.push(self.items[i].duplicate());
            }
            i = i + 1;
        }
        assert(items0.take(i as int) =~= items0);
        let changed = kept.len() != self.items.len();
        self.items = kept;
        if changed {
            if self.index >= self.items.len() {
                self.index = if self.items.len() > 0 {
                    self.items.len() - 1
                } else {
                    0
                };
            }
        }
        proof {
            items0.lemma_filter_len(|it: ImageItem| strip_base_of(it.abs_path@, dir@) is None);
        }
        let ghost b0 = bucket_views(self.buckets@);
        self.bucket_counts.push(images_in_folder);
        let ghost bv = bucket_view(bucket);
        self.buckets.push(bucket);
        assert(bucket_views(self.buckets@) =~= b0.push(bv));
        Ok(self.buckets.len() - 1)
    }

    /// What renaming bucket `idx` to `new_name` involves: the checked name,
    /// and, when the bucket's folder follows the `_name` convention, the
    /// folder to move and where to (the caller moves it, refusing when the
    /// target exists, then calls `rename_bucket`).
    pub fn rename_plan(&self, idx: usize, new_name: &str) -> (r: Result<
        (String, Option<(String, String)>),
        String,
    >)
        ensures
            (idx >= self.buckets@.len() || self.buckets@[idx as int].is_reject) ==> (r matches Err(e)
                && e@ == "That bucket can't be renamed"@),
            idx < self.buckets@.len() && !self.buckets@[idx as int].is_reject ==> match name_check(
                self.buckets@,
                new_name@,
                Some(idx),
            ) {
                Err(msg) => r matches Err(e) && e@ == msg,
                Ok(n) => {
                    let b = self.buckets@[idx as int];
                    r matches Ok((name, mv)) && name@ == n && if b.folder@ == seq!['_'] + b.name@ {
                        mv matches Some((from, to)) && from@ == join(self.root@, b.folder@) && to@
                            == join(self.root@, seq!['_'] + n)
                    } else {
                        mv is None
                    }
                },
            },
    {
        if idx >= self.buckets.len() || self.buckets[idx].is_reject {
            return Err(String::from_str("That bucket can't be renamed"));
        }
        let n = match self.check_name(new_name, Some(idx)) {
            Ok(n) => n,
            Err(e) => return Err(e),
        };
        let b = &self.buckets[idx];
        let mut conv = String::from_str("_");
        conv.append(b.name.as_str());
        let mut folder = String::from_str("_");
        folder.append(n.as_str());
        proof {
            reveal_strlit("_");
            assert(conv@ =~= seq!['_'] + b.name@);
            assert(folder@ =~= seq!['_'] + n@);
        }
        if str_eq(b.folder.as_str(), conv.as_str()) {
            let from = b.target_dir(self.root.as_str());
            let to = path_join(self.root.as_str(), folder.as_str());
            Ok((n, Some((from, to))))
        } else {
            Ok((n, None))
        }
    }

    /// Record that bucket `idx` was renamed `name` and, when `moved` is
    /// `Some((from, to))`, that its folder moved from `from` to `to` (the
    /// bucket then uses folder `_name`): pending undo and redo steps follow.
    /// The caller saves the bucket list afterwards.
    pub fn rename_bucket(&mut self, idx: usize, name: String, moved: Option<(String, String)>)
        requires
            idx < old(self).buckets@.len(),
        ensures
            renamed_bucket(*old(self), *final(self), idx as int, name@, pair_view(moved)),
    {
        let old_name = self.buckets[idx].name.clone();
        let undo = rename_ops(&self.undo_stack, old_name.as_str(), name.as_str(), &moved);
        let redo = rename_ops(&self.redo_stack, old_name.as_str(), name.as_str(), &moved);
        self.undo_stack = undo;
        self.redo_stack = redo;
        let folder = match &moved {
            Some(_) => {
                let mut f = String::from_str("_");
                f.append(name.as_str());
                proof {
                    reveal_strlit("_");
                    assert(f@ =~= seq!['_'] + name@);
                }
                f
            },
            None => self.buckets[idx].folder.clone(),
        };
        let b = Bucket {
            name,
            key: self.buckets[idx].key.clone(),
            folder,
            is_reject: self.buckets[idx].is_reject,
        };
        self.buckets.set(idx, b);
    }

    /// Drop category bucket `idx`; its folder and files stay where they are.
    /// The caller saves the bucket list afterwards.
    pub fn remove_bucket(&mut self, idx: usize) -> (r: Result<(), String>)
        requires
            session_wf(*old(self)),
        ensures
            session_wf(*final(self)),
            removed_bucket(*old(self), *final(self), idx as int, r),
    {
        if idx >= self.buckets.len() || self.buckets[idx].is_reject {
            return Err(String::from_str("That bucket can't be removed"));
        }
        self.buckets.remove(idx);
        self.bucket_counts.remove(idx);
        Ok(())
    }

}

/// One public step of a session, from `s0` to `s1`: a navigation
/// (`set_index`, `next`, `prev`, `jump`), a sort, a move of the current
/// image or of several, an undo or redo, or adding, renaming or removing a
/// bucket, each as that function's contract states it.
pub open spec fn session_step(s0: Session, s1: Session) -> bool {
    ||| exists|i: int| #[trigger] clamp_to(i, s0.items@.len() as int) == s1.index && same_but_index(s0, s1)
    ||| exists|key: Seq<char>, reverse: bool, keys: Seq<SortKey>| #[trigger] resorted(s0, s1, key, reverse, keys)
    ||| exists|b: int, dest: String, r: Option<String>| 0 <= b && #[trigger] moved_current(s0, s1, b, dest, r)
    ||| exists|moved: Seq<(usize, String)>, b: int, n: int|
        0 <= b && #[trigger] moved_positions(s0, s1, moved, b, n)
    ||| exists|restore: String, r: Option<String>| #[trigger] undone(s0, s1, restore, r)
    ||| exists|dest: String, r: Option<String>| #[trigger] redone(s0, s1, dest, r)
    ||| exists|name: Seq<char>, images: usize, r: Result<usize, String>|
        #[trigger] added_bucket(s0, s1, name, images, r)
    ||| exists|idx: int, name: Seq<char>, moved: Option<(Seq<char>, Seq<char>)>|
        0 <= idx < s0.buckets@.len() && #[trigger] renamed_bucket(s0, s1, idx, name, moved)
    ||| exists|idx: int, r: Result<(), String>| 0 <= idx && #[trigger] removed_bucket(s0, s1, idx, r)
}

proof fn lemma_step_keeps_wf(s0: Session, s1: Session)
    requires
        session_wf(s0),
        session_step(s0, s1),
    ensures
        session_wf(s1),
{
    if exists|key: Seq<char>, reverse: bool, keys: Seq<SortKey>| #[trigger] resorted(s0, s1, key, reverse, keys) {
        let (key, reverse, keys) = choose|key: Seq<char>, reverse: bool, keys: Seq<SortKey>|
            #[trigger] resorted(s0, s1, key, reverse, keys);
        assert(s1.items@.len() == s0.items@.len());
    } else if exists|b: int, dest: String, r: Option<String>| 0 <= b && #[trigger] moved_current(s0, s1, b, dest, r) {
        let (b, dest, r) = choose|b: int, dest: String, r: Option<String>|
            0 <= b && #[trigger] moved_current(s0, s1, b, dest, r);
        law_history_keeps_wf(s0, s1, b, dest, r);
    } else if exists|moved: Seq<(usize, String)>, b: int, n: int|
        0 <= b && #[trigger] moved_positions(s0, s1, moved, b, n) {
        let (moved, b, n) = choose|moved: Seq<(usize, String)>, b: int, n: int|
            0 <= b && #[trigger] moved_positions(s0, s1, moved, b, n);
        if b < s0.buckets@.len() {
            lemma_fold_moves_shape(
                s0.items@,
                s0.bucket_counts@,
                s0.undo_stack@,
                moved,
                b,
                s0.buckets@[b].name,
            );
        }
    } else if exists|restore: String, r: Option<String>| #[trigger] undone(s0, s1, restore, r) {
        let (restore, r) = choose|restore: String, r: Option<String>| #[trigger] undone(s0, s1, restore, r);
        law_history_keeps_wf(s0, s1, 0, restore, r);
    } else if exists|dest: String, r: Option<String>| #[trigger] redone(s0, s1, dest, r) {
        let (dest, r) = choose|dest: String, r: Option<String>| #[trigger] redone(s0, s1, dest, r);
        law_history_keeps_wf(s0, s1, 0, dest, r);
    } else if exists|name: Seq<char>, images: usize, r: Result<usize, String>|
        #[trigger] added_bucket(s0, s1, name, images, r) {
        let (name, images, r) = choose|name: Seq<char>, images: usize, r: Result<usize, String>|
            #[trigger] added_bucket(s0, s1, name, images, r);
        if s0.root@.len() > 0 && name_check(s0.buckets@, name, None) is Ok {
            assert(bucket_views(s1.buckets@).len() == s1.buckets@.len());
            assert(bucket_views(s0.buckets@).len() == s0.buckets@.len());
        }
    } else if exists|idx: int, name: Seq<char>, moved: Option<(Seq<char>, Seq<char>)>|
        0 <= idx < s0.buckets@.len() && #[trigger] renamed_bucket(s0, s1, idx, name, moved) {
    } else if exists|idx: int, r: Result<(), String>| 0 <= idx && #[trigger] removed_bucket(s0, s1, idx, r) {
    } else {
    }
}

/// Whatever public steps a session goes through from a well formed start
/// (as `Session::new` and `Session::empty` give), the bucket counts stay
/// parallel to the buckets and the position stays on an image, or at 0 when
/// the list is empty; so `current()` gives an image exactly when there is
/// one.
pub proof fn law_steps_keep_position(ss: Seq<Session>)
    requires
        ss.len() > 0,
        session_wf(ss[0]),
        forall|i: int| 0 <= i < ss.len() - 1 ==> session_step(#[trigger] ss[i], ss[i + 1]),
    ensures
        forall|i: int| 0 <= i < ss.len() ==> session_wf(#[trigger] ss[i]),
        forall|i: int|
            0 <= i < ss.len() ==> ((#[trigger] ss[i]).index < ss[i].items@.len() <==> ss[i].items@.len() > 0),
    decreases ss.len(),
{
    if ss.len() > 1 {
        let t = ss.drop_last();
        assert forall|i: int| 0 <= i < t.len() - 1 implies session_step(#[trigger] t[i], t[i + 1]) by {
            assert(t[i] == ss[i] && t[i + 1] == ss[i + 1]);
            assert(session_step(ss[i], ss[i + 1]));
        }
        law_steps_keep_position(t);
        assert(session_wf(t[t.len() - 1]));
        assert(session_step(ss[ss.len() - 2], ss[ss.len() - 1]));
        lemma_step_keeps_wf(ss[ss.len() - 2], ss[ss.len() - 1]);
        assert forall|i: int| 0 <= i < ss.len() implies session_wf(#[trigger] ss[i]) by {
            if i < ss.len() - 1 {
                assert(t[i] == ss[i]);
            }
        }
    }
}

/// Step `z` is step `a` after the bucket `old_name` was renamed `name` and
/// its folder moved from `from` to `to`.
pub open spec fn redirected(a: MoveOp, z: MoveOp, old_name: Seq<char>, name: Seq<char>, from: Seq<char>, to: Seq<char>) -> bool {
    &&& (strip_base_of(a.to_abs@, from) matches Some(rest) ==> z.to_abs@ == join(to, rest))
    &&& (strip_base_of(a.to_abs@, from) is None ==> z.to_abs@ == a.to_abs@)
    &&& (a.bucket_name@ == old_name ==> z.bucket_name@ == name)
    &&& (a.bucket_name@ != old_name ==> z.bucket_name@ == a.bucket_name@)
    &&& z.item == a.item
    &&& z.from_abs == a.from_abs
    &&& z.list_index == a.list_index
}

/// Renaming a bucket whose folder moves from `from` to `to` points every
/// pending step, on the undo and on the redo stack, that went into the old
/// folder at the same place in the new one, and every step of the old
/// bucket at the renamed bucket; the steps keep their images and positions.
pub proof fn law_rename_redirects_pending_steps(
    s0: Session,
    s1: Session,
    idx: int,
    name: Seq<char>,
    from: Seq<char>,
    to: Seq<char>,
)
    requires
        0 <= idx < s0.buckets@.len(),
        renamed_bucket(s0, s1, idx, name, Some((from, to))),
    ensures
        s1.undo_stack@.len() == s0.undo_stack@.len(),
        s1.redo_stack@.len() == s0.redo_stack@.len(),
        forall|i: int|
            0 <= i < s0.undo_stack@.len() ==> redirected(
                #[trigger] s0.undo_stack@[i],
                s1.undo_stack@[i],
                s0.buckets@[idx].name@,
                name,
                from,
                to,
            ),
        forall|i: int|
            0 <= i < s0.redo_stack@.len() ==> redirected(
                #[trigger] s0.redo_stack@[i],
                s1.redo_stack@[i],
                s0.buckets@[idx].name@,
                name,
                from,
                to,
            ),
{
    let old_name = s0.buckets@[idx].name@;
    assert forall|i: int| 0 <= i < s0.undo_stack@.len() implies redirected(
        #[trigger] s0.undo_stack@[i],
        s1.undo_stack@[i],
        old_name,
        name,
        from,
        to,
    ) by {
        assert(op_renamed(s0.undo_stack@[i], s1.undo_stack@[i], old_name, name, Some((from, to))));
    }
    assert forall|i: int| 0 <= i < s0.redo_stack@.len() implies redirected(
        #[trigger] s0.redo_stack@[i],
        s1.redo_stack@[i],
        old_name,
        name,
        from,
        to,
    ) by {
        assert(op_renamed(s0.redo_stack@[i], s1.redo_stack@[i], old_name, name, Some((from, to))));
    }
}

/// Move an image into bucket `b`, undo that, rename the bucket (its folder
/// moving from `from` to `to`), then redo: the redo puts the image at the
/// same place under the renamed bucket's new folder, records it under the
/// new name, and counts it in the renamed bucket.
pub proof fn law_redo_after_rename_uses_new_folder(
    s0: Session,
    s1: Session,
    s2: Session,
    s3: Session,
    s4: Session,
    b: int,
    dest: String,
    name: Seq<char>,
    from: Seq<char>,
    to: Seq<char>,
    rest: Seq<char>,
    d: String,
    r1: Option<String>,
    r2: Option<String>,
    r4: Option<String>,
)
    requires
        session_wf(s0),
        0 <= b < s0.buckets@.len(),
        moved_current(s0, s1, b, dest, r1),
        r1 is Some,
        undone(s1, s2, s0.items@[s0.index as int].abs_path, r2),
        renamed_bucket(s2, s3, b, name, Some((from, to))),
        strip_base_of(dest@, from) == Some(rest),
        first_named(s3.buckets@, name) == Some(b),
        s3.bucket_counts@[b] < usize::MAX,
        redone(s3, s4, d, r4),
    ensures
        s3.redo_stack@.last().to_abs@ == join(to, rest),
        s3.redo_stack@.last().bucket_name@ == name,
        r4 is Some,
        s4.bucket_counts@[b] == s3.bucket_counts@[b] + 1,
        s4.undo_stack@.last().bucket_name@ == name,
{
    let pos = s0.index as int;
    let l = s2.redo_stack@.len() - 1;
    assert(s2.redo_stack@[l].to_abs == dest);
    assert(s2.redo_stack@[l].bucket_name == s0.buckets@[b].name);
    assert(op_renamed(s2.redo_stack@[l], s3.redo_stack@[l], s2.buckets@[b].name@, name, Some((from, to))));
    let op = s3.redo_stack@.last();
    assert(op.from_abs == s0.items@[pos].abs_path);
    let idx = if pos < s1.items@.len() { pos } else { s1.items@.len() as int };
    assert(s3.items@[idx].abs_path == s0.items@[pos].abs_path);
    lemma_first_at_found(s3.items@, op.from_abs@, idx);
    crate::model::lemma_first_named_bound(s1.buckets@, s1.undo_stack@.last().bucket_name@);
    crate::model::lemma_first_named_bound(s3.buckets@, name);
    lemma_first_at_bound(s3.items@, op.from_abs@);
    assert(redo_pos(s3) < s3.items@.len());
}

} // verus!
