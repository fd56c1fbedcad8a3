//! Session state: the working image list, current position, sorting, and the
//! reversible move/undo engine shared by 'reject' and every category bucket.
//!
//! File-system work (moving files, checking which names exist) is done by the
//! caller; the session decides what to move where and records each step.

use vstd::prelude::*;

use crate::buckets::{default_reject, Bucket};
use crate::metadata::Metadata;
use crate::paths::{
    extension_of, file_name_of, file_stem_of, join, parent_of, path_extension, path_file_name, path_file_stem,
    path_join, path_parent, path_strip_base, strip_base_of,
};
use crate::sortkey::{all_below, idx_sorted, kind_rank, kind_rank_exec, lemma_kind_monotone, stable_order, SortKey};
use crate::text::{concat, decimal, replace_char, replace_char_str, str_eq, usize_to_decimal};

verus! {

/// `abs` relative to `root` (or `abs` itself when it is not under `root`),
/// with backslashes turned into slashes.
pub open spec fn rel_path_of(abs: Seq<char>, root: Seq<char>) -> Seq<char> {
    replace_char(
        match strip_base_of(abs, root) {
            Some(r) => r,
            None => abs,
        },
        '\\',
        '/',
    )
}

/// The file name of a path, or empty.
pub open spec fn name_of(abs: Seq<char>) -> Seq<char> {
    match file_name_of(abs) {
        Some(n) => n,
        None => Seq::empty(),
    }
}

pub struct ImageItem {
    pub abs_path: String,
    pub rel_path: String,
}

impl ImageItem {
    pub fn new(abs_path: String, root: &str) -> (r: ImageItem)
        ensures
            r.abs_path == abs_path,
            r.rel_path@ == rel_path_of(abs_path@, root@),
    {
        let rel = match path_strip_base(abs_path.as_str(), root) {
            Some(r) => r,
            None => abs_path.clone(),
        };
        let rel_path = replace_char_str(rel.as_str(), '\\', '/');
        ImageItem { abs_path, rel_path }
    }

    /// The file name, or "" when the path has none.
    pub fn name(&self) -> (r: String)
        ensures
            r@ == name_of(self.abs_path@),
    {
        match path_file_name(self.abs_path.as_str()) {
            Some(n) => n,
            None => String::new(),
        }
    }

    /// A copy of this item.
    pub fn duplicate(&self) -> (r: ImageItem)
        ensures
            r == *self,
    {
        ImageItem { abs_path: self.abs_path.clone(), rel_path: self.rel_path.clone() }
    }
}

/// One recorded move: the item, where it was and went, its list position at
/// the time, and the bucket it went to.
pub struct MoveOp {
    pub item: ImageItem,
    pub from_abs: String,
    pub to_abs: String,
    pub list_index: usize,
    pub bucket_name: String,
}

pub struct Session {
    pub root: String,
    pub recursive: bool,
    pub buckets: Vec<Bucket>,
    /// Images currently in each bucket's folder (parallel to `buckets`).
    pub bucket_counts: Vec<usize>,
    /// Where bucket edits are saved.
    pub config_path: String,
    pub metadata: Metadata,
    pub items: Vec<ImageItem>,
    pub index: usize,
    pub undo_stack: Vec<MoveOp>,
    pub redo_stack: Vec<MoveOp>,
    pub sort_key: String,
    pub sort_reverse: bool,
}

/// Counts are parallel to buckets, and the position is on an image (or 0
/// when there is none).
pub open spec fn session_wf(s: Session) -> bool {
    &&& s.bucket_counts@.len() == s.buckets@.len()
    &&& (s.index < s.items@.len() || (s.items@.len() == 0 && s.index == 0))
}

/// Everything but the image list, position, counts and history is the same.
pub open spec fn same_setup(a: Session, b: Session) -> bool {
    &&& a.root == b.root
    &&& a.recursive == b.recursive
    &&& a.buckets == b.buckets
    &&& a.config_path == b.config_path
    &&& a.metadata == b.metadata
    &&& a.sort_key == b.sort_key
    &&& a.sort_reverse == b.sort_reverse
}

/// Same state except the position.
pub open spec fn same_but_index(a: Session, b: Session) -> bool {
    &&& same_setup(a, b)
    &&& a.items == b.items
    &&& a.bucket_counts == b.bucket_counts
    &&& a.undo_stack == b.undo_stack
    &&& a.redo_stack == b.redo_stack
}

/// `i` clamped into `0..n` (0 when `n` is 0).
pub open spec fn clamp_to(i: int, n: int) -> int {
    if n <= 0 || i < 0 {
        0
    } else if i > n - 1 {
        n - 1
    } else {
        i
    }
}

/// The position after items were removed: unchanged if still on an image,
/// else the last image (or 0).
pub open spec fn clamp_after(i: int, n: int) -> int {
    if i >= n {
        if n > 0 {
            n - 1
        } else {
            0
        }
    } else {
        i
    }
}

/// Position of the first bucket named `n`.
pub open spec fn first_named(bs: Seq<Bucket>, n: Seq<char>) -> Option<int>
    decreases bs.len(),
{
    if bs.len() == 0 {
        None
    } else if first_named(bs.drop_last(), n) is Some {
        first_named(bs.drop_last(), n)
    } else if bs.last().name@ == n {
        Some(bs.len() - 1)
    } else {
        None
    }
}

/// Position of the first item whose path is `p`.
pub open spec fn first_at(items: Seq<ImageItem>, p: Seq<char>) -> Option<int>
    decreases items.len(),
{
    if items.len() == 0 {
        None
    } else if first_at(items.drop_last(), p) is Some {
        first_at(items.drop_last(), p)
    } else if items.last().abs_path@ == p {
        Some(items.len() - 1)
    } else {
        None
    }
}

pub proof fn lemma_first_named_bound(bs: Seq<Bucket>, n: Seq<char>)
    ensures
        first_named(bs, n) matches Some(i) ==> 0 <= i < bs.len() && bs[i].name@ == n,
    decreases bs.len(),
{
    if bs.len() > 0 {
        lemma_first_named_bound(bs.drop_last(), n);
    }
}

pub proof fn lemma_first_at_bound(items: Seq<ImageItem>, p: Seq<char>)
    ensures
        first_at(items, p) matches Some(i) ==> 0 <= i < items.len() && items[i].abs_path@ == p,
    decreases items.len(),
{
    if items.len() > 0 {
        lemma_first_at_bound(items.drop_last(), p);
    }
}

/// Counts after one image left the first bucket named `n` (never below 0).
pub open spec fn count_down(bs: Seq<Bucket>, counts: Seq<usize>, n: Seq<char>) -> Seq<usize> {
    match first_named(bs, n) {
        Some(i) => counts.update(i, if counts[i] > 0 { (counts[i] - 1) as usize } else { 0 }),
        None => counts,
    }
}

/// Counts after one image entered the first bucket named `n` (saturating).
pub open spec fn count_up(bs: Seq<Bucket>, counts: Seq<usize>, n: Seq<char>) -> Seq<usize> {
    match first_named(bs, n) {
        Some(i) => counts.update(
            i,
            if counts[i] < usize::MAX { (counts[i] + 1) as usize } else { usize::MAX },
        ),
        None => counts,
    }
}

/// What moving the image at `pos` into bucket `b` (to `dest`) records.
pub open spec fn move_op(s: Session, pos: int, b: int, dest: String) -> MoveOp {
    MoveOp {
        item: s.items@[pos],
        from_abs: s.items@[pos].abs_path,
        to_abs: dest,
        list_index: pos as usize,
        bucket_name: s.buckets@[b].name,
    }
}

/// The status line after moving an image named `name` into bucket `b`.
pub open spec fn move_message(bucket: Bucket, name: Seq<char>) -> Seq<char> {
    if bucket.is_reject {
        "Rejected: "@ + name
    } else {
        "→ "@ + bucket.name@ + ": "@ + name
    }
}

/// `move_current_to(b, dest)` took `s0` to `s1`, answering `r`.
pub open spec fn moved_current(s0: Session, s1: Session, b: int, dest: String, r: Option<String>) -> bool {
    if s0.items@.len() == 0 || b >= s0.buckets@.len() || s0.index >= s0.items@.len() {
        r is None && s1 == s0
    } else {
        let pos = s0.index as int;
        &&& same_setup(s0, s1)
        &&& s1.items@ == s0.items@.remove(pos)
        &&& s1.bucket_counts@ == s0.bucket_counts@.update(b, (s0.bucket_counts@[b] + 1) as usize)
        &&& s1.undo_stack@ == s0.undo_stack@.push(move_op(s0, pos, b, dest))
        &&& s1.redo_stack@.len() == 0
        &&& s1.index == clamp_after(pos, s1.items@.len() as int)
        &&& r matches Some(m) && m@ == move_message(s0.buckets@[b], name_of(s0.items@[pos].abs_path@))
    }
}

/// `undo(restore)` took `s0` to `s1`, answering `r`: the last move is taken
/// back, its image returning (at path `restore`) to its old list position.
pub open spec fn undone(s0: Session, s1: Session, restore: String, r: Option<String>) -> bool {
    if s0.undo_stack@.len() == 0 {
        r is None && s1 == s0
    } else {
        let op = s0.undo_stack@.last();
        let idx = if (op.list_index as int) < s0.items@.len() {
            op.list_index as int
        } else {
            s0.items@.len() as int
        };
        let back = s1.redo_stack@.last();
        &&& same_setup(s0, s1)
        &&& s1.items@ == s0.items@.insert(idx, ImageItem { abs_path: restore, rel_path: op.item.rel_path })
        &&& s1.index == idx
        &&& s1.bucket_counts@ == count_down(s0.buckets@, s0.bucket_counts@, op.bucket_name@)
        &&& s1.undo_stack@ == s0.undo_stack@.drop_last()
        &&& s1.redo_stack@.len() == s0.redo_stack@.len() + 1
        &&& s1.redo_stack@.drop_last() == s0.redo_stack@
        &&& back.item.abs_path == restore
        &&& back.item.rel_path@ == rel_path_of(restore@, s0.root@)
        &&& back.from_abs == op.from_abs
        &&& back.to_abs == op.to_abs
        &&& back.list_index == op.list_index
        &&& back.bucket_name == op.bucket_name
        &&& r matches Some(m) && m@ == "Undo: restored "@ + name_of(restore@)
    }
}

/// Where `redo` finds the image of the last undone move: the first item at
/// the move's source path, else the current position.
pub open spec fn redo_pos(s: Session) -> int {
    match first_at(s.items@, s.redo_stack@.last().from_abs@) {
        Some(k) => k,
        None => s.index as int,
    }
}

/// `redo(dest)` took `s0` to `s1`, answering `r`: the last undone move is
/// made again, to `dest`.
pub open spec fn redone(s0: Session, s1: Session, dest: String, r: Option<String>) -> bool {
    if s0.redo_stack@.len() == 0 || redo_pos(s0) >= s0.items@.len() {
        r is None && s1 == s0
    } else {
        let op = s0.redo_stack@.last();
        let pos = redo_pos(s0);
        let it = s0.items@[pos];
        &&& same_setup(s0, s1)
        &&& s1.items@ == s0.items@.remove(pos)
        &&& s1.bucket_counts@ == count_up(s0.buckets@, s0.bucket_counts@, op.bucket_name@)
        &&& s1.undo_stack@ == s0.undo_stack@.push(
            MoveOp {
                item: it,
                from_abs: op.from_abs,
                to_abs: dest,
                list_index: pos as usize,
                bucket_name: op.bucket_name,
            },
        )
        &&& s1.redo_stack@ == s0.redo_stack@.drop_last()
        &&& s1.index == clamp_after(s0.index as int, s1.items@.len() as int)
        &&& r matches Some(m) && m@ == "Redo: "@ + op.bucket_name@ + " "@ + name_of(it.abs_path@)
    }
}

/// Position `k` mirrored inside its group, where positions `0..a`, `a..b`
/// and `b..n` are the three groups.
pub open spec fn mirror_in_group(k: int, a: int, b: int, n: int) -> int {
    if k < a {
        a - 1 - k
    } else if k < b {
        a + b - 1 - k
    } else {
        b + n - 1 - k
    }
}

/// Along `p`, the keys are numbers at positions `0..a`, text at `a..b` and
/// missing from `b` on.
pub open spec fn kind_groups(keys: Seq<SortKey>, p: Seq<usize>, a: int, b: int) -> bool {
    &&& 0 <= a <= b <= p.len()
    &&& forall|k: int|
        0 <= k < p.len() ==> kind_rank(#[trigger] keys[p[k] as int]) == if k < a {
            0int
        } else if k < b {
            1int
        } else {
            2int
        }
}

/// `new` is `old` reordered by the stable ascending order of `keys` (one
/// key per old item). When `reverse`, the order is reversed inside each kind
/// only: numbers still come before text, and missing values stay last.
pub open spec fn sorted_as(old: Seq<ImageItem>, new: Seq<ImageItem>, keys: Seq<SortKey>, reverse: bool) -> bool {
    exists|p: Seq<usize>, a: int, b: int|
        #![trigger idx_sorted(keys, p), kind_groups(keys, p, a, b)]
        {
            &&& p.len() == old.len()
            &&& all_below(p, old.len() as int)
            &&& p.no_duplicates()
            &&& idx_sorted(keys, p)
            &&& kind_groups(keys, p, a, b)
            &&& new.len() == old.len()
            &&& forall|k: int|
                0 <= k < new.len() ==> #[trigger] new[k] == old[p[
                    if reverse {
                        mirror_in_group(k, a, b, new.len() as int)
                    } else {
                        k
                    }
                ] as int]
        }
}

/// Item list, counts, history and moves done after recording, in order,
/// the moves of `moved` into bucket `b`: entries whose position is past the
/// end of the list at their turn are skipped.
pub open spec fn fold_moves(
    items: Seq<ImageItem>,
    counts: Seq<usize>,
    undo: Seq<MoveOp>,
    moved: Seq<(usize, String)>,
    b: int,
    bname: String,
) -> (Seq<ImageItem>, Seq<usize>, Seq<MoveOp>, nat)
    decreases moved.len(),
{
    if moved.len() == 0 {
        (items, counts, undo, 0)
    } else {
        let t = fold_moves(items, counts, undo, moved.drop_last(), b, bname);
        let pos = moved.last().0 as int;
        if pos < t.0.len() {
            (
                t.0.remove(pos),
                t.1.update(b, (t.1[b] + 1) as usize),
                t.2.push(
                    MoveOp {
                        item: t.0[pos],
                        from_abs: t.0[pos].abs_path,
                        to_abs: moved.last().1,
                        list_index: pos as usize,
                        bucket_name: bname,
                    },
                ),
                t.3 + 1,
            )
        } else {
            t
        }
    }
}

/// `apply_sort(key, reverse, keys)` took `s0` to `s1`: the images are
/// reordered as `sorted_as` says, the sort is remembered, the position goes
/// to the first image, and nothing else changes.
pub open spec fn resorted(s0: Session, s1: Session, key: Seq<char>, reverse: bool, keys: Seq<SortKey>) -> bool {
    &&& sorted_as(s0.items@, s1.items@, keys, reverse)
    &&& s1.sort_key@ == key
    &&& s1.sort_reverse == reverse
    &&& s1.index == 0
    &&& s1.root == s0.root
    &&& s1.recursive == s0.recursive
    &&& s1.buckets == s0.buckets
    &&& s1.bucket_counts == s0.bucket_counts
    &&& s1.config_path == s0.config_path
    &&& s1.metadata == s0.metadata
    &&& s1.undo_stack == s0.undo_stack
    &&& s1.redo_stack == s0.redo_stack
}

/// `move_positions(moved, b)` took `s0` to `s1`, answering `n`: the moves
/// of `moved` are recorded in order as `fold_moves` says; an unknown bucket
/// changes nothing.
pub open spec fn moved_positions(s0: Session, s1: Session, moved: Seq<(usize, String)>, b: int, n: int) -> bool {
    if b >= s0.buckets@.len() {
        n == 0 && s1 == s0
    } else {
        let t = fold_moves(s0.items@, s0.bucket_counts@, s0.undo_stack@, moved, b, s0.buckets@[b].name);
        &&& same_setup(s0, s1)
        &&& s1.items@ == t.0
        &&& s1.bucket_counts@ == t.1
        &&& s1.undo_stack@ == t.2
        &&& n == t.3
        &&& n > 0 ==> s1.redo_stack@.len() == 0 && s1.index == clamp_after(s0.index as int, t.0.len() as int)
        &&& n == 0 ==> s1.redo_stack == s0.redo_stack && s1.index == s0.index
    }
}

/// The shape of `fold_moves`: the counts keep their length, each recorded
/// move takes one image out of the list, and with none recorded the list
/// is as it was.
pub proof fn lemma_fold_moves_shape(
    items: Seq<ImageItem>,
    counts: Seq<usize>,
    undo: Seq<MoveOp>,
    moved: Seq<(usize, String)>,
    b: int,
    bname: String,
)
    requires
        0 <= b < counts.len(),
    ensures
        ({
            let t = fold_moves(items, counts, undo, moved, b, bname);
            &&& t.1.len() == counts.len()
            &&& t.0.len() + t.3 == items.len()
            &&& t.3 == 0 ==> t.0 == items
        }),
    decreases moved.len(),
{
    if moved.len() > 0 {
        lemma_fold_moves_shape(items, counts, undo, moved.drop_last(), b, bname);
    }
}

proof fn lemma_fold_moves_counts(
    items: Seq<ImageItem>,
    counts: Seq<usize>,
    undo: Seq<MoveOp>,
    moved: Seq<(usize, String)>,
    b: int,
    bname: String,
)
    requires
        0 <= b < counts.len(),
        counts[b] + moved.len() <= usize::MAX,
    ensures
        ({
            let t = fold_moves(items, counts, undo, moved, b, bname);
            &&& t.1.len() == counts.len()
            &&& t.1[b] == counts[b] + t.3
            &&& t.3 <= moved.len()
            &&& t.0.len() + t.3 == items.len()
        }),
    decreases moved.len(),
{
    if moved.len() > 0 {
        lemma_fold_moves_counts(items, counts, undo, moved.drop_last(), b, bname);
    }
}

/// The `i`-th other name for a destination that is taken: `stem__i.ext`
/// (`stem__i` without an extension) in the same folder (`.` when the path
/// has no parent).
pub open spec fn numbered_name(dest: Seq<char>, i: nat) -> Seq<char> {
    let parent = match parent_of(dest) {
        Some(p) => p,
        None => "."@,
    };
    let stem = match file_stem_of(dest) {
        Some(s) => s,
        None => Seq::empty(),
    };
    join(
        parent,
        match extension_of(dest) {
            Some(e) => stem + "__"@ + decimal(i) + "."@ + e,
            None => stem + "__"@ + decimal(i),
        },
    )
}

/// The `i`-th other name for `dest`, tried in turn (from 1) by the caller
/// until one is free.
pub fn numbered_dest(dest: &str, i: usize) -> (r: String)
    ensures
        r@ == numbered_name(dest@, i as nat),
{
    let parent = match path_parent(dest) {
        Some(p) => p,
        None => String::from_str("."),
    };
    let mut name = match path_file_stem(dest) {
        Some(s) => s,
        None => String::new(),
    };
    name.append("__");
    name.append(usize_to_decimal(i).as_str());
    if let Some(e) = path_extension(dest) {
        name.append(".");
        name.append(e.as_str());
    }
    path_join(parent.as_str(), name.as_str())
}

/// The name tried at attempt `i` when looking for a free destination for
/// `dest`: `dest` itself first, then its numbered names `1, 2, ...`.
pub open spec fn dest_attempt(dest: Seq<char>, i: nat) -> Seq<char> {
    if i == 0 {
        dest
    } else {
        numbered_name(dest, i)
    }
}

/// The name to try at attempt `attempt`; the caller tries attempts `0, 1,
/// 2, ...` until one names no existing file.
pub fn dest_candidate(dest: &str, attempt: usize) -> (r: String)
    ensures
        r@ == dest_attempt(dest@, attempt as nat),
{
    if attempt == 0 {
        String::from_str(dest)
    } else {
        numbered_dest(dest, attempt)
    }
}

impl Session {
    /// A session over the images at `paths` (absolute), with the buckets,
    /// their image counts (one per bucket) and the metadata already loaded.
    pub fn new(
        root: String,
        recursive: bool,
        buckets: Vec<Bucket>,
        bucket_counts: Vec<usize>,
        config_path: String,
        metadata: Metadata,
        paths: Vec<String>,
    ) -> (s: Session)
        requires
            bucket_counts@.len() == buckets@.len(),
        ensures
            session_wf(s),
            s.root == root,
            s.recursive == recursive,
            s.buckets == buckets,
            s.bucket_counts == bucket_counts,
            s.config_path == config_path,
            s.metadata == metadata,
            s.items@.len() == paths@.len(),
            forall|i: int|
                0 <= i < paths@.len() ==> (#[trigger] s.items@[i]).abs_path == paths@[i]
                    && s.items@[i].rel_path@ == rel_path_of(paths@[i]@, root@),
            s.index == 0,
            s.undo_stack@.len() == 0,
            s.redo_stack@.len() == 0,
            s.sort_key@ == "name"@,
            !s.sort_reverse,
    {
        let mut items: Vec<ImageItem> = Vec::new();
        let mut i: usize = 0;
        while i < paths.len()
            invariant
                i <= paths@.len(),
                items@.len() == i,
                forall|k: int|
                    0 <= k < i ==> (#[trigger] items@[k]).abs_path == paths@[k]
                        && items@[k].rel_path@ == rel_path_of(paths@[k]@, root@),
            decreases paths.len() - i,
        {
            items.push(ImageItem::new(paths[i].clone(), root.as_str()));
            i = i + 1;
        }
        Session {
            root,
            recursive,
            buckets,
            bucket_counts,
            config_path,
            metadata,
            items,
            index: 0,
            undo_stack: Vec::new(),
            redo_stack: Vec::new(),
            sort_key: String::from_str("name"),
            sort_reverse: false,
        }
    }

    /// An empty session (no folder open).
    pub fn empty() -> (s: Session)
        ensures
            session_wf(s),
            s.root@.len() == 0,
            s.recursive,
            s.buckets@.len() == 1,
            s.buckets@[0].name@ == "reject"@,
            s.buckets@[0].key@ == "Delete"@,
            s.buckets@[0].folder@ == "_rejected"@,
            s.buckets@[0].is_reject,
            s.bucket_counts@ == seq![0usize],
            s.config_path@.len() == 0,
            s.metadata.wf(),
            s.metadata.columns@.len() == 0,
            s.metadata.rows.entries().len() == 0,
            s.items@.len() == 0,
            s.index == 0,
            s.undo_stack@.len() == 0,
            s.redo_stack@.len() == 0,
            s.sort_key@ == "name"@,
            !s.sort_reverse,
    {
        let mut buckets = Vec::new();
        buckets.push(default_reject());
        let mut counts = Vec::new();
        counts.push(0usize);
        assert(counts@ =~= seq![0usize]);
        Session {
            root: String::new(),
            recursive: true,
            buckets,
            bucket_counts: counts,
            config_path: String::new(),
            metadata: Metadata::empty(),
            items: Vec::new(),
            index: 0,
            undo_stack: Vec::new(),
            redo_stack: Vec::new(),
            sort_key: String::from_str("name"),
            sort_reverse: false,
        }
    }

    // ---- navigation ------------------------------------------------
    pub fn count(&self) -> (n: usize)
        ensures
            n == self.items@.len(),
    {
        self.items.len()
    }

    pub fn current(&self) -> (r: Option<&ImageItem>)
        ensures
            self.index < self.items@.len() ==> r == Some(&self.items@[self.index as int]),
            self.index >= self.items@.len() ==> r is None,
    {
        if self.index < self.items.len() {
            Some(&self.items[self.index])
        } else {
            None
        }
    }

    /// Go to position `i`, clamped into the list.
    pub fn set_index(&mut self, i: isize)
        ensures
            same_but_index(*old(self), *final(self)),
            final(self).index == clamp_to(i as int, old(self).items@.len() as int),
    {
        let n = self.items.len();
        if n == 0 || i < 0 {
            self.index = 0;
        } else {
            let u = i as usize;
            if u > n - 1 {
                self.index = n - 1;
            } else {
                self.index = u;
            }
        }
    }

    /// One image forward (staying on the last).
    pub fn next(&mut self)
        ensures
            same_but_index(*old(self), *final(self)),
            final(self).index == clamp_to(old(self).index + 1, old(self).items@.len() as int),
    {
        let n = self.items.len();
        if n == 0 {
            self.index = 0;
        } else if self.index >= n - 1 {
            self.index = n - 1;
        } else {
            self.index = self.index + 1;
        }
    }

    /// One image back (staying on the first).
    pub fn prev(&mut self)
        ensures
            same_but_index(*old(self), *final(self)),
            final(self).index == clamp_to(old(self).index - 1, old(self).items@.len() as int),
    {
        let n = self.items.len();
        if n == 0 || self.index == 0 {
            self.index = 0;
        } else if self.index - 1 > n - 1 {
            self.index = n - 1;
        } else {
            self.index = self.index - 1;
        }
    }

    /// Move by `delta` images, clamped into the list.
    pub fn jump(&mut self, delta: isize)
        ensures
            same_but_index(*old(self), *final(self)),
            final(self).index == clamp_to(old(self).index + delta, old(self).items@.len() as int),
    {
        let n = self.items.len();
        let target: i128 = self.index as i128 + delta as i128;
        if n == 0 || target < 0 {
            self.index = 0;
        } else if target > (n - 1) as i128 {
            self.index = n - 1;
        } else {
            self.index = target as usize;
        }
    }

    fn clamp_index(&mut self)
        ensures
            same_but_index(*old(self), *final(self)),
            final(self).index == clamp_after(old(self).index as int, old(self).items@.len() as int),
    {
        if self.index >= self.items.len() {
            self.index = if self.items.len() > 0 {
                self.items.len() - 1
            } else {
                0
            };
        }
    }

    // ---- move / undo engine ---------------------------------------
    /// Position of the first bucket named `name`.
    pub fn bucket_index_by_name(&self, name: &str) -> (r: Option<usize>)
        ensures
            r matches Some(i) ==> first_named(self.buckets@, name@) == Some(i as int),
            r is None ==> first_named(self.buckets@, name@) is None,
    {
        let mut i: usize = 0;
        while i < self.buckets.len()
            invariant
                i <= self.buckets@.len(),
                first_named(self.buckets@.take(i as int), name@) is None,
            decreases self.buckets@.len() - i,
        {
            assert(self.buckets@.take(i + 1).drop_last() =~= self.buckets@.take(i as int));
            if str_eq(self.buckets[i].name.as_str(), name) {
                assert(first_named(self.buckets@.take(i + 1), name@) == Some(i as int));
                proof {
                    lemma_first_named_prefix(self.buckets@, name@, i + 1);
                }
                return Some(i);
            }
            i = i + 1;
        }
        assert(self.buckets@.take(self.buckets@.len() as int) =~= self.buckets@);
        None
    }

    fn count_down(&mut self, name: &str)
        requires
            old(self).bucket_counts@.len() == old(self).buckets@.len(),
        ensures
            final(self).bucket_counts@ == count_down(
                old(self).buckets@,
                old(self).bucket_counts@,
                name@,
            ),
            same_setup(*old(self), *final(self)),
            final(self).items == old(self).items,
            final(self).index == old(self).index,
            final(self).undo_stack == old(self).undo_stack,
            final(self).redo_stack == old(self).redo_stack,
    {
        proof {
            lemma_first_named_bound(self.buckets@, name@);
        }
        if let Some(i) = self.bucket_index_by_name(name) {
            let c = self.bucket_counts[i];
            self.bucket_counts.set(i, if c > 0 { c - 1 } else { 0 });
        }
    }

    fn count_up(&mut self, name: &str)
        requires
            old(self).bucket_counts@.len() == old(self).buckets@.len(),
        ensures
            final(self).bucket_counts@ == count_up(old(self).buckets@, old(self).bucket_counts@, name@),
            same_setup(*old(self), *final(self)),
            final(self).items == old(self).items,
            final(self).index == old(self).index,
            final(self).undo_stack == old(self).undo_stack,
            final(self).redo_stack == old(self).redo_stack,
    {
        proof {
            lemma_first_named_bound(self.buckets@, name@);
        }
        if let Some(i) = self.bucket_index_by_name(name) {
            let c = self.bucket_counts[i];
            self.bucket_counts.set(i, if c < usize::MAX { c + 1 } else { usize::MAX });
        }
    }

    /// Where moving the image at `pos` into bucket `bucket_idx` starts and
    /// aims: its path, and its relative path under the bucket folder (before
    /// the caller picks a free name there).
    pub fn move_plan(&self, pos: usize, bucket_idx: usize) -> (r: Option<(String, String)>)
        ensures
            (pos < self.items@.len() && bucket_idx < self.buckets@.len()) <==> r is Some,
            r matches Some((from, to)) ==> from == self.items@[pos as int].abs_path && to@ == join(
                join(self.root@, self.buckets@[bucket_idx as int].folder@),
                self.items@[pos as int].rel_path@,
            ),
    {
        if pos >= self.items.len() || bucket_idx >= self.buckets.len() {
            return None;
        }
        let dir = self.buckets[bucket_idx].target_dir(self.root.as_str());
        let to = path_join(dir.as_str(), self.items[pos].rel_path.as_str());
        Some((self.items[pos].abs_path.clone(), to))
    }

    /// Record that the image at `pos` was moved into bucket `bucket_idx`, to
    /// `dest`: it leaves the list and the bucket count goes up.
    fn do_move(&mut self, pos: usize, bucket_idx: usize, dest: String) -> (op: MoveOp)
        requires
            pos < old(self).items@.len(),
            bucket_idx < old(self).buckets@.len(),
            old(self).bucket_counts@.len() == old(self).buckets@.len(),
            old(self).bucket_counts@[bucket_idx as int] < usize::MAX,
        ensures
            op == move_op(*old(self), pos as int, bucket_idx as int, dest),
            same_setup(*old(self), *final(self)),
            final(self).items@ == old(self).items@.remove(pos as int),
            final(self).bucket_counts@ == old(self).bucket_counts@.update(
                bucket_idx as int,
                (old(self).bucket_counts@[bucket_idx as int] + 1) as usize,
            ),
            final(self).index == old(self).index,
            final(self).undo_stack == old(self).undo_stack,
            final(self).redo_stack == old(self).redo_stack,
    {
        let name = self.buckets[bucket_idx].name.clone();
        let item = self.items.remove(pos);
        let c = self.bucket_counts[bucket_idx];
        self.bucket_counts.set(bucket_idx, c + 1);
        let from_abs = item.abs_path.clone();
        MoveOp { item, from_abs, to_abs: dest, list_index: pos, bucket_name: name }
    }

    /// Record that the current image was moved into bucket `bucket_idx`, to
    /// `dest`. Returns a status message, or `None` when there is no current
    /// image or no such bucket.
    pub fn move_current_to(&mut self, bucket_idx: usize, dest: String) -> (r: Option<String>)
        requires
            old(self).bucket_counts@.len() == old(self).buckets@.len(),
            bucket_idx < old(self).buckets@.len() && old(self).index < old(self).items@.len()
                ==> old(self).bucket_counts@[bucket_idx as int] < usize::MAX,
        ensures
            moved_current(*old(self), *final(self), bucket_idx as int, dest, r),
    {
        if self.items.len() == 0 || bucket_idx >= self.buckets.len() || self.index >= self.items.len() {
            return None;
        }
        let pos = self.index;
        let op = self.do_move(pos, bucket_idx, dest);
        let name = op.item.name();
        self.undo_stack.push(op);
        self.redo_stack = Vec::new();
        self.clamp_index();
        let msg = if self.buckets[bucket_idx].is_reject {
            concat("Rejected: ", name.as_str())
        } else {
            let a = concat("→ ", self.buckets[bucket_idx].name.as_str());
            let b = concat(a.as_str(), ": ");
            concat(b.as_str(), name.as_str())
        };
        Some(msg)
    }

    /// Reorder the images by `keys` (one per image, in list order):
    /// ascending and stable; with `reverse`, each kind in the opposite order,
    /// numbers still before text and missing values last. Then go to the
    /// first image of the new order.
    pub fn apply_sort(&mut self, key: &str, reverse: bool, keys: Vec<SortKey>)
        requires
            keys@.len() == old(self).items@.len(),
        ensures
            resorted(*old(self), *final(self), key@, reverse, keys@),
    {
        let order = stable_order(&keys);
        let n = order.len();
        // the ascending order holds the numbers, then the text, then the
        // missing values: find where each group starts
        let mut a: usize = 0;
        while a < n && kind_rank_exec(&keys[order[a]]) == 0
            invariant
                a <= n,
                n == order@.len(),
                n == keys@.len(),
                all_below(order@, n as int),
                forall|k: int| 0 <= k < a ==> kind_rank(#[trigger] keys@[order@[k] as int]) == 0,
            decreases n - a,
        {
            a = a + 1;
        }
        let mut b: usize = a;
        while b < n && kind_rank_exec(&keys[order[b]]) == 1
            invariant
                a <= b <= n,
                n == order@.len(),
                n == keys@.len(),
                all_below(order@, n as int),
                forall|k: int| a <= k < b ==> kind_rank(#[trigger] keys@[order@[k] as int]) == 1,
            decreases n - b,
        {
            b = b + 1;
        }
        proof {
            assert forall|k: int| 0 <= k < n implies kind_rank(#[trigger] keys@[order@[k] as int]) == if k
                < a {
                0int
            } else if k < b {
                1int
            } else {
                2int
            } by {
                let kk = keys@[order@[k] as int];
                assert(kind_rank(kk) == 0 || kind_rank(kk) == 1 || kind_rank(kk) == 2);
                if k >= b {
                    let kb = keys@[order@[b as int] as int];
                    assert(kind_rank(kb) != 1);
                    if b > a {
                        assert(kind_rank(keys@[order@[a as int] as int]) == 1);
                    }
                    assert(kind_rank(keys@[order@[a as int] as int]) != 0);
                    if a < b {
                        lemma_kind_monotone(keys@, order@, a as int, b as int);
                    }
                    assert(kind_rank(kb) == 2);
                    if k > b {
                        lemma_kind_monotone(keys@, order@, b as int, k);
                    }
                } else if k >= a {
                } else {
                }
            }
            assert(kind_groups(keys@, order@, a as int, b as int));
        }
        let mut items: Vec<ImageItem> = Vec::new();
        let mut k: usize = 0;
        while k < n
            invariant
                k <= n,
                a <= b <= n,
                n == order@.len(),
                n == self.items@.len(),
                all_below(order@, n as int),
                items@.len() == k,
                forall|j: int|
                    0 <= j < k ==> #[trigger] items@[j] == self.items@[order@[
                        if reverse {
                            mirror_in_group(j, a as int, b as int, n as int)
                        } else {
                            j
                        }
                    ] as int],
            decreases n - k,
        {
            let at = if !reverse {
                k
            } else if k < a {
                a - 1 - k
            } else if k < b {
                a + (b - 1 - k)
            } else {
                b + (n - 1 - k)
            };
            assert(order@[at as int] < n);
            items.push(self.items[order[at]].duplicate());
            k = k + 1;
        }
        self.items = items;
        self.sort_key = String::from_str(key);
        self.sort_reverse = reverse;
        self.index = 0;
        assert(idx_sorted(keys@, order@));
    }

    /// The list positions of `positions` without repeats, highest first: the
    /// order in which several images are moved so that the positions of
    /// those not yet moved stay valid.
    pub fn bulk_order(positions: &[usize]) -> (r: Vec<usize>)
        ensures
            r@.to_set() == positions@.to_set(),
            forall|i: int, j: int| 0 <= i < j < r@.len() ==> r@[i] > r@[j],
    {
        let mut out: Vec<usize> = Vec::new();
        let mut i: usize = 0;
        while i < positions.len()
            invariant
                i <= positions@.len(),
                out@.to_set() == positions@.take(i as int).to_set(),
                forall|a: int, b: int| 0 <= a < b < out@.len() ==> out@[a] > out@[b],
            decreases positions@.len() - i,
        {
            let x = positions[i];
            let mut p: usize = 0;
            while p < out.len() && out[p] > x
                invariant
                    p <= out@.len(),
                    forall|k: int| 0 <= k < p ==> out@[k] > x,
                decreases out@.len() - p,
            {
                p = p + 1;
            }
            let ghost before = out@;
            assert(positions@.take(i + 1) =~= positions@.take(i as int).push(x));
            if p < out.len() && out[p] == x {
                proof {
                    assert(before.to_set().contains(x)) by {
                        assert(before[p as int] == x);
                    }
                    assert(positions@.take(i + 1).to_set() =~= positions@.take(i as int).to_set().insert(x)) by {
                        positions@.take(i as int).lemma_push_to_set_commute(x);
                    }
                    assert(out@.to_set() =~= positions@.take(i + 1).to_set());
                }
            } else {
                out.insert(p, x);
                proof {
                    assert(out@ == before.insert(p as int, x));
                    assert(out@.to_set() =~= before.to_set().insert(x)) by {
                        assert forall|y: usize| out@.to_set().contains(y) == before.to_set().insert(x).contains(y) by {
                            if out@.to_set().contains(y) {
                                let k = choose|k: int| 0 <= k < out@.len() && out@[k] == y;
                                if k < p {
                                    assert(before[k] == y);
                                } else if k > p {
                                    assert(before[k - 1] == y);
                                }
                            }
                            if before.to_set().contains(y) {
                                let k = choose|k: int| 0 <= k < before.len() && before[k] == y;
                                if k < p {
                                    assert(out@[k] == y);
                                } else {
                                    assert(out@[k + 1] == y);
                                }
                            }
                            if y == x {
                                assert(out@[p as int] == x);
                            }
                        }
                    }
                    assert(positions@.take(i + 1).to_set() =~= positions@.take(i as int).to_set().insert(x)) by {
                        positions@.take(i as int).lemma_push_to_set_commute(x);
                    }
                    assert forall|a: int, b: int| 0 <= a < b < out@.len() implies out@[a] > out@[b] by {
                        if a < p && b == p {
                        } else if a == p && b > p {
                            assert(before[p as int] < x);
                            assert(before[b - 1] <= before[p as int]);
                        } else if a < p && b > p {
                            assert(out@[b] == before[b - 1]);
                        } else if a > p {
                            assert(out@[a] == before[a - 1]);
                            assert(out@[b] == before[b - 1]);
                        }
                    }
                }
            }
            i = i + 1;
        }
        assert(positions@.take(positions@.len() as int) =~= positions@);
        out
    }

    /// Record several moves into bucket `bucket_idx`, each done by the caller
    /// already: `(list position at its turn, destination)`, highest positions
    /// first. Each is an independent undo step. Returns the number recorded.
    pub fn move_positions(&mut self, moved: Vec<(usize, String)>, bucket_idx: usize) -> (n: usize)
        requires
            old(self).bucket_counts@.len() == old(self).buckets@.len(),
            bucket_idx < old(self).buckets@.len() ==> old(self).bucket_counts@[bucket_idx as int]
                + moved@.len() <= usize::MAX,
        ensures
            moved_positions(*old(self), *final(self), moved@, bucket_idx as int, n as int),
    {
        if bucket_idx >= self.buckets.len() {
            return 0;
        }
        let ghost s0 = *self;
        let ghost bname = self.buckets@[bucket_idx as int].name;
        let mut count: usize = 0;
        let mut i: usize = 0;
        while i < moved.len()
            invariant
                i <= moved@.len(),
                bucket_idx < self.buckets@.len(),
                bname == self.buckets@[bucket_idx as int].name,
                same_setup(s0, *self),
                self.bucket_counts@.len() == self.buckets@.len(),
                s0.bucket_counts@.len() == s0.buckets@.len(),
                s0.buckets == self.buckets,
                s0.bucket_counts@[bucket_idx as int] + moved@.len() <= usize::MAX,
                self.index == s0.index,
                self.redo_stack == s0.redo_stack,
                ({
                    let t = fold_moves(
                        s0.items@,
                        s0.bucket_counts@,
                        s0.undo_stack@,
                        moved@.take(i as int),
                        bucket_idx as int,
                        bname,
                    );
                    &&& self.items@ == t.0
                    &&& self.bucket_counts@ == t.1
                    &&& self.undo_stack@ == t.2
                    &&& count == t.3
                }),
            decreases moved@.len() - i,
        {
            proof {
                assert(moved@.take(i + 1).drop_last() =~= moved@.take(i as int));
                lemma_fold_moves_counts(
                    s0.items@,
                    s0.bucket_counts@,
                    s0.undo_stack@,
                    moved@.take(i as int),
                    bucket_idx as int,
                    bname,
                );
            }
            let pos = moved[i].0;
            if pos < self.items.len() {
                let op = self.do_move(pos, bucket_idx, moved[i].1.clone());
                self.undo_stack.push(op);
                count = count + 1;
            }
            i = i + 1;
        }
        assert(moved@.take(moved@.len() as int) =~= moved@);
        if count > 0 {
            self.redo_stack = Vec::new();
            self.clamp_index();
        }
        count
    }

    /// The last move, if any: where its image is now and where it came from.
    pub fn undo_plan(&self) -> (r: Option<(String, String)>)
        ensures
            r is Some <==> self.undo_stack@.len() > 0,
            r matches Some((to, from)) ==> to == self.undo_stack@.last().to_abs && from
                == self.undo_stack@.last().from_abs,
    {
        let n = self.undo_stack.len();
        if n == 0 {
            None
        } else {
            Some((self.undo_stack[n - 1].to_abs.clone(), self.undo_stack[n - 1].from_abs.clone()))
        }
    }

    /// Record that the last move was taken back, its image now at `restore`.
    pub fn undo(&mut self, restore: String) -> (r: Option<String>)
        requires
            old(self).bucket_counts@.len() == old(self).buckets@.len(),
        ensures
            undone(*old(self), *final(self), restore, r),
    {
        if self.undo_stack.len() == 0 {
            return None;
        }
        let ghost s0 = *self;
        let op = self.undo_stack.pop().unwrap();
        assert(op == s0.undo_stack@.last());
        let MoveOp { item, from_abs, to_abs, list_index, bucket_name } = op;
        self.count_down(bucket_name.as_str());
        let rel_path = item.rel_path;
        let back_item = ImageItem::new(restore.clone(), self.root.as_str());
        let restored = ImageItem { abs_path: restore, rel_path };
        let name = restored.name();
        let idx = if list_index < self.items.len() {
            list_index
        } else {
            self.items.len()
        };
        self.items.insert(idx, restored);
        self.index = idx;
        self.redo_stack.push(MoveOp { item: back_item, from_abs, to_abs, list_index, bucket_name });
        assert(same_setup(s0, *self));
        assert(self.undo_stack@ == s0.undo_stack@.drop_last());
        assert(self.redo_stack@.drop_last() =~= s0.redo_stack@);
        assert(self.bucket_counts@ == count_down(s0.buckets@, s0.bucket_counts@, s0.undo_stack@.last().bucket_name@));
        Some(concat("Undo: restored ", name.as_str()))
    }

    /// Position of the first image at path `p`.
    pub fn position_of(&self, p: &str) -> (r: Option<usize>)
        ensures
            r matches Some(i) ==> first_at(self.items@, p@) == Some(i as int),
            r is None ==> first_at(self.items@, p@) is None,
    {
        let mut i: usize = 0;
        while i < self.items.len()
            invariant
                i <= self.items@.len(),
                first_at(self.items@.take(i as int), p@) is None,
            decreases self.items@.len() - i,
        {
            assert(self.items@.take(i + 1).drop_last() =~= self.items@.take(i as int));
            if str_eq(self.items[i].abs_path.as_str(), p) {
                assert(first_at(self.items@.take(i + 1), p@) == Some(i as int));
                proof {
                    lemma_first_at_prefix(self.items@, p@, i + 1);
                }
                return Some(i);
            }
            i = i + 1;
        }
        assert(self.items@.take(self.items@.len() as int) =~= self.items@);
        None
    }

    /// The last undone move, if it can be made again: the list position of its
    /// image, that image's path, and where the move went the first time.
    pub fn redo_plan(&self) -> (r: Option<(usize, String, String)>)
        ensures
            r is Some <==> (self.redo_stack@.len() > 0 && redo_pos(*self) < self.items@.len()),
            r matches Some((pos, from, to)) ==> pos == redo_pos(*self) && from
                == self.items@[pos as int].abs_path && to == self.redo_stack@.last().to_abs,
    {
        let n = self.redo_stack.len();
        if n == 0 {
            return None;
        }
        let pos = match self.position_of(self.redo_stack[n - 1].from_abs.as_str()) {
            Some(k) => k,
            None => self.index,
        };
        if pos >= self.items.len() {
            return None;
        }
        Some((pos, self.items[pos].abs_path.clone(), self.redo_stack[n - 1].to_abs.clone()))
    }

    /// Record that the last undone move was made again, to `dest`.
    pub fn redo(&mut self, dest: String) -> (r: Option<String>)
        requires
            old(self).bucket_counts@.len() == old(self).buckets@.len(),
        ensures
            redone(*old(self), *final(self), dest, r),
    {
        let pos = match self.redo_plan() {
            Some((pos, _, _)) => pos,
            None => return None,
        };
        let op = match self.redo_stack.pop() {
            Some(op) => op,
            None => return None,
        };
        let item = self.items.remove(pos);
        let name = item.name();
        self.count_up(op.bucket_name.as_str());
        let msg = {
            let a = concat("Redo: ", op.bucket_name.as_str());
            let b = concat(a.as_str(), " ");
            concat(b.as_str(), name.as_str())
        };
        self.undo_stack.push(
            MoveOp {
                item,
                from_abs: op.from_abs,
                to_abs: dest,
                list_index: pos,
                bucket_name: op.bucket_name,
            },
        );
        self.clamp_index();
        Some(msg)
    }
}

proof fn lemma_first_named_prefix(bs: Seq<Bucket>, n: Seq<char>, k: int)
    requires
        0 <= k <= bs.len(),
        first_named(bs.take(k), n) is Some,
    ensures
        first_named(bs, n) == first_named(bs.take(k), n),
    decreases bs.len() - k,
{
    if k < bs.len() {
        assert(bs.take(k + 1).drop_last() =~= bs.take(k));
        lemma_first_named_prefix(bs, n, k + 1);
    } else {
        assert(bs.take(k) =~= bs);
    }
}

proof fn lemma_first_at_prefix(items: Seq<ImageItem>, p: Seq<char>, k: int)
    requires
        0 <= k <= items.len(),
        first_at(items.take(k), p) is Some,
    ensures
        first_at(items, p) == first_at(items.take(k), p),
    decreases items.len() - k,
{
    if k < items.len() {
        assert(items.take(k + 1).drop_last() =~= items.take(k));
        lemma_first_at_prefix(items, p, k + 1);
    } else {
        assert(items.take(k) =~= items);
    }
}

/// When some image has path `p`, the first image at `p` is found.
pub proof fn lemma_first_at_found(items: Seq<ImageItem>, p: Seq<char>, k: int)
    requires
        0 <= k < items.len(),
        items[k].abs_path@ == p,
    ensures
        first_at(items, p) is Some,
    decreases items.len(),
{
    if k < items.len() - 1 {
        lemma_first_at_found(items.drop_last(), p, k);
    }
}

proof fn lemma_first_at_none(items: Seq<ImageItem>, p: Seq<char>)
    requires
        forall|j: int| 0 <= j < items.len() ==> (#[trigger] items[j]).abs_path@ != p,
    ensures
        first_at(items, p) is None,
    decreases items.len(),
{
    if items.len() > 0 {
        lemma_first_at_none(items.drop_last(), p);
    }
}

proof fn lemma_first_at_is(items: Seq<ImageItem>, p: Seq<char>, k: int)
    requires
        0 <= k < items.len(),
        items[k].abs_path@ == p,
        forall|j: int| 0 <= j < k ==> (#[trigger] items[j]).abs_path@ != p,
    ensures
        first_at(items, p) == Some(k),
    decreases items.len(),
{
    if k == items.len() - 1 {
        lemma_first_at_none(items.drop_last(), p);
    } else {
        lemma_first_at_is(items.drop_last(), p, k);
    }
}

/// Moving the current image into a bucket and then undoing that move puts
/// the image back at its place in the list (at the path the undo restored it
/// to), returns to it, and leaves the bucket counts and the history as they
/// were. When the image is restored to its old path, the list is the same as
/// before.
pub proof fn law_undo_restores_move(
    s0: Session,
    s1: Session,
    s2: Session,
    b: int,
    dest: String,
    restore: String,
    r1: Option<String>,
    r2: Option<String>,
)
    requires
        session_wf(s0),
        s0.items@.len() > 0,
        0 <= b < s0.buckets@.len(),
        s0.bucket_counts@[b] < usize::MAX,
        first_named(s0.buckets@, s0.buckets@[b].name@) == Some(b),
        moved_current(s0, s1, b, dest, r1),
        undone(s1, s2, restore, r2),
    ensures
        r1 is Some,
        r2 is Some,
        same_setup(s0, s2),
        s2.items@ == s0.items@.update(
            s0.index as int,
            ImageItem { abs_path: restore, rel_path: s0.items@[s0.index as int].rel_path },
        ),
        restore == s0.items@[s0.index as int].abs_path ==> s2.items@ == s0.items@,
        s2.index == s0.index,
        s2.bucket_counts@ == s0.bucket_counts@,
        s2.undo_stack@ == s0.undo_stack@,
        s2.redo_stack@.len() == 1,
{
    let pos = s0.index as int;
    let it = s0.items@[pos];
    assert(s1.undo_stack@.last() == move_op(s0, pos, b, dest));
    let back = ImageItem { abs_path: restore, rel_path: it.rel_path };
    assert(s2.items@ =~= s0.items@.update(pos, back));
    if restore == it.abs_path {
        assert(back == it);
        assert(s0.items@.update(pos, back) =~= s0.items@);
    }
    assert(s2.bucket_counts@ =~= s0.bucket_counts@);
    assert(s2.undo_stack@ =~= s0.undo_stack@);
}

/// Redoing an undone move (when the image went back to its old path, and the
/// images have distinct paths) takes the image out of the list again,
/// giving the same list, position and counts as the first move, and records
/// the move to its new destination; nothing is left to redo after it.
pub proof fn law_redo_repeats_move(
    s0: Session,
    s1: Session,
    s2: Session,
    s3: Session,
    b: int,
    dest: String,
    dest2: String,
    r1: Option<String>,
    r2: Option<String>,
    r3: Option<String>,
)
    requires
        session_wf(s0),
        s0.items@.len() > 0,
        0 <= b < s0.buckets@.len(),
        s0.bucket_counts@[b] < usize::MAX,
        first_named(s0.buckets@, s0.buckets@[b].name@) == Some(b),
        forall|i: int, j: int|
            0 <= i < j < s0.items@.len() ==> (#[trigger] s0.items@[i]).abs_path@
                != (#[trigger] s0.items@[j]).abs_path@,
        moved_current(s0, s1, b, dest, r1),
        undone(s1, s2, s0.items@[s0.index as int].abs_path, r2),
        redone(s2, s3, dest2, r3),
    ensures
        r3 is Some,
        same_setup(s0, s3),
        s3.items@ == s1.items@,
        s3.index == s1.index,
        s3.bucket_counts@ == s1.bucket_counts@,
        s3.undo_stack@ == s0.undo_stack@.push(move_op(s0, s0.index as int, b, dest2)),
        s3.redo_stack@.len() == 0,
        forall|s4: Session, d: String, r4: Option<String>| #[trigger] redone(s3, s4, d, r4) ==> r4 is None
            && s4 == s3,
{
    let pos = s0.index as int;
    law_undo_restores_move(s0, s1, s2, b, dest, s0.items@[pos].abs_path, r1, r2);
    lemma_first_at_is(s2.items@, s0.items@[pos].abs_path@, pos);
    assert(redo_pos(s2) == pos);
    assert(s3.items@ =~= s1.items@);
    assert(s3.bucket_counts@ =~= s1.bucket_counts@);
    assert(s3.undo_stack@ =~= s0.undo_stack@.push(move_op(s0, pos, b, dest2)));
}

/// Undoing, from `ss[0]`, the moves that `fold_moves` recorded, each image
/// going back to the path it came from, gives back the list, counts and
/// history that the fold started from.
proof fn lemma_undo_fold(
    items: Seq<ImageItem>,
    counts: Seq<usize>,
    undo: Seq<MoveOp>,
    moved: Seq<(usize, String)>,
    b: int,
    bname: String,
    ss: Seq<Session>,
    rs: Seq<Option<String>>,
)
    requires
        0 <= b < counts.len(),
        counts.len() == ss[0].buckets@.len(),
        first_named(ss[0].buckets@, bname@) == Some(b),
        counts[b] + moved.len() <= usize::MAX,
        ({
            let t = fold_moves(items, counts, undo, moved, b, bname);
            &&& ss.len() == t.3 + 1
            &&& rs.len() == t.3
            &&& ss[0].items@ == t.0
            &&& ss[0].bucket_counts@ == t.1
            &&& ss[0].undo_stack@ == t.2
            &&& forall|k: int|
                0 <= k < t.3 ==> undone(
                    #[trigger] ss[k],
                    ss[k + 1],
                    ss[k].undo_stack@.last().from_abs,
                    rs[k],
                )
        }),
    ensures
        ({
            let t = fold_moves(items, counts, undo, moved, b, bname);
            &&& ss[t.3 as int].items@ == items
            &&& ss[t.3 as int].bucket_counts@ == counts
            &&& ss[t.3 as int].undo_stack@ == undo
            &&& same_setup(ss[0], ss[t.3 as int])
            &&& forall|k: int| 0 <= k < t.3 ==> (#[trigger] rs[k]) is Some
        }),
    decreases moved.len(),
{
    let t = fold_moves(items, counts, undo, moved, b, bname);
    if moved.len() == 0 {
        return;
    }
    let m = moved.drop_last();
    let t1 = fold_moves(items, counts, undo, m, b, bname);
    lemma_fold_moves_counts(items, counts, undo, m, b, bname);
    let pos = moved.last().0 as int;
    if pos < t1.0.len() {
        // the last entry was recorded: the first undo takes it back
        let s0 = ss[0];
        let s1 = ss[1];
        assert(undone(ss[0], ss[1], ss[0].undo_stack@.last().from_abs, rs[0]));
        let op = s0.undo_stack@.last();
        assert(op.item == t1.0[pos]);
        assert(op.list_index == pos);
        let restored = ImageItem { abs_path: op.from_abs, rel_path: op.item.rel_path };
        assert(restored == t1.0[pos]);
        assert(s1.items@ =~= t1.0);
        lemma_first_named_bound(s0.buckets@, bname@);
        assert(s1.bucket_counts@ =~= t1.1);
        assert(s1.undo_stack@ =~= t1.2);
        let ss2 = ss.subrange(1, ss.len() as int);
        let rs2 = rs.subrange(1, rs.len() as int);
        assert forall|k: int| 0 <= k < t1.3 implies undone(
            #[trigger] ss2[k],
            ss2[k + 1],
            ss2[k].undo_stack@.last().from_abs,
            rs2[k],
        ) by {
            assert(ss2[k] == ss[k + 1] && ss2[k + 1] == ss[k + 2] && rs2[k] == rs[k + 1]);
            assert(undone(ss[k + 1], ss[k + 2], ss[k + 1].undo_stack@.last().from_abs, rs[k + 1]));
        }
        lemma_undo_fold(items, counts, undo, m, b, bname, ss2, rs2);
        assert(ss2[t1.3 as int] == ss[t.3 as int]);
        assert forall|k: int| 0 <= k < t.3 implies (#[trigger] rs[k]) is Some by {
            if k > 0 {
                assert(rs2[k - 1] == rs[k]);
            }
        }
    } else {
        lemma_undo_fold(items, counts, undo, m, b, bname, ss, rs);
    }
}

/// A bulk move into bucket `b` followed by as many undos as it recorded
/// moves, each image going back to the path it came from, gives back the
/// image list, the bucket counts and the history from before the bulk move.
pub proof fn law_undo_restores_bulk_move(
    s0: Session,
    s1: Session,
    moved: Seq<(usize, String)>,
    b: int,
    n: int,
    ss: Seq<Session>,
    rs: Seq<Option<String>>,
)
    requires
        session_wf(s0),
        0 <= b < s0.buckets@.len(),
        s0.bucket_counts@[b] + moved.len() <= usize::MAX,
        first_named(s0.buckets@, s0.buckets@[b].name@) == Some(b),
        moved_positions(s0, s1, moved, b, n),
        ss.len() == n + 1,
        rs.len() == n,
        ss[0] == s1,
        forall|k: int|
            0 <= k < n ==> undone(#[trigger] ss[k], ss[k + 1], ss[k].undo_stack@.last().from_abs, rs[k]),
    ensures
        forall|k: int| 0 <= k < n ==> (#[trigger] rs[k]) is Some,
        same_setup(s0, ss[n]),
        ss[n].items@ == s0.items@,
        ss[n].bucket_counts@ == s0.bucket_counts@,
        ss[n].undo_stack@ == s0.undo_stack@,
{
    lemma_undo_fold(
        s0.items@,
        s0.bucket_counts@,
        s0.undo_stack@,
        moved,
        b,
        s0.buckets@[b].name,
        ss,
        rs,
    );
}

/// The positions named in `ps`.
pub open spec fn index_set(ps: Seq<usize>) -> Set<int> {
    Set::new(|p: int| exists|i: int| 0 <= i < ps.len() && #[trigger] ps[i] as int == p)
}

/// `items` without the images at positions in `ps`, the others in order.
pub open spec fn drop_positions(items: Seq<ImageItem>, ps: Set<int>) -> Seq<ImageItem>
    decreases items.len(),
{
    if items.len() == 0 {
        items
    } else {
        let r = drop_positions(items.drop_last(), ps);
        if ps.contains(items.len() - 1) {
            r
        } else {
            r.push(items.last())
        }
    }
}

/// How many entries of `moved` name a position below `len`.
pub open spec fn count_below(moved: Seq<(usize, String)>, len: int) -> nat
    decreases moved.len(),
{
    if moved.len() == 0 {
        0
    } else {
        count_below(moved.drop_last(), len) + if (moved.last().0 as int) < len {
            1nat
        } else {
            0nat
        }
    }
}

proof fn lemma_drop_none(items: Seq<ImageItem>, ps: Set<int>)
    requires
        forall|x: int| ps.contains(x) ==> x >= items.len(),
    ensures
        drop_positions(items, ps) == items,
    decreases items.len(),
{
    if items.len() > 0 {
        lemma_drop_none(items.drop_last(), ps);
        assert(items.drop_last().push(items.last()) =~= items);
    }
}

proof fn lemma_drop_beyond(items: Seq<ImageItem>, ps: Set<int>, p: int)
    requires
        p >= items.len(),
    ensures
        drop_positions(items, ps.insert(p)) == drop_positions(items, ps),
    decreases items.len(),
{
    if items.len() > 0 {
        lemma_drop_beyond(items.drop_last(), ps, p);
    }
}

proof fn lemma_drop_one_more(items: Seq<ImageItem>, ps: Set<int>, p: int)
    requires
        0 <= p < items.len(),
        forall|x: int| ps.contains(x) ==> x > p,
    ensures
        drop_positions(items, ps).len() > p,
        drop_positions(items, ps)[p] == items[p],
        drop_positions(items, ps).remove(p) == drop_positions(items, ps.insert(p)),
    decreases items.len(),
{
    let n = items.len();
    let rest = items.drop_last();
    if n - 1 == p {
        lemma_drop_none(rest, ps);
        lemma_drop_none(rest, ps.insert(p));
        assert(drop_positions(items, ps) == rest.push(items.last()));
        assert(rest.push(items.last()).remove(p) =~= rest);
    } else {
        lemma_drop_one_more(rest, ps, p);
        let r = drop_positions(rest, ps);
        if !ps.contains(n - 1) {
            assert(r.push(items.last()).remove(p) =~= r.remove(p).push(items.last()));
        }
    }
}

/// `fold_moves` over positions given highest first takes out exactly the
/// images at those positions, and records one move per position on an image.
proof fn lemma_fold_drops_positions(
    items: Seq<ImageItem>,
    counts: Seq<usize>,
    undo: Seq<MoveOp>,
    moved: Seq<(usize, String)>,
    b: int,
    bname: String,
)
    requires
        0 <= b < counts.len(),
        forall|i: int, j: int| 0 <= i < j < moved.len() ==> (#[trigger] moved[i]).0 > (#[trigger] moved[j]).0,
    ensures
        ({
            let t = fold_moves(items, counts, undo, moved, b, bname);
            &&& t.0 == drop_positions(items, index_set(moved.map_values(|e: (usize, String)| e.0)))
            &&& t.3 == count_below(moved, items.len() as int)
        }),
    decreases moved.len(),
{
    let f = |e: (usize, String)| e.0;
    if moved.len() == 0 {
        lemma_drop_none(items, index_set(moved.map_values(f)));
        return;
    }
    let m = moved.drop_last();
    lemma_fold_drops_positions(items, counts, undo, m, b, bname);
    lemma_fold_moves_shape(items, counts, undo, m, b, bname);
    let t1 = fold_moves(items, counts, undo, m, b, bname);
    let ps = index_set(m.map_values(f));
    let p = moved.last().0 as int;
    assert(index_set(moved.map_values(f)) =~= ps.insert(p)) by {
        assert(moved.map_values(f) =~= m.map_values(f).push(moved.last().0));
        assert forall|x: int| #[trigger] index_set(moved.map_values(f)).contains(x) == ps.insert(p).contains(x) by {
            if index_set(moved.map_values(f)).contains(x) {
                let i = choose|i: int| 0 <= i < moved.map_values(f).len() && #[trigger] moved.map_values(f)[i] as int == x;
                if i < m.len() {
                    assert(m.map_values(f)[i] == moved.map_values(f)[i]);
                }
            }
            if ps.contains(x) {
                let i = choose|i: int| 0 <= i < m.map_values(f).len() && #[trigger] m.map_values(f)[i] as int == x;
                assert(moved.map_values(f)[i] == m.map_values(f)[i]);
            }
            if x == p {
                assert(moved.map_values(f)[moved.len() - 1] as int == p);
            }
        }
    }
    assert forall|x: int| ps.contains(x) implies x > p by {
        let i = choose|i: int| 0 <= i < m.map_values(f).len() && #[trigger] m.map_values(f)[i] as int == x;
        assert(moved[i].0 > moved[moved.len() - 1].0);
    }
    if p < items.len() {
        lemma_drop_one_more(items, ps, p);
    } else {
        lemma_drop_beyond(items, ps, p);
    }
}

/// The positions in `ps` that lie below `len`, as a set.
pub open spec fn positions_below(ps: Seq<usize>, len: int) -> Set<usize> {
    ps.to_set().filter(|p: usize| (p as int) < len)
}

proof fn lemma_count_below_card(moved: Seq<(usize, String)>, len: int)
    requires
        forall|i: int, j: int| 0 <= i < j < moved.len() ==> (#[trigger] moved[i]).0 > (#[trigger] moved[j]).0,
    ensures
        positions_below(moved.map_values(|e: (usize, String)| e.0), len).finite(),
        positions_below(moved.map_values(|e: (usize, String)| e.0), len).len() == count_below(moved, len),
    decreases moved.len(),
{
    broadcast use vstd::seq_lib::group_seq_properties, vstd::set_lib::group_set_lib_default;

    let f = |e: (usize, String)| e.0;
    let ps = moved.map_values(f);
    if moved.len() == 0 {
        assert(ps.to_set() =~= Set::empty());
        assert(positions_below(ps, len) =~= Set::empty());
        return;
    }
    let m = moved.drop_last();
    lemma_count_below_card(m, len);
    let x = moved.last().0;
    assert(ps =~= m.map_values(f).push(x));
    m.map_values(f).lemma_push_to_set_commute(x);
    assert(!m.map_values(f).to_set().contains(x)) by {
        if m.map_values(f).to_set().contains(x) {
            let i = choose|i: int| 0 <= i < m.map_values(f).len() && m.map_values(f)[i] == x;
            assert(moved[i].0 > moved[moved.len() - 1].0);
        }
    }
    let below = positions_below(m.map_values(f), len);
    if (x as int) < len {
        assert(positions_below(ps, len) =~= below.insert(x));
    } else {
        assert(positions_below(ps, len) =~= below);
    }
}

/// Moving several images at once (positions taken highest first, as
/// `bulk_order` gives them) takes exactly the images at the given positions
/// out of the list, keeping the order of the others, and records one undoable
/// move for each distinct given position that was on an image.
pub proof fn law_bulk_move_removes_positions(
    s0: Session,
    s1: Session,
    positions: Seq<usize>,
    moved: Seq<(usize, String)>,
    b: int,
    n: int,
)
    requires
        session_wf(s0),
        0 <= b < s0.buckets@.len(),
        moved.map_values(|e: (usize, String)| e.0).to_set() == positions.to_set(),
        forall|i: int, j: int| 0 <= i < j < moved.len() ==> (#[trigger] moved[i]).0 > (#[trigger] moved[j]).0,
        moved_positions(s0, s1, moved, b, n),
    ensures
        s1.items@ == drop_positions(s0.items@, index_set(positions)),
        n == positions_below(positions, s0.items@.len() as int).len(),
        n == s0.items@.len() - s1.items@.len(),
        n > 0 ==> s1.index == clamp_after(s0.index as int, s1.items@.len() as int) && s1.redo_stack@.len()
            == 0,
{
    let f = |e: (usize, String)| e.0;
    lemma_fold_drops_positions(s0.items@, s0.bucket_counts@, s0.undo_stack@, moved, b, s0.buckets@[b].name);
    lemma_fold_moves_shape(s0.items@, s0.bucket_counts@, s0.undo_stack@, moved, b, s0.buckets@[b].name);
    lemma_count_below_card(moved, s0.items@.len() as int);
    assert(index_set(moved.map_values(f)) =~= index_set(positions)) by {
        assert forall|x: int| #[trigger] index_set(moved.map_values(f)).contains(x) == index_set(positions).contains(x) by {
            if index_set(moved.map_values(f)).contains(x) {
                let i = choose|i: int| 0 <= i < moved.map_values(f).len() && #[trigger] moved.map_values(f)[i] as int == x;
                assert(moved.map_values(f).to_set().contains(moved.map_values(f)[i]));
                assert(positions.to_set().contains(moved.map_values(f)[i]));
            }
            if index_set(positions).contains(x) {
                let i = choose|i: int| 0 <= i < positions.len() && #[trigger] positions[i] as int == x;
                assert(positions.to_set().contains(positions[i]));
                assert(moved.map_values(f).to_set().contains(positions[i]));
            }
        }
    }
}

/// Moving the current image out of the list keeps the position where it
/// was when an image is still there, so the view shows the image that came
/// after the moved one; only when the moved image was the last does the
/// position go back to the new last image (or 0 when none is left).
pub proof fn law_move_shows_the_next_image(
    s0: Session,
    s1: Session,
    b: int,
    dest: String,
    r: Option<String>,
)
    requires
        session_wf(s0),
        moved_current(s0, s1, b, dest, r),
        r is Some,
    ensures
        s1.items@.len() == s0.items@.len() - 1,
        s0.index < s1.items@.len() ==> s1.index == s0.index && s1.items@[s0.index as int]
            == s0.items@[s0.index + 1],
        s0.index == s1.items@.len() && s1.items@.len() > 0 ==> s1.index == s1.items@.len() - 1,
        s1.items@.len() == 0 ==> s1.index == 0,
{
}

/// Redoing a move keeps the position where it was when an image is still
/// there; otherwise it goes to the new last image (or 0 when none is left).
pub proof fn law_redo_keeps_the_position(s0: Session, s1: Session, dest: String, r: Option<String>)
    requires
        session_wf(s0),
        redone(s0, s1, dest, r),
        r is Some,
    ensures
        s1.items@.len() == s0.items@.len() - 1,
        s0.index < s1.items@.len() ==> s1.index == s0.index,
        s0.index >= s1.items@.len() && s1.items@.len() > 0 ==> s1.index == s1.items@.len() - 1,
        s1.items@.len() == 0 ==> s1.index == 0,
{
    lemma_first_at_bound(s0.items@, s0.redo_stack@.last().from_abs@);
}

/// After a move of the current image there is nothing to redo: a redo
/// right after it answers `None` and changes nothing.
pub proof fn law_move_leaves_nothing_to_redo(
    s0: Session,
    s1: Session,
    s2: Session,
    b: int,
    dest: String,
    d: String,
    r1: Option<String>,
    r2: Option<String>,
)
    requires
        moved_current(s0, s1, b, dest, r1),
        r1 is Some,
        redone(s1, s2, d, r2),
    ensures
        r2 is None,
        s2 == s1,
{
}

/// However a sort runs, forwards or reversed, the images come out grouped by
/// the kind of their key: those with a number first, then those with text,
/// then those with no value.
pub proof fn law_sort_keeps_kinds_in_order(
    old: Seq<ImageItem>,
    new: Seq<ImageItem>,
    keys: Seq<SortKey>,
    reverse: bool,
)
    requires
        keys.len() == old.len(),
        sorted_as(old, new, keys, reverse),
    ensures
        exists|q: Seq<usize>|
            #![trigger q.no_duplicates()]
            {
                &&& q.len() == new.len()
                &&& q.no_duplicates()
                &&& forall|k: int| 0 <= k < q.len() ==> q[k] < old.len() && #[trigger] new[k] == old[q[k] as int]
                &&& forall|i: int, j: int|
                    0 <= i < j < q.len() ==> kind_rank(keys[#[trigger] q[i] as int]) <= kind_rank(
                        keys[#[trigger] q[j] as int],
                    )
            },
{
    let (p, a, b) = choose|p: Seq<usize>, a: int, b: int|
        {
            &&& p.len() == old.len()
            &&& all_below(p, old.len() as int)
            &&& p.no_duplicates()
            &&& idx_sorted(keys, p)
            &&& kind_groups(keys, p, a, b)
            &&& new.len() == old.len()
            &&& forall|k: int|
                0 <= k < new.len() ==> #[trigger] new[k] == old[p[
                    if reverse {
                        mirror_in_group(k, a, b, new.len() as int)
                    } else {
                        k
                    }
                ] as int]
        };
    let n = new.len() as int;
    let g = |k: int| if reverse {
        mirror_in_group(k, a, b, n)
    } else {
        k
    };
    let q = Seq::new(new.len(), |k: int| p[g(k)]);
    assert forall|k: int| 0 <= k < q.len() implies q[k] < old.len() && #[trigger] new[k] == old[q[k] as int] by {
        assert(0 <= g(k) < n);
    }
    assert forall|i: int, j: int| 0 <= i < j < q.len() implies q[i] != q[j] by {
        assert(0 <= g(i) < n && 0 <= g(j) < n && g(i) != g(j));
    }
    assert forall|i: int, j: int|
        0 <= i < j < q.len() implies kind_rank(keys[#[trigger] q[i] as int]) <= kind_rank(
        keys[#[trigger] q[j] as int],
    ) by {
        assert(0 <= g(i) < n && 0 <= g(j) < n);
        assert(kind_rank(keys[p[g(i)] as int]) == if g(i) < a { 0int } else if g(i) < b { 1int } else { 2int });
        assert(kind_rank(keys[p[g(j)] as int]) == if g(j) < a { 0int } else if g(j) < b { 1int } else { 2int });
    }
    assert(q.no_duplicates());
}

/// Every move, undo and redo keeps the session well formed: counts stay
/// parallel to buckets and the position stays on an image.
pub proof fn law_history_keeps_wf(
    s0: Session,
    s1: Session,
    b: int,
    p: String,
    r: Option<String>,
)
    requires
        session_wf(s0),
        0 <= b,
        moved_current(s0, s1, b, p, r) || undone(s0, s1, p, r) || redone(s0, s1, p, r),
    ensures
        session_wf(s1),
{
    if moved_current(s0, s1, b, p, r) {
        assert(session_wf(s1));
    } else if undone(s0, s1, p, r) {
        if s0.undo_stack@.len() > 0 {
            let op = s0.undo_stack@.last();
            lemma_first_named_bound(s0.buckets@, op.bucket_name@);
        }
        assert(session_wf(s1));
    } else {
        if s0.redo_stack@.len() > 0 && redo_pos(s0) < s0.items@.len() {
            let op = s0.redo_stack@.last();
            lemma_first_named_bound(s0.buckets@, op.bucket_name@);
            lemma_first_at_bound(s0.items@, op.from_abs@);
        }
        assert(session_wf(s1));
    }
}

} // verus!
