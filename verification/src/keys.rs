//! What a key press, a mouse button or a context-menu entry does in the
//! image viewer: a decision from the viewer's state and the event to an
//! action, which the front end then carries out.

use vstd::prelude::*;

use crate::buckets::Bucket;
use crate::text::{eq_ignore_ascii_case, eq_ignore_case, str_eq};

verus! {

/// Something the viewer does.
#[derive(Clone, Copy, Debug, PartialEq, Eq, Structural)]
pub enum Action {
    Next,
    Prev,
    /// Move by this many images.
    Jump(isize),
    First,
    Last,
    /// Move the current image into this bucket.
    MoveCurrent(usize),
    /// Move the images selected in the grid into this bucket.
    MoveSelection(usize),
    Undo,
    Redo,
    ToggleView,
    OpenSelected,
    CopyName,
    CopyPath,
    CopyFile,
    OpenFolder,
    /// Leave fullscreen, or close the window when not in fullscreen.
    Escape,
    ZoomIn,
    ZoomOut,
    Fit,
    ActualSize,
    BrightnessUp,
    BrightnessDown,
    GammaUp,
    GammaDown,
    ResetAdjustments,
    Fullscreen,
    ToggleInfo,
    Help,
}

/// The first bucket whose hotkey is `name`, ignoring ASCII case.
pub open spec fn first_with_key(bs: Seq<Bucket>, name: Seq<char>) -> Option<int>
    decreases bs.len(),
{
    if bs.len() == 0 {
        None
    } else if first_with_key(bs.drop_last(), name) is Some {
        first_with_key(bs.drop_last(), name)
    } else if eq_ignore_case(bs.last().key@, name) {
        Some(bs.len() - 1)
    } else {
        None
    }
}

/// The bucket a key name sends images to: the first bucket with that hotkey;
/// else the reject bucket (the first) for `BackSpace` and `x`.
pub open spec fn hotkey_bucket(bs: Seq<Bucket>, name: Seq<char>) -> Option<int> {
    match first_with_key(bs, name) {
        Some(i) => Some(i),
        None => if eq_ignore_case(name, "BackSpace"@) || eq_ignore_case(name, "x"@) {
            Some(0)
        } else {
            None
        },
    }
}

/// What a key does in the grid of thumbnails.
pub open spec fn grid_key_action(ctrl: bool, shift: bool, key: Option<Seq<char>>, bs: Seq<Bucket>) -> Option<
    Action,
> {
    if ctrl && key == Some("z"@) {
        Some(if shift { Action::Redo } else { Action::Undo })
    } else if !ctrl && key is Some && hotkey_bucket(bs, key->0) is Some {
        Some(Action::MoveSelection(hotkey_bucket(bs, key->0)->0 as usize))
    } else if key == Some("g"@) || key == Some("Escape"@) {
        Some(Action::ToggleView)
    } else if key == Some("Return"@) || key == Some("KP_Enter"@) {
        Some(Action::OpenSelected)
    } else {
        None
    }
}

/// What a key does with Ctrl held, viewing one image.
pub open spec fn ctrl_key_action(shift: bool, key: Option<Seq<char>>) -> Option<Action> {
    if key == Some("z"@) {
        Some(if shift { Action::Redo } else { Action::Undo })
    } else if key == Some("y"@) {
        Some(Action::Redo)
    } else if key == Some("c"@) {
        Some(if shift { Action::CopyPath } else { Action::CopyName })
    } else if key == Some("x"@) && shift {
        Some(Action::CopyFile)
    } else if key == Some("o"@) {
        Some(Action::OpenFolder)
    } else {
        None
    }
}

/// What a plain key does, viewing one image, when it is no bucket hotkey.
pub open spec fn plain_key_action(key: Seq<char>) -> Option<Action> {
    if key == "Escape"@ {
        Some(Action::Escape)
    } else if key == "Right"@ || key == "space"@ {
        Some(Action::Next)
    } else if key == "Left"@ {
        Some(Action::Prev)
    } else if key == "Page_Down"@ {
        Some(Action::Jump(10isize))
    } else if key == "Page_Up"@ {
        Some(Action::Jump(-10isize))
    } else if key == "Home"@ {
        Some(Action::First)
    } else if key == "End"@ {
        Some(Action::Last)
    } else if key == "plus"@ || key == "equal"@ {
        Some(Action::ZoomIn)
    } else if key == "minus"@ {
        Some(Action::ZoomOut)
    } else if key == "f"@ {
        Some(Action::Fit)
    } else if key == "a"@ {
        Some(Action::ActualSize)
    } else if key == "bracketright"@ {
        Some(Action::BrightnessUp)
    } else if key == "bracketleft"@ {
        Some(Action::BrightnessDown)
    } else if key == "braceright"@ {
        Some(Action::GammaUp)
    } else if key == "braceleft"@ {
        Some(Action::GammaDown)
    } else if key == "backslash"@ {
        Some(Action::ResetAdjustments)
    } else if key == "F11"@ {
        Some(Action::Fullscreen)
    } else if key == "i"@ {
        Some(Action::ToggleInfo)
    } else if key == "g"@ {
        Some(Action::ToggleView)
    } else if key == "question"@ || key == "F1"@ {
        Some(Action::Help)
    } else {
        None
    }
}

/// What a key does: in the grid, or viewing one image (Ctrl shortcuts
/// first, then bucket hotkeys, then the plain keys). `key` is the key's
/// name (GDK's), if it has one; `None` as the result lets the key through.
pub open spec fn key_action_of(
    in_grid: bool,
    ctrl: bool,
    shift: bool,
    key: Option<Seq<char>>,
    bs: Seq<Bucket>,
) -> Option<Action> {
    if in_grid {
        grid_key_action(ctrl, shift, key, bs)
    } else if ctrl {
        ctrl_key_action(shift, key)
    } else {
        match key {
            None => None,
            Some(k) => match hotkey_bucket(bs, k) {
                Some(i) => Some(Action::MoveCurrent(i as usize)),
                None => plain_key_action(k),
            },
        }
    }
}

proof fn lemma_first_with_key_bound(bs: Seq<Bucket>, name: Seq<char>)
    ensures
        first_with_key(bs, name) matches Some(i) ==> 0 <= i < bs.len(),
    decreases bs.len(),
{
    if bs.len() > 0 {
        lemma_first_with_key_bound(bs.drop_last(), name);
    }
}

proof fn lemma_first_with_key_prefix(bs: Seq<Bucket>, name: Seq<char>, k: int)
    requires
        0 <= k <= bs.len(),
        first_with_key(bs.take(k), name) is Some,
    ensures
        first_with_key(bs, name) == first_with_key(bs.take(k), name),
    decreases bs.len() - k,
{
    if k < bs.len() {
        assert(bs.take(k + 1).drop_last() =~= bs.take(k));
        lemma_first_with_key_prefix(bs, name, k + 1);
    } else {
        assert(bs.take(k) =~= bs);
    }
}

/// The bucket a key name sends images to (see `hotkey_bucket`).
pub fn hotkey_target(buckets: &[Bucket], name: &str) -> (r: Option<usize>)
    ensures
        r matches Some(i) ==> hotkey_bucket(buckets@, name@) == Some(i as int),
        r is None ==> hotkey_bucket(buckets@, name@) is None,
{
    let mut i: usize = 0;
    while i < buckets.len()
        invariant
            i <= buckets@.len(),
            first_with_key(buckets@.take(i as int), name@) is None,
        decreases buckets@.len() - i,
    {
        assert(buckets@.take(i + 1).drop_last() =~= buckets@.take(i as int));
        if eq_ignore_ascii_case(buckets[i].key.as_str(), name) {
            assert(first_with_key(buckets@.take(i + 1), name@) == Some(i as int));
            proof {
                lemma_first_with_key_prefix(buckets@, name@, i + 1);
            }
            return Some(i);
        }
        i = i + 1;
    }
    assert(buckets@.take(i as int) =~= buckets@);
    if eq_ignore_ascii_case(name, "BackSpace") || eq_ignore_ascii_case(name, "x") {
        Some(0)
    } else {
        None
    }
}

fn plain_key(k: &str) -> (r: Option<Action>)
    ensures
        r == plain_key_action(k@),
{
    if str_eq(k, "Escape") {
        Some(Action::Escape)
    } else if str_eq(k, "Right") || str_eq(k, "space") {
        Some(Action::Next)
    } else if str_eq(k, "Left") {
        Some(Action::Prev)
    } else if str_eq(k, "Page_Down") {
        Some(Action::Jump(10isize))
    } else if str_eq(k, "Page_Up") {
        Some(Action::Jump(-10isize))
    } else if str_eq(k, "Home") {
        Some(Action::First)
    } else if str_eq(k, "End") {
        Some(Action::Last)
    } else if str_eq(k, "plus") || str_eq(k, "equal") {
        Some(Action::ZoomIn)
    } else if str_eq(k, "minus") {
        Some(Action::ZoomOut)
    } else if str_eq(k, "f") {
        Some(Action::Fit)
    } else if str_eq(k, "a") {
        Some(Action::ActualSize)
    } else if str_eq(k, "bracketright") {
        Some(Action::BrightnessUp)
    } else if str_eq(k, "bracketleft") {
        Some(Action::BrightnessDown)
    } else if str_eq(k, "braceright") {
        Some(Action::GammaUp)
    } else if str_eq(k, "braceleft") {
        Some(Action::GammaDown)
    } else if str_eq(k, "backslash") {
        Some(Action::ResetAdjustments)
    } else if str_eq(k, "F11") {
        Some(Action::Fullscreen)
    } else if str_eq(k, "i") {
        Some(Action::ToggleInfo)
    } else if str_eq(k, "g") {
        Some(Action::ToggleView)
    } else if str_eq(k, "question") || str_eq(k, "F1") {
        Some(Action::Help)
    } else {
        None
    }
}

fn is_key(key: Option<&str>, name: &str) -> (r: bool)
    ensures
        r == (match key {
            Some(k) => Some(k@),
            None => None::<Seq<char>>,
        } == Some(name@)),
{
    match key {
        Some(k) => str_eq(k, name),
        None => false,
    }
}

pub open spec fn key_view(key: Option<&str>) -> Option<Seq<char>> {
    match key {
        Some(k) => Some(k@),
        None => None,
    }
}

/// What a key press does: `in_grid` tells whether the grid of thumbnails
/// is shown, `ctrl` and `shift` which modifiers are held, `key` the key's
/// name (GDK's), if it has one. `None` lets the key through to the widgets.
pub fn key_action(in_grid: bool, ctrl: bool, shift: bool, key: Option<&str>, buckets: &[Bucket]) -> (r:
    Option<Action>)
    ensures
        r == key_action_of(in_grid, ctrl, shift, key_view(key), buckets@),
{
    if in_grid {
        if ctrl && is_key(key, "z") {
            return Some(if shift { Action::Redo } else { Action::Undo });
        }
        if !ctrl {
            if let Some(k) = key {
                if let Some(i) = hotkey_target(buckets, k) {
                    return Some(Action::MoveSelection(i));
                }
            }
        }
        if is_key(key, "g") || is_key(key, "Escape") {
            Some(Action::ToggleView)
        } else if is_key(key, "Return") || is_key(key, "KP_Enter") {
            Some(Action::OpenSelected)
        } else {
            None
        }
    } else if ctrl {
        if is_key(key, "z") {
            Some(if shift { Action::Redo } else { Action::Undo })
        } else if is_key(key, "y") {
            Some(Action::Redo)
        } else if is_key(key, "c") {
            Some(if shift { Action::CopyPath } else { Action::CopyName })
        } else if is_key(key, "x") && shift {
            Some(Action::CopyFile)
        } else if is_key(key, "o") {
            Some(Action::OpenFolder)
        } else {
            None
        }
    } else {
        match key {
            None => None,
            Some(k) => match hotkey_target(buckets, k) {
                Some(i) => Some(Action::MoveCurrent(i)),
                None => plain_key(k),
            },
        }
    }
}

/// What a mouse button press does: a double click of the first button
/// toggles fullscreen; the back and forward buttons go to the previous and
/// next image.
pub open spec fn mouse_action_of(button: u32, n_press: i32) -> Option<Action> {
    if button == 1 && n_press == 2 {
        Some(Action::Fullscreen)
    } else if button == 8 {
        Some(Action::Prev)
    } else if button == 9 {
        Some(Action::Next)
    } else {
        None
    }
}

/// What pressing mouse button `button` (the `n_press`-th press in a row)
/// does.
pub fn mouse_action(button: u32, n_press: i32) -> (r: Option<Action>)
    ensures
        r == mouse_action_of(button, n_press),
{
    if button == 1 && n_press == 2 {
        Some(Action::Fullscreen)
    } else if button == 8 {
        Some(Action::Prev)
    } else if button == 9 {
        Some(Action::Next)
    } else {
        None
    }
}

/// The label of a bucket's entry in the context menu.
pub open spec fn bucket_entry_of(b: Bucket) -> Seq<char> {
    if b.is_reject {
        "Reject  ("@ + b.key@ + ")"@
    } else {
        "Move to “"@ + b.name@ + "”  ("@ + b.key@ + ")"@
    }
}

pub open spec fn bucket_entries(bs: Seq<Bucket>) -> Seq<(Seq<char>, Option<Action>)>
    decreases bs.len(),
{
    if bs.len() == 0 {
        Seq::empty()
    } else {
        bucket_entries(bs.drop_last()).push(
            (bucket_entry_of(bs.last()), Some(Action::MoveCurrent((bs.len() - 1) as usize))),
        )
    }
}

/// The context menu: labelled entries, with `None` for a separator.
pub open spec fn context_menu_of(bs: Seq<Bucket>) -> Seq<(Seq<char>, Option<Action>)> {
    seq![
        ("Next  →"@, Some(Action::Next)),
        ("Previous  ←"@, Some(Action::Prev)),
        (Seq::empty(), None),
    ] + bucket_entries(bs) + seq![
        ("Undo  (Ctrl+Z)"@, Some(Action::Undo)),
        (Seq::empty(), None),
        ("Fit to window  (f)"@, Some(Action::Fit)),
        ("Actual size  (a)"@, Some(Action::ActualSize)),
        ("Fullscreen  (F11)"@, Some(Action::Fullscreen)),
        (Seq::empty(), None),
        ("Copy filename  (Ctrl+C)"@, Some(Action::CopyName)),
        ("Copy path  (Ctrl+Shift+C)"@, Some(Action::CopyPath)),
        ("Copy image file  (Ctrl+Shift+X)"@, Some(Action::CopyFile)),
        (Seq::empty(), None),
        ("Shortcuts…  (?)"@, Some(Action::Help)),
    ]
}

pub open spec fn entry_views(v: Seq<(String, Option<Action>)>) -> Seq<(Seq<char>, Option<Action>)> {
    v.map_values(|e: (String, Option<Action>)| (e.0@, e.1))
}

fn push_entry(v: &mut Vec<(String, Option<Action>)>, label: &str, action: Option<Action>)
    ensures
        entry_views(final(v)@) == entry_views(old(v)@).push((label@, action)),
{
    let ghost before = entry_views(v@);
    v.push((String::from_str(label), action));
    assert(entry_views(v@) =~= before.push((label@, action)));
}

/// The entries of the image's context menu, with the buckets' entries in
/// bucket order.
pub fn context_menu(buckets: &[Bucket]) -> (r: Vec<(String, Option<Action>)>)
    ensures
        entry_views(r@) == context_menu_of(buckets@),
{
    let mut v: Vec<(String, Option<Action>)> = Vec::new();
    push_entry(&mut v, "Next  →", Some(Action::Next));
    push_entry(&mut v, "Previous  ←", Some(Action::Prev));
    push_entry(&mut v, "", None);
    proof {
        assert(""@ =~= Seq::<char>::empty()) by {
            reveal_strlit("");
        }
    }
    let ghost head = entry_views(v@);
    let mut i: usize = 0;
    while i < buckets.len()
        invariant
            i <= buckets@.len(),
            entry_views(v@) == head + bucket_entries(buckets@.take(i as int)),
        decreases buckets@.len() - i,
    {
        assert(buckets@.take(i + 1).drop_last() =~= buckets@.take(i as int));
        let b = &buckets[i];
        let mut label = if b.is_reject {
            String::from_str("Reject  (")
        } else {
            let mut l = String::from_str("Move to “");
            l.append(b.name.as_str());
            l.append("”  (");
            l
        };
        label.append(b.key.as_str());
        label.append(")");
        assert(label@ == bucket_entry_of(buckets@[i as int]));
        let ghost before = entry_views(v@);
        v.push((label, Some(Action::MoveCurrent(i))));
        assert(entry_views(v@) =~= before.push(
            (bucket_entry_of(buckets@[i as int]), Some(Action::MoveCurrent(i))),
        ));
        i = i + 1;
        assert(entry_views(v@) =~= head + bucket_entries(buckets@.take(i as int)));
    }
    assert(buckets@.take(i as int) =~= buckets@);
    let ghost mid = entry_views(v@);
    push_entry(&mut v, "Undo  (Ctrl+Z)", Some(Action::Undo));
    push_entry(&mut v, "", None);
    push_entry(&mut v, "Fit to window  (f)", Some(Action::Fit));
    push_entry(&mut v, "Actual size  (a)", Some(Action::ActualSize));
    push_entry(&mut v, "Fullscreen  (F11)", Some(Action::Fullscreen));
    push_entry(&mut v, "", None);
    push_entry(&mut v, "Copy filename  (Ctrl+C)", Some(Action::CopyName));
    push_entry(&mut v, "Copy path  (Ctrl+Shift+C)", Some(Action::CopyPath));
    push_entry(&mut v, "Copy image file  (Ctrl+Shift+X)", Some(Action::CopyFile));
    push_entry(&mut v, "", None);
    push_entry(&mut v, "Shortcuts…  (?)", Some(Action::Help));
    assert(entry_views(v@) =~= context_menu_of(buckets@));
    v
}

proof fn lemma_first_with_key_is(bs: Seq<Bucket>, i: int)
    requires
        0 <= i < bs.len(),
        forall|j: int| 0 <= j < i ==> !eq_ignore_case(#[trigger] bs[j].key@, bs[i].key@),
    ensures
        first_with_key(bs, bs[i].key@) == Some(i),
    decreases bs.len(),
{
    let k = bs[i].key@;
    if i < bs.len() - 1 {
        lemma_first_with_key_is(bs.drop_last(), i);
    } else {
        assert forall|j: int| 0 <= j <= i implies first_with_key(bs.take(j), k) is None by {
            lemma_no_key_before(bs, k, j, i);
        }
        assert(bs.take(i) =~= bs.drop_last());
    }
}

proof fn lemma_no_key_before(bs: Seq<Bucket>, k: Seq<char>, j: int, i: int)
    requires
        0 <= j <= i < bs.len(),
        k == bs[i].key@,
        forall|q: int| 0 <= q < i ==> !eq_ignore_case(#[trigger] bs[q].key@, bs[i].key@),
    ensures
        first_with_key(bs.take(j), k) is None,
    decreases j,
{
    if j > 0 {
        lemma_no_key_before(bs, k, j - 1, i);
        assert(bs.take(j).drop_last() =~= bs.take(j - 1));
    }
}

/// A bucket's hotkey, pressed while viewing an image without Ctrl, moves the
/// image into that bucket, unless an earlier bucket has the same hotkey
/// (ignoring ASCII case); the reject bucket also answers `BackSpace` and `x`
/// when no bucket has those as hotkeys.
pub proof fn law_hotkeys_move_to_their_bucket(bs: Seq<Bucket>, i: int, shift: bool)
    requires
        0 <= i < bs.len(),
        i <= usize::MAX,
    ensures
        (forall|j: int| 0 <= j < i ==> !eq_ignore_case(#[trigger] bs[j].key@, bs[i].key@))
            ==> key_action_of(false, false, shift, Some(bs[i].key@), bs) == Some(
            Action::MoveCurrent(i as usize),
        ),
        first_with_key(bs, "BackSpace"@) is None ==> key_action_of(
            false,
            false,
            shift,
            Some("BackSpace"@),
            bs,
        ) == Some(Action::MoveCurrent(0)),
        first_with_key(bs, "x"@) is None ==> key_action_of(false, false, shift, Some("x"@), bs) == Some(
            Action::MoveCurrent(0),
        ),
{
    if forall|j: int| 0 <= j < i ==> !eq_ignore_case(#[trigger] bs[j].key@, bs[i].key@) {
        lemma_first_with_key_is(bs, i);
    }
}

} // verus!
