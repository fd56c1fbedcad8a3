//! What the image viewer shows, apart from the toolkit that draws it: label
//! markup (escaped text, links in metadata values, bucket chips, the
//! shortcuts list) and the status line.

use vstd::prelude::*;

use crate::buckets::Bucket;
use crate::metadata::{cell_of, resolve_key, Metadata};
use crate::model::Session;
use crate::text::{
    chars_of, decimal, has_prefix, is_ws, is_ws_exec, joined, join_strs, starts_with, str_eq, trim, trim_str,
    usize_to_decimal, views,
};

verus! {

/// The hexadecimal digit for `d` (below 16), lower case.
pub open spec fn hex_char(d: nat) -> char {
    if d < 10 {
        (('0' as u32) + d) as char
    } else {
        (('a' as u32) + d - 10) as char
    }
}

/// `n` in hexadecimal, lower case, without leading zeros.
pub open spec fn hex_digits(n: nat) -> Seq<char>
    decreases n,
{
    if n < 16 {
        seq![hex_char(n)]
    } else {
        hex_digits(n / 16).push(hex_char(n % 16))
    }
}

/// The control characters that markup escaping writes as character
/// references (all but tab, newline and carriage return, and `U+85`).
pub open spec fn is_escaped_control(c: char) -> bool {
    ||| ('\u{1}' <= c && c <= '\u{8}')
    ||| ('\u{b}' <= c && c <= '\u{c}')
    ||| ('\u{e}' <= c && c <= '\u{1f}')
    ||| ('\u{7f}' <= c && c <= '\u{84}')
    ||| ('\u{86}' <= c && c <= '\u{9f}')
}

/// One character escaped for markup: the five XML specials as entities,
/// the control characters above as hexadecimal references.
pub open spec fn escape_char(c: char) -> Seq<char> {
    if c == '&' {
        "&amp;"@
    } else if c == '<' {
        "&lt;"@
    } else if c == '>' {
        "&gt;"@
    } else if c == '\'' {
        "&#39;"@
    } else if c == '"' {
        "&quot;"@
    } else if is_escaped_control(c) {
        "&#x"@ + hex_digits(c as nat) + ";"@
    } else {
        seq![c]
    }
}

/// `s` escaped for markup, so that a markup parser reads it verbatim (what
/// `glib::markup_escape_text` does).
pub open spec fn markup_escaped(s: Seq<char>) -> Seq<char>
    decreases s.len(),
{
    if s.len() == 0 {
        Seq::empty()
    } else {
        markup_escaped(s.drop_last()) + escape_char(s.last())
    }
}

fn hex_string(n: u32) -> (r: String)
    ensures
        r@ == hex_digits(n as nat),
    decreases n,
{
    let d: u8 = (n % 16) as u8;
    let c: char = if d < 10 {
        (48u8 + d) as char
    } else {
        (87u8 + d) as char
    };
    assert(c == hex_char((n % 16) as nat));
    if n < 16 {
        let mut s = String::new();
        s.push(c);
        assert(s@ =~= seq![c]);
        s
    } else {
        let mut s = hex_string(n / 16);
        s.push(c);
        s
    }
}

/// `s` escaped for markup.
pub fn markup_escape(s: &str) -> (r: String)
    ensures
        r@ == markup_escaped(s@),
{
    let v = chars_of(s);
    let mut out = String::new();
    let mut i: usize = 0;
    while i < v.len()
        invariant
            i <= v@.len(),
            v@ == s@,
            out@ == markup_escaped(s@.take(i as int)),
        decreases v@.len() - i,
    {
        let c = v[i];
        assert(s@.take(i + 1).drop_last() =~= s@.take(i as int));
        assert(s@.take(i + 1).last() == c);
        if c == '&' {
            out.append("&amp;");
        } else if c == '<' {
            out.append("&lt;");
        } else if c == '>' {
            out.append("&gt;");
        } else if c == '\'' {
            out.append("&#39;");
        } else if c == '"' {
            out.append("&quot;");
        } else if ('\u{1}' <= c && c <= '\u{8}') || ('\u{b}' <= c && c <= '\u{c}') || ('\u{e}' <= c && c
            <= '\u{1f}') || ('\u{7f}' <= c && c <= '\u{84}') || ('\u{86}' <= c && c <= '\u{9f}') {
            out.append("&#x");
            out.append(hex_string(c as u32).as_str());
            out.append(";");
        } else {
            out.push(c);
        }
        i = i + 1;
        assert(out@ =~= markup_escaped(s@.take(i as int)));
    }
    assert(s@.take(i as int) =~= s@);
    out
}

/// `t` starts like a link: `http://`, `https://`, `ftp://`, `file://` or
/// `www.`.
pub open spec fn is_url(t: Seq<char>) -> bool {
    ||| has_prefix(t, "http://"@)
    ||| has_prefix(t, "https://"@)
    ||| has_prefix(t, "ftp://"@)
    ||| has_prefix(t, "file://"@)
    ||| has_prefix(t, "www."@)
}

/// Whether `t` starts like a link.
pub fn is_url_str(t: &str) -> (r: bool)
    ensures
        r == is_url(t@),
{
    starts_with(t, "http://") || starts_with(t, "https://") || starts_with(t, "ftp://") || starts_with(
        t,
        "file://",
    ) || starts_with(t, "www.")
}

/// `p` occurs in `s`.
pub open spec fn contains_seq(s: Seq<char>, p: Seq<char>) -> bool {
    exists|i: int| 0 <= i && i + p.len() <= s.len() && #[trigger] s.subrange(i, i + p.len()) == p
}

fn contains_str(s: &str, p: &str) -> (r: bool)
    ensures
        r == contains_seq(s@, p@),
{
    let vs = chars_of(s);
    let vp = chars_of(p);
    if vp.len() > vs.len() {
        return false;
    }
    let n = vs.len();
    let last = n - vp.len();
    let mut i: usize = 0;
    while i <= last
        invariant
            vs@ == s@,
            vp@ == p@,
            vp@.len() <= vs@.len(),
            n == vs@.len(),
            last == vs@.len() - vp@.len(),
            i <= last,
            forall|q: int| 0 <= q < i ==> #[trigger] s@.subrange(q, q + p@.len()) != p@,
        decreases last - i,
    {
        let mut j: usize = 0;
        while j < vp.len() && vs[i + j] == vp[j]
            invariant
                vs@ == s@,
                vp@ == p@,
                i <= last,
                n == vs@.len(),
                last == vs@.len() - vp@.len(),
                i + vp@.len() <= vs@.len(),
                j <= vp@.len(),
                forall|k: int| 0 <= k < j ==> s@[i + k] == p@[k],
            decreases vp@.len() - j,
        {
            j = j + 1;
        }
        if j == vp.len() {
            assert(s@.subrange(i as int, i + p@.len()) =~= p@);
            return true;
        }
        assert(s@.subrange(i as int, i + p@.len())[j as int] != p@[j as int]);
        if i == last {
            return false;
        }
        i = i + 1;
    }
    false
}

/// The punctuation that may follow a link in running text.
pub open spec fn is_trailing_punct(c: char) -> bool {
    ||| c == '.'
    ||| c == ','
    ||| c == ';'
    ||| c == ':'
    ||| c == '!'
    ||| c == '?'
    ||| c == ')'
    ||| c == ']'
    ||| c == '}'
    ||| c == '>'
    ||| c == '"'
    ||| c == '\''
}

/// `tok` without the trailing punctuation.
pub open spec fn strip_trailing(tok: Seq<char>) -> Seq<char>
    decreases tok.len(),
{
    if tok.len() > 0 && is_trailing_punct(tok.last()) {
        strip_trailing(tok.drop_last())
    } else {
        tok
    }
}

proof fn lemma_strip_trailing_prefix(tok: Seq<char>)
    ensures
        strip_trailing(tok).len() <= tok.len(),
        strip_trailing(tok) == tok.take(strip_trailing(tok).len() as int),
    decreases tok.len(),
{
    if tok.len() > 0 && is_trailing_punct(tok.last()) {
        lemma_strip_trailing_prefix(tok.drop_last());
        let r = strip_trailing(tok.drop_last());
        assert(tok.drop_last().take(r.len() as int) =~= tok.take(r.len() as int));
    } else {
        assert(tok.take(tok.len() as int) =~= tok);
    }
}

/// The pieces of `s` between single spaces (empty pieces included), as
/// `str::split(' ')` gives them.
pub open spec fn split_spaces(s: Seq<char>) -> Seq<Seq<char>>
    decreases s.len(),
{
    if s.len() == 0 {
        seq![Seq::empty()]
    } else {
        let t = split_spaces(s.drop_last());
        if s.last() == ' ' {
            t.push(Seq::empty())
        } else {
            t.update(t.len() - 1, t.last().push(s.last()))
        }
    }
}

proof fn lemma_split_spaces_len(s: Seq<char>)
    ensures
        split_spaces(s).len() >= 1,
    decreases s.len(),
{
    if s.len() > 0 {
        lemma_split_spaces_len(s.drop_last());
    }
}

/// A piece of text that is a link (after its trailing punctuation is set
/// aside).
pub open spec fn token_is_link(tok: Seq<char>) -> bool {
    strip_trailing(tok).len() > 0 && is_url(strip_trailing(tok))
}

/// The address a link goes to: as written when it names a scheme, else
/// over `https://`.
pub open spec fn link_href(t: Seq<char>) -> Seq<char> {
    if contains_seq(t, "://"@) {
        t
    } else {
        "https://"@ + t
    }
}

/// The markup of one piece of text: a link as an `<a href>` element
/// followed by its escaped trailing punctuation, anything else escaped.
pub open spec fn token_markup(tok: Seq<char>) -> Seq<char> {
    let t = strip_trailing(tok);
    if token_is_link(tok) {
        "<a href=\""@ + markup_escaped(link_href(t)) + "\">"@ + markup_escaped(t) + "</a>"@
            + markup_escaped(tok.skip(t.len() as int))
    } else {
        markup_escaped(tok)
    }
}

/// `text` as markup with each link made clickable.
pub open spec fn linkified(text: Seq<char>) -> Seq<char> {
    joined(split_spaces(text).map_values(|tok: Seq<char>| token_markup(tok)), " "@)
}

/// Some piece of `text` is a link.
pub open spec fn has_link(text: Seq<char>) -> bool {
    exists|i: int| 0 <= i < split_spaces(text).len() && token_is_link(#[trigger] split_spaces(text)[i])
}

fn split_on_spaces(text: &str) -> (r: Vec<String>)
    ensures
        views(r@) == split_spaces(text@),
{
    let v = chars_of(text);
    let mut done: Vec<String> = Vec::new();
    let mut cur = String::new();
    let mut i: usize = 0;
    while i < v.len()
        invariant
            i <= v@.len(),
            v@ == text@,
            views(done@).push(cur@) == split_spaces(text@.take(i as int)),
        decreases v@.len() - i,
    {
        let c = v[i];
        assert(text@.take(i + 1).drop_last() =~= text@.take(i as int));
        assert(text@.take(i + 1).last() == c);
        proof {
            lemma_split_spaces_len(text@.take(i as int));
        }
        let ghost before = views(done@);
        if c == ' ' {
            let finished = cur;
            done.push(finished);
            cur = String::new();
            assert(views(done@).push(cur@) =~= split_spaces(text@.take(i + 1)));
        } else {
            let ghost c0 = cur@;
            cur.push(c);
            assert(views(done@).push(cur@) =~= split_spaces(text@.take(i + 1)));
        }
        i = i + 1;
    }
    assert(text@.take(i as int) =~= text@);
    let ghost before = views(done@);
    let last = cur;
    done.push(last);
    assert(views(done@) =~= before.push(last@));
    done
}

fn token_markup_str(tok: &str) -> (r: (String, bool))
    ensures
        r.0@ == token_markup(tok@),
        r.1 == token_is_link(tok@),
{
    let v = chars_of(tok);
    let mut n = v.len();
    assert(tok@.take(n as int) =~= tok@);
    while n > 0 && (v[n - 1] == '.' || v[n - 1] == ',' || v[n - 1] == ';' || v[n - 1] == ':' || v[n - 1]
        == '!' || v[n - 1] == '?' || v[n - 1] == ')' || v[n - 1] == ']' || v[n - 1] == '}' || v[n - 1]
        == '>' || v[n - 1] == '"' || v[n - 1] == '\'')
        invariant
            n <= v@.len(),
            v@ == tok@,
            strip_trailing(tok@) == strip_trailing(tok@.take(n as int)),
        decreases n,
    {
        assert(tok@.take(n as int).drop_last() =~= tok@.take(n - 1));
        n = n - 1;
    }
    let ghost t = tok@.take(n as int);
    assert(strip_trailing(t) == t);
    proof {
        lemma_strip_trailing_prefix(tok@);
    }
    let mut trimmed = String::new();
    let mut i: usize = 0;
    while i < n
        invariant
            i <= n <= v@.len(),
            v@ == tok@,
            trimmed@ == tok@.take(i as int),
        decreases n - i,
    {
        trimmed.push(v[i]);
        i = i + 1;
        assert(trimmed@ =~= tok@.take(i as int));
    }
    let mut trail = String::new();
    let mut k: usize = n;
    while k < v.len()
        invariant
            n <= k <= v@.len(),
            v@ == tok@,
            trail@ == tok@.subrange(n as int, k as int),
        decreases v@.len() - k,
    {
        trail.push(v[k]);
        k = k + 1;
        assert(trail@ =~= tok@.subrange(n as int, k as int));
    }
    assert(trail@ =~= tok@.skip(n as int));
    if n > 0 && is_url_str(trimmed.as_str()) {
        let href = if contains_str(trimmed.as_str(), "://") {
            trimmed.clone()
        } else {
            let mut h = String::from_str("https://");
            h.append(trimmed.as_str());
            h
        };
        let mut out = String::from_str("<a href=\"");
        out.append(markup_escape(href.as_str()).as_str());
        out.append("\">");
        out.append(markup_escape(trimmed.as_str()).as_str());
        out.append("</a>");
        out.append(markup_escape(trail.as_str()).as_str());
        (out, true)
    } else {
        (markup_escape(tok), false)
    }
}

/// Markup for `text` with every link made clickable, and whether there was
/// one. Pieces between spaces that start like a link (see `is_url`) become
/// links, trailing punctuation kept outside; everything else is escaped.
pub fn linkify_markup(text: &str) -> (r: (String, bool))
    ensures
        r.0@ == linkified(text@),
        r.1 == has_link(text@),
{
    let toks = split_on_spaces(text);
    let ghost ts = split_spaces(text@);
    let mut parts: Vec<String> = Vec::new();
    let mut found = false;
    let mut i: usize = 0;
    while i < toks.len()
        invariant
            i <= toks@.len(),
            views(toks@) == ts,
            ts == split_spaces(text@),
            views(parts@) == ts.take(i as int).map_values(|tok: Seq<char>| token_markup(tok)),
            found <==> exists|q: int| 0 <= q < i && token_is_link(#[trigger] ts[q]),
        decreases toks@.len() - i,
    {
        let (m, link) = token_markup_str(toks[i].as_str());
        assert(toks@[i as int]@ == ts[i as int]);
        let ghost before = views(parts@);
        let ghost mv = m@;
        assert(mv == token_markup(ts[i as int]));
        parts.push(m);
        assert(views(parts@) =~= before.push(mv));
        assert(ts.take(i + 1).map_values(|tok: Seq<char>| token_markup(tok)) =~= ts.take(
            i as int,
        ).map_values(|tok: Seq<char>| token_markup(tok)).push(token_markup(ts[i as int])));
        if link {
            found = true;
        }
        i = i + 1;
    }
    assert(ts.take(i as int) =~= ts);
    (join_strs(&parts, " "), found)
}

/// Where a metadata value that is one link (and nothing else) points.
pub open spec fn link_target_of(v: Seq<char>) -> Option<Seq<char>> {
    let t = trim(v);
    if is_url(t) && !(exists|i: int| 0 <= i < t.len() && is_ws(#[trigger] t[i])) {
        Some(link_href(t))
    } else {
        None
    }
}

/// When the (trimmed) value is a single link, the address to open, shown as
/// a link button rather than as text.
pub fn link_target(value: &str) -> (r: Option<String>)
    ensures
        r matches Some(u) ==> link_target_of(value@) == Some(u@),
        r is None ==> link_target_of(value@) is None,
{
    let t = trim_str(value);
    if !is_url_str(t.as_str()) {
        return None;
    }
    let v = chars_of(t.as_str());
    let mut i: usize = 0;
    while i < v.len()
        invariant
            i <= v@.len(),
            v@ == t@,
            t@ == trim(value@),
            is_url(t@),
            forall|q: int| 0 <= q < i ==> !is_ws(#[trigger] t@[q]),
        decreases v@.len() - i,
    {
        if is_ws_exec(v[i]) {
            return None;
        }
        i = i + 1;
    }
    if contains_str(t.as_str(), "://") {
        Some(t)
    } else {
        let mut h = String::from_str("https://");
        h.append(t.as_str());
        Some(h)
    }
}

/// The short form of a key name shown on a bucket chip.
pub open spec fn key_label_of(key: Seq<char>) -> Seq<char> {
    if key == "Delete"@ {
        "Del"@
    } else if key == "BackSpace"@ {
        "⌫"@
    } else {
        key
    }
}

/// The short form of a key name for a bucket chip.
pub fn key_label(key: &str) -> (r: String)
    ensures
        r@ == key_label_of(key@),
{
    if str_eq(key, "Delete") {
        String::from_str("Del")
    } else if str_eq(key, "BackSpace") {
        String::from_str("⌫")
    } else {
        String::from_str(key)
    }
}

/// The markup of a bucket chip: the hotkey in bold (when there is one), the
/// name, and the image count dimmed.
pub open spec fn chip_markup_of(key: Seq<char>, name: Seq<char>, count: nat) -> Seq<char> {
    (if key.len() == 0 {
        Seq::empty()
    } else {
        "<b>"@ + markup_escaped(key_label_of(key)) + "</b>  "@
    }) + markup_escaped(name) + "  <span alpha=\"60%\">"@ + decimal(count) + "</span>"@
}

/// The markup of a bucket chip.
pub fn chip_markup(key: &str, name: &str, count: usize) -> (r: String)
    ensures
        r@ == chip_markup_of(key@, name@, count as nat),
{
    let mut out = String::new();
    if chars_of(key).len() > 0 {
        out.append("<b>");
        out.append(markup_escape(key_label(key).as_str()).as_str());
        out.append("</b>  ");
    }
    out.append(markup_escape(name).as_str());
    out.append("  <span alpha=\"60%\">");
    out.append(usize_to_decimal(count).as_str());
    out.append("</span>");
    out
}

/// The tooltip of a bucket chip.
pub open spec fn chip_tooltip_of(b: Bucket) -> Seq<char> {
    "Move to "@ + b.folder@ + "/"@ + if b.is_reject {
        Seq::empty()
    } else {
        " · right-click to rename / remove"@
    }
}

/// The tooltip of a bucket chip: where it moves images, and, for a
/// category bucket, that it can be edited.
pub fn chip_tooltip(b: &Bucket) -> (r: String)
    ensures
        r@ == chip_tooltip_of(*b),
{
    let mut out = String::from_str("Move to ");
    out.append(b.folder.as_str());
    out.append("/");
    if !b.is_reject {
        out.append(" · right-click to rename / remove");
    }
    out
}

/// The status line: position, count and path of the current image.
pub open spec fn status_text_of(s: Session) -> Seq<char> {
    if s.index < s.items@.len() {
        decimal((s.index + 1) as nat) + "/"@ + decimal(s.items@.len()) + " — "@
            + s.items@[s.index as int].rel_path@
    } else {
        "No folder open — press Ctrl+O or “Open”"@
    }
}

/// The window title: the status line, or the program name with no image.
pub open spec fn title_of(s: Session) -> Seq<char> {
    if s.index < s.items@.len() {
        status_text_of(s)
    } else {
        "winnow"@
    }
}

/// The status line and the window title.
pub fn status_text(s: &Session) -> (r: (String, String))
    ensures
        r.0@ == status_text_of(*s),
        r.1@ == title_of(*s),
{
    if s.index < s.items.len() {
        let mut t = usize_to_decimal(s.index + 1);
        t.append("/");
        t.append(usize_to_decimal(s.items.len()).as_str());
        t.append(" — ");
        t.append(s.items[s.index].rel_path.as_str());
        let title = t.clone();
        (t, title)
    } else {
        (String::from_str("No folder open — press Ctrl+O or “Open”"), String::from_str("winnow"))
    }
}

/// What the status bar flashes after a bucket was added.
pub open spec fn added_message_of(name: Seq<char>, key: Seq<char>) -> Seq<char> {
    "Added bucket “"@ + name + "” ("@ + (if key.len() == 0 {
        "click its chip"@
    } else {
        "key "@ + key
    }) + ")"@
}

/// The message after adding a bucket named `name` with hotkey `key`.
pub fn added_message(name: &str, key: &str) -> (r: String)
    ensures
        r@ == added_message_of(name@, key@),
{
    let mut out = String::from_str("Added bucket “");
    out.append(name);
    out.append("” (");
    if chars_of(key).len() == 0 {
        out.append("click its chip");
    } else {
        out.append("key ");
        out.append(key);
    }
    out.append(")");
    out
}

/// The question asked before removing a bucket whose folder holds images.
pub open spec fn remove_question_of(name: Seq<char>, count: nat, folder: Seq<char>) -> Seq<char> {
    "Remove “"@ + name + "”? Its "@ + decimal(count) + " image(s) stay in "@ + folder
        + "/ and rejoin the queue next time this folder is opened."@
}

/// The question asked before removing a bucket that holds `count` images.
pub fn remove_question(name: &str, count: usize, folder: &str) -> (r: String)
    ensures
        r@ == remove_question_of(name@, count as nat, folder@),
{
    let mut out = String::from_str("Remove “");
    out.append(name);
    out.append("”? Its ");
    out.append(usize_to_decimal(count).as_str());
    out.append(" image(s) stay in ");
    out.append(folder);
    out.append("/ and rejoin the queue next time this folder is opened.");
    out
}

/// `k` padded with spaces to `w` characters.
pub open spec fn padded(k: Seq<char>, w: nat) -> Seq<char> {
    if k.len() < w {
        k + Seq::new((w - k.len()) as nat, |i: int| ' ')
    } else {
        k
    }
}

/// One line of the shortcuts list: the keys in a fixed-width column, then
/// what they do.
pub open spec fn help_row(keys: Seq<char>, desc: Seq<char>) -> Seq<char> {
    "  <tt>"@ + padded(keys, 26) + "</tt> "@ + markup_escaped(desc) + "\n"@
}

fn help_row_str(keys: &str, desc: &str) -> (r: String)
    ensures
        r@ == help_row(keys@, desc@),
{
    let mut k = String::from_str(keys);
    let n = chars_of(keys).len();
    if n < 26 {
        let mut i: usize = n;
        while i < 26
            invariant
                n <= i <= 26,
                n == keys@.len(),
                k@ == keys@ + Seq::new((i - n) as nat, |q: int| ' '),
            decreases 26 - i,
        {
            k.push(' ');
            i = i + 1;
            assert(k@ =~= keys@ + Seq::new((i - n) as nat, |q: int| ' '));
        }
    }
    assert(k@ =~= padded(keys@, 26));
    let mut out = String::from_str("  <tt>");
    out.append(k.as_str());
    out.append("</tt> ");
    out.append(markup_escape(desc).as_str());
    out.append("\n");
    out
}

/// The line for a bucket's hotkey.
pub open spec fn bucket_help_row(b: Bucket) -> Seq<char> {
    if b.is_reject {
        help_row("Delete / Backspace / x"@, "Reject → move to _rejected/"@)
    } else {
        help_row(markup_escaped(b.key@), "Move to “"@ + b.name@ + "” ("@ + b.folder@ + "/)"@)
    }
}

/// The lines for the buckets' hotkeys, in bucket order.
pub open spec fn bucket_help(bs: Seq<Bucket>) -> Seq<char>
    decreases bs.len(),
{
    if bs.len() == 0 {
        Seq::empty()
    } else {
        bucket_help(bs.drop_last()) + bucket_help_row(bs.last())
    }
}

pub open spec fn navigation_help() -> Seq<char> {
    help_row("→ / Space"@, "Next image"@) + help_row("←"@, "Previous image"@) + help_row(
        "Mouse Back / Forward"@,
        "Previous / next"@,
    ) + help_row("Page Down / Page Up"@, "Jump ±10"@) + help_row("Home / End"@, "First / last"@)
}

pub open spec fn zoom_help() -> Seq<char> {
    help_row("Scroll / pinch"@, "Zoom (toward cursor)"@) + help_row("+ / -"@, "Zoom in / out"@)
        + help_row("f / a"@, "Fit to window / 100%"@) + help_row(
        "Left-drag (zoomed)"@,
        "Pan the image"@,
    ) + help_row("Middle-drag"@, "Pan the image"@) + help_row("Double-click"@, "Toggle fullscreen"@)
}

pub open spec fn adjust_help() -> Seq<char> {
    help_row("] / ["@, "Brightness up / down"@) + help_row("} / {"@, "Gamma up / down"@) + help_row(
        "\\"@,
        "Reset brightness & gamma"@,
    )
}

pub open spec fn files_help() -> Seq<char> {
    help_row("Left-drag (fit) / Ctrl+drag"@, "Drag file out (copy)"@) + help_row(
        "Ctrl+C / Ctrl+Shift+C"@,
        "Copy filename / path"@,
    ) + help_row("Ctrl+Shift+X"@, "Copy image file to clipboard"@) + help_row(
        "Ctrl+O"@,
        "Open a folder"@,
    ) + help_row("F11"@, "Fullscreen"@) + help_row("Esc"@, "Exit fullscreen, or quit"@) + help_row(
        "? / F1"@,
        "This shortcuts list"@,
    )
}

/// The shortcuts list, as markup, with a line per bucket.
pub open spec fn help_markup_of(bs: Seq<Bucket>) -> Seq<char> {
    "<b>Navigation</b>\n"@ + navigation_help() + "\n<b>Sort into buckets</b>\n"@ + bucket_help(bs)
        + help_row("Ctrl+Z / Ctrl+Shift+Z"@, "Undo / redo the last move"@)
        + "\n<b>Zoom &amp; pan</b>\n"@ + zoom_help() + "\n<b>Image adjust</b>\n"@ + adjust_help()
        + "\n<b>Files &amp; views</b>\n"@ + files_help()
}

fn navigation_help_str() -> (r: String)
    ensures
        r@ == navigation_help(),
{
    let mut out = help_row_str("→ / Space", "Next image");
    out.append(help_row_str("←", "Previous image").as_str());
    out.append(help_row_str("Mouse Back / Forward", "Previous / next").as_str());
    out.append(help_row_str("Page Down / Page Up", "Jump ±10").as_str());
    out.append(help_row_str("Home / End", "First / last").as_str());
    assert(out@ =~= navigation_help());
    out
}

fn zoom_help_str() -> (r: String)
    ensures
        r@ == zoom_help(),
{
    let mut out = help_row_str("Scroll / pinch", "Zoom (toward cursor)");
    out.append(help_row_str("+ / -", "Zoom in / out").as_str());
    out.append(help_row_str("f / a", "Fit to window / 100%").as_str());
    out.append(help_row_str("Left-drag (zoomed)", "Pan the image").as_str());
    out.append(help_row_str("Middle-drag", "Pan the image").as_str());
    out.append(help_row_str("Double-click", "Toggle fullscreen").as_str());
    assert(out@ =~= zoom_help());
    out
}

fn adjust_help_str() -> (r: String)
    ensures
        r@ == adjust_help(),
{
    let mut out = help_row_str("] / [", "Brightness up / down");
    out.append(help_row_str("} / {", "Gamma up / down").as_str());
    out.append(help_row_str("\\", "Reset brightness & gamma").as_str());
    assert(out@ =~= adjust_help());
    out
}

fn files_help_str() -> (r: String)
    ensures
        r@ == files_help(),
{
    let mut out = help_row_str("Left-drag (fit) / Ctrl+drag", "Drag file out (copy)");
    out.append(help_row_str("Ctrl+C / Ctrl+Shift+C", "Copy filename / path").as_str());
    out.append(help_row_str("Ctrl+Shift+X", "Copy image file to clipboard").as_str());
    out.append(help_row_str("Ctrl+O", "Open a folder").as_str());
    out.append(help_row_str("F11", "Fullscreen").as_str());
    out.append(help_row_str("Esc", "Exit fullscreen, or quit").as_str());
    out.append(help_row_str("? / F1", "This shortcuts list").as_str());
    assert(out@ =~= files_help());
    out
}

fn bucket_help_str(buckets: &[Bucket]) -> (r: String)
    ensures
        r@ == bucket_help(buckets@),
{
    let mut out = String::new();
    let mut i: usize = 0;
    while i < buckets.len()
        invariant
            i <= buckets@.len(),
            out@ == bucket_help(buckets@.take(i as int)),
        decreases buckets@.len() - i,
    {
        assert(buckets@.take(i + 1).drop_last() =~= buckets@.take(i as int));
        let b = &buckets[i];
        let row = if b.is_reject {
            help_row_str("Delete / Backspace / x", "Reject → move to _rejected/")
        } else {
            let mut d = String::from_str("Move to “");
            d.append(b.name.as_str());
            d.append("” (");
            d.append(b.folder.as_str());
            d.append("/)");
            help_row_str(markup_escape(b.key.as_str()).as_str(), d.as_str())
        };
        assert(row@ == bucket_help_row(buckets@[i as int]));
        out.append(row.as_str());
        i = i + 1;
        assert(out@ =~= bucket_help(buckets@.take(i as int)));
    }
    assert(buckets@.take(i as int) =~= buckets@);
    out
}

/// The shortcuts list shown by `?` / F1.
pub fn help_markup(buckets: &[Bucket]) -> (r: String)
    ensures
        r@ == help_markup_of(buckets@),
{
    let mut out = String::from_str("<b>Navigation</b>\n");
    out.append(navigation_help_str().as_str());
    out.append("\n<b>Sort into buckets</b>\n");
    out.append(bucket_help_str(buckets).as_str());
    out.append(help_row_str("Ctrl+Z / Ctrl+Shift+Z", "Undo / redo the last move").as_str());
    out.append("\n<b>Zoom &amp; pan</b>\n");
    out.append(zoom_help_str().as_str());
    out.append("\n<b>Image adjust</b>\n");
    out.append(adjust_help_str().as_str());
    out.append("\n<b>Files &amp; views</b>\n");
    out.append(files_help_str().as_str());
    assert(out@ =~= help_markup_of(buckets@));
    out
}

proof fn lemma_joined_extend_last(v: Seq<Seq<char>>, x: Seq<char>, sep: Seq<char>)
    requires
        v.len() >= 1,
    ensures
        joined(v.update(v.len() - 1, v.last() + x), sep) == joined(v, sep) + x,
{
    let w = v.update(v.len() - 1, v.last() + x);
    if v.len() >= 2 {
        assert(w.drop_last() =~= v.drop_last());
    }
}

proof fn lemma_escape_push(s: Seq<char>, c: char)
    ensures
        markup_escaped(s.push(c)) == markup_escaped(s) + escape_char(c),
{
    assert(s.push(c).drop_last() =~= s);
}

/// Escaping each piece between spaces and joining them again with spaces
/// escapes the whole text.
proof fn lemma_pieces_escape(s: Seq<char>)
    ensures
        joined(split_spaces(s).map_values(|tok: Seq<char>| markup_escaped(tok)), " "@) == markup_escaped(s),
    decreases s.len(),
{
    reveal_strlit(" ");
    if s.len() == 0 {
        assert(split_spaces(s).map_values(|tok: Seq<char>| markup_escaped(tok)) =~= seq![Seq::<char>::empty()]);
    } else {
        let p = s.drop_last();
        let c = s.last();
        lemma_pieces_escape(p);
        lemma_split_spaces_len(p);
        assert(s =~= p.push(c));
        lemma_escape_push(p, c);
        let t = split_spaces(p);
        let mt = t.map_values(|tok: Seq<char>| markup_escaped(tok));
        if c == ' ' {
            assert(split_spaces(s).map_values(|tok: Seq<char>| markup_escaped(tok)) =~= mt.push(
                Seq::<char>::empty(),
            ));
            assert(mt.push(Seq::<char>::empty()).drop_last() =~= mt);
            assert(escape_char(' ') =~= " "@);
            assert(joined(mt.push(Seq::<char>::empty()), " "@) =~= joined(mt, " "@) + " "@);
        } else {
            lemma_escape_push(t.last(), c);
            assert(split_spaces(s).map_values(|tok: Seq<char>| markup_escaped(tok)) =~= mt.update(
                mt.len() - 1,
                mt.last() + escape_char(c),
            ));
            lemma_joined_extend_last(mt, escape_char(c), " "@);
        }
    }
}

/// Text without a link is only escaped: making links clickable then leaves
/// every character as it was, escaped for markup.
pub proof fn law_text_without_links_is_escaped(text: Seq<char>)
    requires
        !has_link(text),
    ensures
        linkified(text) == markup_escaped(text),
{
    let ts = split_spaces(text);
    assert(ts.map_values(|tok: Seq<char>| token_markup(tok)) =~= ts.map_values(
        |tok: Seq<char>| markup_escaped(tok),
    )) by {
        assert forall|i: int| 0 <= i < ts.len() implies token_markup(ts[i]) == markup_escaped(ts[i]) by {
            assert(!token_is_link(ts[i]));
        }
    }
    lemma_pieces_escape(text);
}

/// The status message after moving `moved` grid images into `bucket`.
pub open spec fn bulk_message_of(bucket: Bucket, moved: nat) -> Seq<char> {
    (if bucket.is_reject {
        "Rejected"@
    } else {
        "→ "@ + bucket.name@
    }) + " "@ + decimal(moved) + " image(s)"@
}

/// The message after moving several images at once into `bucket`.
pub fn bulk_message(bucket: &Bucket, moved: usize) -> (r: String)
    ensures
        r@ == bulk_message_of(*bucket, moved as nat),
{
    let mut out = if bucket.is_reject {
        String::from_str("Rejected")
    } else {
        let mut v = String::from_str("→ ");
        v.append(bucket.name.as_str());
        v
    };
    out.append(" ");
    out.append(usize_to_decimal(moved).as_str());
    out.append(" image(s)");
    out
}

/// The metadata shown for the image at `rel`: each column with the image's
/// value (empty when the row lacks it), or nothing when the image has no row.
pub open spec fn metadata_rows_of(m: Metadata, rel: Seq<char>) -> Seq<(Seq<char>, Seq<char>)> {
    match resolve_key(m, rel) {
        Some((k, _)) => views(m.columns@).map_values(|c: Seq<char>| (c, cell_of(m, rel, c))),
        None => Seq::empty(),
    }
}

/// The details panel's metadata rows for the image at `rel`.
pub fn metadata_rows(m: &Metadata, rel: &str) -> (r: Vec<(String, String)>)
    requires
        m.wf(),
    ensures
        r@.map_values(|p: (String, String)| (p.0@, p.1@)) == metadata_rows_of(*m, rel@),
{
    let mut out: Vec<(String, String)> = Vec::new();
    if m.row_key(rel).is_none() {
        assert(out@.map_values(|p: (String, String)| (p.0@, p.1@)) =~= metadata_rows_of(*m, rel@));
        return out;
    }
    let ghost cols = views(m.columns@);
    let mut i: usize = 0;
    while i < m.columns.len()
        invariant
            i <= cols.len(),
            m.wf(),
            cols == views(m.columns@),
            resolve_key(*m, rel@) is Some,
            out@.map_values(|p: (String, String)| (p.0@, p.1@)) == cols.take(i as int).map_values(
                |c: Seq<char>| (c, cell_of(*m, rel@, c)),
            ),
        decreases cols.len() - i,
    {
        let col = m.columns[i].clone();
        let val = m.cell_text(rel, col.as_str());
        let ghost before = out@.map_values(|p: (String, String)| (p.0@, p.1@));
        let ghost pv = (col@, val@);
        out.push((col, val));
        assert(out@.map_values(|p: (String, String)| (p.0@, p.1@)) =~= before.push(pv));
        assert(cols.take(i + 1).map_values(|c: Seq<char>| (c, cell_of(*m, rel@, c))) =~= cols.take(
            i as int,
        ).map_values(|c: Seq<char>| (c, cell_of(*m, rel@, c))).push((cols[i as int], cell_of(*m, rel@, cols[i as int]))));
        i = i + 1;
    }
    assert(cols.take(i as int) =~= cols);
    out
}

} // verus!
