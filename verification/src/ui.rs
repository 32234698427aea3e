//! Terminal styling. Colour is decoration, never load-bearing: with colour
//! off every line renders as its plain text.
use vstd::prelude::*;

use crate::text::{trim_end_all, trim_end_matches_all, views};

verus! {

/// `s.bold()` of `owo_colors`, rendered: `ESC[1m`, the text, `ESC[0m`
/// (the crate's `styles.rs` writes exactly these around the text).
#[verifier::external_body]
fn paint_bold(s: &str) -> (res: String)
    ensures
        res@ == "\x1b[1m"@ + s@ + "\x1b[0m"@,
{
    owo_colors::OwoColorize::bold(&s).to_string()
}

/// `s.dimmed()` of `owo_colors`, rendered: `ESC[2m`, the text, `ESC[0m`.
#[verifier::external_body]
fn paint_dimmed(s: &str) -> (res: String)
    ensures
        res@ == "\x1b[2m"@ + s@ + "\x1b[0m"@,
{
    owo_colors::OwoColorize::dimmed(&s).to_string()
}

/// `s.green()` of `owo_colors`, rendered: `ESC[32m`, the text, `ESC[39m`
/// (the crate's `colors.rs`: foreground code 32, reset 39).
#[verifier::external_body]
fn paint_green(s: &str) -> (res: String)
    ensures
        res@ == "\x1b[32m"@ + s@ + "\x1b[39m"@,
{
    owo_colors::OwoColorize::green(&s).to_string()
}

/// `s.yellow()` of `owo_colors`, rendered: `ESC[33m`, the text, `ESC[39m`.
#[verifier::external_body]
fn paint_yellow(s: &str) -> (res: String)
    ensures
        res@ == "\x1b[33m"@ + s@ + "\x1b[39m"@,
{
    owo_colors::OwoColorize::yellow(&s).to_string()
}

/// `s.red()` of `owo_colors`, rendered: `ESC[31m`, the text, `ESC[39m`.
#[verifier::external_body]
fn paint_red(s: &str) -> (res: String)
    ensures
        res@ == "\x1b[31m"@ + s@ + "\x1b[39m"@,
{
    owo_colors::OwoColorize::red(&s).to_string()
}

/// The error line for `msg`: `error: <msg>`, with colour the label red and
/// bold.
pub open spec fn error_line_text(color: bool, msg: Seq<char>) -> Seq<char> {
    if color {
        "\x1b[1m"@ + ("\x1b[31m"@ + "error:"@ + "\x1b[39m"@) + "\x1b[0m"@ + " "@ + msg
    } else {
        "error: "@ + msg
    }
}

/// `s` holds no escape character.
pub open spec fn no_escape(s: Seq<char>) -> bool {
    forall|i: int| 0 <= i < s.len() ==> s[i] != '\x1b'
}

/// An SGR escape sequence: escape, then characters other than escape and
/// `m`, then `m`.
pub open spec fn is_sgr(code: Seq<char>) -> bool {
    &&& code.len() >= 2
    &&& code[0] == '\x1b'
    &&& code.last() == 'm'
    &&& forall|i: int| 1 <= i < code.len() - 1 ==> code[i] != 'm' && code[i] != '\x1b'
}

/// What follows the first `m` of `s` (the end of an escape sequence).
pub open spec fn after_sgr(s: Seq<char>) -> Seq<char>
    decreases s.len(),
{
    if s.len() == 0 {
        s
    } else if s[0] == 'm' {
        s.drop_first()
    } else {
        after_sgr(s.drop_first())
    }
}

/// Skipping to the end of an escape sequence never lengthens the text.
pub proof fn lemma_after_sgr_shorter(s: Seq<char>)
    ensures
        after_sgr(s).len() <= s.len(),
    decreases s.len(),
{
    if s.len() > 0 && s[0] != 'm' {
        lemma_after_sgr_shorter(s.drop_first());
    }
}

/// `s` as a terminal shows it: every escape sequence up to its `m` taken
/// out.
pub open spec fn strip_sgr(s: Seq<char>) -> Seq<char>
    decreases s.len(),
{
    if s.len() == 0 {
        s
    } else if s[0] == '\x1b' {
        proof { lemma_after_sgr_shorter(s.drop_first()); }
        strip_sgr(after_sgr(s.drop_first()))
    } else {
        seq![s[0]] + strip_sgr(s.drop_first())
    }
}

/// Plain text passes through unchanged.
proof fn lemma_strip_plain(a: Seq<char>, b: Seq<char>)
    requires
        no_escape(a),
    ensures
        strip_sgr(a + b) == a + strip_sgr(b),
    decreases a.len(),
{
    if a.len() > 0 {
        assert((a + b).drop_first() =~= a.drop_first() + b);
        lemma_strip_plain(a.drop_first(), b);
        assert(a =~= seq![a[0]] + a.drop_first());
    } else {
        assert(a + b =~= b);
    }
}

/// The tail of an escape sequence, then `b`: what follows its `m` is `b`.
proof fn lemma_after_sgr_tail(t: Seq<char>, b: Seq<char>)
    requires
        t.len() >= 1,
        t.last() == 'm',
        forall|i: int| 0 <= i < t.len() - 1 ==> t[i] != 'm',
    ensures
        after_sgr(t + b) == b,
    decreases t.len(),
{
    if t.len() == 1 {
        assert((t + b).drop_first() =~= b);
    } else {
        assert((t + b).drop_first() =~= t.drop_first() + b);
        lemma_after_sgr_tail(t.drop_first(), b);
    }
}

/// An escape sequence shows as nothing.
proof fn lemma_strip_sgr_code(code: Seq<char>, b: Seq<char>)
    requires
        is_sgr(code),
    ensures
        strip_sgr(code + b) == strip_sgr(b),
{
    assert((code + b).drop_first() =~= code.drop_first() + b);
    lemma_after_sgr_tail(code.drop_first(), b);
}

/// Colour is decoration: text painted between two escape sequences shows
/// as the text itself.
pub proof fn law_painted_shows_as_plain(on: Seq<char>, s: Seq<char>, off: Seq<char>)
    requires
        is_sgr(on),
        is_sgr(off),
        no_escape(s),
    ensures
        strip_sgr(on + s + off) == s,
{
    assert(on + s + off =~= on + (s + off));
    lemma_strip_sgr_code(on, s + off);
    lemma_strip_plain(s, off);
    assert(off =~= off + Seq::<char>::empty());
    lemma_strip_sgr_code(off, Seq::<char>::empty());
    assert(s + Seq::<char>::empty() =~= s);
}

/// Colour is decoration: the coloured error line shows as the plain one,
/// for any message without escape characters.
pub proof fn law_error_line_shows_as_plain(msg: Seq<char>)
    requires
        no_escape(msg),
    ensures
        strip_sgr(error_line_text(true, msg)) == error_line_text(false, msg),
{
    reveal_strlit("\x1b[1m");
    reveal_strlit("\x1b[31m");
    reveal_strlit("\x1b[39m");
    reveal_strlit("\x1b[0m");
    reveal_strlit("error:");
    reveal_strlit(" ");
    reveal_strlit("error: ");
    let b = "\x1b[1m"@;
    let r = "\x1b[31m"@;
    let e = "error:"@;
    let rr = "\x1b[39m"@;
    let z = "\x1b[0m"@;
    let tail = " "@ + msg;
    assert(no_escape(e));
    assert(no_escape(tail));
    assert(error_line_text(true, msg) =~= b + (r + (e + (rr + (z + tail)))));
    lemma_strip_sgr_code(b, r + (e + (rr + (z + tail))));
    lemma_strip_sgr_code(r, e + (rr + (z + tail)));
    lemma_strip_plain(e, rr + (z + tail));
    lemma_strip_sgr_code(rr, z + tail);
    lemma_strip_sgr_code(z, tail);
    lemma_strip_plain(tail, Seq::<char>::empty());
    assert(tail + Seq::<char>::empty() =~= tail);
    assert(e + tail =~= "error: "@ + msg);
}

/// Styled output helper./// Styled output helper. Construct once and pass by reference; `color`
/// decides whether lines carry ANSI styling.
pub struct Ui {
    pub color: bool,
}

impl Ui {
    /// Section header, bold.
    pub fn header(&self, s: &str) -> (res: String)
        ensures
            res@ == if self.color { "\x1b[1m"@ + s@ + "\x1b[0m"@ } else { s@ },
    {
        if self.color { paint_bold(s) } else { s.to_owned() }
    }

    /// Success/confirmation line, green.
    pub fn ok(&self, s: &str) -> (res: String)
        ensures
            res@ == if self.color { "\x1b[32m"@ + s@ + "\x1b[39m"@ } else { s@ },
    {
        if self.color { paint_green(s) } else { s.to_owned() }
    }

    /// Warning/note line, yellow.
    pub fn warn(&self, s: &str) -> (res: String)
        ensures
            res@ == if self.color { "\x1b[33m"@ + s@ + "\x1b[39m"@ } else { s@ },
    {
        if self.color { paint_yellow(s) } else { s.to_owned() }
    }

    /// De-emphasized detail, dimmed.
    pub fn dim(&self, s: &str) -> (res: String)
        ensures
            res@ == if self.color { "\x1b[2m"@ + s@ + "\x1b[0m"@ } else { s@ },
    {
        if self.color { paint_dimmed(s) } else { s.to_owned() }
    }

    /// An error line for stderr: `error: <msg>`, the label red and bold.
    pub fn error_line(&self, msg: &str) -> (res: String)
        ensures
            res@ == error_line_text(self.color, msg@),
    {
        if self.color {
            let red = paint_red("error:");
            let mut out = paint_bold(red.as_str());
            out.push_str(" ");
            out.push_str(msg);
            out
        } else {
            let mut out = String::new();
            out.push_str("error: ");
            out.push_str(msg);
            out
        }
    }
}


/// The unified line diff that `similar` computes from `old` to `new` with
/// three lines of context: per hunk, its `@@ -a,b +c,d @@` header and each
/// line with its kind (0 unchanged, 1 removed, 2 added) and text as split
/// by lines.
pub uninterp spec fn line_diff(old: Seq<char>, new: Seq<char>) -> Seq<(Seq<char>, Seq<(u8, Seq<char>)>)>;

/// The hunks as characters.
pub open spec fn hunk_views(h: Seq<(String, Vec<(u8, String)>)>) -> Seq<(Seq<char>, Seq<(u8, Seq<char>)>)> {
    h.map_values(|x: (String, Vec<(u8, String)>)| (x.0@, x.1@.map_values(|c: (u8, String)| (c.0, c.1@))))
}

/// `similar::TextDiff::from_lines(old, new)`, its unified diff with a
/// context radius of 3, hunk by hunk (`header()` rendered, `iter_changes()`
/// with each `ChangeTag` as 0, 1 or 2 and each `value()`). The result is
/// named (`line_diff`), not restated.
#[verifier::external_body]
fn diff_hunks(old: &str, new: &str) -> (res: Vec<(String, Vec<(u8, String)>)>)
    ensures
        hunk_views(res@) == line_diff(old@, new@),
{
    let diff = similar::TextDiff::from_lines(old, new);
    let mut unified = diff.unified_diff();
    unified.context_radius(3);
    unified.iter_hunks().map(|h| (h.header().to_string(), h.iter_changes().map(|c| (match c.tag() {
        similar::ChangeTag::Equal => 0u8,
        similar::ChangeTag::Delete => 1u8,
        similar::ChangeTag::Insert => 2u8,
    }, c.value().to_string())).collect())).collect()
}

/// `s` dimmed when `color` is on.
pub open spec fn dim_text(color: bool, s: Seq<char>) -> Seq<char> {
    if color { "\x1b[2m"@ + s + "\x1b[0m"@ } else { s }
}

/// How a diff line shows: removed `-text` (red with colour), added `+text`
/// (green), unchanged ` text`; the text without its trailing newlines.
pub open spec fn diff_line_text(color: bool, kind: u8, value: Seq<char>) -> Seq<char> {
    let line = trim_end_all(value, seq!['\n']);
    if kind == 1 {
        if color { "\x1b[31m"@ + (seq!['-'] + line) + "\x1b[39m"@ } else { seq!['-'] + line }
    } else if kind == 2 {
        if color { "\x1b[32m"@ + (seq!['+'] + line) + "\x1b[39m"@ } else { seq!['+'] + line }
    } else {
        seq![' '] + line
    }
}

/// The lines of one hunk: its header, dimmed, then each change, all
/// indented by four spaces.
pub open spec fn hunk_lines(color: bool, h: (Seq<char>, Seq<(u8, Seq<char>)>)) -> Seq<Seq<char>> {
    seq!["    "@ + dim_text(color, h.0)] + h.1.map_values(|c: (u8, Seq<char>)| "    "@ + diff_line_text(color, c.0, c.1))
}

/// The lines of every hunk, in order.
pub open spec fn diff_text_lines(color: bool, hs: Seq<(Seq<char>, Seq<(u8, Seq<char>)>)>) -> Seq<Seq<char>>
    decreases hs.len(),
{
    if hs.len() == 0 {
        Seq::empty()
    } else {
        diff_text_lines(color, hs.drop_last()) + hunk_lines(color, hs.last())
    }
}

impl Ui {
    /// One line of a diff as shown.
    fn diff_line(&self, kind: u8, value: &str) -> (res: String)
        ensures
            res@ == "    "@ + diff_line_text(self.color, kind, value@),
    {
        let line = trim_end_matches_all(value, "\n");
        proof { reveal_strlit("\n"); }
        assert("\n"@ =~= seq!['\n']);
        let mut body = String::new();
        if kind == 1 {
            body.push('-');
        } else if kind == 2 {
            body.push('+');
        } else {
            body.push(' ');
        }
        body.push_str(line.as_str());
        let shown = if kind == 1 && self.color {
            paint_red(body.as_str())
        } else if kind == 2 && self.color {
            paint_green(body.as_str())
        } else {
            body
        };
        let mut out = String::new();
        out.push_str("    ");
        out.push_str(shown.as_str());
        out
    }

    /// The unified diff of `old` → `new` as lines to print: each hunk's
    /// header dimmed, removed lines `-` and red, added lines `+` and green
    /// (colour only when on), all indented by four spaces.
    pub fn diff_lines(&self, old: &str, new: &str) -> (res: Vec<String>)
        ensures
            views(res@) == diff_text_lines(self.color, line_diff(old@, new@)),
    {
        let hunks = diff_hunks(old, new);
        let ghost hv = hunk_views(hunks@);
        let mut out: Vec<String> = Vec::new();
        let mut i: usize = 0;
        while i < hunks.len()
            invariant
                hv == hunk_views(hunks@),
                i <= hunks@.len(),
                views(out@) == diff_text_lines(self.color, hv.take(i as int)),
            decreases hunks@.len() - i,
        {
            let ghost base = views(out@);
            let ghost h = hv[i as int];
            assert(hv.take(i + 1).drop_last() =~= hv.take(i as int));
            assert(hv.take(i + 1).last() == h);
            let head = self.dim(hunks[i].0.as_str());
            let mut first = String::new();
            first.push_str("    ");
            first.push_str(head.as_str());
            out.push(first);
            let changes = &hunks[i].1;
            let mut j: usize = 0;
            while j < changes.len()
                invariant
                    hv == hunk_views(hunks@),
                    i < hunks@.len(),
                    h == hv[i as int],
                    changes@ == hunks@[i as int].1@,
                    j <= changes@.len(),
                    views(out@) == base + (seq!["    "@ + dim_text(self.color, h.0)] + h.1.take(j as int).map_values(
                        |c: (u8, Seq<char>)| "    "@ + diff_line_text(self.color, c.0, c.1))),
                decreases changes@.len() - j,
            {
                assert(h.1[j as int] == (changes@[j as int].0, changes@[j as int].1@));
                let line = self.diff_line(changes[j].0, changes[j].1.as_str());
                let ghost before = views(out@);
                out.push(line);
                proof {
                    assert(views(out@) =~= before.push(line@));
                    assert(h.1.take(j + 1).map_values(|c: (u8, Seq<char>)| "    "@ + diff_line_text(self.color, c.0, c.1))
                        =~= h.1.take(j as int).map_values(|c: (u8, Seq<char>)| "    "@ + diff_line_text(self.color, c.0, c.1)).push(line@));
                }
                j = j + 1;
            }
            proof {
                assert(h.1.take(h.1.len() as int) =~= h.1);
                assert(views(out@) =~= diff_text_lines(self.color, hv.take(i + 1)));
            }
            i = i + 1;
        }
        assert(hv.take(hv.len() as int) =~= hv);
        out
    }
}
} // verus!
