//! Editor state that is independent of rendering: modes, settings,
//! auto-pairing flags, and the text helpers the editor uses on lines.
use vstd::prelude::*;
use vstd::string::StringSliceAdditionalSpecFns;
use crate::text::{
    trim, trim_start, starts_with, lines, is_word_char, chars_of, lines_of, views, trim_chars,
    trim_start_index, string_of, string_from, str_equal, push_char, push_chars, find_char,
    find_char_in, sub_chars, char_is_word, has_prefix_str,
};

verus! {

/// How the document is shown.
#[derive(Debug, Clone, Copy, PartialEq, Eq, Structural)]
pub enum RenderMode {
    /// Blocks rendered, evaluation runs, tables interactive.
    Live,
    /// Raw markdown in one editor, no evaluation, no block splitting.
    Editor,
    /// Read-only rendered view.
    View,
}

/// Gutter line-number and cursorline display mode.
#[derive(Debug, Clone, Copy, PartialEq, Eq, Structural)]
pub enum LineIndicator {
    /// Absolute line numbers with a full-row cursorline band.
    On,
    /// No line numbers and no cursorline band.
    Off,
    /// Relative line numbers with a cursorline band.
    Vim,
}

/// The indicator a setting names: `off`, `vim`, anything else is on.
pub open spec fn indicator_of(s: Seq<char>) -> LineIndicator {
    if s == "off"@ {
        LineIndicator::Off
    } else if s == "vim"@ {
        LineIndicator::Vim
    } else {
        LineIndicator::On
    }
}

impl LineIndicator {
    /// The indicator named by a setting value.
    pub fn from_str(s: &str) -> (r: Self)
        ensures
            r == indicator_of(s@),
    {
        if str_equal(s, "off") {
            LineIndicator::Off
        } else if str_equal(s, "vim") {
            LineIndicator::Vim
        } else {
            LineIndicator::On
        }
    }
}

/// Top-level menus.
#[derive(Debug, Clone, Copy, PartialEq, Eq, Structural)]
pub enum MenuCategory {
    File,
    Edit,
    Render,
    View,
}

/// Requests the editor hands to the application shell.
#[derive(Debug, Clone, PartialEq, Eq)]
pub enum ShellAction {
    NewNote,
    Open,
    Save,
    SaveAs,
    Quit,
    Settings,
    ExportCrate,
    ToggleBrowser,
    SetThemeMode(String),
    SetLineIndicator(String),
    SetGutterRainbow(bool),
    PickAutoSaveDir,
}

/// Values shown in the settings panel.
#[derive(Debug, Clone)]
pub struct SettingsView {
    pub theme_mode: String,
    pub line_indicator: String,
    pub gutter_rainbow: bool,
    pub auto_save_dir: String,
}

impl Default for SettingsView {
    fn default() -> (r: Self)
        ensures
            r.theme_mode@ == "auto"@,
            r.line_indicator@ == "on"@,
            r.gutter_rainbow,
            r.auto_save_dir@ == Seq::<char>::empty(),
    {
        SettingsView {
            theme_mode: string_from("auto"),
            line_indicator: string_from("on"),
            gutter_rainbow: true,
            auto_save_dir: String::new(),
        }
    }
}

/// State of the find/replace bar.
pub struct FindState {
    pub visible: bool,
    pub query: String,
    pub replacement: String,
    pub matches: Vec<(usize, usize)>,
    pub current: usize,
}

/// Line and column (in characters) of every place where `q` starts in
/// `t`, from position `k` on, which lies at `line`, `col`; a match is
/// looked for at every character but a line break.
pub open spec fn matches_from(t: Seq<char>, q: Seq<char>, k: int, line: int, col: int) -> Seq<
    (int, int),
>
    decreases t.len() - k,
{
    if k < 0 || k >= t.len() {
        seq![]
    } else if t[k] == '\n' {
        matches_from(t, q, k + 1, line + 1, 0)
    } else {
        let rest = matches_from(t, q, k + 1, line, col + 1);
        if starts_with(t.skip(k), q) {
            seq![(line, col)] + rest
        } else {
            rest
        }
    }
}

/// Where the find bar's query matches the text, case-insensitively: none
/// for an empty query.
pub open spec fn find_positions(text: Seq<char>, query: Seq<char>) -> Seq<(int, int)> {
    if query.len() == 0 {
        seq![]
    } else {
        matches_from(crate::text::lowercase(text), crate::text::lowercase(query), 0, 0, 0)
    }
}

/// Positions as integers.
pub open spec fn positions_view(m: Seq<(usize, usize)>) -> Seq<(int, int)> {
    m.map_values(|p: (usize, usize)| (p.0 as int, p.1 as int))
}

/// Whether `p` occurs in `s` at position `k`.
fn prefix_at(s: &[char], k: usize, p: &[char]) -> (r: bool)
    requires
        k <= s.len(),
    ensures
        r == starts_with(s@.skip(k as int), p@),
{
    if p.len() > s.len() - k {
        return false;
    }
    let mut i: usize = 0;
    while i < p.len()
        invariant
            k <= s.len(),
            p.len() <= s.len() - k,
            i <= p.len(),
            forall|j: int| 0 <= j < i ==> s@[k + j] == p@[j],
        decreases p.len() - i,
    {
        if s[k + i] != p[i] {
            assert(s@.skip(k as int).subrange(0, p.len() as int)[i as int] != p@[i as int]);
            return false;
        }
        i += 1;
    }
    assert(s@.skip(k as int).subrange(0, p.len() as int) =~= p@);
    true
}

impl FindState {
    /// Recomputes the matches of the query in `text` and goes back to the
    /// first.
    pub fn update_matches(&mut self, text: &str)
        ensures
            positions_view(final(self).matches@) == find_positions(text@, old(self).query@),
            final(self).current == 0,
            final(self).query == old(self).query,
            final(self).replacement == old(self).replacement,
            final(self).visible == old(self).visible,
    {
        self.matches = Vec::new();
        self.current = 0;
        if self.query.as_str().is_empty() {
            assert(positions_view(self.matches@) =~= Seq::<(int, int)>::empty());
            return;
        }
        assert(self.query@.len() > 0);
        let ql = crate::text::to_lowercase_string(self.query.as_str());
        let tl = crate::text::to_lowercase_string(text);
        let q = chars_of(ql.as_str());
        let t = chars_of(tl.as_str());
        let ghost full = matches_from(t@, q@, 0, 0, 0);
        let mut out: Vec<(usize, usize)> = Vec::new();
        let mut line: usize = 0;
        let mut col: usize = 0;
        let mut k: usize = 0;
        assert(positions_view(out@) + full =~= full);
        while k < t.len()
            invariant
                k <= t@.len(),
                line <= k,
                col <= k,
                positions_view(out@) + matches_from(t@, q@, k as int, line as int, col as int)
                    == full,
            decreases t@.len() - k,
        {
            let ghost before = out@;
            if t[k] == '\n' {
                line += 1;
                col = 0;
            } else {
                if prefix_at(t.as_slice(), k, q.as_slice()) {
                    out.push((line, col));
                    assert(positions_view(out@) =~= positions_view(before).push(
                        (line as int, col as int),
                    ));
                    assert(positions_view(out@) + matches_from(
                        t@,
                        q@,
                        k + 1,
                        line as int,
                        col + 1,
                    ) =~= positions_view(before) + (seq![(line as int, col as int)] + matches_from(
                        t@,
                        q@,
                        k + 1,
                        line as int,
                        col + 1,
                    )));
                }
                col += 1;
            }
            k += 1;
        }
        self.matches = out;
        assert(positions_view(self.matches@) =~= full);
    }

    /// The match to show: the current one, or the last when the index ran
    /// past the end; none without matches.
    pub fn current_match(&self) -> (r: Option<(usize, usize)>)
        ensures
            match r {
                Some(p) => self.matches@.len() > 0 && p == self.matches@[if self.current
                    < self.matches@.len() {
                    self.current as int
                } else {
                    self.matches@.len() - 1
                }],
                None => self.matches@.len() == 0,
            },
    {
        if self.matches.len() == 0 {
            return None;
        }
        let idx = if self.current < self.matches.len() - 1 {
            self.current
        } else {
            self.matches.len() - 1
        };
        Some(self.matches[idx])
    }

    /// A hidden bar with no query and no match.
    pub fn new() -> (r: Self)
        ensures
            !r.visible,
            r.query@ == Seq::<char>::empty(),
            r.replacement@ == Seq::<char>::empty(),
            r.matches@ == Seq::<(usize, usize)>::empty(),
            r.current == 0,
    {
        FindState { visible: false, query: String::new(), replacement: String::new(), matches: Vec::new(), current: 0 }
    }
}

/// `cs` with every match of the lower-cased query `ql` replaced by `rep`,
/// left to right and without overlaps: a match is a window of `ql`'s length
/// whose lower-cased form is `ql`.
pub open spec fn replaced_all(cs: Seq<char>, ql: Seq<char>, rep: Seq<char>) -> Seq<char>
    decreases cs.len(),
{
    if cs.len() == 0 {
        Seq::empty()
    } else if 0 < ql.len() <= cs.len() && crate::text::lowercase(cs.take(ql.len() as int)) == ql {
        rep + replaced_all(cs.skip(ql.len() as int), ql, rep)
    } else {
        seq![cs[0]] + replaced_all(cs.drop_first(), ql, rep)
    }
}

/// The lines of `text` joined by `\n`, with the window of line `line` that
/// starts at column `col` and runs for `ql`'s length (or to the line's end)
/// replaced by `rep` when its lower-cased form is `ql`.
pub open spec fn replaced_one(text: Seq<char>, ql: Seq<char>, line: int, col: int, rep: Seq<char>) -> Seq<char> {
    let ls = lines(text);
    if 0 <= line < ls.len() && 0 <= col < ls[line].len() {
        let l = ls[line];
        let end = if col + ql.len() < l.len() {
            col + ql.len()
        } else {
            l.len() as int
        };
        if crate::text::lowercase(l.subrange(col, end)) == ql {
            join_lines(ls.update(line, l.take(col) + rep + l.skip(end)))
        } else {
            join_lines(ls)
        }
    } else {
        join_lines(ls)
    }
}

impl FindState {
    /// The text with every match of the query replaced by the replacement;
    /// none without a query or without matches.
    pub fn replace_all(&self, text: &str) -> (r: Option<String>)
        ensures
            match r {
                Some(t) => self.query@.len() > 0 && self.matches@.len() > 0 && t@ == replaced_all(
                    text@,
                    crate::text::lowercase(self.query@),
                    self.replacement@,
                ),
                None => self.query@.len() == 0 || self.matches@.len() == 0,
            },
    {
        if self.matches.len() == 0 || self.query.as_str().is_empty() {
            return None;
        }
        let ql_s = crate::text::to_lowercase_string(self.query.as_str());
        let ql = chars_of(ql_s.as_str());
        let rep = chars_of(self.replacement.as_str());
        let n = ql.len();
        let cs = chars_of(text);
        let ghost full = replaced_all(cs@, ql@, rep@);
        let mut out = String::new();
        let mut ci: usize = 0;
        assert(cs@.skip(0) =~= cs@);
        while ci < cs.len()
            invariant
                ci <= cs@.len(),
                n == ql@.len(),
                ql@ == ql_s@,
                out@ + replaced_all(cs@.skip(ci as int), ql@, rep@) == full,
            decreases cs@.len() - ci,
        {
            let ghost rest = cs@.skip(ci as int);
            let mut matched = false;
            if n > 0 && cs.len() - ci >= n {
                let w = sub_chars(cs.as_slice(), ci, ci + n);
                let ws = string_of(w.as_slice());
                let wl = crate::text::to_lowercase_string(ws.as_str());
                assert(w@ =~= rest.take(n as int));
                if str_equal(wl.as_str(), ql_s.as_str()) {
                    matched = true;
                    let ghost o = out@;
                    push_chars(&mut out, rep.as_slice());
                    assert(rest.skip(n as int) =~= cs@.skip(ci + n));
                    assert(o + replaced_all(rest, ql@, rep@) == o + (rep@ + replaced_all(
                        rest.skip(n as int),
                        ql@,
                        rep@,
                    )));
                    assert(o + (rep@ + replaced_all(cs@.skip(ci + n), ql@, rep@)) =~= out@
                        + replaced_all(cs@.skip(ci + n), ql@, rep@));
                    ci = ci + n;
                }
            }
            if !matched {
                let ghost o = out@;
                push_char(&mut out, cs[ci]);
                assert(rest.drop_first() =~= cs@.skip(ci + 1));
                assert(rest[0] == cs@[ci as int]);
                assert(o + (seq![rest[0]] + replaced_all(rest.drop_first(), ql@, rep@)) =~= out@
                    + replaced_all(cs@.skip(ci + 1), ql@, rep@));
                ci = ci + 1;
            }
        }
        assert(cs@.skip(cs@.len() as int) =~= Seq::<char>::empty());
        assert(out@ + Seq::<char>::empty() =~= out@);
        Some(out)
    }

    /// The text with the current match replaced by the replacement, its
    /// lines joined by `\n`; none without a query or without matches.
    pub fn replace_current(&self, text: &str) -> (r: Option<String>)
        requires
            self.matches@.len() > 0 ==> self.current < self.matches@.len(),
        ensures
            match r {
                Some(t) => self.query@.len() > 0 && self.matches@.len() > 0 && t@ == replaced_one(
                    text@,
                    crate::text::lowercase(self.query@),
                    self.matches@[self.current as int].0 as int,
                    self.matches@[self.current as int].1 as int,
                    self.replacement@,
                ),
                None => self.query@.len() == 0 || self.matches@.len() == 0,
            },
    {
        if self.matches.len() == 0 || self.query.as_str().is_empty() {
            return None;
        }
        let (ml, mc) = self.matches[self.current];
        let ql_s = crate::text::to_lowercase_string(self.query.as_str());
        let ql = chars_of(ql_s.as_str());
        let rep = chars_of(self.replacement.as_str());
        let n = ql.len();
        let cs = chars_of(text);
        let ls = lines_of(cs.as_slice());
        let ghost all = views(ls@);
        let mut changed: Option<Vec<char>> = None;
        if ml < ls.len() {
            let l = &ls[ml];
            if mc < l.len() {
                let end = if n < l.len() - mc {
                    mc + n
                } else {
                    l.len()
                };
                let w = sub_chars(l.as_slice(), mc, end);
                let ws = string_of(w.as_slice());
                let wl = crate::text::to_lowercase_string(ws.as_str());
                if str_equal(wl.as_str(), ql_s.as_str()) {
                    let mut nl = sub_chars(l.as_slice(), 0, mc);
                    let mut j: usize = 0;
                    while j < rep.len()
                        invariant
                            j <= rep@.len(),
                            nl@ == l@.take(mc as int) + rep@.take(j as int),
                        decreases rep@.len() - j,
                    {
                        nl.push(rep[j]);
                        assert(rep@.take(j + 1) =~= rep@.take(j as int).push(rep@[j as int]));
                        j += 1;
                    }
                    let mut j: usize = end;
                    assert(l@.subrange(end as int, end as int) =~= Seq::<char>::empty());
                    assert(rep@.take(rep@.len() as int) =~= rep@);
                    while j < l.len()
                        invariant
                            end <= j <= l@.len(),
                            nl@ == l@.take(mc as int) + rep@ + l@.subrange(end as int, j as int),
                        decreases l@.len() - j,
                    {
                        nl.push(l[j]);
                        assert(l@.subrange(end as int, j + 1) =~= l@.subrange(end as int, j as int).push(
                            l@[j as int],
                        ));
                        j += 1;
                    }
                    assert(l@.subrange(end as int, l@.len() as int) =~= l@.skip(end as int));
                    changed = Some(nl);
                }
            }
        }
        let ghost m = if changed is Some {
            all.update(ml as int, changed->0@)
        } else {
            all
        };
        let mut out = String::new();
        let mut i: usize = 0;
        assert(m.take(0) =~= Seq::<Seq<char>>::empty());
        while i < ls.len()
            invariant
                i <= ls@.len(),
                all == views(ls@),
                m.len() == all.len(),
                forall|k: int| 0 <= k < all.len() && k != ml ==> m[k] == all[k],
                changed is Some ==> ml < ls@.len() && m[ml as int] == changed->0@,
                changed is None ==> m == all,
                out@ == join_lines(m.take(i as int)),
            decreases ls@.len() - i,
        {
            let ghost before = m.take(i as int);
            assert(m.take(i + 1).drop_last() =~= before);
            if i > 0 {
                push_char(&mut out, '\n');
            }
            match &changed {
                Some(nl) => {
                    if i == ml {
                        push_chars(&mut out, nl.as_slice());
                    } else {
                        push_chars(&mut out, ls[i].as_slice());
                    }
                },
                None => {
                    push_chars(&mut out, ls[i].as_slice());
                },
            }
            proof {
                assert(m.take(i + 1).last() == m[i as int]);
                if i == 0 {
                    assert(out@ =~= join_lines(m.take(i + 1)));
                }
            }
            i += 1;
        }
        assert(m.take(ls@.len() as int) =~= m);
        Some(out)
    }
}

/// Where an inline result is shown: after a line of a text block.
#[derive(Debug, Clone)]
pub struct Anchor {
    pub block_id: u64,
    pub after_line: usize,
}

/// An inline evaluation result or error message.
#[derive(Debug, Clone)]
pub struct InlineResult {
    pub anchor: Anchor,
    pub text: String,
    pub is_error: bool,
}

// ---------------------------------------------------------------------------
// Auto-pairing
// ---------------------------------------------------------------------------

pub const PAREN: u8 = 1;
pub const BRACKET: u8 = 2;
pub const BRACE: u8 = 4;
pub const SINGLE: u8 = 8;
pub const DOUBLE: u8 = 16;
pub const BACKTICK: u8 = 32;
/// Every pair.
pub const ALL: u8 = 63;

/// Which delimiters are auto-paired, one bit each.
pub struct AutoPair {
    pub bits: u8,
}

impl AutoPair {
    /// The starting state: every pair on.
    pub fn new() -> (r: Self)
        ensures
            r.bits == ALL,
    {
        AutoPair { bits: ALL }
    }
}

/// Whether auto-pairing is on for `flag`.
pub fn enabled(state: &AutoPair, flag: u8) -> (r: bool)
    ensures
        r == (state.bits & flag != 0),
{
    state.bits & flag != 0
}

/// The current flags.
pub fn flags(state: &AutoPair) -> (r: u8)
    ensures
        r == state.bits,
{
    state.bits
}

/// Replaces the flags.
pub fn set_flags(state: &mut AutoPair, flags: u8)
    ensures
        final(state).bits == flags,
{
    state.bits = flags;
}

// ---------------------------------------------------------------------------
// Line helpers
// ---------------------------------------------------------------------------

/// Prefix of an inline result line.
pub const RESULT_PREFIX: &'static str = "→ ";
/// Prefix of an inline error line.
pub const ERROR_PREFIX: &'static str = "⚠ ";

/// A line showing an evaluation result or error: after leading white
/// space it starts with the result or error prefix.
pub open spec fn result_line(line: Seq<char>) -> bool {
    starts_with(trim_start(line), seq!['→', ' ']) || starts_with(trim_start(line), seq!['⚠', ' '])
}

/// Whether `line` shows an evaluation result or error.
pub fn is_result_line(line: &[char]) -> (r: bool)
    ensures
        r == result_line(line@),
{
    let i = trim_start_index(line);
    let t = sub_chars(line, i, line.len());
    assert(t@ =~= trim_start(line@));
    let ok = t.len() >= 2 && t[1] == ' ' && (t[0] == '→' || t[0] == '⚠');
    proof {
        if t@.len() >= 2 {
            assert(t@.subrange(0, 2) =~= seq![t@[0], t@[1]]);
        }
    }
    ok
}

/// The lines of `ls` that are not result lines.
pub open spec fn kept_lines(ls: Seq<Seq<char>>) -> Seq<Seq<char>>
    decreases ls.len(),
{
    if ls.len() == 0 {
        Seq::empty()
    } else if result_line(ls.last()) {
        kept_lines(ls.drop_last())
    } else {
        kept_lines(ls.drop_last()).push(ls.last())
    }
}

/// The lines joined with `\n` between them.
pub open spec fn join_lines(ls: Seq<Seq<char>>) -> Seq<char>
    decreases ls.len(),
{
    if ls.len() == 0 {
        Seq::empty()
    } else if ls.len() == 1 {
        ls[0]
    } else {
        join_lines(ls.drop_last()) + seq!['\n'] + ls.last()
    }
}

/// `text` without its result lines; a final newline is kept.
pub open spec fn without_results(text: Seq<char>) -> Seq<char> {
    let j = join_lines(kept_lines(lines(text)));
    if text.len() > 0 && text.last() == '\n' {
        j.push('\n')
    } else {
        j
    }
}

/// Removes the inline result and error lines from `text`.
pub fn strip_result_lines(text: &str) -> (r: String)
    ensures
        r@ == without_results(text@),
{
    let cs = chars_of(text);
    let ls = lines_of(cs.as_slice());
    let ghost all = views(ls@);
    let mut out = String::new();
    let mut kept: usize = 0;
    let mut i: usize = 0;
    while i < ls.len()
        invariant
            i <= ls@.len(),
            all == views(ls@),
            kept == kept_lines(all.take(i as int)).len(),
            out@ == join_lines(kept_lines(all.take(i as int))),
        decreases ls@.len() - i,
    {
        assert(all.take(i + 1).drop_last() =~= all.take(i as int));
        assert(all.take(i + 1).last() == ls@[i as int]@);
        if !is_result_line(ls[i].as_slice()) {
            let ghost k0 = kept_lines(all.take(i as int));
            if kept > 0 {
                push_char(&mut out, '\n');
            }
            push_chars(&mut out, ls[i].as_slice());
            proof {
                let k1 = k0.push(ls@[i as int]@);
                assert(k1.drop_last() =~= k0);
                if k0.len() == 0 {
                    assert(out@ =~= join_lines(k1));
                }
            }
            if kept < usize::MAX {
                kept += 1;
            }
            proof {
                lemma_kept_len(all.take(i + 1));
            }
        }
        i += 1;
    }
    assert(all.take(ls@.len() as int) =~= all);
    if cs.len() > 0 && cs[cs.len() - 1] == '\n' {
        push_char(&mut out, '\n');
    }
    out
}

/// A line with its `> ` quote marker removed, or added when missing.
pub open spec fn quote_toggled(line: Seq<char>) -> Seq<char> {
    if starts_with(line, seq!['>', ' ']) {
        line.skip(2)
    } else {
        seq!['>', ' '] + line
    }
}

/// The text with the quote marker of line `line` toggled (the last line
/// when `line` is past it), its lines joined by line breaks; none for a
/// text without lines.
pub open spec fn blockquote_toggled(text: Seq<char>, line: int) -> Option<Seq<char>> {
    let ls = lines(text);
    if ls.len() == 0 {
        None
    } else {
        let k = if line < ls.len() - 1 {
            line
        } else {
            ls.len() - 1
        };
        Some(join_lines(ls.update(k, quote_toggled(ls[k]))))
    }
}

/// Toggles the `> ` blockquote marker of line `line` of `text`.
pub fn toggle_blockquote(text: &str, line: usize) -> (r: Option<String>)
    ensures
        match r {
            Some(t) => blockquote_toggled(text@, line as int) == Some(t@),
            None => blockquote_toggled(text@, line as int) is None,
        },
{
    let cs = chars_of(text);
    let ls = lines_of(cs.as_slice());
    let ghost all = views(ls@);
    if ls.len() == 0 {
        return None;
    }
    let k = if line < ls.len() - 1 {
        line
    } else {
        ls.len() - 1
    };
    let cur = &ls[k];
    let toggled: Vec<char> = if has_prefix_str(cur.as_slice(), "> ") {
        proof {
            reveal_strlit("> ");
            assert("> "@ =~= seq!['>', ' ']);
        }
        let t = sub_chars(cur.as_slice(), 2, cur.len());
        assert(t@ =~= cur@.skip(2));
        t
    } else {
        proof {
            reveal_strlit("> ");
            assert("> "@ =~= seq!['>', ' ']);
        }
        let mut t: Vec<char> = Vec::new();
        t.push('>');
        t.push(' ');
        let mut j: usize = 0;
        while j < cur.len()
            invariant
                j <= cur@.len(),
                t@ == seq!['>', ' '] + cur@.take(j as int),
            decreases cur@.len() - j,
        {
            t.push(cur[j]);
            assert(cur@.take(j + 1) =~= cur@.take(j as int).push(cur@[j as int]));
            j += 1;
        }
        assert(cur@.take(cur@.len() as int) =~= cur@);
        t
    };
    let ghost m = all.update(k as int, quote_toggled(all[k as int]));
    assert(toggled@ == quote_toggled(all[k as int]));
    let mut out = String::new();
    let mut i: usize = 0;
    assert(m.take(0) =~= Seq::<Seq<char>>::empty());
    while i < ls.len()
        invariant
            i <= ls@.len(),
            k < ls@.len(),
            all == views(ls@),
            m == all.update(k as int, quote_toggled(all[k as int])),
            toggled@ == quote_toggled(all[k as int]),
            out@ == join_lines(m.take(i as int)),
        decreases ls@.len() - i,
    {
        let ghost before = m.take(i as int);
        assert(m.take(i + 1).drop_last() =~= before);
        if i > 0 {
            push_char(&mut out, '\n');
        }
        if i == k {
            push_chars(&mut out, toggled.as_slice());
        } else {
            push_chars(&mut out, ls[i].as_slice());
        }
        proof {
            assert(m.take(i + 1).last() == m[i as int]);
            if i == 0 {
                assert(out@ =~= join_lines(m.take(i + 1)));
            }
        }
        i += 1;
    }
    assert(m.take(ls@.len() as int) =~= m);
    Some(out)
}

proof fn lemma_kept_len(ls: Seq<Seq<char>>)
    ensures
        kept_lines(ls).len() <= ls.len(),
    decreases ls.len(),
{
    if ls.len() > 0 {
        lemma_kept_len(ls.drop_last());
    }
}

/// Number of `c` at the start of `s`.
pub open spec fn leading_count(s: Seq<char>, c: char) -> nat
    decreases s.len(),
{
    if s.len() > 0 && s[0] == c {
        1 + leading_count(s.drop_first(), c)
    } else {
        0
    }
}

/// Number of `c` at the end of `s`.
pub open spec fn trailing_count(s: Seq<char>, c: char) -> nat
    decreases s.len(),
{
    if s.len() > 0 && s.last() == c {
        1 + trailing_count(s.drop_last(), c)
    } else {
        0
    }
}

/// Counts the consecutive leading occurrences of `c` in `s`.
pub fn count_leading_char(s: &str, c: char) -> (r: usize)
    ensures
        r == leading_count(s@, c),
{
    let cs = chars_of(s);
    let mut i: usize = 0;
    assert(cs@.skip(0) =~= cs@);
    while i < cs.len() && cs[i] == c
        invariant
            i <= cs@.len(),
            leading_count(cs@, c) == i + leading_count(cs@.skip(i as int), c),
        decreases cs@.len() - i,
    {
        assert(cs@.skip(i as int).drop_first() =~= cs@.skip(i + 1));
        assert(cs@.skip(i as int)[0] == cs@[i as int]);
        i += 1;
    }
    if i < cs.len() {
        assert(cs@.skip(i as int)[0] == cs@[i as int]);
    }
    i
}

/// Counts the consecutive trailing occurrences of `c` in `s`.
pub fn count_trailing_char(s: &str, c: char) -> (r: usize)
    ensures
        r == trailing_count(s@, c),
{
    let cs = chars_of(s);
    let mut j: usize = cs.len();
    assert(cs@.take(j as int) =~= cs@);
    while j > 0 && cs[j - 1] == c
        invariant
            j <= cs@.len(),
            trailing_count(cs@, c) == (cs@.len() - j) + trailing_count(cs@.take(j as int), c),
        decreases j,
    {
        assert(cs@.take(j as int).drop_last() =~= cs@.take(j - 1));
        assert(cs@.take(j as int).last() == cs@[j - 1]);
        j -= 1;
    }
    if j > 0 {
        assert(cs@.take(j as int).last() == cs@[j - 1]);
    }
    cs.len() - j
}

/// The closer that `c` expects, if it opens a bracket.
pub open spec fn closer_of(c: char) -> Option<char> {
    if c == '(' {
        Some(')')
    } else if c == '[' {
        Some(']')
    } else if c == '{' {
        Some('}')
    } else {
        None
    }
}

/// Stack of expected closers after reading `s`: an opener pushes its
/// closer, a closer pops a matching top and is otherwise ignored.
pub open spec fn closer_stack(s: Seq<char>) -> Seq<char>
    decreases s.len(),
{
    if s.len() == 0 {
        Seq::empty()
    } else {
        let st = closer_stack(s.drop_last());
        let c = s.last();
        match closer_of(c) {
            Some(k) => st.push(k),
            None => if (c == ')' || c == ']' || c == '}') && st.len() > 0 && st.last() == c {
                st.drop_last()
            } else {
                st
            },
        }
    }
}

/// The closer of the innermost bracket left open in `text`.
pub fn innermost_unclosed_delim(text: &str) -> (r: Option<char>)
    ensures
        r == (if closer_stack(text@).len() > 0 { Some(closer_stack(text@).last()) } else { None::<char> }),
{
    let cs = chars_of(text);
    let mut stack: Vec<char> = Vec::new();
    let mut i: usize = 0;
    while i < cs.len()
        invariant
            i <= cs@.len(),
            stack@ == closer_stack(cs@.take(i as int)),
        decreases cs@.len() - i,
    {
        assert(cs@.take(i + 1).drop_last() =~= cs@.take(i as int));
        assert(cs@.take(i + 1).last() == cs@[i as int]);
        let c = cs[i];
        if c == '(' {
            stack.push(')');
        } else if c == '[' {
            stack.push(']');
        } else if c == '{' {
            stack.push('}');
        } else if c == ')' || c == ']' || c == '}' {
            if stack.len() > 0 && stack[stack.len() - 1] == c {
                let ghost before = stack@;
                stack.pop();
                assert(stack@ =~= before.drop_last());
            }
        }
        i += 1;
    }
    assert(cs@.take(cs@.len() as int) =~= cs@);
    if stack.len() > 0 {
        Some(stack[stack.len() - 1])
    } else {
        None
    }
}

/// Every character of `s` is an identifier character.
pub open spec fn all_word_chars(s: Seq<char>) -> bool {
    forall|k: int| 0 <= k < s.len() ==> is_word_char(#[trigger] s[k])
}

/// The name bound by `let NAME = ...` or `let NAME: TYPE = ...` (not
/// `let NAME == ...`), when it is a non-empty identifier.
pub open spec fn let_binding_name(line: Seq<char>) -> Option<Seq<char>> {
    if !starts_with(line, seq!['l', 'e', 't', ' ']) {
        None
    } else {
        let rest = line.skip(4);
        match find_char(rest, '=') {
            None => None,
            Some(eq) => if eq + 1 < rest.len() && rest[eq + 1] == '=' {
                None
            } else {
                let name_part = trim(rest.take(eq));
                let name = match find_char(name_part, ':') {
                    Some(colon) => trim(name_part.take(colon)),
                    None => name_part,
                };
                if name.len() > 0 && all_word_chars(name) {
                    Some(name)
                } else {
                    None
                }
            },
        }
    }
}

/// The name a `let` line binds.
pub fn parse_let_binding(line: &str) -> (r: Option<String>)
    ensures
        match r {
            Some(n) => let_binding_name(line@) == Some(n@),
            None => let_binding_name(line@) is None,
        },
{
    let cs = chars_of(line);
    let kw: [char; 4] = ['l', 'e', 't', ' '];
    assert(kw@ =~= seq!['l', 'e', 't', ' ']);
    if !crate::text::has_prefix(cs.as_slice(), kw.as_slice()) {
        return None;
    }
    let rest = sub_chars(cs.as_slice(), 4, cs.len());
    assert(rest@ =~= cs@.skip(4));
    let eq = match find_char_in(rest.as_slice(), '=') {
        Some(e) => e,
        None => return None,
    };
    proof {
        crate::text::lemma_find_char_bounds(rest@, '=');
    }
    if eq + 1 < rest.len() && rest[eq + 1] == '=' {
        return None;
    }
    let head = sub_chars(rest.as_slice(), 0, eq);
    assert(head@ =~= rest@.take(eq as int));
    let name_part = trim_chars(head.as_slice());
    let name = match find_char_in(name_part.as_slice(), ':') {
        Some(colon) => {
            proof {
                crate::text::lemma_find_char_bounds(name_part@, ':');
            }
            let before = sub_chars(name_part.as_slice(), 0, colon);
            assert(before@ =~= name_part@.take(colon as int));
            trim_chars(before.as_slice())
        },
        None => name_part,
    };
    proof {
        let rest_s = line@.skip(4);
        assert(rest_s == rest@);
        assert(find_char(rest_s, '=') == Some(eq as int));
        let np = trim(rest_s.take(eq as int));
        assert(np == name_part@);
        let nm = match find_char(np, ':') {
            Some(colon) => trim(np.take(colon)),
            None => np,
        };
        assert(nm == name@);
        assert(starts_with(line@, seq!['l', 'e', 't', ' ']));
        assert(!(eq + 1 < rest_s.len() && rest_s[eq + 1] == '='));
    }
    if name.len() == 0 {
        return None;
    }
    assert(let_binding_name(line@) == if all_word_chars(name@) {
        Some(name@)
    } else {
        None
    });
    let mut k: usize = 0;
    while k < name.len()
        invariant
            k <= name@.len(),
            let_binding_name(line@) == if all_word_chars(name@) {
                Some(name@)
            } else {
                None
            },
            forall|j: int| 0 <= j < k ==> is_word_char(#[trigger] name@[j]),
        decreases name@.len() - k,
    {
        if !char_is_word(name[k]) {
            assert(!is_word_char(name@[k as int]));
            return None;
        }
        k += 1;
    }
    Some(string_of(name.as_slice()))
}

/// The highlighting language of a file extension.
pub open spec fn ext_lang(ext: Seq<char>) -> Option<Seq<char>> {
    if ext == "rs"@ {
        Some("rust"@)
    } else if ext == "c"@ {
        Some("c"@)
    } else if ext == "h"@ {
        Some("c"@)
    } else if ext == "cpp"@ {
        Some("cpp"@)
    } else if ext == "cc"@ {
        Some("cpp"@)
    } else if ext == "cxx"@ {
        Some("cpp"@)
    } else if ext == "hpp"@ {
        Some("cpp"@)
    } else if ext == "hxx"@ {
        Some("cpp"@)
    } else if ext == "js"@ {
        Some("javascript"@)
    } else if ext == "mjs"@ {
        Some("javascript"@)
    } else if ext == "cjs"@ {
        Some("javascript"@)
    } else if ext == "jsx"@ {
        Some("jsx"@)
    } else if ext == "ts"@ {
        Some("typescript"@)
    } else if ext == "mts"@ {
        Some("typescript"@)
    } else if ext == "cts"@ {
        Some("typescript"@)
    } else if ext == "tsx"@ {
        Some("tsx"@)
    } else if ext == "py"@ {
        Some("python"@)
    } else if ext == "go"@ {
        Some("go"@)
    } else if ext == "rb"@ {
        Some("ruby"@)
    } else if ext == "sh"@ {
        Some("bash"@)
    } else if ext == "bash"@ {
        Some("bash"@)
    } else if ext == "zsh"@ {
        Some("bash"@)
    } else if ext == "java"@ {
        Some("java"@)
    } else if ext == "html"@ {
        Some("html"@)
    } else if ext == "htm"@ {
        Some("html"@)
    } else if ext == "css"@ {
        Some("css"@)
    } else if ext == "scss"@ {
        Some("scss"@)
    } else if ext == "less"@ {
        Some("less"@)
    } else if ext == "json"@ {
        Some("json"@)
    } else if ext == "lua"@ {
        Some("lua"@)
    } else if ext == "php"@ {
        Some("php"@)
    } else if ext == "toml"@ {
        Some("toml"@)
    } else if ext == "yaml"@ {
        Some("yaml"@)
    } else if ext == "yml"@ {
        Some("yaml"@)
    } else if ext == "swift"@ {
        Some("swift"@)
    } else if ext == "zig"@ {
        Some("zig"@)
    } else if ext == "sql"@ {
        Some("sql"@)
    } else if ext == "mk"@ {
        Some("make"@)
    } else if ext == "cord"@ {
        Some("rust"@)
    } else if ext == "cordial"@ {
        Some("rust"@)
    } else {
        None
    }
}

/// The highlighting language of a file extension, if known.
pub fn lang_from_extension(ext: &str) -> (r: Option<String>)
    ensures
        match r {
            Some(l) => ext_lang(ext@) == Some(l@),
            None => ext_lang(ext@) is None,
        },
{
    let lang = if str_equal(ext, "rs") {
        "rust"
    } else if str_equal(ext, "c") {
        "c"
    } else if str_equal(ext, "h") {
        "c"
    } else if str_equal(ext, "cpp") {
        "cpp"
    } else if str_equal(ext, "cc") {
        "cpp"
    } else if str_equal(ext, "cxx") {
        "cpp"
    } else if str_equal(ext, "hpp") {
        "cpp"
    } else if str_equal(ext, "hxx") {
        "cpp"
    } else if str_equal(ext, "js") {
        "javascript"
    } else if str_equal(ext, "mjs") {
        "javascript"
    } else if str_equal(ext, "cjs") {
        "javascript"
    } else if str_equal(ext, "jsx") {
        "jsx"
    } else if str_equal(ext, "ts") {
        "typescript"
    } else if str_equal(ext, "mts") {
        "typescript"
    } else if str_equal(ext, "cts") {
        "typescript"
    } else if str_equal(ext, "tsx") {
        "tsx"
    } else if str_equal(ext, "py") {
        "python"
    } else if str_equal(ext, "go") {
        "go"
    } else if str_equal(ext, "rb") {
        "ruby"
    } else if str_equal(ext, "sh") {
        "bash"
    } else if str_equal(ext, "bash") {
        "bash"
    } else if str_equal(ext, "zsh") {
        "bash"
    } else if str_equal(ext, "java") {
        "java"
    } else if str_equal(ext, "html") {
        "html"
    } else if str_equal(ext, "htm") {
        "html"
    } else if str_equal(ext, "css") {
        "css"
    } else if str_equal(ext, "scss") {
        "scss"
    } else if str_equal(ext, "less") {
        "less"
    } else if str_equal(ext, "json") {
        "json"
    } else if str_equal(ext, "lua") {
        "lua"
    } else if str_equal(ext, "php") {
        "php"
    } else if str_equal(ext, "toml") {
        "toml"
    } else if str_equal(ext, "yaml") {
        "yaml"
    } else if str_equal(ext, "yml") {
        "yaml"
    } else if str_equal(ext, "swift") {
        "swift"
    } else if str_equal(ext, "zig") {
        "zig"
    } else if str_equal(ext, "sql") {
        "sql"
    } else if str_equal(ext, "mk") {
        "make"
    } else if str_equal(ext, "cord") {
        "rust"
    } else if str_equal(ext, "cordial") {
        "rust"
    } else {
        return None;
    };
    Some(string_from(lang))
}

/// The white space at the start of `line`.
pub fn leading_whitespace(line: &str) -> (r: String)
    ensures
        r@ + trim_start(line@) == line@,
        forall|k: int| 0 <= k < r@.len() ==> crate::text::is_white_space(#[trigger] r@[k]),
{
    let cs = chars_of(line);
    let i = trim_start_index(cs.as_slice());
    let w = sub_chars(cs.as_slice(), 0, i);
    assert(w@ + cs@.skip(i as int) =~= cs@);
    string_of(w.as_slice())
}

/// Byte offset of the closing bracket that ends the scope open at `pos`:
/// brackets opened after `pos` must close first.
pub open spec fn closing_after(b: Seq<u8>, i: int, depth: nat) -> Option<int>
    decreases b.len() - i,
{
    if i < 0 || i >= b.len() {
        None
    } else if b[i] == 40u8 || b[i] == 91u8 || b[i] == 123u8 {
        closing_after(b, i + 1, depth + 1)
    } else if b[i] == 41u8 || b[i] == 93u8 || b[i] == 125u8 {
        if depth == 0 {
            Some(i)
        } else {
            closing_after(b, i + 1, (depth - 1) as nat)
        }
    } else {
        closing_after(b, i + 1, depth)
    }
}

/// Returns the byte offset of the next outer scope's closing delimiter.
pub fn next_closing_delim_after(text: &str, pos: usize) -> (r: Option<usize>)
    ensures
        match r {
            Some(i) => closing_after(text.spec_bytes(), pos as int, 0) == Some(i as int),
            None => closing_after(text.spec_bytes(), pos as int, 0) is None,
        },
{
    let bytes = text.as_bytes();
    let mut depth: usize = 0;
    let mut i = pos;
    while i < bytes.len()
        invariant
            bytes@ == text.spec_bytes(),
            pos <= i || i >= bytes@.len(),
            depth <= i,
            closing_after(bytes@, pos as int, 0) == closing_after(bytes@, i as int, depth as nat),
        decreases bytes@.len() - i,
    {
        let b = bytes[i];
        if b == 40u8 || b == 91u8 || b == 123u8 {
            depth += 1;
        } else if b == 41u8 || b == 93u8 || b == 125u8 {
            if depth == 0 {
                return Some(i);
            }
            depth -= 1;
        }
        i += 1;
    }
    None
}

/// Alt text and source of a markdown image line `![alt](src)` (after
/// leading white space); the source is trimmed and must not be empty.
pub open spec fn image_ref(line: Seq<char>) -> Option<(Seq<char>, Seq<char>)> {
    let t = trim_start(line);
    if !starts_with(t, seq!['!', '[']) {
        None
    } else {
        let after = t.skip(2);
        match find_char(after, ']') {
            None => None,
            Some(cb) => {
                let alt = after.take(cb);
                let rest = after.skip(cb + 1);
                if !(rest.len() > 0 && rest[0] == '(') {
                    None
                } else {
                    match find_char(rest, ')') {
                        None => None,
                        Some(cp) => {
                            let src = trim(rest.subrange(1, cp));
                            if src.len() == 0 {
                                None
                            } else {
                                Some((alt, src))
                            }
                        },
                    }
                }
            },
        }
    }
}

/// Parses a markdown image reference `![alt](src)` from a line.
pub fn parse_image_ref(line: &str) -> (r: Option<(String, String)>)
    ensures
        match r {
            Some((a, s)) => image_ref(line@) == Some((a@, s@)),
            None => image_ref(line@) is None,
        },
{
    let cs = chars_of(line);
    let i = trim_start_index(cs.as_slice());
    let t = sub_chars(cs.as_slice(), i, cs.len());
    assert(t@ =~= trim_start(line@));
    if !has_prefix_str(t.as_slice(), "![") {
        proof {
            reveal_strlit("![");
            assert("!["@ =~= seq!['!', '[']);
        }
        return None;
    }
    proof {
        reveal_strlit("![");
        assert("!["@ =~= seq!['!', '[']);
    }
    let after = sub_chars(t.as_slice(), 2, t.len());
    assert(after@ =~= t@.skip(2));
    let cb = match find_char_in(after.as_slice(), ']') {
        Some(c) => c,
        None => return None,
    };
    proof {
        crate::text::lemma_find_char_bounds(after@, ']');
    }
    let alt = sub_chars(after.as_slice(), 0, cb);
    assert(alt@ =~= after@.take(cb as int));
    let rest = sub_chars(after.as_slice(), cb + 1, after.len());
    assert(rest@ =~= after@.skip(cb + 1));
    if !(rest.len() > 0 && rest[0] == '(') {
        return None;
    }
    let cp = match find_char_in(rest.as_slice(), ')') {
        Some(c) => c,
        None => return None,
    };
    proof {
        crate::text::lemma_find_char_bounds(rest@, ')');
    }
    let inner = sub_chars(rest.as_slice(), 1, cp);
    let src = trim_chars(inner.as_slice());
    if src.len() == 0 {
        return None;
    }
    Some((string_of(alt.as_slice()), string_of(src.as_slice())))
}

/// Whether `p` occurs in `s`.
pub open spec fn contains_seq(s: Seq<char>, p: Seq<char>) -> bool {
    crate::browser::find_sub_from(s, p, 0) is Some
}

/// Whether `p` occurs in `s`.
pub fn contains_chars(s: &[char], p: &[char]) -> (r: bool)
    ensures
        r == contains_seq(s@, p@),
{
    let m = p.len();
    let mut k: usize = 0;
    while k <= s.len() && s.len() - k >= m
        invariant
            m == p@.len(),
            crate::browser::find_sub_from(s@, p@, 0) == crate::browser::find_sub_from(s@, p@, k as int),
        decreases s@.len() + 1 - k,
    {
        let piece = sub_chars(s, k, k + m);
        if crate::text::chars_equal(piece.as_slice(), p) {
            return true;
        }
        if k == s.len() {
            return false;
        }
        k += 1;
    }
    false
}

/// The words that suggest Cordial or Rust source.
pub open spec fn code_keyword(i: int) -> Seq<char> {
    if i == 0 {
        "fn "@
    } else if i == 1 {
        "let "@
    } else if i == 2 {
        "if "@
    } else if i == 3 {
        "else "@
    } else if i == 4 {
        "while "@
    } else if i == 5 {
        "for "@
    } else {
        "/="@
    }
}

/// Keyword `kw` starts the trimmed line `t` or follows a space in it.
pub open spec fn keyword_hit(t: Seq<char>, kw: Seq<char>) -> bool {
    starts_with(t, kw) || contains_seq(t, seq![' '] + kw)
}

/// Number of the first `n` keywords that hit line `t`.
pub open spec fn line_hits(t: Seq<char>, n: int) -> nat
    decreases n,
{
    if n <= 0 {
        0
    } else {
        line_hits(t, n - 1) + if keyword_hit(t, code_keyword(n - 1)) { 1nat } else { 0nat }
    }
}

/// Keyword hits in the first `n` lines (each trimmed).
pub open spec fn hits_upto(ls: Seq<Seq<char>>, n: int) -> nat
    decreases n,
{
    if n <= 0 {
        0
    } else {
        hits_upto(ls, n - 1) + line_hits(trim(ls[n - 1]), 7)
    }
}

proof fn lemma_hits_mono(ls: Seq<Seq<char>>, a: int, b: int)
    requires
        0 <= a <= b,
    ensures
        hits_upto(ls, a) <= hits_upto(ls, b),
    decreases b - a,
{
    if a < b {
        lemma_hits_mono(ls, a, b - 1);
    }
}

proof fn lemma_line_hits_le(t: Seq<char>, n: int)
    requires
        0 <= n,
    ensures
        line_hits(t, n) <= n,
    decreases n,
{
    if n > 0 {
        lemma_line_hits_le(t, n - 1);
    }
}

/// Source looks like code when its first 50 lines hold at least two
/// keyword hits.
pub open spec fn looks_like_code(text: Seq<char>) -> bool {
    let ls = lines(text);
    hits_upto(ls, if ls.len() < 50 { ls.len() as int } else { 50 }) >= 2
}

/// `rust` when the text looks like Cordial or Rust source.
pub fn detect_lang_from_content(text: &str) -> (r: Option<String>)
    ensures
        match r {
            Some(l) => looks_like_code(text@) && l@ == "rust"@,
            None => !looks_like_code(text@),
        },
{
    let cs = chars_of(text);
    let ls = lines_of(cs.as_slice());
    let ghost all = views(ls@);
    let n: usize = if ls.len() < 50 { ls.len() } else { 50 };
    let kws: [&str; 7] = ["fn ", "let ", "if ", "else ", "while ", "for ", "/="];
    let mut hits: usize = 0;
    let mut i: usize = 0;
    while i < n
        invariant
            i <= n <= ls@.len(),
            n == if ls@.len() < 50 { ls@.len() } else { 50 },
            all == views(ls@),
            all == lines(text@),
            kws@ == seq!["fn ", "let ", "if ", "else ", "while ", "for ", "/="],
            hits == hits_upto(all, i as int),
            hits < 2,
            hits <= 7 * i,
        decreases n - i,
    {
        assert(all[i as int] == ls@[i as int]@);
        let t = trim_chars(ls[i].as_slice());
        let mut k: usize = 0;
        let mut line: usize = 0;
        while k < 7
            invariant
                k <= 7,
                kws@ == seq!["fn ", "let ", "if ", "else ", "while ", "for ", "/="],
                line == line_hits(t@, k as int),
                line <= k,
            decreases 7 - k,
        {
            let kw = chars_of(kws[k]);
            assert(kws@[k as int]@ == code_keyword(k as int));
            let mut spaced: Vec<char> = Vec::new();
            spaced.push(' ');
            let mut j: usize = 0;
            while j < kw.len()
                invariant
                    j <= kw@.len(),
                    spaced@ == seq![' '] + kw@.take(j as int),
                decreases kw@.len() - j,
            {
                spaced.push(kw[j]);
                assert(kw@.take(j + 1) =~= kw@.take(j as int).push(kw@[j as int]));
                j += 1;
            }
            assert(kw@.take(kw@.len() as int) =~= kw@);
            if crate::text::has_prefix(t.as_slice(), kw.as_slice()) || contains_chars(t.as_slice(), spaced.as_slice()) {
                line += 1;
            }
            k += 1;
        }
        hits += line;
        i += 1;
        if hits >= 2 {
            proof {
                lemma_hits_mono(all, i as int, n as int);
            }
            return Some(string_from("rust"));
        }
    }
    None
}

} // verus!
