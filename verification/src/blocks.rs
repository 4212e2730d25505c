//! Splitting a markdown document into blocks: text runs, horizontal
//! rules, headings (levels 1 to 4) and pipe tables; and the heading and HR
//! blocks themselves.
use vstd::prelude::*;
use crate::text::{
    lines, trim, trim_start, chars_of, lines_of, views, string_views, trim_chars, string_of,
    trim_start_index, find_char, find_char_from, sub_chars, lemma_find_char_bounds, push_char,
    push_chars, string_from,
};
use crate::module::BlockId;

verus! {

// ---------------------------------------------------------------------------
// Heading and HR blocks
// ---------------------------------------------------------------------------

/// Level of a heading block.
#[derive(Debug, Clone, Copy, PartialEq, Eq, Structural)]
pub enum HeadingLevel {
    H1,
    H2,
    H3,
    H4,
}

/// The number of a heading level (1 to 4).
pub open spec fn level_number(l: HeadingLevel) -> u8 {
    match l {
        HeadingLevel::H1 => 1,
        HeadingLevel::H2 => 2,
        HeadingLevel::H3 => 3,
        HeadingLevel::H4 => 4,
    }
}

/// The level with number `n`; any number other than 1, 2, 3 is level 4.
pub open spec fn level_of(n: u8) -> HeadingLevel {
    if n == 1 {
        HeadingLevel::H1
    } else if n == 2 {
        HeadingLevel::H2
    } else if n == 3 {
        HeadingLevel::H3
    } else {
        HeadingLevel::H4
    }
}

impl HeadingLevel {
    /// The level's number, 1 to 4.
    pub fn as_u8(&self) -> (r: u8)
        ensures
            r == level_number(*self),
            1 <= r <= 4,
    {
        match self {
            HeadingLevel::H1 => 1,
            HeadingLevel::H2 => 2,
            HeadingLevel::H3 => 3,
            HeadingLevel::H4 => 4,
        }
    }

    /// The level numbered `level`; numbers outside 1..=3 give H4.
    pub fn from_u8(level: u8) -> (r: HeadingLevel)
        ensures
            r == level_of(level),
    {
        match level {
            1 => HeadingLevel::H1,
            2 => HeadingLevel::H2,
            3 => HeadingLevel::H3,
            _ => HeadingLevel::H4,
        }
    }
}

/// A level survives the trip through its number, and a number from 1 to 4
/// survives the trip through its level.
pub proof fn lemma_heading_level_roundtrip(l: HeadingLevel, n: u8)
    ensures
        level_of(level_number(l)) == l,
        1 <= n <= 4 ==> level_number(level_of(n)) == n,
{
}

/// A heading block.
pub struct HeadingBlock {
    pub id: BlockId,
    pub level: HeadingLevel,
    pub text: String,
    pub start_line: usize,
}

/// `n` copies of `c`.
pub open spec fn repeat_char(c: char, n: nat) -> Seq<char> {
    Seq::new(n, |i: int| c)
}

impl HeadingBlock {
    pub fn new(id: BlockId, level: HeadingLevel, text: String, start_line: usize) -> (r: Self)
        ensures
            r.id == id,
            r.level == level,
            r.text == text,
            r.start_line == start_line,
    {
        HeadingBlock { id, level, text, start_line }
    }

    /// Kind tag of heading blocks.
    pub fn kind_tag(&self) -> (r: &'static str)
        ensures
            r@ == "heading"@,
    {
        "heading"
    }

    /// A heading spans one line.
    pub fn line_count(&self) -> (r: usize)
        ensures
            r == 1,
    {
        1
    }

    /// Markdown for the heading: one `#` per level, a space, the text.
    pub fn to_md(&self) -> (r: String)
        ensures
            r@ == repeat_char('#', level_number(self.level) as nat) + seq![' '] + self.text@,
    {
        let n = self.level.as_u8();
        let mut s = String::new();
        let mut i: u8 = 0;
        while i < n
            invariant
                i <= n,
                n == level_number(self.level),
                s@ == repeat_char('#', i as nat),
            decreases n - i,
        {
            push_char(&mut s, '#');
            assert(s@ =~= repeat_char('#', (i + 1) as nat));
            i += 1;
        }
        push_char(&mut s, ' ');
        let t = chars_of(self.text.as_str());
        push_chars(&mut s, t.as_slice());
        s
    }

    /// Sets the level to the one numbered `level`.
    pub fn set_level(&mut self, level: u8)
        ensures
            final(self).level == level_of(level),
            final(self).id == old(self).id,
            final(self).text == old(self).text,
            final(self).start_line == old(self).start_line,
    {
        self.level = HeadingLevel::from_u8(level);
    }
}

/// A horizontal-rule block.
pub struct HrBlock {
    pub id: BlockId,
    pub start_line: usize,
}

impl HrBlock {
    pub fn new(id: BlockId, start_line: usize) -> (r: Self)
        ensures
            r.id == id,
            r.start_line == start_line,
    {
        HrBlock { id, start_line }
    }

    /// Kind tag of HR blocks.
    pub fn kind_tag(&self) -> (r: &'static str)
        ensures
            r@ == "hr"@,
    {
        "hr"
    }

    /// Markdown for a rule.
    pub fn to_md(&self) -> (r: String)
        ensures
            r@ == "---"@,
    {
        string_from("---")
    }
}

/// Drawing layers of the document compositor, back to front.
#[derive(Debug, Clone, Copy, PartialEq, Eq, PartialOrd, Ord, Hash)]
pub enum Layer {
    /// Behind block content: cursorline highlights, selection tints.
    Below,
    /// The block's body.
    Content,
    /// In front of content: selection borders, focus rings, result tags.
    Above,
    /// The very top: drag previews.
    Floating,
}

// ---------------------------------------------------------------------------
// Lines of a document
// ---------------------------------------------------------------------------

/// The document's lines, with a final empty line when the text ends in a
/// newline (which `str::lines` would drop).
pub open spec fn doc_lines(text: Seq<char>) -> Seq<Seq<char>> {
    if text.len() > 0 && text.last() == '\n' {
        lines(text).push(Seq::empty())
    } else {
        lines(text)
    }
}

/// The lines of `text`, keeping a trailing empty line.
pub fn split_lines(text: &str) -> (r: Vec<Vec<char>>)
    ensures
        views(r@) == doc_lines(text@),
{
    let cs = chars_of(text);
    let mut ls = lines_of(cs.as_slice());
    if cs.len() > 0 && cs[cs.len() - 1] == '\n' {
        let ghost before = ls@;
        ls.push(Vec::new());
        assert(views(ls@) =~= views(before).push(Seq::<char>::empty()));
    }
    ls
}

/// Line count of a document, counting a trailing empty line and at least 1.
pub fn line_count_with_trailing(text: &str) -> (r: usize)
    ensures
        r == if doc_lines(text@).len() == 0 { 1 } else { doc_lines(text@).len() },
{
    let ls = split_lines(text);
    if ls.len() == 0 {
        1
    } else {
        ls.len()
    }
}

// ---------------------------------------------------------------------------
// Line shapes
// ---------------------------------------------------------------------------

/// A rule line: at least three `-` and nothing else once trimmed.
pub open spec fn is_hr(line: Seq<char>) -> bool {
    let t = trim(line);
    t.len() >= 3 && forall|k: int| 0 <= k < t.len() ==> #[trigger] t[k] == '-'
}

/// Whether `line` is a horizontal rule.
pub fn is_hr_line(line: &[char]) -> (r: bool)
    ensures
        r == is_hr(line@),
{
    let t = trim_chars(line);
    if t.len() < 3 {
        return false;
    }
    let mut k: usize = 0;
    while k < t.len()
        invariant
            k <= t@.len(),
            t@ == trim(line@),
            forall|j: int| 0 <= j < k ==> #[trigger] t@[j] == '-',
        decreases t@.len() - k,
    {
        if t[k] != '-' {
            assert(trim(line@)[k as int] != '-');
            return false;
        }
        k += 1;
    }
    true
}

/// Number of `#` at the start of `s`.
pub open spec fn leading_hashes(s: Seq<char>) -> nat
    decreases s.len(),
{
    if s.len() > 0 && s[0] == '#' {
        1 + leading_hashes(s.drop_first())
    } else {
        0
    }
}

/// Heading level and text of a heading line: after leading white space,
/// one to four `#`, a space, then the text.
pub open spec fn heading_of(line: Seq<char>) -> Option<(u8, Seq<char>)> {
    let t = trim_start(line);
    let n = leading_hashes(t);
    if 1 <= n <= 4 && n < t.len() && t[n as int] == ' ' {
        Some((n as u8, t.skip(n + 1 as int)))
    } else {
        None
    }
}

pub(crate) proof fn lemma_leading_hashes(s: Seq<char>, i: int)
    requires
        0 <= i <= s.len(),
        forall|k: int| 0 <= k < i ==> #[trigger] s[k] == '#',
        i == s.len() || s[i] != '#',
    ensures
        leading_hashes(s) == i,
    decreases i,
{
    if i > 0 {
        assert forall|k: int| 0 <= k < i - 1 implies #[trigger] s.drop_first()[k] == '#' by {
            assert(s.drop_first()[k] == s[k + 1]);
        }
        if i < s.len() {
            assert(s.drop_first()[i - 1] == s[i]);
        }
        lemma_leading_hashes(s.drop_first(), i - 1);
    }
}

/// Level and text of a heading line.
pub fn heading_prefix(line: &[char]) -> (r: Option<(u8, Vec<char>)>)
    ensures
        match r {
            Some((l, t)) => heading_of(line@) == Some((l, t@)),
            None => heading_of(line@) is None,
        },
{
    let i = trim_start_index(line);
    let ghost t = line@.skip(i as int);
    let mut j = i;
    while j < line.len() && line[j] == '#' && j - i < 5
        invariant
            i <= j <= line.len(),
            j - i <= 5,
            forall|k: int| i <= k < j ==> #[trigger] line@[k] == '#',
        decreases line.len() - j,
    {
        j += 1;
    }
    let n = j - i;
    proof {
        if j < line.len() && line@[j as int] == '#' {
            // five `#` already: more only makes the count larger
            assert(n == 5);
        }
    }
    if n == 0 || n > 4 || j >= line.len() || line[j] != ' ' {
        proof {
            if n <= 4 {
                assert forall|k: int| 0 <= k < n implies #[trigger] t[k] == '#' by {
                    assert(t[k] == line@[i + k]);
                }
                if j < line.len() {
                    assert(t[n as int] == line@[j as int]);
                }
                lemma_leading_hashes(t, n as int);
            } else {
                assert forall|k: int| 0 <= k < 5 implies #[trigger] t.take(5)[k] == '#' by {
                    assert(t.take(5)[k] == line@[i + k]);
                }
                lemma_leading_hashes_ge(t, 5);
            }
        }
        return None;
    }
    proof {
        assert forall|k: int| 0 <= k < n implies #[trigger] t[k] == '#' by {
            assert(t[k] == line@[i + k]);
        }
        assert(t[n as int] == line@[j as int]);
        lemma_leading_hashes(t, n as int);
        assert(t.skip(n + 1) =~= line@.skip(j + 1));
    }
    let rest = sub_chars(line, j + 1, line.len());
    Some((n as u8, rest))
}

proof fn lemma_leading_hashes_ge(s: Seq<char>, m: int)
    requires
        0 <= m <= s.len(),
        forall|k: int| 0 <= k < m ==> #[trigger] s.take(m)[k] == '#',
    ensures
        leading_hashes(s) >= m,
    decreases m,
{
    if m > 0 {
        assert(s[0] == s.take(m)[0]);
        assert forall|k: int| 0 <= k < m - 1 implies #[trigger] s.drop_first().take(m - 1)[k] == '#' by {
            assert(s.drop_first().take(m - 1)[k] == s.take(m)[k + 1]);
        }
        lemma_leading_hashes_ge(s.drop_first(), m - 1);
    }
}

// ---------------------------------------------------------------------------
// Tables
// ---------------------------------------------------------------------------

/// `s` split at every `|` (as `str::split('|')` does).
pub open spec fn split_bar(s: Seq<char>) -> Seq<Seq<char>>
    decreases s.len(),
{
    match find_char(s, '|') {
        None => seq![s],
        Some(i) => {
            proof {
                lemma_find_char_bounds(s, '|');
            }
            seq![s.take(i)] + split_bar(s.skip(i + 1))
        },
    }
}

/// `s` without one leading `|` and then one trailing `|`.
pub open spec fn strip_pipes(s: Seq<char>) -> Seq<char> {
    let a = if s.len() > 0 && s[0] == '|' { s.drop_first() } else { s };
    if a.len() > 0 && a.last() == '|' {
        a.drop_last()
    } else {
        a
    }
}

/// A separator cell: non-empty after trimming, made of `-` and `:` only.
pub open spec fn separator_cell(seg: Seq<char>) -> bool {
    let t = trim(seg);
    t.len() > 0 && forall|k: int| 0 <= k < t.len() ==> (#[trigger] t[k] == '-' || t[k] == ':')
}

/// Line `idx` starts a table: it and the next line begin with `|` (once
/// trimmed), and every cell of the next line is a separator cell.
pub open spec fn table_start(ls: Seq<Seq<char>>, idx: int) -> bool {
    &&& 0 <= idx
    &&& idx + 1 < ls.len()
    &&& trim(ls[idx]).len() > 0 && trim(ls[idx])[0] == '|'
    &&& trim(ls[idx + 1]).len() > 0 && trim(ls[idx + 1])[0] == '|'
    &&& forall|k: int| 0 <= k < split_bar(strip_pipes(trim(ls[idx + 1]))).len()
        ==> separator_cell(#[trigger] split_bar(strip_pipes(trim(ls[idx + 1])))[k])
}

/// The cells of a table row, trimmed.
pub open spec fn row_cells(line: Seq<char>) -> Seq<Seq<char>> {
    split_bar(strip_pipes(trim(line))).map_values(|c: Seq<char>| trim(c))
}

/// A line ends a table's body: blank, or without any `|`.
pub open spec fn ends_table(line: Seq<char>) -> bool {
    trim(line).len() == 0 || !trim(line).contains('|')
}

/// The first line at or after `j` that ends the table body.
pub open spec fn body_end(ls: Seq<Seq<char>>, j: int) -> int
    decreases ls.len() - j,
{
    if j < 0 || j >= ls.len() || ends_table(ls[j]) {
        j
    } else {
        body_end(ls, j + 1)
    }
}

pub proof fn lemma_body_end(ls: Seq<Seq<char>>, j: int)
    requires
        0 <= j <= ls.len(),
    ensures
        j <= body_end(ls, j) <= ls.len(),
    decreases ls.len() - j,
{
    if j < ls.len() && !ends_table(ls[j]) {
        lemma_body_end(ls, j + 1);
    }
}

/// Rows of the table starting at `start` and ending before `end`: the
/// header row, then every body row (the separator line is skipped).
pub open spec fn table_rows(ls: Seq<Seq<char>>, start: int, end: int) -> Seq<Seq<Seq<char>>> {
    seq![row_cells(ls[start])] + ls.subrange(start + 2, end).map_values(|l: Seq<char>| row_cells(l))
}

/// The pieces of `s` between `|` characters.
pub fn split_bar_chars(s: &[char]) -> (r: Vec<Vec<char>>)
    ensures
        views(r@) == split_bar(s@),
{
    let mut out: Vec<Vec<char>> = Vec::new();
    let mut pos: usize = 0;
    assert(s@.skip(0) =~= s@);
    assert(views(out@) + split_bar(s@) =~= split_bar(s@));
    loop
        invariant
            pos <= s.len(),
            split_bar(s@) == views(out@) + split_bar(s@.skip(pos as int)),
        decreases s.len() - pos,
    {
        let ghost rest = s@.skip(pos as int);
        match find_char_from(s, pos, '|') {
            None => {
                let piece = sub_chars(s, pos, s.len());
                assert(piece@ =~= rest);
                let ghost before = out@;
                out.push(piece);
                assert(views(out@) =~= views(before).push(piece@));
                assert(split_bar(rest) == seq![rest]);
                assert(views(before) + seq![rest] =~= views(out@));
                return out;
            },
            Some(bar) => {
                let piece = sub_chars(s, pos, bar);
                let ghost k = bar - pos;
                assert(piece@ =~= rest.take(k));
                assert(rest.skip(k + 1) =~= s@.skip(bar + 1));
                let ghost before = out@;
                out.push(piece);
                assert(views(out@) =~= views(before).push(piece@));
                assert(views(before) + (seq![rest.take(k)] + split_bar(rest.skip(k + 1))) =~= views(out@) + split_bar(s@.skip(bar + 1)));
                pos = bar + 1;
            },
        }
    }
}

/// `s` without one leading `|` and then one trailing `|`.
fn strip_pipes_chars(s: &[char]) -> (r: Vec<char>)
    ensures
        r@ == strip_pipes(s@),
{
    let a: usize = if s.len() > 0 && s[0] == '|' { 1 } else { 0 };
    let b: usize = if s.len() > a && s[s.len() - 1] == '|' { s.len() - 1 } else { s.len() };
    let r = sub_chars(s, a, b);
    proof {
        let a0 = if s@.len() > 0 && s@[0] == '|' { s@.drop_first() } else { s@ };
        assert(a0 =~= s@.skip(a as int));
        if a0.len() > 0 && a0.last() == '|' {
            assert(r@ =~= a0.drop_last());
        } else {
            assert(r@ =~= a0);
        }
    }
    r
}

/// Whether every character of `t` is `-` or `:`.
fn all_dash_colon(t: &[char]) -> (r: bool)
    ensures
        r == forall|k: int| 0 <= k < t@.len() ==> (#[trigger] t@[k] == '-' || t@[k] == ':'),
{
    let mut k: usize = 0;
    while k < t.len()
        invariant
            k <= t@.len(),
            forall|j: int| 0 <= j < k ==> (#[trigger] t@[j] == '-' || t@[j] == ':'),
        decreases t@.len() - k,
    {
        if t[k] != '-' && t[k] != ':' {
            return false;
        }
        k += 1;
    }
    true
}

/// Whether line `idx` starts a pipe table.
fn is_table_start(ls: &[Vec<char>], idx: usize) -> (r: bool)
    ensures
        r == table_start(views(ls@), idx as int),
{
    let ghost vs = views(ls@);
    if idx >= ls.len() || ls.len() - idx < 2 {
        return false;
    }
    assert(vs[idx as int] == ls@[idx as int]@ && vs[idx + 1] == ls@[idx + 1]@);
    let line = trim_chars(ls[idx].as_slice());
    let next = trim_chars(ls[idx + 1].as_slice());
    if line.len() == 0 || line[0] != '|' || next.len() == 0 || next[0] != '|' {
        return false;
    }
    let inner = strip_pipes_chars(next.as_slice());
    let segs = split_bar_chars(inner.as_slice());
    let ghost sv = views(segs@);
    assert(sv == split_bar(strip_pipes(trim(vs[idx + 1]))));
    let mut k: usize = 0;
    while k < segs.len()
        invariant
            k <= segs@.len(),
            sv == views(segs@),
            vs == views(ls@),
            0 <= idx,
            idx + 1 < vs.len(),
            trim(vs[idx as int]).len() > 0 && trim(vs[idx as int])[0] == '|',
            trim(vs[idx + 1]).len() > 0 && trim(vs[idx + 1])[0] == '|',
            sv == split_bar(strip_pipes(trim(vs[idx + 1]))),
            forall|j: int| 0 <= j < k ==> separator_cell(#[trigger] sv[j]),
        decreases segs@.len() - k,
    {
        assert(sv[k as int] == segs@[k as int]@);
        let t = trim_chars(segs[k].as_slice());
        if t.len() == 0 || !all_dash_colon(t.as_slice()) {
            assert(!separator_cell(sv[k as int]));
            return false;
        }
        k += 1;
    }
    true
}

/// Trimmed cells of a table row.
fn parse_row(line: &[char]) -> (r: Vec<String>)
    ensures
        string_views(r@) == row_cells(line@),
{
    let t = trim_chars(line);
    let inner = strip_pipes_chars(t.as_slice());
    let segs = split_bar_chars(inner.as_slice());
    let ghost sv = views(segs@);
    let mut out: Vec<String> = Vec::new();
    let mut k: usize = 0;
    while k < segs.len()
        invariant
            k <= segs@.len(),
            sv == views(segs@),
            string_views(out@) == sv.take(k as int).map_values(|c: Seq<char>| trim(c)),
        decreases segs@.len() - k,
    {
        let c = trim_chars(segs[k].as_slice());
        let ghost before = out@;
        out.push(string_of(c.as_slice()));
        assert(sv[k as int] == segs@[k as int]@);
        assert(string_views(out@) =~= string_views(before).push(trim(sv[k as int])));
        assert(sv.take(k + 1).map_values(|c: Seq<char>| trim(c)) =~= sv.take(k as int).map_values(|c: Seq<char>| trim(c)).push(trim(sv[k as int])));
        k += 1;
    }
    assert(sv.take(segs@.len() as int) =~= sv);
    out
}

/// The views of a list of rows.
pub open spec fn rows_view(rows: Seq<Vec<String>>) -> Seq<Seq<Seq<char>>> {
    rows.map_values(|r: Vec<String>| string_views(r@))
}

/// Rows of the table starting at line `start`, and the line after it.
fn consume_table(ls: &[Vec<char>], start: usize) -> (r: (Vec<Vec<String>>, usize))
    requires
        table_start(views(ls@), start as int),
    ensures
        r.1 == body_end(views(ls@), start + 2),
        start + 2 <= r.1 <= ls@.len(),
        rows_view(r.0@) == table_rows(views(ls@), start as int, r.1 as int),
{
    let ghost vs = views(ls@);
    let mut rows: Vec<Vec<String>> = Vec::new();
    assert(vs[start as int] == ls@[start as int]@);
    rows.push(parse_row(ls[start].as_slice()));
    let mut end = start + 2;
    assert(rows_view(rows@) =~= table_rows(vs, start as int, end as int));
    while end < ls.len()
        invariant
            vs == views(ls@),
            table_start(vs, start as int),
            start + 2 <= end <= ls@.len(),
            body_end(vs, start + 2) == body_end(vs, end as int),
            rows_view(rows@) == table_rows(vs, start as int, end as int),
        ensures
            end == body_end(vs, start + 2),
            start + 2 <= end <= ls@.len(),
            rows_view(rows@) == table_rows(vs, start as int, end as int),
        decreases ls@.len() - end,
    {
        assert(vs[end as int] == ls@[end as int]@);
        let t = trim_chars(ls[end].as_slice());
        if t.len() == 0 || !crate::text::contains_char(t.as_slice(), '|') {
            assert(ends_table(vs[end as int]));
            assert(body_end(vs, end as int) == end as int);
            break;
        }
        let ghost before = rows@;
        rows.push(parse_row(ls[end].as_slice()));
        assert(rows_view(rows@) =~= rows_view(before).push(row_cells(vs[end as int])));
        assert(vs.subrange(start + 2, end + 1) =~= vs.subrange(start + 2, end as int).push(vs[end as int]));
        assert(table_rows(vs, start as int, end + 1) =~= table_rows(vs, start as int, end as int).push(row_cells(vs[end as int])));
        end += 1;
    }
    (rows, end)
}

// ---------------------------------------------------------------------------
// Spans
// ---------------------------------------------------------------------------

/// Kind of a block span.
#[derive(Debug, Clone, Copy, PartialEq, Eq, Structural)]
pub enum SpanKind {
    Text,
    Table,
    HorizontalRule,
    Heading,
}

/// Lines `start..end` of the document forming one block.
pub struct BlockSpan {
    pub kind: SpanKind,
    pub start: usize,
    pub end: usize,
    pub heading_level: u8,
    pub heading_text: String,
    pub table_rows: Vec<Vec<String>>,
}

impl BlockSpan {
    /// Number of lines the span covers.
    pub fn line_count(&self) -> (r: usize)
        requires
            self.start <= self.end,
        ensures
            r == self.end - self.start,
    {
        self.end - self.start
    }
}

/// Mathematical value of a [`BlockSpan`].
#[verifier::ext_equal]
pub struct SpanModel {
    pub kind: SpanKind,
    pub start: int,
    pub end: int,
    pub heading_level: u8,
    pub heading_text: Seq<char>,
    pub table_rows: Seq<Seq<Seq<char>>>,
}

impl View for BlockSpan {
    type V = SpanModel;

    open spec fn view(&self) -> SpanModel {
        SpanModel {
            kind: self.kind,
            start: self.start as int,
            end: self.end as int,
            heading_level: self.heading_level,
            heading_text: self.heading_text@,
            table_rows: rows_view(self.table_rows@),
        }
    }
}

/// The values of a list of spans.
pub open spec fn spans_view(s: Seq<BlockSpan>) -> Seq<SpanModel> {
    s.map_values(|b: BlockSpan| b@)
}

/// A span of kind `kind` over lines `s..e`, with no heading or table data.
pub open spec fn plain_span(kind: SpanKind, s: int, e: int) -> SpanModel {
    SpanModel { kind, start: s, end: e, heading_level: 0, heading_text: Seq::empty(), table_rows: Seq::empty() }
}

/// The pending text run `ts..i`, if it is not empty.
pub open spec fn flush_text(ts: Option<int>, i: int) -> Seq<SpanModel> {
    match ts {
        Some(s) => if s < i {
            seq![plain_span(SpanKind::Text, s, i)]
        } else {
            Seq::empty()
        },
        None => Seq::empty(),
    }
}

/// Spans of the lines from `i` on, with a text run pending from `ts`.
pub open spec fn scan(ls: Seq<Seq<char>>, i: int, ts: Option<int>) -> Seq<SpanModel>
    decreases ls.len() - i,
{
    if i < 0 || i >= ls.len() {
        flush_text(ts, ls.len() as int)
    } else if is_hr(ls[i]) {
        flush_text(ts, i) + seq![plain_span(SpanKind::HorizontalRule, i, i + 1)] + scan(ls, i + 1, None)
    } else if heading_of(ls[i]) is Some {
        let (l, t) = heading_of(ls[i])->0;
        flush_text(ts, i) + seq![
            SpanModel {
                kind: SpanKind::Heading,
                start: i,
                end: i + 1,
                heading_level: l,
                heading_text: t,
                table_rows: Seq::empty(),
            },
        ] + scan(ls, i + 1, None)
    } else if table_start(ls, i) {
        let e = body_end(ls, i + 2);
        proof {
            lemma_body_end(ls, i + 2);
        }
        flush_text(ts, i) + seq![
            SpanModel {
                kind: SpanKind::Table,
                start: i,
                end: e,
                heading_level: 0,
                heading_text: Seq::empty(),
                table_rows: table_rows(ls, i, e),
            },
        ] + scan(ls, e, None)
    } else {
        scan(ls, i + 1, if ts is None { Some(i) } else { ts })
    }
}

/// The block spans of a document's lines; a single empty text span when
/// there are none.
pub open spec fn spans_of(ls: Seq<Seq<char>>) -> Seq<SpanModel> {
    let s = scan(ls, 0, None);
    if s.len() == 0 {
        seq![plain_span(SpanKind::Text, 0, 0)]
    } else {
        s
    }
}

/// A span with no heading or table data.
fn plain(kind: SpanKind, start: usize, end: usize) -> (r: BlockSpan)
    ensures
        r@ =~= plain_span(kind, start as int, end as int),
{
    let r = BlockSpan { kind, start, end, heading_level: 0, heading_text: String::new(), table_rows: Vec::new() };
    assert(rows_view(r.table_rows@) =~= Seq::<Seq<Seq<char>>>::empty());
    r
}

/// Pushes the pending text run `ts..i`, if not empty, and clears it.
fn push_text(spans: &mut Vec<BlockSpan>, ts: Option<usize>, i: usize)
    ensures
        spans_view(final(spans)@) == spans_view(old(spans)@) + flush_text(
            match ts {
                Some(s) => Some(s as int),
                None => None,
            },
            i as int,
        ),
{
    let ghost before = spans@;
    match ts {
        Some(s) => {
            if s < i {
                spans.push(plain(SpanKind::Text, s, i));
                assert(spans_view(spans@) =~= spans_view(before) + flush_text(Some(s as int), i as int));
                return;
            }
        },
        None => {},
    }
    assert(spans_view(spans@) =~= spans_view(before) + Seq::<SpanModel>::empty());
}

/// The pending text start as an integer.
pub open spec fn opt_int(ts: Option<usize>) -> Option<int> {
    match ts {
        Some(s) => Some(s as int),
        None => None,
    }
}

/// Splits a document's lines into block spans: rules, headings and tables
/// each form a span; the lines between them form text spans.
pub fn classify_spans(ls: &[Vec<char>]) -> (r: Vec<BlockSpan>)
    ensures
        spans_view(r@) == spans_of(views(ls@)),
{
    let ghost vs = views(ls@);
    let mut spans: Vec<BlockSpan> = Vec::new();
    let mut i: usize = 0;
    let mut text_start: Option<usize> = None;
    assert(spans_view(spans@) + scan(vs, 0, None) =~= scan(vs, 0, None));
    while i < ls.len()
        invariant
            vs == views(ls@),
            i <= ls@.len(),
            text_start matches Some(s) ==> s < i,
            scan(vs, 0, None) == spans_view(spans@) + scan(vs, i as int, opt_int(text_start)),
        decreases ls@.len() - i,
    {
        let ghost before = spans_view(spans@);
        let ghost ts = opt_int(text_start);
        assert(vs[i as int] == ls@[i as int]@);
        if is_hr_line(ls[i].as_slice()) {
            push_text(&mut spans, text_start, i);
            text_start = None;
            let ghost mid = spans_view(spans@);
            spans.push(plain(SpanKind::HorizontalRule, i, i + 1));
            assert(spans_view(spans@) =~= mid.push(plain_span(SpanKind::HorizontalRule, i as int, i + 1)));
            assert(before + (flush_text(ts, i as int) + seq![plain_span(SpanKind::HorizontalRule, i as int, i + 1)] + scan(vs, i + 1, None)) =~= spans_view(spans@) + scan(vs, i + 1, None));
            i += 1;
        } else {
            match heading_prefix(ls[i].as_slice()) {
                Some((level, text)) => {
                    push_text(&mut spans, text_start, i);
                    text_start = None;
                    let ghost mid = spans_view(spans@);
                    let sp = BlockSpan {
                        kind: SpanKind::Heading,
                        start: i,
                        end: i + 1,
                        heading_level: level,
                        heading_text: string_of(text.as_slice()),
                        table_rows: Vec::new(),
                    };
                    let ghost m = SpanModel {
                        kind: SpanKind::Heading,
                        start: i as int,
                        end: i + 1,
                        heading_level: level,
                        heading_text: text@,
                        table_rows: Seq::empty(),
                    };
                    assert(sp@ =~= m);
                    spans.push(sp);
                    assert(spans_view(spans@) =~= mid.push(m));
                    assert(before + (flush_text(ts, i as int) + seq![m] + scan(vs, i + 1, None)) =~= spans_view(spans@) + scan(vs, i + 1, None));
                    i += 1;
                },
                None => {
                    if is_table_start(ls, i) {
                        push_text(&mut spans, text_start, i);
                        text_start = None;
                        let ghost mid = spans_view(spans@);
                        let (rows, end) = consume_table(ls, i);
                        let sp = BlockSpan {
                            kind: SpanKind::Table,
                            start: i,
                            end,
                            heading_level: 0,
                            heading_text: String::new(),
                            table_rows: rows,
                        };
                        let ghost m = SpanModel {
                            kind: SpanKind::Table,
                            start: i as int,
                            end: end as int,
                            heading_level: 0,
                            heading_text: Seq::empty(),
                            table_rows: table_rows(vs, i as int, end as int),
                        };
                        assert(sp@ =~= m);
                        spans.push(sp);
                        assert(spans_view(spans@) =~= mid.push(m));
                        assert(before + (flush_text(ts, i as int) + seq![m] + scan(vs, end as int, None)) =~= spans_view(spans@) + scan(vs, end as int, None));
                        i = end;
                    } else {
                        if text_start.is_none() {
                            text_start = Some(i);
                        }
                        i += 1;
                    }
                },
            }
        }
    }
    let ghost before = spans_view(spans@);
    push_text(&mut spans, text_start, ls.len());
    if spans.len() == 0 {
        spans.push(plain(SpanKind::Text, 0, 0));
        assert(spans_view(spans@) =~= seq![plain_span(SpanKind::Text, 0, 0)]);
    }
    spans
}

/// Spans `sp` cover lines `a..b` back to back, in order, each non-empty.
pub open spec fn tiles(sp: Seq<SpanModel>, a: int, b: int) -> bool
    decreases sp.len(),
{
    if sp.len() == 0 {
        a == b
    } else {
        sp[0].start == a && sp[0].start < sp[0].end && tiles(sp.drop_first(), sp[0].end, b)
    }
}

proof fn lemma_tiles_single(sp: SpanModel)
    requires
        sp.start < sp.end,
    ensures
        tiles(seq![sp], sp.start, sp.end),
{
    assert(seq![sp].drop_first() =~= Seq::<SpanModel>::empty());
    assert(tiles(Seq::<SpanModel>::empty(), sp.end, sp.end));
}

proof fn lemma_tiles_concat(x: Seq<SpanModel>, y: Seq<SpanModel>, a: int, b: int, c: int)
    requires
        tiles(x, a, b),
        tiles(y, b, c),
    ensures
        tiles(x + y, a, c),
    decreases x.len(),
{
    if x.len() == 0 {
        assert(x + y =~= y);
    } else {
        lemma_tiles_concat(x.drop_first(), y, x[0].end, b, c);
        assert((x + y).drop_first() =~= x.drop_first() + y);
        assert((x + y)[0] == x[0]);
    }
}

proof fn lemma_flush_tiles(ts: Option<int>, i: int)
    requires
        ts matches Some(s) ==> s < i,
    ensures
        tiles(flush_text(ts, i), match ts { Some(s) => s, None => i }, i),
{
    if let Some(s) = ts {
        if s < i {
            lemma_tiles_single(plain_span(SpanKind::Text, s, i));
        }
    }
}

proof fn lemma_scan_tiles(ls: Seq<Seq<char>>, i: int, ts: Option<int>)
    requires
        0 <= i <= ls.len(),
        ts matches Some(s) ==> 0 <= s < i,
    ensures
        tiles(scan(ls, i, ts), match ts { Some(s) => s, None => i }, ls.len() as int),
    decreases ls.len() - i,
{
    let from = match ts {
        Some(s) => s,
        None => i,
    };
    if i < ls.len() {
        lemma_flush_tiles(ts, i);
        if is_hr(ls[i]) || heading_of(ls[i]) is Some {
            lemma_scan_tiles(ls, i + 1, None);
            let one = seq![scan(ls, i, ts)[flush_text(ts, i).len() as int]];
            let mid = if is_hr(ls[i]) {
                seq![plain_span(SpanKind::HorizontalRule, i, i + 1)]
            } else {
                let (l, t) = heading_of(ls[i])->0;
                seq![
                    SpanModel {
                        kind: SpanKind::Heading,
                        start: i,
                        end: i + 1,
                        heading_level: l,
                        heading_text: t,
                        table_rows: Seq::empty(),
                    },
                ]
            };
            lemma_tiles_single(mid[0]);
            assert(mid =~= seq![mid[0]]);
            lemma_tiles_concat(flush_text(ts, i), mid, from, i, i + 1);
            lemma_tiles_concat(flush_text(ts, i) + mid, scan(ls, i + 1, None), from, i + 1, ls.len() as int);
        } else if table_start(ls, i) {
            let e = body_end(ls, i + 2);
            lemma_body_end(ls, i + 2);
            lemma_scan_tiles(ls, e, None);
            let mid = seq![
                SpanModel {
                    kind: SpanKind::Table,
                    start: i,
                    end: e,
                    heading_level: 0,
                    heading_text: Seq::empty(),
                    table_rows: table_rows(ls, i, e),
                },
            ];
            lemma_tiles_single(mid[0]);
            assert(mid =~= seq![mid[0]]);
            lemma_tiles_concat(flush_text(ts, i), mid, from, i, e);
            lemma_tiles_concat(flush_text(ts, i) + mid, scan(ls, e, None), from, e, ls.len() as int);
        } else {
            lemma_scan_tiles(ls, i + 1, if ts is None { Some(i) } else { ts });
        }
    } else {
        lemma_flush_tiles(ts, ls.len() as int);
    }
}

/// The block spans of a non-empty document cover its lines exactly:
/// the first starts at line 0, each starts where the previous one ends,
/// none is empty, and the last ends at the last line.
pub proof fn lemma_spans_tile_lines(ls: Seq<Seq<char>>)
    requires
        ls.len() > 0,
    ensures
        tiles(spans_of(ls), 0, ls.len() as int),
{
    lemma_scan_tiles(ls, 0, None);
}

/// A table span's lines: its first two lines start with `|`, every body
/// row after them is a non-blank line holding a `|`, and the line just
/// after the span, if any, is blank or holds no `|`.
pub open spec fn table_lines_ok(ls: Seq<Seq<char>>, sp: SpanModel) -> bool {
    sp.kind == SpanKind::Table ==> {
        &&& 0 <= sp.start
        &&& sp.start + 2 <= sp.end <= ls.len()
        &&& trim(ls[sp.start]).len() > 0 && trim(ls[sp.start])[0] == '|'
        &&& trim(ls[sp.start + 1]).len() > 0 && trim(ls[sp.start + 1])[0] == '|'
        &&& forall|j: int| sp.start + 2 <= j < sp.end ==> trim(#[trigger] ls[j]).len() > 0 && trim(ls[j]).contains('|')
        &&& sp.end < ls.len() ==> (trim(ls[sp.end]).len() == 0 || !trim(ls[sp.end]).contains('|'))
    }
}

proof fn lemma_body_end_rows(ls: Seq<Seq<char>>, j: int)
    requires
        0 <= j <= ls.len(),
    ensures
        forall|m: int| j <= m < body_end(ls, j) ==> !ends_table(#[trigger] ls[m]),
        body_end(ls, j) < ls.len() ==> ends_table(ls[body_end(ls, j)]),
    decreases ls.len() - j,
{
    lemma_body_end(ls, j);
    if j < ls.len() && !ends_table(ls[j]) {
        lemma_body_end_rows(ls, j + 1);
    }
}

proof fn lemma_scan_tables(ls: Seq<Seq<char>>, i: int, ts: Option<int>)
    requires
        0 <= i <= ls.len(),
    ensures
        forall|k: int| 0 <= k < scan(ls, i, ts).len() ==> table_lines_ok(ls, #[trigger] scan(ls, i, ts)[k]),
    decreases ls.len() - i,
{
    let sc = scan(ls, i, ts);
    if i < ls.len() {
        let f = flush_text(ts, i);
        assert(forall|k: int| 0 <= k < f.len() ==> (#[trigger] f[k]).kind == SpanKind::Text);
        if is_hr(ls[i]) || heading_of(ls[i]) is Some {
            lemma_scan_tables(ls, i + 1, None);
            let rest = scan(ls, i + 1, None);
            let mid = seq![sc[f.len() as int]];
            assert(sc =~= f + mid + rest);
            assert forall|k: int| 0 <= k < sc.len() implies table_lines_ok(ls, #[trigger] sc[k]) by {
                if k >= f.len() + 1 {
                    assert(sc[k] == rest[k - f.len() - 1]);
                }
            }
        } else if table_start(ls, i) {
            let e = body_end(ls, i + 2);
            lemma_body_end(ls, i + 2);
            lemma_body_end_rows(ls, i + 2);
            lemma_scan_tables(ls, e, None);
            let rest = scan(ls, e, None);
            let t = SpanModel {
                kind: SpanKind::Table,
                start: i,
                end: e,
                heading_level: 0,
                heading_text: Seq::empty(),
                table_rows: table_rows(ls, i, e),
            };
            assert(sc =~= f + seq![t] + rest);
            assert(table_lines_ok(ls, t));
            assert forall|k: int| 0 <= k < sc.len() implies table_lines_ok(ls, #[trigger] sc[k]) by {
                if k >= f.len() + 1 {
                    assert(sc[k] == rest[k - f.len() - 1]);
                } else if k == f.len() {
                    assert(sc[k] == t);
                }
            }
        } else {
            let nts = if ts is None { Some(i) } else { ts };
            lemma_scan_tables(ls, i + 1, nts);
            assert(sc == scan(ls, i + 1, nts));
        }
    } else {
        let f = flush_text(ts, ls.len() as int);
        assert(sc == f);
        assert forall|k: int| 0 <= k < sc.len() implies table_lines_ok(ls, #[trigger] sc[k]) by {
            assert(f[k].kind == SpanKind::Text);
        }
    }
}

/// Every table span of a document is a table: its first two lines start
/// with `|`, each of its body rows is a non-blank line holding a `|`, and
/// it ends at the first line after them that is blank or holds no `|`
/// (or at the end of the document).
pub proof fn lemma_table_spans_hold_table_rows(ls: Seq<Seq<char>>)
    ensures
        forall|k: int| 0 <= k < spans_of(ls).len() && (#[trigger] spans_of(ls)[k]).kind == SpanKind::Table
            ==> {
            let sp = spans_of(ls)[k];
            &&& 0 <= sp.start
            &&& sp.start + 2 <= sp.end <= ls.len()
            &&& trim(ls[sp.start]).len() > 0 && trim(ls[sp.start])[0] == '|'
            &&& trim(ls[sp.start + 1]).len() > 0 && trim(ls[sp.start + 1])[0] == '|'
            &&& forall|j: int| sp.start + 2 <= j < sp.end ==> trim(#[trigger] ls[j]).len() > 0 && trim(ls[j]).contains('|')
            &&& sp.end < ls.len() ==> (trim(ls[sp.end]).len() == 0 || !trim(ls[sp.end]).contains('|'))
        },
{
    lemma_scan_tables(ls, 0, None);
    let sc = scan(ls, 0, None);
    if sc.len() == 0 {
        assert(spans_of(ls) == seq![plain_span(SpanKind::Text, 0, 0)]);
    } else {
        assert forall|k: int| 0 <= k < spans_of(ls).len() && (#[trigger] spans_of(ls)[k]).kind == SpanKind::Table
            implies table_lines_ok(ls, spans_of(ls)[k]) by {
            assert(spans_of(ls)[k] == sc[k]);
        }
    }
}

/// Kind tag of the blocks a span becomes.
pub open spec fn kind_name(kind: SpanKind) -> Seq<char> {
    match kind {
        SpanKind::Text => "text"@,
        SpanKind::Table => "table"@,
        SpanKind::HorizontalRule => "hr"@,
        SpanKind::Heading => "heading"@,
    }
}

/// Kind tag of the block a span of `kind` becomes.
pub fn span_kind_tag(kind: SpanKind) -> (r: &'static str)
    ensures
        r@ == kind_name(kind),
{
    match kind {
        SpanKind::Text => "text",
        SpanKind::Table => "table",
        SpanKind::HorizontalRule => "hr",
        SpanKind::Heading => "heading",
    }
}

// ---------------------------------------------------------------------------
// Reparsing after an edit
// ---------------------------------------------------------------------------

/// Shape of an existing block: its kind, first line and number of lines.
#[derive(Debug, Clone, Copy, PartialEq, Eq, Structural)]
pub struct BlockShape {
    pub kind: SpanKind,
    pub start_line: usize,
    pub line_count: usize,
}

/// What becomes of the blocks when the document's text changes: for each
/// span of the new text, whether the block at the same position is kept
/// (updated in place) or a new block is built; and whether an empty text
/// block must be added because the new text has no span.
pub struct ReparsePlan {
    pub keep: Vec<bool>,
    pub placeholder: bool,
}

/// Block `i` is kept for span `i`: it exists with the span's kind and
/// first line.
pub open spec fn keeps(old: Seq<BlockShape>, spans: Seq<SpanModel>, i: int) -> bool {
    i < old.len() && old[i].kind == spans[i].kind && old[i].start_line == spans[i].start
}

/// Plans the update of the blocks `old` to the spans of the new text: the
/// block at a span's position is kept when its kind and first line match;
/// an empty text block is added when the new text has no span but blocks
/// existed.
pub fn reparse_plan(old: &[BlockShape], spans: &[BlockSpan]) -> (r: ReparsePlan)
    ensures
        r.keep@.len() == spans@.len(),
        forall|i: int| 0 <= i < spans@.len() ==> r.keep@[i] == keeps(old@, spans_view(spans@), i),
        r.placeholder == (spans@.len() == 0 && old@.len() > 0),
{
    let mut keep: Vec<bool> = Vec::new();
    let mut i: usize = 0;
    while i < spans.len()
        invariant
            i <= spans@.len(),
            keep@.len() == i,
            forall|j: int| 0 <= j < i ==> keep@[j] == keeps(old@, spans_view(spans@), j),
        decreases spans@.len() - i,
    {
        let k = i < old.len() && old[i].kind == spans[i].kind && old[i].start_line == spans[i].start;
        keep.push(k);
        i += 1;
    }
    ReparsePlan { keep, placeholder: spans.len() == 0 && old.len() > 0 }
}

/// The text of lines `start..end` joined by line breaks: the content of a
/// text block.
pub fn span_text(lines: &[Vec<char>], start: usize, end: usize) -> (r: String)
    requires
        start <= end <= lines@.len(),
    ensures
        r@ == crate::editor::join_lines(views(lines@).subrange(start as int, end as int)),
{
    let ghost part = views(lines@).subrange(start as int, end as int);
    let mut out = String::new();
    let mut i = start;
    assert(part.take(0) =~= Seq::<Seq<char>>::empty());
    while i < end
        invariant
            start <= i <= end <= lines@.len(),
            part == views(lines@).subrange(start as int, end as int),
            out@ == crate::editor::join_lines(part.take(i - start)),
        decreases end - i,
    {
        assert(part.take(i - start + 1).drop_last() =~= part.take(i - start));
        assert(part.take(i - start + 1).last() == lines@[i as int]@);
        if i > start {
            push_char(&mut out, '\n');
        }
        crate::text::push_chars(&mut out, lines[i].as_slice());
        proof {
            if i == start {
                assert(out@ =~= crate::editor::join_lines(part.take(i - start + 1)));
            }
        }
        i += 1;
    }
    assert(part.take(end - start) =~= part);
    out
}

// ---------------------------------------------------------------------------
// Block positions
// ---------------------------------------------------------------------------

/// Where a block sits in the document: its first line and how many lines
/// it spans.
#[derive(Debug, Clone, Copy, PartialEq, Eq, Structural)]
pub struct BlockExtent {
    pub start_line: usize,
    pub line_count: usize,
}

/// Total line count of the first `n` blocks.
pub open spec fn lines_before(bs: Seq<BlockExtent>, n: int) -> int
    decreases n,
{
    if n <= 0 {
        0
    } else {
        lines_before(bs, n - 1) + bs[n - 1].line_count
    }
}

/// Sets every block's first line from the line counts of the blocks
/// before it.
pub fn recount_lines(blocks: &mut Vec<BlockExtent>)
    requires
        lines_before(old(blocks)@, old(blocks)@.len() as int) <= usize::MAX,
    ensures
        final(blocks)@.len() == old(blocks)@.len(),
        forall|k: int| 0 <= k < final(blocks)@.len() ==> {
            &&& (#[trigger] final(blocks)@[k]).line_count == old(blocks)@[k].line_count
            &&& final(blocks)@[k].start_line == lines_before(old(blocks)@, k)
        },
{
    let ghost orig = blocks@;
    let mut line: usize = 0;
    let mut i: usize = 0;
    while i < blocks.len()
        invariant
            i <= blocks@.len(),
            blocks@.len() == orig.len(),
            lines_before(orig, orig.len() as int) <= usize::MAX,
            line == lines_before(orig, i as int),
            forall|k: int| 0 <= k < blocks@.len() ==> (#[trigger] blocks@[k]).line_count == orig[k].line_count,
            forall|k: int| 0 <= k < i ==> (#[trigger] blocks@[k]).start_line == lines_before(orig, k),
        decreases blocks@.len() - i,
    {
        proof {
            lemma_lines_before_mono(orig, i + 1, orig.len() as int);
        }
        let count = blocks[i].line_count;
        blocks.set(i, BlockExtent { start_line: line, line_count: count });
        line = line + count;
        i += 1;
    }
}

proof fn lemma_lines_before_mono(bs: Seq<BlockExtent>, a: int, b: int)
    requires
        0 <= a <= b <= bs.len(),
    ensures
        lines_before(bs, a) <= lines_before(bs, b),
    decreases b - a,
{
    if a < b {
        lemma_lines_before_mono(bs, a, b - 1);
    }
}

/// Block `b` spans document line `line`.
pub open spec fn holds_line(b: BlockExtent, line: int) -> bool {
    b.start_line <= line < b.start_line + b.line_count
}

/// Finds the first block containing a given document line.
pub fn block_at_line(blocks: &[BlockExtent], global_line: usize) -> (r: Option<usize>)
    ensures
        match r {
            Some(i) => i < blocks@.len() && holds_line(blocks@[i as int], global_line as int)
                && forall|j: int| 0 <= j < i ==> !holds_line(#[trigger] blocks@[j], global_line as int),
            None => forall|j: int| 0 <= j < blocks@.len() ==> !holds_line(#[trigger] blocks@[j], global_line as int),
        },
{
    let mut i: usize = 0;
    while i < blocks.len()
        invariant
            i <= blocks@.len(),
            forall|j: int| 0 <= j < i ==> !holds_line(#[trigger] blocks@[j], global_line as int),
        decreases blocks@.len() - i,
    {
        let start = blocks[i].start_line;
        let count = blocks[i].line_count;
        if global_line >= start && global_line - start < count {
            return Some(i);
        }
        i += 1;
    }
    None
}

/// What serialization reads of a block.
pub struct BlockMarkdown {
    pub kind_tag: String,
    pub is_eval_result: bool,
    pub md: String,
}

/// The parts of the document text: each block's markdown, skipping trees
/// and tables produced by evaluation, and skipping empty markdown of
/// blocks other than text (an empty text block keeps its empty line).
pub open spec fn md_parts(bs: Seq<BlockMarkdown>) -> Seq<Seq<char>>
    decreases bs.len(),
{
    if bs.len() == 0 {
        Seq::empty()
    } else {
        let b = bs.last();
        let rest = md_parts(bs.drop_last());
        if b.kind_tag@ == "tree"@ || (b.kind_tag@ == "table"@ && b.is_eval_result) {
            rest
        } else if b.kind_tag@ == "text"@ || b.md@.len() > 0 {
            rest.push(b.md@)
        } else {
            rest
        }
    }
}

/// Serializes blocks back to document text: their markdown joined by
/// newlines.
pub fn serialize_blocks(blocks: &[BlockMarkdown]) -> (r: String)
    ensures
        r@ == crate::editor::join_lines(md_parts(blocks@)),
{
    let mut out = String::new();
    let mut count: usize = 0;
    let mut i: usize = 0;
    while i < blocks.len()
        invariant
            i <= blocks@.len(),
            count == md_parts(blocks@.take(i as int)).len(),
            count <= i,
            out@ == crate::editor::join_lines(md_parts(blocks@.take(i as int))),
        decreases blocks@.len() - i,
    {
        assert(blocks@.take(i + 1).drop_last() =~= blocks@.take(i as int));
        assert(blocks@.take(i + 1).last() == blocks@[i as int]);
        let b = &blocks[i];
        let tag = b.kind_tag.as_str();
        let skip = crate::text::str_equal(tag, "tree") || (crate::text::str_equal(tag, "table") && b.is_eval_result);
        if !skip {
            let md = chars_of(b.md.as_str());
            if crate::text::str_equal(tag, "text") || md.len() > 0 {
                let ghost k0 = md_parts(blocks@.take(i as int));
                if count > 0 {
                    push_char(&mut out, '\n');
                }
                push_chars(&mut out, md.as_slice());
                proof {
                    let k1 = k0.push(b.md@);
                    assert(k1.drop_last() =~= k0);
                    if k0.len() == 0 {
                        assert(out@ =~= crate::editor::join_lines(k1));
                    }
                }
                count += 1;
            }
        }
        i += 1;
    }
    assert(blocks@.take(blocks@.len() as int) =~= blocks@);
    out
}

} // verus!
