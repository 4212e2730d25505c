//! What the document browser shows of notes and folders: whether a note's
//! body is blank, the body without its embedded archive, and the summary
//! line of a folder; and which items are selected, under the click rules
//! of the browser.
use vstd::prelude::*;
use crate::text::{trim, lines, chars_of, lines_of, views, trim_chars, string_of, string_from, sub_chars, push_chars};
use crate::blocks::split_bar;
use crate::num::{decimal, decimal_chars};
use crate::module::opt_chars;
use crate::text::{str_equal, string_views};

verus! {

/// Kind of a browser entry.
#[derive(Debug, Clone, Copy, PartialEq, Eq, Structural)]
pub enum BrowserItemKind {
    File,
    Folder,
}

/// Index of the first occurrence of `p` in `s` at or after `k`.
pub open spec fn find_sub_from(s: Seq<char>, p: Seq<char>, k: int) -> Option<int>
    decreases s.len() - k,
{
    if k < 0 || k + p.len() > s.len() {
        None
    } else if s.subrange(k, k + p.len()) == p {
        Some(k)
    } else if k >= s.len() {
        None
    } else {
        find_sub_from(s, p, k + 1)
    }
}

/// Marker that starts the embedded archive comment of a note file.
pub open spec fn archive_marker() -> Seq<char> {
    "<!-- acord-archive"@
}

/// The text before the embedded archive comment (all of it if none).
pub open spec fn body_of(text: Seq<char>) -> Seq<char> {
    match find_sub_from(text, archive_marker(), 0) {
        Some(i) => text.take(i),
        None => text,
    }
}

/// Cuts a note file's text at the start of its embedded archive comment.
pub fn strip_sidecar_archive(text: &str) -> (r: String)
    ensures
        r@ == body_of(text@),
{
    let cs = chars_of(text);
    let marker = chars_of("<!-- acord-archive");
    let m = marker.len();
    proof {
        reveal_strlit("<!-- acord-archive");
    }
    assert(m > 0);
    let mut k: usize = 0;
    while k < cs.len() && cs.len() - k >= m
        invariant
            k <= cs@.len(),
            cs@ == text@,
            marker@ == archive_marker(),
            m == marker@.len(),
            m > 0,
            find_sub_from(cs@, marker@, 0) == find_sub_from(cs@, marker@, k as int),
        decreases cs@.len() - k,
    {
        let piece = sub_chars(cs.as_slice(), k, k + m);
        if crate::text::chars_equal(piece.as_slice(), marker.as_slice()) {
            assert(piece@ == cs@.subrange(k as int, k + m));
            assert(find_sub_from(cs@, marker@, k as int) == Some(k as int));
            let head = sub_chars(cs.as_slice(), 0, k);
            assert(head@ =~= cs@.take(k as int));
            assert(cs@ == text@);
            assert(find_sub_from(text@, archive_marker(), 0) == Some(k as int));
            assert(body_of(text@) == text@.take(k as int));
            return string_of(head.as_slice());
        }
        k += 1;
    }
    assert(find_sub_from(cs@, marker@, k as int) is None);
    string_of(cs.as_slice())
}

/// `s` without leading and trailing `|` characters.
pub open spec fn trim_bars(s: Seq<char>) -> Seq<char>
    decreases s.len(),
{
    if s.len() > 0 && s[0] == '|' {
        trim_bars(s.drop_first())
    } else if s.len() > 0 && s.last() == '|' {
        trim_bars(s.drop_last())
    } else {
        s
    }
}

/// The trimmed cells of a table-like line.
pub open spec fn line_cells(t: Seq<char>) -> Seq<Seq<char>> {
    split_bar(trim_bars(t)).map_values(|c: Seq<char>| trim(c))
}

/// Text of a default table header cell.
pub open spec fn header_name(i: int) -> Seq<char> {
    "Header "@ + decimal((i + 1) as nat)
}

/// A trimmed line that leaves a body blank: empty, a separator row, an
/// all-empty row, or a row of default headers.
pub open spec fn blank_row(t: Seq<char>) -> bool {
    let cells = line_cells(t);
    ||| t.len() == 0
    ||| (t[0] == '|' && (
        (cells.len() > 0 && forall|k: int| 0 <= k < cells.len() ==> (#[trigger] cells[k]).len() > 0
            && forall|j: int| 0 <= j < cells[k].len() ==> (cells[k][j] == '-' || cells[k][j] == ':'))
        || (forall|k: int| 0 <= k < cells.len() ==> (#[trigger] cells[k]).len() == 0)
        || (forall|k: int| 0 <= k < cells.len() ==> #[trigger] cells[k] == header_name(k))))
}

/// A body with nothing but white space, separator rows, empty rows or
/// default-header rows.
pub open spec fn looks_blank(body: Seq<char>) -> bool {
    let ls = lines(trim(body));
    trim(body).len() == 0 || forall|i: int| 0 <= i < ls.len() ==> blank_row(trim(#[trigger] ls[i]))
}

/// `s` without leading and trailing `|`.
fn trim_bars_chars(s: &[char]) -> (r: Vec<char>)
    ensures
        r@ == trim_bars(s@),
{
    let mut a: usize = 0;
    let mut b: usize = s.len();
    assert(s@.subrange(0, s@.len() as int) =~= s@);
    while a < b && (s[a] == '|' || s[b - 1] == '|')
        invariant
            a <= b <= s.len(),
            trim_bars(s@) == trim_bars(s@.subrange(a as int, b as int)),
        decreases b - a,
    {
        let ghost t = s@.subrange(a as int, b as int);
        if s[a] == '|' {
            assert(t[0] == s@[a as int]);
            assert(t.drop_first() =~= s@.subrange(a + 1, b as int));
            a += 1;
        } else {
            assert(t[0] == s@[a as int]);
            assert(t.last() == s@[b - 1]);
            assert(t.drop_last() =~= s@.subrange(a as int, b - 1));
            b -= 1;
        }
    }
    let r = sub_chars(s, a, b);
    proof {
        let t = s@.subrange(a as int, b as int);
        if t.len() > 0 {
            assert(t[0] == s@[a as int]);
            assert(t.last() == s@[b - 1]);
        }
    }
    r
}

/// Cells of a trimmed line, each trimmed.
fn cells_of(t: &[char]) -> (r: Vec<Vec<char>>)
    ensures
        views(r@) == line_cells(t@),
{
    let inner = trim_bars_chars(t);
    let segs = crate::blocks::split_bar_chars(inner.as_slice());
    let ghost sv = views(segs@);
    let mut out: Vec<Vec<char>> = Vec::new();
    let mut k: usize = 0;
    while k < segs.len()
        invariant
            k <= segs@.len(),
            sv == views(segs@),
            views(out@) == sv.take(k as int).map_values(|c: Seq<char>| trim(c)),
        decreases segs@.len() - k,
    {
        let c = trim_chars(segs[k].as_slice());
        let ghost before = out@;
        out.push(c);
        assert(sv[k as int] == segs@[k as int]@);
        assert(views(out@) =~= views(before).push(trim(sv[k as int])));
        assert(sv.take(k + 1).map_values(|c: Seq<char>| trim(c)) =~= sv.take(k as int).map_values(|c: Seq<char>| trim(c)).push(trim(sv[k as int])));
        k += 1;
    }
    assert(sv.take(segs@.len() as int) =~= sv);
    out
}

/// `Header N` for the `i`-th cell.
fn header_chars(i: usize) -> (r: Vec<char>)
    requires
        i < usize::MAX,
    ensures
        r@ == header_name(i as int),
{
    let mut out = chars_of("Header ");
    let d = decimal_chars((i + 1) as u64);
    let ghost h = out@;
    let mut k: usize = 0;
    while k < d.len()
        invariant
            k <= d@.len(),
            out@ == h + d@.take(k as int),
        decreases d@.len() - k,
    {
        out.push(d[k]);
        assert(d@.take(k + 1) =~= d@.take(k as int).push(d@[k as int]));
        k += 1;
    }
    assert(d@.take(d@.len() as int) =~= d@);
    out
}

/// Whether a trimmed line leaves a body blank.
fn is_blank_row(t: &[char]) -> (r: bool)
    ensures
        r == blank_row(t@),
{
    if t.len() == 0 {
        return true;
    }
    if t[0] != '|' {
        return false;
    }
    let cells = cells_of(t);
    let ghost cv = views(cells@);
    let mut separator = cells.len() > 0;
    let mut all_empty = true;
    let mut defaults = true;
    let mut k: usize = 0;
    while k < cells.len()
        invariant
            k <= cells@.len(),
            cv == views(cells@),
            cv == line_cells(t@),
            separator == (cells@.len() > 0 && forall|i: int| 0 <= i < k ==> (#[trigger] cv[i]).len() > 0
                && forall|j: int| 0 <= j < cv[i].len() ==> (cv[i][j] == '-' || cv[i][j] == ':')),
            all_empty == forall|i: int| 0 <= i < k ==> (#[trigger] cv[i]).len() == 0,
            defaults == forall|i: int| 0 <= i < k ==> #[trigger] cv[i] == header_name(i),
        decreases cells@.len() - k,
    {
        assert(cv[k as int] == cells@[k as int]@);
        let c = &cells[k];
        let mut dash = c.len() > 0;
        let mut j: usize = 0;
        while j < c.len()
            invariant
                j <= c@.len(),
                dash == (c@.len() > 0 && forall|m: int| 0 <= m < j ==> (c@[m] == '-' || c@[m] == ':')),
            decreases c@.len() - j,
        {
            if c[j] != '-' && c[j] != ':' {
                dash = false;
            }
            j += 1;
        }
        separator = separator && dash;
        all_empty = all_empty && c.len() == 0;
        let h = header_chars(k);
        defaults = defaults && crate::text::chars_equal(c.as_slice(), h.as_slice());
        k += 1;
    }
    separator || all_empty || defaults
}

/// True when the body has nothing but white space, separator rows,
/// empty rows or default-header tables.
pub fn body_looks_blank(body: &str) -> (r: bool)
    ensures
        r == looks_blank(body@),
{
    let cs = chars_of(body);
    let t = trim_chars(cs.as_slice());
    if t.len() == 0 {
        return true;
    }
    let ls = lines_of(t.as_slice());
    let ghost lv = views(ls@);
    let mut i: usize = 0;
    while i < ls.len()
        invariant
            i <= ls@.len(),
            lv == views(ls@),
            lv == lines(trim(body@)),
            forall|k: int| 0 <= k < i ==> blank_row(trim(#[trigger] lv[k])),
        decreases ls@.len() - i,
    {
        assert(lv[i as int] == ls@[i as int]@);
        let row = trim_chars(ls[i].as_slice());
        if !is_blank_row(row.as_slice()) {
            return false;
        }
        i += 1;
    }
    true
}

/// Summary of a folder's contents: `N file(s)`, `M folder(s)`, joined by
/// a comma, or `Empty`.
pub open spec fn summary_text(files: nat, folders: nat) -> Seq<char> {
    let f = decimal(files) + (if files == 1 { " file"@ } else { " files"@ });
    let d = decimal(folders) + (if folders == 1 { " folder"@ } else { " folders"@ });
    if files > 0 && folders > 0 {
        f + ", "@ + d
    } else if files > 0 {
        f
    } else if folders > 0 {
        d
    } else {
        "Empty"@
    }
}

/// The summary line of a folder holding `files` notes and `folders`
/// sub-folders.
pub fn folder_summary_text(files: usize, folders: usize) -> (r: String)
    ensures
        r@ == summary_text(files as nat, folders as nat),
{
    if files == 0 && folders == 0 {
        return string_from("Empty");
    }
    let mut s = String::new();
    if files > 0 {
        let d = decimal_chars(files as u64);
        push_chars(&mut s, d.as_slice());
        if files == 1 {
            crate::text::push_str(&mut s, " file");
        } else {
            crate::text::push_str(&mut s, " files");
        }
    }
    if folders > 0 {
        if files > 0 {
            crate::text::push_str(&mut s, ", ");
        }
        let d = decimal_chars(folders as u64);
        push_chars(&mut s, d.as_slice());
        if folders == 1 {
            crate::text::push_str(&mut s, " folder");
        } else {
            crate::text::push_str(&mut s, " folders");
        }
    }
    proof {
        let f = decimal(files as nat) + (if files == 1 { " file"@ } else { " files"@ });
        let d = decimal(folders as nat) + (if folders == 1 { " folder"@ } else { " folders"@ });
        if files > 0 && folders > 0 {
            assert(s@ =~= f + ", "@ + d);
        } else if files > 0 {
            assert(s@ =~= f);
        } else {
            assert(s@ =~= d);
        }
    }
    s
}

/// Heading level of a preview line: after leading white space, one or
/// more `#` and a space; four or more count as level 3.
pub open spec fn preview_heading(line: Seq<char>) -> Option<u8> {
    let t = crate::text::trim_start(line);
    let n = crate::blocks::leading_hashes(t);
    if 1 <= n && n < t.len() && t[n as int] == ' ' {
        Some(if n <= 3 { n as u8 } else { 3u8 })
    } else {
        None
    }
}

/// Returns the markdown heading level of the line, capped at 3, or none.
pub fn parse_heading_level(line: &str) -> (r: Option<u8>)
    ensures
        r == preview_heading(line@),
{
    let cs = chars_of(line);
    let t = crate::text::trim_start_chars(cs.as_slice());
    let mut n: usize = 0;
    while n < t.len() && t[n] == '#'
        invariant
            n <= t@.len(),
            forall|k: int| 0 <= k < n ==> #[trigger] t@[k] == '#',
        decreases t@.len() - n,
    {
        n += 1;
    }
    proof {
        crate::blocks::lemma_leading_hashes(t@, n as int);
    }
    if n >= 1 && n < t.len() && t[n] == ' ' {
        Some(if n <= 3 { n as u8 } else { 3u8 })
    } else {
        None
    }
}


// ---------------------------------------------------------------------------
// Listing a folder
// ---------------------------------------------------------------------------

/// Lower-case form of an ASCII letter; other characters unchanged.
pub open spec fn ascii_lower(c: char) -> char {
    if 'A' <= c && c <= 'Z' {
        ((c as u32) + 32) as char
    } else {
        c
    }
}

/// The file extensions of notes.
pub open spec fn note_extensions() -> Seq<Seq<char>> {
    seq!["md"@, "txt"@, "markdown"@, "mdown"@]
}

/// A file extension names a note, ignoring ASCII case.
pub open spec fn is_note_ext(ext: Seq<char>) -> bool {
    note_extensions().contains(ext.map_values(|c: char| ascii_lower(c)))
}

/// Whether a file with extension `ext` is listed as a note.
pub fn is_note_extension(ext: &str) -> (r: bool)
    ensures
        r == is_note_ext(ext@),
{
    let cs = chars_of(ext);
    let mut low: Vec<char> = Vec::new();
    let mut i: usize = 0;
    while i < cs.len()
        invariant
            i <= cs@.len(),
            low@ == cs@.take(i as int).map_values(|c: char| ascii_lower(c)),
        decreases cs@.len() - i,
    {
        let c = cs[i];
        let l = if 'A' <= c && c <= 'Z' {
            proof {
                assert(('A' as u32) <= (c as u32) <= ('Z' as u32));
            }
            ((c as u8) + 32) as char
        } else {
            c
        };
        proof {
            if 'A' <= c && c <= 'Z' {
                assert((c as u8) as int == (c as u32) as int);
                assert((((c as u8) + 32) as char) == (((c as u32) + 32) as char));
            }
        }
        low.push(l);
        assert(cs@.take(i + 1).map_values(|c: char| ascii_lower(c)) =~= cs@.take(i as int).map_values(
            |c: char| ascii_lower(c),
        ).push(ascii_lower(c)));
        i += 1;
    }
    assert(cs@.take(cs@.len() as int) =~= cs@);
    let ghost lowered = ext@.map_values(|c: char| ascii_lower(c));
    assert(low@ == lowered);
    let names: [&str; 4] = ["md", "txt", "markdown", "mdown"];
    proof {
        reveal_strlit("md");
        reveal_strlit("txt");
        reveal_strlit("markdown");
        reveal_strlit("mdown");
    }
    let mut k: usize = 0;
    while k < 4
        invariant
            k <= 4,
            names@ == seq!["md", "txt", "markdown", "mdown"],
            low@ == lowered,
            lowered == ext@.map_values(|c: char| ascii_lower(c)),
            forall|j: int| 0 <= j < k ==> note_extensions()[j] != low@,
        decreases 4 - k,
    {
        let nc = chars_of(names[k]);
        if crate::text::chars_equal(low.as_slice(), nc.as_slice()) {
            assert(note_extensions()[k as int] == low@);
            return true;
        }
        k += 1;
    }
    assert(!note_extensions().contains(low@)) by {
        if note_extensions().contains(low@) {
            let j = choose|j: int| 0 <= j < 4 && note_extensions()[j] == low@;
            assert(note_extensions()[j] != low@);
        }
    }
    false
}

/// A folder entry as the browser orders it: whether it is a folder, and
/// when it was last modified.
#[derive(Debug, Clone, Copy)]
pub struct ScanEntry {
    pub is_dir: bool,
    pub modified: u128,
}

/// Entry `i` is listed before entry `j`: folders before files, then the
/// most recently modified first, then in the order found.
pub open spec fn listed_before(es: Seq<ScanEntry>, i: int, j: int) -> bool {
    if es[i].is_dir != es[j].is_dir {
        es[i].is_dir
    } else if es[i].modified != es[j].modified {
        es[i].modified > es[j].modified
    } else {
        i < j
    }
}

fn before(es: &[ScanEntry], i: usize, j: usize) -> (r: bool)
    requires
        i < es.len(),
        j < es.len(),
    ensures
        r == listed_before(es@, i as int, j as int),
{
    if es[i].is_dir != es[j].is_dir {
        es[i].is_dir
    } else if es[i].modified != es[j].modified {
        es[i].modified > es[j].modified
    } else {
        i < j
    }
}

/// The order in which the browser lists the entries: folders first, then
/// files, each most recently modified first; entries modified at the same
/// time keep the order in which they were found.
pub fn browser_order(es: &[ScanEntry]) -> (r: Vec<usize>)
    ensures
        r@.len() == es@.len(),
        forall|p: int| 0 <= p < r@.len() ==> #[trigger] r@[p] < es@.len(),
        forall|p: int, q: int|
            0 <= p < q < r@.len() ==> listed_before(es@, #[trigger] r@[p] as int, #[trigger] r@[q] as int),
{
    let mut out: Vec<usize> = Vec::new();
    let mut i: usize = 0;
    while i < es.len()
        invariant
            i <= es@.len(),
            out@.len() == i,
            forall|p: int| 0 <= p < out@.len() ==> #[trigger] out@[p] < i,
            forall|p: int, q: int|
                0 <= p < q < out@.len() ==> listed_before(
                    es@,
                    #[trigger] out@[p] as int,
                    #[trigger] out@[q] as int,
                ),
        decreases es@.len() - i,
    {
        let mut p: usize = 0;
        while p < out.len() && before(es, out[p], i)
            invariant
                p <= out@.len(),
                i < es@.len(),
                forall|x: int| 0 <= x < out@.len() ==> #[trigger] out@[x] < i,
                forall|x: int| 0 <= x < p ==> listed_before(es@, #[trigger] out@[x] as int, i as int),
            decreases out@.len() - p,
        {
            p += 1;
        }
        let ghost o = out@;
        out.insert(p, i);
        proof {
            assert(out@ =~= o.take(p as int).push(i) + o.skip(p as int));
            if p < o.len() {
                assert(!listed_before(es@, o[p as int] as int, i as int));
                assert(o[p as int] != i);
            }
            assert forall|a: int, b: int| 0 <= a < b < out@.len() implies listed_before(
                es@,
                #[trigger] out@[a] as int,
                #[trigger] out@[b] as int,
            ) by {
                if b < p {
                    assert(out@[a] == o[a] && out@[b] == o[b]);
                } else if b == p {
                    assert(out@[a] == o[a]);
                } else if a == p {
                    assert(out@[b] == o[b - 1]);
                    assert(listed_before(es@, o[p as int] as int, o[b - 1] as int) || b - 1 == p);
                } else if a < p {
                    assert(out@[a] == o[a] && out@[b] == o[b - 1]);
                } else {
                    assert(out@[a] == o[a - 1] && out@[b] == o[b - 1]);
                }
            }
        }
        i += 1;
    }
    out
}

/// Lines of a note's preview.
pub const PREVIEW_LINES: usize = 32;

/// Preview of a note file's text: `(empty note)` for a blank body, else
/// its first `PREVIEW_LINES` lines joined by line breaks.
pub open spec fn preview_of(text: Seq<char>) -> Seq<char> {
    let body = body_of(text);
    if looks_blank(body) {
        "(empty note)"@
    } else {
        let ls = lines(body);
        crate::editor::join_lines(
            if ls.len() <= PREVIEW_LINES {
                ls
            } else {
                ls.take(PREVIEW_LINES as int)
            },
        )
    }
}

/// The preview of a note shown on its card.
pub fn note_preview(text: &str) -> (r: String)
    ensures
        r@ == preview_of(text@),
{
    let body = strip_sidecar_archive(text);
    if body_looks_blank(body.as_str()) {
        proof {
            reveal_strlit("(empty note)");
        }
        return string_from("(empty note)");
    }
    let cs = chars_of(body.as_str());
    let ls = lines_of(cs.as_slice());
    let ghost all = views(ls@);
    let n = if ls.len() <= PREVIEW_LINES {
        ls.len()
    } else {
        PREVIEW_LINES
    };
    let ghost kept = all.take(n as int);
    assert(kept =~= (if all.len() <= PREVIEW_LINES { all } else { all.take(PREVIEW_LINES as int) }));
    let mut out = String::new();
    let mut i: usize = 0;
    assert(kept.take(0) =~= Seq::<Seq<char>>::empty());
    while i < n
        invariant
            i <= n <= ls@.len(),
            all == views(ls@),
            kept == all.take(n as int),
            out@ == crate::editor::join_lines(kept.take(i as int)),
        decreases n - i,
    {
        assert(kept.take(i + 1).drop_last() =~= kept.take(i as int));
        assert(kept.take(i + 1).last() == ls@[i as int]@);
        if i > 0 {
            crate::text::push_char(&mut out, '\n');
        }
        push_chars(&mut out, ls[i].as_slice());
        proof {
            if i == 0 {
                assert(out@ =~= crate::editor::join_lines(kept.take(i + 1)));
            }
        }
        i += 1;
    }
    assert(kept.take(n as int) =~= kept);
    out
}

// ---------------------------------------------------------------------------
// Selection
// ---------------------------------------------------------------------------

/// Position of the first item equal to `p`.
pub open spec fn first_index(items: Seq<Seq<char>>, p: Seq<char>) -> Option<int>
    decreases items.len(),
{
    if items.len() == 0 {
        None
    } else {
        match first_index(items.drop_last(), p) {
            Some(i) => Some(i),
            None => if items.last() == p {
                Some(items.len() - 1)
            } else {
                None
            },
        }
    }
}

/// The items at positions `lo..=hi`.
pub open spec fn range_set(items: Seq<Seq<char>>, lo: int, hi: int) -> Set<Seq<char>> {
    Set::new(|x: Seq<char>| exists|i: int| lo <= i <= hi && 0 <= i < items.len() && items[i] == x)
}

/// Selection and anchor after a shift-click on `p`: the items between the
/// anchor and `p`, when both are listed; else `p` alone, which becomes the
/// anchor.
pub open spec fn range_click(
    anchor: Option<Seq<char>>,
    p: Seq<char>,
    items: Seq<Seq<char>>,
) -> (Set<Seq<char>>, Option<Seq<char>>) {
    match anchor {
        Some(a) => match (first_index(items, a), first_index(items, p)) {
            (Some(i), Some(j)) => if i <= j {
                (range_set(items, i, j), anchor)
            } else {
                (range_set(items, j, i), anchor)
            },
            _ => (set![p], Some(p)),
        },
        None => (set![p], Some(p)),
    }
}

/// Selection and anchor after a click on `p`: with the command key the
/// item's membership flips and it becomes the anchor; with shift the range
/// from the anchor is selected; a plain click selects `p` alone.
pub open spec fn click_view(
    sel: (Set<Seq<char>>, Option<Seq<char>>),
    p: Seq<char>,
    command: bool,
    shift: bool,
    items: Seq<Seq<char>>,
) -> (Set<Seq<char>>, Option<Seq<char>>) {
    if command {
        if sel.0.contains(p) {
            (sel.0.remove(p), Some(p))
        } else {
            (sel.0.insert(p), Some(p))
        }
    } else if shift {
        range_click(sel.1, p, items)
    } else {
        (set![p], Some(p))
    }
}

/// Clicking an item twice with the command key leaves the selection as it
/// was, whatever other modifiers are held.
pub proof fn lemma_command_click_twice(
    sel: (Set<Seq<char>>, Option<Seq<char>>),
    p: Seq<char>,
    shift1: bool,
    shift2: bool,
    items: Seq<Seq<char>>,
)
    ensures
        click_view(click_view(sel, p, true, shift1, items), p, true, shift2, items).0 == sel.0,
{
    if sel.0.contains(p) {
        assert(sel.0.remove(p).insert(p) =~= sel.0);
    } else {
        assert(sel.0.insert(p).remove(p) =~= sel.0);
    }
}

/// A shift-click after a plain click on a listed item selects every item
/// listed between the two.
pub proof fn lemma_plain_then_shift_click(
    sel: (Set<Seq<char>>, Option<Seq<char>>),
    a: Seq<char>,
    p: Seq<char>,
    items: Seq<Seq<char>>,
)
    requires
        items.contains(a),
        items.contains(p),
    ensures
        ({
            let i = first_index(items, a).unwrap();
            let j = first_index(items, p).unwrap();
            let after = click_view(click_view(sel, a, false, false, items), p, false, true, items);
            &&& after.1 == Some(a)
            &&& after.0 == if i <= j {
                range_set(items, i, j)
            } else {
                range_set(items, j, i)
            }
        }),
{
    lemma_first_index_some(items, a);
    lemma_first_index_some(items, p);
}

proof fn lemma_first_index_some(items: Seq<Seq<char>>, p: Seq<char>)
    requires
        items.contains(p),
    ensures
        first_index(items, p) is Some,
    decreases items.len(),
{
    let k = choose|k: int| 0 <= k < items.len() && items[k] == p;
    if k < items.len() - 1 {
        assert(items.drop_last()[k] == p);
        lemma_first_index_some(items.drop_last(), p);
    }
}

/// The items selected in the browser and the anchor of shift-click ranges.
pub struct BrowserSelection {
    selected: Vec<String>,
    anchor: Option<String>,
}

impl View for BrowserSelection {
    type V = (Set<Seq<char>>, Option<Seq<char>>);

    closed spec fn view(&self) -> (Set<Seq<char>>, Option<Seq<char>>) {
        (string_views(self.selected@).to_set(), opt_chars(self.anchor))
    }
}

/// Adds `s` to a list of distinct strings unless it is there already.
fn insert_unique(v: &mut Vec<String>, s: String)
    requires
        string_views(old(v)@).no_duplicates(),
    ensures
        string_views(final(v)@).no_duplicates(),
        string_views(final(v)@).to_set() == string_views(old(v)@).to_set().insert(s@),
{
    let ghost old_v = string_views(v@);
    let mut i: usize = 0;
    while i < v.len()
        invariant
            i <= v@.len(),
            old_v == string_views(v@),
            old_v.no_duplicates(),
            forall|k: int| 0 <= k < i ==> old_v[k] != s@,
        decreases v@.len() - i,
    {
        if str_equal(v[i].as_str(), s.as_str()) {
            proof {
                assert(old_v[i as int] == s@);
                assert(old_v.to_set().insert(s@) =~= old_v.to_set());
            }
            return;
        }
        i += 1;
    }
    let ghost sv = s@;
    v.push(s);
    proof {
        lemma_views_push(old(v)@, v@.last());
        assert(string_views(v@) == old_v.push(sv));
        old_v.lemma_push_to_set_commute(sv);
        assert forall|a: int, b: int|
            0 <= a < b < string_views(v@).len() implies string_views(v@)[a] != string_views(
            v@,
        )[b] by {
            if b == old_v.len() {
                assert(string_views(v@)[a] == old_v[a]);
            } else {
                assert(string_views(v@)[a] == old_v[a] && string_views(v@)[b] == old_v[b]);
            }
        }
    }
}

/// The strings of `v` other than `s`.
fn without(v: &Vec<String>, s: &str) -> (r: Vec<String>)
    requires
        string_views(v@).no_duplicates(),
    ensures
        string_views(r@).no_duplicates(),
        string_views(r@).to_set() == string_views(v@).to_set().remove(s@),
{
    let ghost vv = string_views(v@);
    let mut out: Vec<String> = Vec::new();
    let mut i: usize = 0;
    while i < v.len()
        invariant
            i <= v@.len(),
            vv == string_views(v@),
            vv.no_duplicates(),
            string_views(out@).no_duplicates(),
            string_views(out@).to_set() == vv.take(i as int).to_set().remove(s@),
        decreases v@.len() - i,
    {
        let ghost before = out@;
        proof {
            assert(vv.take(i + 1) =~= vv.take(i as int).push(vv[i as int]));
            vv.take(i as int).lemma_push_to_set_commute(vv[i as int]);
        }
        if !str_equal(v[i].as_str(), s) {
            insert_unique(&mut out, v[i].clone());
            assert(vv.take(i + 1).to_set().remove(s@) =~= vv.take(i as int).to_set().remove(
                s@,
            ).insert(vv[i as int]));
        } else {
            assert(vv.take(i + 1).to_set().remove(s@) =~= vv.take(i as int).to_set().remove(
                s@,
            ));
        }
        i += 1;
    }
    assert(vv.take(v@.len() as int) =~= vv);
    out
}

/// Position of the first item equal to `p`.
fn first_position(items: &[String], p: &str) -> (r: Option<usize>)
    ensures
        first_index(string_views(items@), p@) == match r {
            Some(i) => Some(i as int),
            None => None::<int>,
        },
{
    let ghost iv = string_views(items@);
    let mut i: usize = 0;
    assert(iv.take(0) =~= Seq::<Seq<char>>::empty());
    while i < items.len()
        invariant
            i <= items@.len(),
            iv == string_views(items@),
            first_index(iv.take(i as int), p@) is None,
        decreases items@.len() - i,
    {
        assert(iv.take(i + 1).drop_last() =~= iv.take(i as int));
        if str_equal(items[i].as_str(), p) {
            proof {
                lemma_first_index_prefix(iv, i as int + 1, p@);
            }
            return Some(i);
        }
        i += 1;
    }
    assert(iv.take(items@.len() as int) =~= iv);
    None
}

proof fn lemma_first_index_prefix(items: Seq<Seq<char>>, n: int, p: Seq<char>)
    requires
        0 <= n <= items.len(),
        first_index(items.take(n), p) is Some,
    ensures
        first_index(items, p) == first_index(items.take(n), p),
    decreases items.len() - n,
{
    if n < items.len() {
        assert(items.take(n + 1).drop_last() =~= items.take(n));
        lemma_first_index_prefix(items, n + 1, p);
    } else {
        assert(items.take(n) =~= items);
    }
}

proof fn lemma_first_index_found(items: Seq<Seq<char>>, p: Seq<char>)
    ensures
        match first_index(items, p) {
            Some(i) => 0 <= i < items.len() && items[i] == p,
            None => true,
        },
    decreases items.len(),
{
    if items.len() > 0 {
        lemma_first_index_found(items.drop_last(), p);
    }
}

/// The items at positions `lo..=hi`, each once.
fn range_items(items: &[String], lo: usize, hi: usize) -> (r: Vec<String>)
    requires
        lo <= hi < items@.len(),
    ensures
        string_views(r@).no_duplicates(),
        string_views(r@).to_set() == range_set(string_views(items@), lo as int, hi as int),
{
    let ghost iv = string_views(items@);
    let mut out: Vec<String> = Vec::new();
    let mut i = lo;
    assert(string_views(out@).to_set() =~= range_set(iv, lo as int, lo - 1));
    while i <= hi
        invariant
            lo <= i <= hi + 1,
            hi < items@.len(),
            iv == string_views(items@),
            string_views(out@).no_duplicates(),
            string_views(out@).to_set() == range_set(iv, lo as int, i - 1),
        decreases hi + 1 - i,
    {
        insert_unique(&mut out, items[i].clone());
        assert(range_set(iv, lo as int, i as int) =~= range_set(iv, lo as int, i - 1).insert(
            iv[i as int],
        ));
        i += 1;
    }
    out
}

proof fn lemma_first_index_none(items: Seq<Seq<char>>, p: Seq<char>)
    ensures
        first_index(items, p) is None ==> !items.contains(p),
    decreases items.len(),
{
    if items.len() > 0 {
        lemma_first_index_none(items.drop_last(), p);
        if first_index(items, p) is None && items.contains(p) {
            let k = choose|k: int| 0 <= k < items.len() && items[k] == p;
            if k < items.len() - 1 {
                assert(items.drop_last()[k] == p);
            }
        }
    }
}

proof fn lemma_views_push(v: Seq<String>, s: String)
    ensures
        string_views(v.push(s)) == string_views(v).push(s@),
{
    assert(string_views(v.push(s)) =~= string_views(v).push(s@));
}

impl BrowserSelection {
    /// Each selected item is listed once.
    #[verifier::type_invariant]
    closed spec fn listed_once(self) -> bool {
        string_views(self.selected@).no_duplicates()
    }

    /// Nothing selected, no anchor.
    pub fn new() -> (r: Self)
        ensures
            r@.0 == Set::<Seq<char>>::empty(),
            r@.1 is None,
    {
        let r = BrowserSelection { selected: Vec::new(), anchor: None };
        assert(string_views(r.selected@).to_set() =~= Set::<Seq<char>>::empty());
        r
    }

    /// Position of `p` among the selected items.
    fn position(&self, p: &str) -> (r: Option<usize>)
        ensures
            match r {
                Some(i) => i < self.selected@.len() && self.selected@[i as int]@ == p@,
                None => !self@.0.contains(p@),
            },
    {
        let mut i: usize = 0;
        while i < self.selected.len()
            invariant
                i <= self.selected@.len(),
                forall|k: int| 0 <= k < i ==> self.selected@[k]@ != p@,
            decreases self.selected@.len() - i,
        {
            if str_equal(self.selected[i].as_str(), p) {
                return Some(i);
            }
            i += 1;
        }
        proof {
            if string_views(self.selected@).to_set().contains(p@) {
                let k = choose|k: int|
                    0 <= k < self.selected@.len() && string_views(self.selected@)[k] == p@;
                assert(self.selected@[k]@ == p@);
            }
        }
        None
    }

    /// Whether `p` is selected.
    pub fn is_selected(&self, p: &str) -> (r: bool)
        ensures
            r == self@.0.contains(p@),
    {
        match self.position(p) {
            Some(i) => {
                assert(string_views(self.selected@)[i as int] == p@);
                true
            },
            None => false,
        }
    }

    /// The anchor of shift-click ranges.
    pub fn anchor(&self) -> (r: Option<String>)
        ensures
            opt_chars(r) == self@.1,
    {
        match &self.anchor {
            Some(a) => Some(a.clone()),
            None => None,
        }
    }

    /// The selected items, each once.
    pub fn selected_paths(&self) -> (r: Vec<String>)
        ensures
            string_views(r@).to_set() == self@.0,
            string_views(r@).no_duplicates(),
    {
        proof {
            use_type_invariant(self);
        }
        let r = self.selected.clone();
        assert(r@ =~= self.selected@);
        r
    }

    /// The selected item when exactly one is selected.
    pub fn single_selected(&self) -> (r: Option<String>)
        ensures
            match r {
                Some(p) => self@.0 == set![p@],
                None => !(exists|p: Seq<char>| self@.0 == set![p]),
            },
    {
        proof {
            use_type_invariant(self);
            string_views(self.selected@).unique_seq_to_set();
        }
        if self.selected.len() == 1 {
            let p = self.selected[0].clone();
            assert(string_views(self.selected@) =~= seq![p@]);
            assert(string_views(self.selected@).to_set() =~= set![p@]) by {
                assert(seq![p@] =~= Seq::<Seq<char>>::empty().push(p@));
                Seq::<Seq<char>>::empty().lemma_push_to_set_commute(p@);
                assert(Seq::<Seq<char>>::empty().to_set() =~= Set::<Seq<char>>::empty());
            }
            Some(p)
        } else {
            proof {
                if exists|p: Seq<char>| self@.0 == set![p] {
                    let p = choose|p: Seq<char>| self@.0 == set![p];
                    assert(set![p].len() == 1);
                }
            }
            None
        }
    }

    /// Applies a click on `p` among the listed `items`: the command key
    /// flips `p`'s membership, shift selects the range from the anchor, a
    /// plain click selects `p` alone.
    pub fn click(&mut self, p: &str, command: bool, shift: bool, items: &[String])
        ensures
            final(self)@ == click_view(old(self)@, p@, command, shift, string_views(items@)),
    {
        proof {
            use_type_invariant(&*self);
        }
        if command {
            let sel = if self.is_selected(p) {
                without(&self.selected, p)
            } else {
                let mut v = self.selected.clone();
                assert(v@ =~= self.selected@);
                insert_unique(&mut v, crate::text::string_from(p));
                v
            };
            self.selected = sel;
            self.anchor = Some(crate::text::string_from(p));
        } else if shift {
            self.select_range_from_anchor(p, items);
        } else {
            self.select_only(p);
        }
    }

    /// Selects `p` alone and makes it the anchor.
    fn select_only(&mut self, p: &str)
        ensures
            final(self)@ == (set![p@], Some(p@)),
    {
        let mut v: Vec<String> = Vec::new();
        v.push(crate::text::string_from(p));
        proof {
            assert(string_views(v@) =~= seq![p@]);
            assert(seq![p@] =~= Seq::<Seq<char>>::empty().push(p@));
            Seq::<Seq<char>>::empty().lemma_push_to_set_commute(p@);
            assert(Seq::<Seq<char>>::empty().to_set() =~= Set::<Seq<char>>::empty());
        }
        self.selected = v;
        self.anchor = Some(crate::text::string_from(p));
        assert(self@.0 =~= set![p@]);
    }

    /// Selects the listed items between the anchor and `p`, keeping the
    /// anchor; without an anchor, or when either is not listed, selects
    /// `p` alone.
    pub fn select_range_from_anchor(&mut self, p: &str, items: &[String])
        ensures
            final(self)@ == range_click(old(self)@.1, p@, string_views(items@)),
    {
        let a = match &self.anchor {
            Some(a) => first_position(items, a.as_str()),
            None => None,
        };
        let b = first_position(items, p);
        match (a, b) {
            (Some(i), Some(j)) => {
                proof {
                    lemma_first_index_found(string_views(items@), p@);
                    lemma_first_index_found(string_views(items@), old(self)@.1.unwrap());
                }
                let (lo, hi) = if i <= j {
                    (i, j)
                } else {
                    (j, i)
                };
                let sel = range_items(items, lo, hi);
                self.selected = sel;
            },
            _ => {
                self.select_only(p);
            },
        }
    }

    /// Drops `p` from the selection, and from the anchor.
    pub fn remove(&mut self, p: &str)
        ensures
            final(self)@.0 == old(self)@.0.remove(p@),
            final(self)@.1 == if old(self)@.1 == Some(p@) {
                None
            } else {
                old(self)@.1
            },
    {
        proof {
            use_type_invariant(&*self);
        }
        let sel = without(&self.selected, p);
        self.selected = sel;
        let drop_anchor = match &self.anchor {
            Some(a) => str_equal(a.as_str(), p),
            None => false,
        };
        if drop_anchor {
            self.anchor = None;
        }
    }

    /// Keeps only the selected items that are still `live`, and the anchor
    /// only if it is.
    pub fn prune(&mut self, live: &[String])
        ensures
            final(self)@.0 == old(self)@.0.intersect(string_views(live@).to_set()),
            final(self)@.1 == match old(self)@.1 {
                Some(a) => if string_views(live@).contains(a) {
                    Some(a)
                } else {
                    None
                },
                None => None,
            },
    {
        proof {
            use_type_invariant(&*self);
        }
        let ghost sv = string_views(self.selected@);
        let ghost lv = string_views(live@);
        let mut out: Vec<String> = Vec::new();
        let mut i: usize = 0;
        while i < self.selected.len()
            invariant
                i <= self.selected@.len(),
                sv == string_views(self.selected@),
                lv == string_views(live@),
                string_views(out@).no_duplicates(),
                string_views(out@).to_set() == sv.take(i as int).to_set().intersect(lv.to_set()),
            decreases self.selected@.len() - i,
        {
            proof {
                assert(sv.take(i + 1) =~= sv.take(i as int).push(sv[i as int]));
                sv.take(i as int).lemma_push_to_set_commute(sv[i as int]);
            }
            if first_position(live, self.selected[i].as_str()).is_some() {
                proof {
                    lemma_first_index_found(lv, sv[i as int]);
                }
                insert_unique(&mut out, self.selected[i].clone());
                assert(sv.take(i + 1).to_set().intersect(lv.to_set()) =~= sv.take(
                    i as int,
                ).to_set().intersect(lv.to_set()).insert(sv[i as int]));
            } else {
                proof {
                    lemma_first_index_none(lv, sv[i as int]);
                }
                assert(sv.take(i + 1).to_set().intersect(lv.to_set()) =~= sv.take(
                    i as int,
                ).to_set().intersect(lv.to_set()));
            }
            i += 1;
        }
        assert(sv.take(self.selected@.len() as int) =~= sv);
        self.selected = out;
        let keep = match &self.anchor {
            Some(a) => {
                let f = first_position(live, a.as_str());
                proof {
                    lemma_first_index_found(lv, a@);
                    lemma_first_index_none(lv, a@);
                }
                f.is_some()
            },
            None => false,
        };
        if !keep {
            self.anchor = None;
        }
    }

    /// Forgets the selection and the anchor.
    pub fn clear(&mut self)
        ensures
            final(self)@.0 == Set::<Seq<char>>::empty(),
            final(self)@.1 is None,
    {
        self.selected = Vec::new();
        self.anchor = None;
        assert(string_views(self.selected@).to_set() =~= Set::<Seq<char>>::empty());
    }
}

} // verus!
