//! Caret positions of the editor: the line and column of a caret, the
//! character and byte offsets they stand for, and the text edits the
//! editor makes around the caret.
use vstd::prelude::*;
use vstd::utf8::{encode_scalar, encode_utf8};
use crate::browser::find_sub_from;
use crate::editor::{
    closer_stack, count_leading_char, count_trailing_char, innermost_unclosed_delim, leading_count,
    trailing_count,
};
use crate::text::{
    chars_equal, char_is_whitespace, ends_with, has_prefix, has_suffix, starts_with, chars_of, count_char, find_char, find_char_from, is_white_space, lines,
    lines_of, push_char, push_chars, string_of, sub_chars, views,
};

verus! {

// ---------------------------------------------------------------------------
// Offsets and positions
// ---------------------------------------------------------------------------

/// Index of the first line break at or after `k`, or the length of `t`.
pub open spec fn line_end(t: Seq<char>, k: int) -> int {
    match find_char(t.skip(k), '\n') {
        Some(i) => k + i,
        None => t.len() as int,
    }
}

pub proof fn lemma_line_end(t: Seq<char>, k: int)
    requires
        0 <= k <= t.len(),
    ensures
        k <= line_end(t, k) <= t.len(),
        line_end(t, k) < t.len() ==> t[line_end(t, k)] == '\n',
        forall|j: int| k <= j < line_end(t, k) ==> t[j] != '\n',
{
    crate::text::lemma_find_char_bounds(t.skip(k), '\n');
    match find_char(t.skip(k), '\n') {
        Some(i) => {
            assert(t.skip(k)[i] == t[k + i]);
            assert forall|j: int| k <= j < k + i implies t[j] != '\n' by {
                assert(t.skip(k)[j - k] == t[j]);
            }
        },
        None => {
            assert forall|j: int| k <= j < t.len() implies t[j] != '\n' by {
                assert(t.skip(k)[j - k] == t[j]);
            }
        },
    }
}

/// Character offset of the caret at column `col` of line `line`, the
/// lines counted from the one starting at `k`: the column is capped at
/// the end of its line; past the last line the offset is the text's end.
pub open spec fn caret_from(t: Seq<char>, k: int, line: nat, col: nat) -> int
    decreases t.len() - k,
{
    if k < 0 || k >= t.len() {
        t.len() as int
    } else {
        let e = line_end(t, k);
        if line == 0 {
            if col < e - k {
                k + col
            } else {
                e
            }
        } else if e >= t.len() {
            t.len() as int
        } else {
            proof {
                lemma_line_end(t, k);
            }
            caret_from(t, e + 1, (line - 1) as nat, col)
        }
    }
}

/// Character offset of the caret at column `col` of line `line` of `t`.
pub open spec fn caret_index(t: Seq<char>, line: nat, col: nat) -> int {
    caret_from(t, 0, line, col)
}

/// Index of the last line break in `s`, or -1.
pub open spec fn last_break(s: Seq<char>) -> int
    decreases s.len(),
{
    if s.len() == 0 {
        -1
    } else if s.last() == '\n' {
        s.len() - 1
    } else {
        last_break(s.drop_last())
    }
}

/// Line and column of the caret at character offset `k`: line breaks
/// before it, and characters since the last of them; at or past the end,
/// the last line of `str::lines` and its length.
pub open spec fn position_of(t: Seq<char>, k: int) -> (int, int) {
    if 0 <= k < t.len() {
        (count_char(t.take(k), '\n') as int, k - last_break(t.take(k)) - 1)
    } else {
        let ls = lines(t);
        if ls.len() == 0 {
            (0, 0)
        } else {
            (ls.len() - 1, ls.last().len() as int)
        }
    }
}

proof fn lemma_caret_bounds(t: Seq<char>, k: int, line: nat, col: nat)
    requires
        0 <= k,
    ensures
        0 <= caret_from(t, k, line, col) <= t.len(),
        k <= t.len() ==> k <= caret_from(t, k, line, col),
    decreases t.len() - k,
{
    if k < t.len() {
        lemma_line_end(t, k);
        let e = line_end(t, k);
        if line != 0 && e < t.len() {
            lemma_caret_bounds(t, e + 1, (line - 1) as nat, col);
        }
    }
}

/// Character offset of the caret at column `col` of line `line`.
pub fn caret_offset(text: &[char], line: usize, col: usize) -> (r: usize)
    ensures
        r == caret_index(text@, line as nat, col as nat),
        r <= text@.len(),
{
    let n = text.len();
    let mut k: usize = 0;
    let mut l: usize = line;
    proof {
        lemma_caret_bounds(text@, 0, line as nat, col as nat);
    }
    while k < n
        invariant
            n == text@.len(),
            k <= n,
            caret_index(text@, line as nat, col as nat) == caret_from(
                text@,
                k as int,
                l as nat,
                col as nat,
            ),
        decreases n - k,
    {
        let e = match find_char_from(text, k, '\n') {
            Some(i) => i,
            None => n,
        };
        proof {
            lemma_line_end(text@, k as int);
        }
        assert(e == line_end(text@, k as int));
        if l == 0 {
            if col < e - k {
                return k + col;
            } else {
                return e;
            }
        }
        if e >= n {
            return n;
        }
        k = e + 1;
        l -= 1;
    }
    n
}

proof fn lemma_last_break_bounds(s: Seq<char>)
    ensures
        -1 <= last_break(s) < s.len(),
        last_break(s) >= 0 ==> s[last_break(s)] == '\n',
        forall|j: int| last_break(s) < j < s.len() ==> s[j] != '\n',
    decreases s.len(),
{
    if s.len() > 0 && s.last() != '\n' {
        lemma_last_break_bounds(s.drop_last());
        assert forall|j: int| last_break(s) < j < s.len() implies s[j] != '\n' by {
            if j < s.len() - 1 {
                assert(s[j] == s.drop_last()[j]);
            }
        }
    }
}

/// Line and column of the caret at character offset `k`.
pub fn caret_position(text: &[char], k: usize) -> (r: (usize, usize))
    ensures
        (r.0 as int, r.1 as int) == position_of(text@, k as int),
{
    if k < text.len() {
        let mut i: usize = 0;
        let mut line: usize = 0;
        let mut col: usize = 0;
        assert(text@.take(0) =~= Seq::<char>::empty());
        while i < k
            invariant
                i <= k < text@.len(),
                line as int == count_char(text@.take(i as int), '\n'),
                col as int == i - last_break(text@.take(i as int)) - 1,
                line <= i,
                col <= i,
            decreases k - i,
        {
            assert(text@.take(i + 1).drop_last() =~= text@.take(i as int));
            proof {
                lemma_last_break_bounds(text@.take(i as int));
            }
            if text[i] == '\n' {
                line += 1;
                col = 0;
            } else {
                col += 1;
            }
            i += 1;
        }
        (line, col)
    } else {
        let ls = lines_of(text);
        proof {
            crate::text::lemma_lines_total(text@);
        }
        if ls.len() == 0 {
            (0, 0)
        } else {
            assert(views(ls@).last() == ls@[ls@.len() - 1]@);
            (ls.len() - 1, ls[ls.len() - 1].len())
        }
    }
}

// ---------------------------------------------------------------------------
// Byte offsets
// ---------------------------------------------------------------------------

/// Number of bytes of the UTF-8 encoding of `cs`.
pub open spec fn utf8_len(cs: Seq<char>) -> int {
    encode_utf8(cs).len() as int
}

proof fn lemma_encode_push(a: Seq<char>, c: char)
    ensures
        encode_utf8(a.push(c)) == encode_utf8(a) + encode_scalar(c as u32),
    decreases a.len(),
{
    if a.len() == 0 {
        assert(a.push(c).drop_first() =~= Seq::<char>::empty());
        assert(encode_utf8(Seq::<char>::empty()) =~= Seq::<u8>::empty());
        assert(encode_utf8(a) =~= Seq::<u8>::empty());
        assert(encode_utf8(a.push(c)) =~= encode_utf8(a) + encode_scalar(c as u32));
    } else {
        assert(a.push(c).drop_first() =~= a.drop_first().push(c));
        assert(a.push(c)[0] == a[0]);
        lemma_encode_push(a.drop_first(), c);
        assert(encode_utf8(a.push(c)) =~= encode_utf8(a) + encode_scalar(c as u32));
    }
}

/// Number of bytes of the UTF-8 encoding of `c`.
pub fn char_utf8_len(c: char) -> (r: usize)
    ensures
        r == encode_scalar(c as u32).len(),
        1 <= r <= 4,
{
    let v = c as u32;
    proof {
        vstd::utf8::char_is_scalar(c);
    }
    if v <= 0x7f {
        1
    } else if v <= 0x7ff {
        2
    } else if v <= 0xffff {
        3
    } else {
        4
    }
}

proof fn lemma_utf8_len_step(t: Seq<char>, i: int)
    requires
        0 <= i < t.len(),
    ensures
        utf8_len(t.take(i + 1)) == utf8_len(t.take(i)) + encode_scalar(t[i] as u32).len(),
        utf8_len(t.take(i + 1)) > utf8_len(t.take(i)),
{
    assert(t.take(i + 1) =~= t.take(i).push(t[i]));
    lemma_encode_push(t.take(i), t[i]);
    vstd::utf8::char_is_scalar(t[i]);
}

proof fn lemma_utf8_len_mono(t: Seq<char>, j: int, i: int)
    requires
        0 <= j < i <= t.len(),
    ensures
        utf8_len(t.take(j)) < utf8_len(t.take(i)),
    decreases i - j,
{
    lemma_utf8_len_step(t, i - 1);
    if j < i - 1 {
        lemma_utf8_len_mono(t, j, i - 1);
    }
}

/// Byte offset in `text` of the caret at column `col` of line `line`;
/// the column is capped at the end of its line, and past the last line
/// the offset is the text's length.
pub fn byte_offset_for_cursor(text: &str, line: usize, col: usize) -> (r: usize)
    requires
        utf8_len(text@) <= usize::MAX,
    ensures
        r == utf8_len(text@.take(caret_index(text@, line as nat, col as nat))),
{
    let cs = chars_of(text);
    let k = caret_offset(cs.as_slice(), line, col);
    let mut i: usize = 0;
    let mut b: usize = 0;
    assert(encode_utf8(cs@.take(0)) =~= Seq::<u8>::empty()) by {
        assert(cs@.take(0) =~= Seq::<char>::empty());
    }
    proof {
        assert(cs@.take(cs@.len() as int) =~= cs@);
        if k < cs@.len() {
            lemma_utf8_len_mono(cs@, k as int, cs@.len() as int);
        }
        if 0 < k {
            lemma_utf8_len_mono(cs@, 0, k as int);
        }
    }
    while i < k
        invariant
            i <= k <= cs@.len(),
            b == utf8_len(cs@.take(i as int)),
            utf8_len(cs@.take(i as int)) <= utf8_len(cs@.take(k as int)),
            utf8_len(cs@.take(k as int)) <= usize::MAX,
        decreases k - i,
    {
        proof {
            lemma_utf8_len_step(cs@, i as int);
            if i + 1 < k {
                lemma_utf8_len_mono(cs@, i + 1, k as int);
            }
        }
        b = b + char_utf8_len(cs[i]);
        i += 1;
    }
    b
}

/// Line and column of the caret at byte offset `byte` of `text`; the
/// offset falls on a character boundary, or at or past the end.
pub fn line_col_for_byte(text: &str, byte: usize) -> (r: (usize, usize))
    requires
        utf8_len(text@) <= usize::MAX,
        byte >= utf8_len(text@) || exists|k: int|
            0 <= k < text@.len() && #[trigger] utf8_len(text@.take(k)) == byte,
    ensures
        byte >= utf8_len(text@) ==> (r.0 as int, r.1 as int) == position_of(
            text@,
            text@.len() as int,
        ),
        forall|k: int|
            0 <= k < text@.len() && #[trigger] utf8_len(text@.take(k)) == byte ==> (
            r.0 as int,
            r.1 as int,
        ) == position_of(text@, k),
{
    let cs = chars_of(text);
    let n = cs.len();
    let mut i: usize = 0;
    let mut acc: usize = 0;
    assert(encode_utf8(cs@.take(0)) =~= Seq::<u8>::empty()) by {
        assert(cs@.take(0) =~= Seq::<char>::empty());
    }
    assert(cs@.take(n as int) =~= cs@);
    while i < n && acc < byte
        invariant
            n == cs@.len(),
            i <= n,
            acc == utf8_len(cs@.take(i as int)),
            utf8_len(cs@) <= usize::MAX,
            forall|j: int| 0 <= j < i ==> #[trigger] utf8_len(cs@.take(j)) < byte,
        decreases n - i,
    {
        proof {
            lemma_utf8_len_step(cs@, i as int);
            if i + 1 < n {
                lemma_utf8_len_mono(cs@, i + 1, n as int);
            }
            assert(cs@.take(n as int) =~= cs@);
        }
        acc = acc + char_utf8_len(cs[i]);
        i += 1;
    }
    proof {
        assert forall|k: int|
            0 <= k < text@.len() && #[trigger] utf8_len(text@.take(k)) == byte implies k == i
            && acc == byte by {
            if k < i {
                assert(utf8_len(cs@.take(k)) < byte);
            }
            if i < k {
                lemma_utf8_len_mono(cs@, i as int, k);
            }
        }
        if i < n {
            lemma_utf8_len_mono(cs@, i as int, n as int);
        }
    }
    if acc == byte && i < n {
        caret_position(cs.as_slice(), i)
    } else {
        caret_position(cs.as_slice(), n)
    }
}

// ---------------------------------------------------------------------------
// Round trip
// ---------------------------------------------------------------------------

proof fn lemma_count_zero(s: Seq<char>)
    ensures
        count_char(s, '\n') == 0 <==> forall|j: int| 0 <= j < s.len() ==> s[j] != '\n',
    decreases s.len(),
{
    if s.len() > 0 {
        lemma_count_zero(s.drop_last());
        if count_char(s, '\n') == 0 {
            assert forall|j: int| 0 <= j < s.len() implies s[j] != '\n' by {
                if j < s.len() - 1 {
                    assert(s[j] == s.drop_last()[j]);
                }
            }
        } else if count_char(s.drop_last(), '\n') > 0 {
            let j = choose|j: int| 0 <= j < s.drop_last().len() && s.drop_last()[j] == '\n';
            assert(s[j] == '\n');
        }
    }
}

proof fn lemma_last_break_from(t: Seq<char>, m: int, k: int)
    requires
        0 <= m <= k <= t.len(),
        m == 0 || t[m - 1] == '\n',
        forall|j: int| m <= j < k ==> t[j] != '\n',
    ensures
        last_break(t.take(k)) == m - 1,
    decreases k - m,
{
    if k == m {
        if m == 0 {
            assert(t.take(0).len() == 0);
        } else {
            assert(t.take(k).last() == t[m - 1]);
        }
    } else {
        assert(t.take(k).last() == t[k - 1]);
        assert(t.take(k).drop_last() =~= t.take(k - 1));
        lemma_last_break_from(t, m, k - 1);
    }
}

proof fn lemma_walk_lines(t: Seq<char>, m: int, k: int, l: nat)
    requires
        0 <= m <= k < t.len(),
        m == 0 || t[m - 1] == '\n',
        l == count_char(t.subrange(m, k), '\n'),
    ensures
        0 <= k - last_break(t.take(k)) - 1,
        caret_from(t, m, l, (k - last_break(t.take(k)) - 1) as nat) == k,
    decreases l,
{
    lemma_line_end(t, m);
    lemma_last_break_bounds(t.take(k));
    let e = line_end(t, m);
    lemma_count_zero(t.subrange(m, k));
    if l == 0 {
        assert forall|j: int| m <= j < k implies t[j] != '\n' by {
            assert(t.subrange(m, k)[j - m] == t[j]);
        }
        lemma_last_break_from(t, m, k);
        if e < k {
            assert(t[e] == '\n');
        }
    } else {
        let j = choose|j: int| 0 <= j < t.subrange(m, k).len() && t.subrange(m, k)[j] == '\n';
        assert(t[m + j] == '\n');
        assert(e < k);
        assert(t.subrange(m, k) =~= t.subrange(m, e) + (seq!['\n'] + t.subrange(e + 1, k)));
        crate::text::lemma_count_char_append(
            t.subrange(m, e),
            seq!['\n'] + t.subrange(e + 1, k),
            '\n',
        );
        crate::text::lemma_count_char_append(seq!['\n'], t.subrange(e + 1, k), '\n');
        assert(seq!['\n'].drop_last() =~= Seq::<char>::empty());
        assert(count_char(Seq::<char>::empty(), '\n') == 0);
        assert(count_char(seq!['\n'], '\n') == 1);
        lemma_count_zero(t.subrange(m, e));
        assert forall|i: int| 0 <= i < t.subrange(m, e).len() implies t.subrange(m, e)[i]
            != '\n' by {
            assert(t.subrange(m, e)[i] == t[m + i]);
        }
        assert(count_char(t.subrange(m, e), '\n') == 0);
        assert(count_char(t.subrange(e + 1, k), '\n') == l - 1);
        lemma_walk_lines(t, e + 1, k, (l - 1) as nat);
    }
}

/// Every caret offset before the end of the text is the offset of its own
/// line and column: going from an offset to a line and column and back
/// gives the offset again.
pub proof fn lemma_offset_position_roundtrip(t: Seq<char>, k: int)
    requires
        0 <= k < t.len(),
    ensures
        position_of(t, k).1 >= 0,
        caret_index(t, position_of(t, k).0 as nat, position_of(t, k).1 as nat) == k,
{
    assert(t.subrange(0, k) =~= t.take(k));
    lemma_walk_lines(t, 0, k, count_char(t.take(k), '\n'));
}

// ---------------------------------------------------------------------------
// Edits around the caret
// ---------------------------------------------------------------------------

/// Start of the run of white space that ends at `p`.
pub open spec fn ws_left(t: Seq<char>, p: int) -> int
    decreases p,
{
    if 0 < p <= t.len() && is_white_space(t[p - 1]) {
        ws_left(t, p - 1)
    } else {
        p
    }
}

/// End of the run of white space that starts at `p`.
pub open spec fn ws_right(t: Seq<char>, p: int) -> int
    decreases t.len() - p,
{
    if 0 <= p < t.len() && is_white_space(t[p]) {
        ws_right(t, p + 1)
    } else {
        p
    }
}

/// The text after putting the caret at offset `p` on a line of its own,
/// the white space around it replaced by one blank line above and below
/// (none at the start or end of the text); and the caret's new offset.
pub open spec fn sandwiched(t: Seq<char>, p: int) -> (Seq<char>, int) {
    let left = ws_left(t, p);
    let right = ws_right(t, p);
    let prefix: Seq<char> = if left == 0 {
        seq![]
    } else {
        seq!['\n', '\n']
    };
    let suffix: Seq<char> = if right == t.len() {
        seq![]
    } else {
        seq!['\n', '\n']
    };
    (t.take(left) + prefix + seq!['\n'] + suffix + t.skip(right), left + prefix.len() + 1)
}

proof fn lemma_ws_left(t: Seq<char>, p: int)
    requires
        0 <= p <= t.len(),
    ensures
        0 <= ws_left(t, p) <= p,
    decreases p,
{
    if 0 < p && is_white_space(t[p - 1]) {
        lemma_ws_left(t, p - 1);
    }
}

proof fn lemma_ws_right(t: Seq<char>, p: int)
    requires
        0 <= p <= t.len(),
    ensures
        p <= ws_right(t, p) <= t.len(),
    decreases t.len() - p,
{
    if p < t.len() && is_white_space(t[p]) {
        lemma_ws_right(t, p + 1);
    }
}

/// Puts the caret at column `col` of line `line` on a line of its own,
/// with one blank line of padding above and below; returns the new text
/// and the caret's line and column in it.
pub fn newline_sandwich(text: &str, line: usize, col: usize) -> (r: (String, usize, usize))
    ensures
        ({
            let (t, k) = sandwiched(text@, caret_index(text@, line as nat, col as nat));
            &&& r.0@ == t
            &&& (r.1 as int, r.2 as int) == position_of(t, k)
        }),
{
    let cs = chars_of(text);
    let p = caret_offset(cs.as_slice(), line, col);
    let mut left = p;
    while left > 0 && char_is_whitespace(cs[left - 1])
        invariant
            left <= p <= cs@.len(),
            ws_left(cs@, p as int) == ws_left(cs@, left as int),
        decreases left,
    {
        left -= 1;
    }
    let mut right = p;
    while right < cs.len() && char_is_whitespace(cs[right])
        invariant
            p <= right <= cs@.len(),
            ws_right(cs@, p as int) == ws_right(cs@, right as int),
        decreases cs@.len() - right,
    {
        right += 1;
    }
    let mut out: Vec<char> = sub_chars(cs.as_slice(), 0, left);
    if left != 0 {
        out.push('\n');
        out.push('\n');
    }
    out.push('\n');
    let k = out.len();
    if right != cs.len() {
        out.push('\n');
        out.push('\n');
    }
    let tail = sub_chars(cs.as_slice(), right, cs.len());
    let mut j: usize = 0;
    let ghost head = out@;
    while j < tail.len()
        invariant
            j <= tail@.len(),
            out@ == head + tail@.take(j as int),
        decreases tail@.len() - j,
    {
        out.push(tail[j]);
        assert(tail@.take(j + 1) =~= tail@.take(j as int).push(tail@[j as int]));
        j += 1;
    }
    proof {
        assert(tail@.take(tail@.len() as int) =~= tail@);
        let (t, kk) = sandwiched(cs@, p as int);
        assert(cs@.subrange(0, left as int) =~= cs@.take(left as int));
        assert(cs@.subrange(right as int, cs@.len() as int) =~= cs@.skip(right as int));
        assert(out@ =~= t);
    }
    let pos = caret_position(out.as_slice(), k);
    (string_of(out.as_slice()), pos.0, pos.1)
}

/// The text with `t[start..end]` replaced by `rep`, and the caret's new
/// offset just after the replacement; none for a range that is not
/// within the text.
pub open spec fn replaced(t: Seq<char>, start: int, end: int, rep: Seq<char>) -> Option<
    (Seq<char>, int),
> {
    if start > end || end > t.len() {
        None
    } else {
        Some((t.take(start) + rep + t.skip(end), start + rep.len()))
    }
}

/// Replaces the characters `start..end` of `text` with `rep`; returns the
/// new text and the line and column just after the replacement, or none
/// when the range is not within the text.
pub fn replace_range(text: &str, start: usize, end: usize, rep: &str) -> (r: Option<
    (String, usize, usize),
>)
    ensures
        match r {
            Some((s, l, c)) => replaced(text@, start as int, end as int, rep@) matches Some((t, k))
                && s@ == t && (l as int, c as int) == position_of(t, k),
            None => replaced(text@, start as int, end as int, rep@) is None,
        },
{
    let cs = chars_of(text);
    if start > end || end > cs.len() {
        return None;
    }
    let rc = chars_of(rep);
    let mut out: Vec<char> = sub_chars(cs.as_slice(), 0, start);
    let mut j: usize = 0;
    let ghost head = out@;
    while j < rc.len()
        invariant
            j <= rc@.len(),
            out@ == head + rc@.take(j as int),
        decreases rc@.len() - j,
    {
        out.push(rc[j]);
        assert(rc@.take(j + 1) =~= rc@.take(j as int).push(rc@[j as int]));
        j += 1;
    }
    assert(rc@.take(rc@.len() as int) =~= rc@);
    let k = out.len();
    let tail = sub_chars(cs.as_slice(), end, cs.len());
    let ghost mid = out@;
    let mut j: usize = 0;
    while j < tail.len()
        invariant
            j <= tail@.len(),
            out@ == mid + tail@.take(j as int),
        decreases tail@.len() - j,
    {
        out.push(tail[j]);
        assert(tail@.take(j + 1) =~= tail@.take(j as int).push(tail@[j as int]));
        j += 1;
    }
    proof {
        assert(tail@.take(tail@.len() as int) =~= tail@);
        assert(cs@.subrange(0, start as int) =~= cs@.take(start as int));
        assert(cs@.subrange(end as int, cs@.len() as int) =~= cs@.skip(end as int));
        assert(out@ =~= cs@.take(start as int) + rc@ + cs@.skip(end as int));
    }
    let pos = caret_position(out.as_slice(), k);
    Some((string_of(out.as_slice()), pos.0, pos.1))
}

/// Where the selected text `sel` lies, found next to the caret at offset
/// `cur` (ending or starting there), else at its first occurrence.
pub open spec fn selection_range(t: Seq<char>, cur: int, sel: Seq<char>) -> Option<(int, int)> {
    let n = sel.len() as int;
    if cur >= n && cur <= t.len() && t.subrange(cur - n, cur) == sel {
        Some((cur - n, cur))
    } else if 0 <= cur && cur + n <= t.len() && t.subrange(cur, cur + n) == sel {
        Some((cur, cur + n))
    } else {
        match find_sub_from(t, sel, 0) {
            Some(s) => Some((s, s + n)),
            None => None,
        }
    }
}

proof fn lemma_find_sub_bounds(s: Seq<char>, p: Seq<char>, k: int)
    requires
        0 <= k,
    ensures
        match find_sub_from(s, p, k) {
            Some(i) => k <= i && i + p.len() <= s.len() && s.subrange(i, i + p.len()) == p,
            None => true,
        },
    decreases s.len() - k,
{
    if k + p.len() <= s.len() && s.subrange(k, k + p.len()) != p && k < s.len() {
        lemma_find_sub_bounds(s, p, k + 1);
    }
}

/// Index of the first occurrence of `p` in `s`.
fn find_sub(s: &[char], p: &[char]) -> (r: Option<usize>)
    ensures
        find_sub_from(s@, p@, 0) == match r {
            Some(i) => Some(i as int),
            None => None::<int>,
        },
{
    let m = p.len();
    let mut k: usize = 0;
    while k <= s.len() && s.len() - k >= m
        invariant
            m == p@.len(),
            find_sub_from(s@, p@, 0) == find_sub_from(s@, p@, k as int),
        decreases s@.len() + 1 - k,
    {
        let piece = sub_chars(s, k, k + m);
        if chars_equal(piece.as_slice(), p) {
            return Some(k);
        }
        if k == s.len() {
            return None;
        }
        k += 1;
    }
    None
}

/// Where the selected text `sel` lies in `t`, looked for next to the
/// caret at offset `cur` first.
pub fn find_selection(t: &[char], cur: usize, sel: &[char]) -> (r: Option<(usize, usize)>)
    ensures
        selection_range(t@, cur as int, sel@) == match r {
            Some((a, b)) => Some((a as int, b as int)),
            None => None::<(int, int)>,
        },
        match r {
            Some((a, b)) => a <= b <= t@.len() && t@.subrange(a as int, b as int) == sel@,
            None => true,
        },
{
    let n = sel.len();
    if cur >= n && cur <= t.len() {
        let piece = sub_chars(t, cur - n, cur);
        if chars_equal(piece.as_slice(), sel) {
            return Some((cur - n, cur));
        }
    }
    if cur <= t.len() && t.len() - cur >= n {
        let piece = sub_chars(t, cur, cur + n);
        if chars_equal(piece.as_slice(), sel) {
            return Some((cur, cur + n));
        }
    }
    match find_sub(t, sel) {
        Some(i) => {
            proof {
                lemma_find_sub_bounds(t@, sel@, 0);
            }
            Some((i, i + n))
        },
        None => None,
    }
}

/// What toggling a wrap around the selection does.
#[derive(Debug, PartialEq, Eq)]
pub enum WrapEdit {
    /// Paste `text` at the caret (over the selection), then move the caret
    /// `back` characters to the left.
    Paste { text: String, back: usize },
    /// Replace the whole text with `text`, the caret at `line`, `col`.
    Replace { text: String, line: usize, col: usize },
}

/// A wrap edit as plain values: pasted text and caret moves back, or new
/// text and caret offset.
pub enum WrapModel {
    Paste(Seq<char>, int),
    Replace(Seq<char>, int),
}

/// Every character of `s` is `*`.
pub open spec fn all_stars(s: Seq<char>) -> bool {
    forall|i: int| 0 <= i < s.len() ==> s[i] == '*'
}

/// The edit that toggles the delimiters `open`, `close` around the
/// selection `sel` (found near the caret at offset `cur`): with no
/// selection the pair is inserted and the caret put between; a selection
/// that already carries the delimiters, or sits between them, is
/// unwrapped; any other selection is wrapped.  For `*` markers (bold,
/// italic) the stars around the selection are counted, and an even run
/// unwraps bold, an odd run italic.
pub open spec fn wrap_model(
    t: Seq<char>,
    cur: int,
    sel: Option<Seq<char>>,
    open: Seq<char>,
    close: Seq<char>,
) -> WrapModel {
    let range = match sel {
        Some(s) => selection_range(t, cur, s),
        None => None,
    };
    match range {
        None => WrapModel::Paste(open + close, close.len() as int),
        Some((start, end)) => {
            let selected = t.subrange(start, end);
            let before = t.take(start);
            let after = t.skip(end);
            if all_stars(open) && close == open {
                let m = open.len() as int;
                if starts_with(selected, open) && ends_with(selected, close) && selected.len() >= 2
                    * m {
                    WrapModel::Paste(selected.subrange(m, selected.len() - m), 0)
                } else {
                    let tb = trailing_count(before, '*') as int;
                    let la = leading_count(after, '*') as int;
                    let outer = if tb < la {
                        tb
                    } else {
                        la
                    };
                    let unwrap = if m == 2 {
                        outer >= 2 && outer % 2 == 0
                    } else if m == 1 {
                        outer >= 1 && outer % 2 == 1
                    } else {
                        outer >= m
                    };
                    if unwrap {
                        WrapModel::Replace(
                            t.take(start - m) + selected + t.skip(end + m),
                            start - m + selected.len(),
                        )
                    } else {
                        WrapModel::Paste(open + selected + close, 0)
                    }
                }
            } else {
                let ol = open.len() as int;
                let cl = close.len() as int;
                if starts_with(selected, open) && ends_with(selected, close) && selected.len() >= ol
                    + cl {
                    WrapModel::Paste(selected.subrange(ol, selected.len() - cl), 0)
                } else if ends_with(before, open) && starts_with(after, close) {
                    WrapModel::Replace(
                        t.take(start - ol) + selected + t.skip(end + cl),
                        start - ol + selected.len(),
                    )
                } else {
                    WrapModel::Paste(open + selected + close, 0)
                }
            }
        },
    }
}

/// A wrap edit matches its model: offsets become lines and columns.
pub open spec fn wrap_matches(e: WrapEdit, m: WrapModel) -> bool {
    match (e, m) {
        (WrapEdit::Paste { text, back }, WrapModel::Paste(t, b)) => text@ == t && back == b,
        (WrapEdit::Replace { text, line, col }, WrapModel::Replace(t, k)) => text@ == t && (
        line as int,
        col as int,
        ) == position_of(t, k),
        _ => false,
    }
}

fn concat3(a: &[char], b: &[char], c: &[char]) -> (r: Vec<char>)
    ensures
        r@ == a@ + b@ + c@,
{
    let mut out: Vec<char> = Vec::new();
    let mut i: usize = 0;
    while i < a.len()
        invariant
            i <= a@.len(),
            out@ == a@.take(i as int),
        decreases a@.len() - i,
    {
        out.push(a[i]);
        assert(a@.take(i + 1) =~= a@.take(i as int).push(a@[i as int]));
        i += 1;
    }
    let ghost x = out@;
    let mut i: usize = 0;
    while i < b.len()
        invariant
            i <= b@.len(),
            out@ == x + b@.take(i as int),
        decreases b@.len() - i,
    {
        out.push(b[i]);
        assert(b@.take(i + 1) =~= b@.take(i as int).push(b@[i as int]));
        i += 1;
    }
    let ghost y = out@;
    let mut i: usize = 0;
    while i < c.len()
        invariant
            i <= c@.len(),
            out@ == y + c@.take(i as int),
        decreases c@.len() - i,
    {
        out.push(c[i]);
        assert(c@.take(i + 1) =~= c@.take(i as int).push(c@[i as int]));
        i += 1;
    }
    assert(a@.take(a@.len() as int) =~= a@);
    assert(b@.take(b@.len() as int) =~= b@);
    assert(c@.take(c@.len() as int) =~= c@);
    out
}

/// Inserts the pair `open`, `close` at the caret and puts the caret
/// between them.
pub fn auto_pair(open: &str, close: &str) -> (r: WrapEdit)
    ensures
        wrap_matches(r, WrapModel::Paste(open@ + close@, close@.len() as int)),
{
    let o = chars_of(open);
    let c = chars_of(close);
    let both = concat3(o.as_slice(), c.as_slice(), &[]);
    assert(both@ =~= open@ + close@);
    WrapEdit::Paste { text: string_of(both.as_slice()), back: c.len() }
}

/// Whether every character of `s` is `*`.
fn stars_only(s: &[char]) -> (r: bool)
    ensures
        r == all_stars(s@),
{
    let mut i: usize = 0;
    while i < s.len()
        invariant
            i <= s@.len(),
            forall|j: int| 0 <= j < i ==> s@[j] == '*',
        decreases s@.len() - i,
    {
        if s[i] != '*' {
            return false;
        }
        i += 1;
    }
    true
}

/// The edit that toggles `open`, `close` around the selection `sel` of
/// `text`, the caret being at column `col` of line `line`.
pub fn toggle_wrap(text: &str, line: usize, col: usize, sel: Option<&str>, open: &str, close: &str) -> (r:
    WrapEdit)
    ensures
        wrap_matches(
            r,
            wrap_model(
                text@,
                caret_index(text@, line as nat, col as nat),
                match sel {
                    Some(s) => Some(s@),
                    None => None,
                },
                open@,
                close@,
            ),
        ),
{
    let t = chars_of(text);
    let cur = caret_offset(t.as_slice(), line, col);
    let range = match sel {
        Some(s) => {
            let sc = chars_of(s);
            find_selection(t.as_slice(), cur, sc.as_slice())
        },
        None => None,
    };
    let (start, end) = match range {
        Some(r) => r,
        None => {
            return auto_pair(open, close);
        },
    };
    let o = chars_of(open);
    let c = chars_of(close);
    let selected = sub_chars(t.as_slice(), start, end);
    let before = sub_chars(t.as_slice(), 0, start);
    let after = sub_chars(t.as_slice(), end, t.len());
    assert(before@ =~= t@.take(start as int));
    assert(after@ =~= t@.skip(end as int));
    let sl = selected.len();
    if stars_only(o.as_slice()) && chars_equal(c.as_slice(), o.as_slice()) {
        let m = o.len();
        if has_prefix(selected.as_slice(), o.as_slice()) && has_suffix(selected.as_slice(), c.as_slice())
            && sl / 2 >= m {
            let inner = sub_chars(selected.as_slice(), m, sl - m);
            return WrapEdit::Paste { text: string_of(inner.as_slice()), back: 0 };
        }
        let tb = count_trailing_char(string_of(before.as_slice()).as_str(), '*');
        let la = count_leading_char(string_of(after.as_slice()).as_str(), '*');
        let outer = if tb < la {
            tb
        } else {
            la
        };
        proof {
            lemma_trailing_bound(before@, '*');
            lemma_leading_bound(after@, '*');
        }
        let unwrap = if m == 2 {
            outer >= 2 && outer % 2 == 0
        } else if m == 1 {
            outer >= 1 && outer % 2 == 1
        } else {
            outer >= m
        };
        if unwrap {
            let sel_s = string_of(selected.as_slice());
            let r = replace_range(text, start - m, end + m, sel_s.as_str());
            proof {
                assert(t@.take(start - m + 0) == t@.take(start - m));
            }
            match r {
                Some((s, l, cc)) => {
                    return WrapEdit::Replace { text: s, line: l, col: cc };
                },
                None => {
                    assert(false);
                    return WrapEdit::Paste { text: String::new(), back: 0 };
                },
            }
        }
        let w = concat3(o.as_slice(), selected.as_slice(), c.as_slice());
        return WrapEdit::Paste { text: string_of(w.as_slice()), back: 0 };
    }
    let ol = o.len();
    let cl = c.len();
    if has_prefix(selected.as_slice(), o.as_slice()) && has_suffix(selected.as_slice(), c.as_slice())
        && sl >= ol && sl - ol >= cl {
        let inner = sub_chars(selected.as_slice(), ol, sl - cl);
        return WrapEdit::Paste { text: string_of(inner.as_slice()), back: 0 };
    }
    if has_suffix(before.as_slice(), o.as_slice()) && has_prefix(after.as_slice(), c.as_slice()) {
        let sel_s = string_of(selected.as_slice());
        let r = replace_range(text, start - ol, end + cl, sel_s.as_str());
        match r {
            Some((s, l, cc)) => {
                return WrapEdit::Replace { text: s, line: l, col: cc };
            },
            None => {
                assert(false);
                return WrapEdit::Paste { text: String::new(), back: 0 };
            },
        }
    }
    let w = concat3(o.as_slice(), selected.as_slice(), c.as_slice());
    WrapEdit::Paste { text: string_of(w.as_slice()), back: 0 }
}

proof fn lemma_trailing_bound(s: Seq<char>, c: char)
    ensures
        trailing_count(s, c) <= s.len(),
        forall|j: int| s.len() - trailing_count(s, c) <= j < s.len() ==> s[j] == c,
    decreases s.len(),
{
    if s.len() > 0 && s.last() == c {
        lemma_trailing_bound(s.drop_last(), c);
        assert forall|j: int| s.len() - trailing_count(s, c) <= j < s.len() implies s[j] == c by {
            if j < s.len() - 1 {
                assert(s[j] == s.drop_last()[j]);
            }
        }
    }
}

proof fn lemma_leading_bound(s: Seq<char>, c: char)
    ensures
        leading_count(s, c) <= s.len(),
        forall|j: int| 0 <= j < leading_count(s, c) ==> s[j] == c,
    decreases s.len(),
{
    if s.len() > 0 && s[0] == c {
        lemma_leading_bound(s.drop_first(), c);
        assert forall|j: int| 0 <= j < leading_count(s, c) implies s[j] == c by {
            if j > 0 {
                assert(s[j] == s.drop_first()[j - 1]);
            }
        }
    }
}

/// Offset of the bracket that closes the scope open at offset `i` of `t`,
/// `depth` brackets deep: brackets opened on the way must close first.
pub open spec fn scope_close(t: Seq<char>, i: int, depth: nat) -> Option<int>
    decreases t.len() - i,
{
    if i < 0 || i >= t.len() {
        None
    } else if t[i] == '(' || t[i] == '[' || t[i] == '{' {
        scope_close(t, i + 1, depth + 1)
    } else if t[i] == ')' || t[i] == ']' || t[i] == '}' {
        if depth == 0 {
            Some(i)
        } else {
            scope_close(t, i + 1, (depth - 1) as nat)
        }
    } else {
        scope_close(t, i + 1, depth)
    }
}

/// What the editor's fix-up key does at the caret.
#[derive(Debug, PartialEq, Eq)]
pub enum FixUp {
    /// Type the closer of the innermost bracket left open before the caret.
    Close(char),
    /// Step past the bracket closing the enclosing scope.
    MoveTo { line: usize, col: usize },
    /// At the top level: put the caret on a line of its own.
    Sandwich { text: String, line: usize, col: usize },
}

/// The fix-up at caret offset `p`: close the innermost bracket left open
/// before it; else step past the bracket closing the enclosing scope;
/// else put the caret on a line of its own.
pub open spec fn fix_up_matches(r: FixUp, t: Seq<char>, p: int) -> bool {
    let st = closer_stack(t.take(p));
    if st.len() > 0 {
        r == FixUp::Close(st.last())
    } else {
        match scope_close(t, p, 0) {
            Some(j) => r matches FixUp::MoveTo { line, col } && (line as int, col as int)
                == position_of(t, j + 1),
            None => r matches FixUp::Sandwich { text, line, col } && text@ == sandwiched(t, p).0
                && (line as int, col as int) == position_of(sandwiched(t, p).0, sandwiched(t, p).1),
        }
    }
}

proof fn lemma_scope_close_bounds(t: Seq<char>, i: int, depth: nat)
    requires
        0 <= i,
    ensures
        match scope_close(t, i, depth) {
            Some(j) => i <= j < t.len(),
            None => true,
        },
    decreases t.len() - i,
{
    if i < t.len() {
        if t[i] == '(' || t[i] == '[' || t[i] == '{' {
            lemma_scope_close_bounds(t, i + 1, depth + 1);
        } else if t[i] == ')' || t[i] == ']' || t[i] == '}' {
            if depth > 0 {
                lemma_scope_close_bounds(t, i + 1, (depth - 1) as nat);
            }
        } else {
            lemma_scope_close_bounds(t, i + 1, depth);
        }
    }
}

/// The fix-up key at column `col` of line `line` of `text`.
pub fn fix_up(text: &str, line: usize, col: usize) -> (r: FixUp)
    ensures
        fix_up_matches(r, text@, caret_index(text@, line as nat, col as nat)),
{
    let t = chars_of(text);
    let p = caret_offset(t.as_slice(), line, col);
    let head = sub_chars(t.as_slice(), 0, p);
    assert(head@ =~= t@.take(p as int));
    let hs = string_of(head.as_slice());
    if let Some(c) = innermost_unclosed_delim(hs.as_str()) {
        return FixUp::Close(c);
    }
    let mut depth: usize = 0;
    let mut i = p;
    while i < t.len()
        invariant
            p <= i <= t@.len(),
            depth <= i,
            scope_close(t@, p as int, 0) == scope_close(t@, i as int, depth as nat),
            closer_stack(t@.take(p as int)).len() == 0,
            t@ == text@,
            p == caret_index(text@, line as nat, col as nat),
        decreases t@.len() - i,
    {
        let c = t[i];
        if c == '(' || c == '[' || c == '{' {
            depth += 1;
        } else if c == ')' || c == ']' || c == '}' {
            if depth == 0 {
                let pos = caret_position(t.as_slice(), i + 1);
                return FixUp::MoveTo { line: pos.0, col: pos.1 };
            }
            depth -= 1;
        }
        i += 1;
    }
    let (s, l, cc) = newline_sandwich(text, line, col);
    FixUp::Sandwich { text: s, line: l, col: cc }
}

/// Start and end (the line break or the text's end) of line `l`, the
/// lines counted from the one starting at `k`; none past the last line.
pub open spec fn line_span(t: Seq<char>, k: int, l: nat) -> Option<(int, int)>
    decreases t.len() - k,
{
    if k < 0 || k >= t.len() {
        None
    } else {
        let e = line_end(t, k);
        if l == 0 {
            Some((k, e))
        } else if e >= t.len() {
            None
        } else {
            proof {
                lemma_line_end(t, k);
            }
            line_span(t, e + 1, (l - 1) as nat)
        }
    }
}

proof fn lemma_lines_tail(t: Seq<char>, s: int)
    requires
        0 <= s < t.len(),
        s == 0 || t[s - 1] == '\n',
        forall|j: int| s <= j < t.len() ==> t[j] != '\n',
    ensures
        lines(t).len() == count_char(t.take(s), '\n') + 1,
        lines(t).last() == t.skip(s),
    decreases t.len(),
{
    crate::text::lemma_find_char_bounds(t, '\n');
    match find_char(t, '\n') {
        None => {
            if s > 0 {
                assert(t[s - 1] == '\n');
            }
            assert(t.take(0).len() == 0);
            assert(t.skip(0) =~= t);
        },
        Some(i) => {
            assert(t[i] == '\n');
            assert(i < s);
            let r = t.skip(i + 1);
            let s2 = s - i - 1;
            assert forall|j: int| s2 <= j < r.len() implies r[j] != '\n' by {
                assert(r[j] == t[j + i + 1]);
            }
            if s2 > 0 {
                assert(r[s2 - 1] == t[s - 1]);
            }
            lemma_lines_tail(r, s2);
            assert(r.skip(s2) =~= t.skip(s));
            assert(t.take(s) =~= t.take(i) + (seq!['\n'] + r.take(s2)));
            crate::text::lemma_count_char_append(t.take(i), seq!['\n'] + r.take(s2), '\n');
            crate::text::lemma_count_char_append(seq!['\n'], r.take(s2), '\n');
            assert(seq!['\n'].drop_last() =~= Seq::<char>::empty());
            assert(count_char(Seq::<char>::empty(), '\n') == 0);
            assert forall|j: int| 0 <= j < t.take(i).len() implies t.take(i)[j] != '\n' by {
                assert(t.take(i)[j] == t[j]);
            }
            lemma_count_zero(t.take(i));
        },
    }
}

proof fn lemma_walk_positions(t: Seq<char>, m: int, l: nat, c: nat)
    requires
        0 <= m < t.len(),
        m == 0 || t[m - 1] == '\n',
        line_span(t, m, l) matches Some((s, e)) && c <= e - s,
    ensures
        position_of(t, caret_from(t, m, l, c)) == ((count_char(t.take(m), '\n') + l) as int, c as int),
    decreases l,
{
    lemma_line_end(t, m);
    let e = line_end(t, m);
    if l == 0 {
        let k = m + c;
        assert(caret_from(t, m, l, c) == k);
        assert(t.take(k) =~= t.take(m) + t.subrange(m, k));
        crate::text::lemma_count_char_append(t.take(m), t.subrange(m, k), '\n');
        lemma_count_zero(t.subrange(m, k));
        assert forall|j: int| 0 <= j < t.subrange(m, k).len() implies t.subrange(m, k)[j]
            != '\n' by {
            assert(t.subrange(m, k)[j] == t[m + j]);
        }
        if k < t.len() {
            lemma_last_break_from(t, m, k);
        } else {
            assert forall|j: int| m <= j < t.len() implies t[j] != '\n' by {}
            lemma_lines_tail(t, m);
            assert(t.take(k) =~= t);
        }
    } else {
        assert(t.take(e + 1) =~= t.take(m) + (t.subrange(m, e) + seq!['\n']));
        crate::text::lemma_count_char_append(t.take(m), t.subrange(m, e) + seq!['\n'], '\n');
        crate::text::lemma_count_char_append(t.subrange(m, e), seq!['\n'], '\n');
        assert(seq!['\n'].drop_last() =~= Seq::<char>::empty());
        assert(count_char(Seq::<char>::empty(), '\n') == 0);
        lemma_count_zero(t.subrange(m, e));
        assert forall|j: int| 0 <= j < t.subrange(m, e).len() implies t.subrange(m, e)[j]
            != '\n' by {
            assert(t.subrange(m, e)[j] == t[m + j]);
        }
        lemma_walk_positions(t, e + 1, (l - 1) as nat, c);
    }
}

/// Going from a line and column inside the text (the column at most the
/// line's length) to a caret offset and back gives the same line and
/// column.
pub proof fn lemma_position_offset_roundtrip(t: Seq<char>, l: nat, c: nat)
    requires
        line_span(t, 0, l) matches Some((s, e)) && c <= e - s,
    ensures
        position_of(t, caret_index(t, l, c)) == (l as int, c as int),
{
    assert(t.take(0).len() == 0);
    lemma_walk_positions(t, 0, l, c);
}

} // verus!
