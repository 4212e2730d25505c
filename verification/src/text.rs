//! Character-level text model shared by every parser in the crate.
//!
//! Text is modelled as a `Seq<char>`; executable helpers work on
//! `Vec<char>` and are tied to that model by their contracts.
use vstd::prelude::*;

verus! {

// ---------------------------------------------------------------------------
// Character classes
// ---------------------------------------------------------------------------

/// Unicode `White_Space`, the set `char::is_whitespace` tests.
pub open spec fn is_white_space(c: char) -> bool {
    let n = c as u32;
    ||| n == 0x20
    ||| (0x09 <= n && n <= 0x0d)
    ||| n == 0x85
    ||| n == 0xa0
    ||| n == 0x1680
    ||| (0x2000 <= n && n <= 0x200a)
    ||| n == 0x2028
    ||| n == 0x2029
    ||| n == 0x202f
    ||| n == 0x205f
    ||| n == 0x3000
}

/// ASCII decimal digit.
pub open spec fn is_digit(c: char) -> bool {
    '0' <= c && c <= '9'
}

/// ASCII letter.
pub open spec fn is_ascii_letter(c: char) -> bool {
    ('a' <= c && c <= 'z') || ('A' <= c && c <= 'Z')
}

/// What `char::is_alphabetic` answers (the Unicode `Alphabetic` property).
pub uninterp spec fn alphabetic(c: char) -> bool;

/// What `char::is_numeric` answers (general categories Nd, Nl, No).
pub uninterp spec fn numeric(c: char) -> bool;

/// `char::is_alphanumeric`: alphabetic or numeric.
pub open spec fn alphanumeric(c: char) -> bool {
    alphabetic(c) || numeric(c)
}

/// Identifier character: alphanumeric or underscore.
pub open spec fn is_word_char(c: char) -> bool {
    alphanumeric(c) || c == '_'
}

/// What `str::to_lowercase` returns for a string.
pub uninterp spec fn lowercase(s: Seq<char>) -> Seq<char>;

/// What `str::to_uppercase` returns for a string.
pub uninterp spec fn uppercase(s: Seq<char>) -> Seq<char>;

/// Returns whether `c` is Unicode white space.
pub fn char_is_whitespace(c: char) -> (r: bool)
    ensures
        r == is_white_space(c),
{
    let n = c as u32;
    n == 0x20 || (0x09 <= n && n <= 0x0d) || n == 0x85 || n == 0xa0 || n == 0x1680 || (0x2000
        <= n && n <= 0x200a) || n == 0x2028 || n == 0x2029 || n == 0x202f || n == 0x205f || n
        == 0x3000
}

/// Wraps `char::is_alphabetic`; the answer is the Unicode `Alphabetic` property of `c`,
/// which among ASCII characters holds of the letters `a`-`z` and `A`-`Z` alone.
#[verifier::external_body]
pub fn char_is_alphabetic(c: char) -> (r: bool)
    ensures
        r == alphabetic(c),
        (c as u32) < 0x80 ==> (r <==> (('a' <= c && c <= 'z') || ('A' <= c && c <= 'Z'))),
{
    c.is_alphabetic()
}

/// Wraps `char::is_numeric`; the answer is whether `c` is in a numeric general category,
/// which among ASCII characters holds of the digits `0`-`9` alone.
#[verifier::external_body]
pub fn char_is_numeric(c: char) -> (r: bool)
    ensures
        r == numeric(c),
        (c as u32) < 0x80 ==> (r <==> ('0' <= c && c <= '9')),
{
    c.is_numeric()
}

/// Returns whether `c` is alphabetic or numeric.
pub fn char_is_alphanumeric(c: char) -> (r: bool)
    ensures
        r == alphanumeric(c),
        (c as u32) < 0x80 ==> (r <==> (('a' <= c && c <= 'z') || ('A' <= c && c <= 'Z') || ('0'
            <= c && c <= '9'))),
{
    char_is_alphabetic(c) || char_is_numeric(c)
}

/// Returns whether `c` is alphanumeric or `_`.
pub fn char_is_word(c: char) -> (r: bool)
    ensures
        r == is_word_char(c),
        (c as u32) < 0x80 ==> (r <==> (('a' <= c && c <= 'z') || ('A' <= c && c <= 'Z') || ('0'
            <= c && c <= '9') || c == '_')),
{
    c == '_' || char_is_alphanumeric(c)
}

/// Wraps `str::to_lowercase`; the result is named by `lowercase`.
#[verifier::external_body]
pub fn to_lowercase_string(s: &str) -> (r: String)
    ensures
        r@ == lowercase(s@),
{
    s.to_lowercase()
}

/// Wraps `str::to_uppercase`; the result is named by `uppercase`.
#[verifier::external_body]
pub fn to_uppercase_string(s: &str) -> (r: String)
    ensures
        r@ == uppercase(s@),
{
    s.to_uppercase()
}

// ---------------------------------------------------------------------------
// Sequence model
// ---------------------------------------------------------------------------

/// `s` with leading white space removed.
pub open spec fn trim_start(s: Seq<char>) -> Seq<char>
    decreases s.len(),
{
    if s.len() > 0 && is_white_space(s[0]) {
        trim_start(s.drop_first())
    } else {
        s
    }
}

/// `s` with trailing white space removed.
pub open spec fn trim_end(s: Seq<char>) -> Seq<char>
    decreases s.len(),
{
    if s.len() > 0 && is_white_space(s.last()) {
        trim_end(s.drop_last())
    } else {
        s
    }
}

/// `s` with white space removed at both ends.
pub open spec fn trim(s: Seq<char>) -> Seq<char> {
    trim_end(trim_start(s))
}

/// `p` is a prefix of `s`.
pub open spec fn starts_with(s: Seq<char>, p: Seq<char>) -> bool {
    p.len() <= s.len() && s.subrange(0, p.len() as int) == p
}

/// `p` is a suffix of `s`.
pub open spec fn ends_with(s: Seq<char>, p: Seq<char>) -> bool {
    p.len() <= s.len() && s.subrange(s.len() - p.len(), s.len() as int) == p
}

/// Index of the first `c` in `s`.
pub open spec fn find_char(s: Seq<char>, c: char) -> Option<int>
    decreases s.len(),
{
    if s.len() == 0 {
        None
    } else if s[0] == c {
        Some(0)
    } else {
        match find_char(s.drop_first(), c) {
            Some(i) => Some(i + 1),
            None => None,
        }
    }
}

/// `s` without a final carriage return.
pub open spec fn strip_cr(s: Seq<char>) -> Seq<char> {
    if s.len() > 0 && s.last() == '\r' {
        s.drop_last()
    } else {
        s
    }
}

/// The lines of `s` as `str::lines` yields them: split at `\n`, a final
/// `\r` dropped from each terminated line, no empty line after a final `\n`.
pub open spec fn lines(s: Seq<char>) -> Seq<Seq<char>>
    decreases s.len(),
{
    if s.len() == 0 {
        Seq::empty()
    } else {
        match find_char(s, '\n') {
            None => seq![s],
            Some(i) => {
                proof {
                    lemma_find_char_bounds(s, '\n');
                }
                seq![strip_cr(s.take(i))] + lines(s.skip(i + 1))
            },
        }
    }
}

/// Number of occurrences of `c` in `s`.
pub open spec fn count_char(s: Seq<char>, c: char) -> nat
    decreases s.len(),
{
    if s.len() == 0 {
        0
    } else {
        count_char(s.drop_last(), c) + if s.last() == c { 1nat } else { 0nat }
    }
}

/// The view of each string in a sequence of strings.
pub open spec fn views(v: Seq<Vec<char>>) -> Seq<Seq<char>> {
    v.map_values(|x: Vec<char>| x@)
}

/// The view of each `String` in a sequence.
pub open spec fn string_views(v: Seq<String>) -> Seq<Seq<char>> {
    v.map_values(|x: String| x@)
}

pub proof fn lemma_find_char_bounds(s: Seq<char>, c: char)
    ensures
        match find_char(s, c) {
            Some(i) => 0 <= i < s.len() && s[i] == c && forall|k: int|
                0 <= k < i ==> s[k] != c,
            None => forall|k: int| 0 <= k < s.len() ==> s[k] != c,
        },
    decreases s.len(),
{
    if s.len() > 0 && s[0] != c {
        lemma_find_char_bounds(s.drop_first(), c);
        match find_char(s.drop_first(), c) {
            Some(i) => {
                assert forall|k: int| 0 <= k < i + 1 implies s[k] != c by {
                    if k > 0 {
                        assert(s[k] == s.drop_first()[k - 1]);
                    }
                }
            },
            None => {
                assert forall|k: int| 0 <= k < s.len() implies s[k] != c by {
                    if k > 0 {
                        assert(s[k] == s.drop_first()[k - 1]);
                    }
                }
            },
        }
    }
}

/// `find_char` is determined by the position facts.
pub proof fn lemma_find_char_at(s: Seq<char>, c: char, i: int)
    requires
        0 <= i <= s.len(),
        forall|k: int| 0 <= k < i ==> s[k] != c,
        i < s.len() ==> s[i] == c,
    ensures
        find_char(s, c) == (if i < s.len() { Some(i) } else { None::<int> }),
    decreases s.len(),
{
    if s.len() > 0 && s[0] != c {
        assert forall|k: int| 0 <= k < i - 1 implies s.drop_first()[k] != c by {
            assert(s.drop_first()[k] == s[k + 1]);
        }
        if i - 1 < s.drop_first().len() {
            assert(s.drop_first()[i - 1] == s[i]);
        }
        lemma_find_char_at(s.drop_first(), c, i - 1);
    }
}

pub proof fn lemma_trim_start_skip(s: Seq<char>, i: int)
    requires
        0 <= i <= s.len(),
        forall|k: int| 0 <= k < i ==> is_white_space(s[k]),
    ensures
        trim_start(s) == trim_start(s.skip(i)),
    decreases i,
{
    if i > 0 {
        assert(s.drop_first().skip(i - 1) =~= s.skip(i));
        assert forall|k: int| 0 <= k < i - 1 implies is_white_space(s.drop_first()[k]) by {
            assert(s.drop_first()[k] == s[k + 1]);
        }
        lemma_trim_start_skip(s.drop_first(), i - 1);
    } else {
        assert(s.skip(0) =~= s);
    }
}

pub proof fn lemma_trim_end_take(s: Seq<char>, j: int)
    requires
        0 <= j <= s.len(),
        forall|k: int| j <= k < s.len() ==> is_white_space(s[k]),
    ensures
        trim_end(s) == trim_end(s.take(j)),
    decreases s.len() - j,
{
    if j < s.len() {
        assert(s.drop_last().take(j) =~= s.take(j));
        assert forall|k: int| j <= k < s.drop_last().len() implies is_white_space(
            s.drop_last()[k],
        ) by {}
        lemma_trim_end_take(s.drop_last(), j);
    } else {
        assert(s.take(j) =~= s);
    }
}

pub proof fn lemma_trim_start_shape(s: Seq<char>)
    ensures
        exists|i: int|
            0 <= i <= s.len() && trim_start(s) == s.skip(i) && (forall|k: int|
                0 <= k < i ==> is_white_space(#[trigger] s[k])),
        trim_start(s).len() > 0 ==> !is_white_space(trim_start(s)[0]),
    decreases s.len(),
{
    if s.len() > 0 && is_white_space(s[0]) {
        lemma_trim_start_shape(s.drop_first());
        let i = choose|i: int|
            0 <= i <= s.drop_first().len() && trim_start(s.drop_first()) == s.drop_first().skip(i)
                && (forall|k: int| 0 <= k < i ==> is_white_space(#[trigger] s.drop_first()[k]));
        assert(s.drop_first().skip(i) =~= s.skip(i + 1));
        assert forall|k: int| 0 <= k < i + 1 implies is_white_space(#[trigger] s[k]) by {
            if k > 0 {
                assert(s[k] == s.drop_first()[k - 1]);
            }
        }
    } else {
        assert(s.skip(0) =~= s);
    }
}

pub proof fn lemma_trim_end_shape(s: Seq<char>)
    ensures
        exists|j: int|
            0 <= j <= s.len() && trim_end(s) == s.take(j) && (forall|k: int|
                j <= k < s.len() ==> is_white_space(#[trigger] s[k])),
        trim_end(s).len() > 0 ==> !is_white_space(trim_end(s).last()),
    decreases s.len(),
{
    if s.len() > 0 && is_white_space(s.last()) {
        lemma_trim_end_shape(s.drop_last());
        let j = choose|j: int|
            0 <= j <= s.drop_last().len() && trim_end(s.drop_last()) == s.drop_last().take(j) && (
            forall|k: int| j <= k < s.drop_last().len() ==> is_white_space(
                #[trigger] s.drop_last()[k],
            ));
        assert(s.drop_last().take(j) =~= s.take(j));
        assert forall|k: int| j <= k < s.len() implies is_white_space(#[trigger] s[k]) by {
            if k < s.len() - 1 {
                assert(s[k] == s.drop_last()[k]);
            }
        }
        assert(0 <= j <= s.len() && trim_end(s) == s.take(j));
    } else {
        assert(s.take(s.len() as int) =~= s);
        assert(0 <= s.len() <= s.len() && trim_end(s) == s.take(s.len() as int));
    }
}

pub proof fn lemma_count_char_append(a: Seq<char>, b: Seq<char>, c: char)
    ensures
        count_char(a + b, c) == count_char(a, c) + count_char(b, c),
    decreases b.len(),
{
    if b.len() == 0 {
        assert(a + b =~= a);
    } else {
        assert((a + b).drop_last() =~= a + b.drop_last());
        lemma_count_char_append(a, b.drop_last(), c);
    }
}

/// Total length of the first `i` strings of `ls`.
pub open spec fn total_len(ls: Seq<Seq<char>>, i: int) -> int
    decreases i,
{
    if i <= 0 || i > ls.len() {
        0
    } else {
        total_len(ls, i - 1) + ls[i - 1].len()
    }
}

pub proof fn lemma_total_len_cons(a: Seq<char>, l: Seq<Seq<char>>, k: int)
    requires
        0 <= k <= l.len(),
    ensures
        total_len(seq![a] + l, k + 1) == a.len() + total_len(l, k),
    decreases k,
{
    let t = seq![a] + l;
    assert(t[0] == a);
    if k > 0 {
        lemma_total_len_cons(a, l, k - 1);
        assert(t[k] == l[k - 1]);
    } else {
        assert(total_len(t, 1) == total_len(t, 0) + t[0].len());
    }
}

pub proof fn lemma_total_len_mono(ls: Seq<Seq<char>>, i: int, j: int)
    requires
        0 <= i <= j <= ls.len(),
    ensures
        total_len(ls, i) <= total_len(ls, j),
    decreases j - i,
{
    if i < j {
        lemma_total_len_mono(ls, i, j - 1);
    }
}

/// The lines of a text hold no more characters than the text, and there
/// are no more lines than characters.
pub proof fn lemma_lines_total(s: Seq<char>)
    ensures
        total_len(lines(s), lines(s).len() as int) <= s.len(),
        lines(s).len() <= s.len(),
        forall|i: int| 0 <= i <= lines(s).len() ==> total_len(lines(s), i) <= s.len(),
        forall|k: int| 0 <= k < lines(s).len() ==> (#[trigger] lines(s)[k]).len() <= s.len(),
    decreases s.len(),
{
    if s.len() > 0 {
        lemma_find_char_bounds(s, '\n');
        match find_char(s, '\n') {
            None => {
                assert(total_len(lines(s), 1) == total_len(lines(s), 0) + s.len());
            },
            Some(i) => {
                let rest = s.skip(i + 1);
                lemma_lines_total(rest);
                let a = strip_cr(s.take(i));
                lemma_total_len_cons(a, lines(rest), lines(rest).len() as int);
            },
        }
    }
    let ls = lines(s);
    assert forall|i: int| 0 <= i <= ls.len() implies total_len(ls, i) <= s.len() by {
        lemma_total_len_mono(ls, i, ls.len() as int);
    }
    assert forall|k: int| 0 <= k < ls.len() implies (#[trigger] ls[k]).len() <= s.len() by {
        lemma_total_len_mono(ls, k + 1, ls.len() as int);
        assert(total_len(ls, k + 1) == total_len(ls, k) + ls[k].len());
        lemma_total_len_nonneg(ls, k);
    }
}

pub proof fn lemma_total_len_nonneg(ls: Seq<Seq<char>>, i: int)
    ensures
        total_len(ls, i) >= 0,
    decreases i,
{
    if i > 0 && i <= ls.len() {
        lemma_total_len_nonneg(ls, i - 1);
    }
}

// ---------------------------------------------------------------------------
// Executable helpers
// ---------------------------------------------------------------------------

/// The characters of `s`, in order.
pub fn chars_of(s: &str) -> (r: Vec<char>)
    ensures
        r@ == s@,
{
    let mut out: Vec<char> = Vec::new();
    for c in it: s.chars()
        invariant
            out@ == it.seq().take(it.index() as int),
            it.seq() == s@,
    {
        out.push(c);
    }
    out
}

/// Wraps `String::push`, which appends one character.
#[verifier::external_body]
pub fn push_char(s: &mut String, c: char)
    ensures
        final(s)@ == old(s)@.push(c),
{
    s.push(c);
}

/// Appends the characters of `cs` to `s`.
pub fn push_chars(s: &mut String, cs: &[char])
    ensures
        final(s)@ == old(s)@ + cs@,
{
    let ghost start = s@;
    let mut i: usize = 0;
    while i < cs.len()
        invariant
            i <= cs.len(),
            s@ == start + cs@.take(i as int),
        decreases cs.len() - i,
    {
        push_char(s, cs[i]);
        assert(cs@.take(i + 1) =~= cs@.take(i as int).push(cs@[i as int]));
        i += 1;
    }
    assert(cs@.take(cs.len() as int) =~= cs@);
}

/// Appends the characters of `t` to `s`.
pub fn push_str(s: &mut String, t: &str)
    ensures
        final(s)@ == old(s)@ + t@,
{
    let cs = chars_of(t);
    push_chars(s, cs.as_slice());
}

/// A `String` holding exactly `cs`.
pub fn string_of(cs: &[char]) -> (r: String)
    ensures
        r@ == cs@,
{
    let mut s = String::new();
    push_chars(&mut s, cs);
    assert(Seq::<char>::empty() + cs@ =~= cs@);
    s
}

/// A `String` holding exactly `t`.
pub fn string_from(t: &str) -> (r: String)
    ensures
        r@ == t@,
{
    let cs = chars_of(t);
    string_of(cs.as_slice())
}

/// The characters `s[a..b]`.
pub fn sub_chars(s: &[char], a: usize, b: usize) -> (r: Vec<char>)
    requires
        a <= b <= s.len(),
    ensures
        r@ == s@.subrange(a as int, b as int),
{
    let mut out: Vec<char> = Vec::new();
    let mut i = a;
    while i < b
        invariant
            a <= i <= b <= s.len(),
            out@ == s@.subrange(a as int, i as int),
        decreases b - i,
    {
        out.push(s[i]);
        assert(s@.subrange(a as int, i + 1) =~= s@.subrange(a as int, i as int).push(s@[i as int]));
        i += 1;
    }
    out
}

/// Index of the first non-white-space character of `s` (or its length).
pub fn trim_start_index(s: &[char]) -> (i: usize)
    ensures
        i <= s.len(),
        trim_start(s@) == s@.skip(i as int),
        forall|k: int| 0 <= k < i ==> is_white_space(#[trigger] s@[k]),
{
    let mut i: usize = 0;
    while i < s.len() && char_is_whitespace(s[i])
        invariant
            i <= s.len(),
            forall|k: int| 0 <= k < i ==> is_white_space(#[trigger] s@[k]),
        decreases s.len() - i,
    {
        i += 1;
    }
    proof {
        lemma_trim_start_skip(s@, i as int);
        let t = s@.skip(i as int);
        if t.len() > 0 {
            assert(t[0] == s@[i as int]);
        }
    }
    i
}

/// One past the last non-white-space character of `s[..hi]`, at least `lo`.
pub fn trim_end_index(s: &[char], lo: usize, hi: usize) -> (j: usize)
    requires
        lo <= hi <= s.len(),
    ensures
        lo <= j <= hi,
        trim_end(s@.subrange(lo as int, hi as int)) == s@.subrange(lo as int, j as int),
        forall|k: int| j <= k < hi ==> is_white_space(#[trigger] s@[k]),
{
    let mut j = hi;
    while j > lo && char_is_whitespace(s[j - 1])
        invariant
            lo <= j <= hi,
            hi <= s.len(),
            forall|k: int| j <= k < hi ==> is_white_space(#[trigger] s@[k]),
        decreases j - lo,
    {
        j -= 1;
    }
    proof {
        let u = s@.subrange(lo as int, hi as int);
        assert forall|k: int| j - lo <= k < u.len() implies is_white_space(u[k]) by {
            assert(u[k] == s@[k + lo]);
        }
        lemma_trim_end_take(u, j - lo);
        assert(u.take(j - lo) =~= s@.subrange(lo as int, j as int));
        let v = s@.subrange(lo as int, j as int);
        if v.len() > 0 {
            assert(v.last() == s@[j - 1]);
        }
    }
    j
}

/// Bounds `(a, b)` such that `s[a..b]` is `s` trimmed at both ends.
pub fn trim_bounds(s: &[char]) -> (r: (usize, usize))
    ensures
        r.0 <= r.1 <= s.len(),
        trim(s@) == s@.subrange(r.0 as int, r.1 as int),
        trim_start(s@) == s@.skip(r.0 as int),
{
    let a = trim_start_index(s);
    let b = trim_end_index(s, a, s.len());
    assert(s@.skip(a as int) =~= s@.subrange(a as int, s.len() as int));
    (a, b)
}

/// `s` with white space removed at both ends.
pub fn trim_chars(s: &[char]) -> (r: Vec<char>)
    ensures
        r@ == trim(s@),
{
    let (a, b) = trim_bounds(s);
    sub_chars(s, a, b)
}

/// `s` with leading white space removed.
pub fn trim_start_chars(s: &[char]) -> (r: Vec<char>)
    ensures
        r@ == trim_start(s@),
{
    let a = trim_start_index(s);
    assert(s@.skip(a as int) =~= s@.subrange(a as int, s.len() as int));
    sub_chars(s, a, s.len())
}

/// `s` with trailing white space removed.
pub fn trim_end_chars(s: &[char]) -> (r: Vec<char>)
    ensures
        r@ == trim_end(s@),
{
    let b = trim_end_index(s, 0, s.len());
    assert(s@.subrange(0, s.len() as int) =~= s@);
    sub_chars(s, 0, b)
}

/// Whether `p` is a prefix of `s`.
pub fn has_prefix(s: &[char], p: &[char]) -> (r: bool)
    ensures
        r == starts_with(s@, p@),
{
    if p.len() > s.len() {
        return false;
    }
    let mut i: usize = 0;
    while i < p.len()
        invariant
            p.len() <= s.len(),
            i <= p.len(),
            forall|k: int| 0 <= k < i ==> s@[k] == p@[k],
        decreases p.len() - i,
    {
        if s[i] != p[i] {
            assert(s@.subrange(0, p.len() as int)[i as int] != p@[i as int]);
            return false;
        }
        i += 1;
    }
    assert(s@.subrange(0, p.len() as int) =~= p@);
    true
}

/// Whether `p` is a prefix of `s`.
pub fn has_prefix_str(s: &[char], p: &str) -> (r: bool)
    ensures
        r == starts_with(s@, p@),
{
    let pc = chars_of(p);
    has_prefix(s, pc.as_slice())
}

/// Whether `p` is a suffix of `s`.
pub fn has_suffix(s: &[char], p: &[char]) -> (r: bool)
    ensures
        r == ends_with(s@, p@),
{
    if p.len() > s.len() {
        return false;
    }
    let off = s.len() - p.len();
    let mut i: usize = 0;
    while i < p.len()
        invariant
            p.len() <= s.len(),
            off == s.len() - p.len(),
            i <= p.len(),
            forall|k: int| 0 <= k < i ==> s@[off + k] == p@[k],
        decreases p.len() - i,
    {
        if s[off + i] != p[i] {
            assert(s@.subrange(off as int, s.len() as int)[i as int] != p@[i as int]);
            return false;
        }
        i += 1;
    }
    assert(s@.subrange(off as int, s.len() as int) =~= p@);
    true
}

/// Whether `v` holds the text `s`.
pub fn contains_string(v: &[String], s: &str) -> (r: bool)
    ensures
        r == string_views(v@).contains(s@),
{
    let ghost vs = string_views(v@);
    let mut i: usize = 0;
    while i < v.len()
        invariant
            i <= v@.len(),
            vs == string_views(v@),
            forall|j: int| 0 <= j < i ==> vs[j] != s@,
        decreases v@.len() - i,
    {
        if str_equal(v[i].as_str(), s) {
            assert(vs[i as int] == s@);
            return true;
        }
        i += 1;
    }
    false
}

/// Whether the two character sequences are equal.
pub fn chars_equal(a: &[char], b: &[char]) -> (r: bool)
    ensures
        r == (a@ == b@),
{
    if a.len() != b.len() {
        return false;
    }
    let r = has_prefix(a, b);
    assert(a@.subrange(0, b@.len() as int) =~= a@);
    r
}

/// Whether `a` and `b` hold the same text.
pub fn str_equal(a: &str, b: &str) -> (r: bool)
    ensures
        r == (a@ == b@),
{
    let x = chars_of(a);
    let y = chars_of(b);
    chars_equal(x.as_slice(), y.as_slice())
}

/// Index of the first `c` in `s[from..]`, relative to the start of `s`.
pub fn find_char_from(s: &[char], from: usize, c: char) -> (r: Option<usize>)
    requires
        from <= s.len(),
    ensures
        match r {
            Some(i) => from <= i < s.len() && s@[i as int] == c && forall|k: int|
                from <= k < i ==> s@[k] != c,
            None => forall|k: int| from <= k < s.len() ==> s@[k] != c,
        },
        find_char(s@.skip(from as int), c) == match r {
            Some(i) => Some(i - from),
            None => None::<int>,
        },
{
    let mut i = from;
    while i < s.len()
        invariant
            from <= i <= s.len(),
            forall|k: int| from <= k < i ==> s@[k] != c,
        decreases s.len() - i,
    {
        if s[i] == c {
            proof {
                let t = s@.skip(from as int);
                assert forall|k: int| 0 <= k < i - from implies t[k] != c by {
                    assert(t[k] == s@[k + from]);
                }
                assert(t[i - from] == s@[i as int]);
                lemma_find_char_at(t, c, i - from);
            }
            return Some(i);
        }
        i += 1;
    }
    proof {
        let t = s@.skip(from as int);
        assert forall|k: int| 0 <= k < t.len() implies t[k] != c by {
            assert(t[k] == s@[k + from]);
        }
        lemma_find_char_at(t, c, t.len() as int);
    }
    None
}

/// Index of the first `c` in `s`.
pub fn find_char_in(s: &[char], c: char) -> (r: Option<usize>)
    ensures
        find_char(s@, c) == match r {
            Some(i) => Some(i as int),
            None => None::<int>,
        },
        match r {
            Some(i) => i < s.len() && s@[i as int] == c,
            None => true,
        },
{
    let r = find_char_from(s, 0, c);
    assert(s@.skip(0) =~= s@);
    r
}

/// Whether `c` occurs in `s`.
pub fn contains_char(s: &[char], c: char) -> (r: bool)
    ensures
        r == s@.contains(c),
{
    match find_char_from(s, 0, c) {
        Some(i) => {
            assert(s@[i as int] == c);
            true
        },
        None => false,
    }
}

/// Number of occurrences of `c` in `s`.
pub fn count_occurrences(s: &[char], c: char) -> (r: usize)
    ensures
        r == count_char(s@, c),
{
    let mut n: usize = 0;
    let mut i: usize = 0;
    while i < s.len()
        invariant
            i <= s.len(),
            n == count_char(s@.take(i as int), c),
            n <= i,
        decreases s.len() - i,
    {
        assert(s@.take(i + 1).drop_last() =~= s@.take(i as int));
        if s[i] == c {
            n += 1;
        }
        i += 1;
    }
    assert(s@.take(s.len() as int) =~= s@);
    n
}

/// The lines of `s`, as `str::lines` yields them.
pub fn lines_of(s: &[char]) -> (r: Vec<Vec<char>>)
    ensures
        views(r@) == lines(s@),
{
    let mut out: Vec<Vec<char>> = Vec::new();
    let mut pos: usize = 0;
    assert(s@.skip(0) =~= s@);
    assert(views(out@) + lines(s@) =~= lines(s@));
    while pos < s.len()
        invariant
            pos <= s.len(),
            lines(s@) == views(out@) + lines(s@.skip(pos as int)),
        decreases s.len() - pos,
    {
        let ghost rest = s@.skip(pos as int);
        match find_char_from(s, pos, '\n') {
            None => {
                let line = sub_chars(s, pos, s.len());
                assert(line@ =~= rest);
                assert(lines(rest) == seq![rest]);
                let ghost before = out@;
                out.push(line);
                assert(views(out@) =~= views(before).push(line@));
                pos = s.len();
                assert(lines(s@.skip(pos as int)) =~= Seq::<Seq<char>>::empty()) by {
                    assert(s@.skip(pos as int).len() == 0);
                }
                proof {
                    assert(views(out@) + lines(s@.skip(pos as int)) =~= views(out@));
                }
            },
            Some(nl) => {
                let mut end = nl;
                if end > pos && s[end - 1] == '\r' {
                    end = end - 1;
                }
                let line = sub_chars(s, pos, end);
                let ghost k = nl - pos;
                assert(line@ =~= strip_cr(rest.take(k)));
                assert(rest.skip(k + 1) =~= s@.skip(nl + 1));
                out.push(line);
                pos = nl + 1;
            },
        }
    }
    assert(s@.skip(pos as int).len() == 0);
    assert(views(out@) + Seq::<Seq<char>>::empty() =~= views(out@));
    out
}

/// Strings for each line of `s`.
pub fn line_strings(s: &str) -> (r: Vec<String>)
    ensures
        string_views(r@) == lines(s@),
{
    let cs = chars_of(s);
    let ls = lines_of(cs.as_slice());
    let mut out: Vec<String> = Vec::new();
    let mut i: usize = 0;
    while i < ls.len()
        invariant
            i <= ls.len(),
            views(ls@) == lines(s@),
            string_views(out@) == views(ls@).take(i as int),
        decreases ls.len() - i,
    {
        let st = string_of(ls[i].as_slice());
        assert(views(ls@)[i as int] == ls@[i as int]@);
        let ghost before = out@;
        out.push(st);
        assert(string_views(out@) =~= string_views(before).push(st@));
        assert(views(ls@).take(i + 1) =~= views(ls@).take(i as int).push(views(ls@)[i as int]));
        i += 1;
    }
    assert(views(ls@).take(ls.len() as int) =~= views(ls@));
    out
}

} // verus!
