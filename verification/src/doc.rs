//! Line classification of an Acord document: markdown prose, Cordial code,
//! `/=` evaluation lines and comments.
use vstd::prelude::*;
use crate::text::{
    alphabetic, char_is_alphabetic, char_is_word, chars_equal, chars_of, contains_char,
    count_char, count_occurrences, find_char, find_char_in, has_prefix_str, is_word_char, lines,
    lines_of, lemma_lines_total, lemma_trim_end_shape, lemma_trim_start_shape, starts_with,
    string_from, string_of, sub_chars, total_len, trim, trim_chars, trim_start, views,
    is_white_space,
};

verus! {

/// What a document line is.
#[derive(Debug, Clone, Copy, PartialEq, Eq, Structural)]
pub enum LineKind {
    Markdown,
    Cordial,
    Eval,
    Comment,
}

/// A line of a document with its position and kind.
#[derive(Debug, Clone)]
pub struct ClassifiedLine {
    pub index: usize,
    pub kind: LineKind,
    pub content: String,
}

// ---------------------------------------------------------------------------
// Specification
// ---------------------------------------------------------------------------

/// An identifier: a letter or `_`, then letters, digits or `_`.
pub open spec fn ident(s: Seq<char>) -> bool {
    &&& s.len() > 0
    &&& alphabetic(s[0]) || s[0] == '_'
    &&& forall|k: int| 1 <= k < s.len() ==> is_word_char(#[trigger] s[k])
}

/// Something that may stand left of `=` in Cordial: a name, a function
/// head `f(...)`, or a cell reference `@Name...`.
pub open spec fn assignment_target(s: Seq<char>) -> bool {
    ||| ident(s)
    ||| match find_char(s, '(') {
        Some(p) => ident(s.take(p)) && s.len() > 0 && s.last() == ')',
        None => false,
    }
    ||| s.len() > 1 && s[0] == '@' && (alphabetic(s[1]) || s[1] == '_')
}

/// The character after position `i`, if any, is not `=`.
pub open spec fn not_followed_by_eq(s: Seq<char>, i: int) -> bool {
    !(i + 1 < s.len() && s[i + 1] == '=')
}

/// `rest` (what follows `let `) forms a binding.
pub open spec fn let_binding_shape(rest: Seq<char>) -> bool {
    ||| match find_char(rest, ':') {
        Some(c) => ident(trim(rest.take(c))) && rest.skip(c + 1).contains('='),
        None => false,
    }
    ||| match find_char(rest, '=') {
        Some(e) => not_followed_by_eq(rest, e) && (ident(trim(rest.take(e)))
            || assignment_target(trim(rest.take(e)))),
        None => false,
    }
}

/// Index of the first `::` in `s`.
pub open spec fn find_double_colon(s: Seq<char>) -> Option<int>
    decreases s.len(),
{
    if s.len() < 2 {
        None
    } else if s[0] == ':' && s[1] == ':' {
        Some(0)
    } else {
        match find_double_colon(s.drop_first()) {
            Some(i) => Some(i + 1),
            None => None,
        }
    }
}

/// The part of `s` before its first `::`.
pub open spec fn first_path_segment(s: Seq<char>) -> Seq<char> {
    match find_double_colon(s) {
        Some(i) => s.take(i),
        None => s,
    }
}

/// `line` starts a bare assignment `target = ...`.
pub open spec fn assignment_shape(line: Seq<char>) -> bool {
    match find_char(line, '=') {
        Some(e) => {
            let before = line.take(e);
            &&& e > 0
            &&& not_followed_by_eq(line, e)
            &&& !(before.last() == '!' || before.last() == '<' || before.last() == '>')
            &&& assignment_target(trim(before))
        },
        None => false,
    }
}

/// A trimmed line is Cordial code.
pub open spec fn cordial(line: Seq<char>) -> bool {
    if starts_with(line, "let "@) {
        let_binding_shape(line.skip(4))
    } else {
        ||| starts_with(line, "while "@)
        ||| starts_with(line, "while("@)
        ||| starts_with(line, "fn "@)
        ||| starts_with(line, "if "@)
        ||| starts_with(line, "if("@)
        ||| starts_with(line, "else "@)
        ||| line == "else"@
        ||| starts_with(line, "else{"@)
        ||| starts_with(line, "for "@)
        ||| starts_with(line, "return "@)
        ||| line == "return"@
        ||| (starts_with(line, "use "@) && ident(first_path_segment(trim(line.skip(4)))))
        ||| line == "}"@
        ||| starts_with(line, "} "@)
        ||| assignment_shape(line)
    }
}

/// Kind of a single line taken on its own.
pub open spec fn line_kind(raw: Seq<char>) -> LineKind {
    let t = trim(raw);
    if starts_with(t, "/="@) {
        LineKind::Eval
    } else if starts_with(t, "//"@) {
        LineKind::Comment
    } else if cordial(t) {
        LineKind::Cordial
    } else {
        LineKind::Markdown
    }
}

/// A cell-reference assignment is Cordial code: a line that reads, once
/// trimmed, `@`, an identifier-start character `c`, the rest of the target
/// (with no `=` in it), then ` = ` and any expression, is classified
/// Cordial.
pub proof fn lemma_cell_assignment_is_cordial(raw: Seq<char>, c: char, target: Seq<char>, expr: Seq<char>)
    requires
        alphabetic(c) || c == '_',
        !is_white_space(c),
        c != '=',
        !target.contains('='),
        trim(raw) == seq!['@', c] + target + seq![' ', '=', ' '] + expr,
    ensures
        line_kind(raw) == LineKind::Cordial,
{
    let t = trim(raw);
    let e = target.len() as int + 3;
    reveal_strlit("/=");
    reveal_strlit("//");
    reveal_strlit("let ");
    reveal_strlit("while ");
    reveal_strlit("while(");
    reveal_strlit("fn ");
    reveal_strlit("if ");
    reveal_strlit("if(");
    reveal_strlit("else ");
    reveal_strlit("else");
    reveal_strlit("else{");
    reveal_strlit("for ");
    reveal_strlit("return ");
    reveal_strlit("return");
    reveal_strlit("use ");
    reveal_strlit("}");
    reveal_strlit("} ");
    assert(t[0] == '@');
    assert(t[1] == c);
    assert forall|k: int| 0 <= k < e implies t[k] != '=' by {
        if 2 <= k < 2 + target.len() {
            assert(t[k] == target[k - 2]);
        }
    }
    assert(t[e] == '=');
    assert(t[e + 1] == ' ');
    crate::text::lemma_find_char_at(t, '=', e);
    let before = t.take(e);
    assert(before.last() == ' ');
    assert(before[0] == '@');
    assert(before[1] == c);
    assert(trim_start(before) == before);
    lemma_trim_end_shape(before);
    let j = choose|j: int|
        0 <= j <= before.len() && crate::text::trim_end(before) == before.take(j) && (forall|k: int|
            j <= k < before.len() ==> is_white_space(#[trigger] before[k]));
    if j <= 1 {
        assert(is_white_space(before[1]));
    }
    assert(trim(before)[0] == '@');
    assert(trim(before)[1] == c);
    assert(assignment_target(trim(before)));
    assert(assignment_shape(t));
}

/// Block-comment nesting depth after scanning `s` from position `i`.
pub open spec fn comment_depth_from(s: Seq<char>, i: int, depth: nat) -> nat
    decreases s.len() - i,
{
    if i < 0 || i + 1 >= s.len() {
        depth
    } else if s[i] == '/' && s[i + 1] == '*' {
        comment_depth_from(s, i + 2, depth + 1)
    } else if s[i] == '*' && s[i + 1] == '/' {
        comment_depth_from(s, i + 2, if depth > 0 { (depth - 1) as nat } else { 0 })
    } else {
        comment_depth_from(s, i + 1, depth)
    }
}

/// Block-comment nesting depth after a line, starting from `depth`.
pub open spec fn comment_depth_after(line: Seq<char>, depth: nat) -> nat {
    comment_depth_from(line, 0, depth)
}

/// Brace balance of a line: opening minus closing braces.
pub open spec fn brace_delta(line: Seq<char>) -> int {
    count_char(trim(line), '{') - count_char(trim(line), '}')
}

/// Scanner state before a line: open block comments and open braces.
pub struct ScanState {
    pub comments: nat,
    pub braces: int,
}

/// Kind of a line given the scanner state before it.
pub open spec fn kind_in(st: ScanState, line: Seq<char>) -> LineKind {
    if st.comments > 0 || starts_with(trim(line), "/*"@) {
        LineKind::Comment
    } else if st.braces > 0 {
        LineKind::Cordial
    } else {
        line_kind(line)
    }
}

/// Scanner state after a line.
pub open spec fn state_after(st: ScanState, line: Seq<char>) -> ScanState {
    let braces = if kind_in(st, line) == LineKind::Cordial && !(st.comments > 0 || starts_with(
        trim(line),
        "/*"@,
    )) {
        let b = st.braces + brace_delta(line);
        if b < 0 {
            0
        } else {
            b
        }
    } else {
        st.braces
    };
    ScanState { comments: comment_depth_after(line, st.comments), braces }
}

/// Scanner state before line `i` of `ls`.
pub open spec fn state_before(ls: Seq<Seq<char>>, i: int) -> ScanState
    decreases i,
{
    if i <= 0 {
        ScanState { comments: 0, braces: 0 }
    } else {
        state_after(state_before(ls, i - 1), ls[i - 1])
    }
}

/// Kind of line `i` of a document whose lines are `ls`.
pub open spec fn document_kind(ls: Seq<Seq<char>>, i: int) -> LineKind {
    kind_in(state_before(ls, i), ls[i])
}

/// `out` classifies the document with lines `ls`.
pub open spec fn classifies(out: Seq<ClassifiedLine>, ls: Seq<Seq<char>>) -> bool {
    &&& out.len() == ls.len()
    &&& forall|i: int|
        0 <= i < ls.len() ==> {
            &&& #[trigger] out[i].index == i
            &&& out[i].kind == document_kind(ls, i)
            &&& out[i].content@ == ls[i]
        }
}

// ---------------------------------------------------------------------------
// Implementation
// ---------------------------------------------------------------------------

/// Whether `s` is an identifier.
pub fn is_ident(s: &[char]) -> (r: bool)
    ensures
        r == ident(s@),
{
    if s.len() == 0 {
        return false;
    }
    let first = s[0];
    if !char_is_alphabetic(first) && first != '_' {
        return false;
    }
    let mut i: usize = 1;
    while i < s.len()
        invariant
            1 <= i <= s.len(),
            forall|k: int| 1 <= k < i ==> is_word_char(#[trigger] s@[k]),
        decreases s.len() - i,
    {
        if !char_is_word(s[i]) {
            return false;
        }
        i += 1;
    }
    true
}

/// Whether `s` may stand left of `=`.
fn is_assignment_target(s: &[char]) -> (r: bool)
    ensures
        r == assignment_target(s@),
{
    if is_ident(s) {
        return true;
    }
    let paren = find_char_in(s, '(');
    match paren {
        Some(p) => {
            let name = sub_chars(s, 0, p);
            assert(name@ =~= s@.take(p as int));
            if is_ident(name.as_slice()) && s[s.len() - 1] == ')' {
                return true;
            }
        },
        None => {},
    }
    s.len() > 1 && s[0] == '@' && (char_is_alphabetic(s[1]) || s[1] == '_')
}

/// `s[e + 1]` is not `=` (or does not exist).
fn next_is_not_eq(s: &[char], e: usize) -> (r: bool)
    requires
        e < s.len(),
    ensures
        r == not_followed_by_eq(s@, e as int),
{
    !(e + 1 < s.len() && s[e + 1] == '=')
}

/// Whether what follows `let ` forms a binding.
fn is_let_binding(rest: &[char]) -> (r: bool)
    ensures
        r == let_binding_shape(rest@),
{
    match find_char_in(rest, ':') {
        Some(c) => {
            let before = sub_chars(rest, 0, c);
            assert(before@ =~= rest@.take(c as int));
            let name = trim_chars(before.as_slice());
            if is_ident(name.as_slice()) {
                let after = sub_chars(rest, c + 1, rest.len());
                assert(after@ =~= rest@.skip(c + 1));
                if contains_char(after.as_slice(), '=') {
                    return true;
                }
            }
        },
        None => {},
    }
    match find_char_in(rest, '=') {
        Some(e) => {
            if next_is_not_eq(rest, e) {
                let before = sub_chars(rest, 0, e);
                assert(before@ =~= rest@.take(e as int));
                let name = trim_chars(before.as_slice());
                if is_ident(name.as_slice()) || is_assignment_target(name.as_slice()) {
                    return true;
                }
            }
            false
        },
        None => false,
    }
}

/// Index of the first `::` in `s`.
fn find_double_colon_in(s: &[char]) -> (r: Option<usize>)
    ensures
        find_double_colon(s@) == match r {
            Some(i) => Some(i as int),
            None => None::<int>,
        },
        match r {
            Some(i) => i + 1 < s.len(),
            None => true,
        },
{
    let mut i: usize = 0;
    assert(s@.skip(0) =~= s@);
    while s.len() - i > 1
        invariant
            i <= s.len(),
            find_double_colon(s@) == match find_double_colon(s@.skip(i as int)) {
                Some(j) => Some(j + i),
                None => None::<int>,
            },
        decreases s.len() - i,
    {
        let ghost t = s@.skip(i as int);
        if s[i] == ':' && s[i + 1] == ':' {
            assert(t[0] == ':' && t[1] == ':');
            return Some(i);
        }
        assert(t.drop_first() =~= s@.skip(i + 1));
        i += 1;
    }
    assert(s@.skip(i as int).len() < 2);
    None
}

/// Whether a trimmed line is Cordial code.
fn is_cordial(line: &[char]) -> (r: bool)
    ensures
        r == cordial(line@),
{
    proof {
        reveal_strlit("let ");
        reveal_strlit("use ");
    }
    if has_prefix_str(line, "let ") {
        let rest = sub_chars(line, 4, line.len());
        assert(rest@ =~= line@.skip(4));
        return is_let_binding(rest.as_slice());
    }
    if has_prefix_str(line, "while ") || has_prefix_str(line, "while(") {
        return true;
    }
    if has_prefix_str(line, "fn ") {
        return true;
    }
    if has_prefix_str(line, "if ") || has_prefix_str(line, "if(") {
        return true;
    }
    let else_word = chars_of("else");
    if has_prefix_str(line, "else ") || chars_equal(line, else_word.as_slice()) || has_prefix_str(
        line,
        "else{",
    ) {
        return true;
    }
    if has_prefix_str(line, "for ") {
        return true;
    }
    let return_word = chars_of("return");
    if has_prefix_str(line, "return ") || chars_equal(line, return_word.as_slice()) {
        return true;
    }
    if has_prefix_str(line, "use ") {
        let after = sub_chars(line, 4, line.len());
        assert(after@ =~= line@.skip(4));
        let rest = trim_chars(after.as_slice());
        let seg = match find_double_colon_in(rest.as_slice()) {
            Some(i) => sub_chars(rest.as_slice(), 0, i),
            None => rest.clone(),
        };
        assert(seg@ =~= first_path_segment(rest@));
        if is_ident(seg.as_slice()) {
            return true;
        }
    }
    let close = chars_of("}");
    if chars_equal(line, close.as_slice()) || has_prefix_str(line, "} ") {
        return true;
    }
    is_assignment_line(line)
}

/// Whether `line` starts a bare assignment.
fn is_assignment_line(line: &[char]) -> (r: bool)
    ensures
        r == assignment_shape(line@),
{
    match find_char_in(line, '=') {
        Some(e) => {
            if e > 0 {
                let before = sub_chars(line, 0, e);
                assert(before@ =~= line@.take(e as int));
                let last = before[e - 1];
                if next_is_not_eq(line, e) && !(last == '!' || last == '<' || last == '>') {
                    let candidate = trim_chars(before.as_slice());
                    return is_assignment_target(candidate.as_slice());
                }
            }
            false
        },
        None => false,
    }
}

/// Kind of a single line taken on its own.
fn kind_of_line(raw: &[char]) -> (r: LineKind)
    ensures
        r == line_kind(raw@),
{
    let t = trim_chars(raw);
    if has_prefix_str(t.as_slice(), "/=") {
        LineKind::Eval
    } else if has_prefix_str(t.as_slice(), "//") {
        LineKind::Comment
    } else if is_cordial(t.as_slice()) {
        LineKind::Cordial
    } else {
        LineKind::Markdown
    }
}

/// Classifies one line on its own: evaluation (`/=`), comment (`//`),
/// Cordial code, or markdown.
pub fn classify_line(index: usize, raw: &str) -> (r: ClassifiedLine)
    ensures
        r.index == index,
        r.kind == line_kind(raw@),
        r.content@ == raw@,
{
    let cs = chars_of(raw);
    let kind = kind_of_line(cs.as_slice());
    ClassifiedLine { index, kind, content: string_from(raw) }
}

/// Block-comment nesting depth after scanning `line` from `depth`.
fn scan_comment_depth(line: &[char], depth: usize) -> (r: usize)
    requires
        depth + line.len() <= usize::MAX,
    ensures
        r == comment_depth_after(line@, depth as nat),
        r <= depth + line.len(),
{
    let len = line.len();
    let mut i: usize = 0;
    let mut d = depth;
    while len - i > 1
        invariant
            len == line.len(),
            i <= len,
            d <= depth + i,
            depth + len <= usize::MAX,
            comment_depth_from(line@, 0, depth as nat) == comment_depth_from(line@, i as int, d as nat),
        decreases len - i,
    {
        if line[i] == '/' && line[i + 1] == '*' {
            d += 1;
            i += 2;
        } else if line[i] == '*' && line[i + 1] == '/' {
            d = if d > 0 { d - 1 } else { 0 };
            i += 2;
        } else {
            i += 1;
        }
    }
    d
}

/// Open-brace count after a line of Cordial code, starting from `depth`:
/// the line's balance added, never below zero.
fn braces_after(depth: usize, line: &[char]) -> (r: usize)
    requires
        depth + line@.len() <= usize::MAX,
    ensures
        r == (if depth + brace_delta(line@) < 0 { 0 } else { depth + brace_delta(line@) }),
        r <= depth + line@.len(),
{
    let t = trim_chars(line);
    proof {
        lemma_trim_len(line@);
        lemma_count_char_le(t@, '{');
        lemma_count_char_le(t@, '}');
    }
    let opens = count_occurrences(t.as_slice(), '{');
    let closes = count_occurrences(t.as_slice(), '}');
    if depth + opens >= closes {
        depth + opens - closes
    } else {
        0
    }
}

pub proof fn lemma_count_char_le(s: Seq<char>, c: char)
    ensures
        count_char(s, c) <= s.len(),
    decreases s.len(),
{
    if s.len() > 0 {
        lemma_count_char_le(s.drop_last(), c);
    }
}

pub proof fn lemma_trim_len(s: Seq<char>)
    ensures
        trim(s).len() <= s.len(),
{
    lemma_trim_start_shape(s);
    lemma_trim_end_shape(trim_start(s));
}

/// Classifies every line of a document. Inside a block comment every line
/// is a comment; inside an open `{ ... }` of Cordial code every line is
/// Cordial; otherwise each line is classified on its own.
pub fn classify_document(text: &str) -> (r: Vec<ClassifiedLine>)
    ensures
        classifies(r@, lines(text@)),
{
    let cs = chars_of(text);
    let ls = lines_of(cs.as_slice());
    let ghost lv = lines(text@);
    proof {
        lemma_lines_total(text@);
    }
    let mut result: Vec<ClassifiedLine> = Vec::new();
    let mut comment_depth: usize = 0;
    let mut brace_depth: usize = 0;
    let n = cs.len();
    let mut i: usize = 0;
    while i < ls.len()
        invariant
            i <= ls.len(),
            views(ls@) == lv,
            lv == lines(text@),
            n == text@.len(),
            forall|k: int| 0 <= k <= lv.len() ==> total_len(lv, k) <= text@.len(),
            forall|k: int| 0 <= k < lv.len() ==> (#[trigger] lv[k]).len() <= text@.len(),
            comment_depth as nat == state_before(lv, i as int).comments,
            brace_depth as int == state_before(lv, i as int).braces,
            comment_depth <= total_len(lv, i as int),
            0 <= brace_depth <= total_len(lv, i as int),
            result@.len() == i,
            forall|k: int|
                0 <= k < i ==> {
                    &&& #[trigger] result@[k].index == k
                    &&& result@[k].kind == document_kind(lv, k)
                    &&& result@[k].content@ == lv[k]
                },
        decreases ls.len() - i,
    {
        let line = ls[i].as_slice();
        assert(line@ == lv[i as int]);
        let ghost st = state_before(lv, i as int);
        assert(total_len(lv, i + 1) == total_len(lv, i as int) + line@.len());
        let was_in_comment = comment_depth > 0;
        comment_depth = scan_comment_depth(line, comment_depth);
        let t = trim_chars(line);
        let kind;
        if was_in_comment || has_prefix_str(t.as_slice(), "/*") {
            kind = LineKind::Comment;
        } else if brace_depth > 0 {
            brace_depth = braces_after(brace_depth, line);
            kind = LineKind::Cordial;
        } else {
            kind = kind_of_line(line);
            if kind == LineKind::Cordial {
                brace_depth = braces_after(brace_depth, line);
            }
        }
        assert(kind == kind_in(st, lv[i as int]));
        assert(state_before(lv, i + 1) == state_after(st, lv[i as int]));
        assert(kind == document_kind(lv, i as int));
        let content = string_of(line);
        let ghost before = result@;
        result.push(ClassifiedLine { index: i, kind, content });
        assert(forall|k: int| 0 <= k < i ==> result@[k] == before[k]);
        i += 1;
    }
    assert(views(ls@).len() == ls@.len());
    result
}

} // verus!
