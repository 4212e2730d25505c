//! The Cordial tokenizer: the tokens of a line of source, with number
//! literals kept as their text (the interpreter reads their value),
//! SPICE suffixes (`10nF`, `4k7` is not one) split into prefix and unit,
//! string escapes resolved, and the errors the tokenizer reports.
use vstd::prelude::*;
use crate::text::{
    alphabetic, alphanumeric, char_is_alphabetic, is_ascii_letter, char_is_alphanumeric, chars_equal, count_char,
    is_digit, push_char, push_chars, push_str, string_of, sub_chars,
};

verus! {

/// SI prefix of a SPICE literal.
#[derive(Debug, Clone, Copy, PartialEq, Eq, Structural)]
pub enum SpicePrefix {
    /// `m`: 1e-3.
    Milli,
    /// `u`, `µ`: 1e-6.
    Micro,
    /// `n`: 1e-9.
    Nano,
    /// `p`: 1e-12.
    Pico,
}

/// A Cordial token as a value.
pub enum TokenModel {
    /// A number: its text (sign included) and the exponent after `e`.
    Number(Seq<char>, Option<Seq<char>>),
    /// A SPICE literal: number text, exponent, prefix and upper-case unit.
    Spice(Seq<char>, Option<Seq<char>>, Option<SpicePrefix>, Seq<char>),
    Str(Seq<char>),
    Bool(bool),
    Ident(Seq<char>),
    Plus,
    Minus,
    Star,
    Slash,
    Percent,
    Caret,
    LParen,
    RParen,
    LBrace,
    RBrace,
    LBracket,
    RBracket,
    Comma,
    Eq,
    EqEq,
    BangEq,
    Lt,
    Gt,
    LtEq,
    GtEq,
    And,
    Or,
    Bang,
    Tilde,
    Colon,
    DotDot,
    Arrow,
    At,
    Let,
    While,
    Fn,
    If,
    Else,
    For,
    In,
    Return,
    Is,
    Use,
    ColonColon,
    Newline,
    Eof,
}

// ---------------------------------------------------------------------------
// Character runs
// ---------------------------------------------------------------------------

/// `s[i + 1]` is `c`.
pub open spec fn next_is(s: Seq<char>, i: int, c: char) -> bool {
    i + 1 < s.len() && s[i + 1] == c
}

/// A character of a number run starting at `k`: a digit, or a `.` not
/// followed by another `.`.
pub open spec fn num_char(s: Seq<char>, k: int) -> bool {
    is_digit(s[k]) || (s[k] == '.' && !next_is(s, k, '.'))
}

/// End of the number run starting at `k`.
pub open spec fn num_run_end(s: Seq<char>, k: int) -> int
    decreases s.len() - k,
{
    if k < 0 || k >= s.len() || !num_char(s, k) {
        k
    } else {
        num_run_end(s, k + 1)
    }
}

/// End of the digits starting at `k`.
pub open spec fn digits_end(s: Seq<char>, k: int) -> int
    decreases s.len() - k,
{
    if k < 0 || k >= s.len() || !is_digit(s[k]) {
        k
    } else {
        digits_end(s, k + 1)
    }
}

/// End of the identifier characters starting at `k`.
pub open spec fn word_end(s: Seq<char>, k: int) -> int
    decreases s.len() - k,
{
    if k < 0 || k >= s.len() || !(alphanumeric(s[k]) || s[k] == '_') {
        k
    } else {
        word_end(s, k + 1)
    }
}

/// A letter of a SPICE suffix.
pub open spec fn suffix_char(c: char) -> bool {
    alphabetic(c) || c == 'µ' || c == 'μ'
}

/// End of the suffix letters starting at `k`.
pub open spec fn alpha_end(s: Seq<char>, k: int) -> int
    decreases s.len() - k,
{
    if k < 0 || k >= s.len() || !suffix_char(s[k]) {
        k
    } else {
        alpha_end(s, k + 1)
    }
}

/// Position of the first newline at or after `k` (or the end).
pub open spec fn line_end(s: Seq<char>, k: int) -> int
    decreases s.len() - k,
{
    if k < 0 || k >= s.len() || s[k] == '\n' {
        k
    } else {
        line_end(s, k + 1)
    }
}

/// End of an optional exponent (`e` or `E`, an optional sign, digits)
/// starting at `k`; `k` itself when there is none.
pub open spec fn exp_end(s: Seq<char>, k: int) -> int {
    if 0 <= k < s.len() && (s[k] == 'e' || s[k] == 'E') {
        let j = if next_is(s, k, '+') || next_is(s, k, '-') {
            k + 2
        } else {
            k + 1
        };
        if j < s.len() && is_digit(s[j]) {
            digits_end(s, j)
        } else {
            k
        }
    } else {
        k
    }
}

/// A number's digits `s[a..b]` (sign excluded) read as a number: at most
/// one `.` and at least one digit.
pub open spec fn number_ok(s: Seq<char>, a: int, b: int) -> bool {
    count_char(s.subrange(a, b), '.') <= 1 && exists|k: int| a <= k < b && is_digit(#[trigger] s[k])
}

/// A character that, right after a number, makes an implicit `*`.
pub open spec fn implicit_mul(c: char) -> bool {
    alphabetic(c) || c == '_' || c == '(' || c == 'µ' || c == 'μ'
}

/// What a string escape `\c` stands for.
pub open spec fn escaped(c: char) -> Seq<char> {
    if c == 'n' {
        seq!['\n']
    } else if c == 't' {
        seq!['\t']
    } else if c == '\\' {
        seq!['\\']
    } else if c == '"' {
        seq!['"']
    } else {
        seq!['\\', c]
    }
}

/// Content of a string literal whose body starts at `k`, and the position
/// of its closing quote; `None` if unterminated.
pub open spec fn str_lit(s: Seq<char>, k: int) -> Option<(Seq<char>, int)>
    decreases s.len() - k,
{
    if k < 0 || k >= s.len() {
        None
    } else if s[k] == '"' {
        Some((seq![], k))
    } else if s[k] == '\\' && k + 1 < s.len() {
        match str_lit(s, k + 2) {
            Some((c, j)) => Some((escaped(s[k + 1]) + c, j)),
            None => None,
        }
    } else {
        match str_lit(s, k + 1) {
            Some((c, j)) => Some((seq![s[k]] + c, j)),
            None => None,
        }
    }
}

pub proof fn lemma_ends(s: Seq<char>, k: int)
    requires
        0 <= k <= s.len(),
    ensures
        k <= num_run_end(s, k) <= s.len(),
        k <= digits_end(s, k) <= s.len(),
        k <= word_end(s, k) <= s.len(),
        k <= alpha_end(s, k) <= s.len(),
        k <= line_end(s, k) <= s.len(),
        k <= exp_end(s, k) <= s.len(),
        str_lit(s, k) matches Some((_, j)) ==> k <= j < s.len(),
    decreases s.len() - k,
{
    if k < s.len() {
        lemma_ends(s, k + 1);
        if k + 2 <= s.len() {
            lemma_ends(s, k + 2);
        }
        if k + 3 <= s.len() {
            lemma_ends(s, k + 3);
        }
    }
}

// ---------------------------------------------------------------------------
// SPICE suffixes
// ---------------------------------------------------------------------------

/// The SI prefix a letter stands for.
pub open spec fn prefix_of(c: char) -> Option<SpicePrefix> {
    if c == 'm' || c == 'M' {
        Some(SpicePrefix::Milli)
    } else if c == 'u' || c == 'U' || c == 'µ' || c == 'μ' {
        Some(SpicePrefix::Micro)
    } else if c == 'n' || c == 'N' {
        Some(SpicePrefix::Nano)
    } else if c == 'p' || c == 'P' {
        Some(SpicePrefix::Pico)
    } else {
        None
    }
}

/// A suffix letter as units are matched: upper case, `µ` as `U`.
pub open spec fn unit_letter(c: char) -> char {
    if c == 'µ' || c == 'μ' {
        'U'
    } else if 'a' <= c && c <= 'z' {
        ((c as u32) - 32) as char
    } else {
        c
    }
}

/// The SPICE units, upper case.
pub open spec fn spice_units() -> Seq<Seq<char>> {
    seq!["F"@, "H"@, "HZ"@, "V"@, "A"@, "W"@, "R"@, "OHM"@, "S"@, "J"@]
}

/// Prefix and unit a run of letters after a number stands for: a lone
/// prefix, a lone unit, or a prefix and a unit.
pub open spec fn spice_suffix(alpha: Seq<char>) -> Option<(Option<SpicePrefix>, Seq<char>)> {
    let norm = alpha.map_values(|c: char| unit_letter(c));
    if alpha.len() == 0 {
        None
    } else if alpha.len() == 1 && prefix_of(alpha[0]) is Some {
        Some((prefix_of(alpha[0]), seq![]))
    } else if spice_units().contains(norm) {
        Some((None, norm))
    } else if prefix_of(alpha[0]) is Some && spice_units().contains(norm.skip(1)) {
        Some((prefix_of(alpha[0]), norm.skip(1)))
    } else {
        None
    }
}

// ---------------------------------------------------------------------------
// Tokens
// ---------------------------------------------------------------------------

/// After token `t` a `-` may start a negative number.
pub open spec fn allows_sign(t: TokenModel) -> bool {
    ||| t is Plus
    ||| t is Minus
    ||| t is Star
    ||| t is Slash
    ||| t is Percent
    ||| t is Caret
    ||| t is LParen
    ||| t is LBracket
    ||| t is Comma
    ||| t is Eq
    ||| t is EqEq
    ||| t is BangEq
    ||| t is Lt
    ||| t is Gt
    ||| t is LtEq
    ||| t is GtEq
    ||| t is And
    ||| t is Or
    ||| t is Bang
    ||| t is Tilde
    ||| t is Newline
    ||| t is Colon
}

/// The token of a word.
pub open spec fn word_token(w: Seq<char>) -> TokenModel {
    if w == "let"@ {
        TokenModel::Let
    } else if w == "while"@ {
        TokenModel::While
    } else if w == "fn"@ {
        TokenModel::Fn
    } else if w == "if"@ {
        TokenModel::If
    } else if w == "else"@ {
        TokenModel::Else
    } else if w == "for"@ {
        TokenModel::For
    } else if w == "in"@ {
        TokenModel::In
    } else if w == "return"@ {
        TokenModel::Return
    } else if w == "true"@ {
        TokenModel::Bool(true)
    } else if w == "false"@ {
        TokenModel::Bool(false)
    } else if w == "and"@ {
        TokenModel::And
    } else if w == "or"@ {
        TokenModel::Or
    } else if w == "not"@ {
        TokenModel::Bang
    } else if w == "is"@ {
        TokenModel::Is
    } else if w == "use"@ {
        TokenModel::Use
    } else {
        TokenModel::Ident(w)
    }
}

/// What the tokenizer does at one position.
pub enum Step {
    /// Nothing to emit; go on at the position.
    Skip(int),
    /// Emit the tokens, go on at the position, with or without a sign
    /// allowed there.
    Emit(Seq<TokenModel>, int, bool),
    /// Reject the text with the message.
    Fail(Seq<char>),
}

/// One token, then go on at `j`.
pub open spec fn one(t: TokenModel, j: int) -> Step {
    Step::Emit(seq![t], j, allows_sign(t))
}

/// The number literal at `i` (its `-` included when `s[i]` is one).
pub open spec fn number_step(s: Seq<char>, i: int, spice: bool) -> Step {
    let b = if s[i] == '-' {
        i + 1
    } else {
        i
    };
    let e1 = num_run_end(s, b);
    let text = s.subrange(i, e1);
    if !number_ok(s, b, e1) {
        Step::Fail("invalid number: "@ + text)
    } else {
        let e2 = exp_end(s, e1);
        let exp = if e2 > e1 {
            Some(s.subrange(e1 + 1, e2))
        } else {
            None
        };
        let r = alpha_end(s, e2);
        let suffix = spice_suffix(s.subrange(e2, r));
        if spice && r > e2 && suffix is Some {
            let (p, u) = suffix.unwrap();
            Step::Emit(seq![TokenModel::Spice(text, exp, p, u)], r, false)
        } else if e2 < s.len() && implicit_mul(s[e2]) {
            Step::Emit(seq![TokenModel::Number(text, exp), TokenModel::Star], e2, true)
        } else {
            Step::Emit(seq![TokenModel::Number(text, exp)], e2, false)
        }
    }
}

/// What the tokenizer does at `s[i]`; `sign` says whether a `-` there may
/// start a negative number.
pub open spec fn step(s: Seq<char>, i: int, sign: bool, spice: bool) -> Step {
    let c = s[i];
    if c == ' ' || c == '\t' || c == '\r' {
        Step::Skip(i + 1)
    } else if c == '\n' {
        one(TokenModel::Newline, i + 1)
    } else if c == '+' {
        one(TokenModel::Plus, i + 1)
    } else if c == '-' {
        if next_is(s, i, '>') {
            one(TokenModel::Arrow, i + 2)
        } else if i + 1 < s.len() && (is_digit(s[i + 1]) || s[i + 1] == '.') && sign {
            number_step(s, i, spice)
        } else {
            one(TokenModel::Minus, i + 1)
        }
    } else if c == '*' {
        one(TokenModel::Star, i + 1)
    } else if c == '/' {
        if next_is(s, i, '/') {
            Step::Skip(line_end(s, i))
        } else {
            one(TokenModel::Slash, i + 1)
        }
    } else if c == '%' {
        one(TokenModel::Percent, i + 1)
    } else if c == '^' {
        one(TokenModel::Caret, i + 1)
    } else if c == '(' {
        one(TokenModel::LParen, i + 1)
    } else if c == ')' {
        one(TokenModel::RParen, i + 1)
    } else if c == '{' {
        one(TokenModel::LBrace, i + 1)
    } else if c == '}' {
        one(TokenModel::RBrace, i + 1)
    } else if c == '[' {
        one(TokenModel::LBracket, i + 1)
    } else if c == ']' {
        one(TokenModel::RBracket, i + 1)
    } else if c == ',' {
        one(TokenModel::Comma, i + 1)
    } else if c == ':' {
        if next_is(s, i, ':') {
            one(TokenModel::ColonColon, i + 2)
        } else {
            one(TokenModel::Colon, i + 1)
        }
    } else if c == '.' && next_is(s, i, '.') {
        one(TokenModel::DotDot, i + 2)
    } else if c == '!' {
        if next_is(s, i, '=') {
            one(TokenModel::BangEq, i + 2)
        } else {
            one(TokenModel::Bang, i + 1)
        }
    } else if c == '~' {
        one(TokenModel::Tilde, i + 1)
    } else if c == '@' {
        one(TokenModel::At, i + 1)
    } else if c == '=' {
        if next_is(s, i, '=') {
            one(TokenModel::EqEq, i + 2)
        } else {
            one(TokenModel::Eq, i + 1)
        }
    } else if c == '<' {
        if next_is(s, i, '=') {
            one(TokenModel::LtEq, i + 2)
        } else {
            one(TokenModel::Lt, i + 1)
        }
    } else if c == '>' {
        if next_is(s, i, '=') {
            one(TokenModel::GtEq, i + 2)
        } else {
            one(TokenModel::Gt, i + 1)
        }
    } else if c == '&' {
        if next_is(s, i, '&') {
            one(TokenModel::And, i + 2)
        } else {
            Step::Fail("unexpected '&', did you mean '&&'?"@)
        }
    } else if c == '|' {
        if next_is(s, i, '|') {
            one(TokenModel::Or, i + 2)
        } else {
            Step::Fail("unexpected '|', did you mean '||'?"@)
        }
    } else if c == '"' {
        match str_lit(s, i + 1) {
            Some((content, k)) => one(TokenModel::Str(content), k + 1),
            None => Step::Fail("unterminated string"@),
        }
    } else if is_digit(c) || (c == '.' && i + 1 < s.len() && is_digit(s[i + 1])) {
        number_step(s, i, spice)
    } else if alphabetic(c) || c == '_' {
        let e = word_end(s, i + 1);
        one(word_token(s.subrange(i, e)), e)
    } else {
        Step::Fail("unexpected character: '"@ + seq![c] + "'"@)
    }
}

/// `Ok(p + r)` for `Ok(r)`.
pub open spec fn prepend(p: Seq<TokenModel>, r: Result<Seq<TokenModel>, Seq<char>>) -> Result<
    Seq<TokenModel>,
    Seq<char>,
> {
    match r {
        Ok(t) => Ok(p + t),
        Err(m) => Err(m),
    }
}

pub proof fn lemma_step_advances(s: Seq<char>, i: int, sign: bool, spice: bool)
    requires
        0 <= i < s.len(),
    ensures
        match step(s, i, sign, spice) {
            Step::Skip(j) => i < j <= s.len(),
            Step::Emit(_, j, _) => i < j <= s.len(),
            Step::Fail(_) => true,
        },
{
    lemma_ends(s, i);
    lemma_ends(s, i + 1);
    let b = if s[i] == '-' {
        i + 1
    } else {
        i
    };
    if b <= s.len() {
        lemma_ends(s, b);
        let e1 = num_run_end(s, b);
        lemma_ends(s, e1);
        let e2 = exp_end(s, e1);
        lemma_ends(s, e2);
        if e1 + 1 <= s.len() {
            lemma_ends(s, e1 + 1);
        }
        if e1 + 2 <= s.len() {
            lemma_ends(s, e1 + 2);
        }
        if number_ok(s, b, e1) {
            let k = choose|k: int| b <= k < e1 && is_digit(#[trigger] s[k]);
        }
    }
}

/// The tokens of `s[i..]` ending with `Eof`, or the message with which
/// the tokenizer rejects the text.
pub open spec fn lex(s: Seq<char>, i: int, sign: bool, spice: bool) -> Result<
    Seq<TokenModel>,
    Seq<char>,
>
    decreases s.len() - i,
{
    if i < 0 || i >= s.len() {
        Ok(seq![TokenModel::Eof])
    } else {
        proof {
            lemma_step_advances(s, i, sign, spice);
        }
        match step(s, i, sign, spice) {
            Step::Skip(j) => lex(s, j, sign, spice),
            Step::Emit(ts, j, sg) => prepend(ts, lex(s, j, sg, spice)),
            Step::Fail(m) => Err(m),
        }
    }
}

/// The tokens of a source text, `spice` saying whether SPICE literals are
/// read.
pub open spec fn tokens_of(s: Seq<char>, spice: bool) -> Result<Seq<TokenModel>, Seq<char>> {
    lex(s, 0, true, spice)
}

/// The tokens a tokenizer step emits (none when it skips or fails).
pub open spec fn emitted(st: Step) -> Seq<TokenModel> {
    match st {
        Step::Emit(ts, _, _) => ts,
        _ => Seq::empty(),
    }
}

/// The word that starts at `s[i]`: the run of identifier characters there.
pub open spec fn word_at(s: Seq<char>, i: int) -> Seq<char> {
    s.subrange(i, word_end(s, i + 1))
}

/// The reserved words of Cordial.
pub open spec fn reserved_word(w: Seq<char>) -> bool {
    ||| w == "let"@
    ||| w == "while"@
    ||| w == "fn"@
    ||| w == "if"@
    ||| w == "else"@
    ||| w == "for"@
    ||| w == "in"@
    ||| w == "return"@
    ||| w == "true"@
    ||| w == "false"@
    ||| w == "and"@
    ||| w == "or"@
    ||| w == "not"@
    ||| w == "is"@
    ||| w == "use"@
}

proof fn lemma_word_end_bounds(s: Seq<char>, k: int)
    requires
        0 <= k <= s.len(),
    ensures
        k <= word_end(s, k) <= s.len(),
    decreases s.len() - k,
{
    if k < s.len() && (alphanumeric(s[k]) || s[k] == '_') {
        lemma_word_end_bounds(s, k + 1);
    }
}

/// The keyword forms of the logical operators lex as their symbols:
/// wherever the word `and`, `or` or `not` stands, the tokenizer emits
/// exactly what it emits for `&&`, `||` and `!`, and goes on after the word.
pub proof fn lemma_word_operators_lex_as_symbols(s: Seq<char>, i: int, sign: bool, spice: bool)
    requires
        0 <= i < s.len(),
        alphabetic(s[i]) || s[i] == '_',
    ensures
        word_at(s, i) == "and"@ ==> emitted(step(s, i, sign, spice)) == emitted(
            step("&&"@, 0, sign, spice),
        ),
        word_at(s, i) == "or"@ ==> emitted(step(s, i, sign, spice)) == emitted(
            step("||"@, 0, sign, spice),
        ),
        word_at(s, i) == "not"@ ==> emitted(step(s, i, sign, spice)) == emitted(
            step("!"@, 0, sign, spice),
        ),
        word_at(s, i) == "and"@ ==> emitted(step(s, i, sign, spice)) == seq![TokenModel::And],
        word_at(s, i) == "or"@ ==> emitted(step(s, i, sign, spice)) == seq![TokenModel::Or],
        word_at(s, i) == "not"@ ==> emitted(step(s, i, sign, spice)) == seq![TokenModel::Bang],
        (word_at(s, i) == "and"@ || word_at(s, i) == "or"@ || word_at(s, i) == "not"@)
            ==> (step(s, i, sign, spice) matches Step::Emit(_, j, _) && j == word_end(s, i + 1)),
{
    reveal_strlit("let");
    reveal_strlit("while");
    reveal_strlit("fn");
    reveal_strlit("if");
    reveal_strlit("else");
    reveal_strlit("for");
    reveal_strlit("in");
    reveal_strlit("return");
    reveal_strlit("true");
    reveal_strlit("false");
    reveal_strlit("and");
    reveal_strlit("or");
    reveal_strlit("not");
    reveal_strlit("is");
    reveal_strlit("use");
    reveal_strlit("&&");
    reveal_strlit("||");
    reveal_strlit("!");
    lemma_word_end_bounds(s, i + 1);
    let w = word_at(s, i);
    if w == "and"@ || w == "or"@ || w == "not"@ {
        assert(s[i] == w[0]);
        assert(w[0] == 'a' || w[0] == 'o' || w[0] == 'n');
        assert(!is_digit(s[i]));
    }
    assert("&&"@[0] == '&' && "&&"@[1] == '&');
    assert("||"@[0] == '|' && "||"@[1] == '|');
    assert("!"@[0] == '!' && "!"@.len() == 1);
}

/// A reserved word never lexes as an identifier, and any other word lexes
/// as the identifier spelled by the word itself.
pub proof fn lemma_reserved_words_are_not_identifiers(s: Seq<char>, i: int, sign: bool, spice: bool)
    requires
        0 <= i < s.len(),
        alphabetic(s[i]) || s[i] == '_',
        (s[i] as u32) >= 0x80 || is_ascii_letter(s[i]) || s[i] == '_',
    ensures
        emitted(step(s, i, sign, spice)).len() == 1,
        reserved_word(word_at(s, i)) ==> !(emitted(step(s, i, sign, spice))[0] is Ident),
        !reserved_word(word_at(s, i)) ==> emitted(step(s, i, sign, spice))[0] == TokenModel::Ident(
            word_at(s, i),
        ),
{
    reveal_strlit("let");
    reveal_strlit("while");
    reveal_strlit("fn");
    reveal_strlit("if");
    reveal_strlit("else");
    reveal_strlit("for");
    reveal_strlit("in");
    reveal_strlit("return");
    reveal_strlit("true");
    reveal_strlit("false");
    reveal_strlit("and");
    reveal_strlit("or");
    reveal_strlit("not");
    reveal_strlit("is");
    reveal_strlit("use");
    lemma_word_end_bounds(s, i + 1);
    assert(!is_digit(s[i]));
}

// ---------------------------------------------------------------------------
// Executable tokenizer
// ---------------------------------------------------------------------------

/// A Cordial token.
#[derive(Debug, PartialEq)]
pub enum Token {
    /// A number: its text (sign included) and the exponent after `e`.
    Number { text: String, exp: Option<String> },
    /// A SPICE literal: number text, exponent, prefix and upper-case unit.
    Spice { text: String, exp: Option<String>, prefix: Option<SpicePrefix>, unit: String },
    Str(String),
    Bool(bool),
    Ident(String),
    Plus,
    Minus,
    Star,
    Slash,
    Percent,
    Caret,
    LParen,
    RParen,
    LBrace,
    RBrace,
    LBracket,
    RBracket,
    Comma,
    Eq,
    EqEq,
    BangEq,
    Lt,
    Gt,
    LtEq,
    GtEq,
    And,
    Or,
    Bang,
    Tilde,
    Colon,
    DotDot,
    Arrow,
    At,
    Let,
    While,
    Fn,
    If,
    Else,
    For,
    In,
    Return,
    Is,
    Use,
    ColonColon,
    Newline,
    Eof,
}

pub(crate) fn clone_opt(o: &Option<String>) -> (r: Option<String>)
    ensures
        r == *o,
{
    match o {
        Some(s) => Some(s.clone()),
        None => None,
    }
}

impl Clone for Token {
    fn clone(&self) -> (r: Self)
        ensures
            r == *self,
    {
        match self {
            Token::Number { text, exp } => Token::Number { text: text.clone(), exp: clone_opt(exp) },
            Token::Spice { text, exp, prefix, unit } => Token::Spice {
                text: text.clone(),
                exp: clone_opt(exp),
                prefix: *prefix,
                unit: unit.clone(),
            },
            Token::Str(s) => Token::Str(s.clone()),
            Token::Bool(b) => Token::Bool(*b),
            Token::Ident(s) => Token::Ident(s.clone()),
            Token::Plus => Token::Plus,
            Token::Minus => Token::Minus,
            Token::Star => Token::Star,
            Token::Slash => Token::Slash,
            Token::Percent => Token::Percent,
            Token::Caret => Token::Caret,
            Token::LParen => Token::LParen,
            Token::RParen => Token::RParen,
            Token::LBrace => Token::LBrace,
            Token::RBrace => Token::RBrace,
            Token::LBracket => Token::LBracket,
            Token::RBracket => Token::RBracket,
            Token::Comma => Token::Comma,
            Token::Eq => Token::Eq,
            Token::EqEq => Token::EqEq,
            Token::BangEq => Token::BangEq,
            Token::Lt => Token::Lt,
            Token::Gt => Token::Gt,
            Token::LtEq => Token::LtEq,
            Token::GtEq => Token::GtEq,
            Token::And => Token::And,
            Token::Or => Token::Or,
            Token::Bang => Token::Bang,
            Token::Tilde => Token::Tilde,
            Token::Colon => Token::Colon,
            Token::DotDot => Token::DotDot,
            Token::Arrow => Token::Arrow,
            Token::At => Token::At,
            Token::Let => Token::Let,
            Token::While => Token::While,
            Token::Fn => Token::Fn,
            Token::If => Token::If,
            Token::Else => Token::Else,
            Token::For => Token::For,
            Token::In => Token::In,
            Token::Return => Token::Return,
            Token::Is => Token::Is,
            Token::Use => Token::Use,
            Token::ColonColon => Token::ColonColon,
            Token::Newline => Token::Newline,
            Token::Eof => Token::Eof,
        }
    }
}

/// The kind of a token, without its text.
#[derive(Debug, Clone, Copy, PartialEq, Eq, Structural)]
pub enum Kind {
    Number,
    Spice,
    Str,
    Bool,
    Ident,
    Plus,
    Minus,
    Star,
    Slash,
    Percent,
    Caret,
    LParen,
    RParen,
    LBrace,
    RBrace,
    LBracket,
    RBracket,
    Comma,
    Eq,
    EqEq,
    BangEq,
    Lt,
    Gt,
    LtEq,
    GtEq,
    And,
    Or,
    Bang,
    Tilde,
    Colon,
    DotDot,
    Arrow,
    At,
    Let,
    While,
    Fn,
    If,
    Else,
    For,
    In,
    Return,
    Is,
    Use,
    ColonColon,
    Newline,
    Eof,
}

/// The kind of a token value.
#[verifier::opaque]
pub open spec fn kind_of(m: TokenModel) -> Kind {
    match m {
        TokenModel::Number(..) => Kind::Number,
        TokenModel::Spice(..) => Kind::Spice,
        TokenModel::Str(..) => Kind::Str,
        TokenModel::Bool(..) => Kind::Bool,
        TokenModel::Ident(..) => Kind::Ident,
        TokenModel::Plus => Kind::Plus,
        TokenModel::Minus => Kind::Minus,
        TokenModel::Star => Kind::Star,
        TokenModel::Slash => Kind::Slash,
        TokenModel::Percent => Kind::Percent,
        TokenModel::Caret => Kind::Caret,
        TokenModel::LParen => Kind::LParen,
        TokenModel::RParen => Kind::RParen,
        TokenModel::LBrace => Kind::LBrace,
        TokenModel::RBrace => Kind::RBrace,
        TokenModel::LBracket => Kind::LBracket,
        TokenModel::RBracket => Kind::RBracket,
        TokenModel::Comma => Kind::Comma,
        TokenModel::Eq => Kind::Eq,
        TokenModel::EqEq => Kind::EqEq,
        TokenModel::BangEq => Kind::BangEq,
        TokenModel::Lt => Kind::Lt,
        TokenModel::Gt => Kind::Gt,
        TokenModel::LtEq => Kind::LtEq,
        TokenModel::GtEq => Kind::GtEq,
        TokenModel::And => Kind::And,
        TokenModel::Or => Kind::Or,
        TokenModel::Bang => Kind::Bang,
        TokenModel::Tilde => Kind::Tilde,
        TokenModel::Colon => Kind::Colon,
        TokenModel::DotDot => Kind::DotDot,
        TokenModel::Arrow => Kind::Arrow,
        TokenModel::At => Kind::At,
        TokenModel::Let => Kind::Let,
        TokenModel::While => Kind::While,
        TokenModel::Fn => Kind::Fn,
        TokenModel::If => Kind::If,
        TokenModel::Else => Kind::Else,
        TokenModel::For => Kind::For,
        TokenModel::In => Kind::In,
        TokenModel::Return => Kind::Return,
        TokenModel::Is => Kind::Is,
        TokenModel::Use => Kind::Use,
        TokenModel::ColonColon => Kind::ColonColon,
        TokenModel::Newline => Kind::Newline,
        TokenModel::Eof => Kind::Eof,
    }
}

/// The kind of a token.
pub fn token_kind(t: &Token) -> (k: Kind)
    ensures
        k == kind_of(token_view(*t)),
{
    reveal(kind_of);
    match t {
        Token::Number { .. } => Kind::Number,
        Token::Spice { .. } => Kind::Spice,
        Token::Str(..) => Kind::Str,
        Token::Bool(..) => Kind::Bool,
        Token::Ident(..) => Kind::Ident,
        Token::Plus => Kind::Plus,
        Token::Minus => Kind::Minus,
        Token::Star => Kind::Star,
        Token::Slash => Kind::Slash,
        Token::Percent => Kind::Percent,
        Token::Caret => Kind::Caret,
        Token::LParen => Kind::LParen,
        Token::RParen => Kind::RParen,
        Token::LBrace => Kind::LBrace,
        Token::RBrace => Kind::RBrace,
        Token::LBracket => Kind::LBracket,
        Token::RBracket => Kind::RBracket,
        Token::Comma => Kind::Comma,
        Token::Eq => Kind::Eq,
        Token::EqEq => Kind::EqEq,
        Token::BangEq => Kind::BangEq,
        Token::Lt => Kind::Lt,
        Token::Gt => Kind::Gt,
        Token::LtEq => Kind::LtEq,
        Token::GtEq => Kind::GtEq,
        Token::And => Kind::And,
        Token::Or => Kind::Or,
        Token::Bang => Kind::Bang,
        Token::Tilde => Kind::Tilde,
        Token::Colon => Kind::Colon,
        Token::DotDot => Kind::DotDot,
        Token::Arrow => Kind::Arrow,
        Token::At => Kind::At,
        Token::Let => Kind::Let,
        Token::While => Kind::While,
        Token::Fn => Kind::Fn,
        Token::If => Kind::If,
        Token::Else => Kind::Else,
        Token::For => Kind::For,
        Token::In => Kind::In,
        Token::Return => Kind::Return,
        Token::Is => Kind::Is,
        Token::Use => Kind::Use,
        Token::ColonColon => Kind::ColonColon,
        Token::Newline => Kind::Newline,
        Token::Eof => Kind::Eof,
    }
}

/// The characters of an optional string.
pub open spec fn opt_view(o: Option<String>) -> Option<Seq<char>> {
    match o {
        Some(s) => Some(s@),
        None => None,
    }
}

/// The value of a token.
pub open spec fn token_view(t: Token) -> TokenModel {
    match t {
        Token::Number { text, exp } => TokenModel::Number(text@, opt_view(exp)),
        Token::Spice { text, exp, prefix, unit } => TokenModel::Spice(
            text@,
            opt_view(exp),
            prefix,
            unit@,
        ),
        Token::Str(s) => TokenModel::Str(s@),
        Token::Bool(b) => TokenModel::Bool(b),
        Token::Ident(s) => TokenModel::Ident(s@),
        Token::Plus => TokenModel::Plus,
        Token::Minus => TokenModel::Minus,
        Token::Star => TokenModel::Star,
        Token::Slash => TokenModel::Slash,
        Token::Percent => TokenModel::Percent,
        Token::Caret => TokenModel::Caret,
        Token::LParen => TokenModel::LParen,
        Token::RParen => TokenModel::RParen,
        Token::LBrace => TokenModel::LBrace,
        Token::RBrace => TokenModel::RBrace,
        Token::LBracket => TokenModel::LBracket,
        Token::RBracket => TokenModel::RBracket,
        Token::Comma => TokenModel::Comma,
        Token::Eq => TokenModel::Eq,
        Token::EqEq => TokenModel::EqEq,
        Token::BangEq => TokenModel::BangEq,
        Token::Lt => TokenModel::Lt,
        Token::Gt => TokenModel::Gt,
        Token::LtEq => TokenModel::LtEq,
        Token::GtEq => TokenModel::GtEq,
        Token::And => TokenModel::And,
        Token::Or => TokenModel::Or,
        Token::Bang => TokenModel::Bang,
        Token::Tilde => TokenModel::Tilde,
        Token::Colon => TokenModel::Colon,
        Token::DotDot => TokenModel::DotDot,
        Token::Arrow => TokenModel::Arrow,
        Token::At => TokenModel::At,
        Token::Let => TokenModel::Let,
        Token::While => TokenModel::While,
        Token::Fn => TokenModel::Fn,
        Token::If => TokenModel::If,
        Token::Else => TokenModel::Else,
        Token::For => TokenModel::For,
        Token::In => TokenModel::In,
        Token::Return => TokenModel::Return,
        Token::Is => TokenModel::Is,
        Token::Use => TokenModel::Use,
        Token::ColonColon => TokenModel::ColonColon,
        Token::Newline => TokenModel::Newline,
        Token::Eof => TokenModel::Eof,
    }
}

/// The values of a token list.
pub open spec fn tokens_view(ts: Seq<Token>) -> Seq<TokenModel> {
    ts.map_values(|t: Token| token_view(t))
}

fn ascii_digit(c: char) -> (r: bool)
    ensures
        r == is_digit(c),
{
    '0' <= c && c <= '9'
}

fn next_char_is(s: &[char], i: usize, ch: char) -> (b: bool)
    ensures
        b == next_is(s@, i as int, ch),
{
    i < s.len() && s.len() - i > 1 && s[i + 1] == ch
}

fn num_run_end_at(s: &[char], k: usize) -> (r: usize)
    requires
        k <= s.len(),
    ensures
        r == num_run_end(s@, k as int),
{
    let mut j = k;
    while j < s.len() && (ascii_digit(s[j]) || (s[j] == '.' && !(j + 1 < s.len() && s[j + 1]
        == '.')))
        invariant
            k <= j <= s.len(),
            num_run_end(s@, k as int) == num_run_end(s@, j as int),
        decreases s.len() - j,
    {
        j += 1;
    }
    j
}

fn digits_end_at(s: &[char], k: usize) -> (r: usize)
    requires
        k <= s.len(),
    ensures
        r == digits_end(s@, k as int),
{
    let mut j = k;
    while j < s.len() && ascii_digit(s[j])
        invariant
            k <= j <= s.len(),
            digits_end(s@, k as int) == digits_end(s@, j as int),
        decreases s.len() - j,
    {
        j += 1;
    }
    j
}

fn word_end_at(s: &[char], k: usize) -> (r: usize)
    requires
        k <= s.len(),
    ensures
        r == word_end(s@, k as int),
{
    let mut j = k;
    while j < s.len() && (char_is_alphanumeric(s[j]) || s[j] == '_')
        invariant
            k <= j <= s.len(),
            word_end(s@, k as int) == word_end(s@, j as int),
        decreases s.len() - j,
    {
        j += 1;
    }
    j
}

fn alpha_end_at(s: &[char], k: usize) -> (r: usize)
    requires
        k <= s.len(),
    ensures
        r == alpha_end(s@, k as int),
{
    let mut j = k;
    while j < s.len() && (char_is_alphabetic(s[j]) || s[j] == 'µ' || s[j] == 'μ')
        invariant
            k <= j <= s.len(),
            alpha_end(s@, k as int) == alpha_end(s@, j as int),
        decreases s.len() - j,
    {
        j += 1;
    }
    j
}

fn line_end_at(s: &[char], k: usize) -> (r: usize)
    requires
        k <= s.len(),
    ensures
        r == line_end(s@, k as int),
{
    let mut j = k;
    while j < s.len() && s[j] != '\n'
        invariant
            k <= j <= s.len(),
            line_end(s@, k as int) == line_end(s@, j as int),
        decreases s.len() - j,
    {
        j += 1;
    }
    j
}

fn exp_end_at(s: &[char], k: usize) -> (r: usize)
    requires
        k <= s.len(),
    ensures
        r == exp_end(s@, k as int),
{
    if k < s.len() && (s[k] == 'e' || s[k] == 'E') {
        let j = if k + 1 < s.len() && (s[k + 1] == '+' || s[k + 1] == '-') {
            k + 2
        } else {
            k + 1
        };
        if j < s.len() && ascii_digit(s[j]) {
            digits_end_at(s, j)
        } else {
            k
        }
    } else {
        k
    }
}

fn number_ok_at(s: &[char], a: usize, b: usize) -> (r: bool)
    requires
        a <= b <= s.len(),
    ensures
        r == number_ok(s@, a as int, b as int),
{
    let mut dots: usize = 0;
    let mut digit = false;
    let mut k = a;
    while k < b
        invariant
            a <= k <= b <= s.len(),
            dots == count_char(s@.subrange(a as int, k as int), '.'),
            dots <= k - a,
            digit == exists|j: int| a <= j < k && is_digit(#[trigger] s@[j]),
        decreases b - k,
    {
        assert(s@.subrange(a as int, k + 1).drop_last() =~= s@.subrange(a as int, k as int));
        if s[k] == '.' {
            dots += 1;
        }
        if ascii_digit(s[k]) {
            digit = true;
        }
        k += 1;
    }
    dots <= 1 && digit
}

/// Content and closing quote of the string literal whose body starts at
/// `k`.
fn str_lit_at(s: &[char], k: usize) -> (r: Option<(String, usize)>)
    requires
        k <= s.len(),
    ensures
        match r {
            Some((c, j)) => str_lit(s@, k as int) == Some((c@, j as int)),
            None => str_lit(s@, k as int) is None,
        },
{
    let mut out = String::new();
    let mut j = k;
    while j < s.len() && s[j] != '"'
        invariant
            k <= j <= s.len(),
            match str_lit(s@, j as int) {
                Some((c, e)) => str_lit(s@, k as int) == Some((out@ + c, e)),
                None => str_lit(s@, k as int) is None,
            },
        decreases s.len() - j,
    {
        let ghost before = out@;
        if s[j] == '\\' && j + 1 < s.len() {
            let e = s[j + 1];
            if e == 'n' {
                push_char(&mut out, '\n');
            } else if e == 't' {
                push_char(&mut out, '\t');
            } else if e == '\\' {
                push_char(&mut out, '\\');
            } else if e == '"' {
                push_char(&mut out, '"');
            } else {
                push_char(&mut out, '\\');
                push_char(&mut out, e);
            }
            assert(out@ =~= before + escaped(e));
            proof {
                match str_lit(s@, j + 2) {
                    Some((c, x)) => {
                        assert(before + (escaped(e) + c) =~= out@ + c);
                    },
                    None => {},
                }
            }
            j += 2;
        } else {
            push_char(&mut out, s[j]);
            proof {
                match str_lit(s@, j + 1) {
                    Some((c, x)) => {
                        assert(before + (seq![s@[j as int]] + c) =~= out@ + c);
                    },
                    None => {},
                }
            }
            j += 1;
        }
    }
    if j < s.len() {
        assert(out@ + Seq::<char>::empty() =~= out@);
        Some((out, j))
    } else {
        None
    }
}

fn word_token_of(w: &[char]) -> (r: Token)
    ensures
        token_view(r) == word_token(w@),
{
    let ws = string_of(w);
    let s = ws.as_str();
    proof {
        reveal_strlit("let");
        reveal_strlit("while");
        reveal_strlit("fn");
        reveal_strlit("if");
        reveal_strlit("else");
        reveal_strlit("for");
        reveal_strlit("in");
        reveal_strlit("return");
        reveal_strlit("true");
        reveal_strlit("false");
        reveal_strlit("and");
        reveal_strlit("or");
        reveal_strlit("not");
        reveal_strlit("is");
        reveal_strlit("use");
    }
    if crate::text::str_equal(s, "let") {
        Token::Let
    } else if crate::text::str_equal(s, "while") {
        Token::While
    } else if crate::text::str_equal(s, "fn") {
        Token::Fn
    } else if crate::text::str_equal(s, "if") {
        Token::If
    } else if crate::text::str_equal(s, "else") {
        Token::Else
    } else if crate::text::str_equal(s, "for") {
        Token::For
    } else if crate::text::str_equal(s, "in") {
        Token::In
    } else if crate::text::str_equal(s, "return") {
        Token::Return
    } else if crate::text::str_equal(s, "true") {
        Token::Bool(true)
    } else if crate::text::str_equal(s, "false") {
        Token::Bool(false)
    } else if crate::text::str_equal(s, "and") {
        Token::And
    } else if crate::text::str_equal(s, "or") {
        Token::Or
    } else if crate::text::str_equal(s, "not") {
        Token::Bang
    } else if crate::text::str_equal(s, "is") {
        Token::Is
    } else if crate::text::str_equal(s, "use") {
        Token::Use
    } else {
        Token::Ident(ws)
    }
}

fn prefix_of_char(c: char) -> (r: Option<SpicePrefix>)
    ensures
        r == prefix_of(c),
{
    if c == 'm' || c == 'M' {
        Some(SpicePrefix::Milli)
    } else if c == 'u' || c == 'U' || c == 'µ' || c == 'μ' {
        Some(SpicePrefix::Micro)
    } else if c == 'n' || c == 'N' {
        Some(SpicePrefix::Nano)
    } else if c == 'p' || c == 'P' {
        Some(SpicePrefix::Pico)
    } else {
        None
    }
}

fn unit_letter_of(c: char) -> (r: char)
    ensures
        r == unit_letter(c),
{
    if c == 'µ' || c == 'μ' {
        'U'
    } else if 'a' <= c && c <= 'z' {
        proof {
            assert((c as u8) as int == (c as u32) as int);
            assert((((c as u8) - 32) as char) == (((c as u32) - 32) as char));
        }
        ((c as u8) - 32) as char
    } else {
        c
    }
}

/// Whether `cs` is one of the SPICE units.
fn is_spice_unit(cs: &[char]) -> (r: bool)
    ensures
        r == spice_units().contains(cs@),
{
    let units: [&str; 10] = ["F", "H", "HZ", "V", "A", "W", "R", "OHM", "S", "J"];
    proof {
        reveal_strlit("F");
        reveal_strlit("H");
        reveal_strlit("HZ");
        reveal_strlit("V");
        reveal_strlit("A");
        reveal_strlit("W");
        reveal_strlit("R");
        reveal_strlit("OHM");
        reveal_strlit("S");
        reveal_strlit("J");
    }
    let mut k: usize = 0;
    while k < 10
        invariant
            k <= 10,
            units@ == seq!["F", "H", "HZ", "V", "A", "W", "R", "OHM", "S", "J"],
            forall|j: int| 0 <= j < k ==> spice_units()[j] != cs@,
        decreases 10 - k,
    {
        let u = crate::text::chars_of(units[k]);
        if chars_equal(u.as_slice(), cs) {
            assert(spice_units()[k as int] == cs@);
            return true;
        }
        k += 1;
    }
    assert(!spice_units().contains(cs@)) by {
        if spice_units().contains(cs@) {
            let j = choose|j: int| 0 <= j < 10 && spice_units()[j] == cs@;
            assert(spice_units()[j] != cs@);
        }
    }
    false
}

/// Prefix and unit of a run of letters after a number.
fn spice_suffix_of(alpha: &[char]) -> (r: Option<(Option<SpicePrefix>, String)>)
    ensures
        match r {
            Some((p, u)) => spice_suffix(alpha@) == Some((p, u@)),
            None => spice_suffix(alpha@) is None,
        },
{
    let mut norm: Vec<char> = Vec::new();
    let mut i: usize = 0;
    while i < alpha.len()
        invariant
            i <= alpha@.len(),
            norm@ == alpha@.take(i as int).map_values(|c: char| unit_letter(c)),
        decreases alpha@.len() - i,
    {
        norm.push(unit_letter_of(alpha[i]));
        assert(alpha@.take(i + 1).map_values(|c: char| unit_letter(c)) =~= alpha@.take(
            i as int,
        ).map_values(|c: char| unit_letter(c)).push(unit_letter(alpha@[i as int])));
        i += 1;
    }
    assert(alpha@.take(alpha@.len() as int) =~= alpha@);
    if alpha.len() == 0 {
        return None;
    }
    let first = prefix_of_char(alpha[0]);
    if alpha.len() == 1 && first.is_some() {
        return Some((first, String::new()));
    }
    if is_spice_unit(norm.as_slice()) {
        return Some((None, string_of(norm.as_slice())));
    }
    if first.is_some() {
        let rest = sub_chars(norm.as_slice(), 1, norm.len());
        assert(rest@ =~= norm@.skip(1));
        if is_spice_unit(rest.as_slice()) {
            return Some((first, string_of(rest.as_slice())));
        }
    }
    None
}

/// Whether a `-` may start a negative number after `t`.
fn sign_after(t: &Token) -> (r: bool)
    ensures
        r == allows_sign(token_view(*t)),
{
    match t {
        Token::Plus | Token::Minus | Token::Star | Token::Slash | Token::Percent | Token::Caret
        | Token::LParen | Token::LBracket | Token::Comma | Token::Eq | Token::EqEq | Token::BangEq
        | Token::Lt | Token::Gt | Token::LtEq | Token::GtEq | Token::And | Token::Or | Token::Bang
        | Token::Tilde | Token::Newline | Token::Colon => true,
        _ => false,
    }
}

/// What the tokenizer does at one position.
pub enum LexStep {
    Skip(usize),
    Emit(Vec<Token>, usize, bool),
    Fail(String),
}

/// An executable step is the modelled one.
pub open spec fn step_matches(r: LexStep, st: Step) -> bool {
    match (r, st) {
        (LexStep::Skip(j), Step::Skip(k)) => j == k,
        (LexStep::Emit(ts, j, sg), Step::Emit(t, k, g)) => tokens_view(ts@) == t && j == k && sg
            == g,
        (LexStep::Fail(m), Step::Fail(n)) => m@ == n,
        _ => false,
    }
}

fn emit_one(t: Token, j: usize) -> (r: LexStep)
    ensures
        step_matches(r, one(token_view(t), j as int)),
{
    let sg = sign_after(&t);
    let mut v: Vec<Token> = Vec::new();
    v.push(t);
    assert(tokens_view(v@) =~= seq![token_view(t)]);
    LexStep::Emit(v, j, sg)
}

fn fail_with(m: &str) -> (r: LexStep)
    ensures
        r matches LexStep::Fail(x) && x@ == m@,
{
    LexStep::Fail(crate::text::string_from(m))
}

/// The number literal at `s[i]`.
fn number_at(s: &[char], i: usize, spice: bool) -> (r: LexStep)
    requires
        i < s.len(),
        s@[i as int] == '-' ==> i + 1 < s.len(),
    ensures
        step_matches(r, number_step(s@, i as int, spice)),
{
    let b = if s[i] == '-' {
        i + 1
    } else {
        i
    };
    let e1 = num_run_end_at(s, b);
    proof {
        lemma_ends(s@, b as int);
    }
    let tc = sub_chars(s, i, e1);
    let text = string_of(tc.as_slice());
    if !number_ok_at(s, b, e1) {
        let mut m = crate::text::string_from("invalid number: ");
        push_str(&mut m, text.as_str());
        proof {
            reveal_strlit("invalid number: ");
        }
        return LexStep::Fail(m);
    }
    proof {
        lemma_ends(s@, e1 as int);
    }
    let e2 = exp_end_at(s, e1);
    proof {
        lemma_ends(s@, e2 as int);
    }
    let exp = if e2 > e1 {
        let ec = sub_chars(s, e1 + 1, e2);
        Some(string_of(ec.as_slice()))
    } else {
        None
    };
    let r = alpha_end_at(s, e2);
    let run = sub_chars(s, e2, r);
    let suffix = spice_suffix_of(run.as_slice());
    if spice && r > e2 && suffix.is_some() {
        let (p, u) = suffix.unwrap();
        let mut v: Vec<Token> = Vec::new();
        v.push(Token::Spice { text, exp, prefix: p, unit: u });
        assert(tokens_view(v@) =~= seq![token_view(v@[0])]);
        return LexStep::Emit(v, r, false);
    }
    let mut v: Vec<Token> = Vec::new();
    v.push(Token::Number { text, exp });
    if e2 < s.len() && (char_is_alphabetic(s[e2]) || s[e2] == '_' || s[e2] == '(' || s[e2] == 'µ'
        || s[e2] == 'μ') {
        v.push(Token::Star);
        assert(tokens_view(v@) =~= seq![token_view(v@[0]), TokenModel::Star]);
        return LexStep::Emit(v, e2, true);
    }
    assert(tokens_view(v@) =~= seq![token_view(v@[0])]);
    LexStep::Emit(v, e2, false)
}

/// What the tokenizer does at `s[i]`.
pub fn lex_one(s: &[char], i: usize, sign: bool, spice: bool) -> (r: LexStep)
    requires
        i < s.len(),
    ensures
        step_matches(r, step(s@, i as int, sign, spice)),
{
    proof {
        lemma_ends(s@, i as int);
        lemma_ends(s@, i + 1);
    }
    let c = s[i];
    let n = s.len();
    if c == ' ' || c == '\t' || c == '\r' {
        return LexStep::Skip(i + 1);
    }
    if c == '\n' {
        return emit_one(Token::Newline, i + 1);
    }
    if c == '+' {
        return emit_one(Token::Plus, i + 1);
    }
    if c == '-' {
        if next_char_is(s, i, '>') {
            return emit_one(Token::Arrow, i + 2);
        }
        if i + 1 < n && (ascii_digit(s[i + 1]) || s[i + 1] == '.') && sign {
            return number_at(s, i, spice);
        }
        return emit_one(Token::Minus, i + 1);
    }
    if c == '*' {
        return emit_one(Token::Star, i + 1);
    }
    if c == '/' {
        if next_char_is(s, i, '/') {
            return LexStep::Skip(line_end_at(s, i));
        }
        return emit_one(Token::Slash, i + 1);
    }
    if c == '%' {
        return emit_one(Token::Percent, i + 1);
    }
    if c == '^' {
        return emit_one(Token::Caret, i + 1);
    }
    if c == '(' {
        return emit_one(Token::LParen, i + 1);
    }
    if c == ')' {
        return emit_one(Token::RParen, i + 1);
    }
    if c == '{' {
        return emit_one(Token::LBrace, i + 1);
    }
    if c == '}' {
        return emit_one(Token::RBrace, i + 1);
    }
    if c == '[' {
        return emit_one(Token::LBracket, i + 1);
    }
    if c == ']' {
        return emit_one(Token::RBracket, i + 1);
    }
    if c == ',' {
        return emit_one(Token::Comma, i + 1);
    }
    if c == ':' {
        if next_char_is(s, i, ':') {
            return emit_one(Token::ColonColon, i + 2);
        }
        return emit_one(Token::Colon, i + 1);
    }
    if c == '.' && next_char_is(s, i, '.') {
        return emit_one(Token::DotDot, i + 2);
    }
    if c == '!' {
        if next_char_is(s, i, '=') {
            return emit_one(Token::BangEq, i + 2);
        }
        return emit_one(Token::Bang, i + 1);
    }
    if c == '~' {
        return emit_one(Token::Tilde, i + 1);
    }
    if c == '@' {
        return emit_one(Token::At, i + 1);
    }
    if c == '=' {
        if next_char_is(s, i, '=') {
            return emit_one(Token::EqEq, i + 2);
        }
        return emit_one(Token::Eq, i + 1);
    }
    if c == '<' {
        if next_char_is(s, i, '=') {
            return emit_one(Token::LtEq, i + 2);
        }
        return emit_one(Token::Lt, i + 1);
    }
    if c == '>' {
        if next_char_is(s, i, '=') {
            return emit_one(Token::GtEq, i + 2);
        }
        return emit_one(Token::Gt, i + 1);
    }
    if c == '&' {
        if next_char_is(s, i, '&') {
            return emit_one(Token::And, i + 2);
        }
        proof {
            reveal_strlit("unexpected '&', did you mean '&&'?");
        }
        return fail_with("unexpected '&', did you mean '&&'?");
    }
    if c == '|' {
        if next_char_is(s, i, '|') {
            return emit_one(Token::Or, i + 2);
        }
        proof {
            reveal_strlit("unexpected '|', did you mean '||'?");
        }
        return fail_with("unexpected '|', did you mean '||'?");
    }
    if c == '"' {
        match str_lit_at(s, i + 1) {
            Some((content, k)) => {
                return emit_one(Token::Str(content), k + 1);
            },
            None => {
                proof {
                    reveal_strlit("unterminated string");
                }
                return fail_with("unterminated string");
            },
        }
    }
    if ascii_digit(c) || (c == '.' && i + 1 < n && ascii_digit(s[i + 1])) {
        return number_at(s, i, spice);
    }
    if char_is_alphabetic(c) || c == '_' {
        let e = word_end_at(s, i + 1);
        let w = sub_chars(s, i, e);
        let t = word_token_of(w.as_slice());
        return emit_one(t, e);
    }
    let mut m = crate::text::string_from("unexpected character: '");
    push_char(&mut m, c);
    push_char(&mut m, '\'');
    proof {
        reveal_strlit("unexpected character: '");
        reveal_strlit("'");
        assert(m@ =~= "unexpected character: '"@ + seq![c] + "'"@);
    }
    LexStep::Fail(m)
}

/// The tokens of `input`, ending with `Eof`, or the message with which
/// the tokenizer rejects it; `spice` says whether SPICE literals are read.
pub fn tokenize(input: &str, spice: bool) -> (r: Result<Vec<Token>, String>)
    ensures
        match r {
            Ok(ts) => tokens_of(input@, spice) == Ok::<Seq<TokenModel>, Seq<char>>(tokens_view(ts@)),
            Err(m) => tokens_of(input@, spice) == Err::<Seq<TokenModel>, Seq<char>>(m@),
        },
{
    let cs = crate::text::chars_of(input);
    let s = cs.as_slice();
    let mut out: Vec<Token> = Vec::new();
    let mut i: usize = 0;
    let mut sign = true;
    assert(prepend(tokens_view(out@), lex(s@, 0, true, spice)) == lex(s@, 0, true, spice)) by {
        match lex(s@, 0, true, spice) {
            Ok(r) => assert(Seq::<TokenModel>::empty() + r =~= r),
            Err(_) => {},
        }
    }
    while i < s.len()
        invariant
            i <= s@.len(),
            s@ == input@,
            lex(s@, 0, true, spice) == prepend(tokens_view(out@), lex(s@, i as int, sign, spice)),
        decreases s@.len() - i,
    {
        proof {
            lemma_step_advances(s@, i as int, sign, spice);
        }
        match lex_one(s, i, sign, spice) {
            LexStep::Fail(m) => {
                return Err(m);
            },
            LexStep::Skip(j) => {
                i = j;
            },
            LexStep::Emit(ts, j, sg) => {
                let ghost before = out@;
                let mut ts = ts;
                let ghost tv = tokens_view(ts@);
                out.append(&mut ts);
                assert(tokens_view(out@) =~= tokens_view(before) + tv);
                proof {
                    match lex(s@, j as int, sg, spice) {
                        Ok(r) => assert(tokens_view(before) + (tv + r) =~= tokens_view(out@) + r),
                        Err(_) => {},
                    }
                }
                i = j;
                sign = sg;
            },
        }
    }
    let ghost before = out@;
    out.push(Token::Eof);
    assert(tokens_view(out@) =~= tokens_view(before) + seq![TokenModel::Eof]);
    Ok(out)
}

} // verus!
