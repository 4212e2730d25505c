//! Finding the `use` declarations of a module's text without running it.
//!
//! A line declares a use when, trimmed, it starts with `use `, the whole
//! line is accepted by the Cordial tokenizer (SPICE literals off), and its
//! tokens begin with `use NAME` or `use NAME::ITEM` / `use NAME::*`.
use vstd::prelude::*;
use crate::lexer::{
    lex, lemma_ends, lemma_step_advances, prepend, step, tokenize, tokens_of, tokens_view, word_end,
    Step, Token, TokenModel,
};
use crate::text::{
    alphabetic, alphanumeric, trim, starts_with, lines, chars_of, lines_of, views, trim_chars,
    string_of,
};
use crate::eval_order::UseDecl;

verus! {

/// The declaration a token list begins with: `use NAME`, `use NAME::ITEM`
/// or `use NAME::*`.
pub open spec fn parse_use(ts: Seq<TokenModel>) -> Option<(Seq<char>, Option<Seq<char>>)> {
    if ts.len() >= 2 && ts[0] is Use && ts[1] is Ident {
        let m = ts[1]->Ident_0;
        if ts.len() >= 3 && ts[2] is ColonColon {
            if ts.len() >= 4 && ts[3] is Ident {
                Some((m, Some(ts[3]->Ident_0)))
            } else if ts.len() >= 4 && ts[3] is Star {
                Some((m, Some(seq!['*'])))
            } else {
                None
            }
        } else {
            Some((m, None))
        }
    } else {
        None
    }
}

/// The declaration on one line, if it is a `use` line.
pub open spec fn line_use(line: Seq<char>) -> Option<(Seq<char>, Option<Seq<char>>)> {
    let t = trim(line);
    if !starts_with(t, seq!['u', 's', 'e', ' ']) {
        None
    } else {
        match tokens_of(t, false) {
            Ok(ts) => parse_use(ts),
            Err(_) => None,
        }
    }
}

/// The declarations of the lines `ls`, in order.
pub open spec fn uses_in(ls: Seq<Seq<char>>) -> Seq<(Seq<char>, Option<Seq<char>>)>
    decreases ls.len(),
{
    if ls.len() == 0 {
        Seq::empty()
    } else {
        match line_use(ls.last()) {
            Some(d) => uses_in(ls.drop_last()).push(d),
            None => uses_in(ls.drop_last()),
        }
    }
}

/// The value of a declaration.
pub open spec fn decl_view(d: UseDecl) -> (Seq<char>, Option<Seq<char>>) {
    (d.module@, match d.item {
        Some(s) => Some(s@),
        None => None,
    })
}

/// The declaration a line makes, if it is a valid `use` line.
fn use_on_line(line: &[char]) -> (r: Option<UseDecl>)
    ensures
        match r {
            Some(d) => line_use(line@) == Some(decl_view(d)),
            None => line_use(line@) is None,
        },
{
    let t = trim_chars(line);
    let kw: [char; 4] = ['u', 's', 'e', ' '];
    assert(kw@ =~= seq!['u', 's', 'e', ' ']);
    if !crate::text::has_prefix(t.as_slice(), kw.as_slice()) {
        return None;
    }
    let ts = string_of(t.as_slice());
    let toks = match tokenize(ts.as_str(), false) {
        Ok(v) => v,
        Err(_) => return None,
    };
    let ghost tv = tokens_view(toks@);
    if toks.len() < 2 {
        return None;
    }
    assert(tv[0] == crate::lexer::token_view(toks@[0]) && tv[1] == crate::lexer::token_view(
        toks@[1],
    ));
    match (&toks[0], &toks[1]) {
        (Token::Use, Token::Ident(m)) => {
            if toks.len() >= 3 {
                assert(tv[2] == crate::lexer::token_view(toks@[2]));
                if let Token::ColonColon = &toks[2] {
                    if toks.len() >= 4 {
                        assert(tv[3] == crate::lexer::token_view(toks@[3]));
                        match &toks[3] {
                            Token::Ident(item) => {
                                return Some(
                                    UseDecl { module: m.clone(), item: Some(item.clone()) },
                                );
                            },
                            Token::Star => {
                                let star = string_of(&['*']);
                                proof {
                                    assert(['*']@ =~= seq!['*']);
                                }
                                return Some(UseDecl { module: m.clone(), item: Some(star) });
                            },
                            _ => {
                                return None;
                            },
                        }
                    }
                    return None;
                }
            }
            Some(UseDecl { module: m.clone(), item: None })
        },
        _ => None,
    }
}

/// Scans text for `use` declarations without running anything. Lines
/// that do not parse as a declaration are skipped (they are prose).
pub fn extract_use_declarations(text: &str) -> (r: Vec<UseDecl>)
    ensures
        r@.map_values(|d: UseDecl| decl_view(d)) == uses_in(lines(text@)),
{
    let cs = chars_of(text);
    let ls = lines_of(cs.as_slice());
    let ghost all = views(ls@);
    let mut decls: Vec<UseDecl> = Vec::new();
    let mut i: usize = 0;
    while i < ls.len()
        invariant
            i <= ls@.len(),
            all == views(ls@),
            all == lines(text@),
            decls@.map_values(|d: UseDecl| decl_view(d)) == uses_in(all.take(i as int)),
        decreases ls@.len() - i,
    {
        assert(all.take(i + 1).drop_last() =~= all.take(i as int));
        assert(all.take(i + 1).last() == ls@[i as int]@);
        let ghost before = decls@;
        match use_on_line(ls[i].as_slice()) {
            Some(d) => {
                decls.push(d);
                assert(decls@.map_values(|d: UseDecl| decl_view(d)) =~= before.map_values(
                    |d: UseDecl| decl_view(d),
                ).push(decl_view(decls@.last())));
            },
            None => {},
        }
        i += 1;
    }
    assert(all.take(ls@.len() as int) =~= all);
    decls
}

/// A line that switches on SPICE notation: `use spice`, or `use spice::`
/// followed by a non-empty identifier.
pub open spec fn spice_line(t: Seq<char>) -> bool {
    let p = seq!['u', 's', 'e', ' ', 's', 'p', 'i', 'c', 'e'];
    ||| t == p
    ||| (starts_with(t, p + seq![':', ':']) && t.len() > 11 && forall|k: int| 11 <= k < t.len() ==> crate::text::is_word_char(#[trigger] t[k]))
}

/// Whether the source has a `use spice` line.
pub fn source_enables_spice(src: &str) -> (r: bool)
    ensures
        r == exists|i: int| 0 <= i < lines(src@).len() && spice_line(trim(#[trigger] lines(src@)[i])),
{
    let cs = chars_of(src);
    let ls = lines_of(cs.as_slice());
    let ghost all = views(ls@);
    let kw: [char; 11] = ['u', 's', 'e', ' ', 's', 'p', 'i', 'c', 'e', ':', ':'];
    assert(kw@ =~= seq!['u', 's', 'e', ' ', 's', 'p', 'i', 'c', 'e'] + seq![':', ':']);
    let mut i: usize = 0;
    while i < ls.len()
        invariant
            i <= ls@.len(),
            all == views(ls@),
            all == lines(src@),
            kw@ == seq!['u', 's', 'e', ' ', 's', 'p', 'i', 'c', 'e'] + seq![':', ':'],
            forall|j: int| 0 <= j < i ==> !spice_line(trim(#[trigger] all[j])),
        decreases ls@.len() - i,
    {
        assert(all[i as int] == ls@[i as int]@);
        let t = trim_chars(ls[i].as_slice());
        let p9 = crate::text::sub_chars(kw.as_slice(), 0, 9);
        assert(p9@ =~= seq!['u', 's', 'e', ' ', 's', 'p', 'i', 'c', 'e']);
        if crate::text::chars_equal(t.as_slice(), p9.as_slice()) {
            return true;
        }
        if crate::text::has_prefix(t.as_slice(), kw.as_slice()) && t.len() > 11 {
            let mut k: usize = 11;
            let mut ok = true;
            while k < t.len()
                invariant
                    11 <= k <= t@.len(),
                    ok == forall|m: int| 11 <= m < k ==> crate::text::is_word_char(#[trigger] t@[m]),
                decreases t@.len() - k,
            {
                if !crate::text::char_is_word(t[k]) {
                    ok = false;
                }
                k += 1;
            }
            if ok {
                return true;
            }
        }
        i += 1;
    }
    false
}

// ---------------------------------------------------------------------------
// Laws
// ---------------------------------------------------------------------------

/// An identifier: non-empty, starting with a letter or `_`, then letters,
/// digits and `_`.
pub open spec fn identifier(w: Seq<char>) -> bool {
    &&& w.len() > 0
    &&& (alphabetic(w[0]) || w[0] == '_')
    &&& forall|k: int| 0 <= k < w.len() ==> (alphanumeric(#[trigger] w[k]) || w[k] == '_')
}

/// Every identifier token of `ts` names an identifier.
pub open spec fn idents_ok(ts: Seq<TokenModel>) -> bool {
    forall|k: int|
        0 <= k < ts.len() ==> ((#[trigger] ts[k]) is Ident ==> identifier(ts[k]->Ident_0))
}

proof fn lemma_idents_prepend(p: Seq<TokenModel>, r: Result<Seq<TokenModel>, Seq<char>>)
    requires
        idents_ok(p),
        r matches Ok(x) ==> idents_ok(x),
    ensures
        prepend(p, r) matches Ok(t) ==> idents_ok(t),
{
    if let Ok(x) = r {
        let t = p + x;
        assert forall|k: int| 0 <= k < t.len() implies ((#[trigger] t[k]) is Ident ==> identifier(
            t[k]->Ident_0,
        )) by {
            if k < p.len() {
                assert(t[k] == p[k]);
            } else {
                assert(t[k] == x[k - p.len()]);
            }
        }
    }
}

proof fn lemma_word_end_chars(s: Seq<char>, k: int)
    requires
        0 <= k <= s.len(),
    ensures
        forall|j: int| k <= j < word_end(s, k) ==> (alphanumeric(#[trigger] s[j]) || s[j] == '_'),
    decreases s.len() - k,
{
    if k < s.len() && (alphanumeric(s[k]) || s[k] == '_') {
        lemma_word_end_chars(s, k + 1);
    }
}

proof fn lemma_step_idents(s: Seq<char>, i: int, sign: bool, spice: bool)
    requires
        0 <= i < s.len(),
    ensures
        step(s, i, sign, spice) matches Step::Emit(ts, _, _) ==> idents_ok(ts),
{
    let c = s[i];
    lemma_ends(s, i);
    lemma_ends(s, i + 1);
    if alphabetic(c) || c == '_' {
        let e = word_end(s, i + 1);
        let w = s.subrange(i, e);
        lemma_word_end_chars(s, i + 1);
        assert forall|k: int| 0 <= k < w.len() implies (alphanumeric(#[trigger] w[k]) || w[k]
            == '_') by {
            assert(w[k] == s[i + k]);
        }
        assert(identifier(w));
    }
}

/// Every identifier token the tokenizer produces names an identifier.
proof fn lemma_lex_idents(s: Seq<char>, i: int, sign: bool, spice: bool)
    ensures
        lex(s, i, sign, spice) matches Ok(ts) ==> idents_ok(ts),
    decreases s.len() - i,
{
    if 0 <= i < s.len() {
        lemma_step_advances(s, i, sign, spice);
        lemma_step_idents(s, i, sign, spice);
        match step(s, i, sign, spice) {
            Step::Skip(j) => {
                lemma_lex_idents(s, j, sign, spice);
            },
            Step::Emit(ts, j, sg) => {
                lemma_lex_idents(s, j, sg, spice);
                lemma_idents_prepend(ts, lex(s, j, sg, spice));
            },
            Step::Fail(_) => {},
        }
    } else {
        assert(seq![TokenModel::Eof][0] == TokenModel::Eof);
    }
}

/// The module a `use` line names is an identifier, and so is the item
/// when it is not `*`.
pub proof fn lemma_use_names_identifiers(line: Seq<char>)
    ensures
        line_use(line) matches Some((m, item)) ==> identifier(m) && (item matches Some(x) ==> (x
            == seq!['*'] || identifier(x))),
{
    let t = trim(line);
    lemma_lex_idents(t, 0, true, false);
    if let Ok(ts) = tokens_of(t, false) {
        if ts.len() >= 2 {
            assert(ts[1] is Ident ==> identifier(ts[1]->Ident_0));
        }
        if ts.len() >= 4 {
            assert(ts[3] is Ident ==> identifier(ts[3]->Ident_0));
        }
    }
}

} // verus!
