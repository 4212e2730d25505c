//! Spreadsheet cell addresses (`A1`, `AB12`) and the unit-label algebra
//! of SPICE values.
use vstd::prelude::*;
use crate::num::{
    all_digits, decimal, decimal_chars, digit_char, digit_value, digits_to_u32, digits_value,
    is_all_digits, lemma_decimal_digits,
};
use crate::text::{
    chars_of, is_ascii_letter, is_digit, is_white_space, lemma_trim_end_take, lemma_trim_start_skip,
    push_chars, string_of, sub_chars, trim, trim_bounds,
};

verus! {

/// Target shape of a cell reference. Cell indices are 0-based (`A1` = (0,0)).
#[derive(Debug, Clone, Copy, PartialEq, Eq, Structural)]
pub enum CellRefTarget {
    /// `@Table` — the whole table.
    Whole,
    /// `@Table:A1` — a single cell (col, row).
    Cell(u32, u32),
    /// `@Table:A1:B4` — rectangular range (col0, row0, col1, row1).
    Range(u32, u32, u32, u32),
}

/// A direct cell reference surfaced by a formula.
#[derive(Debug, PartialEq, Eq, Hash)]
pub struct FormulaRef {
    pub block: Option<String>,
    pub table: String,
    pub cell: (u32, u32),
}

impl Clone for FormulaRef {
    fn clone(&self) -> (r: Self)
        ensures
            r == *self,
    {
        let block = match &self.block {
            Some(b) => Some(b.clone()),
            None => None,
        };
        FormulaRef { block, table: self.table.clone(), cell: self.cell }
    }
}

/// A cell write recorded during evaluation.
#[derive(Debug)]
pub struct TableWrite {
    /// Fully-resolved registry key of the written table.
    pub table_key: String,
    pub cell: (u32, u32),
    pub value: String,
}

impl Clone for TableWrite {
    fn clone(&self) -> (r: Self)
        ensures
            r == *self,
    {
        TableWrite { table_key: self.table_key.clone(), cell: self.cell, value: self.value.clone() }
    }
}

// ---------------------------------------------------------------------------
// Specification
// ---------------------------------------------------------------------------

/// Position of an ASCII letter in the alphabet, case-insensitively (A = 1).
pub open spec fn letter_number(c: char) -> nat {
    if 'a' <= c && c <= 'z' {
        ((c as u32) - ('a' as u32) + 1) as nat
    } else {
        ((c as u32) - ('A' as u32) + 1) as nat
    }
}

/// Bijective base-26 value of a column name (`A` = 1, `Z` = 26, `AA` = 27).
pub open spec fn letters_value(s: Seq<char>) -> nat
    decreases s.len(),
{
    if s.len() == 0 {
        0
    } else {
        letters_value(s.drop_last()) * 26 + letter_number(s.last())
    }
}

/// Number of leading ASCII letters of `s`.
pub open spec fn leading_letters(s: Seq<char>) -> nat
    decreases s.len(),
{
    if s.len() > 0 && is_ascii_letter(s[0]) {
        1 + leading_letters(s.drop_first())
    } else {
        0
    }
}

/// The 0-based `(col, row)` a spreadsheet address denotes: after trimming,
/// one or more ASCII letters (any case) then one or more digits, with the
/// column and the 1-based row inside `u32` and the row not zero.
#[verifier::opaque]
pub open spec fn cell_address(s: Seq<char>) -> Option<(u32, u32)> {
    let t = trim(s);
    let k = leading_letters(t) as int;
    let letters = t.take(k);
    let digits = t.skip(k);
    if k > 0 && digits.len() > 0 && all_digits(digits) && letters_value(letters) <= u32::MAX
        && 1 <= digits_value(digits) <= u32::MAX {
        Some(((letters_value(letters) - 1) as u32, (digits_value(digits) - 1) as u32))
    } else {
        None
    }
}

/// The uppercase letter at alphabet position `m` (1..=26).
pub open spec fn upper_letter(m: nat) -> char {
    ((64 + m) as u8) as char
}

/// Column name of the 1-based column number `n`.
pub open spec fn column_name(n: nat) -> Seq<char>
    decreases n,
{
    if n == 0 {
        Seq::empty()
    } else {
        let rest = ((n - 1) as nat) / 26;
        column_name(rest).push(upper_letter(((n - 1) as nat) % 26 + 1))
    }
}

/// Spreadsheet notation of the 0-based `(col, row)`.
pub open spec fn cell_name(col: nat, row: nat) -> Seq<char> {
    column_name(col + 1) + decimal(row + 1)
}

// ---------------------------------------------------------------------------
// Lemmas
// ---------------------------------------------------------------------------

proof fn lemma_upper_letter(m: nat)
    requires
        1 <= m <= 26,
    ensures
        is_ascii_letter(upper_letter(m)),
        letter_number(upper_letter(m)) == m,
        !is_digit(upper_letter(m)),
        !is_white_space(upper_letter(m)),
{
}

proof fn lemma_column_name(n: nat)
    requires
        n >= 1,
    ensures
        letters_value(column_name(n)) == n,
        column_name(n).len() >= 1,
        forall|k: int| 0 <= k < column_name(n).len() ==> is_ascii_letter(#[trigger] column_name(n)[k]),
        !is_white_space(column_name(n)[0]),
    decreases n,
{
    let rest = ((n - 1) as nat) / 26;
    let r = ((n - 1) as nat) % 26 + 1;
    lemma_upper_letter(r);
    let s = column_name(n);
    assert(s == column_name(rest).push(upper_letter(r)));
    assert(s.drop_last() =~= column_name(rest));
    vstd::arithmetic::div_mod::lemma_fundamental_div_mod((n - 1) as int, 26);
    if rest >= 1 {
        lemma_column_name(rest);
        assert forall|k: int| 0 <= k < s.len() implies is_ascii_letter(#[trigger] s[k]) by {
            if k < s.len() - 1 {
                assert(s[k] == column_name(rest)[k]);
            }
        }
        assert(s[0] == column_name(rest)[0]);
    } else {
        assert(column_name(rest) =~= Seq::<char>::empty());
        assert(letters_value(column_name(rest)) == 0);
        assert(s =~= seq![upper_letter(r)]);
    }
}

proof fn lemma_leading_letters_at(s: Seq<char>, i: int)
    requires
        0 <= i <= s.len(),
        forall|k: int| 0 <= k < i ==> is_ascii_letter(#[trigger] s[k]),
        i < s.len() ==> !is_ascii_letter(s[i]),
    ensures
        leading_letters(s) == i,
    decreases i,
{
    if i > 0 {
        assert forall|k: int| 0 <= k < i - 1 implies is_ascii_letter(
            #[trigger] s.drop_first()[k],
        ) by {
            assert(s.drop_first()[k] == s[k + 1]);
        }
        if i - 1 < s.drop_first().len() {
            assert(s.drop_first()[i - 1] == s[i]);
        }
        lemma_leading_letters_at(s.drop_first(), i - 1);
    }
}

proof fn lemma_trim_id(s: Seq<char>)
    requires
        s.len() > 0,
        !is_white_space(s[0]),
        !is_white_space(s.last()),
    ensures
        trim(s) == s,
{
    lemma_trim_start_skip(s, 0);
    assert(s.skip(0) =~= s);
    lemma_trim_end_take(s, s.len() as int);
    assert(s.take(s.len() as int) =~= s);
}

/// Reading back what `display_addr` writes gives the same cell, for every
/// column and row below `u32::MAX`.
pub proof fn lemma_cell_name_roundtrip(col: u32, row: u32)
    requires
        col < u32::MAX,
        row < u32::MAX,
    ensures
        cell_address(cell_name(col as nat, row as nat)) == Some((col, row)),
{
    reveal(cell_address);
    let l = column_name(col as nat + 1);
    let d = decimal(row as nat + 1);
    let t = l + d;
    lemma_column_name(col as nat + 1);
    lemma_decimal_digits(row as nat + 1);
    assert(t[0] == l[0]);
    assert(t.last() == d.last());
    assert(is_digit(d[d.len() - 1]));
    lemma_trim_id(t);
    assert forall|k: int| 0 <= k < l.len() implies is_ascii_letter(#[trigger] t[k]) by {
        assert(t[k] == l[k]);
    }
    assert(t[l.len() as int] == d[0]);
    assert(is_digit(d[0]));
    lemma_leading_letters_at(t, l.len() as int);
    assert(t.take(l.len() as int) =~= l);
    assert(t.skip(l.len() as int) =~= d);
}

/// A canonical spreadsheet address: one or more uppercase ASCII letters,
/// then a decimal row number without leading zeros.
pub open spec fn canonical_address(s: Seq<char>) -> bool {
    let k = leading_letters(s) as int;
    &&& 0 < k < s.len()
    &&& forall|i: int| 0 <= i < k ==> 'A' <= #[trigger] s[i] && s[i] <= 'Z'
    &&& all_digits(s.skip(k))
    &&& s[k] != '0'
}

proof fn lemma_column_name_of_letters(l: Seq<char>)
    requires
        l.len() > 0,
        forall|i: int| 0 <= i < l.len() ==> 'A' <= #[trigger] l[i] && l[i] <= 'Z',
    ensures
        letters_value(l) >= 1,
        column_name(letters_value(l)) == l,
    decreases l.len(),
{
    let p = l.drop_last();
    let c = l.last();
    let m = letter_number(c);
    assert(1 <= m <= 26);
    if p.len() > 0 {
        assert forall|i: int| 0 <= i < p.len() implies 'A' <= #[trigger] p[i] && p[i] <= 'Z' by {
            assert(p[i] == l[i]);
        }
        lemma_column_name_of_letters(p);
    } else {
        assert(letters_value(p) == 0);
        assert(column_name(0) =~= Seq::<char>::empty());
    }
    let v = letters_value(p);
    let n = letters_value(l);
    assert(n == v * 26 + m);
    vstd::arithmetic::div_mod::lemma_fundamental_div_mod_converse(
        (n - 1) as int,
        26,
        v as int,
        (m - 1) as int,
    );
    lemma_upper_letter(m);
    assert(upper_letter(m) as u32 == c as u32);
    assert(upper_letter(m) == c);
    assert(column_name(n) == column_name(v).push(upper_letter(m)));
    assert(p.push(c) =~= l);
}

proof fn lemma_decimal_of_digits(d: Seq<char>)
    requires
        d.len() > 0,
        all_digits(d),
        d[0] != '0',
    ensures
        digits_value(d) >= 1,
        decimal(digits_value(d)) == d,
    decreases d.len(),
{
    let p = d.drop_last();
    let c = d.last();
    assert(is_digit(c));
    assert(digit_char(digit_value(c)) as u32 == c as u32);
    assert(digit_char(digit_value(c)) == c);
    if p.len() == 0 {
        assert(d =~= seq![c]);
        assert(digits_value(p) == 0);
        assert(digits_value(d) == digit_value(c));
        assert(digit_value(c) >= 1);
    } else {
        assert(all_digits(p)) by {
            assert forall|k: int| 0 <= k < p.len() implies is_digit(#[trigger] p[k]) by {
                assert(p[k] == d[k]);
            }
        }
        assert(p[0] == d[0]);
        lemma_decimal_of_digits(p);
        let v = digits_value(p);
        let n = digits_value(d);
        assert(n == v * 10 + digit_value(c));
        vstd::arithmetic::div_mod::lemma_fundamental_div_mod_converse(
            n as int,
            10,
            v as int,
            digit_value(c) as int,
        );
        assert(decimal(n) == decimal(v).push(digit_char(digit_value(c))));
        assert(p.push(c) =~= d);
    }
}

/// A canonical address is given back whole by `display_addr` from the
/// cell that `parse_cell_address` reads in it.
pub proof fn lemma_canonical_address_roundtrip(s: Seq<char>, col: u32, row: u32)
    requires
        canonical_address(s),
        cell_address(s) == Some((col, row)),
    ensures
        row < u32::MAX,
        cell_name(col as nat, row as nat) == s,
{
    reveal(cell_address);
    let k = leading_letters(s) as int;
    assert(!is_white_space(s[0]));
    assert(is_digit(s.skip(k)[s.len() - k - 1]));
    assert(s.skip(k)[s.len() - k - 1] == s.last());
    lemma_trim_id(s);
    let l = s.take(k);
    let d = s.skip(k);
    assert forall|i: int| 0 <= i < l.len() implies 'A' <= #[trigger] l[i] && l[i] <= 'Z' by {
        assert(l[i] == s[i]);
    }
    lemma_column_name_of_letters(l);
    assert(d[0] == s[k]);
    lemma_decimal_of_digits(d);
    assert(l + d =~= s);
}

// ---------------------------------------------------------------------------
// Implementation
// ---------------------------------------------------------------------------

/// Column number of a run of ASCII letters, 0-based; `None` when the run is
/// empty, holds a non-letter, or overflows `u32`.
pub fn col_letters_to_index(s: &[char]) -> (r: Option<u32>)
    ensures
        match r {
            Some(v) => (forall|k: int| 0 <= k < s.len() ==> is_ascii_letter(#[trigger] s@[k]))
                && 1 <= letters_value(s@) <= u32::MAX && v == letters_value(s@) - 1,
            None => s.len() == 0 || (exists|k: int|
                0 <= k < s.len() && !is_ascii_letter(#[trigger] s@[k])) || letters_value(s@)
                > u32::MAX,
        },
{
    let mut acc: u64 = 0;
    let mut i: usize = 0;
    while i < s.len()
        invariant
            i <= s.len(),
            forall|k: int| 0 <= k < i ==> is_ascii_letter(#[trigger] s@[k]),
            acc == letters_value(s@.take(i as int)),
            acc <= u32::MAX,
            i > 0 ==> acc >= 1,
        decreases s.len() - i,
    {
        let c = s[i];
        if !(('a' <= c && c <= 'z') || ('A' <= c && c <= 'Z')) {
            return None;
        }
        assert(s@.take(i + 1).drop_last() =~= s@.take(i as int));
        let n: u64 = if 'a' <= c && c <= 'z' {
            (c as u32 - 'a' as u32 + 1) as u64
        } else {
            (c as u32 - 'A' as u32 + 1) as u64
        };
        acc = acc * 26 + n;
        if acc > 0xffff_ffff {
            proof {
                lemma_letters_value_mono(s@, i + 1);
            }
            return None;
        }
        i += 1;
    }
    assert(s@.take(s.len() as int) =~= s@);
    if acc == 0 {
        return None;
    }
    Some((acc - 1) as u32)
}

proof fn lemma_letters_value_mono(s: Seq<char>, i: int)
    requires
        0 <= i <= s.len(),
    ensures
        letters_value(s.take(i)) <= letters_value(s),
    decreases s.len() - i,
{
    if i < s.len() {
        assert(s.drop_last().take(i) =~= s.take(i));
        lemma_letters_value_mono(s.drop_last(), i);
    } else {
        assert(s.take(i) =~= s);
    }
}

/// Parses `"A1"`, `"AA12"`, … into a 0-based `(col, row)`; letters are
/// case-insensitive, must precede the digits, and both must be present.
pub fn parse_cell_address(s: &str) -> (r: Option<(u32, u32)>)
    ensures
        r == cell_address(s@),
{
    reveal(cell_address);
    let cs = chars_of(s);
    let (a, b) = trim_bounds(cs.as_slice());
    let t = sub_chars(cs.as_slice(), a, b);
    let ghost tv = trim(s@);
    assert(t@ == tv);
    let mut i: usize = 0;
    while i < t.len() && (('a' <= t[i] && t[i] <= 'z') || ('A' <= t[i] && t[i] <= 'Z'))
        invariant
            i <= t.len(),
            forall|k: int| 0 <= k < i ==> is_ascii_letter(#[trigger] t@[k]),
        decreases t.len() - i,
    {
        i += 1;
    }
    proof {
        lemma_leading_letters_at(t@, i as int);
    }
    let letters = sub_chars(t.as_slice(), 0, i);
    let digits = sub_chars(t.as_slice(), i, t.len());
    assert(letters@ =~= tv.take(i as int));
    assert(digits@ =~= tv.skip(i as int));
    if i == 0 || digits.len() == 0 || !is_all_digits(digits.as_slice()) {
        return None;
    }
    let col = match col_letters_to_index(letters.as_slice()) {
        Some(c) => c,
        None => {
            return None;
        },
    };
    let row = match digits_to_u32(digits.as_slice()) {
        Some(v) => v,
        None => {
            return None;
        },
    };
    if row == 0 {
        return None;
    }
    Some((col, row - 1))
}

/// Renders a 0-based `(col, row)` in spreadsheet notation (`(0, 0)` is `A1`).
pub fn display_addr(col: u32, row: u32) -> (r: String)
    requires
        row < u32::MAX,
    ensures
        r@ == cell_name(col as nat, row as nat),
{
    let mut letters: Vec<char> = Vec::new();
    let mut c: u64 = col as u64 + 1;
    while c > 0
        invariant
            column_name(col as nat + 1) == column_name(c as nat) + letters@,
            c <= col as u64 + 1,
        decreases c,
    {
        let rem = (c - 1) % 26;
        let ch = (65 + rem as u8) as char;
        assert(ch == upper_letter(((c - 1) as nat) % 26 + 1));
        let ghost old_letters = letters@;
        letters.insert(0, ch);
        assert(column_name(c as nat) == column_name((((c - 1) as nat) / 26) as nat).push(ch));
        assert(column_name((((c - 1) as nat) / 26) as nat) + letters@ =~= column_name(
            (((c - 1) as nat) / 26) as nat,
        ).push(ch) + old_letters);
        c = (c - 1) / 26;
    }
    assert(column_name(0) + letters@ =~= letters@);
    let digits = decimal_chars(row as u64 + 1);
    let mut out = string_of(letters.as_slice());
    push_chars(&mut out, digits.as_slice());
    out
}

/// Whether `t` names one of the value types `int`, `float`, `bool`, `str`.
pub fn is_known_type(t: &str) -> (r: bool)
    ensures
        r == (t@ == "int"@ || t@ == "float"@ || t@ == "bool"@ || t@ == "str"@),
{
    crate::text::str_equal(t, "int") || crate::text::str_equal(t, "float")
        || crate::text::str_equal(t, "bool") || crate::text::str_equal(t, "str")
}

// ---------------------------------------------------------------------------
// Unit labels
// ---------------------------------------------------------------------------

/// Label of a product: untagged sides absorb, equal labels square.
pub open spec fn unit_mul(a: Seq<char>, b: Seq<char>) -> Option<Seq<char>> {
    if a.len() == 0 && b.len() == 0 {
        None
    } else if a.len() == 0 {
        Some(b)
    } else if b.len() == 0 {
        Some(a)
    } else if a == b {
        Some(a.push('\u{b2}'))
    } else {
        Some(a.push('\u{b7}') + b)
    }
}

/// Label of a quotient: equal labels cancel.
pub open spec fn unit_div(a: Seq<char>, b: Seq<char>) -> Option<Seq<char>> {
    if a == b {
        None
    } else if b.len() == 0 {
        if a.len() == 0 {
            None
        } else {
            Some(a)
        }
    } else if a.len() == 0 {
        Some(seq!['1', '/'] + b)
    } else {
        Some(a.push('/') + b)
    }
}

/// Label of a sum or difference: equal labels keep, one-sided labels
/// absorb the untagged side, distinct labels strip.
pub open spec fn unit_additive(a: Seq<char>, b: Seq<char>) -> Option<Seq<char>> {
    if a == b {
        if a.len() == 0 {
            None
        } else {
            Some(a)
        }
    } else if a.len() == 0 {
        Some(b)
    } else if b.len() == 0 {
        Some(a)
    } else {
        None
    }
}

/// The unit label of `a * b`.
pub fn combine_unit_mul(a: &str, b: &str) -> (r: Option<String>)
    ensures
        match r {
            Some(s) => unit_mul(a@, b@) == Some(s@),
            None => unit_mul(a@, b@) is None,
        },
{
    let ac = chars_of(a);
    let bc = chars_of(b);
    if ac.len() == 0 && bc.len() == 0 {
        None
    } else if ac.len() == 0 {
        Some(string_of(bc.as_slice()))
    } else if bc.len() == 0 {
        Some(string_of(ac.as_slice()))
    } else if crate::text::chars_equal(ac.as_slice(), bc.as_slice()) {
        let mut s = string_of(ac.as_slice());
        crate::text::push_char(&mut s, '\u{b2}');
        Some(s)
    } else {
        let mut s = string_of(ac.as_slice());
        crate::text::push_char(&mut s, '\u{b7}');
        push_chars(&mut s, bc.as_slice());
        Some(s)
    }
}

/// The unit label of `a / b`.
pub fn combine_unit_div(a: &str, b: &str) -> (r: Option<String>)
    ensures
        match r {
            Some(s) => unit_div(a@, b@) == Some(s@),
            None => unit_div(a@, b@) is None,
        },
{
    let ac = chars_of(a);
    let bc = chars_of(b);
    if crate::text::chars_equal(ac.as_slice(), bc.as_slice()) {
        return None;
    }
    if bc.len() == 0 {
        return if ac.len() == 0 {
            None
        } else {
            Some(string_of(ac.as_slice()))
        };
    }
    if ac.len() == 0 {
        let mut s = String::new();
        crate::text::push_char(&mut s, '1');
        crate::text::push_char(&mut s, '/');
        push_chars(&mut s, bc.as_slice());
        assert(s@ =~= seq!['1', '/'] + b@);
        return Some(s);
    }
    let mut s = string_of(ac.as_slice());
    crate::text::push_char(&mut s, '/');
    push_chars(&mut s, bc.as_slice());
    Some(s)
}

/// The unit label of `a + b` or `a - b`.
pub fn combine_unit_additive(a: &str, b: &str) -> (r: Option<String>)
    ensures
        match r {
            Some(s) => unit_additive(a@, b@) == Some(s@),
            None => unit_additive(a@, b@) is None,
        },
{
    let ac = chars_of(a);
    let bc = chars_of(b);
    if crate::text::chars_equal(ac.as_slice(), bc.as_slice()) {
        if ac.len() == 0 {
            None
        } else {
            Some(string_of(ac.as_slice()))
        }
    } else if ac.len() == 0 {
        Some(string_of(bc.as_slice()))
    } else if bc.len() == 0 {
        Some(string_of(ac.as_slice()))
    } else {
        None
    }
}

} // verus!
