//! Grouping of a document's blocks into modules, names for tables taken
//! from the headings just above them, and positional block/table names.
//!
//! A module groups consecutive blocks that share a scope: H1 starts the
//! root module, H2 a named module, a horizontal rule an unnamed one.
use vstd::prelude::*;
use crate::text::{
    is_word_char, lowercase, trim, trim_start, starts_with, lines, chars_of, string_of,
    string_from, push_char, push_chars, trim_bounds, trim_start_index, to_lowercase_string,
    char_is_word, str_equal, lines_of, views,
};
use crate::num::{decimal, decimal_chars, lemma_decimal_digits};

verus! {

/// Identifier of a block in the document layout.
pub type BlockId = u64;

/// A group of consecutive blocks sharing a scope.
#[derive(Debug, Clone)]
pub struct Module {
    pub name: String,
    pub heading_block: Option<BlockId>,
    pub block_ids: Vec<BlockId>,
    pub is_root: bool,
}

/// Mathematical value of a [`Module`].
#[verifier::ext_equal]
pub struct ModuleModel {
    pub name: Seq<char>,
    pub heading_block: Option<BlockId>,
    pub block_ids: Seq<BlockId>,
    pub is_root: bool,
}

impl View for Module {
    type V = ModuleModel;

    open spec fn view(&self) -> ModuleModel {
        ModuleModel {
            name: self.name@,
            heading_block: self.heading_block,
            block_ids: self.block_ids@,
            is_root: self.is_root,
        }
    }
}

/// The values of a sequence of modules.
pub open spec fn module_views(ms: Seq<Module>) -> Seq<ModuleModel> {
    ms.map_values(|m: Module| m@)
}

/// Lightweight descriptor of a block, as the grouping needs it.
pub struct BlockInfo {
    pub id: BlockId,
    pub kind_tag: &'static str,
    /// For heading blocks: the level (1, 2, 3). Zero for non-headings.
    pub heading_level: u8,
    /// For heading blocks: the heading text. Empty for non-headings.
    pub heading_text: String,
    /// For text blocks: the raw markdown content. Empty for non-text blocks.
    pub text_content: String,
}

// ---------------------------------------------------------------------------
// Identifiers and names
// ---------------------------------------------------------------------------

/// The longest prefix of `s` made of identifier characters.
pub open spec fn word_prefix(s: Seq<char>) -> Seq<char>
    decreases s.len(),
{
    if s.len() > 0 && is_word_char(s[0]) {
        seq![s[0]] + word_prefix(s.drop_first())
    } else {
        Seq::empty()
    }
}

/// The identifier at the start of `s` after leading white space, if any.
pub open spec fn ident_of(s: Seq<char>) -> Option<Seq<char>> {
    let w = word_prefix(trim_start(s));
    if w.len() == 0 {
        None
    } else {
        Some(w)
    }
}

/// The characters of an optional string.
pub open spec fn opt_chars(o: Option<String>) -> Option<Seq<char>> {
    match o {
        Some(s) => Some(s@),
        None => None,
    }
}

proof fn lemma_word_prefix(s: Seq<char>, i: int, j: int)
    requires
        0 <= i <= j <= s.len(),
        forall|k: int| i <= k < j ==> is_word_char(#[trigger] s[k]),
        j == s.len() || !is_word_char(s[j]),
    ensures
        word_prefix(s.skip(i)) == s.subrange(i, j),
    decreases j - i,
{
    if i < j {
        lemma_word_prefix(s, i + 1, j);
        assert(s.skip(i).drop_first() =~= s.skip(i + 1));
        assert(s.skip(i)[0] == s[i]);
        assert(seq![s[i]] + s.subrange(i + 1, j) =~= s.subrange(i, j));
    } else {
        if j < s.len() {
            assert(s.skip(i)[0] == s[j]);
        }
        assert(s.subrange(i, j) =~= Seq::<char>::empty());
    }
}

/// The identifier starting at `s[from..]` after white space.
fn ident_at(s: &[char], from: usize) -> (r: Option<Vec<char>>)
    requires
        from <= s.len(),
    ensures
        match r {
            Some(v) => ident_of(s@.skip(from as int)) == Some(v@),
            None => ident_of(s@.skip(from as int)) is None,
        },
{
    let mut i = from;
    while i < s.len() && crate::text::char_is_whitespace(s[i])
        invariant
            from <= i <= s.len(),
            trim_start(s@.skip(from as int)) == trim_start(s@.skip(i as int)),
        decreases s.len() - i,
    {
        assert(s@.skip(i as int).drop_first() =~= s@.skip(i + 1));
        assert(s@.skip(i as int)[0] == s@[i as int]);
        i += 1;
    }
    if i < s.len() {
        assert(s@.skip(i as int)[0] == s@[i as int]);
    }
    assert(trim_start(s@.skip(i as int)) == s@.skip(i as int));
    let mut j = i;
    while j < s.len() && char_is_word(s[j])
        invariant
            i <= j <= s.len(),
            forall|k: int| i <= k < j ==> is_word_char(#[trigger] s@[k]),
        decreases s.len() - j,
    {
        j += 1;
    }
    proof {
        lemma_word_prefix(s@, i as int, j as int);
    }
    if j == i {
        None
    } else {
        Some(crate::text::sub_chars(s, i, j))
    }
}

/// The identifier at the start of `s` (after leading white space).
pub fn extract_ident(s: &str) -> (r: Option<String>)
    ensures
        opt_chars(r) == ident_of(s@),
{
    let cs = chars_of(s);
    assert(cs@.skip(0) =~= cs@);
    match ident_at(cs.as_slice(), 0) {
        Some(v) => Some(string_of(v.as_slice())),
        None => None,
    }
}

/// `s` with spaces turned into underscores and every character that is
/// not an identifier character dropped.
pub open spec fn name_chars(s: Seq<char>) -> Seq<char>
    decreases s.len(),
{
    if s.len() == 0 {
        Seq::empty()
    } else {
        let c = if s.last() == ' ' { '_' } else { s.last() };
        if is_word_char(c) {
            name_chars(s.drop_last()).push(c)
        } else {
            name_chars(s.drop_last())
        }
    }
}

/// Module name for a heading: trimmed, lower-cased, spaces to
/// underscores, non-identifier characters removed.
pub open spec fn normalized(heading: Seq<char>) -> Seq<char> {
    name_chars(lowercase(trim(heading)))
}

/// Lowercase, spaces to underscores, strip non-ident characters.
pub fn normalize_name(heading_text: &str) -> (r: String)
    ensures
        r@ == normalized(heading_text@),
{
    let cs = chars_of(heading_text);
    let (a, b) = trim_bounds(cs.as_slice());
    let t = crate::text::sub_chars(cs.as_slice(), a, b);
    let ts = string_of(t.as_slice());
    let low = to_lowercase_string(ts.as_str());
    let lc = chars_of(low.as_str());
    let mut out = String::new();
    let mut i: usize = 0;
    while i < lc.len()
        invariant
            i <= lc.len(),
            out@ == name_chars(lc@.take(i as int)),
        decreases lc.len() - i,
    {
        let c = if lc[i] == ' ' {
            '_'
        } else {
            lc[i]
        };
        assert(lc@.take(i + 1).drop_last() =~= lc@.take(i as int));
        if char_is_word(c) {
            push_char(&mut out, c);
        }
        i += 1;
    }
    assert(lc@.take(lc.len() as int) =~= lc@);
    out
}

// ---------------------------------------------------------------------------
// Table names from headings
// ---------------------------------------------------------------------------

/// Scope of a table name assigned by a heading above it.
#[derive(Debug, Clone, Copy, PartialEq, Eq, Structural)]
pub enum TableNameScope {
    /// H3 heading: the name is visible across all modules.
    Global,
    /// H4 heading: the name is visible only within the owning module.
    BlockScoped,
}

/// A table named by the heading above it.
#[derive(Debug, Clone)]
pub struct TableNameAssignment {
    pub table_id: BlockId,
    pub name: String,
    pub scope: TableNameScope,
}

/// A text block holding nothing but white space.
pub open spec fn blank_text(info: BlockInfo) -> bool {
    info.kind_tag@ == "text"@ && trim(info.text_content@).len() == 0
}

/// Index of the first block at or after `j` that is not a blank text
/// block (`infos.len()` if there is none).
pub open spec fn next_solid(infos: Seq<BlockInfo>, j: int) -> int
    decreases infos.len() - j,
{
    if j < 0 || j >= infos.len() {
        infos.len() as int
    } else if blank_text(infos[j]) {
        next_solid(infos, j + 1)
    } else {
        j
    }
}

/// Block `i` is an H3/H4 heading with a table below it, only blank text
/// in between.
pub open spec fn names_table(infos: Seq<BlockInfo>, i: int) -> bool {
    &&& infos[i].kind_tag@ == "heading"@
    &&& (infos[i].heading_level == 3 || infos[i].heading_level == 4)
    &&& next_solid(infos, i + 1) < infos.len()
    &&& infos[next_solid(infos, i + 1)].kind_tag@ == "table"@
}

/// The assignment made by heading `i`: the table's id, the trimmed heading
/// text, and the scope given by the heading level.
pub open spec fn assignment_at(infos: Seq<BlockInfo>, i: int) -> (BlockId, Seq<char>, TableNameScope) {
    (
        infos[next_solid(infos, i + 1)].id,
        trim(infos[i].heading_text@),
        if infos[i].heading_level == 3 {
            TableNameScope::Global
        } else {
            TableNameScope::BlockScoped
        },
    )
}

/// Assignments made by the headings among the first `n` blocks, in order.
pub open spec fn table_names(infos: Seq<BlockInfo>, n: int) -> Seq<(BlockId, Seq<char>, TableNameScope)>
    decreases n,
{
    if n <= 0 {
        Seq::empty()
    } else if names_table(infos, n - 1) {
        table_names(infos, n - 1).push(assignment_at(infos, n - 1))
    } else {
        table_names(infos, n - 1)
    }
}

/// The value of an assignment.
pub open spec fn assignment_view(a: TableNameAssignment) -> (BlockId, Seq<char>, TableNameScope) {
    (a.table_id, a.name@, a.scope)
}

/// Whether `s` is empty once white space is trimmed.
fn is_blank(s: &str) -> (r: bool)
    ensures
        r == (trim(s@).len() == 0),
{
    let cs = chars_of(s);
    let (a, b) = trim_bounds(cs.as_slice());
    a == b
}

proof fn lemma_next_solid_bounds(infos: Seq<BlockInfo>, j: int)
    requires
        0 <= j,
    ensures
        j <= next_solid(infos, j) <= infos.len() || (j > infos.len() && next_solid(infos, j) == infos.len()),
    decreases infos.len() - j,
{
    if j < infos.len() && blank_text(infos[j]) {
        lemma_next_solid_bounds(infos, j + 1);
    }
}

/// Index of the first block at or after `from` that is not blank text.
fn next_solid_index(infos: &[BlockInfo], from: usize) -> (r: usize)
    requires
        from <= infos.len(),
    ensures
        r == next_solid(infos@, from as int),
        from <= r <= infos.len(),
{
    let mut j = from;
    while j < infos.len()
        invariant
            from <= j <= infos.len(),
            next_solid(infos@, from as int) == next_solid(infos@, j as int),
        decreases infos.len() - j,
    {
        let blank = str_equal(infos[j].kind_tag, "text") && is_blank(infos[j].text_content.as_str());
        if !blank {
            return j;
        }
        j += 1;
    }
    j
}

/// Scan the layout for H3/H4 headings directly above a table (only
/// white-space text blocks between) and return the name assignments.
pub fn detect_table_names(infos: &[BlockInfo]) -> (r: Vec<TableNameAssignment>)
    ensures
        r@.map_values(|a: TableNameAssignment| assignment_view(a)) == table_names(infos@, infos@.len() as int),
{
    let mut assignments: Vec<TableNameAssignment> = Vec::new();
    let len = infos.len();
    let mut i: usize = 0;
    while i < len
        invariant
            i <= len == infos.len(),
            assignments@.map_values(|a: TableNameAssignment| assignment_view(a)) == table_names(infos@, i as int),
        decreases len - i,
    {
        let ghost before = assignments@;
        let level = infos[i].heading_level;
        if str_equal(infos[i].kind_tag, "heading") && (level == 3 || level == 4) {
            let j = next_solid_index(infos, i + 1);
            if j < len && str_equal(infos[j].kind_tag, "table") {
                let scope = if level == 3 {
                    TableNameScope::Global
                } else {
                    TableNameScope::BlockScoped
                };
                let hc = chars_of(infos[i].heading_text.as_str());
                let tc = crate::text::trim_chars(hc.as_slice());
                let a = TableNameAssignment { table_id: infos[j].id, name: string_of(tc.as_slice()), scope };
                assignments.push(a);
                assert(assignments@.map_values(|a: TableNameAssignment| assignment_view(a)) =~= before.map_values(|a: TableNameAssignment| assignment_view(a)).push(assignment_at(infos@, i as int)));
            }
        }
        i += 1;
    }
    assignments
}

/// Every block strictly between `h` and `t` is a text block holding only
/// white space.
pub open spec fn only_blank_text_between(infos: Seq<BlockInfo>, h: int, t: int) -> bool {
    forall|m: int| h < m < t ==> (#[trigger] infos[m]).kind_tag@ == "text"@ && trim(infos[m].text_content@).len() == 0
}

/// Heading `h` names table `t`: an H3 or H4 heading, a table block after
/// it, and only white-space text blocks in between.
pub open spec fn heading_above_table(infos: Seq<BlockInfo>, h: int, t: int) -> bool {
    &&& 0 <= h < t < infos.len()
    &&& infos[h].kind_tag@ == "heading"@
    &&& (infos[h].heading_level == 3 || infos[h].heading_level == 4)
    &&& infos[t].kind_tag@ == "table"@
    &&& only_blank_text_between(infos, h, t)
}

/// The name a heading gives a table: the table's id, the trimmed heading
/// text, global for H3 and block-scoped for H4.
pub open spec fn named_by(infos: Seq<BlockInfo>, h: int, t: int) -> (BlockId, Seq<char>, TableNameScope) {
    (
        infos[t].id,
        trim(infos[h].heading_text@),
        if infos[h].heading_level == 3 {
            TableNameScope::Global
        } else {
            TableNameScope::BlockScoped
        },
    )
}

/// Some H3/H4 heading above a table, with only white-space text blocks in
/// between, gives the name `a`.
pub open spec fn given_by_a_heading(infos: Seq<BlockInfo>, a: (BlockId, Seq<char>, TableNameScope)) -> bool {
    exists|h: int, t: int| heading_above_table(infos, h, t) && a == #[trigger] named_by(infos, h, t)
}

proof fn lemma_next_solid_skips_blank(infos: Seq<BlockInfo>, j: int)
    requires
        0 <= j <= infos.len(),
    ensures
        j <= next_solid(infos, j) <= infos.len(),
        forall|m: int| j <= m < next_solid(infos, j) ==> blank_text(#[trigger] infos[m]),
        next_solid(infos, j) < infos.len() ==> !blank_text(infos[next_solid(infos, j)]),
    decreases infos.len() - j,
{
    if j < infos.len() && blank_text(infos[j]) {
        lemma_next_solid_skips_blank(infos, j + 1);
    }
}

proof fn lemma_table_names_sound(infos: Seq<BlockInfo>, n: int)
    requires
        0 <= n <= infos.len(),
    ensures
        forall|k: int| 0 <= k < table_names(infos, n).len() ==> given_by_a_heading(infos, #[trigger] table_names(infos, n)[k]),
    decreases n,
{
    if n > 0 {
        lemma_table_names_sound(infos, n - 1);
        let prev = table_names(infos, n - 1);
        let cur = table_names(infos, n);
        if names_table(infos, n - 1) {
            let h = n - 1;
            lemma_next_solid_skips_blank(infos, h + 1);
            let t = next_solid(infos, h + 1);
            assert forall|m: int| h < m < t implies (#[trigger] infos[m]).kind_tag@ == "text"@ && trim(
                infos[m].text_content@,
            ).len() == 0 by {
                assert(blank_text(infos[m]));
            }
            assert(heading_above_table(infos, h, t));
            assert(named_by(infos, h, t) == assignment_at(infos, h));
            assert(cur == prev.push(assignment_at(infos, h)));
            assert forall|k: int| 0 <= k < cur.len() implies given_by_a_heading(infos, #[trigger] cur[k]) by {
                if k < prev.len() {
                    assert(cur[k] == prev[k]);
                } else {
                    assert(cur[k] == named_by(infos, h, t));
                }
            }
        } else {
            assert(cur == prev);
            assert forall|k: int| 0 <= k < cur.len() implies given_by_a_heading(infos, #[trigger] cur[k]) by {
                assert(cur[k] == prev[k]);
            }
        }
    }
}

proof fn lemma_table_names_keep(infos: Seq<BlockInfo>, h: int, n: int)
    requires
        0 <= h < n <= infos.len(),
        names_table(infos, h),
    ensures
        table_names(infos, n).contains(assignment_at(infos, h)),
    decreases n,
{
    if n == h + 1 {
        assert(table_names(infos, n) == table_names(infos, h).push(assignment_at(infos, h)));
        assert(table_names(infos, n)[table_names(infos, h).len() as int] == assignment_at(infos, h));
    } else {
        lemma_table_names_keep(infos, h, n - 1);
        let prev = table_names(infos, n - 1);
        let i = choose|i: int| 0 <= i < prev.len() && prev[i] == assignment_at(infos, h);
        if names_table(infos, n - 1) {
            assert(table_names(infos, n)[i] == prev[i]);
        } else {
            assert(table_names(infos, n) == prev);
        }
    }
}

/// The names `detect_table_names` assigns are exactly those of H3/H4
/// headings with a table below them and only white-space text blocks in
/// between: each assignment comes from such a heading and table, and
/// every such heading and table yields one.
pub proof fn lemma_table_names_need_blank_text_between(infos: Seq<BlockInfo>)
    ensures
        forall|k: int| 0 <= k < table_names(infos, infos.len() as int).len() ==> given_by_a_heading(
            infos,
            #[trigger] table_names(infos, infos.len() as int)[k],
        ),
        forall|h: int, t: int| heading_above_table(infos, h, t) ==> table_names(infos, infos.len() as int).contains(
            #[trigger] named_by(infos, h, t),
        ),
{
    let n = infos.len() as int;
    lemma_table_names_sound(infos, n);
    assert forall|h: int, t: int| heading_above_table(infos, h, t) implies table_names(infos, n).contains(
        #[trigger] named_by(infos, h, t),
    ) by {
        reveal_strlit("table");
        reveal_strlit("text");
        lemma_next_solid_skips_blank(infos, h + 1);
        let ns = next_solid(infos, h + 1);
        if ns < t {
            assert(!blank_text(infos[ns]));
            assert(h < ns < t);
            assert(infos[ns].kind_tag@ == "text"@ && trim(infos[ns].text_content@).len() == 0);
            assert(false);
        }
        if t < ns {
            assert(blank_text(infos[t]));
            assert(infos[t].kind_tag@ == "table"@);
            assert("table"@ != "text"@) by {
                assert("table"@[1] != "text"@[1]);
            }
            assert(false);
        }
        assert(ns == t);
        assert(names_table(infos, h));
        assert(assignment_at(infos, h) == named_by(infos, h, t));
        lemma_table_names_keep(infos, h, n);
    }
}

// ---------------------------------------------------------------------------
// Positional names
// ---------------------------------------------------------------------------

/// Positional names of every block and table, in layout order.
pub struct PositionalIds {
    pub blocks: Vec<(BlockId, String)>,
    pub tables: Vec<(BlockId, String, usize)>,
}

/// `prefix` followed by the decimal digits of `n`.
pub open spec fn numbered(prefix: Seq<char>, n: nat) -> Seq<char> {
    prefix + decimal(n)
}

/// The entries for the tables among the first `n` blocks: id, `table_K`
/// (K counting tables from 1) and the 1-based position of the block.
pub open spec fn positional_tables(infos: Seq<BlockInfo>, n: int) -> Seq<(BlockId, Seq<char>, nat)>
    decreases n,
{
    if n <= 0 {
        Seq::empty()
    } else if infos[n - 1].kind_tag@ == "table"@ {
        let before = positional_tables(infos, n - 1);
        before.push((infos[n - 1].id, numbered("table_"@, before.len() + 1), n as nat))
    } else {
        positional_tables(infos, n - 1)
    }
}

proof fn lemma_positional_tables_len(infos: Seq<BlockInfo>, n: int)
    requires
        0 <= n,
    ensures
        positional_tables(infos, n).len() <= n,
    decreases n,
{
    if n > 0 {
        lemma_positional_tables_len(infos, n - 1);
    }
}

/// A `String` of `prefix` followed by the decimal digits of `n`.
fn numbered_string(prefix: &str, n: usize) -> (r: String)
    ensures
        r@ == numbered(prefix@, n as nat),
{
    let mut s = string_from(prefix);
    let d = decimal_chars(n as u64);
    push_chars(&mut s, d.as_slice());
    s
}

/// Positional fallback names for every block and table in the document,
/// assigned in layout order and counted from 1 (`block_1`, `table_1`, ...).
/// Each table entry also carries the position of its block.
pub fn compute_positional_ids(infos: &[BlockInfo]) -> (r: PositionalIds)
    ensures
        r.blocks@.len() == infos@.len(),
        forall|k: int|
            0 <= k < infos@.len() ==> (#[trigger] r.blocks@[k]).0 == infos@[k].id
                && r.blocks@[k].1@ == numbered("block_"@, (k + 1) as nat),
        r.tables@.len() == positional_tables(infos@, infos@.len() as int).len(),
        forall|k: int|
            0 <= k < r.tables@.len() ==> ((#[trigger] r.tables@[k]).0, r.tables@[k].1@, r.tables@[k].2 as nat)
                == positional_tables(infos@, infos@.len() as int)[k],
{
    let mut blocks: Vec<(BlockId, String)> = Vec::new();
    let mut tables: Vec<(BlockId, String, usize)> = Vec::new();
    let mut block_counter: usize = 0;
    let mut table_counter: usize = 0;
    let mut i: usize = 0;
    while i < infos.len()
        invariant
            i <= infos.len(),
            block_counter == i,
            blocks@.len() == i,
            forall|k: int|
                0 <= k < i ==> (#[trigger] blocks@[k]).0 == infos@[k].id && blocks@[k].1@ == numbered(
                    "block_"@,
                    (k + 1) as nat,
                ),
            table_counter == tables@.len(),
            tables@.len() == positional_tables(infos@, i as int).len(),
            forall|k: int|
                0 <= k < tables@.len() ==> ((#[trigger] tables@[k]).0, tables@[k].1@, tables@[k].2 as nat)
                    == positional_tables(infos@, i as int)[k],
        decreases infos.len() - i,
    {
        proof {
            lemma_positional_tables_len(infos@, i as int);
        }
        let info = &infos[i];
        block_counter += 1;
        blocks.push((info.id, numbered_string("block_", block_counter)));
        if str_equal(info.kind_tag, "table") {
            table_counter += 1;
            tables.push((info.id, numbered_string("table_", table_counter), block_counter));
        }
        i += 1;
    }
    PositionalIds { blocks, tables }
}

// ---------------------------------------------------------------------------
// Module grouping
// ---------------------------------------------------------------------------

/// Index of the first block with id `id`.
pub open spec fn first_info(infos: Seq<BlockInfo>, id: BlockId) -> Option<int>
    decreases infos.len(),
{
    if infos.len() == 0 {
        None
    } else if infos[0].id == id {
        Some(0)
    } else {
        match first_info(infos.drop_first(), id) {
            Some(k) => Some(k + 1),
            None => None,
        }
    }
}

/// The name declared by a line of the form `fn NAME...` or `let NAME...`
/// (after leading white space).
pub open spec fn line_decl_name(line: Seq<char>) -> Option<Seq<char>> {
    let t = trim_start(line);
    if starts_with(t, seq!['f', 'n', ' ']) && ident_of(t.skip(3)) is Some {
        ident_of(t.skip(3))
    } else if starts_with(t, seq!['l', 'e', 't', ' ']) && ident_of(t.skip(4)) is Some {
        ident_of(t.skip(4))
    } else {
        None
    }
}

/// The first name declared by the lines `ls`.
pub open spec fn lines_decl_name(ls: Seq<Seq<char>>) -> Option<Seq<char>>
    decreases ls.len(),
{
    if ls.len() == 0 {
        None
    } else {
        match line_decl_name(ls[0]) {
            Some(n) => Some(n),
            None => lines_decl_name(ls.drop_first()),
        }
    }
}

/// The first name declared in the text blocks `ids` (each looked up by
/// its first occurrence in `infos`).
pub open spec fn ids_decl_name(infos: Seq<BlockInfo>, ids: Seq<BlockId>) -> Option<Seq<char>>
    decreases ids.len(),
{
    if ids.len() == 0 {
        None
    } else {
        let here = match first_info(infos, ids[0]) {
            Some(k) => if infos[k].kind_tag@ == "text"@ {
                lines_decl_name(lines(infos[k].text_content@))
            } else {
                None
            },
            None => None,
        };
        match here {
            Some(n) => Some(n),
            None => ids_decl_name(infos, ids.drop_first()),
        }
    }
}

/// Name `_unnamed_K` for the K-th module that found no name.
pub open spec fn unnamed_name(k: nat) -> Seq<char> {
    numbered("_unnamed_"@, k)
}

/// A module once named: unchanged if it has a name, else named after its
/// first declaration, else `_unnamed_K` with the counter advanced.
pub open spec fn finalized(infos: Seq<BlockInfo>, m: ModuleModel, counter: nat) -> (ModuleModel, nat) {
    if m.name.len() > 0 {
        (m, counter)
    } else {
        match ids_decl_name(infos, m.block_ids) {
            Some(n) => (
                ModuleModel { name: n, heading_block: m.heading_block, block_ids: m.block_ids, is_root: m.is_root },
                counter,
            ),
            None => (
                ModuleModel {
                    name: unnamed_name(counter + 1),
                    heading_block: m.heading_block,
                    block_ids: m.block_ids,
                    is_root: m.is_root,
                },
                counter + 1,
            ),
        }
    }
}

/// The HR that `current` consists of alone, if it is a heading-less
/// module of a single HR block.
pub open spec fn dangling_hr(infos: Seq<BlockInfo>, current: ModuleModel) -> Option<BlockId> {
    if current.block_ids.len() == 1 && current.heading_block is None && exists|k: int|
        0 <= k < infos.len() && infos[k].id == current.block_ids[0] && (#[trigger] infos[k]).kind_tag@
            == "hr"@ {
        Some(current.block_ids[0])
    } else {
        None
    }
}

/// State of the grouping walk: closed modules, the open one, how many
/// modules were named `_unnamed_K`, and whether a boundary was seen.
pub struct Grouping {
    pub done: Seq<ModuleModel>,
    pub current: ModuleModel,
    pub counter: nat,
    pub seen_any: bool,
}

/// An open module with no blocks yet.
pub open spec fn empty_module() -> ModuleModel {
    ModuleModel { name: Seq::empty(), heading_block: None, block_ids: Seq::empty(), is_root: false }
}

/// Block `info` is an H1 or H2 heading.
pub open spec fn is_section_heading(info: BlockInfo) -> bool {
    info.kind_tag@ == "heading"@ && (info.heading_level == 1 || info.heading_level == 2)
}

/// One step of the walk: an H1/H2 heading opens a module (absorbing a
/// dangling HR), an HR opens an unnamed module, any other block joins the
/// open module.
pub open spec fn group_step(infos: Seq<BlockInfo>, g: Grouping, info: BlockInfo) -> Grouping {
    let fin = finalized(infos, g.current, g.counter);
    if is_section_heading(info) {
        let absorbed = dangling_hr(infos, g.current);
        let flush = absorbed is None && (g.seen_any || g.current.block_ids.len() > 0);
        Grouping {
            done: if flush { g.done.push(fin.0) } else { g.done },
            current: ModuleModel {
                name: normalized(info.heading_text@),
                heading_block: Some(info.id),
                block_ids: match absorbed {
                    Some(h) => seq![h, info.id],
                    None => seq![info.id],
                },
                is_root: info.heading_level == 1,
            },
            counter: if flush { fin.1 } else { g.counter },
            seen_any: true,
        }
    } else if info.kind_tag@ == "hr"@ {
        let flush = g.seen_any || g.current.block_ids.len() > 0;
        Grouping {
            done: if flush { g.done.push(fin.0) } else { g.done },
            current: ModuleModel {
                name: Seq::empty(),
                heading_block: None,
                block_ids: seq![info.id],
                is_root: false,
            },
            counter: if flush { fin.1 } else { g.counter },
            seen_any: true,
        }
    } else {
        Grouping {
            done: g.done,
            current: ModuleModel {
                name: g.current.name,
                heading_block: g.current.heading_block,
                block_ids: g.current.block_ids.push(info.id),
                is_root: g.current.is_root,
            },
            counter: g.counter,
            seen_any: g.seen_any,
        }
    }
}

/// The walk after the first `n` blocks.
pub open spec fn grouping_after(infos: Seq<BlockInfo>, n: int) -> Grouping
    decreases n,
{
    if n <= 0 {
        Grouping { done: Seq::empty(), current: empty_module(), counter: 0, seen_any: false }
    } else {
        group_step(infos, grouping_after(infos, n - 1), infos[n - 1])
    }
}

/// The modules of a layout: the closed modules, then the open one if it
/// holds any block.
pub open spec fn modules_of(infos: Seq<BlockInfo>) -> Seq<ModuleModel> {
    let g = grouping_after(infos, infos.len() as int);
    if g.current.block_ids.len() > 0 || g.seen_any {
        g.done.push(finalized(infos, g.current, g.counter).0)
    } else {
        g.done
    }
}

/// The block ids of `ms`, concatenated in order.
pub open spec fn all_block_ids(ms: Seq<ModuleModel>) -> Seq<BlockId>
    decreases ms.len(),
{
    if ms.len() == 0 {
        Seq::empty()
    } else {
        all_block_ids(ms.drop_last()) + ms.last().block_ids
    }
}

/// The ids of the blocks, in layout order.
pub open spec fn info_ids(infos: Seq<BlockInfo>) -> Seq<BlockId> {
    infos.map_values(|i: BlockInfo| i.id)
}

/// What holds of the walk after every prefix.
pub open spec fn grouping_inv(infos: Seq<BlockInfo>, g: Grouping, n: int) -> bool {
    &&& all_block_ids(g.done) + g.current.block_ids == info_ids(infos).take(n)
    &&& forall|k: int| 0 <= k < g.done.len() ==> (#[trigger] g.done[k]).block_ids.len() > 0 && g.done[k].name.len() > 0
    &&& g.seen_any ==> g.current.block_ids.len() > 0
    &&& g.done.len() + g.current.block_ids.len() <= n
    &&& g.counter <= g.done.len()
}

proof fn lemma_finalized(infos: Seq<BlockInfo>, m: ModuleModel, counter: nat)
    ensures
        finalized(infos, m, counter).0.block_ids == m.block_ids,
        finalized(infos, m, counter).0.heading_block == m.heading_block,
        finalized(infos, m, counter).0.is_root == m.is_root,
        finalized(infos, m, counter).0.name.len() > 0,
        counter <= finalized(infos, m, counter).1 <= counter + 1,
        m.name.len() > 0 ==> finalized(infos, m, counter).0.name == m.name,
{
    lemma_decimal_digits(counter + 1);
    lemma_ids_decl_name_nonempty(infos, m.block_ids);
}

proof fn lemma_ident_nonempty(s: Seq<char>)
    ensures
        ident_of(s) matches Some(n) ==> n.len() > 0,
{
}

proof fn lemma_lines_decl_name_nonempty(ls: Seq<Seq<char>>)
    ensures
        lines_decl_name(ls) matches Some(n) ==> n.len() > 0,
    decreases ls.len(),
{
    if ls.len() > 0 {
        let t = trim_start(ls[0]);
        lemma_ident_nonempty(t.skip(3));
        lemma_ident_nonempty(t.skip(4));
        lemma_lines_decl_name_nonempty(ls.drop_first());
    }
}

proof fn lemma_ids_decl_name_nonempty(infos: Seq<BlockInfo>, ids: Seq<BlockId>)
    ensures
        ids_decl_name(infos, ids) matches Some(n) ==> n.len() > 0,
    decreases ids.len(),
{
    if ids.len() > 0 {
        match first_info(infos, ids[0]) {
            Some(k) => {
                lemma_lines_decl_name_nonempty(lines(infos[k].text_content@));
            },
            None => {},
        }
        lemma_ids_decl_name_nonempty(infos, ids.drop_first());
    }
}

proof fn lemma_all_block_ids_push(ms: Seq<ModuleModel>, m: ModuleModel)
    ensures
        all_block_ids(ms.push(m)) == all_block_ids(ms) + m.block_ids,
{
    assert(ms.push(m).drop_last() =~= ms);
}

proof fn lemma_grouping_inv(infos: Seq<BlockInfo>, n: int)
    requires
        0 <= n <= infos.len(),
    ensures
        grouping_inv(infos, grouping_after(infos, n), n),
    decreases n,
{
    if n == 0 {
        assert(all_block_ids(Seq::<ModuleModel>::empty()) + Seq::<BlockId>::empty() =~= info_ids(infos).take(0));
    } else {
        lemma_grouping_inv(infos, n - 1);
        let g = grouping_after(infos, n - 1);
        let info = infos[n - 1];
        let fin = finalized(infos, g.current, g.counter);
        lemma_finalized(infos, g.current, g.counter);
        lemma_all_block_ids_push(g.done, fin.0);
        let ids = info_ids(infos);
        assert(ids.take(n) =~= ids.take(n - 1).push(info.id));
        let g2 = grouping_after(infos, n);
        if is_section_heading(info) {
            let absorbed = dangling_hr(infos, g.current);
            match absorbed {
                Some(h) => {
                    assert(g.current.block_ids =~= seq![h]);
                    assert(all_block_ids(g2.done) + g2.current.block_ids =~= (all_block_ids(g.done) + g.current.block_ids).push(info.id));
                },
                None => {
                    if g.seen_any || g.current.block_ids.len() > 0 {
                        assert(all_block_ids(g2.done) + g2.current.block_ids =~= (all_block_ids(g.done) + g.current.block_ids).push(info.id));
                    } else {
                        assert(g.current.block_ids.len() == 0);
                        assert(all_block_ids(g2.done) + g2.current.block_ids =~= (all_block_ids(g.done) + g.current.block_ids).push(info.id));
                    }
                },
            }
            assert forall|k: int| 0 <= k < g2.done.len() implies (#[trigger] g2.done[k]).block_ids.len() > 0 && g2.done[k].name.len() > 0 by {
                if k < g.done.len() {
                    assert(g2.done[k] == g.done[k]);
                }
            }
        } else if info.kind_tag@ == "hr"@ {
            assert(all_block_ids(g2.done) + g2.current.block_ids =~= (all_block_ids(g.done) + g.current.block_ids).push(info.id));
            assert forall|k: int| 0 <= k < g2.done.len() implies (#[trigger] g2.done[k]).block_ids.len() > 0 && g2.done[k].name.len() > 0 by {
                if k < g.done.len() {
                    assert(g2.done[k] == g.done[k]);
                }
            }
        } else {
            assert(all_block_ids(g2.done) + g2.current.block_ids =~= (all_block_ids(g.done) + g.current.block_ids).push(info.id));
        }
    }
}

/// Grouping into modules loses no block and duplicates none: the modules'
/// block ids, concatenated, are the blocks' ids in layout order; and every
/// module holds at least one block and has a non-empty name.
pub proof fn lemma_modules_partition_blocks(infos: Seq<BlockInfo>)
    ensures
        all_block_ids(modules_of(infos)) == info_ids(infos),
        forall|k: int|
            0 <= k < modules_of(infos).len() ==> (#[trigger] modules_of(infos)[k]).block_ids.len() > 0
                && modules_of(infos)[k].name.len() > 0,
{
    let n = infos.len() as int;
    lemma_grouping_inv(infos, n);
    let g = grouping_after(infos, n);
    let ids = info_ids(infos);
    assert(ids.take(n) =~= ids);
    if g.current.block_ids.len() > 0 || g.seen_any {
        let fin = finalized(infos, g.current, g.counter);
        lemma_finalized(infos, g.current, g.counter);
        lemma_all_block_ids_push(g.done, fin.0);
        assert forall|k: int| 0 <= k < modules_of(infos).len() implies (#[trigger] modules_of(infos)[k]).block_ids.len() > 0
            && modules_of(infos)[k].name.len() > 0 by {
            if k < g.done.len() {
                assert(modules_of(infos)[k] == g.done[k]);
            }
        }
    } else {
        assert(g.current.block_ids =~= Seq::<BlockId>::empty());
        assert(all_block_ids(g.done) + Seq::<BlockId>::empty() =~= all_block_ids(g.done));
    }
}

proof fn lemma_first_info(s: Seq<BlockInfo>, id: BlockId, k: int)
    requires
        0 <= k <= s.len(),
        forall|j: int| 0 <= j < k ==> (#[trigger] s[j]).id != id,
        k == s.len() || s[k].id == id,
    ensures
        first_info(s, id) == if k < s.len() { Some(k) } else { None::<int> },
    decreases k,
{
    if k > 0 {
        assert forall|j: int| 0 <= j < k - 1 implies (#[trigger] s.drop_first()[j]).id != id by {
            assert(s.drop_first()[j] == s[j + 1]);
        }
        if k < s.len() {
            assert(s.drop_first()[k - 1] == s[k]);
        }
        lemma_first_info(s.drop_first(), id, k - 1);
    }
}

/// Index of the first block with id `id`.
fn find_info(infos: &[BlockInfo], id: BlockId) -> (r: Option<usize>)
    ensures
        match r {
            Some(k) => k < infos.len() && first_info(infos@, id) == Some(k as int),
            None => first_info(infos@, id) is None,
        },
{
    let mut k: usize = 0;
    while k < infos.len()
        invariant
            k <= infos.len(),
            forall|j: int| 0 <= j < k ==> (#[trigger] infos@[j]).id != id,
        decreases infos.len() - k,
    {
        if infos[k].id == id {
            proof {
                lemma_first_info(infos@, id, k as int);
            }
            return Some(k);
        }
        k += 1;
    }
    proof {
        lemma_first_info(infos@, id, k as int);
    }
    None
}

/// The characters of an optional character vector.
pub open spec fn opt_vec(o: Option<Vec<char>>) -> Option<Seq<char>> {
    match o {
        Some(v) => Some(v@),
        None => None,
    }
}

/// `s[i..]` starts with `p`.
fn has_word_at(s: &[char], i: usize, p: &[char]) -> (r: bool)
    requires
        i <= s.len(),
    ensures
        r == starts_with(s@.skip(i as int), p@),
{
    if s.len() - i < p.len() {
        return false;
    }
    let mut k: usize = 0;
    while k < p.len()
        invariant
            i + p.len() <= s.len(),
            k <= p.len(),
            forall|j: int| 0 <= j < k ==> s@[i + j] == p@[j],
        decreases p.len() - k,
    {
        if s[i + k] != p[k] {
            assert(s@.skip(i as int).subrange(0, p.len() as int)[k as int] != p@[k as int]);
            return false;
        }
        k += 1;
    }
    assert(s@.skip(i as int).subrange(0, p.len() as int) =~= p@);
    true
}

/// The name declared by one line (`fn NAME` or `let NAME`).
fn line_decl(line: &[char]) -> (r: Option<Vec<char>>)
    ensures
        opt_vec(r) == line_decl_name(line@),
{
    let i = trim_start_index(line);
    let ghost t = line@.skip(i as int);
    let fn_kw: [char; 3] = ['f', 'n', ' '];
    let let_kw: [char; 4] = ['l', 'e', 't', ' '];
    assert(fn_kw@ =~= seq!['f', 'n', ' ']);
    assert(let_kw@ =~= seq!['l', 'e', 't', ' ']);
    if has_word_at(line, i, fn_kw.as_slice()) {
        assert(t.skip(3) =~= line@.skip(i + 3));
        let found = ident_at(line, i + 3);
        if found.is_some() {
            return found;
        }
    }
    if has_word_at(line, i, let_kw.as_slice()) {
        assert(t.skip(4) =~= line@.skip(i + 4));
        let found = ident_at(line, i + 4);
        if found.is_some() {
            return found;
        }
    }
    None
}

/// The first name declared by a line of `text`.
fn text_decl_name(text: &str) -> (r: Option<Vec<char>>)
    ensures
        opt_vec(r) == lines_decl_name(lines(text@)),
{
    let cs = chars_of(text);
    let ls = lines_of(cs.as_slice());
    let ghost all = views(ls@);
    assert(all.skip(0) =~= all);
    let mut k: usize = 0;
    while k < ls.len()
        invariant
            k <= ls.len(),
            all == views(ls@),
            all == lines(text@),
            lines_decl_name(all) == lines_decl_name(all.skip(k as int)),
        decreases ls.len() - k,
    {
        assert(all.skip(k as int).drop_first() =~= all.skip(k + 1));
        assert(all.skip(k as int)[0] == ls@[k as int]@);
        let found = line_decl(ls[k].as_slice());
        if found.is_some() {
            return found;
        }
        k += 1;
    }
    None
}

/// The first name declared in the text blocks among `ids`.
fn ids_decl(ids: &[BlockId], infos: &[BlockInfo]) -> (r: Option<Vec<char>>)
    ensures
        opt_vec(r) == ids_decl_name(infos@, ids@),
{
    assert(ids@.skip(0) =~= ids@);
    let mut k: usize = 0;
    while k < ids.len()
        invariant
            k <= ids.len(),
            ids_decl_name(infos@, ids@) == ids_decl_name(infos@, ids@.skip(k as int)),
        decreases ids.len() - k,
    {
        assert(ids@.skip(k as int).drop_first() =~= ids@.skip(k + 1));
        assert(ids@.skip(k as int)[0] == ids@[k as int]);
        match find_info(infos, ids[k]) {
            Some(j) => {
                if str_equal(infos[j].kind_tag, "text") {
                    let found = text_decl_name(infos[j].text_content.as_str());
                    if found.is_some() {
                        return found;
                    }
                }
            },
            None => {},
        }
        k += 1;
    }
    None
}

/// If a module has no name, derive one from its first `fn`/`let`
/// declaration, falling back to `_unnamed_N`.
fn finalize_unnamed(module: &mut Module, counter: &mut usize, infos: &[BlockInfo])
    requires
        *old(counter) < usize::MAX,
    ensures
        final(module)@ == finalized(infos@, old(module)@, *old(counter) as nat).0,
        *final(counter) as nat == finalized(infos@, old(module)@, *old(counter) as nat).1,
{
    let nc = chars_of(module.name.as_str());
    if nc.len() > 0 {
        return;
    }
    match ids_decl(module.block_ids.as_slice(), infos) {
        Some(n) => {
            module.name = string_of(n.as_slice());
        },
        None => {
            *counter = *counter + 1;
            module.name = numbered_string("_unnamed_", *counter);
        },
    }
}

/// The HR block id if `current` is a heading-less module holding one HR
/// block, which the following heading absorbs.
fn take_dangling_hr(current: &Module, infos: &[BlockInfo]) -> (r: Option<BlockId>)
    ensures
        r == dangling_hr(infos@, current@),
{
    if current.block_ids.len() != 1 || current.heading_block.is_some() {
        return None;
    }
    let only_id = current.block_ids[0];
    let mut k: usize = 0;
    while k < infos.len()
        invariant
            k <= infos.len(),
            current@.block_ids.len() == 1,
            current@.heading_block is None,
            only_id == current@.block_ids[0],
            forall|j: int| 0 <= j < k ==> !((#[trigger] infos@[j]).id == only_id && infos@[j].kind_tag@ == "hr"@),
        decreases infos.len() - k,
    {
        if infos[k].id == only_id && str_equal(infos[k].kind_tag, "hr") {
            assert(infos@[k as int].kind_tag@ == "hr"@);
            return Some(only_id);
        }
        k += 1;
    }
    None
}

/// Walk blocks in layout order and group them into modules at heading
/// and HR boundaries: H1 opens the root module, H2 a named module, an HR
/// an unnamed one (absorbed into a heading right after it); any other
/// block joins the open module. Unnamed modules are named after their
/// first `fn` or `let` declaration, else `_unnamed_N`.
pub fn compute_modules(infos: &[BlockInfo]) -> (r: Vec<Module>)
    ensures
        module_views(r@) == modules_of(infos@),
{
    let mut modules: Vec<Module> = Vec::new();
    let mut current = Module { name: String::new(), heading_block: None, block_ids: Vec::new(), is_root: false };
    let mut unnamed_counter: usize = 0;
    let mut seen_any = false;
    assert(module_views(modules@) =~= Seq::<ModuleModel>::empty());
    assert(current@ =~= empty_module());
    let mut i: usize = 0;
    while i < infos.len()
        invariant
            i <= infos.len(),
            module_views(modules@) == grouping_after(infos@, i as int).done,
            current@ == grouping_after(infos@, i as int).current,
            unnamed_counter as nat == grouping_after(infos@, i as int).counter,
            seen_any == grouping_after(infos@, i as int).seen_any,
        decreases infos.len() - i,
    {
        proof {
            lemma_grouping_inv(infos@, i as int);
        }
        let ghost g = grouping_after(infos@, i as int);
        let ghost fin = finalized(infos@, g.current, g.counter);
        let ghost before = modules@;
        let info = &infos[i];
        let section = str_equal(info.kind_tag, "heading") && (info.heading_level == 1 || info.heading_level == 2);
        if section {
            let absorbed = take_dangling_hr(&current, infos);
            if absorbed.is_none() && (seen_any || current.block_ids.len() > 0) {
                finalize_unnamed(&mut current, &mut unnamed_counter, infos);
                modules.push(current);
                assert(module_views(modules@) =~= module_views(before).push(fin.0));
            }
            let mut block_ids: Vec<BlockId> = Vec::new();
            match absorbed {
                Some(h) => block_ids.push(h),
                None => {},
            }
            block_ids.push(info.id);
            current = Module {
                name: normalize_name(info.heading_text.as_str()),
                heading_block: Some(info.id),
                block_ids,
                is_root: info.heading_level == 1,
            };
            seen_any = true;
            proof {
                let g2 = grouping_after(infos@, i + 1);
                assert(current@ =~= g2.current);
            }
        } else if str_equal(info.kind_tag, "hr") {
            if seen_any || current.block_ids.len() > 0 {
                finalize_unnamed(&mut current, &mut unnamed_counter, infos);
                modules.push(current);
                assert(module_views(modules@) =~= module_views(before).push(fin.0));
            }
            let mut block_ids: Vec<BlockId> = Vec::new();
            block_ids.push(info.id);
            current = Module { name: String::new(), heading_block: None, block_ids, is_root: false };
            seen_any = true;
            proof {
                let g2 = grouping_after(infos@, i + 1);
                assert(current@ =~= g2.current);
            }
        } else {
            current.block_ids.push(info.id);
            proof {
                let g2 = grouping_after(infos@, i + 1);
                assert(current@ =~= g2.current);
            }
        }
        i += 1;
    }
    proof {
        lemma_grouping_inv(infos@, i as int);
    }
    let ghost before = modules@;
    let ghost g = grouping_after(infos@, i as int);
    if current.block_ids.len() > 0 || seen_any {
        finalize_unnamed(&mut current, &mut unnamed_counter, infos);
        modules.push(current);
        assert(module_views(modules@) =~= module_views(before).push(finalized(infos@, g.current, g.counter).0));
    }
    modules
}

// ---------------------------------------------------------------------------
// Laws
// ---------------------------------------------------------------------------

/// The identifier `extract_ident` finds is non-empty and made of
/// identifier characters only.
pub proof fn lemma_ident_is_word(s: Seq<char>)
    ensures
        ident_of(s) matches Some(w) ==> w.len() > 0 && forall|k: int| 0 <= k < w.len() ==> is_word_char(#[trigger] w[k]),
{
    lemma_word_prefix_chars(trim_start(s));
}

proof fn lemma_word_prefix_chars(s: Seq<char>)
    ensures
        forall|k: int| 0 <= k < word_prefix(s).len() ==> is_word_char(#[trigger] word_prefix(s)[k]),
    decreases s.len(),
{
    if s.len() > 0 && is_word_char(s[0]) {
        lemma_word_prefix_chars(s.drop_first());
        let w = word_prefix(s);
        assert forall|k: int| 0 <= k < w.len() implies is_word_char(#[trigger] w[k]) by {
            if k > 0 {
                assert(w[k] == word_prefix(s.drop_first())[k - 1]);
            }
        }
    }
}

proof fn lemma_name_chars_words(s: Seq<char>)
    ensures
        forall|k: int| 0 <= k < name_chars(s).len() ==> is_word_char(#[trigger] name_chars(s)[k]),
    decreases s.len(),
{
    if s.len() > 0 {
        lemma_name_chars_words(s.drop_last());
        let r = name_chars(s.drop_last());
        let n = name_chars(s);
        assert forall|k: int| 0 <= k < n.len() implies is_word_char(#[trigger] n[k]) by {
            if k < r.len() {
                assert(n[k] == r[k]);
            }
        }
    }
}

/// A module name made from a heading holds identifier characters only.
pub proof fn lemma_normalized_is_word(heading: Seq<char>)
    ensures
        forall|k: int| 0 <= k < normalized(heading).len() ==> is_word_char(#[trigger] normalized(heading)[k]),
{
    lemma_name_chars_words(lowercase(trim(heading)));
}

/// Positional names never collide: different positions give different
/// `block_N` (and `table_N`) names.
pub proof fn lemma_numbered_distinct(prefix: Seq<char>, a: nat, b: nat)
    requires
        a != b,
    ensures
        numbered(prefix, a) != numbered(prefix, b),
{
    lemma_decimal_digits(a);
    lemma_decimal_digits(b);
    if numbered(prefix, a) == numbered(prefix, b) {
        assert(numbered(prefix, a).skip(prefix.len() as int) =~= decimal(a));
        assert(numbered(prefix, b).skip(prefix.len() as int) =~= decimal(b));
    }
}

} // verus!
