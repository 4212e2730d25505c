//! Where evaluation output is shown: the source of a module is its text
//! blocks joined, and each result line of that source is anchored after a
//! line of the block it came from; images are anchored the same way.
use vstd::prelude::*;
use crate::editor::{image_ref, join_lines, parse_image_ref, Anchor};
use crate::text::{chars_of, lines, lines_of, push_char, push_str, string_of, trim_start, views};

verus! {

/// Number of lines a text block counts for: its lines, at least one.
pub open spec fn block_lines(t: Seq<char>) -> int {
    if lines(t).len() == 0 {
        1
    } else {
        lines(t).len() as int
    }
}

/// Line of the module source at which block `k` of `texts` starts.
pub open spec fn start_of(texts: Seq<Seq<char>>, k: int) -> int
    decreases k,
{
    if k <= 0 {
        0
    } else {
        start_of(texts, k - 1) + block_lines(texts[k - 1])
    }
}

/// The texts of the blocks.
pub open spec fn block_texts(blocks: Seq<(u64, String)>) -> Seq<Seq<char>> {
    blocks.map_values(|b: (u64, String)| b.1@)
}

/// The text of a module's blocks joined by line breaks, and for each block
/// the line of that text at which it starts, with its id.
pub struct ModuleText {
    pub source: String,
    pub boundaries: Vec<(usize, u64)>,
}

proof fn lemma_start_mono(texts: Seq<Seq<char>>, a: int, b: int)
    requires
        0 <= a <= b,
    ensures
        start_of(texts, a) <= start_of(texts, b),
        a < b ==> start_of(texts, a) < start_of(texts, b),
    decreases b - a,
{
    if a < b {
        lemma_start_mono(texts, a, b - 1);
    }
}

/// Joins the text blocks of a module and records where each starts.
pub fn module_text(blocks: &[(u64, String)]) -> (r: ModuleText)
    requires
        start_of(block_texts(blocks@), blocks@.len() as int) <= usize::MAX,
    ensures
        r.source@ == join_lines(block_texts(blocks@)),
        r.boundaries@.len() == blocks@.len(),
        forall|k: int|
            0 <= k < blocks@.len() ==> #[trigger] r.boundaries@[k] == (
            start_of(block_texts(blocks@), k) as usize,
            blocks@[k].0,
            ),
{
    let ghost texts = block_texts(blocks@);
    let mut source = String::new();
    let mut boundaries: Vec<(usize, u64)> = Vec::new();
    let mut cumulative: usize = 0;
    let mut i: usize = 0;
    assert(texts.take(0) =~= Seq::<Seq<char>>::empty());
    while i < blocks.len()
        invariant
            i <= blocks@.len(),
            texts == block_texts(blocks@),
            start_of(texts, blocks@.len() as int) <= usize::MAX,
            cumulative == start_of(texts, i as int),
            source@ == join_lines(texts.take(i as int)),
            boundaries@.len() == i,
            forall|k: int|
                0 <= k < i ==> #[trigger] boundaries@[k] == (
                start_of(texts, k) as usize,
                blocks@[k].0,
                ),
        decreases blocks@.len() - i,
    {
        let (id, text) = (&blocks[i].0, &blocks[i].1);
        boundaries.push((cumulative, *id));
        let cs = chars_of(text.as_str());
        let ls = lines_of(cs.as_slice());
        let lc = if ls.len() == 0 {
            1
        } else {
            ls.len()
        };
        assert(texts[i as int] == text@);
        proof {
            lemma_start_mono(texts, i + 1, blocks@.len() as int);
        }
        assert(texts.take(i + 1).drop_last() =~= texts.take(i as int));
        if i > 0 {
            push_char(&mut source, '\n');
        }
        push_str(&mut source, text.as_str());
        proof {
            if i == 0 {
                assert(source@ =~= join_lines(texts.take(i + 1)));
            }
        }
        cumulative = cumulative + lc;
        i += 1;
    }
    assert(texts.take(blocks@.len() as int) =~= texts);
    ModuleText { source, boundaries }
}

/// Number of leading boundaries that start at or before `line`.
pub open spec fn started(bs: Seq<(usize, u64)>, line: int) -> int
    decreases bs.len(),
{
    if bs.len() == 0 {
        0
    } else if bs[0].0 <= line {
        1 + started(bs.drop_first(), line)
    } else {
        0
    }
}

/// Anchor of the output for line `line` of a module source: after the
/// matching line of the last block (among the leading ones) starting at or
/// before it; with none, the first block (or block 0) and the line itself.
pub open spec fn anchor_of(bs: Seq<(usize, u64)>, line: int) -> (u64, int) {
    let p = started(bs, line);
    if p == 0 {
        (if bs.len() > 0 {
            bs[0].1
        } else {
            0
        }, line)
    } else {
        (bs[p - 1].1, line - bs[p - 1].0)
    }
}

proof fn lemma_started_bounds(bs: Seq<(usize, u64)>, line: int)
    ensures
        0 <= started(bs, line) <= bs.len(),
        forall|k: int| 0 <= k < started(bs, line) ==> bs[k].0 <= line,
        started(bs, line) < bs.len() ==> bs[started(bs, line)].0 > line,
    decreases bs.len(),
{
    if bs.len() > 0 && bs[0].0 <= line {
        lemma_started_bounds(bs.drop_first(), line);
        assert forall|k: int| 0 <= k < started(bs, line) implies bs[k].0 <= line by {
            if k > 0 {
                assert(bs[k] == bs.drop_first()[k - 1]);
            }
        }
        if started(bs, line) < bs.len() {
            assert(bs[started(bs, line)] == bs.drop_first()[started(bs, line) - 1]);
        }
    }
}

/// Where the output for line `line` of a module source is shown.
pub fn map_line_to_anchor(boundaries: &[(usize, u64)], line: usize) -> (r: Anchor)
    ensures
        (r.block_id, r.after_line as int) == anchor_of(boundaries@, line as int),
{
    let mut best_id: u64 = if boundaries.len() > 0 {
        boundaries[0].1
    } else {
        0
    };
    let mut best_start: usize = 0;
    let mut i: usize = 0;
    proof {
        lemma_started_bounds(boundaries@, line as int);
    }
    while i < boundaries.len() && boundaries[i].0 <= line
        invariant
            i <= boundaries@.len(),
            forall|k: int| 0 <= k < i ==> boundaries@[k].0 <= line,
            best_start <= line,
            i == 0 ==> best_id == (if boundaries@.len() > 0 {
                boundaries@[0].1
            } else {
                0
            }) && best_start == 0,
            i > 0 ==> best_id == boundaries@[i - 1].1 && best_start == boundaries@[i - 1].0,
        decreases boundaries@.len() - i,
    {
        best_id = boundaries[i].1;
        best_start = boundaries[i].0;
        i += 1;
    }
    proof {
        lemma_started_prefix(boundaries@, line as int, i as int);
    }
    Anchor { block_id: best_id, after_line: line - best_start }
}

proof fn lemma_started_prefix(bs: Seq<(usize, u64)>, line: int, i: int)
    requires
        0 <= i <= bs.len(),
        forall|k: int| 0 <= k < i ==> bs[k].0 <= line,
        i < bs.len() ==> bs[i].0 > line,
    ensures
        started(bs, line) == i,
    decreases i,
{
    if i > 0 {
        assert forall|k: int| 0 <= k < i - 1 implies bs.drop_first()[k].0 <= line by {
            assert(bs.drop_first()[k] == bs[k + 1]);
        }
        if i - 1 < bs.drop_first().len() {
            assert(bs.drop_first()[i - 1] == bs[i]);
        }
        lemma_started_prefix(bs.drop_first(), line, i - 1);
    }
}

/// A line of the module source that falls within block `k` is anchored
/// after the same line counted within that block.
pub proof fn lemma_anchor_within_block(texts: Seq<Seq<char>>, ids: Seq<u64>, k: int, line: int)
    requires
        texts.len() == ids.len(),
        0 <= k < texts.len(),
        start_of(texts, k) <= line < start_of(texts, k + 1),
        start_of(texts, texts.len() as int) <= usize::MAX,
    ensures
        anchor_of(
            Seq::new(texts.len(), |j: int| (start_of(texts, j) as usize, ids[j])),
            line,
        ) == (ids[k], line - start_of(texts, k)),
{
    let bs = Seq::new(texts.len(), |j: int| (start_of(texts, j) as usize, ids[j]));
    assert forall|j: int| 0 <= j <= texts.len() implies 0 <= #[trigger] start_of(texts, j) <= usize::MAX by {
        lemma_start_mono(texts, 0, j);
        if j < texts.len() {
            lemma_start_mono(texts, j, texts.len() as int);
        }
    }
    assert forall|j: int| 0 <= j < k + 1 implies bs[j].0 <= line by {
        lemma_start_mono(texts, j, k);
    }
    if k + 1 < texts.len() {
        assert(bs[k + 1].0 > line);
    }
    lemma_started_prefix(bs, line, k + 1);
}

/// The module source has a line evaluated on its own: one starting, after
/// white space, with `/=`.
pub open spec fn has_eval_line(source: Seq<char>) -> bool {
    exists|i: int|
        0 <= i < lines(source).len() && crate::text::starts_with(
            trim_start(#[trigger] lines(source)[i]),
            seq!['/', '='],
        )
}

/// Whether the module source has a line to evaluate.
pub fn has_text_eval(source: &str) -> (r: bool)
    ensures
        r == has_eval_line(source@),
{
    let cs = chars_of(source);
    let ls = lines_of(cs.as_slice());
    let ghost all = views(ls@);
    let mut i: usize = 0;
    while i < ls.len()
        invariant
            i <= ls@.len(),
            all == views(ls@),
            all == lines(source@),
            forall|j: int|
                0 <= j < i ==> !crate::text::starts_with(trim_start(#[trigger] all[j]), seq!['/', '=']),
        decreases ls@.len() - i,
    {
        assert(all[i as int] == ls@[i as int]@);
        let t = crate::text::trim_start_chars(ls[i].as_slice());
        if crate::text::has_prefix_str(t.as_slice(), "/=") {
            proof {
                reveal_strlit("/=");
                assert("/="@ =~= seq!['/', '=']);
            }
            return true;
        }
        proof {
            reveal_strlit("/=");
            assert("/="@ =~= seq!['/', '=']);
        }
        i += 1;
    }
    false
}

/// The images a text block shows: for each line holding an image
/// reference, its line, source and alt text.
pub open spec fn images_in(ls: Seq<Seq<char>>) -> Seq<(int, Seq<char>, Seq<char>)>
    decreases ls.len(),
{
    if ls.len() == 0 {
        seq![]
    } else {
        let rest = images_in(ls.drop_last());
        match image_ref(ls.last()) {
            Some((alt, src)) => rest.push((ls.len() - 1, src, alt)),
            None => rest,
        }
    }
}

/// The images of a text block, by line: source and alt text.
pub fn image_refs(text: &str) -> (r: Vec<(usize, String, String)>)
    ensures
        r@.map_values(|x: (usize, String, String)| (x.0 as int, x.1@, x.2@)) == images_in(
            lines(text@),
        ),
{
    let cs = chars_of(text);
    let ls = lines_of(cs.as_slice());
    let ghost all = views(ls@);
    let mut out: Vec<(usize, String, String)> = Vec::new();
    let mut i: usize = 0;
    while i < ls.len()
        invariant
            i <= ls@.len(),
            all == views(ls@),
            all == lines(text@),
            out@.map_values(|x: (usize, String, String)| (x.0 as int, x.1@, x.2@)) == images_in(
                all.take(i as int),
            ),
        decreases ls@.len() - i,
    {
        assert(all.take(i + 1).drop_last() =~= all.take(i as int));
        assert(all.take(i + 1).last() == ls@[i as int]@);
        let line = string_of(ls[i].as_slice());
        let ghost before = out@;
        match parse_image_ref(line.as_str()) {
            Some((alt, src)) => {
                out.push((i, src, alt));
                assert(out@.map_values(|x: (usize, String, String)| (x.0 as int, x.1@, x.2@))
                    =~= before.map_values(|x: (usize, String, String)| (x.0 as int, x.1@, x.2@)).push(
                    (i as int, out@.last().1@, out@.last().2@),
                ));
            },
            None => {},
        }
        i += 1;
    }
    assert(all.take(ls@.len() as int) =~= all);
    out
}

} // verus!
