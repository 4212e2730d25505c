//! The evaluation pipeline around the interpreter: which lines it reads,
//! how each evaluation line names its output format, and in which steps
//! Cordial lines (single lines and `{ ... }` blocks) and evaluation lines
//! are handed to it.
use vstd::prelude::*;
use crate::doc::{ClassifiedLine, LineKind};
use crate::text::{trim, starts_with, count_char, chars_of, trim_chars, string_of, sub_chars, count_occurrences, push_char, push_chars};
use crate::editor::join_lines;

verus! {

/// A value produced by an evaluation line.
#[derive(Debug, Clone)]
pub struct EvalResult {
    pub line: usize,
    pub result: String,
    pub format: String,
}

/// An error reported for a line.
#[derive(Debug, Clone)]
pub struct EvalError {
    pub line: usize,
    pub error: String,
}

/// Results and errors of evaluating a document.
#[derive(Debug, Clone)]
pub struct DocumentResult {
    pub results: Vec<EvalResult>,
    pub errors: Vec<EvalError>,
}

/// How an evaluation result is shown.
#[derive(Debug, Clone, Copy, PartialEq, Eq, Structural)]
pub enum EvalFormat {
    Inline,
    Table,
    Tree,
}

/// Name of a format in results.
pub open spec fn format_name(f: EvalFormat) -> Seq<char> {
    match f {
        EvalFormat::Inline => "inline"@,
        EvalFormat::Table => "table"@,
        EvalFormat::Tree => "tree"@,
    }
}

/// The name of a format, as results carry it.
pub fn format_tag(f: EvalFormat) -> (r: &'static str)
    ensures
        r@ == format_name(f),
{
    match f {
        EvalFormat::Inline => "inline",
        EvalFormat::Table => "table",
        EvalFormat::Tree => "tree",
    }
}

/// The lines the interpreter reads, in order: Cordial lines, and
/// evaluation lines (flagged); markdown and comments are skipped.
pub open spec fn interp_lines(cl: Seq<ClassifiedLine>) -> Seq<(usize, Seq<char>, bool)>
    decreases cl.len(),
{
    if cl.len() == 0 {
        Seq::empty()
    } else {
        let rest = interp_lines(cl.drop_last());
        let l = cl.last();
        match l.kind {
            LineKind::Cordial => rest.push((l.index, l.content@, false)),
            LineKind::Eval => rest.push((l.index, l.content@, true)),
            _ => rest,
        }
    }
}

/// The value of an interpreter line.
pub open spec fn line_view(l: (usize, String, bool)) -> (usize, Seq<char>, bool) {
    (l.0, l.1@, l.2)
}

/// The lines of a classified document that the interpreter reads.
pub fn interpreter_lines(classified: &[ClassifiedLine]) -> (r: Vec<(usize, String, bool)>)
    ensures
        r@.map_values(|l: (usize, String, bool)| line_view(l)) == interp_lines(classified@),
{
    let mut out: Vec<(usize, String, bool)> = Vec::new();
    let mut i: usize = 0;
    while i < classified.len()
        invariant
            i <= classified@.len(),
            out@.map_values(|l: (usize, String, bool)| line_view(l)) == interp_lines(classified@.take(i as int)),
        decreases classified@.len() - i,
    {
        assert(classified@.take(i + 1).drop_last() =~= classified@.take(i as int));
        assert(classified@.take(i + 1).last() == classified@[i as int]);
        let cl = &classified[i];
        let ghost before = out@;
        match cl.kind {
            LineKind::Cordial => {
                out.push((cl.index, cl.content.clone(), false));
                assert(out@.map_values(|l: (usize, String, bool)| line_view(l)) =~= before.map_values(|l: (usize, String, bool)| line_view(l)).push((cl.index, cl.content@, false)));
            },
            LineKind::Eval => {
                out.push((cl.index, cl.content.clone(), true));
                assert(out@.map_values(|l: (usize, String, bool)| line_view(l)) =~= before.map_values(|l: (usize, String, bool)| line_view(l)).push((cl.index, cl.content@, true)));
            },
            _ => {},
        }
        i += 1;
    }
    assert(classified@.take(classified@.len() as int) =~= classified@);
    out
}

/// Format and expression of an evaluation line: `/=|` asks for a table,
/// `/=\` for a tree, plain `/=` for an inline value; the expression is the
/// trimmed rest.
pub open spec fn directive(content: Seq<char>) -> (EvalFormat, Seq<char>) {
    let t = trim(content);
    if starts_with(t, seq!['/', '=', '|']) {
        (EvalFormat::Table, trim(t.skip(3)))
    } else if starts_with(t, seq!['/', '=', '\\']) {
        (EvalFormat::Tree, trim(t.skip(3)))
    } else if starts_with(t, seq!['/', '=']) {
        (EvalFormat::Inline, trim(t.skip(2)))
    } else {
        (EvalFormat::Inline, Seq::empty())
    }
}

/// Splits an evaluation line into its output format and expression.
pub fn eval_directive(content: &str) -> (r: (EvalFormat, String))
    ensures
        r.0 == directive(content@).0,
        r.1@ == directive(content@).1,
{
    let cs = chars_of(content);
    let t = trim_chars(cs.as_slice());
    let n = t.len();
    proof {
        if n >= 2 {
            assert(t@.subrange(0, 2) =~= seq![t@[0], t@[1]]);
        }
        if n >= 3 {
            assert(t@.subrange(0, 3) =~= seq![t@[0], t@[1], t@[2]]);
        }
    }
    if n >= 3 && t[0] == '/' && t[1] == '=' && t[2] == '|' {
        let rest = sub_chars(t.as_slice(), 3, n);
        assert(rest@ =~= t@.skip(3));
        let e = trim_chars(rest.as_slice());
        (EvalFormat::Table, string_of(e.as_slice()))
    } else if n >= 3 && t[0] == '/' && t[1] == '=' && t[2] == '\\' {
        let rest = sub_chars(t.as_slice(), 3, n);
        assert(rest@ =~= t@.skip(3));
        let e = trim_chars(rest.as_slice());
        (EvalFormat::Tree, string_of(e.as_slice()))
    } else if n >= 2 && t[0] == '/' && t[1] == '=' {
        let rest = sub_chars(t.as_slice(), 2, n);
        assert(rest@ =~= t@.skip(2));
        let e = trim_chars(rest.as_slice());
        (EvalFormat::Inline, string_of(e.as_slice()))
    } else {
        (EvalFormat::Inline, String::new())
    }
}

// ---------------------------------------------------------------------------
// Interpretation steps
// ---------------------------------------------------------------------------

/// One thing to hand to the interpreter.
pub enum InterpStep {
    /// Run `text` (a line or a joined `{ ... }` block); an error is
    /// reported at `line`.
    Exec { line: usize, text: String },
    /// Evaluate `expr` of line `line` in `format`. A pending block, if any,
    /// is run first; if it fails its error is reported at this line and the
    /// expression is not evaluated. An empty expression is an error.
    Eval { line: usize, pending: Option<String>, format: EvalFormat, expr: String },
}

/// Mathematical value of an [`InterpStep`].
pub enum StepModel {
    Exec(usize, Seq<char>),
    Eval(usize, Option<Seq<char>>, EvalFormat, Seq<char>),
}

/// The value of a step.
pub open spec fn step_view(s: InterpStep) -> StepModel {
    match s {
        InterpStep::Exec { line, text } => StepModel::Exec(line, text@),
        InterpStep::Eval { line, pending, format, expr } => StepModel::Eval(
            line,
            match pending {
                Some(p) => Some(p@),
                None => None,
            },
            format,
            expr@,
        ),
    }
}

/// The values of a list of steps.
pub open spec fn steps_view(s: Seq<InterpStep>) -> Seq<StepModel> {
    s.map_values(|x: InterpStep| step_view(x))
}

/// Open brace depth and the lines of the block being gathered.
pub struct PlanState {
    pub depth: int,
    pub acc: Seq<Seq<char>>,
}

/// What one interpreter line adds to the plan, and the state after it.
/// An evaluation line flushes the gathered block (if any) with its own
/// step. A Cordial line joins an open block, closing it when the braces
/// balance; else it opens a block when it has more `{` than `}`; else it
/// runs on its own.
pub open spec fn plan_line(st: PlanState, l: (usize, Seq<char>, bool)) -> (PlanState, Seq<StepModel>) {
    if l.2 {
        let pending = if st.acc.len() > 0 { Some(join_lines(st.acc)) } else { None };
        let d = directive(l.1);
        (
            PlanState { depth: if st.acc.len() > 0 { 0 } else { st.depth }, acc: Seq::empty() },
            seq![StepModel::Eval(l.0, pending, d.0, d.1)],
        )
    } else {
        let t = trim(l.1);
        let o = count_char(t, '{') as int;
        let c = count_char(t, '}') as int;
        if st.depth > 0 || st.acc.len() > 0 {
            let acc = st.acc.push(t);
            let d = st.depth + o - c;
            if d <= 0 {
                (PlanState { depth: 0, acc: Seq::empty() }, seq![StepModel::Exec(l.0, join_lines(acc))])
            } else {
                (PlanState { depth: d, acc }, Seq::empty())
            }
        } else if o > c {
            (PlanState { depth: o - c, acc: seq![t] }, Seq::empty())
        } else {
            (st, seq![StepModel::Exec(l.0, t)])
        }
    }
}

/// State after the first `n` lines.
pub open spec fn plan_state(ls: Seq<(usize, Seq<char>, bool)>, n: int) -> PlanState
    decreases n,
{
    if n <= 0 {
        PlanState { depth: 0, acc: Seq::empty() }
    } else {
        plan_line(plan_state(ls, n - 1), ls[n - 1]).0
    }
}

/// Steps for the first `n` lines. A block still open at the end is not run.
pub open spec fn plan_steps(ls: Seq<(usize, Seq<char>, bool)>, n: int) -> Seq<StepModel>
    decreases n,
{
    if n <= 0 {
        Seq::empty()
    } else {
        plan_steps(ls, n - 1) + plan_line(plan_state(ls, n - 1), ls[n - 1]).1
    }
}

/// The lines joined with `\n`.
fn join_strings(ls: &Vec<String>) -> (r: String)
    ensures
        r@ == join_lines(ls@.map_values(|s: String| s@)),
{
    let ghost v = ls@.map_values(|s: String| s@);
    let mut out = String::new();
    let mut i: usize = 0;
    while i < ls.len()
        invariant
            i <= ls@.len(),
            v == ls@.map_values(|s: String| s@),
            out@ == join_lines(v.take(i as int)),
        decreases ls@.len() - i,
    {
        assert(v.take(i + 1).drop_last() =~= v.take(i as int));
        assert(v.take(i + 1).last() == ls@[i as int]@);
        if i > 0 {
            push_char(&mut out, '\n');
        } else {
            assert(v.take(1) =~= seq![ls@[0]@]);
        }
        let cs = chars_of(ls[i].as_str());
        push_chars(&mut out, cs.as_slice());
        i += 1;
    }
    assert(v.take(ls@.len() as int) =~= v);
    out
}

/// The steps in which the interpreter runs a document's lines.
pub fn plan_interpretation(lines: &[(usize, String, bool)]) -> (r: Vec<InterpStep>)
    ensures
        steps_view(r@) == plan_steps(lines@.map_values(|l: (usize, String, bool)| line_view(l)), lines@.len() as int),
{
    let ghost ls = lines@.map_values(|l: (usize, String, bool)| line_view(l));
    let mut steps: Vec<InterpStep> = Vec::new();
    let mut depth: u128 = 0;
    let mut acc: Vec<String> = Vec::new();
    let mut i: usize = 0;
    assert(steps_view(steps@) =~= Seq::<StepModel>::empty());
    assert(acc@.map_values(|s: String| s@) =~= Seq::<Seq<char>>::empty());
    while i < lines.len()
        invariant
            i <= lines@.len(),
            ls == lines@.map_values(|l: (usize, String, bool)| line_view(l)),
            steps_view(steps@) == plan_steps(ls, i as int),
            depth as int == plan_state(ls, i as int).depth,
            acc@.map_values(|s: String| s@) == plan_state(ls, i as int).acc,
            depth <= i * 0x1_0000_0000_0000_0000,
        decreases lines@.len() - i,
    {
        let ghost st = plan_state(ls, i as int);
        let ghost before = steps_view(steps@);
        let ghost l = ls[i as int];
        assert(l == line_view(lines@[i as int]));
        let (idx, content, is_eval) = (lines[i].0, &lines[i].1, lines[i].2);
        if is_eval {
            let pending = if acc.len() > 0 {
                let j = join_strings(&acc);
                Some(j)
            } else {
                None
            };
            if acc.len() > 0 {
                depth = 0;
            }
            acc = Vec::new();
            let (format, expr) = eval_directive(content.as_str());
            let step = InterpStep::Eval { line: idx, pending, format, expr };
            steps.push(step);
            proof {
                assert(steps_view(steps@) =~= before + plan_line(st, l).1);
                assert(acc@.map_values(|s: String| s@) =~= Seq::<Seq<char>>::empty());
            }
        } else {
            let cs = chars_of(content.as_str());
            let t = trim_chars(cs.as_slice());
            proof {
                crate::doc::lemma_trim_len(cs@);
                crate::doc::lemma_count_char_le(t@, '{');
                crate::doc::lemma_count_char_le(t@, '}');
            }
            let o = count_occurrences(t.as_slice(), '{') as u128;
            let c = count_occurrences(t.as_slice(), '}') as u128;
            let ts = string_of(t.as_slice());
            if depth > 0 || acc.len() > 0 {
                let ghost acc0 = acc@;
                acc.push(ts);
                assert(acc@.map_values(|s: String| s@) =~= acc0.map_values(|s: String| s@).push(t@));
                if depth + o <= c {
                    let j = join_strings(&acc);
                    steps.push(InterpStep::Exec { line: idx, text: j });
                    acc = Vec::new();
                    depth = 0;
                    proof {
                        assert(steps_view(steps@) =~= before + plan_line(st, l).1);
                        assert(acc@.map_values(|s: String| s@) =~= Seq::<Seq<char>>::empty());
                    }
                } else {
                    depth = depth + o - c;
                    assert(steps_view(steps@) =~= before + plan_line(st, l).1);
                }
            } else if o > c {
                acc.push(ts);
                assert(acc@.map_values(|s: String| s@) =~= seq![t@]);
                depth = o - c;
                assert(steps_view(steps@) =~= before + plan_line(st, l).1);
            } else {
                steps.push(InterpStep::Exec { line: idx, text: ts });
                assert(steps_view(steps@) =~= before + plan_line(st, l).1);
            }
        }
        i += 1;
    }
    steps
}

} // verus!
