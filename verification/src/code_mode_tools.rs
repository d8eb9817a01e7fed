//! The code-mode tools `exec` and `wait` as the model sees them: their
//! descriptions and parameters. The code-mode runtime supplies its tool
//! names and its own description texts.

use vstd::prelude::*;
use crate::describe::trim;
use crate::describe::trim_range;
use crate::text::chars_of;
use crate::text::concat_chars;
use crate::text::string_of;

verus! {

/// The line of the `exec` description that fits a freeform tool.
pub const RAW_SOURCE_LINE: &'static str = "- Accepts raw JavaScript source text, not JSON, quoted strings, or markdown code fences.";

/// What `exec` as a function tool says in its place.
pub const CODE_ARGUMENT_LINE: &'static str = "- Pass the JavaScript source text in the `code` argument, without markdown code fences.";

pub const CODE_PARAMETER_DESCRIPTION: &'static str = "Raw JavaScript source. It may start with an optional `// @exec: {...}` pragma line.";

/// The grammar of `exec` as a freeform tool: an optional pragma line, then
/// the source.
pub const CODE_MODE_FREEFORM_GRAMMAR: &'static str = "\nstart: pragma_source | plain_source\npragma_source: PRAGMA_LINE NEWLINE SOURCE\nplain_source: SOURCE\n\nPRAGMA_LINE: /[ \\t]*\\/\\/ @exec:[^\\r\\n]*/\nNEWLINE: /\\r?\\n/\nSOURCE: /[\\s\\S]+/\n";

pub const WAIT_DESCRIPTION_START: &'static str = "Waits on a yielded `";

pub const WAIT_DESCRIPTION_END: &'static str = "` cell and returns new output or completion.\n";

pub const COMPACT_WAIT_DESCRIPTION_START: &'static str = "Resume a `";

pub const COMPACT_WAIT_DESCRIPTION_END: &'static str = "` cell that returned `Script running with cell ID ...`: returns output since the last yield, or the final result. `terminate: true` stops the cell.";

/// `s` with every occurrence of `from` (found left to right, not
/// overlapping) replaced by `to`.
pub open spec fn replace_all(s: Seq<char>, from: Seq<char>, to: Seq<char>) -> Seq<char>
    decreases s.len(),
{
    if s.len() == 0 {
        seq![]
    } else if from.len() > 0 && from.len() <= s.len() && s.take(from.len() as int) == from {
        to + replace_all(s.skip(from.len() as int), from, to)
    } else {
        seq![s[0]] + replace_all(s.drop_first(), from, to)
    }
}

fn matches_at(s: &Vec<char>, i: usize, p: &Vec<char>) -> (r: bool)
    requires
        i <= s.len(),
    ensures
        r == (p@.len() <= s@.skip(i as int).len() && s@.skip(i as int).take(p@.len() as int) == p@),
{
    if p.len() > s.len() - i {
        return false;
    }
    let mut j: usize = 0;
    while j < p.len()
        invariant
            j <= p.len(),
            i + p.len() <= s.len(),
            forall|k: int| 0 <= k < j ==> s@[i + k] == p@[k],
        decreases p.len() - j,
    {
        if s[i + j] != p[j] {
            assert(s@.skip(i as int).take(p@.len() as int)[j as int] != p@[j as int]);
            return false;
        }
        j = j + 1;
    }
    assert(s@.skip(i as int).take(p@.len() as int) =~= p@);
    true
}

/// `s` with every `from` replaced by `to`; an empty `from` changes nothing.
pub fn replace_chars(s: &Vec<char>, from: &Vec<char>, to: &Vec<char>) -> (r: Vec<char>)
    ensures
        r@ == replace_all(s@, from@, to@),
{
    let mut out: Vec<char> = Vec::new();
    let mut i: usize = 0;
    assert(s@.skip(0) =~= s@);
    while i < s.len()
        invariant
            i <= s.len(),
            out@ + replace_all(s@.skip(i as int), from@, to@) == replace_all(s@, from@, to@),
        decreases s.len() - i,
    {
        let ghost rest = s@.skip(i as int);
        if from.len() > 0 && matches_at(s, i, from) {
            out = concat_chars(&out, to);
            assert(rest.skip(from@.len() as int) =~= s@.skip(i + from@.len()));
            i = i + from.len();
        } else {
            out.push(s[i]);
            assert(rest.drop_first() =~= s@.skip(i + 1));
            assert(rest[0] == s@[i as int]);
            i = i + 1;
        }
    }
    assert(s@.skip(s@.len() as int) =~= seq![]);
    out
}

/// The description of `exec` as a plain function tool (`{"code": string}`):
/// the freeform description with the line on raw source text replaced by
/// one on the `code` argument.
pub fn exec_function_description(description: &str) -> (r: String)
    ensures
        r@ == replace_all(description@, RAW_SOURCE_LINE@, CODE_ARGUMENT_LINE@),
{
    string_of(&replace_chars(&chars_of(description), &chars_of(RAW_SOURCE_LINE), &chars_of(CODE_ARGUMENT_LINE)))
}

/// The description of `wait`: what it does, then the runtime's own text
/// on waiting, trimmed.
pub fn wait_tool_description(exec_tool_name: &str, wait_details: &str) -> (r: String)
    ensures
        r@ == WAIT_DESCRIPTION_START@ + exec_tool_name@ + WAIT_DESCRIPTION_END@ + trim(wait_details@),
{
    let d = chars_of(wait_details);
    let t = trim_range(&d, 0, d.len());
    assert(d@.subrange(0, d@.len() as int) =~= wait_details@);
    let a = concat_chars(&chars_of(WAIT_DESCRIPTION_START), &chars_of(exec_tool_name));
    let b = concat_chars(&a, &chars_of(WAIT_DESCRIPTION_END));
    string_of(&concat_chars(&b, &t))
}

/// The description of the compact `wait`.
pub fn compact_wait_tool_description(exec_tool_name: &str) -> (r: String)
    ensures
        r@ == COMPACT_WAIT_DESCRIPTION_START@ + exec_tool_name@ + COMPACT_WAIT_DESCRIPTION_END@,
{
    let a = concat_chars(&chars_of(COMPACT_WAIT_DESCRIPTION_START), &chars_of(exec_tool_name));
    string_of(&concat_chars(&a, &chars_of(COMPACT_WAIT_DESCRIPTION_END)))
}

/// Kind of a tool parameter.
#[derive(Debug, Clone, Copy, PartialEq, Eq, Structural)]
pub enum ParameterKind {
    String,
    Number,
    Boolean,
}

/// One parameter of a tool.
#[derive(Debug, Clone, Copy, PartialEq, Eq)]
pub struct ToolParameter {
    pub name: &'static str,
    pub kind: ParameterKind,
    pub description: Option<&'static str>,
}

/// The parameters of `wait`, in name order; the compact tool leaves their
/// descriptions out. Only `cell_id` is required.
pub fn wait_tool_parameters(compact: bool) -> (r: Vec<ToolParameter>)
    ensures
        r@.len() == 4,
        r@[0].name@ == "cell_id"@ && r@[0].kind == ParameterKind::String,
        r@[1].name@ == "max_tokens"@ && r@[1].kind == ParameterKind::Number,
        r@[2].name@ == "terminate"@ && r@[2].kind == ParameterKind::Boolean,
        r@[3].name@ == "yield_time_ms"@ && r@[3].kind == ParameterKind::Number,
        compact ==> forall|i: int| 0 <= i < 4 ==> (#[trigger] r@[i]).description is None,
        !compact ==> (r@[0].description matches Some(d) && d@ == "Identifier of the running exec cell."@),
        !compact ==> (r@[1].description matches Some(d) && d@ == "Output token budget for this wait call. Defaults to 10000 tokens."@),
        !compact ==> (r@[2].description matches Some(d) && d@ == "True stops the running exec cell; false or omitted waits for output."@),
        !compact ==> (r@[3].description matches Some(d) && d@ == "Wait before yielding more output. Defaults to 10000 ms."@),
{
    let described = |text: &'static str| -> (r: Option<&'static str>)
        ensures
            compact ==> r is None,
            !compact ==> r == Some(text),
    {
        if compact {
            None
        } else {
            Some(text)
        }
    };
    vec![
        ToolParameter {
            name: "cell_id",
            kind: ParameterKind::String,
            description: described("Identifier of the running exec cell."),
        },
        ToolParameter {
            name: "max_tokens",
            kind: ParameterKind::Number,
            description: described("Output token budget for this wait call. Defaults to 10000 tokens."),
        },
        ToolParameter {
            name: "terminate",
            kind: ParameterKind::Boolean,
            description: described("True stops the running exec cell; false or omitted waits for output."),
        },
        ToolParameter {
            name: "yield_time_ms",
            kind: ParameterKind::Number,
            description: described("Wait before yielding more output. Defaults to 10000 ms."),
        },
    ]
}

} // verus!
