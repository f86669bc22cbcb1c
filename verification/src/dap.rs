//! Editor-protocol logic that does not touch the wire: header parsing,
//! request dispatch, breakpoint mapping, and stack-trace rows.  The
//! length-prefixed JSON framing itself is I/O and lives outside the
//! library.

use vstd::prelude::*;

verus! {

use crate::context::{DebugContext, Frame};
use crate::preprocess::PreprocessResult;
use crate::text::{
    chars_of,
    chars_start,
    parse_u32_chars,
    spec_parse_int,
    spec_trim,
    starts_with,
    str_eq_chars,
    sub_chars,
    trim_chars,
};
use crate::vars::VarMap;

/// The byte count a `Content-Length:` header line announces: the
/// remainder after the colon, trimmed, as an unsigned decimal.
pub open spec fn spec_content_length(line: Seq<char>) -> Option<int> {
    if starts_with(line, "Content-Length:"@) {
        let rest = spec_trim(line.skip("Content-Length:"@.len() as int));
        match spec_parse_int(rest) {
            Some(v) => if 0 <= v <= u32::MAX && (rest.len() == 0 || rest[0] != '-') {
                Some(v)
            } else {
                None
            },
            None => None,
        }
    } else {
        None
    }
}

/// Read a frame header line: `Content-Length: N` yields `N`.
pub fn parse_content_length(line: &str) -> (r: Option<u32>)
    ensures
        ({
            match r {
                Some(v) => spec_content_length(line@) == Some(v as int),
                None => spec_content_length(line@) is None,
            }
        }),
{
    proof {
        reveal_strlit("Content-Length:");
        assert("Content-Length:"@.len() == 15);
    }
    let cs = chars_of(line);
    let header = chars_of("Content-Length:");
    if !chars_start(&cs, &header) {
        return None;
    }
    let restv = sub_chars(&cs, 15, cs.len());
    proof {
        assert(restv@ =~= line@.skip(15));
    }
    let rest = trim_chars(&restv);
    match parse_u32_chars(&rest) {
        Some(v) => Some(v),
        None => None,
    }
}

/// The editor requests the engine answers.
#[derive(Debug, Clone, Copy, PartialEq, Eq, Structural)]
pub enum DapRequest {
    Initialize,
    Launch,
    SetBreakpoints,
    ConfigurationDone,
    Threads,
    StackTrace,
    Scopes,
    Variables,
    ContinueRun,
    Next,
    StepIn,
    StepOut,
    PauseRun,
    Disconnect,
    Unknown,
}

/// Map a request's command word to the request it names.  `launch` and
/// `attach` start the script alike; anything unrecognised is answered
/// as a failure.
pub fn classify_request(command: &str) -> (r: DapRequest)
    ensures
        r == if command@ == "initialize"@ {
            DapRequest::Initialize
        } else if command@ == "launch"@ || command@ == "attach"@ {
            DapRequest::Launch
        } else if command@ == "setBreakpoints"@ {
            DapRequest::SetBreakpoints
        } else if command@ == "configurationDone"@ {
            DapRequest::ConfigurationDone
        } else if command@ == "threads"@ {
            DapRequest::Threads
        } else if command@ == "stackTrace"@ {
            DapRequest::StackTrace
        } else if command@ == "scopes"@ {
            DapRequest::Scopes
        } else if command@ == "variables"@ {
            DapRequest::Variables
        } else if command@ == "continue"@ {
            DapRequest::ContinueRun
        } else if command@ == "next"@ {
            DapRequest::Next
        } else if command@ == "stepIn"@ {
            DapRequest::StepIn
        } else if command@ == "stepOut"@ {
            DapRequest::StepOut
        } else if command@ == "pause"@ {
            DapRequest::PauseRun
        } else if command@ == "disconnect"@ {
            DapRequest::Disconnect
        } else {
            DapRequest::Unknown
        },
{
    let t = chars_of(command);
    if str_eq_chars("initialize", &t) {
        DapRequest::Initialize
    } else if str_eq_chars("launch", &t) || str_eq_chars("attach", &t) {
        DapRequest::Launch
    } else if str_eq_chars("setBreakpoints", &t) {
        DapRequest::SetBreakpoints
    } else if str_eq_chars("configurationDone", &t) {
        DapRequest::ConfigurationDone
    } else if str_eq_chars("threads", &t) {
        DapRequest::Threads
    } else if str_eq_chars("stackTrace", &t) {
        DapRequest::StackTrace
    } else if str_eq_chars("scopes", &t) {
        DapRequest::Scopes
    } else if str_eq_chars("variables", &t) {
        DapRequest::Variables
    } else if str_eq_chars("continue", &t) {
        DapRequest::ContinueRun
    } else if str_eq_chars("next", &t) {
        DapRequest::Next
    } else if str_eq_chars("stepIn", &t) {
        DapRequest::StepIn
    } else if str_eq_chars("stepOut", &t) {
        DapRequest::StepOut
    } else if str_eq_chars("pause", &t) {
        DapRequest::PauseRun
    } else if str_eq_chars("disconnect", &t) {
        DapRequest::Disconnect
    } else {
        DapRequest::Unknown
    }
}

/// Which physical line a one-based breakpoint request names when it
/// lies within a script of `n` physical lines.
pub open spec fn line_in_range(line: usize, n: int) -> bool {
    line >= 1 && line - 1 < n
}

/// The in-range requests among the first `j`, in request order: the
/// lines the engine confirms for a breakpoint request.
pub open spec fn accepted_lines(requested: Seq<usize>, j: int, n: int) -> Seq<usize>
    decreases j,
    when 0 <= j
{
    if j <= 0 {
        Seq::empty()
    } else {
        accepted_lines(requested, j - 1, n) + (if line_in_range(requested[j - 1], n) {
            seq![requested[j - 1]]
        } else {
            Seq::empty()
        })
    }
}

/// When every requested line is in range, the confirmed list is the
/// request itself, unchanged and in order.
pub proof fn lemma_all_in_range_accepted(requested: Seq<usize>, j: int, n: int)
    requires
        0 <= j <= requested.len(),
        forall|i: int| 0 <= i < requested.len() ==> line_in_range(#[trigger] requested[i], n),
    ensures
        accepted_lines(requested, j, n) == requested.take(j),
    decreases j,
{
    if j <= 0 {
        assert(accepted_lines(requested, j, n) =~= requested.take(j));
    } else {
        lemma_all_in_range_accepted(requested, j - 1, n);
        assert(line_in_range(requested[j - 1], n));
        assert(accepted_lines(requested, j, n) =~= requested.take(j));
    }
}

/// Breakpoint requests come as one-based physical lines.  The engine
/// confirms exactly the in-range requests, in request order, and maps
/// each confirmed line through the physical-to-logical index: the
/// response carries one record per mapped line.
pub fn map_breakpoints(pre: &PreprocessResult, requested: &Vec<usize>) -> (r: (
    Vec<usize>,
    Vec<usize>,
))
    ensures
        r.1@ == accepted_lines(
            requested@,
            requested@.len() as int,
            pre.phys_to_logical@.len() as int,
        ),
        r.0@.len() == r.1@.len(),
        forall|k: int|
            0 <= k < r.0@.len() ==> {
                let p = #[trigger] r.1@[k];
                &&& line_in_range(p, pre.phys_to_logical@.len() as int)
                &&& r.0@[k] == pre.phys_to_logical@[p - 1]
            },
{
    let ghost n = pre.phys_to_logical@.len() as int;
    let mut logical: Vec<usize> = Vec::new();
    let mut verified: Vec<usize> = Vec::new();
    let mut j: usize = 0;
    proof {
        assert(verified@ =~= accepted_lines(requested@, 0, n));
    }
    while j < requested.len()
        invariant
            0 <= j <= requested@.len(),
            n == pre.phys_to_logical@.len() as int,
            logical@.len() == verified@.len(),
            verified@ == accepted_lines(requested@, j as int, n),
            forall|k: int|
                0 <= k < logical@.len() ==> {
                    let p = #[trigger] verified@[k];
                    &&& line_in_range(p, n)
                    &&& logical@[k] == pre.phys_to_logical@[p - 1]
                },
        decreases requested@.len() - j,
    {
        let line = requested[j];
        if line >= 1 && line - 1 < pre.phys_to_logical.len() {
            logical.push(pre.phys_to_logical[line - 1]);
            verified.push(line);
            proof {
                assert(verified@ =~= accepted_lines(requested@, j + 1, n));
            }
        } else {
            proof {
                assert(verified@ =~= accepted_lines(requested@, j + 1, n));
            }
        }
        j = j + 1;
    }
    (logical, verified)
}

/// The rows frames below the innermost contribute: for each frame in
/// stack order, the physical start (one-based) of the line before its
/// return target, skipping frames whose return target lies outside
/// the script.
pub open spec fn frame_rows(pre: PreprocessResult, stack: Seq<Frame>, i: int) -> Seq<int>
    decreases stack.len() - i,
    when 0 <= i
{
    if i >= stack.len() {
        Seq::empty()
    } else {
        let rl = if stack[i].return_pc > 0 {
            stack[i].return_pc - 1
        } else {
            0int
        };
        (if rl < pre.logical@.len() {
            seq![pre.logical@[rl].phys_start + 1]
        } else {
            Seq::empty()
        }) + frame_rows(pre, stack, i + 1)
    }
}

/// The innermost row: the paused line's physical start, one-based
/// (row one when the counter is out of range).
pub open spec fn top_row(pre: PreprocessResult, current_pc: int) -> int {
    if current_pc < pre.logical@.len() {
        pre.logical@[current_pc].phys_start + 1
    } else {
        1
    }
}

/// The one-based physical source lines a stack trace reports: the
/// paused line first, then one row per frame with an in-range return
/// target, in stack order.
pub fn stack_trace_rows(pre: &PreprocessResult, current_pc: usize, stack: &Vec<Frame>) -> (r: Vec<
    usize,
>)
    requires
        forall|k: int|
            0 <= k < pre.logical@.len() ==> (#[trigger] pre.logical@[k]).phys_start
                < pre.phys_to_logical@.len(),
        pre.phys_to_logical@.len() < usize::MAX,
    ensures
        r@.map_values(|x: usize| x as int) == seq![top_row(*pre, current_pc as int)]
            + frame_rows(*pre, stack@, 0),
{
    let ghost goal = seq![top_row(*pre, current_pc as int)] + frame_rows(*pre, stack@, 0);
    let mut rows: Vec<usize> = Vec::new();
    if current_pc < pre.logical.len() {
        rows.push(pre.logical[current_pc].phys_start + 1);
    } else {
        rows.push(1);
    }
    proof {
        assert(rows@.map_values(|x: usize| x as int) =~= seq![top_row(*pre, current_pc as int)]);
    }
    let mut i: usize = 0;
    while i < stack.len()
        invariant
            0 <= i <= stack@.len(),
            forall|k: int|
                0 <= k < pre.logical@.len() ==> (#[trigger] pre.logical@[k]).phys_start
                    < pre.phys_to_logical@.len(),
            pre.phys_to_logical@.len() < usize::MAX,
            goal == seq![top_row(*pre, current_pc as int)] + frame_rows(*pre, stack@, 0),
            rows@.map_values(|x: usize| x as int) + frame_rows(*pre, stack@, i as int) == goal,
        decreases stack@.len() - i,
    {
        let rpc = stack[i].return_pc;
        let rl = if rpc > 0 {
            rpc - 1
        } else {
            0
        };
        let ghost rows0 = rows@;
        if rl < pre.logical.len() {
            rows.push(pre.logical[rl].phys_start + 1);
            proof {
                assert(rows@.map_values(|x: usize| x as int) =~= rows0.map_values(
                    |x: usize| x as int,
                ) + seq![pre.logical@[rl as int].phys_start + 1]);
                assert(rows@.map_values(|x: usize| x as int) + frame_rows(*pre, stack@, i + 1)
                    =~= rows0.map_values(|x: usize| x as int) + frame_rows(
                    *pre,
                    stack@,
                    i as int,
                ));
            }
        } else {
            proof {
                assert(frame_rows(*pre, stack@, i as int) =~= frame_rows(*pre, stack@, i + 1));
            }
        }
        i = i + 1;
    }
    proof {
        assert(frame_rows(*pre, stack@, stack@.len() as int) =~= Seq::<int>::empty());
        assert(rows@.map_values(|x: usize| x as int) + Seq::<int>::empty() =~= rows@.map_values(
            |x: usize| x as int,
        ));
    }
    rows
}

/// The variables a scope reference names: `1` is the visible set at
/// the stop (globals overlaid by active locals), `2` the globals
/// alone; any other reference holds nothing.
pub fn variables_for_reference(ctx: &DebugContext, var_ref: u64) -> (r: VarMap)
    requires
        ctx.wf(),
    ensures
        r.wf(),
        var_ref == 1 ==> forall|key: Seq<char>| #[trigger] r.spec_get(key) == ctx.spec_visible(
            key,
        ),
        var_ref == 2 ==> forall|key: Seq<char>| #[trigger] r.spec_get(key)
            == ctx.variables.spec_get(key),
        var_ref != 1 && var_ref != 2 ==> forall|key: Seq<char>| #[trigger] r.spec_get(key)
            is None,
{
    if var_ref == 1 {
        ctx.get_visible_variables()
    } else if var_ref == 2 {
        let r = ctx.variables.duplicate();
        proof {
            assert(r.view_entries() == ctx.variables.view_entries());
        }
        r
    } else {
        VarMap::new()
    }
}

} // verus!
