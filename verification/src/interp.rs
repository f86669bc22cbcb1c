//! The interpreter: the debugger's main execution loop as a verified
//! state machine.  Each call of `step` handles at most one logical
//! line; whenever outside work is needed (a command for the shell
//! session, a block script, a keypress, a pause), the machine hands a
//! directive out and waits for `command_done`, `key_pressed` or
//! `resume`.  The surrounding process owns the session and the editor
//! protocol and drives this machine.

use vstd::prelude::*;

verus! {

use crate::commands::{
    op_permits,
    op_permits_exec,
    CommandOp,
    CommandPart,
    parts_model,
    spec_split,
    split_composite_chars,
};
use crate::context::{DebugContext, Frame, RunMode};
use crate::labels::LabelMap;
use crate::preprocess::PreprocessResult;
use crate::text::{
    chars_of,
    lower_chars,
    first_token,
    replace_chars,
    spec_first_token,
    spec_lower,
    spec_replace,
    spec_strip_leading,
    spec_trim,
    spec_trim_quotes,
    string_from_chars,
    strip_leading,
    sub_chars,
    trim_chars,
    trim_quotes,
};

/// What the tokens of a `CALL` tail stand for, as the POSIX-style
/// word splitter reads them.  The result depends on the text alone.
pub uninterp spec fn shlex_tokens(s: Seq<char>) -> Seq<Seq<char>>;

/// Relies on `shlex::Shlex` over the whole input: the iterator yields
/// the shell words of the text, a pure function of the text (on an
/// erroneous input the trailing word is dropped, still a function of
/// the text); an empty input yields no words.
#[verifier::external_body]
fn shlex_split(s: &str) -> (r: Vec<String>)
    ensures
        r@.map_values(|t: String| t@) == shlex_tokens(s@),
        s@.len() == 0 ==> r@.len() == 0,
{
    shlex::Shlex::new(s).collect()
}

/// The views of a token list.
pub open spec fn token_views(v: Seq<String>) -> Seq<Seq<char>> {
    v.map_values(|t: String| t@)
}

/// The call target a token list names, and the arguments it carries:
/// the first token with leading colons removed, lowercased (empty when
/// there are no tokens), and the remaining tokens.
pub open spec fn spec_call_label(tokens: Seq<Seq<char>>) -> Seq<char> {
    if tokens.len() == 0 {
        Seq::empty()
    } else {
        spec_lower(spec_strip_leading(tokens[0], ':'))
    }
}

/// Resolve a `CALL` tail's token list into the label key and the
/// positional arguments handed to the frame.
pub fn parse_call_target(tokens: &Vec<String>) -> (r: (Vec<char>, Vec<String>))
    ensures
        r.0@ == spec_call_label(token_views(tokens@)),
        tokens@.len() == 0 ==> r.1@.len() == 0,
        tokens@.len() > 0 ==> token_views(r.1@) == token_views(tokens@).skip(1),
{
    if tokens.len() == 0 {
        let label: Vec<char> = Vec::new();
        let args: Vec<String> = Vec::new();
        proof {
            assert(label@ =~= spec_call_label(token_views(tokens@)));
        }
        return (label, args);
    }
    let cs = chars_of(&tokens[0]);
    let stripped = strip_leading(&cs, ':');
    let label = lower_chars(&stripped);
    proof {
        assert(token_views(tokens@)[0] == tokens@[0]@);
    }
    let mut args: Vec<String> = Vec::new();
    let mut i: usize = 1;
    proof {
        assert(token_views(args@) =~= token_views(tokens@).skip(1).take(0));
    }
    while i < tokens.len()
        invariant
            1 <= i <= tokens@.len(),
            token_views(args@) == token_views(tokens@).skip(1).take(i - 1),
        decreases tokens@.len() - i,
    {
        let ghost args0 = args@;
        args.push(tokens[i].clone());
        proof {
            assert(token_views(args0).len() == args0.len());
            assert(args0.len() == i - 1);
            assert(args@.len() == args0.len() + 1);
            assert forall|j: int| 0 <= j < args@.len() implies #[trigger] token_views(args@)[j]
                == token_views(tokens@).skip(1).take(i as int)[j] by {
                let rhs = token_views(tokens@).skip(1).take(i as int);
                assert(rhs[j] == token_views(tokens@).skip(1)[j]);
                assert(token_views(tokens@).skip(1)[j] == token_views(tokens@)[j + 1]);
                assert(token_views(tokens@)[j + 1] == tokens@[j + 1]@);
                assert(token_views(args@)[j] == args@[j]@);
                if j < args0.len() {
                    assert(args@[j] == args0[j]);
                    assert(token_views(args0)[j] == args0[j]@);
                    assert(token_views(args0)[j] == token_views(tokens@).skip(1).take(i - 1)[j]);
                    assert(token_views(tokens@).skip(1).take(i - 1)[j] == token_views(
                        tokens@,
                    ).skip(1)[j]);
                } else {
                    assert(args@[j]@ == tokens@[i as int]@);
                    assert(j + 1 == i as int);
                }
            }
            assert(token_views(args@) =~= token_views(tokens@).skip(1).take(i as int));
        }
        i = i + 1;
    }
    proof {
        assert(token_views(tokens@).skip(1).take(tokens@.len() - 1) =~= token_views(
            tokens@,
        ).skip(1));
    }
    (label, args)
}

/// The positional argument `%i` expands to (one-based; empty when the
/// frame has fewer arguments).
pub open spec fn arg_at(args: Seq<Seq<char>>, i: int) -> Seq<char> {
    if 1 <= i <= args.len() {
        args[i - 1]
    } else {
        Seq::empty()
    }
}

/// The character for digit `i`.
pub open spec fn digit_char(i: int) -> char {
    ((48 + i) as u8) as char
}

/// One round of positional expansion: `%~i` first (argument with
/// surrounding double quotes removed), then `%i`.
pub open spec fn expand_step(t: Seq<char>, args: Seq<Seq<char>>, i: int) -> Seq<char> {
    spec_replace(
        spec_replace(t, seq!['%', '~', digit_char(i)], spec_trim_quotes(arg_at(args, i))),
        seq!['%', digit_char(i)],
        arg_at(args, i),
    )
}

/// Expansion of `%9` down to `%1`: higher numbers first, so `%1` never
/// swallows the prefix of a longer reference.
pub open spec fn expand_down(t: Seq<char>, args: Seq<Seq<char>>, i: int) -> Seq<char>
    decreases i,
    when i >= 0
{
    if i <= 0 {
        t
    } else {
        expand_down(expand_step(t, args, i), args, i - 1)
    }
}

/// The text with `%1..%9` and `%~1..%~9` expanded from the arguments.
pub open spec fn spec_expand(t: Seq<char>, args: Seq<Seq<char>>) -> Seq<char> {
    expand_down(t, args, 9)
}

/// Expand `%1..%9` and `%~1..%~9` from the frame's arguments; `%~i`
/// also strips surrounding double quotes.
pub fn expand_positional_args(text: &str, args: &Vec<String>) -> (r: String)
    ensures
        r@ == spec_expand(text@, token_views(args@)),
{
    let cs = chars_of(text);
    let e = expand_chars(&cs, args);
    string_from_chars(&e)
}

/// Character-level twin of `expand_positional_args`.
pub fn expand_chars(text: &Vec<char>, args: &Vec<String>) -> (r: Vec<char>)
    ensures
        r@ == spec_expand(text@, token_views(args@)),
{
    let ghost avs = token_views(args@);
    let mut cur = sub_chars(text, 0, text.len());
    proof {
        assert(cur@ =~= text@);
    }
    let mut i: usize = 9;
    while i >= 1
        invariant
            0 <= i <= 9,
            avs == token_views(args@),
            expand_down(cur@, avs, i as int) == spec_expand(text@, avs),
        decreases i,
    {
        let val: Vec<char> = if i <= args.len() && args.len() > 0 {
            chars_of(&args[i - 1])
        } else {
            Vec::new()
        };
        proof {
            if 1 <= i as int <= avs.len() {
                assert(avs[i - 1] == args@[i - 1]@);
                assert(val@ == arg_at(avs, i as int));
            } else {
                assert(val@ =~= arg_at(avs, i as int));
            }
        }
        let unquoted = trim_quotes(&val);
        let d: char = ((48 + (i as u8)) as u8) as char;
        proof {
            assert(d == digit_char(i as int));
        }
        let mut pat_t: Vec<char> = Vec::new();
        pat_t.push('%');
        pat_t.push('~');
        pat_t.push(d);
        proof {
            assert(pat_t@ =~= seq!['%', '~', digit_char(i as int)]);
        }
        let mut pat_p: Vec<char> = Vec::new();
        pat_p.push('%');
        pat_p.push(d);
        proof {
            assert(pat_p@ =~= seq!['%', digit_char(i as int)]);
        }
        let step1 = replace_chars(&cur, &pat_t, &unquoted);
        let step2 = replace_chars(&step1, &pat_p, &val);
        proof {
            assert(step2@ == expand_step(cur@, avs, i as int));
            assert(expand_down(cur@, avs, i as int) == expand_down(step2@, avs, i - 1));
        }
        cur = step2;
        i = i - 1;
    }
    cur
}

/// The next part to run, scanning from `from`: the first whose
/// predecessor's operator permits it under the exit code (`&` and the
/// first part always run, `&&` needs code zero, `||` non-zero).
pub open spec fn first_permitted(
    parts: Seq<(Seq<char>, Option<CommandOp>)>,
    from: int,
    code: int,
) -> Option<int>
    decreases parts.len() - from,
    when 0 <= from
{
    if from >= parts.len() {
        None
    } else if from == 0 || op_permits(parts[from - 1].1, code) {
        Some(from)
    } else {
        first_permitted(parts, from + 1, code)
    }
}

/// Composite short-circuit, `&&`: in `p1 && p2`, after `p1` ran with
/// the given exit code, `p2` is issued exactly when the code is zero.
pub proof fn lemma_short_circuit_and(
    parts: Seq<(Seq<char>, Option<CommandOp>)>,
    code: int,
)
    requires
        parts.len() == 2,
        parts[0].1 == Some(CommandOp::And),
    ensures
        first_permitted(parts, 1, code) == if code == 0 {
            Some(1int)
        } else {
            None::<int>
        },
{
    assert(first_permitted(parts, 2, code) is None);
}

/// Composite short-circuit, `||`: in `p1 || p2`, after `p1` ran with
/// the given exit code, `p2` is issued exactly when the code is
/// non-zero.
pub proof fn lemma_short_circuit_or(
    parts: Seq<(Seq<char>, Option<CommandOp>)>,
    code: int,
)
    requires
        parts.len() == 2,
        parts[0].1 == Some(CommandOp::Or),
    ensures
        first_permitted(parts, 1, code) == if code != 0 {
            Some(1int)
        } else {
            None::<int>
        },
{
    assert(first_permitted(parts, 2, code) is None);
}

/// Executable scan for the next permitted part.
pub fn next_permitted(parts: &Vec<CommandPart>, from: usize, code: i32) -> (r: Option<usize>)
    requires
        from >= 1,
    ensures
        ({
            match r {
                Some(i) => first_permitted(parts_model(parts@), from as int, code as int)
                    == Some(i as int) && from <= i < parts@.len(),
                None => first_permitted(parts_model(parts@), from as int, code as int)
                    is None,
            }
        }),
{
    let mut i: usize = from;
    while i < parts.len()
        invariant
            1 <= from <= i,
            i <= parts@.len() || i == from,
            first_permitted(parts_model(parts@), from as int, code as int) == first_permitted(
                parts_model(parts@),
                i as int,
                code as int,
            ),
        decreases parts@.len() - i,
    {
        proof {
            assert(parts_model(parts@)[i - 1].1 == parts@[i - 1].op);
        }
        if op_permits_exec(&parts[i - 1].op, code) {
            return Some(i);
        }
        i = i + 1;
    }
    None
}

/// Why execution paused.
#[derive(Debug, Clone, Copy, PartialEq, Eq, Structural)]
pub enum StopReason {
    /// The very first stop, when stopping on entry was requested.
    Entry,
    /// A stepping mode reached its next line.
    Step,
    /// A breakpoint was hit while running.
    Breakpoint,
    /// A pause request arrived.
    Pause,
}

impl StopReason {
    /// The reason's wire spelling.
    pub fn text(&self) -> (r: &'static str)
        ensures
            r@ == match *self {
                StopReason::Entry => "entry"@,
                StopReason::Step => "step"@,
                StopReason::Breakpoint => "breakpoint"@,
                StopReason::Pause => "pause"@,
            },
    {
        match self {
            StopReason::Entry => "entry",
            StopReason::Step => "step",
            StopReason::Breakpoint => "breakpoint",
            StopReason::Pause => "pause",
        }
    }
}

/// What the machine asks its driver to do next.
pub enum Directive {
    /// Internal progress was made; call `step` again.
    Working,
    /// Paused; wait for the coordinator and call `resume`.
    Stopped(StopReason),
    /// Run this command in the session and report its exit code.
    RunCommand(String),
    /// Run these lines as a block script and report the exit code.
    RunBlock(Vec<String>),
    /// Wait for a keypress, then call `key_pressed`.
    AwaitKey,
    /// The script finished.
    Terminated,
    /// A CALL or GOTO named a label that does not exist; fatal.
    UnknownLabel(String),
}

/// Where the machine stands between calls.
#[derive(Debug, Clone, Copy, PartialEq, Eq, Structural)]
pub enum Phase {
    /// Ready to examine the line at `pc`.
    Fetch,
    /// A verbatim line (SETLOCAL / ENDLOCAL) runs in the session.
    AwaitLine,
    /// A command part runs in the session.
    AwaitParts,
    /// A block script runs in the session.
    AwaitBlock,
    /// PAUSE waits for a key.
    AwaitKeypress,
    /// Stopped at `pc`; waiting for the coordinator.
    Paused,
    /// Terminated or failed.
    Done,
}

/// A preprocessed program and its label index fit together: the map
/// sends physical lines to logical indices, and every label names a
/// physical line of the script.
pub open spec fn prog_wf(pre: PreprocessResult, labels: LabelMap) -> bool {
    &&& forall|p: int|
        0 <= p < pre.phys_to_logical@.len() ==> (#[trigger] pre.phys_to_logical@[p])
            < pre.logical@.len()
    &&& forall|key: Seq<char>|
        #[trigger] labels.spec_lookup(key) matches Some(v) ==> 0 <= v
            < pre.phys_to_logical@.len()
}

/// Preprocess a script and build its label index; the pair satisfies
/// the interpreter's program well-formedness.
pub fn prepare_program(physical: &Vec<String>) -> (r: (PreprocessResult, LabelMap))
    ensures
        prog_wf(r.0, r.1),
        ({
            let m = crate::preprocess::spec_join(crate::preprocess::views_of(physical@), 0);
            &&& r.0.logical@.len() == m.len()
            &&& forall|k: int|
                0 <= k < m.len() ==> (#[trigger] r.0.logical@[k]).text@ == m[k].0
                    && r.0.logical@[k].phys_start == m[k].1 && r.0.logical@[k].phys_end
                    == m[k].2
            &&& r.0.phys_to_logical@.len() == physical@.len()
        }),
        forall|key: Seq<char>| #[trigger] r.1.spec_lookup(key)
            == crate::labels::spec_label_lookup(crate::preprocess::views_of(physical@), key),
{
    let ghost lines = crate::preprocess::views_of(physical@);
    let pre = crate::preprocess::preprocess_lines(physical);
    let labels = crate::labels::build_label_map(physical);
    proof {
        let m = crate::preprocess::spec_join(lines, 0);
        crate::preprocess::lemma_phys_logical_bijection(lines, pre.phys_to_logical@);
        assert forall|key: Seq<char>| #[trigger] labels.spec_lookup(key) is Some implies 0
            <= labels.spec_lookup(key)->0 < pre.phys_to_logical@.len() by {
            crate::labels::lemma_label_lookup_in_range(lines, key);
        }
    }
    (pre, labels)
}

/// The logical line texts of a program.
pub open spec fn logical_texts(pre: PreprocessResult) -> Seq<Seq<char>> {
    pre.logical@.map_values(|l: crate::preprocess::LogicalLine| l.text@)
}

/// How a line is dispatched, in priority order.
#[derive(Debug, Clone, Copy, PartialEq, Eq, Structural)]
pub enum LineClass {
    /// Blank, comment, or label definition: advanced over silently.
    Skip,
    /// SETLOCAL...: scope flag, then the verbatim line to the session.
    Setlocal,
    /// ENDLOCAL...: scope flag, then the verbatim line to the session.
    Endlocal,
    /// CALL :label [args...].
    CallCmd,
    /// EXIT /B [n].
    ExitB,
    /// GOTO label or GOTO :EOF.
    GotoCmd,
    /// PAUSE, in interactive mode.
    PauseKey,
    /// IF / FOR opening a multi-line parenthesised block.
    Block,
    /// Anything else: a leaf command line.
    Leaf,
}

/// Classify a line: `ln` is the normalized text, `raw` the original.
pub open spec fn classify(ln: Seq<char>, raw: Seq<char>, interactive: bool) -> LineClass {
    if crate::commands::is_comment_spec(ln) || crate::text::starts_with(ln, seq![':']) {
        LineClass::Skip
    } else if crate::text::starts_with_ci(ln, "setlocal"@) {
        LineClass::Setlocal
    } else if crate::text::starts_with_ci(ln, "endlocal"@) {
        LineClass::Endlocal
    } else if crate::text::starts_with_ci(ln, "call "@) {
        LineClass::CallCmd
    } else if crate::text::starts_with_ci(ln, "exit /b"@) {
        LineClass::ExitB
    } else if crate::text::starts_with_ci(ln, "goto "@) {
        LineClass::GotoCmd
    } else if interactive && crate::text::eq_ignore_case(ln, "pause"@) {
        LineClass::PauseKey
    } else if (crate::text::starts_with_ci(ln, "if "@) || crate::text::starts_with_ci(
        ln,
        "for "@,
    )) && crate::preprocess::spec_paren_delta(raw) > 0 {
        LineClass::Block
    } else {
        LineClass::Leaf
    }
}

/// Whether execution pauses at `pc`: the context's stop policy, with
/// StepOver refined by the interpreter's captured depth.
pub open spec fn stop_now(ctx: DebugContext, step_depth: Option<usize>, pc: int) -> bool {
    match ctx.spec_mode() {
        RunMode::Continue => ctx.breakpoints.spec_has(pc),
        RunMode::StepInto => true,
        RunMode::StepOver => match step_depth {
            None => true,
            Some(d) => ctx.call_stack@.len() <= d,
        },
        RunMode::StepOut => ctx.call_stack@.len() <= ctx.step_out_target_depth,
    }
}

/// The context did not change.
pub open spec fn ctx_unchanged(a: DebugContext, b: DebugContext) -> bool {
    &&& b.variables == a.variables
    &&& b.call_stack@ == a.call_stack@
    &&& b.last_exit_code == a.last_exit_code
    &&& b.breakpoints == a.breakpoints
    &&& b.spec_mode() == a.spec_mode()
    &&& b.step_out_target_depth == a.step_out_target_depth
    &&& b.continue_requested == a.continue_requested
    &&& b.current_line == a.current_line
}

/// Only the last exit code changed, to `code`.
pub open spec fn ctx_only_code(a: DebugContext, b: DebugContext, code: int) -> bool {
    &&& b.variables == a.variables
    &&& b.call_stack@ == a.call_stack@
    &&& b.last_exit_code == code
    &&& b.breakpoints == a.breakpoints
    &&& b.spec_mode() == a.spec_mode()
    &&& b.step_out_target_depth == a.step_out_target_depth
    &&& b.continue_requested == a.continue_requested
    &&& b.current_line == a.current_line
}

/// The top frame was popped; the last exit code became `code`.
pub open spec fn ctx_popped(a: DebugContext, b: DebugContext, code: int) -> bool {
    &&& a.call_stack@.len() > 0
    &&& b.call_stack@ == a.call_stack@.drop_last()
    &&& b.variables == a.variables
    &&& b.last_exit_code == code
    &&& b.breakpoints == a.breakpoints
    &&& b.spec_mode() == a.spec_mode()
    &&& b.step_out_target_depth == a.step_out_target_depth
    &&& b.continue_requested == a.continue_requested
    &&& b.current_line == a.current_line
}

/// A frame was pushed: return to `rpc`, carrying `args`.
pub open spec fn ctx_pushed(
    a: DebugContext,
    b: DebugContext,
    rpc: int,
    args: Seq<Seq<char>>,
) -> bool {
    &&& b.call_stack@.len() == a.call_stack@.len() + 1
    &&& forall|i: int|
        0 <= i < a.call_stack@.len() ==> #[trigger] b.call_stack@[i] == a.call_stack@[i]
    &&& b.call_stack@.last().return_pc == rpc
    &&& (b.call_stack@.last().args matches Some(v) && token_views(v@) == args)
    &&& !b.call_stack@.last().has_setlocal
    &&& b.call_stack@.last().locals.view_entries().len() == 0
    &&& b.variables == a.variables
    &&& b.last_exit_code == a.last_exit_code
    &&& b.breakpoints == a.breakpoints
    &&& b.spec_mode() == a.spec_mode()
    &&& b.step_out_target_depth == a.step_out_target_depth
    &&& b.continue_requested == a.continue_requested
    &&& b.current_line == a.current_line
}

/// Execution paused at `pc`: the current line was published and the
/// resume flag cleared; nothing else moved.
pub open spec fn ctx_stopped(a: DebugContext, b: DebugContext, pc: int) -> bool {
    &&& b.current_line == Some(pc as usize)
    &&& !b.continue_requested
    &&& b.variables == a.variables
    &&& b.call_stack@ == a.call_stack@
    &&& b.last_exit_code == a.last_exit_code
    &&& b.breakpoints == a.breakpoints
    &&& b.spec_mode() == a.spec_mode()
    &&& b.step_out_target_depth == a.step_out_target_depth
}

/// Saturating balance arithmetic for block collection.
pub open spec fn bal_line(b: int, s: Seq<char>) -> int {
    let pos = crate::preprocess::opens_from(s, 0, false, false);
    let neg = crate::preprocess::closes_from(s, 0, false, false);
    let t = if b + pos > usize::MAX {
        usize::MAX as int
    } else {
        b + pos
    };
    if t - neg < 0 {
        0
    } else {
        t - neg
    }
}

/// First line index past the block that starts before `j` with running
/// balance `b`: lines are taken while the balance stays positive.
pub open spec fn block_end_from(texts: Seq<Seq<char>>, j: int, b: int) -> int
    decreases texts.len() - j,
    when 0 <= j
{
    if b <= 0 || j >= texts.len() {
        j
    } else {
        block_end_from(texts, j + 1, bal_line(b, texts[j]))
    }
}

/// The verified execution machine.
pub struct Interpreter {
    /// The logical line about to run.
    pub pc: usize,
    /// Depth captured at the last resume under StepOver.
    pub step_depth: Option<usize>,
    /// Where the machine stands.
    pub phase: Phase,
    /// The parts of the composite line being executed (AwaitParts).
    pub parts: Vec<CommandPart>,
    /// The part last issued to the session (AwaitParts).
    pub parts_idx: usize,
    /// The line to resume at after a block (AwaitBlock).
    pub block_next: usize,
    /// Interactive mode: PAUSE waits for a key.
    pub interactive: bool,
    /// The next stop is the entry stop.
    pub entry_pending: bool,
    /// Just resumed: do not stop again before dispatching this line.
    pub skip_stop: bool,
}

impl Interpreter {
    pub fn new(interactive: bool, stop_on_entry: bool) -> (r: Interpreter)
        ensures
            r.pc == 0,
            r.step_depth is None,
            r.phase == Phase::Fetch,
            r.interactive == interactive,
            r.entry_pending == stop_on_entry,
            !r.skip_stop,
    {
        Interpreter {
            pc: 0,
            step_depth: None,
            phase: Phase::Fetch,
            parts: Vec::new(),
            parts_idx: 0,
            block_next: 0,
            interactive,
            entry_pending: stop_on_entry,
            skip_stop: false,
        }
    }

    /// Resume after a stop: read the new run mode; StepOver captures
    /// the current stack depth as its sidecar, the others clear it.
    pub fn resume(&mut self, ctx: &DebugContext)
        requires
            old(self).phase == Phase::Paused,
        ensures
            final(self).phase == Phase::Fetch,
            final(self).pc == old(self).pc,
            final(self).skip_stop,
            final(self).step_depth == if ctx.spec_mode() == RunMode::StepOver {
                Some(ctx.call_stack@.len() as usize)
            } else {
                None::<usize>
            },
            final(self).interactive == old(self).interactive,
            final(self).entry_pending == old(self).entry_pending,
    {
        match ctx.mode() {
            RunMode::StepOver => {
                self.step_depth = Some(ctx.call_stack.len());
            },
            _ => {
                self.step_depth = None;
            },
        }
        self.phase = Phase::Fetch;
        self.skip_stop = true;
    }

    /// A key arrived for PAUSE: move past the line.
    pub fn key_pressed(&mut self)
        requires
            old(self).phase == Phase::AwaitKeypress,
            old(self).pc < usize::MAX,
        ensures
            final(self).phase == Phase::Fetch,
            final(self).pc == old(self).pc + 1,
            final(self).step_depth == old(self).step_depth,
            final(self).interactive == old(self).interactive,
            final(self).entry_pending == old(self).entry_pending,
    {
        self.pc = self.pc + 1;
        self.phase = Phase::Fetch;
    }

    /// The session finished the issued command with `code`.  Records
    /// the exit code, then either issues the next permitted part of a
    /// composite line or moves to the next line.
    pub fn command_done(&mut self, ctx: &mut DebugContext, code: i32) -> (r: Directive)
        requires
            old(ctx).wf(),
            old(self).phase == Phase::AwaitLine || old(self).phase == Phase::AwaitParts || old(
                self,
            ).phase == Phase::AwaitBlock,
            old(self).pc < usize::MAX,
            old(self).parts_idx < usize::MAX,
        ensures
            final(ctx).wf(),
            old(self).phase == Phase::AwaitLine ==> r is Working && final(self).phase
                == Phase::Fetch && final(self).pc == old(self).pc + 1 && ctx_only_code(
                *old(ctx),
                *final(ctx),
                code as int,
            ),
            old(self).phase == Phase::AwaitBlock ==> r is Working && final(self).phase
                == Phase::Fetch && final(self).pc == old(self).block_next && ctx_only_code(
                *old(ctx),
                *final(ctx),
                code as int,
            ),
            old(self).phase == Phase::AwaitParts ==> {
                let pm = parts_model(old(self).parts@);
                match first_permitted(pm, old(self).parts_idx + 1, code as int) {
                    None => r is Working && final(self).phase == Phase::Fetch && final(self).pc
                        == old(self).pc + 1 && ctx_only_code(*old(ctx), *final(ctx), code as int),
                    Some(i) => {
                        &&& (r matches Directive::RunCommand(s) && s@ == pm[i].0)
                        &&& final(self).phase == Phase::AwaitParts
                        &&& final(self).parts_idx == i
                        &&& parts_model(final(self).parts@) == pm
                        &&& final(self).pc == old(self).pc
                        &&& track_rel(*old(ctx), *final(ctx), pm[i].0, code as int)
                    },
                }
            },
            final(self).interactive == old(self).interactive,
            final(self).entry_pending == old(self).entry_pending,
            final(self).step_depth == old(self).step_depth,
    {
        ctx.last_exit_code = code;
        if matches!(self.phase, Phase::AwaitLine) {
            self.pc = self.pc + 1;
            self.phase = Phase::Fetch;
            return Directive::Working;
        }
        if matches!(self.phase, Phase::AwaitBlock) {
            self.pc = self.block_next;
            self.phase = Phase::Fetch;
            return Directive::Working;
        }
        match next_permitted(&self.parts, self.parts_idx + 1, code) {
            Some(i) => {
                self.parts_idx = i;
                let text = track_part(&self.parts[i].text, ctx);
                Directive::RunCommand(text)
            },
            None => {
                self.pc = self.pc + 1;
                self.phase = Phase::Fetch;
                Directive::Working
            },
        }
    }
}

/// The tracked `SET` effect of issuing `line` after an exit code was
/// recorded: `b` is `a` with the exit code set to `code` and the
/// assignment (if the line is a tracked `SET`) bound in the scope it
/// belongs to.
pub open spec fn track_rel(a: DebugContext, b: DebugContext, line: Seq<char>, code: int) -> bool {
    match crate::context::spec_set_assignment(line) {
        None => ctx_only_code(a, b, code),
        Some((key, val)) => {
            let lk = spec_lower(key);
            let n = a.call_stack@.len();
            if n > 0 && a.call_stack@.last().has_setlocal {
                let top = a.call_stack@.last();
                &&& b.variables == a.variables
                &&& b.call_stack@.len() == n
                &&& b.call_stack@.last().locals.spec_get(lk) == Some(val)
                &&& (forall|k: Seq<char>|
                    k != lk ==> #[trigger] b.call_stack@.last().locals.spec_get(k)
                        == top.locals.spec_get(k))
                &&& b.call_stack@.last().has_setlocal
                &&& b.call_stack@.last().return_pc == top.return_pc
                &&& b.call_stack@.last().args == top.args
                &&& (forall|i: int|
                    0 <= i < n - 1 ==> #[trigger] b.call_stack@[i] == a.call_stack@[i])
                &&& b.last_exit_code == code
                &&& b.breakpoints == a.breakpoints
                &&& b.spec_mode() == a.spec_mode()
                &&& b.step_out_target_depth == a.step_out_target_depth
                &&& b.continue_requested == a.continue_requested
                &&& b.current_line == a.current_line
            } else {
                &&& b.variables.spec_get(lk) == Some(val)
                &&& (forall|k: Seq<char>|
                    k != lk ==> #[trigger] b.variables.spec_get(k) == a.variables.spec_get(k))
                &&& b.call_stack@ == a.call_stack@
                &&& b.last_exit_code == code
                &&& b.breakpoints == a.breakpoints
                &&& b.spec_mode() == a.spec_mode()
                &&& b.step_out_target_depth == a.step_out_target_depth
                &&& b.continue_requested == a.continue_requested
                &&& b.current_line == a.current_line
            }
        },
    }
}

/// Track a part's `SET` effect before it is handed to the session.
fn track_part(text: &String, ctx: &mut DebugContext) -> (r: String)
    requires
        old(ctx).wf(),
    ensures
        final(ctx).wf(),
        r@ == text@,
        track_rel(*old(ctx), *final(ctx), text@, old(ctx).last_exit_code as int),
{
    let exec_text = text.clone();
    ctx.track_set_command(exec_text.as_str());
    exec_text
}

/// SETLOCAL's effect on the context: the topmost frame's scope flag is
/// raised; nothing else moves (no effect at top level).
pub open spec fn setlocal_rel(a: DebugContext, b: DebugContext) -> bool {
    if a.call_stack@.len() == 0 {
        ctx_unchanged(a, b)
    } else {
        let n = a.call_stack@.len();
        let top = a.call_stack@.last();
        &&& b.call_stack@.len() == n
        &&& b.call_stack@.last().has_setlocal
        &&& b.call_stack@.last().locals == top.locals
        &&& b.call_stack@.last().return_pc == top.return_pc
        &&& b.call_stack@.last().args == top.args
        &&& (forall|i: int| 0 <= i < n - 1 ==> #[trigger] b.call_stack@[i] == a.call_stack@[i])
        &&& b.variables == a.variables
        &&& b.last_exit_code == a.last_exit_code
        &&& b.breakpoints == a.breakpoints
        &&& b.spec_mode() == a.spec_mode()
        &&& b.step_out_target_depth == a.step_out_target_depth
        &&& b.continue_requested == a.continue_requested
        &&& b.current_line == a.current_line
    }
}

/// ENDLOCAL's effect: the topmost frame's scope closes and its locals
/// are discarded; nothing else moves (no effect at top level).
pub open spec fn endlocal_rel(a: DebugContext, b: DebugContext) -> bool {
    if a.call_stack@.len() == 0 {
        ctx_unchanged(a, b)
    } else {
        let n = a.call_stack@.len();
        let top = a.call_stack@.last();
        &&& b.call_stack@.len() == n
        &&& !b.call_stack@.last().has_setlocal
        &&& b.call_stack@.last().locals.view_entries().len() == 0
        &&& b.call_stack@.last().return_pc == top.return_pc
        &&& b.call_stack@.last().args == top.args
        &&& (forall|i: int| 0 <= i < n - 1 ==> #[trigger] b.call_stack@[i] == a.call_stack@[i])
        &&& b.variables == a.variables
        &&& b.last_exit_code == a.last_exit_code
        &&& b.breakpoints == a.breakpoints
        &&& b.spec_mode() == a.spec_mode()
        &&& b.step_out_target_depth == a.step_out_target_depth
        &&& b.continue_requested == a.continue_requested
        &&& b.current_line == a.current_line
    }
}

/// A line expanded from the top frame's arguments, when it carries any.
pub open spec fn maybe_expand(t: Seq<char>, stack: Seq<Frame>) -> Seq<char> {
    if stack.len() > 0 && stack.last().args is Some {
        spec_expand(t, token_views(stack.last().args->0@))
    } else {
        t
    }
}

/// The texts of logical lines `[a, b)`, each expanded from the top
/// frame's arguments.
pub open spec fn expanded_lines(texts: Seq<Seq<char>>, a: int, b: int, stack: Seq<Frame>) -> Seq<
    Seq<char>,
> {
    Seq::new((b - a) as nat, |k: int| maybe_expand(texts[a + k], stack))
}

impl Interpreter {
    /// Handle one event of the main loop: unwind at end of input, skip
    /// comment and label lines, pause at stop points, and dispatch one
    /// control-flow or leaf line, handing the session's work out as a
    /// directive.
    pub fn step(&mut self, ctx: &mut DebugContext, pre: &PreprocessResult, labels: &LabelMap) -> (r:
        Directive)
        requires
            old(self).phase == Phase::Fetch,
            old(ctx).wf(),
            prog_wf(*pre, *labels),
        ensures
            final(ctx).wf(),
            final(self).interactive == old(self).interactive,
            ({
                let n = pre.logical@.len();
                let pc = old(self).pc as int;
                let s0 = *old(self);
                let c0 = *old(ctx);
                let sf = *final(self);
                let cf = *final(ctx);
                if pc >= n {
                    if c0.call_stack@.len() == 0 {
                        &&& r is Terminated
                        &&& sf.phase == Phase::Done
                        &&& ctx_unchanged(c0, cf)
                    } else {
                        &&& r is Working
                        &&& sf.phase == Phase::Fetch
                        &&& sf.pc == c0.call_stack@.last().return_pc
                        &&& ctx_popped(c0, cf, c0.last_exit_code as int)
                    }
                } else {
                    let raw = pre.logical@[pc].text@;
                    let ln = crate::text::spec_normalize_ws(raw);
                    let cls = classify(ln, raw, s0.interactive);
                    if cls == LineClass::Skip {
                        &&& r is Working
                        &&& sf.phase == Phase::Fetch
                        &&& sf.pc == pc + 1
                        &&& ctx_unchanged(c0, cf)
                    } else if stop_now(c0, s0.step_depth, pc) && !s0.skip_stop {
                        &&& (r matches Directive::Stopped(reason) && reason == (
                        if s0.entry_pending {
                            StopReason::Entry
                        } else if c0.spec_mode() == RunMode::Continue {
                            StopReason::Breakpoint
                        } else {
                            StopReason::Step
                        }))
                        &&& sf.phase == Phase::Paused
                        &&& sf.pc == pc
                        &&& !sf.entry_pending
                        &&& ctx_stopped(c0, cf, pc)
                    } else {
                        match cls {
                            LineClass::Skip => false,
                            LineClass::Setlocal => {
                                &&& (r matches Directive::RunCommand(t) && t@ == ln)
                                &&& sf.phase == Phase::AwaitLine
                                &&& sf.pc == pc
                                &&& setlocal_rel(c0, cf)
                            },
                            LineClass::Endlocal => {
                                &&& (r matches Directive::RunCommand(t) && t@ == ln)
                                &&& sf.phase == Phase::AwaitLine
                                &&& sf.pc == pc
                                &&& endlocal_rel(c0, cf)
                            },
                            LineClass::CallCmd => {
                                let tail = spec_trim(ln.skip(5));
                                let toks = shlex_tokens(tail);
                                let key = spec_call_label(toks);
                                match labels.spec_lookup(key) {
                                    Some(phys) => {
                                        &&& r is Working
                                        &&& sf.phase == Phase::Fetch
                                        &&& sf.pc == pre.phys_to_logical@[phys]
                                        &&& ctx_pushed(
                                            c0,
                                            cf,
                                            pc + 1,
                                            if toks.len() == 0 {
                                                Seq::empty()
                                            } else {
                                                toks.skip(1)
                                            },
                                        )
                                    },
                                    None => {
                                        &&& (r matches Directive::UnknownLabel(l) && l@ == key)
                                        &&& sf.phase == Phase::Done
                                        &&& ctx_unchanged(c0, cf)
                                    },
                                }
                            },
                            LineClass::ExitB => {
                                let code = match crate::text::spec_parse_i32(
                                    spec_trim(ln.skip(7)),
                                ) {
                                    Some(v) => v,
                                    None => 0,
                                };
                                if c0.call_stack@.len() == 0 {
                                    &&& r is Terminated
                                    &&& sf.phase == Phase::Done
                                    &&& ctx_only_code(c0, cf, code)
                                } else {
                                    &&& r is Working
                                    &&& sf.phase == Phase::Fetch
                                    &&& sf.pc == c0.call_stack@.last().return_pc
                                    &&& ctx_popped(c0, cf, code)
                                }
                            },
                            LineClass::GotoCmd => {
                                let key = spec_lower(
                                    spec_first_token(
                                        crate::text::spec_trim_start(
                                            spec_strip_leading(spec_trim(ln.skip(5)), ':'),
                                        ),
                                    ),
                                );
                                if key == seq!['e', 'o', 'f'] {
                                    if c0.call_stack@.len() == 0 {
                                        &&& r is Terminated
                                        &&& sf.phase == Phase::Done
                                        &&& ctx_unchanged(c0, cf)
                                    } else {
                                        &&& r is Working
                                        &&& sf.phase == Phase::Fetch
                                        &&& sf.pc == c0.call_stack@.last().return_pc
                                        &&& ctx_popped(c0, cf, c0.last_exit_code as int)
                                    }
                                } else {
                                    match labels.spec_lookup(key) {
                                        Some(phys) => {
                                            &&& r is Working
                                            &&& sf.phase == Phase::Fetch
                                            &&& sf.pc == pre.phys_to_logical@[phys]
                                            &&& ctx_unchanged(c0, cf)
                                        },
                                        None => {
                                            &&& (r matches Directive::UnknownLabel(l) && l@
                                                == key)
                                            &&& sf.phase == Phase::Done
                                            &&& ctx_unchanged(c0, cf)
                                        },
                                    }
                                }
                            },
                            LineClass::PauseKey => {
                                &&& r is AwaitKey
                                &&& sf.phase == Phase::AwaitKeypress
                                &&& sf.pc == pc
                                &&& ctx_unchanged(c0, cf)
                            },
                            LineClass::Block => {
                                let texts = logical_texts(*pre);
                                let end = block_end_from(texts, pc + 1, bal_line(0, raw));
                                &&& (r matches Directive::RunBlock(ls) && crate::session::line_views(
                                    ls@,
                                ) == expanded_lines(texts, pc, end, c0.call_stack@))
                                &&& sf.phase == Phase::AwaitBlock
                                &&& sf.block_next == end
                                &&& sf.pc == pc
                                &&& ctx_unchanged(c0, cf)
                            },
                            LineClass::Leaf => {
                                let parts = spec_split(maybe_expand(ln, c0.call_stack@));
                                if parts.len() == 0 {
                                    &&& r is Working
                                    &&& sf.phase == Phase::Fetch
                                    &&& sf.pc == pc + 1
                                    &&& ctx_unchanged(c0, cf)
                                } else {
                                    &&& (r matches Directive::RunCommand(s) && s@ == parts[0].0)
                                    &&& sf.phase == Phase::AwaitParts
                                    &&& parts_model(sf.parts@) == parts
                                    &&& sf.parts_idx == 0
                                    &&& sf.pc == pc
                                    &&& track_rel(c0, cf, parts[0].0, c0.last_exit_code as int)
                                }
                            },
                        }
                    }
                }
            }),
    {
        let n = pre.logical.len();
        if self.pc >= n {
            match crate::context::leave_context(&mut ctx.call_stack) {
                Some(rpc) => {
                    self.pc = rpc;
                    proof {
                        assert forall|i: int|
                            0 <= i < ctx.call_stack@.len() implies crate::context::frame_wf(
                            #[trigger] ctx.call_stack@[i],
                        ) by {
                            assert(ctx.call_stack@[i] == old(ctx).call_stack@[i]);
                            assert(crate::context::frame_wf(old(ctx).call_stack@[i]));
                        }
                    }
                    return Directive::Working;
                },
                None => {
                    self.phase = Phase::Done;
                    return Directive::Terminated;
                },
            }
        }
        proof {
            reveal_strlit("call ");
            reveal_strlit("exit /b");
            reveal_strlit("goto ");
            assert("call "@.len() == 5);
            assert("exit /b"@.len() == 7);
            assert("goto "@.len() == 5);
        }
        let rawc = chars_of(&pre.logical[self.pc].text);
        let ln = crate::text::normalize_chars(&rawc);
        let ghost lng = crate::text::spec_normalize_ws(pre.logical@[self.pc as int].text@);
        let is_label = ln.len() > 0 && ln[0] == ':';
        proof {
            if is_label {
                assert(ln@.take(1) =~= seq![':']);
            }
            if crate::text::starts_with(lng, seq![':']) {
                assert(lng.take(1) == seq![':']);
                assert(lng.take(1)[0] == seq![':'][0]);
                assert(ln@[0] == ':');
            }
        }
        if crate::commands::is_comment_chars(&ln) || is_label {
            self.pc = self.pc + 1;
            return Directive::Working;
        }
        let stops = match ctx.mode() {
            RunMode::Continue => ctx.breakpoints.contains(self.pc),
            RunMode::StepInto => true,
            RunMode::StepOver => match self.step_depth {
                None => true,
                Some(d) => ctx.call_stack.len() <= d,
            },
            RunMode::StepOut => ctx.call_stack.len() <= ctx.step_out_target_depth,
        };
        if stops && !self.skip_stop {
            ctx.current_line = Some(self.pc);
            ctx.continue_requested = false;
            let reason = if self.entry_pending {
                StopReason::Entry
            } else {
                match ctx.mode() {
                    RunMode::Continue => StopReason::Breakpoint,
                    _ => StopReason::Step,
                }
            };
            self.entry_pending = false;
            self.phase = Phase::Paused;
            return Directive::Stopped(reason);
        }
        self.skip_stop = false;
        let pat_setlocal = chars_of("setlocal");
        if crate::text::chars_start_ci(&ln, &pat_setlocal) {
            ctx.handle_setlocal();
            self.phase = Phase::AwaitLine;
            return Directive::RunCommand(string_from_chars(&ln));
        }
        let pat_endlocal = chars_of("endlocal");
        if crate::text::chars_start_ci(&ln, &pat_endlocal) {
            ctx.handle_endlocal();
            self.phase = Phase::AwaitLine;
            return Directive::RunCommand(string_from_chars(&ln));
        }
        let pat_call = chars_of("call ");
        if crate::text::chars_start_ci(&ln, &pat_call) {
            let tailv = sub_chars(&ln, 5, ln.len());
            proof {
                assert(tailv@ =~= lng.skip(5));
            }
            let tail = trim_chars(&tailv);
            let tail_s = string_from_chars(&tail);
            let tokens = shlex_split(tail_s.as_str());
            let (label_key, args) = parse_call_target(&tokens);
            proof {
                assert(token_views(tokens@) == shlex_tokens(spec_trim(lng.skip(5))));
                if token_views(tokens@).len() == 0 {
                    assert(tokens@.len() == 0) by {
                        assert(token_views(tokens@).len() == tokens@.len());
                    }
                } else {
                    assert(tokens@.len() > 0) by {
                        assert(token_views(tokens@).len() == tokens@.len());
                    }
                }
            }
            match labels.get(&label_key) {
                Some(phys) => {
                    proof {
                        if tokens@.len() == 0 {
                            assert(token_views(args@).len() == args@.len());
                            assert(token_views(args@) =~= Seq::<Seq<char>>::empty());
                        }
                    }
                    let target = pre.phys_to_logical[phys];
                    let f = Frame::new(self.pc + 1, Some(args));
                    ctx.call_stack.push(f);
                    proof {
                        assert forall|i: int|
                            0 <= i < ctx.call_stack@.len() implies crate::context::frame_wf(
                            #[trigger] ctx.call_stack@[i],
                        ) by {
                            if i < ctx.call_stack@.len() - 1 {
                                assert(ctx.call_stack@[i] == old(ctx).call_stack@[i]);
                                assert(crate::context::frame_wf(old(ctx).call_stack@[i]));
                            }
                        }
                    }
                    self.pc = target;
                    return Directive::Working;
                },
                None => {
                    self.phase = Phase::Done;
                    return Directive::UnknownLabel(string_from_chars(&label_key));
                },
            }
        }
        let pat_exit = chars_of("exit /b");
        if crate::text::chars_start_ci(&ln, &pat_exit) {
            let restv = sub_chars(&ln, 7, ln.len());
            proof {
                assert(restv@ =~= lng.skip(7));
            }
            let rest = trim_chars(&restv);
            let code = match crate::text::parse_i32_chars(&rest) {
                Some(v) => v,
                None => 0,
            };
            ctx.last_exit_code = code;
            match crate::context::leave_context(&mut ctx.call_stack) {
                Some(rpc) => {
                    self.pc = rpc;
                    proof {
                        assert forall|i: int|
                            0 <= i < ctx.call_stack@.len() implies crate::context::frame_wf(
                            #[trigger] ctx.call_stack@[i],
                        ) by {
                            assert(ctx.call_stack@[i] == old(ctx).call_stack@[i]);
                            assert(crate::context::frame_wf(old(ctx).call_stack@[i]));
                        }
                    }
                    return Directive::Working;
                },
                None => {
                    self.phase = Phase::Done;
                    return Directive::Terminated;
                },
            }
        }
        let pat_goto = chars_of("goto ");
        if crate::text::chars_start_ci(&ln, &pat_goto) {
            let tailv = sub_chars(&ln, 5, ln.len());
            proof {
                assert(tailv@ =~= lng.skip(5));
            }
            let tail = trim_chars(&tailv);
            let stripped = strip_leading(&tail, ':');
            let ts = crate::text::trim_start_chars(&stripped);
            let tok = first_token(&ts);
            let key = lower_chars(&tok);
            let is_eof = key.len() == 3 && key[0] == 'e' && key[1] == 'o' && key[2] == 'f';
            proof {
                if is_eof {
                    assert(key@ =~= seq!['e', 'o', 'f']);
                } else {
                    if key@ == seq!['e', 'o', 'f'] {
                        assert(key@.len() == 3);
                        assert(key@[0] == 'e' && key@[1] == 'o' && key@[2] == 'f');
                    }
                }
            }
            if is_eof {
                match crate::context::leave_context(&mut ctx.call_stack) {
                    Some(rpc) => {
                        self.pc = rpc;
                        proof {
                            assert forall|i: int|
                                0 <= i < ctx.call_stack@.len() implies crate::context::frame_wf(
                                #[trigger] ctx.call_stack@[i],
                            ) by {
                                assert(ctx.call_stack@[i] == old(ctx).call_stack@[i]);
                                assert(crate::context::frame_wf(old(ctx).call_stack@[i]));
                            }
                        }
                        return Directive::Working;
                    },
                    None => {
                        self.phase = Phase::Done;
                        return Directive::Terminated;
                    },
                }
            }
            match labels.get(&key) {
                Some(phys) => {
                    let target = pre.phys_to_logical[phys];
                    self.pc = target;
                    return Directive::Working;
                },
                None => {
                    self.phase = Phase::Done;
                    return Directive::UnknownLabel(string_from_chars(&key));
                },
            }
        }
        if self.interactive {
            let pat_pause = chars_of("pause");
            if crate::text::chars_eq_ci(&ln, &pat_pause) {
                self.phase = Phase::AwaitKeypress;
                return Directive::AwaitKey;
            }
        }
        let pat_if = chars_of("if ");
        let pat_for = chars_of("for ");
        let (pos, neg) = crate::preprocess::paren_counts(&rawc);
        if (crate::text::chars_start_ci(&ln, &pat_if) || crate::text::chars_start_ci(
            &ln,
            &pat_for,
        )) && pos > neg {
            let ghost texts = logical_texts(*pre);
            let ghost b0 = bal_line(0, pre.logical@[self.pc as int].text@);
            let mut lines: Vec<String> = Vec::new();
            lines.push(pre.logical[self.pc].text.clone());
            let mut j: usize = self.pc + 1;
            let mut b: usize = pos - neg;
            proof {
                assert(texts[self.pc as int] == pre.logical@[self.pc as int].text@);
                assert(b == b0);
                assert(crate::session::line_views(lines@) =~= texts.subrange(
                    self.pc as int,
                    j as int,
                ));
            }
            while b > 0 && j < n
                invariant
                    old(self).pc < j <= n,
                    n == pre.logical@.len(),
                    texts == logical_texts(*pre),
                    block_end_from(texts, old(self).pc + 1, b0) == block_end_from(
                        texts,
                        j as int,
                        b as int,
                    ),
                    crate::session::line_views(lines@) == texts.subrange(
                        old(self).pc as int,
                        j as int,
                    ),
                decreases n - j,
            {
                let cs = chars_of(&pre.logical[j].text);
                proof {
                    assert(texts[j as int] == pre.logical@[j as int].text@);
                }
                let (p2, n2) = crate::preprocess::paren_counts(&cs);
                let ghost lines0 = lines@;
                lines.push(pre.logical[j].text.clone());
                proof {
                    assert(crate::session::line_views(lines0).len() == lines0.len());
                    assert(lines@.len() == lines0.len() + 1);
                    assert forall|x: int| 0 <= x < lines@.len() implies #[trigger] crate::session::line_views(
                        lines@,
                    )[x] == texts.subrange(old(self).pc as int, j + 1)[x] by {
                        assert(crate::session::line_views(lines@)[x] == lines@[x]@);
                        if x < lines0.len() {
                            assert(lines@[x] == lines0[x]);
                            assert(crate::session::line_views(lines0)[x] == lines0[x]@);
                            assert(crate::session::line_views(lines0)[x] == texts.subrange(
                                old(self).pc as int,
                                j as int,
                            )[x]);
                        } else {
                            assert(lines@[x]@ == pre.logical@[j as int].text@);
                        }
                    }
                    assert(crate::session::line_views(lines@) =~= texts.subrange(
                        old(self).pc as int,
                        j + 1,
                    ));
                }
                let ghost b_old = b as int;
                let t: usize = if b > usize::MAX - p2 {
                    usize::MAX
                } else {
                    b + p2
                };
                b = if t < n2 {
                    0
                } else {
                    t - n2
                };
                proof {
                    assert(b as int == bal_line(b_old, texts[j as int]));
                    assert(block_end_from(texts, j as int, b_old) == block_end_from(
                        texts,
                        j + 1,
                        b as int,
                    ));
                }
                j = j + 1;
            }
            self.block_next = j;
            self.phase = Phase::AwaitBlock;
            let sn = ctx.call_stack.len();
            let has_args = sn > 0 && matches!(&ctx.call_stack[sn - 1].args, Some(_));
            if has_args {
                let mut expanded: Vec<String> = Vec::new();
                let mut k: usize = 0;
                while k < lines.len()
                    invariant
                        0 <= k <= lines@.len(),
                        ctx.call_stack@.len() > 0,
                        ctx.call_stack@.last().args is Some,
                        crate::session::line_views(expanded@) == crate::session::line_views(
                            lines@,
                        ).take(k as int).map_values(
                            |tt: Seq<char>| maybe_expand(tt, ctx.call_stack@),
                        ),
                    decreases lines@.len() - k,
                {
                    let sn2 = ctx.call_stack.len();
                    let e = match &ctx.call_stack[sn2 - 1].args {
                        Some(a) => expand_positional_args(lines[k].as_str(), a),
                        None => lines[k].clone(),
                    };
                    let ghost e0 = expanded@;
                    let ghost ev = e@;
                    expanded.push(e);
                    proof {
                        let f = |tt: Seq<char>| maybe_expand(tt, ctx.call_stack@);
                        let lv = crate::session::line_views(lines@);
                        assert(crate::session::line_views(e0).len() == e0.len());
                        assert(expanded@.len() == e0.len() + 1);
                        assert(lv[k as int] == lines@[k as int]@);
                        assert(ev == f(lv[k as int]));
                        assert forall|x: int| 0 <= x < expanded@.len() implies #[trigger] crate::session::line_views(
                            expanded@,
                        )[x] == lv.take(k + 1).map_values(f)[x] by {
                            assert(crate::session::line_views(expanded@)[x] == expanded@[x]@);
                            assert(lv.take(k + 1).map_values(f)[x] == f(lv.take(k + 1)[x]));
                            assert(lv.take(k + 1)[x] == lv[x]);
                            if x < e0.len() {
                                assert(expanded@[x] == e0[x]);
                                assert(crate::session::line_views(e0)[x] == e0[x]@);
                                assert(crate::session::line_views(e0)[x] == lv.take(
                                    k as int,
                                ).map_values(f)[x]);
                                assert(lv.take(k as int).map_values(f)[x] == f(lv.take(
                                    k as int,
                                )[x]));
                                assert(lv.take(k as int)[x] == lv[x]);
                            } else {
                                assert(expanded@[x]@ == ev);
                            }
                        }
                        assert(crate::session::line_views(expanded@) =~= lv.take(k + 1).map_values(
                            f,
                        ));
                    }
                    k = k + 1;
                }
                proof {
                    assert(crate::session::line_views(lines@).take(
                        lines@.len() as int,
                    ) =~= crate::session::line_views(lines@));
                    assert(crate::session::line_views(expanded@) =~= expanded_lines(
                        texts,
                        old(self).pc as int,
                        j as int,
                        ctx.call_stack@,
                    ));
                }
                return Directive::RunBlock(expanded);
            }
            proof {
                assert(crate::session::line_views(lines@) =~= expanded_lines(
                    texts,
                    old(self).pc as int,
                    j as int,
                    ctx.call_stack@,
                ));
            }
            return Directive::RunBlock(lines);
        }
        let sn = ctx.call_stack.len();
        let expanded: Vec<char> = if sn > 0 {
            match &ctx.call_stack[sn - 1].args {
                Some(args) => expand_chars(&ln, args),
                None => ln,
            }
        } else {
            ln
        };
        let parts = split_composite_chars(&expanded);
        if parts.len() == 0 {
            self.pc = self.pc + 1;
            proof {
                assert(parts_model(parts@).len() == parts@.len());
            }
            return Directive::Working;
        }
        proof {
            assert(parts_model(parts@).len() == parts@.len());
            assert(parts_model(parts@)[0].0 == parts@[0].text@);
        }
        self.parts_idx = 0;
        let text = track_part(&parts[0].text, ctx);
        self.parts = parts;
        self.phase = Phase::AwaitParts;
        Directive::RunCommand(text)
    }
}

} // verus!