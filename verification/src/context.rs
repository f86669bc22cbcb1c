//! Shared debugger state: variables (global and per-frame locals), the
//! call stack, breakpoints, the run mode, and the stop policy.  The
//! shell session itself lives outside the library; commands reach it
//! as plain strings and come back as plain exit codes.

use vstd::prelude::*;

verus! {

use crate::breakpoints::Breakpoints;
use crate::text::{
    chars_of,
    chars_start_ci,
    contains_op_char,
    find_char,
    first_occurrence,
    has_op_char,
    spec_lower,
    spec_trim,
    spec_trim_start,
    starts_with_ci,
    string_from_chars,
    str_eq_chars,
    sub_chars,
    trim_chars,
    trim_start_chars,
};
use crate::vars::VarMap;

/// The debugger's stepping policy.
#[derive(Debug, Clone, Copy, PartialEq, Eq, Structural)]
pub enum RunMode {
    Continue,
    StepOver,
    StepInto,
    StepOut,
}

/// One activation of a labelled subroutine.
pub struct Frame {
    /// Logical index to resume at on return.
    pub return_pc: usize,
    /// Positional arguments `%1..%9`, when the CALL carried any.
    pub args: Option<Vec<String>>,
    /// Local variables, visible while `has_setlocal` holds.
    pub locals: VarMap,
    /// Whether SETLOCAL is active for this frame.
    pub has_setlocal: bool,
}

/// A frame is sound when its locals map is sound and locals exist only
/// under an active SETLOCAL.
pub open spec fn frame_wf(f: Frame) -> bool {
    f.locals.wf() && (!f.has_setlocal ==> f.locals.view_entries().len() == 0)
}

impl Frame {
    pub fn new(return_pc: usize, args: Option<Vec<String>>) -> (r: Frame)
        ensures
            r.return_pc == return_pc,
            r.args == args,
            r.locals.view_entries().len() == 0,
            !r.has_setlocal,
            frame_wf(r),
    {
        Frame { return_pc, args, locals: VarMap::new(), has_setlocal: false }
    }
}

/// Unwind one frame at end of input: pop it and resume at its return
/// program counter; signal termination on an empty stack.
pub fn leave_context(call_stack: &mut Vec<Frame>) -> (r: Option<usize>)
    ensures
        old(call_stack)@.len() == 0 ==> r is None && final(call_stack)@ == old(call_stack)@,
        old(call_stack)@.len() > 0 ==> r == Some(old(call_stack)@.last().return_pc)
            && final(call_stack)@ == old(call_stack)@.drop_last(),
{
    match call_stack.pop() {
        Some(frame) => Some(frame.return_pc),
        None => None,
    }
}

/// The assignment a `SET` command records, if the engine tracks it:
/// `SET name=value` (or the quoted form `SET "name=value"`), but not
/// `SET /A` arithmetic or `SET /P` prompts, and not names holding
/// arithmetic operator characters.
pub open spec fn spec_set_assignment(line: Seq<char>) -> Option<(Seq<char>, Seq<char>)> {
    let l = spec_trim_start(line);
    if !starts_with_ci(l, seq!['s', 'e', 't', ' ']) {
        None
    } else {
        let rest0 = spec_trim_start(l.skip(3));
        if starts_with_ci(rest0, seq!['/', 'a']) || starts_with_ci(rest0, seq!['/', 'p']) {
            None
        } else {
            let rest1 = spec_trim(rest0);
            let rest2 = if rest1.len() >= 2 && rest1[0] == '"' && rest1.last() == '"' {
                rest1.subrange(1, rest1.len() - 1)
            } else {
                rest1
            };
            let eq = first_occurrence(rest2, '=');
            if eq == rest2.len() {
                None
            } else {
                let key = spec_trim(rest2.take(eq));
                let val = spec_trim(rest2.skip(eq + 1));
                if key.len() > 0 && !has_op_char(key) {
                    Some((key, val))
                } else {
                    None
                }
            }
        }
    }
}

/// Program-counter-agnostic shared debugger state.
pub struct DebugContext {
    /// Global variables.
    pub variables: VarMap,
    /// Ordered frames, top (innermost) last.
    pub call_stack: Vec<Frame>,
    /// Exit code of the most recent leaf command.
    pub last_exit_code: i32,
    /// Breakpoints over logical line indices.
    pub breakpoints: Breakpoints,
    pub mode: RunMode,
    /// Depth captured when StepOut was entered.
    pub step_out_target_depth: usize,
    /// Set by the coordinator to resume a paused interpreter.
    pub continue_requested: bool,
    /// The logical line the interpreter is paused at, for reporting.
    pub current_line: Option<usize>,
}

impl DebugContext {
    /// Maps and frames are sound.
    pub open spec fn wf(&self) -> bool {
        &&& self.variables.wf()
        &&& forall|i: int|
            0 <= i < self.call_stack@.len() ==> frame_wf(#[trigger] self.call_stack@[i])
    }

    pub open spec fn spec_mode(&self) -> RunMode {
        self.mode
    }

    /// The stop policy: under `Continue` stop exactly on breakpoints;
    /// the stepping modes stop on every line (`StepOver` is refined by
    /// the interpreter's depth sidecar); `StepOut` stops once the
    /// stack has shrunk to the captured target depth.
    pub open spec fn spec_should_stop(&self, pc: int) -> bool {
        match self.spec_mode() {
            RunMode::Continue => self.breakpoints.spec_has(pc),
            RunMode::StepInto => true,
            RunMode::StepOver => true,
            RunMode::StepOut => self.call_stack@.len() <= self.step_out_target_depth,
        }
    }

    pub fn new() -> (r: DebugContext)
        ensures
            r.wf(),
            r.variables.view_entries().len() == 0,
            r.call_stack@.len() == 0,
            r.last_exit_code == 0,
            forall|line: int| !r.breakpoints.spec_has(line),
            r.spec_mode() == RunMode::Continue,
            r.step_out_target_depth == 0,
            !r.continue_requested,
            r.current_line is None,
    {
        DebugContext {
            variables: VarMap::new(),
            call_stack: Vec::new(),
            last_exit_code: 0,
            breakpoints: Breakpoints::new(),
            mode: RunMode::Continue,
            step_out_target_depth: 0,
            continue_requested: false,
            current_line: None,
        }
    }

    pub fn mode(&self) -> (r: RunMode)
        ensures
            r == self.spec_mode(),
    {
        self.mode
    }

    /// Assign the run mode; entering StepOut captures the target depth
    /// one below the current stack depth.
    pub fn set_mode(&mut self, mode: RunMode)
        ensures
            final(self).spec_mode() == mode,
            final(self).step_out_target_depth == if mode == RunMode::StepOut {
                if old(self).call_stack@.len() > 0 {
                    (old(self).call_stack@.len() - 1) as int
                } else {
                    0int
                }
            } else {
                old(self).step_out_target_depth as int
            },
            final(self).variables == old(self).variables,
            final(self).call_stack == old(self).call_stack,
            final(self).last_exit_code == old(self).last_exit_code,
            final(self).breakpoints == old(self).breakpoints,
            final(self).continue_requested == old(self).continue_requested,
            final(self).current_line == old(self).current_line,
    {
        self.mode = mode;
        if mode == RunMode::StepOut {
            let n = self.call_stack.len();
            self.step_out_target_depth = if n > 0 {
                n - 1
            } else {
                0
            };
        }
    }

    /// Configure the launch-time mode: stop on entry steps into the
    /// first line; otherwise run until a breakpoint.
    pub fn configure_launch(&mut self, stop_on_entry: bool)
        ensures
            final(self).spec_mode() == if stop_on_entry {
                RunMode::StepInto
            } else {
                RunMode::Continue
            },
            !final(self).continue_requested,
            final(self).variables == old(self).variables,
            final(self).call_stack == old(self).call_stack,
            final(self).last_exit_code == old(self).last_exit_code,
            final(self).breakpoints == old(self).breakpoints,
            final(self).step_out_target_depth == old(self).step_out_target_depth,
            final(self).current_line == old(self).current_line,
    {
        if stop_on_entry {
            self.set_mode(RunMode::StepInto);
        } else {
            self.set_mode(RunMode::Continue);
        }
        self.continue_requested = false;
    }

    /// Whether execution should pause at the given logical line.
    pub fn should_stop_at(&self, pc: usize) -> (r: bool)
        ensures
            r == self.spec_should_stop(pc as int),
    {
        match self.mode {
            RunMode::Continue => self.breakpoints.contains(pc),
            RunMode::StepOver => true,
            RunMode::StepInto => true,
            RunMode::StepOut => self.call_stack.len() <= self.step_out_target_depth,
        }
    }

    pub fn add_breakpoint(&mut self, logical_line: usize)
        ensures
            forall|line: int|
                final(self).breakpoints.spec_has(line) == (old(self).breakpoints.spec_has(line)
                    || line == logical_line as int),
            old(self).wf() ==> final(self).wf(),
            final(self).variables == old(self).variables,
            final(self).call_stack == old(self).call_stack,
            final(self).last_exit_code == old(self).last_exit_code,
            final(self).spec_mode() == old(self).spec_mode(),
            final(self).step_out_target_depth == old(self).step_out_target_depth,
            final(self).continue_requested == old(self).continue_requested,
            final(self).current_line == old(self).current_line,
    {
        self.breakpoints.add(logical_line);
    }

    pub fn remove_breakpoint(&mut self, logical_line: usize)
        ensures
            forall|line: int|
                final(self).breakpoints.spec_has(line) == (old(self).breakpoints.spec_has(line)
                    && line != logical_line as int),
            old(self).wf() ==> final(self).wf(),
            final(self).variables == old(self).variables,
            final(self).call_stack == old(self).call_stack,
            final(self).last_exit_code == old(self).last_exit_code,
            final(self).spec_mode() == old(self).spec_mode(),
            final(self).step_out_target_depth == old(self).step_out_target_depth,
            final(self).continue_requested == old(self).continue_requested,
            final(self).current_line == old(self).current_line,
    {
        self.breakpoints.remove(logical_line);
    }
}

/// Breakpoint parity under Continue: with the run mode `Continue`, the
/// lines the stop policy selects are exactly the breakpoint set.
pub proof fn lemma_breakpoint_parity(ctx: DebugContext, pc: int)
    requires
        ctx.spec_mode() == RunMode::Continue,
    ensures
        ctx.spec_should_stop(pc) <==> ctx.breakpoints.spec_has(pc),
{
}

impl DebugContext {
    /// SETLOCAL: open a local-variable scope on the topmost frame
    /// (no effect at top level).
    pub fn handle_setlocal(&mut self)
        requires
            old(self).wf(),
        ensures
            final(self).wf(),
            old(self).call_stack@.len() == 0 ==> final(self).call_stack@ == old(self).call_stack@ && final(self).variables == old(self).variables && final(self).last_exit_code == old(self).last_exit_code && final(self).breakpoints == old(self).breakpoints && final(self).spec_mode() == old(self).spec_mode() && final(self).step_out_target_depth == old(self).step_out_target_depth && final(self).continue_requested == old(self).continue_requested && final(self).current_line
                == old(self).current_line,
            old(self).call_stack@.len() > 0 ==> {
                let n = old(self).call_stack@.len();
                let top = old(self).call_stack@.last();
                &&& final(self).call_stack@.len() == n
                &&& final(self).call_stack@.last().has_setlocal
                &&& final(self).call_stack@.last().locals == top.locals
                &&& final(self).call_stack@.last().return_pc == top.return_pc
                &&& final(self).call_stack@.last().args == top.args
                &&& forall|i: int|
                    0 <= i < n - 1 ==> #[trigger] final(self).call_stack@[i] == old(self).call_stack@[i]
                &&& final(self).variables == old(self).variables
                &&& final(self).last_exit_code == old(self).last_exit_code
                &&& final(self).breakpoints == old(self).breakpoints
                &&& final(self).spec_mode() == old(self).spec_mode()
                &&& final(self).step_out_target_depth == old(self).step_out_target_depth
                &&& final(self).continue_requested == old(self).continue_requested
                &&& final(self).current_line == old(self).current_line
            },
    {
        match self.call_stack.pop() {
            Some(frame) => {
                let f = Frame {
                    return_pc: frame.return_pc,
                    args: frame.args,
                    locals: frame.locals,
                    has_setlocal: true,
                };
                self.call_stack.push(f);
                proof {
                    assert(frame_wf(f)) by {
                        assert(frame_wf(old(self).call_stack@.last()));
                    }
                    assert forall|i: int|
                        0 <= i < self.call_stack@.len() implies frame_wf(
                        #[trigger] self.call_stack@[i],
                    ) by {
                        if i < self.call_stack@.len() - 1 {
                            assert(self.call_stack@[i] == old(self).call_stack@[i]);
                            assert(frame_wf(old(self).call_stack@[i]));
                        }
                    }
                }
            },
            None => {
            },
        }
    }

    /// ENDLOCAL: close the topmost frame's local scope, discarding its
    /// locals (no effect at top level or without an active SETLOCAL).
    pub fn handle_endlocal(&mut self)
        requires
            old(self).wf(),
        ensures
            final(self).wf(),
            old(self).call_stack@.len() == 0 ==> final(self).call_stack@ == old(self).call_stack@ && final(self).variables == old(self).variables && final(self).last_exit_code == old(self).last_exit_code && final(self).breakpoints == old(self).breakpoints && final(self).spec_mode() == old(self).spec_mode() && final(self).step_out_target_depth == old(self).step_out_target_depth && final(self).continue_requested == old(self).continue_requested && final(self).current_line
                == old(self).current_line,
            old(self).call_stack@.len() > 0 ==> {
                let n = old(self).call_stack@.len();
                let top = old(self).call_stack@.last();
                &&& final(self).call_stack@.len() == n
                &&& !final(self).call_stack@.last().has_setlocal
                &&& final(self).call_stack@.last().locals.view_entries().len() == 0
                &&& (forall|key: Seq<char>|
                    #[trigger] final(self).call_stack@.last().locals.spec_get(key) is None)
                &&& final(self).call_stack@.last().return_pc == top.return_pc
                &&& final(self).call_stack@.last().args == top.args
                &&& forall|i: int|
                    0 <= i < n - 1 ==> #[trigger] final(self).call_stack@[i] == old(self).call_stack@[i]
                &&& final(self).variables == old(self).variables
                &&& final(self).last_exit_code == old(self).last_exit_code
                &&& final(self).breakpoints == old(self).breakpoints
                &&& final(self).spec_mode() == old(self).spec_mode()
                &&& final(self).step_out_target_depth == old(self).step_out_target_depth
                &&& final(self).continue_requested == old(self).continue_requested
                &&& final(self).current_line == old(self).current_line
            },
    {
        match self.call_stack.pop() {
            Some(frame) => {
                let mut locals = frame.locals;
                locals.clear();
                let f = Frame {
                    return_pc: frame.return_pc,
                    args: frame.args,
                    locals,
                    has_setlocal: false,
                };
                self.call_stack.push(f);
                proof {
                    assert forall|i: int|
                        0 <= i < self.call_stack@.len() implies frame_wf(
                        #[trigger] self.call_stack@[i],
                    ) by {
                        if i < self.call_stack@.len() - 1 {
                            assert(self.call_stack@[i] == old(self).call_stack@[i]);
                            assert(frame_wf(old(self).call_stack@[i]));
                        }
                    }
                }
            },
            None => {
            },
        }
    }

    /// The binding a name has in the current scope: the topmost
    /// frame's locals (under an active SETLOCAL) shadow the globals.
    pub open spec fn spec_visible(&self, key: Seq<char>) -> Option<Seq<char>> {
        if self.call_stack@.len() > 0 && self.call_stack@.last().has_setlocal
            && self.call_stack@.last().locals.spec_get(key) is Some {
            self.call_stack@.last().locals.spec_get(key)
        } else {
            self.variables.spec_get(key)
        }
    }

    /// All variables visible in the current scope: the globals overlaid
    /// by the topmost frame's locals when its SETLOCAL is active.
    pub fn get_visible_variables(&self) -> (r: VarMap)
        requires
            self.wf(),
        ensures
            r.wf(),
            forall|key: Seq<char>| #[trigger] r.spec_get(key) == self.spec_visible(key),
    {
        if self.call_stack.len() > 0 {
            let top = &self.call_stack[self.call_stack.len() - 1];
            proof {
                assert(frame_wf(self.call_stack@.last()));
            }
            if top.has_setlocal {
                return self.variables.overlay(&top.locals);
            }
        }
        let r = self.variables.duplicate();
        proof {
            assert(r.view_entries() == self.variables.view_entries());
        }
        r
    }

    /// The locals of stack frame `i`, when its SETLOCAL is active;
    /// empty otherwise.
    pub fn get_frame_variables(&self, frame_index: usize) -> (r: VarMap)
        requires
            self.wf(),
        ensures
            r.wf(),
            forall|key: Seq<char>|
                #[trigger] r.spec_get(key) == if frame_index < self.call_stack@.len()
                    && self.call_stack@[frame_index as int].has_setlocal {
                    self.call_stack@[frame_index as int].locals.spec_get(key)
                } else {
                    None
                },
    {
        if frame_index < self.call_stack.len() {
            let f = &self.call_stack[frame_index];
            proof {
                assert(frame_wf(self.call_stack@[frame_index as int]));
            }
            if f.has_setlocal {
                let r = f.locals.duplicate();
                proof {
                    assert(r.view_entries() == f.locals.view_entries());
                }
                return r;
            }
        }
        VarMap::new()
    }

    /// Track a `SET name=value` command in the scope it binds: the
    /// topmost frame's locals under an active SETLOCAL, the globals
    /// otherwise.  `SET /A`, `SET /P` and names holding arithmetic
    /// operators are not tracked.
    pub fn track_set_command(&mut self, line: &str)
        requires
            old(self).wf(),
        ensures
            final(self).wf(),
            ({
                match spec_set_assignment(line@) {
                    None => *final(self) == *old(self),
                    Some((key, val)) => {
                        let lk = spec_lower(key);
                        let n = old(self).call_stack@.len();
                        if n > 0 && old(self).call_stack@.last().has_setlocal {
                            let top = old(self).call_stack@.last();
                            &&& final(self).variables == old(self).variables
                            &&& final(self).call_stack@.len() == n
                            &&& final(self).call_stack@.last().locals.spec_get(lk) == Some(val)
                            &&& (forall|k: Seq<char>|
                                k != lk ==> #[trigger] final(self).call_stack@.last().locals.spec_get(k) == top.locals.spec_get(
                                    k,
                                ))
                            &&& final(self).call_stack@.last().has_setlocal
                            &&& final(self).call_stack@.last().return_pc == top.return_pc
                            &&& final(self).call_stack@.last().args == top.args
                            &&& (forall|i: int|
                                0 <= i < n - 1 ==> #[trigger] final(self).call_stack@[i] == old(self).call_stack@[i])
                            &&& final(self).last_exit_code == old(self).last_exit_code
                            &&& final(self).breakpoints == old(self).breakpoints
                            &&& final(self).spec_mode() == old(self).spec_mode()
                            &&& final(self).step_out_target_depth == old(self).step_out_target_depth
                            &&& final(self).continue_requested == old(self).continue_requested
                            &&& final(self).current_line == old(self).current_line
                        } else {
                            &&& final(self).variables.spec_get(lk) == Some(val)
                            &&& (forall|k: Seq<char>|
                                k != lk ==> #[trigger] final(self).variables.spec_get(k) == old(self).variables.spec_get(k))
                            &&& final(self).call_stack == old(self).call_stack
                            &&& final(self).last_exit_code == old(self).last_exit_code
                            &&& final(self).breakpoints == old(self).breakpoints
                            &&& final(self).spec_mode() == old(self).spec_mode()
                            &&& final(self).step_out_target_depth == old(self).step_out_target_depth
                            &&& final(self).continue_requested == old(self).continue_requested
                            &&& final(self).current_line == old(self).current_line
                        }
                    },
                }
            }),
    {
        let cs = chars_of(line);
        let l = trim_start_chars(&cs);
        let mut set_pat: Vec<char> = Vec::new();
        set_pat.push('s');
        set_pat.push('e');
        set_pat.push('t');
        set_pat.push(' ');
        proof {
            assert(set_pat@ =~= seq!['s', 'e', 't', ' ']);
        }
        if !chars_start_ci(&l, &set_pat) {
            return ;
        }
        let after = sub_chars(&l, 3, l.len());
        proof {
            assert(after@ =~= l@.skip(3));
        }
        let rest0 = trim_start_chars(&after);
        let mut slash_a: Vec<char> = Vec::new();
        slash_a.push('/');
        slash_a.push('a');
        proof {
            assert(slash_a@ =~= seq!['/', 'a']);
        }
        if chars_start_ci(&rest0, &slash_a) {
            return ;
        }
        let mut slash_p: Vec<char> = Vec::new();
        slash_p.push('/');
        slash_p.push('p');
        proof {
            assert(slash_p@ =~= seq!['/', 'p']);
        }
        if chars_start_ci(&rest0, &slash_p) {
            return ;
        }
        let rest1 = trim_chars(&rest0);
        let rest2 = if rest1.len() >= 2 && rest1[0] == '"' && rest1[rest1.len() - 1] == '"' {
            let inner = sub_chars(&rest1, 1, rest1.len() - 1);
            inner
        } else {
            sub_chars(&rest1, 0, rest1.len())
        };
        proof {
            let r1 = rest1@;
            if r1.len() >= 2 && r1[0] == '"' && r1.last() == '"' {
                assert(rest2@ =~= r1.subrange(1, r1.len() - 1));
            } else {
                assert(rest2@ =~= r1);
            }
        }
        let eq = find_char(&rest2, '=');
        if eq == rest2.len() {
            return ;
        }
        proof {
            crate::text::lemma_first_occurrence(rest2@, '=');
        }
        let key_part = sub_chars(&rest2, 0, eq);
        proof {
            assert(key_part@ =~= rest2@.take(eq as int));
        }
        let key = trim_chars(&key_part);
        let val_part = sub_chars(&rest2, eq + 1, rest2.len());
        proof {
            assert(val_part@ =~= rest2@.skip(eq + 1));
        }
        let val = trim_chars(&val_part);
        if key.len() == 0 || contains_op_char(&key) {
            return ;
        }
        let key_s = string_from_chars(&key);
        let val_s = string_from_chars(&val);
        let n = self.call_stack.len();
        if n > 0 {
            proof {
                assert(frame_wf(self.call_stack@.last()));
            }
            if self.call_stack[n - 1].has_setlocal {
                match self.call_stack.pop() {
                    Some(frame) => {
                        let mut locals = frame.locals;
                        locals.insert(key_s, val_s);
                        let f = Frame {
                            return_pc: frame.return_pc,
                            args: frame.args,
                            locals,
                            has_setlocal: frame.has_setlocal,
                        };
                        self.call_stack.push(f);
                        proof {
                            assert forall|i: int|
                                0 <= i < self.call_stack@.len() implies frame_wf(
                                #[trigger] self.call_stack@[i],
                            ) by {
                                if i < self.call_stack@.len() - 1 {
                                    assert(self.call_stack@[i] == old(self).call_stack@[i]);
                                    assert(frame_wf(old(self).call_stack@[i]));
                                }
                            }
                        }
                    },
                    None => {
                    },
                }
                return ;
            }
        }
        self.variables.insert(key_s, val_s);
    }

    /// Map an editor step command to a run mode: `continue`, `next` /
    /// `stepOver`, `stepIn` / `stepInto`, `stepOut` (which captures the
    /// step-out target depth); anything else leaves the state alone.
    pub fn handle_step_command(&mut self, step_type: &str)
        requires
            old(self).wf(),
        ensures
            final(self).wf(),
            final(self).variables == old(self).variables,
            final(self).call_stack == old(self).call_stack,
            final(self).last_exit_code == old(self).last_exit_code,
            final(self).breakpoints == old(self).breakpoints,
            final(self).continue_requested == old(self).continue_requested,
            final(self).current_line == old(self).current_line,
            final(self).spec_mode() == if step_type@ == "continue"@ {
                RunMode::Continue
            } else if step_type@ == "next"@ || step_type@ == "stepOver"@ {
                RunMode::StepOver
            } else if step_type@ == "stepIn"@ || step_type@ == "stepInto"@ {
                RunMode::StepInto
            } else if step_type@ == "stepOut"@ {
                RunMode::StepOut
            } else {
                old(self).spec_mode()
            },
            final(self).step_out_target_depth == if step_type@ == "stepOut"@ {
                if old(self).call_stack@.len() > 0 {
                    (old(self).call_stack@.len() - 1) as int
                } else {
                    0int
                }
            } else {
                old(self).step_out_target_depth as int
            },
    {
        proof {
            reveal_strlit("continue");
            reveal_strlit("next");
            reveal_strlit("stepOver");
            reveal_strlit("stepIn");
            reveal_strlit("stepInto");
            reveal_strlit("stepOut");
        }
        proof {
            assert("continue"@.len() == 8);
            assert("next"@.len() == 4);
            assert("stepOver"@.len() == 8);
            assert("stepIn"@.len() == 6);
            assert("stepInto"@.len() == 8);
            assert("stepOut"@.len() == 7);
            assert("stepOver"@[4] == 'O' && "stepInto"@[4] == 'I' && "continue"@[0] == 'c'
                && "stepOver"@[0] == 's' && "stepInto"@[0] == 's');
            assert("continue"@ != "stepInto"@ && "stepOver"@ != "stepInto"@);
        }
        let t = chars_of(step_type);
        if str_eq_chars("continue", &t) {
            self.set_mode(RunMode::Continue);
        } else if str_eq_chars("next", &t) || str_eq_chars("stepOver", &t) {
            self.set_mode(RunMode::StepOver);
        } else if str_eq_chars("stepIn", &t) || str_eq_chars("stepInto", &t) {
            self.set_mode(RunMode::StepInto);
        } else if str_eq_chars("stepOut", &t) {
            self.set_mode(RunMode::StepOut);
        }
    }
}

/// The SETLOCAL / ENDLOCAL law.  Take a context whose topmost frame
/// has no active scope; let SETLOCAL open one and let any number of
/// tracked `SET` commands write into that frame's locals (`mid` is the
/// state then: same globals, same outer frames, the top frame holding
/// arbitrary locals under its active SETLOCAL).  After ENDLOCAL
/// (`after`), every name answers exactly as before SETLOCAL, and the
/// globals are untouched.
pub proof fn lemma_setlocal_endlocal(before: DebugContext, mid: DebugContext, after: DebugContext)
    requires
        before.wf(),
        before.call_stack@.len() > 0,
        !before.call_stack@.last().has_setlocal,
        // `mid`: after SETLOCAL plus local writes — globals and outer
        // frames as in `before`, top frame's scope active.
        mid.variables == before.variables,
        mid.call_stack@.len() == before.call_stack@.len(),
        mid.call_stack@.last().has_setlocal,
        // `after`: what ENDLOCAL makes of `mid`.
        after.variables == mid.variables,
        after.call_stack@.len() == mid.call_stack@.len(),
        !after.call_stack@.last().has_setlocal,
        forall|key: Seq<char>| #[trigger] after.call_stack@.last().locals.spec_get(key) is None,
    ensures
        forall|key: Seq<char>| #[trigger] after.spec_visible(key) == before.spec_visible(key),
        after.variables == before.variables,
{
    assert forall|key: Seq<char>| #[trigger] after.spec_visible(key) == before.spec_visible(
        key,
    ) by {
        assert(frame_wf(before.call_stack@.last()));
    }
}

} // verus!