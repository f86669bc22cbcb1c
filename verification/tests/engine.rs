use batch_debugger::commands::{split_composite_command, CommandOp};
use batch_debugger::context::{DebugContext, RunMode};
use batch_debugger::dap::{classify_request, map_breakpoints, parse_content_length, DapRequest};
use batch_debugger::interp::{
    expand_positional_args, prepare_program, Directive, Interpreter, StopReason,
};
use batch_debugger::session::{block_script, check_sentinel, collect_until_sentinel, wrap_command};

fn to_lines(content: &str) -> Vec<String> {
    content.lines().map(|l| l.to_string()).collect()
}

/// Everything one driven run records.
struct RunLog {
    stops: Vec<(usize, StopReason)>,
    issued: Vec<String>,
    output: String,
    final_code: i32,
    codes_at_stop: Vec<i32>,
    depths_at_stop: Vec<usize>,
    unknown_label: Option<String>,
}

/// Drive the interpreter over a script with a canned shell: `respond`
/// answers each issued command with (output, exit code).  `on_stop`
/// picks the run mode to resume with.
fn drive(
    script: &str,
    breakpoints: &[usize],
    stop_on_entry: bool,
    mut respond: impl FnMut(&str) -> (String, i32),
    mut on_stop: impl FnMut(usize, &DebugContext) -> RunMode,
) -> RunLog {
    let physical = to_lines(script);
    let (pre, labels) = prepare_program(&physical);
    let mut ctx = DebugContext::new();
    ctx.configure_launch(stop_on_entry);
    for &bp in breakpoints {
        ctx.add_breakpoint(bp);
    }
    let mut interp = Interpreter::new(false, stop_on_entry);
    let mut log = RunLog {
        stops: Vec::new(),
        issued: Vec::new(),
        output: String::new(),
        final_code: 0,
        codes_at_stop: Vec::new(),
        depths_at_stop: Vec::new(),
        unknown_label: None,
    };
    let mut pending: Option<Directive> = None;
    let mut rounds = 0;
    loop {
        rounds += 1;
        assert!(rounds < 10_000, "runaway script");
        let d = match pending.take() {
            Some(d) => d,
            None => interp.step(&mut ctx, &pre, &labels),
        };
        match d {
            Directive::Working => {}
            Directive::Terminated => break,
            Directive::UnknownLabel(l) => {
                log.unknown_label = Some(l);
                break;
            }
            Directive::Stopped(reason) => {
                log.stops.push((interp.pc, reason));
                log.codes_at_stop.push(ctx.last_exit_code);
                log.depths_at_stop.push(ctx.call_stack.len());
                let mode = on_stop(interp.pc, &ctx);
                ctx.set_mode(mode);
                ctx.continue_requested = true;
                interp.resume(&ctx);
            }
            Directive::RunCommand(cmd) => {
                log.issued.push(cmd.clone());
                let (out, code) = respond(&cmd);
                log.output.push_str(&out);
                pending = Some(interp.command_done(&mut ctx, code));
            }
            Directive::RunBlock(lines) => {
                let joined = lines.join("\n");
                log.issued.push(joined.clone());
                let (out, code) = respond(&joined);
                log.output.push_str(&out);
                pending = Some(interp.command_done(&mut ctx, code));
            }
            Directive::AwaitKey => {
                interp.key_pressed();
            }
        }
    }
    log.final_code = ctx.last_exit_code;
    log
}

/// A plain shell stand-in: echoes expand to themselves, with one
/// variable substituted; everything succeeds.
fn plain_shell(cmd: &str) -> (String, i32) {
    if cmd.starts_with("echo ") {
        let text = &cmd[5..];
        let substituted = text.replace("%NAME%", "Alice");
        (format!("{}\n", substituted), 0)
    } else {
        (String::new(), 0)
    }
}

#[test]
fn basic_script_runs_to_completion() {
    let log = drive(
        "@echo off\necho Hello %NAME%\nexit /b 0\n",
        &[],
        false,
        plain_shell,
        |_, _| RunMode::Continue,
    );
    assert!(log.output.contains("Hello Alice"));
    assert_eq!(log.final_code, 0);
    assert!(log.unknown_label.is_none());
    assert!(log.stops.is_empty());
}

#[test]
fn label_continuation_three_logical_lines() {
    let physical = to_lines("@echo off\necho This is a ^\ncontinued line\nexit /b 0\n");
    let (pre, _labels) = prepare_program(&physical);
    assert_eq!(pre.logical.len(), 3);
    assert_eq!(pre.logical[1].text, "echo This is a  continued line");
    assert_eq!(pre.phys_to_logical, vec![0, 1, 1, 2]);
}

#[test]
fn splitter_composite_operators() {
    let parts = split_composite_command("echo A & echo B && echo C");
    assert_eq!(parts.len(), 3);
    assert_eq!(parts[0].text, "echo A");
    assert_eq!(parts[0].op, Some(CommandOp::Unconditional));
    assert_eq!(parts[1].text, "echo B");
    assert_eq!(parts[1].op, Some(CommandOp::And));
    assert_eq!(parts[2].text, "echo C");
    assert_eq!(parts[2].op, None);
}

#[test]
fn splitter_keeps_pipes_and_quotes() {
    let parts = split_composite_command("type file | find \"a & b\"");
    assert_eq!(parts.len(), 1);
    assert_eq!(parts[0].text, "type file | find \"a & b\"");
}

#[test]
fn call_and_return_under_step_into() {
    // Stops walk into the subroutine and back; the exit code of the
    // subroutine's EXIT /B is visible at the stop after the return.
    let script = "call :sub\nexit /b 0\n:sub\necho in\nexit /b 7\n";
    let log = drive(script, &[], true, plain_shell, |_, _| RunMode::StepInto);
    let stop_pcs: Vec<usize> = log.stops.iter().map(|s| s.0).collect();
    assert_eq!(stop_pcs, vec![0, 3, 4, 1]);
    assert_eq!(log.stops[0].1, StopReason::Entry);
    assert_eq!(log.stops[1].1, StopReason::Step);
    // At the stop after returning, the subroutine's exit code is live.
    assert_eq!(log.codes_at_stop[3], 7);
    assert_eq!(log.final_code, 0);
}

#[test]
fn breakpoints_stop_exactly_where_set() {
    let script = "echo a\necho b\necho c\necho d\necho e\necho f\nexit /b 0\n";
    let log = drive(script, &[2, 4], false, plain_shell, |_, _| RunMode::Continue);
    let stop_pcs: Vec<usize> = log.stops.iter().map(|s| s.0).collect();
    assert_eq!(stop_pcs, vec![2, 4]);
    assert_eq!(log.stops[0].1, StopReason::Breakpoint);
    assert_eq!(log.stops[1].1, StopReason::Breakpoint);
}

#[test]
fn step_out_resumes_to_outer_frame() {
    let script = "call :level1\nexit /b 0\n:level1\ncall :level2\nexit /b 0\n:level2\ncall :level3\nexit /b 0\n:level3\necho deepest\nexit /b 0\n";
    // Step into everything until the stack holds three frames, then
    // issue StepOut once and record the depth at the following stop.
    let mut issued_step_out = false;
    let mut depth_after_step_out: Option<usize> = None;
    let log = drive(
        script,
        &[],
        true,
        plain_shell,
        |_, ctx| {
            if issued_step_out && depth_after_step_out.is_none() {
                depth_after_step_out = Some(ctx.call_stack.len());
            }
            if ctx.call_stack.len() == 3 && !issued_step_out {
                issued_step_out = true;
                RunMode::StepOut
            } else {
                RunMode::StepInto
            }
        },
    );
    assert!(issued_step_out, "three nested calls should be reached");
    let depth = depth_after_step_out.expect("a stop should follow StepOut");
    assert!(depth <= 2, "StepOut must resume until the stack shrank");
    assert_eq!(log.final_code, 0);
}

#[test]
fn composite_and_short_circuits() {
    // With `&&`, the second part runs only when the first succeeded.
    let script = "fail && echo yes\nexit /b 0\n";
    let log = drive(
        script,
        &[],
        false,
        |cmd| {
            if cmd == "fail" {
                (String::new(), 1)
            } else {
                plain_shell(cmd)
            }
        },
        |_, _| RunMode::Continue,
    );
    assert_eq!(log.issued, vec!["fail".to_string()]);
    assert!(!log.output.contains("yes"));
}

#[test]
fn composite_or_runs_on_failure() {
    let script = "fail || echo recovered\nexit /b 0\n";
    let log = drive(
        script,
        &[],
        false,
        |cmd| {
            if cmd == "fail" {
                (String::new(), 1)
            } else {
                plain_shell(cmd)
            }
        },
        |_, _| RunMode::Continue,
    );
    assert!(log.output.contains("recovered"));
}

#[test]
fn composite_or_skipped_on_success() {
    let script = "echo first || echo fallback\nexit /b 0\n";
    let log = drive(script, &[], false, plain_shell, |_, _| RunMode::Continue);
    assert!(log.output.contains("first"));
    assert!(!log.output.contains("fallback"));
}

#[test]
fn call_arguments_come_from_shell_words() {
    // The CALL tail is split like shell words: quotes group, and are
    // not part of the stored argument.
    let script = "call :sub first \"two words\"\nexit /b 0\n:sub\necho %1 %2\nexit /b 0\n";
    let physical = to_lines(script);
    let (pre, labels) = prepare_program(&physical);
    let mut ctx = DebugContext::new();
    ctx.configure_launch(false);
    let mut interp = Interpreter::new(false, false);
    // First step performs the CALL and pushes the frame.
    match interp.step(&mut ctx, &pre, &labels) {
        Directive::Working => {}
        _ => panic!("CALL should be an internal transition"),
    }
    assert_eq!(ctx.call_stack.len(), 1);
    assert_eq!(ctx.call_stack[0].return_pc, 1);
    assert_eq!(
        ctx.call_stack[0].args,
        Some(vec!["first".to_string(), "two words".to_string()])
    );
}

#[test]
fn positional_arguments_expand_in_called_lines() {
    let script = "call :sub first \"two words\"\nexit /b 0\n:sub\necho %1,%~2\nexit /b 0\n";
    let log = drive(script, &[], false, plain_shell, |_, _| RunMode::Continue);
    assert!(log.issued.contains(&"echo first,two words".to_string()));
}

#[test]
fn unknown_call_label_is_fatal() {
    let script = "call :nowhere\nexit /b 0\n";
    let log = drive(script, &[], false, plain_shell, |_, _| RunMode::Continue);
    assert_eq!(log.unknown_label, Some("nowhere".to_string()));
}

#[test]
fn goto_jumps_and_goto_eof_returns() {
    let script = "goto :part\necho skipped\n:part\necho reached\ngoto :eof\n";
    let log = drive(script, &[], false, plain_shell, |_, _| RunMode::Continue);
    assert!(log.output.contains("reached"));
    assert!(!log.output.contains("skipped"));
    assert!(log.unknown_label.is_none());
}

#[test]
fn exit_b_default_code_is_zero() {
    let script = "set ERR=1\nexit /b\n";
    let log = drive(script, &[], false, plain_shell, |_, _| RunMode::Continue);
    assert_eq!(log.final_code, 0);
}

#[test]
fn blocks_are_collected_whole() {
    let script = "if 1==1 (\necho inside\n)\nexit /b 0\n";
    let log = drive(script, &[], false, plain_shell, |_, _| RunMode::Continue);
    assert_eq!(log.issued.len(), 1);
    assert_eq!(log.issued[0], "if 1==1 (\necho inside\n)");
}

#[test]
fn setlocal_variables_vanish_after_endlocal() {
    let script = "call :sub\nexit /b 0\n:sub\nsetlocal\nset INNER=x\nendlocal\nexit /b 0\n";
    let physical = to_lines(script);
    let (pre, labels) = prepare_program(&physical);
    let mut ctx = DebugContext::new();
    ctx.configure_launch(false);
    ctx.track_set_command("set OUTER=kept");
    let mut interp = Interpreter::new(false, false);
    let mut pending: Option<Directive> = None;
    let mut saw_inner = false;
    let mut rounds = 0;
    loop {
        rounds += 1;
        assert!(rounds < 1000);
        let d = match pending.take() {
            Some(d) => d,
            None => interp.step(&mut ctx, &pre, &labels),
        };
        match d {
            Directive::Working => {}
            Directive::Terminated => break,
            Directive::RunCommand(_) => {
                if ctx.get_visible_variables().contains_key("INNER") {
                    saw_inner = true;
                }
                pending = Some(interp.command_done(&mut ctx, 0));
            }
            _ => panic!("unexpected directive"),
        }
    }
    assert!(saw_inner, "the local must be visible inside the scope");
    let after = ctx.get_visible_variables();
    assert_eq!(after.get("OUTER"), Some(&"kept".to_string()));
    assert!(!after.contains_key("INNER"));
}

#[test]
fn sentinel_line_carries_exit_code() {
    assert_eq!(check_sentinel("__CMD_DONE__ 7\r\n"), Some(7));
    assert_eq!(check_sentinel("__CMD_DONE__ -3"), Some(-3));
    assert_eq!(check_sentinel("  __CMD_DONE__ 0"), Some(0));
    assert_eq!(check_sentinel("__CMD_DONE__ garbage"), Some(0));
    assert_eq!(check_sentinel("ordinary output"), None);
}

#[test]
fn session_consumes_exactly_one_sentinel() {
    let lines: Vec<String> = vec![
        "first\n".to_string(),
        "second\n".to_string(),
        "__CMD_DONE__ 5\n".to_string(),
        "__CMD_DONE__ 9\n".to_string(),
    ];
    let sr = collect_until_sentinel(&lines).expect("sentinel present");
    assert_eq!(sr.consumed, 3);
    assert_eq!(sr.exit_code, 5);
    assert_eq!(sr.output, "first\nsecond\n");

    let no_sentinel: Vec<String> = vec!["only output\n".to_string()];
    assert!(collect_until_sentinel(&no_sentinel).is_none());
}

#[test]
fn wrapped_command_frames_one_sentinel() {
    let w = wrap_command("dir");
    assert_eq!(w, "dir 2>&1 & echo __CMD_DONE__ !ERRORLEVEL!\r\n");
}

#[test]
fn block_script_preserves_line_boundaries() {
    let lines = vec!["if 1==1 (".to_string(), "echo x".to_string(), ")".to_string()];
    let body = block_script(&lines);
    assert_eq!(body, "@echo off\r\nif 1==1 (\r\necho x\r\n)\r\n");
}

#[test]
fn positional_expansion_strips_quotes_for_tilde() {
    let args = vec!["\"quoted\"".to_string(), "plain".to_string()];
    assert_eq!(expand_positional_args("%~1 %1 %2", &args), "quoted \"quoted\" plain");
    assert_eq!(expand_positional_args("%3", &args), "");
    // Higher numbers are replaced first: %10 reads as %1 then 0.
    let one = vec!["a".to_string()];
    assert_eq!(expand_positional_args("%10", &one), "a0");
}

#[test]
fn content_length_header_parses() {
    assert_eq!(parse_content_length("Content-Length: 42\r"), Some(42));
    assert_eq!(parse_content_length("Content-Length:0"), Some(0));
    assert_eq!(parse_content_length("Content-Type: json"), None);
    assert_eq!(parse_content_length("Content-Length: x"), None);
}

#[test]
fn request_names_classify() {
    assert_eq!(classify_request("initialize"), DapRequest::Initialize);
    assert_eq!(classify_request("launch"), DapRequest::Launch);
    assert_eq!(classify_request("attach"), DapRequest::Launch);
    assert_eq!(classify_request("setBreakpoints"), DapRequest::SetBreakpoints);
    assert_eq!(classify_request("stackTrace"), DapRequest::StackTrace);
    assert_eq!(classify_request("continue"), DapRequest::ContinueRun);
    assert_eq!(classify_request("stepOut"), DapRequest::StepOut);
    assert_eq!(classify_request("nonsense"), DapRequest::Unknown);
}

#[test]
fn breakpoint_requests_map_through_physical_lines() {
    let physical = to_lines("@echo off\necho one ^\njoined\necho two\n");
    let (pre, _labels) = prepare_program(&physical);
    // 1-based physical lines 2 and 3 both live on logical line 1.
    let (logical, verified) = map_breakpoints(&pre, &vec![2, 3, 99]);
    assert_eq!(verified, vec![2, 3]);
    assert_eq!(logical, vec![1, 1]);

    // Exactly one confirmation per in-range request, in request order:
    // repeats stay, out-of-range lines leave no record.
    let (logical2, verified2) = map_breakpoints(&pre, &vec![2, 2, 99, 3, 1]);
    assert_eq!(verified2, vec![2, 2, 3, 1]);
    assert_eq!(logical2, vec![1, 1, 1, 0]);

    // An all-in-range request is confirmed unchanged.
    let (_, verified3) = map_breakpoints(&pre, &vec![4, 1, 2]);
    assert_eq!(verified3, vec![4, 1, 2]);
}

#[test]
fn unbalanced_script_still_preprocesses() {
    let physical = to_lines("if 1==1 (\necho never closed\n");
    let (pre, _labels) = prepare_program(&physical);
    assert_eq!(pre.logical.len(), 2);
    assert_eq!(pre.logical[0].group_depth, 0);
    assert_eq!(pre.logical[1].group_depth, 1);
}

#[test]
fn trailing_caret_on_last_line_is_kept() {
    let physical = to_lines("echo a ^");
    let (pre, _labels) = prepare_program(&physical);
    assert_eq!(pre.logical.len(), 1);
    assert_eq!(pre.logical[0].phys_start, 0);
    assert_eq!(pre.logical[0].phys_end, 0);
    assert_eq!(pre.logical[0].text, "echo a ");
}

#[test]
fn even_caret_run_is_literal() {
    let physical = to_lines("echo a ^^\necho b\n");
    let (pre, _labels) = prepare_program(&physical);
    assert_eq!(pre.logical.len(), 2);
    assert_eq!(pre.logical[0].text, "echo a ^^");
}

#[test]
fn pause_passes_through_in_adapter_mode() {
    // Outside interactive mode, PAUSE goes to the shell like any
    // other leaf command.
    let script = "pause\nexit /b 0\n";
    let log = drive(script, &[], false, plain_shell, |_, _| RunMode::Continue);
    assert_eq!(log.issued[0], "pause");
}

#[test]
fn step_over_does_not_stop_inside_calls() {
    let script = "call :sub\necho after\nexit /b 0\n:sub\necho in\nexit /b 0\n";
    let log = drive(script, &[], true, plain_shell, |_, _| RunMode::StepOver);
    let stop_pcs: Vec<usize> = log.stops.iter().map(|s| s.0).collect();
    // Entry at the CALL, then the line after it, then EXIT /B; never
    // a stop inside the subroutine (logical lines 4 and 5).
    assert!(stop_pcs.contains(&0));
    assert!(stop_pcs.contains(&1));
    assert!(!stop_pcs.contains(&4));
    assert!(!stop_pcs.contains(&5));
}

#[test]
fn step_commands_map_to_modes() {
    let mut ctx = DebugContext::new();
    ctx.call_stack.push(batch_debugger::context::Frame::new(3, None));
    ctx.call_stack.push(batch_debugger::context::Frame::new(7, None));

    ctx.handle_step_command("stepOver");
    assert_eq!(ctx.mode(), RunMode::StepOver);
    ctx.handle_step_command("stepOut");
    assert_eq!(ctx.mode(), RunMode::StepOut);
    assert_eq!(ctx.step_out_target_depth, 1);
    ctx.handle_step_command("continue");
    assert_eq!(ctx.mode(), RunMode::Continue);
    ctx.handle_step_command("gibberish");
    assert_eq!(ctx.mode(), RunMode::Continue, "unknown commands change nothing");
}

#[test]
fn breakpoints_can_be_removed_and_cleared() {
    let mut bps = batch_debugger::breakpoints::Breakpoints::new();
    bps.add(3);
    bps.add(9);
    assert!(bps.contains(3));
    bps.remove(3);
    assert!(!bps.contains(3));
    assert!(bps.contains(9));
    bps.clear();
    assert!(!bps.contains(9));
}

#[test]
fn script_without_carets_maps_one_to_one() {
    let physical = to_lines("echo a\necho b\necho c\n");
    let (pre, _labels) = prepare_program(&physical);
    assert_eq!(pre.logical.len(), 3);
    for (i, l) in pre.logical.iter().enumerate() {
        assert_eq!(l.phys_start, i);
        assert_eq!(l.phys_end, i);
        assert_eq!(&l.text, &physical[i]);
    }
    assert_eq!(pre.phys_to_logical, vec![0, 1, 2]);
}

#[test]
fn frame_variables_need_an_active_scope() {
    let mut ctx = DebugContext::new();
    ctx.call_stack.push(batch_debugger::context::Frame::new(5, None));
    ctx.handle_setlocal();
    ctx.track_set_command("set DEPTH=one");

    let with_scope = ctx.get_frame_variables(0);
    assert_eq!(with_scope.get("DEPTH"), Some(&"one".to_string()));

    ctx.handle_endlocal();
    let without_scope = ctx.get_frame_variables(0);
    assert!(without_scope.is_empty());
    assert!(ctx.get_frame_variables(9).is_empty());
}

#[test]
fn variable_names_match_any_case() {
    let mut ctx = DebugContext::new();
    ctx.track_set_command("set Colour=blue");
    assert_eq!(ctx.variables.get("COLOUR"), Some(&"blue".to_string()));
    ctx.track_set_command("set COLOUR=red");
    assert_eq!(ctx.variables.get("colour"), Some(&"red".to_string()));
    assert_eq!(ctx.variables.len(), 1, "one binding under one name");
}
