use batch_debugger::context::{DebugContext, Frame, RunMode};
use batch_debugger::labels::build_label_map;
use batch_debugger::preprocess::preprocess_lines;

fn to_lines(content: &str) -> Vec<String> {
    content.lines().map(|l| l.to_string()).collect()
}

#[test]
fn test_step_into_simulation() {
    let content = "@echo off\necho Line 1\necho Line 2\ncall :sub\necho Line 4\nexit /b 0\n\n:sub\necho In subroutine\nexit /b 0\n";
    let physical_lines = to_lines(content);

    let pre = preprocess_lines(&physical_lines);
    let labels = build_label_map(&physical_lines);
    assert!(pre.logical.len() > 0);
    assert!(labels.contains_key("sub"));

    let mut ctx = DebugContext::new();
    ctx.set_mode(RunMode::StepInto);

    assert_eq!(ctx.mode(), RunMode::StepInto);
}

#[test]
fn test_step_over_behavior() {
    let content = "@echo off\necho Before call\ncall :subroutine\necho After call\nexit /b 0\n\n:subroutine\necho In sub\nexit /b 0\n";
    let physical_lines = to_lines(content);

    let pre = preprocess_lines(&physical_lines);
    assert!(pre.logical.len() > 0);

    let mut ctx = DebugContext::new();
    ctx.set_mode(RunMode::StepOver);

    assert_eq!(ctx.mode(), RunMode::StepOver);
}

#[test]
fn test_breakpoint_stop_behavior() {
    let content = "@echo off\necho Line 1\necho Line 2\necho Line 3\necho Line 4\necho Line 5\nexit /b 0\n";
    let physical_lines = to_lines(content);

    let pre = preprocess_lines(&physical_lines);
    assert!(pre.logical.len() > 0);

    let mut ctx = DebugContext::new();

    ctx.add_breakpoint(2);
    ctx.add_breakpoint(4);

    ctx.set_mode(RunMode::Continue);

    assert!(ctx.should_stop_at(2), "Should stop at breakpoint line 2");
    assert!(ctx.should_stop_at(4), "Should stop at breakpoint line 4");

    assert!(!ctx.should_stop_at(1), "Should not stop at line 1");
    assert!(!ctx.should_stop_at(3), "Should not stop at line 3");
    assert!(!ctx.should_stop_at(5), "Should not stop at line 5");
}

#[test]
fn test_continue_mode_with_no_breakpoints() {
    let mut ctx = DebugContext::new();

    ctx.set_mode(RunMode::Continue);

    assert!(!ctx.should_stop_at(1));
    assert!(!ctx.should_stop_at(10));
    assert!(!ctx.should_stop_at(100));
}

#[test]
fn test_step_out_with_call_stack() {
    let mut ctx = DebugContext::new();

    ctx.call_stack.push(Frame::new(10, None));
    ctx.call_stack.push(Frame::new(20, None));
    ctx.call_stack.push(Frame::new(30, None));

    assert_eq!(ctx.call_stack.len(), 3);

    ctx.set_mode(RunMode::StepOut);

    ctx.call_stack.pop();

    assert_eq!(ctx.call_stack.len(), 2);
}

#[test]
fn test_nested_call_stack_tracking() {
    let content = "@echo off\ncall :level1\nexit /b 0\n\n:level1\ncall :level2\nexit /b 0\n\n:level2\ncall :level3\nexit /b 0\n\n:level3\necho Deepest level\nexit /b 0\n";
    let physical_lines = to_lines(content);

    let labels = build_label_map(&physical_lines);

    assert!(labels.contains_key("level1"));
    assert!(labels.contains_key("level2"));
    assert!(labels.contains_key("level3"));
    assert_eq!(labels.len(), 3);
}

#[test]
fn test_mode_transitions() {
    let mut ctx = DebugContext::new();

    let modes = vec![
        RunMode::Continue,
        RunMode::StepInto,
        RunMode::StepOver,
        RunMode::StepOut,
    ];

    for mode in modes {
        ctx.set_mode(mode);
        assert_eq!(ctx.mode(), mode, "Mode should be set correctly");
    }
}

#[test]
fn test_quit_behavior() {
    let ctx = DebugContext::new();

    drop(ctx);

    assert!(true);
}

#[test]
fn test_breakpoint_with_continue_resume() {
    let mut ctx = DebugContext::new();

    ctx.add_breakpoint(5);

    ctx.set_mode(RunMode::Continue);

    assert!(ctx.should_stop_at(5), "Should stop at breakpoint");

    ctx.set_mode(RunMode::Continue);

    assert!(!ctx.should_stop_at(6));
    assert!(!ctx.should_stop_at(7));

    ctx.add_breakpoint(10);
    assert!(ctx.should_stop_at(10));
}
