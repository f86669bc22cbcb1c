use batch_debugger::commands::{is_comment, split_composite_command};
use batch_debugger::context::{DebugContext, Frame, RunMode};
use batch_debugger::labels::build_label_map;
use batch_debugger::preprocess::preprocess_lines;

fn to_lines(content: &str) -> Vec<String> {
    content.lines().map(|l| l.to_string()).collect()
}

#[test]
fn test_basic_execution() {
    let content = "@echo off\nset NAME=Alice\necho Hello %NAME%\nexit /b 0\n";
    let physical_lines = to_lines(content);

    let pre = preprocess_lines(&physical_lines);
    let labels = build_label_map(&physical_lines);

    assert!(pre.logical.len() > 0, "Should have parsed logical lines");
    assert_eq!(labels.len(), 0, "Should have no labels");
}

#[test]
fn test_label_parsing() {
    let content = "@echo off\ncall :subroutine\nexit /b 0\n\n:subroutine\necho In subroutine\nexit /b 0\n";
    let physical_lines = to_lines(content);

    let labels = build_label_map(&physical_lines);

    assert_eq!(labels.len(), 1, "Should have found 1 label");
    assert!(
        labels.contains_key("subroutine"),
        "Should have found :subroutine label"
    );
}

#[test]
fn test_line_continuation() {
    let content = "@echo off\necho This is a ^\ncontinued line\nexit /b 0\n";
    let physical_lines = to_lines(content);

    let pre = preprocess_lines(&physical_lines);

    let joined_line = &pre.logical[1].text;
    assert!(
        joined_line.contains("This is a") && joined_line.contains("continued line"),
        "Lines should be joined"
    );
}

#[test]
fn test_comment_detection() {
    assert!(is_comment("REM This is a comment"));
    assert!(is_comment(":: This is also a comment"));
    assert!(is_comment(""));
    assert!(!is_comment("echo Hello"));
}

#[test]
fn test_composite_command_splitting() {
    let parts = split_composite_command("echo A & echo B && echo C");
    assert_eq!(parts.len(), 3, "Should split into 3 parts");

    let parts2 = split_composite_command("echo A || echo B");
    assert_eq!(parts2.len(), 2, "Should split into 2 parts");
}

#[test]
fn test_breakpoint_management() {
    let mut ctx = DebugContext::new();

    ctx.add_breakpoint(5);
    ctx.add_breakpoint(10);
    ctx.add_breakpoint(15);

    ctx.set_mode(RunMode::Continue);

    assert!(ctx.should_stop_at(5), "Should stop at breakpoint 5");
    assert!(ctx.should_stop_at(10), "Should stop at breakpoint 10");
    assert!(!ctx.should_stop_at(7), "Should not stop at line 7");
}

#[test]
fn test_run_modes() {
    let mut ctx = DebugContext::new();

    ctx.set_mode(RunMode::Continue);
    assert_eq!(ctx.mode(), RunMode::Continue);

    ctx.set_mode(RunMode::StepInto);
    assert_eq!(ctx.mode(), RunMode::StepInto);

    ctx.set_mode(RunMode::StepOver);
    assert_eq!(ctx.mode(), RunMode::StepOver);

    ctx.set_mode(RunMode::StepOut);
    assert_eq!(ctx.mode(), RunMode::StepOut);
}

#[test]
fn test_variable_tracking() {
    let mut ctx = DebugContext::new();

    ctx.track_set_command("SET NAME=Alice");
    ctx.track_set_command("SET AGE=25");
    ctx.track_set_command("SET \"CITY=New York\"");

    assert_eq!(ctx.variables.get("NAME"), Some(&"Alice".to_string()));
    assert_eq!(ctx.variables.get("AGE"), Some(&"25".to_string()));
    assert_eq!(ctx.variables.get("CITY"), Some(&"New York".to_string()));

    ctx.track_set_command("SET /A COUNTER+=1");
    assert!(!ctx.variables.contains_key("COUNTER"));

    ctx.track_set_command("SET /P INPUT=Enter value:");
    assert!(!ctx.variables.contains_key("INPUT"));
}

#[test]
fn test_call_stack() {
    let mut call_stack: Vec<Frame> = Vec::new();

    call_stack.push(Frame::new(
        10,
        Some(vec!["arg1".to_string(), "arg2".to_string()]),
    ));
    call_stack.push(Frame::new(25, None));
    call_stack.push(Frame::new(40, Some(vec!["test".to_string()])));

    assert_eq!(call_stack.len(), 3, "Should have 3 frames");

    let frame3 = call_stack.pop().unwrap();
    assert_eq!(frame3.return_pc, 40);

    let frame2 = call_stack.pop().unwrap();
    assert_eq!(frame2.return_pc, 25);

    assert_eq!(call_stack.len(), 1, "Should have 1 frame left");
}

#[test]
fn test_setlocal_scope() {
    let mut ctx = DebugContext::new();

    ctx.track_set_command("SET GLOBAL=value1");

    ctx.call_stack.push(Frame::new(10, None));

    ctx.handle_setlocal();

    ctx.track_set_command("SET LOCAL=value2");

    let visible = ctx.get_visible_variables();
    assert_eq!(visible.get("GLOBAL"), Some(&"value1".to_string()));
    assert_eq!(visible.get("LOCAL"), Some(&"value2".to_string()));

    ctx.handle_endlocal();

    let visible_after = ctx.get_visible_variables();
    assert_eq!(visible_after.get("GLOBAL"), Some(&"value1".to_string()));
    assert!(!visible_after.contains_key("LOCAL"));
}

#[test]
fn test_preprocessing_empty_lines() {
    let physical_lines: Vec<String> =
        vec!["@echo off", "", "echo Hello", "", "exit /b 0"].into_iter().map(
            |l| l.to_string(),
        ).collect();
    let pre = preprocess_lines(&physical_lines);

    assert_eq!(pre.phys_to_logical.len(), 5);
}

#[test]
fn test_block_depth_tracking() {
    let content = "@echo off\nif 1==1 (\n    echo Level 1\n    if 2==2 (\n        echo Level 2\n    )\n)\nexit /b 0\n";
    let physical_lines = to_lines(content);

    let pre = preprocess_lines(&physical_lines);

    let depths: Vec<usize> = pre.logical.iter().map(|l| l.group_depth).collect();

    assert!(depths.iter().any(|&d| d == 0), "Should have depth 0");
    assert!(depths.iter().any(|&d| d > 0), "Should have depth > 0");
}
