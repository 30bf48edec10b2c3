use oxython::bytecode::OpCode;
use oxython::cli::{
    exit_status, handle_args, has_expression_result, is_blank_line, report_line,
    run_main_with_args, CliAction, LineOutcome, LineReport, RunOutcome, EXIT_DATA_ERROR,
    EXIT_IO_ERROR, EXIT_USAGE,
};
use oxython::vm::InterpretResult;

#[test]
fn handle_args_runs_prompt_for_no_args() {
    let args: Vec<String> = vec![];
    assert_eq!(handle_args(&args), CliAction::Prompt);
    assert!(exit_status(RunOutcome::PromptFinished).is_ok());
}

#[test]
fn handle_args_reports_usage_error_for_extra_args() {
    let args = vec![String::from("script.py"), String::from("extra")];
    assert_eq!(handle_args(&args), CliAction::Usage);
    assert_eq!(exit_status(RunOutcome::UsageError).unwrap_err(), 64);
}

#[test]
fn handle_args_runs_file_for_single_arg() {
    let path = String::from("/tmp/oxythonlang_test_arg_run.py");
    assert_eq!(handle_args(&vec![path.clone()]), CliAction::RunFile(path));
    assert!(exit_status(RunOutcome::FileRan).is_ok());
}

#[test]
fn handle_args_reports_usage_for_many_args() {
    let args = vec![
        String::from("one"),
        String::from("two"),
        String::from("three"),
    ];
    assert_eq!(handle_args(&args), CliAction::Usage);
    assert_eq!(exit_status(RunOutcome::UsageError).unwrap_err(), 64);
}

#[test]
fn run_main_with_args_reports_usage_error() {
    let args = vec![String::from("one"), String::from("two")];
    assert_eq!(run_main_with_args(&args), CliAction::Usage);
    assert_eq!(exit_status(RunOutcome::UsageError).unwrap_err(), 64);
}

#[test]
fn exit_statuses_follow_conventions() {
    assert_eq!(EXIT_USAGE, 64);
    assert_eq!(EXIT_DATA_ERROR, 65);
    assert_eq!(EXIT_IO_ERROR, 74);
    assert_eq!(exit_status(RunOutcome::FileUnreadable), Err(74));
    assert_eq!(exit_status(RunOutcome::CompileFailed), Err(65));
    assert_eq!(exit_status(RunOutcome::FileRan), Ok(()));
}

#[test]
fn run_prompt_reports_compile_error() {
    let report = report_line(LineOutcome::CompileFailed);
    assert_eq!(report, LineReport::CompilationFailed);
    assert_eq!(report.message(), Some("Compilation failed."));
}

#[test]
fn run_prompt_reports_runtime_error() {
    let report = report_line(LineOutcome::Interpreted(InterpretResult::RuntimeError));
    assert_eq!(report, LineReport::RuntimeError);
    assert_eq!(report.message(), Some("Runtime error."));
}

#[test]
fn prompt_reports_vm_compile_error() {
    let report = report_line(LineOutcome::Interpreted(InterpretResult::CompileError));
    assert_eq!(report.message(), Some("Compilation error."));
}

#[test]
fn prompt_shows_value_after_success() {
    let report = report_line(LineOutcome::Interpreted(InterpretResult::Success));
    assert_eq!(report, LineReport::ShowValue);
    assert_eq!(report.message(), None);
    assert_eq!(report_line(LineOutcome::Blank), LineReport::Nothing);
    assert_eq!(LineReport::Nothing.message(), None);
}

#[test]
fn prompt_skips_blank_lines() {
    assert!(is_blank_line(""));
    assert!(is_blank_line("\n"));
    assert!(is_blank_line("  \t \r\n"));
    assert!(is_blank_line("\u{3000}\u{a0}"));
    assert!(!is_blank_line(" @ \n"));
    assert!(!is_blank_line("x"));
}

#[test]
fn expression_result_is_found_by_pop_byte() {
    let pop = OpCode::OpPop as u8;
    assert!(has_expression_result(&vec![OpCode::OpConstant as u8, 0, pop, OpCode::OpReturn as u8]));
    assert!(!has_expression_result(&vec![OpCode::OpGetGlobal as u8, 0, OpCode::OpReturn as u8]));
    // Any byte equal to the opcode counts, also an operand.
    assert!(has_expression_result(&vec![OpCode::OpConstant as u8, pop]));
    assert!(!has_expression_result(&vec![]));
}
