//! The decisions of the command line and of the interactive prompt: what the
//! arguments ask for, which exit status an outcome gives, what the prompt
//! reports after a line, and how the line editor reacts to each key.

use crate::bytecode::{opcode_byte, OpCode};
use crate::text::{is_whitespace, spec_is_whitespace, spec_trim, string_from_chars, trim_range};
use crate::vm::InterpretResult;
use vstd::prelude::*;

verus! {

/// Exit status for a command-line usage error.
pub const EXIT_USAGE: i32 = 64;

/// Exit status when the script does not compile.
pub const EXIT_DATA_ERROR: i32 = 65;

/// Exit status when the script cannot be read.
pub const EXIT_IO_ERROR: i32 = 74;

/// What the command line asks for.
#[derive(Debug, Clone, PartialEq, Eq)]
pub enum CliAction {
    /// No arguments: start the interactive prompt.
    Prompt,
    /// One argument: run the script at this path.
    RunFile(String),
    /// More arguments: print the usage line and fail.
    Usage,
}

/// What running the command line came to.
#[derive(Debug, Clone, Copy, PartialEq, Eq, Structural)]
pub enum RunOutcome {
    /// The interactive prompt ended.
    PromptFinished,
    /// The script compiled and ran.
    FileRan,
    /// The script could not be read.
    FileUnreadable,
    /// The script did not compile.
    CompileFailed,
    /// The arguments were not understood.
    UsageError,
}

/// Decides what the arguments (without the program name) ask for.
pub fn handle_args(args: &Vec<String>) -> (action: CliAction)
    ensures
        args@.len() == 0 ==> action == CliAction::Prompt,
        args@.len() == 1 ==> action == CliAction::RunFile(args@[0]),
        args@.len() > 1 ==> action == CliAction::Usage,
{
    if args.len() == 0 {
        CliAction::Prompt
    } else if args.len() == 1 {
        CliAction::RunFile(args[0].clone())
    } else {
        CliAction::Usage
    }
}

/// Decides what a run with the given arguments does.
pub fn run_main_with_args(args: &Vec<String>) -> (action: CliAction)
    ensures
        args@.len() == 0 ==> action == CliAction::Prompt,
        args@.len() == 1 ==> action == CliAction::RunFile(args@[0]),
        args@.len() > 1 ==> action == CliAction::Usage,
{
    handle_args(args)
}

/// The exit status of a run: success, or the conventional status of its failure.
pub fn exit_status(outcome: RunOutcome) -> (status: Result<(), i32>)
    ensures
        status == match outcome {
            RunOutcome::PromptFinished | RunOutcome::FileRan => Ok(()),
            RunOutcome::FileUnreadable => Err(EXIT_IO_ERROR),
            RunOutcome::CompileFailed => Err(EXIT_DATA_ERROR),
            RunOutcome::UsageError => Err(EXIT_USAGE),
        },
{
    match outcome {
        RunOutcome::PromptFinished | RunOutcome::FileRan => Ok(()),
        RunOutcome::FileUnreadable => Err(EXIT_IO_ERROR),
        RunOutcome::CompileFailed => Err(EXIT_DATA_ERROR),
        RunOutcome::UsageError => Err(EXIT_USAGE),
    }
}

/// Whether a line holds only whitespace (the prompt skips such lines).
pub fn is_blank_line(line: &str) -> (blank: bool)
    ensures
        blank == (spec_trim(line@).len() == 0),
        blank == forall|k: int| 0 <= k < line@.len() ==> spec_is_whitespace(#[trigger] line@[k]),
{
    let chars = crate::text::chars_of(line);
    let trimmed = trim_range(&chars, 0, chars.len());
    proof {
        assert(chars@.subrange(0, chars@.len() as int) =~= chars@);
        crate::text::lemma_trim_empty_iff_blank(chars@);
    }
    trimmed.len() == 0
}

/// Whether the compiled code leaves an expression result to show: whether
/// any of its bytes is the byte of `OpPop`.
pub fn has_expression_result(code: &Vec<u8>) -> (found: bool)
    ensures
        found == code@.contains(opcode_byte(OpCode::OpPop)),
{
    let pop = OpCode::OpPop.to_byte();
    let mut k: usize = 0;
    while k < code.len()
        invariant
            k <= code@.len(),
            pop == opcode_byte(OpCode::OpPop),
            forall|m: int| 0 <= m < k ==> code@[m] != pop,
        decreases code@.len() - k,
    {
        if code[k] == pop {
            return true;
        }
        k += 1;
    }
    false
}

/// How a line given to the prompt came out.
#[derive(Debug, Clone, Copy, PartialEq, Eq, Structural)]
pub enum LineOutcome {
    /// The line held only whitespace.
    Blank,
    /// The line did not compile.
    CompileFailed,
    /// The line compiled and the virtual machine ran it.
    Interpreted(InterpretResult),
}

/// What the prompt writes after a line.
#[derive(Debug, Clone, Copy, PartialEq, Eq, Structural)]
pub enum LineReport {
    /// Nothing.
    Nothing,
    /// The line's result, unless it is nil.
    ShowValue,
    /// The line did not compile.
    CompilationFailed,
    /// The program failed while running.
    RuntimeError,
    /// The virtual machine reported a compile error.
    CompilationError,
}

/// Decides what the prompt writes after a line.
pub fn report_line(outcome: LineOutcome) -> (report: LineReport)
    ensures
        report == match outcome {
            LineOutcome::Blank => LineReport::Nothing,
            LineOutcome::CompileFailed => LineReport::CompilationFailed,
            LineOutcome::Interpreted(InterpretResult::Success) => LineReport::ShowValue,
            LineOutcome::Interpreted(InterpretResult::RuntimeError) => LineReport::RuntimeError,
            LineOutcome::Interpreted(InterpretResult::CompileError) => LineReport::CompilationError,
        },
{
    match outcome {
        LineOutcome::Blank => LineReport::Nothing,
        LineOutcome::CompileFailed => LineReport::CompilationFailed,
        LineOutcome::Interpreted(InterpretResult::Success) => LineReport::ShowValue,
        LineOutcome::Interpreted(InterpretResult::RuntimeError) => LineReport::RuntimeError,
        LineOutcome::Interpreted(InterpretResult::CompileError) => LineReport::CompilationError,
    }
}

impl LineReport {
    /// The message line of a report, for the reports that write one.
    pub fn message(&self) -> (text: Option<&'static str>)
        ensures
            text matches Some(t) ==> *self == LineReport::CompilationFailed && t@
                == "Compilation failed."@ || *self == LineReport::RuntimeError && t@
                == "Runtime error."@ || *self == LineReport::CompilationError && t@
                == "Compilation error."@,
            text is None <==> (*self == LineReport::Nothing || *self == LineReport::ShowValue),
    {
        match self {
            LineReport::Nothing | LineReport::ShowValue => None,
            LineReport::CompilationFailed => Some("Compilation failed."),
            LineReport::RuntimeError => Some("Runtime error."),
            LineReport::CompilationError => Some("Compilation error."),
        }
    }
}

} // verus!
