//! How commands of the system end, and what is made of it.

use crate::error::AppError;
use crate::text;
use vstd::prelude::*;

verus! {

/// What a command that ran has left.
pub struct CommandOutput {
    pub success: bool,
    /// The exit code, if the command ended by itself.
    pub code: Option<i32>,
    pub stdout: String,
    pub stderr: String,
}

/// How a command with a time limit ended.
pub enum CommandEnd {
    /// It could not be run, for this reason.
    NotRun(String),
    TimedOut,
    Ended(CommandOutput),
}

/// What a command says of its failure: its error output, or where that is blank its
/// other output.
pub open spec fn complaint(out: CommandOutput) -> Seq<char> {
    if text::trimmed(out.stderr@).len() == 0 {
        text::trimmed(out.stdout@)
    } else {
        text::trimmed(out.stderr@)
    }
}

/// The output of a command; an error where it could not be run or failed.
pub fn command_output(program: &str, run: Result<CommandOutput, String>) -> (r: Result<
    String,
    AppError,
>)
    ensures
        match run {
            Err(why) => r matches Err(e) && e.text() == "Failed to run "@ + program@ + ": "@ + why@,
            Ok(out) => if out.success {
                r matches Ok(stdout) && stdout == out.stdout
            } else {
                r matches Err(e) && e.text() == program@ + " failed: "@ + complaint(out)
            },
        },
{
    match run {
        Err(why) => {
            let mut e = String::from_str("Failed to run ");
            e.append(program);
            e.append(": ");
            e.append(why.as_str());
            Err(AppError::Network(e))
        },
        Ok(out) => {
            if out.success {
                return Ok(out.stdout);
            }
            let mut e = String::from_str(program);
            e.append(" failed: ");
            let stderr = text::trim(out.stderr.as_str());
            if stderr.is_empty() {
                e.append(text::trim(out.stdout.as_str()));
            } else {
                e.append(stderr);
            }
            Err(AppError::Network(e))
        },
    }
}

/// The failure of a step that has a message of its own for each way to fail.
pub open spec fn step_failure(
    end: CommandEnd,
    timed_out: Seq<char>,
    not_run: Seq<char>,
    failed: Seq<char>,
) -> Option<Seq<char>> {
    match end {
        CommandEnd::TimedOut => Some(timed_out),
        CommandEnd::NotRun(why) => Some(not_run + why@),
        CommandEnd::Ended(out) => if out.success {
            None
        } else {
            Some(failed + text::trimmed(out.stderr@))
        },
    }
}

/// Whether a step succeeded; its message, followed by the reason, where it did not.
pub fn step_result(end: CommandEnd, timed_out: &str, not_run: &str, failed: &str) -> (r: Result<
    (),
    AppError,
>)
    ensures
        match (r, step_failure(end, timed_out@, not_run@, failed@)) {
            (Ok(_), None) => true,
            (Err(e), Some(m)) => e.text() == m,
            _ => false,
        },
{
    match end {
        CommandEnd::TimedOut => Err(AppError::Network(String::from_str(timed_out))),
        CommandEnd::NotRun(why) => {
            let mut e = String::from_str(not_run);
            e.append(why.as_str());
            Err(AppError::Network(e))
        },
        CommandEnd::Ended(out) => {
            if out.success {
                return Ok(());
            }
            let mut e = String::from_str(failed);
            e.append(text::trim(out.stderr.as_str()));
            Err(AppError::Network(e))
        },
    }
}

/// Whether a first try, without more rights, succeeded; any other end leads to a second
/// one with more rights.
pub fn needs_elevation(end: &CommandEnd) -> (r: bool)
    ensures
        r == !(end matches CommandEnd::Ended(out) && out.success),
{
    match end {
        CommandEnd::Ended(out) => !out.success,
        _ => true,
    }
}

/// The script that runs another script with more rights. The inner script stands in
/// quotes, so that it reaches the inner run as it is.
pub open spec fn elevated(inner: Seq<char>) -> Seq<char> {
    "$ErrorActionPreference='Stop'; Start-Process powershell.exe -Verb RunAs -WindowStyle Hidden -Wait -ArgumentList '-NoProfile','-Command','"@
        + text::quoted(inner) + "'"@
}

/// The script that runs another script with more rights.
pub fn elevated_script(inner: &str) -> (r: String)
    ensures
        r@ == elevated(inner@),
{
    let mut r = String::from_str(
        "$ErrorActionPreference='Stop'; Start-Process powershell.exe -Verb RunAs -WindowStyle Hidden -Wait -ArgumentList '-NoProfile','-Command','",
    );
    r.append(text::double_quotes(inner).as_str());
    r.append("'");
    r
}

/// A step fails exactly when it was not run, ran out of time, or ended without success;
/// each failure says which.
pub proof fn law_when_a_step_fails(
    end: CommandEnd,
    timed_out: Seq<char>,
    not_run: Seq<char>,
    failed: Seq<char>,
)
    ensures
        step_failure(end, timed_out, not_run, failed) is None <==> (end matches CommandEnd::Ended(
            out,
        ) && out.success),
        end is TimedOut ==> step_failure(end, timed_out, not_run, failed) == Some(timed_out),
        end matches CommandEnd::NotRun(why) ==> step_failure(end, timed_out, not_run, failed)
            == Some(not_run + why@),
{
}

/// What a failed command is blamed with: what it wrote to its error output, or where that
/// is blank what it wrote.
pub proof fn law_what_a_command_complains_of(out: CommandOutput)
    ensures
        text::trimmed(out.stderr@).len() > 0 ==> complaint(out) == text::trimmed(out.stderr@),
        text::trimmed(out.stderr@).len() == 0 ==> complaint(out) == text::trimmed(out.stdout@),
{
}

} // verus!
