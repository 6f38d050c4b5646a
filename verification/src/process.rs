//! Checking how a child process ended, and what it printed.
use crate::init::{lossy_text, path_to_lossy_json_string};
use crate::text::{chars_of, i64_decimal, int_decimal, string_from_chars, trim_range, trim_spec};
use vstd::prelude::*;
use vstd::string::StringExecFns;
use vstd::utf8::{decode_utf8, valid_utf8};

verus! {

/// The `git` found on the search path, which the program runs for the
/// worktree operations.
pub struct RealGit;

/// How a process ended: whether it succeeded, and its exit code (none when
/// a signal ended it).
#[derive(PartialEq, Eq, Structural, Clone, Copy, Debug)]
pub struct ProcessStatus {
    pub success: bool,
    pub code: Option<i32>,
}

/// The message for a process that did not succeed.
pub open spec fn failure_message(s: ProcessStatus) -> Seq<char> {
    match s.code {
        Some(c) => "Process exited with non-zero status code: "@ + int_decimal(c as int),
        None => "Process terminated by signal"@,
    }
}

/// Turning an exit status into a result.
pub trait ExitStatusExt {
    /// `Ok` when the process succeeded, else the reason.
    fn exit_ok(&self) -> Result<(), String>;

    /// As [`ExitStatusExt::exit_ok`], with `context` and `": "` in front of the reason.
    fn exit_ok_with_context(&self, context: &str) -> Result<(), String>;
}

impl ExitStatusExt for ProcessStatus {
    fn exit_ok(&self) -> (r: Result<(), String>)
        ensures
            r is Ok <==> self.success,
            r matches Err(m) ==> m@ == failure_message(*self),
    {
        if self.success {
            Ok(())
        } else {
            match self.code {
                Some(c) => {
                    let mut m = String::from_str("Process exited with non-zero status code: ");
                    let d = i64_decimal(c as i64);
                    m.append(d.as_str());
                    Err(m)
                },
                None => Err(String::from_str("Process terminated by signal")),
            }
        }
    }

    fn exit_ok_with_context(&self, context: &str) -> (r: Result<(), String>)
        ensures
            r is Ok <==> self.success,
            r matches Err(m) ==> m@ == context@ + ": "@ + failure_message(*self),
    {
        match self.exit_ok() {
            Ok(()) => Ok(()),
            Err(e) => {
                let mut m = String::from_str(context);
                m.append(": ");
                m.append(e.as_str());
                Err(m)
            },
        }
    }
}

/// The message `String::from_utf8` gives for bytes that are not UTF-8.
pub uninterp spec fn utf8_error_text(bytes: Seq<u8>) -> Seq<char>;

/// Decodes bytes with `String::from_utf8`: the text when they are valid
/// UTF-8, else the named [`utf8_error_text`] of the bytes.
#[verifier::external_body]
fn utf8_decode(bytes: Vec<u8>) -> (r: Result<String, String>)
    ensures
        r is Ok <==> valid_utf8(bytes@),
        r matches Ok(s) ==> s@ == decode_utf8(bytes@),
        r matches Err(m) ==> m@ == utf8_error_text(bytes@),
{
    String::from_utf8(bytes).map_err(|e| e.to_string())
}

/// The result of running a command for its output: on failure, the reason
/// with the trimmed error output (`<reason>; stderr: <text>`); on success,
/// the output as text, or the reason it is not UTF-8.
pub open spec fn output_result(status: ProcessStatus, stdout: Seq<u8>, stderr: Seq<u8>) -> Result<Seq<char>, Seq<char>> {
    if !status.success {
        Err(failure_message(status) + "; stderr: "@ + trim_spec(lossy_text(stderr)))
    } else if valid_utf8(stdout) {
        Ok(decode_utf8(stdout))
    } else {
        Err(utf8_error_text(stdout))
    }
}

/// The result of running a command for its output, from how it ended and
/// what it printed.
pub fn check_output_result(status: ProcessStatus, stdout: Vec<u8>, stderr: &[u8]) -> (r: Result<String, String>)
    ensures
        match r {
            Ok(s) => output_result(status, stdout@, stderr@) == Ok::<Seq<char>, Seq<char>>(s@),
            Err(m) => output_result(status, stdout@, stderr@) == Err::<Seq<char>, Seq<char>>(m@),
        },
{
    let ghost out = stdout@;
    match status.exit_ok() {
        Err(e) => {
            let preview = path_to_lossy_json_string(stderr);
            let v = chars_of(preview.as_str());
            let t = trim_range(&v, 0, v.len());
            assert(v@.subrange(0, v@.len() as int) =~= v@);
            let mut m = e;
            m.append("; stderr: ");
            let ts = string_from_chars(&t);
            m.append(ts.as_str());
            Err(m)
        },
        Ok(()) => utf8_decode(stdout),
    }
}

} // verus!
