use pebble::process::{check_output_result, ExitStatusExt, ProcessStatus};

#[test]
fn exit_ok_reports_code_or_signal() {
    assert!(ProcessStatus { success: true, code: Some(0) }.exit_ok().is_ok());
    assert_eq!(
        ProcessStatus { success: false, code: Some(128) }.exit_ok().unwrap_err(),
        "Process exited with non-zero status code: 128"
    );
    assert_eq!(ProcessStatus { success: false, code: None }.exit_ok().unwrap_err(), "Process terminated by signal");
    assert_eq!(
        ProcessStatus { success: false, code: Some(-1) }.exit_ok_with_context("git push").unwrap_err(),
        "git push: Process exited with non-zero status code: -1"
    );
}

#[test]
fn output_check_includes_trimmed_stderr() {
    let ok = check_output_result(ProcessStatus { success: true, code: Some(0) }, b"hello world\n".to_vec(), b"");
    assert_eq!(ok.unwrap(), "hello world\n");
    let err = check_output_result(ProcessStatus { success: false, code: Some(1) }, vec![], b"  fatal: bad\n");
    assert_eq!(err.unwrap_err(), "Process exited with non-zero status code: 1; stderr: fatal: bad");
    let bad = check_output_result(ProcessStatus { success: true, code: Some(0) }, vec![0xff, 0xfe], b"");
    assert!(bad.is_err());
}

// The outcomes below are those of `echo`, `git <unknown command>`, `true` and
// `false`; running the processes is the command-line tool's part.

#[test]
fn test_check_output_utf8_success() {
    let output = check_output_result(ProcessStatus { success: true, code: Some(0) }, b"hello world\n".to_vec(), b"")
        .expect("Failed to run echo");
    assert_eq!(output.trim(), "hello world");
}

#[test]
fn test_check_output_utf8_failure() {
    let result = check_output_result(
        ProcessStatus { success: false, code: Some(1) },
        vec![],
        b"git: 'this-is-an-invalid-command' is not a git command. See 'git --help'.\n",
    );
    assert!(result.is_err());
    let msg = result.unwrap_err();
    assert!(msg.contains("stderr:"));
    assert!(msg.contains("Process exited with non-zero status code") || msg.contains("Process terminated"));
}

#[test]
fn test_check_run_success() {
    ProcessStatus { success: true, code: Some(0) }.exit_ok().expect("true command should succeed");
}

#[test]
fn test_check_run_failure() {
    let result = ProcessStatus { success: false, code: Some(1) }.exit_ok();
    assert!(result.is_err());
    assert!(result.unwrap_err().contains("Process exited with non-zero status code"));
}
