use strace_analyzer::follow::{child_trace_name, trace_pid};
use strace_analyzer::fscheck::{file_status, is_file, FileCheck};
use strace_analyzer::parser::{parse_line, split_args, unquote, Line};

#[test]
fn complete_call_parses_name_args_ret() {
    match parse_line(b"open(\"/tmp/a\", O_RDWR) = 3") {
        Line::Call { name, args, ret, ts } => {
            assert_eq!(name, b"open".to_vec());
            assert_eq!(args.len(), 2);
            assert_eq!(args[0], b"\"/tmp/a\"".to_vec());
            assert_eq!(args[1], b"O_RDWR".to_vec());
            assert_eq!(ret, 3);
            assert_eq!(ts, None);
        },
        _ => panic!("expected a completed call"),
    }
}

#[test]
fn negative_return_and_trailer_parse() {
    match parse_line(b"open(\"/nope\", O_RDONLY) = -1 ENOENT (No such file or directory)") {
        Line::Call { ret, .. } => assert_eq!(ret, -1),
        _ => panic!("expected a completed call"),
    }
}

#[test]
fn timestamp_prefix_becomes_micros() {
    match parse_line(b"1699999999.000042 close(3) = 0") {
        Line::Call { name, ret, ts, .. } => {
            assert_eq!(name, b"close".to_vec());
            assert_eq!(ret, 0);
            assert_eq!(ts, Some(1_699_999_999_000_042));
        },
        _ => panic!("expected a completed call"),
    }
}

#[test]
fn seconds_only_timestamp_parses() {
    match parse_line(b"7 close(3) = 0") {
        Line::Call { ts, .. } => assert_eq!(ts, Some(7_000_000)),
        _ => panic!("expected a completed call"),
    }
}

#[test]
fn return_values_at_the_i64_boundary() {
    match parse_line(b"write(3) = -9223372036854775808") {
        Line::Call { ret, .. } => assert_eq!(ret, i64::MIN),
        _ => panic!("expected a completed call"),
    }
    match parse_line(b"write(3) = 9223372036854775807") {
        Line::Call { ret, .. } => assert_eq!(ret, i64::MAX),
        _ => panic!("expected a completed call"),
    }
    assert!(matches!(parse_line(b"write(3) = 9223372036854775808"), Line::Malformed));
}

#[test]
fn oversized_timestamps_saturate() {
    match parse_line(b"99999999999999999999999999.5 close(3) = 0") {
        Line::Call { ts, .. } => assert_eq!(ts, Some(u64::MAX)),
        _ => panic!("expected a completed call"),
    }
}

#[test]
fn garbled_line_is_malformed() {
    assert!(matches!(parse_line(b"!!garbage!!"), Line::Malformed));
    assert!(matches!(parse_line(b"open(\"/tmp/a\""), Line::Malformed));
    assert!(matches!(parse_line(b"open(\"/tmp/a\") = notanumber"), Line::Malformed));
}

#[test]
fn noise_lines_are_skipped() {
    assert!(matches!(parse_line(b"--- SIGCHLD {si_signo=SIGCHLD} ---"), Line::Skipped));
    assert!(matches!(parse_line(b"+++ exited with 1 +++"), Line::Skipped));
    assert!(matches!(parse_line(b""), Line::Skipped));
    assert!(matches!(parse_line(b"wait4(17, 0x7ffd, 0, NULL) = ? ERESTARTSYS"), Line::Skipped));
}

#[test]
fn unfinished_and_resumed_shapes() {
    match parse_line(b"open(\"/tmp/a\", O_RDWR <unfinished ...>") {
        Line::Unfinished { name, partial, .. } => {
            assert_eq!(name, b"open".to_vec());
            assert_eq!(partial, b"\"/tmp/a\", O_RDWR".to_vec());
        },
        _ => panic!("expected an interrupted call"),
    }
    match parse_line(b"<... open resumed> ) = 3") {
        Line::Resumed { name, ret, .. } => {
            assert_eq!(name, b"open".to_vec());
            assert_eq!(ret, 3);
        },
        _ => panic!("expected a resumed continuation"),
    }
}

#[test]
fn argument_splitting_respects_strings_and_brackets() {
    let args = split_args(b"3, \"a, b)\", [1, 2], {x=1, y=2}, 7");
    assert_eq!(args.len(), 5);
    assert_eq!(args[0], b"3".to_vec());
    assert_eq!(args[1], b"\"a, b)\"".to_vec());
    assert_eq!(args[2], b"[1, 2]".to_vec());
    assert_eq!(args[3], b"{x=1, y=2}".to_vec());
    assert_eq!(args[4], b"7".to_vec());
    assert!(split_args(b"   ").is_empty());
}

#[test]
fn quoted_paths_unquote_with_truncation_marker() {
    assert_eq!(unquote(b"\"/tmp/a\""), Some(b"/tmp/a".to_vec()));
    assert_eq!(unquote(b"\"/tmp/long\"..."), Some(b"/tmp/long".to_vec()));
    assert_eq!(unquote(b"\"esc\\\"aped\""), Some(b"esc\\\"aped".to_vec()));
    assert_eq!(unquote(b"bare"), None);
}

#[test]
fn child_trace_names_follow_the_primary() {
    assert_eq!(child_trace_name(b"cmd.strace.1234", 42), b"cmd.strace.42".to_vec());
    assert_eq!(child_trace_name(b"plain", 7), b"plain.7".to_vec());
    assert_eq!(trace_pid(b"cmd.strace.77"), Some(77));
    assert_eq!(trace_pid(b"plain"), None);
}

#[test]
fn file_status_decides_on_both_probes() {
    assert_eq!(file_status(true, true), FileCheck::Usable);
    assert_eq!(file_status(false, false), FileCheck::Missing);
    assert_eq!(file_status(false, true), FileCheck::Missing);
    assert_eq!(file_status(true, false), FileCheck::NotRegular);
}

#[test]
fn is_file_reports_missing_and_non_regular_paths() {
    let missing = is_file(String::from("/no/such/path/anywhere"));
    assert!(missing.is_err());
    assert!(missing.unwrap_err().contains("does not exist"));
    let directory = is_file(String::from("/"));
    assert!(directory.is_err());
    assert!(directory.unwrap_err().contains("is not a file"));
}
