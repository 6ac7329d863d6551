use strace_analyzer::agg::DirStats;
use strace_analyzer::engine::{age_of, AgePolicy, Analysis, Config};

fn cfg() -> Config {
    Config { deep_rollup: false, age: AgePolicy::FirstToLast }
}

fn dir<'a>(report: &'a [DirStats], path: &[u8]) -> &'a DirStats {
    report.iter().find(|d| d.path == path).expect("directory missing from report")
}

#[test]
fn two_process_round_trip() {
    let mut a = Analysis::new(cfg(), 1);
    a.ingest_line(1, b"open(\"/tmp/a\", O_RDWR) = 3");
    a.ingest_line(1, b"write(3, \"0123456789\", 10) = 10");
    a.ingest_line(1, b"clone() = 42");
    let child = a.next_child();
    assert_eq!(child, Some(42));
    a.ingest_line(42, b"read(3, \"abcd\", 4) = 4");
    a.ingest_line(42, b"close(3) = 0");
    let report = a.report();
    assert_eq!(report.len(), 1);
    let tmp = dir(&report, b"/tmp");
    assert_eq!(tmp.modified, 10);
    assert_eq!(tmp.accessed, 4);
    assert_eq!(tmp.total, 14);
    let d = a.diagnostics();
    assert_eq!(d.lines_total, 5);
    assert_eq!(d.lines_malformed, 0);
    assert_eq!(d.processes_discovered, 1);
}

#[test]
fn malformed_line_is_counted_not_fatal() {
    let mut a = Analysis::new(cfg(), 1);
    a.ingest_line(1, b"open(\"/tmp/a\", O_RDWR) = 3");
    a.ingest_line(1, b"!!garbage here!!");
    a.ingest_line(1, b"write(3, \"xy\", 2) = 2");
    let d = a.diagnostics();
    assert_eq!(d.lines_malformed, 1);
    assert_eq!(d.lines_total, 3);
    let report = a.report();
    let tmp = dir(&report, b"/tmp");
    assert_eq!(tmp.modified, 2);
    assert_eq!(tmp.total, 2);
}

#[test]
fn missing_child_trace_is_soft() {
    let mut a = Analysis::new(cfg(), 1);
    a.ingest_line(1, b"clone() = 7");
    assert_eq!(a.next_child(), Some(7));
    // the child's trace file is absent: the run records that and goes on
    a.mark_missing_trace();
    a.ingest_line(1, b"open(\"/x/y\", O_WRONLY) = 4");
    a.ingest_line(1, b"write(4, \"z\", 1) = 1");
    let d = a.diagnostics();
    assert!(d.processes_missing_trace >= 1);
    let report = a.report();
    assert_eq!(dir(&report, b"/x").modified, 1);
}

#[test]
fn repeated_clone_is_discovered_once() {
    let mut a = Analysis::new(cfg(), 1);
    a.ingest_line(1, b"clone() = 42");
    a.ingest_line(1, b"clone() = 42");
    assert_eq!(a.next_child(), Some(42));
    assert_eq!(a.next_child(), None);
    assert_eq!(a.diagnostics().processes_discovered, 1);
}

#[test]
fn fork_gives_child_a_snapshot_of_the_fd_table() {
    let mut a = Analysis::new(cfg(), 1);
    a.ingest_line(1, b"open(\"/tmp/a\", O_RDWR) = 3");
    a.ingest_line(1, b"clone() = 2");
    // the child closes its copy of fd 3; the parent's stays usable
    a.ingest_line(2, b"close(3) = 0");
    a.ingest_line(1, b"write(3, \"abcde\", 5) = 5");
    // and the child's later reads on fd 3 find nothing
    a.ingest_line(2, b"read(3, \"x\", 1) = 1");
    let report = a.report();
    let tmp = dir(&report, b"/tmp");
    assert_eq!(tmp.modified, 5);
    assert_eq!(tmp.accessed, 0);
}

#[test]
fn report_is_sorted_by_path() {
    let mut a = Analysis::new(cfg(), 1);
    a.ingest_line(1, b"open(\"/b/f\", O_WRONLY) = 3");
    a.ingest_line(1, b"write(3, \"x\", 1) = 1");
    a.ingest_line(1, b"close(3) = 0");
    a.ingest_line(1, b"open(\"/a/g\", O_WRONLY) = 3");
    a.ingest_line(1, b"write(3, \"xy\", 2) = 2");
    let report = a.report();
    assert_eq!(report.len(), 2);
    assert_eq!(report[0].path, b"/a".to_vec());
    assert_eq!(report[1].path, b"/b".to_vec());
    assert_eq!(report[0].modified, 2);
    assert_eq!(report[1].modified, 1);
}

#[test]
fn report_order_is_canonical_whatever_the_accumulation_order() {
    let mut one = Analysis::new(cfg(), 1);
    one.ingest_line(1, b"open(\"/b/f\", O_WRONLY) = 3");
    one.ingest_line(1, b"write(3, \"x\", 1) = 1");
    one.ingest_line(1, b"close(3) = 0");
    one.ingest_line(1, b"open(\"/a/g\", O_WRONLY) = 3");
    one.ingest_line(1, b"write(3, \"xy\", 2) = 2");
    let mut two = Analysis::new(cfg(), 1);
    two.ingest_line(1, b"open(\"/a/g\", O_WRONLY) = 3");
    two.ingest_line(1, b"write(3, \"xy\", 2) = 2");
    two.ingest_line(1, b"close(3) = 0");
    two.ingest_line(1, b"open(\"/b/f\", O_WRONLY) = 3");
    two.ingest_line(1, b"write(3, \"x\", 1) = 1");
    let r1 = one.report();
    let r2 = two.report();
    assert_eq!(r1.len(), r2.len());
    for (a, b) in r1.iter().zip(r2.iter()) {
        assert_eq!(a.path, b.path);
        assert_eq!(a.total, b.total);
        assert_eq!(a.accessed, b.accessed);
        assert_eq!(a.modified, b.modified);
    }
}

#[test]
fn read_only_open_registers_fd_but_no_sizes() {
    let mut a = Analysis::new(cfg(), 1);
    a.ingest_line(1, b"open(\"/d/f\", O_RDONLY) = 5");
    let report = a.report();
    assert!(report.is_empty());
    // but the descriptor resolves for later reads
    let mut b = Analysis::new(cfg(), 1);
    b.ingest_line(1, b"open(\"/d/f\", O_RDONLY) = 5");
    b.ingest_line(1, b"read(5, \"..\", 2) = 2");
    let report = b.report();
    assert_eq!(dir(&report, b"/d").accessed, 2);
    assert_eq!(dir(&report, b"/d").modified, 0);
}

#[test]
fn failed_calls_produce_no_records() {
    let mut a = Analysis::new(cfg(), 1);
    a.ingest_line(1, b"open(\"/d/f\", O_WRONLY) = -1 ENOENT (No such file or directory)");
    a.ingest_line(1, b"read(3, \"\", 2) = -1 EBADF (Bad file descriptor)");
    assert!(a.report().is_empty());
    assert_eq!(a.diagnostics().lines_malformed, 0);
}

#[test]
fn relative_paths_resolve_against_chdir() {
    let mut a = Analysis::new(cfg(), 1);
    a.ingest_line(1, b"chdir(\"/work\") = 0");
    a.ingest_line(1, b"open(\"out.log\", O_WRONLY|O_CREAT) = 3");
    a.ingest_line(1, b"write(3, \"abc\", 3) = 3");
    let report = a.report();
    assert_eq!(dir(&report, b"/work").modified, 3);
}

#[test]
fn unresolved_relative_path_is_counted_and_excluded() {
    let mut a = Analysis::new(cfg(), 1);
    a.ingest_line(1, b"open(\"rel.txt\", O_WRONLY) = 3");
    assert!(a.report().is_empty());
    assert_eq!(a.diagnostics().paths_unresolved, 1);
}

#[test]
fn unfinished_and_resumed_lines_make_one_event() {
    let mut a = Analysis::new(cfg(), 1);
    a.ingest_line(1, b"open(\"/tmp/a\", O_RDWR <unfinished ...>");
    a.ingest_line(1, b"<... open resumed> ) = 3");
    a.ingest_line(1, b"write(3, \"abcdef\", 6) = 6");
    let report = a.report();
    assert_eq!(dir(&report, b"/tmp").modified, 6);
    assert_eq!(a.diagnostics().lines_malformed, 0);
}

#[test]
fn orphan_resumed_line_is_skipped() {
    let mut a = Analysis::new(cfg(), 1);
    a.ingest_line(1, b"<... open resumed> ) = 3");
    let d = a.diagnostics();
    assert_eq!(d.lines_skipped, 1);
    assert_eq!(d.lines_malformed, 0);
}

#[test]
fn signal_and_exit_lines_are_skipped() {
    let mut a = Analysis::new(cfg(), 1);
    a.ingest_line(1, b"--- SIGCHLD {si_signo=SIGCHLD} ---");
    a.ingest_line(1, b"+++ exited with 0 +++");
    a.ingest_line(1, b"");
    let d = a.diagnostics();
    assert_eq!(d.lines_skipped, 3);
    assert_eq!(d.lines_malformed, 0);
}

#[test]
fn unknown_syscalls_are_ignored_not_errors() {
    let mut a = Analysis::new(cfg(), 1);
    a.ingest_line(1, b"epoll_wait(9, [], 64, 0) = 0");
    let d = a.diagnostics();
    assert_eq!(d.lines_skipped, 1);
    assert_eq!(d.lines_malformed, 0);
}

#[test]
fn rename_deletes_source_and_creates_destination() {
    let mut a = Analysis::new(cfg(), 1);
    a.ingest_line(1, b"rename(\"/tmp/old\", \"/srv/new\") = 0");
    let report = a.report();
    assert_eq!(report.len(), 2);
    assert_eq!(report[0].path, b"/srv".to_vec());
    assert_eq!(report[1].path, b"/tmp".to_vec());
}

#[test]
fn ages_span_first_to_last_timestamp() {
    let mut a = Analysis::new(cfg(), 1);
    a.ingest_line(1, b"100.000001 open(\"/tmp/a\", O_RDWR) = 3");
    a.ingest_line(1, b"100.000004 write(3, \"xy\", 2) = 2");
    a.ingest_line(1, b"102.500000 write(3, \"z\", 1) = 1");
    let report = a.report();
    let tmp = dir(&report, b"/tmp");
    assert_eq!(tmp.first_ts, Some(100_000_001));
    assert_eq!(tmp.last_ts, Some(102_500_000));
    assert_eq!(age_of(AgePolicy::FirstToLast, tmp), Some(2_499_999));
    assert_eq!(age_of(AgePolicy::FromRunStart(100_000_000), tmp), Some(2_500_000));
}

#[test]
fn deep_rollup_charges_every_ancestor() {
    let mut a = Analysis::new(
        Config { deep_rollup: true, age: AgePolicy::FirstToLast },
        1,
    );
    a.ingest_line(1, b"open(\"/a/b/f\", O_WRONLY) = 3");
    a.ingest_line(1, b"write(3, \"xyz\", 3) = 3");
    let report = a.report();
    assert_eq!(report.len(), 3);
    assert_eq!(report[0].path, b"/".to_vec());
    assert_eq!(report[1].path, b"/a".to_vec());
    assert_eq!(report[2].path, b"/a/b".to_vec());
    assert_eq!(report[0].modified, 3);
    assert_eq!(report[1].modified, 3);
    assert_eq!(report[2].modified, 3);
}

#[test]
fn openat_resolves_against_at_fdcwd() {
    let mut a = Analysis::new(cfg(), 1);
    a.ingest_line(1, b"chdir(\"/base\") = 0");
    a.ingest_line(1, b"openat(AT_FDCWD, \"data.bin\", O_RDWR) = 3");
    a.ingest_line(1, b"write(3, \"12345\", 5) = 5");
    let report = a.report();
    assert_eq!(dir(&report, b"/base").modified, 5);
}
