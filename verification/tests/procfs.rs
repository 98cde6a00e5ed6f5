use whats_running::field::{Field, IoFailure};
use whats_running::procfs::{
    assemble_snapshot, find_systemd_unit, parse_cgroup, parse_cmdline, parse_memory, parse_stat,
    parse_status_number, parse_system_cpu, parsed_number, pid_of_entry, read_namespaces,
    read_process, read_threads, uid_of_status, NamespaceLink, ProcessReads, TaskEntry,
};

#[test]
fn stat_parser_handles_spaces_and_parentheses_in_name() {
    let input = b"42 (odd) process) S 1 2 3 4 5 6 7 8 9 10 11 12 13 14 15 16 17 18 19 20 21";
    let stat = parse_stat(input).unwrap();
    assert_eq!(stat.name, "odd) process");
    assert_eq!(stat.state, 'S');
    assert_eq!(stat.ppid, 1);
    assert_eq!(stat.user_ticks, 11);
    assert_eq!(stat.system_ticks, 12);
    assert_eq!(stat.start_ticks, 19);
}

#[test]
fn command_line_uses_nul_boundaries() {
    assert_eq!(parse_cmdline(b"hello\0two words\0"), "hello two words");
}

#[test]
fn reads_status_values() {
    let status = b"Name:\tx\nUid:\t1000\t1000\nVmRSS:\t1234 kB\n";
    assert_eq!(parse_status_number(status, b"Uid:"), Some(1000));
    assert_eq!(parse_status_number(status, b"VmRSS:"), Some(1234));
}

#[test]
fn reads_system_totals() {
    assert_eq!(
        parse_system_cpu(b"cpu  1 2 3 4\ncpu0 1\ncpu1 1\n"),
        (Some(10), 2)
    );
    assert_eq!(
        parse_system_cpu(b"cpu  1 2 3 4 5 6 7 8 900 1000\ncpu0 1\n"),
        (Some(36), 1)
    );
    assert_eq!(
        parse_memory(b"MemTotal: 100 kB\nMemAvailable: 60 kB\n").available_kib,
        Some(60)
    );
}

#[test]
fn reads_cgroup_and_unit() {
    let path = parse_cgroup(b"0::/user.slice/user-1000.slice/app.slice/foot.service\n");
    assert_eq!(path, "/user.slice/user-1000.slice/app.slice/foot.service");
    assert_eq!(find_systemd_unit(&path).as_deref(), Some("foot.service"));
}

#[test]
fn stat_parser_rejects_lines_without_a_name() {
    assert!(parse_stat(b"42 no parentheses S 1").is_none());
    assert!(parse_stat(b"").is_none());
}

#[test]
fn status_number_missing_key_is_none() {
    assert_eq!(parse_status_number(b"Name:\tx\n", b"VmRSS:"), None);
    assert_eq!(parse_status_number(b"VmRSS:\tlots kB\n", b"VmRSS:"), None);
}

#[test]
fn memory_reads_all_four_figures() {
    let m = parse_memory(b"MemTotal: 100 kB\nMemAvailable: 60 kB\nSwapTotal: 8 kB\nSwapFree: 3 kB\n");
    assert_eq!(m.total_kib, Some(100));
    assert_eq!(m.available_kib, Some(60));
    assert_eq!(m.swap_total_kib, Some(8));
    assert_eq!(m.swap_free_kib, Some(3));
}

#[test]
fn unit_is_the_last_service_or_scope() {
    assert_eq!(find_systemd_unit("/system.slice/sshd.service").as_deref(), Some("sshd.service"));
    assert_eq!(find_systemd_unit("/user.slice/session-2.scope").as_deref(), Some("session-2.scope"));
    assert_eq!(find_systemd_unit("/init.scope/x").as_deref(), Some("init.scope"));
    assert_eq!(find_systemd_unit("/"), None);
}

#[test]
fn parsed_number_keeps_the_failure() {
    let denied: Field<Vec<u8>> = Field::PermissionDenied;
    assert_eq!(parsed_number(&denied, b"Uid:").status(), "permission_denied");
    let garbage: Field<Vec<u8>> = Field::Value(b"Uid: x\n".to_vec());
    assert_eq!(parsed_number(&garbage, b"Uid:").status(), "parse_error");
    let good: Field<Vec<u8>> = Field::Value(b"Uid: 7 7\n".to_vec());
    assert_eq!(parsed_number(&good, b"Uid:").copied(), Some(7));
}

#[test]
fn only_numeric_entries_are_pids() {
    assert_eq!(pid_of_entry("123"), Some(123));
    assert_eq!(pid_of_entry("self"), None);
    assert_eq!(pid_of_entry(""), None);
    assert_eq!(pid_of_entry("99999999999"), None);
}

#[test]
fn threads_are_sorted_by_id_and_unreadable_ones_skipped() {
    let tasks = vec![
        TaskEntry { name: "12".to_string(), stat: Field::Value(b"12 (b) R 1 0 0 0 0 0 0 0 0 0 5 6 0 0 0 0 0 0 9 0".to_vec()) },
        TaskEntry { name: "3".to_string(), stat: Field::Value(b"3 (a) S 1 0 0 0 0 0 0 0 0 0 1 2 0 0 0 0 0 0 4 0".to_vec()) },
        TaskEntry { name: "7".to_string(), stat: Field::Vanished },
        TaskEntry { name: "x".to_string(), stat: Field::Value(b"1 (c) S".to_vec()) },
    ];
    match read_threads(Field::Value(tasks)) {
        Field::Value(threads) => {
            let ids: Vec<u32> = threads.iter().map(|t| t.tid).collect();
            assert_eq!(ids, vec![3, 12]);
            assert_eq!(threads[0].name, "a");
            assert_eq!(threads[1].cpu_user_ticks, 5);
        }
        other => panic!("unexpected {}", other.status()),
    }
    assert_eq!(read_threads(Field::PermissionDenied).status(), "permission_denied");
}

#[test]
fn namespaces_stop_at_the_first_failure() {
    let links = vec![
        NamespaceLink { name: "pid".to_string(), target: Ok("pid:[1]".to_string()) },
        NamespaceLink { name: "mnt".to_string(), target: Err(IoFailure::PermissionDenied) },
    ];
    assert_eq!(read_namespaces(links).status(), "permission_denied");
    let ok = vec![NamespaceLink { name: "net".to_string(), target: Ok("net:[2]".to_string()) }];
    match read_namespaces(ok) {
        Field::Value(v) => assert_eq!(v, vec![("net".to_string(), "net:[2]".to_string())]),
        other => panic!("unexpected {}", other.status()),
    }
}

fn reads_of(stat: &[u8]) -> ProcessReads {
    ProcessReads {
        stat: Field::Value(stat.to_vec()),
        cmdline: Field::Value(b"fixture\0".to_vec()),
        executable: Field::Vanished,
        status: Field::Value(b"Uid: 1000\nVmRSS: 4 kB\nThreads: 1\n".to_vec()),
        io: Field::Value(b"read_bytes: 10\nwrite_bytes: 20\n".to_vec()),
        cgroup: Field::Value(b"0::/system.slice/foo.service\n".to_vec()),
        tasks: Field::Value(Vec::new()),
        namespaces: Vec::new(),
    }
}

#[test]
fn a_process_is_assembled_from_its_files() {
    let p = read_process(100, false, reads_of(b"100 (fixture 100) S 0 0 0 0 0 0 0 0 0 0 1 2 0 0 0 0 0 0 3 0"));
    assert_eq!(p.pid, 100);
    assert_eq!(p.name.value().unwrap(), "fixture 100");
    assert_eq!(p.executable.status(), "vanished");
    assert_eq!(p.command.status(), "not_collected");
    assert_eq!(p.uid.copied(), Some(1000));
    assert_eq!(p.rss_kib.copied(), Some(4));
    assert_eq!(p.read_bytes.copied(), Some(10));
    assert_eq!(p.write_bytes.copied(), Some(20));
    assert_eq!(p.start_ticks.copied(), Some(3));
    assert_eq!(p.systemd_unit.value().map(String::as_str), Some("foo.service"));
    assert_eq!(p.visibility_summary(), "command:not_collected,exe:vanished");
    let with_command = read_process(100, true, reads_of(b"100 (x) S 0 0 0 0 0 0 0 0 0 0 1 2 0 0 0 0 0 0 3 0"));
    assert_eq!(with_command.command.value().map(String::as_str), Some("fixture"));
}

#[test]
fn an_unreadable_stat_marks_every_stat_field() {
    let mut reads = reads_of(b"");
    reads.stat = Field::PermissionDenied;
    let p = read_process(5, false, reads);
    assert_eq!(p.name.status(), "permission_denied");
    assert_eq!(p.ppid.status(), "permission_denied");
    assert_eq!(p.start_ticks.status(), "permission_denied");
    let mut bad = reads_of(b"garbage");
    bad.cgroup = Field::Value(b"0::/\n".to_vec());
    let q = read_process(6, false, bad);
    assert_eq!(q.name.status(), "parse_error");
    assert_eq!(q.systemd_unit.status(), "unsupported");
}

#[test]
fn snapshots_are_ordered_by_pid() {
    let mut processes = Vec::new();
    for pid in [30u32, 10, 20] {
        let stat = format!("{pid} (p{pid}) S 1 0 0 0 0 0 0 0 0 0 1 2 0 0 0 0 0 0 3 0");
        processes.push(read_process(pid, false, reads_of(stat.as_bytes())));
    }
    let stat: Field<Vec<u8>> = Field::Value(b"cpu 1 2 3 4\ncpu0 1\n".to_vec());
    let meminfo: Field<Vec<u8>> = Field::Value(b"MemTotal: 100 kB\nMemAvailable: 50 kB\n".to_vec());
    let s = assemble_snapshot(7, 1, 2, 0, processes, &stat, &meminfo);
    let pids: Vec<u32> = s.processes.iter().map(|p| p.pid).collect();
    assert_eq!(pids, vec![10, 20, 30]);
    assert_eq!(s.system_cpu_ticks, Some(10));
    assert_eq!(s.cpu_count, 1);
    assert_eq!(s.memory.available_kib, Some(50));
    let missing: Field<Vec<u8>> = Field::Vanished;
    let t = assemble_snapshot(7, 1, 2, 3, Vec::new(), &missing, &missing);
    assert_eq!(t.system_cpu_ticks, None);
    assert_eq!(t.cpu_count, 0);
    assert_eq!(t.memory.total_kib, None);
    assert_eq!(t.enumeration_errors, 3);
}

#[test]
fn own_uid_is_the_second_word_of_the_uid_line() {
    assert_eq!(uid_of_status("Name:\tx\nUid:\t1000\t1001\t1000\t1000\n"), Some(1000));
    assert_eq!(uid_of_status("Uid:7 9\r\n"), Some(9));
    assert_eq!(uid_of_status("Uid:\n"), None);
    assert_eq!(uid_of_status("Name:\tx\n"), None);
    assert_eq!(uid_of_status("Uid:\t99999999999\n"), None);
}

#[test]
fn empty_command_lines_are_named() {
    assert_eq!(parse_cmdline(b""), "[kernel thread or empty command]");
    assert_eq!(parse_cmdline(b"\0\0"), "[kernel thread or empty command]");
    assert_eq!(parse_cmdline(b"a\0\0b"), "a b");
}

#[test]
fn cgroup_path_is_after_the_second_colon() {
    assert_eq!(parse_cgroup(b"1:name=systemd:/a:b\n0::/c\n"), "/a:b");
    assert_eq!(parse_cgroup(b"no colons here\n"), "");
    assert_eq!(find_systemd_unit("/user.slice/user-1000.slice"), Some("user-1000.slice".to_string()));
}

#[test]
fn complete_covers_name_command_and_executable() {
    let mut reads = reads_of(b"9 (x) S 1 0 0 0 0 0 0 0 0 0 1 2 0 0 0 0 0 0 3 0");
    reads.executable = Field::Value("/bin/x".to_string());
    reads.cgroup = Field::Vanished;
    let p = read_process(9, true, reads);
    assert_eq!(p.cgroup.status(), "vanished");
    assert_eq!(p.visibility_summary(), "complete");
}
