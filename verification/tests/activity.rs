use whats_running::activity::{
    collect, collect_sockets, owners_for, parse_inet, parse_mounts, parse_unix, read_error,
    socket_inode, socket_owners, systemd_lines, unescape, ActivitySources, CommandOutcome,
    FdLinks, NetFiles,
};
use whats_running::field::{Field, IoFailure};
use whats_running::procfs::{assemble_snapshot, read_process, ProcessReads};

#[test]
fn parses_mountinfo() {
    let v = parse_mounts(b"1 2 0:1 / /hello\\040world rw - ext4 /dev/x rw\n");
    assert_eq!(v[0].mount_point, "/hello world");
    assert_eq!(v[0].fs_type, "ext4")
}

#[test]
fn parses_socket() {
    let v = parse_inet("tcp", b"sl local_address rem_address st tx rx tr tm retr uid timeout inode\n0: 0100007F:0016 00000000:0000 0A 0 0 0 0 0 123\n");
    assert_eq!(v[0].state, "0A");
    assert_eq!(v[0].inode, Some(123));
}

#[test]
fn mount_lines_without_separator_are_skipped() {
    let v = parse_mounts(b"1 2 0:1 / /a rw ext4\n3 4 0:2 / /b rw - tmpfs\n");
    assert_eq!(v.len(), 1);
    assert_eq!(v[0].mount_point, "/b");
    assert_eq!(v[0].fs_type, "tmpfs");
    assert_eq!(v[0].source, "?");
}

#[test]
fn unescapes_the_four_octal_escapes() {
    assert_eq!(unescape("a\\040b\\011c\\012d\\134e"), "a b\tc\nd\\e");
    assert_eq!(unescape("plain"), "plain");
}

#[test]
fn inet_skips_header_and_short_lines() {
    let v = parse_inet("udp", b"header\n1: 00000000:0035 00000000:0000 07\n2: short\n");
    assert_eq!(v.len(), 1);
    assert_eq!(v[0].protocol, "udp");
    assert_eq!(v[0].local, "00000000:0035");
    assert_eq!(v[0].inode, None);
}

#[test]
fn parses_unix_sockets() {
    let v = parse_unix(b"Num RefCount Protocol Flags Type St Inode Path\nffff: 00000002 00000000 00010000 0001 01 4242 /run/x.sock\nffff: 00000002\n");
    assert_eq!(v.len(), 2);
    assert_eq!(v[0].protocol, "unix");
    assert_eq!(v[0].local, "-");
    assert_eq!(v[0].state, "01");
    assert_eq!(v[0].inode, Some(4242));
    assert_eq!(v[0].path.as_deref(), Some("/run/x.sock"));
    assert_eq!(v[1].state, "?");
    assert_eq!(v[1].path, None);
}

#[test]
fn socket_links_give_inodes() {
    assert_eq!(socket_inode("socket:[123]"), Some(123));
    assert_eq!(socket_inode("pipe:[123]"), None);
    assert_eq!(socket_inode("socket:[x]"), None);
}

#[test]
fn owners_are_collected_per_inode() {
    let links = vec![
        FdLinks { pid: 10, targets: vec!["socket:[5]".to_string(), "/dev/null".to_string()] },
        FdLinks { pid: 11, targets: vec!["socket:[5]".to_string(), "socket:[6]".to_string()] },
    ];
    let pairs = socket_owners(&links);
    assert_eq!(owners_for(&pairs, 5), vec![10, 11]);
    assert_eq!(owners_for(&pairs, 6), vec![11]);
    assert!(owners_for(&pairs, 7).is_empty());
}

fn net(tcp: Field<Vec<u8>>) -> NetFiles {
    NetFiles {
        tcp,
        tcp6: Field::Value(b"h\n".to_vec()),
        udp: Field::Value(b"h\n".to_vec()),
        udp6: Field::Value(b"h\n".to_vec()),
        unix: Field::Value(b"h\n".to_vec()),
    }
}

#[test]
fn sockets_get_their_owners_and_failures_stop_the_table() {
    let links = vec![FdLinks { pid: 42, targets: vec!["socket:[123]".to_string()] }];
    let tcp = Field::Value(b"h\n0: 0100007F:0016 00000000:0000 0A 0 0 0 0 0 123\n".to_vec());
    match collect_sockets(net(tcp), &links) {
        Field::Value(v) => {
            assert_eq!(v.len(), 1);
            assert_eq!(v[0].owners, vec![42]);
        }
        other => panic!("unexpected {}", other.status()),
    }
    assert_eq!(collect_sockets(net(Field::PermissionDenied), &links).status(), "permission_denied");
}

#[test]
fn systemctl_outcomes() {
    match systemd_lines(CommandOutcome::Finished { success: true, stdout: b"a.service\nb.service\n".to_vec() }) {
        Field::Value(v) => assert_eq!(v, vec!["a.service".to_string(), "b.service".to_string()]),
        other => panic!("unexpected {}", other.status()),
    }
    assert_eq!(systemd_lines(CommandOutcome::Finished { success: false, stdout: Vec::new() }).status(), "unsupported");
    assert_eq!(systemd_lines(CommandOutcome::Failed(IoFailure::NotFound)).status(), "unsupported");
    assert_eq!(systemd_lines(CommandOutcome::Failed(IoFailure::Other)).status(), "io_error");
}

#[test]
fn read_failures_of_inventory_files() {
    assert_eq!(read_error::<u8>(IoFailure::PermissionDenied).status(), "permission_denied");
    assert_eq!(read_error::<u8>(IoFailure::NotFound).status(), "unsupported");
    assert_eq!(read_error::<u8>(IoFailure::Other).status(), "io_error");
}

fn reads(cgroup: &[u8]) -> ProcessReads {
    ProcessReads {
        stat: Field::Value(b"1 (x) S 0 0 0 0 0 0 0 0 0 0 1 2 0 0 0 0 0 0 3 0".to_vec()),
        cmdline: Field::NotCollected,
        executable: Field::Vanished,
        status: Field::Vanished,
        io: Field::Vanished,
        cgroup: Field::Value(cgroup.to_vec()),
        tasks: Field::Vanished,
        namespaces: Vec::new(),
    }
}

#[test]
fn inventory_units_are_sorted_and_distinct() {
    let ps = vec![
        read_process(1, false, reads(b"0::/system.slice/b.service\n")),
        read_process(2, false, reads(b"0::/system.slice/a.service\n")),
        read_process(3, false, reads(b"0::/system.slice/b.service\n")),
        read_process(4, false, reads(b"0::/\n")),
    ];
    let none: Field<Vec<u8>> = Field::Vanished;
    let snapshot = assemble_snapshot(1, 0, 0, 0, ps, &none, &none);
    let sources = ActivitySources {
        net: net(Field::Value(b"h\n".to_vec())),
        fd_links: Vec::new(),
        mountinfo: Field::PermissionDenied,
        cgroup_count: Field::Value(3),
        cgroups: Field::Value(vec!["a".to_string()]),
        system_units: Field::Unsupported,
        user_units: Field::Unsupported,
        system_timers: Field::Unsupported,
        user_timers: Field::Unsupported,
    };
    let inventory = collect(&snapshot, sources);
    assert_eq!(inventory.units, vec!["a.service".to_string(), "b.service".to_string()]);
    assert_eq!(inventory.mounts.status(), "permission_denied");
    assert_eq!(inventory.cgroup_count.copied(), Some(3));
}
