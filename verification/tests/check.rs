use whats_running::activity::parse_inet;
use whats_running::check::{
    decode_defined, decode_local, decode_v4, decode_v6, hex_bytes, listening_order, pid_name,
    port_line, process_line, report_order,
};
use whats_running::field::Field;
use whats_running::procfs::{assemble_snapshot, read_process, ProcessReads};

#[test]
fn decodes_ipv4_loopback_and_port() {
    assert_eq!(decode_local("0100007F:0016", "tcp"), "127.0.0.1:22");
}

#[test]
fn decodes_ipv4_wildcard() {
    assert_eq!(decode_local("00000000:1F90", "tcp"), "0.0.0.0:8080");
}

#[test]
fn decodes_ipv6_loopback() {
    assert_eq!(
        decode_local("00000000000000000000000001000000:0050", "tcp6"),
        "[::1]:80"
    );
}

#[test]
fn falls_back_on_malformed_input() {
    assert_eq!(decode_local("not-an-address", "tcp"), "not-an-address");
}

#[test]
fn decodes_ipv6_addresses_in_their_shortest_form() {
    assert_eq!(decode_local("B80D0120000000000000000001000000:01BB", "tcp6"), "[2001:db8::1]:443");
    assert_eq!(decode_local("00000000000000000000000000000000:0016", "tcp6"), "[::]:22");
    assert_eq!(decode_local("0000000000000000FFFF00000100007F:0050", "tcp6"), "[::ffff:127.0.0.1]:80");
}

#[test]
fn bad_ports_and_lengths_fall_back() {
    assert_eq!(decode_local("0100007F:XYZ", "tcp"), "0100007F:XYZ");
    assert_eq!(decode_local("0100007F:10000", "tcp"), "0100007F:10000");
    assert_eq!(decode_local("01007F:0016", "tcp"), "01007F:0016");
    assert_eq!(decode_local("0100007F:0016", "tcp6"), "0100007F:0016");
}

#[test]
fn hex_pairs() {
    assert_eq!(hex_bytes("0aFF"), Some(vec![10, 255]));
    assert_eq!(hex_bytes("abc"), None);
    assert_eq!(hex_bytes("zz"), None);
    assert_eq!(hex_bytes(""), Some(vec![]));
    assert_eq!(decode_v4("0100007F"), Some((127, 0, 0, 1)));
    assert_eq!(decode_v6("00"), None);
    assert!(decode_defined("0100007F:0016"));
}

fn reads(name: &str, pid: u32) -> ProcessReads {
    ProcessReads {
        stat: Field::Value(format!("{pid} ({name}) S 1 0 0 0 0 0 0 0 0 0 1 2 0 0 0 0 0 0 3 0").into_bytes()),
        cmdline: Field::NotCollected,
        executable: Field::Vanished,
        status: Field::Vanished,
        io: Field::Vanished,
        cgroup: Field::Vanished,
        tasks: Field::Vanished,
        namespaces: Vec::new(),
    }
}

#[test]
fn report_lists_by_lowercase_name_then_pid() {
    let ps = vec![
        read_process(5, false, reads("zsh", 5)),
        read_process(9, false, reads("Bash", 9)),
        read_process(3, false, reads("bash", 3)),
    ];
    let none: Field<Vec<u8>> = Field::Vanished;
    let s = assemble_snapshot(1, 0, 0, 0, ps, &none, &none);
    let order: Vec<u32> = report_order(&s).iter().map(|i| s.processes[*i].pid).collect();
    assert_eq!(order, vec![3, 9, 5]);
    assert_eq!(pid_name(&s, 9), "Bash");
    assert_eq!(pid_name(&s, 77), "?");
}

#[test]
fn listening_ports_are_sorted_by_address() {
    let mut sockets = parse_inet("tcp", b"h\n0: 0100007F:1F90 00000000:0000 0A 0 0 0 0 0 1\n1: 0100007F:0016 00000000:0000 0A 0 0 0 0 0 2\n2: 0100007F:0050 0200007F:0050 01 0 0 0 0 0 3\n");
    sockets.extend(parse_inet("udp", b"h\n0: 00000000:0035 00000000:0000 07 0 0 0 0 0 4\n"));
    let order = listening_order(&sockets);
    let locals: Vec<&str> = order.iter().map(|i| sockets[*i].local.as_str()).collect();
    assert_eq!(locals, vec!["00000000:0035", "0100007F:0016", "0100007F:1F90"]);
}

#[test]
fn whitespace_matches_the_standard_library() {
    for u in 0u32..0x3100 {
        if let Some(c) = char::from_u32(u) {
            assert_eq!(whats_running::text::is_whitespace(c), c.is_whitespace(), "{u:#x}");
        }
    }
}

#[test]
fn quick_check_lines() {
    let ps = vec![read_process(42, false, reads("sshd", 42)), read_process(43, false, reads("ev\x1bil", 43))];
    let none: Field<Vec<u8>> = Field::Vanished;
    let s = assemble_snapshot(1, 0, 0, 0, ps, &none, &none);
    assert_eq!(process_line(&s.processes[0]), format!("  {:<28} pid 42", "sshd"));
    assert_eq!(process_line(&s.processes[1]), format!("  {:<28} pid 43", "ev?il"));
    let mut sockets = parse_inet("tcp", b"h\n0: 0100007F:0016 00000000:0000 0A 0 0 0 0 0 1\n");
    assert_eq!(port_line(&s, &sockets[0]), format!("  {:<5} {:<22} unknown owner", "tcp", "127.0.0.1:22"));
    sockets[0].owners = vec![42, 99];
    assert_eq!(
        port_line(&s, &sockets[0]),
        format!("  {:<5} {:<22} sshd (pid 42), ? (pid 99)", "tcp", "127.0.0.1:22")
    );
}
