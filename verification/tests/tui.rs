use std::collections::{HashMap, HashSet};
use whats_running::activity::{parse_mounts, parse_unix};
use whats_running::field::Field;
use whats_running::procfs::{assemble_snapshot, read_process, ProcessReads, Snapshot};
use whats_running::tui::{
    depth, field_count, field_value, filter_name, list_window, listed_processes, matching_mounts,
    matching_sockets, order_listed, pane_name, sort_name, tree_order, Filter, KeyAction, Pane,
    Sort, Ui, sanitize, field_text, frame_lines, Detail, pane_lines,
};
use whats_running::activity::{Inventory, MountRecord, SocketRecord};
use whats_running::events::{Capture, Event, Kind};

#[test]
fn cycles_are_bounded() {
    let p = HashMap::from([(1, 2), (2, 1)]);
    assert!(depth(1, &p, &HashSet::from([1, 2])) <= 2)
}

#[test]
fn depth_counts_known_ancestors() {
    let p = HashMap::from([(5, 4), (4, 1), (1, 0)]);
    let known = HashSet::from([1, 4, 5]);
    assert_eq!(depth(5, &p, &known), 2);
    assert_eq!(depth(1, &p, &known), 0);
    assert_eq!(depth(5, &p, &HashSet::from([5])), 0);
    assert_eq!(depth(9, &p, &known), 0);
    let cycle = HashMap::from([(1, 2), (2, 3), (3, 1)]);
    assert_eq!(depth(1, &cycle, &HashSet::from([1, 2, 3])), 3);
}

fn process(pid: u32, ppid: u32, name: &str, uid: u32, rss: u64) -> whats_running::procfs::Process {
    let reads = ProcessReads {
        stat: Field::Value(format!("{pid} ({name}) S {ppid} 0 0 0 0 0 0 0 0 0 1 2 0 0 0 0 0 0 3 0").into_bytes()),
        cmdline: Field::NotCollected,
        executable: Field::Value(format!("/usr/bin/{name}")),
        status: Field::Value(format!("Uid: {uid} {uid}\nVmRSS: {rss} kB\n").into_bytes()),
        io: Field::Vanished,
        cgroup: Field::Value(b"0::/system.slice/x.service\n".to_vec()),
        tasks: Field::Vanished,
        namespaces: Vec::new(),
    };
    read_process(pid, false, reads)
}

fn snapshot(ps: Vec<whats_running::procfs::Process>) -> Snapshot {
    let none: Field<Vec<u8>> = Field::Vanished;
    assemble_snapshot(1, 0, 0, 0, ps, &none, &none)
}

fn pids(s: &Snapshot, idx: &[usize]) -> Vec<u32> {
    idx.iter().map(|i| s.processes[*i].pid).collect()
}

#[test]
fn user_apps_leave_out_kernel_threads() {
    let s = snapshot(vec![
        process(1, 0, "systemd", 0, 10),
        process(2, 0, "kthreadd", 0, 0),
        process(3, 2, "rcu_gp", 0, 0),
        process(40, 1, "kworker/0:1", 0, 0),
        process(50, 1, "mdadm", 0, 1),
        process(60, 1, "firefox", 1000, 500),
    ]);
    let listed = listed_processes(&s, Filter::UserApps, "", Some(1000));
    assert_eq!(pids(&s, &listed), vec![1, 60]);
    let all = listed_processes(&s, Filter::All, "", None);
    assert_eq!(all.len(), 6);
    let mine = listed_processes(&s, Filter::Mine, "", Some(1000));
    assert_eq!(pids(&s, &mine), vec![60]);
    let problems = listed_processes(&s, Filter::Problems, "", None);
    assert_eq!(problems.len(), 6);
    let search = listed_processes(&s, Filter::All, "FIRE", None);
    assert_eq!(pids(&s, &search), vec![60]);
    let by_exe = listed_processes(&s, Filter::All, "usr/bin/sys", None);
    assert_eq!(pids(&s, &by_exe), vec![1]);
}

#[test]
fn sorts_by_memory_pid_and_name() {
    let s = snapshot(vec![
        process(1, 0, "b", 0, 10),
        process(2, 0, "a", 0, 30),
        process(3, 0, "c", 0, 30),
        process(4, 0, "a", 0, 5),
    ]);
    let list = listed_processes(&s, Filter::All, "", None);
    assert_eq!(pids(&s, &order_listed(&s, list.clone(), Sort::Memory)), vec![2, 3, 1, 4]);
    assert_eq!(pids(&s, &order_listed(&s, list.clone(), Sort::Pid)), vec![1, 2, 3, 4]);
    assert_eq!(pids(&s, &order_listed(&s, list.clone(), Sort::Name)), vec![2, 4, 1, 3]);
    assert_eq!(order_listed(&s, list.clone(), Sort::Cpu), list);
}

#[test]
fn tree_puts_parents_first() {
    let s = snapshot(vec![
        process(1, 0, "init", 0, 1),
        process(5, 9, "child", 0, 1),
        process(7, 1, "b", 0, 1),
        process(9, 1, "a", 0, 1),
        process(20, 21, "loop1", 0, 1),
        process(21, 20, "loop2", 0, 1),
        process(30, 99, "orphan", 0, 1),
    ]);
    let list = listed_processes(&s, Filter::All, "", None);
    let ordered = tree_order(&s, list);
    assert_eq!(pids(&s, &ordered), vec![1, 7, 9, 5, 30, 20, 21]);
}

#[test]
fn window_keeps_the_selection_on_screen() {
    assert_eq!(list_window(50, 10, 24, true), (9, 14, 0));
    assert_eq!(list_window(30, 100, 24, false), (30, 18, 13));
    assert_eq!(list_window(0, 0, 3, false), (0, 1, 0));
}

#[test]
fn counts_show_values_or_status() {
    let v: Field<Vec<u8>> = Field::Value(vec![1, 2, 3]);
    assert_eq!(field_count(&v), "3");
    let d: Field<Vec<u8>> = Field::PermissionDenied;
    assert_eq!(field_count(&d), "<permission_denied>");
    assert_eq!(field_value(&Field::Value(42)), "42");
    assert_eq!(field_value(&Field::IoError), "<io_error>");
}

#[test]
fn mode_names() {
    assert_eq!(sort_name(Sort::Cpu), "cpu");
    assert_eq!(sort_name(Sort::Name), "name");
    assert_eq!(filter_name(Filter::UserApps), "user-apps (no kernel threads)");
    assert_eq!(filter_name(Filter::Problems), "problems");
    assert_eq!(pane_name(Pane::Services), "services/cgroups");
    assert_eq!(pane_name(Pane::System), "timers/mounts");
}

#[test]
fn keys_cycle_and_toggle() {
    let mut ui = Ui::new();
    assert_eq!(ui.handle_key(b's'), KeyAction::Continue);
    assert_eq!(ui.sort, Sort::Memory);
    for _ in 0..3 {
        ui.handle_key(b's');
    }
    assert_eq!(ui.sort, Sort::Cpu);
    ui.handle_key(b'j');
    ui.handle_key(b'j');
    assert_eq!(ui.selected, 2);
    ui.handle_key(b'f');
    assert_eq!(ui.filter, Filter::Mine);
    assert_eq!(ui.selected, 0);
    ui.handle_key(b'k');
    assert_eq!(ui.selected, 0);
    ui.handle_key(b't');
    assert!(ui.tree);
    ui.handle_key(b't');
    assert!(!ui.tree);
    ui.handle_key(b'd');
    assert!(!ui.details);
    for _ in 0..5 {
        ui.handle_key(b'v');
    }
    assert_eq!(ui.pane, Pane::Processes);
    assert_eq!(ui.handle_key(b'r'), KeyAction::Refresh);
    assert_eq!(ui.handle_key(b'q'), KeyAction::Quit);
    assert_eq!(ui.handle_key(3), KeyAction::Quit);
}

#[test]
fn search_editing() {
    let mut ui = Ui::new();
    ui.handle_key(b'/');
    assert!(ui.editing);
    for b in b"fo q" {
        assert_eq!(ui.handle_key(*b), KeyAction::Continue);
    }
    assert_eq!(ui.search, "fo q");
    ui.handle_key(127);
    assert_eq!(ui.search, "fo ");
    ui.handle_key(7);
    assert_eq!(ui.search, "fo ");
    ui.handle_key(b'\r');
    assert!(!ui.editing);
    assert_eq!(ui.search, "fo ");
    ui.handle_key(b'/');
    ui.handle_key(27);
    assert!(!ui.editing);
    assert_eq!(ui.search, "");
}

#[test]
fn inventory_panes_search_addresses_paths_and_mount_points() {
    let sockets = parse_unix(b"h\nff: 2 0 0 1 01 10 /run/dbus/system_bus_socket\nff: 2 0 0 1 01 11 /tmp/x\nff: 2 0 0 1 01 12\n");
    assert_eq!(matching_sockets(&sockets, "dbus"), vec![0]);
    assert_eq!(matching_sockets(&sockets, ""), vec![0, 1, 2]);
    assert_eq!(matching_sockets(&sockets, "-"), vec![0, 1, 2]);
    assert!(matching_sockets(&sockets, "nothing").is_empty());
    let mounts = parse_mounts(b"1 2 0:1 / /home rw - ext4 /dev/a rw\n3 4 0:2 / /boot rw - vfat /dev/b rw\n");
    assert_eq!(matching_mounts(&mounts, "boo"), vec![1]);
    assert_eq!(matching_mounts(&mounts, ""), vec![0, 1]);
}

#[test]
fn starts_with_all_processes_and_cycles_three_filters() {
    let mut ui = Ui::new();
    assert_eq!(ui.filter, Filter::All);
    ui.handle_key(b'f');
    assert_eq!(ui.filter, Filter::Mine);
    ui.handle_key(b'f');
    assert_eq!(ui.filter, Filter::Problems);
    ui.handle_key(b'f');
    assert_eq!(ui.filter, Filter::All);
}

#[test]
fn sanitizes_control_characters() {
    assert_eq!(sanitize("a\x1b[2Jb\tc\u{85}d\u{7f}é"), "a?[2Jb?c?d?é");
    assert_eq!(sanitize("plain text"), "plain text");
}

#[test]
fn field_text_shows_value_or_status() {
    assert_eq!(field_text(&Field::Value("x".to_string())), "x");
    assert_eq!(field_text(&Field::Vanished), "<vanished>");
}

fn head() -> whats_running::tui::FrameHead {
    whats_running::tui::FrameHead {
        pane: Pane::Processes,
        observer_pid: 7,
        processes: 2,
        collection_ms: "1.50".to_string(),
        memory_used: "10".to_string(),
        memory_total: "20".to_string(),
        swap_used: "0".to_string(),
        swap_total: "0".to_string(),
        sort: Sort::Cpu,
        filter: Filter::All,
        tree: false,
        search: "\"\"".to_string(),
    }
}

fn cell(pid: u32, name: &str, depth: usize) -> whats_running::tui::RowCells {
    whats_running::tui::RowCells {
        pid,
        cpu: "1.0".to_string(),
        rss_mib: "2.5".to_string(),
        read: "?".to_string(),
        write: "0".to_string(),
        name: name.to_string(),
        depth,
    }
}

#[test]
fn frame_has_header_legend_rows_and_details() {
    let cells = vec![cell(1, "init", 0), cell(7, "whats\x1brunning", 1)];
    let detail = Detail {
        ids: "PID=7".to_string(),
        executable: "/bin/x\n".to_string(),
        command: "<not_collected>".to_string(),
        visibility: "complete".to_string(),
    };
    let lines = frame_lines(&head(), &cells, (1, 18, 0), 80, 40, None, Some(detail));
    assert_eq!(
        lines[0],
        "\x1b[H\x1b[2JWhat's Running?  Arch + Hyprland  view=processes self=7  processes=2  collection=1.50ms\x1b[K"
    );
    assert_eq!(
        lines[1],
        "memory 10 / 20 MiB  swap 0 / 0 MiB  sort=cpu filter=all tree=false search=\"\"\x1b[K"
    );
    assert_eq!(lines[2], format!("{}\x1b[K", "-".repeat(80)));
    assert_eq!(
        lines[3],
        "v views   / search   t tree   s sort   f filter   r refresh   j/k select   d details   q quit\x1b[K"
    );
    assert_eq!(lines[4], lines[2]);
    assert_eq!(lines[5], "  PID    CPU%   RSS MiB   READ/s  WRITE/s NAME\x1b[K");
    assert_eq!(lines[6], "  1         1.0       2.5       ?        0 init\x1b[K");
    assert_eq!(lines[7], "> 7         1.0       2.5       ?        0   whats?running [THIS TOOL]\x1b[K");
    assert_eq!(lines[8], "\x1b[K");
    assert_eq!(lines[9], "DETAIL (command may contain secrets)\x1b[K");
    assert_eq!(lines[11], "exe=/bin/x?\x1b[K");
    assert_eq!(lines.len(), 14);
    let short = frame_lines(&head(), &cells, (0, 1, 0), 30, 6, None, None);
    assert_eq!(short.len(), 6);
    assert_eq!(short[2], format!("{}\x1b[K", "-".repeat(30)));
    let narrow = frame_lines(&head(), &cells, (0, 2, 0), 10, 40, None, None);
    assert_eq!(narrow[6], "> 1         1.0       2.5       ?        0 i\x1b[K");
}

#[test]
fn panes_replace_the_table_and_are_sanitized() {
    let mut h = head();
    h.pane = Pane::Services;
    let pane = vec!["units=1".to_string(), "  a\x07.service".to_string()];
    let lines = frame_lines(&h, &Vec::new(), (0, 1, 0), 200, 40, Some(pane), None);
    assert_eq!(lines.len(), 7);
    assert_eq!(lines[2], format!("{}\x1b[K", "-".repeat(100)));
    assert_eq!(lines[6], "  a?.service\x1b[K");
    assert!(lines[0].contains("view=services/cgroups"));
}

fn inventory() -> Inventory {
    let socket = |local: &str, path: Option<&str>, owners: Vec<u32>| SocketRecord {
        protocol: "tcp",
        local: local.to_string(),
        remote: "0.0.0.0:0".to_string(),
        state: "LISTEN".to_string(),
        inode: Some(7),
        path: path.map(str::to_string),
        owners,
    };
    let mount = |point: &str, fs: &str, source: &str| MountRecord {
        mount_point: point.to_string(),
        fs_type: fs.to_string(),
        source: source.to_string(),
    };
    Inventory {
        sockets: Field::Value(vec![
            socket("127.0.0.1:22", None, vec![10, 11]),
            socket("0.0.0.0:80", Some("/run/web"), vec![]),
            socket("[::]:443", None, vec![12]),
        ]),
        mounts: Field::Value(vec![
            mount("/", "ext4", "/dev/sda1"),
            mount("/home", "btrfs", "/dev/sdb1"),
            mount("/home/x/data", "xfs", "/dev/sdc1"),
        ]),
        cgroup_count: Field::Value(2),
        cgroups: Field::Value(vec!["/a".to_string(), "/b".to_string(), "/c".to_string()]),
        units: vec!["a.service".to_string(), "b.scope".to_string(), "c.service".to_string()],
        system_units: Field::Value(vec!["x.service".to_string()]),
        user_units: Field::PermissionDenied,
        system_timers: Field::Value(vec!["t1.timer".to_string(), "t2.timer".to_string()]),
        user_timers: Field::Value(vec!["u1.timer".to_string()]),
    }
}

#[test]
fn services_pane_lists_half_a_page_of_units_and_cgroups() {
    let inv = inventory();
    let lines = pane_lines(Pane::Services, Some(&inv), "", 4, None).unwrap();
    assert_eq!(
        lines,
        vec![
            "associated_units=3 system_units=1 user_units=<permission_denied> cgroups=2",
            "",
            "UNITS / SCOPES",
            "  a.service",
            "  b.scope",
            "",
            "CGROUPS",
            "  /a",
            "  /b",
        ]
    );
}

#[test]
fn network_pane_lists_matching_sockets_in_columns() {
    let inv = inventory();
    let lines = pane_lines(Pane::Network, Some(&inv), "", 2, None).unwrap();
    assert_eq!(lines[0], "sockets=3 (owners are visible PID evidence; [] means unknown/unowned)");
    assert_eq!(lines[1], "");
    assert_eq!(lines[2], "SOCKETS");
    assert_eq!(lines[3], format!("  {:<5} {:<28} owners={:?} path={}", "tcp", "127.0.0.1:22", vec![10u32, 11], "-"));
    assert_eq!(lines[4], "  tcp   0.0.0.0:80                   owners=[] path=/run/web");
    assert_eq!(lines.len(), 5);
    let found = pane_lines(Pane::Network, Some(&inv), "web", 10, None).unwrap();
    assert_eq!(found.len(), 4);
    assert_eq!(found[3], "  tcp   0.0.0.0:80                   owners=[] path=/run/web");
    let none = pane_lines(Pane::Network, Some(&inv), "nothing", 10, None).unwrap();
    assert_eq!(none.len(), 3);
}

#[test]
fn system_pane_lists_timers_then_matching_mounts() {
    let inv = inventory();
    let lines = pane_lines(Pane::System, Some(&inv), "home", 6, None).unwrap();
    assert_eq!(
        lines,
        vec![
            "system_timers=2 user_timers=1 mounts=3",
            "",
            "TIMERS",
            "  t1.timer",
            "  t2.timer",
            "  u1.timer",
            "",
            "MOUNTS",
            "  btrfs        /home <- /dev/sdb1",
            "  xfs          /home/x/data <- /dev/sdc1",
        ]
    );
}

#[test]
fn inventory_panes_need_the_inventory() {
    assert_eq!(pane_lines(Pane::Services, None, "", 10, None), None);
    assert_eq!(pane_lines(Pane::Processes, None, "", 10, None), None);
    let inv = inventory();
    assert_eq!(pane_lines(Pane::Processes, Some(&inv), "", 10, None), Some(Vec::new()));
}

#[test]
fn events_pane_shows_newest_events_first() {
    let event = |sequence: u32| Event {
        sequence,
        timestamp_ns: 5,
        received_unix_ms: 6,
        cpu: 0,
        kind: Kind::Exec { pid: 9 },
    };
    let capture: Result<Capture, String> = Ok(Capture { events: vec![event(1), event(2), event(3)], sequence_gaps: 4 });
    let lines = pane_lines(Pane::Events, None, "", 2, Some(&capture)).unwrap();
    assert_eq!(
        lines,
        vec![
            "".to_string(),
            "EVENT COLLECTOR: linux-proc-connector events=3 sequence_gaps=4".to_string(),
            format!("  {}", event(3).display_text()),
            format!("  {}", event(2).display_text()),
        ]
    );
    assert_eq!(
        pane_lines(Pane::Events, None, "", 2, None).unwrap(),
        vec!["", "EVENT COLLECTOR: not enabled (launch with --tui --events N)"]
    );
    let failed: Result<Capture, String> = Err("denied".to_string());
    assert_eq!(
        pane_lines(Pane::Events, None, "", 2, Some(&failed)).unwrap(),
        vec!["", "EVENT COLLECTOR: unavailable: denied"]
    );
}

#[test]
fn filter_presses_cycle_through_three_filters() {
    let mut ui = Ui::new();
    assert_eq!(ui.filter, Filter::All);
    ui.handle_key(b'f');
    assert_eq!(ui.filter, Filter::Mine);
    ui.handle_key(b'f');
    assert_eq!(ui.filter, Filter::Problems);
    ui.handle_key(b'f');
    assert_eq!(ui.filter, Filter::All);
    ui.filter = Filter::UserApps;
    ui.selected = 4;
    ui.handle_key(b'f');
    assert_eq!(ui.filter, Filter::Mine);
    assert_eq!(ui.selected, 0);
    for _ in 0..3 {
        ui.handle_key(b'f');
    }
    assert_eq!(ui.filter, Filter::Mine);
}
