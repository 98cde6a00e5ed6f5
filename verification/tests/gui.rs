use std::collections::HashSet;
use whats_running::field::Field;
use whats_running::gui::{is_kernel_thread_name, App, FilterMode, Message, SortCol};
use whats_running::procfs::{assemble_snapshot, read_process, Process, ProcessReads, Snapshot};

fn process(pid: u32, ppid: u32, name: &str, uid: u32, rss: u64) -> Process {
    let reads = ProcessReads {
        stat: Field::Value(format!("{pid} ({name}) S {ppid} 0 0 0 0 0 0 0 0 0 1 2 0 0 0 0 0 0 3 0").into_bytes()),
        cmdline: Field::NotCollected,
        executable: Field::Vanished,
        status: Field::Value(format!("Uid: {uid} {uid}\nVmRSS: {rss} kB\n").into_bytes()),
        io: Field::Vanished,
        cgroup: Field::Vanished,
        tasks: Field::Vanished,
        namespaces: Vec::new(),
    };
    read_process(pid, false, reads)
}

fn snapshot(ps: Vec<Process>) -> Snapshot {
    let none: Field<Vec<u8>> = Field::Vanished;
    assemble_snapshot(1, 0, 0, 0, ps, &none, &none)
}

#[test]
fn kernel_thread_names() {
    assert!(is_kernel_thread_name(""));
    assert!(is_kernel_thread_name("kworker/3:1"));
    assert!(is_kernel_thread_name("kthreadd"));
    assert!(is_kernel_thread_name("md"));
    assert!(!is_kernel_thread_name("mdadm"));
    assert!(is_kernel_thread_name("card0-crtc0"));
    assert!(!is_kernel_thread_name("firefox"));
}

#[test]
fn sorting_clicks() {
    let mut app = App::new();
    assert_eq!(app.title(), "What's Running?");
    assert_eq!(app.sort, SortCol::Cpu);
    assert!(!app.sort_asc);
    app.update(Message::SortBy(SortCol::Cpu));
    assert!(app.sort_asc);
    app.update(Message::SortBy(SortCol::Name));
    assert_eq!(app.sort, SortCol::Name);
    assert!(app.sort_asc);
    app.update(Message::SortBy(SortCol::Memory));
    assert!(!app.sort_asc);
    app.update(Message::SelectRow(7));
    assert_eq!(app.selected, Some(7));
    app.update(Message::SelectRow(7));
    assert_eq!(app.selected, None);
    app.update(Message::ToggleTree);
    assert!(app.tree);
    app.update(Message::SetFilter(FilterMode::Mine));
    assert_eq!(app.filter, FilterMode::Mine);
    app.update(Message::SearchChanged("abc".to_string()));
    assert_eq!(app.search, "abc");
}

#[test]
fn ticks_keep_the_previous_snapshot() {
    let mut app = App::new();
    app.advance(Some(snapshot(vec![process(1, 0, "a", 0, 1)])));
    assert!(app.previous.is_none());
    app.advance(Some(snapshot(vec![process(2, 0, "b", 0, 1)])));
    assert_eq!(app.previous.as_ref().unwrap().processes[0].pid, 1);
    assert_eq!(app.snapshot.as_ref().unwrap().processes[0].pid, 2);
    app.advance(None);
    assert!(app.snapshot.is_none());
    assert_eq!(app.previous.as_ref().unwrap().processes[0].pid, 1);
}

#[test]
fn filters_and_orders_the_list() {
    let s = snapshot(vec![
        process(2, 0, "kthreadd", 0, 0),
        process(3, 2, "whatever", 0, 0),
        process(10, 1, "Zed", 1000, 5),
        process(11, 1, "alpha", 1000, 50),
        process(12, 1, "beta", 0, 20),
    ]);
    let mut app = App::new();
    let kids: HashSet<u32> = HashSet::from([3]);
    assert!(!app.passes_filter(&s.processes[1], &kids, Some(1000)));
    assert!(app.passes_filter(&s.processes[2], &kids, Some(1000)));
    let listed = app.listed(&s, Some(1000));
    let pids: Vec<u32> = listed.iter().map(|i| s.processes[*i].pid).collect();
    assert_eq!(pids, vec![10, 11, 12]);
    app.update(Message::SortBy(SortCol::Memory));
    let by_memory: Vec<u32> = app.order(&s, listed.clone()).iter().map(|i| s.processes[*i].pid).collect();
    assert_eq!(by_memory, vec![11, 12, 10]);
    app.update(Message::SortBy(SortCol::Name));
    let by_name: Vec<u32> = app.order(&s, listed.clone()).iter().map(|i| s.processes[*i].pid).collect();
    assert_eq!(by_name, vec![10, 11, 12]);
    app.update(Message::SortBy(SortCol::Name));
    let by_name_desc: Vec<u32> = app.order(&s, listed.clone()).iter().map(|i| s.processes[*i].pid).collect();
    assert_eq!(by_name_desc, vec![12, 11, 10]);
    app.update(Message::SetFilter(FilterMode::Mine));
    app.update(Message::SearchChanged("ALP".to_string()));
    let found: Vec<u32> = app.listed(&s, Some(1000)).iter().map(|i| s.processes[*i].pid).collect();
    assert_eq!(found, vec![11]);
}
