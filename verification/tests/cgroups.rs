use whats_running::cgroups::{child_of, CgroupCount, CgroupList, DirEntry, Listing};
use whats_running::field::{Field, IoFailure};

fn dir(name: &str) -> DirEntry {
    DirEntry { name: name.to_string(), is_dir: true }
}

fn file(name: &str) -> DirEntry {
    DirEntry { name: name.to_string(), is_dir: false }
}

fn listing(path: &str) -> Listing {
    match path {
        "" => Listing::Entries(vec![dir("system.slice"), file("cgroup.procs"), dir("user.slice")]),
        "system.slice" => Listing::Entries(vec![dir("a.service"), dir("b.service")]),
        "user.slice" => Listing::Entries(vec![dir("user-1000.slice")]),
        _ => Listing::Entries(Vec::new()),
    }
}

#[test]
fn child_paths() {
    assert_eq!(child_of("", "a"), "a");
    assert_eq!(child_of("a", "b"), "a/b");
}

#[test]
fn counts_every_directory_once() {
    let mut walk = CgroupCount::new();
    let mut result = None;
    while let Some(d) = walk.next() {
        if let Some(r) = walk.visit(&d, listing(&d)) {
            result = Some(r);
            break;
        }
    }
    let count = result.unwrap_or_else(|| walk.count());
    assert_eq!(count.copied(), Some(5));
}

#[test]
fn lists_directories_sorted() {
    let mut walk = CgroupList::new();
    while let Some(d) = walk.next() {
        assert!(walk.visit(&d, listing(&d)).is_none());
    }
    match walk.finish() {
        Field::Value(v) => assert_eq!(
            v,
            vec![
                "system.slice",
                "system.slice/a.service",
                "system.slice/b.service",
                "user.slice",
                "user.slice/user-1000.slice"
            ]
        ),
        other => panic!("unexpected {}", other.status()),
    }
}

#[test]
fn unreadable_directories_end_the_walk() {
    let mut walk = CgroupCount::new();
    let d = walk.next().unwrap();
    assert_eq!(walk.visit(&d, Listing::Failed(IoFailure::PermissionDenied)).unwrap().status(), "permission_denied");
    let mut list = CgroupList::new();
    let d = list.next().unwrap();
    assert_eq!(list.visit(&d, Listing::Failed(IoFailure::NotFound)).unwrap().status(), "io_error");
}
