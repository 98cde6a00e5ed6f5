//! Decisions of the graphical inspector: its state and what each user
//! action does to it, which processes it lists and in which order.
use vstd::prelude::*;
use std::collections::HashSet;
use vstd::utf8::encode_utf8;
use vstd::string::StrSliceExecFns;
use crate::field::Field;
use crate::order::{entries_sorted, order_entries};
use crate::procfs::{Process, Snapshot};
use crate::text::{chars_equal, chars_of, nested_view, to_lowercase, unicode_lowercase};
use crate::tui::{any_prefix, chars_contain, has_any_prefix, name_or_empty, occurs_in};

verus! {

broadcast use vstd::std_specs::hash::group_hash_axioms;

/// The column the list is sorted by.
#[derive(Debug, Clone, Copy, PartialEq, Eq, Structural)]
pub enum SortCol {
    Name,
    Cpu,
    Memory,
    ReadRate,
    WriteRate,
}

/// Which processes the list shows.
#[derive(Debug, Clone, Copy, PartialEq, Eq, Structural)]
pub enum FilterMode {
    All,
    UserApps,
    Mine,
}

/// What the user did.
pub enum Message {
    SortBy(SortCol),
    SetFilter(FilterMode),
    SearchChanged(String),
    SelectRow(u32),
    ToggleTree,
}

/// The graphical inspector's state: the last two snapshots and the user's
/// choices.
pub struct App {
    pub snapshot: Option<Snapshot>,
    pub previous: Option<Snapshot>,
    pub sort: SortCol,
    pub sort_asc: bool,
    pub filter: FilterMode,
    pub search: String,
    pub selected: Option<u32>,
    pub tree: bool,
}

/// The name prefixes by which the graphical inspector recognises kernel
/// threads.
pub open spec fn gui_kernel_prefixes() -> Seq<&'static str> {
    seq![
        "kworker/", "kthread", "ksoftirqd", "migration/", "idle_inject/", "rcu_", "rcub/",
        "rcuc/", "kswapd", "kcompactd", "khugepaged", "kdevtmpfs", "netns", "kauditd",
        "khungtaskd", "oom_reaper", "writeback", "kblockd", "blkcg_punt_bio", "edac-poller",
        "devfreq_wq", "watchdogd", "watchdog/", "irq/", "i915", "nouveau", "amdgpu", "jbd2/",
        "ext4-", "xfs-", "btrfs", "cryptd", "zswap-", "dm-", "hwrng", "acpi_thermal_pm",
        "ipv6_addrconf", "nfsiod", "scsi_", "usb-storage", "cfg80211", "rpciod", "xprtiod",
        "pool_workqueue", "nvme-wq", "nvme-reset-wq", "nvme-delete-wq", "mld", "inet_frag_wq",
        "bioset", "ttm", "drm_sched", "drm-", "card",
    ]
}

/// Whether the graphical inspector takes a process name for a kernel
/// thread's: an empty name, a name with one of the prefixes, `kthreadd` or
/// `md`.
pub open spec fn kernel_thread_name(name: Seq<char>) -> bool {
    name.len() == 0 || any_prefix(name, gui_kernel_prefixes()) || name == "kthreadd"@ || name
        == "md"@
}

/// Whether a process name looks like a kernel thread's.
pub fn is_kernel_thread_name(name: &str) -> (r: bool)
    ensures
        r == kernel_thread_name(name@),
{
    let prefixes: [&str; 54] = [
        "kworker/", "kthread", "ksoftirqd", "migration/", "idle_inject/", "rcu_", "rcub/",
        "rcuc/", "kswapd", "kcompactd", "khugepaged", "kdevtmpfs", "netns", "kauditd",
        "khungtaskd", "oom_reaper", "writeback", "kblockd", "blkcg_punt_bio", "edac-poller",
        "devfreq_wq", "watchdogd", "watchdog/", "irq/", "i915", "nouveau", "amdgpu", "jbd2/",
        "ext4-", "xfs-", "btrfs", "cryptd", "zswap-", "dm-", "hwrng", "acpi_thermal_pm",
        "ipv6_addrconf", "nfsiod", "scsi_", "usb-storage", "cfg80211", "rpciod", "xprtiod",
        "pool_workqueue", "nvme-wq", "nvme-reset-wq", "nvme-delete-wq", "mld", "inet_frag_wq",
        "bioset", "ttm", "drm_sched", "drm-", "card",
    ];
    proof {
        assert(prefixes@ == gui_kernel_prefixes());
    }
    let cs = chars_of(name);
    let n = cs.as_slice();
    n.len() == 0 || has_any_prefix(n, prefixes.as_slice()) || chars_equal(n, chars_of("kthreadd").as_slice())
        || chars_equal(n, chars_of("md").as_slice())
}

/// Whether a process passes the graphical filter; `kids` are the PIDs of
/// the children of PID 2.
pub open spec fn gui_passes(filter: FilterMode, p: Process, kids: Set<u32>, uid: Option<u32>) -> bool {
    match filter {
        FilterMode::All => true,
        FilterMode::Mine => p.uid.present() == uid,
        FilterMode::UserApps => {
            &&& p.pid != 2
            &&& p.ppid.present() != Some(2u32)
            &&& !kids.contains(p.pid)
            &&& !kernel_thread_name(name_or_empty(p))
        },
    }
}

/// The PIDs of the processes whose parent is PID 2.
pub open spec fn kthreadd_kids(ps: Seq<Process>) -> Set<u32> {
    Set::new(|x: u32| exists|k: int| 0 <= k < ps.len() && (#[trigger] ps[k]).pid == x && ps[k].ppid.present() == Some(2u32))
}

/// Whether a process passes the graphical search: the lowercase search is
/// empty or occurs in the lowercase name.
pub open spec fn gui_search_passes(p: Process, lowered: Seq<char>) -> bool {
    lowered.len() == 0 || (p@.name matches Field::Value(n) && occurs_in(unicode_lowercase(n), lowered))
}

/// The positions among the first `n` processes that the graphical
/// inspector lists, in snapshot order.
pub open spec fn gui_listed(ps: Seq<Process>, filter: FilterMode, search: Seq<char>, uid: Option<u32>, n: int) -> Seq<usize>
    decreases n,
{
    if n <= 0 {
        Seq::empty()
    } else {
        let r = gui_listed(ps, filter, search, uid, n - 1);
        if gui_passes(filter, ps[n - 1], kthreadd_kids(ps), uid) && gui_search_passes(
            ps[n - 1],
            unicode_lowercase(search),
        ) {
            r.push((n - 1) as usize)
        } else {
            r
        }
    }
}

/// The graphical search matches anywhere in the name, ignoring case: a
/// process that passes the filter and whose lowercase name holds the
/// lowercase search at any position `j`, not only at the start, is listed.
pub proof fn lemma_gui_search_anywhere(
    ps: Seq<Process>,
    filter: FilterMode,
    search: Seq<char>,
    uid: Option<u32>,
    k: int,
    name: Seq<char>,
    j: int,
)
    requires
        0 <= k < ps.len(),
        ps.len() <= usize::MAX,
        gui_passes(filter, ps[k], kthreadd_kids(ps), uid),
        ps[k]@.name == Field::Value(name),
        0 <= j,
        j + unicode_lowercase(search).len() <= unicode_lowercase(name).len(),
        unicode_lowercase(name).subrange(j, j + unicode_lowercase(search).len())
            == unicode_lowercase(search),
    ensures
        gui_listed(ps, filter, search, uid, ps.len() as int).contains(k as usize),
{
    let lowered = unicode_lowercase(search);
    assert(unicode_lowercase(name).subrange(j, j + lowered.len()) == lowered);
    assert(occurs_in(unicode_lowercase(name), lowered));
    lemma_gui_listed_contains(ps, filter, search, uid, ps.len() as int, k);
}

/// Only processes that pass the filter and the search are listed: with the
/// current-user filter, those of the given UID; with the user-apps filter,
/// none that is PID 2, a child of PID 2 or named like a kernel thread; and,
/// for a non-empty search, only names holding the lowercase search.
pub proof fn lemma_gui_listed_only_matching(
    ps: Seq<Process>,
    filter: FilterMode,
    search: Seq<char>,
    uid: Option<u32>,
    n: int,
    k: int,
)
    requires
        0 <= n <= ps.len(),
        ps.len() <= usize::MAX,
        0 <= k < ps.len(),
        gui_listed(ps, filter, search, uid, n).contains(k as usize),
    ensures
        k < n,
        filter == FilterMode::Mine ==> ps[k].uid.present() == uid,
        filter == FilterMode::UserApps ==> ps[k].pid != 2 && ps[k].ppid.present() != Some(2u32)
            && !kernel_thread_name(name_or_empty(ps[k])),
        unicode_lowercase(search).len() > 0 ==> (ps[k]@.name matches Field::Value(nm) && occurs_in(
            unicode_lowercase(nm),
            unicode_lowercase(search),
        )),
    decreases n,
{
    if n > 0 {
        let r = gui_listed(ps, filter, search, uid, n - 1);
        let o = gui_listed(ps, filter, search, uid, n);
        let i = choose|i: int| 0 <= i < o.len() && o[i] == k as usize;
        if gui_passes(filter, ps[n - 1], kthreadd_kids(ps), uid) && gui_search_passes(
            ps[n - 1],
            unicode_lowercase(search),
        ) && i == o.len() - 1 {
            assert(k == n - 1);
        } else {
            assert(r[i] == k as usize);
            lemma_gui_listed_only_matching(ps, filter, search, uid, n - 1, k);
        }
    }
}

/// A process that passes both the filter and the search is listed among
/// the first `n` when it is one of them.
proof fn lemma_gui_listed_contains(
    ps: Seq<Process>,
    filter: FilterMode,
    search: Seq<char>,
    uid: Option<u32>,
    n: int,
    k: int,
)
    requires
        0 <= k < n <= ps.len(),
        ps.len() <= usize::MAX,
        gui_passes(filter, ps[k], kthreadd_kids(ps), uid),
        gui_search_passes(ps[k], unicode_lowercase(search)),
    ensures
        gui_listed(ps, filter, search, uid, n).contains(k as usize),
    decreases n,
{
    let r = gui_listed(ps, filter, search, uid, n - 1);
    if k == n - 1 {
        let q = r.push((n - 1) as usize);
        assert(q[q.len() - 1] == k as usize);
    } else {
        lemma_gui_listed_contains(ps, filter, search, uid, n - 1, k);
        let i = choose|i: int| 0 <= i < r.len() && r[i] == k as usize;
        if gui_passes(filter, ps[n - 1], kthreadd_kids(ps), uid) && gui_search_passes(
            ps[n - 1],
            unicode_lowercase(search),
        ) {
            assert(r.push((n - 1) as usize)[i] == k as usize);
        }
    }
}

/// The text a column sorts by: the name's bytes for the name column.
pub open spec fn col_texts(ps: Seq<Process>, col: SortCol) -> Seq<Seq<u8>> {
    Seq::new(
        ps.len(),
        |i: int|
            if col == SortCol::Name {
                encode_utf8(name_or_empty(ps[i]))
            } else {
                Seq::empty()
            },
    )
}

/// The number a column sorts by: the resident memory (unknown as 0) for
/// the memory column.
pub open spec fn col_numbers(ps: Seq<Process>, col: SortCol) -> Seq<u64> {
    Seq::new(
        ps.len(),
        |i: int|
            if col == SortCol::Memory {
                match ps[i].rss_kib.present() {
                    Some(v) => v,
                    None => 0u64,
                }
            } else {
                0u64
            },
    )
}

/// Sorting by the memory column orders the listed processes by resident
/// memory (unknown counted as 0), from the largest unless ascending;
/// processes with the same figure keep their listed order.
pub proof fn lemma_memory_order(ps: Seq<Process>, asc: bool, r: Seq<usize>, a: int, b: int)
    requires
        entries_sorted(col_texts(ps, SortCol::Memory), col_numbers(ps, SortCol::Memory), !asc, r),
        forall|x: int| 0 <= x < r.len() ==> r[x] < ps.len(),
        0 <= a < b < r.len(),
    ensures
        ({
            let ma = match ps[r[a] as int].rss_kib.present() {
                Some(v) => v,
                None => 0u64,
            };
            let mb = match ps[r[b] as int].rss_kib.present() {
                Some(v) => v,
                None => 0u64,
            };
            &&& asc ==> ma <= mb
            &&& !asc ==> ma >= mb
            &&& ma == mb ==> r[a] < r[b]
        }),
{
    let t = col_texts(ps, SortCol::Memory);
    assert(t[r[a] as int] == Seq::<u8>::empty());
    assert(t[r[b] as int] == Seq::<u8>::empty());
    crate::order::lemma_lex_irreflexive(Seq::<u8>::empty());
    assert(crate::order::entry_before(t, col_numbers(ps, SortCol::Memory), !asc, r[a] as int, r[b] as int));
}

/// Sorting by the name column orders the listed processes by name, byte
/// by byte (an unknown name counted as empty), A to Z when ascending and
/// Z to A otherwise; equal names keep their listed order.
pub proof fn lemma_name_order(ps: Seq<Process>, asc: bool, r: Seq<usize>, a: int, b: int)
    requires
        entries_sorted(col_texts(ps, SortCol::Name), col_numbers(ps, SortCol::Name), !asc, r),
        forall|x: int| 0 <= x < r.len() ==> r[x] < ps.len(),
        0 <= a < b < r.len(),
    ensures
        ({
            let na = encode_utf8(name_or_empty(ps[r[a] as int]));
            let nb = encode_utf8(name_or_empty(ps[r[b] as int]));
            &&& asc ==> crate::order::lex_le(na, nb)
            &&& !asc ==> crate::order::lex_le(nb, na)
            &&& na == nb ==> r[a] < r[b]
        }),
{
    let n = col_numbers(ps, SortCol::Name);
    assert(n[r[a] as int] == 0u64);
    assert(n[r[b] as int] == 0u64);
    let na = encode_utf8(name_or_empty(ps[r[a] as int]));
    crate::order::lemma_lex_irreflexive(na);
    assert(crate::order::entry_before(col_texts(ps, SortCol::Name), n, !asc, r[a] as int, r[b] as int));
}

/// Whether the column's order rests on measured rates (floating point),
/// which the caller applies.
pub open spec fn rate_column(col: SortCol) -> bool {
    col == SortCol::Cpu || col == SortCol::ReadRate || col == SortCol::WriteRate
}

/// The sort after clicking a column header: the same column flips the
/// direction, a new one starts ascending for names and descending otherwise.
pub open spec fn sort_after(sort: SortCol, asc: bool, col: SortCol) -> (SortCol, bool) {
    if sort == col {
        (col, !asc)
    } else {
        (col, col == SortCol::Name)
    }
}

/// The selection after clicking a row: the selected row again clears it.
pub open spec fn selection_after(selected: Option<u32>, pid: u32) -> Option<u32> {
    if selected == Some(pid) {
        None
    } else {
        Some(pid)
    }
}

impl App {
    /// The state the inspector starts in: no snapshot yet, sorted by CPU
    /// from the highest, showing user applications, nothing selected.
    pub fn new() -> (r: App)
        ensures
            r.snapshot is None,
            r.previous is None,
            r.sort == SortCol::Cpu,
            !r.sort_asc,
            r.filter == FilterMode::UserApps,
            r.search@ == Seq::<char>::empty(),
            r.selected is None,
            !r.tree,
    {
        App {
            snapshot: None,
            previous: None,
            sort: SortCol::Cpu,
            sort_asc: false,
            filter: FilterMode::UserApps,
            search: String::new(),
            selected: None,
            tree: false,
        }
    }

    /// The window title.
    pub fn title(&self) -> (r: String)
        ensures
            r@ == "What's Running?"@,
    {
        String::from_str("What's Running?")
    }

    /// Applies a user action: choosing the sorted column again flips the
    /// direction, a new column starts ascending for names and descending
    /// otherwise; choosing the selected row again clears the selection.
    pub fn update(&mut self, msg: Message)
        ensures
            final(self).snapshot == old(self).snapshot,
            final(self).previous == old(self).previous,
            match msg {
                Message::SortBy(col) => {
                    &&& (final(self).sort, final(self).sort_asc) == sort_after(
                        old(self).sort,
                        old(self).sort_asc,
                        col,
                    )
                    &&& final(self).filter == old(self).filter
                    &&& final(self).search@ == old(self).search@
                    &&& final(self).selected == old(self).selected
                    &&& final(self).tree == old(self).tree
                },
                Message::SetFilter(f) => {
                    &&& final(self).filter == f
                    &&& final(self).sort == old(self).sort
                    &&& final(self).sort_asc == old(self).sort_asc
                    &&& final(self).search@ == old(self).search@
                    &&& final(self).selected == old(self).selected
                    &&& final(self).tree == old(self).tree
                },
                Message::SearchChanged(s) => {
                    &&& final(self).search@ == s@
                    &&& final(self).sort == old(self).sort
                    &&& final(self).sort_asc == old(self).sort_asc
                    &&& final(self).filter == old(self).filter
                    &&& final(self).selected == old(self).selected
                    &&& final(self).tree == old(self).tree
                },
                Message::SelectRow(pid) => {
                    &&& final(self).selected == selection_after(old(self).selected, pid)
                    &&& final(self).sort == old(self).sort
                    &&& final(self).sort_asc == old(self).sort_asc
                    &&& final(self).filter == old(self).filter
                    &&& final(self).search@ == old(self).search@
                    &&& final(self).tree == old(self).tree
                },
                Message::ToggleTree => {
                    &&& final(self).tree == !old(self).tree
                    &&& final(self).sort == old(self).sort
                    &&& final(self).sort_asc == old(self).sort_asc
                    &&& final(self).filter == old(self).filter
                    &&& final(self).search@ == old(self).search@
                    &&& final(self).selected == old(self).selected
                },
            },
    {
        match msg {
            Message::SortBy(col) => {
                if self.sort == col {
                    self.sort_asc = !self.sort_asc;
                } else {
                    self.sort = col;
                    self.sort_asc = col == SortCol::Name;
                }
            },
            Message::SetFilter(f) => self.filter = f,
            Message::SearchChanged(s) => self.search = s,
            Message::SelectRow(pid) => {
                let same = match self.selected {
                    Some(current) => current == pid,
                    None => false,
                };
                self.selected = if same {
                    None
                } else {
                    Some(pid)
                };
            },
            Message::ToggleTree => self.tree = !self.tree,
        }
    }

    /// Takes in the outcome of a periodic collection: the current snapshot
    /// becomes the previous one and a new one replaces it; a failed
    /// collection leaves no current snapshot (and the previous unchanged).
    pub fn advance(&mut self, collected: Option<Snapshot>)
        ensures
            final(self).snapshot == collected,
            final(self).previous == (if collected is Some && old(self).snapshot is Some {
                old(self).snapshot
            } else {
                old(self).previous
            }),
            final(self).sort == old(self).sort,
            final(self).sort_asc == old(self).sort_asc,
            final(self).filter == old(self).filter,
            final(self).search@ == old(self).search@,
            final(self).selected == old(self).selected,
            final(self).tree == old(self).tree,
    {
        let prev = self.snapshot.take();
        if let Some(snap) = collected {
            if let Some(p) = prev {
                self.previous = Some(p);
            }
            self.snapshot = Some(snap);
        }
    }

    /// Whether a process passes the filter; `kthreadd_kids` are the PIDs of
    /// the children of PID 2 and `uid` the user's own.
    pub fn passes_filter(&self, p: &Process, kthreadd_kids: &HashSet<u32>, uid: Option<u32>) -> (r: bool)
        ensures
            r == gui_passes(self.filter, *p, kthreadd_kids@, uid),
    {
        match self.filter {
            FilterMode::All => true,
            FilterMode::Mine => p.uid.copied() == uid,
            FilterMode::UserApps => {
                let parent_is_two = match p.ppid {
                    Field::Value(v) => v == 2,
                    _ => false,
                };
                if p.pid == 2 || parent_is_two || kthreadd_kids.contains(&p.pid) {
                    return false;
                }
                match &p.name {
                    Field::Value(n) => !is_kernel_thread_name(n.as_str()),
                    _ => {
                        proof {
                            reveal_strlit("");
                            assert(""@ =~= Seq::<char>::empty());
                        }
                        !is_kernel_thread_name("")
                    },
                }
            },
        }
    }

    /// The positions of the processes the inspector lists, in snapshot
    /// order: those that pass the filter and whose name contains the
    /// search, ignoring case.
    pub fn listed(&self, snap: &Snapshot, uid: Option<u32>) -> (r: Vec<usize>)
        ensures
            r@ == gui_listed(snap.processes@, self.filter, self.search@, uid, snap.processes@.len() as int),
    {
        let ps = &snap.processes;
        let mut kids: HashSet<u32> = HashSet::new();
        let mut i: usize = 0;
        while i < ps.len()
            invariant
                0 <= i <= ps@.len(),
                forall|x: u32|
                    kids@.contains(x) <==> exists|k: int|
                        0 <= k < i && (#[trigger] ps@[k]).pid == x && ps@[k].ppid.present() == Some(2u32),
            decreases ps.len() - i,
        {
            let child = match ps[i].ppid {
                Field::Value(v) => v == 2,
                _ => false,
            };
            if child {
                kids.insert(ps[i].pid);
            }
            proof {
                assert forall|x: u32|
                    kids@.contains(x) <==> exists|k: int|
                        0 <= k < i + 1 && (#[trigger] ps@[k]).pid == x && ps@[k].ppid.present() == Some(2u32) by {
                    if x == ps@[i as int].pid && child {
                        assert(ps@[i as int].pid == x);
                    }
                }
            }
            i = i + 1;
        }
        proof {
            assert(kids@ =~= kthreadd_kids(ps@));
        }
        let lower = to_lowercase(self.search.as_str());
        let lowered = chars_of(lower.as_str());
        let mut out: Vec<usize> = Vec::new();
        let mut n: usize = 0;
        while n < ps.len()
            invariant
                0 <= n <= ps@.len(),
                kids@ == kthreadd_kids(ps@),
                lowered@ == unicode_lowercase(self.search@),
                out@ == gui_listed(ps@, self.filter, self.search@, uid, n as int),
            decreases ps.len() - n,
        {
            let p = &ps[n];
            let mut keep = self.passes_filter(p, &kids, uid);
            if keep && lowered.len() > 0 {
                keep = match &p.name {
                    Field::Value(name) => {
                        let l = to_lowercase(name.as_str());
                        let cs = chars_of(l.as_str());
                        chars_contain(cs.as_slice(), lowered.as_slice())
                    },
                    _ => false,
                };
            }
            if keep {
                out.push(n);
            }
            n = n + 1;
        }
        out
    }

    /// Puts listed positions in the order of the sorted column: names and
    /// memory ascending or descending as chosen, ties in list order. The
    /// rate columns rest on measured rates, which the caller applies, so for
    /// them the list is returned as given.
    pub fn order(&self, snap: &Snapshot, list: Vec<usize>) -> (r: Vec<usize>)
        requires
            forall|a: int| 0 <= a < list@.len() ==> list@[a] < snap.processes@.len(),
            forall|a: int, b: int| 0 <= a < b < list@.len() ==> list@[a] < list@[b],
        ensures
            rate_column(self.sort) ==> r@ == list@,
            !rate_column(self.sort) ==> {
                &&& r@.to_multiset() == list@.to_multiset()
                &&& entries_sorted(
                    col_texts(snap.processes@, self.sort),
                    col_numbers(snap.processes@, self.sort),
                    !self.sort_asc,
                    r@,
                )
            },
    {
        let col = self.sort;
        if col == SortCol::Cpu || col == SortCol::ReadRate || col == SortCol::WriteRate {
            return list;
        }
        let ps = &snap.processes;
        let mut texts: Vec<Vec<u8>> = Vec::new();
        let mut numbers: Vec<u64> = Vec::new();
        let mut i: usize = 0;
        while i < ps.len()
            invariant
                0 <= i <= ps@.len(),
                nested_view(texts@) == col_texts(ps@, col).take(i as int),
                numbers@ == col_numbers(ps@, col).take(i as int),
            decreases ps.len() - i,
        {
            let text: Vec<u8> = if col == SortCol::Name {
                match &ps[i].name {
                    Field::Value(n) => n.as_str().as_bytes_vec(),
                    _ => Vec::new(),
                }
            } else {
                Vec::new()
            };
            let number: u64 = if col == SortCol::Memory {
                match ps[i].rss_kib {
                    Field::Value(v) => v,
                    _ => 0,
                }
            } else {
                0
            };
            proof {
                assert(text@ == col_texts(ps@, col)[i as int]);
                assert(number == col_numbers(ps@, col)[i as int]);
            }
            let ghost before = nested_view(texts@);
            texts.push(text);
            numbers.push(number);
            proof {
                assert(nested_view(texts@) =~= before.push(col_texts(ps@, col)[i as int]));
            }
            i = i + 1;
            proof {
                assert(nested_view(texts@) =~= col_texts(ps@, col).take(i as int));
                assert(numbers@ =~= col_numbers(ps@, col).take(i as int));
            }
        }
        proof {
            assert(col_texts(ps@, col).take(ps@.len() as int) =~= col_texts(ps@, col));
            assert(col_numbers(ps@, col).take(ps@.len() as int) =~= col_numbers(ps@, col));
        }
        order_entries(&texts, &numbers, !self.sort_asc, list)
    }
}

/// Clicking twice on the column the list is sorted by brings the
/// direction back; clicking twice on another column sorts by it, ascending
/// for names and descending otherwise.
pub proof fn lemma_sort_twice(sort: SortCol, asc: bool, col: SortCol)
    ensures
        sort == col ==> sort_after(sort_after(sort, asc, col).0, sort_after(sort, asc, col).1, col) == (sort, asc),
        sort != col ==> sort_after(sort_after(sort, asc, col).0, sort_after(sort, asc, col).1, col) == (col, col != SortCol::Name),
{
}

/// A click on a row selects it exactly when it was not selected, and
/// never selects another row; two clicks on the selected row leave it
/// selected.
pub proof fn lemma_select_toggles(selected: Option<u32>, pid: u32)
    ensures
        selection_after(selected, pid) == Some(pid) <==> selected != Some(pid),
        selection_after(selected, pid) is None || selection_after(selected, pid) == Some(pid),
        selected == Some(pid) ==> selection_after(selection_after(selected, pid), pid) == selected,
{
}

} // verus!
