//! Decisions of the interactive terminal inspector: what a key press does
//! to the inspector's state, which processes are listed and in what order,
//! which part of the list is on screen, how deep a process sits in the
//! process tree and what the inventory panes show for a search.
use vstd::prelude::*;
use std::collections::{HashMap, HashSet};
use vstd::utf8::encode_utf8;
use vstd::string::{StrSliceExecFns, StringExecFns};
use crate::activity::{Inventory, MountRecord, MountView, SocketRecord, SocketView};
use crate::events::{Capture, event_text};
use crate::text::string_views;
use crate::field::{Field, field_of_status, status_word};
use crate::order::{entries_sorted, order_entries};
use crate::procfs::{Process, Snapshot, text_field};
use crate::text::{
    chars_equal, chars_of, chars_start_with, decimal, has_prefix, has_suffix, join, nested_view,
    pop_char,
    push_char, push_decimal, push_str, to_lowercase, unicode_lowercase,
};

verus! {

broadcast use {
    vstd::std_specs::hash::group_hash_axioms,
    vstd::seq_lib::group_to_multiset_ensures,
    vstd::multiset::group_multiset_axioms,
};

// ---------------------------------------------------------------------------
// Modes
// ---------------------------------------------------------------------------

/// The order of the process list.
#[derive(Debug, Clone, Copy, PartialEq, Eq, Structural)]
pub enum Sort {
    Cpu,
    Memory,
    Pid,
    Name,
}

/// Which processes the list shows.
#[derive(Debug, Clone, Copy, PartialEq, Eq, Structural)]
pub enum Filter {
    All,
    UserApps,
    Mine,
    Problems,
}

/// What the inspector shows below its header: one of its views.
#[derive(Debug, Clone, Copy, PartialEq, Eq, Structural)]
pub enum Pane {
    Processes,
    Services,
    Network,
    System,
    Events,
}

/// The sort that `s` switches to.
pub open spec fn next_sort(v: Sort) -> Sort {
    match v {
        Sort::Cpu => Sort::Memory,
        Sort::Memory => Sort::Pid,
        Sort::Pid => Sort::Name,
        Sort::Name => Sort::Cpu,
    }
}

/// The filter that `f` switches to: the key cycles through all processes,
/// the current user's and those with problems. The user-applications
/// filter, which callers may also ask for, is followed by the current
/// user's.
pub open spec fn next_filter(v: Filter) -> Filter {
    match v {
        Filter::All => Filter::Mine,
        Filter::UserApps => Filter::Mine,
        Filter::Mine => Filter::Problems,
        Filter::Problems => Filter::All,
    }
}

/// The pane that `v` switches to.
pub open spec fn next_pane(v: Pane) -> Pane {
    match v {
        Pane::Processes => Pane::Services,
        Pane::Services => Pane::Network,
        Pane::Network => Pane::System,
        Pane::System => Pane::Events,
        Pane::Events => Pane::Processes,
    }
}

/// The word shown for a sort.
pub open spec fn sort_word(v: Sort) -> Seq<char> {
    match v {
        Sort::Cpu => "cpu"@,
        Sort::Memory => "memory"@,
        Sort::Pid => "pid"@,
        Sort::Name => "name"@,
    }
}

/// The words shown for a filter.
pub open spec fn filter_word(v: Filter) -> Seq<char> {
    match v {
        Filter::All => "all"@,
        Filter::UserApps => "user-apps (no kernel threads)"@,
        Filter::Mine => "mine"@,
        Filter::Problems => "problems"@,
    }
}

/// The words shown for a pane.
pub open spec fn pane_word(v: Pane) -> Seq<char> {
    match v {
        Pane::Processes => "processes"@,
        Pane::Services => "services/cgroups"@,
        Pane::Network => "network"@,
        Pane::System => "timers/mounts"@,
        Pane::Events => "events"@,
    }
}

/// The word shown for a sort.
pub fn sort_name(v: Sort) -> (r: &'static str)
    ensures
        r@ == sort_word(v),
{
    match v {
        Sort::Cpu => "cpu",
        Sort::Memory => "memory",
        Sort::Pid => "pid",
        Sort::Name => "name",
    }
}

/// The words shown for a filter.
pub fn filter_name(v: Filter) -> (r: &'static str)
    ensures
        r@ == filter_word(v),
{
    match v {
        Filter::All => "all",
        Filter::UserApps => "user-apps (no kernel threads)",
        Filter::Mine => "mine",
        Filter::Problems => "problems",
    }
}

/// The words shown for a pane.
pub fn pane_name(v: Pane) -> (r: &'static str)
    ensures
        r@ == pane_word(v),
{
    match v {
        Pane::Processes => "processes",
        Pane::Services => "services/cgroups",
        Pane::Network => "network",
        Pane::System => "timers/mounts",
        Pane::Events => "events",
    }
}

// ---------------------------------------------------------------------------
// Key handling
// ---------------------------------------------------------------------------

/// The inspector's state between two screens.
pub struct Ui {
    pub selected: usize,
    pub sort: Sort,
    pub filter: Filter,
    pub tree: bool,
    pub details: bool,
    pub pane: Pane,
    pub search: String,
    pub editing: bool,
}

/// What [`Ui`] holds, with the search text as characters.
pub struct UiView {
    pub selected: usize,
    pub sort: Sort,
    pub filter: Filter,
    pub tree: bool,
    pub details: bool,
    pub pane: Pane,
    pub search: Seq<char>,
    pub editing: bool,
}

impl View for Ui {
    type V = UiView;

    open spec fn view(&self) -> UiView {
        UiView {
            selected: self.selected,
            sort: self.sort,
            filter: self.filter,
            tree: self.tree,
            details: self.details,
            pane: self.pane,
            search: self.search@,
            editing: self.editing,
        }
    }
}

/// What the inspector does after a key press.
#[derive(Debug, Clone, Copy, PartialEq, Eq, Structural)]
pub enum KeyAction {
    /// Draw the next screen.
    Continue,
    /// Leave the inspector.
    Quit,
    /// Drop the cached inventory, so that it is collected again.
    Refresh,
}

/// Whether a byte is typed into the search text: a visible ASCII
/// character or a space.
pub open spec fn is_search_byte(b: u8) -> bool {
    (0x21 <= b && b <= 0x7e) || b == 0x20
}

/// What a key press does while the search text is being edited: Enter
/// accepts it, Escape clears it, Backspace removes its last character and a
/// visible character or space is appended; nothing else has an effect.
pub open spec fn editing_step(u: UiView, b: u8) -> UiView {
    if b == 10 || b == 13 {
        UiView { editing: false, ..u }
    } else if b == 27 {
        UiView { editing: false, search: Seq::empty(), ..u }
    } else if b == 127 {
        if u.search.len() > 0 {
            UiView { search: u.search.drop_last(), ..u }
        } else {
            u
        }
    } else if is_search_byte(b) {
        UiView { search: u.search.push(b as char), ..u }
    } else {
        u
    }
}

/// What a key press does: while editing see [`editing_step`]; otherwise
/// `q` or Ctrl-C quit, `j`/`k` move the selection (never above the top),
/// `s`, `f` and `v` cycle sort, filter and view (the last two reset the
/// selection), `t` and `d` toggle tree and details, `r` refreshes the
/// inventory and `/` starts editing the search.
pub open spec fn key_step(u: UiView, b: u8) -> (UiView, KeyAction) {
    if u.editing {
        (editing_step(u, b), KeyAction::Continue)
    } else if b == 0x71 || b == 3 {
        (u, KeyAction::Quit)
    } else if b == 0x6a {
        (UiView { selected: (u.selected + 1) as usize, ..u }, KeyAction::Continue)
    } else if b == 0x6b {
        (
            UiView {
                selected: if u.selected > 0 {
                    (u.selected - 1) as usize
                } else {
                    0
                },
                ..u
            },
            KeyAction::Continue,
        )
    } else if b == 0x73 {
        (UiView { sort: next_sort(u.sort), ..u }, KeyAction::Continue)
    } else if b == 0x66 {
        (UiView { filter: next_filter(u.filter), selected: 0, ..u }, KeyAction::Continue)
    } else if b == 0x74 {
        (UiView { tree: !u.tree, ..u }, KeyAction::Continue)
    } else if b == 0x64 {
        (UiView { details: !u.details, ..u }, KeyAction::Continue)
    } else if b == 0x76 {
        (UiView { pane: next_pane(u.pane), selected: 0, ..u }, KeyAction::Continue)
    } else if b == 0x72 {
        (u, KeyAction::Refresh)
    } else if b == 0x2f {
        (UiView { editing: true, ..u }, KeyAction::Continue)
    } else {
        (u, KeyAction::Continue)
    }
}

impl Ui {
    /// The state the inspector starts in: the process view, sorted by CPU,
    /// showing all processes, details on, tree off, no search.
    pub fn new() -> (r: Ui)
        ensures
            r@ == (UiView {
                selected: 0,
                sort: Sort::Cpu,
                filter: Filter::All,
                tree: false,
                details: true,
                pane: Pane::Processes,
                search: Seq::empty(),
                editing: false,
            }),
    {
        Ui {
            selected: 0,
            sort: Sort::Cpu,
            filter: Filter::All,
            tree: false,
            details: true,
            pane: Pane::Processes,
            search: String::new(),
            editing: false,
        }
    }

    /// Applies one key press.
    pub fn handle_key(&mut self, b: u8) -> (r: KeyAction)
        requires
            !old(self).editing && b == 0x6a ==> old(self).selected < usize::MAX,
        ensures
            (final(self)@, r) == key_step(old(self)@, b),
    {
        if self.editing {
            if b == 10 || b == 13 {
                self.editing = false;
            } else if b == 27 {
                self.editing = false;
                self.search = String::new();
            } else if b == 127 {
                let _ = pop_char(&mut self.search);
            } else if (0x21 <= b && b <= 0x7e) || b == 0x20 {
                push_char(&mut self.search, b as char);
            }
            proof {
                assert(self@ == editing_step(old(self)@, b));
            }
            return KeyAction::Continue;
        }
        if b == 0x71 || b == 3 {
            KeyAction::Quit
        } else if b == 0x6a {
            self.selected = self.selected + 1;
            KeyAction::Continue
        } else if b == 0x6b {
            self.selected = self.selected.saturating_sub(1);
            KeyAction::Continue
        } else if b == 0x73 {
            self.sort = match self.sort {
                Sort::Cpu => Sort::Memory,
                Sort::Memory => Sort::Pid,
                Sort::Pid => Sort::Name,
                Sort::Name => Sort::Cpu,
            };
            KeyAction::Continue
        } else if b == 0x66 {
            self.filter = match self.filter {
                Filter::All => Filter::Mine,
                Filter::UserApps => Filter::Mine,
                Filter::Mine => Filter::Problems,
                Filter::Problems => Filter::All,
            };
            self.selected = 0;
            KeyAction::Continue
        } else if b == 0x74 {
            self.tree = !self.tree;
            KeyAction::Continue
        } else if b == 0x64 {
            self.details = !self.details;
            KeyAction::Continue
        } else if b == 0x76 {
            self.pane = match self.pane {
                Pane::Processes => Pane::Services,
                Pane::Services => Pane::Network,
                Pane::Network => Pane::System,
                Pane::System => Pane::Events,
                Pane::Events => Pane::Processes,
            };
            self.selected = 0;
            KeyAction::Continue
        } else if b == 0x72 {
            KeyAction::Refresh
        } else if b == 0x2f {
            self.editing = true;
            KeyAction::Continue
        } else {
            KeyAction::Continue
        }
    }
}

// ---------------------------------------------------------------------------
// Laws of the key handling
// ---------------------------------------------------------------------------

/// While the search is being edited no key quits or refreshes: every key
/// edits the search.
pub proof fn lemma_editing_never_quits(u: UiView, b: u8)
    requires
        u.editing,
    ensures
        key_step(u, b).1 == KeyAction::Continue,
        key_step(u, b).0.sort == u.sort,
        key_step(u, b).0.filter == u.filter,
        key_step(u, b).0.pane == u.pane,
        key_step(u, b).0.selected == u.selected,
{
}

/// Four presses of `s` come back to the sort and state they started from.
pub proof fn lemma_sort_cycles(u: UiView)
    requires
        !u.editing,
    ensures
        key_step(key_step(key_step(key_step(u, 0x73).0, 0x73).0, 0x73).0, 0x73).0 == u,
{
}

/// Three presses of `f` come back to the filter they started from (all,
/// current user, problems), with the selection at the top.
pub proof fn lemma_filter_cycles(u: UiView)
    requires
        !u.editing,
        u.filter != Filter::UserApps,
    ensures
        key_step(key_step(key_step(u, 0x66).0, 0x66).0, 0x66).0 == (UiView { selected: 0, ..u }),
{
}

/// A press of `f` moves the filter one step along all, current user,
/// problems and back to all (the user-apps filter joins the cycle at
/// current user), puts the selection at the top and changes nothing else;
/// from there, three more presses come back to the same state.
pub proof fn lemma_filter_press(u: UiView)
    requires
        !u.editing,
    ensures
        key_step(u, 0x66) == (UiView { filter: next_filter(u.filter), selected: 0, ..u }, KeyAction::Continue),
        u.filter == Filter::All ==> key_step(u, 0x66).0.filter == Filter::Mine,
        u.filter == Filter::Mine ==> key_step(u, 0x66).0.filter == Filter::Problems,
        u.filter == Filter::Problems ==> key_step(u, 0x66).0.filter == Filter::All,
        key_step(u, 0x66).0.filter != Filter::UserApps,
        ({
            let first = key_step(u, 0x66).0;
            key_step(key_step(key_step(first, 0x66).0, 0x66).0, 0x66).0 == first
        }),
{
}

/// Five presses of `v` come back to the pane they started from, with the
/// selection at the top.
pub proof fn lemma_view_cycles(u: UiView)
    requires
        !u.editing,
    ensures
        key_step(key_step(key_step(key_step(key_step(u, 0x76).0, 0x76).0, 0x76).0, 0x76).0, 0x76).0
            == (UiView { selected: 0, ..u }),
{
}

/// Pressing `t` twice, or `d` twice, changes nothing.
pub proof fn lemma_toggles_undo(u: UiView)
    requires
        !u.editing,
    ensures
        key_step(key_step(u, 0x74).0, 0x74).0 == u,
        key_step(key_step(u, 0x64).0, 0x64).0 == u,
{
}

/// Pressing `/` and then Escape leaves the search empty and everything else
/// as it was; `/`, a search character and Enter append that character.
pub proof fn lemma_search_edit(u: UiView, c: u8)
    requires
        !u.editing,
        is_search_byte(c),
    ensures
        key_step(key_step(u, 0x2f).0, 27).0 == (UiView { search: Seq::empty(), ..u }),
        key_step(key_step(key_step(u, 0x2f).0, c).0, 13).0 == (UiView {
            search: u.search.push(c as char),
            ..u
        }),
{
}

/// Outside search editing: `j` moves the selection down one row (below the
/// largest index), `k` moves it up one row and stops at the first, `t`
/// flips tree mode, `d` flips the detail panel, `r` asks for the inventory
/// to be collected again and `q` quits; each changes nothing else.
pub proof fn lemma_navigation_keys(u: UiView)
    requires
        !u.editing,
    ensures
        u.selected < usize::MAX ==> key_step(u, 0x6a) == (UiView { selected: (u.selected + 1) as usize, ..u }, KeyAction::Continue),
        u.selected > 0 ==> key_step(u, 0x6b) == (UiView { selected: (u.selected - 1) as usize, ..u }, KeyAction::Continue),
        u.selected == 0 ==> key_step(u, 0x6b) == (u, KeyAction::Continue),
        key_step(u, 0x74) == (UiView { tree: !u.tree, ..u }, KeyAction::Continue),
        key_step(u, 0x64) == (UiView { details: !u.details, ..u }, KeyAction::Continue),
        key_step(u, 0x72) == (u, KeyAction::Refresh),
        key_step(u, 0x71) == (u, KeyAction::Quit),
{
}

/// `k` after `j` brings the selection back.
pub proof fn lemma_down_then_up(u: UiView)
    requires
        !u.editing,
        u.selected < usize::MAX,
    ensures
        key_step(key_step(u, 0x6a).0, 0x6b).0 == u,
{
}


// ---------------------------------------------------------------------------
// Which processes are listed
// ---------------------------------------------------------------------------

/// The name prefixes by which the inspector recognises kernel threads.
pub open spec fn kernel_prefixes() -> Seq<&'static str> {
    seq![
        "kworker/", "kthread", "ksoftirqd", "migration/", "idle_inject/", "rcu_", "rcub/",
        "rcuc/", "kswapd", "kcompactd", "khugepaged", "kdevtmpfs", "netns", "kauditd",
        "khungtaskd", "oom_reaper", "writeback", "kblockd", "blkcg_punt_bio", "edac-poller",
        "devfreq_wq", "watchdogd", "watchdog/", "irq/", "card", "i915", "nouveau", "amdgpu",
        "jbd2/", "ext4-", "xfs-", "btrfs", "cryptd", "zswap-", "dm-", "md", "hwrng",
        "acpi_thermal_pm", "ipv6_addrconf", "nfsiod", "scsi_", "usb-storage", "cfg80211",
        "rpciod", "xprtiod", "pool_workqueue", "charger_manager", "nvme-wq", "nvme-reset-wq",
        "nvme-delete-wq", "mld", "inet_frag_wq", "bioset", "ttm", "drm_sched", "drm-",
    ]
}

/// Whether `name` begins with one of the prefixes.
pub open spec fn any_prefix(name: Seq<char>, prefixes: Seq<&str>) -> bool {
    exists|i: int| 0 <= i < prefixes.len() && has_prefix(name, (#[trigger] prefixes[i])@)
}

/// Whether the inspector takes a process name for a kernel thread's.
pub open spec fn kernel_thread_like(name: Seq<char>) -> bool {
    name == "kthreadd"@ || any_prefix(name, kernel_prefixes())
}

/// Whether the characters `name` begin with one of the prefixes.
pub fn has_any_prefix(name: &[char], prefixes: &[&str]) -> (r: bool)
    ensures
        r == any_prefix(name@, prefixes@),
{
    let mut i: usize = 0;
    while i < prefixes.len()
        invariant
            0 <= i <= prefixes@.len(),
            forall|k: int| 0 <= k < i ==> !has_prefix(name@, (#[trigger] prefixes@[k])@),
        decreases prefixes.len() - i,
    {
        let p = chars_of(prefixes[i]);
        if chars_start_with(name, p.as_slice()) {
            return true;
        }
        i = i + 1;
    }
    false
}

/// Whether the inspector takes a process name for a kernel thread's.
fn is_kernel_thread_like(name: &[char]) -> (r: bool)
    ensures
        r == kernel_thread_like(name@),
{
    let prefixes: [&str; 56] = [
        "kworker/", "kthread", "ksoftirqd", "migration/", "idle_inject/", "rcu_", "rcub/",
        "rcuc/", "kswapd", "kcompactd", "khugepaged", "kdevtmpfs", "netns", "kauditd",
        "khungtaskd", "oom_reaper", "writeback", "kblockd", "blkcg_punt_bio", "edac-poller",
        "devfreq_wq", "watchdogd", "watchdog/", "irq/", "card", "i915", "nouveau", "amdgpu",
        "jbd2/", "ext4-", "xfs-", "btrfs", "cryptd", "zswap-", "dm-", "md", "hwrng",
        "acpi_thermal_pm", "ipv6_addrconf", "nfsiod", "scsi_", "usb-storage", "cfg80211",
        "rpciod", "xprtiod", "pool_workqueue", "charger_manager", "nvme-wq", "nvme-reset-wq",
        "nvme-delete-wq", "mld", "inet_frag_wq", "bioset", "ttm", "drm_sched", "drm-",
    ];
    proof {
        assert(prefixes@ == kernel_prefixes());
    }
    let exact = chars_of("kthreadd");
    chars_equal(name, exact.as_slice()) || has_any_prefix(name, prefixes.as_slice())
}

/// Whether `needle` occurs in `hay` as a contiguous run (the empty needle
/// occurs everywhere).
pub open spec fn occurs_in(hay: Seq<char>, needle: Seq<char>) -> bool {
    exists|i: int|
        0 <= i && i + needle.len() <= hay.len() && #[trigger] hay.subrange(i, i + needle.len())
            == needle
}

/// Whether `needle` occurs in `hay` at position `i`.
fn matches_at(hay: &[char], needle: &[char], i: usize) -> (r: bool)
    requires
        i + needle@.len() <= hay@.len(),
    ensures
        r == (hay@.subrange(i as int, i + needle@.len()) == needle@),
{
    let n = hay.len();
    let mut j: usize = 0;
    while j < needle.len()
        invariant
            n == hay@.len(),
            i + needle@.len() <= hay@.len(),
            0 <= j <= needle@.len(),
            hay@.subrange(i as int, i + j) == needle@.subrange(0, j as int),
        decreases needle.len() - j,
    {
        if hay[i + j] != needle[j] {
            proof {
                assert(hay@.subrange(i as int, i + needle@.len())[j as int] != needle@[j as int]);
            }
            return false;
        }
        j = j + 1;
        proof {
            assert(hay@.subrange(i as int, i + j) =~= needle@.subrange(0, j as int));
        }
    }
    proof {
        assert(needle@.subrange(0, needle@.len() as int) =~= needle@);
    }
    true
}

/// Whether `needle` occurs in `hay`.
pub fn chars_contain(hay: &[char], needle: &[char]) -> (r: bool)
    ensures
        r == occurs_in(hay@, needle@),
{
    if needle.len() > hay.len() {
        return false;
    }
    let last = hay.len() - needle.len();
    let mut i: usize = 0;
    loop
        invariant
            last == hay@.len() - needle@.len(),
            0 <= i <= last,
            forall|k: int|
                0 <= k < i ==> #[trigger] hay@.subrange(k, k + needle@.len()) != needle@,
        decreases last - i,
    {
        if matches_at(hay, needle, i) {
            return true;
        }
        if i == last {
            return false;
        }
        i = i + 1;
    }
}

// ---------------------------------------------------------------------------
// The filtered process list
// ---------------------------------------------------------------------------

/// The name the filters look at: the process name, or nothing when it is
/// unknown.
pub open spec fn name_or_empty(p: Process) -> Seq<char> {
    match p@.name {
        Field::Value(n) => n,
        _ => Seq::empty(),
    }
}

/// Whether the snapshot holds a child of PID 2 (`kthreadd`) with this PID.
pub open spec fn kthreadd_child(ps: Seq<Process>, pid: u32) -> bool {
    exists|k: int| 0 <= k < ps.len() && (#[trigger] ps[k]).pid == pid && ps[k].ppid.present() == Some(2u32)
}

/// Whether a process passes the inspector's filter: user applications
/// leave out PID 2, its children and processes named like kernel threads;
/// `mine` keeps the processes of the given user; `problems` keeps those
/// with a field that could not be read.
pub open spec fn filter_passes(ps: Seq<Process>, p: Process, filter: Filter, uid: Option<u32>) -> bool {
    match filter {
        Filter::All => true,
        Filter::UserApps => {
            &&& p.pid != 2
            &&& p.ppid.present() != Some(2u32)
            &&& !kthreadd_child(ps, p.pid)
            &&& !kernel_thread_like(name_or_empty(p))
        },
        Filter::Mine => p.uid.present() == uid,
        Filter::Problems => p.visibility_spec() != "complete"@,
    }
}

/// Whether a text field holds a value in which the search occurs, both
/// taken in lowercase.
pub open spec fn field_matches(f: Field<Seq<char>>, search: Seq<char>) -> bool {
    f matches Field::Value(v) && occurs_in(unicode_lowercase(v), unicode_lowercase(search))
}

/// Whether a process passes the search: an empty search passes all, else
/// its name or its executable must contain the search, ignoring case.
pub open spec fn search_passes(p: Process, search: Seq<char>) -> bool {
    search.len() == 0 || field_matches(p@.name, search) || field_matches(p@.executable, search)
}

/// The positions among the first `n` processes that the inspector lists,
/// in snapshot order.
pub open spec fn listed(ps: Seq<Process>, filter: Filter, search: Seq<char>, uid: Option<u32>, n: int) -> Seq<usize>
    decreases n,
{
    if n <= 0 {
        Seq::empty()
    } else {
        let r = listed(ps, filter, search, uid, n - 1);
        if filter_passes(ps, ps[n - 1], filter, uid) && search_passes(ps[n - 1], search) {
            r.push((n - 1) as usize)
        } else {
            r
        }
    }
}

/// Whether a text field holds a value containing the lowercase search.
fn field_contains(f: &Field<String>, lowered: &[char]) -> (r: bool)
    ensures
        r == (text_field(*f) matches Field::Value(v) && occurs_in(unicode_lowercase(v), lowered@)),
{
    match f {
        Field::Value(v) => {
            let lower = to_lowercase(v.as_str());
            let cs = chars_of(lower.as_str());
            chars_contain(cs.as_slice(), lowered)
        },
        _ => false,
    }
}

/// Whether a process passes the filter; `kids` are the PIDs of the
/// children of PID 2.
fn passes(ps: &Vec<Process>, p: &Process, filter: Filter, uid: Option<u32>, kids: &Vec<u32>) -> (r: bool)
    requires
        forall|x: u32| kids@.contains(x) <==> kthreadd_child(ps@, x),
    ensures
        r == filter_passes(ps@, *p, filter, uid),
{
    match filter {
        Filter::All => true,
        Filter::UserApps => {
            let parent_is_two = match p.ppid {
                Field::Value(v) => v == 2,
                _ => false,
            };
            if p.pid == 2 || parent_is_two {
                return false;
            }
            let mut k: usize = 0;
            while k < kids.len()
                invariant
                    0 <= k <= kids@.len(),
                    forall|t: int| 0 <= t < k ==> kids@[t] != p.pid,
                    forall|x: u32| kids@.contains(x) <==> kthreadd_child(ps@, x),
                    filter == Filter::UserApps,
                decreases kids.len() - k,
            {
                if kids[k] == p.pid {
                    proof {
                        assert(kids@.contains(p.pid));
                    }
                    return false;
                }
                k = k + 1;
            }
            proof {
                assert(!kids@.contains(p.pid));
            }
            match &p.name {
                Field::Value(n) => {
                    let cs = chars_of(n.as_str());
                    !is_kernel_thread_like(cs.as_slice())
                },
                _ => {
                    let none: Vec<char> = Vec::new();
                    proof {
                        assert(none@ =~= Seq::<char>::empty());
                    }
                    !is_kernel_thread_like(none.as_slice())
                },
            }
        },
        Filter::Mine => p.uid.copied() == uid,
        Filter::Problems => {
            let summary = p.visibility_summary();
            let s = chars_of(summary.as_str());
            let complete = chars_of("complete");
            !chars_equal(s.as_slice(), complete.as_slice())
        },
    }
}

/// The positions of the processes that the inspector lists, in snapshot
/// order: those that pass the filter and the search.
pub fn listed_processes(snapshot: &Snapshot, filter: Filter, search: &str, uid: Option<u32>) -> (r: Vec<usize>)
    ensures
        r@ == listed(snapshot.processes@, filter, search@, uid, snapshot.processes@.len() as int),
{
    let ps = &snapshot.processes;
    let mut kids: Vec<u32> = Vec::new();
    let mut i: usize = 0;
    while i < ps.len()
        invariant
            0 <= i <= ps@.len(),
            forall|x: u32|
                kids@.contains(x) <==> exists|k: int|
                    0 <= k < i && (#[trigger] ps@[k]).pid == x && ps@[k].ppid.present() == Some(2u32),
        decreases ps.len() - i,
    {
        let ghost before = kids@;
        let child = match ps[i].ppid {
            Field::Value(v) => v == 2,
            _ => false,
        };
        if child {
            kids.push(ps[i].pid);
        }
        proof {
            assert forall|x: u32|
                kids@.contains(x) <==> exists|k: int|
                    0 <= k < i + 1 && (#[trigger] ps@[k]).pid == x && ps@[k].ppid.present() == Some(
                        2u32,
                    ) by {
                if kids@.contains(x) {
                    let t = choose|t: int| 0 <= t < kids@.len() && kids@[t] == x;
                    if t < before.len() {
                        assert(before[t] == x);
                        assert(before.contains(x));
                    } else {
                        assert(ps@[i as int].pid == x);
                    }
                }
                if exists|k: int|
                    0 <= k < i + 1 && (#[trigger] ps@[k]).pid == x && ps@[k].ppid.present() == Some(2u32) {
                    let k = choose|k: int|
                        0 <= k < i + 1 && (#[trigger] ps@[k]).pid == x && ps@[k].ppid.present() == Some(2u32);
                    if k < i {
                        assert(before.contains(x));
                        let t = choose|t: int| 0 <= t < before.len() && before[t] == x;
                        assert(kids@[t] == x);
                    } else {
                        assert(kids@[kids@.len() - 1] == x);
                    }
                }
            }
        }
        i = i + 1;
    }
    let lower = to_lowercase(search);
    let lowered = chars_of(lower.as_str());
    let search_chars = chars_of(search);
    let empty_search = search_chars.len() == 0;
    let mut out: Vec<usize> = Vec::new();
    let mut n: usize = 0;
    while n < ps.len()
        invariant
            0 <= n <= ps@.len(),
            forall|x: u32| kids@.contains(x) <==> kthreadd_child(ps@, x),
            lowered@ == unicode_lowercase(search@),
            empty_search == (search@.len() == 0),
            out@ == listed(ps@, filter, search@, uid, n as int),
        decreases ps.len() - n,
    {
        let p = &ps[n];
        let keep = passes(ps, p, filter, uid, &kids) && (empty_search || field_contains(
            &p.name,
            lowered.as_slice(),
        ) || field_contains(&p.executable, lowered.as_slice()));
        if keep {
            out.push(n);
        }
        n = n + 1;
    }
    out
}

/// The listed positions are increasing and within the snapshot.
pub proof fn lemma_listed_increasing(ps: Seq<Process>, filter: Filter, search: Seq<char>, uid: Option<u32>, n: int)
    requires
        0 <= n <= ps.len(),
        ps.len() <= usize::MAX,
    ensures
        forall|a: int| 0 <= a < listed(ps, filter, search, uid, n).len() ==> (#[trigger] listed(ps, filter, search, uid, n)[a]) < n,
        forall|a: int, b: int|
            0 <= a < b < listed(ps, filter, search, uid, n).len() ==> listed(ps, filter, search, uid, n)[a]
                < listed(ps, filter, search, uid, n)[b],
    decreases n,
{
    if n > 0 {
        lemma_listed_increasing(ps, filter, search, uid, n - 1);
        let r = listed(ps, filter, search, uid, n - 1);
        let l = listed(ps, filter, search, uid, n);
        assert forall|a: int| 0 <= a < l.len() implies (#[trigger] l[a]) < n by {
            if a < r.len() {
                assert(l[a] == r[a]);
            }
        }
        assert forall|a: int, b: int| 0 <= a < b < l.len() implies l[a] < l[b] by {
            if b < r.len() {
                assert(l[a] == r[a]);
                assert(l[b] == r[b]);
            } else {
                assert(l[a] == r[a]);
            }
        }
    }
}

/// With the `all` filter and no search the list is complete: every process
/// of the snapshot is listed, the observer included, in snapshot order.
pub proof fn lemma_complete_list(ps: Seq<Process>, uid: Option<u32>, n: int)
    requires
        0 <= n <= ps.len(),
    ensures
        listed(ps, Filter::All, Seq::empty(), uid, n) == crate::check::positions(n as nat),
    decreases n,
{
    if n > 0 {
        lemma_complete_list(ps, uid, n - 1);
        assert(crate::check::positions(n as nat) =~= crate::check::positions((n - 1) as nat).push(
            (n - 1) as usize,
        ));
    }
}

// ---------------------------------------------------------------------------
// The order of the list
// ---------------------------------------------------------------------------

/// The text a sort compares: the name's bytes when sorting by name.
pub open spec fn sort_texts(ps: Seq<Process>, sort: Sort) -> Seq<Seq<u8>> {
    Seq::new(
        ps.len(),
        |i: int|
            if sort == Sort::Name {
                encode_utf8(name_or_empty(ps[i]))
            } else {
                Seq::empty()
            },
    )
}

/// The number a sort compares: the resident memory (unknown as 0) when
/// sorting by memory, the PID when sorting by PID.
pub open spec fn sort_numbers(ps: Seq<Process>, sort: Sort) -> Seq<u64> {
    Seq::new(
        ps.len(),
        |i: int|
            if sort == Sort::Memory {
                match ps[i].rss_kib.present() {
                    Some(v) => v,
                    None => 0u64,
                }
            } else if sort == Sort::Pid {
                ps[i].pid as u64
            } else {
                0u64
            },
    )
}

/// Puts the listed positions in the order of a sort: memory from largest
/// to smallest, PID and name ascending, ties in list order. The CPU order
/// rests on measured rates, which the caller applies, so for it the list is
/// returned as given.
pub fn order_listed(snapshot: &Snapshot, list: Vec<usize>, sort: Sort) -> (r: Vec<usize>)
    requires
        forall|a: int| 0 <= a < list@.len() ==> list@[a] < snapshot.processes@.len(),
        forall|a: int, b: int| 0 <= a < b < list@.len() ==> list@[a] < list@[b],
    ensures
        sort == Sort::Cpu ==> r@ == list@,
        sort != Sort::Cpu ==> {
            &&& r@.to_multiset() == list@.to_multiset()
            &&& entries_sorted(
                sort_texts(snapshot.processes@, sort),
                sort_numbers(snapshot.processes@, sort),
                sort == Sort::Memory,
                r@,
            )
        },
{
    if sort == Sort::Cpu {
        return list;
    }
    let ps = &snapshot.processes;
    let mut texts: Vec<Vec<u8>> = Vec::new();
    let mut numbers: Vec<u64> = Vec::new();
    let mut i: usize = 0;
    while i < ps.len()
        invariant
            0 <= i <= ps@.len(),
            nested_view(texts@) == sort_texts(ps@, sort).take(i as int),
            numbers@ == sort_numbers(ps@, sort).take(i as int),
        decreases ps.len() - i,
    {
        let text: Vec<u8> = if sort == Sort::Name {
            match &ps[i].name {
                Field::Value(n) => n.as_str().as_bytes_vec(),
                _ => Vec::new(),
            }
        } else {
            Vec::new()
        };
        let number: u64 = if sort == Sort::Memory {
            match ps[i].rss_kib {
                Field::Value(v) => v,
                _ => 0,
            }
        } else if sort == Sort::Pid {
            ps[i].pid as u64
        } else {
            0
        };
        proof {
            assert(text@ == sort_texts(ps@, sort)[i as int]);
            assert(number == sort_numbers(ps@, sort)[i as int]);
        }
        let ghost before = nested_view(texts@);
        texts.push(text);
        numbers.push(number);
        proof {
            assert(nested_view(texts@) =~= before.push(sort_texts(ps@, sort)[i as int]));
        }
        i = i + 1;
        proof {
            assert(nested_view(texts@) =~= sort_texts(ps@, sort).take(i as int));
            assert(numbers@ =~= sort_numbers(ps@, sort).take(i as int));
        }
    }
    proof {
        assert(sort_texts(ps@, sort).take(ps@.len() as int) =~= sort_texts(ps@, sort));
        assert(sort_numbers(ps@, sort).take(ps@.len() as int) =~= sort_numbers(ps@, sort));
    }
    order_entries(&texts, &numbers, sort == Sort::Memory, list)
}

// ---------------------------------------------------------------------------
// The part of the list on screen
// ---------------------------------------------------------------------------

/// `a - b`, or 0 when `b` is larger.
pub open spec fn minus(a: int, b: int) -> int {
    if a > b {
        a - b
    } else {
        0
    }
}

/// Which part of a list of `len` processes is on a screen of `rows` rows:
/// the selection clamped to the last entry, the number of entries a page
/// holds (the rows left by the header and, when shown, the details; at
/// least one) and the first entry on the page, chosen so that the
/// selection is the page's last entry or above it.
pub fn list_window(selected: usize, len: usize, rows: usize, details: bool) -> (r: (usize, usize, usize))
    ensures
        r.0 == (if selected < minus(len as int, 1) {
            selected as int
        } else {
            minus(len as int, 1)
        }),
        r.1 == (if minus(rows as int, if details { 10 } else { 6 }) > 1 {
            minus(rows as int, if details { 10 } else { 6 })
        } else {
            1
        }),
        r.2 == minus(r.0 as int, r.1 - 1),
        r.2 <= r.0 < r.2 + r.1,
{
    let last = len.saturating_sub(1);
    let selected = if selected < last {
        selected
    } else {
        last
    };
    let reserved: usize = if details {
        10
    } else {
        6
    };
    let left = rows.saturating_sub(reserved);
    let page = if left > 1 {
        left
    } else {
        1
    };
    let start = selected.saturating_sub(page - 1);
    (selected, page, start)
}

// ---------------------------------------------------------------------------
// Depth in the process tree
// ---------------------------------------------------------------------------

/// How many ancestors of `pid` the tree shows above it: parent links are
/// followed while the parent is neither 0 nor unknown and no process is
/// met twice (`seen` holds those already passed).
pub open spec fn depth_from(parents: Map<u32, u32>, known: Set<u32>, pid: u32, seen: Set<u32>) -> nat
    decreases parents.dom().difference(seen).len(),
    when parents.dom().finite()
{
    if parents.contains_key(pid) && parents[pid] != 0 && known.contains(parents[pid])
        && !seen.contains(pid) {
        proof {
            assert(parents.dom().difference(seen.insert(pid)) =~= parents.dom().difference(
                seen,
            ).remove(pid));
        }
        1 + depth_from(parents, known, parents[pid], seen.insert(pid))
    } else {
        0
    }
}

/// The walk up the tree never passes a process twice, so the depth is at
/// most the number of processes with a parent, whatever cycles the parent
/// links hold.
pub proof fn lemma_depth_bounded(parents: Map<u32, u32>, known: Set<u32>, pid: u32, seen: Set<u32>)
    requires
        parents.dom().finite(),
    ensures
        depth_from(parents, known, pid, seen) <= parents.dom().difference(seen).len(),
    decreases parents.dom().difference(seen).len(),
{
    if parents.contains_key(pid) && parents[pid] != 0 && known.contains(parents[pid])
        && !seen.contains(pid) {
        assert(parents.dom().difference(seen.insert(pid)) =~= parents.dom().difference(seen).remove(
            pid,
        ));
        lemma_depth_bounded(parents, known, parents[pid], seen.insert(pid));
    }
}

/// How deep a process sits in the tree: the number of its ancestors that
/// the tree shows, bounded by the number of processes with a parent even
/// when the parent links form a cycle.
pub fn depth(pid: u32, p: &HashMap<u32, u32>, known: &HashSet<u32>) -> (r: usize)
    ensures
        r == depth_from(p@, known@, pid, Set::empty()),
        r <= p@.len(),
{
    let entries = p.len();
    let ghost start = pid;
    let mut pid = pid;
    let mut d: usize = 0;
    let mut seen: HashSet<u32> = HashSet::new();
    proof {
        assert(p@.dom().difference(Set::<u32>::empty()) =~= p@.dom());
        lemma_depth_bounded(p@, known@, start, Set::empty());
    }
    loop
        invariant
            entries == p@.len(),
            p@.dom().finite(),
            seen@.finite(),
            seen@.subset_of(p@.dom()),
            d == seen@.len(),
            depth_from(p@, known@, start, Set::empty()) == d + depth_from(p@, known@, pid, seen@),
            depth_from(p@, known@, start, Set::empty()) <= p@.len(),
        ensures
            depth_from(p@, known@, start, Set::empty()) == d,
            d <= p@.len(),
        decreases p@.dom().difference(seen@).len(),
    {
        proof {
            lemma_depth_bounded(p@, known@, pid, seen@);
        }
        match p.get(&pid) {
            None => {
                break;
            },
            Some(parent) => {
                let parent = *parent;
                if parent == 0 || !known.contains(&parent) {
                    break;
                }
                let ghost before = seen@;
                if !seen.insert(pid) {
                    break;
                }
                proof {
                    assert(p@.dom().difference(seen@) =~= p@.dom().difference(before).remove(pid));
                    assert(seen@.len() == before.len() + 1);
                }
                d = d + 1;
                pid = parent;
            },
        }
    }
    d
}

// ---------------------------------------------------------------------------
// Parent-first tree order
// ---------------------------------------------------------------------------

/// The PID of the listed process at list position `a`.
pub open spec fn pid_at(ps: Seq<Process>, list: Seq<usize>, a: int) -> u32 {
    ps[list[a] as int].pid
}

/// The first position among the first `n` list positions that holds a
/// process with the given PID.
pub open spec fn pid_position(ps: Seq<Process>, list: Seq<usize>, x: u32, n: int) -> Option<int>
    decreases n,
{
    if n <= 0 {
        None
    } else {
        match pid_position(ps, list, x, n - 1) {
            Some(b) => Some(b),
            None => if pid_at(ps, list, n - 1) == x {
                Some(n - 1)
            } else {
                None
            },
        }
    }
}

/// The list position of a listed process's parent, when its parent is
/// listed too.
pub open spec fn parent_pos(ps: Seq<Process>, list: Seq<usize>, a: int) -> Option<int> {
    match ps[list[a] as int].ppid.present() {
        Some(pp) => pid_position(ps, list, pp, list.len() as int),
        None => None,
    }
}

/// The PIDs on the way from a root of the listed tree down to position
/// `a`, following at most `fuel` parent links; none when the way is longer,
/// as it is for a process whose ancestors form a cycle.
pub open spec fn path(ps: Seq<Process>, list: Seq<usize>, a: int, fuel: nat) -> Option<Seq<u32>>
    decreases fuel,
{
    match parent_pos(ps, list, a) {
        None => Some(seq![pid_at(ps, list, a)]),
        Some(b) => if fuel == 0 {
            None
        } else {
            match path(ps, list, b, (fuel - 1) as nat) {
                Some(q) => Some(q.push(pid_at(ps, list, a))),
                None => None,
            }
        },
    }
}

/// The place of a listed process in the tree: the PIDs from its root down
/// to it, or none when it hangs below no root.
pub open spec fn tree_key(ps: Seq<Process>, list: Seq<usize>, a: int) -> Option<Seq<u32>> {
    path(ps, list, a, list.len() as nat)
}

/// Lexicographic order of PID paths, a proper prefix first.
pub open spec fn path_lt(a: Seq<u32>, b: Seq<u32>) -> bool
    decreases a.len(),
{
    if a.len() == 0 {
        b.len() > 0
    } else if b.len() == 0 {
        false
    } else if a[0] < b[0] {
        true
    } else if a[0] > b[0] {
        false
    } else {
        path_lt(a.drop_first(), b.drop_first())
    }
}

pub proof fn lemma_path_lt_irreflexive(a: Seq<u32>)
    ensures
        !path_lt(a, a),
    decreases a.len(),
{
    if a.len() > 0 {
        lemma_path_lt_irreflexive(a.drop_first());
    }
}

pub proof fn lemma_path_lt_transitive(a: Seq<u32>, b: Seq<u32>, c: Seq<u32>)
    requires
        path_lt(a, b),
        path_lt(b, c),
    ensures
        path_lt(a, c),
    decreases a.len(),
{
    if a.len() > 0 && b.len() > 0 && c.len() > 0 && a[0] == b[0] && b[0] == c[0] {
        lemma_path_lt_transitive(a.drop_first(), b.drop_first(), c.drop_first());
    }
}

pub proof fn lemma_path_lt_total(a: Seq<u32>, b: Seq<u32>)
    ensures
        path_lt(a, b) || a == b || path_lt(b, a),
    decreases a.len(),
{
    if a.len() > 0 && b.len() > 0 && a[0] == b[0] {
        lemma_path_lt_total(a.drop_first(), b.drop_first());
        if a.drop_first() == b.drop_first() {
            assert(a =~= seq![a[0]] + a.drop_first());
            assert(b =~= seq![b[0]] + b.drop_first());
        }
    } else if a.len() == 0 && b.len() == 0 {
        assert(a =~= b);
    }
}

/// A proper prefix comes first.
pub proof fn lemma_path_prefix_first(a: Seq<u32>, x: u32)
    ensures
        path_lt(a, a.push(x)),
    decreases a.len(),
{
    if a.len() > 0 {
        assert(a.push(x).drop_first() =~= a.drop_first().push(x));
        lemma_path_prefix_first(a.drop_first(), x);
    }
}

/// Whether list position `a` comes before `b` in the tree order: processes
/// below a root first, by their paths (so each parent before its children
/// and siblings by PID), then the rest; ties in list order.
pub open spec fn tree_before(keys: Seq<Option<Seq<u32>>>, a: int, b: int) -> bool {
    match (keys[a], keys[b]) {
        (Some(x), Some(y)) => path_lt(x, y) || (x == y && a < b),
        (Some(_), None) => true,
        (None, Some(_)) => false,
        (None, None) => a < b,
    }
}

pub proof fn lemma_tree_before_transitive(keys: Seq<Option<Seq<u32>>>, a: int, b: int, c: int)
    requires
        tree_before(keys, a, b),
        tree_before(keys, b, c),
    ensures
        tree_before(keys, a, c),
{
    if keys[a] is Some && keys[b] is Some && keys[c] is Some {
        let (x, y, z) = (keys[a]->0, keys[b]->0, keys[c]->0);
        if path_lt(x, y) && path_lt(y, z) {
            lemma_path_lt_transitive(x, y, z);
        }
    }
}

pub proof fn lemma_tree_before_total(keys: Seq<Option<Seq<u32>>>, a: int, b: int)
    requires
        a != b,
    ensures
        tree_before(keys, a, b) || tree_before(keys, b, a),
{
    if keys[a] is Some && keys[b] is Some {
        lemma_path_lt_total(keys[a]->0, keys[b]->0);
    }
}

pub proof fn lemma_tree_before_asymmetric(keys: Seq<Option<Seq<u32>>>, a: int, b: int)
    requires
        tree_before(keys, a, b),
    ensures
        !tree_before(keys, b, a),
{
    if tree_before(keys, b, a) {
        lemma_tree_before_transitive(keys, a, b, a);
        if keys[a] is Some {
            lemma_path_lt_irreflexive(keys[a]->0);
        }
    }
}

/// The tree places of all list positions.
pub open spec fn tree_keys(ps: Seq<Process>, list: Seq<usize>) -> Seq<Option<Seq<u32>>> {
    Seq::new(list.len(), |a: int| tree_key(ps, list, a))
}

/// An arrangement of all list positions in tree order.
pub open spec fn tree_arrangement(ps: Seq<Process>, list: Seq<usize>, s: Seq<usize>) -> bool {
    &&& s.to_multiset() == crate::check::positions(list.len()).to_multiset()
    &&& forall|a: int, b: int|
        0 <= a < b < s.len() ==> tree_before(tree_keys(ps, list), s[a] as int, s[b] as int)
}

/// The listed processes in the order of an arrangement, each PID once: a
/// process whose PID came earlier is left out.
pub open spec fn first_of_each_pid(ps: Seq<Process>, list: Seq<usize>, s: Seq<usize>, n: int) -> Seq<usize>
    decreases n,
{
    if n <= 0 {
        Seq::empty()
    } else {
        let r = first_of_each_pid(ps, list, s, n - 1);
        if exists|j: int| 0 <= j < n - 1 && pid_at(ps, list, #[trigger] s[j] as int) == pid_at(ps, list, s[n - 1] as int) {
            r
        } else {
            r.push(list[s[n - 1] as int])
        }
    }
}

/// Once a PID has been found, looking further keeps the first position.
pub proof fn lemma_pid_position_stays(ps: Seq<Process>, list: Seq<usize>, x: u32, b: int, n: int)
    requires
        0 <= b < n,
        pid_position(ps, list, x, b + 1) == Some(b),
    ensures
        pid_position(ps, list, x, n) == Some(b),
    decreases n,
{
    if n > b + 1 {
        lemma_pid_position_stays(ps, list, x, b, n - 1);
    }
}

/// A position as an integer.
pub open spec fn int_of(o: Option<usize>) -> Option<int> {
    match o {
        Some(v) => Some(v as int),
        None => None,
    }
}

/// The first list position holding a process with PID `x`.
fn find_pid(ps: &Vec<Process>, list: &Vec<usize>, x: u32) -> (r: Option<usize>)
    requires
        forall|a: int| 0 <= a < list@.len() ==> list@[a] < ps@.len(),
    ensures
        int_of(r) == pid_position(ps@, list@, x, list@.len() as int),
{
    let mut b: usize = 0;
    while b < list.len()
        invariant
            0 <= b <= list@.len(),
            forall|a: int| 0 <= a < list@.len() ==> list@[a] < ps@.len(),
            pid_position(ps@, list@, x, b as int) is None,
        decreases list.len() - b,
    {
        if ps[list[b]].pid == x {
            proof {
                lemma_pid_position_stays(ps@, list@, x, b as int, list@.len() as int);
            }
            return Some(b);
        }
        b = b + 1;
    }
    None
}

/// The list position of each listed process's parent, when listed.
fn parent_positions(ps: &Vec<Process>, list: &Vec<usize>) -> (r: Vec<Option<usize>>)
    requires
        forall|a: int| 0 <= a < list@.len() ==> list@[a] < ps@.len(),
    ensures
        r@.len() == list@.len(),
        forall|a: int| 0 <= a < list@.len() ==> int_of(#[trigger] r@[a]) == parent_pos(ps@, list@, a),
        forall|a: int, b: usize| 0 <= a < list@.len() && r@[a] == Some(b) ==> b < list@.len(),
{
    let mut out: Vec<Option<usize>> = Vec::new();
    let mut a: usize = 0;
    while a < list.len()
        invariant
            0 <= a <= list@.len(),
            forall|k: int| 0 <= k < list@.len() ==> list@[k] < ps@.len(),
            out@.len() == a,
            forall|k: int| 0 <= k < a ==> int_of(#[trigger] out@[k]) == parent_pos(ps@, list@, k),
            forall|k: int, b: usize| 0 <= k < a && out@[k] == Some(b) ==> b < list@.len(),
        decreases list.len() - a,
    {
        let parent = match ps[list[a]].ppid {
            Field::Value(pp) => {
                let found = find_pid(ps, list, pp);
                proof {
                    if found is Some {
                        lemma_pid_position_bounds(ps@, list@, pp, list@.len() as int);
                    }
                }
                found
            },
            _ => None,
        };
        out.push(parent);
        a = a + 1;
    }
    out
}

/// The position `pid_position` finds lies in the range it looked at.
pub proof fn lemma_pid_position_bounds(ps: Seq<Process>, list: Seq<usize>, x: u32, n: int)
    ensures
        pid_position(ps, list, x, n) matches Some(b) ==> 0 <= b < n,
    decreases n,
{
    if n > 0 {
        lemma_pid_position_bounds(ps, list, x, n - 1);
    }
}

/// A path with more entries below it.
pub open spec fn extended(p: Option<Seq<u32>>, below: Seq<u32>) -> Option<Seq<u32>> {
    match p {
        Some(q) => Some(q + below),
        None => None,
    }
}

/// The tree place of list position `a`.
fn key_of(ps: &Vec<Process>, list: &Vec<usize>, parents: &Vec<Option<usize>>, a: usize) -> (r: Option<Vec<u32>>)
    requires
        forall|k: int| 0 <= k < list@.len() ==> list@[k] < ps@.len(),
        parents@.len() == list@.len(),
        forall|k: int| 0 <= k < list@.len() ==> int_of(#[trigger] parents@[k]) == parent_pos(ps@, list@, k),
        forall|k: int, b: usize| 0 <= k < list@.len() && parents@[k] == Some(b) ==> b < list@.len(),
        a < list@.len(),
    ensures
        match r {
            Some(v) => tree_key(ps@, list@, a as int) == Some(v@),
            None => tree_key(ps@, list@, a as int) is None,
        },
{
    let fuel = list.len();
    let mut cur: usize = a;
    let mut steps: usize = 0;
    let mut below: Vec<u32> = Vec::new();
    proof {
        assert(extended(path(ps@, list@, a as int, fuel as nat), below@) =~= path(ps@, list@, a as int, fuel as nat)) by {
            if path(ps@, list@, a as int, fuel as nat) is Some {
                assert(path(ps@, list@, a as int, fuel as nat)->0 + Seq::<u32>::empty() =~= path(ps@, list@, a as int, fuel as nat)->0);
            }
        }
    }
    loop
        invariant
            forall|k: int| 0 <= k < list@.len() ==> list@[k] < ps@.len(),
            parents@.len() == list@.len(),
            forall|k: int| 0 <= k < list@.len() ==> int_of(#[trigger] parents@[k]) == parent_pos(ps@, list@, k),
            forall|k: int, b: usize| 0 <= k < list@.len() && parents@[k] == Some(b) ==> b < list@.len(),
            fuel == list@.len(),
            cur < list@.len(),
            steps <= fuel,
            tree_key(ps@, list@, a as int) == extended(path(ps@, list@, cur as int, (fuel - steps) as nat), below@),
        decreases fuel - steps,
    {
        let pid = ps[list[cur]].pid;
        match parents[cur] {
            None => {
                let mut key: Vec<u32> = Vec::new();
                key.push(pid);
                let ghost single = key@;
                key.append(&mut below);
                proof {
                    assert(single =~= seq![pid_at(ps@, list@, cur as int)]);
                }
                return Some(key);
            },
            Some(b) => {
                if steps == fuel {
                    return None;
                }
                let ghost old_below = below@;
                below.insert(0, pid);
                proof {
                    assert(below@ =~= seq![pid] + old_below);
                    let f = (fuel - steps) as nat;
                    match path(ps@, list@, b as int, (f - 1) as nat) {
                        Some(q) => {
                            assert(q.push(pid) + old_below =~= q + below@);
                        },
                        None => {},
                    }
                }
                steps = steps + 1;
                cur = b;
            },
        }
    }
}

/// Whether the path `a` comes before `b`.
fn path_less(a: &[u32], b: &[u32]) -> (r: bool)
    ensures
        r == path_lt(a@, b@),
{
    let mut i: usize = 0;
    proof {
        assert(a@.skip(0) =~= a@);
        assert(b@.skip(0) =~= b@);
    }
    while i < a.len() && i < b.len()
        invariant
            0 <= i <= a.len(),
            i <= b.len(),
            path_lt(a@, b@) == path_lt(a@.skip(i as int), b@.skip(i as int)),
        decreases a.len() - i,
    {
        if a[i] < b[i] {
            return true;
        }
        if a[i] > b[i] {
            return false;
        }
        proof {
            assert(a@.skip(i as int).drop_first() =~= a@.skip(i + 1));
            assert(b@.skip(i as int).drop_first() =~= b@.skip(i + 1));
        }
        i = i + 1;
    }
    i < b.len()
}

/// The views of the computed tree places.
pub open spec fn key_views(keys: Seq<Option<Vec<u32>>>) -> Seq<Option<Seq<u32>>> {
    Seq::new(
        keys.len(),
        |a: int|
            match keys[a] {
                Some(v) => Some(v@),
                None => None,
            },
    )
}

/// Whether list position `a` comes before `b`.
fn tree_less(keys: &Vec<Option<Vec<u32>>>, a: usize, b: usize) -> (r: bool)
    requires
        a < keys@.len(),
        b < keys@.len(),
    ensures
        r == tree_before(key_views(keys@), a as int, b as int),
{
    match (&keys[a], &keys[b]) {
        (Some(x), Some(y)) => {
            if path_less(x.as_slice(), y.as_slice()) {
                return true;
            }
            if path_less(y.as_slice(), x.as_slice()) {
                proof {
                    lemma_path_lt_total(x@, y@);
                    if x@ == y@ {
                        lemma_path_lt_irreflexive(x@);
                    }
                }
                return false;
            }
            proof {
                lemma_path_lt_total(x@, y@);
            }
            a < b
        },
        (Some(_), None) => true,
        (None, Some(_)) => false,
        (None, None) => a < b,
    }
}

/// The listed processes in parent-first tree order: each process below a
/// root right after its parent, siblings by PID, the roots by PID; then
/// the processes that hang below no root (their parents form a cycle), in
/// list order. A PID that was already placed is not placed again.
pub fn tree_order(snapshot: &Snapshot, list: Vec<usize>) -> (r: Vec<usize>)
    requires
        forall|a: int| 0 <= a < list@.len() ==> list@[a] < snapshot.processes@.len(),
    ensures
        exists|s: Seq<usize>|
            tree_arrangement(snapshot.processes@, list@, s) && r@ == first_of_each_pid(
                snapshot.processes@,
                list@,
                s,
                s.len() as int,
            ),
{
    let ps = &snapshot.processes;
    let parents = parent_positions(ps, &list);
    let mut keys: Vec<Option<Vec<u32>>> = Vec::new();
    let mut a: usize = 0;
    while a < list.len()
        invariant
            0 <= a <= list@.len(),
            forall|k: int| 0 <= k < list@.len() ==> list@[k] < ps@.len(),
            parents@.len() == list@.len(),
            forall|k: int| 0 <= k < list@.len() ==> int_of(#[trigger] parents@[k]) == parent_pos(ps@, list@, k),
            forall|k: int, b: usize| 0 <= k < list@.len() && parents@[k] == Some(b) ==> b < list@.len(),
            key_views(keys@) == tree_keys(ps@, list@).take(a as int),
        decreases list.len() - a,
    {
        let key = key_of(ps, &list, &parents, a);
        let ghost before = key_views(keys@);
        keys.push(key);
        proof {
            assert(key_views(keys@) =~= before.push(tree_keys(ps@, list@)[a as int]));
        }
        a = a + 1;
        proof {
            assert(key_views(keys@) =~= tree_keys(ps@, list@).take(a as int));
        }
    }
    proof {
        assert(tree_keys(ps@, list@).take(list@.len() as int) =~= tree_keys(ps@, list@));
    }
    let ghost kv = tree_keys(ps@, list@);
    let mut out: Vec<usize> = Vec::new();
    let mut n: usize = 0;
    proof {
        assert(out@.to_multiset() =~= crate::check::positions(0).to_multiset());
    }
    while n < list.len()
        invariant
            0 <= n <= list@.len(),
            keys@.len() == list@.len(),
            key_views(keys@) == kv,
            out@.to_multiset() == crate::check::positions(n as nat).to_multiset(),
            forall|x: int, y: int| 0 <= x < y < out@.len() ==> tree_before(kv, out@[x] as int, out@[y] as int),
            forall|x: int| 0 <= x < out@.len() ==> (#[trigger] out@[x]) < n,
        decreases list.len() - n,
    {
        let mut pos: usize = 0;
        while pos < out.len() && tree_less(&keys, out[pos], n)
            invariant
                keys@.len() == list@.len(),
                key_views(keys@) == kv,
                n < list@.len(),
                0 <= pos <= out@.len(),
                forall|x: int| 0 <= x < out@.len() ==> (#[trigger] out@[x]) < n,
                forall|x: int| 0 <= x < pos ==> tree_before(kv, #[trigger] out@[x] as int, n as int),
            decreases out.len() - pos,
        {
            pos = pos + 1;
        }
        let ghost old_out = out@;
        proof {
            if pos < out.len() {
                lemma_tree_before_total(kv, out@[pos as int] as int, n as int);
            }
        }
        out.insert(pos, n);
        proof {
            vstd::seq_lib::to_multiset_insert(old_out, pos as int, n);
            assert(crate::check::positions((n + 1) as nat) =~= crate::check::positions(n as nat).push(n));
            assert(out@.to_multiset() =~= crate::check::positions((n + 1) as nat).to_multiset());
            assert forall|x: int, y: int| 0 <= x < y < out@.len() implies tree_before(
                kv,
                out@[x] as int,
                out@[y] as int,
            ) by {
                if y < pos {
                    assert(out@[x] == old_out[x]);
                    assert(out@[y] == old_out[y]);
                } else if y == pos {
                    assert(out@[x] == old_out[x]);
                } else if x == pos {
                    assert(out@[y] == old_out[y - 1]);
                    if y - 1 > pos {
                        lemma_tree_before_transitive(kv, n as int, old_out[pos as int] as int, old_out[y - 1] as int);
                    }
                } else if x < pos {
                    assert(out@[x] == old_out[x]);
                    assert(out@[y] == old_out[y - 1]);
                    assert(tree_before(kv, n as int, old_out[y - 1] as int)) by {
                        if y - 1 > pos {
                            lemma_tree_before_transitive(kv, n as int, old_out[pos as int] as int, old_out[y - 1] as int);
                        }
                    }
                    lemma_tree_before_transitive(kv, old_out[x] as int, n as int, old_out[y - 1] as int);
                } else {
                    assert(out@[x] == old_out[x - 1]);
                    assert(out@[y] == old_out[y - 1]);
                }
            }
            assert forall|x: int| 0 <= x < out@.len() implies (#[trigger] out@[x]) < n + 1 by {
                if x < pos {
                    assert(out@[x] == old_out[x]);
                } else if x > pos {
                    assert(out@[x] == old_out[x - 1]);
                }
            }
        }
        n = n + 1;
    }
    proof {
        assert(out@.len() == out@.to_multiset().len());
        assert(crate::check::positions(list@.len()).to_multiset().len() == list@.len());
    }
    let mut seen: HashSet<u32> = HashSet::new();
    let mut result: Vec<usize> = Vec::new();
    let mut k: usize = 0;
    while k < out.len()
        invariant
            0 <= k <= out@.len(),
            out@.len() == list@.len(),
            forall|x: int| 0 <= x < out@.len() ==> (#[trigger] out@[x]) < list@.len(),
            forall|x: int| 0 <= x < list@.len() ==> list@[x] < ps@.len(),
            result@ == first_of_each_pid(ps@, list@, out@, k as int),
            forall|x: u32|
                seen@.contains(x) <==> exists|j: int| 0 <= j < k && pid_at(ps@, list@, #[trigger] out@[j] as int) == x,
        decreases out.len() - k,
    {
        let at = list[out[k]];
        let pid = ps[at].pid;
        let ghost old_seen = seen@;
        let fresh = seen.insert(pid);
        proof {
            assert(pid == pid_at(ps@, list@, out@[k as int] as int));
            if !fresh {
                let j = choose|j: int| 0 <= j < k && pid_at(ps@, list@, #[trigger] out@[j] as int) == pid;
                assert(exists|j: int| 0 <= j < k && pid_at(ps@, list@, #[trigger] out@[j] as int) == pid_at(ps@, list@, out@[k as int] as int));
            } else {
                assert(!(exists|j: int| 0 <= j < k && pid_at(ps@, list@, #[trigger] out@[j] as int) == pid_at(ps@, list@, out@[k as int] as int)));
            }
        }
        if fresh {
            result.push(at);
        }
        proof {
            assert forall|x: u32|
                seen@.contains(x) <==> exists|j: int| 0 <= j < k + 1 && pid_at(ps@, list@, #[trigger] out@[j] as int) == x by {
                if seen@.contains(x) && x != pid {
                    assert(old_seen.contains(x));
                }
                if x == pid {
                    assert(pid_at(ps@, list@, out@[k as int] as int) == x);
                }
            }
        }
        k = k + 1;
    }
    proof {
        assert(tree_arrangement(ps@, list@, out@));
    }
    result
}

/// More fuel finds the same path.
pub proof fn lemma_path_more_fuel(ps: Seq<Process>, list: Seq<usize>, a: int, f: nat, g: nat)
    requires
        f <= g,
        path(ps, list, a, f) is Some,
    ensures
        path(ps, list, a, g) == path(ps, list, a, f),
    decreases f,
{
    if let Some(b) = parent_pos(ps, list, a) {
        lemma_path_more_fuel(ps, list, b, (f - 1) as nat, (g - 1) as nat);
    }
}

/// In the tree order every parent comes before its children: when the
/// parent of a listed process is listed and the process hangs below a
/// root, the parent's place in the arrangement is earlier.
pub proof fn lemma_parent_first(ps: Seq<Process>, list: Seq<usize>, s: Seq<usize>, i: int, j: int)
    requires
        tree_arrangement(ps, list, s),
        0 <= i < s.len(),
        0 <= j < s.len(),
        parent_pos(ps, list, s[j] as int) == Some(s[i] as int),
        tree_key(ps, list, s[j] as int) is Some,
    ensures
        i < j,
{
    let a = s[j] as int;
    let b = s[i] as int;
    let n = list.len();
    assert(s.to_multiset().count(s[j]) > 0);
    assert(crate::check::positions(n).to_multiset().count(s[j]) > 0);
    assert(0 <= a < n) by {
        assert(crate::check::positions(n).contains(s[j]));
    }
    let f = (n - 1) as nat;
    let q = path(ps, list, b, f)->0;
    assert(path(ps, list, a, n as nat) == Some(q.push(pid_at(ps, list, a))));
    lemma_path_more_fuel(ps, list, b, f, n as nat);
    lemma_path_prefix_first(q, pid_at(ps, list, a));
    let kv = tree_keys(ps, list);
    assert(crate::check::positions(n).contains(s[i])) by {
        assert(s.to_multiset().count(s[i]) > 0);
        assert(crate::check::positions(n).to_multiset().count(s[i]) > 0);
    }
    assert(kv[b] == Some(q));
    assert(kv[a] == Some(q.push(pid_at(ps, list, a))));
    assert(tree_before(kv, b, a));
    if j < i {
        lemma_tree_before_asymmetric(kv, b, a);
    }
    if i == j {
        lemma_path_lt_irreflexive(q);
        assert(q.push(pid_at(ps, list, a)).len() != q.len());
    }
}

/// When the listed processes have distinct PIDs, the tree order leaves
/// none of them out: it is the arrangement's processes, one for one.
pub proof fn lemma_tree_keeps_all(ps: Seq<Process>, list: Seq<usize>, s: Seq<usize>, n: int)
    requires
        tree_arrangement(ps, list, s),
        0 <= n <= s.len(),
        forall|x: int, y: int|
            0 <= x < list.len() && 0 <= y < list.len() && x != y ==> pid_at(ps, list, x) != pid_at(ps, list, y),
    ensures
        first_of_each_pid(ps, list, s, n) == Seq::new(n as nat, |k: int| list[s[k] as int]),
    decreases n,
{
    if n > 0 {
        lemma_tree_keeps_all(ps, list, s, n - 1);
        let len = list.len();
        assert(forall|k: int| 0 <= k < s.len() ==> crate::check::positions(len).contains(#[trigger] s[k])) by {
            assert forall|k: int| 0 <= k < s.len() implies crate::check::positions(len).contains(#[trigger] s[k]) by {
                assert(s.to_multiset().count(s[k]) > 0);
                assert(crate::check::positions(len).to_multiset().count(s[k]) > 0);
            }
        }
        if exists|j: int| 0 <= j < n - 1 && pid_at(ps, list, #[trigger] s[j] as int) == pid_at(ps, list, s[n - 1] as int) {
            let j = choose|j: int| 0 <= j < n - 1 && pid_at(ps, list, #[trigger] s[j] as int) == pid_at(ps, list, s[n - 1] as int);
            assert(crate::check::positions(len).contains(s[j]));
            assert(crate::check::positions(len).contains(s[n - 1]));
            let kv = tree_keys(ps, list);
            assert(tree_before(kv, s[j] as int, s[n - 1] as int));
            if s[j] == s[n - 1] {
                lemma_tree_before_asymmetric(kv, s[j] as int, s[n - 1] as int);
            }
        }
        assert(first_of_each_pid(ps, list, s, n) =~= Seq::new(n as nat, |k: int| list[s[k] as int]));
    }
}

// ---------------------------------------------------------------------------
// Counts in the header lines
// ---------------------------------------------------------------------------

/// A count as shown: the number, or the status in angle brackets.
pub open spec fn shown_count(f: Field<nat>) -> Seq<char> {
    match f {
        Field::Value(n) => decimal(n),
        _ => "<"@ + status_word(f.kind()) + ">"@,
    }
}

/// The number of entries of a list field, or its status.
pub open spec fn entries_of<T>(f: Field<Vec<T>>) -> Field<nat> {
    match f {
        Field::Value(v) => Field::Value(v@.len()),
        _ => field_of_status(f.kind()),
    }
}

/// The value of a count field, or its status.
pub open spec fn count_of(f: Field<usize>) -> Field<nat> {
    match f {
        Field::Value(v) => Field::Value(v as nat),
        _ => field_of_status(f.kind()),
    }
}

/// Appends `<status>`.
fn push_status(out: &mut String, status: &str)
    ensures
        final(out)@ == old(out)@ + "<"@ + status@ + ">"@,
{
    push_str(out, "<");
    push_str(out, status);
    push_str(out, ">");
    proof {
        assert(final(out)@ =~= old(out)@ + "<"@ + status@ + ">"@);
    }
}

/// How many entries a list field holds, or `<status>` when it holds none.
pub fn field_count<T>(field: &Field<Vec<T>>) -> (r: String)
    ensures
        r@ == shown_count(entries_of(*field)),
{
    let mut out = String::new();
    match field {
        Field::Value(values) => push_decimal(&mut out, values.len() as u128),
        other => push_status(&mut out, other.status()),
    }
    proof {
        assert(out@ =~= shown_count(entries_of(*field)));
    }
    out
}

/// The value of a count field, or `<status>` when it has none.
pub fn field_value(field: &Field<usize>) -> (r: String)
    ensures
        r@ == shown_count(count_of(*field)),
{
    let mut out = String::new();
    match field {
        Field::Value(value) => push_decimal(&mut out, *value as u128),
        other => push_status(&mut out, other.status()),
    }
    proof {
        assert(out@ =~= shown_count(count_of(*field)));
    }
    out
}

// ---------------------------------------------------------------------------
// Searching the inventory panes
// ---------------------------------------------------------------------------

/// The positions below `n` at which `pred` holds, in order.
pub open spec fn positions_where(n: int, pred: spec_fn(int) -> bool) -> Seq<usize>
    decreases n,
{
    if n <= 0 {
        Seq::empty()
    } else {
        let r = positions_where(n - 1, pred);
        if pred(n - 1) {
            r.push((n - 1) as usize)
        } else {
            r
        }
    }
}

/// Whether a socket matches the search: an empty search matches all, else
/// its local address or its path must contain it.
pub open spec fn socket_matches(s: SocketView, search: Seq<char>) -> bool {
    search.len() == 0 || occurs_in(s.local, search) || (s.path matches Some(p) && occurs_in(
        p,
        search,
    ))
}

/// Whether a mount matches the search: an empty search matches all, else
/// its mount point must contain it.
pub open spec fn mount_matches(m: MountView, search: Seq<char>) -> bool {
    search.len() == 0 || occurs_in(m.mount_point, search)
}

/// The positions of the sockets the network pane shows for a search.
pub fn matching_sockets(sockets: &Vec<SocketRecord>, search: &str) -> (r: Vec<usize>)
    ensures
        r@ == positions_where(
            sockets@.len() as int,
            |i: int| socket_matches(sockets@[i]@, search@),
        ),
{
    let ghost pred = |i: int| socket_matches(sockets@[i]@, search@);
    let needle = chars_of(search);
    let mut out: Vec<usize> = Vec::new();
    let mut i: usize = 0;
    while i < sockets.len()
        invariant
            0 <= i <= sockets@.len(),
            needle@ == search@,
            pred == (|i: int| socket_matches(sockets@[i]@, search@)),
            out@ == positions_where(i as int, pred),
        decreases sockets.len() - i,
    {
        let s = &sockets[i];
        let local = chars_of(s.local.as_str());
        let mut keep = needle.len() == 0 || chars_contain(local.as_slice(), needle.as_slice());
        if !keep {
            keep = match &s.path {
                Some(p) => {
                    let pc = chars_of(p.as_str());
                    chars_contain(pc.as_slice(), needle.as_slice())
                },
                None => false,
            };
        }
        proof {
            assert(keep == pred(i as int));
        }
        if keep {
            out.push(i);
        }
        i = i + 1;
    }
    out
}

/// The positions of the mounts the system pane shows for a search.
pub fn matching_mounts(mounts: &Vec<MountRecord>, search: &str) -> (r: Vec<usize>)
    ensures
        r@ == positions_where(mounts@.len() as int, |i: int| mount_matches(mounts@[i]@, search@)),
{
    let ghost pred = |i: int| mount_matches(mounts@[i]@, search@);
    let needle = chars_of(search);
    let mut out: Vec<usize> = Vec::new();
    let mut i: usize = 0;
    while i < mounts.len()
        invariant
            0 <= i <= mounts@.len(),
            needle@ == search@,
            pred == (|i: int| mount_matches(mounts@[i]@, search@)),
            out@ == positions_where(i as int, pred),
        decreases mounts.len() - i,
    {
        let point = chars_of(mounts[i].mount_point.as_str());
        let keep = needle.len() == 0 || chars_contain(point.as_slice(), needle.as_slice());
        proof {
            assert(keep == pred(i as int));
        }
        if keep {
            out.push(i);
        }
        i = i + 1;
    }
    out
}

// ---------------------------------------------------------------------------
// The screen
// ---------------------------------------------------------------------------

/// Whether a character is a control character (Unicode category Cc).
pub open spec fn is_control(c: char) -> bool {
    (c as u32) < 0x20 || (0x7f <= (c as u32) && (c as u32) <= 0x9f)
}

/// Untrusted text made safe for the terminal: every control character is
/// shown as `?`.
pub open spec fn sanitize_spec(s: Seq<char>) -> Seq<char> {
    Seq::new(s.len(), |i: int| if is_control(s[i]) { '?' } else { s[i] })
}

/// At most `width` characters of a text, and at least one kept room.
pub open spec fn truncate_spec(s: Seq<char>, width: int) -> Seq<char> {
    let w = if width < 1 { 1 } else { width };
    if s.len() <= w {
        s
    } else {
        s.take(w)
    }
}

/// `n` spaces.
pub open spec fn spaces(n: int) -> Seq<char> {
    Seq::new(if n > 0 { n as nat } else { 0 }, |i: int| ' ')
}

/// A text right-aligned in `width` columns (longer texts unchanged).
pub open spec fn pad_left(s: Seq<char>, width: int) -> Seq<char> {
    spaces(width - s.len()) + s
}

/// A text left-aligned in `width` columns (longer texts unchanged).
pub open spec fn pad_right(s: Seq<char>, width: int) -> Seq<char> {
    s + spaces(width - s.len())
}

/// `true` or `false`.
pub open spec fn bool_word(b: bool) -> Seq<char> {
    if b {
        "true"@
    } else {
        "false"@
    }
}

/// What the header lines show, with measured figures already written out.
pub struct FrameHead {
    pub pane: Pane,
    pub observer_pid: u32,
    pub processes: usize,
    pub collection_ms: String,
    pub memory_used: String,
    pub memory_total: String,
    pub swap_used: String,
    pub swap_total: String,
    pub sort: Sort,
    pub filter: Filter,
    pub tree: bool,
    /// The search text as it is shown, quotes included.
    pub search: String,
}

/// The cells of one process row, with measured figures already written
/// out.
pub struct RowCells {
    pub pid: u32,
    pub cpu: String,
    pub rss_mib: String,
    pub read: String,
    pub write: String,
    pub name: String,
    pub depth: usize,
}

/// The details shown below the list for the selected process.
pub struct Detail {
    /// The line of identifiers, state and start time.
    pub ids: String,
    pub executable: String,
    pub command: String,
    pub visibility: String,
}

/// The first header line: title, pane, the observer's own PID, the number
/// of processes and the collection time.
pub open spec fn head_line(h: FrameHead) -> Seq<char> {
    "\x1b[H\x1b[2JWhat's Running?  Arch + Hyprland  view="@ + pane_word(h.pane) + " self="@
        + decimal(h.observer_pid as nat) + "  processes="@ + decimal(h.processes as nat)
        + "  collection="@ + h.collection_ms@ + "ms"@
}

/// The second header line: memory, swap, and the sort, filter, tree and
/// search in force.
pub open spec fn state_line(h: FrameHead) -> Seq<char> {
    "memory "@ + h.memory_used@ + " / "@ + h.memory_total@ + " MiB  swap "@ + h.swap_used@
        + " / "@ + h.swap_total@ + " MiB  sort="@ + sort_word(h.sort) + " filter="@ + filter_word(
        h.filter,
    ) + " tree="@ + bool_word(h.tree) + " search="@ + h.search@
}

/// The separator bar: `columns` dashes, kept between 20 and 100.
pub open spec fn bar(columns: usize) -> Seq<char> {
    let n: nat = if columns < 20 {
        20
    } else if columns > 100 {
        100
    } else {
        columns as nat
    };
    Seq::new(n, |i: int| '-')
}

/// The key legend.
pub open spec fn legend_text() -> Seq<char> {
    "v views   / search   t tree   s sort   f filter   r refresh   j/k select   d details   q quit"@
}

/// The title row of the process table.
pub open spec fn table_title() -> Seq<char> {
    "  PID    CPU%   RSS MiB   READ/s  WRITE/s NAME"@
}

/// The room left for names: the columns beyond the first 52.
pub open spec fn name_width(columns: usize) -> int {
    if columns > 52 {
        columns - 52
    } else {
        0
    }
}

/// One process row: `>` for the selected row, the PID, CPU, memory and
/// rates in fixed columns, the name indented by depth, sanitized and
/// truncated to the room left, and ` [THIS TOOL]` for the observer.
pub open spec fn row_text(c: RowCells, selected: bool, observer_pid: u32, columns: usize) -> Seq<char> {
    seq![if selected { '>' } else { ' ' }] + " "@ + pad_right(decimal(c.pid as nat), 6) + " "@
        + pad_left(c.cpu@, 6) + " "@ + pad_left(c.rss_mib@, 9) + " "@ + pad_left(c.read@, 7) + " "@
        + pad_left(c.write@, 8) + " "@ + truncate_spec(
        spaces(2 * c.depth) + sanitize_spec(c.name@),
        name_width(columns),
    ) + (if c.pid == observer_pid {
        " [THIS TOOL]"@
    } else {
        Seq::empty()
    })
}

/// The number of rows the window shows.
pub open spec fn window_len(len: int, window: (usize, usize, usize)) -> int {
    if window.2 >= len {
        0
    } else if window.1 < len - window.2 {
        window.1 as int
    } else {
        len - window.2
    }
}

/// The rows of the visible window of the list.
pub open spec fn window_rows(cells: Seq<RowCells>, window: (usize, usize, usize), observer_pid: u32, columns: usize) -> Seq<Seq<char>> {
    Seq::new(
        window_len(cells.len() as int, window) as nat,
        |k: int|
            row_text(cells[window.2 + k], window.2 + k == window.0, observer_pid, columns),
    )
}

/// The detail block: a blank line, its title, the identifiers, and the
/// executable, command (both sanitized) and visibility.
pub open spec fn detail_lines(d: Detail) -> Seq<Seq<char>> {
    seq![
        Seq::empty(),
        "DETAIL (command may contain secrets)"@,
        d.ids@,
        "exe="@ + sanitize_spec(d.executable@),
        "command="@ + sanitize_spec(d.command@),
        "visibility="@ + d.visibility@,
    ]
}

/// The sanitized lines of a pane.
pub open spec fn sanitized_lines(pane: Seq<String>) -> Seq<Seq<char>> {
    Seq::new(pane.len(), |i: int| sanitize_spec(pane[i]@))
}

/// Every line of a screen before it is cut to the terminal's height: the
/// two header lines, the legend between two bars, then the pane's lines or
/// the process table with the details.
pub open spec fn screen_lines(
    head: FrameHead,
    cells: Seq<RowCells>,
    window: (usize, usize, usize),
    columns: usize,
    pane: Option<Seq<String>>,
    detail: Option<Detail>,
) -> Seq<Seq<char>> {
    seq![head_line(head), state_line(head), bar(columns), legend_text(), bar(columns)] + match pane {
        Some(p) => sanitized_lines(p),
        None => seq![table_title()] + window_rows(cells, window, head.observer_pid, columns)
            + match detail {
            Some(d) => detail_lines(d),
            None => Seq::empty(),
        },
    }
}

/// The screen as drawn: the first `rows` lines, each ending with the
/// erase-to-end-of-line sequence.
pub open spec fn frame_spec(
    head: FrameHead,
    cells: Seq<RowCells>,
    window: (usize, usize, usize),
    columns: usize,
    rows: usize,
    pane: Option<Seq<String>>,
    detail: Option<Detail>,
) -> Seq<Seq<char>> {
    let all = screen_lines(head, cells, window, columns, pane, detail);
    let n: nat = if rows < all.len() {
        rows as nat
    } else {
        all.len()
    };
    Seq::new(n, |i: int| all[i] + "\x1b[K"@)
}

/// Untrusted text made safe for the terminal: control characters become
/// `?`.
pub fn sanitize(value: &str) -> (r: String)
    ensures
        r@ == sanitize_spec(value@),
{
    let cs = chars_of(value);
    let mut out = String::new();
    let mut i: usize = 0;
    while i < cs.len()
        invariant
            0 <= i <= cs@.len(),
            cs@ == value@,
            out@ == sanitize_spec(value@).take(i as int),
        decreases cs.len() - i,
    {
        let c = cs[i];
        let u = c as u32;
        let shown = if u < 0x20 || (0x7f <= u && u <= 0x9f) {
            '?'
        } else {
            c
        };
        push_char(&mut out, shown);
        i = i + 1;
        proof {
            assert(out@ =~= sanitize_spec(value@).take(i as int));
        }
    }
    proof {
        assert(sanitize_spec(value@).take(cs@.len() as int) =~= sanitize_spec(value@));
    }
    out
}

/// A text field's value, or its status in angle brackets.
pub open spec fn field_text_spec(f: Field<String>) -> Seq<char> {
    match f {
        Field::Value(v) => v@,
        _ => "<"@ + status_word(f.kind()) + ">"@,
    }
}

/// A text field's value, or its status in angle brackets.
pub fn field_text(f: &Field<String>) -> (r: String)
    ensures
        r@ == field_text_spec(*f),
{
    match f {
        Field::Value(v) => v.clone(),
        other => {
            let mut out = String::new();
            push_status(&mut out, other.status());
            proof {
                assert(out@ =~= field_text_spec(*f));
            }
            out
        },
    }
}

/// Appends `n` spaces.
fn push_spaces(out: &mut String, n: usize)
    ensures
        final(out)@ == old(out)@ + spaces(n as int),
{
    let mut i: usize = 0;
    while i < n
        invariant
            0 <= i <= n,
            out@ == old(out)@ + spaces(i as int),
        decreases n - i,
    {
        push_char(out, ' ');
        i = i + 1;
        proof {
            assert(out@ =~= old(out)@ + spaces(i as int));
        }
    }
}

/// Appends a text right-aligned in `width` columns.
fn push_pad_left(out: &mut String, s: &str, width: usize)
    ensures
        final(out)@ == old(out)@ + pad_left(s@, width as int),
{
    let n = chars_of(s).len();
    if n < width {
        push_spaces(out, width - n);
    } else {
        proof {
            assert(spaces(width - s@.len()) =~= Seq::<char>::empty());
            assert(old(out)@ + Seq::<char>::empty() =~= old(out)@);
        }
    }
    push_str(out, s);
    proof {
        assert(final(out)@ =~= old(out)@ + pad_left(s@, width as int));
    }
}

/// Appends a text left-aligned in `width` columns.
pub(crate) fn push_pad_right(out: &mut String, s: &str, width: usize)
    ensures
        final(out)@ == old(out)@ + pad_right(s@, width as int),
{
    push_str(out, s);
    let n = chars_of(s).len();
    if n < width {
        push_spaces(out, width - n);
    } else {
        proof {
            assert(spaces(width - s@.len()) =~= Seq::<char>::empty());
        }
    }
    proof {
        assert(final(out)@ =~= old(out)@ + pad_right(s@, width as int));
    }
}

/// The row of one process.
pub fn row_line(c: &RowCells, selected: bool, observer_pid: u32, columns: usize) -> (r: String)
    ensures
        r@ == row_text(*c, selected, observer_pid, columns),
{
    let mut out = String::new();
    push_char(&mut out, if selected { '>' } else { ' ' });
    push_str(&mut out, " ");
    let mut pid = String::new();
    push_decimal(&mut pid, c.pid as u128);
    push_pad_right(&mut out, pid.as_str(), 6);
    push_str(&mut out, " ");
    push_pad_left(&mut out, c.cpu.as_str(), 6);
    push_str(&mut out, " ");
    push_pad_left(&mut out, c.rss_mib.as_str(), 9);
    push_str(&mut out, " ");
    push_pad_left(&mut out, c.read.as_str(), 7);
    push_str(&mut out, " ");
    push_pad_left(&mut out, c.write.as_str(), 8);
    push_str(&mut out, " ");
    let ghost before_name = out@;
    let mut name = String::new();
    let mut d: usize = 0;
    while d < c.depth
        invariant
            0 <= d <= c.depth,
            name@ == spaces(2 * d),
        decreases c.depth - d,
    {
        push_str(&mut name, "  ");
        d = d + 1;
        proof {
            reveal_strlit("  ");
            assert(name@ =~= spaces(2 * d));
        }
    }
    let clean = sanitize(c.name.as_str());
    push_str(&mut name, clean.as_str());
    let cs = chars_of(name.as_str());
    let room = if columns > 52 {
        columns - 52
    } else {
        0
    };
    let w = if room < 1 {
        1
    } else {
        room
    };
    let mut k: usize = 0;
    while k < cs.len() && k < w
        invariant
            0 <= k <= cs@.len(),
            k <= w,
            w == (if name_width(columns) < 1 {
                1
            } else {
                name_width(columns)
            }),
            cs@ == spaces(2 * c.depth) + sanitize_spec(c.name@),
            out@ == before_name + cs@.take(k as int),
        decreases cs.len() - k,
    {
        push_char(&mut out, cs[k]);
        k = k + 1;
        proof {
            assert(out@ =~= before_name + cs@.take(k as int));
        }
    }
    proof {
        assert(cs@.take(k as int) =~= truncate_spec(cs@, name_width(columns)));
    }
    if c.pid == observer_pid {
        push_str(&mut out, " [THIS TOOL]");
    }
    proof {
        assert(out@ =~= row_text(*c, selected, observer_pid, columns));
    }
    out
}

/// The first header line.
fn head_line_of(h: &FrameHead) -> (r: String)
    ensures
        r@ == head_line(*h),
{
    let mut out = String::new();
    push_str(&mut out, "\x1b[H\x1b[2JWhat's Running?  Arch + Hyprland  view=");
    push_str(&mut out, pane_name(h.pane));
    push_str(&mut out, " self=");
    push_decimal(&mut out, h.observer_pid as u128);
    push_str(&mut out, "  processes=");
    push_decimal(&mut out, h.processes as u128);
    push_str(&mut out, "  collection=");
    push_str(&mut out, h.collection_ms.as_str());
    push_str(&mut out, "ms");
    proof {
        assert(out@ =~= head_line(*h));
    }
    out
}

/// The second header line.
fn state_line_of(h: &FrameHead) -> (r: String)
    ensures
        r@ == state_line(*h),
{
    let mut out = String::new();
    push_str(&mut out, "memory ");
    push_str(&mut out, h.memory_used.as_str());
    push_str(&mut out, " / ");
    push_str(&mut out, h.memory_total.as_str());
    push_str(&mut out, " MiB  swap ");
    push_str(&mut out, h.swap_used.as_str());
    push_str(&mut out, " / ");
    push_str(&mut out, h.swap_total.as_str());
    push_str(&mut out, " MiB  sort=");
    push_str(&mut out, sort_name(h.sort));
    push_str(&mut out, " filter=");
    push_str(&mut out, filter_name(h.filter));
    push_str(&mut out, " tree=");
    push_str(&mut out, if h.tree { "true" } else { "false" });
    push_str(&mut out, " search=");
    push_str(&mut out, h.search.as_str());
    proof {
        assert(out@ =~= state_line(*h));
    }
    out
}

/// The separator bar.
fn bar_of(columns: usize) -> (r: String)
    ensures
        r@ == bar(columns),
{
    let n: usize = if columns < 20 {
        20
    } else if columns > 100 {
        100
    } else {
        columns
    };
    let mut out = String::new();
    let mut i: usize = 0;
    while i < n
        invariant
            0 <= i <= n,
            out@ == Seq::new(i as nat, |k: int| '-'),
        decreases n - i,
    {
        push_char(&mut out, '-');
        i = i + 1;
        proof {
            assert(out@ =~= Seq::new(i as nat, |k: int| '-'));
        }
    }
    out
}

/// The lines of a pane, if one is shown.
pub open spec fn pane_view_of(pane: Option<Vec<String>>) -> Option<Seq<String>> {
    match pane {
        Some(p) => Some(p@),
        None => None,
    }
}

/// Appends a line.
fn push_line(lines: &mut Vec<String>, line: String)
    ensures
        crate::text::string_views(final(lines)@) == crate::text::string_views(old(lines)@).push(line@),
{
    lines.push(line);
    proof {
        assert(crate::text::string_views(final(lines)@) =~= crate::text::string_views(old(lines)@).push(line@));
    }
}

/// The screen of the terminal inspector, line by line: the header naming
/// the pane, sort, filter, tree and search; the key legend between two
/// bars; then either the lines of an inventory pane or the process table,
/// whose visible window marks the selected row with `>` and the observer
/// with ` [THIS TOOL]`, followed by the details. Untrusted text is
/// sanitized, names are truncated to the room the terminal leaves, and no
/// more lines than the terminal's `rows` are drawn.
pub fn frame_lines(
    head: &FrameHead,
    cells: &Vec<RowCells>,
    window: (usize, usize, usize),
    columns: usize,
    rows: usize,
    pane: Option<Vec<String>>,
    detail: Option<Detail>,
) -> (r: Vec<String>)
    ensures
        crate::text::string_views(r@) == frame_spec(
            *head,
            cells@,
            window,
            columns,
            rows,
            pane_view_of(pane),
            detail,
        ),
        r@.len() <= rows,
        rows >= 5 ==> r@[0]@ == head_line(*head) + "\x1b[K"@ && r@[1]@ == state_line(*head)
            + "\x1b[K"@ && r@[2]@ == bar(columns) + "\x1b[K"@ && r@[3]@ == legend_text() + "\x1b[K"@
            && r@[4]@ == bar(columns) + "\x1b[K"@,
{
    let ghost pane_view = pane_view_of(pane);
    let ghost all = screen_lines(*head, cells@, window, columns, pane_view, detail);
    let mut lines: Vec<String> = Vec::new();
    push_line(&mut lines, head_line_of(head));
    push_line(&mut lines, state_line_of(head));
    push_line(&mut lines, bar_of(columns));
    push_line(&mut lines, String::from_str(
        "v views   / search   t tree   s sort   f filter   r refresh   j/k select   d details   q quit",
    ));
    push_line(&mut lines, bar_of(columns));
    let ghost top = seq![head_line(*head), state_line(*head), bar(columns), legend_text(), bar(columns)];
    proof {
        assert(crate::text::string_views(lines@) =~= top);
    }
    match pane {
        Some(p) => {
            let mut i: usize = 0;
            while i < p.len()
                invariant
                    0 <= i <= p@.len(),
                    crate::text::string_views(lines@) == top + sanitized_lines(p@).take(i as int),
                decreases p.len() - i,
            {
                let line = sanitize(p[i].as_str());
                push_line(&mut lines, line);
                i = i + 1;
                proof {
                    assert(crate::text::string_views(lines@) =~= top + sanitized_lines(p@).take(i as int));
                }
            }
            proof {
                assert(sanitized_lines(p@).take(p@.len() as int) =~= sanitized_lines(p@));
                assert(crate::text::string_views(lines@) =~= all);
            }
        },
        None => {
            push_line(&mut lines, String::from_str("  PID    CPU%   RSS MiB   READ/s  WRITE/s NAME"));
            let ghost with_title = top + seq![table_title()];
            proof {
                assert(crate::text::string_views(lines@) =~= with_title);
            }
            let (selected, page, start) = window;
            let shown: usize = if start >= cells.len() {
                0
            } else if page < cells.len() - start {
                page
            } else {
                cells.len() - start
            };
            let ghost rows_view = window_rows(cells@, window, head.observer_pid, columns);
            let len = cells.len();
            let mut k: usize = 0;
            while k < shown
                invariant
                    len == cells@.len(),
                    0 <= k <= shown,
                    shown == window_len(cells@.len() as int, window),
                    start == window.2,
                    selected == window.0,
                    shown > 0 ==> start + shown <= cells@.len(),
                    rows_view == window_rows(cells@, window, head.observer_pid, columns),
                    crate::text::string_views(lines@) == with_title + rows_view.take(k as int),
                decreases shown - k,
            {
                let line = row_line(&cells[start + k], start + k == selected, head.observer_pid, columns);
                push_line(&mut lines, line);
                k = k + 1;
                proof {
                    assert(crate::text::string_views(lines@) =~= with_title + rows_view.take(k as int));
                }
            }
            proof {
                assert(rows_view.take(shown as int) =~= rows_view);
            }
            let ghost with_rows = with_title + rows_view;
            match detail {
                Some(d) => {
                    push_line(&mut lines, String::new());
                    push_line(&mut lines, String::from_str("DETAIL (command may contain secrets)"));
                    push_line(&mut lines, d.ids);
                    let mut exe = String::from_str("exe=");
                    let clean_exe = sanitize(d.executable.as_str());
                    push_str(&mut exe, clean_exe.as_str());
                    push_line(&mut lines, exe);
                    let mut command = String::from_str("command=");
                    let clean_command = sanitize(d.command.as_str());
                    push_str(&mut command, clean_command.as_str());
                    push_line(&mut lines, command);
                    let mut visibility = String::from_str("visibility=");
                    push_str(&mut visibility, d.visibility.as_str());
                    push_line(&mut lines, visibility);
                    proof {
                        assert(crate::text::string_views(lines@) =~= with_rows + detail_lines(d));
                    }
                },
                None => {},
            }
            proof {
                assert(crate::text::string_views(lines@) =~= all);
            }
        },
    }
    let n: usize = if rows < lines.len() {
        rows
    } else {
        lines.len()
    };
    let mut out: Vec<String> = Vec::new();
    let mut i: usize = 0;
    while i < n
        invariant
            0 <= i <= n,
            n <= lines@.len(),
            crate::text::string_views(lines@) == all,
            crate::text::string_views(out@) == Seq::new(i as nat, |t: int| all[t] + "\x1b[K"@),
        decreases n - i,
    {
        let mut line = lines[i].clone();
        push_str(&mut line, "\x1b[K");
        proof {
            assert(crate::text::string_views(lines@)[i as int] == lines@[i as int]@);
        }
        push_line(&mut out, line);
        i = i + 1;
        proof {
            assert(crate::text::string_views(out@) =~= Seq::new(i as nat, |t: int| all[t] + "\x1b[K"@));
        }
    }
    proof {
        assert(crate::text::string_views(out@) =~= frame_spec(*head, cells@, window, columns, rows, pane_view, detail));
        if rows >= 5 {
            assert(out@[0]@ == crate::text::string_views(out@)[0]);
            assert(out@[1]@ == crate::text::string_views(out@)[1]);
            assert(out@[2]@ == crate::text::string_views(out@)[2]);
            assert(out@[3]@ == crate::text::string_views(out@)[3]);
            assert(out@[4]@ == crate::text::string_views(out@)[4]);
        }
    }
    out
}

/// What a row shows: `>` first exactly for the selected row, the
/// observer's row ending with ` [THIS TOOL]`, every other row ending with
/// its name; the name sanitized, holding no control character, and no
/// longer than the room the terminal leaves (at least one character).
pub proof fn lemma_row_marks(c: RowCells, selected: bool, observer_pid: u32, columns: usize)
    ensures
        (row_text(c, selected, observer_pid, columns)[0] == '>') <==> selected,
        c.pid == observer_pid ==> has_suffix(
            row_text(c, selected, observer_pid, columns),
            " [THIS TOOL]"@,
        ),
        c.pid != observer_pid ==> has_suffix(
            row_text(c, selected, observer_pid, columns),
            truncate_spec(spaces(2 * c.depth) + sanitize_spec(c.name@), name_width(columns)),
        ),
        truncate_spec(spaces(2 * c.depth) + sanitize_spec(c.name@), name_width(columns)).len() <= (
        if name_width(columns) < 1 {
            1
        } else {
            name_width(columns)
        }),
        forall|i: int|
            0 <= i < sanitize_spec(c.name@).len() ==> !is_control(
                #[trigger] sanitize_spec(c.name@)[i],
            ),
{
    let r = row_text(c, selected, observer_pid, columns);
    let name = truncate_spec(spaces(2 * c.depth) + sanitize_spec(c.name@), name_width(columns));
    let head = seq![if selected { '>' } else { ' ' }] + " "@ + pad_right(decimal(c.pid as nat), 6)
        + " "@ + pad_left(c.cpu@, 6) + " "@ + pad_left(c.rss_mib@, 9) + " "@ + pad_left(c.read@, 7)
        + " "@ + pad_left(c.write@, 8) + " "@;
    assert(r[0] == head[0]);
    if c.pid == observer_pid {
        assert(r == (head + name) + " [THIS TOOL]"@);
        assert(r.subrange(r.len() - " [THIS TOOL]"@.len(), r.len() as int) =~= " [THIS TOOL]"@);
    } else {
        assert(r =~= head + name);
        assert(r.subrange(r.len() - name.len(), r.len() as int) =~= name);
    }
    assert forall|i: int|
        0 <= i < sanitize_spec(c.name@).len() implies !is_control(
            #[trigger] sanitize_spec(c.name@)[i],
        ) by {
        reveal_strlit("?");
    }
}

/// In the visible window, row `k` starts with `>` exactly when it is the
/// selected entry of the list.
pub proof fn lemma_window_marks(cells: Seq<RowCells>, window: (usize, usize, usize), observer_pid: u32, columns: usize, k: int)
    requires
        0 <= k < window_rows(cells, window, observer_pid, columns).len(),
    ensures
        (window_rows(cells, window, observer_pid, columns)[k][0] == '>') <==> window.2 + k
            == window.0,
{
    lemma_row_marks(cells[window.2 + k], window.2 + k == window.0, observer_pid, columns);
}

// ---------------------------------------------------------------------------
// The inventory and event panes
// ---------------------------------------------------------------------------

/// The first `n` entries of a sequence, or all of them when there are
/// fewer.
pub open spec fn take_n<A>(s: Seq<A>, n: int) -> Seq<A> {
    if n < s.len() {
        s.take(n)
    } else {
        s
    }
}

/// Texts indented by two spaces.
pub open spec fn indented(s: Seq<Seq<char>>) -> Seq<Seq<char>> {
    Seq::new(s.len(), |i: int| "  "@ + s[i])
}

/// A list of PIDs as shown: `[1, 2]`.
pub open spec fn list_text(o: Seq<u32>) -> Seq<char> {
    "["@ + join(Seq::new(o.len(), |i: int| decimal(o[i] as nat)), ", "@) + "]"@
}

/// A socket line of the network pane: protocol and local address in
/// columns, then owners and path (`-` when there is none).
pub open spec fn socket_line_spec(s: SocketView) -> Seq<char> {
    "  "@ + pad_right(s.protocol, 5) + " "@ + pad_right(s.local, 28) + " owners="@ + list_text(
        s.owners,
    ) + " path="@ + match s.path {
        Some(p) => p,
        None => "-"@,
    }
}

/// A mount line of the system pane: file system type in a column, mount
/// point and source.
pub open spec fn mount_line_spec(m: MountView) -> Seq<char> {
    "  "@ + pad_right(m.fs_type, 12) + " "@ + m.mount_point + " <- "@ + m.source
}

/// The services pane: counts, then at most half a page of units and of
/// cgroups.
pub open spec fn services_pane(inv: Inventory, page: usize) -> Seq<Seq<char>> {
    seq![
        "associated_units="@ + decimal(inv.units@.len()) + " system_units="@ + shown_count(
            entries_of(inv.system_units),
        ) + " user_units="@ + shown_count(entries_of(inv.user_units)) + " cgroups="@
            + shown_count(count_of(inv.cgroup_count)),
        Seq::<char>::empty(),
        "UNITS / SCOPES"@,
    ] + indented(take_n(string_views(inv.units@), (page / 2) as int)) + seq![Seq::<char>::empty(), "CGROUPS"@]
        + match inv.cgroups {
        Field::Value(v) => indented(take_n(string_views(v@), (page / 2) as int)),
        _ => Seq::empty(),
    }
}

/// The network pane: the socket count, then at most a page of the sockets
/// that match the search.
pub open spec fn network_pane(inv: Inventory, search: Seq<char>, page: usize) -> Seq<Seq<char>> {
    seq![
        "sockets="@ + shown_count(entries_of(inv.sockets))
            + " (owners are visible PID evidence; [] means unknown/unowned)"@,
        Seq::<char>::empty(),
        "SOCKETS"@,
    ] + match inv.sockets {
        Field::Value(v) => {
            let pos = take_n(
                positions_where(v@.len() as int, |i: int| socket_matches(v@[i]@, search)),
                page as int,
            );
            Seq::new(pos.len(), |k: int| socket_line_spec(v@[pos[k] as int]@))
        },
        _ => Seq::empty(),
    }
}

/// The user timers, or none when they could not be listed.
pub open spec fn listed_or_none(f: Field<Vec<String>>) -> Seq<Seq<char>> {
    match f {
        Field::Value(v) => string_views(v@),
        _ => Seq::empty(),
    }
}

/// The system pane: timer and mount counts, at most half a page of timers
/// (system, then user, shown when the system timers were listed) and of the
/// mounts that match the search.
pub open spec fn system_pane(inv: Inventory, search: Seq<char>, page: usize) -> Seq<Seq<char>> {
    seq![
        "system_timers="@ + shown_count(entries_of(inv.system_timers)) + " user_timers="@
            + shown_count(entries_of(inv.user_timers)) + " mounts="@ + shown_count(
            entries_of(inv.mounts),
        ),
        Seq::<char>::empty(),
        "TIMERS"@,
    ] + match inv.system_timers {
        Field::Value(t) => indented(take_n(string_views(t@) + listed_or_none(inv.user_timers), (page / 2) as int)),
        _ => Seq::empty(),
    } + seq![Seq::<char>::empty(), "MOUNTS"@] + match inv.mounts {
        Field::Value(m) => {
            let pos = take_n(
                positions_where(m@.len() as int, |i: int| mount_matches(m@[i]@, search)),
                (page / 2) as int,
            );
            Seq::new(pos.len(), |k: int| mount_line_spec(m@[pos[k] as int]@))
        },
        _ => Seq::empty(),
    }
}

/// The events pane: whether the collector runs, then at most a page of its
/// events, newest first.
pub open spec fn events_pane(events: Option<&Result<Capture, String>>, page: usize) -> Seq<Seq<char>> {
    seq![Seq::<char>::empty()] + match events {
        None => seq!["EVENT COLLECTOR: not enabled (launch with --tui --events N)"@],
        Some(Err(e)) => seq!["EVENT COLLECTOR: unavailable: "@ + e@],
        Some(Ok(c)) => {
            let n = c.events@.len();
            let shown = if page < n {
                page as int
            } else {
                n as int
            };
            seq![
                "EVENT COLLECTOR: linux-proc-connector events="@ + decimal(n) + " sequence_gaps="@
                    + decimal(c.sequence_gaps as nat),
            ] + Seq::new(shown as nat, |k: int| "  "@ + event_text(c.events@[n - 1 - k]))
        },
    }
}

/// The lines of a pane: with the inventory at hand, those of the services,
/// network or system pane (none for the others); without it, those of the
/// events pane, or none at all for the process pane, which shows the
/// process table instead.
pub open spec fn pane_spec(
    pane: Pane,
    inventory: Option<&Inventory>,
    search: Seq<char>,
    page: usize,
    events: Option<&Result<Capture, String>>,
) -> Option<Seq<Seq<char>>> {
    match inventory {
        Some(inv) => Some(
            match pane {
                Pane::Services => services_pane(*inv, page),
                Pane::Network => network_pane(*inv, search, page),
                Pane::System => system_pane(*inv, search, page),
                _ => Seq::empty(),
            },
        ),
        None => if pane == Pane::Events {
            Some(events_pane(events, page))
        } else {
            None
        },
    }
}

/// Appends the first `n` texts, indented.
fn push_indented(out: &mut Vec<String>, items: &Vec<String>, n: usize)
    ensures
        string_views(final(out)@) == string_views(old(out)@) + indented(
            take_n(string_views(items@), n as int),
        ),
{
    let ghost want = indented(take_n(string_views(items@), n as int));
    let m = if n < items.len() {
        n
    } else {
        items.len()
    };
    let ghost start = string_views(out@);
    let mut i: usize = 0;
    while i < m
        invariant
            0 <= i <= m,
            m <= items@.len(),
            m == want.len(),
            want == indented(take_n(string_views(items@), n as int)),
            string_views(out@) == start + want.take(i as int),
        decreases m - i,
    {
        let mut line = String::from_str("  ");
        push_str(&mut line, items[i].as_str());
        push_line(out, line);
        i = i + 1;
        proof {
            assert(string_views(out@) =~= start + want.take(i as int));
        }
    }
    proof {
        assert(want.take(m as int) =~= want);
    }
}

/// A list of PIDs as shown.
fn list_line(o: &Vec<u32>) -> (r: String)
    ensures
        r@ == list_text(o@),
{
    let mut parts: Vec<String> = Vec::new();
    let mut i: usize = 0;
    while i < o.len()
        invariant
            0 <= i <= o@.len(),
            crate::text::string_views(parts@) == Seq::new(i as nat, |k: int| decimal(o@[k] as nat)),
        decreases o.len() - i,
    {
        let mut d = String::new();
        push_decimal(&mut d, o[i] as u128);
        push_line(&mut parts, d);
        i = i + 1;
        proof {
            assert(crate::text::string_views(parts@) =~= Seq::new(
                i as nat,
                |k: int| decimal(o@[k] as nat),
            ));
        }
    }
    let mut out = String::from_str("[");
    let joined = crate::text::join_strings(&parts, ", ");
    push_str(&mut out, joined.as_str());
    push_str(&mut out, "]");
    proof {
        assert(out@ =~= list_text(o@));
    }
    out
}

/// A socket line of the network pane.
fn socket_line(s: &SocketRecord) -> (r: String)
    ensures
        r@ == socket_line_spec(s@),
{
    let mut out = String::from_str("  ");
    push_pad_right(&mut out, s.protocol, 5);
    push_str(&mut out, " ");
    push_pad_right(&mut out, s.local.as_str(), 28);
    push_str(&mut out, " owners=");
    let owners = list_line(&s.owners);
    push_str(&mut out, owners.as_str());
    push_str(&mut out, " path=");
    match &s.path {
        Some(p) => push_str(&mut out, p.as_str()),
        None => push_str(&mut out, "-"),
    }
    proof {
        assert(out@ =~= socket_line_spec(s@));
    }
    out
}

/// A mount line of the system pane.
fn mount_line(m: &MountRecord) -> (r: String)
    ensures
        r@ == mount_line_spec(m@),
{
    let mut out = String::from_str("  ");
    push_pad_right(&mut out, m.fs_type.as_str(), 12);
    push_str(&mut out, " ");
    push_str(&mut out, m.mount_point.as_str());
    push_str(&mut out, " <- ");
    push_str(&mut out, m.source.as_str());
    proof {
        assert(out@ =~= mount_line_spec(m@));
    }
    out
}

/// The services pane.
fn services_lines(inv: &Inventory, page: usize) -> (r: Vec<String>)
    ensures
        crate::text::string_views(r@) == services_pane(*inv, page),
{
    let mut out: Vec<String> = Vec::new();
    let mut head = String::from_str("associated_units=");
    push_decimal(&mut head, inv.units.len() as u128);
    push_str(&mut head, " system_units=");
    push_str(&mut head, field_count(&inv.system_units).as_str());
    push_str(&mut head, " user_units=");
    push_str(&mut head, field_count(&inv.user_units).as_str());
    push_str(&mut head, " cgroups=");
    push_str(&mut head, field_value(&inv.cgroup_count).as_str());
    push_line(&mut out, head);
    push_line(&mut out, String::new());
    push_line(&mut out, String::from_str("UNITS / SCOPES"));
    push_indented(&mut out, &inv.units, page / 2);
    push_line(&mut out, String::new());
    push_line(&mut out, String::from_str("CGROUPS"));
    match &inv.cgroups {
        Field::Value(v) => push_indented(&mut out, v, page / 2),
        _ => {},
    }
    proof {
        assert(crate::text::string_views(out@) =~= services_pane(*inv, page));
    }
    out
}

/// Appends the lines of the sockets at the given positions.
fn push_socket_lines(out: &mut Vec<String>, v: &Vec<SocketRecord>, pos: &Vec<usize>, n: usize)
    requires
        forall|k: int| 0 <= k < pos@.len() ==> pos@[k] < v@.len(),
    ensures
        crate::text::string_views(final(out)@) == crate::text::string_views(old(out)@) + Seq::new(
            take_n(pos@, n as int).len(),
            |k: int| socket_line_spec(v@[take_n(pos@, n as int)[k] as int]@),
        ),
{
    let ghost shown = take_n(pos@, n as int);
    let ghost target = Seq::new(shown.len(), |k: int| socket_line_spec(v@[shown[k] as int]@));
    let m = if n < pos.len() {
        n
    } else {
        pos.len()
    };
    let ghost start = crate::text::string_views(out@);
    let mut i: usize = 0;
    while i < m
        invariant
            0 <= i <= m,
            m == shown.len(),
            m <= pos@.len(),
            shown == take_n(pos@, n as int),
            target == Seq::new(shown.len(), |k: int| socket_line_spec(v@[shown[k] as int]@)),
            forall|k: int| 0 <= k < pos@.len() ==> pos@[k] < v@.len(),
            crate::text::string_views(out@) == start + target.take(i as int),
        decreases m - i,
    {
        let line = socket_line(&v[pos[i]]);
        push_line(out, line);
        i = i + 1;
        proof {
            assert(crate::text::string_views(out@) =~= start + target.take(i as int));
        }
    }
    proof {
        assert(target.take(m as int) =~= target);
    }
}

/// Appends the lines of the mounts at the given positions.
fn push_mount_lines(out: &mut Vec<String>, v: &Vec<MountRecord>, pos: &Vec<usize>, n: usize)
    requires
        forall|k: int| 0 <= k < pos@.len() ==> pos@[k] < v@.len(),
    ensures
        crate::text::string_views(final(out)@) == crate::text::string_views(old(out)@) + Seq::new(
            take_n(pos@, n as int).len(),
            |k: int| mount_line_spec(v@[take_n(pos@, n as int)[k] as int]@),
        ),
{
    let ghost shown = take_n(pos@, n as int);
    let ghost target = Seq::new(shown.len(), |k: int| mount_line_spec(v@[shown[k] as int]@));
    let m = if n < pos.len() {
        n
    } else {
        pos.len()
    };
    let ghost start = crate::text::string_views(out@);
    let mut i: usize = 0;
    while i < m
        invariant
            0 <= i <= m,
            m == shown.len(),
            m <= pos@.len(),
            shown == take_n(pos@, n as int),
            target == Seq::new(shown.len(), |k: int| mount_line_spec(v@[shown[k] as int]@)),
            forall|k: int| 0 <= k < pos@.len() ==> pos@[k] < v@.len(),
            crate::text::string_views(out@) == start + target.take(i as int),
        decreases m - i,
    {
        let line = mount_line(&v[pos[i]]);
        push_line(out, line);
        i = i + 1;
        proof {
            assert(crate::text::string_views(out@) =~= start + target.take(i as int));
        }
    }
    proof {
        assert(target.take(m as int) =~= target);
    }
}

/// The positions `positions_where` picks lie below its bound.
pub proof fn lemma_positions_where_bounds(n: int, pred: spec_fn(int) -> bool)
    ensures
        forall|k: int|
            0 <= k < positions_where(n, pred).len() ==> 0 <= #[trigger] positions_where(n, pred)[k]
                < n,
    decreases n,
{
    if n > 0 {
        lemma_positions_where_bounds(n - 1, pred);
        let r = positions_where(n - 1, pred);
        assert forall|k: int| 0 <= k < positions_where(n, pred).len() implies 0
            <= #[trigger] positions_where(n, pred)[k] < n by {
            if k < r.len() {
                assert(positions_where(n, pred)[k] == r[k]);
            }
        }
    }
}

/// The network pane.
fn network_lines(inv: &Inventory, search: &str, page: usize) -> (r: Vec<String>)
    ensures
        string_views(r@) == network_pane(*inv, search@, page),
{
    let mut out: Vec<String> = Vec::new();
    let mut head = String::from_str("sockets=");
    push_str(&mut head, field_count(&inv.sockets).as_str());
    push_str(&mut head, " (owners are visible PID evidence; [] means unknown/unowned)");
    push_line(&mut out, head);
    push_line(&mut out, String::new());
    push_line(&mut out, String::from_str("SOCKETS"));
    match &inv.sockets {
        Field::Value(v) => {
            let pos = matching_sockets(v, search);
            proof {
                lemma_positions_where_bounds(
                    v@.len() as int,
                    |i: int| socket_matches(v@[i]@, search@),
                );
            }
            push_socket_lines(&mut out, v, &pos, page);
        },
        _ => {},
    }
    proof {
        assert(string_views(out@) =~= network_pane(*inv, search@, page));
    }
    out
}

/// The system pane.
fn system_lines(inv: &Inventory, search: &str, page: usize) -> (r: Vec<String>)
    ensures
        string_views(r@) == system_pane(*inv, search@, page),
{
    let mut out: Vec<String> = Vec::new();
    let mut head = String::from_str("system_timers=");
    push_str(&mut head, field_count(&inv.system_timers).as_str());
    push_str(&mut head, " user_timers=");
    push_str(&mut head, field_count(&inv.user_timers).as_str());
    push_str(&mut head, " mounts=");
    push_str(&mut head, field_count(&inv.mounts).as_str());
    push_line(&mut out, head);
    push_line(&mut out, String::new());
    push_line(&mut out, String::from_str("TIMERS"));
    match &inv.system_timers {
        Field::Value(t) => {
            let mut all: Vec<String> = Vec::new();
            let mut i: usize = 0;
            while i < t.len()
                invariant
                    0 <= i <= t@.len(),
                    string_views(all@) == string_views(t@).take(i as int),
                decreases t.len() - i,
            {
                push_line(&mut all, t[i].clone());
                i = i + 1;
                proof {
                    assert(string_views(all@) =~= string_views(t@).take(i as int));
                }
            }
            proof {
                assert(string_views(t@).take(t@.len() as int) =~= string_views(t@));
            }
            match &inv.user_timers {
                Field::Value(u) => {
                    let ghost first = string_views(all@);
                    let mut k: usize = 0;
                    while k < u.len()
                        invariant
                            0 <= k <= u@.len(),
                            string_views(all@) == first + string_views(u@).take(k as int),
                        decreases u.len() - k,
                    {
                        push_line(&mut all, u[k].clone());
                        k = k + 1;
                        proof {
                            assert(string_views(all@) =~= first + string_views(u@).take(k as int));
                        }
                    }
                    proof {
                        assert(string_views(u@).take(u@.len() as int) =~= string_views(u@));
                    }
                },
                _ => {
                    proof {
                        assert(string_views(all@) =~= string_views(t@) + listed_or_none(inv.user_timers));
                    }
                },
            }
            push_indented(&mut out, &all, page / 2);
        },
        _ => {},
    }
    push_line(&mut out, String::new());
    push_line(&mut out, String::from_str("MOUNTS"));
    match &inv.mounts {
        Field::Value(m) => {
            let pos = matching_mounts(m, search);
            proof {
                lemma_positions_where_bounds(
                    m@.len() as int,
                    |i: int| mount_matches(m@[i]@, search@),
                );
            }
            push_mount_lines(&mut out, m, &pos, page / 2);
        },
        _ => {},
    }
    proof {
        assert(string_views(out@) =~= system_pane(*inv, search@, page));
    }
    out
}

/// The events pane.
fn events_lines(events: Option<&Result<Capture, String>>, page: usize) -> (r: Vec<String>)
    ensures
        string_views(r@) == events_pane(events, page),
{
    let mut out: Vec<String> = Vec::new();
    push_line(&mut out, String::new());
    match events {
        None => push_line(
            &mut out,
            String::from_str("EVENT COLLECTOR: not enabled (launch with --tui --events N)"),
        ),
        Some(Err(e)) => {
            let mut line = String::from_str("EVENT COLLECTOR: unavailable: ");
            push_str(&mut line, e.as_str());
            push_line(&mut out, line);
        },
        Some(Ok(c)) => {
            let n = c.events.len();
            let mut line = String::from_str("EVENT COLLECTOR: linux-proc-connector events=");
            push_decimal(&mut line, n as u128);
            push_str(&mut line, " sequence_gaps=");
            push_decimal(&mut line, c.sequence_gaps as u128);
            push_line(&mut out, line);
            let shown = if page < n {
                page
            } else {
                n
            };
            let ghost start = string_views(out@);
            let ghost target = Seq::new(
                shown as nat,
                |k: int| "  "@ + event_text(c.events@[n - 1 - k]),
            );
            let mut k: usize = 0;
            while k < shown
                invariant
                    0 <= k <= shown,
                    shown <= n,
                    n == c.events@.len(),
                    target == Seq::new(shown as nat, |k: int| "  "@ + event_text(c.events@[n - 1 - k])),
                    string_views(out@) == start + target.take(k as int),
                decreases shown - k,
            {
                let mut entry = String::from_str("  ");
                let text = c.events[n - 1 - k].display_text();
                push_str(&mut entry, text.as_str());
                push_line(&mut out, entry);
                k = k + 1;
                proof {
                    assert(string_views(out@) =~= start + target.take(k as int));
                }
            }
            proof {
                assert(target.take(shown as int) =~= target);
            }
        },
    }
    proof {
        assert(string_views(out@) =~= events_pane(events, page));
    }
    out
}

/// The lines of the pane in view, when it is not the process table: the
/// services, network or system pane when the inventory is at hand, or the
/// events pane.
pub fn pane_lines(
    pane: Pane,
    inventory: Option<&Inventory>,
    search: &str,
    page: usize,
    events: Option<&Result<Capture, String>>,
) -> (r: Option<Vec<String>>)
    ensures
        match r {
            Some(v) => pane_spec(pane, inventory, search@, page, events) == Some(string_views(v@)),
            None => pane_spec(pane, inventory, search@, page, events) is None,
        },
{
    match inventory {
        Some(inv) => Some(
            match pane {
                Pane::Services => services_lines(inv, page),
                Pane::Network => network_lines(inv, search, page),
                Pane::System => system_lines(inv, search, page),
                _ => {
                    let none: Vec<String> = Vec::new();
                    proof {
                        assert(string_views(none@) =~= Seq::<Seq<char>>::empty());
                    }
                    none
                },
            },
        ),
        None => if pane == Pane::Events {
            Some(events_lines(events, page))
        } else {
            None
        },
    }
}

} // verus!
