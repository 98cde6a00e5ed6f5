//! The broader inventory: sockets and their owning processes, mounts,
//! cgroups and systemd units.
use vstd::prelude::*;
use crate::field::{Field, IoFailure, field_of_status};
use crate::order::{char_views, insert_sorted_unique, strictly_sorted};
use crate::procfs::{Snapshot, text_field, u64_max};
use crate::text::{
    chars_of, has_prefix, has_suffix, lines_of, lossy_string, lossy_utf8, nested_view,
    parse_number, parse_unsigned, string_of, text_lines, tokens_of, ws_tokens,
};
use vstd::string::StringExecFns;

verus! {

// ---------------------------------------------------------------------------
// Records
// ---------------------------------------------------------------------------

/// One socket from `/proc/net/{tcp,tcp6,udp,udp6,unix}`.
#[derive(Debug)]
pub struct SocketRecord {
    pub protocol: &'static str,
    pub local: String,
    pub remote: String,
    pub state: String,
    pub inode: Option<u64>,
    pub path: Option<String>,
    pub owners: Vec<u32>,
}

/// What a [`SocketRecord`] holds, with texts as characters.
pub struct SocketView {
    pub protocol: Seq<char>,
    pub local: Seq<char>,
    pub remote: Seq<char>,
    pub state: Seq<char>,
    pub inode: Option<u64>,
    pub path: Option<Seq<char>>,
    pub owners: Seq<u32>,
}

/// An optional text as characters.
pub open spec fn opt_view(s: Option<String>) -> Option<Seq<char>> {
    match s {
        Some(x) => Some(x@),
        None => None,
    }
}

impl View for SocketRecord {
    type V = SocketView;

    open spec fn view(&self) -> SocketView {
        SocketView {
            protocol: self.protocol@,
            local: self.local@,
            remote: self.remote@,
            state: self.state@,
            inode: self.inode,
            path: opt_view(self.path),
            owners: self.owners@,
        }
    }
}

/// One mount from `/proc/self/mountinfo`.
#[derive(Debug)]
pub struct MountRecord {
    pub mount_point: String,
    pub fs_type: String,
    pub source: String,
}

/// What a [`MountRecord`] holds, with texts as characters.
pub struct MountView {
    pub mount_point: Seq<char>,
    pub fs_type: Seq<char>,
    pub source: Seq<char>,
}

impl View for MountRecord {
    type V = MountView;

    open spec fn view(&self) -> MountView {
        MountView { mount_point: self.mount_point@, fs_type: self.fs_type@, source: self.source@ }
    }
}

/// The broader system inventory shown next to the process list.
#[derive(Debug)]
pub struct Inventory {
    pub sockets: Field<Vec<SocketRecord>>,
    pub mounts: Field<Vec<MountRecord>>,
    pub cgroup_count: Field<usize>,
    pub cgroups: Field<Vec<String>>,
    pub units: Vec<String>,
    pub system_units: Field<Vec<String>>,
    pub user_units: Field<Vec<String>>,
    pub system_timers: Field<Vec<String>>,
    pub user_timers: Field<Vec<String>>,
}

// ---------------------------------------------------------------------------
// Failures
// ---------------------------------------------------------------------------

/// Carries a failure over to a field of another type; a value becomes a
/// parse error.
pub fn failure<T, U>(field: Field<T>) -> (r: Field<U>)
    ensures
        r == field_of_status::<U>(field.kind()),
{
    match field {
        Field::Value(_) => Field::ParseError,
        Field::NotCollected => Field::NotCollected,
        Field::PermissionDenied => Field::PermissionDenied,
        Field::Vanished => Field::Vanished,
        Field::Unsupported => Field::Unsupported,
        Field::ParseError => Field::ParseError,
        Field::IoError => Field::IoError,
    }
}

/// The status of an inventory file that could not be read: a missing
/// interface is unsupported.
pub open spec fn inventory_failure<T>(kind: IoFailure) -> Field<T> {
    match kind {
        IoFailure::PermissionDenied => Field::PermissionDenied,
        IoFailure::NotFound => Field::Unsupported,
        _ => Field::IoError,
    }
}

/// The field reported for an inventory file that could not be read.
pub fn read_error<T>(kind: IoFailure) -> (r: Field<T>)
    ensures
        r == inventory_failure::<T>(kind),
{
    match kind {
        IoFailure::PermissionDenied => Field::PermissionDenied,
        IoFailure::NotFound => Field::Unsupported,
        _ => Field::IoError,
    }
}

// ---------------------------------------------------------------------------
// Lines and tokens of lossily decoded files
// ---------------------------------------------------------------------------

/// The lines after the header line.
pub open spec fn body_lines(lines: Seq<Seq<char>>) -> Seq<Seq<char>> {
    if lines.len() == 0 {
        lines
    } else {
        lines.subrange(1, lines.len() as int)
    }
}

/// Token `k` as an unsigned 64-bit number, if there is such a token and it
/// is one.
pub open spec fn token_number(p: Seq<Seq<char>>, k: int) -> Option<u64> {
    if 0 <= k < p.len() {
        match parse_number(p[k], 10, u64_max()) {
            Some(v) => Some(v as u64),
            None => None,
        }
    } else {
        None
    }
}

/// The lines of a file decoded lossily.
fn file_lines(bytes: &[u8]) -> (r: Vec<Vec<char>>)
    ensures
        nested_view(r@) == text_lines(lossy_utf8(bytes@)),
{
    let text = lossy_string(bytes);
    let chars = chars_of(text.as_str());
    lines_of(chars.as_slice())
}

/// Token `k` as a number.
fn token_u64(p: &Vec<Vec<char>>, k: usize) -> (r: Option<u64>)
    ensures
        r == token_number(nested_view(p@), k as int),
{
    if k < p.len() {
        proof {
            assert(nested_view(p@)[k as int] == p@[k as int]@);
        }
        parse_unsigned(p[k].as_slice(), 10, 0xffff_ffff_ffff_ffff)
    } else {
        None
    }
}

// ---------------------------------------------------------------------------
// /proc/net/{tcp,tcp6,udp,udp6}
// ---------------------------------------------------------------------------

/// The socket a line of an internet socket table describes, if it has the
/// local address, remote address and state columns.
pub open spec fn inet_record(protocol: Seq<char>, line: Seq<char>) -> Option<SocketView> {
    let p = ws_tokens(line);
    if p.len() >= 4 {
        Some(
            SocketView {
                protocol,
                local: p[1],
                remote: p[2],
                state: p[3],
                inode: token_number(p, 9),
                path: None,
                owners: Seq::empty(),
            },
        )
    } else {
        None
    }
}

/// The sockets of the lines that describe one.
pub open spec fn inet_records(protocol: Seq<char>, lines: Seq<Seq<char>>) -> Seq<SocketView>
    decreases lines.len(),
{
    if lines.len() == 0 {
        Seq::empty()
    } else {
        let r = inet_records(protocol, lines.drop_last());
        match inet_record(protocol, lines.last()) {
            Some(s) => r.push(s),
            None => r,
        }
    }
}

/// The sockets of an internet socket table.
pub open spec fn inet_spec(protocol: Seq<char>, b: Seq<u8>) -> Seq<SocketView> {
    inet_records(protocol, body_lines(text_lines(lossy_utf8(b))))
}

/// Parses `/proc/net/tcp`, `tcp6`, `udp` or `udp6`.
pub fn parse_inet(protocol: &'static str, bytes: &[u8]) -> (r: Vec<SocketRecord>)
    ensures
        views_of_sockets(r@) == inet_spec(protocol@, bytes@),
{
    let lines = file_lines(bytes);
    let ghost ls = nested_view(lines@);
    let ghost body = body_lines(ls);
    let mut out: Vec<SocketRecord> = Vec::new();
    if lines.len() == 0 {
        proof {
            assert(views_of_sockets(out@) =~= Seq::<SocketView>::empty());
        }
        return out;
    }
    let mut i: usize = 1;
    proof {
        assert(body.take(0) =~= Seq::<Seq<char>>::empty());
        assert(views_of_sockets(out@) =~= Seq::<SocketView>::empty());
    }
    while i < lines.len()
        invariant
            1 <= i <= lines.len(),
            ls == nested_view(lines@),
            body == body_lines(ls),
            views_of_sockets(out@) == inet_records(protocol@, body.take(i - 1)),
        decreases lines.len() - i,
    {
        proof {
            assert(body.take(i as int).drop_last() =~= body.take(i - 1));
            assert(body.take(i as int).last() == lines@[i as int]@);
        }
        let p = tokens_of(lines[i].as_slice());
        if p.len() >= 4 {
            proof {
                assert(nested_view(p@)[1] == p@[1]@);
                assert(nested_view(p@)[2] == p@[2]@);
                assert(nested_view(p@)[3] == p@[3]@);
            }
            let rec = SocketRecord {
                protocol,
                local: string_of(p[1].as_slice()),
                remote: string_of(p[2].as_slice()),
                state: string_of(p[3].as_slice()),
                inode: token_u64(&p, 9),
                path: None,
                owners: Vec::new(),
            };
            let ghost before = views_of_sockets(out@);
            out.push(rec);
            proof {
                assert(rec@.owners =~= Seq::<u32>::empty());
                assert(views_of_sockets(out@) =~= before.push(rec@));
            }
        }
        i = i + 1;
    }
    proof {
        assert(body.take(lines@.len() - 1) =~= body);
    }
    out
}

/// The views of a sequence of sockets.
pub open spec fn views_of_sockets(v: Seq<SocketRecord>) -> Seq<SocketView> {
    Seq::new(v.len(), |i: int| v[i]@)
}

// ---------------------------------------------------------------------------
// /proc/net/unix
// ---------------------------------------------------------------------------

/// The socket a line of the Unix socket table describes; missing columns
/// read as `?` for the state and as absent for the inode and path.
pub open spec fn unix_record(line: Seq<char>) -> SocketView {
    let p = ws_tokens(line);
    SocketView {
        protocol: "unix"@,
        local: "-"@,
        remote: "-"@,
        state: if p.len() > 5 {
            p[5]
        } else {
            "?"@
        },
        inode: token_number(p, 6),
        path: if p.len() > 7 {
            Some(p[7])
        } else {
            None
        },
        owners: Seq::empty(),
    }
}

/// The sockets of the Unix socket table, one per line after the header.
pub open spec fn unix_spec(b: Seq<u8>) -> Seq<SocketView> {
    let body = body_lines(text_lines(lossy_utf8(b)));
    Seq::new(body.len(), |i: int| unix_record(body[i]))
}

/// Parses `/proc/net/unix`.
pub fn parse_unix(bytes: &[u8]) -> (r: Vec<SocketRecord>)
    ensures
        views_of_sockets(r@) == unix_spec(bytes@),
{
    let lines = file_lines(bytes);
    let ghost ls = nested_view(lines@);
    let ghost body = body_lines(ls);
    let mut out: Vec<SocketRecord> = Vec::new();
    if lines.len() == 0 {
        proof {
            assert(views_of_sockets(out@) =~= unix_spec(bytes@));
        }
        return out;
    }
    let mut i: usize = 1;
    proof {
        assert(views_of_sockets(out@) =~= Seq::<SocketView>::empty());
    }
    while i < lines.len()
        invariant
            1 <= i <= lines.len(),
            ls == nested_view(lines@),
            body == body_lines(ls),
            views_of_sockets(out@) == Seq::new((i - 1) as nat, |k: int| unix_record(body[k])),
        decreases lines.len() - i,
    {
        proof {
            assert(body[i - 1] == lines@[i as int]@);
        }
        let p = tokens_of(lines[i].as_slice());
        let state = if p.len() > 5 {
            proof {
                assert(nested_view(p@)[5] == p@[5]@);
            }
            string_of(p[5].as_slice())
        } else {
            String::from_str("?")
        };
        let path = if p.len() > 7 {
            proof {
                assert(nested_view(p@)[7] == p@[7]@);
            }
            Some(string_of(p[7].as_slice()))
        } else {
            None
        };
        let rec = SocketRecord {
            protocol: "unix",
            local: String::from_str("-"),
            remote: String::from_str("-"),
            state,
            inode: token_u64(&p, 6),
            path,
            owners: Vec::new(),
        };
        let ghost before = views_of_sockets(out@);
        out.push(rec);
        proof {
            assert(rec@.owners =~= Seq::<u32>::empty());
            assert(rec@ == unix_record(body[i - 1]));
            assert(views_of_sockets(out@) =~= before.push(rec@));
            assert(views_of_sockets(out@) =~= Seq::new(i as nat, |k: int| unix_record(body[k])));
        }
        i = i + 1;
    }
    proof {
        assert(views_of_sockets(out@) =~= unix_spec(bytes@));
    }
    out
}

// ---------------------------------------------------------------------------
// /proc/self/mountinfo
// ---------------------------------------------------------------------------

/// Every occurrence of `pat`, scanning left to right without overlap,
/// replaced by `rep`, as `str::replace` does.
pub open spec fn replace_all(s: Seq<char>, pat: Seq<char>, rep: Seq<char>) -> Seq<char>
    decreases s.len(),
{
    if s.len() == 0 {
        s
    } else if pat.len() > 0 && has_prefix(s, pat) {
        rep + replace_all(s.subrange(pat.len() as int, s.len() as int), pat, rep)
    } else {
        seq![s[0]] + replace_all(s.subrange(1, s.len() as int), pat, rep)
    }
}

/// A mount point with the octal escapes of the kernel for space, tab,
/// newline and backslash undone, in that order.
pub open spec fn unescape_spec(v: Seq<char>) -> Seq<char> {
    replace_all(
        replace_all(
            replace_all(replace_all(v, "\\040"@, " "@), "\\011"@, "\t"@),
            "\\012"@,
            "\n"@,
        ),
        "\\134"@,
        "\\"@,
    )
}

/// Whether `pat` occurs in `s` at index `i`.
fn matches_at(s: &[char], i: usize, pat: &[char]) -> (r: bool)
    requires
        i <= s@.len(),
    ensures
        r == has_prefix(s@.subrange(i as int, s@.len() as int), pat@),
{
    if pat.len() > s.len() - i {
        return false;
    }
    let mut k: usize = 0;
    while k < pat.len()
        invariant
            i + pat@.len() <= s@.len(),
            i + pat.len() <= s.len(),
            0 <= k <= pat.len(),
            s@.subrange(i as int, i + k) == pat@.subrange(0, k as int),
        decreases pat.len() - k,
    {
        if s[i + k] != pat[k] {
            proof {
                assert(s@.subrange(i as int, s@.len() as int).subrange(0, pat@.len() as int)[k as int]
                    != pat@[k as int]);
            }
            return false;
        }
        k = k + 1;
        proof {
            assert(s@.subrange(i as int, i + k) =~= pat@.subrange(0, k as int));
        }
    }
    proof {
        assert(s@.subrange(i as int, s@.len() as int).subrange(0, pat@.len() as int) =~= s@.subrange(
            i as int,
            i + pat@.len(),
        ));
        assert(pat@.subrange(0, pat@.len() as int) =~= pat@);
    }
    true
}

/// Replaces every occurrence of a non-empty pattern.
fn replace_chars(s: &[char], pat: &[char], rep: &[char]) -> (r: Vec<char>)
    requires
        pat@.len() > 0,
    ensures
        r@ == replace_all(s@, pat@, rep@),
{
    let mut out: Vec<char> = Vec::new();
    let mut i: usize = 0;
    proof {
        assert(s@.subrange(0, s@.len() as int) =~= s@);
    }
    while i < s.len()
        invariant
            0 <= i <= s.len(),
            pat@.len() > 0,
            replace_all(s@, pat@, rep@) == out@ + replace_all(
                s@.subrange(i as int, s@.len() as int),
                pat@,
                rep@,
            ),
        decreases s.len() - i,
    {
        let ghost t = s@.subrange(i as int, s@.len() as int);
        if matches_at(s, i, pat) {
            let mut k: usize = 0;
            let ghost before = out@;
            while k < rep.len()
                invariant
                    0 <= k <= rep.len(),
                    out@ == before + rep@.subrange(0, k as int),
                decreases rep.len() - k,
            {
                out.push(rep[k]);
                k = k + 1;
                proof {
                    assert(out@ =~= before + rep@.subrange(0, k as int));
                }
            }
            proof {
                assert(rep@.subrange(0, rep@.len() as int) =~= rep@);
                assert(t.subrange(pat@.len() as int, t.len() as int) =~= s@.subrange(
                    i + pat@.len(),
                    s@.len() as int,
                ));
                assert(out@ + replace_all(s@.subrange(i + pat@.len(), s@.len() as int), pat@, rep@)
                    =~= before + (rep@ + replace_all(
                    t.subrange(pat@.len() as int, t.len() as int),
                    pat@,
                    rep@,
                )));
            }
            i = i + pat.len();
        } else {
            let ghost before = out@;
            out.push(s[i]);
            proof {
                assert(t[0] == s@[i as int]);
                assert(t.subrange(1, t.len() as int) =~= s@.subrange(i + 1, s@.len() as int));
                assert(out@ + replace_all(s@.subrange(i + 1, s@.len() as int), pat@, rep@) =~= before
                    + (seq![t[0]] + replace_all(t.subrange(1, t.len() as int), pat@, rep@)));
            }
            i = i + 1;
        }
    }
    proof {
        assert(s@.subrange(i as int, s@.len() as int) =~= Seq::<char>::empty());
        assert(out@ + Seq::<char>::empty() =~= out@);
    }
    out
}

/// Undoes the kernel's octal escapes in a mount point.
pub fn unescape(value: &str) -> (r: String)
    ensures
        r@ == unescape_spec(value@),
{
    proof {
        reveal_strlit("\\040");
        reveal_strlit("\\011");
        reveal_strlit("\\012");
        reveal_strlit("\\134");
    }
    let v = chars_of(value);
    let a = replace_chars(v.as_slice(), chars_of("\\040").as_slice(), chars_of(" ").as_slice());
    let b = replace_chars(a.as_slice(), chars_of("\\011").as_slice(), chars_of("\t").as_slice());
    let c = replace_chars(b.as_slice(), chars_of("\\012").as_slice(), chars_of("\n").as_slice());
    let d = replace_chars(c.as_slice(), chars_of("\\134").as_slice(), chars_of("\\").as_slice());
    string_of(d.as_slice())
}

/// The mount a line of `mountinfo` describes: the mount point is field 5,
/// and after the `-` separator come the file system type and the source
/// (`?` when absent).
pub open spec fn mount_record(line: Seq<char>) -> Option<MountView> {
    let p = ws_tokens(line);
    match crate::text::position_of(p, "-"@) {
        None => None,
        Some(d) => if p.len() > 4 && d + 1 < p.len() {
            Some(
                MountView {
                    mount_point: unescape_spec(p[4]),
                    fs_type: p[d + 1],
                    source: if d + 2 < p.len() {
                        p[d + 2]
                    } else {
                        "?"@
                    },
                },
            )
        } else {
            None
        },
    }
}

/// A `mountinfo` line whose tokens hold a `-` separator (the first one at
/// `d`) and at least five tokens describes a mount: its mount point is
/// token 5 unescaped, its file system type the token right after the
/// separator and its source the token right after that, `?` only when the
/// line ends at the file system type. A line without a separator
/// describes none.
pub proof fn lemma_mount_fields(line: Seq<char>, d: int)
    requires
        0 <= d < ws_tokens(line).len(),
        ws_tokens(line)[d] == "-"@,
        forall|k: int| 0 <= k < d ==> ws_tokens(line)[k] != "-"@,
    ensures
        ({
            let t = ws_tokens(line);
            t.len() > 4 && d + 1 < t.len() ==> mount_record(line) == Some(
                MountView {
                    mount_point: unescape_spec(t[4]),
                    fs_type: t[d + 1],
                    source: if d + 2 < t.len() {
                        t[d + 2]
                    } else {
                        "?"@
                    },
                },
            )
        }),
        ({
            let t = ws_tokens(line);
            t.len() > 4 && d + 2 < t.len() ==> (mount_record(line) matches Some(m) && m.source
                == t[d + 2] && m.fs_type == t[d + 1])
        }),
{
    crate::text::lemma_first_position(ws_tokens(line), "-"@, d);
}

/// A line without a `-` token describes no mount.
pub proof fn lemma_mount_needs_separator(line: Seq<char>)
    requires
        forall|k: int| 0 <= k < ws_tokens(line).len() ==> ws_tokens(line)[k] != "-"@,
    ensures
        mount_record(line) is None,
{
    let t = ws_tokens(line);
    crate::text::lemma_position_bounds(t, "-"@);
}

/// The mounts of the lines that describe one.
pub open spec fn mount_records(lines: Seq<Seq<char>>) -> Seq<MountView>
    decreases lines.len(),
{
    if lines.len() == 0 {
        Seq::empty()
    } else {
        let r = mount_records(lines.drop_last());
        match mount_record(lines.last()) {
            Some(m) => r.push(m),
            None => r,
        }
    }
}

/// The mounts of a `mountinfo` file.
pub open spec fn mounts_spec(b: Seq<u8>) -> Seq<MountView> {
    mount_records(text_lines(lossy_utf8(b)))
}

/// The views of a sequence of mounts.
pub open spec fn views_of_mounts(v: Seq<MountRecord>) -> Seq<MountView> {
    Seq::new(v.len(), |i: int| v[i]@)
}

/// The index of the first token that is `-`.
fn dash_position(p: &Vec<Vec<char>>) -> (r: Option<usize>)
    ensures
        match r {
            Some(k) => crate::text::position_of(nested_view(p@), "-"@) == Some(k as int),
            None => crate::text::position_of(nested_view(p@), "-"@) is None,
        },
{
    proof {
        reveal_strlit("-");
    }
    let ghost ps = nested_view(p@);
    let mut i: usize = 0;
    while i < p.len()
        invariant
            0 <= i <= p.len(),
            ps == nested_view(p@),
            crate::text::position_of(ps.take(i as int), "-"@) is None,
        decreases p.len() - i,
    {
        proof {
            assert(ps.take(i + 1).drop_last() =~= ps.take(i as int));
            assert(ps[i as int] == p@[i as int]@);
        }
        if p[i].len() == 1 && p[i][0] == '-' {
            proof {
                reveal_strlit("-");
                assert(p@[i as int]@ =~= "-"@);
                crate::text::lemma_position_prefix(ps, "-"@, i + 1);
            }
            return Some(i);
        }
        proof {
            reveal_strlit("-");
            if p@[i as int]@ == "-"@ {
                assert("-"@.len() == 1);
                assert(p@[i as int]@[0] == '-');
            }
        }
        i = i + 1;
    }
    proof {
        assert(ps.take(p@.len() as int) =~= ps);
    }
    None
}

/// Parses `/proc/self/mountinfo`.
pub fn parse_mounts(bytes: &[u8]) -> (r: Vec<MountRecord>)
    ensures
        views_of_mounts(r@) == mounts_spec(bytes@),
{
    let lines = file_lines(bytes);
    let ghost ls = nested_view(lines@);
    let mut out: Vec<MountRecord> = Vec::new();
    let mut i: usize = 0;
    proof {
        assert(views_of_mounts(out@) =~= Seq::<MountView>::empty());
    }
    while i < lines.len()
        invariant
            0 <= i <= lines.len(),
            ls == nested_view(lines@),
            ls == text_lines(lossy_utf8(bytes@)),
            views_of_mounts(out@) == mount_records(ls.take(i as int)),
        decreases lines.len() - i,
    {
        proof {
            assert(ls.take(i + 1).drop_last() =~= ls.take(i as int));
            assert(ls.take(i + 1).last() == lines@[i as int]@);
        }
        let p = tokens_of(lines[i].as_slice());
        match dash_position(&p) {
            Some(d) => {
                proof {
                    crate::text::lemma_position_bounds(nested_view(p@), "-"@);
                }
                if p.len() > 4 && d + 1 < p.len() {
                    proof {
                        assert(nested_view(p@)[4] == p@[4]@);
                        assert(nested_view(p@)[d + 1] == p@[d + 1]@);
                    }
                    let source = if d + 2 < p.len() {
                        proof {
                            assert(nested_view(p@)[d + 2] == p@[d + 2]@);
                        }
                        string_of(p[d + 2].as_slice())
                    } else {
                        String::from_str("?")
                    };
                    let mount_text = string_of(p[4].as_slice());
                    let rec = MountRecord {
                        mount_point: unescape(mount_text.as_str()),
                        fs_type: string_of(p[d + 1].as_slice()),
                        source,
                    };
                    let ghost before = views_of_mounts(out@);
                    out.push(rec);
                    proof {
                        assert(views_of_mounts(out@) =~= before.push(rec@));
                    }
                }
            },
            None => {},
        }
        i = i + 1;
    }
    proof {
        assert(ls.take(lines@.len() as int) =~= ls);
    }
    out
}

// ---------------------------------------------------------------------------
// Socket owners
// ---------------------------------------------------------------------------

/// The inode a file-descriptor link names when it is `socket:[N]`.
pub open spec fn socket_inode_spec(t: Seq<char>) -> Option<u64> {
    if has_prefix(t, "socket:["@) {
        let rest = t.subrange(8, t.len() as int);
        if has_suffix(rest, "]"@) {
            match parse_number(rest.drop_last(), 10, u64_max()) {
                Some(v) => Some(v as u64),
                None => None,
            }
        } else {
            None
        }
    } else {
        None
    }
}

/// The socket inode a file-descriptor link target names, if any.
pub fn socket_inode(target: &str) -> (r: Option<u64>)
    ensures
        r == socket_inode_spec(target@),
{
    proof {
        reveal_strlit("socket:[");
        reveal_strlit("]");
    }
    let t = chars_of(target);
    let prefix = chars_of("socket:[");
    if !crate::text::chars_start_with(t.as_slice(), prefix.as_slice()) {
        return None;
    }
    let rest = &t.as_slice()[8..t.len()];
    let close = chars_of("]");
    if !crate::text::chars_end_with(rest, close.as_slice()) {
        return None;
    }
    let digits = &rest[0..rest.len() - 1];
    proof {
        assert(digits@ =~= rest@.drop_last());
    }
    parse_unsigned(digits, 10, 0xffff_ffff_ffff_ffff)
}

/// The file-descriptor link targets of one process.
pub struct FdLinks {
    pub pid: u32,
    pub targets: Vec<String>,
}

/// The (inode, pid) pairs of the socket links among some targets.
pub open spec fn pairs_of_targets(pid: u32, targets: Seq<Seq<char>>) -> Seq<(u64, u32)>
    decreases targets.len(),
{
    if targets.len() == 0 {
        Seq::empty()
    } else {
        let r = pairs_of_targets(pid, targets.drop_last());
        match socket_inode_spec(targets.last()) {
            Some(n) => r.push((n, pid)),
            None => r,
        }
    }
}

/// The (inode, pid) pairs of every socket link, process by process and
/// descriptor by descriptor.
pub open spec fn socket_pairs(links: Seq<FdLinks>) -> Seq<(u64, u32)>
    decreases links.len(),
{
    if links.len() == 0 {
        Seq::empty()
    } else {
        socket_pairs(links.drop_last()) + pairs_of_targets(
            links.last().pid,
            char_views(links.last().targets@),
        )
    }
}

/// The processes holding a socket, once per descriptor, in pair order.
pub open spec fn owners_of(pairs: Seq<(u64, u32)>, inode: u64) -> Seq<u32>
    decreases pairs.len(),
{
    if pairs.len() == 0 {
        Seq::empty()
    } else {
        let r = owners_of(pairs.drop_last(), inode);
        if pairs.last().0 == inode {
            r.push(pairs.last().1)
        } else {
            r
        }
    }
}

/// The owners of a socket are exactly the processes holding a descriptor
/// for its inode: a PID is listed when some pair links it to the inode,
/// and every listed PID has such a pair.
pub proof fn lemma_owners_hold_the_inode(pairs: Seq<(u64, u32)>, inode: u64, pid: u32)
    ensures
        owners_of(pairs, inode).contains(pid) <==> exists|k: int|
            0 <= k < pairs.len() && #[trigger] pairs[k] == (inode, pid),
    decreases pairs.len(),
{
    if pairs.len() > 0 {
        let d = pairs.drop_last();
        lemma_owners_hold_the_inode(d, inode, pid);
        let r = owners_of(d, inode);
        if owners_of(pairs, inode).contains(pid) {
            let o = owners_of(pairs, inode);
            let i = choose|i: int| 0 <= i < o.len() && o[i] == pid;
            if pairs.last().0 == inode && i == o.len() - 1 {
                assert(pairs[pairs.len() - 1] == (inode, pid));
            } else {
                assert(r[i] == pid);
                let k = choose|k: int| 0 <= k < d.len() && #[trigger] d[k] == (inode, pid);
                assert(pairs[k] == d[k]);
            }
        }
        if exists|k: int| 0 <= k < pairs.len() && #[trigger] pairs[k] == (inode, pid) {
            let k = choose|k: int| 0 <= k < pairs.len() && #[trigger] pairs[k] == (inode, pid);
            if k == pairs.len() - 1 {
                let o = r.push(pid);
                assert(o[o.len() - 1] == pid);
            } else {
                assert(d[k] == pairs[k]);
                let i = choose|i: int| 0 <= i < r.len() && r[i] == pid;
                if pairs.last().0 == inode {
                    assert(r.push(pairs.last().1)[i] == pid);
                }
            }
        }
    }
}

/// A line of an internet socket table with at least four columns
/// describes a socket of the table's protocol: the local address is
/// column 2, the remote address column 3, the state column 4 and the inode
/// column 10 (absent when missing or not a number); it is owned by none
/// until owners are matched. Shorter lines describe none.
pub proof fn lemma_inet_columns(protocol: Seq<char>, line: Seq<char>)
    ensures
        ({
            let t = ws_tokens(line);
            &&& t.len() >= 4 ==> (inet_record(protocol, line) matches Some(s) && s.protocol == protocol
                && s.local == t[1] && s.remote == t[2] && s.state == t[3] && s.path is None
                && s.owners.len() == 0 && (t.len() > 9 ==> s.inode == match parse_number(t[9], 10, u64_max()) {
                    Some(n) => Some(n as u64),
                    None => None,
                }) && (t.len() <= 9 ==> s.inode is None))
            &&& t.len() < 4 ==> inet_record(protocol, line) is None
        }),
{
}

/// A line of the Unix socket table describes a socket whose state is
/// column 6, inode column 7 and path column 8 (`?`, absent and absent
/// when the line is shorter), shown with `-` for both addresses.
pub proof fn lemma_unix_columns(line: Seq<char>)
    ensures
        ({
            let t = ws_tokens(line);
            let s = unix_record(line);
            &&& s.protocol == "unix"@ && s.local == "-"@ && s.remote == "-"@
            &&& t.len() > 5 ==> s.state == t[5]
            &&& t.len() <= 5 ==> s.state == "?"@
            &&& t.len() > 7 ==> s.path == Some(t[7])
            &&& t.len() <= 7 ==> s.path is None
            &&& t.len() > 6 ==> s.inode == match parse_number(t[6], 10, u64_max()) {
                Some(n) => Some(n as u64),
                None => None,
            }
            &&& t.len() <= 6 ==> s.inode is None
        }),
{
}

/// Lists which process holds which socket inode.
pub fn socket_owners(links: &Vec<FdLinks>) -> (r: Vec<(u64, u32)>)
    ensures
        r@ == socket_pairs(links@),
{
    let mut out: Vec<(u64, u32)> = Vec::new();
    let mut i: usize = 0;
    while i < links.len()
        invariant
            0 <= i <= links.len(),
            out@ == socket_pairs(links@.take(i as int)),
        decreases links.len() - i,
    {
        let l = &links[i];
        proof {
            assert(links@.take(i + 1).drop_last() =~= links@.take(i as int));
            assert(links@.take(i + 1).last() == *l);
        }
        let ghost base = out@;
        let ghost tv = char_views(l.targets@);
        let mut j: usize = 0;
        while j < l.targets.len()
            invariant
                0 <= j <= l.targets.len(),
                tv == char_views(l.targets@),
                out@ == base + pairs_of_targets(l.pid, tv.take(j as int)),
            decreases l.targets.len() - j,
        {
            proof {
                assert(tv.take(j + 1).drop_last() =~= tv.take(j as int));
                assert(tv.take(j + 1).last() == l.targets@[j as int]@);
            }
            match socket_inode(l.targets[j].as_str()) {
                Some(n) => {
                    out.push((n, l.pid));
                },
                None => {},
            }
            j = j + 1;
        }
        proof {
            assert(tv.take(l.targets@.len() as int) =~= tv);
        }
        i = i + 1;
    }
    proof {
        assert(links@.take(links@.len() as int) =~= links@);
    }
    out
}

/// The processes holding the socket with the given inode.
pub fn owners_for(pairs: &Vec<(u64, u32)>, inode: u64) -> (r: Vec<u32>)
    ensures
        r@ == owners_of(pairs@, inode),
{
    let mut out: Vec<u32> = Vec::new();
    let mut i: usize = 0;
    while i < pairs.len()
        invariant
            0 <= i <= pairs.len(),
            out@ == owners_of(pairs@.take(i as int), inode),
        decreases pairs.len() - i,
    {
        proof {
            assert(pairs@.take(i + 1).drop_last() =~= pairs@.take(i as int));
        }
        if pairs[i].0 == inode {
            out.push(pairs[i].1);
        }
        i = i + 1;
    }
    proof {
        assert(pairs@.take(pairs@.len() as int) =~= pairs@);
    }
    out
}

// ---------------------------------------------------------------------------
// All sockets
// ---------------------------------------------------------------------------

/// The socket tables as read from `/proc/net`.
pub struct NetFiles {
    pub tcp: Field<Vec<u8>>,
    pub tcp6: Field<Vec<u8>>,
    pub udp: Field<Vec<u8>>,
    pub udp6: Field<Vec<u8>>,
    pub unix: Field<Vec<u8>>,
}

/// A socket with its owners filled in from the pairs, when it has an inode.
pub open spec fn with_owners(s: SocketView, pairs: Seq<(u64, u32)>) -> SocketView {
    match s.inode {
        Some(n) => SocketView { owners: owners_of(pairs, n), ..s },
        None => s,
    }
}

/// The socket inventory: the first table that could not be read decides
/// the status; otherwise every TCP, TCP6, UDP, UDP6 and Unix socket, in
/// that order, with its owning processes.
pub open spec fn sockets_spec(net: NetFiles, links: Seq<FdLinks>) -> Field<Seq<SocketView>> {
    match (net.tcp, net.tcp6, net.udp, net.udp6, net.unix) {
        (Field::Value(a), Field::Value(b), Field::Value(c), Field::Value(d), Field::Value(e)) => {
            let all = inet_spec("tcp"@, a@) + inet_spec("tcp6"@, b@) + inet_spec("udp"@, c@)
                + inet_spec("udp6"@, d@) + unix_spec(e@);
            let pairs = socket_pairs(links);
            Field::Value(Seq::new(all.len(), |i: int| with_owners(all[i], pairs)))
        },
        (Field::Value(_), Field::Value(_), Field::Value(_), Field::Value(_), e) => field_of_status(e.kind()),
        (Field::Value(_), Field::Value(_), Field::Value(_), d, _) => field_of_status(d.kind()),
        (Field::Value(_), Field::Value(_), c, _, _) => field_of_status(c.kind()),
        (Field::Value(_), b, _, _, _) => field_of_status(b.kind()),
        (a, _, _, _, _) => field_of_status(a.kind()),
    }
}

/// A socket list as views.
pub open spec fn sockets_field(f: Field<Vec<SocketRecord>>) -> Field<Seq<SocketView>> {
    match f {
        Field::Value(v) => Field::Value(views_of_sockets(v@)),
        _ => field_of_status(f.kind()),
    }
}

/// Appends the sockets of `more`.
fn append_sockets(all: &mut Vec<SocketRecord>, more: Vec<SocketRecord>)
    ensures
        views_of_sockets(final(all)@) == views_of_sockets(old(all)@) + views_of_sockets(more@),
{
    let mut more = more;
    let ghost a = views_of_sockets(all@);
    let ghost m = views_of_sockets(more@);
    all.append(&mut more);
    proof {
        assert(views_of_sockets(all@) =~= a + m);
    }
}

/// Gathers every socket of the system and the processes that hold them.
pub fn collect_sockets(net: NetFiles, links: &Vec<FdLinks>) -> (r: Field<Vec<SocketRecord>>)
    ensures
        sockets_field(r) == sockets_spec(net, links@),
{
    let ghost net0 = net;
    let NetFiles { tcp, tcp6, udp, udp6, unix } = net;
    let mut all: Vec<SocketRecord> = Vec::new();
    let a = match tcp {
        Field::Value(v) => v,
        other => return failure(other),
    };
    let b = match tcp6 {
        Field::Value(v) => v,
        other => return failure(other),
    };
    let c = match udp {
        Field::Value(v) => v,
        other => return failure(other),
    };
    let d = match udp6 {
        Field::Value(v) => v,
        other => return failure(other),
    };
    let e = match unix {
        Field::Value(v) => v,
        other => return failure(other),
    };
    append_sockets(&mut all, parse_inet("tcp", a.as_slice()));
    append_sockets(&mut all, parse_inet("tcp6", b.as_slice()));
    append_sockets(&mut all, parse_inet("udp", c.as_slice()));
    append_sockets(&mut all, parse_inet("udp6", d.as_slice()));
    append_sockets(&mut all, parse_unix(e.as_slice()));
    let ghost base = views_of_sockets(all@);
    let pairs = socket_owners(links);
    let mut i: usize = 0;
    while i < all.len()
        invariant
            0 <= i <= all.len(),
            all@.len() == base.len(),
            forall|k: int| 0 <= k < i ==> (#[trigger] views_of_sockets(all@)[k]) == with_owners(base[k], pairs@),
            forall|k: int| i <= k < all@.len() ==> (#[trigger] views_of_sockets(all@)[k]) == base[k],
        decreases all.len() - i,
    {
        let inode = all[i].inode;
        match inode {
            Some(n) => {
                let owners = owners_for(&pairs, n);
                let ghost old_all = all@;
                let mut rec = all.remove(i);
                rec.owners = owners;
                all.insert(i, rec);
                proof {
                    assert(all@ =~= old_all.update(i as int, rec));
                    assert forall|k: int| 0 <= k < all@.len() && k != i implies views_of_sockets(all@)[k]
                        == views_of_sockets(old_all)[k] by {
                        assert(all@[k] == old_all[k]);
                    }
                    assert(views_of_sockets(all@)[i as int] == with_owners(base[i as int], pairs@));
                    assert forall|k: int| 0 <= k < i + 1 implies (#[trigger] views_of_sockets(all@)[k])
                        == with_owners(base[k], pairs@) by {
                        if k < i {
                            assert(views_of_sockets(old_all)[k] == with_owners(base[k], pairs@));
                        }
                    }
                    assert forall|k: int| i + 1 <= k < all@.len() implies (#[trigger] views_of_sockets(
                        all@,
                    )[k]) == base[k] by {
                        assert(views_of_sockets(old_all)[k] == base[k]);
                    }
                }
            },
            None => {
                proof {
                    assert(views_of_sockets(all@)[i as int] == base[i as int]);
                    assert(views_of_sockets(all@)[i as int] == with_owners(base[i as int], pairs@));
                    assert forall|k: int| 0 <= k < i + 1 implies (#[trigger] views_of_sockets(all@)[k])
                        == with_owners(base[k], pairs@) by {
                    }
                }
            },
        }
        i = i + 1;
    }
    proof {
        assert(views_of_sockets(all@) =~= Seq::new(base.len(), |k: int| with_owners(base[k], pairs@)));
    }
    Field::Value(all)
}

// ---------------------------------------------------------------------------
// systemd
// ---------------------------------------------------------------------------

/// How running a `systemctl` query went.
pub enum CommandOutcome {
    /// It ran; whether it succeeded, and what it printed.
    Finished { success: bool, stdout: Vec<u8> },
    /// It could not be started.
    Failed(IoFailure),
}

/// The lines a `systemctl` query reports: its output lines on success,
/// unsupported when it failed or is not installed, an I/O error otherwise.
pub open spec fn systemd_spec(o: CommandOutcome) -> Field<Seq<Seq<char>>> {
    match o {
        CommandOutcome::Finished { success, stdout } => if success {
            Field::Value(text_lines(lossy_utf8(stdout@)))
        } else {
            Field::Unsupported
        },
        CommandOutcome::Failed(IoFailure::NotFound) => Field::Unsupported,
        CommandOutcome::Failed(_) => Field::IoError,
    }
}

/// A list of strings as characters.
pub open spec fn lines_field(f: Field<Vec<String>>) -> Field<Seq<Seq<char>>> {
    match f {
        Field::Value(v) => Field::Value(char_views(v@)),
        _ => field_of_status(f.kind()),
    }
}

/// Strings holding the given lines.
fn strings_of(lines: &Vec<Vec<char>>) -> (r: Vec<String>)
    ensures
        char_views(r@) == nested_view(lines@),
{
    let mut out: Vec<String> = Vec::new();
    let mut i: usize = 0;
    while i < lines.len()
        invariant
            0 <= i <= lines.len(),
            char_views(out@) == nested_view(lines@).take(i as int),
        decreases lines.len() - i,
    {
        let ghost before = char_views(out@);
        let line = string_of(lines[i].as_slice());
        out.push(line);
        proof {
            assert(char_views(out@) =~= before.push(nested_view(lines@)[i as int]));
        }
        i = i + 1;
        proof {
            assert(char_views(out@) =~= nested_view(lines@).take(i as int));
        }
    }
    proof {
        assert(nested_view(lines@).take(lines@.len() as int) =~= nested_view(lines@));
    }
    out
}

/// The lines of a `systemctl` query's outcome.
pub fn systemd_lines(outcome: CommandOutcome) -> (r: Field<Vec<String>>)
    ensures
        lines_field(r) == systemd_spec(outcome),
{
    match outcome {
        CommandOutcome::Finished { success, stdout } => {
            if success {
                let lines = file_lines(stdout.as_slice());
                Field::Value(strings_of(&lines))
            } else {
                Field::Unsupported
            }
        },
        CommandOutcome::Failed(IoFailure::NotFound) => Field::Unsupported,
        CommandOutcome::Failed(_) => Field::IoError,
    }
}

// ---------------------------------------------------------------------------
// The inventory
// ---------------------------------------------------------------------------

/// What was read or run to build the inventory.
pub struct ActivitySources {
    pub net: NetFiles,
    pub fd_links: Vec<FdLinks>,
    pub mountinfo: Field<Vec<u8>>,
    pub cgroup_count: Field<usize>,
    pub cgroups: Field<Vec<String>>,
    pub system_units: Field<Vec<String>>,
    pub user_units: Field<Vec<String>>,
    pub system_timers: Field<Vec<String>>,
    pub user_timers: Field<Vec<String>>,
}

/// The units that some process of the snapshot was found in.
pub open spec fn snapshot_units(s: Snapshot) -> Set<Seq<char>> {
    Set::new(
        |u: Seq<char>|
            exists|i: int|
                0 <= i < s.processes@.len() && text_field(#[trigger] s.processes@[i].systemd_unit)
                    == Field::Value(u),
    )
}

/// A mount list as views.
pub open spec fn mounts_field(f: Field<Vec<MountRecord>>) -> Field<Seq<MountView>> {
    match f {
        Field::Value(v) => Field::Value(views_of_mounts(v@)),
        _ => field_of_status(f.kind()),
    }
}

/// Builds the inventory: the sockets with their owners, the mounts, the
/// units that the snapshot's processes belong to (each once, in order), and
/// the cgroup and systemd listings as given.
pub fn collect(snapshot: &Snapshot, sources: ActivitySources) -> (r: Inventory)
    ensures
        sockets_field(r.sockets) == sockets_spec(sources.net, sources.fd_links@),
        mounts_field(r.mounts) == (match sources.mountinfo {
            Field::Value(b) => Field::Value(mounts_spec(b@)),
            _ => field_of_status::<Seq<MountView>>(sources.mountinfo.kind()),
        }),
        strictly_sorted(r.units@),
        char_views(r.units@).to_set() == snapshot_units(*snapshot),
        r.cgroup_count == sources.cgroup_count,
        r.cgroups == sources.cgroups,
        r.system_units == sources.system_units,
        r.user_units == sources.user_units,
        r.system_timers == sources.system_timers,
        r.user_timers == sources.user_timers,
{
    let ghost src0 = sources;
    let ActivitySources {
        net,
        fd_links,
        mountinfo,
        cgroup_count,
        cgroups,
        system_units,
        user_units,
        system_timers,
        user_timers,
    } = sources;
    let mut units: Vec<String> = Vec::new();
    let mut i: usize = 0;
    let ghost procs = snapshot.processes@;
    proof {
        assert(char_views(units@).to_set() =~= Set::<Seq<char>>::empty());
    }
    while i < snapshot.processes.len()
        invariant
            0 <= i <= snapshot.processes.len(),
            procs == snapshot.processes@,
            strictly_sorted(units@),
            char_views(units@).to_set() == Set::new(
                |u: Seq<char>|
                    exists|k: int|
                        0 <= k < i && text_field(#[trigger] procs[k].systemd_unit) == Field::Value(u),
            ),
        decreases snapshot.processes.len() - i,
    {
        let ghost before = char_views(units@).to_set();
        match &snapshot.processes[i].systemd_unit {
            Field::Value(unit) => {
                insert_sorted_unique(&mut units, unit.clone());
                proof {
                    assert(char_views(units@).to_set() =~= Set::new(
                        |u: Seq<char>|
                            exists|k: int|
                                0 <= k < i + 1 && text_field(#[trigger] procs[k].systemd_unit)
                                    == Field::Value(u),
                    )) by {
                        assert(text_field(procs[i as int].systemd_unit) == Field::Value(unit@));
                    }
                }
            },
            _ => {
                proof {
                    assert(char_views(units@).to_set() =~= Set::new(
                        |u: Seq<char>|
                            exists|k: int|
                                0 <= k < i + 1 && text_field(#[trigger] procs[k].systemd_unit)
                                    == Field::Value(u),
                    )) by {
                        assert(!(text_field(procs[i as int].systemd_unit) is Value));
                    }
                }
            },
        }
        i = i + 1;
    }
    proof {
        assert(char_views(units@).to_set() =~= snapshot_units(*snapshot));
    }
    let mounts: Field<Vec<MountRecord>> = match mountinfo {
        Field::Value(bytes) => Field::Value(parse_mounts(bytes.as_slice())),
        other => failure(other),
    };
    Inventory {
        sockets: collect_sockets(net, &fd_links),
        mounts,
        cgroup_count,
        cgroups,
        units,
        system_units,
        user_units,
        system_timers,
        user_timers,
    }
}

} // verus!
