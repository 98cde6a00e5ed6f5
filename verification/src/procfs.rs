//! Process records and the parsers for the `/proc` files they come from.
use vstd::prelude::*;
use vstd::utf8::*;
use crate::field::{Field, FieldStatus, IoFailure, field_of_status, map_failure, status_word};
use crate::order::{SortKey, sort_by_key, sorted_by_key, views_of};
use crate::text::{
    byte_position, byte_rposition, bytes_start_with, chars_end_with, chars_of, chars_start_with,
    has_prefix, lines_of, text_lines,
    has_suffix, join, join_strings, lemma_position_bounds, lemma_split_nonempty, lossy_string,
    lossy_utf8, nested_view, parse_number, parse_unsigned, position_of, rposition_of,
    split_bytes, split_chars, split_seq, string_of, string_views, tokens_of, utf8_str,
    ws_tokens,
};
use vstd::string::StringExecFns;

verus! {

/// The largest `u32`, as a number.
pub open spec fn u32_max() -> nat {
    0xffff_ffff
}

/// The largest `u64`, as a number.
pub open spec fn u64_max() -> nat {
    0xffff_ffff_ffff_ffff
}

// ---------------------------------------------------------------------------
// /proc/PID/stat
// ---------------------------------------------------------------------------

/// The fields of a task's `stat` line that the observer uses.
pub struct ParsedStat {
    pub name: String,
    pub state: char,
    pub ppid: u32,
    pub user_ticks: u64,
    pub system_ticks: u64,
    pub start_ticks: u64,
}

/// What a [`ParsedStat`] holds, as mathematical values.
pub struct StatFields {
    pub name: Seq<char>,
    pub state: char,
    pub ppid: nat,
    pub user_ticks: nat,
    pub system_ticks: nat,
    pub start_ticks: nat,
}

impl View for ParsedStat {
    type V = StatFields;

    open spec fn view(&self) -> StatFields {
        StatFields {
            name: self.name@,
            state: self.state,
            ppid: self.ppid as nat,
            user_ticks: self.user_ticks as nat,
            system_ticks: self.system_ticks as nat,
            start_ticks: self.start_ticks as nat,
        }
    }
}

/// The whitespace-separated fields after the name of a `stat` line, when
/// the text after `") "` is valid UTF-8.
pub open spec fn stat_rest_fields(b: Seq<u8>, close: int) -> Option<Seq<Seq<char>>> {
    if close + 2 > b.len() {
        None
    } else {
        let rest = b.subrange(close + 2, b.len() as int);
        if valid_utf8(rest) {
            Some(ws_tokens(decode_utf8(rest)))
        } else {
            None
        }
    }
}

/// What a `stat` line says: the name lies between the first `(` and the
/// last `)` (so it may hold spaces and parentheses); after `") "` come the
/// state (the first character of field 3), the parent (field 4), the user
/// and system ticks (fields 14 and 15) and the start time (field 22).
pub open spec fn stat_spec(b: Seq<u8>) -> Option<StatFields> {
    match (position_of(b, 40u8), rposition_of(b, 41u8)) {
        (Some(open), Some(close)) => {
            if close <= open {
                None
            } else {
                match stat_rest_fields(b, close) {
                    Some(f) => {
                        if f.len() >= 20 && f[0].len() > 0 && parse_number(f[1], 10, u32_max()) is Some
                            && parse_number(f[11], 10, u64_max()) is Some && parse_number(
                            f[12],
                            10,
                            u64_max(),
                        ) is Some && parse_number(f[19], 10, u64_max()) is Some {
                            Some(
                                StatFields {
                                    name: lossy_utf8(b.subrange(open + 1, close)),
                                    state: f[0][0],
                                    ppid: parse_number(f[1], 10, u32_max())->0,
                                    user_ticks: parse_number(f[11], 10, u64_max())->0,
                                    system_ticks: parse_number(f[12], 10, u64_max())->0,
                                    start_ticks: parse_number(f[19], 10, u64_max())->0,
                                },
                            )
                        } else {
                            None
                        }
                    },
                    None => None,
                }
            }
        },
        _ => None,
    }
}

/// Parses a `/proc/PID/stat` or `/proc/PID/task/TID/stat` line.
pub fn parse_stat(bytes: &[u8]) -> (r: Option<ParsedStat>)
    ensures
        match r {
            Some(p) => stat_spec(bytes@) == Some(p@),
            None => stat_spec(bytes@) is None,
        },
{
    proof {
        lemma_position_bounds(bytes@, 40u8);
        lemma_position_bounds(bytes@, 41u8);
    }
    let open = match byte_position(bytes, 40u8) {
        Some(i) => i,
        None => return None,
    };
    let close = match byte_rposition(bytes, 41u8) {
        Some(i) => i,
        None => return None,
    };
    proof {
        assert(position_of(bytes@, 40u8) == Some(open as int));
        assert(rposition_of(bytes@, 41u8) == Some(close as int));
    }
    if close <= open {
        return None;
    }
    let name = lossy_string(&bytes[open + 1..close]);
    if bytes.len() - close < 2 {
        return None;
    }
    let rest = &bytes[close + 2..bytes.len()];
    let text = match utf8_str(rest) {
        Some(t) => t,
        None => return None,
    };
    let chars = chars_of(text);
    let fields = tokens_of(chars.as_slice());
    proof {
        assert(nested_view(fields@) == ws_tokens(decode_utf8(rest@)));
    }
    if fields.len() < 20 {
        return None;
    }
    if fields[0].len() == 0 {
        proof {
            assert(nested_view(fields@)[0] == fields@[0]@);
        }
        return None;
    }
    proof {
        assert(nested_view(fields@)[0] == fields@[0]@);
        assert(nested_view(fields@)[1] == fields@[1]@);
        assert(nested_view(fields@)[11] == fields@[11]@);
        assert(nested_view(fields@)[12] == fields@[12]@);
        assert(nested_view(fields@)[19] == fields@[19]@);
    }
    let state = fields[0][0];
    let ppid = parse_unsigned(fields[1].as_slice(), 10, 0xffff_ffff)?;
    let user_ticks = parse_unsigned(fields[11].as_slice(), 10, 0xffff_ffff_ffff_ffff)?;
    let system_ticks = parse_unsigned(fields[12].as_slice(), 10, 0xffff_ffff_ffff_ffff)?;
    let start_ticks = parse_unsigned(fields[19].as_slice(), 10, 0xffff_ffff_ffff_ffff)?;
    Some(
        ParsedStat {
            name,
            state,
            ppid: ppid as u32,
            user_ticks,
            system_ticks,
            start_ticks,
        },
    )
}

// ---------------------------------------------------------------------------
// /proc/PID/cmdline
// ---------------------------------------------------------------------------

/// The pieces that are not empty, in order.
pub open spec fn nonempty_pieces(p: Seq<Seq<u8>>) -> Seq<Seq<u8>>
    decreases p.len(),
{
    if p.len() == 0 {
        Seq::empty()
    } else {
        let r = nonempty_pieces(p.drop_last());
        if p.last().len() == 0 {
            r
        } else {
            r.push(p.last())
        }
    }
}

/// Each piece decoded lossily.
pub open spec fn lossy_all(p: Seq<Seq<u8>>) -> Seq<Seq<char>> {
    Seq::new(p.len(), |i: int| lossy_utf8(p[i]))
}

/// The text shown for a command line: its NUL-separated arguments joined by
/// single spaces, or a marker when there are none.
pub open spec fn cmdline_text(b: Seq<u8>) -> Seq<char> {
    let args = lossy_all(nonempty_pieces(split_seq(b, 0u8)));
    if args.len() == 0 {
        "[kernel thread or empty command]"@
    } else {
        join(args, " "@)
    }
}

/// Renders a `/proc/PID/cmdline` as one line.
pub fn parse_cmdline(bytes: &[u8]) -> (r: String)
    ensures
        r@ == cmdline_text(bytes@),
{
    let pieces = split_bytes(bytes, 0u8);
    let ghost p = split_seq(bytes@, 0u8);
    let mut args: Vec<String> = Vec::new();
    let mut i: usize = 0;
    while i < pieces.len()
        invariant
            0 <= i <= pieces.len(),
            nested_view(pieces@) == p,
            string_views(args@) == lossy_all(nonempty_pieces(p.take(i as int))),
        decreases pieces.len() - i,
    {
        proof {
            assert(p.take(i + 1).drop_last() =~= p.take(i as int));
            assert(p[i as int] == pieces@[i as int]@);
        }
        let ghost before = string_views(args@);
        if pieces[i].len() > 0 {
            let arg = lossy_string(pieces[i].as_slice());
            args.push(arg);
            proof {
                assert(p.take(i + 1).last() == p[i as int]);
                assert(string_views(args@) =~= before.push(lossy_utf8(p[i as int])));
                assert(string_views(args@) =~= lossy_all(nonempty_pieces(p.take(i + 1))));
            }
        }
        i = i + 1;
    }
    proof {
        assert(p.take(pieces@.len() as int) =~= p);
    }
    if args.len() == 0 {
        String::from_str("[kernel thread or empty command]")
    } else {
        join_strings(&args, " ")
    }
}

// ---------------------------------------------------------------------------
// "Key: value" files
// ---------------------------------------------------------------------------

/// The index of the first line that begins with `key`.
pub open spec fn first_with_prefix(lines: Seq<Seq<u8>>, key: Seq<u8>) -> Option<int>
    decreases lines.len(),
{
    if lines.len() == 0 {
        None
    } else {
        match first_with_prefix(lines.drop_last(), key) {
            Some(i) => Some(i),
            None => if has_prefix(lines.last(), key) {
                Some(lines.len() - 1)
            } else {
                None
            },
        }
    }
}

/// The number after `key` on the first line that begins with `key`: the
/// first whitespace-separated token there, when the rest of that line is
/// valid UTF-8 and the token is an unsigned 64-bit integer.
pub open spec fn status_number(b: Seq<u8>, key: Seq<u8>) -> Option<nat> {
    let lines = split_seq(b, 10u8);
    match first_with_prefix(lines, key) {
        None => None,
        Some(i) => {
            let rest = lines[i].subrange(key.len() as int, lines[i].len() as int);
            if !valid_utf8(rest) {
                None
            } else {
                let t = ws_tokens(decode_utf8(rest));
                if t.len() == 0 {
                    None
                } else {
                    parse_number(t[0], 10, u64_max())
                }
            }
        },
    }
}

/// The index of the first line that begins with `key`.
pub open spec fn first_line_with(lines: Seq<Seq<char>>, key: Seq<char>) -> Option<int>
    decreases lines.len(),
{
    if lines.len() == 0 {
        None
    } else {
        match first_line_with(lines.drop_last(), key) {
            Some(i) => Some(i),
            None => if has_prefix(lines.last(), key) {
                Some(lines.len() - 1)
            } else {
                None
            },
        }
    }
}

/// The real UID that a `status` text gives: the second whitespace-separated
/// word of its first line beginning with `Uid:`, as an unsigned 32-bit
/// integer.
pub open spec fn status_uid(text: Seq<char>) -> Option<u32> {
    let lines = text_lines(text);
    match first_line_with(lines, "Uid:"@) {
        None => None,
        Some(i) => {
            let t = ws_tokens(lines[i]);
            if t.len() < 2 {
                None
            } else {
                match parse_number(t[1], 10, u32_max()) {
                    Some(v) => Some(v as u32),
                    None => None,
                }
            }
        },
    }
}

/// The real UID in a `status` text.
pub fn uid_of_status(text: &str) -> (r: Option<u32>)
    ensures
        r == status_uid(text@),
{
    let chars = chars_of(text);
    let lines = lines_of(chars.as_slice());
    let key = chars_of("Uid:");
    let mut i: usize = 0;
    while i < lines.len()
        invariant
            0 <= i <= lines@.len(),
            nested_view(lines@) == text_lines(text@),
            key@ == "Uid:"@,
            first_line_with(nested_view(lines@).take(i as int), "Uid:"@) is None,
        decreases lines.len() - i,
    {
        proof {
            assert(nested_view(lines@).take(i + 1).drop_last() =~= nested_view(lines@).take(i as int));
            assert(nested_view(lines@)[i as int] == lines@[i as int]@);
        }
        if chars_start_with(lines[i].as_slice(), key.as_slice()) {
            proof {
                lemma_first_line_extends(nested_view(lines@), "Uid:"@, i as int);
            }
            let tokens = tokens_of(lines[i].as_slice());
            if tokens.len() < 2 {
                return None;
            }
            proof {
                assert(nested_view(tokens@)[1] == tokens@[1]@);
            }
            return match parse_unsigned(tokens[1].as_slice(), 10, 0xffff_ffff) {
                Some(v) => Some(v as u32),
                None => None,
            };
        }
        i = i + 1;
    }
    proof {
        assert(nested_view(lines@).take(lines@.len() as int) =~= nested_view(lines@));
    }
    None
}

/// Once the first line with the key is found, later lines do not change it.
pub proof fn lemma_first_line_extends(lines: Seq<Seq<char>>, key: Seq<char>, k: int)
    requires
        0 <= k < lines.len(),
        first_line_with(lines.take(k), key) is None,
        has_prefix(lines[k], key),
    ensures
        first_line_with(lines, key) == Some(k),
    decreases lines.len(),
{
    if lines.len() > k + 1 {
        assert(lines.drop_last().take(k) =~= lines.take(k));
        assert(lines.drop_last()[k] == lines[k]);
        lemma_first_line_extends(lines.drop_last(), key, k);
    } else {
        assert(lines.drop_last() =~= lines.take(k));
    }
}

/// Finds the number that follows `key` in a `status`, `io` or `meminfo` file.
pub fn parse_status_number(bytes: &[u8], key: &[u8]) -> (r: Option<u64>)
    ensures
        match status_number(bytes@, key@) {
            Some(v) => r == Some(v as u64),
            None => r is None,
        },
{
    let lines = split_bytes(bytes, 10u8);
    let ghost ls = split_seq(bytes@, 10u8);
    let mut i: usize = 0;
    while i < lines.len()
        invariant
            0 <= i <= lines.len(),
            nested_view(lines@) == ls,
            ls == split_seq(bytes@, 10u8),
            first_with_prefix(ls.take(i as int), key@) is None,
        decreases lines.len() - i,
    {
        proof {
            assert(ls.take(i + 1).drop_last() =~= ls.take(i as int));
            assert(ls[i as int] == lines@[i as int]@);
        }
        let line = &lines[i];
        if bytes_start_with(line.as_slice(), key) {
            proof {
                assert(first_with_prefix(ls.take(i + 1), key@) == Some(i as int));
                lemma_first_prefix_extends(ls, key@, i + 1);
            }
            let rest = &line.as_slice()[key.len()..line.len()];
            proof {
                assert(rest@ == ls[i as int].subrange(key@.len() as int, ls[i as int].len() as int));
                assert(first_with_prefix(split_seq(bytes@, 10u8), key@) == Some(i as int));
                assert(status_number(bytes@, key@) == (if !valid_utf8(rest@) { None } else {
                    let t = ws_tokens(decode_utf8(rest@));
                    if t.len() == 0 { None } else { parse_number(t[0], 10, u64_max()) }
                }));
            }
            let text = match utf8_str(rest) {
                Some(t) => t,
                None => return None,
            };
            let chars = chars_of(text);
            let tokens = tokens_of(chars.as_slice());
            if tokens.len() == 0 {
                return None;
            }
            proof {
                assert(nested_view(tokens@)[0] == tokens@[0]@);
            }
            return parse_unsigned(tokens[0].as_slice(), 10, 0xffff_ffff_ffff_ffff);
        }
        i = i + 1;
    }
    proof {
        assert(ls.take(lines@.len() as int) =~= ls);
    }
    None
}

/// A match in a prefix of the lines is the first match overall.
pub proof fn lemma_first_prefix_extends(lines: Seq<Seq<u8>>, key: Seq<u8>, k: int)
    requires
        0 <= k <= lines.len(),
        first_with_prefix(lines.take(k), key) is Some,
    ensures
        first_with_prefix(lines, key) == first_with_prefix(lines.take(k), key),
    decreases lines.len() - k,
{
    if k < lines.len() {
        assert(lines.take(k + 1).drop_last() =~= lines.take(k));
        lemma_first_prefix_extends(lines, key, k + 1);
    } else {
        assert(lines.take(k) =~= lines);
    }
}

// ---------------------------------------------------------------------------
// /proc/stat
// ---------------------------------------------------------------------------

/// The sum of the tokens as unsigned integers, if each is one.
pub open spec fn token_sum(t: Seq<Seq<char>>) -> Option<nat>
    decreases t.len(),
{
    if t.len() == 0 {
        Some(0)
    } else {
        match (token_sum(t.drop_last()), parse_number(t.last(), 10, u64_max())) {
            (Some(a), Some(b)) => Some(a + b),
            _ => None,
        }
    }
}

/// The aggregate CPU ticks on a `cpu ` line: the sum of its first eight
/// counters (guest time is already counted in user and nice time), when the
/// sum fits in 64 bits.
pub open spec fn cpu_line_total(line: Seq<u8>) -> Option<nat> {
    let rest = line.subrange(4, line.len() as int);
    if !valid_utf8(rest) {
        None
    } else {
        let t = ws_tokens(decode_utf8(rest));
        let k = if t.len() < 8 {
            t.len()
        } else {
            8
        };
        match token_sum(t.take(k as int)) {
            Some(v) => if v <= u64_max() {
                Some(v)
            } else {
                None
            },
            None => None,
        }
    }
}

/// The bytes `cpu `.
pub open spec fn cpu_space() -> Seq<u8> {
    seq![99u8, 112u8, 117u8, 32u8]
}

/// The bytes `cpu`.
pub open spec fn cpu_word() -> Seq<u8> {
    seq![99u8, 112u8, 117u8]
}

/// Whether a line names one logical CPU (`cpu` followed by a digit).
pub open spec fn is_cpu_line(line: Seq<u8>) -> bool {
    has_prefix(line, cpu_word()) && line.len() > 3 && 48 <= line[3] <= 57
}

/// Scans the lines of `/proc/stat`: the total of the last aggregate line
/// and the number of per-CPU lines.
pub open spec fn cpu_scan(lines: Seq<Seq<u8>>) -> (Option<nat>, nat)
    decreases lines.len(),
{
    if lines.len() == 0 {
        (None, 0)
    } else {
        let (total, count) = cpu_scan(lines.drop_last());
        let l = lines.last();
        if has_prefix(l, cpu_space()) {
            (cpu_line_total(l), count)
        } else if is_cpu_line(l) {
            (total, count + 1)
        } else {
            (total, count)
        }
    }
}

pub proof fn lemma_cpu_count_bound(lines: Seq<Seq<u8>>)
    ensures
        cpu_scan(lines).1 <= lines.len(),
    decreases lines.len(),
{
    if lines.len() > 0 {
        lemma_cpu_count_bound(lines.drop_last());
    }
}

pub proof fn lemma_token_sum_prefix(t: Seq<Seq<char>>, j: int, k: int)
    requires
        0 <= j <= k <= t.len(),
        token_sum(t.take(k)) is Some,
    ensures
        token_sum(t.take(j)) is Some,
        token_sum(t.take(j))->0 <= token_sum(t.take(k))->0,
    decreases k - j,
{
    if j < k {
        assert(t.take(k).drop_last() =~= t.take(k - 1));
        lemma_token_sum_prefix(t, j, k - 1);
    }
}

/// The aggregate CPU total of one `cpu ` line.
fn cpu_total(line: &[u8]) -> (r: Option<u64>)
    requires
        line@.len() >= 4,
    ensures
        match cpu_line_total(line@) {
            Some(v) => r == Some(v as u64),
            None => r is None,
        },
{
    let rest = &line[4..line.len()];
    let text = match utf8_str(rest) {
        Some(t) => t,
        None => return None,
    };
    let chars = chars_of(text);
    let tokens = tokens_of(chars.as_slice());
    let ghost t = ws_tokens(decode_utf8(rest@));
    let k: usize = if tokens.len() < 8 {
        tokens.len()
    } else {
        8
    };
    let mut sum: u64 = 0;
    let mut i: usize = 0;
    while i < k
        invariant
            k <= tokens.len(),
            k == (if t.len() < 8 { t.len() } else { 8 }),
            nested_view(tokens@) == t,
            t == ws_tokens(decode_utf8(rest@)),
            rest@ == line@.subrange(4, line@.len() as int),
            valid_utf8(rest@),
            0 <= i <= k,
            token_sum(t.take(i as int)) == Some(sum as nat),
        decreases k - i,
    {
        proof {
            assert(t.take(i + 1).drop_last() =~= t.take(i as int));
            assert(t.take(i + 1).last() == t[i as int]);
            assert(t[i as int] == tokens@[i as int]@);
        }
        let v = match parse_unsigned(tokens[i].as_slice(), 10, 0xffff_ffff_ffff_ffff) {
            Some(v) => v,
            None => {
                proof {
                    assert(token_sum(t.take(i + 1)) is None);
                    if token_sum(t.take(k as int)) is Some {
                        lemma_token_sum_prefix(t, i + 1, k as int);
                    }
                }
                return None;
            },
        };
        match sum.checked_add(v) {
            Some(n) => {
                sum = n;
            },
            None => {
                proof {
                    if token_sum(t.take(k as int)) is Some {
                        lemma_token_sum_prefix(t, i + 1, k as int);
                    }
                }
                return None;
            },
        }
        i = i + 1;
    }
    Some(sum)
}

/// Reads the aggregate CPU tick total and the number of logical CPUs from
/// `/proc/stat`.
pub fn parse_system_cpu(bytes: &[u8]) -> (r: (Option<u64>, usize))
    ensures
        match cpu_scan(split_seq(bytes@, 10u8)).0 {
            Some(v) => r.0 == Some(v as u64),
            None => r.0 is None,
        },
        r.1 as nat == cpu_scan(split_seq(bytes@, 10u8)).1,
{
    let lines = split_bytes(bytes, 10u8);
    let ghost ls = split_seq(bytes@, 10u8);
    let cpu_sp: Vec<u8> = vec![99u8, 112u8, 117u8, 32u8];
    let cpu: Vec<u8> = vec![99u8, 112u8, 117u8];
    proof {
        assert(cpu_sp@ =~= cpu_space());
        assert(cpu@ =~= cpu_word());
    }
    let mut total: Option<u64> = None;
    let mut count: usize = 0;
    let mut i: usize = 0;
    while i < lines.len()
        invariant
            0 <= i <= lines.len(),
            nested_view(lines@) == ls,
            cpu_sp@ == cpu_space(),
            cpu@ == cpu_word(),
            match cpu_scan(ls.take(i as int)).0 {
                Some(v) => total == Some(v as u64),
                None => total is None,
            },
            count as nat == cpu_scan(ls.take(i as int)).1,
        decreases lines.len() - i,
    {
        proof {
            assert(ls.take(i + 1).drop_last() =~= ls.take(i as int));
            assert(ls[i as int] == lines@[i as int]@);
            lemma_cpu_count_bound(ls.take(i as int));
        }
        let line = &lines[i];
        if bytes_start_with(line.as_slice(), cpu_sp.as_slice()) {
            total = cpu_total(line.as_slice());
        } else if bytes_start_with(line.as_slice(), cpu.as_slice()) && line.len() > 3 && 48 <= line[3]
            && line[3] <= 57 {
            count = count + 1;
        }
        i = i + 1;
    }
    proof {
        assert(ls.take(lines@.len() as int) =~= ls);
    }
    (total, count)
}

// ---------------------------------------------------------------------------
// /proc/meminfo
// ---------------------------------------------------------------------------

/// System memory and swap, in KiB, as far as `/proc/meminfo` says.
#[derive(Debug, Default)]
pub struct Memory {
    pub total_kib: Option<u64>,
    pub available_kib: Option<u64>,
    pub swap_total_kib: Option<u64>,
    pub swap_free_kib: Option<u64>,
}

/// A number parsed by `status_number`, as a `u64`.
pub open spec fn status_u64(b: Seq<u8>, key: Seq<u8>) -> Option<u64> {
    match status_number(b, key) {
        Some(v) => Some(v as u64),
        None => None,
    }
}

/// The ASCII bytes of a key.
pub open spec fn key_bytes(k: Seq<char>) -> Seq<u8> {
    Seq::new(k.len(), |i: int| k[i] as u8)
}

/// The bytes of a string that is ASCII.
fn ascii_key(s: &str) -> (r: Vec<u8>)
    requires
        s.is_ascii(),
    ensures
        r@ == key_bytes(s@),
{
    let chars = chars_of(s);
    let mut out: Vec<u8> = Vec::new();
    let mut i: usize = 0;
    while i < chars.len()
        invariant
            chars@ == s@,
            vstd::string::is_ascii(s),
            0 <= i <= chars.len(),
            out@ == key_bytes(s@).take(i as int),
        decreases chars.len() - i,
    {
        let c = chars[i];
        proof {
            assert(s@[i as int] == c);
            assert('\0' <= c <= '\u{7f}');
        }
        out.push(c as u8);
        i = i + 1;
        proof {
            assert(out@ =~= key_bytes(s@).take(i as int));
        }
    }
    proof {
        assert(key_bytes(s@).take(chars@.len() as int) =~= key_bytes(s@));
    }
    out
}

/// Reads memory and swap totals from `/proc/meminfo`.
pub fn parse_memory(bytes: &[u8]) -> (r: Memory)
    ensures
        r.total_kib == status_u64(bytes@, key_bytes("MemTotal:"@)),
        r.available_kib == status_u64(bytes@, key_bytes("MemAvailable:"@)),
        r.swap_total_kib == status_u64(bytes@, key_bytes("SwapTotal:"@)),
        r.swap_free_kib == status_u64(bytes@, key_bytes("SwapFree:"@)),
{
    proof {
        reveal_strlit("MemTotal:");
        reveal_strlit("MemAvailable:");
        reveal_strlit("SwapTotal:");
        reveal_strlit("SwapFree:");
    }
    let total = ascii_key("MemTotal:");
    let available = ascii_key("MemAvailable:");
    let swap_total = ascii_key("SwapTotal:");
    let swap_free = ascii_key("SwapFree:");
    Memory {
        total_kib: parse_status_number(bytes, total.as_slice()),
        available_kib: parse_status_number(bytes, available.as_slice()),
        swap_total_kib: parse_status_number(bytes, swap_total.as_slice()),
        swap_free_kib: parse_status_number(bytes, swap_free.as_slice()),
    }
}

// ---------------------------------------------------------------------------
// /proc/PID/cgroup
// ---------------------------------------------------------------------------

/// What follows the `k`-th colon of a line, if it has that many.
pub open spec fn after_colons(line: Seq<u8>, k: nat) -> Option<Seq<u8>>
    decreases k,
{
    if k == 0 {
        Some(line)
    } else {
        match position_of(line, 58u8) {
            Some(i) => after_colons(line.subrange(i + 1, line.len() as int), (k - 1) as nat),
            None => None,
        }
    }
}

/// The path part (after the second colon) of the first line that has one.
pub open spec fn first_cgroup_path(lines: Seq<Seq<u8>>) -> Option<Seq<u8>>
    decreases lines.len(),
{
    if lines.len() == 0 {
        None
    } else {
        match first_cgroup_path(lines.drop_last()) {
            Some(p) => Some(p),
            None => after_colons(lines.last(), 2),
        }
    }
}

/// The cgroup path a `/proc/PID/cgroup` file names, or empty.
pub open spec fn cgroup_text(b: Seq<u8>) -> Seq<char> {
    match first_cgroup_path(split_seq(b, 10u8)) {
        Some(p) => lossy_utf8(p),
        None => Seq::empty(),
    }
}

/// What follows the second colon of a line.
fn after_two_colons(line: &[u8]) -> (r: Option<&[u8]>)
    ensures
        match after_colons(line@, 2) {
            Some(p) => r matches Some(x) && x@ == p,
            None => r is None,
        },
{
    proof {
        lemma_position_bounds(line@, 58u8);
    }
    let first = match byte_position(line, 58u8) {
        Some(i) => i,
        None => return None,
    };
    assert(first < line.len());
    let tail = &line[first + 1..line.len()];
    proof {
        lemma_position_bounds(tail@, 58u8);
        assert(after_colons(line@, 2) == after_colons(tail@, 1));
    }
    let second = match byte_position(tail, 58u8) {
        Some(i) => i,
        None => return None,
    };
    assert(second < tail.len());
    let path = &tail[second + 1..tail.len()];
    proof {
        assert(after_colons(tail@, 1) == after_colons(path@, 0));
    }
    Some(path)
}

/// Reads the cgroup path of a process from `/proc/PID/cgroup`.
pub fn parse_cgroup(bytes: &[u8]) -> (r: String)
    ensures
        r@ == cgroup_text(bytes@),
{
    let lines = split_bytes(bytes, 10u8);
    let ghost ls = split_seq(bytes@, 10u8);
    let mut i: usize = 0;
    while i < lines.len()
        invariant
            0 <= i <= lines.len(),
            nested_view(lines@) == ls,
            ls == split_seq(bytes@, 10u8),
            first_cgroup_path(ls.take(i as int)) is None,
        decreases lines.len() - i,
    {
        proof {
            assert(ls.take(i + 1).drop_last() =~= ls.take(i as int));
            assert(ls[i as int] == lines@[i as int]@);
        }
        match after_two_colons(lines[i].as_slice()) {
            Some(path) => {
                proof {
                    lemma_first_cgroup_extends(ls, i + 1);
                }
                return lossy_string(path);
            },
            None => {},
        }
        i = i + 1;
    }
    proof {
        assert(ls.take(lines@.len() as int) =~= ls);
    }
    String::new()
}

pub proof fn lemma_first_cgroup_extends(lines: Seq<Seq<u8>>, k: int)
    requires
        0 <= k <= lines.len(),
        first_cgroup_path(lines.take(k)) is Some,
    ensures
        first_cgroup_path(lines) == first_cgroup_path(lines.take(k)),
    decreases lines.len() - k,
{
    if k < lines.len() {
        assert(lines.take(k + 1).drop_last() =~= lines.take(k));
        lemma_first_cgroup_extends(lines, k + 1);
    } else {
        assert(lines.take(k) =~= lines);
    }
}

// ---------------------------------------------------------------------------
// systemd units
// ---------------------------------------------------------------------------

/// Whether a path component names a systemd service, scope or slice.
pub open spec fn is_unit_name(part: Seq<char>) -> bool {
    has_suffix(part, ".service"@) || has_suffix(part, ".scope"@) || has_suffix(part, ".slice"@)
}

/// The last component that names a unit.
pub open spec fn last_unit(parts: Seq<Seq<char>>) -> Option<Seq<char>>
    decreases parts.len(),
{
    if parts.len() == 0 {
        None
    } else if is_unit_name(parts.last()) {
        Some(parts.last())
    } else {
        last_unit(parts.drop_last())
    }
}

/// The innermost systemd unit, scope or slice named in a cgroup path.
pub open spec fn unit_of_path(path: Seq<char>) -> Option<Seq<char>> {
    last_unit(split_seq(path, '/'))
}

/// Infers the systemd unit, scope or slice that a cgroup path belongs to.
pub fn find_systemd_unit(path: &str) -> (r: Option<String>)
    ensures
        match unit_of_path(path@) {
            Some(u) => r matches Some(s) && s@ == u,
            None => r is None,
        },
{
    let chars = chars_of(path);
    let parts = split_chars(chars.as_slice(), '/');
    let ghost ps = split_seq(path@, '/');
    let service = chars_of(".service");
    let scope = chars_of(".scope");
    let slice = chars_of(".slice");
    let mut i: usize = parts.len();
    proof {
        assert(ps.take(ps.len() as int) =~= ps);
    }
    while i > 0
        invariant
            0 <= i <= parts.len(),
            nested_view(parts@) == ps,
            ps == split_seq(path@, '/'),
            service@ == ".service"@,
            scope@ == ".scope"@,
            slice@ == ".slice"@,
            unit_of_path(path@) == last_unit(ps.take(i as int)),
        decreases i,
    {
        let part = &parts[i - 1];
        proof {
            assert(ps[i - 1] == part@);
            assert(ps.take(i as int).last() == part@);
            assert(ps.take(i as int).drop_last() =~= ps.take(i - 1));
        }
        if chars_end_with(part.as_slice(), service.as_slice()) || chars_end_with(
            part.as_slice(),
            scope.as_slice(),
        ) || chars_end_with(part.as_slice(), slice.as_slice()) {
            return Some(string_of(part.as_slice()));
        }
        i = i - 1;
    }
    None
}

// ---------------------------------------------------------------------------
// Processes and threads
// ---------------------------------------------------------------------------

/// One thread (task) of a process.
#[derive(Debug)]
pub struct Thread {
    pub tid: u32,
    pub name: String,
    pub state: char,
    pub start_ticks: u64,
    pub cpu_user_ticks: u64,
    pub cpu_system_ticks: u64,
}

/// What a [`Thread`] holds, with its name as characters.
pub struct ThreadView {
    pub tid: u32,
    pub name: Seq<char>,
    pub state: char,
    pub start_ticks: u64,
    pub cpu_user_ticks: u64,
    pub cpu_system_ticks: u64,
}

impl View for Thread {
    type V = ThreadView;

    open spec fn view(&self) -> ThreadView {
        ThreadView {
            tid: self.tid,
            name: self.name@,
            state: self.state,
            start_ticks: self.start_ticks,
            cpu_user_ticks: self.cpu_user_ticks,
            cpu_system_ticks: self.cpu_system_ticks,
        }
    }
}

impl SortKey for Thread {
    open spec fn key_of(v: ThreadView) -> u64 {
        v.tid as u64
    }

    fn sort_key(&self) -> (k: u64) {
        self.tid as u64
    }
}

/// Everything the observer records about one process.
#[derive(Debug)]
pub struct Process {
    pub pid: u32,
    pub ppid: Field<u32>,
    pub uid: Field<u32>,
    pub state: Field<char>,
    pub name: Field<String>,
    pub command: Field<String>,
    pub executable: Field<String>,
    pub start_ticks: Field<u64>,
    pub cpu_user_ticks: Field<u64>,
    pub cpu_system_ticks: Field<u64>,
    pub rss_kib: Field<u64>,
    pub read_bytes: Field<u64>,
    pub write_bytes: Field<u64>,
    pub thread_count: Field<u64>,
    pub cgroup: Field<String>,
    pub systemd_unit: Field<String>,
    pub threads: Field<Vec<Thread>>,
    pub namespaces: Field<Vec<(String, String)>>,
}

/// A text field with its value as characters.
pub open spec fn text_field(f: Field<String>) -> Field<Seq<char>> {
    match f {
        Field::Value(s) => Field::Value(s@),
        _ => field_of_status(f.kind()),
    }
}

/// A list of threads with each thread as its view.
pub open spec fn threads_field(f: Field<Vec<Thread>>) -> Field<Seq<ThreadView>> {
    match f {
        Field::Value(v) => Field::Value(views_of(v@)),
        _ => field_of_status(f.kind()),
    }
}

/// The views of namespace name and link target pairs.
pub open spec fn pair_views(v: Seq<(String, String)>) -> Seq<(Seq<char>, Seq<char>)> {
    Seq::new(v.len(), |i: int| (v[i].0@, v[i].1@))
}

/// A namespace list with its pairs as characters.
pub open spec fn namespaces_field(f: Field<Vec<(String, String)>>) -> Field<
    Seq<(Seq<char>, Seq<char>)>,
> {
    match f {
        Field::Value(v) => Field::Value(pair_views(v@)),
        _ => field_of_status(f.kind()),
    }
}

/// What a [`Process`] holds, with texts as characters.
pub struct ProcessView {
    pub pid: u32,
    pub ppid: Field<u32>,
    pub uid: Field<u32>,
    pub state: Field<char>,
    pub name: Field<Seq<char>>,
    pub command: Field<Seq<char>>,
    pub executable: Field<Seq<char>>,
    pub start_ticks: Field<u64>,
    pub cpu_user_ticks: Field<u64>,
    pub cpu_system_ticks: Field<u64>,
    pub rss_kib: Field<u64>,
    pub read_bytes: Field<u64>,
    pub write_bytes: Field<u64>,
    pub thread_count: Field<u64>,
    pub cgroup: Field<Seq<char>>,
    pub systemd_unit: Field<Seq<char>>,
    pub threads: Field<Seq<ThreadView>>,
    pub namespaces: Field<Seq<(Seq<char>, Seq<char>)>>,
}

impl View for Process {
    type V = ProcessView;

    open spec fn view(&self) -> ProcessView {
        ProcessView {
            pid: self.pid,
            ppid: self.ppid,
            uid: self.uid,
            state: self.state,
            name: text_field(self.name),
            command: text_field(self.command),
            executable: text_field(self.executable),
            start_ticks: self.start_ticks,
            cpu_user_ticks: self.cpu_user_ticks,
            cpu_system_ticks: self.cpu_system_ticks,
            rss_kib: self.rss_kib,
            read_bytes: self.read_bytes,
            write_bytes: self.write_bytes,
            thread_count: self.thread_count,
            cgroup: text_field(self.cgroup),
            systemd_unit: text_field(self.systemd_unit),
            threads: threads_field(self.threads),
            namespaces: namespaces_field(self.namespaces),
        }
    }
}

impl SortKey for Process {
    open spec fn key_of(v: ProcessView) -> u64 {
        v.pid as u64
    }

    fn sort_key(&self) -> (k: u64) {
        self.pid as u64
    }
}

// ---------------------------------------------------------------------------
// Visibility summary
// ---------------------------------------------------------------------------

/// The entry `label:status` when the field holds no value, else nothing.
pub open spec fn failure_entry(label: Seq<char>, f: Field<String>) -> Seq<Seq<char>> {
    match f {
        Field::Value(_) => Seq::empty(),
        _ => seq![label + ":"@ + status_word(f.kind())],
    }
}

impl Process {
    /// The audited text fields of this process (name, command, executable)
    /// that hold no value, each as `label:status`.
    pub open spec fn visibility_entries(&self) -> Seq<Seq<char>> {
        failure_entry("name"@, self.name) + failure_entry("command"@, self.command)
            + failure_entry("exe"@, self.executable)
    }

    /// Which of the three audited text fields (name, command, executable)
    /// could not be read, joined by commas, or `complete` when all were.
    pub open spec fn visibility_spec(&self) -> Seq<char> {
        let e = self.visibility_entries();
        if e.len() == 0 {
            "complete"@
        } else {
            join(e, ","@)
        }
    }

    pub fn visibility_summary(&self) -> (r: String)
        ensures
            r@ == self.visibility_spec(),
    {
        let mut failures: Vec<String> = Vec::new();
        push_failure(&mut failures, "name", &self.name);
        push_failure(&mut failures, "command", &self.command);
        push_failure(&mut failures, "exe", &self.executable);
        proof {
            assert(string_views(failures@) =~= self.visibility_entries());
        }
        if failures.len() == 0 {
            String::from_str("complete")
        } else {
            join_strings(&failures, ",")
        }
    }
}

/// A joined text begins with its first part.
pub proof fn lemma_join_starts_with_first(parts: Seq<Seq<char>>, sep: Seq<char>)
    requires
        parts.len() > 0,
    ensures
        has_prefix(join(parts, sep), parts[0]),
    decreases parts.len(),
{
    if parts.len() > 1 {
        lemma_join_starts_with_first(parts.drop_last(), sep);
        let j = join(parts.drop_last(), sep);
        assert(parts.drop_last()[0] == parts[0]);
        assert(join(parts, sep) == j + sep + parts.last());
        assert((j + sep + parts.last()).subrange(0, parts[0].len() as int) =~= j.subrange(
            0,
            parts[0].len() as int,
        ));
    } else {
        assert(parts[0].subrange(0, parts[0].len() as int) =~= parts[0]);
    }
}

/// The visibility summary reads `complete` exactly when the name, the
/// command and the executable were all read.
pub proof fn lemma_visibility_complete(p: Process)
    ensures
        p.visibility_spec() == "complete"@ <==> (p.name is Value && p.command is Value
            && p.executable is Value),
{
    reveal_strlit("complete");
    reveal_strlit("name");
    reveal_strlit("command");
    reveal_strlit("exe");
    reveal_strlit(":");
    let e = p.visibility_entries();
    if e.len() > 0 {
        let label: Seq<char> = if !(p.name is Value) {
            "name"@
        } else if !(p.command is Value) {
            "command"@
        } else {
            "exe"@
        };
        let first = e[0];
        assert(first.len() > label.len());
        assert(first[label.len() as int] == ':');
        lemma_join_starts_with_first(e, ","@);
        let j = join(e, ","@);
        assert(j[label.len() as int] == ':') by {
            assert(j.subrange(0, first.len() as int)[label.len() as int] == first[label.len() as int]);
        }
        if j == "complete"@ {
            assert("complete"@[label.len() as int] != ':');
        }
    }
}

/// Appends `label:status` when the field holds no value.
fn push_failure(out: &mut Vec<String>, label: &str, f: &Field<String>)
    ensures
        string_views(final(out)@) == string_views(old(out)@) + failure_entry(label@, *f),
{
    match f {
        Field::Value(_) => {
            assert(string_views(out@) =~= string_views(out@) + Seq::<Seq<char>>::empty());
        },
        _ => {
            let mut entry = String::from_str(label);
            entry.append(":");
            entry.append(f.status());
            let ghost before = string_views(out@);
            out.push(entry);
            proof {
                assert(string_views(out@) =~= before + failure_entry(label@, *f));
            }
        },
    }
}

// ---------------------------------------------------------------------------
// Assembling a process from what was read
// ---------------------------------------------------------------------------

/// The number after `key` in a file that may not have been read.
pub open spec fn number_field(src: Field<Vec<u8>>, key: Seq<u8>) -> Field<u64> {
    match src {
        Field::Value(b) => match status_number(b@, key) {
            Some(v) => Field::Value(v as u64),
            None => Field::ParseError,
        },
        _ => field_of_status(src.kind()),
    }
}

/// Reads the number after `key` from a file that may not have been read: a
/// failed read keeps its status, an unreadable value is a parse error.
pub fn parsed_number(source: &Field<Vec<u8>>, key: &[u8]) -> (r: Field<u64>)
    ensures
        r == number_field(*source, key@),
{
    match source {
        Field::Value(bytes) => match parse_status_number(bytes.as_slice(), key) {
            Some(v) => Field::Value(v),
            None => Field::ParseError,
        },
        other => map_failure(other),
    }
}

/// A process or thread ID written as a directory name.
pub open spec fn pid_spec(name: Seq<char>) -> Option<u32> {
    match parse_number(name, 10, u32_max()) {
        Some(v) => Some(v as u32),
        None => None,
    }
}

/// The ID that a `/proc` or `task` directory entry names, if it is numeric.
pub fn pid_of_entry(name: &str) -> (r: Option<u32>)
    ensures
        r == pid_spec(name@),
{
    let chars = chars_of(name);
    match parse_unsigned(chars.as_slice(), 10, 0xffff_ffff) {
        Some(v) => Some(v as u32),
        None => None,
    }
}

/// One entry of a process's `task` directory: its name and what reading its
/// `stat` file gave.
pub struct TaskEntry {
    pub name: String,
    pub stat: Field<Vec<u8>>,
}

/// The thread that a task entry describes, if its name is an ID and its
/// `stat` was read and parsed.
pub open spec fn thread_of(e: TaskEntry) -> Option<ThreadView> {
    match pid_spec(e.name@) {
        None => None,
        Some(tid) => match e.stat {
            Field::Value(b) => match stat_spec(b@) {
                Some(st) => Some(
                    ThreadView {
                        tid,
                        name: st.name,
                        state: st.state,
                        start_ticks: st.start_ticks as u64,
                        cpu_user_ticks: st.user_ticks as u64,
                        cpu_system_ticks: st.system_ticks as u64,
                    },
                ),
                None => None,
            },
            _ => None,
        },
    }
}

/// The threads of the task entries, in entry order, skipping the others.
pub open spec fn threads_of(es: Seq<TaskEntry>) -> Seq<ThreadView>
    decreases es.len(),
{
    if es.len() == 0 {
        Seq::empty()
    } else {
        let r = threads_of(es.drop_last());
        match thread_of(es.last()) {
            Some(t) => r.push(t),
            None => r,
        }
    }
}

/// Builds the thread list of a process from its `task` directory listing,
/// ordered by thread ID.
pub fn read_threads(listing: Field<Vec<TaskEntry>>) -> (r: Field<Vec<Thread>>)
    ensures
        match listing {
            Field::Value(es) => r matches Field::Value(ts) && views_of(ts@).to_multiset()
                == threads_of(es@).to_multiset() && sorted_by_key::<Thread>(views_of(ts@)),
            _ => r == field_of_status::<Vec<Thread>>(listing.kind()),
        },
{
    let entries = match listing {
        Field::Value(es) => es,
        other => return map_failure(&other),
    };
    let mut threads: Vec<Thread> = Vec::new();
    let mut i: usize = 0;
    while i < entries.len()
        invariant
            0 <= i <= entries.len(),
            views_of(threads@) == threads_of(entries@.take(i as int)),
        decreases entries.len() - i,
    {
        let entry = &entries[i];
        proof {
            assert(entries@.take(i + 1).drop_last() =~= entries@.take(i as int));
            assert(entries@.take(i + 1).last() == *entry);
        }
        let ghost before = views_of(threads@);
        match pid_of_entry(entry.name.as_str()) {
            Some(tid) => match &entry.stat {
                Field::Value(bytes) => match parse_stat(bytes.as_slice()) {
                    Some(stat) => {
                        let t = Thread {
                            tid,
                            name: stat.name,
                            state: stat.state,
                            start_ticks: stat.start_ticks,
                            cpu_user_ticks: stat.user_ticks,
                            cpu_system_ticks: stat.system_ticks,
                        };
                        threads.push(t);
                        proof {
                            assert(views_of(threads@) =~= before.push(t@));
                        }
                    },
                    None => {},
                },
                _ => {},
            },
            None => {},
        }
        i = i + 1;
    }
    proof {
        assert(entries@.take(entries@.len() as int) =~= entries@);
    }
    Field::Value(sort_by_key(threads))
}

/// A process's link to one of its namespaces, or why it could not be read.
pub struct NamespaceLink {
    pub name: String,
    pub target: Result<String, IoFailure>,
}

/// The status a failed namespace link read is reported as.
pub open spec fn namespace_failure(kind: IoFailure) -> FieldStatus {
    match kind {
        IoFailure::PermissionDenied => FieldStatus::PermissionDenied,
        IoFailure::NotFound => FieldStatus::Vanished,
        _ => FieldStatus::IoError,
    }
}

/// The namespaces of a process: every link's name and target, unless a
/// link could not be read, in which case the first failure decides.
pub open spec fn namespaces_of(links: Seq<NamespaceLink>) -> Field<Seq<(Seq<char>, Seq<char>)>>
    decreases links.len(),
{
    if links.len() == 0 {
        Field::Value(Seq::empty())
    } else {
        match namespaces_of(links.drop_last()) {
            Field::Value(v) => match links.last().target {
                Ok(t) => Field::Value(v.push((links.last().name@, t@))),
                Err(e) => field_of_status(namespace_failure(e)),
            },
            other => other,
        }
    }
}

/// Collects the namespace links of a process.
pub fn read_namespaces(links: Vec<NamespaceLink>) -> (r: Field<Vec<(String, String)>>)
    ensures
        namespaces_field(r) == namespaces_of(links@),
{
    let mut values: Vec<(String, String)> = Vec::new();
    let mut i: usize = 0;
    proof {
        assert(links@.take(0) =~= Seq::<NamespaceLink>::empty());
        assert(pair_views(values@) =~= Seq::<(Seq<char>, Seq<char>)>::empty());
    }
    while i < links.len()
        invariant
            0 <= i <= links.len(),
            namespaces_of(links@.take(i as int)) == Field::Value(pair_views(values@)),
        decreases links.len() - i,
    {
        let link = &links[i];
        proof {
            assert(links@.take(i + 1).drop_last() =~= links@.take(i as int));
            assert(links@.take(i + 1).last() == *link);
        }
        match &link.target {
            Ok(target) => {
                let ghost before = pair_views(values@);
                values.push((link.name.clone(), target.clone()));
                proof {
                    assert(pair_views(values@) =~= before.push((link.name@, target@)));
                }
            },
            Err(kind) => {
                proof {
                    lemma_namespaces_failure_sticks(links@, i + 1);
                }
                return match kind {
                    IoFailure::PermissionDenied => Field::PermissionDenied,
                    IoFailure::NotFound => Field::Vanished,
                    _ => Field::IoError,
                };
            },
        }
        i = i + 1;
    }
    proof {
        assert(links@.take(links@.len() as int) =~= links@);
    }
    Field::Value(values)
}

/// Once a link failed, the failure stays whatever links follow.
pub proof fn lemma_namespaces_failure_sticks(links: Seq<NamespaceLink>, k: int)
    requires
        0 <= k <= links.len(),
        !(namespaces_of(links.take(k)) is Value),
    ensures
        namespaces_of(links) == namespaces_of(links.take(k)),
    decreases links.len() - k,
{
    if k < links.len() {
        assert(links.take(k + 1).drop_last() =~= links.take(k));
        lemma_namespaces_failure_sticks(links, k + 1);
    } else {
        assert(links.take(k) =~= links);
    }
}

/// What was read from one `/proc/PID` directory.
pub struct ProcessReads {
    /// `stat`.
    pub stat: Field<Vec<u8>>,
    /// `cmdline`, when command lines are collected.
    pub cmdline: Field<Vec<u8>>,
    /// The target of the `exe` link.
    pub executable: Field<String>,
    /// `status`.
    pub status: Field<Vec<u8>>,
    /// `io`.
    pub io: Field<Vec<u8>>,
    /// `cgroup`.
    pub cgroup: Field<Vec<u8>>,
    /// The entries of the `task` directory.
    pub tasks: Field<Vec<TaskEntry>>,
    /// The links under `ns`, in the order `pid`, `mnt`, `net`, `user`, `cgroup`.
    pub namespaces: Vec<NamespaceLink>,
}

/// A field taken from the parsed `stat` line: a failed read keeps its status,
/// an unparsable line is a parse error.
pub open spec fn stat_field<A>(stat: Field<Vec<u8>>, pick: spec_fn(StatFields) -> A) -> Field<A> {
    match stat {
        Field::Value(b) => match stat_spec(b@) {
            Some(st) => Field::Value(pick(st)),
            None => Field::ParseError,
        },
        _ => field_of_status(stat.kind()),
    }
}

/// The text field that a byte field gives through `render`.
pub open spec fn rendered<A>(f: Field<Vec<u8>>, render: spec_fn(Seq<u8>) -> A) -> Field<A> {
    match f {
        Field::Value(b) => Field::Value(render(b@)),
        _ => field_of_status(f.kind()),
    }
}

/// The unit named by a cgroup field: unsupported when the path names none.
pub open spec fn unit_field(cgroup: Field<Seq<char>>) -> Field<Seq<char>> {
    match cgroup {
        Field::Value(path) => match unit_of_path(path) {
            Some(u) => Field::Value(u),
            None => Field::Unsupported,
        },
        _ => field_of_status(cgroup.kind()),
    }
}

/// A 64-bit number field narrowed to 32 bits.
pub open spec fn narrow_field(f: Field<u64>) -> Field<u32> {
    match f {
        Field::Value(v) => Field::Value(v as u32),
        _ => field_of_status(f.kind()),
    }
}

/// Whether `p` is the record of process `pid` made from `reads`.
pub open spec fn describes(p: ProcessView, pid: u32, collect_commands: bool, reads: ProcessReads) -> bool {
    &&& p.pid == pid
    &&& p.ppid == stat_field(reads.stat, |st: StatFields| st.ppid as u32)
    &&& p.state == stat_field(reads.stat, |st: StatFields| st.state)
    &&& p.name == stat_field(reads.stat, |st: StatFields| st.name)
    &&& p.start_ticks == stat_field(reads.stat, |st: StatFields| st.start_ticks as u64)
    &&& p.cpu_user_ticks == stat_field(reads.stat, |st: StatFields| st.user_ticks as u64)
    &&& p.cpu_system_ticks == stat_field(reads.stat, |st: StatFields| st.system_ticks as u64)
    &&& p.command == (if collect_commands {
        rendered(reads.cmdline, |b: Seq<u8>| cmdline_text(b))
    } else {
        Field::NotCollected
    })
    &&& p.executable == text_field(reads.executable)
    &&& p.uid == narrow_field(number_field(reads.status, key_bytes("Uid:"@)))
    &&& p.rss_kib == number_field(reads.status, key_bytes("VmRSS:"@))
    &&& p.thread_count == number_field(reads.status, key_bytes("Threads:"@))
    &&& p.read_bytes == number_field(reads.io, key_bytes("read_bytes:"@))
    &&& p.write_bytes == number_field(reads.io, key_bytes("write_bytes:"@))
    &&& p.cgroup == rendered(reads.cgroup, |b: Seq<u8>| cgroup_text(b))
    &&& p.systemd_unit == unit_field(p.cgroup)
    &&& match reads.tasks {
        Field::Value(es) => p.threads matches Field::Value(ts) && ts.to_multiset()
            == threads_of(es@).to_multiset() && sorted_by_key::<Thread>(ts),
        _ => p.threads == field_of_status::<Seq<ThreadView>>(reads.tasks.kind()),
    }
    &&& p.namespaces == namespaces_of(reads.namespaces@)
}

/// A number field of `status` is read from the first line that begins
/// with its key (later lines with the key are ignored): the first word
/// after the key, as an unsigned 64-bit number.
pub proof fn lemma_status_number_first_line(b: Seq<u8>, key: Seq<u8>, i: int)
    requires
        0 <= i < split_seq(b, 10u8).len(),
        has_prefix(split_seq(b, 10u8)[i], key),
        forall|k: int| 0 <= k < i ==> !has_prefix(#[trigger] split_seq(b, 10u8)[k], key),
    ensures
        ({
            let line = split_seq(b, 10u8)[i];
            let rest = line.subrange(key.len() as int, line.len() as int);
            status_number(b, key) == if valid_utf8(rest) && ws_tokens(decode_utf8(rest)).len() > 0 {
                parse_number(ws_tokens(decode_utf8(rest))[0], 10, u64_max())
            } else {
                None
            }
        }),
{
    lemma_first_with_prefix(split_seq(b, 10u8), key, i, i + 1);
    lemma_first_with_prefix_extends(split_seq(b, 10u8), key, i + 1);
}

/// No line before `i` has the key, and line `i` does: the first `j`
/// lines, for `j` past `i`, find line `i`; for `j` up to `i`, none.
proof fn lemma_first_with_prefix(lines: Seq<Seq<u8>>, key: Seq<u8>, i: int, j: int)
    requires
        0 <= i < lines.len(),
        0 <= j <= lines.len(),
        has_prefix(lines[i], key),
        forall|k: int| 0 <= k < i ==> !has_prefix(#[trigger] lines[k], key),
    ensures
        j <= i ==> first_with_prefix(lines.take(j), key) is None,
        j > i ==> first_with_prefix(lines.take(j), key) == Some(i),
    decreases j,
{
    if j > 0 {
        assert(lines.take(j).drop_last() =~= lines.take(j - 1));
        lemma_first_with_prefix(lines, key, i, j - 1);
    }
}

/// A line found among the first `j` is the one found among all.
proof fn lemma_first_with_prefix_extends(lines: Seq<Seq<u8>>, key: Seq<u8>, j: int)
    requires
        0 <= j <= lines.len(),
        first_with_prefix(lines.take(j), key) is Some,
    ensures
        first_with_prefix(lines, key) == first_with_prefix(lines.take(j), key),
    decreases lines.len() - j,
{
    if j < lines.len() {
        assert(lines.take(j + 1).drop_last() =~= lines.take(j));
        lemma_first_with_prefix_extends(lines, key, j + 1);
    } else {
        assert(lines.take(j) =~= lines);
    }
}

/// A `stat` line names the process between its first `(` and its last
/// `)`, so the name may hold spaces and parentheses; after `") "` the
/// state is the first character of the first field, the parent the second
/// field, the user and system ticks the twelfth and thirteenth and the
/// start time the twentieth (fields 3, 4, 14, 15 and 22 of the line).
pub proof fn lemma_stat_layout(b: Seq<u8>, open: int, close: int)
    requires
        0 <= open < close < b.len(),
        b[open] == 40u8,
        forall|k: int| 0 <= k < open ==> b[k] != 40u8,
        b[close] == 41u8,
        forall|k: int| close < k < b.len() ==> b[k] != 41u8,
    ensures
        stat_spec(b) matches Some(f) ==> {
            &&& f.name == lossy_utf8(b.subrange(open + 1, close))
            &&& close + 2 <= b.len()
            &&& valid_utf8(b.subrange(close + 2, b.len() as int))
            &&& {
                let t = ws_tokens(decode_utf8(b.subrange(close + 2, b.len() as int)));
                &&& t.len() >= 20
                &&& f.state == t[0][0]
                &&& parse_number(t[1], 10, u32_max()) == Some(f.ppid)
                &&& parse_number(t[11], 10, u64_max()) == Some(f.user_ticks)
                &&& parse_number(t[12], 10, u64_max()) == Some(f.system_ticks)
                &&& parse_number(t[19], 10, u64_max()) == Some(f.start_ticks)
            }
        },
{
    crate::text::lemma_first_position(b, 40u8, open);
    crate::text::lemma_last_position(b, 41u8, close);
}

/// The thread count, RSS and UID of a process record come from its
/// `status` file: the numbers after `Threads:`, `VmRSS:` and `Uid:` there
/// (a parse error when the number is missing or malformed, the read's own
/// status when the file could not be read); the read and write byte
/// counts come the same way from its `io` file.
pub proof fn lemma_status_numbers(p: ProcessView, pid: u32, collect_commands: bool, reads: ProcessReads)
    requires
        describes(p, pid, collect_commands, reads),
    ensures
        reads.status matches Field::Value(b) ==> match status_number(b@, key_bytes("Threads:"@)) {
            Some(n) => p.thread_count == Field::Value(n as u64),
            None => p.thread_count == Field::<u64>::ParseError,
        },
        reads.status matches Field::Value(b) ==> match status_number(b@, key_bytes("VmRSS:"@)) {
            Some(n) => p.rss_kib == Field::Value(n as u64),
            None => p.rss_kib == Field::<u64>::ParseError,
        },
        reads.status matches Field::Value(b) ==> match status_number(b@, key_bytes("Uid:"@)) {
            Some(n) => p.uid == Field::Value(n as u32),
            None => p.uid == Field::<u32>::ParseError,
        },
        !(reads.status is Value) ==> p.thread_count == field_of_status::<u64>(reads.status.kind())
            && p.rss_kib == field_of_status::<u64>(reads.status.kind()),
        reads.io matches Field::Value(b) ==> match status_number(b@, key_bytes("read_bytes:"@)) {
            Some(n) => p.read_bytes == Field::Value(n as u64),
            None => p.read_bytes == Field::<u64>::ParseError,
        },
        reads.io matches Field::Value(b) ==> match status_number(b@, key_bytes("write_bytes:"@)) {
            Some(n) => p.write_bytes == Field::Value(n as u64),
            None => p.write_bytes == Field::<u64>::ParseError,
        },
        !(reads.io is Value) ==> p.read_bytes == field_of_status::<u64>(reads.io.kind())
            && p.write_bytes == field_of_status::<u64>(reads.io.kind()),
{
}

/// Each figure of a process record depends on its own file alone: two
/// records made from reads with the same `status` agree on thread count,
/// RSS and UID whatever the other files hold, and two made from reads with
/// the same `io` agree on the byte counts.
pub proof fn lemma_figures_follow_their_file(
    p: ProcessView,
    q: ProcessView,
    pid: u32,
    pid2: u32,
    cc: bool,
    cc2: bool,
    reads: ProcessReads,
    reads2: ProcessReads,
)
    requires
        describes(p, pid, cc, reads),
        describes(q, pid2, cc2, reads2),
    ensures
        reads.status == reads2.status ==> p.thread_count == q.thread_count && p.rss_kib
            == q.rss_kib && p.uid == q.uid,
        reads.io == reads2.io ==> p.read_bytes == q.read_bytes && p.write_bytes == q.write_bytes,
        reads.stat == reads2.stat ==> p.name == q.name && p.ppid == q.ppid && p.state == q.state
            && p.start_ticks == q.start_ticks,
{
}

/// A field carried over from `stat` when it could not be parsed.
fn stat_failure<A>(stat: &Field<Vec<u8>>) -> (r: Field<A>)
    ensures
        r == field_of_status::<A>(stat.kind()),
{
    map_failure(stat)
}

/// Builds the record of process `pid` from what was read of its `/proc`
/// directory.
pub fn read_process(pid: u32, collect_commands: bool, reads: ProcessReads) -> (r: Process)
    ensures
        describes(r@, pid, collect_commands, reads),
{
    proof {
        reveal_strlit("Uid:");
        reveal_strlit("VmRSS:");
        reveal_strlit("Threads:");
        reveal_strlit("read_bytes:");
        reveal_strlit("write_bytes:");
    }
    let ghost reads0 = reads;
    let ProcessReads { stat, cmdline, executable, status, io, cgroup, tasks, namespaces } = reads;
    let parsed = match &stat {
        Field::Value(bytes) => parse_stat(bytes.as_slice()),
        _ => None,
    };
    let (name, state, ppid, start_ticks, cpu_user_ticks, cpu_system_ticks) = match parsed {
        Some(st) => (
            Field::Value(st.name),
            Field::Value(st.state),
            Field::Value(st.ppid),
            Field::Value(st.start_ticks),
            Field::Value(st.user_ticks),
            Field::Value(st.system_ticks),
        ),
        None => (
            stat_failure(&stat),
            stat_failure(&stat),
            stat_failure(&stat),
            stat_failure(&stat),
            stat_failure(&stat),
            stat_failure(&stat),
        ),
    };
    let command = if collect_commands {
        match &cmdline {
            Field::Value(bytes) => Field::Value(parse_cmdline(bytes.as_slice())),
            other => map_failure(other),
        }
    } else {
        Field::NotCollected
    };
    let uid_key = ascii_key("Uid:");
    let rss_key = ascii_key("VmRSS:");
    let threads_key = ascii_key("Threads:");
    let read_key = ascii_key("read_bytes:");
    let write_key = ascii_key("write_bytes:");
    let uid = match parsed_number(&status, uid_key.as_slice()) {
        Field::Value(v) => Field::Value(v as u32),
        other => map_failure(&other),
    };
    let rss_kib = parsed_number(&status, rss_key.as_slice());
    let thread_count = parsed_number(&status, threads_key.as_slice());
    let read_bytes = parsed_number(&io, read_key.as_slice());
    let write_bytes = parsed_number(&io, write_key.as_slice());
    let cgroup_path: Field<String> = match &cgroup {
        Field::Value(bytes) => Field::Value(parse_cgroup(bytes.as_slice())),
        other => map_failure(other),
    };
    let systemd_unit: Field<String> = match &cgroup_path {
        Field::Value(path) => match find_systemd_unit(path.as_str()) {
            Some(unit) => Field::Value(unit),
            None => Field::Unsupported,
        },
        other => map_failure(other),
    };
    let threads = read_threads(tasks);
    let namespaces = read_namespaces(namespaces);
    let r = Process {
        pid,
        ppid,
        uid,
        state,
        name,
        command,
        executable,
        start_ticks,
        cpu_user_ticks,
        cpu_system_ticks,
        rss_kib,
        read_bytes,
        write_bytes,
        thread_count,
        cgroup: cgroup_path,
        systemd_unit,
        threads,
        namespaces,
    };
    proof {
        assert(reads0.stat == stat);
        assert(r@.threads == threads_field(r.threads));
    }
    r
}

// ---------------------------------------------------------------------------
// Snapshots
// ---------------------------------------------------------------------------

/// One enumeration of every visible process, with system context.
pub struct Snapshot {
    pub observer_pid: u32,
    pub started_unix_ms: u128,
    pub duration_micros: u128,
    pub enumeration_errors: usize,
    pub processes: Vec<Process>,
    pub system_cpu_ticks: Option<u64>,
    pub cpu_count: usize,
    pub memory: Memory,
}

/// The CPU total and count that a possibly unread `/proc/stat` gives.
pub open spec fn system_cpu_of(stat: Field<Vec<u8>>) -> (Option<u64>, nat) {
    match stat {
        Field::Value(b) => {
            let (total, count) = cpu_scan(split_seq(b@, 10u8));
            (
                match total {
                    Some(v) => Some(v as u64),
                    None => None,
                },
                count,
            )
        },
        _ => (None, 0),
    }
}

/// Whether `m` is what a possibly unread `/proc/meminfo` gives.
pub open spec fn memory_of(m: Memory, meminfo: Field<Vec<u8>>) -> bool {
    match meminfo {
        Field::Value(b) => {
            &&& m.total_kib == status_u64(b@, key_bytes("MemTotal:"@))
            &&& m.available_kib == status_u64(b@, key_bytes("MemAvailable:"@))
            &&& m.swap_total_kib == status_u64(b@, key_bytes("SwapTotal:"@))
            &&& m.swap_free_kib == status_u64(b@, key_bytes("SwapFree:"@))
        },
        _ => m.total_kib is None && m.available_kib is None && m.swap_total_kib is None
            && m.swap_free_kib is None,
    }
}

/// A snapshot assembled from the processes read (as `assemble_snapshot`
/// promises of its processes) lists every one of them, no other, by
/// ascending PID.
pub proof fn lemma_snapshot_processes(listed: Seq<Process>, read: Seq<Process>, k: int)
    requires
        views_of(listed).to_multiset() == views_of(read).to_multiset(),
        sorted_by_key::<Process>(views_of(listed)),
        0 <= k < read.len(),
    ensures
        listed.len() == read.len(),
        forall|i: int, j: int| 0 <= i < j < listed.len() ==> listed[i]@.pid <= listed[j]@.pid,
        exists|j: int| 0 <= j < listed.len() && listed[j]@ == read[k]@,
{
    broadcast use vstd::seq_lib::group_to_multiset_ensures;

    assert(views_of(listed).to_multiset().len() == views_of(listed).len());
    assert(views_of(read).to_multiset().len() == views_of(read).len());
    assert forall|i: int, j: int| 0 <= i < j < listed.len() implies listed[i]@.pid <= listed[j]@.pid by {
        assert(Process::key_of(views_of(listed)[i]) <= Process::key_of(views_of(listed)[j]));
    }
    assert(views_of(read)[k] == read[k]@);
    assert(views_of(read).contains(read[k]@));
    assert(views_of(listed).to_multiset().count(read[k]@) > 0);
    assert(views_of(listed).contains(read[k]@));
    let j = choose|j: int| 0 <= j < views_of(listed).len() && views_of(listed)[j] == read[k]@;
    assert(listed[j]@ == read[k]@);
}

/// Builds a snapshot from the processes read during one enumeration and the
/// system files read after it: the processes ordered by PID, the CPU total
/// and count from `/proc/stat`, and the memory figures from `/proc/meminfo`.
pub fn assemble_snapshot(
    observer_pid: u32,
    started_unix_ms: u128,
    duration_micros: u128,
    enumeration_errors: usize,
    processes: Vec<Process>,
    system_stat: &Field<Vec<u8>>,
    meminfo: &Field<Vec<u8>>,
) -> (r: Snapshot)
    ensures
        r.observer_pid == observer_pid,
        r.started_unix_ms == started_unix_ms,
        r.duration_micros == duration_micros,
        r.enumeration_errors == enumeration_errors,
        views_of(r.processes@).to_multiset() == views_of(processes@).to_multiset(),
        sorted_by_key::<Process>(views_of(r.processes@)),
        r.system_cpu_ticks == system_cpu_of(*system_stat).0,
        r.cpu_count as nat == system_cpu_of(*system_stat).1,
        memory_of(r.memory, *meminfo),
{
    let processes = sort_by_key(processes);
    let (system_cpu_ticks, cpu_count) = match system_stat {
        Field::Value(bytes) => parse_system_cpu(bytes.as_slice()),
        _ => (None, 0),
    };
    let memory = match meminfo {
        Field::Value(bytes) => parse_memory(bytes.as_slice()),
        _ => Memory { total_kib: None, available_kib: None, swap_total_kib: None, swap_free_kib: None },
    };
    Snapshot {
        observer_pid,
        started_unix_ms,
        duration_micros,
        enumeration_errors,
        processes,
        system_cpu_ticks,
        cpu_count,
        memory,
    }
}

} // verus!
