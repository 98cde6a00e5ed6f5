//! The quick check: decoding kernel socket addresses for display, and the
//! order in which processes and listening ports are reported.
use vstd::prelude::*;
use vstd::utf8::{encode_utf8, is_char_boundary};
use crate::text::{
    chars_of, decimal, has_suffix, parse_number, parse_unsigned, position_of, push_char,
    push_decimal, push_str,
};
use vstd::string::{StringExecFns, StrSliceExecFns};
use crate::activity::{SocketRecord, SocketView, views_of_sockets};
use crate::field::Field;
use crate::order::{entries_sorted, order_entries};
use crate::procfs::{Process, Snapshot, text_field};
use crate::tui::{pad_right, push_pad_right, sanitize, sanitize_spec};
use crate::text::{join, join_strings, string_views};
use crate::text::{chars_equal, has_prefix, nested_view, to_lowercase, unicode_lowercase};

verus! {

broadcast use vstd::string::group_string_axioms;

// ---------------------------------------------------------------------------
// Hexadecimal bytes
// ---------------------------------------------------------------------------

/// The byte two hexadecimal digits stand for, when both bytes are ASCII.
pub open spec fn hex_pair(b0: u8, b1: u8) -> Option<u8> {
    if b0 < 128 && b1 < 128 {
        match parse_number(seq![b0 as char, b1 as char], 16, 255) {
            Some(v) => Some(v as u8),
            None => None,
        }
    } else {
        None
    }
}

/// The bytes an even-length run of hexadecimal pairs stands for.
pub open spec fn hex_decode_even(hb: Seq<u8>) -> Option<Seq<u8>>
    decreases hb.len(),
{
    if hb.len() < 2 {
        Some(Seq::empty())
    } else {
        match (hex_decode_even(hb.subrange(0, hb.len() - 2)), hex_pair(hb[hb.len() - 2], hb[hb.len() - 1])) {
            (Some(v), Some(x)) => Some(v.push(x)),
            _ => None,
        }
    }
}

/// The bytes a hexadecimal text stands for: none when its length is odd
/// or a pair is not two hexadecimal digits.
pub open spec fn hex_decode(hb: Seq<u8>) -> Option<Seq<u8>> {
    if hb.len() % 2 == 1 {
        None
    } else {
        hex_decode_even(hb)
    }
}

/// Whether slicing the text into two-byte pairs, stopping at the first pair
/// that is not hexadecimal, stays on character boundaries.
pub open spec fn hex_slicing_from(hb: Seq<u8>, i: int) -> bool
    decreases hb.len() - i,
{
    if i < 0 || i + 2 > hb.len() {
        true
    } else {
        &&& is_char_boundary(hb, i)
        &&& is_char_boundary(hb, i + 2)
        &&& (hex_pair(hb[i], hb[i + 1]) is None || hex_slicing_from(hb, i + 2))
    }
}

/// Whether decoding a hexadecimal text is defined (slicing a pair out of
/// the middle of a multi-byte character would panic).
pub open spec fn hex_defined(hex: Seq<char>) -> bool {
    let hb = encode_utf8(hex);
    hb.len() % 2 == 1 || hex_slicing_from(hb, 0)
}

/// Decodes two-digit hexadecimal pairs into bytes.
pub fn hex_bytes(hex: &str) -> (r: Option<Vec<u8>>)
    requires
        hex_defined(hex@),
    ensures
        match hex_decode(encode_utf8(hex@)) {
            Some(v) => r matches Some(x) && x@ == v,
            None => r is None,
        },
{
    let hb = hex.as_bytes();
    let n = hb.len();
    if n % 2 != 0 {
        return None;
    }
    let mut out: Vec<u8> = Vec::new();
    let mut i: usize = 0;
    while i < n
        invariant
            n == hb@.len(),
            hb@ == encode_utf8(hex@),
            n % 2 == 0,
            i % 2 == 0,
            0 <= i <= n,
            hex_decode_even(hb@.subrange(0, i as int)) == Some(out@),
        decreases n - i,
    {
        let b0 = hb[i];
        let b1 = hb[i + 1];
        proof {
            let t = hb@.subrange(0, i + 2);
            assert(t.subrange(0, t.len() - 2) =~= hb@.subrange(0, i as int));
            assert(t[t.len() - 2] == b0);
            assert(t[t.len() - 1] == b1);
        }
        let pair = if b0 < 128 && b1 < 128 {
            let digits: Vec<char> = vec![b0 as char, b1 as char];
            proof {
                assert(digits@ =~= seq![b0 as char, b1 as char]);
            }
            match parse_unsigned(digits.as_slice(), 16, 255) {
                Some(v) => Some(v as u8),
                None => None,
            }
        } else {
            None
        };
        match pair {
            Some(x) => {
                proof {
                    assert(hex_pair(b0, b1) == Some(x));
                }
                out.push(x);
            },
            None => {
                proof {
                    let t = hb@.subrange(0, i + 2);
                    assert(hex_pair(b0, b1) is None);
                    assert(hex_decode_even(t) is None);
                    lemma_hex_failure_sticks(hb@, i as int + 2);
                }
                return None;
            },
        }
        i = i + 2;
    }
    proof {
        assert(hb@.subrange(0, n as int) =~= hb@);
    }
    Some(out)
}

pub proof fn lemma_hex_failure_sticks(hb: Seq<u8>, k: int)
    requires
        0 <= k <= hb.len(),
        k % 2 == 0,
        hb.len() % 2 == 0,
        hex_decode_even(hb.subrange(0, k)) is None,
    ensures
        hex_decode_even(hb) is None,
    decreases hb.len() - k,
{
    if k < hb.len() {
        let t = hb.subrange(0, k + 2);
        assert(t.subrange(0, t.len() - 2) =~= hb.subrange(0, k));
        lemma_hex_failure_sticks(hb, k + 2);
    } else {
        assert(hb.subrange(0, k) =~= hb);
    }
}

// ---------------------------------------------------------------------------
// Address text
// ---------------------------------------------------------------------------

/// A lowercase hexadecimal digit.
pub open spec fn hex_digit_char(d: nat) -> char {
    if d < 10 {
        (d + 48) as char
    } else {
        (d + 87) as char
    }
}

/// The lowercase hexadecimal text of a number, without leading zeros.
pub open spec fn hex_text(n: nat) -> Seq<char>
    decreases n,
{
    if n < 16 {
        seq![hex_digit_char(n)]
    } else {
        hex_text(n / 16).push(hex_digit_char(n % 16))
    }
}

/// Dotted-decimal IPv4 text.
pub open spec fn v4_text(a: u8, b: u8, c: u8, d: u8) -> Seq<char> {
    decimal(a as nat) + "."@ + decimal(b as nat) + "."@ + decimal(c as nat) + "."@ + decimal(
        d as nat,
    )
}

/// The eight 16-bit groups of an IPv6 address in network byte order.
pub open spec fn segments(b: Seq<u8>) -> Seq<nat> {
    Seq::new(8, |i: int| (b[2 * i] as nat) * 256 + b[2 * i + 1] as nat)
}

/// Scans the groups for zero runs: the start and length of the first
/// longest run, and of the run in progress.
pub open spec fn zero_scan(s: Seq<nat>) -> (int, int, int, int)
    decreases s.len(),
{
    if s.len() == 0 {
        (0, 0, 0, 0)
    } else {
        let (ls, ll, cs, cl) = zero_scan(s.drop_last());
        let i = s.len() - 1;
        if s.last() == 0 {
            let ncs = if cl == 0 {
                i
            } else {
                cs
            };
            let ncl = cl + 1;
            if ncl > ll {
                (ncs, ncl, ncs, ncl)
            } else {
                (ls, ll, ncs, ncl)
            }
        } else {
            (ls, ll, 0, 0)
        }
    }
}

/// Groups in hexadecimal joined by colons.
pub open spec fn colon_groups(s: Seq<nat>) -> Seq<char>
    decreases s.len(),
{
    if s.len() == 0 {
        Seq::empty()
    } else if s.len() == 1 {
        hex_text(s[0])
    } else {
        colon_groups(s.drop_last()) + ":"@ + hex_text(s.last())
    }
}

/// Whether the address is an IPv4 address mapped into IPv6.
pub open spec fn is_v4_mapped(b: Seq<u8>) -> bool {
    (forall|i: int| 0 <= i < 10 ==> b[i] == 0) && b[10] == 0xff && b[11] == 0xff
}

/// The text of an IPv6 address as Rust writes it: IPv4-mapped addresses as
/// `::ffff:a.b.c.d`; otherwise lowercase groups, with the first longest run
/// of at least two zero groups written `::`.
pub open spec fn v6_text(b: Seq<u8>) -> Seq<char> {
    if is_v4_mapped(b) {
        "::ffff:"@ + v4_text(b[12], b[13], b[14], b[15])
    } else {
        let s = segments(b);
        let (st, ln, _, _) = zero_scan(s);
        if ln > 1 {
            colon_groups(s.subrange(0, st)) + "::"@ + colon_groups(s.subrange(st + ln, 8))
        } else {
            colon_groups(s)
        }
    }
}

/// Appends the lowercase hexadecimal text of `n`.
fn push_hex(out: &mut String, n: u16)
    ensures
        final(out)@ == old(out)@ + hex_text(n as nat),
    decreases n,
{
    if n >= 16 {
        push_hex(out, n / 16);
    }
    let d = (n % 16) as u8;
    let c = if d < 10 {
        (d + 48) as char
    } else {
        (d + 87) as char
    };
    proof {
        assert(c == hex_digit_char((n % 16) as nat));
    }
    push_char(out, c);
    proof {
        if n < 16 {
            assert(old(out)@.push(c) =~= old(out)@ + hex_text(n as nat));
        } else {
            assert(old(out)@ + hex_text(n as nat / 16) + seq![c] =~= old(out)@ + hex_text(n as nat));
        }
    }
}

/// Appends dotted-decimal IPv4 text.
fn push_v4(out: &mut String, a: u8, b: u8, c: u8, d: u8)
    ensures
        final(out)@ == old(out)@ + v4_text(a, b, c, d),
{
    proof {
        reveal_strlit(".");
    }
    push_decimal(out, a as u128);
    push_str(out, ".");
    push_decimal(out, b as u128);
    push_str(out, ".");
    push_decimal(out, c as u128);
    push_str(out, ".");
    push_decimal(out, d as u128);
    proof {
        assert(final(out)@ =~= old(out)@ + v4_text(a, b, c, d)) by {
            assert(old(out)@ + decimal(a as nat) + "."@ + decimal(b as nat) + "."@ + decimal(c as nat)
                + "."@ + decimal(d as nat) =~= old(out)@ + v4_text(a, b, c, d));
        }
    }
}

/// The groups as numbers.
pub open spec fn group_values(g: Seq<u16>) -> Seq<nat> {
    Seq::new(g.len(), |i: int| g[i] as nat)
}

/// Appends the groups `lo..hi` in hexadecimal joined by colons.
fn push_groups(out: &mut String, g: &Vec<u16>, lo: usize, hi: usize)
    requires
        lo <= hi <= g@.len(),
    ensures
        final(out)@ == old(out)@ + colon_groups(group_values(g@).subrange(lo as int, hi as int)),
{
    proof {
        reveal_strlit(":");
    }
    let ghost gv = group_values(g@);
    let mut k: usize = lo;
    proof {
        assert(gv.subrange(lo as int, lo as int) =~= Seq::<nat>::empty());
        assert(old(out)@ + Seq::<char>::empty() =~= old(out)@);
    }
    while k < hi
        invariant
            lo <= k <= hi <= g@.len(),
            gv == group_values(g@),
            out@ == old(out)@ + colon_groups(gv.subrange(lo as int, k as int)),
        decreases hi - k,
    {
        let ghost before = out@;
        if k > lo {
            push_str(out, ":");
        }
        push_hex(out, g[k]);
        k = k + 1;
        proof {
            let t = gv.subrange(lo as int, k as int);
            assert(t.drop_last() =~= gv.subrange(lo as int, k - 1));
            assert(t.last() == g@[k - 1] as nat);
            if k - 1 == lo {
                assert(colon_groups(gv.subrange(lo as int, k - 1)) =~= Seq::<char>::empty());
                assert(out@ =~= old(out)@ + colon_groups(t));
            } else {
                assert(out@ =~= old(out)@ + colon_groups(t));
            }
        }
    }
}

pub proof fn lemma_zero_scan_bounds(s: Seq<nat>)
    ensures
        ({
            let (ls, ll, cs, cl) = zero_scan(s);
            &&& 0 <= ls && 0 <= ll && ls + ll <= s.len()
            &&& 0 <= cs && 0 <= cl && cs + cl <= s.len()
            &&& cl <= ll
        }),
    decreases s.len(),
{
    if s.len() > 0 {
        lemma_zero_scan_bounds(s.drop_last());
    }
}

/// Appends the text of an IPv6 address.
fn push_v6(out: &mut String, b: &Vec<u8>)
    requires
        b@.len() == 16,
    ensures
        final(out)@ == old(out)@ + v6_text(b@),
{
    proof {
        reveal_strlit("::ffff:");
        reveal_strlit("::");
    }
    let mut mapped = b[10] == 0xff && b[11] == 0xff;
    let mut i: usize = 0;
    while i < 10
        invariant
            b@.len() == 16,
            0 <= i <= 10,
            mapped == (b@[10] == 0xff && b@[11] == 0xff && forall|k: int| 0 <= k < i ==> b@[k] == 0),
        decreases 10 - i,
    {
        if b[i] != 0 {
            mapped = false;
        }
        i = i + 1;
    }
    if mapped {
        push_str(out, "::ffff:");
        push_v4(out, b[12], b[13], b[14], b[15]);
        proof {
            assert(final(out)@ =~= old(out)@ + v6_text(b@));
        }
        return;
    }
    let mut g: Vec<u16> = Vec::new();
    let mut j: usize = 0;
    while j < 8
        invariant
            b@.len() == 16,
            0 <= j <= 8,
            g@.len() == j,
            forall|k: int| 0 <= k < j ==> g@[k] as nat == segments(b@)[k],
        decreases 8 - j,
    {
        let v = (b[2 * j] as u16) * 256 + (b[2 * j + 1] as u16);
        g.push(v);
        j = j + 1;
    }
    let ghost s = segments(b@);
    proof {
        assert(group_values(g@) =~= s);
    }
    let mut ls: usize = 0;
    let mut ll: usize = 0;
    let mut cs: usize = 0;
    let mut cl: usize = 0;
    let mut k: usize = 0;
    while k < 8
        invariant
            g@.len() == 8,
            group_values(g@) == s,
            0 <= k <= 8,
            (ls as int, ll as int, cs as int, cl as int) == zero_scan(s.take(k as int)),
        decreases 8 - k,
    {
        proof {
            assert(s.take(k + 1).drop_last() =~= s.take(k as int));
            assert(s.take(k + 1).last() == g@[k as int] as nat);
            lemma_zero_scan_bounds(s.take(k as int));
        }
        if g[k] == 0 {
            if cl == 0 {
                cs = k;
            }
            cl = cl + 1;
            if cl > ll {
                ls = cs;
                ll = cl;
            }
        } else {
            cs = 0;
            cl = 0;
        }
        k = k + 1;
    }
    proof {
        assert(s.take(8) =~= s);
        lemma_zero_scan_bounds(s);
    }
    if ll > 1 {
        push_groups(out, &g, 0, ls);
        push_str(out, "::");
        push_groups(out, &g, ls + ll, 8);
    } else {
        push_groups(out, &g, 0, 8);
        proof {
            assert(s.subrange(0, 8) =~= s);
        }
    }
}

// ---------------------------------------------------------------------------
// Local addresses
// ---------------------------------------------------------------------------

/// The parts before and after the first colon, if there is one.
pub open spec fn split_once_colon(s: Seq<char>) -> Option<(Seq<char>, Seq<char>)> {
    match position_of(s, ':') {
        Some(i) => Some((s.subrange(0, i), s.subrange(i + 1, s.len() as int))),
        None => None,
    }
}

/// The bytes of each 32-bit word reversed, as the kernel's IPv6 text needs.
pub open spec fn reorder_words(b: Seq<u8>) -> Seq<u8> {
    Seq::new(16, |k: int| b[(k / 4) * 4 + (3 - k % 4)])
}

/// The display text of a kernel `address:port` pair: IPv4 or bracketed
/// IPv6, a colon and the decimal port; the input unchanged when it cannot
/// be decoded.
pub open spec fn decode_local_spec(local: Seq<char>, protocol: Seq<char>) -> Seq<char> {
    match split_once_colon(local) {
        None => local,
        Some((a, p)) => match parse_number(p, 16, 0xffff) {
            None => local,
            Some(port) => match hex_decode(encode_utf8(a)) {
                None => local,
                Some(bytes) => if has_suffix(protocol, "6"@) {
                    if bytes.len() == 16 {
                        "["@ + v6_text(reorder_words(bytes)) + "]:"@ + decimal(port)
                    } else {
                        local
                    }
                } else {
                    if bytes.len() == 4 {
                        v4_text(bytes[3], bytes[2], bytes[1], bytes[0]) + ":"@ + decimal(port)
                    } else {
                        local
                    }
                },
            },
        },
    }
}

/// How the quick check shows a kernel `address:port` pair, for an address
/// of hexadecimal bytes and a hexadecimal port: for TCP and UDP over IPv4
/// the four bytes in reverse order (the kernel writes them little-endian)
/// as dotted decimal; over IPv6 (a protocol ending in `6`) the sixteen
/// bytes with each 32-bit word reversed, in brackets; then a colon and the
/// port in decimal. Text with no colon is shown as it is, and only the
/// address family of the protocol matters.
pub proof fn lemma_decode_local(a: Seq<char>, port_text: Seq<char>, protocol: Seq<char>)
    requires
        forall|k: int| 0 <= k < a.len() ==> a[k] != ':',
    ensures
        ({
            let local = a + seq![':'] + port_text;
            parse_number(port_text, 16, 0xffff) matches Some(port) ==> match hex_decode(
                encode_utf8(a),
            ) {
                Some(x) => {
                    &&& (!has_suffix(protocol, "6"@) && x.len() == 4 ==> decode_local_spec(
                        local,
                        protocol,
                    ) == v4_text(x[3], x[2], x[1], x[0]) + ":"@ + decimal(port))
                    &&& (has_suffix(protocol, "6"@) && x.len() == 16 ==> decode_local_spec(
                        local,
                        protocol,
                    ) == "["@ + v6_text(reorder_words(x)) + "]:"@ + decimal(port))
                },
                None => decode_local_spec(local, protocol) == local,
            }
        }),
        parse_number(port_text, 16, 0xffff) is None ==> decode_local_spec(
            a + seq![':'] + port_text,
            protocol,
        ) == a + seq![':'] + port_text,
        decode_local_spec(a, protocol) == a,
        decode_local_spec(a + seq![':'] + port_text, "tcp"@) == decode_local_spec(
            a + seq![':'] + port_text,
            "udp"@,
        ),
        decode_local_spec(a + seq![':'] + port_text, "tcp6"@) == decode_local_spec(
            a + seq![':'] + port_text,
            "udp6"@,
        ),
{
    let local = a + seq![':'] + port_text;
    assert(local[a.len() as int] == ':');
    assert forall|k: int| 0 <= k < a.len() implies local[k] != ':' by {
        assert(local[k] == a[k]);
    }
    crate::text::lemma_first_position(local, ':', a.len() as int);
    assert(local.subrange(0, a.len() as int) =~= a);
    assert(local.subrange(a.len() as int + 1, local.len() as int) =~= port_text);
    if position_of(a, ':') matches Some(i) {
        crate::text::lemma_position_bounds(a, ':');
    }
    reveal_strlit("tcp");
    reveal_strlit("tcp6");
    reveal_strlit("udp");
    reveal_strlit("udp6");
    reveal_strlit("6");
    assert("tcp"@.subrange(2, 3)[0] != "6"@[0]);
    assert("udp"@.subrange(2, 3)[0] != "6"@[0]);
    assert(!has_suffix("tcp"@, "6"@));
    assert(!has_suffix("udp"@, "6"@));
    assert("tcp6"@.subrange(3, 4) =~= "6"@);
    assert("udp6"@.subrange(3, 4) =~= "6"@);
}

/// Whether decoding an address is defined: the original slicing panics
/// when a hexadecimal pair would split a multi-byte character.
pub open spec fn decode_defined_spec(local: Seq<char>) -> bool {
    match split_once_colon(local) {
        None => true,
        Some((a, p)) => parse_number(p, 16, 0xffff) is Some ==> hex_defined(a),
    }
}

/// The parts of a text before and after its first colon.
fn split_colon(s: &str) -> (r: Option<(String, String)>)
    ensures
        match split_once_colon(s@) {
            Some((a, p)) => r matches Some((x, y)) && x@ == a && y@ == p,
            None => r is None,
        },
{
    let chars = chars_of(s);
    let mut i: usize = 0;
    proof {
        crate::text::lemma_position_bounds(s@, ':');
    }
    while i < chars.len()
        invariant
            chars@ == s@,
            0 <= i <= chars.len(),
            position_of(s@.take(i as int), ':') is None,
        decreases chars.len() - i,
    {
        proof {
            assert(s@.take(i + 1).drop_last() =~= s@.take(i as int));
        }
        if chars[i] == ':' {
            proof {
                crate::text::lemma_position_prefix(s@, ':', i + 1);
            }
            let a = crate::text::string_of(&chars.as_slice()[0..i]);
            let p = crate::text::string_of(&chars.as_slice()[i + 1..chars.len()]);
            return Some((a, p));
        }
        i = i + 1;
    }
    proof {
        assert(s@.take(s@.len() as int) =~= s@);
    }
    None
}

/// Whether an address decodes without the slicing that would panic.
pub fn decode_defined(local: &str) -> (r: bool)
    ensures
        r == decode_defined_spec(local@),
{
    let (a, p) = match split_colon(local) {
        Some(parts) => parts,
        None => return true,
    };
    let pc = chars_of(p.as_str());
    if parse_unsigned(pc.as_slice(), 16, 0xffff).is_none() {
        return true;
    }
    let a_str = a.as_str();
    let hb = a_str.as_bytes();
    let n = hb.len();
    if n % 2 == 1 {
        return true;
    }
    let mut i: usize = 0;
    proof {
        assert(decode_defined_spec(local@) == hex_defined(a@));
    }
    while i < n
        invariant
            decode_defined_spec(local@) == hex_slicing_from(hb@, 0),
            hb@ == encode_utf8(a@),
            n == hb@.len(),
            n % 2 == 0,
            i % 2 == 0,
            0 <= i <= n,
            a_str@ == a@,
            hex_slicing_from(hb@, 0) == hex_slicing_from(hb@, i as int),
        decreases n - i,
    {
        let start_ok = a_str.is_char_boundary(i);
        let end_ok = a_str.is_char_boundary(i + 2);
        if !start_ok || !end_ok {
            return false;
        }
        let b0 = hb[i];
        let b1 = hb[i + 1];
        let ok = if b0 < 128 && b1 < 128 {
            let digits: Vec<char> = vec![b0 as char, b1 as char];
            proof {
                assert(digits@ =~= seq![b0 as char, b1 as char]);
            }
            parse_unsigned(digits.as_slice(), 16, 255).is_some()
        } else {
            false
        };
        if !ok {
            return true;
        }
        i = i + 2;
    }
    true
}

/// The IPv4 address (in display order) that eight hexadecimal digits hold.
pub fn decode_v4(hex: &str) -> (r: Option<(u8, u8, u8, u8)>)
    requires
        hex_defined(hex@),
    ensures
        match hex_decode(encode_utf8(hex@)) {
            Some(b) => if b.len() == 4 {
                r == Some((b[3], b[2], b[1], b[0]))
            } else {
                r is None
            },
            None => r is None,
        },
{
    let bytes = hex_bytes(hex)?;
    if bytes.len() != 4 {
        return None;
    }
    Some((bytes[3], bytes[2], bytes[1], bytes[0]))
}

/// The IPv6 address bytes (in network order) that 32 hexadecimal digits
/// hold, each 32-bit word having been written in host order.
pub fn decode_v6(hex: &str) -> (r: Option<Vec<u8>>)
    requires
        hex_defined(hex@),
    ensures
        match hex_decode(encode_utf8(hex@)) {
            Some(b) => if b.len() == 16 {
                r matches Some(x) && x@ == reorder_words(b)
            } else {
                r is None
            },
            None => r is None,
        },
{
    let bytes = hex_bytes(hex)?;
    if bytes.len() != 16 {
        return None;
    }
    let mut reordered: Vec<u8> = Vec::new();
    let mut k: usize = 0;
    while k < 16
        invariant
            bytes@.len() == 16,
            0 <= k <= 16,
            reordered@ == reorder_words(bytes@).take(k as int),
        decreases 16 - k,
    {
        reordered.push(bytes[(k / 4) * 4 + (3 - k % 4)]);
        k = k + 1;
        proof {
            assert(reordered@ =~= reorder_words(bytes@).take(k as int));
        }
    }
    proof {
        assert(reorder_words(bytes@).take(16) =~= reorder_words(bytes@));
    }
    Some(reordered)
}

/// Renders a kernel `address:port` socket address for display.
pub fn decode_local(local: &str, protocol: &str) -> (r: String)
    requires
        decode_defined_spec(local@),
    ensures
        r@ == decode_local_spec(local@, protocol@),
{
    proof {
        reveal_strlit("6");
        reveal_strlit("[");
        reveal_strlit("]:");
        reveal_strlit(":");
    }
    let (addr_hex, port_hex) = match split_colon(local) {
        Some(parts) => parts,
        None => return String::from_str(local),
    };
    let pc = chars_of(port_hex.as_str());
    let port = match parse_unsigned(pc.as_slice(), 16, 0xffff) {
        Some(p) => p,
        None => return String::from_str(local),
    };
    let proto = chars_of(protocol);
    let six = chars_of("6");
    if crate::text::chars_end_with(proto.as_slice(), six.as_slice()) {
        match decode_v6(addr_hex.as_str()) {
            Some(ip) => {
                let mut out = String::from_str("[");
                push_v6(&mut out, &ip);
                push_str(&mut out, "]:");
                push_decimal(&mut out, port as u128);
                proof {
                    assert(out@ =~= decode_local_spec(local@, protocol@));
                }
                out
            },
            None => String::from_str(local),
        }
    } else {
        match decode_v4(addr_hex.as_str()) {
            Some((a, b, c, d)) => {
                let mut out = String::new();
                push_v4(&mut out, a, b, c, d);
                push_str(&mut out, ":");
                push_decimal(&mut out, port as u128);
                proof {
                    assert(out@ =~= decode_local_spec(local@, protocol@));
                }
                out
            },
            None => String::from_str(local),
        }
    }
}

// ---------------------------------------------------------------------------
// Report order
// ---------------------------------------------------------------------------

/// The name a process is listed under: its name, or `?`.
pub open spec fn listed_name_spec(p: Process) -> Seq<char> {
    match text_field(p.name) {
        Field::Value(n) => n,
        _ => "?"@,
    }
}

/// The name a process is listed under.
pub fn listed_name(p: &Process) -> (r: String)
    ensures
        r@ == listed_name_spec(*p),
{
    match &p.name {
        Field::Value(n) => n.clone(),
        _ => String::from_str("?"),
    }
}

/// The sort text of each process: its listed name in lowercase, as bytes.
pub open spec fn name_keys(ps: Seq<Process>) -> Seq<Seq<u8>> {
    Seq::new(ps.len(), |i: int| encode_utf8(unicode_lowercase(listed_name_spec(ps[i]))))
}

/// The PID of each process.
pub open spec fn pids_of(ps: Seq<Process>) -> Seq<u64> {
    Seq::new(ps.len(), |i: int| ps[i].pid as u64)
}

/// The positions `0..n`.
pub open spec fn positions(n: nat) -> Seq<usize> {
    Seq::new(n, |i: int| i as usize)
}

/// The positions `0..n`.
fn all_positions(n: usize) -> (r: Vec<usize>)
    ensures
        r@ == positions(n as nat),
{
    let mut v: Vec<usize> = Vec::new();
    let mut i: usize = 0;
    while i < n
        invariant
            0 <= i <= n,
            v@ == positions(i as nat),
        decreases n - i,
    {
        v.push(i);
        i = i + 1;
        proof {
            assert(v@ =~= positions(i as nat));
        }
    }
    v
}

/// The order in which the quick check lists processes: by lowercase name,
/// then by PID, each process once.
pub fn report_order(snapshot: &Snapshot) -> (r: Vec<usize>)
    ensures
        r@.to_multiset() == positions(snapshot.processes@.len()).to_multiset(),
        entries_sorted(name_keys(snapshot.processes@), pids_of(snapshot.processes@), false, r@),
{
    let ps = &snapshot.processes;
    let mut texts: Vec<Vec<u8>> = Vec::new();
    let mut numbers: Vec<u64> = Vec::new();
    let mut i: usize = 0;
    while i < ps.len()
        invariant
            0 <= i <= ps.len(),
            nested_view(texts@) == name_keys(ps@).take(i as int),
            numbers@ == pids_of(ps@).take(i as int),
        decreases ps.len() - i,
    {
        let name = listed_name(&ps[i]);
        let lower = to_lowercase(name.as_str());
        let bytes = lower.as_str().as_bytes_vec();
        proof {
            assert(bytes@ == encode_utf8(unicode_lowercase(listed_name_spec(ps@[i as int]))));
        }
        let ghost before = nested_view(texts@);
        texts.push(bytes);
        numbers.push(ps[i].pid as u64);
        proof {
            assert(nested_view(texts@) =~= before.push(name_keys(ps@)[i as int]));
        }
        i = i + 1;
        proof {
            assert(nested_view(texts@) =~= name_keys(ps@).take(i as int));
            assert(numbers@ =~= pids_of(ps@).take(i as int));
        }
    }
    proof {
        assert(name_keys(ps@).take(ps@.len() as int) =~= name_keys(ps@));
        assert(pids_of(ps@).take(ps@.len() as int) =~= pids_of(ps@));
    }
    let idx = all_positions(ps.len());
    order_entries(&texts, &numbers, false, idx)
}

/// Whether the quick check reports a socket as a listening port: a TCP
/// socket in the listening state (`0A`), or any UDP socket.
pub open spec fn is_listening(s: SocketView) -> bool {
    &&& (s.protocol == "tcp"@ || s.protocol == "tcp6"@ || s.protocol == "udp"@ || s.protocol
        == "udp6"@)
    &&& (has_prefix(s.protocol, "udp"@) || s.state == "0A"@)
}

/// The positions of the listening sockets, in inventory order.
pub open spec fn listening_positions(s: Seq<SocketView>) -> Seq<usize>
    decreases s.len(),
{
    if s.len() == 0 {
        Seq::empty()
    } else {
        let r = listening_positions(s.drop_last());
        if is_listening(s.last()) {
            r.push((s.len() - 1) as usize)
        } else {
            r
        }
    }
}

pub proof fn lemma_listening_positions_bounded(s: Seq<SocketView>)
    requires
        s.len() <= usize::MAX,
    ensures
        forall|a: int| 0 <= a < listening_positions(s).len() ==> listening_positions(s)[a] < s.len(),
        forall|a: int, b: int|
            0 <= a < b < listening_positions(s).len() ==> listening_positions(s)[a]
                < listening_positions(s)[b],
    decreases s.len(),
{
    if s.len() > 0 {
        let p = listening_positions(s.drop_last());
        lemma_listening_positions_bounded(s.drop_last());
        let r = listening_positions(s);
        if is_listening(s.last()) {
            assert(r == p.push((s.len() - 1) as usize));
            assert forall|a: int, b: int| 0 <= a < b < r.len() implies r[a] < r[b] by {
                if b == r.len() - 1 {
                    assert(r[a] == p[a]);
                }
            }
        }
    }
}

/// The quick check reports a socket as a listening port exactly when it
/// is a TCP socket (IPv4 or IPv6) in the listening state `0A`, or a UDP
/// socket (IPv4 or IPv6); any order of the listening sockets, such as the
/// one `listening_order` gives, holds its position then and only then.
pub proof fn lemma_listening_ports(s: Seq<SocketView>, i: int, order: Seq<usize>)
    requires
        0 <= i < s.len(),
        s.len() <= usize::MAX,
        order.to_multiset() == listening_positions(s).to_multiset(),
    ensures
        order.contains(i as usize) <==> (((s[i].protocol == "tcp"@ || s[i].protocol == "tcp6"@)
            && s[i].state == "0A"@) || s[i].protocol == "udp"@ || s[i].protocol == "udp6"@),
{
    lemma_listening_positions_has(s, i);
    assert(order.contains(i as usize) <==> order.to_multiset().count(i as usize) > 0) by {
        order.to_multiset_ensures();
    }
    assert(listening_positions(s).contains(i as usize) <==> listening_positions(s).to_multiset().count(i as usize) > 0) by {
        listening_positions(s).to_multiset_ensures();
    }
    reveal_strlit("tcp");
    reveal_strlit("tcp6");
    reveal_strlit("udp");
    reveal_strlit("udp6");
    let p = s[i].protocol;
    if p == "udp6"@ {
        assert(p.subrange(0, 3) =~= "udp"@);
    }
    if p == "udp"@ {
        assert(p.subrange(0, 3) =~= "udp"@);
    }
    if p == "tcp"@ || p == "tcp6"@ {
        assert(p[0] != "udp"@[0]);
        assert(!has_prefix(p, "udp"@));
    }
}

/// Position `i` is among the listening positions exactly when socket `i`
/// is reported as listening.
proof fn lemma_listening_positions_has(s: Seq<SocketView>, i: int)
    requires
        0 <= i < s.len(),
        s.len() <= usize::MAX,
    ensures
        listening_positions(s).contains(i as usize) <==> is_listening(s[i]),
    decreases s.len(),
{
    lemma_listening_positions_bounded(s.drop_last());
    let r = listening_positions(s.drop_last());
    if i < s.len() - 1 {
        lemma_listening_positions_has(s.drop_last(), i);
        assert(s.drop_last()[i] == s[i]);
        if is_listening(s.last()) {
            let q = r.push((s.len() - 1) as usize);
            if q.contains(i as usize) {
                let k = choose|k: int| 0 <= k < q.len() && q[k] == i as usize;
                if k < r.len() {
                    assert(r[k] == i as usize);
                }
            }
            if r.contains(i as usize) {
                let k = choose|k: int| 0 <= k < r.len() && r[k] == i as usize;
                assert(q[k] == i as usize);
            }
        }
    } else {
        if is_listening(s.last()) {
            let q = r.push((s.len() - 1) as usize);
            assert(q[q.len() - 1] == i as usize);
        } else {
            if r.contains(i as usize) {
                let k = choose|k: int| 0 <= k < r.len() && r[k] == i as usize;
                assert(r[k] < s.len() - 1);
            }
        }
    }
}

/// The local address of each socket, as bytes.
pub open spec fn local_keys(s: Seq<SocketView>) -> Seq<Seq<u8>> {
    Seq::new(s.len(), |i: int| encode_utf8(s[i].local))
}

/// Whether a socket is reported as a listening port.
fn listening(s: &SocketRecord) -> (r: bool)
    ensures
        r == is_listening(s@),
{
    proof {
        reveal_strlit("tcp");
        reveal_strlit("tcp6");
        reveal_strlit("udp");
        reveal_strlit("udp6");
        reveal_strlit("0A");
    }
    let proto = chars_of(s.protocol);
    let p = proto.as_slice();
    let known = chars_equal(p, chars_of("tcp").as_slice()) || chars_equal(p, chars_of("tcp6").as_slice())
        || chars_equal(p, chars_of("udp").as_slice()) || chars_equal(p, chars_of("udp6").as_slice());
    if !known {
        return false;
    }
    let udp = crate::text::chars_start_with(p, chars_of("udp").as_slice());
    let state = chars_of(s.state.as_str());
    udp || chars_equal(state.as_slice(), chars_of("0A").as_slice())
}

/// The order in which the quick check lists listening ports: the listening
/// sockets by local address text, equal addresses in inventory order.
pub fn listening_order(sockets: &Vec<SocketRecord>) -> (r: Vec<usize>)
    ensures
        r@.to_multiset() == listening_positions(views_of_sockets(sockets@)).to_multiset(),
        entries_sorted(
            local_keys(views_of_sockets(sockets@)),
            Seq::new(sockets@.len(), |i: int| 0u64),
            false,
            r@,
        ),
{
    let ghost sv = views_of_sockets(sockets@);
    let mut idx: Vec<usize> = Vec::new();
    let mut texts: Vec<Vec<u8>> = Vec::new();
    let mut numbers: Vec<u64> = Vec::new();
    let mut i: usize = 0;
    while i < sockets.len()
        invariant
            0 <= i <= sockets.len(),
            sv == views_of_sockets(sockets@),
            idx@ == listening_positions(sv.take(i as int)),
            nested_view(texts@) == local_keys(sv).take(i as int),
            numbers@ == Seq::new(i as nat, |k: int| 0u64),
        decreases sockets.len() - i,
    {
        proof {
            assert(sv.take(i + 1).drop_last() =~= sv.take(i as int));
            assert(sv.take(i + 1).last() == sockets@[i as int]@);
        }
        if listening(&sockets[i]) {
            idx.push(i);
        }
        let bytes = sockets[i].local.as_str().as_bytes_vec();
        proof {
            assert(bytes@ == encode_utf8(sv[i as int].local));
        }
        let ghost before = nested_view(texts@);
        texts.push(bytes);
        numbers.push(0);
        proof {
            assert(nested_view(texts@) =~= before.push(local_keys(sv)[i as int]));
        }
        i = i + 1;
        proof {
            assert(nested_view(texts@) =~= local_keys(sv).take(i as int));
            assert(numbers@ =~= Seq::new(i as nat, |k: int| 0u64));
        }
    }
    proof {
        assert(sv.take(sockets@.len() as int) =~= sv);
        assert(local_keys(sv).take(sockets@.len() as int) =~= local_keys(sv));
        lemma_listening_positions_bounded(sv);
    }
    order_entries(&texts, &numbers, false, idx)
}

/// The name shown for a PID: that of the last process with the PID.
pub open spec fn pid_name_spec(ps: Seq<Process>, pid: u32) -> Seq<char>
    decreases ps.len(),
{
    if ps.len() == 0 {
        "?"@
    } else if ps.last().pid == pid {
        listed_name_spec(ps.last())
    } else {
        pid_name_spec(ps.drop_last(), pid)
    }
}

/// The owner of a socket is named after the process with its PID (the
/// last one listed, should the PID occur twice), and `?` when no listed
/// process has it.
pub proof fn lemma_owner_name(ps: Seq<Process>, pid: u32, k: int)
    ensures
        (forall|i: int| 0 <= i < ps.len() ==> ps[i].pid != pid) ==> pid_name_spec(ps, pid) == "?"@,
        (0 <= k < ps.len() && ps[k].pid == pid && forall|i: int| k < i < ps.len() ==> ps[i].pid
            != pid) ==> pid_name_spec(ps, pid) == listed_name_spec(ps[k]),
    decreases ps.len(),
{
    if ps.len() > 0 {
        lemma_owner_name(ps.drop_last(), pid, k);
        if forall|i: int| 0 <= i < ps.len() ==> ps[i].pid != pid {
            assert(ps.last().pid != pid);
            assert forall|i: int| 0 <= i < ps.drop_last().len() implies ps.drop_last()[i].pid != pid by {
                assert(ps.drop_last()[i] == ps[i]);
            }
        }
        if 0 <= k < ps.len() && ps[k].pid == pid && forall|i: int| k < i < ps.len() ==> ps[i].pid != pid {
            if k < ps.len() - 1 {
                assert(ps.last().pid != pid);
                assert(ps.drop_last()[k] == ps[k]);
                assert forall|i: int| k < i < ps.drop_last().len() implies ps.drop_last()[i].pid != pid by {
                    assert(ps.drop_last()[i] == ps[i]);
                }
            }
        }
    }
}

/// The name shown for the owner of a socket.
pub fn pid_name(snapshot: &Snapshot, pid: u32) -> (r: String)
    ensures
        r@ == pid_name_spec(snapshot.processes@, pid),
{
    let ps = &snapshot.processes;
    let mut i: usize = ps.len();
    proof {
        assert(ps@.take(ps@.len() as int) =~= ps@);
    }
    while i > 0
        invariant
            0 <= i <= ps.len(),
            ps@ == snapshot.processes@,
            pid_name_spec(ps@, pid) == pid_name_spec(ps@.take(i as int), pid),
        decreases i,
    {
        proof {
            assert(ps@.take(i as int).drop_last() =~= ps@.take(i - 1));
            assert(ps@.take(i as int).last() == ps@[i - 1]);
        }
        if ps[i - 1].pid == pid {
            let q = &ps[i - 1];
            let r = listed_name(q);
            proof {
                assert(*q == ps@[i - 1]);
                assert(r@ == listed_name_spec(ps@[i - 1]));
                assert(pid_name_spec(ps@.take(i as int), pid) == listed_name_spec(ps@[i - 1]));
                assert(r@ == pid_name_spec(snapshot.processes@, pid));
            }
            return r;
        }
        i = i - 1;
    }
    String::from_str("?")
}

// ---------------------------------------------------------------------------
// The text of the quick check
// ---------------------------------------------------------------------------

/// A process line of the quick check: the name (sanitized) in 28 columns
/// and the PID.
pub open spec fn process_line_spec(p: Process) -> Seq<char> {
    "  "@ + pad_right(sanitize_spec(listed_name_spec(p)), 28) + " pid "@ + decimal(p.pid as nat)
}

/// A process line of the quick check.
pub fn process_line(p: &Process) -> (r: String)
    ensures
        r@ == process_line_spec(*p),
{
    let name = listed_name(p);
    let clean = sanitize(name.as_str());
    let mut out = String::from_str("  ");
    push_pad_right(&mut out, clean.as_str(), 28);
    push_str(&mut out, " pid ");
    push_decimal(&mut out, p.pid as u128);
    proof {
        assert(out@ =~= process_line_spec(*p));
    }
    out
}

/// One owner of a socket as shown: its name (sanitized) and PID.
pub open spec fn owner_entry(ps: Seq<Process>, pid: u32) -> Seq<char> {
    sanitize_spec(pid_name_spec(ps, pid)) + " (pid "@ + decimal(pid as nat) + ")"@
}

/// The owners of a socket as shown: `unknown owner` when none is known,
/// else each owner joined by commas.
pub open spec fn owners_text(ps: Seq<Process>, owners: Seq<u32>) -> Seq<char> {
    if owners.len() == 0 {
        "unknown owner"@
    } else {
        join(Seq::new(owners.len(), |i: int| owner_entry(ps, owners[i])), ", "@)
    }
}

/// A listening-port line of the quick check: protocol, decoded address
/// and owners.
pub open spec fn port_line_spec(ps: Seq<Process>, s: SocketView) -> Seq<char> {
    "  "@ + pad_right(s.protocol, 5) + " "@ + pad_right(decode_local_spec(s.local, s.protocol), 22)
        + " "@ + owners_text(ps, s.owners)
}

/// A listening-port line of the quick check.
pub fn port_line(snapshot: &Snapshot, socket: &SocketRecord) -> (r: String)
    requires
        decode_defined_spec(socket.local@),
    ensures
        r@ == port_line_spec(snapshot.processes@, socket@),
{
    let address = decode_local(socket.local.as_str(), socket.protocol);
    let owners = if socket.owners.len() == 0 {
        String::from_str("unknown owner")
    } else {
        let mut parts: Vec<String> = Vec::new();
        let mut i: usize = 0;
        while i < socket.owners.len()
            invariant
                0 <= i <= socket.owners@.len(),
                string_views(parts@) == Seq::new(
                    i as nat,
                    |k: int| owner_entry(snapshot.processes@, socket.owners@[k]),
                ),
            decreases socket.owners.len() - i,
        {
            let pid = socket.owners[i];
            let name = pid_name(snapshot, pid);
            let mut entry = sanitize(name.as_str());
            push_str(&mut entry, " (pid ");
            push_decimal(&mut entry, pid as u128);
            push_str(&mut entry, ")");
            proof {
                assert(entry@ =~= owner_entry(snapshot.processes@, socket.owners@[i as int]));
            }
            let ghost before = string_views(parts@);
            parts.push(entry);
            proof {
                assert(string_views(parts@) =~= before.push(owner_entry(snapshot.processes@, socket.owners@[i as int])));
            }
            i = i + 1;
            proof {
                assert(string_views(parts@) =~= Seq::new(
                    i as nat,
                    |k: int| owner_entry(snapshot.processes@, socket.owners@[k]),
                ));
            }
        }
        join_strings(&parts, ", ")
    };
    let mut out = String::from_str("  ");
    push_pad_right(&mut out, socket.protocol, 5);
    push_str(&mut out, " ");
    push_pad_right(&mut out, address.as_str(), 22);
    push_str(&mut out, " ");
    push_str(&mut out, owners.as_str());
    proof {
        assert(out@ =~= port_line_spec(snapshot.processes@, socket@));
    }
    out
}

} // verus!
