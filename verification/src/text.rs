//! Text primitives shared by the `/proc` parsers: splitting, whitespace
//! tokens, line splitting, number parsing and decimal formatting, each with
//! its exact meaning as a spec function.
use vstd::prelude::*;
use vstd::utf8::*;
use vstd::string::StringExecFns;

verus! {

broadcast use vstd::string::group_string_axioms;

// ---------------------------------------------------------------------------
// Names for what the standard library computes
// ---------------------------------------------------------------------------

/// Whether a character has the Unicode `White_Space` property, as
/// `char::is_whitespace` says: tab through carriage return, space, next
/// line, no-break space, ogham space mark, the spaces U+2000 to U+200A,
/// line and paragraph separators, narrow no-break space, medium
/// mathematical space and ideographic space.
pub open spec fn unicode_white_space(c: char) -> bool {
    let u = c as u32;
    (0x09 <= u && u <= 0x0d) || u == 0x20 || u == 0x85 || u == 0xa0 || u == 0x1680 || (0x2000
        <= u && u <= 0x200a) || u == 0x2028 || u == 0x2029 || u == 0x202f || u == 0x205f || u
        == 0x3000
}

/// The text that lossy UTF-8 decoding makes of some bytes.
pub uninterp spec fn lossy_utf8(bytes: Seq<u8>) -> Seq<char>;

/// The Unicode lowercase mapping of a text.
pub uninterp spec fn unicode_lowercase(s: Seq<char>) -> Seq<char>;

/// Calls `str::to_lowercase`; the result is named `unicode_lowercase`.
#[verifier::external_body]
pub(crate) fn to_lowercase(s: &str) -> (r: String)
    ensures
        r@ == unicode_lowercase(s@),
{
    s.to_lowercase()
}

/// Whether a character is whitespace, as `char::is_whitespace` decides.
pub fn is_whitespace(c: char) -> (r: bool)
    ensures
        r == unicode_white_space(c),
{
    let u = c as u32;
    (0x09 <= u && u <= 0x0d) || u == 0x20 || u == 0x85 || u == 0xa0 || u == 0x1680 || (0x2000
        <= u && u <= 0x200a) || u == 0x2028 || u == 0x2029 || u == 0x202f || u == 0x205f || u
        == 0x3000
}

/// Calls `String::from_utf8_lossy`; the result is named `lossy_utf8`, and
/// bytes that are valid UTF-8 decode exactly (as its documentation says).
#[verifier::external_body]
pub(crate) fn lossy_string(bytes: &[u8]) -> (r: String)
    ensures
        r@ == lossy_utf8(bytes@),
        valid_utf8(bytes@) ==> r@ == decode_utf8(bytes@),
{
    String::from_utf8_lossy(bytes).into_owned()
}

/// Calls `std::str::from_utf8`: it succeeds exactly on valid UTF-8, and then
/// holds the decoded characters.
#[verifier::external_body]
pub(crate) fn utf8_str(bytes: &[u8]) -> (r: Option<&str>)
    ensures
        r is Some <==> valid_utf8(bytes@),
        r matches Some(s) ==> s@ == decode_utf8(bytes@),
{
    std::str::from_utf8(bytes).ok()
}

/// Calls `String::push`, which appends one character.
#[verifier::external_body]
pub(crate) fn push_char(s: &mut String, c: char)
    ensures
        final(s)@ == old(s)@.push(c),
{
    s.push(c)
}

/// Calls `String::pop`, which removes the last character, if there is one,
/// and returns it.
#[verifier::external_body]
pub(crate) fn pop_char(s: &mut String) -> (r: Option<char>)
    ensures
        old(s)@.len() == 0 ==> r is None && final(s)@ == old(s)@,
        old(s)@.len() > 0 ==> r == Some(old(s)@.last()) && final(s)@ == old(s)@.drop_last(),
{
    s.pop()
}

/// The views of a sequence of vectors.
pub open spec fn nested_view<A>(v: Seq<Vec<A>>) -> Seq<Seq<A>> {
    Seq::new(v.len(), |i: int| v[i]@)
}

// ---------------------------------------------------------------------------
// Splitting on a separator
// ---------------------------------------------------------------------------

/// The pieces between the separators, as `<[T]>::split` yields them: an
/// empty input gives one empty piece, and a trailing separator one more.
pub open spec fn split_seq<A>(s: Seq<A>, sep: A) -> Seq<Seq<A>>
    decreases s.len(),
{
    if s.len() == 0 {
        seq![Seq::empty()]
    } else {
        let p = split_seq(s.drop_last(), sep);
        if s.last() == sep {
            p.push(Seq::empty())
        } else {
            p.update(p.len() - 1, p.last().push(s.last()))
        }
    }
}

pub proof fn lemma_split_nonempty<A>(s: Seq<A>, sep: A)
    ensures
        split_seq(s, sep).len() >= 1,
    decreases s.len(),
{
    if s.len() > 0 {
        lemma_split_nonempty(s.drop_last(), sep);
    }
}

/// Splits bytes at every occurrence of `sep`.
pub fn split_bytes(b: &[u8], sep: u8) -> (r: Vec<Vec<u8>>)
    ensures
        nested_view(r@) == split_seq(b@, sep),
{
    let mut done: Vec<Vec<u8>> = Vec::new();
    let mut cur: Vec<u8> = Vec::new();
    let mut i: usize = 0;
    while i < b.len()
        invariant
            0 <= i <= b.len(),
            split_seq(b@.take(i as int), sep) == nested_view(done@).push(cur@),
        decreases b.len() - i,
    {
        let x = b[i];
        proof {
            assert(b@.take(i + 1).drop_last() == b@.take(i as int));
            lemma_split_nonempty(b@.take(i as int), sep);
        }
        if x == sep {
            let ghost old_done = nested_view(done@);
            let ghost finished = cur@;
            done.push(cur);
            cur = Vec::new();
            proof {
                assert(nested_view(done@) =~= old_done.push(finished));
            }
        } else {
            let ghost before = nested_view(done@).push(cur@);
            cur.push(x);
            proof {
                assert(nested_view(done@).push(cur@) =~= before.update(before.len() - 1, before.last().push(x)));
            }
        }
        i = i + 1;
    }
    proof {
        assert(b@.take(b@.len() as int) == b@);
    }
    let ghost before = nested_view(done@);
    let ghost last = cur@;
    done.push(cur);
    proof {
        assert(nested_view(done@) =~= before.push(last));
    }
    done
}

/// The characters of a string slice, in order.
pub fn chars_of(s: &str) -> (r: Vec<char>)
    ensures
        r@ == s@,
{
    let mut out: Vec<char> = Vec::new();
    for c in iter: s.chars()
        invariant
            out@ == iter.seq().take(iter.index() as int),
    {
        out.push(c);
    }
    out
}

/// Splits characters at every occurrence of `sep`.
pub fn split_chars(b: &[char], sep: char) -> (r: Vec<Vec<char>>)
    ensures
        nested_view(r@) == split_seq(b@, sep),
{
    let mut done: Vec<Vec<char>> = Vec::new();
    let mut cur: Vec<char> = Vec::new();
    let mut i: usize = 0;
    while i < b.len()
        invariant
            0 <= i <= b.len(),
            split_seq(b@.take(i as int), sep) == nested_view(done@).push(cur@),
        decreases b.len() - i,
    {
        let x = b[i];
        proof {
            assert(b@.take(i + 1).drop_last() == b@.take(i as int));
            lemma_split_nonempty(b@.take(i as int), sep);
        }
        if x == sep {
            let ghost old_done = nested_view(done@);
            let ghost finished = cur@;
            done.push(cur);
            cur = Vec::new();
            proof {
                assert(nested_view(done@) =~= old_done.push(finished));
            }
        } else {
            let ghost before = nested_view(done@).push(cur@);
            cur.push(x);
            proof {
                assert(nested_view(done@).push(cur@) =~= before.update(before.len() - 1, before.last().push(x)));
            }
        }
        i = i + 1;
    }
    proof {
        assert(b@.take(b@.len() as int) == b@);
    }
    let ghost before = nested_view(done@);
    let ghost last = cur@;
    done.push(cur);
    proof {
        assert(nested_view(done@) =~= before.push(last));
    }
    done
}

// ---------------------------------------------------------------------------
// Lines
// ---------------------------------------------------------------------------

/// A line without the carriage return that ended it.
pub open spec fn strip_cr(l: Seq<char>) -> Seq<char> {
    if l.len() > 0 && l.last() == '\r' {
        l.drop_last()
    } else {
        l
    }
}

/// The lines of a text as `str::lines` yields them: split at `\n`, a `\r`
/// before the `\n` removed, and no empty line after a final `\n`.
pub open spec fn text_lines(s: Seq<char>) -> Seq<Seq<char>> {
    let p = split_seq(s, '\n');
    let body = Seq::new((p.len() - 1) as nat, |i: int| strip_cr(p[i]));
    if p.last().len() == 0 {
        body
    } else {
        body.push(p.last())
    }
}

/// The lines of a text.
pub fn lines_of(s: &[char]) -> (r: Vec<Vec<char>>)
    ensures
        nested_view(r@) == text_lines(s@),
{
    let pieces = split_chars(s, '\n');
    proof {
        lemma_split_nonempty(s@, '\n');
    }
    let ghost p = split_seq(s@, '\n');
    let n = pieces.len();
    let mut out: Vec<Vec<char>> = Vec::new();
    let mut i: usize = 0;
    while i + 1 < n
        invariant
            n == pieces@.len(),
            n >= 1,
            nested_view(pieces@) == p,
            0 <= i <= n - 1,
            nested_view(out@) == Seq::new(i as nat, |k: int| strip_cr(p[k])),
        decreases n - i,
    {
        let piece = &pieces[i];
        proof {
            assert(piece@ == p[i as int]);
        }
        let ghost before = nested_view(out@);
        let len = piece.len();
        if len > 0 && piece[len - 1] == '\r' {
            let mut line: Vec<char> = Vec::new();
            let mut j: usize = 0;
            while j + 1 < len
                invariant
                    len == piece@.len(),
                    len > 0,
                    0 <= j <= len - 1,
                    line@ == piece@.take(j as int),
                decreases len - j,
            {
                line.push(piece[j]);
                j = j + 1;
                proof {
                    assert(line@ =~= piece@.take(j as int));
                }
            }
            proof {
                assert(line@ =~= strip_cr(piece@));
            }
            out.push(line);
            proof {
                assert(nested_view(out@) =~= before.push(strip_cr(p[i as int])));
            }
        } else {
            let line = piece.clone();
            proof {
                assert(line@ =~= piece@);
                assert(line@ == strip_cr(piece@));
            }
            out.push(line);
            proof {
                assert(nested_view(out@) =~= before.push(strip_cr(p[i as int])));
            }
        }
        i = i + 1;
        proof {
            assert(nested_view(out@) =~= Seq::new(i as nat, |k: int| strip_cr(p[k])));
        }
    }
    let last = &pieces[n - 1];
    proof {
        assert(last@ == p.last());
    }
    if last.len() > 0 {
        let ghost before = nested_view(out@);
        out.push(last.clone());
        proof {
            assert(nested_view(out@) =~= before.push(p.last()));
        }
    }
    out
}

// ---------------------------------------------------------------------------
// Whitespace-separated tokens
// ---------------------------------------------------------------------------

/// Scans characters left to right: the tokens so far, and whether the scan
/// stands inside a token.
pub open spec fn ws_scan(s: Seq<char>) -> (Seq<Seq<char>>, bool)
    decreases s.len(),
{
    if s.len() == 0 {
        (Seq::empty(), false)
    } else {
        let (t, inside) = ws_scan(s.drop_last());
        let c = s.last();
        if unicode_white_space(c) {
            (t, false)
        } else if inside {
            (t.update(t.len() - 1, t.last().push(c)), true)
        } else {
            (t.push(seq![c]), true)
        }
    }
}

/// The maximal runs of non-whitespace characters, as `str::split_whitespace`
/// yields them.
pub open spec fn ws_tokens(s: Seq<char>) -> Seq<Seq<char>> {
    ws_scan(s).0
}

/// The whitespace-separated tokens of a text.
pub fn tokens_of(s: &[char]) -> (r: Vec<Vec<char>>)
    ensures
        nested_view(r@) == ws_tokens(s@),
{
    let mut done: Vec<Vec<char>> = Vec::new();
    let mut cur: Vec<char> = Vec::new();
    let mut inside = false;
    let mut i: usize = 0;
    while i < s.len()
        invariant
            0 <= i <= s.len(),
            inside ==> ws_scan(s@.take(i as int)) == (nested_view(done@).push(cur@), true),
            !inside ==> ws_scan(s@.take(i as int)) == (nested_view(done@), false),
            !inside ==> cur@.len() == 0,
        decreases s.len() - i,
    {
        let c = s[i];
        proof {
            assert(s@.take(i + 1).drop_last() == s@.take(i as int));
        }
        let ghost before_done = nested_view(done@);
        let ghost before_cur = cur@;
        if is_whitespace(c) {
            if inside {
                done.push(cur);
                cur = Vec::new();
                proof {
                    assert(nested_view(done@) =~= before_done.push(before_cur));
                }
            }
            inside = false;
        } else {
            cur.push(c);
            proof {
                if inside {
                    let t = before_done.push(before_cur);
                    assert(t.update(t.len() - 1, t.last().push(c)) =~= before_done.push(cur@));
                } else {
                    assert(before_cur =~= Seq::<char>::empty());
                    assert(cur@ =~= seq![c]);
                }
            }
            inside = true;
        }
        i = i + 1;
    }
    proof {
        assert(s@.take(s@.len() as int) == s@);
    }
    if inside {
        let ghost before = nested_view(done@);
        let ghost last = cur@;
        done.push(cur);
        proof {
            assert(nested_view(done@) =~= before.push(last));
        }
    }
    done
}

// ---------------------------------------------------------------------------
// Prefixes and suffixes
// ---------------------------------------------------------------------------

/// Whether `s` begins with `p`.
pub open spec fn has_prefix<A>(s: Seq<A>, p: Seq<A>) -> bool {
    p.len() <= s.len() && s.subrange(0, p.len() as int) == p
}

/// Whether `s` ends with `p`.
pub open spec fn has_suffix<A>(s: Seq<A>, p: Seq<A>) -> bool {
    p.len() <= s.len() && s.subrange(s.len() - p.len(), s.len() as int) == p
}

/// Whether the bytes `s` begin with `p`.
pub fn bytes_start_with(s: &[u8], p: &[u8]) -> (r: bool)
    ensures
        r == has_prefix(s@, p@),
{
    if p.len() > s.len() {
        return false;
    }
    let mut i: usize = 0;
    while i < p.len()
        invariant
            p@.len() <= s@.len(),
            0 <= i <= p.len(),
            s@.subrange(0, i as int) == p@.subrange(0, i as int),
        decreases p.len() - i,
    {
        if s[i] != p[i] {
            proof {
                assert(s@.subrange(0, p@.len() as int)[i as int] != p@[i as int]);
            }
            return false;
        }
        i = i + 1;
        proof {
            assert(s@.subrange(0, i as int) =~= p@.subrange(0, i as int));
        }
    }
    proof {
        assert(p@.subrange(0, p@.len() as int) =~= p@);
    }
    true
}

/// Whether the characters `s` begin with `p`.
pub fn chars_start_with(s: &[char], p: &[char]) -> (r: bool)
    ensures
        r == has_prefix(s@, p@),
{
    if p.len() > s.len() {
        return false;
    }
    let mut i: usize = 0;
    while i < p.len()
        invariant
            p@.len() <= s@.len(),
            0 <= i <= p.len(),
            s@.subrange(0, i as int) == p@.subrange(0, i as int),
        decreases p.len() - i,
    {
        if s[i] != p[i] {
            proof {
                assert(s@.subrange(0, p@.len() as int)[i as int] != p@[i as int]);
            }
            return false;
        }
        i = i + 1;
        proof {
            assert(s@.subrange(0, i as int) =~= p@.subrange(0, i as int));
        }
    }
    proof {
        assert(p@.subrange(0, p@.len() as int) =~= p@);
    }
    true
}

/// Whether two character sequences are equal.
pub fn chars_equal(a: &[char], b: &[char]) -> (r: bool)
    ensures
        r == (a@ == b@),
{
    if a.len() != b.len() {
        return false;
    }
    let r = chars_start_with(a, b);
    proof {
        assert(a@.subrange(0, b@.len() as int) =~= a@);
    }
    r
}

/// Whether the characters `s` end with `p`.
pub fn chars_end_with(s: &[char], p: &[char]) -> (r: bool)
    ensures
        r == has_suffix(s@, p@),
{
    if p.len() > s.len() {
        return false;
    }
    let off = s.len() - p.len();
    let mut i: usize = 0;
    while i < p.len()
        invariant
            p@.len() <= s@.len(),
            off == s@.len() - p@.len(),
            off + p.len() == s.len(),
            0 <= i <= p.len(),
            s@.subrange(off as int, off + i) == p@.subrange(0, i as int),
        decreases p.len() - i,
    {
        assert(off + i < s.len());
        if s[off + i] != p[i] {
            proof {
                assert(s@.subrange(off as int, s@.len() as int)[i as int] != p@[i as int]);
            }
            return false;
        }
        i = i + 1;
        proof {
            assert(s@.subrange(off as int, off + i) =~= p@.subrange(0, i as int));
        }
    }
    proof {
        assert(p@.subrange(0, p@.len() as int) =~= p@);
    }
    true
}

/// A string holding the given characters.
pub fn string_of(cs: &[char]) -> (r: String)
    ensures
        r@ == cs@,
{
    let mut out = String::new();
    let mut i: usize = 0;
    while i < cs.len()
        invariant
            0 <= i <= cs.len(),
            out@ == cs@.take(i as int),
        decreases cs.len() - i,
    {
        push_char(&mut out, cs[i]);
        i = i + 1;
        proof {
            assert(out@ =~= cs@.take(i as int));
        }
    }
    proof {
        assert(cs@.take(cs@.len() as int) =~= cs@);
    }
    out
}

// ---------------------------------------------------------------------------
// Unsigned numbers
// ---------------------------------------------------------------------------

/// The value of a digit in base 10 or 16 (either case), if it is one.
pub open spec fn digit_value(c: char, radix: nat) -> Option<nat> {
    if '0' <= c && c <= '9' {
        Some((c as nat - '0' as nat) as nat)
    } else if radix == 16 && 'a' <= c && c <= 'f' {
        Some((c as nat - 'a' as nat + 10) as nat)
    } else if radix == 16 && 'A' <= c && c <= 'F' {
        Some((c as nat - 'A' as nat + 10) as nat)
    } else {
        None
    }
}

/// Whether every character is a digit.
pub open spec fn all_digits(s: Seq<char>, radix: nat) -> bool {
    forall|i: int| 0 <= i < s.len() ==> (#[trigger] digit_value(s[i], radix)) is Some
}

/// The value of a run of digits, most significant first.
pub open spec fn digits_value(s: Seq<char>, radix: nat) -> nat
    decreases s.len(),
{
    if s.len() == 0 {
        0
    } else {
        digits_value(s.drop_last(), radix) * radix + match digit_value(s.last(), radix) {
            Some(d) => d,
            None => 0,
        }
    }
}

/// The digits of a number text, after an optional leading `+`.
pub open spec fn number_body(s: Seq<char>) -> Seq<char> {
    if s.len() > 0 && s[0] == '+' {
        s.drop_first()
    } else {
        s
    }
}

/// What parsing an unsigned integer no greater than `max` yields, as
/// `u64::from_str_radix` and its narrower kin do: an optional `+`, then at
/// least one digit, and a value that fits.
pub open spec fn parse_number(s: Seq<char>, radix: nat, max: nat) -> Option<nat> {
    let b = number_body(s);
    if b.len() > 0 && all_digits(b, radix) && digits_value(b, radix) <= max {
        Some(digits_value(b, radix))
    } else {
        None
    }
}

pub proof fn lemma_digits_prefix_le(b: Seq<char>, k: int, radix: nat)
    requires
        0 <= k <= b.len(),
        radix >= 1,
    ensures
        digits_value(b.take(k), radix) <= digits_value(b, radix),
    decreases b.len() - k,
{
    if k < b.len() {
        lemma_digits_prefix_le(b, k + 1, radix);
        assert(b.take(k + 1).drop_last() =~= b.take(k));
        let v = digits_value(b.take(k), radix);
        assert(v * radix >= v) by (nonlinear_arith)
            requires
                radix >= 1,
        ;
    } else {
        assert(b.take(k) =~= b);
    }
}

/// Parses an unsigned integer of base 10 or 16 that must not exceed `max`.
pub fn parse_unsigned(s: &[char], radix: u32, max: u64) -> (r: Option<u64>)
    requires
        radix == 10 || radix == 16,
    ensures
        match parse_number(s@, radix as nat, max as nat) {
            Some(v) => r == Some(v as u64),
            None => r is None,
        },
{
    let n = s.len();
    let start: usize = if n > 0 && s[0] == '+' {
        1
    } else {
        0
    };
    let ghost b = number_body(s@);
    proof {
        assert(b =~= s@.subrange(start as int, n as int));
    }
    if start == n {
        return None;
    }
    let mut acc: u64 = 0;
    let mut j: usize = start;
    while j < n
        invariant
            n == s@.len(),
            start <= j <= n,
            b == s@.subrange(start as int, n as int),
            b == number_body(s@),
            radix == 10 || radix == 16,
            all_digits(b.take(j - start), radix as nat),
            acc as nat == digits_value(b.take(j - start), radix as nat),
            acc <= max,
        decreases n - j,
    {
        let c = s[j];
        let d: u64 = if '0' <= c && c <= '9' {
            (c as u64) - ('0' as u64)
        } else if radix == 16 && 'a' <= c && c <= 'f' {
            (c as u64) - ('a' as u64) + 10
        } else if radix == 16 && 'A' <= c && c <= 'F' {
            (c as u64) - ('A' as u64) + 10
        } else {
            proof {
                assert(b[j - start] == c);
                assert(digit_value(b[j - start], radix as nat) is None);
                assert(!all_digits(b, radix as nat));
            }
            return None;
        };
        proof {
            assert(b[j - start] == c);
            assert(digit_value(c, radix as nat) == Some(d as nat));
            assert(b.take(j - start + 1).drop_last() =~= b.take(j - start));
            assert(b.take(j - start + 1).last() == c);
        }
        proof {
            assert((acc as u128) * (radix as u128) <= 0xffff_ffff_ffff_ffffu128 * 16) by (nonlinear_arith)
                requires
                    acc <= 0xffff_ffff_ffff_ffffu64,
                    radix <= 16,
            ;
        }
        let wide: u128 = (acc as u128) * (radix as u128) + (d as u128);
        proof {
            assert(wide as nat == digits_value(b.take(j - start + 1), radix as nat));
        }
        if wide > max as u128 {
            proof {
                lemma_digits_prefix_le(b, j - start + 1, radix as nat);
            }
            return None;
        }
        acc = wide as u64;
        j = j + 1;
        proof {
            assert forall|i: int| 0 <= i < b.take(j - start).len() implies (#[trigger] digit_value(
                b.take(j - start)[i],
                radix as nat,
            )) is Some by {
                if i < j - start - 1 {
                    assert(b.take(j - start)[i] == b.take(j - start - 1)[i]);
                }
            }
        }
    }
    proof {
        assert(b.take(n - start) =~= b);
    }
    Some(acc)
}

// ---------------------------------------------------------------------------
// Decimal text
// ---------------------------------------------------------------------------

/// The character of a decimal digit.
pub open spec fn digit_char(d: nat) -> char {
    (d + 48) as char
}

/// The decimal text of a number, without leading zeros.
pub open spec fn decimal(n: nat) -> Seq<char>
    decreases n,
{
    if n < 10 {
        seq![digit_char(n)]
    } else {
        decimal(n / 10).push(digit_char(n % 10))
    }
}

/// Appends the decimal text of `n`.
pub fn push_decimal(out: &mut String, n: u128)
    ensures
        final(out)@ == old(out)@ + decimal(n as nat),
    decreases n,
{
    if n >= 10 {
        push_decimal(out, n / 10);
    }
    let d = (n % 10) as u8;
    let c = (d + 48) as char;
    proof {
        assert(c == digit_char((n % 10) as nat));
    }
    push_char(out, c);
    proof {
        if n < 10 {
            assert(old(out)@.push(c) =~= old(out)@ + decimal(n as nat));
        } else {
            assert(old(out)@ + decimal(n as nat / 10) + seq![c] =~= old(out)@ + decimal(n as nat));
        }
    }
}

/// Appends a string slice.
pub fn push_str(out: &mut String, s: &str)
    ensures
        final(out)@ == old(out)@ + s@,
{
    out.append(s);
}

// ---------------------------------------------------------------------------
// Searching
// ---------------------------------------------------------------------------

/// The index of the first occurrence of `x`, if any.
pub open spec fn position_of<A>(s: Seq<A>, x: A) -> Option<int>
    decreases s.len(),
{
    if s.len() == 0 {
        None
    } else {
        match position_of(s.drop_last(), x) {
            Some(i) => Some(i),
            None => if s.last() == x {
                Some(s.len() - 1)
            } else {
                None
            },
        }
    }
}

/// The index of the last occurrence of `x`, if any.
pub open spec fn rposition_of<A>(s: Seq<A>, x: A) -> Option<int>
    decreases s.len(),
{
    if s.len() == 0 {
        None
    } else if s.last() == x {
        Some(s.len() - 1)
    } else {
        rposition_of(s.drop_last(), x)
    }
}

pub proof fn lemma_position_bounds<A>(s: Seq<A>, x: A)
    ensures
        position_of(s, x) matches Some(i) ==> 0 <= i < s.len() && s[i] == x,
        rposition_of(s, x) matches Some(i) ==> 0 <= i < s.len() && s[i] == x,
    decreases s.len(),
{
    if s.len() > 0 {
        lemma_position_bounds(s.drop_last(), x);
    }
}

/// The first index of byte `x` in `s`.
pub fn byte_position(s: &[u8], x: u8) -> (r: Option<usize>)
    ensures
        match r {
            Some(k) => position_of(s@, x) == Some(k as int),
            None => position_of(s@, x) is None,
        },
{
    let mut i: usize = 0;
    while i < s.len()
        invariant
            0 <= i <= s.len(),
            position_of(s@.take(i as int), x) is None,
        decreases s.len() - i,
    {
        proof {
            assert(s@.take(i + 1).drop_last() =~= s@.take(i as int));
        }
        if s[i] == x {
            proof {
                lemma_position_prefix(s@, x, i as int + 1);
            }
            return Some(i);
        }
        i = i + 1;
    }
    proof {
        assert(s@.take(s@.len() as int) =~= s@);
    }
    None
}

/// A first occurrence found in a prefix is the first occurrence overall.
pub proof fn lemma_position_prefix<A>(s: Seq<A>, x: A, k: int)
    requires
        0 <= k <= s.len(),
        position_of(s.take(k), x) is Some,
    ensures
        position_of(s, x) == position_of(s.take(k), x),
    decreases s.len() - k,
{
    if k < s.len() {
        assert(s.take(k + 1).drop_last() =~= s.take(k));
        lemma_position_prefix(s, x, k + 1);
    } else {
        assert(s.take(k) =~= s);
    }
}

/// The first index holding `x` is the one the search finds.
pub proof fn lemma_first_position<A>(s: Seq<A>, x: A, d: int)
    requires
        0 <= d < s.len(),
        s[d] == x,
        forall|k: int| 0 <= k < d ==> s[k] != x,
    ensures
        position_of(s, x) == Some(d),
{
    lemma_no_position_before(s, x, d, d);
    assert(s.take(d + 1).drop_last() =~= s.take(d));
    lemma_position_prefix(s, x, d + 1);
}

/// No occurrence in a prefix that holds none.
proof fn lemma_no_position_before<A>(s: Seq<A>, x: A, d: int, j: int)
    requires
        0 <= j <= d < s.len(),
        forall|k: int| 0 <= k < d ==> s[k] != x,
    ensures
        position_of(s.take(j), x) is None,
    decreases j,
{
    if j > 0 {
        assert(s.take(j).drop_last() =~= s.take(j - 1));
        lemma_no_position_before(s, x, d, j - 1);
    }
}

/// The last index holding `x` is the one the backward search finds.
pub proof fn lemma_last_position<A>(s: Seq<A>, x: A, d: int)
    requires
        0 <= d < s.len(),
        s[d] == x,
        forall|k: int| d < k < s.len() ==> s[k] != x,
    ensures
        rposition_of(s, x) == Some(d),
    decreases s.len(),
{
    if d < s.len() - 1 {
        assert(s.drop_last()[d] == x);
        lemma_last_position(s.drop_last(), x, d);
    }
}

/// The last index of byte `x` in `s`.
pub fn byte_rposition(s: &[u8], x: u8) -> (r: Option<usize>)
    ensures
        match r {
            Some(k) => rposition_of(s@, x) == Some(k as int),
            None => rposition_of(s@, x) is None,
        },
{
    let mut last: Option<usize> = None;
    let mut i: usize = 0;
    while i < s.len()
        invariant
            0 <= i <= s.len(),
            match last {
                Some(k) => rposition_of(s@.take(i as int), x) == Some(k as int),
                None => rposition_of(s@.take(i as int), x) is None,
            },
        decreases s.len() - i,
    {
        proof {
            assert(s@.take(i + 1).drop_last() =~= s@.take(i as int));
        }
        if s[i] == x {
            last = Some(i);
        }
        i = i + 1;
    }
    proof {
        assert(s@.take(s@.len() as int) =~= s@);
    }
    last
}

// ---------------------------------------------------------------------------
// Joining
// ---------------------------------------------------------------------------

/// The parts with `sep` between each neighbouring pair.
pub open spec fn join(parts: Seq<Seq<char>>, sep: Seq<char>) -> Seq<char>
    decreases parts.len(),
{
    if parts.len() == 0 {
        Seq::empty()
    } else if parts.len() == 1 {
        parts[0]
    } else {
        join(parts.drop_last(), sep) + sep + parts.last()
    }
}

/// The views of a sequence of strings.
pub open spec fn string_views(v: Seq<String>) -> Seq<Seq<char>> {
    Seq::new(v.len(), |i: int| v[i]@)
}

/// Joins strings with a separator.
pub fn join_strings(parts: &Vec<String>, sep: &str) -> (r: String)
    ensures
        r@ == join(string_views(parts@), sep@),
{
    let mut out = String::new();
    let mut i: usize = 0;
    while i < parts.len()
        invariant
            0 <= i <= parts.len(),
            out@ == join(string_views(parts@).take(i as int), sep@),
        decreases parts.len() - i,
    {
        let ghost before = out@;
        if i > 0 {
            push_str(&mut out, sep);
        }
        push_str(&mut out, parts[i].as_str());
        i = i + 1;
        proof {
            let t = string_views(parts@).take(i as int);
            assert(t.drop_last() =~= string_views(parts@).take(i - 1));
            if i == 1 {
                assert(before =~= Seq::<char>::empty());
                assert(out@ =~= t[0]);
            } else {
                assert(out@ =~= join(t.drop_last(), sep@) + sep@ + t.last());
            }
        }
    }
    proof {
        assert(string_views(parts@).take(parts@.len() as int) =~= string_views(parts@));
    }
    out
}

} // verus!
