//! Sorting by an integer key, proved to keep every element.
use vstd::prelude::*;
use vstd::multiset::Multiset;

verus! {

broadcast use {vstd::seq_lib::group_to_multiset_ensures, vstd::multiset::group_multiset_axioms};

/// A type whose values are ordered by an unsigned key of their view.
pub trait SortKey: View + Sized {
    spec fn key_of(v: Self::V) -> u64;

    fn sort_key(&self) -> (k: u64)
        ensures
            k == Self::key_of(self@),
    ;
}

/// The views of a sequence of values.
pub open spec fn views_of<T: View>(s: Seq<T>) -> Seq<T::V> {
    Seq::new(s.len(), |i: int| s[i]@)
}

/// Whether the keys never decrease along the sequence.
pub open spec fn sorted_by_key<T: SortKey>(s: Seq<T::V>) -> bool {
    forall|i: int, j: int| 0 <= i < j < s.len() ==> T::key_of(s[i]) <= T::key_of(s[j])
}

/// Removing an element by moving the last one into its place keeps every
/// other element.
pub proof fn lemma_swap_remove_multiset<A>(s: Seq<A>, m: int)
    requires
        0 <= m < s.len(),
    ensures
        s.to_multiset() == s.update(m, s.last()).drop_last().to_multiset().insert(s[m]),
{
    let u = s.update(m, s.last());
    assert(u.len() == s.len());
    vstd::seq_lib::to_multiset_update(s, m, s.last());
    assert(u =~= u.drop_last().push(s.last()));
    vstd::seq_lib::to_multiset_build(u.drop_last(), s.last());
    let a = u.drop_last().to_multiset();
    let b = s.to_multiset().remove(s[m]);
    assert(a.insert(s.last()) == b.insert(s.last()));
    assert forall|y: A| a.count(y) == b.count(y) by {
        assert(a.insert(s.last()).count(y) == b.insert(s.last()).count(y));
    }
    assert(a =~= b);
    assert(s.to_multiset().count(s[m]) > 0);
    assert(s.to_multiset() =~= s.to_multiset().remove(s[m]).insert(s[m]));
}

/// Sorts by key; elements with equal keys come in no promised order.
pub fn sort_by_key<T: SortKey>(v: Vec<T>) -> (r: Vec<T>)
    ensures
        views_of(r@).to_multiset() == views_of(v@).to_multiset(),
        sorted_by_key::<T>(views_of(r@)),
{
    let ghost original = views_of(v@);
    let mut rest = v;
    let mut out: Vec<T> = Vec::new();
    proof {
        assert(views_of(out@) =~= Seq::<T::V>::empty());
        assert(views_of(out@).to_multiset() =~= Multiset::<T::V>::empty());
        assert(views_of(rest@).to_multiset().add(Multiset::empty()) =~= views_of(rest@).to_multiset());
    }
    while rest.len() > 0
        invariant
            views_of(out@).to_multiset().add(views_of(rest@).to_multiset()) == original.to_multiset(),
            sorted_by_key::<T>(views_of(out@)),
            forall|i: int, j: int|
                0 <= i < out@.len() && 0 <= j < rest@.len() ==> T::key_of(out@[i]@) <= T::key_of(
                    rest@[j]@,
                ),
        decreases rest.len(),
    {
        let mut m: usize = 0;
        let mut best = rest[0].sort_key();
        let mut j: usize = 1;
        while j < rest.len()
            invariant
                0 <= m < j <= rest.len(),
                best == T::key_of(rest@[m as int]@),
                forall|k: int| 0 <= k < j ==> best <= T::key_of(#[trigger] rest@[k]@),
            decreases rest.len() - j,
        {
            let k = rest[j].sort_key();
            if k < best {
                best = k;
                m = j;
            }
            j = j + 1;
        }
        let ghost old_rest = rest@;
        let ghost old_out = out@;
        let x = rest.swap_remove(m);
        proof {
            let vs = views_of(old_rest);
            lemma_swap_remove_multiset(vs, m as int);
            assert(views_of(rest@) =~= vs.update(m as int, vs.last()).drop_last());
        }
        out.push(x);
        proof {
            assert(views_of(out@) =~= views_of(old_out).push(x@));
            assert(views_of(out@).to_multiset() =~= views_of(old_out).to_multiset().insert(x@));
            assert(views_of(out@).to_multiset().add(views_of(rest@).to_multiset()) =~= views_of(
                old_out,
            ).to_multiset().add(views_of(old_rest).to_multiset()));
            assert forall|a: int, b: int|
                0 <= a < out@.len() && 0 <= b < rest@.len() implies T::key_of(out@[a]@)
                <= T::key_of(rest@[b]@) by {
                if b == m {
                    assert(rest@[b] == old_rest.last());
                } else {
                    assert(rest@[b] == old_rest[b]);
                }
                if a < old_out.len() {
                    assert(out@[a] == old_out[a]);
                }
            }
            assert forall|a: int, b: int|
                0 <= a < b < views_of(out@).len() implies T::key_of(views_of(out@)[a])
                <= T::key_of(views_of(out@)[b]) by {
                if b < old_out.len() {
                    assert(views_of(out@)[a] == views_of(old_out)[a]);
                    assert(views_of(out@)[b] == views_of(old_out)[b]);
                } else {
                    assert(old_rest[m as int] == x);
                }
            }
        }
    }
    proof {
        assert(views_of(rest@) =~= Seq::<T::V>::empty());
        assert(views_of(rest@).to_multiset() =~= Multiset::<T::V>::empty());
        assert(views_of(out@).to_multiset().add(Multiset::empty()) =~= views_of(out@).to_multiset());
    }
    out
}

// ---------------------------------------------------------------------------
// Byte-wise lexicographic order (the order of `str` and `String`)
// ---------------------------------------------------------------------------

/// Whether `a` comes strictly before `b` byte by byte, a proper prefix first.
pub open spec fn lex_lt(a: Seq<u8>, b: Seq<u8>) -> bool
    decreases a.len(),
{
    if a.len() == 0 {
        b.len() > 0
    } else if b.len() == 0 {
        false
    } else if a[0] < b[0] {
        true
    } else if a[0] > b[0] {
        false
    } else {
        lex_lt(a.drop_first(), b.drop_first())
    }
}

/// Whether `a` comes before `b` or equals it.
pub open spec fn lex_le(a: Seq<u8>, b: Seq<u8>) -> bool {
    lex_lt(a, b) || a == b
}

pub proof fn lemma_lex_irreflexive(a: Seq<u8>)
    ensures
        !lex_lt(a, a),
    decreases a.len(),
{
    if a.len() > 0 {
        lemma_lex_irreflexive(a.drop_first());
    }
}

pub proof fn lemma_lex_transitive(a: Seq<u8>, b: Seq<u8>, c: Seq<u8>)
    requires
        lex_lt(a, b),
        lex_lt(b, c),
    ensures
        lex_lt(a, c),
    decreases a.len(),
{
    if a.len() > 0 && b.len() > 0 && c.len() > 0 && a[0] == b[0] && b[0] == c[0] {
        lemma_lex_transitive(a.drop_first(), b.drop_first(), c.drop_first());
    }
}

pub proof fn lemma_lex_total(a: Seq<u8>, b: Seq<u8>)
    ensures
        lex_lt(a, b) || a == b || lex_lt(b, a),
    decreases a.len(),
{
    if a.len() > 0 && b.len() > 0 && a[0] == b[0] {
        lemma_lex_total(a.drop_first(), b.drop_first());
        if a.drop_first() == b.drop_first() {
            assert(a =~= seq![a[0]] + a.drop_first());
            assert(b =~= seq![b[0]] + b.drop_first());
        }
    } else if a.len() == 0 && b.len() == 0 {
        assert(a =~= b);
    }
}

pub proof fn lemma_lex_asymmetric(a: Seq<u8>, b: Seq<u8>)
    requires
        lex_lt(a, b),
    ensures
        !lex_lt(b, a),
{
    if lex_lt(b, a) {
        lemma_lex_transitive(a, b, a);
        lemma_lex_irreflexive(a);
    }
}

/// Whether the bytes `a` come strictly before `b`.
pub fn bytes_lt(a: &[u8], b: &[u8]) -> (r: bool)
    ensures
        r == lex_lt(a@, b@),
{
    let mut i: usize = 0;
    proof {
        assert(a@.skip(0) =~= a@);
        assert(b@.skip(0) =~= b@);
    }
    while i < a.len() && i < b.len()
        invariant
            0 <= i <= a.len(),
            i <= b.len(),
            lex_lt(a@, b@) == lex_lt(a@.skip(i as int), b@.skip(i as int)),
        decreases a.len() - i,
    {
        if a[i] < b[i] {
            return true;
        }
        if a[i] > b[i] {
            return false;
        }
        proof {
            assert(a@.skip(i as int).drop_first() =~= a@.skip(i + 1));
            assert(b@.skip(i as int).drop_first() =~= b@.skip(i + 1));
        }
        i = i + 1;
    }
    i < b.len()
}

/// The bytes of a string in UTF-8.
pub open spec fn utf8_bytes(s: String) -> Seq<u8> {
    vstd::utf8::encode_utf8(s@)
}

/// Whether the string `a` sorts before `b`, as `String`'s order says.
pub fn string_lt(a: &String, b: &String) -> (r: bool)
    ensures
        r == lex_lt(utf8_bytes(*a), utf8_bytes(*b)),
{
    bytes_lt(a.as_str().as_bytes(), b.as_str().as_bytes())
}

/// Whether two strings hold the same characters.
pub fn string_eq(a: &String, b: &String) -> (r: bool)
    ensures
        r == (a@ == b@),
{
    let x = a.as_str().as_bytes();
    let y = b.as_str().as_bytes();
    let lt = bytes_lt(x, y);
    let gt = bytes_lt(y, x);
    proof {
        broadcast use vstd::utf8::encode_utf8_decode_utf8;
        lemma_lex_total(x@, y@);
        if x@ == y@ {
            lemma_lex_irreflexive(x@);
            assert(vstd::utf8::decode_utf8(vstd::utf8::encode_utf8(a@)) == a@);
            assert(vstd::utf8::decode_utf8(vstd::utf8::encode_utf8(b@)) == b@);
        }
        if a@ == b@ {
            lemma_lex_irreflexive(x@);
        }
    }
    !lt && !gt
}

/// Whether the strings are in strictly increasing order, so each occurs once.
pub open spec fn strictly_sorted(v: Seq<String>) -> bool {
    forall|i: int, j: int| 0 <= i < j < v.len() ==> lex_lt(utf8_bytes(v[i]), utf8_bytes(v[j]))
}

/// The characters of each string.
pub open spec fn char_views(v: Seq<String>) -> Seq<Seq<char>> {
    Seq::new(v.len(), |i: int| v[i]@)
}

/// Inserts a string into a strictly sorted list unless it is already there.
pub fn insert_sorted_unique(out: &mut Vec<String>, s: String)
    requires
        strictly_sorted(old(out)@),
    ensures
        strictly_sorted(final(out)@),
        char_views(final(out)@).to_set() == char_views(old(out)@).to_set().insert(s@),
{
    broadcast use vstd::utf8::encode_utf8_decode_utf8;
    broadcast use vstd::seq_lib::group_seq_properties;
    let mut pos: usize = 0;
    while pos < out.len() && string_lt(&out[pos], &s)
        invariant
            0 <= pos <= out.len(),
            forall|k: int| 0 <= k < pos ==> lex_lt(utf8_bytes(#[trigger] out@[k]), utf8_bytes(s)),
        decreases out.len() - pos,
    {
        pos = pos + 1;
    }
    if pos < out.len() && string_eq(&out[pos], &s) {
        proof {
            assert(char_views(out@)[pos as int] == s@);
            assert(char_views(out@).to_set() =~= char_views(out@).to_set().insert(s@));
        }
        return;
    }
    let ghost old_out = out@;
    proof {
        if pos < out.len() {
            lemma_lex_total(utf8_bytes(out@[pos as int]), utf8_bytes(s));
            if utf8_bytes(out@[pos as int]) == utf8_bytes(s) {
                assert(vstd::utf8::decode_utf8(vstd::utf8::encode_utf8(out@[pos as int]@)) == out@[pos as int]@);
                assert(vstd::utf8::decode_utf8(vstd::utf8::encode_utf8(s@)) == s@);
            }
            assert(lex_lt(utf8_bytes(s), utf8_bytes(old_out[pos as int])));
        }
    }
    out.insert(pos, s);
    proof {
        assert forall|i: int, j: int| 0 <= i < j < out@.len() implies lex_lt(
            utf8_bytes(out@[i]),
            utf8_bytes(out@[j]),
        ) by {
            let sb = utf8_bytes(out@[pos as int]);
            if j > pos {
                assert(out@[j] == old_out[j - 1]);
                assert(lex_lt(sb, utf8_bytes(out@[j]))) by {
                    if j - 1 > pos {
                        lemma_lex_transitive(sb, utf8_bytes(old_out[pos as int]), utf8_bytes(old_out[j - 1]));
                    }
                }
            }
            if j < pos {
                assert(out@[i] == old_out[i]);
                assert(out@[j] == old_out[j]);
            } else if j == pos {
                assert(out@[i] == old_out[i]);
            } else if i == pos {
            } else if i < pos {
                assert(out@[i] == old_out[i]);
                lemma_lex_transitive(utf8_bytes(out@[i]), sb, utf8_bytes(out@[j]));
            } else {
                assert(out@[i] == old_out[i - 1]);
            }
        }
        assert(char_views(out@) =~= char_views(old_out).insert(pos as int, s@));
        assert(char_views(out@).to_set() =~= char_views(old_out).to_set().insert(s@));
    }
}

/// Whether the strings are in ascending order of their bytes.
pub open spec fn ascending(v: Seq<String>) -> bool {
    forall|i: int, j: int| 0 <= i < j < v.len() ==> lex_le(utf8_bytes(v[i]), utf8_bytes(v[j]))
}

/// Sorts strings by their bytes, as `String`'s order does.
pub fn sort_strings(v: Vec<String>) -> (r: Vec<String>)
    ensures
        crate::text::string_views(r@).to_multiset() == crate::text::string_views(v@).to_multiset(),
        ascending(r@),
{
    let mut out: Vec<String> = Vec::new();
    let mut n: usize = 0;
    proof {
        assert(crate::text::string_views(out@).to_multiset() =~= crate::text::string_views(v@.take(0)).to_multiset());
    }
    while n < v.len()
        invariant
            0 <= n <= v@.len(),
            crate::text::string_views(out@).to_multiset() == crate::text::string_views(v@.take(n as int)).to_multiset(),
            ascending(out@),
        decreases v.len() - n,
    {
        let s = v[n].clone();
        let mut pos: usize = 0;
        while pos < out.len() && !string_lt(&s, &out[pos])
            invariant
                0 <= pos <= out@.len(),
                forall|a: int| 0 <= a < pos ==> !lex_lt(utf8_bytes(s), utf8_bytes(#[trigger] out@[a])),
            decreases out.len() - pos,
        {
            pos = pos + 1;
        }
        let ghost old_out = out@;
        let ghost sb = utf8_bytes(s);
        proof {
            if pos < old_out.len() {
                assert(lex_lt(sb, utf8_bytes(old_out[pos as int])));
            }
        }
        out.insert(pos, s);
        proof {
            assert forall|i: int, j: int| 0 <= i < j < out@.len() implies lex_le(
                utf8_bytes(out@[i]),
                utf8_bytes(out@[j]),
            ) by {
                if j < pos {
                    assert(out@[i] == old_out[i]);
                    assert(out@[j] == old_out[j]);
                } else if j == pos {
                    assert(out@[i] == old_out[i]);
                    assert(utf8_bytes(out@[j]) == sb);
                    lemma_lex_total(sb, utf8_bytes(old_out[i]));
                    assert(!lex_lt(sb, utf8_bytes(old_out[i])));
                } else if i == pos {
                    assert(out@[j] == old_out[j - 1]);
                    assert(utf8_bytes(out@[i]) == sb);
                    if j - 1 > pos {
                        assert(lex_le(utf8_bytes(old_out[pos as int]), utf8_bytes(old_out[j - 1])));
                        if lex_lt(utf8_bytes(old_out[pos as int]), utf8_bytes(old_out[j - 1])) {
                            lemma_lex_transitive(sb, utf8_bytes(old_out[pos as int]), utf8_bytes(old_out[j - 1]));
                        }
                    }
                    assert(lex_lt(sb, utf8_bytes(old_out[j - 1])));
                } else if i < pos {
                    assert(out@[i] == old_out[i]);
                    assert(out@[j] == old_out[j - 1]);
                } else {
                    assert(out@[i] == old_out[i - 1]);
                    assert(out@[j] == old_out[j - 1]);
                }
            }
            vstd::seq_lib::to_multiset_insert(crate::text::string_views(old_out), pos as int, s@);
            assert(crate::text::string_views(out@) =~= crate::text::string_views(old_out).insert(pos as int, s@));
            assert(crate::text::string_views(v@.take(n + 1)) =~= crate::text::string_views(v@.take(n as int)).push(s@));
        }
        n = n + 1;
    }
    proof {
        assert(v@.take(v@.len() as int) =~= v@);
    }
    out
}

// ---------------------------------------------------------------------------
// Stable ordering of indices by a text key and a number
// ---------------------------------------------------------------------------

/// Whether entry `i` comes before entry `j`: by text, then by number (both
/// descending when `reverse`), then by position (so equal keys keep their
/// order, as a stable sort does).
pub open spec fn entry_before(texts: Seq<Seq<u8>>, numbers: Seq<u64>, reverse: bool, i: int, j: int) -> bool {
    if reverse {
        ||| lex_lt(texts[j], texts[i])
        ||| texts[i] == texts[j] && numbers[j] < numbers[i]
        ||| texts[i] == texts[j] && numbers[i] == numbers[j] && i < j
    } else {
        ||| lex_lt(texts[i], texts[j])
        ||| texts[i] == texts[j] && numbers[i] < numbers[j]
        ||| texts[i] == texts[j] && numbers[i] == numbers[j] && i < j
    }
}

pub proof fn lemma_entry_before_transitive(texts: Seq<Seq<u8>>, numbers: Seq<u64>, reverse: bool, i: int, j: int, k: int)
    requires
        entry_before(texts, numbers, reverse, i, j),
        entry_before(texts, numbers, reverse, j, k),
    ensures
        entry_before(texts, numbers, reverse, i, k),
{
    if lex_lt(texts[i], texts[j]) && lex_lt(texts[j], texts[k]) {
        lemma_lex_transitive(texts[i], texts[j], texts[k]);
    }
    if lex_lt(texts[k], texts[j]) && lex_lt(texts[j], texts[i]) {
        lemma_lex_transitive(texts[k], texts[j], texts[i]);
    }
}

pub proof fn lemma_entry_before_total(texts: Seq<Seq<u8>>, numbers: Seq<u64>, reverse: bool, i: int, j: int)
    requires
        i != j,
    ensures
        entry_before(texts, numbers, reverse, i, j) || entry_before(texts, numbers, reverse, j, i),
{
    lemma_lex_total(texts[i], texts[j]);
}

/// Whether the indices are in increasing entry order.
pub open spec fn entries_sorted(texts: Seq<Seq<u8>>, numbers: Seq<u64>, reverse: bool, s: Seq<usize>) -> bool {
    forall|a: int, b: int|
        0 <= a < b < s.len() ==> entry_before(texts, numbers, reverse, s[a] as int, s[b] as int)
}

/// Whether entry `i` comes before entry `j`.
fn entry_lt(texts: &Vec<Vec<u8>>, numbers: &Vec<u64>, reverse: bool, i: usize, j: usize) -> (r: bool)
    requires
        i < texts@.len(),
        j < texts@.len(),
        texts@.len() == numbers@.len(),
    ensures
        r == entry_before(crate::text::nested_view(texts@), numbers@, reverse, i as int, j as int),
{
    let ti = texts[i].as_slice();
    let tj = texts[j].as_slice();
    proof {
        assert(crate::text::nested_view(texts@)[i as int] == ti@);
        assert(crate::text::nested_view(texts@)[j as int] == tj@);
    }
    let (first, second) = if reverse {
        (tj, ti)
    } else {
        (ti, tj)
    };
    if bytes_lt(first, second) {
        return true;
    }
    if bytes_lt(second, first) {
        proof {
            lemma_lex_asymmetric(second@, first@);
            if ti@ == tj@ {
                lemma_lex_irreflexive(ti@);
            }
        }
        return false;
    }
    proof {
        lemma_lex_total(ti@, tj@);
    }
    if reverse {
        numbers[j] < numbers[i] || (numbers[i] == numbers[j] && i < j)
    } else {
        numbers[i] < numbers[j] || (numbers[i] == numbers[j] && i < j)
    }
}

/// Puts the given positions in entry order: by text, then by number (both
/// descending when `reverse`), and equal keys in their given order.
pub fn order_entries(texts: &Vec<Vec<u8>>, numbers: &Vec<u64>, reverse: bool, idx: Vec<usize>) -> (r: Vec<usize>)
    requires
        texts@.len() == numbers@.len(),
        forall|a: int| 0 <= a < idx@.len() ==> idx@[a] < texts@.len(),
        forall|a: int, b: int| 0 <= a < b < idx@.len() ==> idx@[a] < idx@[b],
    ensures
        r@.to_multiset() == idx@.to_multiset(),
        entries_sorted(crate::text::nested_view(texts@), numbers@, reverse, r@),
{
    let ghost tv = crate::text::nested_view(texts@);
    let mut out: Vec<usize> = Vec::new();
    let mut n: usize = 0;
    proof {
        assert(idx@.take(0) =~= Seq::<usize>::empty());
        assert(out@.to_multiset() =~= Multiset::<usize>::empty());
    }
    while n < idx.len()
        invariant
            texts@.len() == numbers@.len(),
            tv == crate::text::nested_view(texts@),
            forall|a: int| 0 <= a < idx@.len() ==> idx@[a] < texts@.len(),
            forall|a: int, b: int| 0 <= a < b < idx@.len() ==> idx@[a] < idx@[b],
            0 <= n <= idx.len(),
            out@.to_multiset() == idx@.take(n as int).to_multiset(),
            entries_sorted(tv, numbers@, reverse, out@),
            forall|a: int| 0 <= a < out@.len() ==> out@[a] < texts@.len(),
            forall|a: int|
                0 <= a < out@.len() ==> (#[trigger] out@[a]) < idx@[n as int] || n == idx@.len(),
        decreases idx.len() - n,
    {
        let x = idx[n];
        let mut pos: usize = 0;
        while pos < out.len() && entry_lt(texts, numbers, reverse, out[pos], x)
            invariant
                texts@.len() == numbers@.len(),
                tv == crate::text::nested_view(texts@),
                x < texts@.len(),
                0 <= pos <= out@.len(),
                forall|a: int| 0 <= a < out@.len() ==> out@[a] < texts@.len(),
                forall|a: int| 0 <= a < pos ==> entry_before(tv, numbers@, reverse, #[trigger] out@[a] as int, x as int),
            decreases out.len() - pos,
        {
            pos = pos + 1;
        }
        let ghost old_out = out@;
        proof {
            if pos < out.len() {
                assert(out@[pos as int] < x);
                lemma_entry_before_total(tv, numbers@, reverse, out@[pos as int] as int, x as int);
            }
        }
        out.insert(pos, x);
        proof {
            vstd::seq_lib::to_multiset_insert(old_out, pos as int, x);
            assert(idx@.take(n + 1) =~= idx@.take(n as int).push(x));
            assert(out@.to_multiset() =~= idx@.take(n + 1).to_multiset());
            assert forall|a: int, b: int| 0 <= a < b < out@.len() implies entry_before(
                tv,
                numbers@,
                reverse,
                out@[a] as int,
                out@[b] as int,
            ) by {
                if b < pos {
                    assert(out@[a] == old_out[a]);
                    assert(out@[b] == old_out[b]);
                } else if b == pos {
                    assert(out@[a] == old_out[a]);
                } else if a == pos {
                    assert(out@[b] == old_out[b - 1]);
                    if b - 1 > pos {
                        lemma_entry_before_transitive(tv, numbers@, reverse, x as int, old_out[pos as int] as int, old_out[b - 1] as int);
                    }
                } else if a < pos {
                    assert(out@[a] == old_out[a]);
                    assert(out@[b] == old_out[b - 1]);
                    assert(entry_before(tv, numbers@, reverse, x as int, old_out[b - 1] as int)) by {
                        if b - 1 > pos {
                            lemma_entry_before_transitive(tv, numbers@, reverse, x as int, old_out[pos as int] as int, old_out[b - 1] as int);
                        }
                    }
                    lemma_entry_before_transitive(tv, numbers@, reverse, old_out[a] as int, x as int, old_out[b - 1] as int);
                } else {
                    assert(out@[a] == old_out[a - 1]);
                    assert(out@[b] == old_out[b - 1]);
                }
            }
            assert forall|a: int| 0 <= a < out@.len() implies (#[trigger] out@[a]) < idx@[n + 1] || n + 1
                == idx@.len() by {
                if n + 1 < idx@.len() {
                    if a == pos {
                    } else if a < pos {
                        assert(out@[a] == old_out[a]);
                    } else {
                        assert(out@[a] == old_out[a - 1]);
                    }
                }
            }
        }
        n = n + 1;
    }
    proof {
        assert(idx@.take(idx@.len() as int) =~= idx@);
    }
    out
}

} // verus!
