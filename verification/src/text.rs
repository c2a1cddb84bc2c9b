//! Byte-level text model: ASCII whitespace, trimming, splitting a file's
//! contents into lines, and joining lines back together.

use vstd::prelude::*;

verus! {

/// Newline byte `\n`.
pub const NL: u8 = 10;

/// ASCII whitespace: tab, line feed, vertical tab, form feed, carriage
/// return, and space.
pub open spec fn is_space(b: u8) -> bool {
    b == 32 || (9 <= b && b <= 13)
}

pub fn is_space_byte(b: u8) -> (r: bool)
    ensures
        r == is_space(b),
{
    b == 32 || (9 <= b && b <= 13)
}

/// The sequence with its leading whitespace removed.
pub open spec fn ltrim(s: Seq<u8>) -> Seq<u8>
    decreases s.len(),
{
    if s.len() > 0 && is_space(s[0]) {
        ltrim(s.drop_first())
    } else {
        s
    }
}

/// The sequence with its trailing whitespace removed.
pub open spec fn rtrim(s: Seq<u8>) -> Seq<u8>
    decreases s.len(),
{
    if s.len() > 0 && is_space(s[s.len() - 1]) {
        rtrim(s.drop_last())
    } else {
        s
    }
}

/// The sequence with leading and trailing whitespace removed.
pub open spec fn trim(s: Seq<u8>) -> Seq<u8> {
    rtrim(ltrim(s))
}

/// If the first `k` bytes are whitespace and byte `k` (when present) is not,
/// then `ltrim` drops exactly those `k` bytes.
pub proof fn lemma_ltrim_at(s: Seq<u8>, k: int)
    requires
        0 <= k <= s.len(),
        forall|i: int| 0 <= i < k ==> is_space(s[i]),
        k < s.len() ==> !is_space(s[k]),
    ensures
        ltrim(s) == s.skip(k),
    decreases k,
{
    if k == 0 {
        assert(s.skip(0) == s);
    } else {
        lemma_ltrim_at(s.drop_first(), k - 1);
        assert(s.drop_first().skip(k - 1) == s.skip(k));
    }
}

/// If the bytes from `k` on are whitespace and byte `k - 1` (when present) is
/// not, then `rtrim` keeps exactly the first `k` bytes.
proof fn lemma_rtrim_at(s: Seq<u8>, k: int)
    requires
        0 <= k <= s.len(),
        forall|i: int| k <= i < s.len() ==> is_space(s[i]),
        k > 0 ==> !is_space(s[k - 1]),
    ensures
        rtrim(s) == s.take(k),
    decreases s.len() - k,
{
    if k == s.len() {
        assert(s.take(k) == s);
    } else {
        lemma_rtrim_at(s.drop_last(), k);
        assert(s.drop_last().take(k) == s.take(k));
    }
}

/// `trim` of a sequence that neither starts nor ends with whitespace is the
/// sequence itself; in particular `trim` is idempotent.
pub proof fn lemma_trim_nop(s: Seq<u8>)
    requires
        s.len() > 0 ==> !is_space(s[0]) && !is_space(s[s.len() - 1]),
    ensures
        trim(s) == s,
{
    lemma_ltrim_at(s, 0);
    assert(s.skip(0) == s);
    lemma_rtrim_at(s, s.len() as int);
    assert(s.take(s.len() as int) == s);
}

/// `trim(s)` is always a contiguous piece of `s`, so every byte of the result
/// occurs in `s`; also, the result neither starts nor ends with whitespace.
pub proof fn lemma_trim_shape(s: Seq<u8>)
    ensures
        trim(s).len() > 0 ==> !is_space(trim(s)[0]) && !is_space(trim(s)[trim(s).len() - 1]),
        forall|i: int| 0 <= i < trim(s).len() ==> s.contains(#[trigger] trim(s)[i]),
    decreases s.len(),
{
    lemma_ltrim_shape(s);
    let l = ltrim(s);
    lemma_rtrim_shape(l);
    assert forall|i: int| 0 <= i < trim(s).len() implies s.contains(#[trigger] trim(s)[i]) by {
        assert(l.contains(trim(s)[i]));
        let j = choose|j: int| 0 <= j < l.len() && l[j] == trim(s)[i];
        assert(s.contains(l[j]));
    }
}

proof fn lemma_ltrim_shape(s: Seq<u8>)
    ensures
        ltrim(s).len() > 0 ==> !is_space(ltrim(s)[0]),
        forall|i: int| 0 <= i < ltrim(s).len() ==> s.contains(#[trigger] ltrim(s)[i]),
    decreases s.len(),
{
    if s.len() > 0 && is_space(s[0]) {
        lemma_ltrim_shape(s.drop_first());
        assert forall|i: int| 0 <= i < ltrim(s).len() implies s.contains(
            #[trigger] ltrim(s)[i],
        ) by {
            assert(s.drop_first().contains(ltrim(s)[i]));
            let j = choose|j: int|
                0 <= j < s.drop_first().len() && s.drop_first()[j] == ltrim(s)[i];
            assert(s[j + 1] == ltrim(s)[i]);
        }
    } else {
        assert forall|i: int| 0 <= i < ltrim(s).len() implies s.contains(
            #[trigger] ltrim(s)[i],
        ) by {
            assert(s[i] == ltrim(s)[i]);
        }
    }
}

proof fn lemma_rtrim_shape(s: Seq<u8>)
    ensures
        rtrim(s).len() > 0 ==> !is_space(rtrim(s)[rtrim(s).len() - 1]),
        rtrim(s).len() > 0 && !is_space(s[0]) ==> !is_space(rtrim(s)[0]),
        forall|i: int| 0 <= i < rtrim(s).len() ==> s.contains(#[trigger] rtrim(s)[i]),
    decreases s.len(),
{
    if s.len() > 0 && is_space(s[s.len() - 1]) {
        lemma_rtrim_shape(s.drop_last());
        assert forall|i: int| 0 <= i < rtrim(s).len() implies s.contains(
            #[trigger] rtrim(s)[i],
        ) by {
            assert(s.drop_last().contains(rtrim(s)[i]));
            let j = choose|j: int| 0 <= j < s.drop_last().len() && s.drop_last()[j] == rtrim(s)[i];
            assert(s[j] == rtrim(s)[i]);
        }
    } else {
        assert forall|i: int| 0 <= i < rtrim(s).len() implies s.contains(
            #[trigger] rtrim(s)[i],
        ) by {
            assert(s[i] == rtrim(s)[i]);
        }
    }
}

/// Copy of `s[lo..hi]` with surrounding whitespace removed.
pub fn trim_range(s: &[u8], lo: usize, hi: usize) -> (r: Vec<u8>)
    requires
        lo <= hi <= s@.len(),
    ensures
        r@ == trim(s@.subrange(lo as int, hi as int)),
{
    let ghost sub = s@.subrange(lo as int, hi as int);
    let mut a: usize = lo;
    while a < hi && is_space_byte(*vstd::slice::slice_index_get(s, a))
        invariant
            lo <= a <= hi <= s@.len(),
            forall|i: int| lo <= i < a ==> is_space(s@[i]),
        decreases hi - a,
    {
        a = a + 1;
    }
    if a == hi {
        proof {
            lemma_ltrim_at(sub, (hi - lo) as int);
            assert(ltrim(sub) == Seq::<u8>::empty());
            assert(rtrim(Seq::<u8>::empty()) == Seq::<u8>::empty());
        }
        let r: Vec<u8> = Vec::new();
        assert(r@ =~= trim(sub));
        return r;
    }
    let mut b: usize = hi;
    while b > a && is_space_byte(*vstd::slice::slice_index_get(s, b - 1))
        invariant
            lo <= a <= b <= hi <= s@.len(),
            forall|i: int| b <= i < hi ==> is_space(s@[i]),
        decreases b,
    {
        b = b - 1;
    }
    proof {
        lemma_ltrim_at(sub, a - lo);
        lemma_rtrim_at(sub.skip(a - lo), (b - a) as int);
        assert(trim(sub) =~= s@.subrange(a as int, b as int));
    }
    let mut r: Vec<u8> = Vec::new();
    let mut i: usize = a;
    while i < b
        invariant
            a <= i <= b <= s@.len(),
            r@ =~= s@.subrange(a as int, i as int),
        decreases b - i,
    {
        r.push(*vstd::slice::slice_index_get(s, i));
        assert(r@ =~= s@.subrange(a as int, i + 1));
        i = i + 1;
    }
    assert(r@ =~= trim(sub));
    r
}

/// `ltrim` over a concatenation: leading whitespace is consumed from the
/// first part first.
pub proof fn lemma_ltrim_append(u: Seq<u8>, w: Seq<u8>)
    ensures
        ltrim(u).len() > 0 ==> ltrim(u + w) == ltrim(u) + w,
        ltrim(u).len() == 0 ==> ltrim(u + w) == ltrim(w),
    decreases u.len(),
{
    if u.len() == 0 {
        assert(u + w =~= w);
    } else if is_space(u[0]) {
        lemma_ltrim_append(u.drop_first(), w);
        assert((u + w).drop_first() =~= u.drop_first() + w);
    } else {
        assert(ltrim(u) == u);
        assert(ltrim(u + w) == u + w);
    }
}

/// `rtrim` keeps a prefix of its argument.
pub proof fn lemma_rtrim_prefix(s: Seq<u8>)
    ensures
        rtrim(s).is_prefix_of(s),
        forall|i: int| 0 <= i < rtrim(s).len() ==> rtrim(s)[i] == s[i],
    decreases s.len(),
{
    if s.len() > 0 && is_space(s[s.len() - 1]) {
        lemma_rtrim_prefix(s.drop_last());
    }
}

/// Index of the first occurrence of `b` in `s`, or `s.len()` if absent.
pub open spec fn find_byte(s: Seq<u8>, b: u8) -> int
    decreases s.len(),
{
    if s.len() == 0 {
        0
    } else if s[0] == b {
        0
    } else {
        1 + find_byte(s.drop_first(), b)
    }
}

/// `find_byte` returns the unique position characterized by "no earlier
/// occurrence, and an occurrence there unless past the end".
pub proof fn lemma_find_byte_at(s: Seq<u8>, b: u8, k: int)
    requires
        0 <= k <= s.len(),
        forall|i: int| 0 <= i < k ==> s[i] != b,
        k < s.len() ==> s[k] == b,
    ensures
        find_byte(s, b) == k,
    decreases k,
{
    if k == 0 {
    } else {
        lemma_find_byte_at(s.drop_first(), b, k - 1);
    }
}

/// Basic facts about `find_byte`: it stays in range, bytes before it differ
/// from `b`, and it points at `b` unless `b` is absent.
pub proof fn lemma_find_byte_props(s: Seq<u8>, b: u8)
    ensures
        0 <= find_byte(s, b) <= s.len(),
        forall|i: int| 0 <= i < find_byte(s, b) ==> s[i] != b,
        find_byte(s, b) < s.len() ==> s[find_byte(s, b)] == b,
    decreases s.len(),
{
    if s.len() > 0 && s[0] != b {
        lemma_find_byte_props(s.drop_first(), b);
        assert forall|i: int| 0 <= i < find_byte(s, b) implies s[i] != b by {
            if i > 0 {
                assert(s.drop_first()[i - 1] != b);
            }
        }
    }
}

/// Index of the first occurrence of `b` in `s` at or after `start`, or
/// `s.len()` if there is none.
pub fn find_byte_from(s: &[u8], start: usize, b: u8) -> (idx: usize)
    requires
        start <= s@.len(),
    ensures
        start + find_byte(s@.skip(start as int), b) == idx,
        start <= idx <= s@.len(),
        forall|i: int| start <= i < idx ==> s@[i] != b,
        idx < s@.len() ==> s@[idx as int] == b,
{
    let mut idx: usize = start;
    while idx < s.len() && *vstd::slice::slice_index_get(s, idx) != b
        invariant
            start <= idx <= s@.len(),
            forall|i: int| start <= i < idx ==> s@[i] != b,
        decreases s@.len() - idx,
    {
        idx = idx + 1;
    }
    proof {
        lemma_find_byte_at(s@.skip(start as int), b, idx - start);
    }
    idx
}

/// The lines of `s`: segments between `\n` bytes. Every `\n` separates two
/// lines, so a text with `n` newline bytes has `n + 1` lines; the empty text
/// has the single empty line.
pub open spec fn lines_of(s: Seq<u8>) -> Seq<Seq<u8>>
    decreases s.len(),
{
    let i = find_byte(s, NL);
    if 0 <= i < s.len() {
        seq![s.take(i)] + lines_of(s.skip(i + 1))
    } else {
        seq![s]
    }
}

/// There is always at least one line, and no line contains a newline byte.
pub proof fn lemma_lines_shape(s: Seq<u8>)
    ensures
        lines_of(s).len() > 0,
        forall|i: int|
            0 <= i < lines_of(s).len() ==> !(#[trigger] lines_of(s)[i]).contains(NL),
    decreases s.len(),
{
    lemma_find_byte_props(s, NL);
    let i = find_byte(s, NL);
    if i == s.len() {
        assert forall|j: int|
            0 <= j < lines_of(s).len() implies !(#[trigger] lines_of(s)[j]).contains(NL) by {
            assert(lines_of(s)[j] == s);
            if s.contains(NL) {
                let k = choose|k: int| 0 <= k < s.len() && s[k] == NL;
                assert(false);
            }
        }
    } else {
        lemma_lines_shape(s.skip(i + 1));
        assert forall|j: int|
            0 <= j < lines_of(s).len() implies !(#[trigger] lines_of(s)[j]).contains(NL) by {
            if j == 0 {
                assert(lines_of(s)[0] == s.take(i));
                if s.take(i).contains(NL) {
                    let k = choose|k: int| 0 <= k < i && s.take(i)[k] == NL;
                    assert(false);
                }
            } else {
                assert(lines_of(s)[j] == lines_of(s.skip(i + 1))[j - 1]);
            }
        }
    }
}

/// Lines joined back with `\n` between them.
pub open spec fn join_lines(ls: Seq<Seq<u8>>) -> Seq<u8>
    decreases ls.len(),
{
    if ls.len() == 0 {
        Seq::empty()
    } else if ls.len() == 1 {
        ls[0]
    } else {
        ls[0] + seq![NL] + join_lines(ls.drop_first())
    }
}

/// Joining undoes splitting: `join_lines(lines_of(s)) == s`.
pub proof fn lemma_join_lines_of(s: Seq<u8>)
    ensures
        join_lines(lines_of(s)) == s,
    decreases s.len(),
{
    lemma_find_byte_props(s, NL);
    let i = find_byte(s, NL);
    if i == s.len() {
        assert(join_lines(lines_of(s)) == s);
    } else {
        lemma_join_lines_of(s.skip(i + 1));
        let ls = lines_of(s);
        assert(ls.drop_first() =~= lines_of(s.skip(i + 1)));
        assert(join_lines(ls) =~= s.take(i) + seq![NL] + s.skip(i + 1));
        assert(s.take(i) + seq![NL] + s.skip(i + 1) =~= s);
    }
}

/// Appending one more line to a join adds a `\n` separator unless the join
/// was empty so far.
pub proof fn lemma_join_push(ls: Seq<Seq<u8>>, l: Seq<u8>)
    ensures
        ls.len() == 0 ==> join_lines(ls.push(l)) == l,
        ls.len() > 0 ==> join_lines(ls.push(l)) == join_lines(ls) + seq![NL] + l,
    decreases ls.len(),
{
    if ls.len() == 0 {
        assert(join_lines(ls.push(l)) == ls.push(l)[0]);
        assert(ls.push(l)[0] == l);
    } else if ls.len() == 1 {
        assert(ls.push(l).drop_first() =~= seq![l]);
        assert(ls.push(l)[0] == ls[0]);
        assert(join_lines(seq![l]) == l);
        assert(join_lines(ls.push(l)) == ls[0] + seq![NL] + l);
    } else {
        lemma_join_push(ls.drop_first(), l);
        assert(ls.push(l).drop_first() =~= ls.drop_first().push(l));
        assert(join_lines(ls.push(l)) =~= join_lines(ls) + seq![NL] + l);
    }
}

/// A newline byte between two texts splits their lines:
/// `lines_of(u + "\n" + v) == lines_of(u) + lines_of(v)`.
pub proof fn lemma_lines_append(u: Seq<u8>, v: Seq<u8>)
    ensures
        lines_of(u + seq![NL] + v) == lines_of(u) + lines_of(v),
    decreases u.len(),
{
    let s = u + seq![NL] + v;
    lemma_find_byte_props(u, NL);
    let iu = find_byte(u, NL);
    if iu == u.len() {
        proof_lines_append_base(u, v);
    } else {
        lemma_find_byte_at(s, NL, iu);
        lemma_lines_append(u.skip(iu + 1), v);
        assert(s.skip(iu + 1) =~= u.skip(iu + 1) + seq![NL] + v);
        assert(s.take(iu) =~= u.take(iu));
        assert(lines_of(s) =~= seq![u.take(iu)] + (lines_of(u.skip(iu + 1)) + lines_of(v)));
        assert(lines_of(u) + lines_of(v) =~= seq![u.take(iu)] + (lines_of(u.skip(iu + 1))
            + lines_of(v)));
    }
}

proof fn proof_lines_append_base(u: Seq<u8>, v: Seq<u8>)
    requires
        find_byte(u, NL) == u.len(),
    ensures
        lines_of(u + seq![NL] + v) == lines_of(u) + lines_of(v),
{
    let s = u + seq![NL] + v;
    lemma_find_byte_props(u, NL);
    lemma_find_byte_at(s, NL, u.len() as int);
    assert(s.take(u.len() as int) =~= u);
    assert(s.skip(u.len() as int + 1) =~= v);
    assert(lines_of(s) =~= seq![u] + lines_of(v));
    assert(lines_of(u) == seq![u]);
    assert(lines_of(s) =~= lines_of(u) + lines_of(v));
}

/// Splitting undoes joining, provided no line holds a newline byte.
pub proof fn lemma_lines_join(ls: Seq<Seq<u8>>)
    requires
        ls.len() > 0,
        forall|i: int| 0 <= i < ls.len() ==> !(#[trigger] ls[i]).contains(NL),
    ensures
        lines_of(join_lines(ls)) == ls,
    decreases ls.len(),
{
    if ls.len() == 1 {
        let u = ls[0];
        lemma_find_byte_props(u, NL);
        if find_byte(u, NL) < u.len() {
            assert(u.contains(NL));
        }
        assert(lines_of(join_lines(ls)) == seq![u]);
        assert(seq![u] =~= ls);
    } else {
        assert forall|i: int| 0 <= i < ls.drop_first().len() implies !(
        #[trigger] ls.drop_first()[i]).contains(NL) by {
            assert(ls.drop_first()[i] == ls[i + 1]);
        }
        lemma_lines_join(ls.drop_first());
        let u = ls[0];
        lemma_find_byte_props(u, NL);
        if find_byte(u, NL) < u.len() {
            assert(u.contains(NL));
        }
        lemma_lines_append(u, join_lines(ls.drop_first()));
        assert(lines_of(u) == seq![u]);
        assert(lines_of(join_lines(ls)) == seq![u] + ls.drop_first());
        assert(seq![u] + ls.drop_first() =~= ls);
    }
}

/// Append a copy of `src` to `out`.
pub fn append_bytes(out: &mut Vec<u8>, src: &[u8])
    ensures
        final(out)@ == old(out)@ + src@,
{
    let mut i: usize = 0;
    while i < src.len()
        invariant
            i <= src@.len(),
            out@ =~= old(out)@ + src@.take(i as int),
        decreases src@.len() - i,
    {
        out.push(*vstd::slice::slice_index_get(src, i));
        assert(out@ =~= old(out)@ + src@.take(i + 1));
        i = i + 1;
    }
    assert(out@ =~= old(out)@ + src@);
}

/// Copy of a byte slice as a vector.
pub fn copy_bytes(src: &[u8]) -> (r: Vec<u8>)
    ensures
        r@ == src@,
{
    let mut r: Vec<u8> = Vec::new();
    append_bytes(&mut r, src);
    r
}

} // verus!
