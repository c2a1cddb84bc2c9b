//! Parsing of `.env`-style text into an ordered key/value mapping.
//!
//! A line whose first non-whitespace byte is `#` is a comment; a line without
//! `=` is ignored; any other line is split at its first `=`, and key and
//! value are trimmed. A later line with the same key replaces the earlier
//! entry, and the entry moves to the position of that last write.

use vstd::prelude::*;

use crate::text::{
    find_byte, is_space, lemma_find_byte_props, lemma_lines_shape, lines_of, ltrim, trim,
    trim_range, NL,
};

verus! {

/// `#`, the comment marker.
pub const HASH: u8 = 35;

/// `=`, the key/value separator.
pub const EQ: u8 = 61;

/// What one line contributes to the mapping: `None` for comments and lines
/// without `=`, otherwise the trimmed key and value split at the first `=`.
pub open spec fn parse_line(l: Seq<u8>) -> Option<(Seq<u8>, Seq<u8>)> {
    if ltrim(l).len() > 0 && ltrim(l)[0] == HASH {
        None
    } else if find_byte(l, EQ) < l.len() {
        let i = find_byte(l, EQ);
        Some((trim(l.take(i)), trim(l.skip(i + 1))))
    } else {
        None
    }
}

/// The mapping without any entry for key `k`, other entries in order.
pub open spec fn env_remove(m: Seq<(Seq<u8>, Seq<u8>)>, k: Seq<u8>) -> Seq<(Seq<u8>, Seq<u8>)>
    decreases m.len(),
{
    if m.len() == 0 {
        Seq::empty()
    } else {
        let r = env_remove(m.drop_last(), k);
        if m.last().0 == k {
            r
        } else {
            r.push(m.last())
        }
    }
}

/// Writing `k = v`: any earlier entry for `k` goes away and the pair takes
/// the final position.
pub open spec fn env_insert(
    m: Seq<(Seq<u8>, Seq<u8>)>,
    k: Seq<u8>,
    v: Seq<u8>,
) -> Seq<(Seq<u8>, Seq<u8>)> {
    env_remove(m, k).push((k, v))
}

/// The mapping built by reading the given lines in order.
pub open spec fn env_of_lines(ls: Seq<Seq<u8>>) -> Seq<(Seq<u8>, Seq<u8>)>
    decreases ls.len(),
{
    if ls.len() == 0 {
        Seq::empty()
    } else {
        let m = env_of_lines(ls.drop_last());
        match parse_line(ls.last()) {
            Some(kv) => env_insert(m, kv.0, kv.1),
            None => m,
        }
    }
}

/// The mapping a whole text parses to.
pub open spec fn env_map(s: Seq<u8>) -> Seq<(Seq<u8>, Seq<u8>)> {
    env_of_lines(lines_of(s))
}

/// Whether the mapping has an entry for key `k`.
pub open spec fn env_contains(m: Seq<(Seq<u8>, Seq<u8>)>, k: Seq<u8>) -> bool {
    exists|i: int| 0 <= i < m.len() && m[i].0 == k
}

/// The value under key `k`; the latest entry wins.
pub open spec fn env_get(m: Seq<(Seq<u8>, Seq<u8>)>, k: Seq<u8>) -> Option<Seq<u8>>
    decreases m.len(),
{
    if m.len() == 0 {
        None
    } else if m.last().0 == k {
        Some(m.last().1)
    } else {
        env_get(m.drop_last(), k)
    }
}

/// `env_get` finds an entry exactly when `env_contains` says one is there.
pub proof fn lemma_get_contains(m: Seq<(Seq<u8>, Seq<u8>)>, k: Seq<u8>)
    ensures
        env_get(m, k) is Some <==> env_contains(m, k),
    decreases m.len(),
{
    if m.len() > 0 && m.last().0 != k {
        lemma_get_contains(m.drop_last(), k);
        if env_contains(m, k) {
            let i = choose|i: int| 0 <= i < m.len() && m[i].0 == k;
            assert(m.drop_last()[i] == m[i]);
        }
        if env_contains(m.drop_last(), k) {
            let i = choose|i: int| 0 <= i < m.drop_last().len() && m.drop_last()[i].0 == k;
            assert(m[i] == m.drop_last()[i]);
        }
    }
}

/// Removing `k` keeps exactly the entries for other keys, values untouched.
pub proof fn lemma_remove_get(m: Seq<(Seq<u8>, Seq<u8>)>, k: Seq<u8>, k2: Seq<u8>)
    ensures
        k2 != k ==> env_get(env_remove(m, k), k2) == env_get(m, k2),
        !env_contains(env_remove(m, k), k),
    decreases m.len(),
{
    if m.len() > 0 {
        lemma_remove_get(m.drop_last(), k, k2);
        let r = env_remove(m.drop_last(), k);
        if m.last().0 != k {
            assert(r.push(m.last()).drop_last() == r);
            if env_contains(r.push(m.last()), k) {
                let i = choose|i: int|
                    0 <= i < r.push(m.last()).len() && r.push(m.last())[i].0 == k;
                assert(i < r.len() && r[i] == r.push(m.last())[i]);
            }
        }
    }
}

/// What `env_insert` does to lookups: the new key maps to the new value, any
/// other key is untouched.
pub proof fn lemma_insert_get(m: Seq<(Seq<u8>, Seq<u8>)>, k: Seq<u8>, v: Seq<u8>, k2: Seq<u8>)
    ensures
        env_get(env_insert(m, k, v), k) == Some(v),
        k2 != k ==> env_get(env_insert(m, k, v), k2) == env_get(m, k2),
    decreases m.len(),
{
    let r = env_remove(m, k);
    assert(r.push((k, v)).drop_last() == r);
    lemma_remove_get(m, k, k2);
}

/// Whether line `l` contributes an entry for key `k`.
pub open spec fn line_defines(l: Seq<u8>, k: Seq<u8>) -> bool {
    parse_line(l) matches Some(kv) && kv.0 == k
}

/// Keys of the mapping read from lines: exactly the keys that some line
/// parses to.
pub proof fn lemma_env_of_lines_contains(ls: Seq<Seq<u8>>, k: Seq<u8>)
    ensures
        env_contains(env_of_lines(ls), k) <==> exists|i: int|
            0 <= i < ls.len() && #[trigger] line_defines(ls[i], k),
    decreases ls.len(),
{
    if ls.len() > 0 {
        lemma_env_of_lines_contains(ls.drop_last(), k);
        let m = env_of_lines(ls.drop_last());
        let n = env_of_lines(ls);
        lemma_get_contains(m, k);
        lemma_get_contains(n, k);
        step_contains_carry(ls, k);
        match parse_line(ls.last()) {
            Some(kv) => {
                lemma_insert_get(m, kv.0, kv.1, k);
                if kv.0 == k {
                    assert(line_defines(ls[ls.len() - 1], k));
                }
            },
            None => {
                if env_contains(n, k) || exists|i: int|
                    0 <= i < ls.len() && #[trigger] line_defines(ls[i], k) {
                    if exists|i: int| 0 <= i < ls.len() && #[trigger] line_defines(ls[i], k) {
                        let i = choose|i: int|
                            0 <= i < ls.len() && #[trigger] line_defines(ls[i], k);
                        assert(i < ls.len() - 1 || !line_defines(ls.last(), k));
                    }
                }
            },
        }
    }
}

/// In the inductive step, a line of `ls.drop_last()` is a line of `ls` and
/// conversely (for keys not introduced by the last line).
proof fn step_contains_carry(ls: Seq<Seq<u8>>, k: Seq<u8>)
    requires
        ls.len() > 0,
    ensures
        (exists|i: int| 0 <= i < ls.drop_last().len() && #[trigger] line_defines(
            ls.drop_last()[i],
            k,
        )) <==> exists|i: int| 0 <= i < ls.len() - 1 && #[trigger] line_defines(ls[i], k),
{
    if exists|i: int|
        0 <= i < ls.drop_last().len() && #[trigger] line_defines(ls.drop_last()[i], k) {
        let i = choose|i: int|
            0 <= i < ls.drop_last().len() && #[trigger] line_defines(ls.drop_last()[i], k);
        assert(line_defines(ls[i], k));
    }
    if exists|i: int| 0 <= i < ls.len() - 1 && #[trigger] line_defines(ls[i], k) {
        let i = choose|i: int| 0 <= i < ls.len() - 1 && #[trigger] line_defines(ls[i], k);
        assert(line_defines(ls.drop_last()[i], k));
    }
}

/// A key as parsing produces it: trimmed, free of `=` and newline bytes, and
/// not opening a comment.
pub open spec fn wf_key(k: Seq<u8>) -> bool {
    &&& trim(k) == k
    &&& !k.contains(EQ)
    &&& !k.contains(NL)
    &&& k.len() > 0 ==> k[0] != HASH
}

/// A value as parsing produces it: trimmed and free of newline bytes.
pub open spec fn wf_val(v: Seq<u8>) -> bool {
    &&& trim(v) == v
    &&& !v.contains(NL)
}

/// Every entry of the mapping has a well-formed key and value.
pub open spec fn all_wf(m: Seq<(Seq<u8>, Seq<u8>)>) -> bool {
    forall|i: int| 0 <= i < m.len() ==> wf_key((#[trigger] m[i]).0) && wf_val(m[i].1)
}

/// A line without newline bytes parses only to a well-formed key and value.
pub proof fn lemma_parse_line_wf(l: Seq<u8>)
    requires
        !l.contains(NL),
    ensures
        parse_line(l) matches Some(kv) ==> wf_key(kv.0) && wf_val(kv.1),
{
    if parse_line(l) is Some {
        let i = find_byte(l, EQ);
        crate::text::lemma_find_byte_props(l, EQ);
        let kpart = l.take(i);
        let vpart = l.skip(i + 1);
        let k = trim(kpart);
        let v = trim(vpart);
        crate::text::lemma_trim_shape(kpart);
        crate::text::lemma_trim_nop(k);
        crate::text::lemma_trim_shape(vpart);
        crate::text::lemma_trim_nop(v);
        assert forall|j: int| 0 <= j < k.len() implies k[j] != EQ && k[j] != NL by {
            assert(kpart.contains(k[j]));
            let x = choose|x: int| 0 <= x < kpart.len() && kpart[x] == k[j];
            assert(l[x] == kpart[x]);
            assert(!l.contains(NL) && 0 <= x < l.len() ==> l[x] != NL);
        }
        if k.contains(EQ) {
            let j = choose|j: int| 0 <= j < k.len() && k[j] == EQ;
            assert(false);
        }
        if k.contains(NL) {
            let j = choose|j: int| 0 <= j < k.len() && k[j] == NL;
            assert(false);
        }
        assert forall|j: int| 0 <= j < v.len() implies v[j] != NL by {
            assert(vpart.contains(v[j]));
            let x = choose|x: int| 0 <= x < vpart.len() && vpart[x] == v[j];
            assert(l[x + i + 1] == vpart[x]);
        }
        if v.contains(NL) {
            let j = choose|j: int| 0 <= j < v.len() && v[j] == NL;
            assert(false);
        }
        if k.len() > 0 {
            crate::text::lemma_rtrim_prefix(ltrim(kpart));
            assert(k[0] == ltrim(kpart)[0]);
            assert(l =~= kpart + l.skip(i));
            crate::text::lemma_ltrim_append(kpart, l.skip(i));
            assert(ltrim(l)[0] == ltrim(kpart)[0]);
        }
    }
}

/// Every entry of `env_remove(m, k)` is an entry of `m`.
pub proof fn lemma_remove_sub(m: Seq<(Seq<u8>, Seq<u8>)>, k: Seq<u8>)
    ensures
        forall|i: int|
            0 <= i < env_remove(m, k).len() ==> m.contains(#[trigger] env_remove(m, k)[i]),
    decreases m.len(),
{
    if m.len() > 0 {
        lemma_remove_sub(m.drop_last(), k);
        let r = env_remove(m.drop_last(), k);
        assert forall|i: int|
            0 <= i < env_remove(m, k).len() implies m.contains(#[trigger] env_remove(m, k)[i]) by {
            if i < r.len() {
                assert(env_remove(m, k)[i] == r[i]);
                assert(m.drop_last().contains(r[i]));
                let j = choose|j: int| 0 <= j < m.drop_last().len() && m.drop_last()[j] == r[i];
                assert(m[j] == r[i]);
            } else {
                assert(env_remove(m, k)[i] == m.last());
            }
        }
    }
}

/// Parsing yields only well-formed keys and values.
pub proof fn lemma_env_of_lines_wf(ls: Seq<Seq<u8>>)
    requires
        forall|i: int| 0 <= i < ls.len() ==> !(#[trigger] ls[i]).contains(NL),
    ensures
        all_wf(env_of_lines(ls)),
    decreases ls.len(),
{
    if ls.len() > 0 {
        lemma_env_of_lines_wf(ls.drop_last());
        let m = env_of_lines(ls.drop_last());
        lemma_parse_line_wf(ls.last());
        match parse_line(ls.last()) {
            Some(kv) => {
                lemma_remove_sub(m, kv.0);
                let r = env_remove(m, kv.0);
                assert forall|i: int|
                    0 <= i < env_of_lines(ls).len() implies wf_key(
                    (#[trigger] env_of_lines(ls)[i]).0,
                ) && wf_val(env_of_lines(ls)[i].1) by {
                    if i < r.len() {
                        assert(env_of_lines(ls)[i] == r[i]);
                        assert(m.contains(r[i]));
                        let j = choose|j: int| 0 <= j < m.len() && m[j] == r[i];
                        assert(wf_key(m[j].0) && wf_val(m[j].1));
                    } else {
                        assert(env_of_lines(ls)[i] == (kv.0, kv.1));
                    }
                }
            },
            None => {},
        }
    }
}

/// Every entry of the mapping parsed from any text is well formed.
pub proof fn lemma_env_map_wf(s: Seq<u8>)
    ensures
        all_wf(env_map(s)),
{
    lemma_lines_shape(s);
    lemma_env_of_lines_wf(lines_of(s));
}

/// The single line `k=v` parses back to exactly `(k, v)` and holds no
/// newline byte.
pub proof fn lemma_kv_line_parses(k: Seq<u8>, v: Seq<u8>)
    requires
        wf_key(k),
        wf_val(v),
    ensures
        parse_line(k + seq![EQ] + v) == Some((k, v)),
        !(k + seq![EQ] + v).contains(NL),
{
    let l = k + seq![EQ] + v;
    if l.contains(NL) {
        let j = choose|j: int| 0 <= j < l.len() && l[j] == NL;
        if j < k.len() {
            assert(k[j] == NL);
        } else if j > k.len() {
            assert(v[j - k.len() - 1] == NL);
        }
        assert(false);
    }
    crate::text::lemma_trim_shape(k);
    if k.len() > 0 {
        assert(!is_space(k[0]));
        assert(l[0] == k[0]);
        assert(ltrim(l) == l);
    } else {
        assert(l =~= seq![EQ] + v);
        assert(!is_space(l[0]));
        assert(ltrim(l) == l);
    }
    assert(ltrim(l)[0] != HASH);
    assert forall|j: int| 0 <= j < k.len() implies l[j] != EQ by {
        assert(l[j] == k[j]);
        assert(!k.contains(EQ) && 0 <= j < k.len() ==> k[j] != EQ);
    }
    crate::text::lemma_find_byte_at(l, EQ, k.len() as int);
    assert(l.take(k.len() as int) =~= k);
    assert(l.skip(k.len() as int + 1) =~= v);
    assert(parse_line(l) == Some((trim(k), trim(v))));
}

/// The view of a vector of stored pairs, as a sequence of byte-sequence
/// pairs.
pub open spec fn pairs_view(ps: Seq<(Vec<u8>, Vec<u8>)>) -> Seq<(Seq<u8>, Seq<u8>)> {
    ps.map_values(|p: (Vec<u8>, Vec<u8>)| (p.0@, p.1@))
}

/// An ordered key/value mapping read from `.env`-style text.
pub struct EnvMapping {
    pairs: Vec<(Vec<u8>, Vec<u8>)>,
}

impl View for EnvMapping {
    type V = Seq<(Seq<u8>, Seq<u8>)>;

    closed spec fn view(&self) -> Seq<(Seq<u8>, Seq<u8>)> {
        pairs_view(self.pairs@)
    }
}

impl EnvMapping {
    /// The number of entries.
    pub fn len(&self) -> (n: usize)
        ensures
            n == self@.len(),
    {
        self.pairs.len()
    }

    /// The entry at position `i`, as copies of its key and value.
    pub fn pair_at(&self, i: usize) -> (p: (Vec<u8>, Vec<u8>))
        requires
            i < self@.len(),
        ensures
            (p.0@, p.1@) == self@[i as int],
    {
        let (k, v) = &self.pairs[i];
        (crate::text::copy_bytes(k.as_slice()), crate::text::copy_bytes(v.as_slice()))
    }

    /// Whether the mapping has an entry for `key`.
    pub fn contains_key(&self, key: &[u8]) -> (r: bool)
        ensures
            r == env_contains(self@, key@),
    {
        let n = self.pairs.len();
        let mut i: usize = 0;
        while i < n
            invariant
                i <= n == self@.len(),
                forall|j: int| 0 <= j < i ==> self@[j].0 != key@,
            decreases n - i,
        {
            if eq_bytes(self.pairs[i].0.as_slice(), key) {
                proof {
                    assert(self@[i as int].0 == key@);
                }
                return true;
            }
            proof {
                assert(self@[i as int].0 != key@);
            }
            i = i + 1;
        }
        false
    }

    /// The value under `key`, or `None`; the latest entry wins.
    pub fn get(&self, key: &[u8]) -> (r: Option<Vec<u8>>)
        ensures
            match r {
                Some(v) => env_get(self@, key@) == Some(v@),
                None => env_get(self@, key@) is None,
            },
    {
        let mut i: usize = self.pairs.len();
        proof {
            assert(self@.take(i as int) =~= self@);
        }
        while i > 0
            invariant
                i <= self@.len(),
                env_get(self@, key@) == env_get(self@.take(i as int), key@),
            decreases i,
        {
            proof {
                assert(self@.take(i as int).drop_last() =~= self@.take(i - 1));
                assert(self@.take(i as int).last() == self@[i - 1]);
            }
            if eq_bytes(self.pairs[i - 1].0.as_slice(), key) {
                return Some(crate::text::copy_bytes(self.pairs[i - 1].1.as_slice()));
            }
            i = i - 1;
        }
        proof {
            assert(self@.take(0) =~= Seq::<(Seq<u8>, Seq<u8>)>::empty());
        }
        None
    }
}

/// Byte-for-byte equality of two slices.
pub fn eq_bytes(a: &[u8], b: &[u8]) -> (r: bool)
    ensures
        r == (a@ == b@),
{
    if a.len() != b.len() {
        proof {
            assert(a@ != b@);
        }
        return false;
    }
    let n = a.len();
    let mut i: usize = 0;
    while i < n
        invariant
            i <= n,
            n == a@.len() == b@.len(),
            forall|j: int| 0 <= j < i ==> a@[j] == b@[j],
        decreases n - i,
    {
        if *vstd::slice::slice_index_get(a, i) != *vstd::slice::slice_index_get(b, i) {
            return false;
        }
        i = i + 1;
    }
    proof {
        assert(a@ =~= b@);
    }
    true
}

/// Parse one line. Matches `parse_line` exactly.
fn parse_line_exec(line: &[u8]) -> (r: Option<(Vec<u8>, Vec<u8>)>)
    ensures
        match r {
            Some(kv) => parse_line(line@) == Some((kv.0@, kv.1@)),
            None => parse_line(line@) is None,
        },
{
    let n = line.len();
    let mut a: usize = 0;
    while a < n && crate::text::is_space_byte(*vstd::slice::slice_index_get(line, a))
        invariant
            a <= n == line@.len(),
            forall|i: int| 0 <= i < a ==> is_space(line@[i]),
        decreases n - a,
    {
        a = a + 1;
    }
    proof {
        crate::text::lemma_ltrim_at(line@, a as int);
    }
    if a < n && *vstd::slice::slice_index_get(line, a) == HASH {
        return None;
    }
    let eq_pos = crate::text::find_byte_from(line, 0, EQ);
    proof {
        assert(line@.skip(0) == line@);
    }
    if eq_pos == n {
        return None;
    }
    let k = trim_range(line, 0, eq_pos);
    let v = trim_range(line, eq_pos + 1, n);
    proof {
        assert(line@.subrange(0, eq_pos as int) == line@.take(eq_pos as int));
        assert(line@.subrange(eq_pos + 1, n as int) == line@.skip(eq_pos + 1));
    }
    Some((k, v))
}

/// Write `k = v` into the accumulating mapping: drop any entry with the same
/// key, then put the pair last.
fn mapping_insert(pairs: &mut Vec<(Vec<u8>, Vec<u8>)>, k: Vec<u8>, v: Vec<u8>)
    ensures
        pairs_view(final(pairs)@) == env_insert(pairs_view(old(pairs)@), k@, v@),
{
    let ghost m0 = pairs_view(old(pairs)@);
    let n = pairs.len();
    let mut out: Vec<(Vec<u8>, Vec<u8>)> = Vec::new();
    let mut i: usize = 0;
    while i < n
        invariant
            i <= n == pairs@.len(),
            pairs@ == old(pairs)@,
            m0 == pairs_view(pairs@),
            m0.len() == n,
            pairs_view(out@) =~= env_remove(m0.take(i as int), k@),
        decreases n - i,
    {
        proof {
            assert(m0.take(i + 1).drop_last() =~= m0.take(i as int));
            assert(m0.take(i + 1).last() == m0[i as int]);
        }
        if !eq_bytes(pairs[i].0.as_slice(), k.as_slice()) {
            let (pk, pv) = pair_copy(&pairs[i]);
            out.push((pk, pv));
            assert(pairs_view(out@) =~= env_remove(m0.take(i + 1), k@));
        }
        i = i + 1;
    }
    proof {
        assert(m0.take(n as int) =~= m0);
    }
    out.push((k, v));
    proof {
        assert(pairs_view(out@) =~= env_insert(m0, k@, v@));
    }
    *pairs = out;
}

/// Copy one stored pair.
pub(crate) fn pair_copy(p: &(Vec<u8>, Vec<u8>)) -> (r: (Vec<u8>, Vec<u8>))
    ensures
        r.0@ == p.0@,
        r.1@ == p.1@,
{
    (crate::text::copy_bytes(p.0.as_slice()), crate::text::copy_bytes(p.1.as_slice()))
}

/// Parse a whole text into its mapping. Comments and lines without `=` are
/// dropped; keys and values are trimmed; a duplicate key keeps only its last
/// value, at the position of the last write.
pub fn parse_env(contents: &[u8]) -> (m: EnvMapping)
    ensures
        m@ == env_map(contents@),
{
    let n = contents.len();
    let mut pairs: Vec<(Vec<u8>, Vec<u8>)> = Vec::new();
    let mut start: usize = 0;
    let ghost all_lines = lines_of(contents@);
    let mut done: usize = 0;
    proof {
        assert(contents@.skip(0) == contents@);
        assert(all_lines.take(0) =~= Seq::<Seq<u8>>::empty());
    }
    loop
        invariant_except_break
            n == contents@.len(),
            start <= n,
            done <= start,
            done <= all_lines.len(),
            all_lines == lines_of(contents@),
            all_lines =~= all_lines.take(done as int) + lines_of(contents@.skip(start as int)),
            pairs_view(pairs@) =~= env_of_lines(all_lines.take(done as int)),
        ensures
            pairs_view(pairs@) =~= env_of_lines(all_lines),
        decreases n - start,
    {
        let idx = crate::text::find_byte_from(contents, start, crate::text::NL);
        let ghost rest = contents@.skip(start as int);
        proof {
            assert(find_byte(rest, crate::text::NL) == idx - start);
            lemma_find_byte_props(rest, crate::text::NL);
        }
        let ghost line = rest.take(idx - start);
        proof {
            assert(line =~= contents@.subrange(start as int, idx as int));
            if idx < n {
                assert(rest.skip(idx - start + 1) =~= contents@.skip(idx + 1));
                assert(lines_of(rest) == seq![line] + lines_of(contents@.skip(idx + 1)));
            } else {
                assert(lines_of(rest) == seq![rest]);
                assert(line =~= rest);
            }
            assert(all_lines[done as int] == line);
            assert(all_lines.take(done + 1) =~= all_lines.take(done as int).push(line));
            assert(all_lines.take(done + 1).drop_last() =~= all_lines.take(done as int));
            assert(all_lines.take(done + 1).last() == line);
        }
        let parsed = parse_line_slice(contents, start, idx);
        match parsed {
            Some((k, v)) => mapping_insert(&mut pairs, k, v),
            None => (),
        }
        proof {
            assert(pairs_view(pairs@) =~= env_of_lines(all_lines.take(done + 1)));
        }
        if idx == n {
            proof {
                assert(all_lines =~= all_lines.take(done + 1));
            }
            break;
        }
        proof {
            assert(all_lines =~= all_lines.take(done + 1) + lines_of(contents@.skip(idx + 1)));
        }
        done = done + 1;
        start = idx + 1;
    }
    EnvMapping { pairs }
}

/// Parse the line `contents[start..end]`.
fn parse_line_slice(contents: &[u8], start: usize, end: usize) -> (r: Option<(Vec<u8>, Vec<u8>)>)
    requires
        start <= end <= contents@.len(),
    ensures
        match r {
            Some(kv) => parse_line(contents@.subrange(start as int, end as int)) == Some(
                (kv.0@, kv.1@),
            ),
            None => parse_line(contents@.subrange(start as int, end as int)) is None,
        },
{
    let line = vstd::slice::slice_subrange(contents, start, end);
    parse_line_exec(line)
}

} // verus!
