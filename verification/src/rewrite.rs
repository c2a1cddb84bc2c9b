//! Rewriting a single key's line in an env file's text: every line whose
//! left-trimmed text starts with `KEY=` is replaced whole, every other line
//! is kept as it is, in its place; the lines are joined back with `\n`.

use vstd::prelude::*;

use crate::envmap::EQ;
use crate::text::{
    find_byte, is_space, join_lines, lemma_join_push, lines_of, ltrim, NL,
};

verus! {

/// Whether the line is the target of a rewrite of `k`: its left-trimmed
/// text starts with the key followed directly by `=`.
pub open spec fn line_matches(l: Seq<u8>, k: Seq<u8>) -> bool {
    &&& ltrim(l).len() > k.len()
    &&& ltrim(l).take(k.len() as int) == k
    &&& ltrim(l)[k.len() as int] == EQ
}

/// The given lines, with every line matching `k` replaced by `nl`.
pub open spec fn replace_in_lines(ls: Seq<Seq<u8>>, k: Seq<u8>, nl: Seq<u8>) -> Seq<Seq<u8>> {
    ls.map_values(|l: Seq<u8>| if line_matches(l, k) { nl } else { l })
}

/// The lines of `s` after the rewrite of `k`.
pub open spec fn replaced_lines(s: Seq<u8>, k: Seq<u8>, nl: Seq<u8>) -> Seq<Seq<u8>> {
    replace_in_lines(lines_of(s), k, nl)
}

/// The whole text after the rewrite of `k`: the replaced lines joined with
/// `\n`. Exactly one `\n` stands between adjacent lines, so the text keeps
/// its shape byte for byte outside the replaced lines.
pub open spec fn replace_spec(s: Seq<u8>, k: Seq<u8>, nl: Seq<u8>) -> Seq<u8> {
    join_lines(replaced_lines(s, k, nl))
}

/// The rewrite touches a line exactly when it matches `key=`: every other
/// line is kept unchanged at its position, every matching line becomes the
/// new line, and a text with no matching line comes back identical.
pub proof fn lemma_replace_key_selective(s: Seq<u8>, k: Seq<u8>, nl: Seq<u8>)
    ensures
        replaced_lines(s, k, nl).len() == lines_of(s).len(),
        forall|i: int|
            0 <= i < lines_of(s).len() && !line_matches(#[trigger] lines_of(s)[i], k)
                ==> replaced_lines(s, k, nl)[i] == lines_of(s)[i],
        forall|i: int|
            0 <= i < lines_of(s).len() && line_matches(#[trigger] lines_of(s)[i], k)
                ==> replaced_lines(s, k, nl)[i] == nl,
        (forall|i: int| 0 <= i < lines_of(s).len() ==> !line_matches(#[trigger] lines_of(s)[i], k))
            ==> replace_spec(s, k, nl) == s,
{
    if forall|i: int| 0 <= i < lines_of(s).len() ==> !line_matches(#[trigger] lines_of(s)[i], k) {
        assert(replaced_lines(s, k, nl) =~= lines_of(s));
        crate::text::lemma_join_lines_of(s);
    }
}

/// Whether the bytes `contents[start..end]` form a line that a rewrite of
/// `key` replaces.
fn line_matches_exec(contents: &[u8], start: usize, end: usize, key: &[u8]) -> (r: bool)
    requires
        start <= end <= contents@.len(),
    ensures
        r == line_matches(contents@.subrange(start as int, end as int), key@),
{
    let ghost l = contents@.subrange(start as int, end as int);
    let mut a: usize = start;
    while a < end && crate::text::is_space_byte(*vstd::slice::slice_index_get(contents, a))
        invariant
            start <= a <= end <= contents@.len(),
            forall|i: int| start <= i < a ==> is_space(contents@[i]),
        decreases end - a,
    {
        a = a + 1;
    }
    proof {
        crate::text::lemma_ltrim_at(l, a - start);
        assert(ltrim(l) =~= contents@.subrange(a as int, end as int));
    }
    let klen = key.len();
    if end - a <= klen {
        return false;
    }
    let mut j: usize = 0;
    while j < klen
        invariant
            j <= klen == key@.len(),
            start <= a <= end <= contents@.len(),
            end - a > klen,
            l == contents@.subrange(start as int, end as int),
            ltrim(l) == contents@.subrange(a as int, end as int),
            forall|i: int| 0 <= i < j ==> contents@[a + i] == key@[i],
        decreases klen - j,
    {
        if *vstd::slice::slice_index_get(contents, a + j) != *vstd::slice::slice_index_get(
            key,
            j,
        ) {
            proof {
                assert(ltrim(l)[j as int] == contents@[a + j]);
                if line_matches(l, key@) {
                    assert(ltrim(l).take(klen as int)[j as int] == key@[j as int]);
                    assert(false);
                }
            }
            return false;
        }
        j = j + 1;
    }
    proof {
        assert(ltrim(l) == contents@.subrange(a as int, end as int));
    }
    let r = *vstd::slice::slice_index_get(contents, a + klen) == EQ;
    proof {
        assert(ltrim(l).take(klen as int) =~= key@ || !r) by {
            if r {
                assert forall|i: int| 0 <= i < klen implies ltrim(l).take(klen as int)[i]
                    == key@[i] by {
                    assert(contents@[a + i] == key@[i]);
                }
            }
        }
        assert(ltrim(l)[klen as int] == contents@[a + klen]);
    }
    r
}

/// Rewrite `key`'s line: every line whose left-trimmed text starts with
/// `key` followed by `=` becomes `new_line`, all other lines stay, in
/// order; the lines are joined back with a single `\n` between each two.
/// A text with no matching line comes back unchanged.
pub fn replace_key(contents: &[u8], key: &[u8], new_line: &[u8]) -> (r: Vec<u8>)
    ensures
        r@ == replace_spec(contents@, key@, new_line@),
{
    let n = contents.len();
    let mut out: Vec<u8> = Vec::new();
    let mut start: usize = 0;
    let ghost all_lines = lines_of(contents@);
    let ghost rl = replaced_lines(contents@, key@, new_line@);
    let mut done: usize = 0;
    proof {
        assert(contents@.skip(0) == contents@);
        assert(rl.take(0) =~= Seq::<Seq<u8>>::empty());
        assert(join_lines(rl.take(0)) == Seq::<u8>::empty());
    }
    loop
        invariant_except_break
            n == contents@.len(),
            start <= n,
            done <= start,
            done <= all_lines.len(),
            all_lines == lines_of(contents@),
            rl == replaced_lines(contents@, key@, new_line@),
            all_lines =~= all_lines.take(done as int) + lines_of(contents@.skip(start as int)),
            out@ =~= join_lines(rl.take(done as int)),
        ensures
            out@ =~= join_lines(rl),
        decreases n - start,
    {
        let idx = crate::text::find_byte_from(contents, start, NL);
        let ghost rest = contents@.skip(start as int);
        proof {
            assert(find_byte(rest, NL) == idx - start);
            crate::text::lemma_find_byte_props(rest, NL);
        }
        let ghost line = rest.take(idx - start);
        proof {
            assert(line =~= contents@.subrange(start as int, idx as int));
            if idx < n {
                assert(rest.skip(idx - start + 1) =~= contents@.skip(idx + 1));
                assert(lines_of(rest) == seq![line] + lines_of(contents@.skip(idx + 1)));
            } else {
                assert(lines_of(rest) == seq![rest]);
                assert(line =~= rest);
            }
            assert(all_lines[done as int] == line);
            assert(rl[done as int] == (if line_matches(line, key@) {
                new_line@
            } else {
                line
            }));
            assert(rl.take(done + 1) =~= rl.take(done as int).push(rl[done as int]));
            lemma_join_push(rl.take(done as int), rl[done as int]);
            assert(rl.take(done as int).len() == done);
        }
        if done > 0 {
            out.push(NL);
        }
        if line_matches_exec(contents, start, idx, key) {
            crate::text::append_bytes(&mut out, new_line);
        } else {
            let seg = vstd::slice::slice_subrange(contents, start, idx);
            crate::text::append_bytes(&mut out, seg);
        }
        proof {
            assert(out@ =~= join_lines(rl.take(done + 1)));
        }
        if idx == n {
            proof {
                assert(all_lines =~= all_lines.take(done + 1));
                assert(rl.take(done + 1) =~= rl);
            }
            break;
        }
        proof {
            assert(all_lines =~= all_lines.take(done + 1) + lines_of(contents@.skip(idx + 1)));
        }
        done = done + 1;
        start = idx + 1;
    }
    out
}

} // verus!
