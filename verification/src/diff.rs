//! Validation and synchronization of an actual env file against a template:
//! computing the template keys the actual file lacks, checking that there are
//! none, and appending the missing entries with their template values.

use vstd::prelude::*;

use crate::envmap::{
    all_wf, env_contains, env_get, env_map, env_of_lines, lemma_env_map_wf,
    lemma_env_of_lines_contains, lemma_get_contains, lemma_insert_get, lemma_kv_line_parses,
    line_defines, pairs_view, parse_env, parse_line, EnvMapping, EQ,
};
use crate::errors::EnvError;
use crate::text::{
    find_byte, join_lines, lemma_find_byte_props, lemma_lines_append, lines_of, ltrim, NL,
};

verus! {

/// The entries of the template `t` whose keys the mapping `a` lacks, in
/// template order, with their template values.
pub open spec fn missing_of(
    t: Seq<(Seq<u8>, Seq<u8>)>,
    a: Seq<(Seq<u8>, Seq<u8>)>,
) -> Seq<(Seq<u8>, Seq<u8>)>
    decreases t.len(),
{
    if t.len() == 0 {
        Seq::empty()
    } else {
        let r = missing_of(t.drop_last(), a);
        if !env_contains(a, t.last().0) {
            r.push(t.last())
        } else {
            r
        }
    }
}

/// The keys of a mapping, in order.
pub open spec fn keys_of(m: Seq<(Seq<u8>, Seq<u8>)>) -> Seq<Seq<u8>> {
    m.map_values(|p: (Seq<u8>, Seq<u8>)| p.0)
}

/// The view of a vector of keys, as a sequence of byte sequences.
pub open spec fn keys_view(ks: Seq<Vec<u8>>) -> Seq<Seq<u8>> {
    ks.map_values(|k: Vec<u8>| k@)
}

/// Every key of `t` is a key of `a`.
pub open spec fn env_subset(t: Seq<(Seq<u8>, Seq<u8>)>, a: Seq<(Seq<u8>, Seq<u8>)>) -> bool {
    forall|k: Seq<u8>| #[trigger] env_contains(t, k) ==> env_contains(a, k)
}

/// The missing entries are exactly those whose key is in `t` but not in `a`.
pub proof fn lemma_missing_contains(
    t: Seq<(Seq<u8>, Seq<u8>)>,
    a: Seq<(Seq<u8>, Seq<u8>)>,
    k: Seq<u8>,
)
    ensures
        env_contains(missing_of(t, a), k) <==> env_contains(t, k) && !env_contains(a, k),
    decreases t.len(),
{
    if t.len() > 0 {
        lemma_missing_contains(t.drop_last(), a, k);
        let r = missing_of(t.drop_last(), a);
        let m = missing_of(t, a);
        if env_contains(t.drop_last(), k) {
            let i = choose|i: int| 0 <= i < t.drop_last().len() && t.drop_last()[i].0 == k;
            assert(t[i].0 == k);
        }
        if env_contains(r, k) {
            let i = choose|i: int| 0 <= i < r.len() && r[i].0 == k;
            if !env_contains(a, t.last().0) {
                assert(m[i] == r.push(t.last())[i]);
                assert(m[i].0 == k);
            }
        }
        if env_contains(m, k) {
            let i = choose|i: int| 0 <= i < m.len() && m[i].0 == k;
            if !env_contains(a, t.last().0) && i == m.len() - 1 {
                assert(m[i] == t.last());
                assert(t[t.len() - 1].0 == k);
            } else {
                assert(r[i].0 == k);
            }
        }
        if env_contains(t, k) && !env_contains(a, k) {
            let i = choose|i: int| 0 <= i < t.len() && t[i].0 == k;
            if i < t.len() - 1 {
                assert(t.drop_last()[i].0 == k);
                let j = choose|j: int| 0 <= j < r.len() && r[j].0 == k;
                if !env_contains(a, t.last().0) {
                    assert(m[j] == r[j]);
                } else {
                    assert(m == r);
                }
            } else {
                assert(m.last() == t.last());
            }
        }
    }
}

/// Nothing is missing exactly when the template's keys are a subset of the
/// actual mapping's keys.
pub proof fn lemma_missing_empty(t: Seq<(Seq<u8>, Seq<u8>)>, a: Seq<(Seq<u8>, Seq<u8>)>)
    ensures
        missing_of(t, a).len() == 0 <==> env_subset(t, a),
    decreases t.len(),
{
    if t.len() == 0 {
        assert forall|k: Seq<u8>| #[trigger] env_contains(t, k) implies env_contains(a, k) by {}
    } else {
        lemma_missing_empty(t.drop_last(), a);
        let r = missing_of(t.drop_last(), a);
        if missing_of(t, a).len() == 0 {
            assert(env_contains(a, t.last().0));
            assert forall|k: Seq<u8>| #[trigger] env_contains(t, k) implies env_contains(
                a,
                k,
            ) by {
                let i = choose|i: int| 0 <= i < t.len() && t[i].0 == k;
                if i < t.len() - 1 {
                    assert(t.drop_last()[i].0 == k);
                    assert(env_contains(t.drop_last(), k));
                }
            }
        }
        if env_subset(t, a) {
            assert forall|k: Seq<u8>| #[trigger] env_contains(t.drop_last(), k) implies
                env_contains(a, k) by {
                let i = choose|i: int| 0 <= i < t.drop_last().len() && t.drop_last()[i].0 == k;
                assert(t[i].0 == k);
                assert(env_contains(t, k));
            }
            assert(t[t.len() - 1].0 == t.last().0);
            assert(env_contains(t, t.last().0));
        }
    }
}

/// Missing entries are entries of the template, so they inherit its
/// well-formedness.
pub proof fn lemma_missing_wf(t: Seq<(Seq<u8>, Seq<u8>)>, a: Seq<(Seq<u8>, Seq<u8>)>)
    requires
        all_wf(t),
    ensures
        all_wf(missing_of(t, a)),
    decreases t.len(),
{
    if t.len() > 0 {
        assert forall|i: int| 0 <= i < t.drop_last().len() implies crate::envmap::wf_key(
            (#[trigger] t.drop_last()[i]).0,
        ) && crate::envmap::wf_val(t.drop_last()[i].1) by {
            assert(t.drop_last()[i] == t[i]);
        }
        lemma_missing_wf(t.drop_last(), a);
        let r = missing_of(t.drop_last(), a);
        if !env_contains(a, t.last().0) {
            assert forall|i: int| 0 <= i < missing_of(t, a).len() implies crate::envmap::wf_key(
                (#[trigger] missing_of(t, a)[i]).0,
            ) && crate::envmap::wf_val(missing_of(t, a)[i].1) by {
                if i < r.len() {
                    assert(missing_of(t, a)[i] == r[i]);
                } else {
                    assert(missing_of(t, a)[i] == t[t.len() - 1]);
                }
            }
        }
    }
}

/// The entries of `t` that `a` lacks, as stored pairs.
fn missing_pairs(t: &EnvMapping, a: &EnvMapping) -> (r: Vec<(Vec<u8>, Vec<u8>)>)
    ensures
        pairs_view(r@) == missing_of(t@, a@),
{
    let n = t.len();
    let mut r: Vec<(Vec<u8>, Vec<u8>)> = Vec::new();
    let mut i: usize = 0;
    while i < n
        invariant
            i <= n == t@.len(),
            pairs_view(r@) =~= missing_of(t@.take(i as int), a@),
        decreases n - i,
    {
        proof {
            assert(t@.take(i + 1).drop_last() =~= t@.take(i as int));
            assert(t@.take(i + 1).last() == t@[i as int]);
        }
        let (k, v) = t.pair_at(i);
        if !a.contains_key(k.as_slice()) {
            r.push((k, v));
        }
        proof {
            assert(pairs_view(r@) =~= missing_of(t@.take(i + 1), a@));
        }
        i = i + 1;
    }
    proof {
        assert(t@.take(n as int) =~= t@);
    }
    r
}

/// The keys of the template that the actual mapping lacks, in template
/// order.
pub fn missing_keys(template: &EnvMapping, actual: &EnvMapping) -> (r: Vec<Vec<u8>>)
    ensures
        keys_view(r@) == keys_of(missing_of(template@, actual@)),
{
    let pairs = missing_pairs(template, actual);
    let n = pairs.len();
    let mut r: Vec<Vec<u8>> = Vec::new();
    let mut i: usize = 0;
    while i < n
        invariant
            i <= n == pairs@.len(),
            r@.len() == i,
            keys_view(r@) =~= keys_of(pairs_view(pairs@).take(i as int)),
        decreases n - i,
    {
        let (k, v) = crate::envmap::pair_copy(&pairs[i]);
        let ghost gk = k@;
        let ghost r_old = r@;
        r.push(k);
        proof {
            let pv = pairs_view(pairs@);
            assert(gk == pv[i as int].0);
            assert(r@ == r_old.push(r@[i as int]));
            assert forall|j: int| 0 <= j < i + 1 implies keys_view(r@)[j] == keys_of(
                pv.take(i + 1),
            )[j] by {
                assert(keys_view(r@)[j] == r@[j]@);
                assert(keys_of(pv.take(i + 1))[j] == pv.take(i + 1)[j].0);
                if j < i {
                    assert(r@[j] == r_old[j]);
                    assert(keys_view(r_old)[j] == r_old[j]@);
                    assert(keys_view(r_old)[j] == keys_of(pv.take(i as int))[j]);
                    assert(keys_of(pv.take(i as int))[j] == pv.take(i as int)[j].0);
                } else {
                    assert(r@[j]@ == gk);
                }
            }
            assert(keys_view(r@) =~= keys_of(pv.take(i + 1)));
        }
        i = i + 1;
    }
    proof {
        assert(pairs_view(pairs@).take(n as int) =~= pairs_view(pairs@));
        assert(keys_of(pairs_view(pairs@)) =~= keys_of(missing_of(template@, actual@)));
    }
    r
}

/// Validate `actual` against `template`: succeed exactly when every key of
/// the template's mapping is present in the actual mapping, values aside;
/// otherwise report the missing keys, in template order.
pub fn check_env(template: &[u8], actual: &[u8]) -> (r: Result<(), EnvError>)
    ensures
        r is Ok <==> env_subset(env_map(template@), env_map(actual@)),
        r matches Err(e) ==> e matches EnvError::MissingKeys(ks) && keys_view(ks@) == keys_of(
            missing_of(env_map(template@), env_map(actual@)),
        ) && ks@.len() > 0,
{
    let t = parse_env(template);
    let a = parse_env(actual);
    let ks = missing_keys(&t, &a);
    proof {
        lemma_missing_empty(env_map(template@), env_map(actual@));
        assert(keys_view(ks@).len() == ks@.len());
        assert(keys_of(missing_of(env_map(template@), env_map(actual@))).len() == missing_of(
            env_map(template@),
            env_map(actual@),
        ).len());
    }
    if ks.len() == 0 {
        Ok(())
    } else {
        Err(EnvError::MissingKeys(ks))
    }
}

/// The appended text for one entry: `KEY=VALUE` followed by a newline.
pub open spec fn render_line(p: (Seq<u8>, Seq<u8>)) -> Seq<u8> {
    p.0 + seq![EQ] + p.1
}

/// The text appended for the given entries, one `KEY=VALUE` line each, every
/// line ending with a newline.
pub open spec fn render_pairs(ps: Seq<(Seq<u8>, Seq<u8>)>) -> Seq<u8>
    decreases ps.len(),
{
    if ps.len() == 0 {
        Seq::empty()
    } else {
        render_line(ps[0]) + seq![NL] + render_pairs(ps.drop_first())
    }
}

/// Rendering one more entry appends its line at the end.
pub proof fn lemma_render_push(ps: Seq<(Seq<u8>, Seq<u8>)>, p: (Seq<u8>, Seq<u8>))
    ensures
        render_pairs(ps.push(p)) == render_pairs(ps) + render_line(p) + seq![NL],
    decreases ps.len(),
{
    if ps.len() == 0 {
        assert(ps.push(p)[0] == p);
        assert(ps.push(p).drop_first() =~= Seq::<(Seq<u8>, Seq<u8>)>::empty());
        assert(render_pairs(ps.push(p)) == render_line(p) + seq![NL] + render_pairs(
            Seq::<(Seq<u8>, Seq<u8>)>::empty(),
        ));
        assert(render_pairs(ps.push(p)) =~= render_pairs(ps) + render_line(p) + seq![NL]);
    } else {
        lemma_render_push(ps.drop_first(), p);
        assert(ps.push(p).drop_first() =~= ps.drop_first().push(p));
        assert(ps.push(p)[0] == ps[0]);
        assert(render_pairs(ps.push(p)) == render_line(ps[0]) + seq![NL] + render_pairs(
            ps.drop_first().push(p),
        ));
        assert(render_pairs(ps) == render_line(ps[0]) + seq![NL] + render_pairs(ps.drop_first()));
        assert(render_pairs(ps.push(p)) =~= render_pairs(ps) + render_line(p) + seq![NL]);
    }
}

/// The rendered text splits back into the rendered lines, plus the empty
/// line after the final newline.
pub proof fn lemma_render_lines(ps: Seq<(Seq<u8>, Seq<u8>)>)
    requires
        all_wf(ps),
    ensures
        lines_of(render_pairs(ps)) == ps.map_values(|p: (Seq<u8>, Seq<u8>)| render_line(p)).push(
            Seq::empty(),
        ),
    decreases ps.len(),
{
    let f = |p: (Seq<u8>, Seq<u8>)| render_line(p);
    if ps.len() == 0 {
        assert(lines_of(render_pairs(ps)) == seq![Seq::<u8>::empty()]);
        assert(ps.map_values(f).push(Seq::empty()) =~= seq![Seq::<u8>::empty()]);
    } else {
        assert(crate::envmap::wf_key(ps[0].0) && crate::envmap::wf_val(ps[0].1));
        lemma_kv_line_parses(ps[0].0, ps[0].1);
        let u = render_line(ps[0]);
        let v = render_pairs(ps.drop_first());
        lemma_lines_append(u, v);
        assert forall|i: int| 0 <= i < ps.drop_first().len() implies crate::envmap::wf_key(
            (#[trigger] ps.drop_first()[i]).0,
        ) && crate::envmap::wf_val(ps.drop_first()[i].1) by {
            assert(ps.drop_first()[i] == ps[i + 1]);
        }
        lemma_render_lines(ps.drop_first());
        lemma_find_byte_props(u, NL);
        if find_byte(u, NL) < u.len() {
            assert(u.contains(NL));
        }
        assert(lines_of(u) == seq![u]);
        assert(lines_of(render_pairs(ps)) == seq![u] + lines_of(v));
        assert(ps.map_values(f).push(Seq::empty()) =~= seq![u] + ps.drop_first().map_values(
            f,
        ).push(Seq::empty()));
    }
}

/// The mapping parsed back from rendered entries holds exactly their keys.
pub proof fn lemma_render_env_contains(ps: Seq<(Seq<u8>, Seq<u8>)>, k: Seq<u8>)
    requires
        all_wf(ps),
    ensures
        env_contains(env_map(render_pairs(ps)), k) <==> env_contains(ps, k),
{
    lemma_render_lines(ps);
    let f = |p: (Seq<u8>, Seq<u8>)| render_line(p);
    let ls = ps.map_values(f).push(Seq::empty());
    lemma_env_of_lines_contains(ls, k);
    assert(parse_line(Seq::<u8>::empty()) is None) by {
        assert(ltrim(Seq::<u8>::empty()).len() == 0);
    }
    if env_contains(env_map(render_pairs(ps)), k) {
        let i = choose|i: int| 0 <= i < ls.len() && #[trigger] line_defines(ls[i], k);
        assert(i < ps.len());
        assert(ls[i] == render_line(ps[i]));
        lemma_kv_line_parses(ps[i].0, ps[i].1);
        assert(ps[i].0 == k);
    }
    if env_contains(ps, k) {
        let i = choose|i: int| 0 <= i < ps.len() && ps[i].0 == k;
        lemma_kv_line_parses(ps[i].0, ps[i].1);
        assert(ls[i] == render_line(ps[i]));
        assert(line_defines(ls[i], k));
    }
}

/// Reading the lines `l1 + l2` in order: a key defined somewhere in `l2`
/// takes its value from `l2` alone; any other key keeps its `l1` value.
pub proof fn lemma_env_append(l1: Seq<Seq<u8>>, l2: Seq<Seq<u8>>, k: Seq<u8>)
    ensures
        env_contains(env_of_lines(l1 + l2), k) <==> env_contains(env_of_lines(l1), k)
            || env_contains(env_of_lines(l2), k),
        !env_contains(env_of_lines(l2), k) ==> env_get(env_of_lines(l1 + l2), k) == env_get(
            env_of_lines(l1),
            k,
        ),
        env_contains(env_of_lines(l2), k) ==> env_get(env_of_lines(l1 + l2), k) == env_get(
            env_of_lines(l2),
            k,
        ),
    decreases l2.len(),
{
    lemma_get_contains(env_of_lines(l1 + l2), k);
    lemma_get_contains(env_of_lines(l1), k);
    lemma_get_contains(env_of_lines(l2), k);
    if l2.len() == 0 {
        assert(l1 + l2 =~= l1);
    } else {
        lemma_env_append(l1, l2.drop_last(), k);
        lemma_get_contains(env_of_lines(l1 + l2.drop_last()), k);
        lemma_get_contains(env_of_lines(l2.drop_last()), k);
        let x = l2.last();
        assert((l1 + l2).drop_last() =~= l1 + l2.drop_last());
        assert((l1 + l2).last() == x);
        assert((l1 + l2).len() > 0);
        let big = env_of_lines(l1 + l2.drop_last());
        let small = env_of_lines(l2.drop_last());
        match parse_line(x) {
            Some(kv) => {
                lemma_insert_get(big, kv.0, kv.1, k);
                lemma_insert_get(small, kv.0, kv.1, k);
                lemma_get_contains(crate::envmap::env_insert(big, kv.0, kv.1), k);
                lemma_get_contains(crate::envmap::env_insert(small, kv.0, kv.1), k);
            },
            None => {},
        }
    }
}

/// The text an out-of-date actual file becomes: unchanged when nothing is
/// missing; otherwise the old text, a newline separator if the text does not
/// already end with one, and one `KEY=VALUE` line per missing template entry.
pub open spec fn sync_spec(t: Seq<u8>, a: Seq<u8>) -> Option<Seq<u8>> {
    let miss = missing_of(env_map(t), env_map(a));
    if miss.len() == 0 {
        None
    } else if a.len() > 0 && a.last() != NL {
        Some(a + seq![NL] + render_pairs(miss))
    } else {
        Some(a + render_pairs(miss))
    }
}

/// The actual file's contents after synchronization.
pub open spec fn synced(t: Seq<u8>, a: Seq<u8>) -> Seq<u8> {
    match sync_spec(t, a) {
        Some(n) => n,
        None => a,
    }
}

/// Synchronize `actual` against `template`: `None` when no key is missing
/// (the file need not be touched at all), otherwise the full new contents,
/// which append one `KEY=VALUE` line per missing key, with the template's
/// value, in template order.
pub fn sync_env(template: &[u8], actual: &[u8]) -> (r: Option<Vec<u8>>)
    ensures
        match r {
            Some(n) => sync_spec(template@, actual@) == Some(n@),
            None => sync_spec(template@, actual@) is None,
        },
{
    let t = parse_env(template);
    let a = parse_env(actual);
    let miss = missing_pairs(&t, &a);
    let ghost gmiss = missing_of(env_map(template@), env_map(actual@));
    proof {
        assert(pairs_view(miss@).len() == miss@.len());
    }
    if miss.len() == 0 {
        return None;
    }
    let mut out = crate::text::copy_bytes(actual);
    if actual.len() > 0 && *vstd::slice::slice_index_get(actual, actual.len() - 1) != NL {
        out.push(NL);
    }
    let ghost base = out@;
    let n = miss.len();
    let mut i: usize = 0;
    while i < n
        invariant
            i <= n == miss@.len(),
            gmiss == pairs_view(miss@),
            out@ =~= base + render_pairs(gmiss.take(i as int)),
        decreases n - i,
    {
        proof {
            assert(gmiss.take(i + 1) =~= gmiss.take(i as int).push(gmiss[i as int]));
            lemma_render_push(gmiss.take(i as int), gmiss[i as int]);
        }
        crate::text::append_bytes(&mut out, miss[i].0.as_slice());
        out.push(EQ);
        crate::text::append_bytes(&mut out, miss[i].1.as_slice());
        out.push(NL);
        proof {
            assert(out@ =~= base + render_pairs(gmiss.take(i + 1)));
        }
        i = i + 1;
    }
    proof {
        assert(gmiss.take(n as int) =~= gmiss);
        assert(out@ =~= base + render_pairs(gmiss));
        if actual@.len() > 0 && actual@.last() != NL {
            assert(out@ =~= actual@ + seq![NL] + render_pairs(gmiss));
        } else {
            assert(out@ =~= actual@ + render_pairs(gmiss));
        }
    }
    Some(out)
}

/// Common shape of a synchronized text: some prefix lines carrying the old
/// mapping, followed by the rendered missing entries.
proof fn lemma_sync_env_shape(
    tm: Seq<(Seq<u8>, Seq<u8>)>,
    am: Seq<(Seq<u8>, Seq<u8>)>,
    l1: Seq<Seq<u8>>,
    sy: Seq<u8>,
)
    requires
        all_wf(missing_of(tm, am)),
        env_of_lines(l1) == am,
        lines_of(sy) == l1 + lines_of(render_pairs(missing_of(tm, am))),
    ensures
        env_subset(tm, env_map(sy)),
        forall|k: Seq<u8>| #[trigger] env_contains(am, k) ==> env_get(env_map(sy), k) == env_get(
            am,
            k,
        ),
{
    let miss = missing_of(tm, am);
    let rl = lines_of(render_pairs(miss));
    assert forall|k: Seq<u8>| #[trigger] env_contains(tm, k) implies env_contains(
        env_map(sy),
        k,
    ) by {
        lemma_env_append(l1, rl, k);
        lemma_render_env_contains(miss, k);
        lemma_missing_contains(tm, am, k);
        assert(env_map(sy) == env_of_lines(l1 + rl));
    }
    assert forall|k: Seq<u8>| #[trigger] env_contains(am, k) implies env_get(env_map(sy), k)
        == env_get(am, k) by {
        lemma_env_append(l1, rl, k);
        lemma_render_env_contains(miss, k);
        lemma_missing_contains(tm, am, k);
        assert(env_map(sy) == env_of_lines(l1 + rl));
    }
}

/// After synchronization every template key is present, and the old text is
/// an unchanged prefix of the new text, so every pre-existing line keeps its
/// position, and every pre-existing entry keeps its value.
pub proof fn lemma_sync_preserves(t: Seq<u8>, a: Seq<u8>)
    ensures
        a.is_prefix_of(synced(t, a)),
        env_subset(env_map(t), env_map(synced(t, a))),
        forall|k: Seq<u8>| #[trigger] env_contains(env_map(a), k) ==> env_get(
            env_map(synced(t, a)),
            k,
        ) == env_get(env_map(a), k),
{
    let tm = env_map(t);
    let am = env_map(a);
    let miss = missing_of(tm, am);
    let sy = synced(t, a);
    lemma_env_map_wf(t);
    lemma_missing_wf(tm, am);
    lemma_missing_empty(tm, am);
    if miss.len() == 0 {
        assert(sy == a);
        assert(a.is_prefix_of(sy)) by {
            assert(sy.take(a.len() as int) =~= a);
        }
    } else {
        let rend = render_pairs(miss);
        if a.len() > 0 && a.last() != NL {
            assert(sy == a + seq![NL] + rend);
            lemma_lines_append(a, rend);
            lemma_sync_env_shape(tm, am, lines_of(a), sy);
            assert(sy.take(a.len() as int) =~= a);
        } else if a.len() == 0 {
            assert(sy == a + rend);
            assert(sy =~= rend);
            assert(a =~= Seq::<u8>::empty());
            assert(am =~= Seq::<(Seq<u8>, Seq<u8>)>::empty()) by {
                assert(lines_of(a) == seq![Seq::<u8>::empty()]);
                assert(parse_line(Seq::<u8>::empty()) is None) by {
                    assert(ltrim(Seq::<u8>::empty()).len() == 0);
                }
                assert(lines_of(a).last() == Seq::<u8>::empty());
                assert(lines_of(a).drop_last() =~= Seq::<Seq<u8>>::empty());
                assert(env_of_lines(lines_of(a)) == env_of_lines(Seq::<Seq<u8>>::empty()));
                assert(env_of_lines(Seq::<Seq<u8>>::empty()) == Seq::<(Seq<u8>, Seq<u8>)>::empty());
            }
            assert(lines_of(sy) =~= Seq::<Seq<u8>>::empty() + lines_of(rend));
            lemma_sync_env_shape(tm, am, Seq::<Seq<u8>>::empty(), sy);
            assert(sy.take(a.len() as int) =~= a);
        } else {
            let a0 = a.drop_last();
            assert(sy == a + rend);
            assert(a =~= a0 + seq![NL] + Seq::<u8>::empty());
            lemma_lines_append(a0, Seq::<u8>::empty());
            assert(lines_of(Seq::<u8>::empty()) == seq![Seq::<u8>::empty()]);
            assert(lines_of(a) == lines_of(a0) + seq![Seq::<u8>::empty()]);
            assert(lines_of(a).drop_last() =~= lines_of(a0));
            assert(lines_of(a).last() == Seq::<u8>::empty());
            assert(parse_line(Seq::<u8>::empty()) is None) by {
                assert(ltrim(Seq::<u8>::empty()).len() == 0);
            }
            assert(env_of_lines(lines_of(a)) == env_of_lines(lines_of(a0)));
            assert(sy =~= a0 + seq![NL] + rend);
            lemma_lines_append(a0, rend);
            lemma_sync_env_shape(tm, am, lines_of(a0), sy);
            assert(sy.take(a.len() as int) =~= a);
        }
    }
}

/// Synchronizing a second time changes nothing: after one pass nothing is
/// missing any more, so the next pass is a no-op and the mapping is the
/// same.
pub proof fn lemma_sync_idempotent(t: Seq<u8>, a: Seq<u8>)
    ensures
        sync_spec(t, synced(t, a)) is None,
        synced(t, synced(t, a)) == synced(t, a),
{
    lemma_sync_preserves(t, a);
    lemma_missing_empty(env_map(t), env_map(synced(t, a)));
}

} // verus!
