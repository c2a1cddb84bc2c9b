//! Key-scoped encryption support: looking a key's stored value up for the
//! external cipher, and writing the transformed value back into the file's
//! text.
//!
//! The library never runs the external encryption program itself: the caller
//! pipes the value through it and hands the result back. `decrypt_key`
//! returns the stored value for the caller to decrypt; `encrypt_key` takes
//! the ciphertext the caller obtained and rewrites the key's line with it.

use vstd::prelude::*;

use crate::envmap::{
    env_contains, env_get, env_insert, env_map, env_of_lines, lemma_env_of_lines_contains,
    lemma_get_contains, lemma_insert_get, lemma_kv_line_parses, line_defines, parse_env,
    parse_line, wf_key, wf_val, EQ,
};
use crate::errors::EnvError;
use crate::rewrite::{line_matches, replace_in_lines, replace_spec, replaced_lines, replace_key};
use crate::text::{lemma_lines_join, lemma_lines_shape, lines_of, NL};

verus! {

/// The replacement line for a key and its transformed value: `KEY=VALUE`.
pub open spec fn rewritten_line(k: Seq<u8>, v: Seq<u8>) -> Seq<u8> {
    k + seq![EQ] + v
}

/// Store the externally produced ciphertext under `key`: when the key has an
/// entry in the text's mapping, the result is the text with the key's line
/// rewritten to `KEY=<ciphertext>` and everything else untouched; when it
/// has none, the lookup error, and the text is left for the caller to keep
/// as it was.
pub fn encrypt_key(contents: &[u8], key: &[u8], ciphertext: &[u8]) -> (r: Result<
    Vec<u8>,
    EnvError,
>)
    ensures
        env_contains(env_map(contents@), key@) ==> (r matches Ok(c) && c@ == replace_spec(
            contents@,
            key@,
            rewritten_line(key@, ciphertext@),
        )),
        !env_contains(env_map(contents@), key@) ==> (r matches Err(e) && e is KeyNotFound),
{
    let m = parse_env(contents);
    if !m.contains_key(key) {
        return Err(EnvError::KeyNotFound);
    }
    let mut new_line = crate::text::copy_bytes(key);
    new_line.push(EQ);
    crate::text::append_bytes(&mut new_line, ciphertext);
    proof {
        assert(new_line@ =~= rewritten_line(key@, ciphertext@));
    }
    Ok(replace_key(contents, key, new_line.as_slice()))
}

/// Fetch the stored value of `key` — the ciphertext that the caller then
/// pipes through the external program's decrypt mode. The text itself is
/// never changed by decryption. Fails exactly when the key has no entry.
pub fn decrypt_key(contents: &[u8], key: &[u8]) -> (r: Result<Vec<u8>, EnvError>)
    ensures
        match r {
            Ok(v) => env_get(env_map(contents@), key@) == Some(v@),
            Err(e) => e is KeyNotFound && env_get(env_map(contents@), key@) is None,
        },
{
    let m = parse_env(contents);
    match m.get(key) {
        Some(v) => Ok(v),
        None => Err(EnvError::KeyNotFound),
    }
}

/// After the rewrite, looking the key up in the lines yields exactly the
/// stored value; no untouched line interferes.
proof fn lemma_rewrite_lines_lookup(ls: Seq<Seq<u8>>, k: Seq<u8>, c: Seq<u8>)
    requires
        parse_line(rewritten_line(k, c)) == Some((k, c)),
        forall|i: int|
            0 <= i < ls.len() && line_defines(#[trigger] ls[i], k) ==> line_matches(ls[i], k),
    ensures
        (exists|i: int| 0 <= i < ls.len() && line_matches(#[trigger] ls[i], k)) ==> env_get(
            env_of_lines(replace_in_lines(ls, k, rewritten_line(k, c))),
            k,
        ) == Some(c),
        (forall|i: int| 0 <= i < ls.len() ==> !line_matches(#[trigger] ls[i], k))
            ==> !env_contains(env_of_lines(replace_in_lines(ls, k, rewritten_line(k, c))), k),
    decreases ls.len(),
{
    let nl = rewritten_line(k, c);
    let ms = replace_in_lines(ls, k, nl);
    lemma_get_contains(env_of_lines(ms), k);
    if ls.len() == 0 {
        assert(ms.len() == 0);
    } else {
        assert forall|i: int|
            0 <= i < ls.drop_last().len() && line_defines(
                #[trigger] ls.drop_last()[i],
                k,
            ) implies line_matches(ls.drop_last()[i], k) by {
            assert(ls.drop_last()[i] == ls[i]);
        }
        lemma_rewrite_lines_lookup(ls.drop_last(), k, c);
        let msp = replace_in_lines(ls.drop_last(), k, nl);
        assert(ms.drop_last() =~= msp);
        assert(ms.last() == (if line_matches(ls.last(), k) {
            nl
        } else {
            ls.last()
        }));
        let m0 = env_of_lines(msp);
        lemma_get_contains(m0, k);
        if line_matches(ls.last(), k) {
            assert(parse_line(ms.last()) == Some((k, c)));
            assert(env_of_lines(ms) == env_insert(m0, k, c));
            lemma_insert_get(m0, k, c, k);
        } else {
            assert(ms.last() == ls.last());
            assert(!line_defines(ls[ls.len() - 1], k));
            match parse_line(ls.last()) {
                Some(kv) => {
                    assert(kv.0 != k);
                    assert(env_of_lines(ms) == env_insert(m0, kv.0, kv.1));
                    lemma_insert_get(m0, kv.0, kv.1, k);
                    lemma_get_contains(env_insert(m0, kv.0, kv.1), k);
                },
                None => {
                    assert(env_of_lines(ms) == m0);
                },
            }
            if exists|i: int| 0 <= i < ls.len() && line_matches(#[trigger] ls[i], k) {
                let i = choose|i: int| 0 <= i < ls.len() && line_matches(#[trigger] ls[i], k);
                assert(i < ls.len() - 1);
                assert(line_matches(ls.drop_last()[i], k));
            }
        }
    }
}

/// Storage round trip: rewriting a present key with a ciphertext and then
/// looking the key up returns exactly that ciphertext. Together with an
/// external cipher that inverts itself, decrypting a freshly encrypted entry
/// reproduces the original value.
///
/// The key must be well formed and the ciphertext a single trimmed line, and
/// every line that parses to the key must be in the `KEY=` shape that the
/// rewrite recognizes — a line such as `KEY =value`, which parses to the key
/// but escapes the rewrite, is excluded.
pub proof fn lemma_store_then_lookup(s: Seq<u8>, k: Seq<u8>, c: Seq<u8>)
    requires
        wf_key(k),
        wf_val(c),
        env_contains(env_map(s), k),
        forall|i: int|
            0 <= i < lines_of(s).len() && line_defines(#[trigger] lines_of(s)[i], k)
                ==> line_matches(lines_of(s)[i], k),
    ensures
        env_get(env_map(replace_spec(s, k, rewritten_line(k, c))), k) == Some(c),
{
    let nl = rewritten_line(k, c);
    lemma_kv_line_parses(k, c);
    let ls = lines_of(s);
    let rl = replaced_lines(s, k, nl);
    lemma_lines_shape(s);
    assert forall|i: int| 0 <= i < rl.len() implies !(#[trigger] rl[i]).contains(NL) by {
        if line_matches(ls[i], k) {
            assert(rl[i] == nl);
        } else {
            assert(rl[i] == ls[i]);
        }
    }
    lemma_lines_join(rl);
    assert(env_map(replace_spec(s, k, nl)) == env_of_lines(rl));
    lemma_env_of_lines_contains(ls, k);
    let i = choose|i: int| 0 <= i < ls.len() && #[trigger] line_defines(ls[i], k);
    assert(line_matches(ls[i], k));
    lemma_rewrite_lines_lookup(ls, k, c);
}

} // verus!
