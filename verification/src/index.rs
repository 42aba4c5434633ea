//! The name index: a finite-state set (`fst`) of the index keys of all
//! templates, which listing reads without opening the database. The index
//! is built here; reading keys out of index bytes is left to the program,
//! since `fst` may panic on bytes that its builder did not write and no
//! check short of decoding them tells them apart.

use vstd::prelude::*;

use crate::config::{lemma_split_once_first, split_once_chars, split_once_spec, string_views};
use crate::error::SyncError;
use crate::order::{
    compare_strings, lemma_lex_asymmetric, lemma_lex_total, lemma_lex_transitive,
    lemma_str_key_injective, lex_lt, str_key, Order,
};
use crate::text::{chars_to_string, copy_byte_range, string_chars, utf8_lossy, utf8_lossy_spec};

verus! {

/// `fst::Error`, carried opaquely.
#[verifier::external_type_specification]
#[verifier::external_body]
pub struct ExFstError(fst::Error);

/// The byte strings are in strictly increasing lexicographic order.
pub open spec fn strictly_sorted(ks: Seq<Seq<u8>>) -> bool {
    forall|i: int, j: int| 0 <= i < j < ks.len() ==> lex_lt(#[trigger] ks[i], #[trigger] ks[j])
}

/// The views of a list of byte vectors.
pub open spec fn byte_views(v: Seq<Vec<u8>>) -> Seq<Seq<u8>> {
    v.map_values(|b: Vec<u8>| b@)
}

/// The bytes that `fst::SetBuilder` writes for these keys.
pub uninterp spec fn fst_set_bytes(keys: Seq<Seq<u8>>) -> Seq<u8>;

/// The bytes are what `fst::SetBuilder` writes for the keys, in order.
pub open spec fn built_from(bytes: Seq<u8>, ks: Seq<Seq<u8>>) -> bool {
    sorted_bytes(ks) && bytes == fst_set_bytes(ks)
}

/// No byte string comes after a later one.
pub open spec fn sorted_bytes(ks: Seq<Seq<u8>>) -> bool {
    forall|i: int, j: int| 0 <= i < j < ks.len() ==> !lex_lt(#[trigger] ks[j], #[trigger] ks[i])
}

/// `fst::SetBuilder::memory`, `extend_iter` and `into_inner`: builds a set
/// of the keys in memory. Adding a key fails when it comes before the
/// previous one and does nothing when it equals it; writing into memory
/// cannot fail. So keys in order always build, into the bytes named by
/// `fst_set_bytes`; keys out of order fail.
#[verifier::external_body]
fn fst_build(keys: &Vec<Vec<u8>>) -> (r: Result<Vec<u8>, fst::Error>)
    ensures
        r is Ok <==> sorted_bytes(byte_views(keys@)),
        r matches Ok(b) ==> b@ == fst_set_bytes(byte_views(keys@)),
{
    let mut builder = fst::SetBuilder::memory();
    builder.extend_iter(keys.iter())?;
    builder.into_inner()
}

/// `ToString::to_string` of an `fst::Error`: its message.
#[verifier::external_body]
fn fst_error_message(e: &fst::Error) -> String {
    e.to_string()
}

/// The keys by which strings are ordered.
pub open spec fn string_keys(v: Seq<Seq<char>>) -> Seq<Seq<u8>> {
    v.map_values(|s: Seq<char>| str_key(s))
}

/// No string comes after a later one.
pub open spec fn sorted_strings(v: Seq<Seq<char>>) -> bool {
    forall|i: int, j: int|
        0 <= i < j < v.len() ==> !lex_lt(str_key(#[trigger] v[j]), str_key(#[trigger] v[i]))
}

/// Sorts strings in `String`'s order, keeping repeated strings.
pub fn sort_strings(v: &Vec<String>) -> (r: Vec<String>)
    ensures
        sorted_strings(string_views(r@)),
        string_views(r@).to_multiset() == string_views(v@).to_multiset(),
{
    broadcast use vstd::seq_lib::group_to_multiset_ensures;

    let ghost vv = string_views(v@);
    let mut r: Vec<String> = Vec::new();
    let mut i: usize = 0;
    assert(vv.take(0) =~= Seq::<Seq<char>>::empty());
    assert(string_views(r@) =~= Seq::<Seq<char>>::empty());
    while i < v.len()
        invariant
            vv == string_views(v@),
            i <= v.len(),
            sorted_strings(string_views(r@)),
            string_views(r@).to_multiset() == vv.take(i as int).to_multiset(),
        decreases v.len() - i,
    {
        let ghost rv = string_views(r@);
        let s = v[i].clone();
        let mut pos: usize = 0;
        while pos < r.len() && !matches!(compare_strings(&s, &r[pos]), Order::Less)
            invariant
                rv == string_views(r@),
                pos <= r.len(),
                s@ == vv[i as int],
                forall|k: int| 0 <= k < pos ==> !lex_lt(str_key(s@), str_key(#[trigger] rv[k])),
            decreases r.len() - pos,
        {
            pos = pos + 1;
        }
        let ghost x = s@;
        r.insert(pos, s);
        let ghost nv = string_views(r@);
        assert(nv =~= rv.insert(pos as int, x));
        assert(sorted_strings(nv)) by {
            assert forall|a: int, b: int| 0 <= a < b < nv.len() implies !lex_lt(
                str_key(#[trigger] nv[b]),
                str_key(#[trigger] nv[a]),
            ) by {
                if b < pos {
                    assert(nv[a] == rv[a] && nv[b] == rv[b]);
                } else if b == pos {
                    assert(nv[a] == rv[a]);
                    assert(!lex_lt(str_key(x), str_key(rv[a])));
                } else if a == pos {
                    assert(nv[b] == rv[b - 1]);
                    assert(lex_lt(str_key(x), str_key(rv[pos as int])));
                    if b - 1 > pos {
                        assert(!lex_lt(str_key(rv[b - 1]), str_key(rv[pos as int])));
                        lemma_lex_total(str_key(rv[b - 1]), str_key(rv[pos as int]));
                        if str_key(rv[b - 1]) != str_key(rv[pos as int]) {
                            lemma_lex_transitive(str_key(x), str_key(rv[pos as int]), str_key(rv[b - 1]));
                        }
                    }
                    lemma_lex_asymmetric(str_key(x), str_key(rv[b - 1]));
                } else if a < pos {
                    assert(nv[a] == rv[a]);
                    assert(nv[b] == rv[b - 1]);
                    assert(!lex_lt(str_key(x), str_key(rv[a])));
                    assert(!lex_lt(str_key(rv[b - 1]), str_key(rv[a])));
                } else {
                    assert(nv[a] == rv[a - 1] && nv[b] == rv[b - 1]);
                }
            }
        }
        assert(vv.take(i + 1) =~= vv.take(i as int).push(x));
        proof {
            vstd::seq_lib::to_multiset_insert(rv, pos as int, x);
            assert(nv.to_multiset() == rv.to_multiset().insert(x));
            vstd::seq_lib::to_multiset_build(vv.take(i as int), x);
        }
        i = i + 1;
    }
    assert(vv.take(v.len() as int) =~= vv);
    r
}

/// The bytes of each string.
fn string_bytes(v: &Vec<String>) -> (r: Vec<Vec<u8>>)
    ensures
        byte_views(r@) == string_keys(string_views(v@)),
{
    let mut r: Vec<Vec<u8>> = Vec::new();
    let mut i: usize = 0;
    while i < v.len()
        invariant
            i <= v.len(),
            byte_views(r@) == string_keys(string_views(v@)).take(i as int),
        decreases v.len() - i,
    {
        let st = v[i].as_str();
        let b = st.as_bytes();
        assert(st@ == v@[i as int]@);
        assert(b@ == str_key(string_views(v@)[i as int]));
        let ghost before = byte_views(r@);
        let c = copy_byte_range(b, 0, b.len());
        assert(c@ =~= b@);
        r.push(c);
        assert(byte_views(r@) =~= before.push(b@));
        assert(byte_views(r@) =~= string_keys(string_views(v@)).take(i + 1));
        i = i + 1;
    }
    assert(string_keys(string_views(v@)).take(v.len() as int) =~= string_keys(string_views(v@)));
    r
}

/// Builds the name index of the given index keys: the keys in `String`'s
/// order, as an `fst` set, which holds each key once.
pub fn build_index(names: &Vec<String>) -> (r: Result<Vec<u8>, SyncError>)
    ensures
        r is Ok,
        r matches Ok(b) ==> exists|sorted: Seq<Seq<char>>|
            #![trigger string_keys(sorted)]
            sorted.to_multiset() == string_views(names@).to_multiset() && sorted_strings(sorted)
                && built_from(b@, string_keys(sorted)),
{
    let sorted = sort_strings(names);
    let keys = string_bytes(&sorted);
    let ghost sv = string_views(sorted@);
    assert(sorted_bytes(string_keys(sv)));
    match fst_build(&keys) {
        Ok(b) => {
            assert(built_from(b@, string_keys(sv)));
            Ok(b)
        },
        Err(e) => Err(SyncError::Fst(fst_error_message(&e))),
    }
}

/// The name under which an index key is listed: what follows its first
/// `/`, or the whole key when it has none.
pub open spec fn listed_name(key: Seq<char>) -> Seq<char> {
    match split_once_spec(key, '/') {
        Some((_, name)) => name,
        None => key,
    }
}

/// Adds a string to a strictly ordered list of strings, unless it is there.
fn insert_sorted_unique(v: &mut Vec<String>, s: String)
    requires
        strictly_sorted(string_keys(string_views(old(v)@))),
    ensures
        strictly_sorted(string_keys(string_views(final(v)@))),
        forall|x: Seq<char>|
            #[trigger] string_views(final(v)@).contains(x) <==> (string_views(old(v)@).contains(x)
                || x == s@),
{
    let ghost ov = string_views(v@);
    let ghost ok = string_keys(ov);
    let mut pos: usize = 0;
    while pos < v.len() && matches!(compare_strings(&v[pos], &s), Order::Less)
        invariant
            pos <= v.len(),
            ov == string_views(v@),
            ok == string_keys(ov),
            forall|i: int| 0 <= i < pos ==> lex_lt(#[trigger] ok[i], str_key(s@)),
        decreases v.len() - pos,
    {
        pos = pos + 1;
    }
    if pos < v.len() && matches!(compare_strings(&v[pos], &s), Order::Equal) {
        proof {
            lemma_str_key_injective(ov[pos as int], s@);
        }
        return;
    }
    proof {
        if pos < ov.len() {
            lemma_lex_total(ok[pos as int], str_key(s@));
        }
    }
    let ghost x = s@;
    v.insert(pos, s);
    let ghost nv = string_views(v@);
    let ghost nk = string_keys(nv);
    assert(nv =~= ov.insert(pos as int, x));
    assert forall|t: int| pos <= t < ok.len() implies lex_lt(str_key(x), #[trigger] ok[t]) by {
        if t > pos {
            assert(lex_lt(ok[pos as int], ok[t]));
            lemma_lex_transitive(str_key(x), ok[pos as int], ok[t]);
        }
    }
    assert forall|a: int, b: int| 0 <= a < b < nk.len() implies lex_lt(#[trigger] nk[a], #[trigger] nk[b]) by {
        if b < pos {
            assert(nk[a] == ok[a] && nk[b] == ok[b]);
        } else if b == pos {
            assert(nk[a] == ok[a]);
        } else if a == pos {
            assert(nk[b] == ok[b - 1]);
        } else if a < pos {
            assert(nk[a] == ok[a] && nk[b] == ok[b - 1]);
            lemma_lex_transitive(ok[a], str_key(x), ok[b - 1]);
        } else {
            assert(nk[a] == ok[a - 1] && nk[b] == ok[b - 1]);
        }
    }
    assert forall|y: Seq<char>| #[trigger] nv.contains(y) <==> (ov.contains(y) || y == x) by {
        if nv.contains(y) {
            let i = choose|i: int| 0 <= i < nv.len() && nv[i] == y;
            if i < pos {
                assert(ov[i] == y);
            } else if i > pos {
                assert(ov[i - 1] == y);
            }
        }
        if ov.contains(y) {
            let i = choose|i: int| 0 <= i < ov.len() && ov[i] == y;
            if i < pos {
                assert(nv[i] == y);
            } else {
                assert(nv[i + 1] == y);
            }
        }
        if y == x {
            assert(nv[pos as int] == y);
        }
    }
}

/// The template names that the keys of a name index list: the listed name
/// of each key, once, in `String`'s order.
pub fn template_names_from_keys(keys: &Vec<Vec<u8>>) -> (r: Vec<String>)
    ensures
        strictly_sorted(string_keys(string_views(r@))),
        forall|x: Seq<char>|
            #[trigger] string_views(r@).contains(x) <==> exists|i: int|
                0 <= i < keys@.len() && listed_name(utf8_lossy_spec(keys@[i]@)) == x,
{
    let ghost ks = byte_views(keys@);
    let mut names: Vec<String> = Vec::new();
    let mut i: usize = 0;
    while i < keys.len()
        invariant
            ks == byte_views(keys@),
            i <= keys.len(),
            strictly_sorted(string_keys(string_views(names@))),
            forall|x: Seq<char>|
                #[trigger] string_views(names@).contains(x) <==> exists|j: int|
                    0 <= j < i && listed_name(utf8_lossy_spec(ks[j])) == x,
        decreases keys.len() - i,
    {
        let text = utf8_lossy(keys[i].as_slice());
        let chars = string_chars(&text);
        let name = match split_once_chars(&chars, '/') {
            Some((_, n)) => chars_to_string(&n),
            None => text,
        };
        assert(name@ == listed_name(utf8_lossy_spec(ks[i as int])));
        let ghost before = string_views(names@);
        insert_sorted_unique(&mut names, name);
        assert forall|x: Seq<char>| #[trigger] string_views(names@).contains(x) <==> exists|j: int|
            0 <= j < i + 1 && listed_name(utf8_lossy_spec(ks[j])) == x by {
            if before.contains(x) {
                let j = choose|j: int| 0 <= j < i && listed_name(utf8_lossy_spec(ks[j])) == x;
                assert(0 <= j < i + 1);
            }
            if exists|j: int| 0 <= j < i + 1 && listed_name(utf8_lossy_spec(ks[j])) == x {
                let j = choose|j: int| 0 <= j < i + 1 && listed_name(utf8_lossy_spec(ks[j])) == x;
                if j < i {
                    assert(before.contains(x));
                }
            }
        }
        i = i + 1;
    }
    assert forall|x: Seq<char>| #[trigger] string_views(names@).contains(x) <==> exists|j: int|
        0 <= j < keys@.len() && listed_name(utf8_lossy_spec(keys@[j]@)) == x by {
        if string_views(names@).contains(x) {
            let j = choose|j: int| 0 <= j < i && listed_name(utf8_lossy_spec(ks[j])) == x;
            assert(ks[j] == keys@[j]@);
        }
        if exists|j: int| 0 <= j < keys@.len() && listed_name(utf8_lossy_spec(keys@[j]@)) == x {
            let j = choose|j: int| 0 <= j < keys@.len() && listed_name(utf8_lossy_spec(keys@[j]@)) == x;
            assert(ks[j] == keys@[j]@);
        }
    }
    names
}

/// Listing an index built from index keys lists the listed name of each of
/// those keys, and nothing else: with `ks` the keys of the set built from the
/// keys `names` (the same keys), a name is listed exactly when it is the
/// listed name of one of `names`.
pub proof fn law_index_lists_its_keys(names: Seq<Seq<char>>, ks: Seq<Seq<u8>>, x: Seq<char>)
    requires
        forall|k: Seq<u8>| #[trigger] ks.contains(k) <==> string_keys(names).contains(k),
    ensures
        (exists|i: int| 0 <= i < ks.len() && listed_name(utf8_lossy_spec(ks[i])) == x) <==> (exists|
            j: int,
        |
            0 <= j < names.len() && listed_name(names[j]) == x),
{
    let sk = string_keys(names);
    if exists|i: int| 0 <= i < ks.len() && listed_name(utf8_lossy_spec(ks[i])) == x {
        let i = choose|i: int| 0 <= i < ks.len() && listed_name(utf8_lossy_spec(ks[i])) == x;
        assert(ks.contains(ks[i]));
        assert(sk.contains(ks[i]));
        let j = choose|j: int| 0 <= j < sk.len() && sk[j] == ks[i];
        vstd::utf8::encode_utf8_decode_utf8(names[j]);
        vstd::utf8::encode_utf8_valid_utf8(names[j]);
        assert(utf8_lossy_spec(ks[i]) == names[j]);
    }
    if exists|j: int| 0 <= j < names.len() && listed_name(names[j]) == x {
        let j = choose|j: int| 0 <= j < names.len() && listed_name(names[j]) == x;
        assert(sk.contains(sk[j]));
        assert(ks.contains(sk[j]));
        let i = choose|i: int| 0 <= i < ks.len() && ks[i] == sk[j];
        vstd::utf8::encode_utf8_decode_utf8(names[j]);
        vstd::utf8::encode_utf8_valid_utf8(names[j]);
        assert(utf8_lossy_spec(ks[i]) == names[j]);
    }
}

/// Listing drops exactly the source part of a key: for a source name `s`
/// without `/` and any name `n` (which may hold `/` itself), the key that
/// namespacing `n` under `s` gives, `s/n`, is listed as `n`.
pub proof fn law_listed_name_drops_source(s: Seq<char>, n: Seq<char>)
    requires
        !s.contains('/'),
    ensures
        listed_name(s + seq!['/'] + n) == n,
        listed_name(crate::sync::namespaced_spec(s, n)) == n,
{
    lemma_split_once_first(s, '/', n);
}

} // verus!
